use vstd::prelude::*;
use vstd::multiset::Multiset;

use crate::store::PlayerScore;
use crate::store::ScoreView;
use crate::store::score_view;
use crate::strutil::str_eq;

verus! {

broadcast use {vstd::seq_lib::group_filter_ensures, vstd::seq_lib::group_to_multiset_ensures,
    vstd::multiset::group_multiset_axioms};

/// How many entries a ranking page holds at most.
pub const RANK_PAGE_LIMIT: usize = 100;

/// One line of a computed ranking: a player's authoritative score and the
/// versioning key of the row it came from.
pub struct RankEntry {
    pub player_id: String,
    pub score: i64,
    pub row_num: i64,
}

impl Clone for RankEntry {
    fn clone(&self) -> (r: Self)
        ensures
            r == *self,
    {
        RankEntry { player_id: self.player_id.clone(), score: self.score, row_num: self.row_num }
    }
}

pub open spec fn entry_view(e: RankEntry) -> ScoreView {
    ScoreView { player: e.player_id@, score: e.score as int, row_num: e.row_num as int }
}

// ---------------------------------------------------------------------------
// The ranking order
// ---------------------------------------------------------------------------

/// The ranking order: higher score first; on a tie, the row uploaded earlier
/// (smaller `row_num`) first.  Because no two rows of one competition share
/// a `row_num`, this is a total order with no equal pair, so a ranking is
/// fully determined.
pub open spec fn rank_le(a: ScoreView, b: ScoreView) -> bool {
    a.score > b.score || (a.score == b.score && a.row_num <= b.row_num)
}

/// A view sequence in ranking order.
pub open spec fn sorted_views(w: Seq<ScoreView>) -> bool {
    forall|i: int, j: int| 0 <= i < j < w.len() ==> rank_le(#[trigger] w[i], #[trigger] w[j])
}

pub open spec fn sorted_ranking(s: Seq<RankEntry>) -> bool {
    sorted_views(s.map_values(|e: RankEntry| entry_view(e)))
}

/// The versioning key pins each element of the multiset: two members with
/// one `row_num` are the same member.
pub open spec fn keyed_multiset(m: Multiset<ScoreView>) -> bool {
    forall|x: ScoreView, y: ScoreView|
        #![trigger m.contains(x), m.contains(y)]
        m.contains(x) && m.contains(y) && x.row_num == y.row_num ==> x == y
}

pub open spec fn distinct_row_nums(s: Seq<RankEntry>) -> bool {
    forall|i: int, j: int|
        0 <= i < j < s.len() ==> (#[trigger] s[i]).row_num != (#[trigger] s[j]).row_num
}

// ---------------------------------------------------------------------------
// Latest score per player
// ---------------------------------------------------------------------------

/// Whether `e` carries the greatest versioning key among `v`'s rows for its
/// player: the authoritative, last-committed score.
pub open spec fn is_latest_in(v: Seq<ScoreView>, e: ScoreView) -> bool {
    forall|j: int| 0 <= j < v.len() && (#[trigger] v[j]).player == e.player ==> v[j].row_num <= e.row_num
}

/// The authoritative rows of a score log: for each player, the row with the
/// greatest `row_num`.
pub open spec fn latest_views(v: Seq<ScoreView>) -> Seq<ScoreView> {
    v.filter(|e: ScoreView| is_latest_in(v, e))
}

/// What it means for `s` to rank the log `v`: `s` holds exactly the
/// authoritative rows, in ranking order.  By [`lemma_ranking_unique`] there
/// is exactly one such `s`.
pub open spec fn is_ranking_of(v: Seq<ScoreView>, s: Seq<RankEntry>) -> bool {
    &&& sorted_ranking(s)
    &&& s.map_values(|e: RankEntry| entry_view(e)).to_multiset() == latest_views(v).to_multiset()
}

/// Folds a competition's score log into one authoritative entry per player:
/// the row with the greatest `row_num` wins, which reconstructs
/// last-committed-score-wins from the append-only log.
pub fn latest_entries(rows: &Vec<PlayerScore>) -> (out: Vec<RankEntry>)
    requires
        forall|i: int, j: int|
            0 <= i < j < rows@.len() ==> (#[trigger] rows@[i]).row_num < (#[trigger] rows@[j]).row_num,
    ensures
        out@.map_values(|e: RankEntry| entry_view(e)) == latest_views(
            rows@.map_values(|r: PlayerScore| score_view(r)),
        ),
        distinct_row_nums(out@),
{
    let ghost v = rows@.map_values(|r: PlayerScore| score_view(r));
    let n = rows.len();
    let mut out: Vec<RankEntry> = Vec::new();
    let mut i: usize = 0;
    while i < n
        invariant
            0 <= i <= n,
            n == rows@.len(),
            v == rows@.map_values(|r: PlayerScore| score_view(r)),
            forall|a: int, b: int|
                0 <= a < b < rows@.len() ==> (#[trigger] rows@[a]).row_num < (
                #[trigger] rows@[b]).row_num,
            out@.map_values(|e: RankEntry| entry_view(e)) == v.take(i as int).filter(
                |e: ScoreView| is_latest_in(v, e),
            ),
            distinct_row_nums(out@),
            forall|k: int, q: int|
                0 <= k < out@.len() && i <= q < n ==> (#[trigger] out@[k]).row_num < (
                #[trigger] rows@[q]).row_num,
        decreases n - i,
    {
        let mut latest = true;
        let mut j: usize = 0;
        while j < n
            invariant
                0 <= j <= n,
                0 <= i < n,
                n == rows@.len(),
                v == rows@.map_values(|r: PlayerScore| score_view(r)),
                latest <==> forall|q: int|
                    0 <= q < j ==> !((#[trigger] v[q]).player == v[i as int].player && v[q].row_num
                        > v[i as int].row_num),
            decreases n - j,
        {
            proof {
                assert(v[j as int] == score_view(rows@[j as int]));
                assert(v[i as int] == score_view(rows@[i as int]));
            }
            if str_eq(rows[j].player_id.as_str(), rows[i].player_id.as_str())
                && rows[j].row_num > rows[i].row_num {
                latest = false;
            }
            j = j + 1;
        }
        proof {
            assert(latest <==> is_latest_in(v, v[i as int]));
            reveal(Seq::filter);
            assert(v.take(i + 1).drop_last() =~= v.take(i as int));
            assert(v.take(i + 1).last() == v[i as int]);
            if latest {
                assert(v.take(i + 1).filter(|e: ScoreView| is_latest_in(v, e)) == v.take(
                    i as int,
                ).filter(|e: ScoreView| is_latest_in(v, e)).push(v[i as int]));
            } else {
                assert(v.take(i + 1).filter(|e: ScoreView| is_latest_in(v, e)) == v.take(
                    i as int,
                ).filter(|e: ScoreView| is_latest_in(v, e)));
            }
        }
        let ghost prev = out@;
        if latest {
            out.push(
                RankEntry {
                    player_id: rows[i].player_id.clone(),
                    score: rows[i].score,
                    row_num: rows[i].row_num,
                },
            );
            proof {
                assert(out@ == prev.push(out@.last()));
                assert(entry_view(out@.last()) == v[i as int]);
                assert(out@.map_values(|e: RankEntry| entry_view(e)) =~= prev.map_values(
                    |e: RankEntry| entry_view(e),
                ).push(v[i as int]));
                assert forall|k1: int, k2: int|
                    0 <= k1 < k2 < out@.len() implies (#[trigger] out@[k1]).row_num != (
                #[trigger] out@[k2]).row_num by {
                    if k2 == out@.len() - 1 {
                        assert(out@[k1] == prev[k1]);
                        assert(out@[k2].row_num == rows@[i as int].row_num);
                        assert(prev[k1].row_num < rows@[i as int].row_num);
                    }
                }
            }
        }
        i = i + 1;
    }
    proof {
        assert(v.take(n as int) =~= v);
    }
    out
}

// ---------------------------------------------------------------------------
// Sorting
// ---------------------------------------------------------------------------

/// Whether `a` ranks no worse than `b`.
fn rank_le_exec(a: &RankEntry, b: &RankEntry) -> (r: bool)
    ensures
        r == rank_le(entry_view(*a), entry_view(*b)),
{
    a.score > b.score || (a.score == b.score && a.row_num <= b.row_num)
}

/// Sorts entries into ranking order (insertion sort), keeping exactly the
/// same entries.
pub fn sort_ranking(v: &mut Vec<RankEntry>)
    ensures
        sorted_ranking(final(v)@),
        final(v)@.map_values(|e: RankEntry| entry_view(e)).to_multiset() == old(v)@.map_values(
            |e: RankEntry| entry_view(e),
        ).to_multiset(),
        final(v)@.len() == old(v)@.len(),
{
    let n = v.len();
    if n < 2 {
        return ;
    }
    let mut i: usize = 1;
    while i < n
        invariant
            1 <= i <= n,
            n == v@.len(),
            v@.map_values(|e: RankEntry| entry_view(e)).to_multiset() == old(v)@.map_values(
                |e: RankEntry| entry_view(e),
            ).to_multiset(),
            forall|a: int, b: int|
                0 <= a < b < i ==> rank_le(entry_view(#[trigger] v@[a]), entry_view(
                    #[trigger] v@[b],
                )),
        decreases n - i,
    {
        let mut j: usize = i;
        while j > 0 && !rank_le_exec(&v[j - 1], &v[j])
            invariant
                0 <= j <= i < n,
                n == v@.len(),
                v@.map_values(|e: RankEntry| entry_view(e)).to_multiset() == old(v)@.map_values(
                    |e: RankEntry| entry_view(e),
                ).to_multiset(),
                forall|a: int, b: int|
                    0 <= a < b <= i && b != j ==> rank_le(entry_view(#[trigger] v@[a]), entry_view(
                        #[trigger] v@[b],
                    )),
                forall|b: int|
                    j < b <= i ==> rank_le(entry_view(v@[j as int]), entry_view(#[trigger] v@[b])),
            decreases j,
        {
            let ghost before = v@;
            let ghost mb = before.map_values(|e: RankEntry| entry_view(e));
            let x = v.remove(j);
            v.insert(j - 1, x);
            proof {
                assert(v@ =~= before.update(j as int, before[j - 1]).update(
                    j - 1,
                    before[j as int],
                ));
                assert(v@.map_values(|e: RankEntry| entry_view(e)) =~= mb.update(
                    j as int,
                    mb[j - 1],
                ).update(j - 1, mb[j as int]));
                let s1 = mb.update(j as int, mb[j - 1]);
                assert(s1.to_multiset() == mb.to_multiset().insert(mb[j - 1]).remove(
                    mb[j as int],
                )) by {
                    vstd::seq_lib::to_multiset_update(mb, j as int, mb[j - 1]);
                }
                assert(s1.update(j - 1, mb[j as int]).to_multiset() == s1.to_multiset().insert(
                    mb[j as int],
                ).remove(s1[j - 1])) by {
                    vstd::seq_lib::to_multiset_update(s1, j - 1, mb[j as int]);
                }
                assert(s1[j - 1] == mb[j - 1]);
                assert(mb.contains(mb[j as int]));
                assert(mb.contains(mb[j - 1]));
                assert(mb.to_multiset().count(mb[j as int]) > 0);
                assert(mb.to_multiset().count(mb[j - 1]) > 0);
                assert(s1.update(j - 1, mb[j as int]).to_multiset() =~= mb.to_multiset());
                assert forall|a: int, b: int|
                    0 <= a < b <= i && b != j - 1 implies rank_le(
                    entry_view(#[trigger] v@[a]),
                    entry_view(#[trigger] v@[b]),
                ) by {
                    let oa = if a == j - 1 {
                        j as int
                    } else if a == j {
                        j - 1
                    } else {
                        a
                    };
                    let ob = if b == j {
                        j - 1
                    } else {
                        b
                    };
                    assert(v@[a] == before[oa]);
                    assert(v@[b] == before[ob]);
                    if oa == j as int && ob != j - 1 {
                        assert(rank_le(entry_view(before[j as int]), entry_view(before[ob])));
                    }
                }
                assert forall|b: int|
                    j - 1 < b <= i implies rank_le(
                    entry_view(v@[j - 1]),
                    entry_view(#[trigger] v@[b]),
                ) by {
                    let ob = if b == j {
                        j - 1
                    } else {
                        b
                    };
                    assert(v@[j - 1] == before[j as int]);
                    assert(v@[b] == before[ob]);
                }
            }
            j = j - 1;
        }
        proof {
            assert forall|a: int, b: int|
                0 <= a < b <= i implies rank_le(entry_view(#[trigger] v@[a]), entry_view(
                #[trigger] v@[b])) by {
                if b == j && j > 0 {
                    assert(rank_le(entry_view(v@[j - 1]), entry_view(v@[j as int])));
                    if a < j - 1 {
                        assert(rank_le(entry_view(v@[a]), entry_view(v@[j - 1])));
                    }
                }
            }
        }
        i = i + 1;
    }
    proof {
        let w = v@.map_values(|e: RankEntry| entry_view(e));
        assert forall|a: int, b: int| 0 <= a < b < w.len() implies rank_le(
            #[trigger] w[a],
            #[trigger] w[b],
        ) by {
            assert(w[a] == entry_view(v@[a]));
            assert(w[b] == entry_view(v@[b]));
        }
    }
}

// ---------------------------------------------------------------------------
// The full ranking, and its determinism
// ---------------------------------------------------------------------------

/// Every element a filter keeps comes from the sequence it filtered.
proof fn lemma_filter_elems(s: Seq<ScoreView>, pred: spec_fn(ScoreView) -> bool)
    ensures
        forall|i: int| 0 <= i < s.filter(pred).len() ==> s.contains(#[trigger] s.filter(pred)[i]),
    decreases s.len(),
{
    reveal(Seq::filter);
    if s.len() > 0 {
        let bl = s.drop_last();
        lemma_filter_elems(bl, pred);
        assert forall|i: int|
            0 <= i < s.filter(pred).len() implies s.contains(#[trigger] s.filter(pred)[i]) by {
            if i < bl.filter(pred).len() {
                assert(s.filter(pred)[i] == bl.filter(pred)[i]);
                assert(bl.contains(bl.filter(pred)[i]));
                let k = choose|k: int| 0 <= k < bl.len() && bl[k] == bl.filter(pred)[i];
                assert(s[k] == bl.filter(pred)[i]);
            } else {
                assert(s.filter(pred)[i] == s.last());
                assert(s[s.len() - 1] == s.last());
            }
        }
    }
}

/// In a log whose `row_num`s are pairwise distinct, the authoritative rows
/// form a keyed multiset: the versioning key pins each member.
pub proof fn lemma_latest_keyed(v: Seq<ScoreView>)
    requires
        forall|i: int, j: int|
            0 <= i < j < v.len() ==> (#[trigger] v[i]).row_num != (#[trigger] v[j]).row_num,
    ensures
        keyed_multiset(latest_views(v).to_multiset()),
{
    let lv = latest_views(v);
    lemma_filter_elems(v, |e: ScoreView| is_latest_in(v, e));
    assert forall|x: ScoreView, y: ScoreView|
        lv.to_multiset().contains(x) && lv.to_multiset().contains(y) && x.row_num
            == y.row_num implies x == y by {
        assert(lv.contains(x));
        assert(lv.contains(y));
        let ix = choose|ix: int| 0 <= ix < lv.len() && lv[ix] == x;
        let iy = choose|iy: int| 0 <= iy < lv.len() && lv[iy] == y;
        assert(v.contains(lv[ix]));
        assert(v.contains(lv[iy]));
        let kx = choose|kx: int| 0 <= kx < v.len() && v[kx] == x;
        let ky = choose|ky: int| 0 <= ky < v.len() && v[ky] == y;
        if kx != ky {
            assert(v[kx].row_num != v[ky].row_num);
        }
    }
}

/// Tie-break determinism: the ranking order is total, so one multiset of
/// authoritative rows has exactly one ranking.  Two sequences in ranking
/// order carrying the same keyed multiset are the same sequence.
pub proof fn lemma_ranking_unique(w1: Seq<ScoreView>, w2: Seq<ScoreView>)
    requires
        sorted_views(w1),
        sorted_views(w2),
        w1.to_multiset() == w2.to_multiset(),
        keyed_multiset(w1.to_multiset()),
    ensures
        w1 == w2,
    decreases w1.len(),
{
    if w1.len() == 0 {
        vstd::seq_lib::to_multiset_len(w1);
        vstd::seq_lib::to_multiset_len(w2);
        assert(w1 =~= w2);
    } else {
        vstd::seq_lib::to_multiset_len(w1);
        vstd::seq_lib::to_multiset_len(w2);
        assert(w2.len() == w1.len());
        assert(w1.contains(w1[0]));
        assert(w2.contains(w2[0]));
        assert(w1.to_multiset().contains(w1[0]));
        assert(w2.to_multiset().contains(w2[0]));
        assert(w1.contains(w2[0]));
        assert(w2.contains(w1[0]));
        let k1 = choose|k1: int| 0 <= k1 < w1.len() && w1[k1] == w2[0];
        let k2 = choose|k2: int| 0 <= k2 < w2.len() && w2[k2] == w1[0];
        assert(rank_le(w1[0], w1[k1]));
        assert(rank_le(w2[0], w2[k2]));
        assert(w1[0].row_num == w2[0].row_num);
        assert(w1[0] == w2[0]);
        let t1 = w1.drop_first();
        let t2 = w2.drop_first();
        assert(w1.remove(0) =~= t1);
        assert(w2.remove(0) =~= t2);
        assert(t1.to_multiset() == w1.to_multiset().remove(w1[0]));
        assert(t2.to_multiset() == w2.to_multiset().remove(w2[0]));
        assert forall|a: int, b: int| 0 <= a < b < t1.len() implies rank_le(
            #[trigger] t1[a],
            #[trigger] t1[b],
        ) by {
            assert(t1[a] == w1[a + 1]);
            assert(t1[b] == w1[b + 1]);
        }
        assert forall|a: int, b: int| 0 <= a < b < t2.len() implies rank_le(
            #[trigger] t2[a],
            #[trigger] t2[b],
        ) by {
            assert(t2[a] == w2[a + 1]);
            assert(t2[b] == w2[b + 1]);
        }
        assert(keyed_multiset(t1.to_multiset())) by {
            assert forall|x: ScoreView, y: ScoreView|
                t1.to_multiset().contains(x) && t1.to_multiset().contains(y) && x.row_num
                    == y.row_num implies x == y by {
                assert(w1.to_multiset().count(x) >= t1.to_multiset().count(x));
                assert(w1.to_multiset().count(y) >= t1.to_multiset().count(y));
                assert(w1.to_multiset().contains(x));
                assert(w1.to_multiset().contains(y));
            }
        }
        lemma_ranking_unique(t1, t2);
        assert forall|i: int| 0 <= i < w1.len() implies w1[i] == w2[i] by {
            if i > 0 {
                assert(t1[i - 1] == w1[i]);
                assert(t2[i - 1] == w2[i]);
            }
        }
        assert(w1 =~= w2);
    }
}

/// Computes the ranking of one competition's score log: the authoritative
/// score per player, in ranking order.
pub fn compute_ranking(rows: &Vec<PlayerScore>) -> (out: Vec<RankEntry>)
    requires
        forall|i: int, j: int|
            0 <= i < j < rows@.len() ==> (#[trigger] rows@[i]).row_num < (#[trigger] rows@[j]).row_num,
    ensures
        is_ranking_of(rows@.map_values(|r: PlayerScore| score_view(r)), out@),
        out@.len() == latest_views(rows@.map_values(|r: PlayerScore| score_view(r))).len(),
{
    let mut out = latest_entries(rows);
    let ghost before = out@;
    sort_ranking(&mut out);
    proof {
        let v = rows@.map_values(|r: PlayerScore| score_view(r));
        assert(before.map_values(|e: RankEntry| entry_view(e)) == latest_views(v));
        assert(out@.map_values(|e: RankEntry| entry_view(e)).to_multiset() == latest_views(
            v,
        ).to_multiset());
        assert(out@.len() == out@.map_values(|e: RankEntry| entry_view(e)).len());
        assert(latest_views(v).to_multiset().len() == latest_views(v).len());
        assert(out@.map_values(|e: RankEntry| entry_view(e)).to_multiset().len()
            == out@.map_values(|e: RankEntry| entry_view(e)).len());
    }
    out
}

/// Idempotent full replace: a full upload determines the authoritative set,
/// so two states whose score logs carry the same views — as after uploading
/// one table twice — have the same ranking, entry for entry.
pub proof fn lemma_replace_idempotent(u: Seq<ScoreView>, r1: Seq<RankEntry>, r2: Seq<RankEntry>)
    requires
        forall|i: int, j: int|
            0 <= i < j < u.len() ==> (#[trigger] u[i]).row_num != (#[trigger] u[j]).row_num,
        is_ranking_of(u, r1),
        is_ranking_of(u, r2),
    ensures
        r1.map_values(|e: RankEntry| entry_view(e)) == r2.map_values(|e: RankEntry| entry_view(e)),
{
    lemma_latest_keyed(u);
    lemma_ranking_unique(
        r1.map_values(|e: RankEntry| entry_view(e)),
        r2.map_values(|e: RankEntry| entry_view(e)),
    );
}

/// Each player with at least one row in the log has an authoritative row.
proof fn lemma_player_has_latest(v: Seq<ScoreView>, p: Seq<char>)
    requires
        exists|i: int| 0 <= i < v.len() && (#[trigger] v[i]).player == p,
    ensures
        exists|e: ScoreView|
            #![trigger e.player]
            v.contains(e) && e.player == p && is_latest_in(v, e),
    decreases v.len(),
{
    let bl = v.drop_last();
    if v.last().player == p {
        if exists|i: int| 0 <= i < bl.len() && (#[trigger] bl[i]).player == p {
            lemma_player_has_latest(bl, p);
            let e1 = choose|e1: ScoreView|
                bl.contains(e1) && #[trigger] e1.player == p && is_latest_in(bl, e1);
            let w = choose|w: int| 0 <= w < bl.len() && bl[w] == e1;
            assert(v[w] == e1);
            if e1.row_num >= v.last().row_num {
                assert forall|j: int|
                    0 <= j < v.len() && (#[trigger] v[j]).player == e1.player implies v[j].row_num
                    <= e1.row_num by {
                    if j < bl.len() {
                        assert(bl[j] == v[j]);
                    }
                }
                assert(v.contains(e1) && e1.player == p && is_latest_in(v, e1));
            } else {
                let e2 = v.last();
                assert forall|j: int|
                    0 <= j < v.len() && (#[trigger] v[j]).player == e2.player implies v[j].row_num
                    <= e2.row_num by {
                    if j < bl.len() {
                        assert(bl[j] == v[j]);
                    }
                }
                assert(v[v.len() - 1] == e2);
                assert(v.contains(e2) && e2.player == p && is_latest_in(v, e2));
            }
        } else {
            let e2 = v.last();
            assert forall|j: int|
                0 <= j < v.len() && (#[trigger] v[j]).player == e2.player implies v[j].row_num
                <= e2.row_num by {
                if j < bl.len() {
                    assert(bl[j] == v[j]);
                }
            }
            assert(v[v.len() - 1] == e2);
            assert(v.contains(e2) && e2.player == p && is_latest_in(v, e2));
        }
    } else {
        let i0 = choose|i: int| 0 <= i < v.len() && (#[trigger] v[i]).player == p;
        assert(i0 < bl.len());
        assert(bl[i0] == v[i0]);
        lemma_player_has_latest(bl, p);
        let e1 = choose|e1: ScoreView|
            bl.contains(e1) && #[trigger] e1.player == p && is_latest_in(bl, e1);
        let w = choose|w: int| 0 <= w < bl.len() && bl[w] == e1;
        assert(v[w] == e1);
        assert forall|j: int|
            0 <= j < v.len() && (#[trigger] v[j]).player == e1.player implies v[j].row_num
            <= e1.row_num by {
            if j < bl.len() {
                assert(bl[j] == v[j]);
            }
        }
        assert(v.contains(e1) && e1.player == p && is_latest_in(v, e1));
    }
}

/// Every entry of a correct ranking names a player that has a row in the
/// log: the ranking invents nobody.
pub proof fn lemma_ranked_players_scored(v: Seq<ScoreView>, s: Seq<RankEntry>, k: int)
    requires
        is_ranking_of(v, s),
        0 <= k < s.len(),
    ensures
        exists|i: int| 0 <= i < v.len() && (#[trigger] v[i]).player == s[k].player_id@,
{
    let mapped = s.map_values(|x: RankEntry| entry_view(x));
    let e = entry_view(s[k]);
    assert(mapped[k] == e);
    assert(mapped.contains(e));
    vstd::seq_lib::to_multiset_contains(mapped, e);
    vstd::seq_lib::to_multiset_contains(latest_views(v), e);
    assert(latest_views(v).contains(e));
    let w = choose|w: int| 0 <= w < latest_views(v).len() && latest_views(v)[w] == e;
    lemma_filter_elems(v, |x: ScoreView| is_latest_in(v, x));
    assert(v.contains(latest_views(v)[w]));
    let i = choose|i: int| 0 <= i < v.len() && v[i] == e;
    assert(v[i].player == s[k].player_id@);
}

/// Versioning: after a full replace only the new upload's rows exist, and
/// every uploaded player appears in the ranking with an authoritative row.
pub proof fn lemma_every_scorer_ranked(v: Seq<ScoreView>, s: Seq<RankEntry>, i: int)
    requires
        is_ranking_of(v, s),
        0 <= i < v.len(),
    ensures
        exists|k: int| 0 <= k < s.len() && entry_view(#[trigger] s[k]).player == v[i].player,
{
    lemma_player_has_latest(v, v[i].player);
    let e = choose|e: ScoreView|
        v.contains(e) && #[trigger] e.player == v[i].player && is_latest_in(v, e);
    let w = choose|w: int| 0 <= w < v.len() && v[w] == e;
    Seq::lemma_filter_contains(v, |x: ScoreView| is_latest_in(v, x), w);
    assert(latest_views(v).contains(e));
    vstd::seq_lib::to_multiset_contains(latest_views(v), e);
    vstd::seq_lib::to_multiset_contains(s.map_values(|x: RankEntry| entry_view(x)), e);
    assert(s.map_values(|x: RankEntry| entry_view(x)).contains(e));
    let mapped = s.map_values(|x: RankEntry| entry_view(x));
    let k = choose|k: int| 0 <= k < mapped.len() && #[trigger] mapped[k] == e;
    assert(entry_view(s[k]).player == v[i].player);
}

} // verus!
