use vstd::prelude::*;

use crate::error::ApiError;
use crate::ids::IdGenerator;
use crate::num::hex_seq;
use crate::strutil::str_eq;

verus! {

broadcast use vstd::seq_lib::group_filter_ensures;

/// The most rows a tenant store holds per table; far beyond anything the
/// platform sees, and small enough that every billing figure fits in `i64`.
pub const STORE_ROW_CAP: usize = 0x1000_0000;

/// The most competitions a tenant holds.
pub const COMPETITION_CAP: usize = 0x10000;

// ---------------------------------------------------------------------------
// Rows of a tenant store
// ---------------------------------------------------------------------------

/// A participant of a tenant's competitions.  Disqualification is a one-way
/// transition: no operation clears the flag.
pub struct Player {
    pub id: String,
    pub tenant_id: i64,
    pub display_name: String,
    pub is_disqualified: bool,
    pub created_at: i64,
    pub updated_at: i64,
}

impl Clone for Player {
    fn clone(&self) -> (r: Self)
        ensures
            r == *self,
    {
        Player {
            id: self.id.clone(),
            tenant_id: self.tenant_id,
            display_name: self.display_name.clone(),
            is_disqualified: self.is_disqualified,
            created_at: self.created_at,
            updated_at: self.updated_at,
        }
    }
}

/// A competition of a tenant.  `finished_at` moves from `None` to `Some`
/// exactly once and never back.
pub struct Competition {
    pub id: String,
    pub tenant_id: i64,
    pub title: String,
    pub finished_at: Option<i64>,
    pub created_at: i64,
    pub updated_at: i64,
}

impl Clone for Competition {
    fn clone(&self) -> (r: Self)
        ensures
            r == *self,
    {
        Competition {
            id: self.id.clone(),
            tenant_id: self.tenant_id,
            title: self.title.clone(),
            finished_at: match self.finished_at {
                Some(t) => Some(t),
                None => None,
            },
            created_at: self.created_at,
            updated_at: self.updated_at,
        }
    }
}

/// One line of a score upload.  The score log is append-only: a full upload
/// first deletes the competition's rows and then inserts one row per line,
/// with `row_num` the zero-based position in upload order; for a fixed
/// player the row with the greatest `row_num` is the authoritative score.
pub struct PlayerScore {
    pub id: String,
    pub tenant_id: i64,
    pub player_id: String,
    pub competition_id: String,
    pub score: i64,
    pub row_num: i64,
    pub created_at: i64,
    pub updated_at: i64,
}

impl Clone for PlayerScore {
    fn clone(&self) -> (r: Self)
        ensures
            r == *self,
    {
        PlayerScore {
            id: self.id.clone(),
            tenant_id: self.tenant_id,
            player_id: self.player_id.clone(),
            competition_id: self.competition_id.clone(),
            score: self.score,
            row_num: self.row_num,
            created_at: self.created_at,
            updated_at: self.updated_at,
        }
    }
}

/// What ranking and billing read of a score row: the player, the score and
/// the versioning key.
pub struct ScoreView {
    pub player: Seq<char>,
    pub score: int,
    pub row_num: int,
}

/// The part of a score row that ranking and billing depend on.
pub open spec fn score_view(r: PlayerScore) -> ScoreView {
    ScoreView { player: r.player_id@, score: r.score as int, row_num: r.row_num as int }
}

/// The rows of one competition, in log order.
pub open spec fn comp_rows(scores: Seq<PlayerScore>, comp: Seq<char>) -> Seq<PlayerScore> {
    scores.filter(|r: PlayerScore| r.competition_id@ == comp)
}

/// The rows of every other competition, in log order.
pub open spec fn other_rows(scores: Seq<PlayerScore>, comp: Seq<char>) -> Seq<PlayerScore> {
    scores.filter(|r: PlayerScore| r.competition_id@ != comp)
}

/// The views that one upload's lines produce: line `i` becomes the view with
/// that player, that score, and `row_num == i`.
pub open spec fn upload_view(entries: Seq<(String, i64)>) -> Seq<ScoreView> {
    Seq::new(
        entries.len(),
        |i: int| ScoreView { player: entries[i].0@, score: entries[i].1 as int, row_num: i },
    )
}

/// A score log is ordered when, within each competition, `row_num` strictly
/// increases in log order.
pub open spec fn log_ordered(scores: Seq<PlayerScore>) -> bool {
    forall|i: int, j: int|
        0 <= i < j < scores.len() && scores[i].competition_id@ == scores[j].competition_id@
            ==> scores[i].row_num < scores[j].row_num
}

proof fn lemma_comp_rows_all(s: Seq<PlayerScore>, c: Seq<char>)
    requires
        forall|i: int| 0 <= i < s.len() ==> (#[trigger] s[i]).competition_id@ == c,
    ensures
        comp_rows(s, c) == s,
    decreases s.len(),
{
    reveal(Seq::filter);
    if s.len() > 0 {
        lemma_comp_rows_all(s.drop_last(), c);
        assert(comp_rows(s, c) =~= s);
    } else {
        assert(comp_rows(s, c) =~= s);
    }
}

proof fn lemma_comp_rows_none(s: Seq<PlayerScore>, c: Seq<char>)
    requires
        forall|i: int| 0 <= i < s.len() ==> (#[trigger] s[i]).competition_id@ != c,
    ensures
        comp_rows(s, c) == Seq::<PlayerScore>::empty(),
    decreases s.len(),
{
    reveal(Seq::filter);
    if s.len() > 0 {
        lemma_comp_rows_none(s.drop_last(), c);
        assert(comp_rows(s, c) =~= Seq::<PlayerScore>::empty());
    } else {
        assert(comp_rows(s, c) =~= Seq::<PlayerScore>::empty());
    }
}

/// Keeping every row of other competitions changes nothing about any one of
/// those other competitions.
proof fn lemma_other_rows_restrict(s: Seq<PlayerScore>, c: Seq<char>, o: Seq<char>)
    requires
        o != c,
    ensures
        comp_rows(other_rows(s, c), o) == comp_rows(s, o),
    decreases s.len(),
{
    reveal(Seq::filter);
    if s.len() > 0 {
        let bl = s.drop_last();
        lemma_other_rows_restrict(bl, c, o);
        if s.last().competition_id@ != c {
            assert(other_rows(s, c) == other_rows(bl, c).push(s.last()));
            assert(other_rows(bl, c).push(s.last()).drop_last() =~= other_rows(bl, c));
        }
    }
}

/// A competition's rows keep the log's order: `row_num` strictly increases,
/// and each row belongs to that competition.
pub proof fn lemma_comp_rows_ordered(s: Seq<PlayerScore>, c: Seq<char>)
    requires
        log_ordered(s),
    ensures
        forall|i: int, j: int|
            0 <= i < j < comp_rows(s, c).len() ==> (#[trigger] comp_rows(s, c)[i]).row_num < (
            #[trigger] comp_rows(s, c)[j]).row_num,
        forall|i: int|
            0 <= i < comp_rows(s, c).len() ==> s.contains(#[trigger] comp_rows(s, c)[i])
                && comp_rows(s, c)[i].competition_id@ == c,
    decreases s.len(),
{
    reveal(Seq::filter);
    if s.len() > 0 {
        let bl = s.drop_last();
        assert(log_ordered(bl));
        lemma_comp_rows_ordered(bl, c);
        let sub = comp_rows(bl, c);
        assert forall|i: int|
            0 <= i < comp_rows(s, c).len() implies s.contains(#[trigger] comp_rows(s, c)[i])
            && comp_rows(s, c)[i].competition_id@ == c by {
            if i < sub.len() {
                assert(comp_rows(s, c)[i] == sub[i]);
                let k = choose|k: int| 0 <= k < bl.len() && bl[k] == sub[i];
                assert(s[k] == sub[i]);
            } else {
                assert(comp_rows(s, c)[i] == s.last());
                assert(s[s.len() - 1] == s.last());
            }
        }
        assert forall|i: int, j: int|
            0 <= i < j < comp_rows(s, c).len() implies (#[trigger] comp_rows(s, c)[i]).row_num < (
        #[trigger] comp_rows(s, c)[j]).row_num by {
            if j < sub.len() {
                assert(comp_rows(s, c)[i] == sub[i]);
                assert(comp_rows(s, c)[j] == sub[j]);
            } else {
                assert(comp_rows(s, c)[j] == s.last());
                assert(comp_rows(s, c)[i] == sub[i]);
                let k = choose|k: int| 0 <= k < bl.len() && bl[k] == sub[i];
                assert(s[k] == sub[i]);
                assert(s[k].competition_id@ == s[s.len() - 1].competition_id@);
            }
        }
    }
}

/// Filtering the log keeps its order, and every kept row comes from the log.
proof fn lemma_other_rows_ordered(s: Seq<PlayerScore>, c: Seq<char>)
    requires
        log_ordered(s),
    ensures
        log_ordered(other_rows(s, c)),
        forall|i: int|
            0 <= i < other_rows(s, c).len() ==> s.contains(#[trigger] other_rows(s, c)[i])
                && other_rows(s, c)[i].competition_id@ != c,
    decreases s.len(),
{
    reveal(Seq::filter);
    if s.len() > 0 {
        let bl = s.drop_last();
        assert(log_ordered(bl));
        lemma_other_rows_ordered(bl, c);
        let sub = other_rows(bl, c);
        assert forall|i: int|
            0 <= i < other_rows(s, c).len() implies s.contains(#[trigger] other_rows(s, c)[i])
            && other_rows(s, c)[i].competition_id@ != c by {
            if i < sub.len() {
                assert(other_rows(s, c)[i] == sub[i]);
                let k = choose|k: int| 0 <= k < bl.len() && bl[k] == sub[i];
                assert(s[k] == sub[i]);
            } else {
                assert(other_rows(s, c)[i] == s.last());
                assert(s[s.len() - 1] == s.last());
            }
        }
        assert forall|i: int, j: int|
            0 <= i < j < other_rows(s, c).len() && other_rows(s, c)[i].competition_id@
                == other_rows(s, c)[j].competition_id@ implies other_rows(s, c)[i].row_num
            < other_rows(s, c)[j].row_num by {
            if j < sub.len() {
                assert(other_rows(s, c)[i] == sub[i]);
                assert(other_rows(s, c)[j] == sub[j]);
            } else {
                assert(other_rows(s, c)[j] == s.last());
                assert(other_rows(s, c)[i] == sub[i]);
                let k = choose|k: int| 0 <= k < bl.len() && bl[k] == sub[i];
                assert(s[k] == sub[i]);
                assert(s[k].competition_id@ == s[s.len() - 1].competition_id@);
            }
        }
    }
}

/// The views of one competition's rows, in log order.
pub open spec fn comp_view(scores: Seq<PlayerScore>, comp: Seq<char>) -> Seq<ScoreView> {
    comp_rows(scores, comp).map_values(|r: PlayerScore| score_view(r))
}

// ---------------------------------------------------------------------------
// The tenant store
// ---------------------------------------------------------------------------

/// A tenant's isolated store: its players, competitions and score log.
pub struct TenantStore {
    pub tenant_id: i64,
    pub players: Vec<Player>,
    pub competitions: Vec<Competition>,
    pub scores: Vec<PlayerScore>,
}

impl TenantStore {
    /// The store's invariant: every row belongs to the tenant; player and
    /// competition ids are unique (they are primary keys); rows sit in
    /// insertion-time order; and within one competition the score log's
    /// `row_num` strictly increases, so the versioning key is unambiguous.
    pub open spec fn wf(self) -> bool {
        &&& self.players@.len() <= STORE_ROW_CAP
        &&& forall|i: int|
            0 <= i < self.players@.len() ==> (#[trigger] self.players@[i]).tenant_id
                == self.tenant_id
        &&& forall|i: int, j: int|
            0 <= i < j < self.players@.len() ==> self.players@[i].id@ != self.players@[j].id@
        &&& forall|i: int, j: int|
            0 <= i < j < self.players@.len() ==> self.players@[i].created_at
                <= self.players@[j].created_at
        &&& self.competitions@.len() <= COMPETITION_CAP
        &&& forall|i: int|
            0 <= i < self.competitions@.len() ==> (#[trigger] self.competitions@[i]).tenant_id
                == self.tenant_id
        &&& forall|i: int, j: int|
            0 <= i < j < self.competitions@.len() ==> self.competitions@[i].id@
                != self.competitions@[j].id@
        &&& forall|i: int, j: int|
            0 <= i < j < self.competitions@.len() ==> self.competitions@[i].created_at
                <= self.competitions@[j].created_at
        &&& self.scores@.len() <= STORE_ROW_CAP
        &&& forall|i: int|
            0 <= i < self.scores@.len() ==> (#[trigger] self.scores@[i]).tenant_id
                == self.tenant_id
        &&& forall|i: int, j: int|
            0 <= i < j < self.scores@.len() && self.scores@[i].competition_id@
                == self.scores@[j].competition_id@ ==> self.scores@[i].row_num
                < self.scores@[j].row_num
        &&& forall|i: int|
            0 <= i < self.scores@.len() ==> self.has_player(
                (#[trigger] self.scores@[i]).player_id@,
            )
    }

    /// Models the store's insertion clock: every stored player was created
    /// at or before `now`.  Insertions stamp rows with a non-decreasing
    /// clock, which is what keeps the creation-ordered listings honest.
    pub open spec fn players_clock_ok(self, now: i64) -> bool {
        forall|i: int| 0 <= i < self.players@.len() ==> (#[trigger] self.players@[i]).created_at <= now
    }

    /// The same insertion-clock assumption for competitions.
    pub open spec fn competitions_clock_ok(self, now: i64) -> bool {
        forall|i: int|
            0 <= i < self.competitions@.len() ==> (#[trigger] self.competitions@[i]).created_at
                <= now
    }

    /// Whether a player with this id exists.
    pub open spec fn has_player(self, id: Seq<char>) -> bool {
        exists|i: int| 0 <= i < self.players@.len() && (#[trigger] self.players@[i]).id@ == id
    }

    /// Whether a competition with this id exists.
    pub open spec fn has_competition(self, id: Seq<char>) -> bool {
        exists|i: int|
            0 <= i < self.competitions@.len() && (#[trigger] self.competitions@[i]).id@ == id
    }

    /// Provisions a new, empty store for a brand-new tenant.
    pub fn provision(tenant_id: i64) -> (s: TenantStore)
        ensures
            s.wf(),
            s.tenant_id == tenant_id,
            s.players@.len() == 0,
            s.competitions@.len() == 0,
            s.scores@.len() == 0,
    {
        TenantStore {
            tenant_id,
            players: Vec::new(),
            competitions: Vec::new(),
            scores: Vec::new(),
        }
    }

    /// Replaces the whole score set of one competition: deletes every prior
    /// row for it and appends one fresh row per upload line, in upload
    /// order, with `row_num` the zero-based line position and a fresh id per
    /// row.  Rows of other competitions are untouched.  The caller holds the
    /// tenant lock; within the store the replacement is one step, so no
    /// reader observes a mix of old and new rows.
    #[verifier::rlimit(80)]
    pub fn replace_scores(
        &mut self,
        comp_id: &str,
        entries: &Vec<(String, i64)>,
        gen: &mut IdGenerator,
        now: i64,
    )
        requires
            old(self).wf(),
            old(gen).counter + entries@.len() <= u64::MAX,
            other_rows(old(self).scores@, comp_id@).len() + entries@.len() <= STORE_ROW_CAP,
            forall|i: int|
                0 <= i < entries@.len() ==> old(self).has_player((#[trigger] entries@[i]).0@),
        ensures
            final(self).wf(),
            final(self).tenant_id == old(self).tenant_id,
            final(self).players == old(self).players,
            final(self).competitions == old(self).competitions,
            final(gen).counter == old(gen).counter + entries@.len(),
            final(self).scores@.len() == other_rows(old(self).scores@, comp_id@).len()
                + entries@.len(),
            final(self).scores@.subrange(
                0,
                other_rows(old(self).scores@, comp_id@).len() as int,
            ) == other_rows(old(self).scores@, comp_id@),
            forall|i: int|
                0 <= i < entries@.len() ==> {
                    let r = #[trigger] final(self).scores@[other_rows(
                        old(self).scores@,
                        comp_id@,
                    ).len() + i];
                    &&& r.id@ == hex_seq((old(gen).counter + 1 + i) as nat)
                    &&& r.tenant_id == old(self).tenant_id
                    &&& r.player_id == entries@[i].0
                    &&& r.competition_id@ == comp_id@
                    &&& r.score == entries@[i].1
                    &&& r.row_num == i
                    &&& r.created_at == now
                    &&& r.updated_at == now
                },
            comp_view(final(self).scores@, comp_id@) == upload_view(entries@),
            comp_rows(final(self).scores@, comp_id@).len() == entries@.len(),
            forall|i: int|
                0 <= i < entries@.len() ==> {
                    let r = #[trigger] comp_rows(final(self).scores@, comp_id@)[i];
                    &&& r.id@ == hex_seq((old(gen).counter + 1 + i) as nat)
                    &&& r.player_id == entries@[i].0
                    &&& r.score == entries@[i].1
                    &&& r.row_num == i
                    &&& r.created_at == now
                },
            forall|other: Seq<char>|
                other != comp_id@ ==> #[trigger] comp_rows(final(self).scores@, other)
                    == comp_rows(old(self).scores@, other),
    {
        let ghost oldscores = self.scores@;
        let ghost comp = comp_id@;
        let ghost keep = other_rows(oldscores, comp);

        // Delete: keep only the rows of other competitions, in log order.
        let mut out: Vec<PlayerScore> = Vec::new();
        let n = self.scores.len();
        let mut i: usize = 0;
        while i < n
            invariant
                0 <= i <= n,
                n == self.scores@.len(),
                self.scores@ == oldscores,
                comp == comp_id@,
                out@ == other_rows(oldscores.take(i as int), comp),
            decreases n - i,
        {
            proof {
                reveal(Seq::filter);
                assert(oldscores.take(i + 1).drop_last() =~= oldscores.take(i as int));
                assert(oldscores.take(i + 1).last() == oldscores[i as int]);
            }
            if !str_eq(self.scores[i].competition_id.as_str(), comp_id) {
                out.push(self.scores[i].clone());
            }
            i = i + 1;
        }
        proof {
            assert(oldscores.take(n as int) =~= oldscores);
            assert(out@ == keep);
            assert(keep.len() <= oldscores.len()) by {
                oldscores.lemma_filter_len(|r: PlayerScore| r.competition_id@ != comp);
            }
        }

        // Insert: one fresh row per upload line, in upload order.
        let ghost keeplen = keep.len();
        let ghost base = gen.counter;
        let m = entries.len();
        let mut k: usize = 0;
        while k < m
            invariant
                0 <= k <= m,
                m == entries@.len(),
                self.scores@ == oldscores,
                self.tenant_id == old(self).tenant_id,
                self.players == old(self).players,
                self.competitions == old(self).competitions,
                comp == comp_id@,
                keeplen == keep.len(),
                keeplen + m <= STORE_ROW_CAP,
                out@.len() == keeplen + k,
                out@.subrange(0, keeplen as int) == keep,
                gen.counter == base + k,
                base + m <= u64::MAX,
                forall|i: int|
                    keeplen <= i < keeplen + k ==> (#[trigger] out@[i]).competition_id@ == comp,
                forall|i: int|
                    0 <= i < k ==> {
                        let r = #[trigger] out@[keeplen + i];
                        &&& r.id@ == hex_seq((base + 1 + i) as nat)
                        &&& r.tenant_id == old(self).tenant_id
                        &&& r.player_id == entries@[i].0
                        &&& r.competition_id@ == comp
                        &&& r.score == entries@[i].1
                        &&& r.row_num == i
                        &&& r.created_at == now
                        &&& r.updated_at == now
                    },
            decreases m - k,
        {
            let ghost prev = out@;
            let id = gen.next_id();
            let e = &entries[k];
            out.push(
                PlayerScore {
                    id,
                    tenant_id: self.tenant_id,
                    player_id: e.0.clone(),
                    competition_id: comp_id.to_owned(),
                    score: e.1,
                    row_num: k as i64,
                    created_at: now,
                    updated_at: now,
                },
            );
            proof {
                assert(out@.subrange(0, keeplen as int) =~= prev.subrange(0, keeplen as int));
                assert(out@[keeplen + k as int] == out@.last());
            }
            k = k + 1;
        }

        let ghost outv = out@;
        let ghost news = out@.subrange(keeplen as int, out@.len() as int);
        proof {
            assert forall|i: int|
                0 <= i < news.len() implies {
                let r = #[trigger] news[i];
                &&& r.id@ == hex_seq((base + 1 + i) as nat)
                &&& r.tenant_id == old(self).tenant_id
                &&& r.player_id == entries@[i].0
                &&& r.competition_id@ == comp
                &&& r.score == entries@[i].1
                &&& r.row_num == i
                &&& r.created_at == now
                &&& r.updated_at == now
            } by {
                assert(news[i] == out@[keeplen + i]);
            }
            assert(outv =~= keep + news);
        }

        self.scores = out;

        proof {
            let newscores = self.scores@;
            assert(newscores == keep + news);
            lemma_other_rows_ordered(oldscores, comp);
            assert forall|i: int, j: int|
                0 <= i < j < newscores.len() && newscores[i].competition_id@
                    == newscores[j].competition_id@ implies newscores[i].row_num
                < newscores[j].row_num by {
                if j < keeplen {
                    assert(newscores[i] == keep[i]);
                    assert(newscores[j] == keep[j]);
                } else if i >= keeplen {
                    assert(newscores[i] == news[i - keeplen]);
                    assert(newscores[j] == news[j - keeplen]);
                } else {
                    assert(newscores[i] == keep[i]);
                    assert(newscores[j] == news[j - keeplen]);
                    assert(keep[i].competition_id@ != comp);
                }
            }
            assert forall|i: int|
                0 <= i < newscores.len() implies (#[trigger] newscores[i]).tenant_id == old(self).tenant_id by {
                if i < keeplen {
                    assert(newscores[i] == keep[i]);
                    assert(oldscores.contains(keep[i]));
                    let w = choose|w: int| 0 <= w < oldscores.len() && oldscores[w] == keep[i];
                } else {
                    assert(newscores[i] == news[i - keeplen]);
                }
            }
            assert forall|i: int|
                0 <= i < entries@.len() implies {
                let r = #[trigger] newscores[keeplen + i];
                &&& r.id@ == hex_seq((base + 1 + i) as nat)
                &&& r.tenant_id == old(self).tenant_id
                &&& r.player_id == entries@[i].0
                &&& r.competition_id@ == comp
                &&& r.score == entries@[i].1
                &&& r.row_num == i
                &&& r.created_at == now
                &&& r.updated_at == now
            } by {
                assert(newscores[keeplen + i] == news[i]);
            }
            assert(comp_rows(newscores, comp) == news) by {
                Seq::filter_distributes_over_add(
                    keep,
                    news,
                    |r: PlayerScore| r.competition_id@ == comp,
                );
                lemma_comp_rows_none(keep, comp);
                lemma_comp_rows_all(news, comp);
                assert(comp_rows(newscores, comp) =~= news);
            }
            assert(comp_view(newscores, comp) =~= upload_view(entries@));
            assert forall|i: int|
                0 <= i < entries@.len() implies {
                let r = #[trigger] comp_rows(newscores, comp)[i];
                &&& r.id@ == hex_seq((base + 1 + i) as nat)
                &&& r.player_id == entries@[i].0
                &&& r.score == entries@[i].1
                &&& r.row_num == i
                &&& r.created_at == now
            } by {
                assert(comp_rows(newscores, comp)[i] == news[i]);
            }
            assert forall|i: int|
                0 <= i < newscores.len() implies self.has_player(
                (#[trigger] newscores[i]).player_id@,
            ) by {
                if i < keeplen {
                    assert(newscores[i] == keep[i]);
                    assert(oldscores.contains(keep[i]));
                    let w = choose|w: int| 0 <= w < oldscores.len() && oldscores[w] == keep[i];
                    assert(old(self).has_player(oldscores[w].player_id@));
                    let pj = choose|pj: int|
                        0 <= pj < old(self).players@.len() && (#[trigger] old(
                            self,
                        ).players@[pj]).id@ == oldscores[w].player_id@;
                    assert(self.players@[pj].id@ == newscores[i].player_id@);
                } else {
                    assert(newscores[i] == news[i - keeplen]);
                    assert(old(self).has_player(entries@[i - keeplen].0@));
                    let pj = choose|pj: int|
                        0 <= pj < old(self).players@.len() && (#[trigger] old(
                            self,
                        ).players@[pj]).id@ == entries@[i - keeplen].0@;
                    assert(self.players@[pj].id@ == newscores[i].player_id@);
                }
            }
            assert forall|other: Seq<char>| other != comp implies #[trigger] comp_rows(
                newscores,
                other,
            ) == comp_rows(oldscores, other) by {
                Seq::filter_distributes_over_add(
                    keep,
                    news,
                    |r: PlayerScore| r.competition_id@ == other,
                );
                assert forall|i: int|
                    0 <= i < news.len() implies (#[trigger] news[i]).competition_id@ != other by {}
                lemma_comp_rows_none(news, other);
                lemma_other_rows_restrict(oldscores, comp, other);
                assert(comp_rows(newscores, other) =~= comp_rows(oldscores, other));
            }
            assert(newscores.subrange(0, keeplen as int) =~= keep);
        }
    }

    /// Looks a player up by id.
    pub fn find_player(&self, id: &str) -> (r: Option<&Player>)
        ensures
            r is Some <==> self.has_player(id@),
            r matches Some(p) ==> p.id@ == id@ && self.players@.contains(*p),
    {
        let n = self.players.len();
        let mut i: usize = 0;
        while i < n
            invariant
                0 <= i <= n,
                n == self.players@.len(),
                forall|j: int| 0 <= j < i ==> (#[trigger] self.players@[j]).id@ != id@,
            decreases n - i,
        {
            if str_eq(self.players[i].id.as_str(), id) {
                return Some(&self.players[i]);
            }
            i = i + 1;
        }
        None
    }

    /// Looks a competition up by id.
    pub fn find_competition(&self, id: &str) -> (r: Option<&Competition>)
        ensures
            r is Some <==> self.has_competition(id@),
            r matches Some(c) ==> c.id@ == id@ && self.competitions@.contains(*c),
    {
        let n = self.competitions.len();
        let mut i: usize = 0;
        while i < n
            invariant
                0 <= i <= n,
                n == self.competitions@.len(),
                forall|j: int| 0 <= j < i ==> (#[trigger] self.competitions@[j]).id@ != id@,
            decreases n - i,
        {
            if str_eq(self.competitions[i].id.as_str(), id) {
                return Some(&self.competitions[i]);
            }
            i = i + 1;
        }
        None
    }

    /// Adds a player with a fresh id.  The id sequence never repeats, so the
    /// duplicate-key arm mirrors what the store's primary key would reject;
    /// it cannot be reached through a well-formed id sequence.
    pub fn add_player(&mut self, gen: &mut IdGenerator, display_name: &str, now: i64) -> (r: Result<
        Player,
        ApiError,
    >)
        requires
            old(self).wf(),
            old(gen).counter < u64::MAX,
            old(self).players@.len() < STORE_ROW_CAP,
            old(self).players_clock_ok(now),
        ensures
            final(self).wf(),
            final(gen).counter == old(gen).counter + 1,
            final(self).tenant_id == old(self).tenant_id,
            final(self).competitions == old(self).competitions,
            final(self).scores == old(self).scores,
            old(self).has_player(hex_seq((old(gen).counter + 1) as nat)) ==> r == Err::<
                Player,
                ApiError,
            >(ApiError::Internal) && final(self).players == old(self).players,
            !old(self).has_player(hex_seq((old(gen).counter + 1) as nat)) ==> r is Ok,
            r matches Ok(p) ==> {
                &&& p.id@ == hex_seq((old(gen).counter + 1) as nat)
                &&& p.tenant_id == old(self).tenant_id
                &&& p.display_name@ == display_name@
                &&& !p.is_disqualified
                &&& p.created_at == now
                &&& p.updated_at == now
                &&& final(self).players@ == old(self).players@.push(p)
            },
    {
        let id = gen.next_id();
        if self.find_player(id.as_str()).is_some() {
            return Err(ApiError::Internal);
        }
        let p = Player {
            id,
            tenant_id: self.tenant_id,
            display_name: display_name.to_owned(),
            is_disqualified: false,
            created_at: now,
            updated_at: now,
        };
        let ret = p.clone();
        self.players.push(p);
        proof {
            assert(self.players@.last() == ret);
            assert forall|i: int, j: int|
                0 <= i < j < self.players@.len() implies self.players@[i].id@
                != self.players@[j].id@ by {
                if j == self.players@.len() - 1 {
                    assert(self.players@[i] == old(self).players@[i]);
                }
            }
            assert forall|i: int|
                0 <= i < self.scores@.len() implies self.has_player(
                (#[trigger] self.scores@[i]).player_id@,
            ) by {
                assert(old(self).has_player(old(self).scores@[i].player_id@));
                let pj = choose|pj: int|
                    0 <= pj < old(self).players@.len() && (#[trigger] old(self).players@[pj]).id@
                        == old(self).scores@[i].player_id@;
                assert(self.players@[pj].id@ == self.scores@[i].player_id@);
            }
        }
        Ok(ret)
    }

    /// Adds a competition with a fresh id and no finish time.
    pub fn add_competition(&mut self, gen: &mut IdGenerator, title: &str, now: i64) -> (r: Result<
        Competition,
        ApiError,
    >)
        requires
            old(self).wf(),
            old(gen).counter < u64::MAX,
            old(self).competitions@.len() < COMPETITION_CAP,
            forall|i: int|
                0 <= i < old(self).competitions@.len() ==> (#[trigger] old(self).competitions@[i]).created_at <= now,
        ensures
            final(self).wf(),
            final(gen).counter == old(gen).counter + 1,
            final(self).tenant_id == old(self).tenant_id,
            final(self).players == old(self).players,
            final(self).scores == old(self).scores,
            old(self).has_competition(hex_seq((old(gen).counter + 1) as nat)) ==> r == Err::<
                Competition,
                ApiError,
            >(ApiError::Internal) && final(self).competitions == old(self).competitions,
            !old(self).has_competition(hex_seq((old(gen).counter + 1) as nat)) ==> r is Ok,
            r matches Ok(c) ==> {
                &&& c.id@ == hex_seq((old(gen).counter + 1) as nat)
                &&& c.tenant_id == old(self).tenant_id
                &&& c.title@ == title@
                &&& c.finished_at is None
                &&& c.created_at == now
                &&& c.updated_at == now
                &&& final(self).competitions@ == old(self).competitions@.push(c)
            },
    {
        let id = gen.next_id();
        if self.find_competition(id.as_str()).is_some() {
            return Err(ApiError::Internal);
        }
        let c = Competition {
            id,
            tenant_id: self.tenant_id,
            title: title.to_owned(),
            finished_at: None,
            created_at: now,
            updated_at: now,
        };
        let ret = c.clone();
        self.competitions.push(c);
        proof {
            assert(self.competitions@.last() == ret);
            assert forall|i: int, j: int|
                0 <= i < j < self.competitions@.len() implies self.competitions@[i].id@
                != self.competitions@[j].id@ by {
                if j == self.competitions@.len() - 1 {
                    assert(self.competitions@[i] == old(self).competitions@[i]);
                }
            }
            assert forall|q: int|
                0 <= q < self.scores@.len() implies self.has_player(
                (#[trigger] self.scores@[q]).player_id@,
            ) by {
                assert(old(self).has_player(old(self).scores@[q].player_id@));
                let pj = choose|pj: int|
                    0 <= pj < old(self).players@.len() && (#[trigger] old(self).players@[pj]).id@
                        == old(self).scores@[q].player_id@;
                assert(self.players@[pj].id@ == self.scores@[q].player_id@);
            }
        }
        Ok(ret)
    }

    /// Disqualifies a player: a one-way transition.  Every other player and
    /// every other field is untouched.
    pub fn disqualify_player(&mut self, player_id: &str, now: i64) -> (r: Result<Player, ApiError>)
        requires
            old(self).wf(),
        ensures
            final(self).wf(),
            final(self).tenant_id == old(self).tenant_id,
            final(self).competitions == old(self).competitions,
            final(self).scores == old(self).scores,
            r is Err <==> !old(self).has_player(player_id@),
            r is Err ==> r == Err::<Player, ApiError>(ApiError::PlayerNotFound) && final(self).players == old(self).players,
            r is Ok ==> {
                &&& final(self).players@.len() == old(self).players@.len()
                &&& forall|j: int|
                    0 <= j < old(self).players@.len() ==> {
                        let np = #[trigger] final(self).players@[j];
                        let op = old(self).players@[j];
                        &&& np.id == op.id
                        &&& np.tenant_id == op.tenant_id
                        &&& np.display_name == op.display_name
                        &&& np.created_at == op.created_at
                        &&& np.is_disqualified == (op.is_disqualified || op.id@ == player_id@)
                        &&& np.updated_at == if op.id@ == player_id@ {
                            now
                        } else {
                            op.updated_at
                        }
                    }
            },
            r matches Ok(p) ==> p.id@ == player_id@ && p.is_disqualified,
    {
        let n = self.players.len();
        let mut i: usize = 0;
        while i < n
            invariant
                0 <= i <= n,
                n == self.players@.len(),
                *self == *old(self),
                old(self).wf(),
                forall|j: int| 0 <= j < i ==> (#[trigger] self.players@[j]).id@ != player_id@,
            decreases n - i,
        {
            if str_eq(self.players[i].id.as_str(), player_id) {
                let mut p = self.players[i].clone();
                p.is_disqualified = true;
                p.updated_at = now;
                let ret = p.clone();
                self.players[i] = p;
                proof {
                    assert(self.players@ == old(self).players@.update(i as int, ret));
                    assert forall|a: int, b: int|
                        0 <= a < b < self.players@.len() implies self.players@[a].id@
                        != self.players@[b].id@ by {
                        assert(self.players@[a].id == old(self).players@[a].id);
                        assert(self.players@[b].id == old(self).players@[b].id);
                    }
                    assert forall|q: int|
                        0 <= q < self.scores@.len() implies self.has_player(
                        (#[trigger] self.scores@[q]).player_id@,
                    ) by {
                        assert(old(self).has_player(old(self).scores@[q].player_id@));
                        let pj = choose|pj: int|
                            0 <= pj < old(self).players@.len() && (#[trigger] old(
                                self,
                            ).players@[pj]).id@ == old(self).scores@[q].player_id@;
                        assert(self.players@[pj].id == old(self).players@[pj].id);
                        assert(self.players@[pj].id@ == self.scores@[q].player_id@);
                    }
                }
                return Ok(ret);
            }
            i = i + 1;
        }
        Err(ApiError::PlayerNotFound)
    }

    /// Closes a competition.  The finish time is set exactly once: closing
    /// an already-finished competition changes nothing.
    pub fn finish_competition(&mut self, comp_id: &str, now: i64) -> (r: Result<(), ApiError>)
        requires
            old(self).wf(),
        ensures
            final(self).wf(),
            final(self).tenant_id == old(self).tenant_id,
            final(self).players == old(self).players,
            final(self).scores == old(self).scores,
            r is Err <==> !old(self).has_competition(comp_id@),
            r is Err ==> r == Err::<(), ApiError>(ApiError::CompetitionNotFound) && final(self).competitions == old(self).competitions,
            r is Ok ==> {
                &&& final(self).competitions@.len() == old(self).competitions@.len()
                &&& forall|j: int|
                    0 <= j < old(self).competitions@.len() ==> {
                        let nc = #[trigger] final(self).competitions@[j];
                        let oc = old(self).competitions@[j];
                        &&& nc.id == oc.id
                        &&& nc.tenant_id == oc.tenant_id
                        &&& nc.title == oc.title
                        &&& nc.created_at == oc.created_at
                        &&& nc.finished_at == if oc.id@ == comp_id@ && oc.finished_at is None {
                            Some(now)
                        } else {
                            oc.finished_at
                        }
                        &&& nc.updated_at == if oc.id@ == comp_id@ && oc.finished_at is None {
                            now
                        } else {
                            oc.updated_at
                        }
                    }
            },
    {
        let n = self.competitions.len();
        let mut i: usize = 0;
        while i < n
            invariant
                0 <= i <= n,
                n == self.competitions@.len(),
                *self == *old(self),
                old(self).wf(),
                forall|j: int| 0 <= j < i ==> (#[trigger] self.competitions@[j]).id@ != comp_id@,
            decreases n - i,
        {
            if str_eq(self.competitions[i].id.as_str(), comp_id) {
                if self.competitions[i].finished_at.is_some() {
                    return Ok(());
                }
                let mut c = self.competitions[i].clone();
                c.finished_at = Some(now);
                c.updated_at = now;
                self.competitions[i] = c;
                proof {
                    assert forall|a: int, b: int|
                        0 <= a < b < self.competitions@.len() implies self.competitions@[a].id@
                        != self.competitions@[b].id@ by {
                        assert(self.competitions@[a].id == old(self).competitions@[a].id);
                        assert(self.competitions@[b].id == old(self).competitions@[b].id);
                    }
                    assert forall|q: int|
                        0 <= q < self.scores@.len() implies self.has_player(
                        (#[trigger] self.scores@[q]).player_id@,
                    ) by {
                        assert(old(self).has_player(old(self).scores@[q].player_id@));
                        let pj = choose|pj: int|
                            0 <= pj < old(self).players@.len() && (#[trigger] old(
                                self,
                            ).players@[pj]).id@ == old(self).scores@[q].player_id@;
                        assert(self.players@[pj].id@ == self.scores@[q].player_id@);
                    }
                }
                return Ok(());
            }
            i = i + 1;
        }
        Err(ApiError::CompetitionNotFound)
    }

    /// The rows of one competition, cloned out of the log in log order.
    pub fn scores_for(&self, comp_id: &str) -> (out: Vec<PlayerScore>)
        ensures
            out@ == comp_rows(self.scores@, comp_id@),
    {
        let ghost comp = comp_id@;
        let n = self.scores.len();
        let mut out: Vec<PlayerScore> = Vec::new();
        let mut i: usize = 0;
        while i < n
            invariant
                0 <= i <= n,
                n == self.scores@.len(),
                comp == comp_id@,
                out@ == comp_rows(self.scores@.take(i as int), comp),
            decreases n - i,
        {
            proof {
                reveal(Seq::filter);
                assert(self.scores@.take(i + 1).drop_last() =~= self.scores@.take(i as int));
                assert(self.scores@.take(i + 1).last() == self.scores@[i as int]);
            }
            if str_eq(self.scores[i].competition_id.as_str(), comp_id) {
                out.push(self.scores[i].clone());
            }
            i = i + 1;
        }
        proof {
            assert(self.scores@.take(n as int) =~= self.scores@);
        }
        out
    }

    /// The authoritative score row of one player in one competition: the row
    /// with the greatest `row_num`, or `None` when the player has no row.
    pub fn latest_score_row(&self, comp_id: &str, player_id: &str) -> (r: Option<PlayerScore>)
        requires
            self.wf(),
        ensures
            r is Some <==> exists|i: int|
                0 <= i < comp_rows(self.scores@, comp_id@).len() && (#[trigger] comp_rows(
                    self.scores@,
                    comp_id@,
                )[i]).player_id@ == player_id@,
            r matches Some(x) ==> {
                let v = comp_rows(self.scores@, comp_id@);
                &&& x.player_id@ == player_id@
                &&& v.contains(x)
                &&& forall|j: int|
                    0 <= j < v.len() && (#[trigger] v[j]).player_id@ == player_id@ ==> v[j].row_num
                        <= x.row_num
            },
    {
        let rows = self.scores_for(comp_id);
        let ghost v = comp_rows(self.scores@, comp_id@);
        proof {
            lemma_comp_rows_ordered(self.scores@, comp_id@);
        }
        let n = rows.len();
        let mut i: usize = n;
        while i > 0
            invariant
                0 <= i <= n,
                n == rows@.len(),
                rows@ == v,
                v == comp_rows(self.scores@, comp_id@),
                forall|q: int| i <= q < n ==> (#[trigger] v[q]).player_id@ != player_id@,
                forall|a: int, b: int|
                    0 <= a < b < v.len() ==> (#[trigger] v[a]).row_num < (#[trigger] v[b]).row_num,
            decreases i,
        {
            i = i - 1;
            if str_eq(rows[i].player_id.as_str(), player_id) {
                let x = rows[i].clone();
                proof {
                    assert(comp_rows(self.scores@, comp_id@)[i as int] == x);
                    assert(v.contains(x));
                }
                return Some(x);
            }
        }
        None
    }
}

} // verus!
