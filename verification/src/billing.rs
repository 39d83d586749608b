use vstd::prelude::*;

use crate::error::ApiError;
use crate::store::Competition;
use crate::store::PlayerScore;
use crate::store::STORE_ROW_CAP;
use crate::strutil::contains_str;
use crate::strutil::str_eq;

verus! {

broadcast use {vstd::seq_lib::group_filter_ensures, vstd::seq_lib::seq_to_set_is_finite};

/// A player is billed 100 yen when a score was recorded for them.
pub const PLAYER_YEN: i64 = 100;

/// A visitor is billed 10 yen when they viewed the ranking but never had a
/// score recorded.
pub const VISITOR_YEN: i64 = 10;

/// One row of the shared store's cross-tenant visit log: one ranking view by
/// one player.
pub struct VisitHistory {
    pub player_id: String,
    pub tenant_id: i64,
    pub competition_id: String,
    pub created_at: i64,
    pub updated_at: i64,
}

impl Clone for VisitHistory {
    fn clone(&self) -> (r: Self)
        ensures
            r == *self,
    {
        VisitHistory {
            player_id: self.player_id.clone(),
            tenant_id: self.tenant_id,
            competition_id: self.competition_id.clone(),
            created_at: self.created_at,
            updated_at: self.updated_at,
        }
    }
}

/// The billing figures of one competition, recomputed on request and never
/// persisted.
pub struct BillingReport {
    pub competition_id: String,
    pub competition_title: String,
    pub player_count: i64,
    pub visitor_count: i64,
    pub billing_player_yen: i64,
    pub billing_visitor_yen: i64,
    pub billing_yen: i64,
}

impl Clone for BillingReport {
    fn clone(&self) -> (r: Self)
        ensures
            r == *self,
    {
        BillingReport {
            competition_id: self.competition_id.clone(),
            competition_title: self.competition_title.clone(),
            player_count: self.player_count,
            visitor_count: self.visitor_count,
            billing_player_yen: self.billing_player_yen,
            billing_visitor_yen: self.billing_visitor_yen,
            billing_yen: self.billing_yen,
        }
    }
}

// ---------------------------------------------------------------------------
// First-visit times
// ---------------------------------------------------------------------------

/// The earliest visit time of player `p` within `(t, c)`, or `None` if the
/// player never visited: the "first visit time" that billing eligibility is
/// judged by.
pub open spec fn visit_min(visits: Seq<VisitHistory>, t: int, c: Seq<char>, p: Seq<char>) -> Option<
    int,
>
    decreases visits.len(),
{
    if visits.len() == 0 {
        None
    } else {
        let rest = visit_min(visits.drop_last(), t, c, p);
        let last = visits.last();
        if last.tenant_id == t && last.competition_id@ == c && last.player_id@ == p {
            match rest {
                None => Some(last.created_at as int),
                Some(m) => if last.created_at < m {
                    Some(last.created_at as int)
                } else {
                    Some(m)
                },
            }
        } else {
            rest
        }
    }
}

/// Aggregates the visit log into one `(player, first visit time)` pair per
/// player that visited `(tenant_id, comp_id)`.
pub fn first_visits(visits: &Vec<VisitHistory>, tenant_id: i64, comp_id: &str) -> (out: Vec<
    (String, i64),
>)
    ensures
        out@.len() <= visits@.len(),
        out@.map_values(|pm: (String, i64)| pm.0@).no_duplicates(),
        forall|k: int|
            0 <= k < out@.len() ==> visit_min(visits@, tenant_id as int, comp_id@, (
            #[trigger] out@[k]).0@) == Some(out@[k].1 as int),
        forall|p: Seq<char>|
            #[trigger] visit_min(visits@, tenant_id as int, comp_id@, p) is Some ==> exists|k: int|
                0 <= k < out@.len() && (#[trigger] out@[k]).0@ == p,
{
    let ghost t = tenant_id as int;
    let ghost c = comp_id@;
    let n = visits.len();
    let mut out: Vec<(String, i64)> = Vec::new();
    let mut i: usize = 0;
    while i < n
        invariant
            0 <= i <= n,
            n == visits@.len(),
            out@.len() <= i,
            t == tenant_id as int,
            c == comp_id@,
            out@.map_values(|pm: (String, i64)| pm.0@).no_duplicates(),
            forall|k: int|
                0 <= k < out@.len() ==> visit_min(visits@.take(i as int), t, c, (
                #[trigger] out@[k]).0@) == Some(out@[k].1 as int),
            forall|p: Seq<char>|
                #[trigger] visit_min(visits@.take(i as int), t, c, p) is Some ==> exists|k: int|
                    0 <= k < out@.len() && (#[trigger] out@[k]).0@ == p,
        decreases n - i,
    {
        let ghost pre = visits@.take(i as int);
        let ghost cur = visits@.take(i + 1);
        proof {
            assert(cur.drop_last() =~= pre);
            assert(cur.last() == visits@[i as int]);
        }
        let row = &visits[i];
        if row.tenant_id == tenant_id && str_eq(row.competition_id.as_str(), comp_id) {
            let ghost pr = row.player_id@;
            let m = out.len();
            let mut j: usize = 0;
            let mut found = false;
            while j < m && !found
                invariant
                    0 <= j <= m,
                    m == out@.len(),
                    pr == row.player_id@,
                    !found ==> forall|q: int| 0 <= q < j ==> (#[trigger] out@[q]).0@ != pr,
                    found ==> j < m && out@[j as int].0@ == pr,
                decreases m - j + if found {
                    0int
                } else {
                    1int
                },
            {
                if str_eq(out[j].0.as_str(), row.player_id.as_str()) {
                    found = true;
                } else {
                    j = j + 1;
                }
            }
            let ghost prev = out@;
            if found {
                if row.created_at < out[j].1 {
                    let pl = out[j].0.clone();
                    let newmin = row.created_at;
                    out[j] = (pl, newmin);
                }
                proof {
                    assert(out@.map_values(|pm: (String, i64)| pm.0@) =~= prev.map_values(
                        |pm: (String, i64)| pm.0@,
                    ));
                    assert forall|k: int|
                        0 <= k < out@.len() implies visit_min(cur, t, c, (
                    #[trigger] out@[k]).0@) == Some(out@[k].1 as int) by {
                        if k == j {
                            assert(prev[k].0@ == pr);
                            assert(out@[k].0@ == pr);
                            assert(visit_min(pre, t, c, pr) == Some(prev[k].1 as int));
                        } else {
                            assert(out@[k] == prev[k]);
                            assert(out@[k].0@ != pr) by {
                                assert(prev.map_values(|pm: (String, i64)| pm.0@)[k] == prev[k].0@);
                                assert(prev.map_values(|pm: (String, i64)| pm.0@)[j as int]
                                    == prev[j as int].0@);
                            }
                        }
                    }
                    assert forall|p: Seq<char>|
                        #[trigger] visit_min(cur, t, c, p) is Some implies exists|k: int|
                            0 <= k < out@.len() && (#[trigger] out@[k]).0@ == p by {
                        if p == pr {
                            assert(out@[j as int].0@ == pr);
                        } else {
                            assert(visit_min(pre, t, c, p) is Some);
                            let k = choose|k: int|
                                0 <= k < prev.len() && (#[trigger] prev[k]).0@ == p;
                            assert(out@[k].0@ == p);
                        }
                    }
                }
            } else {
                out.push((row.player_id.clone(), row.created_at));
                proof {
                    assert(out@.map_values(|pm: (String, i64)| pm.0@) =~= prev.map_values(
                        |pm: (String, i64)| pm.0@,
                    ).push(pr));
                    let pm0 = prev.map_values(|pm: (String, i64)| pm.0@);
                    assert(!pm0.contains(pr)) by {
                        if pm0.contains(pr) {
                            let q = choose|q: int| 0 <= q < pm0.len() && pm0[q] == pr;
                            assert(prev[q].0@ == pr);
                        }
                    }
                    lemma_push_no_duplicates(pm0, pr);
                    assert(visit_min(pre, t, c, pr) is None) by {
                        if visit_min(pre, t, c, pr) is Some {
                            let k = choose|k: int|
                                0 <= k < prev.len() && (#[trigger] prev[k]).0@ == pr;
                        }
                    }
                    assert forall|k: int|
                        0 <= k < out@.len() implies visit_min(cur, t, c, (
                    #[trigger] out@[k]).0@) == Some(out@[k].1 as int) by {
                        if k < prev.len() {
                            assert(out@[k] == prev[k]);
                            assert(out@[k].0@ != pr) by {
                                if prev[k].0@ == pr {
                                    assert(visit_min(pre, t, c, prev[k].0@) == Some(
                                        prev[k].1 as int,
                                    ));
                                }
                            }
                        } else {
                            assert(out@[k].0@ == pr);
                        }
                    }
                    assert forall|p: Seq<char>|
                        #[trigger] visit_min(cur, t, c, p) is Some implies exists|k: int|
                            0 <= k < out@.len() && (#[trigger] out@[k]).0@ == p by {
                        if p == pr {
                            assert(out@[out@.len() - 1].0@ == pr);
                        } else {
                            assert(visit_min(pre, t, c, p) is Some);
                            let k = choose|k: int|
                                0 <= k < prev.len() && (#[trigger] prev[k]).0@ == p;
                            assert(out@[k].0@ == p);
                        }
                    }
                }
            }
        } else {
            proof {
                assert forall|p: Seq<char>| #[trigger] visit_min(cur, t, c, p) == visit_min(
                    pre,
                    t,
                    c,
                    p,
                ) by {}
            }
        }
        i = i + 1;
    }
    proof {
        assert(visits@.take(n as int) =~= visits@);
    }
    out
}

// ---------------------------------------------------------------------------
// Classification and counting
// ---------------------------------------------------------------------------

/// Whether a score row for player `p` exists in competition `c`.
pub open spec fn scored_in(scores: Seq<PlayerScore>, c: Seq<char>, p: Seq<char>) -> bool {
    exists|i: int|
        0 <= i < scores.len() && (#[trigger] scores[i]).competition_id@ == c && scores[i].player_id@
            == p
}

/// The players billed as scorers: everyone with a score row in the
/// competition, whether or not they also visited.
pub open spec fn scored_set(scores: Seq<PlayerScore>, c: Seq<char>) -> Set<Seq<char>> {
    Set::new(|p: Seq<char>| scored_in(scores, c, p))
}

/// The players billed as visitors: first visit at or before the finish
/// time, and no score recorded.  A first visit strictly after the finish
/// time does not count as in-competition access at all.
pub open spec fn visitor_set(
    visits: Seq<VisitHistory>,
    t: int,
    c: Seq<char>,
    fin: int,
    scores: Seq<PlayerScore>,
) -> Set<Seq<char>> {
    Set::new(
        |p: Seq<char>|
            (visit_min(visits, t, c, p) matches Some(m) && m <= fin) && !scored_in(scores, c, p),
    )
}

/// Extracts the distinct players that have a score row in competition
/// `comp_id`, as the shared query `SELECT DISTINCT player_id` would.
pub fn scored_players(scores: &Vec<PlayerScore>, comp_id: &str) -> (out: Vec<String>)
    ensures
        out@.len() <= scores@.len(),
        out.deep_view().no_duplicates(),
        forall|p: Seq<char>|
            #[trigger] out.deep_view().contains(p) <==> scored_in(scores@, comp_id@, p),
{
    let ghost c = comp_id@;
    let n = scores.len();
    let mut out: Vec<String> = Vec::new();
    let mut i: usize = 0;
    while i < n
        invariant
            0 <= i <= n,
            n == scores@.len(),
            out@.len() <= i,
            c == comp_id@,
            out.deep_view().no_duplicates(),
            forall|p: Seq<char>|
                #[trigger] out.deep_view().contains(p) <==> scored_in(
                    scores@.take(i as int),
                    c,
                    p,
                ),
        decreases n - i,
    {
        let ghost dv_pre = out.deep_view();
        let row = &scores[i];
        if str_eq(row.competition_id.as_str(), comp_id) && !contains_str(
            &out,
            row.player_id.as_str(),
        ) {
            out.push(row.player_id.clone());
            proof {
                assert(out.deep_view() =~= dv_pre.push(row.player_id@));
                lemma_push_no_duplicates(dv_pre, row.player_id@);
            }
        }
        proof {
            let pre = scores@.take(i as int);
            let cur = scores@.take(i + 1);
            let dv = out.deep_view();
            let pr = scores@[i as int].player_id@;
            assert(cur[i as int] == scores@[i as int]);
            assert forall|q: int| 0 <= q < pre.len() implies cur[q] == pre[q] by {}
            assert forall|p: Seq<char>|
                #[trigger] dv.contains(p) <==> scored_in(cur, c, p) by {
                if dv.contains(p) {
                    let k = choose|k: int| 0 <= k < dv.len() && dv[k] == p;
                    if k < dv_pre.len() {
                        assert(dv[k] == dv_pre[k]);
                        assert(dv_pre.contains(p));
                        assert(scored_in(pre, c, p));
                        let w = choose|w: int|
                            0 <= w < pre.len() && (#[trigger] pre[w]).competition_id@ == c
                                && pre[w].player_id@ == p;
                        assert(cur[w] == pre[w]);
                        assert(scored_in(cur, c, p));
                    } else {
                        assert(p == pr);
                        assert(scores@[i as int].competition_id@ == c);
                        assert(scored_in(cur, c, p));
                    }
                }
                if scored_in(cur, c, p) {
                    let w = choose|w: int|
                        0 <= w < cur.len() && (#[trigger] cur[w]).competition_id@ == c
                            && cur[w].player_id@ == p;
                    if w < i {
                        assert(pre[w] == cur[w]);
                        assert(scored_in(pre, c, p));
                        assert(dv_pre.contains(p));
                        let k = choose|k: int| 0 <= k < dv_pre.len() && dv_pre[k] == p;
                        assert(dv[k] == dv_pre[k]);
                        assert(dv.contains(p));
                    } else {
                        assert(p == pr && scores@[i as int].competition_id@ == c);
                        if dv_pre.contains(p) {
                            let k = choose|k: int| 0 <= k < dv_pre.len() && dv_pre[k] == p;
                            assert(dv[k] == dv_pre[k]);
                            assert(dv.contains(p));
                        } else {
                            assert(dv == dv_pre.push(pr));
                            assert(dv[dv.len() - 1] == pr);
                            assert(dv.contains(p));
                        }
                    }
                }
            }
        }
        i = i + 1;
    }
    proof {
        assert(scores@.take(n as int) =~= scores@);
    }
    out
}

/// Pushing a fresh element keeps a sequence duplicate-free.
proof fn lemma_push_no_duplicates(s: Seq<Seq<char>>, x: Seq<char>)
    requires
        s.no_duplicates(),
        !s.contains(x),
    ensures
        s.push(x).no_duplicates(),
{
    assert forall|k1: int, k2: int|
        0 <= k1 < k2 < s.push(x).len() implies #[trigger] s.push(x)[k1] != #[trigger] s.push(
        x,
    )[k2] by {
        if k2 == s.len() {
            assert(s.push(x)[k1] == s[k1]);
            assert(s.contains(s[k1]));
        }
    }
}

/// A duplicate-free list of ids carries exactly the cardinality of the set
/// of its members.
pub proof fn lemma_count_distinct(ids: Seq<Seq<char>>, s: Set<Seq<char>>)
    requires
        ids.no_duplicates(),
        forall|p: Seq<char>| #[trigger] ids.contains(p) <==> s.contains(p),
    ensures
        s.finite(),
        s.len() == ids.len(),
{
    ids.unique_seq_to_set();
    assert(ids.to_set() =~= s);
}

// ---------------------------------------------------------------------------
// The billing report
// ---------------------------------------------------------------------------

/// What the billing report of one competition must say, given the visit log
/// and the competition's score log.  Counts are the cardinalities of the two
/// classification sets; while the competition is unfinished every count is
/// zero, because billing is unrealized until it closes.  These clauses pin
/// every field, so any two reports computed from the same data are equal
/// ([`lemma_report_stable`]).
pub open spec fn report_matches(
    r: BillingReport,
    comp: Competition,
    visits: Seq<VisitHistory>,
    t: int,
    scores: Seq<PlayerScore>,
) -> bool {
    &&& r.competition_id == comp.id
    &&& r.competition_title == comp.title
    &&& (comp.finished_at is None ==> r.player_count == 0 && r.visitor_count == 0)
    &&& (comp.finished_at matches Some(fin) ==> r.player_count == scored_set(
        scores,
        comp.id@,
    ).len() && r.visitor_count == visitor_set(visits, t, comp.id@, fin as int, scores).len())
    &&& r.billing_player_yen == PLAYER_YEN * r.player_count
    &&& r.billing_visitor_yen == VISITOR_YEN * r.visitor_count
    &&& r.billing_yen == r.billing_player_yen + r.billing_visitor_yen
}

/// Computes one competition's billing report from the shared store's visit
/// log and the tenant store's score log.  The caller reads the score log
/// under the tenant lock.
pub fn billing_report_compute(
    comp: &Competition,
    visits: &Vec<VisitHistory>,
    tenant_id: i64,
    scores: &Vec<PlayerScore>,
) -> (r: BillingReport)
    requires
        visits@.len() <= STORE_ROW_CAP,
        scores@.len() <= STORE_ROW_CAP,
    ensures
        report_matches(r, *comp, visits@, tenant_id as int, scores@),
        0 <= r.player_count <= scores@.len(),
        0 <= r.visitor_count <= visits@.len(),
        0 <= r.billing_yen <= PLAYER_YEN * scores@.len() + VISITOR_YEN * visits@.len(),
{
    let ghost c = comp.id@;
    let ghost t = tenant_id as int;
    let fin_opt = comp.finished_at;
    let mut player_count: i64 = 0;
    let mut visitor_count: i64 = 0;
    if let Some(fin) = fin_opt {
        let vm = first_visits(visits, tenant_id, comp.id.as_str());
        let scored = scored_players(scores, comp.id.as_str());
        proof {
            lemma_count_distinct(scored.deep_view(), scored_set(scores@, c));
        }
        player_count = scored.len() as i64;
        let mut visitors: Vec<String> = Vec::new();
        let m = vm.len();
        let mut k: usize = 0;
        while k < m
            invariant
                0 <= k <= m,
                m == vm@.len(),
                visitors@.len() <= k,
                c == comp.id@,
                t == tenant_id as int,
                vm@.map_values(|pm: (String, i64)| pm.0@).no_duplicates(),
                forall|q: int|
                    0 <= q < vm@.len() ==> visit_min(visits@, t, c, (#[trigger] vm@[q]).0@)
                        == Some(vm@[q].1 as int),
                visitors.deep_view().no_duplicates(),
                forall|p: Seq<char>|
                    #[trigger] visitors.deep_view().contains(p) <==> exists|q: int|
                        0 <= q < k && (#[trigger] vm@[q]).0@ == p && vm@[q].1 <= fin && !scored_in(
                            scores@,
                            c,
                            p,
                        ),
                forall|p: Seq<char>|
                    #[trigger] scored.deep_view().contains(p) <==> scored_in(scores@, c, p),
            decreases m - k,
        {
            let ghost dv_pre = visitors.deep_view();
            let ghost pk = vm@[k as int].0@;
            let pass = vm[k].1 <= fin && !contains_str(&scored, vm[k].0.as_str());
            if pass {
                proof {
                    assert(!dv_pre.contains(pk)) by {
                        if dv_pre.contains(pk) {
                            let q = choose|q: int|
                                0 <= q < k && (#[trigger] vm@[q]).0@ == pk && vm@[q].1 <= fin
                                    && !scored_in(scores@, c, pk);
                            assert(vm@.map_values(|pm: (String, i64)| pm.0@)[q] == pk);
                            assert(vm@.map_values(|pm: (String, i64)| pm.0@)[k as int] == pk);
                        }
                    }
                }
                visitors.push(vm[k].0.clone());
                proof {
                    assert(visitors.deep_view() =~= dv_pre.push(pk));
                    lemma_push_no_duplicates(dv_pre, pk);
                }
            }
            proof {
                let dv = visitors.deep_view();
                assert forall|p: Seq<char>|
                    #[trigger] dv.contains(p) <==> exists|q: int|
                        0 <= q < k + 1 && (#[trigger] vm@[q]).0@ == p && vm@[q].1 <= fin
                            && !scored_in(scores@, c, p) by {
                    if dv.contains(p) {
                        let w = choose|w: int| 0 <= w < dv.len() && dv[w] == p;
                        if w < dv_pre.len() {
                            assert(dv[w] == dv_pre[w]);
                            assert(dv_pre.contains(p));
                            let q = choose|q: int|
                                0 <= q < k && (#[trigger] vm@[q]).0@ == p && vm@[q].1 <= fin
                                    && !scored_in(scores@, c, p);
                            assert(0 <= q < k + 1 && vm@[q].0@ == p && vm@[q].1 <= fin
                                && !scored_in(scores@, c, p));
                        } else {
                            assert(p == pk);
                            assert(0 <= k < k + 1 && vm@[k as int].0@ == p && vm@[k as int].1
                                <= fin && !scored_in(scores@, c, p));
                        }
                    }
                    if exists|q: int|
                        0 <= q < k + 1 && (#[trigger] vm@[q]).0@ == p && vm@[q].1 <= fin
                            && !scored_in(scores@, c, p) {
                        let q = choose|q: int|
                            0 <= q < k + 1 && (#[trigger] vm@[q]).0@ == p && vm@[q].1 <= fin
                                && !scored_in(scores@, c, p);
                        if q < k {
                            assert(dv_pre.contains(p));
                            let w = choose|w: int| 0 <= w < dv_pre.len() && dv_pre[w] == p;
                            assert(dv[w] == dv_pre[w]);
                            assert(dv.contains(p));
                        } else {
                            assert(p == pk && vm@[k as int].1 <= fin && !scored_in(scores@, c, p));
                            assert(dv == dv_pre.push(pk));
                            assert(dv[dv.len() - 1] == pk);
                            assert(dv.contains(p));
                        }
                    }
                }
            }
            k = k + 1;
        }
        proof {
            let vset = visitor_set(visits@, t, c, fin as int, scores@);
            assert forall|p: Seq<char>|
                #[trigger] visitors.deep_view().contains(p) <==> vset.contains(p) by {
                if visitors.deep_view().contains(p) {
                    let q = choose|q: int|
                        0 <= q < vm@.len() && (#[trigger] vm@[q]).0@ == p && vm@[q].1 <= fin
                            && !scored_in(scores@, c, p);
                    assert(visit_min(visits@, t, c, p) == Some(vm@[q].1 as int));
                }
                if vset.contains(p) {
                    assert(visit_min(visits@, t, c, p) is Some);
                    let q = choose|q: int| 0 <= q < vm@.len() && (#[trigger] vm@[q]).0@ == p;
                    assert(visit_min(visits@, t, c, p) == Some(vm@[q].1 as int));
                }
            }
            lemma_count_distinct(visitors.deep_view(), vset);
        }
        visitor_count = visitors.len() as i64;
    }
    BillingReport {
        competition_id: comp.id.clone(),
        competition_title: comp.title.clone(),
        player_count,
        visitor_count,
        billing_player_yen: PLAYER_YEN * player_count,
        billing_visitor_yen: VISITOR_YEN * visitor_count,
        billing_yen: PLAYER_YEN * player_count + VISITOR_YEN * visitor_count,
    }
}

// ---------------------------------------------------------------------------
// Laws of the billing classification
// ---------------------------------------------------------------------------

/// Billing classifies each participant one way: a player with a recorded
/// score is billed as a scorer even if they also visited; a player whose
/// first visit came at or before the finish time, and who has no score, is
/// billed as a visitor; and a first visit strictly after the finish time
/// does not count at all.
pub proof fn lemma_billing_classification(
    visits: Seq<VisitHistory>,
    t: int,
    c: Seq<char>,
    fin: int,
    scores: Seq<PlayerScore>,
    p: Seq<char>,
)
    ensures
        scored_in(scores, c, p) ==> scored_set(scores, c).contains(p) && !visitor_set(
            visits,
            t,
            c,
            fin,
            scores,
        ).contains(p),
        (visit_min(visits, t, c, p) matches Some(m) && m <= fin && !scored_in(scores, c, p))
            ==> visitor_set(visits, t, c, fin, scores).contains(p),
        (visit_min(visits, t, c, p) matches Some(m) && m > fin) ==> !visitor_set(
            visits,
            t,
            c,
            fin,
            scores,
        ).contains(p),
        visit_min(visits, t, c, p) is None ==> !visitor_set(visits, t, c, fin, scores).contains(
            p,
        ),
{
}

/// Billing is stable: the report is a function of the competition, the
/// visit log and the score log alone, so recomputing it over unchanged data
/// yields the same report.
pub proof fn lemma_report_stable(
    r1: BillingReport,
    r2: BillingReport,
    comp: Competition,
    visits: Seq<VisitHistory>,
    t: int,
    scores: Seq<PlayerScore>,
)
    requires
        report_matches(r1, comp, visits, t, scores),
        report_matches(r2, comp, visits, t, scores),
    ensures
        r1 == r2,
{
}

} // verus!
