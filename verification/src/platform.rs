use vstd::prelude::*;

use crate::billing::BillingReport;
use crate::billing::PLAYER_YEN;
use crate::billing::VISITOR_YEN;
use crate::billing::VisitHistory;
use crate::billing::billing_report_compute;
use crate::billing::report_matches;
use crate::billing::scored_in;
use crate::billing::scored_set;
use crate::billing::visitor_set;
use crate::store::Competition;
use crate::store::PlayerScore;
use crate::error::ApiError;
use crate::ids::IdGenerator;
use crate::ids::issued_id;
use crate::ids::lemma_issued_id_fresh;
use crate::ids::lemma_issued_id_monotonic;
use crate::lock::TenantLocks;
use crate::num::dec_seq_i64;
use crate::num::hex_seq;
use crate::num::dec_string_i64;
use crate::num::parse_i64_spec;
use crate::rank::RANK_PAGE_LIMIT;
use crate::rank::RankEntry;
use crate::rank::compute_ranking;
use crate::rank::entry_view;
use crate::rank::is_ranking_of;
use crate::store::COMPETITION_CAP;
use crate::store::STORE_ROW_CAP;
use crate::store::ScoreView;
use crate::store::TenantStore;
use crate::store::comp_rows;
use crate::store::comp_view;
use crate::store::other_rows;
use crate::strutil::str_eq;
use crate::tenant::Tenant;
use crate::tenant::validate_tenant_name;
use crate::tenant::valid_tenant_name;
use crate::viewer::Role;
use crate::viewer::Viewer;

verus! {

/// A tenant with its accumulated billing total, as the administrative
/// billing listing reports it.
pub struct TenantWithBilling {
    pub id: String,
    pub name: String,
    pub display_name: String,
    pub billing_yen: i64,
}

/// What the API reports of a player.
pub struct PlayerDetail {
    pub id: String,
    pub display_name: String,
    pub is_disqualified: bool,
}

impl Clone for PlayerDetail {
    fn clone(&self) -> (r: Self)
        ensures
            r == *self,
    {
        PlayerDetail {
            id: self.id.clone(),
            display_name: self.display_name.clone(),
            is_disqualified: self.is_disqualified,
        }
    }
}

/// What the API reports of a competition.
pub struct CompetitionDetail {
    pub id: String,
    pub title: String,
    pub is_finished: bool,
}

impl Clone for CompetitionDetail {
    fn clone(&self) -> (r: Self)
        ensures
            r == *self,
    {
        CompetitionDetail {
            id: self.id.clone(),
            title: self.title.clone(),
            is_finished: self.is_finished,
        }
    }
}

/// Whether the competition with id `c` exists and is finished.
pub open spec fn competition_finished(st: TenantStore, c: Seq<char>) -> bool {
    exists|i: int|
        0 <= i < st.competitions@.len() && (#[trigger] st.competitions@[i]).id@ == c
            && st.competitions@[i].finished_at is Some
}

/// Whether one uploaded line is acceptable: the player exists and the score
/// token parses.
pub open spec fn row_ok(st: TenantStore, row: (String, String)) -> bool {
    st.has_player(row.0@) && parse_i64_spec(row.1@) is Some
}

/// The error an unacceptable line is rejected with: the player check comes
/// before the score parse.
pub open spec fn row_err(st: TenantStore, row: (String, String)) -> ApiError {
    if !st.has_player(row.0@) {
        ApiError::PlayerNotFound
    } else {
        ApiError::InvalidScore
    }
}

/// The views an accepted upload produces: line `i` carries its player, its
/// parsed score and `row_num == i`.
pub open spec fn rows_upload_view(rows: Seq<(String, String)>) -> Seq<ScoreView> {
    Seq::new(
        rows.len(),
        |i: int|
            ScoreView { player: rows[i].0@, score: parse_i64_spec(rows[i].1@)->0 as int, row_num: i },
    )
}

/// One line of a served ranking page.
pub struct CompetitionRank {
    pub rank: i64,
    pub score: i64,
    pub player_id: String,
    pub player_display_name: String,
    pub row_num: i64,
}

impl Clone for CompetitionRank {
    fn clone(&self) -> (r: Self)
        ensures
            r == *self,
    {
        CompetitionRank {
            rank: self.rank,
            score: self.score,
            player_id: self.player_id.clone(),
            player_display_name: self.player_display_name.clone(),
            row_num: self.row_num,
        }
    }
}

/// Whether `cds` lists the competitions `cs` most recently created first,
/// with each entry carrying the id, the title and whether it is finished.
pub open spec fn competitions_listed(cds: Seq<CompetitionDetail>, cs: Seq<Competition>) -> bool {
    &&& cds.len() == cs.len()
    &&& forall|i: int|
        0 <= i < cds.len() ==> {
            let d = #[trigger] cds[i];
            let c = cs[cs.len() - 1 - i];
            &&& d.id@ == c.id@
            &&& d.title@ == c.title@
            &&& d.is_finished == (c.finished_at is Some)
        }
}

/// Whether the player with id `pid` exists and carries this display name.
pub open spec fn player_named(st: TenantStore, pid: Seq<char>, name: Seq<char>) -> bool {
    exists|i: int|
        0 <= i < st.players@.len() && (#[trigger] st.players@[i]).id@ == pid
            && st.players@[i].display_name@ == name
}

/// Whether the player with id `pid` exists and is disqualified.
pub open spec fn player_disqualified_spec(st: TenantStore, pid: Seq<char>) -> bool {
    exists|i: int|
        0 <= i < st.players@.len() && (#[trigger] st.players@[i]).id@ == pid
            && st.players@[i].is_disqualified
}

/// Whether `page` is the correctly served page of the (unique) ranking of
/// the score log `v`.
pub open spec fn ranking_served(
    page: Seq<CompetitionRank>,
    v: Seq<ScoreView>,
    rank_after: int,
    st: TenantStore,
) -> bool {
    exists|full: Seq<RankEntry>|
        is_ranking_of(v, full) && #[trigger] ranking_page_ok(page, full, rank_after, st)
}

/// Ranking pages are deterministic: over one score log — for example after
/// re-uploading the same table, which leaves the same views in the log —
/// any two correctly served pages agree line by line, tie-breaks included.
pub proof fn lemma_page_deterministic(
    p1: Seq<CompetitionRank>,
    p2: Seq<CompetitionRank>,
    v: Seq<ScoreView>,
    rank_after: int,
    st: TenantStore,
)
    requires
        ranking_served(p1, v, rank_after, st),
        ranking_served(p2, v, rank_after, st),
        forall|i: int, j: int|
            0 <= i < j < v.len() ==> (#[trigger] v[i]).row_num != (#[trigger] v[j]).row_num,
        forall|i: int, j: int|
            0 <= i < j < st.players@.len() ==> st.players@[i].id@ != st.players@[j].id@,
    ensures
        p1.len() == p2.len(),
        forall|k: int|
            0 <= k < p1.len() ==> {
                let a = #[trigger] p1[k];
                let b = p2[k];
                &&& a.rank == b.rank
                &&& a.score == b.score
                &&& a.player_id@ == b.player_id@
                &&& a.player_display_name@ == b.player_display_name@
            },
{
    let full1 = choose|full: Seq<RankEntry>|
        is_ranking_of(v, full) && #[trigger] ranking_page_ok(p1, full, rank_after, st);
    let full2 = choose|full: Seq<RankEntry>|
        is_ranking_of(v, full) && #[trigger] ranking_page_ok(p2, full, rank_after, st);
    crate::rank::lemma_replace_idempotent(v, full1, full2);
    let w1 = full1.map_values(|e: RankEntry| entry_view(e));
    let w2 = full2.map_values(|e: RankEntry| entry_view(e));
    assert(w1 == w2);
    assert(w1.len() == full1.len());
    assert(w2.len() == full2.len());
    assert(full1.len() == full2.len());
    assert forall|k: int|
        0 <= k < p1.len() implies {
        let a = #[trigger] p1[k];
        let b = p2[k];
        &&& a.rank == b.rank
        &&& a.score == b.score
        &&& a.player_id@ == b.player_id@
        &&& a.player_display_name@ == b.player_display_name@
    } by {
        let len = full1.len() as int;
        let start = if rank_after < 0 {
            0
        } else if rank_after > len {
            len
        } else {
            rank_after
        };
        assert(w1[start + k] == w2[start + k]);
        assert(entry_view(full1[start + k]) == entry_view(full2[start + k]));
        let e = entry_view(full1[start + k]);
        let i1 = choose|i: int|
            0 <= i < st.players@.len() && (#[trigger] st.players@[i]).id@ == e.player
                && st.players@[i].display_name@ == p1[k].player_display_name@;
        let i2 = choose|i: int|
            0 <= i < st.players@.len() && (#[trigger] st.players@[i]).id@ == e.player
                && st.players@[i].display_name@ == p2[k].player_display_name@;
        if i1 != i2 {
            assert(st.players@[i1].id@ == st.players@[i2].id@);
        }
    }
}

/// What a served page must look like, given the full ranking: the entries
/// with zero-based position at or after `rank_after` (clamped to the
/// ranking), at most `RANK_PAGE_LIMIT` of them, each carrying its one-based
/// position as its rank, its player's display name, and a cleared
/// versioning key.
pub open spec fn ranking_page_ok(
    page: Seq<CompetitionRank>,
    full: Seq<RankEntry>,
    rank_after: int,
    st: TenantStore,
) -> bool {
    let len = full.len() as int;
    let start = if rank_after < 0 {
        0
    } else if rank_after > len {
        len
    } else {
        rank_after
    };
    &&& page.len() == (if len - start > RANK_PAGE_LIMIT { RANK_PAGE_LIMIT as int } else { len - start })
    &&& forall|q: int|
        0 <= q < page.len() ==> {
            let row = #[trigger] page[q];
            let e = full[start + q];
            &&& row.rank == start + q + 1
            &&& row.score == e.score
            &&& row.player_id@ == e.player_id@
            &&& row.row_num == 0
            &&& player_named(st, e.player_id@, row.player_display_name@)
        }
}

/// The money one competition bills: 100 yen per scorer and 10 yen per
/// visitor once it is finished, nothing while it is open.
pub open spec fn comp_yen(
    comp: Competition,
    visits: Seq<VisitHistory>,
    t: int,
    scores: Seq<PlayerScore>,
) -> int {
    match comp.finished_at {
        Some(fin) => PLAYER_YEN * scored_set(scores, comp.id@).len() + VISITOR_YEN * visitor_set(
            visits,
            t,
            comp.id@,
            fin as int,
            scores,
        ).len(),
        None => 0,
    }
}

/// The sum of `comp_yen` over the first `k` competitions of a store.
pub open spec fn tenant_yen_upto(st: TenantStore, visits: Seq<VisitHistory>, k: int) -> int
    decreases k,
{
    if k <= 0 {
        0
    } else {
        tenant_yen_upto(st, visits, k - 1) + comp_yen(
            st.competitions@[k - 1],
            visits,
            st.tenant_id as int,
            st.scores@,
        )
    }
}

/// A tenant's billing total: the sum over all its competitions.
pub open spec fn tenant_yen(st: TenantStore, visits: Seq<VisitHistory>) -> int {
    tenant_yen_upto(st, visits, st.competitions@.len() as int)
}

/// The tenants below the paging bound, in the given order (zero means no
/// bound).
pub open spec fn filter_before(s: Seq<Tenant>, before_id: i64) -> Seq<Tenant> {
    s.filter(|t: Tenant| before_id == 0 || t.id < before_id)
}

/// The tenants the billing listing walks: descending id order, bounded by
/// `before_id`.
pub open spec fn selected_tenants(tenants: Seq<Tenant>, before_id: i64) -> Seq<Tenant> {
    filter_before(tenants.reverse(), before_id)
}

/// One entry of a player's score listing: a competition and the player's
/// authoritative score in it.
pub struct PlayerScoreDetail {
    pub competition_title: String,
    pub score: i64,
}

impl Clone for PlayerScoreDetail {
    fn clone(&self) -> (r: Self)
        ensures
            r == *self,
    {
        PlayerScoreDetail {
            competition_title: self.competition_title.clone(),
            score: self.score,
        }
    }
}

/// The competitions in which player `pid` has a score row, in creation
/// order.
pub open spec fn player_comps(st: TenantStore, pid: Seq<char>) -> Seq<Competition> {
    player_comps_upto(st, pid, st.competitions@.len() as int)
}

/// The same, over the first `k` competitions.
pub open spec fn player_comps_upto(st: TenantStore, pid: Seq<char>, k: int) -> Seq<Competition> {
    st.competitions@.take(k).filter(|c: Competition| scored_in(st.scores@, c.id@, pid))
}

/// The identity view served to a request.
pub struct MeResult {
    pub tenant_name: String,
    pub tenant_display_name: String,
    pub me: Option<PlayerDetail>,
    pub role: Option<Role>,
    pub logged_in: bool,
}

/// Whether `sc` is player `p`'s authoritative score in competition `c`: the
/// score of the row with the greatest versioning key among `p`'s rows.
pub open spec fn authoritative_score(
    scores: Seq<PlayerScore>,
    c: Seq<char>,
    p: Seq<char>,
    sc: i64,
) -> bool {
    exists|x: PlayerScore|
        #![trigger comp_rows(scores, c).contains(x)]
        {
            &&& comp_rows(scores, c).contains(x)
            &&& x.player_id@ == p
            &&& x.score == sc
            &&& forall|j: int|
                0 <= j < comp_rows(scores, c).len() && (#[trigger] comp_rows(scores, c)[j]).player_id@
                    == p ==> comp_rows(scores, c)[j].row_num <= x.row_num
        }
}

/// A player has a row among a competition's rows exactly when a row of that
/// competition names them.
proof fn lemma_comp_rows_scored(s: Seq<PlayerScore>, c: Seq<char>, p: Seq<char>)
    requires
        crate::store::log_ordered(s),
    ensures
        (exists|i: int|
            0 <= i < comp_rows(s, c).len() && (#[trigger] comp_rows(s, c)[i]).player_id@ == p)
            <==> scored_in(s, c, p),
{
    broadcast use vstd::seq_lib::group_filter_ensures;

    crate::store::lemma_comp_rows_ordered(s, c);
    if exists|i: int|
        0 <= i < comp_rows(s, c).len() && (#[trigger] comp_rows(s, c)[i]).player_id@ == p {
        let i = choose|i: int|
            0 <= i < comp_rows(s, c).len() && (#[trigger] comp_rows(s, c)[i]).player_id@ == p;
        assert(s.contains(comp_rows(s, c)[i]));
        let w = choose|w: int| 0 <= w < s.len() && s[w] == comp_rows(s, c)[i];
        assert(scored_in(s, c, p));
    }
    if scored_in(s, c, p) {
        let w = choose|w: int|
            0 <= w < s.len() && (#[trigger] s[w]).competition_id@ == c && s[w].player_id@ == p;
        assert(comp_rows(s, c).contains(s[w]));
        let i = choose|i: int| 0 <= i < comp_rows(s, c).len() && comp_rows(s, c)[i] == s[w];
    }
}

/// The shared store: the tenant registry, the global id sequence, and the
/// cross-tenant visit log.  It is one store for all tenants; its own
/// engine's concurrency control orders the operations on it.
pub struct SharedStore {
    pub tenants: Vec<Tenant>,
    pub id_gen: IdGenerator,
    pub visits: Vec<VisitHistory>,
}

impl SharedStore {
    /// Tenant ids are the auto-increment sequence 1, 2, …; names are unique
    /// slugs; rows sit in insertion-time order.
    pub open spec fn wf(self) -> bool {
        &&& self.tenants@.len() <= STORE_ROW_CAP
        &&& forall|i: int| 0 <= i < self.tenants@.len() ==> (#[trigger] self.tenants@[i]).id == i + 1
        &&& forall|i: int, j: int|
            0 <= i < j < self.tenants@.len() ==> self.tenants@[i].name@ != self.tenants@[j].name@
        &&& forall|i: int, j: int|
            0 <= i < j < self.tenants@.len() ==> self.tenants@[i].created_at
                <= self.tenants@[j].created_at
        &&& self.visits@.len() <= STORE_ROW_CAP
    }

    /// Models the shared store's insertion clock: every registered tenant
    /// was created at or before `now`.  Insertions stamp rows with a
    /// non-decreasing clock, which keeps the registry in creation order.
    pub open spec fn registry_clock_ok(self, now: i64) -> bool {
        forall|i: int| 0 <= i < self.tenants@.len() ==> (#[trigger] self.tenants@[i]).created_at <= now
    }

    /// Whether a tenant with this name is registered.
    pub open spec fn has_tenant_name(self, name: Seq<char>) -> bool {
        exists|i: int| 0 <= i < self.tenants@.len() && (#[trigger] self.tenants@[i]).name@ == name
    }

    /// Resolves the tenant a request's host names.  The administrative
    /// domain resolves to a synthetic registry row with id zero rather than
    /// to a stored tenant; every other name is looked up in the registry.
    pub fn resolve_tenant_by_name(&self, name: &str) -> (r: Option<Tenant>)
        requires
            self.wf(),
        ensures
            name@ == "admin"@ ==> (r matches Some(t) && {
                &&& t.id == 0
                &&& t.name@ == "admin"@
                &&& t.display_name@ == "admin"@
            }),
            name@ != "admin"@ ==> {
                &&& (r is Some <==> self.has_tenant_name(name@))
                &&& (r matches Some(t) ==> t.name@ == name@ && (forall|i: int|
                    0 <= i < self.tenants@.len() && (#[trigger] self.tenants@[i]).name@ == name@
                        ==> t == self.tenants@[i]))
            },
    {
        proof {
            reveal_strlit("admin");
        }
        if str_eq(name, "admin") {
            return Some(
                Tenant {
                    id: 0,
                    name: "admin".to_owned(),
                    display_name: "admin".to_owned(),
                    created_at: 0,
                    updated_at: 0,
                },
            );
        }
        let n = self.tenants.len();
        let mut i: usize = 0;
        while i < n
            invariant
                0 <= i <= n,
                n == self.tenants@.len(),
                self.wf(),
                name@ != "admin"@,
                forall|j: int| 0 <= j < i ==> (#[trigger] self.tenants@[j]).name@ != name@,
            decreases n - i,
        {
            if str_eq(self.tenants[i].name.as_str(), name) {
                let t = &self.tenants[i];
                let found = Tenant {
                    id: t.id,
                    name: t.name.clone(),
                    display_name: t.display_name.clone(),
                    created_at: t.created_at,
                    updated_at: t.updated_at,
                };
                proof {
                    assert(found == self.tenants@[i as int]);
                    assert forall|j: int|
                        0 <= j < self.tenants@.len() && (#[trigger] self.tenants@[j]).name@
                            == name@ implies found == self.tenants@[j] by {
                        if j != i {
                            assert(self.tenants@[i as int].name@ != self.tenants@[j].name@);
                        }
                    }
                }
                return Some(found);
            }
            i = i + 1;
        }
        None
    }
}

/// The whole platform: the shared store, one isolated store per tenant, and
/// the per-tenant advisory lock table.  Tenant `t`'s store sits at index
/// `t - 1`: the store location is derived purely from the tenant id.
pub struct Platform {
    pub shared: SharedStore,
    pub stores: Vec<TenantStore>,
    pub locks: TenantLocks,
}

impl Platform {
    /// Every registered tenant has exactly one well-formed store, and the
    /// platform is quiescent: between operations no tenant lock is held —
    /// each operation acquires what it needs and releases it on every exit
    /// path.
    pub open spec fn wf(self) -> bool {
        &&& self.shared.wf()
        &&& self.locks.wf()
        &&& self.locks.quiescent()
        &&& self.stores@.len() == self.shared.tenants@.len()
        &&& forall|i: int|
            0 <= i < self.stores@.len() ==> (#[trigger] self.stores@[i]).wf()
                && self.stores@[i].tenant_id == i + 1
        &&& forall|k: int, j: int|
            0 <= k < self.stores@.len() && 0 <= j < self.stores@[k].players@.len() ==> issued_id(
                (#[trigger] self.stores@[k].players@[j]).id@,
                self.shared.id_gen.counter,
            )
        &&& forall|k: int, j: int|
            0 <= k < self.stores@.len() && 0 <= j < self.stores@[k].competitions@.len()
                ==> issued_id(
                (#[trigger] self.stores@[k].competitions@[j]).id@,
                self.shared.id_gen.counter,
            )
    }

    /// Whether a tenant with this id exists (and therefore has a store).
    pub open spec fn valid_tenant(self, tenant_id: i64) -> bool {
        1 <= tenant_id <= self.stores@.len()
    }

    /// The store of tenant `tenant_id`.
    pub open spec fn store_of(self, tenant_id: i64) -> TenantStore {
        self.stores@[tenant_id - 1]
    }

    pub fn new() -> (p: Platform)
        ensures
            p.wf(),
            p.shared.tenants@.len() == 0,
            p.shared.visits@.len() == 0,
            p.shared.id_gen.counter == 0,
    {
        Platform {
            shared: SharedStore {
                tenants: Vec::new(),
                id_gen: IdGenerator::new(),
                visits: Vec::new(),
            },
            stores: Vec::new(),
            locks: TenantLocks::new(),
        }
    }

    /// Resolves a tenant's store index, or fails with a store-unavailable
    /// error: resolution never creates a store.
    fn store_index(&self, tenant_id: i64) -> (r: Result<usize, ApiError>)
        requires
            self.wf(),
        ensures
            r is Ok <==> self.valid_tenant(tenant_id),
            r matches Ok(i) ==> i == tenant_id - 1,
            r is Err ==> r == Err::<usize, ApiError>(ApiError::StoreUnavailable),
    {
        if tenant_id >= 1 && tenant_id <= self.stores.len() as i64 {
            Ok((tenant_id - 1) as usize)
        } else {
            Err(ApiError::StoreUnavailable)
        }
    }

    /// Registers a new tenant and provisions its empty store.  Only the
    /// admin role on the administrative tenant may do this; the name must
    /// match the slug grammar and be free.
    pub fn add_tenant(&mut self, v: &Viewer, name: &str, display_name: &str, now: i64) -> (r:
        Result<TenantWithBilling, ApiError>)
        requires
            old(self).wf(),
            old(self).shared.tenants@.len() < STORE_ROW_CAP,
            old(self).shared.registry_clock_ok(now),
        ensures
            final(self).wf(),
            r is Err ==> *final(self) == *old(self),
            v.tenant_name@ != "admin"@ ==> r == Err::<TenantWithBilling, ApiError>(
                ApiError::Unauthorized,
            ),
            v.tenant_name@ == "admin"@ && v.role != Role::Admin ==> r == Err::<
                TenantWithBilling,
                ApiError,
            >(ApiError::Forbidden),
            v.tenant_name@ == "admin"@ && v.role == Role::Admin && !valid_tenant_name(name@) ==> r
                == Err::<TenantWithBilling, ApiError>(ApiError::InvalidTenantName),
            v.tenant_name@ == "admin"@ && v.role == Role::Admin && valid_tenant_name(name@) && old(self).shared.has_tenant_name(name@) ==> r == Err::<TenantWithBilling, ApiError>(
                ApiError::DuplicateTenant,
            ),
            v.tenant_name@ == "admin"@ && v.role == Role::Admin && valid_tenant_name(name@) && !old(self).shared.has_tenant_name(name@) ==> r is Ok,
            r matches Ok(tb) ==> {
                let oldn = old(self).shared.tenants@.len() as int;
                &&& final(self).shared.tenants@.len() == oldn + 1
                &&& final(self).shared.tenants@.subrange(0, oldn) == old(self).shared.tenants@
                &&& final(self).shared.tenants@[oldn].id == oldn + 1
                &&& final(self).shared.tenants@[oldn].name@ == name@
                &&& final(self).shared.tenants@[oldn].display_name@ == display_name@
                &&& final(self).shared.tenants@[oldn].created_at == now
                &&& final(self).shared.tenants@[oldn].updated_at == now
                &&& final(self).stores@.len() == oldn + 1
                &&& final(self).stores@.subrange(0, oldn) == old(self).stores@
                &&& final(self).stores@[oldn].players@.len() == 0
                &&& final(self).stores@[oldn].competitions@.len() == 0
                &&& final(self).stores@[oldn].scores@.len() == 0
                &&& final(self).shared.visits == old(self).shared.visits
                &&& final(self).shared.id_gen == old(self).shared.id_gen
                &&& tb.id@ == dec_seq_i64(oldn + 1)
                &&& tb.name@ == name@
                &&& tb.display_name@ == display_name@
                &&& tb.billing_yen == 0
            },
    {
        proof {
            reveal_strlit("admin");
        }
        if !str_eq(v.tenant_name.as_str(), "admin") {
            return Err(ApiError::Unauthorized);
        }
        if !matches!(v.role, Role::Admin) {
            return Err(ApiError::Forbidden);
        }
        match validate_tenant_name(name) {
            Ok(()) => (),
            Err(e) => {
                return Err(e);
            },
        }
        let n = self.shared.tenants.len();
        let mut i: usize = 0;
        while i < n
            invariant
                0 <= i <= n,
                n == self.shared.tenants@.len(),
                *self == *old(self),
                old(self).wf(),
                v.tenant_name@ == "admin"@,
                v.role == Role::Admin,
                valid_tenant_name(name@),
                forall|j: int| 0 <= j < i ==> (#[trigger] self.shared.tenants@[j]).name@ != name@,
            decreases n - i,
        {
            if str_eq(self.shared.tenants[i].name.as_str(), name) {
                return Err(ApiError::DuplicateTenant);
            }
            i = i + 1;
        }
        let id: i64 = self.shared.tenants.len() as i64 + 1;
        let tenant = Tenant {
            id,
            name: name.to_owned(),
            display_name: display_name.to_owned(),
            created_at: now,
            updated_at: now,
        };
        self.shared.tenants.push(tenant);
        self.stores.push(TenantStore::provision(id));
        Ok(
            TenantWithBilling {
                id: dec_string_i64(id),
                name: name.to_owned(),
                display_name: display_name.to_owned(),
                billing_yen: 0,
            },
        )
    }

    /// Adds one player per display name to the organizer's tenant, each with
    /// a fresh id.  As in the underlying store, each insert commits on its
    /// own: an internal failure part-way leaves the earlier inserts in
    /// place.
    pub fn players_add(&mut self, v: &Viewer, display_names: &Vec<String>, now: i64) -> (r: Result<
        Vec<PlayerDetail>,
        ApiError,
    >)
        requires
            old(self).wf(),
            old(self).shared.id_gen.counter + display_names@.len() <= u64::MAX,
            old(self).valid_tenant(v.tenant_id) ==> {
                &&& old(self).store_of(v.tenant_id).players@.len() + display_names@.len()
                    <= STORE_ROW_CAP
                &&& old(self).store_of(v.tenant_id).players_clock_ok(now)
            },
        ensures
            final(self).wf(),
            v.role != Role::Organizer ==> r == Err::<Vec<PlayerDetail>, ApiError>(
                ApiError::Forbidden,
            ) && *final(self) == *old(self),
            v.role == Role::Organizer && !old(self).valid_tenant(v.tenant_id) ==> r == Err::<
                Vec<PlayerDetail>,
                ApiError,
            >(ApiError::StoreUnavailable) && *final(self) == *old(self),
            v.role == Role::Organizer && old(self).valid_tenant(v.tenant_id) ==> r is Ok,
            r is Err ==> *final(self) == *old(self),
            final(self).shared.tenants == old(self).shared.tenants,
            final(self).shared.visits == old(self).shared.visits,
            final(self).stores@.len() == old(self).stores@.len(),
            forall|k: int|
                0 <= k < old(self).stores@.len() && k != v.tenant_id - 1 ==> final(self).stores@[k]
                    == old(self).stores@[k],
            r matches Ok(pds) ==> {
                let c0 = old(self).shared.id_gen.counter;
                let st0 = old(self).store_of(v.tenant_id);
                let st1 = final(self).store_of(v.tenant_id);
                let n = display_names@.len() as int;
                &&& v.role == Role::Organizer
                &&& old(self).valid_tenant(v.tenant_id)
                &&& pds@.len() == n
                &&& final(self).shared.id_gen.counter == c0 + n
                &&& st1.players@.len() == st0.players@.len() + n
                &&& st1.players@.subrange(0, st0.players@.len() as int) == st0.players@
                &&& st1.competitions == st0.competitions
                &&& st1.scores == st0.scores
                &&& forall|i: int|
                    0 <= i < n ==> {
                        let p = #[trigger] st1.players@[st0.players@.len() + i];
                        &&& p.id@ == hex_seq((c0 + 1 + i) as nat)
                        &&& p.display_name@ == display_names@[i]@
                        &&& !p.is_disqualified
                        &&& p.created_at == now
                        &&& p.updated_at == now
                    }
                &&& forall|i: int|
                    0 <= i < n ==> {
                        let d = #[trigger] pds@[i];
                        &&& d.id@ == hex_seq((c0 + 1 + i) as nat)
                        &&& d.display_name@ == display_names@[i]@
                        &&& !d.is_disqualified
                    }
            },
    {
        if !matches!(v.role, Role::Organizer) {
            return Err(ApiError::Forbidden);
        }
        let idx = match self.store_index(v.tenant_id) {
            Ok(idx) => idx,
            Err(e) => {
                return Err(e);
            },
        };
        let ghost c0 = self.shared.id_gen.counter;
        let ghost st0 = self.stores@[idx as int];
        let mut st = self.stores.remove(idx);
        proof {
            assert forall|j: int| 0 <= j < st.players@.len() implies issued_id(
                (#[trigger] st.players@[j]).id@,
                self.shared.id_gen.counter,
            ) by {
                assert(st.players@[j] == old(self).stores@[idx as int].players@[j]);
            }
        }
        let n = display_names.len();
        let mut pds: Vec<PlayerDetail> = Vec::new();
        let mut k: usize = 0;
        while k < n
            invariant
                0 <= k <= n,
                n == display_names@.len(),
                0 <= idx < old(self).stores@.len(),
                idx == v.tenant_id - 1,
                v.role == Role::Organizer,
                old(self).valid_tenant(v.tenant_id),
                old(self).wf(),
                st0 == old(self).stores@[idx as int],
                c0 == old(self).shared.id_gen.counter,
                c0 + n <= u64::MAX,
                st0.players@.len() + n <= STORE_ROW_CAP,
                forall|i: int|
                    0 <= i < st0.players@.len() ==> (#[trigger] st0.players@[i]).created_at <= now,
                st.wf(),
                st.tenant_id == st0.tenant_id,
                st.competitions == st0.competitions,
                st.scores == st0.scores,
                self.shared.id_gen.counter == c0 + k,
                self.shared.tenants == old(self).shared.tenants,
                self.shared.visits == old(self).shared.visits,
                self.locks == old(self).locks,
                self.stores@ == old(self).stores@.remove(idx as int),
                st.players@.len() == st0.players@.len() + k,
                st.players@.subrange(0, st0.players@.len() as int) == st0.players@,
                forall|i: int|
                    0 <= i < st.players@.len() ==> (#[trigger] st.players@[i]).created_at <= now,
                forall|j: int|
                    0 <= j < st.players@.len() ==> issued_id(
                        (#[trigger] st.players@[j]).id@,
                        self.shared.id_gen.counter,
                    ),
                pds@.len() == k,
                forall|i: int|
                    0 <= i < k ==> {
                        let p = #[trigger] st.players@[st0.players@.len() + i];
                        &&& p.id@ == hex_seq((c0 + 1 + i) as nat)
                        &&& p.display_name@ == display_names@[i]@
                        &&& !p.is_disqualified
                        &&& p.created_at == now
                        &&& p.updated_at == now
                    },
                forall|i: int|
                    0 <= i < k ==> {
                        let d = #[trigger] pds@[i];
                        &&& d.id@ == hex_seq((c0 + 1 + i) as nat)
                        &&& d.display_name@ == display_names@[i]@
                        &&& !d.is_disqualified
                    },
            decreases n - k,
        {
            let ghost stp = st.players@;
            let ghost cpre = self.shared.id_gen.counter;
            proof {
                assert(!st.has_player(hex_seq((cpre + 1) as nat))) by {
                    if st.has_player(hex_seq((cpre + 1) as nat)) {
                        let j = choose|j: int|
                            0 <= j < st.players@.len() && (#[trigger] st.players@[j]).id@
                                == hex_seq((cpre + 1) as nat);
                        lemma_issued_id_fresh(st.players@[j].id@, cpre);
                    }
                }
            }
            match st.add_player(&mut self.shared.id_gen, display_names[k].as_str(), now) {
                Ok(p) => {
                    proof {
                        assert(st.players@.subrange(0, st0.players@.len() as int) =~= stp.subrange(
                            0,
                            st0.players@.len() as int,
                        ));
                        assert forall|j: int| 0 <= j < st.players@.len() implies issued_id(
                            (#[trigger] st.players@[j]).id@,
                            self.shared.id_gen.counter,
                        ) by {
                            if j < stp.len() {
                                assert(st.players@[j] == stp[j]);
                                lemma_issued_id_monotonic(
                                    st.players@[j].id@,
                                    cpre,
                                    self.shared.id_gen.counter,
                                );
                            } else {
                                assert(st.players@[j] == st.players@.last());
                                assert(1 <= (cpre + 1) as nat <= self.shared.id_gen.counter
                                    && st.players@[j].id@ == hex_seq((cpre + 1) as nat));
                            }
                        }
                    }
                    pds.push(
                        PlayerDetail {
                            id: p.id,
                            display_name: p.display_name,
                            is_disqualified: p.is_disqualified,
                        },
                    );
                },
                Err(_) => {
                    proof {
                        assert(false);
                    }
                    return Err(ApiError::Internal);
                },
            }
            k = k + 1;
        }
        self.stores.insert(idx, st);
        proof {
            assert(self.stores@ =~= old(self).stores@.update(idx as int, st));
            assert forall|a: int, b: int|
                0 <= a < self.stores@.len() && 0 <= b < self.stores@[a].players@.len()
                    implies issued_id(
                (#[trigger] self.stores@[a].players@[b]).id@,
                self.shared.id_gen.counter,
            ) by {
                if a != idx {
                    assert(self.stores@[a] == old(self).stores@[a]);
                    lemma_issued_id_monotonic(
                        self.stores@[a].players@[b].id@,
                        c0,
                        self.shared.id_gen.counter,
                    );
                }
            }
            assert forall|a: int, b: int|
                0 <= a < self.stores@.len() && 0 <= b < self.stores@[a].competitions@.len()
                    implies issued_id(
                (#[trigger] self.stores@[a].competitions@[b]).id@,
                self.shared.id_gen.counter,
            ) by {
                let oc = old(self).stores@[a].competitions@[b];
                if a != idx {
                    assert(self.stores@[a] == old(self).stores@[a]);
                } else {
                    assert(self.stores@[a].competitions == st0.competitions);
                }
                lemma_issued_id_monotonic(oc.id@, c0, self.shared.id_gen.counter);
            }
        }
        Ok(pds)
    }

    /// Lists the organizer's players, most recently created first.
    pub fn players_list(&self, v: &Viewer) -> (r: Result<Vec<PlayerDetail>, ApiError>)
        requires
            self.wf(),
        ensures
            v.role != Role::Organizer ==> r == Err::<Vec<PlayerDetail>, ApiError>(
                ApiError::Forbidden,
            ),
            v.role == Role::Organizer && !self.valid_tenant(v.tenant_id) ==> r == Err::<
                Vec<PlayerDetail>,
                ApiError,
            >(ApiError::StoreUnavailable),
            v.role == Role::Organizer && self.valid_tenant(v.tenant_id) ==> r is Ok,
            r matches Ok(pds) ==> {
                let ps = self.store_of(v.tenant_id).players@;
                &&& pds@.len() == ps.len()
                &&& forall|i: int|
                    0 <= i < pds@.len() ==> {
                        let d = #[trigger] pds@[i];
                        let p = ps[ps.len() - 1 - i];
                        &&& d.id@ == p.id@
                        &&& d.display_name@ == p.display_name@
                        &&& d.is_disqualified == p.is_disqualified
                    }
            },
    {
        if !matches!(v.role, Role::Organizer) {
            return Err(ApiError::Forbidden);
        }
        let idx = match self.store_index(v.tenant_id) {
            Ok(idx) => idx,
            Err(e) => {
                return Err(e);
            },
        };
        let st = &self.stores[idx];
        let n = st.players.len();
        let mut pds: Vec<PlayerDetail> = Vec::new();
        let mut i: usize = n;
        while i > 0
            invariant
                0 <= i <= n,
                n == st.players@.len(),
                pds@.len() == n - i,
                forall|q: int|
                    0 <= q < pds@.len() ==> {
                        let d = #[trigger] pds@[q];
                        let p = st.players@[n - 1 - q];
                        &&& d.id@ == p.id@
                        &&& d.display_name@ == p.display_name@
                        &&& d.is_disqualified == p.is_disqualified
                    },
            decreases i,
        {
            i = i - 1;
            let p = &st.players[i];
            pds.push(
                PlayerDetail {
                    id: p.id.clone(),
                    display_name: p.display_name.clone(),
                    is_disqualified: p.is_disqualified,
                },
            );
        }
        Ok(pds)
    }

    /// Disqualifies a player of the organizer's tenant.
    pub fn player_disqualified(&mut self, v: &Viewer, player_id: &str, now: i64) -> (r: Result<
        PlayerDetail,
        ApiError,
    >)
        requires
            old(self).wf(),
        ensures
            final(self).wf(),
            r is Err ==> final(self).stores@ == old(self).stores@ && final(self).shared == old(self).shared && final(self).locks == old(self).locks,
            v.role != Role::Organizer ==> r == Err::<PlayerDetail, ApiError>(ApiError::Forbidden),
            v.role == Role::Organizer && !old(self).valid_tenant(v.tenant_id) ==> r == Err::<
                PlayerDetail,
                ApiError,
            >(ApiError::StoreUnavailable),
            v.role == Role::Organizer && old(self).valid_tenant(v.tenant_id) && !old(self).store_of(
                v.tenant_id,
            ).has_player(player_id@) ==> r == Err::<PlayerDetail, ApiError>(
                ApiError::PlayerNotFound,
            ),
            v.role == Role::Organizer && old(self).valid_tenant(v.tenant_id) && old(self).store_of(
                v.tenant_id,
            ).has_player(player_id@) ==> r is Ok,
            final(self).shared == old(self).shared,
            final(self).stores@.len() == old(self).stores@.len(),
            forall|k: int|
                0 <= k < old(self).stores@.len() && k != v.tenant_id - 1 ==> final(self).stores@[k]
                    == old(self).stores@[k],
            r matches Ok(d) ==> {
                let st0 = old(self).store_of(v.tenant_id);
                let st1 = final(self).store_of(v.tenant_id);
                &&& d.id@ == player_id@
                &&& d.is_disqualified
                &&& st1.players@.len() == st0.players@.len()
                &&& st1.competitions == st0.competitions
                &&& st1.scores == st0.scores
                &&& forall|j: int|
                    0 <= j < st0.players@.len() ==> {
                        let np = #[trigger] st1.players@[j];
                        let op = st0.players@[j];
                        &&& np.id == op.id
                        &&& np.display_name == op.display_name
                        &&& np.created_at == op.created_at
                        &&& np.is_disqualified == (op.is_disqualified || op.id@ == player_id@)
                        &&& np.updated_at == if op.id@ == player_id@ {
                            now
                        } else {
                            op.updated_at
                        }
                    }
            },
    {
        if !matches!(v.role, Role::Organizer) {
            return Err(ApiError::Forbidden);
        }
        let idx = match self.store_index(v.tenant_id) {
            Ok(idx) => idx,
            Err(e) => {
                return Err(e);
            },
        };
        let mut st = self.stores.remove(idx);
        let out = st.disqualify_player(player_id, now);
        self.stores.insert(idx, st);
        proof {
            assert(self.stores@ =~= old(self).stores@.update(idx as int, st));
        }
        match out {
            Ok(p) => Ok(
                PlayerDetail {
                    id: p.id,
                    display_name: p.display_name,
                    is_disqualified: p.is_disqualified,
                },
            ),
            Err(e) => {
                proof {
                    assert(self.stores@ =~= old(self).stores@);
                }
                Err(e)
            },
        }
    }

    /// Creates a competition in the organizer's tenant.
    pub fn competitions_add(&mut self, v: &Viewer, title: &str, now: i64) -> (r: Result<
        CompetitionDetail,
        ApiError,
    >)
        requires
            old(self).wf(),
            old(self).shared.id_gen.counter < u64::MAX,
            old(self).valid_tenant(v.tenant_id) ==> {
                &&& old(self).store_of(v.tenant_id).competitions@.len()
                    < crate::store::COMPETITION_CAP
                &&& old(self).store_of(v.tenant_id).competitions_clock_ok(now)
            },
        ensures
            final(self).wf(),
            r is Err ==> *final(self) == *old(self),
            v.role != Role::Organizer ==> r == Err::<CompetitionDetail, ApiError>(
                ApiError::Forbidden,
            ),
            v.role == Role::Organizer && !old(self).valid_tenant(v.tenant_id) ==> r == Err::<
                CompetitionDetail,
                ApiError,
            >(ApiError::StoreUnavailable),
            v.role == Role::Organizer && old(self).valid_tenant(v.tenant_id) ==> r is Ok,
            final(self).shared.tenants == old(self).shared.tenants,
            final(self).shared.visits == old(self).shared.visits,
            final(self).stores@.len() == old(self).stores@.len(),
            forall|k: int|
                0 <= k < old(self).stores@.len() && k != v.tenant_id - 1 ==> final(self).stores@[k]
                    == old(self).stores@[k],
            r matches Ok(cd) ==> {
                let c0 = old(self).shared.id_gen.counter;
                let st0 = old(self).store_of(v.tenant_id);
                let st1 = final(self).store_of(v.tenant_id);
                &&& v.role == Role::Organizer
                &&& old(self).valid_tenant(v.tenant_id)
                &&& final(self).shared.id_gen.counter == c0 + 1
                &&& st1.competitions@.len() == st0.competitions@.len() + 1
                &&& st1.competitions@.subrange(0, st0.competitions@.len() as int)
                    == st0.competitions@
                &&& st1.players == st0.players
                &&& st1.scores == st0.scores
                &&& st1.competitions@.last().id@ == hex_seq((c0 + 1) as nat)
                &&& st1.competitions@.last().title@ == title@
                &&& st1.competitions@.last().finished_at is None
                &&& st1.competitions@.last().created_at == now
                &&& cd.id@ == hex_seq((c0 + 1) as nat)
                &&& cd.title@ == title@
                &&& !cd.is_finished
            },
    {
        if !matches!(v.role, Role::Organizer) {
            return Err(ApiError::Forbidden);
        }
        let idx = match self.store_index(v.tenant_id) {
            Ok(idx) => idx,
            Err(e) => {
                return Err(e);
            },
        };
        let mut st = self.stores.remove(idx);
        proof {
            let cpre = self.shared.id_gen.counter;
            assert(!st.has_competition(hex_seq((cpre + 1) as nat))) by {
                if st.has_competition(hex_seq((cpre + 1) as nat)) {
                    let j = choose|j: int|
                        0 <= j < st.competitions@.len() && (#[trigger] st.competitions@[j]).id@
                            == hex_seq((cpre + 1) as nat);
                    assert(st.competitions@[j] == old(self).stores@[idx as int].competitions@[j]);
                    lemma_issued_id_fresh(st.competitions@[j].id@, cpre);
                }
            }
        }
        let out = st.add_competition(&mut self.shared.id_gen, title, now);
        self.stores.insert(idx, st);
        proof {
            assert(self.stores@ =~= old(self).stores@.update(idx as int, st));
        }
        match out {
            Ok(c) => Ok(CompetitionDetail { id: c.id, title: c.title, is_finished: false }),
            Err(_) => {
                proof {
                    assert(false);
                }
                Err(ApiError::Internal)
            },
        }
    }

    /// Closes a competition of the organizer's tenant.
    pub fn competition_finish(&mut self, v: &Viewer, comp_id: &str, now: i64) -> (r: Result<
        (),
        ApiError,
    >)
        requires
            old(self).wf(),
        ensures
            final(self).wf(),
            r is Err ==> final(self).stores@ == old(self).stores@ && final(self).shared == old(self).shared && final(self).locks == old(self).locks,
            v.role != Role::Organizer ==> r == Err::<(), ApiError>(ApiError::Forbidden),
            v.role == Role::Organizer && !old(self).valid_tenant(v.tenant_id) ==> r == Err::<
                (),
                ApiError,
            >(ApiError::StoreUnavailable),
            v.role == Role::Organizer && old(self).valid_tenant(v.tenant_id) && !old(self).store_of(
                v.tenant_id,
            ).has_competition(comp_id@) ==> r == Err::<(), ApiError>(ApiError::CompetitionNotFound),
            v.role == Role::Organizer && old(self).valid_tenant(v.tenant_id) && old(self).store_of(
                v.tenant_id,
            ).has_competition(comp_id@) ==> r is Ok,
            final(self).shared == old(self).shared,
            final(self).stores@.len() == old(self).stores@.len(),
            forall|k: int|
                0 <= k < old(self).stores@.len() && k != v.tenant_id - 1 ==> final(self).stores@[k]
                    == old(self).stores@[k],
            r is Ok ==> {
                let st0 = old(self).store_of(v.tenant_id);
                let st1 = final(self).store_of(v.tenant_id);
                &&& st1.players == st0.players
                &&& st1.scores == st0.scores
                &&& st1.competitions@.len() == st0.competitions@.len()
                &&& forall|j: int|
                    0 <= j < st0.competitions@.len() ==> {
                        let nc = #[trigger] st1.competitions@[j];
                        let oc = st0.competitions@[j];
                        &&& nc.id == oc.id
                        &&& nc.title == oc.title
                        &&& nc.created_at == oc.created_at
                        &&& nc.finished_at == if oc.id@ == comp_id@ && oc.finished_at is None {
                            Some(now)
                        } else {
                            oc.finished_at
                        }
                    }
            },
    {
        if !matches!(v.role, Role::Organizer) {
            return Err(ApiError::Forbidden);
        }
        let idx = match self.store_index(v.tenant_id) {
            Ok(idx) => idx,
            Err(e) => {
                return Err(e);
            },
        };
        let mut st = self.stores.remove(idx);
        let out = st.finish_competition(comp_id, now);
        self.stores.insert(idx, st);
        proof {
            assert(self.stores@ =~= old(self).stores@.update(idx as int, st));
        }
        match out {
            Ok(()) => Ok(()),
            Err(e) => {
                proof {
                    assert(self.stores@ =~= old(self).stores@);
                }
                Err(e)
            },
        }
    }

    /// Replaces the whole score set of one competition from an uploaded
    /// table.  The competition must exist and be open; every referenced
    /// player must exist; every score token must parse.  The replacement
    /// happens under the tenant lock in one step: no partial mix of old and
    /// new rows is ever visible, and rows of other competitions are
    /// untouched.  Returns the number of accepted rows.
    pub fn ingest_scores(
        &mut self,
        v: &Viewer,
        comp_id: &str,
        rows: &Vec<(String, String)>,
        now: i64,
    ) -> (r: Result<i64, ApiError>)
        requires
            old(self).wf(),
            old(self).shared.id_gen.counter + rows@.len() <= u64::MAX,
            old(self).valid_tenant(v.tenant_id) ==> other_rows(
                old(self).store_of(v.tenant_id).scores@,
                comp_id@,
            ).len() + rows@.len() <= STORE_ROW_CAP,
        ensures
            final(self).wf(),
            r is Err ==> *final(self) == *old(self),
            v.role != Role::Organizer ==> r == Err::<i64, ApiError>(ApiError::Forbidden),
            v.role == Role::Organizer && !old(self).valid_tenant(v.tenant_id) ==> r == Err::<
                i64,
                ApiError,
            >(ApiError::StoreUnavailable),
            v.role == Role::Organizer && old(self).valid_tenant(v.tenant_id) && !old(self).store_of(
                v.tenant_id,
            ).has_competition(comp_id@) ==> r == Err::<i64, ApiError>(ApiError::CompetitionNotFound),
            v.role == Role::Organizer && old(self).valid_tenant(v.tenant_id) && old(self).store_of(
                v.tenant_id,
            ).has_competition(comp_id@) && competition_finished(
                old(self).store_of(v.tenant_id),
                comp_id@,
            ) ==> r == Err::<i64, ApiError>(ApiError::CompetitionFinished),
            v.role == Role::Organizer && old(self).valid_tenant(v.tenant_id) && old(self).store_of(
                v.tenant_id,
            ).has_competition(comp_id@) && !competition_finished(
                old(self).store_of(v.tenant_id),
                comp_id@,
            ) ==> {
                let st0 = old(self).store_of(v.tenant_id);
                if forall|k: int| 0 <= k < rows@.len() ==> row_ok(st0, #[trigger] rows@[k]) {
                    r == Ok::<i64, ApiError>(rows@.len() as i64)
                } else {
                    exists|k: int|
                        {
                            &&& 0 <= k < rows@.len()
                            &&& !row_ok(st0, #[trigger] rows@[k])
                            &&& forall|j: int| 0 <= j < k ==> row_ok(st0, #[trigger] rows@[j])
                            &&& r == Err::<i64, ApiError>(row_err(st0, rows@[k]))
                        }
                }
            },
            r is Ok ==> {
                let st0 = old(self).store_of(v.tenant_id);
                let st1 = final(self).store_of(v.tenant_id);
                let c0 = old(self).shared.id_gen.counter;
                &&& comp_view(st1.scores@, comp_id@) == rows_upload_view(rows@)
                &&& comp_rows(st1.scores@, comp_id@).len() == rows@.len()
                &&& forall|i: int|
                    0 <= i < rows@.len() ==> {
                        let rr = #[trigger] comp_rows(st1.scores@, comp_id@)[i];
                        &&& rr.id@ == hex_seq((c0 + 1 + i) as nat)
                        &&& rr.player_id == rows@[i].0
                        &&& Some(rr.score) == parse_i64_spec(rows@[i].1@)
                        &&& rr.row_num == i
                        &&& rr.created_at == now
                    }
                &&& forall|other: Seq<char>|
                    other != comp_id@ ==> #[trigger] comp_rows(st1.scores@, other) == comp_rows(
                        st0.scores@,
                        other,
                    )
                &&& st1.players == st0.players
                &&& st1.competitions == st0.competitions
                &&& final(self).shared.tenants == old(self).shared.tenants
                &&& final(self).shared.visits == old(self).shared.visits
                &&& final(self).shared.id_gen.counter == old(self).shared.id_gen.counter
                    + rows@.len()
                &&& final(self).stores@.len() == old(self).stores@.len()
                &&& forall|k: int|
                    0 <= k < old(self).stores@.len() && k != v.tenant_id - 1 ==> final(self).stores@[k] == old(self).stores@[k]
            },
    {
        if !matches!(v.role, Role::Organizer) {
            return Err(ApiError::Forbidden);
        }
        let idx = match self.store_index(v.tenant_id) {
            Ok(idx) => idx,
            Err(e) => {
                return Err(e);
            },
        };
        let finished = match self.stores[idx].find_competition(comp_id) {
            None => {
                return Err(ApiError::CompetitionNotFound);
            },
            Some(c) => c.finished_at.is_some(),
        };
        proof {
            assert(competition_finished(self.stores@[idx as int], comp_id@) == finished);
        }
        if finished {
            return Err(ApiError::CompetitionFinished);
        }
        let n = rows.len();
        let mut entries: Vec<(String, i64)> = Vec::new();
        let mut k: usize = 0;
        while k < n
            invariant
                0 <= k <= n,
                n == rows@.len(),
                *self == *old(self),
                old(self).wf(),
                v.role == Role::Organizer,
                old(self).valid_tenant(v.tenant_id),
                idx == v.tenant_id - 1,
                old(self).store_of(v.tenant_id).has_competition(comp_id@),
                !competition_finished(old(self).store_of(v.tenant_id), comp_id@),
                entries@.len() == k,
                forall|j: int| 0 <= j < k ==> row_ok(old(self).store_of(v.tenant_id), #[trigger] rows@[j]),
                forall|j: int|
                    0 <= j < k ==> (#[trigger] entries@[j]).0 == rows@[j].0 && Some(entries@[j].1)
                        == parse_i64_spec(rows@[j].1@),
            decreases n - k,
        {
            let row = &rows[k];
            if self.stores[idx].find_player(row.0.as_str()).is_none() {
                proof {
                    assert(!row_ok(old(self).store_of(v.tenant_id), rows@[k as int]));
                }
                return Err(ApiError::PlayerNotFound);
            }
            let sc = match crate::num::parse_i64(row.1.as_str()) {
                Some(sc) => sc,
                None => {
                    proof {
                        assert(!row_ok(old(self).store_of(v.tenant_id), rows@[k as int]));
                    }
                    return Err(ApiError::InvalidScore);
                },
            };
            entries.push((row.0.clone(), sc));
            k = k + 1;
        }
        let okl = self.locks.try_acquire(v.tenant_id);
        proof {
            assert(okl);
        }
        let mut st = self.stores.remove(idx);
        st.replace_scores(comp_id, &entries, &mut self.shared.id_gen, now);
        self.stores.insert(idx, st);
        proof {
            assert(self.stores@ =~= old(self).stores@.update(idx as int, st));
        }
        self.locks.release(v.tenant_id);
        proof {
            assert(rows@.len() <= STORE_ROW_CAP);
            assert(comp_view(st.scores@, comp_id@) =~= rows_upload_view(rows@));
        }
        Ok(rows.len() as i64)
    }

    /// Checks that the acting player exists and is not disqualified.
    fn authorize_player_at(&self, idx: usize, player_id: &str) -> (r: Result<(), ApiError>)
        requires
            self.wf(),
            idx < self.stores@.len(),
        ensures
            !self.stores@[idx as int].has_player(player_id@) ==> r == Err::<(), ApiError>(
                ApiError::Unauthorized,
            ),
            self.stores@[idx as int].has_player(player_id@) && player_disqualified_spec(
                self.stores@[idx as int],
                player_id@,
            ) ==> r == Err::<(), ApiError>(ApiError::Disqualified),
            self.stores@[idx as int].has_player(player_id@) && !player_disqualified_spec(
                self.stores@[idx as int],
                player_id@,
            ) ==> r is Ok,
    {
        let st = &self.stores[idx];
        match st.find_player(player_id) {
            None => Err(ApiError::Unauthorized),
            Some(p) => {
                proof {
                    let w = choose|w: int|
                        0 <= w < st.players@.len() && st.players@[w] == *p;
                    if p.is_disqualified {
                        assert(player_disqualified_spec(self.stores@[idx as int], player_id@));
                    } else {
                        if player_disqualified_spec(self.stores@[idx as int], player_id@) {
                            let j = choose|j: int|
                                0 <= j < st.players@.len() && (#[trigger] st.players@[j]).id@
                                    == player_id@ && st.players@[j].is_disqualified;
                            assert(j == w);
                        }
                    }
                }
                if p.is_disqualified {
                    Err(ApiError::Disqualified)
                } else {
                    Ok(())
                }
            },
        }
    }

    /// Serves one page of a competition's ranking to a player, recording
    /// the view in the cross-tenant visit log first.  The score log is read
    /// under the tenant lock, so the page reflects either a fully-old or a
    /// fully-new score set, never a partial replacement.
    #[verifier::rlimit(60)]
    pub fn competition_ranking(&mut self, v: &Viewer, comp_id: &str, rank_after: i64, now: i64) -> (r:
        Result<(CompetitionDetail, Vec<CompetitionRank>), ApiError>)
        requires
            old(self).wf(),
            old(self).shared.visits@.len() < STORE_ROW_CAP,
        ensures
            final(self).wf(),
            v.role != Role::Player ==> r == Err::<(CompetitionDetail, Vec<CompetitionRank>), ApiError>(
                ApiError::Forbidden,
            ) && *final(self) == *old(self),
            v.role == Role::Player && !old(self).valid_tenant(v.tenant_id) ==> r == Err::<
                (CompetitionDetail, Vec<CompetitionRank>),
                ApiError,
            >(ApiError::StoreUnavailable) && *final(self) == *old(self),
            v.role == Role::Player && old(self).valid_tenant(v.tenant_id) && !old(self).store_of(
                v.tenant_id,
            ).has_player(v.player_id@) ==> r == Err::<
                (CompetitionDetail, Vec<CompetitionRank>),
                ApiError,
            >(ApiError::Unauthorized) && *final(self) == *old(self),
            v.role == Role::Player && old(self).valid_tenant(v.tenant_id) && old(self).store_of(
                v.tenant_id,
            ).has_player(v.player_id@) && player_disqualified_spec(
                old(self).store_of(v.tenant_id),
                v.player_id@,
            ) ==> r == Err::<(CompetitionDetail, Vec<CompetitionRank>), ApiError>(
                ApiError::Disqualified,
            ) && *final(self) == *old(self),
            v.role == Role::Player && old(self).valid_tenant(v.tenant_id) && old(self).store_of(
                v.tenant_id,
            ).has_player(v.player_id@) && !player_disqualified_spec(
                old(self).store_of(v.tenant_id),
                v.player_id@,
            ) && !old(self).store_of(v.tenant_id).has_competition(comp_id@) ==> r == Err::<
                (CompetitionDetail, Vec<CompetitionRank>),
                ApiError,
            >(ApiError::CompetitionNotFound) && *final(self) == *old(self),
            v.role == Role::Player && old(self).valid_tenant(v.tenant_id) && old(self).store_of(
                v.tenant_id,
            ).has_player(v.player_id@) && !player_disqualified_spec(
                old(self).store_of(v.tenant_id),
                v.player_id@,
            ) && old(self).store_of(v.tenant_id).has_competition(comp_id@) ==> {
                &&& r is Ok
                &&& final(self).shared.visits@.len() == old(self).shared.visits@.len() + 1
                &&& final(self).shared.visits@.subrange(
                    0,
                    old(self).shared.visits@.len() as int,
                ) == old(self).shared.visits@
                &&& final(self).shared.visits@.last().player_id@ == v.player_id@
                &&& final(self).shared.visits@.last().tenant_id == v.tenant_id
                &&& final(self).shared.visits@.last().competition_id@ == comp_id@
                &&& final(self).shared.visits@.last().created_at == now
                &&& final(self).stores == old(self).stores
                &&& final(self).shared.tenants == old(self).shared.tenants
                &&& final(self).shared.id_gen == old(self).shared.id_gen
            },
            r matches Ok((cd, page)) ==> {
                let st = old(self).store_of(v.tenant_id);
                &&& cd.id@ == comp_id@
                &&& forall|ci: int|
                    0 <= ci < st.competitions@.len() && (#[trigger] st.competitions@[ci]).id@
                        == comp_id@ ==> cd.title@ == st.competitions@[ci].title@ && cd.is_finished
                        == (st.competitions@[ci].finished_at is Some)
                &&& ranking_served(page@, comp_view(st.scores@, comp_id@), rank_after as int, st)
            },
    {
        if !matches!(v.role, Role::Player) {
            return Err(ApiError::Forbidden);
        }
        let idx = match self.store_index(v.tenant_id) {
            Ok(idx) => idx,
            Err(e) => {
                return Err(e);
            },
        };
        match self.authorize_player_at(idx, v.player_id.as_str()) {
            Ok(()) => (),
            Err(e) => {
                return Err(e);
            },
        }
        let detail = match self.stores[idx].find_competition(comp_id) {
            None => {
                return Err(ApiError::CompetitionNotFound);
            },
            Some(c) => CompetitionDetail {
                id: c.id.clone(),
                title: c.title.clone(),
                is_finished: c.finished_at.is_some(),
            },
        };
        self.shared.visits.push(
            VisitHistory {
                player_id: v.player_id.clone(),
                tenant_id: v.tenant_id,
                competition_id: comp_id.to_owned(),
                created_at: now,
                updated_at: now,
            },
        );
        let okl = self.locks.try_acquire(v.tenant_id);
        proof {
            assert(okl);
        }
        let rows = self.stores[idx].scores_for(comp_id);
        proof {
            crate::store::lemma_comp_rows_ordered(
                self.stores@[idx as int].scores@,
                comp_id@,
            );
        }
        let full = compute_ranking(&rows);
        let len = full.len();
        let start: usize = if rank_after < 0 {
            0
        } else if rank_after >= len as i64 {
            len
        } else {
            rank_after as usize
        };
        let end: usize = if len - start > RANK_PAGE_LIMIT {
            start + RANK_PAGE_LIMIT
        } else {
            len
        };
        let mut page: Vec<CompetitionRank> = Vec::new();
        let mut k: usize = start;
        while k < end
            invariant
                start <= k <= end <= len,
                len == full@.len(),
                0 <= idx < self.stores@.len(),
                old(self).wf(),
                idx == v.tenant_id - 1,
                v.role == Role::Player,
                old(self).valid_tenant(v.tenant_id),
                old(self).store_of(v.tenant_id).has_player(v.player_id@),
                !player_disqualified_spec(old(self).store_of(v.tenant_id), v.player_id@),
                old(self).store_of(v.tenant_id).has_competition(comp_id@),
                self.locks.wf(),
                self.locks.locked(v.tenant_id),
                self.locks.held@.len() == 1,
                self.stores == old(self).stores,
                self.shared.tenants == old(self).shared.tenants,
                self.shared.id_gen == old(self).shared.id_gen,
                self.shared.visits@.len() == old(self).shared.visits@.len() + 1,
                self.shared.visits@.subrange(0, old(self).shared.visits@.len() as int) == old(
                    self,
                ).shared.visits@,
                self.shared.visits@.last().player_id@ == v.player_id@,
                self.shared.visits@.last().tenant_id == v.tenant_id,
                self.shared.visits@.last().competition_id@ == comp_id@,
                self.shared.visits@.last().created_at == now,
                old(self).shared.visits@.len() < STORE_ROW_CAP,
                len <= STORE_ROW_CAP,
                detail.id@ == comp_id@,
                exists|w: int|
                    0 <= w < old(self).store_of(v.tenant_id).competitions@.len() && (#[trigger] old(
                        self,
                    ).store_of(v.tenant_id).competitions@[w]).id@ == comp_id@ && detail.title@
                        == old(self).store_of(v.tenant_id).competitions@[w].title@
                        && detail.is_finished == (old(self).store_of(
                        v.tenant_id,
                    ).competitions@[w].finished_at is Some),
                is_ranking_of(comp_view(old(self).store_of(v.tenant_id).scores@, comp_id@), full@),
                page@.len() == k - start,
                forall|q: int|
                    0 <= q < page@.len() ==> {
                        let row = #[trigger] page@[q];
                        let e = full@[start + q];
                        &&& row.rank == start + q + 1
                        &&& row.score == e.score
                        &&& row.player_id@ == e.player_id@
                        &&& row.row_num == 0
                        &&& player_named(self.stores@[idx as int], e.player_id@, row.player_display_name@)
                    },
            decreases end - k,
        {
            let entry = &full[k];
            proof {
                let st0 = old(self).store_of(v.tenant_id);
                let cv = comp_view(st0.scores@, comp_id@);
                crate::rank::lemma_ranked_players_scored(cv, full@, k as int);
                let i = choose|i: int|
                    0 <= i < cv.len() && (#[trigger] cv[i]).player == full@[k as int].player_id@;
                assert(cv[i] == crate::store::score_view(comp_rows(st0.scores@, comp_id@)[i]));
                crate::store::lemma_comp_rows_ordered(st0.scores@, comp_id@);
                assert(st0.scores@.contains(comp_rows(st0.scores@, comp_id@)[i]));
                let w = choose|w: int|
                    0 <= w < st0.scores@.len() && st0.scores@[w] == comp_rows(
                        st0.scores@,
                        comp_id@,
                    )[i];
                assert(st0.has_player(st0.scores@[w].player_id@));
                assert(st0.has_player(full@[k as int].player_id@));
            }
            let name = match self.stores[idx].find_player(entry.player_id.as_str()) {
                None => {
                    proof {
                        assert(false);
                    }
                    self.locks.release(v.tenant_id);
                    return Err(ApiError::Internal);
                },
                Some(p) => {
                    proof {
                        let w = choose|w: int|
                            0 <= w < self.stores@[idx as int].players@.len()
                                && self.stores@[idx as int].players@[w] == *p;
                        assert(player_named(
                            self.stores@[idx as int],
                            entry.player_id@,
                            p.display_name@,
                        ));
                    }
                    p.display_name.clone()
                },
            };
            page.push(
                CompetitionRank {
                    rank: (k + 1) as i64,
                    score: entry.score,
                    player_id: entry.player_id.clone(),
                    player_display_name: name,
                    row_num: 0,
                },
            );
            k = k + 1;
        }
        self.locks.release(v.tenant_id);
        proof {
            let st0 = old(self).store_of(v.tenant_id);
            assert(ranking_page_ok(page@, full@, rank_after as int, st0));
            let w = choose|w: int|
                0 <= w < st0.competitions@.len() && (#[trigger] st0.competitions@[w]).id@
                    == comp_id@ && detail.title@ == st0.competitions@[w].title@
                    && detail.is_finished == (st0.competitions@[w].finished_at is Some);
            assert forall|ci: int|
                0 <= ci < st0.competitions@.len() && (#[trigger] st0.competitions@[ci]).id@
                    == comp_id@ implies detail.title@ == st0.competitions@[ci].title@
                && detail.is_finished == (st0.competitions@[ci].finished_at is Some) by {
                if ci != w {
                    assert(st0.competitions@[ci].id@ != st0.competitions@[w].id@);
                }
            }
            assert(detail.id@ == comp_id@);
            assert(is_ranking_of(comp_view(st0.scores@, comp_id@), full@));
            assert(ranking_served(page@, comp_view(st0.scores@, comp_id@), rank_after as int, st0));
        }
        Ok((detail, page))
    }

    /// Computes the billing report of one competition, joining the shared
    /// store's visit log with the tenant store's score log.  The score log
    /// is read under the tenant lock; the visit read is not locked against
    /// concurrent visit writes (accepted staleness — finished competitions'
    /// score sets are frozen, so the figures that matter are stable).
    pub fn billing_report_for(&mut self, tenant_id: i64, comp_id: &str) -> (r: Result<
        BillingReport,
        ApiError,
    >)
        requires
            old(self).wf(),
        ensures
            final(self).wf(),
            final(self).stores == old(self).stores,
            final(self).shared == old(self).shared,
            !old(self).valid_tenant(tenant_id) ==> r == Err::<BillingReport, ApiError>(
                ApiError::StoreUnavailable,
            ),
            old(self).valid_tenant(tenant_id) && !old(self).store_of(tenant_id).has_competition(
                comp_id@,
            ) ==> r == Err::<BillingReport, ApiError>(ApiError::Internal),
            old(self).valid_tenant(tenant_id) && old(self).store_of(tenant_id).has_competition(
                comp_id@,
            ) ==> r is Ok,
            r matches Ok(rep) ==> {
                let st = old(self).store_of(tenant_id);
                &&& forall|ci: int|
                    0 <= ci < st.competitions@.len() && (#[trigger] st.competitions@[ci]).id@
                        == comp_id@ ==> report_matches(
                        rep,
                        st.competitions@[ci],
                        old(self).shared.visits@,
                        tenant_id as int,
                        st.scores@,
                    )
                &&& 0 <= rep.billing_yen <= PLAYER_YEN * st.scores@.len() + VISITOR_YEN * old(
                    self,
                ).shared.visits@.len()
            },
    {
        let idx = match self.store_index(tenant_id) {
            Ok(idx) => idx,
            Err(_) => {
                return Err(ApiError::StoreUnavailable);
            },
        };
        let comp = match self.stores[idx].find_competition(comp_id) {
            None => {
                return Err(ApiError::Internal);
            },
            Some(c) => c.clone(),
        };
        let ghost w = choose|w: int|
            0 <= w < self.stores@[idx as int].competitions@.len()
                && self.stores@[idx as int].competitions@[w] == comp;
        let okl = self.locks.try_acquire(tenant_id);
        proof {
            assert(okl);
        }
        let rep = billing_report_compute(&comp, &self.shared.visits, tenant_id, &self.stores[idx].scores);
        self.locks.release(tenant_id);
        proof {
            let st = old(self).store_of(tenant_id);
            assert forall|ci: int|
                0 <= ci < st.competitions@.len() && (#[trigger] st.competitions@[ci]).id@
                    == comp_id@ implies report_matches(
                rep,
                st.competitions@[ci],
                old(self).shared.visits@,
                tenant_id as int,
                st.scores@,
            ) by {
                if ci != w {
                    assert(st.competitions@[ci].id@ != st.competitions@[w].id@);
                }
            }
        }
        Ok(rep)
    }

    /// The billing reports of every competition of the organizer's tenant,
    /// most recently created first.
    pub fn billing_reports(&mut self, v: &Viewer) -> (r: Result<Vec<BillingReport>, ApiError>)
        requires
            old(self).wf(),
        ensures
            final(self).wf(),
            final(self).stores == old(self).stores,
            final(self).shared == old(self).shared,
            v.role != Role::Organizer ==> r == Err::<Vec<BillingReport>, ApiError>(
                ApiError::Forbidden,
            ),
            v.role == Role::Organizer && !old(self).valid_tenant(v.tenant_id) ==> r == Err::<
                Vec<BillingReport>,
                ApiError,
            >(ApiError::StoreUnavailable),
            v.role == Role::Organizer && old(self).valid_tenant(v.tenant_id) ==> r is Ok,
            r matches Ok(reps) ==> {
                let st = old(self).store_of(v.tenant_id);
                let m = st.competitions@.len() as int;
                &&& reps@.len() == m
                &&& forall|k: int|
                    0 <= k < m ==> report_matches(
                        #[trigger] reps@[k],
                        st.competitions@[m - 1 - k],
                        old(self).shared.visits@,
                        v.tenant_id as int,
                        st.scores@,
                    )
            },
    {
        if !matches!(v.role, Role::Organizer) {
            return Err(ApiError::Forbidden);
        }
        let idx = match self.store_index(v.tenant_id) {
            Ok(idx) => idx,
            Err(e) => {
                return Err(e);
            },
        };
        let m = self.stores[idx].competitions.len();
        let mut reps: Vec<BillingReport> = Vec::new();
        let mut k: usize = 0;
        while k < m
            invariant
                0 <= k <= m,
                old(self).wf(),
                self.stores == old(self).stores,
                self.shared == old(self).shared,
                self.locks.wf(),
                self.locks.quiescent(),
                old(self).valid_tenant(v.tenant_id),
                idx == v.tenant_id - 1,
                m == old(self).store_of(v.tenant_id).competitions@.len(),
                reps@.len() == k,
                forall|q: int|
                    0 <= q < k ==> report_matches(
                        #[trigger] reps@[q],
                        old(self).store_of(v.tenant_id).competitions@[m - 1 - q],
                        old(self).shared.visits@,
                        v.tenant_id as int,
                        old(self).store_of(v.tenant_id).scores@,
                    ),
            decreases m - k,
        {
            let ci = m - 1 - k;
            let id = self.stores[idx].competitions[ci].id.clone();
            proof {
                assert(old(self).store_of(v.tenant_id).has_competition(id@));
            }
            match self.billing_report_for(v.tenant_id, id.as_str()) {
                Ok(rep) => {
                    proof {
                        let st = old(self).store_of(v.tenant_id);
                        assert(st.competitions@[ci as int].id@ == id@);
                        assert(report_matches(
                            rep,
                            st.competitions@[ci as int],
                            old(self).shared.visits@,
                            v.tenant_id as int,
                            st.scores@,
                        ));
                    }
                    reps.push(rep);
                },
                Err(_) => {
                    proof {
                        assert(false);
                    }
                    return Err(ApiError::Internal);
                },
            }
            k = k + 1;
        }
        Ok(reps)
    }

    /// The cross-tenant billing listing: tenants in descending id order,
    /// optionally only those with id below `before_id` (zero means no
    /// bound), at most ten of them, each with the sum of its competitions'
    /// billing totals.  One full scan per call; nothing is cached.
    pub fn tenants_billing(&mut self, v: &Viewer, before_id: i64) -> (r: Result<
        Vec<TenantWithBilling>,
        ApiError,
    >)
        requires
            old(self).wf(),
        ensures
            final(self).wf(),
            final(self).stores == old(self).stores,
            final(self).shared == old(self).shared,
            v.role != Role::Admin ==> r == Err::<Vec<TenantWithBilling>, ApiError>(
                ApiError::Forbidden,
            ),
            v.role == Role::Admin ==> r is Ok,
            r matches Ok(list) ==> {
                let sel = selected_tenants(old(self).shared.tenants@, before_id);
                &&& list@.len() == (if sel.len() > 10 {
                    10int
                } else {
                    sel.len() as int
                })
                &&& forall|k: int|
                    0 <= k < list@.len() ==> {
                        let t = sel[k];
                        let tb = #[trigger] list@[k];
                        &&& tb.id@ == dec_seq_i64(t.id as int)
                        &&& tb.name@ == t.name@
                        &&& tb.display_name@ == t.display_name@
                        &&& tb.billing_yen == tenant_yen(
                            old(self).store_of(t.id),
                            old(self).shared.visits@,
                        )
                    }
            },
    {
        if !matches!(v.role, Role::Admin) {
            return Err(ApiError::Forbidden);
        }
        let ghost tenants = self.shared.tenants@;
        let ghost sel = selected_tenants(tenants, before_id);
        let n = self.shared.tenants.len();
        let mut list: Vec<TenantWithBilling> = Vec::new();
        let mut i: usize = n;
        while i > 0 && list.len() < 10
            invariant
                0 <= i <= n,
                old(self).wf(),
                self.stores == old(self).stores,
                self.shared == old(self).shared,
                self.locks.wf(),
                self.locks.quiescent(),
                v.role == Role::Admin,
                tenants == old(self).shared.tenants@,
                n == tenants.len(),
                sel == selected_tenants(tenants, before_id),
                list@.len() <= 10,
                list@.len() == ({
                    let selp = filter_before(tenants.reverse().take(n - i), before_id);
                    if selp.len() > 10 {
                        10int
                    } else {
                        selp.len() as int
                    }
                }),
                forall|k: int|
                    0 <= k < list@.len() ==> {
                        let selp = filter_before(tenants.reverse().take(n - i), before_id);
                        let t = selp[k];
                        let tb = #[trigger] list@[k];
                        &&& tb.id@ == dec_seq_i64(t.id as int)
                        &&& tb.name@ == t.name@
                        &&& tb.display_name@ == t.display_name@
                        &&& tb.billing_yen == tenant_yen(
                            old(self).store_of(t.id),
                            old(self).shared.visits@,
                        )
                    },
            decreases i,
        {
            i = i - 1;
            let ghost prevp = filter_before(tenants.reverse().take(n - i - 1), before_id);
            proof {
                reveal(Seq::filter);
                assert(tenants.reverse().take(n - i).drop_last() =~= tenants.reverse().take(
                    n - i - 1,
                ));
                assert(tenants.reverse().take(n - i).last() == tenants.reverse()[n - i - 1]);
                assert(tenants.reverse()[n - i - 1] == tenants[i as int]);
            }
            let tid = self.shared.tenants[i].id;
            if !(before_id != 0 && before_id <= tid) {
                let idx2 = (tid - 1) as usize;
                proof {
                    assert(tenants[i as int].id == i + 1);
                    assert(idx2 == i);
                }
                let m = self.stores[idx2].competitions.len();
                let mut total: i64 = 0;
                let mut ci: usize = 0;
                while ci < m
                    invariant
                        0 <= ci <= m,
                        old(self).wf(),
                        self.stores == old(self).stores,
                        self.shared == old(self).shared,
                        self.locks.wf(),
                        self.locks.quiescent(),
                        0 <= idx2 < self.stores@.len(),
                        tid == idx2 + 1,
                        m == self.stores@[idx2 as int].competitions@.len(),
                        m <= COMPETITION_CAP,
                        total == tenant_yen_upto(
                            old(self).store_of(tid),
                            old(self).shared.visits@,
                            ci as int,
                        ),
                        0 <= total <= ci * (PLAYER_YEN * STORE_ROW_CAP + VISITOR_YEN
                            * STORE_ROW_CAP),
                    decreases m - ci,
                {
                    let id = self.stores[idx2].competitions[ci].id.clone();
                    proof {
                        assert(old(self).store_of(tid).has_competition(id@));
                    }
                    match self.billing_report_for(tid, id.as_str()) {
                        Ok(rep) => {
                            proof {
                                let st = old(self).store_of(tid);
                                assert(st.competitions@[ci as int].id@ == id@);
                                assert(report_matches(
                                    rep,
                                    st.competitions@[ci as int],
                                    old(self).shared.visits@,
                                    tid as int,
                                    st.scores@,
                                ));
                                assert(st.tenant_id == tid);
                                assert(rep.billing_yen == comp_yen(
                                    st.competitions@[ci as int],
                                    old(self).shared.visits@,
                                    st.tenant_id as int,
                                    st.scores@,
                                ));
                                assert(st.scores@.len() <= STORE_ROW_CAP);
                                assert(old(self).shared.visits@.len() <= STORE_ROW_CAP);
                                assert(rep.billing_yen <= PLAYER_YEN * STORE_ROW_CAP + VISITOR_YEN
                                    * STORE_ROW_CAP) by {
                                    assert(PLAYER_YEN * st.scores@.len() <= PLAYER_YEN
                                        * STORE_ROW_CAP);
                                    assert(VISITOR_YEN * old(self).shared.visits@.len()
                                        <= VISITOR_YEN * STORE_ROW_CAP);
                                }
                                assert((ci + 1) * (PLAYER_YEN * STORE_ROW_CAP + VISITOR_YEN
                                    * STORE_ROW_CAP) == ci * (PLAYER_YEN * STORE_ROW_CAP
                                    + VISITOR_YEN * STORE_ROW_CAP) + (PLAYER_YEN * STORE_ROW_CAP
                                    + VISITOR_YEN * STORE_ROW_CAP)) by (nonlinear_arith);
                                assert(ci * (PLAYER_YEN * STORE_ROW_CAP + VISITOR_YEN
                                    * STORE_ROW_CAP) <= COMPETITION_CAP * (PLAYER_YEN
                                    * STORE_ROW_CAP + VISITOR_YEN * STORE_ROW_CAP)) by (nonlinear_arith)
                                    requires ci <= COMPETITION_CAP;
                            }
                            total = total + rep.billing_yen;
                        },
                        Err(_) => {
                            proof {
                                assert(false);
                            }
                            return Err(ApiError::Internal);
                        },
                    }
                    ci = ci + 1;
                }
                let t = &self.shared.tenants[i];
                list.push(
                    TenantWithBilling {
                        id: dec_string_i64(tid),
                        name: t.name.clone(),
                        display_name: t.display_name.clone(),
                        billing_yen: total,
                    },
                );
                proof {
                    let selp1 = filter_before(tenants.reverse().take(n - i), before_id);
                    assert(selp1 == prevp.push(tenants[i as int]));
                    assert(list@.last() == list@[list@.len() - 1]);
                    assert(selp1[selp1.len() - 1] == tenants[i as int]);
                    assert(total == tenant_yen(old(self).store_of(tid), old(self).shared.visits@));
                    assert forall|k: int| 0 <= k < list@.len() - 1 implies #[trigger] selp1[k]
                        == prevp[k] by {}
                }
            } else {
                proof {
                    let selp1 = filter_before(tenants.reverse().take(n - i), before_id);
                    assert(selp1 == prevp);
                }
            }
        }
        proof {
            assert(tenants.reverse().take(n as int) =~= tenants.reverse());
            if i > 0 {
                assert(list@.len() == 10);
                assert(tenants.reverse() =~= tenants.reverse().take(n - i) + tenants.reverse().skip(
                    n - i,
                ));
                Seq::filter_distributes_over_add(
                    tenants.reverse().take(n - i),
                    tenants.reverse().skip(n - i),
                    |t: Tenant| before_id == 0 || t.id < before_id,
                );
                let selp = filter_before(tenants.reverse().take(n - i), before_id);
                let rest = filter_before(tenants.reverse().skip(n - i), before_id);
                assert(sel =~= selp + rest);
                assert forall|k: int| 0 <= k < 10 implies #[trigger] sel[k] == selp[k] by {}
            }
        }
        Ok(list)
    }

    /// A player's detail view: their profile and, for each competition in
    /// which they have a score row (in creation order), their authoritative
    /// score.  The score log is read under the tenant lock.
    pub fn player_detail(&mut self, v: &Viewer, player_id: &str) -> (r: Result<
        (PlayerDetail, Vec<PlayerScoreDetail>),
        ApiError,
    >)
        requires
            old(self).wf(),
        ensures
            final(self).wf(),
            final(self).stores == old(self).stores,
            final(self).shared == old(self).shared,
            v.role != Role::Player ==> r == Err::<(PlayerDetail, Vec<PlayerScoreDetail>), ApiError>(
                ApiError::Forbidden,
            ),
            v.role == Role::Player && !old(self).valid_tenant(v.tenant_id) ==> r == Err::<
                (PlayerDetail, Vec<PlayerScoreDetail>),
                ApiError,
            >(ApiError::StoreUnavailable),
            v.role == Role::Player && old(self).valid_tenant(v.tenant_id) && !old(self).store_of(
                v.tenant_id,
            ).has_player(v.player_id@) ==> r == Err::<
                (PlayerDetail, Vec<PlayerScoreDetail>),
                ApiError,
            >(ApiError::Unauthorized),
            v.role == Role::Player && old(self).valid_tenant(v.tenant_id) && old(self).store_of(
                v.tenant_id,
            ).has_player(v.player_id@) && player_disqualified_spec(
                old(self).store_of(v.tenant_id),
                v.player_id@,
            ) ==> r == Err::<(PlayerDetail, Vec<PlayerScoreDetail>), ApiError>(
                ApiError::Disqualified,
            ),
            v.role == Role::Player && old(self).valid_tenant(v.tenant_id) && old(self).store_of(
                v.tenant_id,
            ).has_player(v.player_id@) && !player_disqualified_spec(
                old(self).store_of(v.tenant_id),
                v.player_id@,
            ) && !old(self).store_of(v.tenant_id).has_player(player_id@) ==> r == Err::<
                (PlayerDetail, Vec<PlayerScoreDetail>),
                ApiError,
            >(ApiError::PlayerNotFound),
            v.role == Role::Player && old(self).valid_tenant(v.tenant_id) && old(self).store_of(
                v.tenant_id,
            ).has_player(v.player_id@) && !player_disqualified_spec(
                old(self).store_of(v.tenant_id),
                v.player_id@,
            ) && old(self).store_of(v.tenant_id).has_player(player_id@) ==> r is Ok,
            r matches Ok((pd, psds)) ==> {
                let st = old(self).store_of(v.tenant_id);
                let pcs = player_comps(st, player_id@);
                &&& pd.id@ == player_id@
                &&& player_named(st, player_id@, pd.display_name@)
                &&& pd.is_disqualified == player_disqualified_spec(st, player_id@)
                &&& psds@.len() == pcs.len()
                &&& forall|k: int|
                    0 <= k < psds@.len() ==> (#[trigger] psds@[k]).competition_title@
                        == pcs[k].title@ && authoritative_score(
                        st.scores@,
                        pcs[k].id@,
                        player_id@,
                        psds@[k].score,
                    )
            },
    {
        if !matches!(v.role, Role::Player) {
            return Err(ApiError::Forbidden);
        }
        let idx = match self.store_index(v.tenant_id) {
            Ok(idx) => idx,
            Err(e) => {
                return Err(e);
            },
        };
        match self.authorize_player_at(idx, v.player_id.as_str()) {
            Ok(()) => (),
            Err(e) => {
                return Err(e);
            },
        }
        let pd = match self.stores[idx].find_player(player_id) {
            None => {
                return Err(ApiError::PlayerNotFound);
            },
            Some(p) => {
                proof {
                    let w = choose|w: int|
                        0 <= w < self.stores@[idx as int].players@.len()
                            && self.stores@[idx as int].players@[w] == *p;
                    assert(player_named(self.stores@[idx as int], player_id@, p.display_name@));
                    if p.is_disqualified {
                        assert(player_disqualified_spec(self.stores@[idx as int], player_id@));
                    } else {
                        if player_disqualified_spec(self.stores@[idx as int], player_id@) {
                            let j = choose|j: int|
                                0 <= j < self.stores@[idx as int].players@.len() && (
                                #[trigger] self.stores@[idx as int].players@[j]).id@ == player_id@
                                    && self.stores@[idx as int].players@[j].is_disqualified;
                            assert(j == w);
                        }
                    }
                }
                PlayerDetail {
                    id: p.id.clone(),
                    display_name: p.display_name.clone(),
                    is_disqualified: p.is_disqualified,
                }
            },
        };
        let okl = self.locks.try_acquire(v.tenant_id);
        proof {
            assert(okl);
        }
        let ghost st = old(self).store_of(v.tenant_id);
        let m = self.stores[idx].competitions.len();
        let mut psds: Vec<PlayerScoreDetail> = Vec::new();
        let mut ci: usize = 0;
        while ci < m
            invariant
                0 <= ci <= m,
                old(self).wf(),
                self.stores == old(self).stores,
                self.shared == old(self).shared,
                self.locks.wf(),
                self.locks.locked(v.tenant_id),
                self.locks.held@.len() == 1,
                0 <= idx < self.stores@.len(),
                idx == v.tenant_id - 1,
                st == old(self).store_of(v.tenant_id),
                m == st.competitions@.len(),
                psds@.len() == player_comps_upto(st, player_id@, ci as int).len(),
                forall|k: int|
                    0 <= k < psds@.len() ==> {
                        let pcs = player_comps_upto(st, player_id@, ci as int);
                        &&& (#[trigger] psds@[k]).competition_title@ == pcs[k].title@
                        &&& authoritative_score(st.scores@, pcs[k].id@, player_id@, psds@[k].score)
                    },
            decreases m - ci,
        {
            let ghost prevp = player_comps_upto(st, player_id@, ci as int);
            proof {
                reveal(Seq::filter);
                assert(st.competitions@.take(ci + 1).drop_last() =~= st.competitions@.take(
                    ci as int,
                ));
                assert(st.competitions@.take(ci + 1).last() == st.competitions@[ci as int]);
                lemma_comp_rows_scored(st.scores@, st.competitions@[ci as int].id@, player_id@);
            }
            let comp = &self.stores[idx].competitions[ci];
            match self.stores[idx].latest_score_row(comp.id.as_str(), player_id) {
                Some(x) => {
                    proof {
                        let c = st.competitions@[ci as int].id@;
                        assert(comp_rows(st.scores@, c).contains(x));
                        assert(authoritative_score(st.scores@, c, player_id@, x.score));
                        assert(scored_in(st.scores@, c, player_id@));
                        assert(player_comps_upto(st, player_id@, ci + 1) == prevp.push(
                            st.competitions@[ci as int],
                        ));
                    }
                    psds.push(
                        PlayerScoreDetail { competition_title: comp.title.clone(), score: x.score },
                    );
                },
                None => {
                    proof {
                        let c = st.competitions@[ci as int].id@;
                        assert(!scored_in(st.scores@, c, player_id@));
                        assert(player_comps_upto(st, player_id@, ci + 1) == prevp);
                    }
                },
            }
            ci = ci + 1;
        }
        self.locks.release(v.tenant_id);
        proof {
            assert(st.competitions@.take(m as int) =~= st.competitions@);
            assert(player_comps_upto(st, player_id@, m as int) == player_comps(st, player_id@));
        }
        Ok((pd, psds))
    }

    /// The identity view: the tenant resolved from the request's host plus,
    /// when the credential authenticates a player, that player's profile.
    /// An absent credential, or a player the tenant does not know, yields a
    /// logged-out view rather than an error.
    pub fn me(&self, tenant_name: &str, tenant_display_name: &str, auth: Option<&Viewer>) -> (r:
        Result<MeResult, ApiError>)
        requires
            self.wf(),
        ensures
            r is Err <==> (auth is Some && auth->0.role == Role::Player && !self.valid_tenant(
                auth->0.tenant_id,
            )),
            r matches Ok(me) ==> {
                &&& me.tenant_name@ == tenant_name@
                &&& me.tenant_display_name@ == tenant_display_name@
                &&& auth is None ==> (!me.logged_in && me.me is None && me.role is None)
                &&& (auth is Some && (auth->0.role == Role::Admin || auth->0.role
                    == Role::Organizer)) ==> (me.logged_in && me.me is None && me.role == Some(
                    auth->0.role,
                ))
                &&& (auth is Some && auth->0.role == Role::Player && self.valid_tenant(
                    auth->0.tenant_id,
                ) && !self.store_of(auth->0.tenant_id).has_player(auth->0.player_id@)) ==> (
                !me.logged_in && me.me is None && me.role is None)
                &&& (auth is Some && auth->0.role == Role::Player && self.valid_tenant(
                    auth->0.tenant_id,
                ) && self.store_of(auth->0.tenant_id).has_player(auth->0.player_id@)) ==> {
                    &&& me.logged_in
                    &&& me.role == Some(Role::Player)
                    &&& me.me matches Some(pd) && pd.id@ == auth->0.player_id@ && player_named(
                        self.store_of(auth->0.tenant_id),
                        auth->0.player_id@,
                        pd.display_name@,
                    )
                }
            },
            r is Err ==> r == Err::<MeResult, ApiError>(ApiError::StoreUnavailable),
    {
        let tenant_name = tenant_name.to_owned();
        let tenant_display_name = tenant_display_name.to_owned();
        match auth {
            None => Ok(
                MeResult {
                    tenant_name,
                    tenant_display_name,
                    me: None,
                    role: None,
                    logged_in: false,
                },
            ),
            Some(v) => {
                if matches!(v.role, Role::Admin) || matches!(v.role, Role::Organizer) {
                    return Ok(
                        MeResult {
                            tenant_name,
                            tenant_display_name,
                            me: None,
                            role: Some(v.role),
                            logged_in: true,
                        },
                    );
                }
                let idx = match self.store_index(v.tenant_id) {
                    Ok(idx) => idx,
                    Err(e) => {
                        return Err(e);
                    },
                };
                match self.stores[idx].find_player(v.player_id.as_str()) {
                    None => Ok(
                        MeResult {
                            tenant_name,
                            tenant_display_name,
                            me: None,
                            role: None,
                            logged_in: false,
                        },
                    ),
                    Some(p) => {
                        proof {
                            let w = choose|w: int|
                                0 <= w < self.stores@[idx as int].players@.len()
                                    && self.stores@[idx as int].players@[w] == *p;
                            assert(player_named(
                                self.stores@[idx as int],
                                v.player_id@,
                                p.display_name@,
                            ));
                        }
                        Ok(
                            MeResult {
                                tenant_name,
                                tenant_display_name,
                                me: Some(
                                    PlayerDetail {
                                        id: p.id.clone(),
                                        display_name: p.display_name.clone(),
                                        is_disqualified: p.is_disqualified,
                                    },
                                ),
                                role: Some(Role::Player),
                                logged_in: true,
                            },
                        )
                    },
                }
            },
        }
    }

    /// The organizer's view of their tenant's competitions.
    pub fn organizer_competitions(&self, v: &Viewer) -> (r: Result<Vec<CompetitionDetail>, ApiError>)
        requires
            self.wf(),
        ensures
            v.role != Role::Organizer ==> r == Err::<Vec<CompetitionDetail>, ApiError>(
                ApiError::Forbidden,
            ),
            v.role == Role::Organizer && !self.valid_tenant(v.tenant_id) ==> r == Err::<
                Vec<CompetitionDetail>,
                ApiError,
            >(ApiError::StoreUnavailable),
            v.role == Role::Organizer && self.valid_tenant(v.tenant_id) ==> r is Ok,
            r matches Ok(cds) ==> competitions_listed(
                cds@,
                self.store_of(v.tenant_id).competitions@,
            ),
    {
        if !matches!(v.role, Role::Organizer) {
            return Err(ApiError::Forbidden);
        }
        self.competitions_of(v.tenant_id)
    }

    /// A player's view of their tenant's competitions: the acting player
    /// must exist and not be disqualified.
    pub fn player_competitions(&self, v: &Viewer) -> (r: Result<Vec<CompetitionDetail>, ApiError>)
        requires
            self.wf(),
        ensures
            v.role != Role::Player ==> r == Err::<Vec<CompetitionDetail>, ApiError>(
                ApiError::Forbidden,
            ),
            v.role == Role::Player && !self.valid_tenant(v.tenant_id) ==> r == Err::<
                Vec<CompetitionDetail>,
                ApiError,
            >(ApiError::StoreUnavailable),
            v.role == Role::Player && self.valid_tenant(v.tenant_id) && !self.store_of(
                v.tenant_id,
            ).has_player(v.player_id@) ==> r == Err::<Vec<CompetitionDetail>, ApiError>(
                ApiError::Unauthorized,
            ),
            v.role == Role::Player && self.valid_tenant(v.tenant_id) && self.store_of(
                v.tenant_id,
            ).has_player(v.player_id@) && player_disqualified_spec(
                self.store_of(v.tenant_id),
                v.player_id@,
            ) ==> r == Err::<Vec<CompetitionDetail>, ApiError>(ApiError::Disqualified),
            v.role == Role::Player && self.valid_tenant(v.tenant_id) && self.store_of(
                v.tenant_id,
            ).has_player(v.player_id@) && !player_disqualified_spec(
                self.store_of(v.tenant_id),
                v.player_id@,
            ) ==> r is Ok,
            r matches Ok(cds) ==> competitions_listed(
                cds@,
                self.store_of(v.tenant_id).competitions@,
            ),
    {
        if !matches!(v.role, Role::Player) {
            return Err(ApiError::Forbidden);
        }
        let idx = match self.store_index(v.tenant_id) {
            Ok(idx) => idx,
            Err(e) => {
                return Err(e);
            },
        };
        match self.authorize_player_at(idx, v.player_id.as_str()) {
            Ok(()) => (),
            Err(e) => {
                return Err(e);
            },
        }
        self.competitions_of(v.tenant_id)
    }

    /// Lists a tenant's competitions, most recently created first, with
    /// whether each is finished.
    pub fn competitions_of(&self, tenant_id: i64) -> (r: Result<Vec<CompetitionDetail>, ApiError>)
        requires
            self.wf(),
        ensures
            r is Ok <==> self.valid_tenant(tenant_id),
            r is Err ==> r == Err::<Vec<CompetitionDetail>, ApiError>(ApiError::StoreUnavailable),
            r matches Ok(cds) ==> competitions_listed(
                cds@,
                self.store_of(tenant_id).competitions@,
            ),
    {
        let idx = match self.store_index(tenant_id) {
            Ok(idx) => idx,
            Err(e) => {
                return Err(e);
            },
        };
        let st = &self.stores[idx];
        let n = st.competitions.len();
        let mut cds: Vec<CompetitionDetail> = Vec::new();
        let mut i: usize = n;
        while i > 0
            invariant
                0 <= i <= n,
                n == st.competitions@.len(),
                cds@.len() == n - i,
                forall|q: int|
                    0 <= q < cds@.len() ==> {
                        let d = #[trigger] cds@[q];
                        let c = st.competitions@[n - 1 - q];
                        &&& d.id@ == c.id@
                        &&& d.title@ == c.title@
                        &&& d.is_finished == (c.finished_at is Some)
                    },
            decreases i,
        {
            i = i - 1;
            let c = &st.competitions[i];
            cds.push(
                CompetitionDetail {
                    id: c.id.clone(),
                    title: c.title.clone(),
                    is_finished: c.finished_at.is_some(),
                },
            );
        }
        Ok(cds)
    }
}

} // verus!
