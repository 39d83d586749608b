use vstd::prelude::*;

verus! {

/// The per-tenant advisory lock table.
///
/// One lock resource exists per tenant; score-mutating and score-reading
/// operations must hold the tenant's lock for the duration of their critical
/// section.  The lock is advisory and cooperative: it serializes the
/// operations that use it and protects nothing against callers that bypass
/// it.
pub struct TenantLocks {
    pub held: Vec<i64>,
}

impl TenantLocks {
    /// Each tenant's lock is held at most once.
    pub open spec fn wf(self) -> bool {
        self.held@.no_duplicates()
    }

    /// Whether the lock of tenant `t` is currently held.
    pub open spec fn locked(self, t: i64) -> bool {
        self.held@.contains(t)
    }

    /// Whether no lock is held at all.
    pub open spec fn quiescent(self) -> bool {
        self.held@.len() == 0
    }

    pub fn new() -> (l: TenantLocks)
        ensures
            l.wf(),
            l.quiescent(),
            forall|t: i64| !l.locked(t),
    {
        TenantLocks { held: Vec::new() }
    }

    /// Attempts to take tenant `t`'s lock.  This succeeds exactly when the
    /// lock is free: while one caller holds it, every further attempt fails,
    /// which is the mutual-exclusion guarantee.  A blocking acquisition is
    /// this attempt repeated until it succeeds.
    pub fn try_acquire(&mut self, t: i64) -> (ok: bool)
        requires
            old(self).wf(),
        ensures
            final(self).wf(),
            ok <==> !old(self).locked(t),
            ok ==> final(self).held@.len() == old(self).held@.len() + 1,
            ok ==> final(self).locked(t),
            ok ==> forall|u: i64| u != t ==> final(self).locked(u) == old(self).locked(u),
            !ok ==> *final(self) == *old(self),
    {
        let mut i: usize = 0;
        let n = self.held.len();
        while i < n
            invariant
                0 <= i <= n,
                n == self.held@.len(),
                self.held@ == old(self).held@,
                old(self).wf(),
                forall|j: int| 0 <= j < i ==> self.held@[j] != t,
            decreases n - i,
        {
            if self.held[i] == t {
                return false;
            }
            i = i + 1;
        }
        proof {
            if self.held@.contains(t) {
                let j = choose|j: int| 0 <= j < self.held@.len() && self.held@[j] == t;
                assert(false);
            }
        }
        let ghost before = self.held@;
        self.held.push(t);
        proof {
            assert(self.held@ == before.push(t));
            assert(self.held@[self.held@.len() - 1] == t);
            assert forall|k1: int, k2: int|
                0 <= k1 < k2 < self.held@.len() implies self.held@[k1] != self.held@[k2] by {
                if k2 < before.len() {
                } else {
                    assert(self.held@[k2] == t);
                    assert(self.held@[k1] == before[k1]);
                    assert(before.contains(before[k1]));
                }
            }
            assert forall|u: i64| u != t implies self.held@.contains(u) == before.contains(u) by {
                if before.contains(u) {
                    let k = choose|k: int| 0 <= k < before.len() && before[k] == u;
                    assert(self.held@[k] == u);
                }
                if self.held@.contains(u) {
                    let k = choose|k: int| 0 <= k < self.held@.len() && self.held@[k] == u;
                    assert(k < before.len());
                    assert(before[k] == u);
                }
            }
        }
        true
    }

    /// Releases tenant `t`'s lock.  Callers must guarantee release on every
    /// exit path of their critical section, error paths included.
    pub fn release(&mut self, t: i64)
        requires
            old(self).wf(),
            old(self).locked(t),
        ensures
            final(self).wf(),
            !final(self).locked(t),
            forall|u: i64| u != t ==> final(self).locked(u) == old(self).locked(u),
            final(self).held@.len() == old(self).held@.len() - 1,
    {
        let ghost orig = self.held@;
        let n = self.held.len();
        let mut i: usize = 0;
        while i < n
            invariant
                0 <= i <= n,
                n == self.held@.len(),
                self.held@ == orig,
                orig == old(self).held@,
                orig.contains(t),
                orig.no_duplicates(),
                forall|j: int| 0 <= j < i ==> orig[j] != t,
            decreases n - i,
        {
            if self.held[i] == t {
                self.held.remove(i);
                proof {
                    lemma_remove_keeps_no_duplicates(orig, i as int);
                    lemma_remove_only_occurrence(orig, i as int);
                    assert forall|u: i64| u != t implies self.held@.contains(u) == orig.contains(
                        u,
                    ) by {
                        lemma_remove_contains_other(orig, i as int, u);
                    }
                }
                return ;
            }
            i = i + 1;
        }
        proof {
            let j = choose|j: int| 0 <= j < orig.len() && orig[j] == t;
            assert(false);
        }
    }
}

/// Removing an element of a duplicate-free sequence keeps it duplicate-free.
proof fn lemma_remove_keeps_no_duplicates(s: Seq<i64>, i: int)
    requires
        s.no_duplicates(),
        0 <= i < s.len(),
    ensures
        s.remove(i).no_duplicates(),
{
    let r = s.remove(i);
    assert forall|k1: int, k2: int| 0 <= k1 < k2 < r.len() implies r[k1] != r[k2] by {
        let o1 = if k1 < i {
            k1
        } else {
            k1 + 1
        };
        let o2 = if k2 < i {
            k2
        } else {
            k2 + 1
        };
        assert(r[k1] == s[o1]);
        assert(r[k2] == s[o2]);
    }
}

/// Removing the only occurrence of a value removes it from the sequence.
proof fn lemma_remove_only_occurrence(s: Seq<i64>, i: int)
    requires
        s.no_duplicates(),
        0 <= i < s.len(),
    ensures
        !s.remove(i).contains(s[i]),
{
    let r = s.remove(i);
    if r.contains(s[i]) {
        let k = choose|k: int| 0 <= k < r.len() && r[k] == s[i];
        let o = if k < i {
            k
        } else {
            k + 1
        };
        assert(r[k] == s[o]);
        assert(s[o] == s[i] && o != i);
    }
}

/// Removal changes containment of no other value.
proof fn lemma_remove_contains_other(s: Seq<i64>, i: int, u: i64)
    requires
        0 <= i < s.len(),
        u != s[i],
    ensures
        s.remove(i).contains(u) == s.contains(u),
{
    let r = s.remove(i);
    if s.contains(u) {
        let k = choose|k: int| 0 <= k < s.len() && s[k] == u;
        if k < i {
            assert(r[k] == s[k]);
        } else {
            assert(r[k - 1] == s[k]);
        }
        assert(r.contains(u));
    }
    if r.contains(u) {
        let k = choose|k: int| 0 <= k < r.len() && r[k] == u;
        let o = if k < i {
            k
        } else {
            k + 1
        };
        assert(r[k] == s[o]);
        assert(s.contains(u));
    }
}

} // verus!
