use vstd::prelude::*;

use crate::num::hex_seq;
use crate::num::hex_string;
use crate::num::lemma_hex_seq_injective;

verus! {

/// How many times the identifier service attempts the atomic advance of the
/// shared counter before surfacing a contention failure.
pub const DISPENSE_MAX_ATTEMPTS: u64 = 99;

/// The shared store's global id sequence.
///
/// The counter is advanced atomically by the shared store; this models the
/// sequence of values the store hands back.  Every advanced value is rendered
/// in lowercase hexadecimal, which keeps ids compact and, because the
/// rendering is injective, collision-free.
pub struct IdGenerator {
    pub counter: u64,
}

impl IdGenerator {
    pub fn new() -> (g: IdGenerator)
        ensures
            g.counter == 0,
    {
        IdGenerator { counter: 0 }
    }

    /// Advances the counter and returns the new value rendered in
    /// hexadecimal.  Values from successive calls are strictly increasing
    /// counters, so by [`lemma_id_distinct`] the returned ids are pairwise
    /// distinct.
    pub fn next_id(&mut self) -> (id: String)
        requires
            old(self).counter < u64::MAX,
        ensures
            final(self).counter == old(self).counter + 1,
            id@ == hex_seq((old(self).counter + 1) as nat),
    {
        self.counter = self.counter + 1;
        hex_string(self.counter)
    }
}

/// Whether `id` is one the sequence has issued by the time the counter
/// reads `counter`: the rendering of some already-advanced value.
pub open spec fn issued_id(id: Seq<char>, counter: u64) -> bool {
    exists|c: nat| 1 <= c <= counter && id == hex_seq(c)
}

/// An issued id stays issued as the counter advances.
pub proof fn lemma_issued_id_monotonic(id: Seq<char>, c0: u64, c1: u64)
    requires
        issued_id(id, c0),
        c0 <= c1,
    ensures
        issued_id(id, c1),
{
    let c = choose|c: nat| 1 <= c <= c0 && id == hex_seq(c);
    assert(1 <= c <= c1 && id == hex_seq(c));
}

/// The next value the sequence will issue collides with no id issued so
/// far: fresh ids are really fresh.
pub proof fn lemma_issued_id_fresh(id: Seq<char>, counter: u64)
    requires
        issued_id(id, counter),
        counter < u64::MAX,
    ensures
        id != hex_seq((counter + 1) as nat),
{
    let c = choose|c: nat| 1 <= c <= counter && id == hex_seq(c);
    if id == hex_seq((counter + 1) as nat) {
        lemma_hex_seq_injective(c, (counter + 1) as nat);
    }
}

/// Ids generated from distinct counter values are distinct: the identifier
/// service never hands out the same id twice, however many callers draw from
/// it.
pub proof fn lemma_id_distinct(c1: nat, c2: nat)
    requires
        c1 != c2,
    ensures
        hex_seq(c1) != hex_seq(c2),
{
    if hex_seq(c1) == hex_seq(c2) {
        lemma_hex_seq_injective(c1, c2);
    }
}

// ---------------------------------------------------------------------------
// Contention-retry policy
// ---------------------------------------------------------------------------

/// What one attempt to advance the shared counter came back with: the
/// advanced value, a transient write-contention failure (lock-wait or
/// deadlock class), or any other failure.
pub enum DispenseOutcome {
    Advanced(u64),
    Contention,
    Failure,
}

/// What the identifier service does next after one attempt.
pub enum DispenseAction {
    /// Success: the id to hand out.
    Done(String),
    /// Transient contention and attempts remain: try again.
    Retry,
    /// Transient contention and the attempt bound is exhausted: surface
    /// `ApiError::IdExhausted`.
    GiveUp,
    /// A non-transient failure: surface it unchanged.
    Abort,
}

/// The retry policy of the identifier service: retries a contention failure
/// until `DISPENSE_MAX_ATTEMPTS` attempts have been used, never retries any
/// other failure, and renders a successfully advanced value in hexadecimal.
///
/// `attempts_used` counts the attempts performed so far, the one that
/// produced `outcome` included.
pub fn dispense_decide(outcome: &DispenseOutcome, attempts_used: u64) -> (a: DispenseAction)
    ensures
        *outcome matches DispenseOutcome::Advanced(n) ==> a matches DispenseAction::Done(id)
            && id@ == hex_seq(n as nat),
        *outcome is Contention ==> (a is Retry <==> attempts_used < DISPENSE_MAX_ATTEMPTS),
        *outcome is Contention ==> (a is Retry || a is GiveUp),
        *outcome is Failure ==> a is Abort,
{
    match outcome {
        DispenseOutcome::Advanced(n) => DispenseAction::Done(hex_string(*n)),
        DispenseOutcome::Contention => {
            if attempts_used < DISPENSE_MAX_ATTEMPTS {
                DispenseAction::Retry
            } else {
                DispenseAction::GiveUp
            }
        },
        DispenseOutcome::Failure => DispenseAction::Abort,
    }
}

} // verus!
