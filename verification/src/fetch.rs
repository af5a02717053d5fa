//! The fetch of one URL: its states, and the rule by which a failed
//! attempt is followed by another.

use crate::network::Attempt;
use crate::report::Response;
use crate::status::client_error;
use vstd::prelude::*;

verus! {

/// Where the fetch of one URL stands.
#[derive(Debug, Clone, Copy, PartialEq, Eq, Structural)]
pub enum UnitState {
    /// Not launched yet: it waits for its turn and for a slot of the concurrency gate.
    Queued,
    /// It holds a slot and waits for the rate limiter.
    RateLimitWait,
    /// It holds a slot and an attempt is under way.
    Attempting {
        /// How many further attempts may follow this one.
        retries_left: u8,
    },
    /// It gave its slot back; no attempt follows.
    Done,
}

impl UnitState {
    /// Whether the fetch holds a slot of the concurrency gate.
    pub open spec fn holds_slot(self) -> bool {
        self is RateLimitWait || self is Attempting
    }
}

/// An attempt and how long it took, in nanoseconds.
#[derive(Debug, PartialEq, Eq)]
pub struct TimedAttempt {
    /// What the attempt came to.
    pub attempt: Attempt,
    /// How long it took.
    pub elapsed_ns: u64,
}

/// The retries that are left after `attempt` if another attempt follows
/// it: it does after a retryable attempt for which a retry is left.
pub open spec fn retries_after(attempt: Attempt, retries_left: u8) -> Option<u8> {
    if attempt.retryable() && retries_left > 0 {
        Some((retries_left - 1) as u8)
    } else {
        None
    }
}

/// Decides whether another attempt follows `attempt`, and with how many
/// retries left.
pub fn follow_up(attempt: &Attempt, retries_left: u8) -> (next: Option<u8>)
    ensures
        next == retries_after(*attempt, retries_left),
{
    if attempt.is_retryable() && retries_left > 0 {
        Some(retries_left - 1)
    } else {
        None
    }
}

/// How many attempts the fetch of a URL makes with `retries` retries, when
/// its attempts come to `results` in this order. Where `results` end
/// before the fetch does, the attempts are as many as there are results.
pub open spec fn attempts_made(results: Seq<TimedAttempt>, retries: nat) -> nat
    decreases results.len(),
{
    if results.len() == 0 {
        0
    } else if results[0].attempt.retryable() && retries > 0 {
        1 + attempts_made(results.drop_first(), (retries - 1) as nat)
    } else {
        1
    }
}

/// Runs the fetch of `requested` on attempts that are already known:
/// returns how many of them are made, and the outcome, which records the
/// last one made and its time alone.
pub fn run_attempts(requested: &str, results: &Vec<TimedAttempt>, retries: u8) -> (ended: (
    usize,
    Option<Response>,
))
    ensures
        ended.0 == attempts_made(results@, retries as nat),
        ended.0 == 0 ==> ended.1 is None,
        ended.0 > 0 ==> ended.0 <= results@.len() && results@[ended.0 - 1].attempt.recorded_as(
            requested@,
            results@[ended.0 - 1].elapsed_ns,
            ended.1,
        ),
{
    let mut made: usize = 0;
    let mut left: u8 = retries;
    proof {
        assert(results@.skip(0) =~= results@);
    }
    while made < results.len()
        invariant
            made <= results.len(),
            attempts_made(results@, retries as nat) == made + attempts_made(
                results@.skip(made as int),
                left as nat,
            ),
        decreases results.len() - made,
    {
        proof {
            assert(results@.skip(made as int)[0] == results@[made as int]);
            assert(results@.skip(made as int).drop_first() =~= results@.skip(made + 1));
        }
        let result = &results[made];
        match follow_up(&result.attempt, left) {
            Some(fewer) => {
                left = fewer;
                made = made + 1;
            },
            None => {
                let outcome = result.attempt.outcome(requested, result.elapsed_ns);
                return (made + 1, outcome);
            },
        }
    }
    if made == 0 {
        (0, None)
    } else {
        let last = &results[made - 1];
        (made, last.attempt.outcome(requested, last.elapsed_ns))
    }
}

/// A fetch makes at most one attempt more than it has retries, and no
/// more than there are results.
pub proof fn lemma_attempts_bounded(results: Seq<TimedAttempt>, retries: nat)
    ensures
        attempts_made(results, retries) <= retries + 1,
        attempts_made(results, retries) <= results.len(),
    decreases results.len(),
{
    if results.len() > 0 && results[0].attempt.retryable() && retries > 0 {
        lemma_attempts_bounded(results.drop_first(), (retries - 1) as nat);
    }
}

/// No retry follows a client error that the server sent: whatever the
/// retries, the fetch ends with the first attempt.
pub proof fn lemma_client_error_is_final(results: Seq<TimedAttempt>, retries: nat)
    requires
        results.len() > 0,
        results[0].attempt is Answered,
        client_error(results[0].attempt->status),
    ensures
        attempts_made(results, retries) == 1,
{
}

/// A fetch whose first `failures` attempts can be retried, with that many
/// retries at least, goes on to the attempt that follows them and ends
/// there if that one cannot be retried.
pub proof fn lemma_retries_recover(results: Seq<TimedAttempt>, retries: nat, failures: nat)
    requires
        failures < results.len(),
        failures <= retries,
        forall|k: int| 0 <= k < failures ==> (#[trigger] results[k]).attempt.retryable(),
        !results[failures as int].attempt.retryable(),
    ensures
        attempts_made(results, retries) == failures + 1,
    decreases failures,
{
    if failures > 0 {
        let rest = results.drop_first();
        assert forall|k: int| 0 <= k < failures - 1 implies (#[trigger] rest[k]).attempt.retryable() by {
            assert(rest[k] == results[k + 1]);
        }
        assert(rest[failures - 1] == results[failures as int]);
        lemma_retries_recover(rest, (retries - 1) as nat, (failures - 1) as nat);
    }
}

/// Once the retries are used up the fetch ends, whatever the attempt came to.
pub proof fn lemma_retries_run_out(results: Seq<TimedAttempt>, retries: nat)
    requires
        results.len() > retries,
        forall|k: int| 0 <= k < results.len() ==> (#[trigger] results[k]).attempt.retryable(),
    ensures
        attempts_made(results, retries) == retries + 1,
    decreases retries,
{
    if retries > 0 {
        let rest = results.drop_first();
        assert forall|k: int| 0 <= k < rest.len() implies (#[trigger] rest[k]).attempt.retryable() by {
            assert(rest[k] == results[k + 1]);
        }
        lemma_retries_run_out(rest, (retries - 1) as nat);
    }
}

} // verus!
