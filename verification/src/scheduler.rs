//! The fetch scheduler: which request goes out next, under the concurrency gate and
//! the rate limiter, and what becomes of each attempt that ends.
//!
//! The scheduler performs no request itself. Its caller asks for the next
//! step, sends what it is told to send, and reports each attempt that ends.

use crate::fetch::{follow_up, retries_after, UnitState};
use crate::gate::ConcurrencyGate;
use crate::network::Attempt;
use crate::options::RunConfig;
use crate::rate::{Admission, LimiterState, RateLimiter};
use crate::report::{Report, Response};
use crate::sitemap::texts;
use std::collections::VecDeque;
use vstd::prelude::*;

verus! {

/// What the caller of a scheduler does next.
#[derive(Debug, PartialEq, Eq)]
pub enum Step {
    /// Send a request for `url`, and report how it ended for `unit`.
    Send { unit: usize, url: String },
    /// Nothing may be sent before `nanos` nanoseconds have passed: ask
    /// again then, or when an attempt has ended.
    Sleep { nanos: u64 },
    /// Nothing may be sent before an attempt has ended.
    Wait,
    /// Every URL has its outcome.
    Finished,
}

/// What follows an attempt that ended.
#[derive(Debug, PartialEq, Eq)]
pub enum FollowUp {
    /// Send the request for `url` again, and report how it ended for `unit`.
    Resend { unit: usize, url: String },
    /// The fetch is over and its slot is free.
    Concluded,
    /// No attempt of that unit was under way.
    Ignored,
}

/// How many of `states` hold a slot of the concurrency gate.
pub open spec fn slots_held(states: Seq<UnitState>) -> nat
    decreases states.len(),
{
    if states.len() == 0 {
        0
    } else {
        slots_held(states.drop_last()) + if states.last().holds_slot() {
            1nat
        } else {
            0nat
        }
    }
}

proof fn lemma_slots_update(states: Seq<UnitState>, at: int, state: UnitState)
    requires
        0 <= at < states.len(),
    ensures
        slots_held(states.update(at, state)) + (if states[at].holds_slot() {
            1nat
        } else {
            0nat
        }) == slots_held(states) + (if state.holds_slot() {
            1nat
        } else {
            0nat
        }),
    decreases states.len(),
{
    let updated = states.update(at, state);
    if at == states.len() - 1 {
        assert(updated.drop_last() =~= states.drop_last());
    } else {
        assert(updated.drop_last() =~= states.drop_last().update(at, state));
        lemma_slots_update(states.drop_last(), at, state);
    }
}

proof fn lemma_no_slots_held(states: Seq<UnitState>)
    requires
        forall|i: int| 0 <= i < states.len() ==> states[i] is Queued,
    ensures
        slots_held(states) == 0,
    decreases states.len(),
{
    if states.len() > 0 {
        lemma_no_slots_held(states.drop_last());
    }
}

proof fn lemma_slot_is_counted(states: Seq<UnitState>, at: int)
    requires
        0 <= at < states.len(),
        states[at].holds_slot(),
    ensures
        slots_held(states) >= 1,
    decreases states.len(),
{
    if at < states.len() - 1 {
        lemma_slot_is_counted(states.drop_last(), at);
    }
}

/// The scheduler of one run.
#[derive(Debug)]
pub struct Scheduler {
    urls: Vec<String>,
    states: Vec<UnitState>,
    launched: usize,
    waiting: Option<usize>,
    gate: ConcurrencyGate,
    limiter: Option<RateLimiter>,
    concurrency_limit: u8,
    rate_limit: Option<u32>,
    retries: u8,
    outcomes: VecDeque<Response>,
    dropped: usize,
}

impl Scheduler {
    /// The URLs to fetch; the unit `i` fetches the URL `i`.
    pub closed spec fn urls(&self) -> Seq<Seq<char>> {
        texts(self.urls@)
    }

    /// The outcomes so far, in the order in which the fetches ended.
    pub closed spec fn outcomes(&self) -> Seq<Response> {
        self.outcomes@
    }

    /// How many fetches ended without an outcome.
    pub closed spec fn dropped(&self) -> nat {
        self.dropped as nat
    }

    /// How many fetches hold a slot of the concurrency gate.
    pub closed spec fn in_flight(&self) -> nat {
        self.gate.held()
    }

    /// How many slots the concurrency gate has.
    pub closed spec fn limit(&self) -> nat {
        self.gate.limit()
    }

    /// How many units were launched: the units below this number.
    pub closed spec fn launched(&self) -> nat {
        self.launched as nat
    }

    /// How often a failed fetch is tried again.
    pub closed spec fn retries(&self) -> u8 {
        self.retries
    }

    /// The rate limit in requests per minute, if there is one.
    pub closed spec fn rate_limit(&self) -> Option<u32> {
        self.rate_limit
    }

    /// Where the unit `unit` stands.
    pub closed spec fn state_of(&self, unit: int) -> UnitState {
        self.states@[unit]
    }

    /// The unit that holds a slot and waits for the rate limiter, if any.
    pub closed spec fn rate_waiting(&self) -> Option<usize> {
        self.waiting
    }

    /// The state of the rate limiter, if there is one.
    pub closed spec fn limiter_state(&self) -> Option<LimiterState> {
        match self.limiter {
            Some(limiter) => Some(limiter@),
            None => None,
        }
    }

    /// What holds of a scheduler at all times. No more fetches hold a slot
    /// than the concurrency gate has, and every unit that was launched holds a slot or
    /// has ended, with an outcome or without.
    pub closed spec fn well_formed(&self) -> bool {
        &&& self.states@.len() == self.urls@.len()
        &&& self.launched <= self.urls@.len()
        &&& forall|i: int| self.launched <= i < self.states@.len() ==> self.states@[i] is Queued
        &&& forall|i: int| 0 <= i < self.launched ==> !(self.states@[i] is Queued)
        &&& self.gate.well_formed()
        &&& self.gate.held() == slots_held(self.states@)
        &&& self.gate.limit() == self.concurrency_limit
        &&& self.outcomes@.len() + self.dropped + self.gate.held() == self.launched
        &&& (self.limiter is Some) == (self.rate_limit is Some)
        &&& (self.limiter is Some ==> self.limiter->Some_0@.sound()
            && self.limiter->Some_0@.keeps_rate(self.rate_limit->Some_0 as nat))
        &&& (self.waiting is Some ==> self.waiting->Some_0 < self.launched
            && self.states@[self.waiting->Some_0 as int] is RateLimitWait && self.limiter is Some)
        &&& forall|i: int|
            0 <= i < self.states@.len() && self.states@[i] is RateLimitWait ==> self.waiting
                == Some(i as usize)
    }

    /// The unit that the next request is for, if one may be prepared: the
    /// one that waits for the rate limiter, else the first that was not
    /// launched, if a slot is free for it.
    pub open spec fn next_unit(&self) -> Option<usize> {
        if self.rate_waiting() is Some {
            self.rate_waiting()
        } else if self.launched() < self.urls().len() && self.in_flight() < self.limit() {
            Some(self.launched() as usize)
        } else {
            None
        }
    }

    /// Whether the rate limiter, if there is one, lets a request pass at
    /// the time `now_ns`.
    pub open spec fn passes(&self, now_ns: u64) -> bool {
        self.limiter_state() is None || self.limiter_state()->Some_0.admits(now_ns as nat)
    }

    /// What links a scheduler to the one before a call that left the URLs,
    /// the number of slots and the retries alone.
    pub open spec fn same_run(&self, before: &Scheduler) -> bool {
        &&& self.urls() == before.urls()
        &&& self.limit() == before.limit()
        &&& self.retries() == before.retries()
        &&& self.rate_limit() == before.rate_limit()
        &&& (self.limiter_state() is Some) == (before.limiter_state() is Some)
    }

    /// Whether every unit but `unit` stands where it stood in `before`.
    pub open spec fn others_unchanged(&self, before: &Scheduler, unit: int) -> bool {
        forall|i: int|
            0 <= i < self.urls().len() && i != unit ==> self.state_of(i) == before.state_of(i)
    }

    /// A scheduler for `urls` with the settings of `config`: nothing is
    /// launched yet.
    pub fn new(urls: Vec<String>, config: &RunConfig) -> (scheduler: Scheduler)
        requires
            config.valid(),
        ensures
            scheduler.well_formed(),
            scheduler.urls() == texts(urls@),
            scheduler.outcomes().len() == 0,
            scheduler.dropped() == 0,
            scheduler.in_flight() == 0,
            scheduler.launched() == 0,
            scheduler.limit() == config.concurrency_limit,
            scheduler.retries() == config.retries,
            scheduler.rate_limit() == config.rate_limit,
            scheduler.rate_waiting() is None,
            scheduler.limiter_state() == match config.rate_limit {
                Some(rate) => Some(LimiterState::fresh(rate as nat)),
                None => None,
            },
            forall|i: int| 0 <= i < urls@.len() ==> scheduler.state_of(i) is Queued,
    {
        let mut states: Vec<UnitState> = Vec::new();
        let mut i: usize = 0;
        while i < urls.len()
            invariant
                i <= urls.len(),
                states@.len() == i,
                forall|k: int| 0 <= k < i ==> states@[k] is Queued,
            decreases urls.len() - i,
        {
            states.push(UnitState::Queued);
            i = i + 1;
        }
        let limiter = match config.rate_limit {
            Some(rate) => Some(RateLimiter::new(rate)),
            None => None,
        };
        proof {
            lemma_no_slots_held(states@);
        }
        Scheduler {
            urls,
            states,
            launched: 0,
            waiting: None,
            gate: ConcurrencyGate::new(config.concurrency_limit),
            limiter,
            concurrency_limit: config.concurrency_limit,
            rate_limit: config.rate_limit,
            retries: config.retries,
            outcomes: VecDeque::new(),
            dropped: 0,
        }
    }

    /// Says at the time `now_ns` what to do next. A request is for the
    /// unit `next_unit`: it goes out if the rate limiter lets it pass, and
    /// else has to wait as long as the limiter says. Where no request can
    /// be prepared, the caller waits for an attempt to end, or is finished
    /// when none is under way.
    pub fn next_step(&mut self, now_ns: u64) -> (step: Step)
        requires
            old(self).well_formed(),
        ensures
            final(self).well_formed(),
            final(self).same_run(old(self)),
            final(self).outcomes() == old(self).outcomes(),
            final(self).dropped() == old(self).dropped(),
            final(self).in_flight() <= final(self).limit(),
            old(self).next_unit() is None ==> {
                &&& step == if old(self).in_flight() == 0 {
                    Step::Finished
                } else {
                    Step::Wait
                }
                &&& final(self).others_unchanged(old(self), -1)
                &&& final(self).in_flight() == old(self).in_flight()
                &&& final(self).launched() == old(self).launched()
                &&& final(self).limiter_state() == old(self).limiter_state()
                &&& final(self).rate_waiting() is None
            },
            step is Finished ==> final(self).launched() == final(self).urls().len()
                && final(self).outcomes().len() + final(self).dropped() == final(self).urls().len(),
            old(self).next_unit() matches Some(unit) ==> {
                &&& unit < old(self).urls().len()
                &&& final(self).others_unchanged(old(self), unit as int)
                &&& final(self).in_flight() == old(self).in_flight() + if old(
                    self,
                ).rate_waiting() is None {
                    1nat
                } else {
                    0nat
                }
                &&& final(self).launched() == if old(self).rate_waiting() is None {
                    old(self).launched() + 1
                } else {
                    old(self).launched()
                }
                &&& final(self).limiter_state() == match old(self).limiter_state() {
                    Some(limiter) => Some(limiter.after(now_ns as nat)),
                    None => None,
                }
                &&& if old(self).passes(now_ns) {
                    &&& step is Send
                    &&& step->unit == unit
                    &&& step->url@ == old(self).urls()[unit as int]
                    &&& final(self).state_of(unit as int) == (UnitState::Attempting {
                        retries_left: old(self).retries(),
                    })
                    &&& final(self).rate_waiting() is None
                } else {
                    &&& step == (Step::Sleep {
                        nanos: old(self).limiter_state()->Some_0.wait(now_ns as nat) as u64,
                    })
                    &&& 0 < old(self).limiter_state()->Some_0.wait(now_ns as nat) <= u64::MAX
                    &&& final(self).state_of(unit as int) is RateLimitWait
                    &&& final(self).rate_waiting() == Some(unit)
                }
            },
    {
        let unit = match self.waiting {
            Some(unit) => unit,
            None => {
                if self.launched >= self.urls.len() || !self.gate.has_free_slot() {
                    if self.gate.in_use() > 0 {
                        return Step::Wait;
                    } else {
                        return Step::Finished;
                    }
                }
                let unit = self.launched;
                let ghost before = self.states@;
                self.gate.try_acquire();
                self.launched = self.launched + 1;
                if self.limiter.is_some() {
                    self.states.set(unit, UnitState::RateLimitWait);
                    self.waiting = Some(unit);
                } else {
                    self.states.set(unit, UnitState::Attempting { retries_left: self.retries });
                }
                proof {
                    lemma_slots_update(before, unit as int, self.states@[unit as int]);
                }
                unit
            },
        };
        let ghost staged = self.states@;
        let admission = match &mut self.limiter {
            Some(limiter) => limiter.request(now_ns),
            None => Admission::Admitted,
        };
        match admission {
            Admission::Admitted => {
                self.states.set(unit, UnitState::Attempting { retries_left: self.retries });
                self.waiting = None;
                proof {
                    lemma_slots_update(staged, unit as int, self.states@[unit as int]);
                }
                Step::Send { unit, url: self.urls[unit].clone() }
            },
            Admission::Wait { nanos } => Step::Sleep { nanos },
        }
    }

    /// Takes how an attempt of `unit` ended and how long it took. After a
    /// retryable attempt with a retry left the request goes out again; the
    /// unit keeps its slot and does not ask the rate limiter again. Else
    /// the fetch is over: its slot is free and its outcome, if the attempt
    /// has one, is the last of the outcomes.
    pub fn attempt_ended(&mut self, unit: usize, attempt: Attempt, elapsed_ns: u64) -> (next:
        FollowUp)
        requires
            old(self).well_formed(),
        ensures
            final(self).well_formed(),
            final(self).same_run(old(self)),
            final(self).in_flight() <= final(self).limit(),
            final(self).launched() == old(self).launched(),
            final(self).limiter_state() == old(self).limiter_state(),
            final(self).rate_waiting() == old(self).rate_waiting(),
            final(self).others_unchanged(old(self), unit as int),
            !(unit < old(self).urls().len() && old(self).state_of(unit as int) is Attempting) ==> {
                &&& next is Ignored
                &&& final(self).others_unchanged(old(self), -1)
                &&& final(self).outcomes() == old(self).outcomes()
                &&& final(self).dropped() == old(self).dropped()
                &&& final(self).in_flight() == old(self).in_flight()
            },
            unit < old(self).urls().len() && old(self).state_of(unit as int) is Attempting
                ==> match retries_after(attempt, old(self).state_of(unit as int)->retries_left) {
                Some(fewer) => {
                    &&& next is Resend
                    &&& next->unit == unit
                    &&& next->url@ == old(self).urls()[unit as int]
                    &&& final(self).state_of(unit as int) == (UnitState::Attempting {
                        retries_left: fewer,
                    })
                    &&& final(self).outcomes() == old(self).outcomes()
                    &&& final(self).dropped() == old(self).dropped()
                    &&& final(self).in_flight() == old(self).in_flight()
                },
                None => {
                    &&& next is Concluded
                    &&& final(self).state_of(unit as int) is Done
                    &&& final(self).in_flight() == old(self).in_flight() - 1
                    &&& if attempt is Broken {
                        &&& final(self).outcomes() == old(self).outcomes()
                        &&& final(self).dropped() == old(self).dropped() + 1
                    } else {
                        &&& final(self).outcomes().len() == old(self).outcomes().len() + 1
                        &&& final(self).outcomes().drop_last() == old(self).outcomes()
                        &&& attempt.recorded_as(
                            old(self).urls()[unit as int],
                            elapsed_ns,
                            Some(final(self).outcomes().last()),
                        )
                        &&& final(self).dropped() == old(self).dropped()
                    }
                },
            },
    {
        if unit >= self.states.len() {
            return FollowUp::Ignored;
        }
        let retries_left = match self.states[unit] {
            UnitState::Attempting { retries_left } => retries_left,
            _ => {
                return FollowUp::Ignored;
            },
        };
        let ghost before = self.states@;
        proof {
            lemma_slot_is_counted(before, unit as int);
        }
        match follow_up(&attempt, retries_left) {
            Some(fewer) => {
                self.states.set(unit, UnitState::Attempting { retries_left: fewer });
                proof {
                    lemma_slots_update(before, unit as int, self.states@[unit as int]);
                }
                FollowUp::Resend { unit, url: self.urls[unit].clone() }
            },
            None => {
                self.states.set(unit, UnitState::Done);
                self.gate.release();
                proof {
                    lemma_slots_update(before, unit as int, self.states@[unit as int]);
                }
                let ghost recorded = self.outcomes@;
                match attempt.outcome(self.urls[unit].as_str(), elapsed_ns) {
                    Some(outcome) => {
                        self.outcomes.push_back(outcome);
                        proof {
                            assert(self.outcomes@.drop_last() =~= recorded);
                        }
                    },
                    None => {
                        self.dropped = self.dropped + 1;
                    },
                }
                FollowUp::Concluded
            },
        }
    }

    /// The report of the run so far: the outcomes in the order in which
    /// the fetches ended.
    pub fn into_report(self, sitemap_url: String, total_time_ns: u64) -> (report: Report)
        requires
            self.well_formed(),
        ensures
            report.responses@ == self.outcomes(),
            report.sitemap_url == sitemap_url,
            report.total_time_ns == total_time_ns,
            report.concurrency_limit == self.limit(),
            report.rate_limit == self.rate_limit(),
    {
        Report {
            sitemap_url,
            concurrency_limit: self.concurrency_limit,
            rate_limit: self.rate_limit,
            total_time_ns,
            responses: self.outcomes,
        }
    }
}

/// Every unit that was launched holds a slot or has ended, with an
/// outcome or without; no more units hold a slot than there are slots; and
/// no more units were launched than there are URLs.
pub proof fn lemma_accounting(scheduler: &Scheduler)
    requires
        scheduler.well_formed(),
    ensures
        scheduler.outcomes().len() + scheduler.dropped() + scheduler.in_flight()
            == scheduler.launched(),
        scheduler.in_flight() <= scheduler.limit(),
        scheduler.launched() <= scheduler.urls().len(),
{
}

/// Where there is a rate limit there is a limiter, in a state that calls
/// lead to and with a period that keeps the rate: what `rate` proves of such
/// states holds of the limiter of a scheduler at all times.
pub proof fn lemma_limiter_keeps_rate(scheduler: &Scheduler)
    requires
        scheduler.well_formed(),
    ensures
        (scheduler.limiter_state() is Some) == (scheduler.rate_limit() is Some),
        scheduler.limiter_state() matches Some(limiter) ==> limiter.sound() && limiter.keeps_rate(
            scheduler.rate_limit()->Some_0 as nat,
        ),
{
}

/// Once every URL is launched and no fetch holds a slot, there is one
/// outcome for each URL, but for those whose fetch ended without one.
pub proof fn lemma_one_outcome_each(scheduler: &Scheduler)
    requires
        scheduler.well_formed(),
        scheduler.launched() == scheduler.urls().len(),
        scheduler.in_flight() == 0,
    ensures
        scheduler.outcomes().len() + scheduler.dropped() == scheduler.urls().len(),
        scheduler.dropped() == 0 ==> scheduler.outcomes().len() == scheduler.urls().len(),
{
}

} // verus!
