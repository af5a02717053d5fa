//! The rate limiter: a steady rate of admissions per minute, with room for
//! one admission ahead of it. In less than a minute it admits no more
//! calls than its rate and that one.

use vstd::prelude::*;

verus! {

/// The nanoseconds of one minute.
pub const MINUTE_NS: u64 = 60_000_000_000;

/// Whether a caller may go on.
#[derive(Debug, Clone, Copy, PartialEq, Eq, Structural)]
pub enum Admission {
    /// The caller may go on now.
    Admitted,
    /// The caller may ask again after so many nanoseconds.
    Wait { nanos: u64 },
}

/// The state of a rate limiter, as a value of specifications. Time is in
/// nanoseconds from a start that the caller chooses.
pub struct LimiterState {
    /// The time between two admissions at the steady rate.
    pub period: nat,
    /// When the admissions so far are used up at the steady rate.
    pub due: nat,
    /// The latest time that the limiter was asked at.
    pub latest: nat,
}

impl LimiterState {
    /// The time between two admissions at a steady rate of `per_minute`
    /// a minute: the minute divided by the rate, rounded up, so that the
    /// admissions of one minute at this distance are no more than the rate.
    pub open spec fn period_of(per_minute: nat) -> nat
        recommends
            per_minute >= 1,
    {
        ((MINUTE_NS + per_minute - 1) / per_minute as int) as nat
    }

    /// The state before any admission.
    pub open spec fn fresh(per_minute: nat) -> LimiterState
        recommends
            per_minute >= 1,
    {
        LimiterState { period: Self::period_of(per_minute), due: 0, latest: 0 }
    }

    /// The time that a call at `now` counts for: the clock never runs back.
    pub open spec fn clock(self, now: nat) -> nat {
        if now > self.latest {
            now
        } else {
            self.latest
        }
    }

    /// Whether a call at `now` is admitted: when it comes no more than one
    /// period before the admissions so far are used up.
    pub open spec fn admits(self, now: nat) -> bool {
        self.clock(now) + self.period >= self.due
    }

    /// How long a call at `now` has to wait; zero where it is admitted.
    pub open spec fn wait(self, now: nat) -> nat {
        if self.admits(now) {
            0
        } else {
            (self.due - self.period - self.clock(now)) as nat
        }
    }

    /// The state after a call at `now`.
    pub open spec fn after(self, now: nat) -> LimiterState {
        let clock = self.clock(now);
        if self.admits(now) {
            LimiterState {
                period: self.period,
                due: if self.due > clock {
                    self.due + self.period
                } else {
                    clock + self.period
                },
                latest: clock,
            }
        } else {
            LimiterState { period: self.period, due: self.due, latest: clock }
        }
    }

    /// What holds of every state that calls lead to: the period is that
    /// of a rate of one per minute at least, and the admissions are never
    /// used up later than two periods after the latest call.
    pub open spec fn sound(self) -> bool {
        0 < self.period <= MINUTE_NS && self.due <= self.latest + 2 * self.period
    }

    /// Whether the period is long enough for a rate of `per_minute` a
    /// minute: that many periods last a minute at least.
    pub open spec fn keeps_rate(self, per_minute: nat) -> bool {
        self.period * per_minute >= MINUTE_NS
    }

    /// The state after the calls at `times`, one after the other.
    pub open spec fn after_all(self, times: Seq<nat>) -> LimiterState
        decreases times.len(),
    {
        if times.len() == 0 {
            self
        } else {
            self.after(times[0]).after_all(times.drop_first())
        }
    }

    /// How many of the calls at `times`, one after the other, are admitted.
    pub open spec fn admitted(self, times: Seq<nat>) -> nat
        decreases times.len(),
    {
        if times.len() == 0 {
            0
        } else {
            self.after(times[0]).admitted(times.drop_first()) + if self.admits(times[0]) {
                1nat
            } else {
                0nat
            }
        }
    }
}

/// A limiter that admits a given number of calls per minute, and one call
/// ahead of that rate.
#[derive(Debug)]
pub struct RateLimiter {
    period_ns: u64,
    due_ns: u128,
    latest_ns: u64,
}

impl View for RateLimiter {
    type V = LimiterState;

    closed spec fn view(&self) -> LimiterState {
        LimiterState {
            period: self.period_ns as nat,
            due: self.due_ns as nat,
            latest: self.latest_ns as nat,
        }
    }
}

impl RateLimiter {
    /// A limiter for `per_minute` calls per minute.
    pub fn new(per_minute: u32) -> (limiter: RateLimiter)
        requires
            per_minute >= 1,
        ensures
            limiter@ == LimiterState::fresh(per_minute as nat),
            limiter@.sound(),
            limiter@.keeps_rate(per_minute as nat),
    {
        proof {
            lemma_period_keeps_rate(per_minute as nat);
        }
        RateLimiter {
            period_ns: (MINUTE_NS + per_minute as u64 - 1) / per_minute as u64,
            due_ns: 0,
            latest_ns: 0,
        }
    }

    /// Asks at the time `now_ns` whether a call may go on, and counts it
    /// where it may.
    pub fn request(&mut self, now_ns: u64) -> (admission: Admission)
        requires
            old(self)@.sound(),
        ensures
            final(self)@ == old(self)@.after(now_ns as nat),
            final(self)@.sound(),
            old(self)@.admits(now_ns as nat) ==> admission == Admission::Admitted,
            !old(self)@.admits(now_ns as nat) ==> admission == (Admission::Wait {
                nanos: old(self)@.wait(now_ns as nat) as u64,
            }) && 0 < old(self)@.wait(now_ns as nat) <= old(self)@.period,
    {
        let clock: u64 = if now_ns > self.latest_ns {
            now_ns
        } else {
            self.latest_ns
        };
        self.latest_ns = clock;
        if clock as u128 + self.period_ns as u128 >= self.due_ns {
            if self.due_ns > clock as u128 {
                self.due_ns = self.due_ns + self.period_ns as u128;
            } else {
                self.due_ns = clock as u128 + self.period_ns as u128;
            }
            Admission::Admitted
        } else {
            let nanos = self.due_ns - self.period_ns as u128 - clock as u128;
            Admission::Wait { nanos: nanos as u64 }
        }
    }
}

/// A caller that was told to wait is admitted once it has waited that
/// long, if nobody else was admitted meanwhile.
pub proof fn lemma_wait_suffices(state: LimiterState, now: nat)
    requires
        state.sound(),
        now >= state.latest,
        !state.admits(now),
    ensures
        state.after(now).admits(now + state.wait(now)),
{
}

/// Of three admissions in a row, the third comes at least one period after
/// the first: one call may run ahead of the steady rate, not two.
pub proof fn lemma_burst_of_one(state: LimiterState, first: nat, second: nat, third: nat)
    requires
        state.sound(),
        state.admits(first),
        state.after(first).admits(second),
        state.after(first).after(second).admits(third),
    ensures
        state.after(first).after(second).clock(third) >= state.clock(first) + state.period,
{
}

/// After a limiter was left alone for two periods, two calls are admitted
/// at once.
pub proof fn lemma_idle_limiter_admits_two(state: LimiterState, now: nat)
    requires
        state.sound(),
        now >= state.latest + 2 * state.period,
    ensures
        state.admits(now),
        state.after(now).admits(now),
{
}

/// Every call leaves the limiter in a state that the next call can start from.
pub proof fn lemma_states_stay_sound(state: LimiterState, now: nat)
    requires
        state.sound(),
    ensures
        state.after(now).sound(),
{
}

/// The period of a rate lasts no longer than a minute, and as many periods
/// as the rate last a minute at least.
pub proof fn lemma_period_keeps_rate(per_minute: nat)
    requires
        per_minute >= 1,
    ensures
        0 < LimiterState::period_of(per_minute) <= MINUTE_NS,
        LimiterState::period_of(per_minute) * per_minute >= MINUTE_NS,
        LimiterState::fresh(per_minute).sound(),
        LimiterState::fresh(per_minute).keeps_rate(per_minute),
{
    let minute = MINUTE_NS as int;
    let rate = per_minute as int;
    let period = (minute + rate - 1) / rate;
    vstd::arithmetic::div_mod::lemma_fundamental_div_mod(minute + rate - 1, rate);
    assert(0 <= (minute + rate - 1) % rate < rate);
    assert(period * rate >= minute) by (nonlinear_arith)
        requires
            minute + rate - 1 == rate * period + (minute + rate - 1) % rate,
            (minute + rate - 1) % rate < rate,
    {
    }
    assert(0 < period <= minute) by (nonlinear_arith)
        requires
            minute + rate - 1 == rate * period + (minute + rate - 1) % rate,
            0 <= (minute + rate - 1) % rate < rate,
            rate >= 1,
            minute >= 1,
    {
    }
}

/// Calls change neither the period nor, therefore, the rate that is kept,
/// and lead from a sound state to a sound one.
pub proof fn lemma_calls_keep_the_period(state: LimiterState, times: Seq<nat>)
    requires
        state.sound(),
    ensures
        state.after_all(times).period == state.period,
        state.after_all(times).sound(),
        state.after_all(times).latest >= state.latest,
    decreases times.len(),
{
    if times.len() > 0 {
        lemma_calls_keep_the_period(state.after(times[0]), times.drop_first());
    }
}

/// Every admission uses up one period more: after calls of which so many
/// were admitted, the admissions are used up that many periods later than
/// before, at least.
pub proof fn lemma_admissions_use_up_periods(state: LimiterState, times: Seq<nat>)
    requires
        state.sound(),
    ensures
        state.after_all(times).due >= state.due + state.admitted(times) * state.period,
    decreases times.len(),
{
    if times.len() > 0 {
        let next = state.after(times[0]);
        let rest = times.drop_first();
        lemma_admissions_use_up_periods(next, rest);
        let more = next.admitted(rest);
        assert(next.period == state.period);
        assert(state.due + (more + 1) * state.period == state.due + state.period + more
            * state.period) by (nonlinear_arith);
    } else {
        assert(0 * state.period == 0) by (nonlinear_arith);
    }
}

/// Between two admissions lie at least as many periods as calls were
/// admitted between them: where a call at `first` is admitted, then calls at
/// `between` come, and then a call at `last` is admitted, the last comes
/// that many periods after the first, at least.
pub proof fn lemma_admissions_are_spaced(
    state: LimiterState,
    first: nat,
    between: Seq<nat>,
    last: nat,
)
    requires
        state.sound(),
        state.admits(first),
        state.after(first).after_all(between).admits(last),
    ensures
        state.after(first).after_all(between).clock(last) >= state.clock(first) + state.after(
            first,
        ).admitted(between) * state.period,
{
    let started = state.after(first);
    lemma_admissions_use_up_periods(started, between);
    lemma_calls_keep_the_period(started, between);
}

/// A limiter keeps its rate: where, after an admission, as many calls as
/// the rate are admitted and then one more, that last one comes a minute
/// after the first, at least. So in less than a minute no more calls are
/// admitted than the rate and one, whatever calls were refused meanwhile.
pub proof fn lemma_rate_is_kept(
    state: LimiterState,
    per_minute: nat,
    first: nat,
    between: Seq<nat>,
    last: nat,
)
    requires
        state.sound(),
        state.keeps_rate(per_minute),
        state.admits(first),
        state.after(first).admitted(between) >= per_minute,
        state.after(first).after_all(between).admits(last),
    ensures
        state.after(first).after_all(between).clock(last) >= state.clock(first) + MINUTE_NS,
{
    lemma_admissions_are_spaced(state, first, between, last);
    let count = state.after(first).admitted(between);
    assert(count * state.period >= MINUTE_NS) by (nonlinear_arith)
        requires
            count >= per_minute,
            state.period * per_minute >= MINUTE_NS,
            state.period >= 0,
    {
    }
}

} // verus!
