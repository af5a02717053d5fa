//! The statistics of a report: how the response times are distributed,
//! how the statuses divide, and how the run performed.

use crate::numbers::{
    floor_sqrt_of, greatest, greatest_of, least, least_of, mean, mean_of, quantile,
    quantile_of_sorted, sorted_ascending, standard_deviation, variance_of,
};
use crate::report::{Report, Response};
use crate::status::{error, is_error, is_redirection, is_success, redirection, success};
use crate::text::{decimal_digits, push_decimal, push_two_digits, two_digits};
use crate::utils::{percent, percent_text, round_half_even, rounded_quotient};
use vstd::prelude::*;

verus! {

/// The distribution of the response times, in nanoseconds.
#[derive(Debug, Clone, Copy, PartialEq, Eq, Structural)]
pub struct ResponseTimeStats {
    /// The mean, rounded down.
    pub mean_ns: u64,
    /// The value in the middle of the ascending order; of an even number
    /// of values, the upper of the two in the middle.
    pub median_ns: u64,
    /// The shortest.
    pub min_ns: u64,
    /// The longest.
    pub max_ns: u64,
    /// The 90th percentile.
    pub p90_ns: u64,
    /// The 95th percentile.
    pub p95_ns: u64,
    /// The 99th percentile.
    pub p99_ns: u64,
    /// The standard deviation as a population, rounded down.
    pub std_dev_ns: u64,
}

/// How the statuses divide. A rate is in parts per million of all
/// outcomes, rounded down.
#[derive(Debug, Clone, Copy, PartialEq, Eq, Structural)]
pub struct StatusCodeStats {
    /// How many outcomes are a success.
    pub success_count: usize,
    /// How many outcomes are a client or server error.
    pub error_count: usize,
    /// How many outcomes are a redirection.
    pub redirect_count: usize,
    /// The rate of successes.
    pub success_rate_ppm: u32,
    /// The rate of errors.
    pub error_rate_ppm: u32,
    /// The rate of redirections.
    pub redirect_rate_ppm: u32,
}

/// How the run performed.
#[derive(Debug, Clone, Copy, PartialEq, Eq, Structural)]
pub struct PerformanceStats {
    /// The number of outcomes.
    pub total_requests: usize,
    /// Outcomes per second of the whole run, in thousandths, rounded down.
    pub requests_per_second_milli: u128,
    /// How many outcomes took longer than the slow threshold.
    pub slow_count: usize,
    /// The rate of slow outcomes, in parts per million, rounded down.
    pub slow_rate_ppm: u32,
    /// The smallest body, in bytes.
    pub min_size: u64,
    /// The mean body size in bytes, rounded down.
    pub avg_size: u64,
    /// The largest body, in bytes.
    pub max_size: u64,
}

/// The statistics of one report.
#[derive(Debug, Clone, Copy, PartialEq, Eq, Structural)]
pub struct Statistics {
    /// The distribution of the response times.
    pub response_time: ResponseTimeStats,
    /// How the statuses divide.
    pub status_code: StatusCodeStats,
    /// How the run performed.
    pub performance: PerformanceStats,
}

/// The response times of `responses`, in their order.
pub open spec fn times_of(responses: Seq<Response>) -> Seq<u64> {
    responses.map_values(|r: Response| r.response_time_ns)
}

/// The body sizes of `responses`, in their order.
pub open spec fn sizes_of(responses: Seq<Response>) -> Seq<u64> {
    responses.map_values(|r: Response| r.response_size as u64)
}

/// How many of `responses` are a success.
pub open spec fn success_count(responses: Seq<Response>) -> nat {
    responses.filter(|r: Response| success(r.status_code)).len()
}

/// How many of `responses` are a client or server error.
pub open spec fn error_count(responses: Seq<Response>) -> nat {
    responses.filter(|r: Response| error(r.status_code)).len()
}

/// How many of `responses` are a redirection.
pub open spec fn redirect_count(responses: Seq<Response>) -> nat {
    responses.filter(|r: Response| redirection(r.status_code)).len()
}

/// How many of `responses` took longer than the threshold; none where no
/// threshold is set.
pub open spec fn slow_count(responses: Seq<Response>, slow_threshold: Option<u64>) -> nat {
    match slow_threshold {
        Some(threshold) => responses.filter(
            |r: Response| r.response_time_ns > threshold,
        ).len(),
        None => 0,
    }
}

/// `part` of `whole` in parts per million, rounded down; zero of nothing.
pub open spec fn rate_ppm(part: nat, whole: nat) -> nat {
    if whole == 0 {
        0
    } else {
        part * 1_000_000 / whole
    }
}

/// `count` events in `nanos` nanoseconds as events per second, in
/// thousandths, rounded down; zero where no time has passed.
pub open spec fn per_second_milli(count: nat, nanos: nat) -> nat {
    if nanos == 0 {
        0
    } else {
        count * 1_000_000_000_000 / nanos
    }
}

/// The distribution of the response times of `responses`.
pub open spec fn response_time_stats_of(responses: Seq<Response>) -> ResponseTimeStats {
    let times = times_of(responses);
    ResponseTimeStats {
        mean_ns: mean(times) as u64,
        median_ns: quantile(times, 1, 2),
        min_ns: least(times),
        max_ns: greatest(times),
        p90_ns: quantile(times, 90, 100),
        p95_ns: quantile(times, 95, 100),
        p99_ns: quantile(times, 99, 100),
        std_dev_ns: standard_deviation(times) as u64,
    }
}

/// How the statuses of `responses` divide.
pub open spec fn status_code_stats_of(responses: Seq<Response>) -> StatusCodeStats {
    StatusCodeStats {
        success_count: success_count(responses) as usize,
        error_count: error_count(responses) as usize,
        redirect_count: redirect_count(responses) as usize,
        success_rate_ppm: rate_ppm(success_count(responses), responses.len()) as u32,
        error_rate_ppm: rate_ppm(error_count(responses), responses.len()) as u32,
        redirect_rate_ppm: rate_ppm(redirect_count(responses), responses.len()) as u32,
    }
}

/// How a run performed that took `total_time_ns` and had these outcomes.
pub open spec fn performance_stats_of(
    responses: Seq<Response>,
    total_time_ns: u64,
    slow_threshold: Option<u64>,
) -> PerformanceStats {
    let sizes = sizes_of(responses);
    PerformanceStats {
        total_requests: responses.len() as usize,
        requests_per_second_milli: per_second_milli(responses.len(), total_time_ns as nat) as u128,
        slow_count: slow_count(responses, slow_threshold) as usize,
        slow_rate_ppm: rate_ppm(slow_count(responses, slow_threshold), responses.len()) as u32,
        min_size: least(sizes),
        avg_size: mean(sizes) as u64,
        max_size: greatest(sizes),
    }
}

/// The statistics of a run that took `total_time_ns` and had these
/// outcomes, with slowness judged by `slow_threshold`.
pub open spec fn statistics_of(
    responses: Seq<Response>,
    total_time_ns: u64,
    slow_threshold: Option<u64>,
) -> Statistics {
    Statistics {
        response_time: response_time_stats_of(responses),
        status_code: status_code_stats_of(responses),
        performance: performance_stats_of(responses, total_time_ns, slow_threshold),
    }
}

impl Statistics {
    /// The statistics whose every number is zero.
    pub open spec fn zero() -> Statistics {
        Statistics {
            response_time: ResponseTimeStats {
                mean_ns: 0,
                median_ns: 0,
                min_ns: 0,
                max_ns: 0,
                p90_ns: 0,
                p95_ns: 0,
                p99_ns: 0,
                std_dev_ns: 0,
            },
            status_code: StatusCodeStats {
                success_count: 0,
                error_count: 0,
                redirect_count: 0,
                success_rate_ppm: 0,
                error_rate_ppm: 0,
                redirect_rate_ppm: 0,
            },
            performance: PerformanceStats {
                total_requests: 0,
                requests_per_second_milli: 0,
                slow_count: 0,
                slow_rate_ppm: 0,
                min_size: 0,
                avg_size: 0,
                max_size: 0,
            },
        }
    }
}

/// `part` of `whole` in parts per million, rounded down; zero of nothing.
pub fn rate_ppm_of(part: usize, whole: usize) -> (rate: u32)
    requires
        part <= whole,
    ensures
        rate == rate_ppm(part as nat, whole as nat),
{
    if whole == 0 {
        return 0;
    }
    assert(part * 1_000_000 <= u128::MAX) by (nonlinear_arith)
        requires
            part <= u64::MAX,
    {
    }
    let scaled: u128 = part as u128 * 1_000_000;
    assert(scaled / (whole as u128) <= 1_000_000) by (nonlinear_arith)
        requires
            scaled == part * 1_000_000,
            part <= whole,
            whole > 0,
    {
    }
    (scaled / whole as u128) as u32
}

/// `count` events in `nanos` nanoseconds as events per second, in
/// thousandths, rounded down; zero where no time has passed.
pub fn per_second_milli_of(count: usize, nanos: u64) -> (rate: u128)
    ensures
        rate == per_second_milli(count as nat, nanos as nat),
{
    if nanos == 0 {
        return 0;
    }
    assert(count * 1_000_000_000_000 <= u128::MAX) by (nonlinear_arith)
        requires
            count <= u64::MAX,
    {
    }
    count as u128 * 1_000_000_000_000 / nanos as u128
}

/// What one pass over the outcomes gathers.
struct Tally {
    times: Vec<u64>,
    sizes: Vec<u64>,
    successes: usize,
    errors: usize,
    redirects: usize,
    slow: usize,
}

impl Tally {
    spec fn holds(&self, responses: Seq<Response>, slow_threshold: Option<u64>) -> bool {
        &&& self.times@ == times_of(responses)
        &&& self.sizes@ == sizes_of(responses)
        &&& self.successes == success_count(responses)
        &&& self.errors == error_count(responses)
        &&& self.redirects == redirect_count(responses)
        &&& self.slow == slow_count(responses, slow_threshold)
    }
}

fn tally(responses: &std::collections::VecDeque<Response>, slow_threshold: Option<u64>) -> (gathered:
    Tally)
    ensures
        gathered.holds(responses@, slow_threshold),
{
    broadcast use vstd::seq_lib::group_filter_ensures;

    let ghost all = responses@;
    let mut gathered = Tally {
        times: Vec::new(),
        sizes: Vec::new(),
        successes: 0,
        errors: 0,
        redirects: 0,
        slow: 0,
    };
    let mut i: usize = 0;
    proof {
        reveal(Seq::filter);
        assert(all.take(0) =~= Seq::<Response>::empty());
        assert(gathered.times@ =~= times_of(all.take(0)));
        assert(gathered.sizes@ =~= sizes_of(all.take(0)));
    }
    while i < responses.len()
        invariant
            i <= responses.len(),
            all == responses@,
            gathered.holds(all.take(i as int), slow_threshold),
        decreases responses.len() - i,
    {
        let ghost before = all.take(i as int);
        let ghost after = all.take(i + 1);
        let response = &responses[i];
        proof {
            reveal(Seq::filter);
            assert(after.drop_last() =~= before);
            assert(after.last() == *response);
            assert(success_count(before) <= before.len());
            assert(error_count(before) <= before.len());
            assert(redirect_count(before) <= before.len());
            if slow_threshold is Some {
                let threshold = slow_threshold->Some_0;
                before.lemma_filter_len(|r: Response| r.response_time_ns > threshold);
            }
            assert(slow_count(before, slow_threshold) <= before.len());
        }
        gathered.times.push(response.response_time_ns);
        gathered.sizes.push(response.response_size as u64);
        if is_success(response.status_code) {
            gathered.successes = gathered.successes + 1;
        }
        if is_error(response.status_code) {
            gathered.errors = gathered.errors + 1;
        }
        if is_redirection(response.status_code) {
            gathered.redirects = gathered.redirects + 1;
        }
        match slow_threshold {
            Some(threshold) => {
                if response.response_time_ns > threshold {
                    gathered.slow = gathered.slow + 1;
                }
            },
            None => {},
        }
        proof {
            assert(gathered.times@ =~= times_of(after));
            assert(gathered.sizes@ =~= sizes_of(after));
        }
        i = i + 1;
    }
    proof {
        assert(all.take(i as int) =~= all);
    }
    gathered
}

impl Report {
    /// The statistics of this report, with slowness judged by
    /// `slow_threshold`, in nanoseconds. Of a report without outcomes every
    /// number is zero.
    pub fn generate_statistics(&self, slow_threshold: Option<u64>) -> (stats: Statistics)
        ensures
            stats == statistics_of(self.responses@, self.total_time_ns, slow_threshold),
            self.responses@.len() == 0 ==> stats == Statistics::zero(),
    {
        broadcast use vstd::seq_lib::group_filter_ensures;

        let gathered = tally(&self.responses, slow_threshold);
        let count = self.responses.len();
        let ghost responses = self.responses@;
        let ghost times = times_of(responses);
        proof {
            assert(success_count(responses) <= responses.len());
            assert(error_count(responses) <= responses.len());
            assert(redirect_count(responses) <= responses.len());
            if slow_threshold is Some {
                let threshold = slow_threshold->Some_0;
                responses.lemma_filter_len(|r: Response| r.response_time_ns > threshold);
            }
        }
        let status_code = StatusCodeStats {
            success_count: gathered.successes,
            error_count: gathered.errors,
            redirect_count: gathered.redirects,
            success_rate_ppm: rate_ppm_of(gathered.successes, count),
            error_rate_ppm: rate_ppm_of(gathered.errors, count),
            redirect_rate_ppm: rate_ppm_of(gathered.redirects, count),
        };
        let performance = PerformanceStats {
            total_requests: count,
            requests_per_second_milli: per_second_milli_of(count, self.total_time_ns),
            slow_count: gathered.slow,
            slow_rate_ppm: rate_ppm_of(gathered.slow, count),
            min_size: least_of(&gathered.sizes),
            avg_size: mean_of(&gathered.sizes),
            max_size: greatest_of(&gathered.sizes),
        };
        let mean_ns = mean_of(&gathered.times);
        let min_ns = least_of(&gathered.times);
        let max_ns = greatest_of(&gathered.times);
        let std_dev_ns = floor_sqrt_of(variance_of(&gathered.times));
        let sorted = sorted_ascending(gathered.times);
        proof {
            times.lemma_sort_by_ensures(crate::numbers::at_most());
            vstd::seq_lib::to_multiset_len(times);
            vstd::seq_lib::to_multiset_len(sorted@);
        }
        let response_time = ResponseTimeStats {
            mean_ns,
            median_ns: quantile_of_sorted(&sorted, 1, 2),
            min_ns,
            max_ns,
            p90_ns: quantile_of_sorted(&sorted, 90, 100),
            p95_ns: quantile_of_sorted(&sorted, 95, 100),
            p99_ns: quantile_of_sorted(&sorted, 99, 100),
            std_dev_ns,
        };
        proof {
            if responses.len() == 0 {
                crate::numbers::lemma_floor_sqrt_zero();
            }
        }
        Statistics { response_time, status_code, performance }
    }
}

/// Without outcomes every number of the statistics is zero, whatever the
/// run time and the threshold.
pub proof fn lemma_statistics_of_nothing(total_time_ns: u64, slow_threshold: Option<u64>)
    ensures
        statistics_of(Seq::<Response>::empty(), total_time_ns, slow_threshold) == Statistics::zero(),
{
    broadcast use vstd::seq_lib::group_filter_ensures;

    let responses = Seq::<Response>::empty();
    crate::numbers::lemma_floor_sqrt_zero();
    assert(times_of(responses) =~= Seq::<u64>::empty());
    assert(sizes_of(responses) =~= Seq::<u64>::empty());
    assert(success_count(responses) == 0);
    assert(error_count(responses) == 0);
    assert(redirect_count(responses) == 0);
    if slow_threshold is Some {
        let threshold = slow_threshold->Some_0;
        responses.lemma_filter_len(|r: Response| r.response_time_ns > threshold);
    }
    assert(slow_count(responses, slow_threshold) == 0);
}

/// The throughput of `count` requests in `nanos` nanoseconds as a text:
/// requests per second with two decimals, rounded half to even, or `0 / sec`
/// where no time has passed.
pub open spec fn throughput_text(count: nat, nanos: nat) -> Seq<char> {
    if nanos == 0 {
        "0 / sec"@
    } else {
        let hundredths = round_half_even(count * 100_000_000_000, nanos);
        decimal_digits(hundredths / 100) + seq!['.'] + two_digits(hundredths % 100) + " / sec"@
    }
}

impl PerformanceStats {
    /// The throughput of a run that took `total_time_ns`, as a text.
    pub fn throughput(&self, total_time_ns: u64) -> (shown: String)
        ensures
            shown@ == throughput_text(self.total_requests as nat, total_time_ns as nat),
    {
        if total_time_ns == 0 {
            return "0 / sec".to_owned();
        }
        assert(self.total_requests * 100_000_000_000 <= u128::MAX) by (nonlinear_arith)
            requires
                self.total_requests <= u64::MAX,
        {
        }
        let hundredths = rounded_quotient(
            self.total_requests as u128 * 100_000_000_000,
            total_time_ns as u128,
        );
        let mut shown = String::new();
        push_decimal(&mut shown, hundredths / 100);
        proof {
            reveal_strlit(".");
        }
        shown.append(".");
        push_two_digits(&mut shown, (hundredths % 100) as u8);
        shown.append(" / sec");
        assert(shown@ =~= throughput_text(self.total_requests as nat, total_time_ns as nat));
        shown
    }

    /// The share of slow requests as a text: a whole percentage, or
    /// `Not Set` where no threshold is set.
    pub fn slow_share(&self, threshold_set: bool) -> (shown: String)
        ensures
            shown@ == if threshold_set {
                percent_text(self.slow_count as nat, self.total_requests as nat)
            } else {
                "Not Set"@
            },
    {
        if threshold_set {
            percent(self.slow_count, self.total_requests)
        } else {
            "Not Set".to_owned()
        }
    }
}

proof fn lemma_mapped_permutation<T, U>(a: Seq<T>, b: Seq<T>, f: spec_fn(T) -> U)
    requires
        a.to_multiset() == b.to_multiset(),
    ensures
        a.map_values(f).to_multiset() == b.map_values(f).to_multiset(),
    decreases a.len(),
{
    broadcast use vstd::seq_lib::group_to_multiset_ensures;
    broadcast use vstd::multiset::group_multiset_axioms;

    vstd::seq_lib::to_multiset_len(a);
    vstd::seq_lib::to_multiset_len(b);
    if a.len() > 0 {
        let at = crate::order::lemma_match_last(a, b);
        lemma_mapped_permutation(a.drop_last(), b.remove(at), f);
        let mapped = b.map_values(f);
        assert(a.map_values(f) =~= a.drop_last().map_values(f).push(f(a.last())));
        assert(mapped.remove(at) =~= b.remove(at).map_values(f));
        assert(mapped[at] == f(a.last()));
        assert(mapped.contains(mapped[at]));
        assert(mapped.to_multiset() =~= mapped.remove(at).to_multiset().insert(mapped[at]));
        assert(a.map_values(f).to_multiset() =~= mapped.to_multiset());
    } else {
        assert(a.map_values(f) =~= b.map_values(f));
    }
}

proof fn lemma_filtered_without<T>(items: Seq<T>, pred: spec_fn(T) -> bool, at: int)
    requires
        0 <= at < items.len(),
    ensures
        items.filter(pred).len() == items.remove(at).filter(pred).len() + if pred(items[at]) {
            1nat
        } else {
            0nat
        },
    decreases items.len(),
{
    reveal(Seq::filter);
    if at == items.len() - 1 {
        assert(items.remove(at) =~= items.drop_last());
    } else {
        lemma_filtered_without(items.drop_last(), pred, at);
        assert(items.remove(at).drop_last() =~= items.drop_last().remove(at));
        assert(items.remove(at).last() == items.last());
    }
}

proof fn lemma_filtered_permutation<T>(a: Seq<T>, b: Seq<T>, pred: spec_fn(T) -> bool)
    requires
        a.to_multiset() == b.to_multiset(),
    ensures
        a.filter(pred).len() == b.filter(pred).len(),
    decreases a.len(),
{
    reveal(Seq::filter);
    vstd::seq_lib::to_multiset_len(a);
    vstd::seq_lib::to_multiset_len(b);
    if a.len() > 0 {
        let at = crate::order::lemma_match_last(a, b);
        lemma_filtered_permutation(a.drop_last(), b.remove(at), pred);
        lemma_filtered_without(b, pred, at);
    }
}

/// The statistics do not depend on the order of the outcomes: two
/// collections that hold the same outcomes, each as often, have the same
/// statistics.
pub proof fn lemma_statistics_of_permutation(
    a: Seq<Response>,
    b: Seq<Response>,
    total_time_ns: u64,
    slow_threshold: Option<u64>,
)
    requires
        a.to_multiset() == b.to_multiset(),
    ensures
        statistics_of(a, total_time_ns, slow_threshold) == statistics_of(
            b,
            total_time_ns,
            slow_threshold,
        ),
{
    vstd::seq_lib::to_multiset_len(a);
    vstd::seq_lib::to_multiset_len(b);
    lemma_mapped_permutation(a, b, |r: Response| r.response_time_ns);
    lemma_mapped_permutation(a, b, |r: Response| r.response_size as u64);
    crate::numbers::lemma_order_does_not_matter(times_of(a), times_of(b));
    crate::numbers::lemma_order_does_not_matter(sizes_of(a), sizes_of(b));
    lemma_filtered_permutation(a, b, |r: Response| success(r.status_code));
    lemma_filtered_permutation(a, b, |r: Response| error(r.status_code));
    lemma_filtered_permutation(a, b, |r: Response| redirection(r.status_code));
    if slow_threshold is Some {
        let threshold = slow_threshold->Some_0;
        lemma_filtered_permutation(a, b, |r: Response| r.response_time_ns > threshold);
    }
    assert(response_time_stats_of(a) == response_time_stats_of(b));
    assert(status_code_stats_of(a) == status_code_stats_of(b));
    assert(performance_stats_of(a, total_time_ns, slow_threshold) == performance_stats_of(
        b,
        total_time_ns,
        slow_threshold,
    ));
}

} // verus!
