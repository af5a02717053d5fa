//! Sums, extremes, ranks and spread of a collection of numbers.

use crate::order::{sort_ranked, Ranking};
use vstd::prelude::*;
use vstd::relations::{sorted_by, total_ordering};
use vstd::seq_lib::lemma_sorted_unique;

verus! {

/// The sum of `values`.
pub open spec fn total(values: Seq<u64>) -> nat
    decreases values.len(),
{
    if values.len() == 0 {
        0
    } else {
        total(values.drop_last()) + values.last() as nat
    }
}

/// The least of `values`; zero for none.
pub open spec fn least(values: Seq<u64>) -> u64
    decreases values.len(),
{
    if values.len() == 0 {
        0
    } else if values.len() == 1 {
        values[0]
    } else if values.last() < least(values.drop_last()) {
        values.last()
    } else {
        least(values.drop_last())
    }
}

/// The greatest of `values`; zero for none.
pub open spec fn greatest(values: Seq<u64>) -> u64
    decreases values.len(),
{
    if values.len() == 0 {
        0
    } else if values.last() > greatest(values.drop_last()) {
        values.last()
    } else {
        greatest(values.drop_last())
    }
}

/// The mean of `values`, rounded down; zero for none.
pub open spec fn mean(values: Seq<u64>) -> nat {
    if values.len() == 0 {
        0
    } else {
        total(values) / values.len()
    }
}

/// The sum of the squares of the distances of `values` from `center`.
pub open spec fn squared_deviations(values: Seq<u64>, center: nat) -> nat
    decreases values.len(),
{
    if values.len() == 0 {
        0
    } else {
        squared_deviations(values.drop_last(), center) + ((values.last() - center) * (values.last()
            - center)) as nat
    }
}

/// The variance of `values` as a population, about their rounded-down
/// mean, itself rounded down; zero for none.
pub open spec fn variance(values: Seq<u64>) -> nat {
    if values.len() == 0 {
        0
    } else {
        squared_deviations(values, mean(values)) / values.len()
    }
}

/// Whether `root` is the square root of `square`, rounded down.
pub open spec fn is_floor_sqrt(root: nat, square: nat) -> bool {
    root * root <= square < (root + 1) * (root + 1)
}

/// The square root of `square`, rounded down.
pub open spec fn floor_sqrt(square: nat) -> nat {
    choose|root: nat| is_floor_sqrt(root, square)
}

/// The standard deviation of `values` as a population, rounded down.
pub open spec fn standard_deviation(values: Seq<u64>) -> nat {
    floor_sqrt(variance(values))
}

/// The order of numbers.
pub open spec fn at_most() -> spec_fn(u64, u64) -> bool {
    |a: u64, b: u64| a <= b
}

/// `values` in ascending order.
pub open spec fn ascending(values: Seq<u64>) -> Seq<u64> {
    values.sort_by(at_most())
}

/// The place, among `count` values in ascending order, of the quantile
/// `numerator / denominator`: `count * numerator / denominator` rounded down,
/// and never beyond the last place.
pub open spec fn quantile_place(count: nat, numerator: nat, denominator: nat) -> nat
    recommends
        count > 0,
        denominator > 0,
{
    let place = count * numerator / denominator;
    if place >= count {
        (count - 1) as nat
    } else {
        place
    }
}

/// The quantile `numerator / denominator` of `values`: the one at
/// `quantile_place` in ascending order; zero for none.
pub open spec fn quantile(values: Seq<u64>, numerator: nat, denominator: nat) -> u64 {
    if values.len() == 0 {
        0
    } else {
        ascending(values)[quantile_place(values.len(), numerator, denominator) as int]
    }
}

/// Only one number is the rounded-down square root of another.
pub proof fn lemma_floor_sqrt_unique(root: nat, square: nat)
    requires
        is_floor_sqrt(root, square),
    ensures
        floor_sqrt(square) == root,
{
    let other = floor_sqrt(square);
    assert(is_floor_sqrt(other, square));
    assert(other == root) by (nonlinear_arith)
        requires
            root * root <= square < (root + 1) * (root + 1),
            other * other <= square < (other + 1) * (other + 1),
    {
        if other < root {
            assert((other + 1) * (other + 1) <= root * root);
        } else if root < other {
            assert((root + 1) * (root + 1) <= other * other);
        }
    }
}

/// The square root of zero is zero.
pub proof fn lemma_floor_sqrt_zero()
    ensures
        floor_sqrt(0) == 0,
{
    assert(0nat * 0nat == 0 && (0nat + 1) * (0nat + 1) == 1) by (nonlinear_arith);
    lemma_floor_sqrt_unique(0, 0);
}

proof fn lemma_total_bound(values: Seq<u64>)
    ensures
        total(values) <= values.len() * u64::MAX,
    decreases values.len(),
{
    if values.len() > 0 {
        lemma_total_bound(values.drop_last());
        assert(total(values) <= values.len() * u64::MAX) by (nonlinear_arith)
            requires
                total(values) == total(values.drop_last()) + values.last() as nat,
                total(values.drop_last()) <= (values.len() - 1) * u64::MAX,
                values.last() <= u64::MAX,
        {
        }
    }
}

/// The sum of `values`.
pub fn sum_of(values: &Vec<u64>) -> (sum: u128)
    ensures
        sum == total(values@),
{
    let mut sum: u128 = 0;
    let mut i: usize = 0;
    proof {
        assert(values@.take(0) =~= Seq::<u64>::empty());
    }
    while i < values.len()
        invariant
            i <= values.len(),
            sum == total(values@.take(i as int)),
        decreases values.len() - i,
    {
        proof {
            assert(values@.take(i + 1).drop_last() =~= values@.take(i as int));
            lemma_total_bound(values@.take(i + 1));
            assert((i + 1) * u64::MAX <= u128::MAX) by (nonlinear_arith)
                requires
                    i + 1 <= usize::MAX,
                    usize::MAX <= u64::MAX,
            {
            }
        }
        sum = sum + values[i] as u128;
        i = i + 1;
    }
    proof {
        assert(values@.take(i as int) =~= values@);
    }
    sum
}

/// The least of `values`; zero for none.
pub fn least_of(values: &Vec<u64>) -> (low: u64)
    ensures
        low == least(values@),
{
    if values.len() == 0 {
        return 0;
    }
    let mut low: u64 = values[0];
    let mut i: usize = 1;
    proof {
        assert(values@.take(1).len() == 1);
    }
    while i < values.len()
        invariant
            1 <= i <= values.len(),
            low == least(values@.take(i as int)),
        decreases values.len() - i,
    {
        proof {
            assert(values@.take(i + 1).drop_last() =~= values@.take(i as int));
        }
        if values[i] < low {
            low = values[i];
        }
        i = i + 1;
    }
    proof {
        assert(values@.take(i as int) =~= values@);
    }
    low
}

/// The greatest of `values`; zero for none.
pub fn greatest_of(values: &Vec<u64>) -> (high: u64)
    ensures
        high == greatest(values@),
{
    let mut high: u64 = 0;
    let mut i: usize = 0;
    proof {
        assert(values@.take(0) =~= Seq::<u64>::empty());
    }
    while i < values.len()
        invariant
            i <= values.len(),
            high == greatest(values@.take(i as int)),
        decreases values.len() - i,
    {
        proof {
            assert(values@.take(i + 1).drop_last() =~= values@.take(i as int));
        }
        if values[i] > high {
            high = values[i];
        }
        i = i + 1;
    }
    proof {
        assert(values@.take(i as int) =~= values@);
    }
    high
}

/// The mean of `values`, rounded down; zero for none.
pub fn mean_of(values: &Vec<u64>) -> (center: u64)
    ensures
        center == mean(values@),
{
    if values.len() == 0 {
        return 0;
    }
    let sum = sum_of(values);
    proof {
        lemma_total_bound(values@);
        assert(total(values@) / values@.len() <= u64::MAX) by (nonlinear_arith)
            requires
                total(values@) <= values@.len() * u64::MAX,
                values@.len() > 0,
        {
        }
    }
    (sum / values.len() as u128) as u64
}

proof fn lemma_squared_deviations_bound(values: Seq<u64>, center: nat)
    requires
        center <= u64::MAX,
    ensures
        squared_deviations(values, center) <= values.len() * (u64::MAX * u64::MAX),
    decreases values.len(),
{
    if values.len() > 0 {
        lemma_squared_deviations_bound(values.drop_last(), center);
        let d = values.last() - center;
        assert(d * d <= u64::MAX * u64::MAX) by (nonlinear_arith)
            requires
                -(u64::MAX as int) <= d <= u64::MAX,
        {
        }
        assert(squared_deviations(values, center) <= values.len() * (u64::MAX * u64::MAX))
            by (nonlinear_arith)
            requires
                squared_deviations(values, center) == squared_deviations(
                    values.drop_last(),
                    center,
                ) + (d * d) as nat,
                squared_deviations(values.drop_last(), center) <= (values.len() - 1) * (u64::MAX
                    * u64::MAX),
                d * d <= u64::MAX * u64::MAX,
                values.len() >= 1,
        {
        }
    }
}

/// The variance of `values` about their rounded-down mean, rounded down.
pub fn variance_of(values: &Vec<u64>) -> (spread: u128)
    ensures
        spread == variance(values@),
{
    let count = values.len();
    if count == 0 {
        return 0;
    }
    let center = mean_of(values);
    // The sum of the squares so far is `whole * count + part`.
    let mut whole: u128 = 0;
    let mut part: u128 = 0;
    let mut i: usize = 0;
    proof {
        assert(values@.take(0) =~= Seq::<u64>::empty());
    }
    while i < count
        invariant
            i <= count,
            count == values.len(),
            count > 0,
            part < count,
            squared_deviations(values@.take(i as int), center as nat) == whole * count + part,
        decreases count - i,
    {
        let value = values[i];
        let distance: u128 = if value >= center {
            (value - center) as u128
        } else {
            (center - value) as u128
        };
        assert(distance * distance <= u64::MAX * u64::MAX) by (nonlinear_arith)
            requires
                distance <= u64::MAX,
        {
        }
        let square: u128 = distance * distance;
        let ghost before = squared_deviations(values@.take(i as int), center as nat);
        let ghost after = squared_deviations(values@.take(i + 1), center as nat);
        proof {
            assert(values@.take(i + 1).drop_last() =~= values@.take(i as int));
            assert(square == (value - center) * (value - center)) by (nonlinear_arith)
                requires
                    square == distance * distance,
                    distance == value - center || distance == center - value,
            {
            }
            assert(after == before + square);
            lemma_squared_deviations_bound(values@.take(i + 1), center as nat);
        }
        let more: u128 = square / count as u128;
        let rest: u128 = square % count as u128;
        let carry: u128 = if part + rest >= count as u128 {
            1
        } else {
            0
        };
        proof {
            vstd::arithmetic::div_mod::lemma_fundamental_div_mod(square as int, count as int);
            assert(square == more * count + rest) by (nonlinear_arith)
                requires
                    square == count * more + rest,
            {
            }
            assert(after == (whole + more + carry) * count + (part + rest - carry * count))
                by (nonlinear_arith)
                requires
                    after == before + square,
                    before == whole * count + part,
                    square == more * count + rest,
            {
            }
            assert(whole + more + carry <= u64::MAX * u64::MAX) by (nonlinear_arith)
                requires
                    after == (whole + more + carry) * count + (part + rest - carry * count),
                    part + rest - carry * count >= 0,
                    after <= (i + 1) * (u64::MAX * u64::MAX),
                    i + 1 <= count,
                    count > 0,
            {
            }
        }
        whole = whole + more + carry;
        part = part + rest - carry * count as u128;
        i = i + 1;
    }
    proof {
        assert(values@.take(i as int) =~= values@);
        assert(whole == (whole * count + part) / (count as int)) by (nonlinear_arith)
            requires
                0 <= part < count,
                whole >= 0,
        {
        }
    }
    whole
}

/// The square root of `square`, rounded down.
pub fn floor_sqrt_of(square: u128) -> (root: u64)
    ensures
        root == floor_sqrt(square as nat),
{
    let mut low: u128 = 0;
    let mut high: u128 = 0x1_0000_0000_0000_0000;
    assert(0x1_0000_0000_0000_0000 * 0x1_0000_0000_0000_0000 > u128::MAX) by (nonlinear_arith);
    while high - low > 1
        invariant
            low < high <= 0x1_0000_0000_0000_0000,
            low * low <= square < high * high,
        decreases high - low,
    {
        let middle: u128 = low + (high - low) / 2;
        assert(middle * middle <= u128::MAX) by (nonlinear_arith)
            requires
                middle < 0x1_0000_0000_0000_0000,
        {
        }
        if middle * middle <= square {
            low = middle;
        } else {
            high = middle;
        }
    }
    proof {
        assert(high == low + 1);
        lemma_floor_sqrt_unique(low as nat, square as nat);
    }
    low as u64
}

/// Numbers, least first.
pub struct Ascending;

impl Ranking<u64> for Ascending {
    open spec fn before(a: &u64, b: &u64) -> bool {
        *a <= *b
    }

    proof fn lemma_total(a: &u64, b: &u64) {
    }

    proof fn lemma_transitive(a: &u64, b: &u64, c: &u64) {
    }

    fn stands_before(a: &u64, b: &u64) -> (r: bool) {
        *a <= *b
    }
}

/// `values` in ascending order.
pub fn sorted_ascending(values: Vec<u64>) -> (sorted: Vec<u64>)
    ensures
        sorted@ == ascending(values@),
{
    let sorted = sort_ranked::<u64, Ascending>(values);
    proof {
        assert(total_ordering(at_most()));
        values@.lemma_sort_by_ensures(at_most());
        assert(sorted_by(sorted@, at_most())) by {
            assert forall|i: int, j: int| 0 <= i < j < sorted@.len() implies #[trigger] at_most()(
                sorted@[i],
                sorted@[j],
            ) by {
                assert(Ascending::before(&sorted@[i], &sorted@[j]));
            }
        }
        lemma_sorted_unique(sorted@, ascending(values@), at_most());
    }
    sorted
}

/// The value of `sorted` at the place of the quantile
/// `numerator / denominator`; zero where `sorted` is empty.
pub fn quantile_of_sorted(sorted: &Vec<u64>, numerator: u8, denominator: u8) -> (value: u64)
    requires
        denominator > 0,
    ensures
        sorted@.len() == 0 ==> value == 0,
        sorted@.len() > 0 ==> value == sorted@[quantile_place(
            sorted@.len(),
            numerator as nat,
            denominator as nat,
        ) as int],
{
    let count = sorted.len();
    if count == 0 {
        return 0;
    }
    assert(count * numerator <= u128::MAX) by (nonlinear_arith)
        requires
            count <= u64::MAX,
            numerator <= 255,
    {
    }
    let place: u128 = count as u128 * numerator as u128 / denominator as u128;
    if place >= count as u128 {
        sorted[count - 1]
    } else {
        sorted[place as usize]
    }
}

/// The least of the values is at most each of them.
pub proof fn lemma_least_is_lower_bound(values: Seq<u64>, at: int)
    requires
        0 <= at < values.len(),
    ensures
        least(values) <= values[at],
    decreases values.len(),
{
    if values.len() > 1 && at < values.len() - 1 {
        lemma_least_is_lower_bound(values.drop_last(), at);
    }
}

/// The greatest of the values is at least each of them.
pub proof fn lemma_greatest_is_upper_bound(values: Seq<u64>, at: int)
    requires
        0 <= at < values.len(),
    ensures
        values[at] <= greatest(values),
    decreases values.len(),
{
    if at < values.len() - 1 {
        lemma_greatest_is_upper_bound(values.drop_last(), at);
    }
}

/// A quantile of values is one of them.
pub proof fn lemma_quantile_is_a_value(values: Seq<u64>, numerator: nat, denominator: nat)
    requires
        values.len() > 0,
    ensures
        values.contains(quantile(values, numerator, denominator)),
{
    broadcast use vstd::seq_lib::group_to_multiset_ensures;

    let sorted = ascending(values);
    assert(total_ordering(at_most()));
    values.lemma_sort_by_ensures(at_most());
    vstd::seq_lib::to_multiset_len(values);
    vstd::seq_lib::to_multiset_len(sorted);
    let place = quantile_place(values.len(), numerator, denominator) as int;
    assert(sorted.contains(sorted[place]));
    assert(sorted.to_multiset().count(sorted[place]) > 0);
}

/// Every quantile lies between the least and the greatest of the values.
pub proof fn lemma_quantile_within_extremes(values: Seq<u64>, numerator: nat, denominator: nat)
    requires
        values.len() > 0,
    ensures
        least(values) <= quantile(values, numerator, denominator) <= greatest(values),
{
    lemma_quantile_is_a_value(values, numerator, denominator);
    let value = quantile(values, numerator, denominator);
    let at = choose|at: int| 0 <= at < values.len() && values[at] == value;
    lemma_least_is_lower_bound(values, at);
    lemma_greatest_is_upper_bound(values, at);
}

/// A higher quantile is no smaller value: the median is at most the 90th
/// percentile, that at most the 95th, and so on.
pub proof fn lemma_quantiles_ascend(values: Seq<u64>, lower: nat, higher: nat, denominator: nat)
    requires
        lower <= higher,
        denominator > 0,
    ensures
        quantile(values, lower, denominator) <= quantile(values, higher, denominator),
{
    if values.len() > 0 {
        let sorted = ascending(values);
        assert(total_ordering(at_most()));
        values.lemma_sort_by_ensures(at_most());
        vstd::seq_lib::to_multiset_len(values);
        vstd::seq_lib::to_multiset_len(sorted);
        let count = values.len();
        assert(count * lower / denominator <= count * higher / denominator) by (nonlinear_arith)
            requires
                lower <= higher,
                denominator > 0,
                count >= 0,
        {
        }
        let low = quantile_place(count, lower, denominator) as int;
        let high = quantile_place(count, higher, denominator) as int;
        assert(low <= high);
        if low < high {
            assert(at_most()(sorted[low], sorted[high]));
        }
    }
}

proof fn lemma_total_between(values: Seq<u64>)
    ensures
        values.len() * least(values) <= total(values) <= values.len() * greatest(values),
    decreases values.len(),
{
    if values.len() == 1 {
        let front = values.drop_last();
        assert(front.len() == 0);
        assert(total(front) == 0);
        assert(greatest(front) == 0);
        assert(total(values) == values[0]);
        assert(least(values) == values[0]);
        assert(greatest(values) == values[0]);
    } else if values.len() > 1 {
        let front = values.drop_last();
        lemma_total_between(front);
        assert(least(values) <= least(front));
        assert(greatest(front) <= greatest(values));
        assert(values.len() * least(values) <= total(values)) by (nonlinear_arith)
            requires
                total(values) == total(front) + values.last(),
                front.len() * least(front) <= total(front),
                least(values) <= least(front),
                least(values) <= values.last(),
                values.len() == front.len() + 1,
        {
            assert(front.len() * least(values) <= front.len() * least(front));
        }
        assert(total(values) <= values.len() * greatest(values)) by (nonlinear_arith)
            requires
                total(values) == total(front) + values.last(),
                total(front) <= front.len() * greatest(front),
                greatest(front) <= greatest(values),
                values.last() <= greatest(values),
                values.len() == front.len() + 1,
        {
            assert(front.len() * greatest(front) <= front.len() * greatest(values));
        }
    } else {
        assert(values.len() * least(values) == 0 && values.len() * greatest(values) == 0)
            by (nonlinear_arith)
            requires
                values.len() == 0,
        {
        }
    }
}

/// The mean lies between the least and the greatest of the values.
pub proof fn lemma_mean_within_extremes(values: Seq<u64>)
    ensures
        least(values) <= mean(values) <= greatest(values),
{
    if values.len() > 0 {
        lemma_total_between(values);
        let count = values.len();
        assert(least(values) <= total(values) / count <= greatest(values)) by (nonlinear_arith)
            requires
                count * least(values) <= total(values) <= count * greatest(values),
                count > 0,
        {
        }
    }
}

proof fn lemma_total_without(values: Seq<u64>, at: int)
    requires
        0 <= at < values.len(),
    ensures
        total(values) == total(values.remove(at)) + values[at],
    decreases values.len(),
{
    if at == values.len() - 1 {
        assert(values.remove(at) =~= values.drop_last());
    } else {
        lemma_total_without(values.drop_last(), at);
        assert(values.remove(at).drop_last() =~= values.drop_last().remove(at));
        assert(values.remove(at).last() == values.last());
    }
}

proof fn lemma_squared_deviations_without(values: Seq<u64>, center: nat, at: int)
    requires
        0 <= at < values.len(),
    ensures
        squared_deviations(values, center) == squared_deviations(values.remove(at), center) + ((
        values[at] - center) * (values[at] - center)) as nat,
    decreases values.len(),
{
    if at == values.len() - 1 {
        assert(values.remove(at) =~= values.drop_last());
    } else {
        lemma_squared_deviations_without(values.drop_last(), center, at);
        assert(values.remove(at).drop_last() =~= values.drop_last().remove(at));
        assert(values.remove(at).last() == values.last());
    }
}

proof fn lemma_least_is_a_value(values: Seq<u64>)
    requires
        values.len() > 0,
    ensures
        values.contains(least(values)),
    decreases values.len(),
{
    if values.len() > 1 {
        lemma_least_is_a_value(values.drop_last());
        let front = values.drop_last();
        let at = choose|at: int| 0 <= at < front.len() && front[at] == least(front);
        assert(values[at] == least(front));
        assert(values[values.len() - 1] == values.last());
    } else {
        assert(values[0] == least(values));
    }
}

proof fn lemma_greatest_is_a_value(values: Seq<u64>)
    requires
        values.len() > 0,
    ensures
        values.contains(greatest(values)),
    decreases values.len(),
{
    let front = values.drop_last();
    if values.last() > greatest(front) {
        assert(values[values.len() - 1] == values.last());
    } else if values.len() > 1 {
        lemma_greatest_is_a_value(front);
        let at = choose|at: int| 0 <= at < front.len() && front[at] == greatest(front);
        assert(values[at] == greatest(front));
    } else {
        assert(greatest(front) == 0);
        assert(values[0] == 0);
    }
}

/// The order of the values does not matter to their sum, their extremes,
/// their order when sorted, nor to what follows from these: two sequences
/// that hold the same values, each as often, agree in all of them.
pub proof fn lemma_order_does_not_matter(a: Seq<u64>, b: Seq<u64>)
    requires
        a.to_multiset() == b.to_multiset(),
    ensures
        a.len() == b.len(),
        total(a) == total(b),
        mean(a) == mean(b),
        least(a) == least(b),
        greatest(a) == greatest(b),
        ascending(a) == ascending(b),
        forall|center: nat| squared_deviations(a, center) == squared_deviations(b, center),
        variance(a) == variance(b),
        standard_deviation(a) == standard_deviation(b),
        forall|numerator: nat, denominator: nat|
            quantile(a, numerator, denominator) == quantile(b, numerator, denominator),
{
    broadcast use vstd::seq_lib::group_to_multiset_ensures;

    vstd::seq_lib::to_multiset_len(a);
    vstd::seq_lib::to_multiset_len(b);
    lemma_sums_of_permutation(a, b, 0);
    assert forall|center: nat| squared_deviations(a, center) == squared_deviations(
        b,
        center,
    ) by {
        lemma_sums_of_permutation(a, b, center);
    }
    assert(total_ordering(at_most()));
    a.lemma_sort_by_ensures(at_most());
    b.lemma_sort_by_ensures(at_most());
    lemma_sorted_unique(ascending(a), ascending(b), at_most());
    if a.len() > 0 {
        lemma_least_is_a_value(a);
        lemma_least_is_a_value(b);
        lemma_greatest_is_a_value(a);
        lemma_greatest_is_a_value(b);
        assert(b.contains(least(a)) && a.contains(least(b))) by {
            assert(a.to_multiset().count(least(a)) > 0);
            assert(b.to_multiset().count(least(b)) > 0);
        }
        assert(b.contains(greatest(a)) && a.contains(greatest(b))) by {
            assert(a.to_multiset().count(greatest(a)) > 0);
            assert(b.to_multiset().count(greatest(b)) > 0);
        }
        let low_in_b = choose|at: int| 0 <= at < b.len() && b[at] == least(a);
        let low_in_a = choose|at: int| 0 <= at < a.len() && a[at] == least(b);
        lemma_least_is_lower_bound(b, low_in_b);
        lemma_least_is_lower_bound(a, low_in_a);
        let high_in_b = choose|at: int| 0 <= at < b.len() && b[at] == greatest(a);
        let high_in_a = choose|at: int| 0 <= at < a.len() && a[at] == greatest(b);
        lemma_greatest_is_upper_bound(b, high_in_b);
        lemma_greatest_is_upper_bound(a, high_in_a);
    }
}

proof fn lemma_sums_of_permutation(a: Seq<u64>, b: Seq<u64>, center: nat)
    requires
        a.to_multiset() == b.to_multiset(),
    ensures
        total(a) == total(b),
        squared_deviations(a, center) == squared_deviations(b, center),
    decreases a.len(),
{
    vstd::seq_lib::to_multiset_len(a);
    vstd::seq_lib::to_multiset_len(b);
    if a.len() > 0 {
        let at = crate::order::lemma_match_last(a, b);
        lemma_sums_of_permutation(a.drop_last(), b.remove(at), center);
        lemma_total_without(b, at);
        lemma_squared_deviations_without(b, center, at);
    }
}

} // verus!
