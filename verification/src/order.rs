//! Orderings and a merge sort that is proved to sort by them.

use vstd::prelude::*;
use vstd::multiset::Multiset;
use vstd::seq_lib::{lemma_multiset_commutative, to_multiset_build};
use vstd::utf8::{decode_utf8, encode_utf8, encode_utf8_decode_utf8};

verus! {

/// Lexicographic order on byte sequences: `a` is at most `b`.
pub open spec fn bytes_at_most(a: Seq<u8>, b: Seq<u8>) -> bool
    decreases a.len(),
{
    if a.len() == 0 {
        true
    } else if b.len() == 0 {
        false
    } else if a[0] != b[0] {
        a[0] < b[0]
    } else {
        bytes_at_most(a.drop_first(), b.drop_first())
    }
}

/// The order of strings: lexicographic by the bytes of their UTF-8 form.
pub open spec fn text_at_most(a: Seq<char>, b: Seq<char>) -> bool {
    bytes_at_most(encode_utf8(a), encode_utf8(b))
}

/// Of two byte sequences, one is at most the other.
pub proof fn lemma_bytes_total(a: Seq<u8>, b: Seq<u8>)
    ensures
        bytes_at_most(a, b) || bytes_at_most(b, a),
    decreases a.len(),
{
    if a.len() > 0 && b.len() > 0 && a[0] == b[0] {
        lemma_bytes_total(a.drop_first(), b.drop_first());
    }
}

/// The order on byte sequences is transitive.
pub proof fn lemma_bytes_transitive(a: Seq<u8>, b: Seq<u8>, c: Seq<u8>)
    requires
        bytes_at_most(a, b),
        bytes_at_most(b, c),
    ensures
        bytes_at_most(a, c),
    decreases a.len(),
{
    if a.len() > 0 && b.len() > 0 && c.len() > 0 && a[0] == b[0] && b[0] == c[0] {
        lemma_bytes_transitive(a.drop_first(), b.drop_first(), c.drop_first());
    }
}

/// Two byte sequences that are each at most the other are equal.
pub proof fn lemma_bytes_antisymmetric(a: Seq<u8>, b: Seq<u8>)
    requires
        bytes_at_most(a, b),
        bytes_at_most(b, a),
    ensures
        a == b,
    decreases a.len(),
{
    if a.len() > 0 && b.len() > 0 {
        lemma_bytes_antisymmetric(a.drop_first(), b.drop_first());
        assert(a =~= seq![a[0]] + a.drop_first());
        assert(b =~= seq![b[0]] + b.drop_first());
    } else {
        assert(a =~= b);
    }
}

/// Two texts that are each at most the other are the same text.
pub proof fn lemma_text_antisymmetric(a: Seq<char>, b: Seq<char>)
    requires
        text_at_most(a, b),
        text_at_most(b, a),
    ensures
        a == b,
{
    lemma_bytes_antisymmetric(encode_utf8(a), encode_utf8(b));
    encode_utf8_decode_utf8(a);
    encode_utf8_decode_utf8(b);
    assert(decode_utf8(encode_utf8(a)) == decode_utf8(encode_utf8(b)));
}

/// Whether `a` is at most `b` in lexicographic order.
pub fn bytes_le(a: &[u8], b: &[u8]) -> (at_most: bool)
    ensures
        at_most == bytes_at_most(a@, b@),
{
    let mut i: usize = 0;
    proof {
        assert(a@.skip(0) =~= a@);
        assert(b@.skip(0) =~= b@);
    }
    while i < a.len() && i < b.len()
        invariant
            i <= a.len(),
            i <= b.len(),
            bytes_at_most(a@, b@) == bytes_at_most(a@.skip(i as int), b@.skip(i as int)),
        decreases a.len() - i,
    {
        if a[i] != b[i] {
            return a[i] < b[i];
        }
        proof {
            assert(a@.skip(i as int).drop_first() =~= a@.skip(i + 1));
            assert(b@.skip(i as int).drop_first() =~= b@.skip(i + 1));
        }
        i = i + 1;
    }
    i == a.len()
}

/// Whether `a` is at most `b` in the order of strings.
pub fn text_le(a: &str, b: &str) -> (at_most: bool)
    ensures
        at_most == text_at_most(a@, b@),
{
    bytes_le(a.as_bytes(), b.as_bytes())
}

/// A total preorder on `T` that can be decided at run time.
pub trait Ranking<T> {
    /// Whether `a` may stand before `b`.
    spec fn before(a: &T, b: &T) -> bool;

    /// Of two items, one may stand before the other.
    proof fn lemma_total(a: &T, b: &T)
        ensures
            Self::before(a, b) || Self::before(b, a),
    ;

    /// What may stand before an item may stand before all that the item
    /// may stand before.
    proof fn lemma_transitive(a: &T, b: &T, c: &T)
        requires
            Self::before(a, b),
            Self::before(b, c),
        ensures
            Self::before(a, c),
    ;

    /// Decides `before`.
    fn stands_before(a: &T, b: &T) -> (r: bool)
        ensures
            r == Self::before(a, b),
    ;
}

/// Whether every item of `items` may stand before all that follow it.
pub open spec fn ranked<T, R: Ranking<T>>(items: Seq<T>) -> bool {
    forall|i: int, j: int| 0 <= i < j < items.len() ==> #[trigger] R::before(&items[i], &items[j])
}

/// Whether every item of `items` may stand before all that precede it.
pub open spec fn ranked_backwards<T, R: Ranking<T>>(items: Seq<T>) -> bool {
    forall|i: int, j: int| 0 <= i < j < items.len() ==> #[trigger] R::before(&items[j], &items[i])
}

/// Whether every item of `low` may stand before every item of `high`.
pub open spec fn all_before<T, R: Ranking<T>>(low: Seq<T>, high: Seq<T>) -> bool {
    forall|i: int, j: int|
        0 <= i < low.len() && 0 <= j < high.len() ==> #[trigger] R::before(&low[i], &high[j])
}

proof fn lemma_nothing_held<T>(items: Seq<T>)
    requires
        items.len() == 0,
    ensures
        items.to_multiset() == Multiset::<T>::empty(),
{
    broadcast use vstd::seq_lib::group_to_multiset_ensures;
    broadcast use vstd::multiset::group_multiset_axioms;

    assert forall|a: T| items.to_multiset().count(a) == 0 by {
        if items.to_multiset().count(a) > 0 {
            assert(items.contains(a));
        }
    }
    assert(items.to_multiset() =~= Multiset::<T>::empty());
}

/// Moves the last item of `source` to the end of `taken`, where it may
/// stand behind all that is left of `source` and of `other`.
fn move_last<T, R: Ranking<T>>(source: &mut Vec<T>, other: &Vec<T>, taken: &mut Vec<T>)
    requires
        old(source)@.len() > 0,
        ranked::<T, R>(old(source)@),
        ranked::<T, R>(other@),
        ranked_backwards::<T, R>(old(taken)@),
        all_before::<T, R>(old(source)@, old(taken)@),
        all_before::<T, R>(other@, old(taken)@),
        other@.len() > 0 ==> R::before(&other@.last(), &old(source)@.last()),
    ensures
        final(source)@ == old(source)@.drop_last(),
        final(taken)@ == old(taken)@.push(old(source)@.last()),
        ranked::<T, R>(final(source)@),
        ranked_backwards::<T, R>(final(taken)@),
        all_before::<T, R>(final(source)@, final(taken)@),
        all_before::<T, R>(other@, final(taken)@),
{
    let ghost before = source@;
    let ghost above = taken@;
    let item = source.pop().unwrap();
    taken.push(item);
    proof {
        assert(source@ =~= before.drop_last());
        assert forall|i: int, j: int| 0 <= i < j < source@.len() implies #[trigger] R::before(
            &source@[i],
            &source@[j],
        ) by {
            assert(R::before(&before[i], &before[j]));
        }
        assert forall|i: int, j: int| 0 <= i < j < taken@.len() implies #[trigger] R::before(
            &taken@[j],
            &taken@[i],
        ) by {
            if j < above.len() {
                assert(R::before(&above[j], &above[i]));
            } else {
                assert(R::before(&before[before.len() - 1], &above[i]));
            }
        }
        assert forall|i: int, j: int|
            0 <= i < source@.len() && 0 <= j < taken@.len() implies #[trigger] R::before(
            &source@[i],
            &taken@[j],
        ) by {
            if j < above.len() {
                assert(R::before(&before[i], &above[j]));
            } else {
                assert(R::before(&before[i], &before[before.len() - 1]));
            }
        }
        assert forall|i: int, j: int|
            0 <= i < other@.len() && 0 <= j < taken@.len() implies #[trigger] R::before(
            &other@[i],
            &taken@[j],
        ) by {
            if j < above.len() {
                assert(R::before(&other@[i], &above[j]));
            } else if i < other@.len() - 1 {
                assert(R::before(&other@[i], &other@[other@.len() - 1]));
                R::lemma_transitive(&other@[i], &other@.last(), &item);
            }
        }
    }
}

/// Merges two ranked vectors into one.
pub fn merge_ranked<T, R: Ranking<T>>(left: Vec<T>, right: Vec<T>) -> (merged: Vec<T>)
    requires
        ranked::<T, R>(left@),
        ranked::<T, R>(right@),
    ensures
        ranked::<T, R>(merged@),
        merged@.to_multiset() == left@.to_multiset().add(right@.to_multiset()),
{
    broadcast use vstd::multiset::group_multiset_axioms;

    let mut left = left;
    let mut right = right;
    let ghost all = left@.to_multiset().add(right@.to_multiset());
    // The greatest first: taken from the ends of what is left.
    let mut taken: Vec<T> = Vec::new();
    proof {
        lemma_nothing_held(taken@);
    }
    while left.len() > 0 || right.len() > 0
        invariant
            ranked::<T, R>(left@),
            ranked::<T, R>(right@),
            ranked_backwards::<T, R>(taken@),
            all_before::<T, R>(left@, taken@),
            all_before::<T, R>(right@, taken@),
            left@.to_multiset().add(right@.to_multiset()).add(taken@.to_multiset()) == all,
        decreases left.len() + right.len(),
    {
        let ghost old_left = left@;
        let ghost old_right = right@;
        let ghost old_taken = taken@;
        let from_left = if left.len() == 0 {
            false
        } else if right.len() == 0 {
            true
        } else {
            !R::stands_before(&left[left.len() - 1], &right[right.len() - 1])
        };
        if from_left {
            proof {
                if right@.len() > 0 {
                    R::lemma_total(&left@.last(), &right@.last());
                }
            }
            move_last::<T, R>(&mut left, &right, &mut taken);
            proof {
                assert(old_left =~= left@.push(old_left.last()));
                to_multiset_build(left@, old_left.last());
                to_multiset_build(old_taken, old_left.last());
            }
        } else {
            move_last::<T, R>(&mut right, &left, &mut taken);
            proof {
                assert(old_right =~= right@.push(old_right.last()));
                to_multiset_build(right@, old_right.last());
                to_multiset_build(old_taken, old_right.last());
            }
        }
        proof {
            assert(left@.to_multiset().add(right@.to_multiset()).add(taken@.to_multiset()) =~= all);
        }
    }
    proof {
        lemma_nothing_held(left@);
        lemma_nothing_held(right@);
        assert(taken@.to_multiset() =~= all);
        taken@.lemma_reverse_to_multiset();
    }
    reversed::<T, R>(taken)
}

/// Turns the order of `items` round.
fn reversed<T, R: Ranking<T>>(items: Vec<T>) -> (turned: Vec<T>)
    requires
        ranked_backwards::<T, R>(items@),
    ensures
        turned@ == items@.reverse(),
        ranked::<T, R>(turned@),
{
    let mut items = items;
    let ghost whole = items@;
    let mut turned: Vec<T> = Vec::new();
    while items.len() > 0
        invariant
            items@.len() + turned@.len() == whole.len(),
            items@ == whole.take(items@.len() as int),
            forall|k: int| 0 <= k < turned@.len() ==> turned@[k] == whole[whole.len() - 1 - k],
        decreases items.len(),
    {
        let ghost rest = items@;
        let item = items.pop().unwrap();
        turned.push(item);
        proof {
            assert(items@ =~= whole.take(items@.len() as int));
        }
    }
    proof {
        assert(turned@ =~= whole.reverse());
        assert forall|i: int, j: int| 0 <= i < j < turned@.len() implies #[trigger] R::before(
            &turned@[i],
            &turned@[j],
        ) by {
            assert(R::before(&whole[whole.len() - 1 - i], &whole[whole.len() - 1 - j]));
        }
    }
    turned
}

/// Sorts `items` by the ranking `R`: the result holds what `items` held,
/// each as often, and every item may stand before all that follow it.
pub fn sort_ranked<T, R: Ranking<T>>(items: Vec<T>) -> (sorted: Vec<T>)
    ensures
        ranked::<T, R>(sorted@),
        sorted@.to_multiset() == items@.to_multiset(),
    decreases items.len(),
{
    if items.len() <= 1 {
        return items;
    }
    let mut left = items;
    let ghost whole = left@;
    let half = left.len() / 2;
    let right = left.split_off(half);
    proof {
        assert(whole =~= left@ + right@);
        lemma_multiset_commutative(left@, right@);
    }
    let left_sorted = sort_ranked::<T, R>(left);
    let right_sorted = sort_ranked::<T, R>(right);
    merge_ranked::<T, R>(left_sorted, right_sorted)
}

/// Where two sequences hold the same items, each as often, the last item
/// of the one stands somewhere in the other, and without it the two still
/// hold the same items. Returns where it stands.
pub proof fn lemma_match_last<T>(a: Seq<T>, b: Seq<T>) -> (at: int)
    requires
        a.to_multiset() == b.to_multiset(),
        a.len() > 0,
    ensures
        a.len() == b.len(),
        0 <= at < b.len(),
        b[at] == a.last(),
        a.drop_last().to_multiset() == b.remove(at).to_multiset(),
{
    broadcast use vstd::seq_lib::group_to_multiset_ensures;
    broadcast use vstd::multiset::group_multiset_axioms;

    vstd::seq_lib::to_multiset_len(a);
    vstd::seq_lib::to_multiset_len(b);
    let item = a.last();
    assert(a[a.len() - 1] == item);
    assert(a.contains(item));
    assert(a.to_multiset().count(item) > 0);
    assert(b.contains(item));
    let at = choose|at: int| 0 <= at < b.len() && b[at] == item;
    assert(a.drop_last() =~= a.remove(a.len() - 1));
    assert(a.drop_last().to_multiset() =~= b.remove(at).to_multiset());
    at
}

} // verus!
