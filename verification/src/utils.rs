//! Formatting and validation helpers shared by the other modules.

use crate::text::{chars_of, decimal_digits, push_decimal, push_two_digits, two_digits};
use rand::Rng;
use unicode_segmentation::UnicodeSegmentation;
use vstd::prelude::*;

verus! {

/// The extended grapheme clusters of a text, in order, as
/// `unicode_segmentation` splits it.
pub uninterp spec fn graphemes_of(text: Seq<char>) -> Seq<Seq<char>>;

/// The texts of a sequence of string slices.
pub open spec fn texts_of(parts: Seq<&str>) -> Seq<Seq<char>> {
    Seq::new(parts.len(), |i: int| parts[i]@)
}

/// Calls `UnicodeSegmentation::graphemes` with extended clusters and collects
/// what it yields. Trusted: the clusters are those that `graphemes_of` names.
#[verifier::external_body]
fn grapheme_clusters<'a>(message: &'a str) -> (clusters: Vec<&'a str>)
    ensures
        texts_of(clusters@) == graphemes_of(message@),
{
    message.graphemes(true).collect()
}

/// What is shown of a message that was split into `clusters`, in a column
/// of `max_width` clusters.
pub open spec fn truncated_text(message: Seq<char>, clusters: Seq<Seq<char>>, max_width: nat) -> Seq<
    char,
> {
    if clusters.len() > max_width {
        clusters.take(max_width - 1).flatten() + seq!['…']
    } else {
        message
    }
}

/// Shortens a message that has already been split into clusters: when there
/// are more than `max_width` of them, the first `max_width - 1` are kept and
/// an ellipsis follows; otherwise the message is returned whole.
pub fn truncate_clusters(message: &str, clusters: &Vec<&str>, max_width: usize) -> (shown: String)
    requires
        max_width >= 2,
    ensures
        shown@ == truncated_text(message@, texts_of(clusters@), max_width as nat),
{
    if clusters.len() > max_width {
        let ghost parts = texts_of(clusters@);
        let mut shown = String::new();
        let mut i: usize = 0;
        proof {
            assert(parts.take(0) =~= Seq::<Seq<char>>::empty());
        }
        while i < max_width - 1
            invariant
                i <= max_width - 1,
                max_width < clusters.len(),
                parts == texts_of(clusters@),
                shown@ == parts.take(i as int).flatten(),
            decreases max_width - 1 - i,
        {
            proof {
                assert(parts.take(i + 1) =~= parts.take(i as int).push(parts[i as int]));
                parts.take(i as int).lemma_flatten_push(parts[i as int]);
            }
            shown.append(clusters[i]);
            i = i + 1;
        }
        proof {
            reveal_strlit("…");
        }
        shown.append("…");
        assert(shown@ =~= parts.take(max_width - 1).flatten() + seq!['…']);
        shown
    } else {
        message.to_owned()
    }
}

/// Shortens `message` to at most `max_width` grapheme clusters, the last of
/// which is then an ellipsis.
pub fn truncate_message(message: &str, max_width: usize) -> (shown: String)
    requires
        max_width >= 2,
    ensures
        shown@ == truncated_text(message@, graphemes_of(message@), max_width as nat),
{
    let clusters = grapheme_clusters(message);
    truncate_clusters(message, &clusters, max_width)
}

/// Ten to the power `exponent`.
pub open spec fn pow10(exponent: nat) -> nat
    decreases exponent,
{
    if exponent == 0 {
        1
    } else {
        10 * pow10((exponent - 1) as nat)
    }
}

/// Calls `rand::rng().random_range(low..high)`. Trusted: the value lies in
/// the half-open range, as the crate documents for a range that is not
/// empty. Nothing is claimed of which value it is. The generator of the
/// thread is seeded by the operating system, and the call fails where that
/// has no randomness to give.
#[verifier::external_body]
fn random_in_range(low: u64, high: u64) -> (value: u64)
    requires
        low < high,
    ensures
        low <= value < high,
{
    rand::rng().random_range(low..high)
}

proof fn lemma_pow10_step(exponent: nat)
    ensures
        pow10(exponent + 1) == 10 * pow10(exponent),
        pow10(exponent) >= 1,
    decreases exponent,
{
    if exponent > 0 {
        lemma_pow10_step((exponent - 1) as nat);
    }
}

proof fn lemma_pow10_monotonic(low: nat, high: nat)
    requires
        low <= high,
    ensures
        pow10(low) <= pow10(high),
    decreases high,
{
    if low < high {
        lemma_pow10_monotonic(low, (high - 1) as nat);
        lemma_pow10_step((high - 1) as nat);
    }
}

proof fn lemma_pow10_nineteen()
    ensures
        pow10(19) == 10_000_000_000_000_000_000,
{
    reveal_with_fuel(pow10, 20);
}

/// Ten to the power `exponent`, for an exponent whose power fits.
pub fn power_of_ten(exponent: u32) -> (power: u64)
    requires
        exponent <= 19,
    ensures
        power == pow10(exponent as nat),
{
    let mut power: u64 = 1;
    let mut done: u32 = 0;
    while done < exponent
        invariant
            done <= exponent <= 19,
            power == pow10(done as nat),
        decreases exponent - done,
    {
        proof {
            lemma_pow10_step(done as nat);
            lemma_pow10_monotonic((done + 1) as nat, 19);
            lemma_pow10_nineteen();
        }
        power = power * 10;
        done = done + 1;
    }
    power
}

/// A random number with exactly `length` decimal digits.
pub fn generate_random_number(length: u32) -> (number: u64)
    requires
        0 < length <= 19,
    ensures
        pow10((length - 1) as nat) <= number < pow10(length as nat),
{
    let low = power_of_ten(length - 1);
    let high = power_of_ten(length);
    proof {
        lemma_pow10_step((length - 1) as nat);
    }
    random_in_range(low, high)
}

/// Where the first colon of `text` stands, if it has one.
pub open spec fn first_colon(text: Seq<char>) -> Option<int> {
    text.index_of_first(':')
}

/// Why a credential string was refused.
#[derive(Debug, Clone, Copy, PartialEq, Eq, Structural)]
pub enum BasicAuthError {
    /// There is no colon between a user name and a password.
    MissingColon,
    /// The user name or the password is empty.
    EmptyPart,
}

/// The verdict on a credential string: it must hold a colon, with something
/// before the first one and something after it.
pub open spec fn basic_auth_verdict(text: Seq<char>) -> Result<(), BasicAuthError> {
    match first_colon(text) {
        None => Err(BasicAuthError::MissingColon),
        Some(at) => if 0 < at && at + 1 < text.len() {
            Ok(())
        } else {
            Err(BasicAuthError::EmptyPart)
        },
    }
}

impl BasicAuthError {
    /// The message shown for this error.
    pub open spec fn message_text(self) -> Seq<char> {
        match self {
            BasicAuthError::MissingColon => "Invalid format: must be `username:password`"@,
            BasicAuthError::EmptyPart => "Invalid format: must be `username:password` with non-empty values"@,
        }
    }

    /// The message shown for this error.
    pub fn message(&self) -> (text: String)
        ensures
            text@ == self.message_text(),
    {
        match self {
            BasicAuthError::MissingColon => "Invalid format: must be `username:password`".to_owned(),
            BasicAuthError::EmptyPart => "Invalid format: must be `username:password` with non-empty values".to_owned(),
        }
    }
}

/// Checks that `val` has the shape `username:password`.
pub fn check_basic_auth(val: &str) -> (verdict: Result<(), BasicAuthError>)
    ensures
        verdict == basic_auth_verdict(val@),
{
    let chars = chars_of(val);
    let mut i: usize = 0;
    while i < chars.len()
        invariant
            i <= chars.len(),
            chars@ == val@,
            forall|j: int| 0 <= j < i ==> chars@[j] != ':',
        decreases chars.len() - i,
    {
        if chars[i] == ':' {
            proof {
                val@.index_of_first_ensures(':');
                assert(val@.contains(':'));
                assert(first_colon(val@) == Some(i as int));
            }
            if 0 < i && i + 1 < chars.len() {
                return Ok(());
            } else {
                return Err(BasicAuthError::EmptyPart);
            }
        }
        i = i + 1;
    }
    proof {
        val@.index_of_first_ensures(':');
    }
    Err(BasicAuthError::MissingColon)
}

/// Accepts `val` as `username:password` credentials and hands it back, or
/// says in words what is wrong with it.
pub fn validate_basic_auth(val: &str) -> (checked: Result<String, String>)
    ensures
        basic_auth_verdict(val@) is Ok ==> checked is Ok && checked->Ok_0@ == val@,
        basic_auth_verdict(val@) matches Err(e) ==> checked is Err && checked->Err_0@
            == e.message_text(),
{
    match check_basic_auth(val) {
        Ok(()) => Ok(val.to_owned()),
        Err(e) => Err(e.message()),
    }
}

/// The quotient of two naturals rounded to the nearest integer, a tie going
/// to the even neighbour.
pub open spec fn round_half_even(numerator: nat, denominator: nat) -> nat
    recommends
        denominator > 0,
{
    let quotient = numerator / denominator;
    let rest = numerator % denominator;
    if 2 * rest > denominator || (2 * rest == denominator && quotient % 2 == 1) {
        quotient + 1
    } else {
        quotient
    }
}

/// Divides and rounds to the nearest integer, a tie going to the even
/// neighbour.
pub fn rounded_quotient(numerator: u128, denominator: u128) -> (rounded: u128)
    requires
        denominator > 0,
    ensures
        rounded == round_half_even(numerator as nat, denominator as nat),
{
    let quotient = numerator / denominator;
    let rest = numerator % denominator;
    if rest > denominator - rest || (rest == denominator - rest && quotient % 2 == 1) {
        assert(quotient < u128::MAX) by (nonlinear_arith)
            requires
                denominator >= 2,
                quotient == numerator / denominator,
                numerator <= u128::MAX,
        {
        }
        quotient + 1
    } else {
        quotient
    }
}

/// A size in kilobytes with two decimals, rounded half to even.
pub open spec fn kb_text(bytes: nat) -> Seq<char> {
    let hundredths = round_half_even(bytes * 100, 1024);
    decimal_digits(hundredths / 100) + seq!['.'] + two_digits(hundredths % 100) + seq!['k', 'b']
}

/// Formats a size in bytes as kilobytes with two decimals.
pub fn kb(bytes: usize) -> (shown: String)
    ensures
        shown@ == kb_text(bytes as nat),
{
    let hundredths = rounded_quotient(bytes as u128 * 100, 1024);
    let mut shown = String::new();
    push_decimal(&mut shown, hundredths / 100);
    proof {
        reveal_strlit(".");
        reveal_strlit("kb");
    }
    shown.append(".");
    push_two_digits(&mut shown, (hundredths % 100) as u8);
    shown.append("kb");
    assert(shown@ =~= kb_text(bytes as nat));
    shown
}

/// A share of a total as a whole percentage, rounded half to even; zero
/// where the total is zero.
pub open spec fn percent_text(count: nat, total: nat) -> Seq<char> {
    if total == 0 {
        seq!['0', '%']
    } else {
        decimal_digits(round_half_even(count * 100, total)) + seq!['%']
    }
}

/// Formats `count` out of `total` as a whole percentage.
pub fn percent(count: usize, total: usize) -> (shown: String)
    ensures
        shown@ == percent_text(count as nat, total as nat),
{
    let mut shown = String::new();
    proof {
        reveal_strlit("%");
        reveal_strlit("0");
    }
    if total == 0 {
        shown.append("0");
    } else {
        push_decimal(&mut shown, rounded_quotient(count as u128 * 100, total as u128));
    }
    shown.append("%");
    assert(shown@ =~= percent_text(count as nat, total as nat));
    shown
}

/// A time span given in nanoseconds, as whole milliseconds with two
/// decimals that are always zero.
pub open spec fn ms_text(nanos: nat) -> Seq<char> {
    decimal_digits(nanos / 1_000_000) + seq!['.', '0', '0', 'm', 's']
}

/// Formats a time span given in nanoseconds as milliseconds.
pub fn ms(nanos: u64) -> (shown: String)
    ensures
        shown@ == ms_text(nanos as nat),
{
    let mut shown = String::new();
    push_decimal(&mut shown, (nanos / 1_000_000) as u128);
    proof {
        reveal_strlit(".00ms");
    }
    shown.append(".00ms");
    assert(shown@ =~= ms_text(nanos as nat));
    shown
}

} // verus!
