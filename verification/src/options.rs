//! Run options: their default values and the parsing of a rate limit.

use crate::text::{chars_of, digit_value};
use vstd::prelude::*;

verus! {

/// Default number of requests that may be in flight at once.
pub const DEFAULT_CONCURRENCY: u8 = 4;

/// Default timeout of one request, in seconds.
pub const DEFAULT_TIMEOUT: u64 = 10;

/// Default number of slow documents that a report lists.
pub const DEFAULT_SLOW_NUM: u32 = 100;

/// Whether every character of `text` is a decimal digit.
pub open spec fn all_digits(text: Seq<char>) -> bool {
    forall|i: int| 0 <= i < text.len() ==> (#[trigger] digit_value(text[i])) is Some
}

/// The number that a sequence of decimal digits writes; zero for none.
pub open spec fn digits_value(text: Seq<char>) -> nat
    decreases text.len(),
{
    if text.len() == 0 {
        0
    } else {
        digits_value(text.drop_last()) * 10 + match digit_value(text.last()) {
            Some(d) => d,
            None => 0,
        }
    }
}

/// The digits of an unsigned numeral: the text without one leading plus sign.
pub open spec fn unsigned_digits(text: Seq<char>) -> Seq<char> {
    if text.len() > 0 && text[0] == '+' {
        text.drop_first()
    } else {
        text
    }
}

/// The value of an unsigned decimal numeral that does not exceed `limit`:
/// an optional plus sign, then one digit or more, and nothing else.
pub open spec fn number_of(text: Seq<char>, limit: nat) -> Option<nat> {
    let digits = unsigned_digits(text);
    if digits.len() > 0 && all_digits(digits) && digits_value(digits) <= limit {
        Some(digits_value(digits))
    } else {
        None
    }
}

proof fn lemma_digits_value_prefix(text: Seq<char>, k: int)
    requires
        0 <= k <= text.len(),
    ensures
        digits_value(text.take(k)) <= digits_value(text),
    decreases text.len(),
{
    if k == text.len() {
        assert(text.take(k) =~= text);
    } else {
        lemma_digits_value_prefix(text.drop_last(), k);
        assert(text.drop_last().take(k) =~= text.take(k));
    }
}

/// The value of the decimal digit `c`, if it is one.
pub fn digit_of(c: char) -> (d: Option<u8>)
    ensures
        match d {
            Some(v) => digit_value(c) == Some(v as nat),
            None => digit_value(c) is None,
        },
{
    if c == '0' {
        Some(0)
    } else if c == '1' {
        Some(1)
    } else if c == '2' {
        Some(2)
    } else if c == '3' {
        Some(3)
    } else if c == '4' {
        Some(4)
    } else if c == '5' {
        Some(5)
    } else if c == '6' {
        Some(6)
    } else if c == '7' {
        Some(7)
    } else if c == '8' {
        Some(8)
    } else if c == '9' {
        Some(9)
    } else {
        None
    }
}

/// Reads `chars[from..to]` as an unsigned decimal numeral of at most `limit`.
pub fn parse_number(chars: &Vec<char>, from: usize, to: usize, limit: u64) -> (value: Option<u64>)
    requires
        from <= to <= chars.len(),
    ensures
        match value {
            Some(v) => number_of(chars@.subrange(from as int, to as int), limit as nat) == Some(
                v as nat,
            ),
            None => number_of(chars@.subrange(from as int, to as int), limit as nat) is None,
        },
{
    let ghost text = chars@.subrange(from as int, to as int);
    let start = if from < to && chars[from] == '+' {
        from + 1
    } else {
        from
    };
    let ghost digits = unsigned_digits(text);
    proof {
        assert(digits =~= chars@.subrange(start as int, to as int));
    }
    if start == to {
        return None;
    }
    let mut value: u64 = 0;
    let mut i: usize = start;
    proof {
        assert(digits.take(0) =~= Seq::<char>::empty());
    }
    while i < to
        invariant
            start <= i <= to <= chars.len(),
            start < to,
            text == chars@.subrange(from as int, to as int),
            digits == unsigned_digits(text),
            digits == chars@.subrange(start as int, to as int),
            all_digits(digits.take(i - start)),
            value == digits_value(digits.take(i - start)),
            value <= limit,
        decreases to - i,
    {
        let ghost prefix = digits.take(i - start);
        let ghost longer = digits.take(i + 1 - start);
        proof {
            assert(longer.drop_last() =~= prefix);
            assert(longer.last() == chars@[i as int]);
        }
        match digit_of(chars[i]) {
            None => {
                proof {
                    assert(digit_value(digits[i - start]) is None);
                }
                return None;
            },
            Some(d) => {
                if d as u64 > limit || value > (limit - d as u64) / 10 {
                    proof {
                        assert(digits_value(longer) > limit) by (nonlinear_arith)
                            requires
                                digits_value(longer) == value * 10 + d,
                                d > limit || value > (limit - d) / 10,
                                0 <= d < 10,
                        {
                        }
                        lemma_digits_value_prefix(digits, i + 1 - start);
                    }
                    return None;
                }
                assert(value * 10 + d <= limit) by (nonlinear_arith)
                    requires
                        value <= (limit - d) / 10,
                        d <= limit,
                {
                }
                value = value * 10 + d as u64;
                proof {
                    assert forall|j: int| 0 <= j < longer.len() implies (#[trigger] digit_value(
                        longer[j],
                    )) is Some by {
                        if j < prefix.len() {
                            assert(longer[j] == prefix[j]);
                        }
                    }
                }
            },
        }
        i = i + 1;
    }
    proof {
        assert(digits.take(to - start) =~= digits);
    }
    Some(value)
}

/// Why a rate limit was refused.
#[derive(Debug, Clone, Copy, PartialEq, Eq, Structural)]
pub enum RateLimitError {
    /// The text does not hold exactly one slash.
    Format,
    /// What stands before the slash is no request count.
    RequestCount,
    /// Nothing follows the slash.
    EmptyTime,
    /// The last character is none of `s`, `m`, `h`.
    Unit,
    /// What stands between the slash and the unit is no number.
    TimeValue,
    /// The time value is zero.
    ZeroTime,
    /// The rate comes to less than one request per minute.
    BelowOnePerMinute,
}

/// How many seconds one unit of time lasts: `s`, `m` or `h`.
pub open spec fn unit_seconds(unit: char) -> Option<nat> {
    if unit == 's' {
        Some(1)
    } else if unit == 'm' {
        Some(60)
    } else if unit == 'h' {
        Some(3600)
    } else {
        None
    }
}

/// The rate in requests per minute of `requests` requests in
/// `duration_secs` seconds, rounded down and capped at what `u32` holds.
pub open spec fn requests_per_minute(requests: nat, duration_secs: nat) -> nat
    recommends
        duration_secs > 0,
{
    let rate = requests * 60 / duration_secs;
    if rate > u32::MAX {
        u32::MAX as nat
    } else {
        rate
    }
}

/// What a rate limit of the form `requests/time[unit]` means, in requests
/// per minute, or why it is refused.
pub open spec fn rate_limit_of(text: Seq<char>) -> Result<u32, RateLimitError> {
    match text.index_of_first('/') {
        None => Err(RateLimitError::Format),
        Some(slash) => {
            let count_text = text.take(slash);
            let time_text = text.skip(slash + 1);
            if time_text.contains('/') {
                Err(RateLimitError::Format)
            } else {
                match number_of(count_text, u32::MAX as nat) {
                    None => Err(RateLimitError::RequestCount),
                    Some(requests) => if time_text.len() == 0 {
                        Err(RateLimitError::EmptyTime)
                    } else {
                        match unit_seconds(time_text.last()) {
                            None => Err(RateLimitError::Unit),
                            Some(unit) => match number_of(
                                time_text.drop_last(),
                                u64::MAX as nat,
                            ) {
                                None => Err(RateLimitError::TimeValue),
                                Some(time_value) => if time_value == 0 {
                                    Err(RateLimitError::ZeroTime)
                                } else if requests_per_minute(requests, time_value * unit) == 0 {
                                    Err(RateLimitError::BelowOnePerMinute)
                                } else {
                                    Ok(requests_per_minute(requests, time_value * unit) as u32)
                                },
                            },
                        }
                    },
                }
            }
        },
    }
}

impl RateLimitError {
    /// The message shown for this error.
    pub open spec fn message_text(self) -> Seq<char> {
        match self {
            RateLimitError::Format => "Rate limit must be in the format 'requests/time[unit]'"@,
            RateLimitError::RequestCount => "Invalid request count"@,
            RateLimitError::EmptyTime => "Time value cannot be empty"@,
            RateLimitError::Unit => "Time unit must be 's', 'm', or 'h'."@,
            RateLimitError::TimeValue => "Invalid time value"@,
            RateLimitError::ZeroTime => "Time value must be greater than 0"@,
            RateLimitError::BelowOnePerMinute => "Ensure the calculated rate is ≥ 1 per minute."@,
        }
    }

    /// The message shown for this error.
    pub fn message(&self) -> (text: String)
        ensures
            text@ == self.message_text(),
    {
        match self {
            RateLimitError::Format => "Rate limit must be in the format 'requests/time[unit]'".to_owned(),
            RateLimitError::RequestCount => "Invalid request count".to_owned(),
            RateLimitError::EmptyTime => "Time value cannot be empty".to_owned(),
            RateLimitError::Unit => "Time unit must be 's', 'm', or 'h'.".to_owned(),
            RateLimitError::TimeValue => "Invalid time value".to_owned(),
            RateLimitError::ZeroTime => "Time value must be greater than 0".to_owned(),
            RateLimitError::BelowOnePerMinute => "Ensure the calculated rate is ≥ 1 per minute.".to_owned(),
        }
    }
}

/// The index of the first `needle` in `chars[from..]`, if there is one.
pub fn find_char(chars: &Vec<char>, from: usize, needle: char) -> (found: Option<usize>)
    requires
        from <= chars.len(),
    ensures
        match found {
            Some(at) => chars@.skip(from as int).index_of_first(needle) == Some(at - from),
            None => !chars@.skip(from as int).contains(needle),
        },
{
    let ghost rest = chars@.skip(from as int);
    let mut i: usize = from;
    while i < chars.len()
        invariant
            from <= i <= chars.len(),
            rest == chars@.skip(from as int),
            forall|j: int| 0 <= j < i - from ==> rest[j] != needle,
        decreases chars.len() - i,
    {
        if chars[i] == needle {
            proof {
                rest.index_of_first_ensures(needle);
                assert(rest[i - from] == needle);
            }
            return Some(i);
        }
        i = i + 1;
    }
    None
}

/// Reads a rate limit of the form `requests/time[unit]`, where the unit is
/// `s`, `m` or `h`, as requests per minute.
pub fn parse_rate(value: &str) -> (rate: Result<u32, RateLimitError>)
    ensures
        rate == rate_limit_of(value@),
{
    let chars = chars_of(value);
    proof {
        assert(chars@.skip(0) =~= chars@);
        chars@.index_of_first_ensures('/');
    }
    let slash = match find_char(&chars, 0, '/') {
        None => {
            return Err(RateLimitError::Format);
        },
        Some(at) => at,
    };
    let ghost count_text = chars@.take(slash as int);
    let ghost time_text = chars@.skip(slash + 1);
    if find_char(&chars, slash + 1, '/').is_some() {
        proof {
            time_text.index_of_first_ensures('/');
        }
        return Err(RateLimitError::Format);
    }
    proof {
        assert(chars@.subrange(0, slash as int) =~= count_text);
    }
    let requests = match parse_number(&chars, 0, slash, u32::MAX as u64) {
        None => {
            return Err(RateLimitError::RequestCount);
        },
        Some(n) => n,
    };
    let end = chars.len();
    if slash + 1 == end {
        return Err(RateLimitError::EmptyTime);
    }
    let unit_char = chars[end - 1];
    proof {
        assert(time_text.last() == unit_char);
        assert(chars@.subrange(slash + 1, end - 1) =~= time_text.drop_last());
    }
    let unit: u128 = if unit_char == 's' {
        1
    } else if unit_char == 'm' {
        60
    } else if unit_char == 'h' {
        3600
    } else {
        return Err(RateLimitError::Unit);
    };
    let time_value = match parse_number(&chars, slash + 1, end - 1, u64::MAX) {
        None => {
            return Err(RateLimitError::TimeValue);
        },
        Some(n) => n,
    };
    if time_value == 0 {
        return Err(RateLimitError::ZeroTime);
    }
    assert(time_value as u128 * unit <= u128::MAX) by (nonlinear_arith)
        requires
            time_value <= u64::MAX,
            unit <= 3600,
    {
    }
    let duration: u128 = time_value as u128 * unit;
    let rate: u128 = (requests as u128 * 60) / duration;
    if rate == 0 {
        Err(RateLimitError::BelowOnePerMinute)
    } else if rate > u32::MAX as u128 {
        Ok(u32::MAX)
    } else {
        Ok(rate as u32)
    }
}

/// Reads a rate limit as `parse_rate` does, with the refusal put in words.
pub fn parse_rate_limit(value: &str) -> (rate: Result<u32, String>)
    ensures
        rate_limit_of(value@) matches Ok(n) ==> rate == Ok::<u32, String>(n),
        rate_limit_of(value@) matches Err(e) ==> rate is Err && rate->Err_0@ == e.message_text(),
{
    match parse_rate(value) {
        Ok(n) => Ok(n),
        Err(e) => Err(e.message()),
    }
}

/// The most requests that may be in flight at once.
pub const MAX_CONCURRENCY: u8 = 100;

/// The most retries that a request may have.
pub const MAX_RETRIES: u8 = 10;

/// The settings of one run.
#[derive(Debug)]
pub struct RunConfig {
    /// How many fetches may be in flight at once: 1 to 100.
    pub concurrency_limit: u8,
    /// The most requests per minute, if there is a limit: at least 1.
    pub rate_limit: Option<u32>,
    /// The timeout of one attempt in seconds: at least 1.
    pub request_timeout: u64,
    /// How often a failed fetch is tried again: 0 to 10.
    pub retries: u8,
    /// The `User-Agent` header.
    pub user_agent: String,
    /// Credentials of the form `username:password`, if any.
    pub basic_auth: Option<String>,
    /// Whether a random query parameter is appended to each URL.
    pub append_timestamp: bool,
    /// Whether redirects are followed.
    pub follow_redirects: bool,
}

/// The setting that is out of its range.
#[derive(Debug, Clone, Copy, PartialEq, Eq, Structural)]
pub enum ConfigError {
    /// The concurrency limit is not from 1 to 100.
    ConcurrencyLimit,
    /// The rate limit is zero.
    RateLimit,
    /// The timeout is zero.
    RequestTimeout,
    /// There are more than 10 retries.
    Retries,
}

impl RunConfig {
    /// The first setting that is out of its range, in the order of
    /// `ConfigError`, if any is.
    pub open spec fn verdict(&self) -> Result<(), ConfigError> {
        if !(1 <= self.concurrency_limit <= MAX_CONCURRENCY) {
            Err(ConfigError::ConcurrencyLimit)
        } else if self.rate_limit == Some(0u32) {
            Err(ConfigError::RateLimit)
        } else if self.request_timeout == 0 {
            Err(ConfigError::RequestTimeout)
        } else if self.retries > MAX_RETRIES {
            Err(ConfigError::Retries)
        } else {
            Ok(())
        }
    }

    /// Every setting is in its range.
    pub open spec fn valid(&self) -> bool {
        self.verdict() is Ok
    }

    /// Checks that every setting is in its range.
    pub fn check(&self) -> (verdict: Result<(), ConfigError>)
        ensures
            verdict == self.verdict(),
    {
        if self.concurrency_limit < 1 || self.concurrency_limit > MAX_CONCURRENCY {
            return Err(ConfigError::ConcurrencyLimit);
        }
        match self.rate_limit {
            Some(rate) => {
                if rate == 0 {
                    return Err(ConfigError::RateLimit);
                }
            },
            None => {},
        }
        if self.request_timeout == 0 {
            Err(ConfigError::RequestTimeout)
        } else if self.retries > MAX_RETRIES {
            Err(ConfigError::Retries)
        } else {
            Ok(())
        }
    }
}

} // verus!
