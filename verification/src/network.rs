//! What goes to the server with a request, and what one attempt to fetch a
//! URL comes to.

use crate::report::Response;
use crate::status::{error, is_error, is_server_error, server_error, BAD_GATEWAY, BAD_REQUEST, REQUEST_TIMEOUT};
use crate::text::{decimal_digits, push_decimal};
use crate::utils::{generate_random_number, pow10};
use base64::Engine;
use vstd::prelude::*;
use vstd::utf8::encode_utf8;

verus! {

/// The standard base64 form of `input`, with padding.
pub uninterp spec fn base64_standard(input: Seq<u8>) -> Seq<char>;

/// Whether the base64 form of an input of `length` bytes has a length that
/// `usize` holds.
pub open spec fn base64_fits(length: nat) -> bool {
    length / 3 * 4 + 4 <= usize::MAX
}

/// Calls `Engine::encode` of `base64::engine::general_purpose::STANDARD`.
/// Trusted: the text is the standard base64 form of the input.
#[verifier::external_body]
fn base64_encode(input: &[u8]) -> (encoded: String)
    requires
        base64_fits(input@.len()),
    ensures
        encoded@ == base64_standard(input@),
{
    base64::engine::general_purpose::STANDARD.encode(input)
}

/// The value of an `Authorization` header for credentials in base64 form.
pub fn authorization_value(encoded: &str) -> (value: String)
    ensures
        value@ == "Basic "@ + encoded@,
{
    let mut value = "Basic ".to_owned();
    value.append(encoded);
    value
}

/// The value of the `Authorization` header for the credentials `auth`:
/// none for empty credentials, nor for credentials too long to encode.
pub fn basic_auth_header(auth: &str) -> (value: Option<String>)
    ensures
        auth@.len() == 0 || !base64_fits(encode_utf8(auth@).len()) ==> value is None,
        auth@.len() > 0 && base64_fits(encode_utf8(auth@).len()) ==> value is Some
            && value->Some_0@ == "Basic "@ + base64_standard(encode_utf8(auth@)),
{
    if auth.is_empty() {
        return None;
    }
    let bytes = auth.as_bytes();
    if bytes.len() / 3 > (usize::MAX - 4) / 4 {
        return None;
    }
    let encoded = base64_encode(bytes);
    Some(authorization_value(encoded.as_str()))
}

/// `url` with the query parameter `ts` of value `stamp` behind it.
pub open spec fn stamped(url: Seq<char>, stamp: nat) -> Seq<char> {
    url + "?ts="@ + decimal_digits(stamp)
}

/// Appends `?ts=` and `stamp` to `url`.
pub fn with_timestamp(url: &str, stamp: u64) -> (busted: String)
    ensures
        busted@ == stamped(url@, stamp as nat),
{
    let mut busted = url.to_owned();
    busted.append("?ts=");
    push_decimal(&mut busted, stamp as u128);
    busted
}

/// Appends `?ts=` and a random number of ten digits to `url`, so that no
/// cache answers in place of the server.
pub fn cache_busted(url: &str) -> (busted: String)
    ensures
        is_cache_busted(url@, busted@),
{
    let stamp = generate_random_number(10);
    let busted = with_timestamp(url, stamp);
    proof {
        assert(busted@ == stamped(url@, stamp as nat));
    }
    busted
}

/// The body of a fetched sitemap, unless the status is a client or server
/// error.
pub fn sitemap_body(status: u16, body: String) -> (content: Option<String>)
    ensures
        error(status) ==> content is None,
        !error(status) ==> content == Some(body),
{
    if is_error(status) {
        None
    } else {
        Some(body)
    }
}

/// What one attempt to fetch a URL came to.
#[derive(Debug, PartialEq, Eq)]
pub enum Attempt {
    /// The server answered.
    Answered {
        /// The status of the answer.
        status: u16,
        /// The URL that answered, after redirects.
        url: String,
        /// The length of the body, in bytes.
        body_size: usize,
    },
    /// No answer came within the timeout.
    TimedOut,
    /// No connection could be made.
    ConnectFailed,
    /// The request could not be built or sent.
    RequestFailed,
    /// Anything else went wrong.
    Broken,
}

impl Attempt {
    /// The status that the attempt is recorded with: that of the answer, or
    /// the one that stands for the transport failure; none for an attempt
    /// that broke otherwise.
    pub open spec fn status_of(self) -> Option<u16> {
        match self {
            Attempt::Answered { status, .. } => Some(status),
            Attempt::TimedOut => Some(REQUEST_TIMEOUT),
            Attempt::ConnectFailed => Some(BAD_GATEWAY),
            Attempt::RequestFailed => Some(BAD_REQUEST),
            Attempt::Broken => None,
        }
    }

    /// Whether the server did not answer.
    pub open spec fn transport_failure(self) -> bool {
        self is TimedOut || self is ConnectFailed || self is RequestFailed
    }

    /// Whether another attempt may follow this one: after a server error and
    /// after a transport failure, not after any other answer.
    pub open spec fn retryable(self) -> bool {
        (self is Answered && server_error(self->status)) || self.transport_failure()
    }

    /// Whether `outcome` records this attempt at `requested`, which took
    /// `elapsed_ns`: an answer with its own URL and size, a transport
    /// failure with the URL asked for and no body, anything else not at all.
    pub open spec fn recorded_as(
        self,
        requested: Seq<char>,
        elapsed_ns: u64,
        outcome: Option<Response>,
    ) -> bool {
        match self {
            Attempt::Answered { status, url, body_size } => outcome == Some(
                Response {
                    url,
                    response_time_ns: elapsed_ns,
                    response_size: body_size,
                    status_code: status,
                },
            ),
            Attempt::Broken => outcome is None,
            _ => {
                &&& outcome is Some
                &&& outcome->Some_0.url@ == requested
                &&& outcome->Some_0.response_time_ns == elapsed_ns
                &&& outcome->Some_0.response_size == 0
                &&& Some(outcome->Some_0.status_code) == self.status_of()
            },
        }
    }

    /// Whether another attempt may follow this one.
    pub fn is_retryable(&self) -> (yes: bool)
        ensures
            yes == self.retryable(),
    {
        match self {
            Attempt::Answered { status, .. } => is_server_error(*status),
            Attempt::TimedOut => true,
            Attempt::ConnectFailed => true,
            Attempt::RequestFailed => true,
            Attempt::Broken => false,
        }
    }

    /// The outcome that records this attempt at `requested`, which took
    /// `elapsed_ns`.
    pub fn outcome(&self, requested: &str, elapsed_ns: u64) -> (outcome: Option<Response>)
        ensures
            self.recorded_as(requested@, elapsed_ns, outcome),
            outcome is Some && (self is Answered ==> 100 <= self->status <= 599)
                ==> outcome->Some_0.well_formed(),
    {
        let status = match self {
            Attempt::Answered { status, url, body_size } => {
                return Some(
                    Response {
                        url: url.clone(),
                        response_time_ns: elapsed_ns,
                        response_size: *body_size,
                        status_code: *status,
                    },
                );
            },
            Attempt::TimedOut => REQUEST_TIMEOUT,
            Attempt::ConnectFailed => BAD_GATEWAY,
            Attempt::RequestFailed => BAD_REQUEST,
            Attempt::Broken => {
                return None;
            },
        };
        Some(
            Response {
                url: requested.to_owned(),
                response_time_ns: elapsed_ns,
                response_size: 0,
                status_code: status,
            },
        )
    }
}

/// Whether `busted` is `url` with a time stamp of ten digits behind it.
pub open spec fn is_cache_busted(url: Seq<char>, busted: Seq<char>) -> bool {
    exists|stamp: nat| pow10(9) <= stamp < pow10(10) && busted == #[trigger] stamped(url, stamp)
}

/// The URLs that the requests of a run go to: the URLs given, each with a
/// time stamp of its own behind it where caches are to be passed by.
pub fn request_urls(urls: Vec<String>, append_timestamp: bool) -> (prepared: Vec<String>)
    ensures
        prepared@.len() == urls@.len(),
        !append_timestamp ==> prepared == urls,
        append_timestamp ==> forall|i: int|
            0 <= i < urls@.len() ==> is_cache_busted(urls@[i]@, #[trigger] prepared@[i]@),
{
    if !append_timestamp {
        return urls;
    }
    let mut prepared: Vec<String> = Vec::new();
    let mut i: usize = 0;
    while i < urls.len()
        invariant
            i <= urls.len(),
            prepared@.len() == i,
            forall|k: int| 0 <= k < i ==> is_cache_busted(urls@[k]@, #[trigger] prepared@[k]@),
        decreases urls.len() - i,
    {
        let busted = cache_busted(urls[i].as_str());
        prepared.push(busted);
        i = i + 1;
    }
    prepared
}

/// A transport failure is recorded with a status that counts as an error,
/// and it can be retried.
pub proof fn lemma_transport_failures_are_errors(attempt: Attempt)
    requires
        attempt.transport_failure(),
    ensures
        attempt.status_of() is Some,
        error(attempt.status_of()->Some_0),
        attempt.retryable(),
{
}

} // verus!
