//! The outcome of each fetch, the report of a run, and the listings and
//! exit status derived from it.

use crate::order::{
    lemma_bytes_total, lemma_bytes_transitive, ranked, sort_ranked, text_at_most, text_le, Ranking,
};
use crate::status::{error, is_error};
use std::collections::VecDeque;
use vstd::prelude::*;
use vstd::utf8::encode_utf8;

verus! {

/// The outcome of probing one URL, once no further attempt follows.
#[derive(Debug, PartialEq, Eq)]
pub struct Response {
    /// The URL that answered: the one asked for, or where redirects led.
    pub url: String,
    /// How long the last attempt took, in nanoseconds.
    pub response_time_ns: u64,
    /// The length of the body in bytes; zero for a fetch that failed.
    pub response_size: usize,
    /// The HTTP status, or the one that stands for a transport failure.
    pub status_code: u16,
}

impl Clone for Response {
    fn clone(&self) -> (copy: Self)
        ensures
            copy == *self,
    {
        Response {
            url: self.url.clone(),
            response_time_ns: self.response_time_ns,
            response_size: self.response_size,
            status_code: self.status_code,
        }
    }
}

impl Response {
    /// The status is one that a server sends, or one that stands for a
    /// transport failure: 100 to 599.
    pub open spec fn well_formed(&self) -> bool {
        100 <= self.status_code <= 599
    }

    /// The response time in whole milliseconds.
    pub fn millis(&self) -> (ms: u64)
        ensures
            ms == self.response_time_ns / 1_000_000,
    {
        self.response_time_ns / 1_000_000
    }
}

/// What one run found.
#[derive(Debug)]
pub struct Report {
    /// The sitemap that named the pages.
    pub sitemap_url: String,
    /// How many fetches could be in flight at once.
    pub concurrency_limit: u8,
    /// The rate limit in requests per minute, if one was set.
    pub rate_limit: Option<u32>,
    /// How long the whole run took, in nanoseconds.
    pub total_time_ns: u64,
    /// The outcomes, in the order in which the fetches finished.
    pub responses: VecDeque<Response>,
}

/// How a run ended, for the process exit code.
#[derive(Debug, Clone, Copy, PartialEq, Eq, Structural)]
pub enum ExitStatus {
    /// No error and nothing slow.
    Success,
    /// Some outcome is a client or server error.
    Error,
    /// No error, but some outcome took longer than the threshold.
    Slow,
}

/// Errors: by status, highest first; among equal statuses by URL, ascending.
pub struct ErrorsFirst;

impl Ranking<Response> for ErrorsFirst {
    open spec fn before(a: &Response, b: &Response) -> bool {
        a.status_code > b.status_code || (a.status_code == b.status_code && text_at_most(
            a.url@,
            b.url@,
        ))
    }

    proof fn lemma_total(a: &Response, b: &Response) {
        lemma_bytes_total(encode_utf8(a.url@), encode_utf8(b.url@));
    }

    proof fn lemma_transitive(a: &Response, b: &Response, c: &Response) {
        if a.status_code == b.status_code && b.status_code == c.status_code {
            lemma_bytes_transitive(encode_utf8(a.url@), encode_utf8(b.url@), encode_utf8(c.url@));
        }
    }

    fn stands_before(a: &Response, b: &Response) -> (r: bool) {
        a.status_code > b.status_code || (a.status_code == b.status_code && text_le(
            a.url.as_str(),
            b.url.as_str(),
        ))
    }
}

/// By response time, longest first.
pub struct SlowestFirst;

impl Ranking<Response> for SlowestFirst {
    open spec fn before(a: &Response, b: &Response) -> bool {
        a.response_time_ns >= b.response_time_ns
    }

    proof fn lemma_total(a: &Response, b: &Response) {
    }

    proof fn lemma_transitive(a: &Response, b: &Response, c: &Response) {
    }

    fn stands_before(a: &Response, b: &Response) -> (r: bool) {
        a.response_time_ns >= b.response_time_ns
    }
}

/// The outcomes that are client or server errors, in their order.
pub open spec fn errors_of(responses: Seq<Response>) -> Seq<Response> {
    responses.filter(|r: Response| error(r.status_code))
}

/// The outcomes that took at least `threshold_ns`, in their order.
pub open spec fn slow_of(responses: Seq<Response>, threshold_ns: u64) -> Seq<Response> {
    responses.filter(|r: Response| r.response_time_ns >= threshold_ns)
}

/// Whether some outcome is a client or server error.
pub open spec fn any_error(responses: Seq<Response>) -> bool {
    exists|i: int| 0 <= i < responses.len() && error(#[trigger] responses[i].status_code)
}

/// Whether some outcome took longer than `threshold_ns`.
pub open spec fn any_slower(responses: Seq<Response>, threshold_ns: u64) -> bool {
    exists|i: int| 0 <= i < responses.len() && (#[trigger] responses[i]).response_time_ns > threshold_ns
}

/// The exit status of a run: an error outweighs slowness, and slowness
/// counts only where a threshold is set.
pub open spec fn exit_status_of(responses: Seq<Response>, slow_threshold: Option<u64>) -> ExitStatus {
    if any_error(responses) {
        ExitStatus::Error
    } else if slow_threshold is Some && any_slower(responses, slow_threshold->Some_0) {
        ExitStatus::Slow
    } else {
        ExitStatus::Success
    }
}

impl ExitStatus {
    /// The process exit code: 0 for `Success`, 1 for `Error`, 2 for `Slow`.
    pub open spec fn code_of(self) -> u8 {
        match self {
            ExitStatus::Success => 0,
            ExitStatus::Error => 1,
            ExitStatus::Slow => 2,
        }
    }

    /// The process exit code.
    pub fn code(&self) -> (code: u8)
        ensures
            code == self.code_of(),
    {
        match self {
            ExitStatus::Success => 0,
            ExitStatus::Error => 1,
            ExitStatus::Slow => 2,
        }
    }
}

impl Report {
    /// The outcomes that are client or server errors: by status, highest
    /// first, and among equal statuses by URL, ascending.
    pub fn error_responses(&self) -> (listed: Vec<Response>)
        ensures
            ranked::<Response, ErrorsFirst>(listed@),
            listed@.to_multiset() == errors_of(self.responses@).to_multiset(),
    {
        let ghost all = self.responses@;
        let mut picked: Vec<Response> = Vec::new();
        let mut i: usize = 0;
        proof {
            reveal(Seq::filter);
            assert(all.take(0) =~= Seq::<Response>::empty());
        }
        while i < self.responses.len()
            invariant
                i <= self.responses.len(),
                all == self.responses@,
                picked@ == errors_of(all.take(i as int)),
            decreases self.responses.len() - i,
        {
            proof {
                reveal(Seq::filter);
                assert(all.take(i + 1).drop_last() =~= all.take(i as int));
            }
            if is_error(self.responses[i].status_code) {
                picked.push(self.responses[i].clone());
            }
            i = i + 1;
        }
        proof {
            assert(all.take(i as int) =~= all);
        }
        sort_ranked::<Response, ErrorsFirst>(picked)
    }

    /// The outcomes that took at least `threshold_ns`, slowest first, and of
    /// those the first `limit`.
    pub fn slowest_responses(&self, threshold_ns: u64, limit: u32) -> (listed: Vec<Response>)
        ensures
            exists|full: Seq<Response>|
                {
                    &&& ranked::<Response, SlowestFirst>(full)
                    &&& full.to_multiset() == slow_of(self.responses@, threshold_ns).to_multiset()
                    &&& #[trigger] full.len() >= listed@.len()
                    &&& listed@ == full.take(listed@.len() as int)
                    &&& listed@.len() == if full.len() <= limit {
                        full.len()
                    } else {
                        limit as nat
                    }
                },
    {
        let ghost all = self.responses@;
        let mut picked: Vec<Response> = Vec::new();
        let mut i: usize = 0;
        proof {
            reveal(Seq::filter);
            assert(all.take(0) =~= Seq::<Response>::empty());
        }
        while i < self.responses.len()
            invariant
                i <= self.responses.len(),
                all == self.responses@,
                picked@ == slow_of(all.take(i as int), threshold_ns),
            decreases self.responses.len() - i,
        {
            proof {
                reveal(Seq::filter);
                assert(all.take(i + 1).drop_last() =~= all.take(i as int));
            }
            if self.responses[i].response_time_ns >= threshold_ns {
                picked.push(self.responses[i].clone());
            }
            i = i + 1;
        }
        proof {
            assert(all.take(i as int) =~= all);
        }
        let mut listed = sort_ranked::<Response, SlowestFirst>(picked);
        let ghost full = listed@;
        if listed.len() > limit as usize {
            listed.truncate(limit as usize);
        }
        proof {
            assert(listed@ =~= full.take(listed@.len() as int));
        }
        listed
    }

    /// How the run ended: `Error` if any outcome is a client or server
    /// error; else `Slow` if a threshold is set and some outcome took longer
    /// than it; else `Success`.
    pub fn exit_status(&self, slow_threshold: Option<u64>) -> (status: ExitStatus)
        ensures
            status == exit_status_of(self.responses@, slow_threshold),
    {
        let mut slow = false;
        let mut i: usize = 0;
        while i < self.responses.len()
            invariant
                i <= self.responses.len(),
                !any_error(self.responses@.take(i as int)),
                slow == (slow_threshold is Some && any_slower(
                    self.responses@.take(i as int),
                    slow_threshold->Some_0,
                )),
            decreases self.responses.len() - i,
        {
            let ghost before = self.responses@.take(i as int);
            let ghost after = self.responses@.take(i + 1);
            let response = &self.responses[i];
            if is_error(response.status_code) {
                proof {
                    assert(error(self.responses@[i as int].status_code));
                }
                return ExitStatus::Error;
            }
            proof {
                assert forall|k: int| 0 <= k < after.len() implies !error(
                    #[trigger] after[k].status_code,
                ) by {
                    if k < i {
                        assert(before[k] == after[k]);
                    }
                }
                if slow_threshold is Some {
                    let t = slow_threshold->Some_0;
                    if any_slower(before, t) {
                        let k = choose|k: int|
                            0 <= k < before.len() && (#[trigger] before[k]).response_time_ns > t;
                        assert(after[k] == before[k]);
                    }
                    if any_slower(after, t) && !any_slower(before, t) {
                        let k = choose|k: int|
                            0 <= k < after.len() && (#[trigger] after[k]).response_time_ns > t;
                        if k < i {
                            assert(before[k] == after[k]);
                        }
                        assert(k == i);
                    }
                    if response.response_time_ns > t {
                        assert(after[i as int].response_time_ns > t);
                    }
                }
            }
            match slow_threshold {
                Some(t) => {
                    if response.response_time_ns > t {
                        slow = true;
                    }
                },
                None => {},
            }
            i = i + 1;
        }
        proof {
            assert(self.responses@.take(i as int) =~= self.responses@);
        }
        if slow {
            ExitStatus::Slow
        } else {
            ExitStatus::Success
        }
    }

    /// The process exit code of the run: 1 for an error, else 2 for
    /// slowness, else 0.
    pub fn exit_code(&self, slow_threshold: Option<u64>) -> (code: u8)
        ensures
            code == exit_status_of(self.responses@, slow_threshold).code_of(),
    {
        self.exit_status(slow_threshold).code()
    }
}

/// An error outweighs slowness: a run with an outcome that is a client or
/// server error ends as `Error`, whatever the threshold and however slow
/// its outcomes.
pub proof fn lemma_error_outweighs_slowness(responses: Seq<Response>, slow_threshold: Option<u64>)
    requires
        any_error(responses),
    ensures
        exit_status_of(responses, slow_threshold) == ExitStatus::Error,
        exit_status_of(responses, slow_threshold).code_of() == 1,
{
}

/// Without a threshold nothing is slow: a run without errors ends as
/// `Success`.
pub proof fn lemma_no_threshold_no_slowness(responses: Seq<Response>)
    requires
        !any_error(responses),
    ensures
        exit_status_of(responses, None) == ExitStatus::Success,
{
}

} // verus!
