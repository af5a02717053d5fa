use siteprobe::fetch::TimedAttempt;
use siteprobe::gate::ConcurrencyGate;
use siteprobe::network::Attempt;
use siteprobe::options::{ConfigError, RunConfig};
use siteprobe::rate::{Admission, RateLimiter};
use siteprobe::report::Report;
use siteprobe::scheduler::{FollowUp, Scheduler, Step};
use std::collections::VecDeque;

fn config(concurrency_limit: u8, rate_limit: Option<u32>, retries: u8) -> RunConfig {
    RunConfig {
        concurrency_limit,
        rate_limit,
        request_timeout: 10,
        retries,
        user_agent: "test-agent".to_string(),
        basic_auth: None,
        append_timestamp: false,
        follow_redirects: false,
    }
}

fn answered(status: u16, url: &str) -> Attempt {
    Attempt::Answered { status, url: url.to_string(), body_size: 10 }
}

fn urls(count: usize) -> Vec<String> {
    (0..count).map(|i| format!("https://x/{}", i)).collect()
}

/// What a run of the scheduler against a scripted server came to.
struct Run {
    report: Report,
    /// How many requests went out for each unit.
    calls: Vec<usize>,
    /// The most requests that were under way at once.
    most_in_flight: usize,
    /// When each request went out.
    sent_at: Vec<u64>,
    /// When the run ended.
    ended_at: u64,
}

/// Runs a scheduler to its end. Every attempt takes `millis` milliseconds;
/// what it comes to is the next entry of the unit's script, or a 200.
fn run_scripted(count: usize, config: &RunConfig, script: Vec<Vec<Attempt>>, millis: u64) -> Run {
    let mut script: Vec<VecDeque<Attempt>> = script.into_iter().map(VecDeque::from).collect();
    script.resize_with(count, VecDeque::new);
    let mut scheduler = Scheduler::new(urls(count), config);
    let mut now: u64 = 0;
    // The requests under way: when each ends, and for which unit.
    let mut under_way: Vec<(u64, usize, String)> = Vec::new();
    let mut calls = vec![0usize; count];
    let mut most_in_flight = 0;
    let mut sent_at = Vec::new();
    let elapsed = millis * 1_000_000;
    let mut steps = 0;
    loop {
        steps += 1;
        assert!(steps < 1_000_000, "the run does not end");
        let step = scheduler.next_step(now);
        let wake = match step {
            Step::Send { unit, url } => {
                assert_eq!(url, format!("https://x/{}", unit));
                calls[unit] += 1;
                sent_at.push(now);
                under_way.push((now + elapsed, unit, url));
                most_in_flight = most_in_flight.max(under_way.len());
                continue;
            }
            Step::Sleep { nanos } => {
                assert!(nanos > 0);
                Some(now + nanos)
            }
            Step::Wait => {
                assert!(!under_way.is_empty());
                None
            }
            Step::Finished => {
                assert!(under_way.is_empty());
                break;
            }
        };
        // Go on to whatever comes first: the end of an attempt or of the sleep.
        under_way.sort();
        let first_end = under_way.first().map(|(at, _, _)| *at);
        match (first_end, wake) {
            (Some(at), Some(wake)) if wake < at => now = wake,
            (Some(at), _) => {
                now = now.max(at);
                let (_, unit, url) = under_way.remove(0);
                let attempt = script[unit].pop_front().unwrap_or(answered(200, &url));
                match scheduler.attempt_ended(unit, attempt, elapsed) {
                    FollowUp::Resend { unit: again, url } => {
                        assert_eq!(again, unit);
                        calls[unit] += 1;
                        sent_at.push(now);
                        under_way.push((now + elapsed, unit, url));
                    }
                    FollowUp::Concluded => {}
                    FollowUp::Ignored => panic!("an attempt that was under way was ignored"),
                }
            }
            (None, Some(wake)) => now = wake,
            (None, None) => panic!("nothing to wait for"),
        }
    }
    Run {
        report: scheduler.into_report("https://x/sitemap.xml".to_string(), now),
        calls,
        most_in_flight,
        sent_at,
        ended_at: now,
    }
}

#[test]
fn every_url_has_one_outcome_whatever_the_limits() {
    for count in [0usize, 1, 2, 7, 40] {
        for limit in [1u8, 2, 5, 100] {
            for rate in [None, Some(1u32), Some(600), Some(60_000_000)] {
                if rate == Some(1) && count > 7 {
                    continue;
                }
                let script = (0..count)
                    .map(|i| match i % 4 {
                        0 => vec![],
                        1 => vec![answered(500, "s"), Attempt::TimedOut, answered(404, "c")],
                        2 => vec![Attempt::ConnectFailed],
                        _ => vec![answered(503, "s"), answered(503, "s"), answered(503, "s")],
                    })
                    .collect();
                let run = run_scripted(count, &config(limit, rate, 2), script, 100);
                assert_eq!(run.report.responses.len(), count);
                assert!(run.most_in_flight <= limit as usize);
                let mut fetched: Vec<usize> = run.calls.iter().map(|c| (*c > 0) as usize).collect();
                fetched.dedup();
                assert!(fetched.is_empty() || fetched == vec![1]);
                assert_eq!(run.report.concurrency_limit, limit);
                assert_eq!(run.report.rate_limit, rate);
            }
        }
    }
}

#[test]
fn an_empty_run_is_finished_at_once() {
    let mut scheduler = Scheduler::new(Vec::new(), &config(4, Some(10), 3));
    assert_eq!(scheduler.next_step(0), Step::Finished);
    assert_eq!(scheduler.next_step(5), Step::Finished);
    let report = scheduler.into_report("https://x/sitemap.xml".to_string(), 1234);
    assert_eq!(report.responses.len(), 0);
    assert_eq!(report.total_time_ns, 1234);
    assert_eq!(report.sitemap_url, "https://x/sitemap.xml");
}

#[test]
fn a_client_error_is_fetched_once_with_retries_left() {
    let always_404 = vec![(0..5).map(|_| answered(404, "https://x/0")).collect()];
    let run = run_scripted(1, &config(1, None, 2), always_404, 10);
    assert_eq!(run.calls, vec![1]);
    assert_eq!(run.report.responses[0].status_code, 404);
}

#[test]
fn a_server_error_is_retried_until_it_recovers() {
    let script = vec![vec![answered(500, "a"), answered(500, "a"), answered(200, "https://x/0")]];
    let run = run_scripted(1, &config(1, None, 2), script, 10);
    assert_eq!(run.calls, vec![3]);
    assert_eq!(run.report.responses.len(), 1);
    assert_eq!(run.report.responses[0].status_code, 200);
    assert_eq!(run.report.responses[0].response_time_ns, 10_000_000);

    let no_retries = vec![vec![answered(500, "https://x/0"), answered(200, "https://x/0")]];
    let run = run_scripted(1, &config(1, None, 0), no_retries, 10);
    assert_eq!(run.calls, vec![1]);
    assert_eq!(run.report.responses[0].status_code, 500);

    let never = vec![(0..20).map(|_| Attempt::TimedOut).collect()];
    let run = run_scripted(1, &config(1, None, 10), never, 10);
    assert_eq!(run.calls, vec![11]);
    assert_eq!(run.report.responses[0].status_code, 408);
    assert_eq!(run.report.responses[0].url, "https://x/0");
    assert_eq!(run.report.responses[0].response_size, 0);
}

#[test]
fn one_slot_lets_no_two_fetches_overlap() {
    let run = run_scripted(10, &config(1, None, 0), Vec::new(), 100);
    assert_eq!(run.most_in_flight, 1);
    // Ten fetches of 100 ms, one after the other.
    assert!(run.ended_at >= 900_000_000);
    assert_eq!(run.ended_at, 1_000_000_000);
    let order: Vec<&str> = run.report.responses.iter().map(|r| r.url.as_str()).collect();
    let expected = urls(10);
    assert_eq!(order, expected.iter().map(|u| u.as_str()).collect::<Vec<_>>());
    let wide = run_scripted(10, &config(5, None, 0), Vec::new(), 100);
    assert_eq!(wide.most_in_flight, 5);
    assert_eq!(wide.ended_at, 200_000_000);
}

#[test]
fn a_retry_keeps_the_slot_and_passes_the_rate_limiter_by() {
    // One request a minute: the second URL waits a minute, the retries do not.
    let script = vec![vec![answered(500, "a"), answered(500, "a")], vec![]];
    let run = run_scripted(3, &config(3, Some(1), 2), script, 1000);
    assert_eq!(run.calls, vec![3, 1, 1]);
    let second = 1_000_000_000u64;
    let minute = 60 * second;
    // One call runs ahead of the rate; the retries go out as the attempts end.
    assert_eq!(run.sent_at, vec![0, 0, second, 2 * second, minute]);
    assert_eq!(run.report.responses.len(), 3);
}

#[test]
fn a_broken_attempt_leaves_no_outcome() {
    let script = vec![vec![], vec![Attempt::Broken], vec![answered(500, "a"), Attempt::Broken]];
    let run = run_scripted(4, &config(2, None, 3), script, 10);
    assert_eq!(run.calls, vec![1, 1, 2, 1]);
    assert_eq!(run.report.responses.len(), 2);
}

#[test]
fn the_scheduler_says_each_step_as_it_comes() {
    let mut scheduler = Scheduler::new(urls(3), &config(2, None, 1));
    assert_eq!(scheduler.next_step(0), Step::Send { unit: 0, url: "https://x/0".to_string() });
    assert_eq!(scheduler.next_step(0), Step::Send { unit: 1, url: "https://x/1".to_string() });
    // Both slots are held.
    assert_eq!(scheduler.next_step(0), Step::Wait);
    // No attempt of unit 2 is under way, and there is no unit 7.
    assert_eq!(scheduler.attempt_ended(2, answered(200, "u"), 1), FollowUp::Ignored);
    assert_eq!(scheduler.attempt_ended(7, answered(200, "u"), 1), FollowUp::Ignored);
    assert_eq!(
        scheduler.attempt_ended(1, Attempt::TimedOut, 5),
        FollowUp::Resend { unit: 1, url: "https://x/1".to_string() }
    );
    assert_eq!(scheduler.next_step(1), Step::Wait);
    assert_eq!(scheduler.attempt_ended(1, Attempt::TimedOut, 6), FollowUp::Concluded);
    assert_eq!(scheduler.attempt_ended(1, answered(200, "u"), 1), FollowUp::Ignored);
    assert_eq!(scheduler.next_step(2), Step::Send { unit: 2, url: "https://x/2".to_string() });
    assert_eq!(scheduler.attempt_ended(0, answered(204, "https://x/0/"), 9), FollowUp::Concluded);
    assert_eq!(scheduler.next_step(3), Step::Wait);
    assert_eq!(scheduler.attempt_ended(2, answered(404, "https://x/2"), 3), FollowUp::Concluded);
    assert_eq!(scheduler.next_step(4), Step::Finished);
    let report = scheduler.into_report("s".to_string(), 4);
    let seen: Vec<(&str, u16, u64)> = report
        .responses
        .iter()
        .map(|r| (r.url.as_str(), r.status_code, r.response_time_ns))
        .collect();
    assert_eq!(
        seen,
        vec![("https://x/1", 408, 6), ("https://x/0/", 204, 9), ("https://x/2", 404, 3)]
    );
}

#[test]
fn the_scheduler_sleeps_as_long_as_the_limiter_says() {
    // 60 a minute: a second between two requests, and one ahead of that.
    let mut scheduler = Scheduler::new(urls(4), &config(4, Some(60), 0));
    let second = 1_000_000_000u64;
    assert_eq!(scheduler.next_step(0), Step::Send { unit: 0, url: "https://x/0".to_string() });
    assert_eq!(scheduler.next_step(0), Step::Send { unit: 1, url: "https://x/1".to_string() });
    assert_eq!(scheduler.next_step(0), Step::Sleep { nanos: second });
    assert_eq!(scheduler.next_step(second / 4), Step::Sleep { nanos: second / 4 * 3 });
    // An attempt that ends meanwhile changes nothing for the unit that waits.
    assert_eq!(scheduler.attempt_ended(0, answered(200, "u"), 1), FollowUp::Concluded);
    assert_eq!(scheduler.next_step(second - 1), Step::Sleep { nanos: 1 });
    assert_eq!(scheduler.next_step(second), Step::Send { unit: 2, url: "https://x/2".to_string() });
    assert_eq!(scheduler.next_step(second), Step::Sleep { nanos: second });
    assert_eq!(scheduler.next_step(5 * second), Step::Send { unit: 3, url: "https://x/3".to_string() });
    assert_eq!(scheduler.next_step(5 * second), Step::Wait);
}

#[test]
fn the_rate_limiter_lets_one_call_run_ahead() {
    let second = 1_000_000_000u64;
    let mut limiter = RateLimiter::new(60);
    assert_eq!(limiter.request(10 * second), Admission::Admitted);
    assert_eq!(limiter.request(10 * second), Admission::Admitted);
    assert_eq!(limiter.request(10 * second), Admission::Wait { nanos: second });
    assert_eq!(limiter.request(10 * second + 1), Admission::Wait { nanos: second - 1 });
    // The clock does not run back.
    assert_eq!(limiter.request(0), Admission::Wait { nanos: second - 1 });
    assert_eq!(limiter.request(11 * second), Admission::Admitted);
    assert_eq!(limiter.request(11 * second), Admission::Wait { nanos: second });
    // Left alone for two periods, it admits two at once again, not three.
    assert_eq!(limiter.request(14 * second), Admission::Admitted);
    assert_eq!(limiter.request(14 * second), Admission::Admitted);
    assert_eq!(limiter.request(14 * second), Admission::Wait { nanos: second });

    let mut slow = RateLimiter::new(1);
    assert_eq!(slow.request(0), Admission::Admitted);
    assert_eq!(slow.request(0), Admission::Admitted);
    assert_eq!(slow.request(0), Admission::Wait { nanos: 60 * second });
    assert_eq!(slow.request(59 * second), Admission::Wait { nanos: second });
    assert_eq!(slow.request(60 * second), Admission::Admitted);
    let mut fast = RateLimiter::new(u32::MAX);
    assert_eq!(fast.request(u64::MAX), Admission::Admitted);
    assert_eq!(fast.request(u64::MAX), Admission::Admitted);
    // 60e9 / (2^32 - 1) is 13.97: the period is rounded up.
    assert_eq!(fast.request(u64::MAX), Admission::Wait { nanos: 14 });
}

#[test]
fn the_rate_limiter_keeps_to_its_rate_over_a_minute() {
    // Callers that ask as often as they can, for less than a minute: 30 and
    // the one ahead.
    let mut limiter = RateLimiter::new(30);
    let mut now = 0u64;
    let mut admitted = 0;
    while now < 60_000_000_000 {
        match limiter.request(now) {
            Admission::Admitted => admitted += 1,
            Admission::Wait { nanos } => now += nanos,
        }
    }
    assert_eq!(admitted, 31);
}

/// How many calls are admitted from `start` on in less than a minute, when
/// callers ask again as soon as they may.
fn admitted_within_a_minute(limiter: &mut RateLimiter, start: u64) -> u64 {
    let mut now = start;
    let mut admitted = 0;
    while now - start < 60_000_000_000 {
        match limiter.request(now) {
            Admission::Admitted => admitted += 1,
            Admission::Wait { nanos } => now += nanos,
        }
    }
    admitted
}

#[test]
fn the_rate_limiter_keeps_to_a_rate_that_does_not_divide_the_minute() {
    // Seven a minute: a period of 8 571 428 572 ns, rounded up.
    let mut seven = RateLimiter::new(7);
    assert_eq!(seven.request(0), Admission::Admitted);
    assert_eq!(seven.request(0), Admission::Admitted);
    assert_eq!(seven.request(0), Admission::Wait { nanos: 8_571_428_572 });
    let minute = 60_000_000_000u64;
    for rate in [1u32, 2, 7, 11, 13, 59, 61, 600, 601, 999, 4096, 1_000_003] {
        let period = (minute + rate as u64 - 1) / rate as u64;
        let mut limiter = RateLimiter::new(rate);
        // One call ahead, and one for each period that begins within the minute.
        let first = admitted_within_a_minute(&mut limiter, 0);
        assert_eq!(first, (minute - 1) / period + 2, "rate {}", rate);
        // Never more than the rate and one; fewer where the period, in whole
        // nanoseconds, is longer than the rate asks for.
        assert!(first <= rate as u64 + 1, "rate {}", rate);
        if minute % rate as u64 == 0 || rate < 10_000 {
            assert_eq!(first, rate as u64 + 1, "rate {}", rate);
        }
        // From then on the call ahead is used up.
        let again = admitted_within_a_minute(&mut limiter, minute);
        assert!(again <= rate as u64 + 1 && again + 1 >= first - 1, "rate {}", rate);
    }
}

#[test]
fn the_scheduler_sends_no_more_in_a_minute_than_the_rate_and_one() {
    // Every request is answered at once: only the limiter holds them back.
    let run = run_scripted(30, &config(100, Some(7), 0), Vec::new(), 0);
    assert_eq!(run.report.responses.len(), 30);
    assert_eq!(run.sent_at.len(), 30);
    for (i, start) in run.sent_at.iter().enumerate() {
        let within = run.sent_at[i..].iter().filter(|at| **at - *start < 60_000_000_000).count();
        assert!(within <= 8, "{} requests within a minute of {}", within, start);
    }
    assert_eq!(run.sent_at.iter().filter(|at| **at < 60_000_000_000).count(), 8);
}

#[test]
fn the_gate_holds_no_more_slots_than_it_has() {
    let mut gate = ConcurrencyGate::new(2);
    assert!(gate.has_free_slot());
    assert!(gate.try_acquire());
    assert!(gate.try_acquire());
    assert!(!gate.has_free_slot());
    assert!(!gate.try_acquire());
    assert_eq!(gate.in_use(), 2);
    gate.release();
    assert_eq!(gate.in_use(), 1);
    assert!(gate.try_acquire());
    gate.release();
    gate.release();
    gate.release();
    assert_eq!(gate.in_use(), 0);
    let mut widest = ConcurrencyGate::new(100);
    for _ in 0..100 {
        assert!(widest.try_acquire());
    }
    assert!(!widest.try_acquire());
}

#[test]
fn a_config_is_checked_setting_by_setting() {
    assert_eq!(config(4, None, 0).check(), Ok(()));
    assert_eq!(config(1, Some(1), 10).check(), Ok(()));
    assert_eq!(config(100, Some(u32::MAX), 10).check(), Ok(()));
    assert_eq!(config(0, None, 0).check(), Err(ConfigError::ConcurrencyLimit));
    assert_eq!(config(101, Some(0), 11).check(), Err(ConfigError::ConcurrencyLimit));
    assert_eq!(config(4, Some(0), 11).check(), Err(ConfigError::RateLimit));
    assert_eq!(config(4, None, 11).check(), Err(ConfigError::Retries));
    let mut no_timeout = config(4, None, 11);
    no_timeout.request_timeout = 0;
    assert_eq!(no_timeout.check(), Err(ConfigError::RequestTimeout));
}

#[test]
fn timed_attempts_compare_by_what_they_hold() {
    let a = TimedAttempt { attempt: Attempt::TimedOut, elapsed_ns: 1 };
    let b = TimedAttempt { attempt: Attempt::TimedOut, elapsed_ns: 1 };
    assert_eq!(a, b);
}

#[test]
fn test_retries_zero_no_retry_on_500() {
    // The page always returns 500
    let always_500 = vec![(0..5).map(|_| answered(500, "https://x/0")).collect()];
    let run = run_scripted(1, &config(1, None, 0), always_500, 10);
    // Should be called exactly once (no retries)
    assert_eq!(run.calls, vec![1]);
    assert_eq!(run.report.responses.len(), 1, "Should have exactly 1 response");
    assert_eq!(run.report.responses[0].status_code, 500, "Status should be 500");
}

#[test]
fn test_retries_two_succeeds_after_failures() {
    // First two requests return 500, then 200.
    let script = vec![vec![
        answered(500, "https://x/0"),
        answered(500, "https://x/0"),
        answered(200, "https://x/0"),
    ]];
    let run = run_scripted(1, &config(1, None, 2), script, 10);
    assert_eq!(run.calls, vec![3]);
    assert_eq!(run.report.responses.len(), 1, "Should have exactly 1 response");
    assert_eq!(
        run.report.responses[0].status_code, 200,
        "Final status should be 200 after retries"
    );
}

#[test]
fn test_no_retry_on_4xx() {
    // The page returns 404. With retries=2, it should still only be called once
    // because 4xx responses are not retried.
    let always_404 = vec![(0..5).map(|_| answered(404, "https://x/0")).collect()];
    let run = run_scripted(1, &config(1, None, 2), always_404, 10);
    assert_eq!(run.calls, vec![1]);
    assert_eq!(run.report.responses.len(), 1);
    assert_eq!(run.report.responses[0].status_code, 404, "Status should be 404");
}

#[test]
fn test_retries_max_validation() {
    // More than 10 retries are refused.
    assert_eq!(config(1, None, 11).check(), Err(ConfigError::Retries));
    assert_eq!(config(1, None, 10).check(), Ok(()));
}
