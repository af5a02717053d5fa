use siteprobe::report::{ExitStatus, Report, Response};
use std::collections::VecDeque;

fn make_response(status: u16, response_time_ms: u64) -> Response {
    Response {
        url: format!("https://example.com/{}", status),
        response_time_ns: response_time_ms * 1_000_000,
        response_size: 1024,
        status_code: status,
    }
}

fn make_report(responses: Vec<Response>) -> Report {
    Report {
        sitemap_url: "https://example.com/sitemap.xml".to_string(),
        concurrency_limit: 1,
        rate_limit: None,
        total_time_ns: 1_000_000_000,
        responses: VecDeque::from(responses),
    }
}

/// Two seconds, in nanoseconds.
const TWO_SECONDS: u64 = 2_000_000_000;

#[test]
fn exit_code_0_when_all_2xx() {
    let report = make_report(vec![
        make_response(200, 100),
        make_response(201, 150),
        make_response(204, 50),
    ]);
    assert_eq!(report.exit_code(None), 0u8);
}

#[test]
fn exit_code_1_when_any_4xx() {
    let report = make_report(vec![make_response(200, 100), make_response(404, 200)]);
    assert_eq!(report.exit_code(None), 1u8);
}

#[test]
fn exit_code_1_when_any_5xx() {
    let report = make_report(vec![make_response(200, 100), make_response(500, 200)]);
    assert_eq!(report.exit_code(None), 1u8);
}

#[test]
fn exit_code_2_when_slow_threshold_exceeded() {
    let report = make_report(vec![
        make_response(200, 100),
        make_response(200, 3500), // 3.5 seconds, exceeds 2.0s threshold
    ]);
    assert_eq!(report.exit_code(Some(TWO_SECONDS)), 2u8);
}

#[test]
fn exit_code_1_takes_priority_over_exit_code_2() {
    let report = make_report(vec![
        make_response(500, 5000), // error AND slow
        make_response(200, 3500), // slow
    ]);
    // Even though there are slow responses, error (exit code 1) takes priority
    assert_eq!(report.exit_code(Some(TWO_SECONDS)), 1u8);
}

#[test]
fn exit_code_0_when_slow_threshold_is_none() {
    let report = make_report(vec![
        make_response(200, 10000), // very slow, but no threshold set
        make_response(200, 5000),
    ]);
    assert_eq!(report.exit_code(None), 0u8);
}

#[test]
fn exit_status_names_what_the_code_stands_for() {
    let slow_then_error = make_report(vec![make_response(200, 3500), make_response(502, 1)]);
    assert_eq!(slow_then_error.exit_status(Some(TWO_SECONDS)), ExitStatus::Error);
    let slow = make_report(vec![make_response(301, 3500)]);
    assert_eq!(slow.exit_status(Some(TWO_SECONDS)), ExitStatus::Slow);
    assert_eq!(slow.exit_status(None), ExitStatus::Success);
    assert_eq!(ExitStatus::Success.code(), 0);
    assert_eq!(ExitStatus::Error.code(), 1);
    assert_eq!(ExitStatus::Slow.code(), 2);
}

#[test]
fn exit_status_takes_the_threshold_strictly() {
    // Exactly at the threshold is not slow for the exit status.
    let at = make_report(vec![make_response(200, 2000)]);
    assert_eq!(at.exit_status(Some(TWO_SECONDS)), ExitStatus::Success);
    let over = make_report(vec![Response {
        url: "https://example.com/".to_string(),
        response_time_ns: TWO_SECONDS + 1,
        response_size: 0,
        status_code: 200,
    }]);
    assert_eq!(over.exit_status(Some(TWO_SECONDS)), ExitStatus::Slow);
    let empty = make_report(Vec::new());
    assert_eq!(empty.exit_status(Some(0)), ExitStatus::Success);
    // The synthetic statuses count as errors; 399 and 600 do not.
    for status in [400u16, 408, 499, 500, 502, 599] {
        assert_eq!(make_report(vec![make_response(status, 1)]).exit_code(None), 1);
    }
    for status in [100u16, 200, 399, 600] {
        assert_eq!(make_report(vec![make_response(status, 1)]).exit_code(None), 0);
    }
}
