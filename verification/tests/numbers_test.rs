use siteprobe::numbers::{
    floor_sqrt_of, greatest_of, least_of, mean_of, quantile_of_sorted, sorted_ascending, sum_of,
    variance_of, Ascending,
};
use siteprobe::order::{bytes_le, merge_ranked, sort_ranked, text_le};
use siteprobe::report::{ErrorsFirst, Response, SlowestFirst};
use siteprobe::statistics::{per_second_milli_of, rate_ppm_of, PerformanceStats};
use siteprobe::status::{is_client_error, is_error, is_redirection, is_server_error, is_success};
use siteprobe::text::{
    bytes_equal, bytes_spell, chars_of, decimal, digit_str, push_decimal, push_two_digits,
};
use siteprobe::options::{digit_of, find_char, parse_number};

#[test]
fn sums_and_extremes() {
    assert_eq!(sum_of(&vec![]), 0);
    assert_eq!(sum_of(&vec![1, 2, 3]), 6);
    assert_eq!(sum_of(&vec![u64::MAX, u64::MAX, 2]), 2 * (u64::MAX as u128) + 2);
    assert_eq!(least_of(&vec![]), 0);
    assert_eq!(least_of(&vec![5]), 5);
    assert_eq!(least_of(&vec![5, 3, 9, 3]), 3);
    assert_eq!(greatest_of(&vec![]), 0);
    assert_eq!(greatest_of(&vec![5, 3, 9, 3]), 9);
    assert_eq!(greatest_of(&vec![0, u64::MAX]), u64::MAX);
    assert_eq!(mean_of(&vec![]), 0);
    assert_eq!(mean_of(&vec![1, 2]), 1);
    assert_eq!(mean_of(&vec![u64::MAX, u64::MAX]), u64::MAX);
}

#[test]
fn variance_is_about_the_rounded_mean_and_rounded_down() {
    assert_eq!(variance_of(&vec![]), 0);
    assert_eq!(variance_of(&vec![7]), 0);
    assert_eq!(variance_of(&vec![1, 3]), 1);
    // mean 1 (of 1.5): (0 + 1) / 2 = 0
    assert_eq!(variance_of(&vec![1, 2]), 0);
    // mean 5: 16 + 4 + 0 + 4 + 36 = 60, by 5
    assert_eq!(variance_of(&vec![1, 3, 5, 7, 11]), 12);
    assert_eq!(
        variance_of(&vec![0, u64::MAX]),
        // mean floor(MAX / 2); the two distances differ by one
        {
            let low = (u64::MAX / 2) as u128;
            let high = u64::MAX as u128 - low;
            (low * low + high * high) / 2
        }
    );
    assert_eq!(variance_of(&vec![u64::MAX; 1000]), 0);
}

#[test]
fn square_roots_are_rounded_down() {
    for (square, root) in [(0u128, 0u64), (1, 1), (2, 1), (3, 1), (4, 2), (8, 2), (9, 3), (99, 9), (100, 10)] {
        assert_eq!(floor_sqrt_of(square), root);
    }
    assert_eq!(floor_sqrt_of(u128::MAX), u64::MAX);
    assert_eq!(floor_sqrt_of((u64::MAX as u128) * (u64::MAX as u128)), u64::MAX);
    assert_eq!(floor_sqrt_of((u64::MAX as u128) * (u64::MAX as u128) - 1), u64::MAX - 1);
    assert_eq!(floor_sqrt_of(1 << 64), 1 << 32);
    assert_eq!(floor_sqrt_of((1 << 64) - 1), (1 << 32) - 1);
}

#[test]
fn quantiles_take_the_place_rounded_down() {
    let ten: Vec<u64> = (1..=10).collect();
    assert_eq!(quantile_of_sorted(&ten, 1, 2), 6);
    assert_eq!(quantile_of_sorted(&ten, 90, 100), 10);
    assert_eq!(quantile_of_sorted(&ten, 89, 100), 9);
    assert_eq!(quantile_of_sorted(&ten, 0, 100), 1);
    assert_eq!(quantile_of_sorted(&ten, 9, 100), 1);
    assert_eq!(quantile_of_sorted(&ten, 10, 100), 2);
    // Never beyond the last place.
    assert_eq!(quantile_of_sorted(&ten, 100, 100), 10);
    assert_eq!(quantile_of_sorted(&ten, 255, 1), 10);
    assert_eq!(quantile_of_sorted(&vec![], 1, 2), 0);
    assert_eq!(quantile_of_sorted(&vec![4], 99, 100), 4);
    assert_eq!(sorted_ascending(vec![3, 1, 2, 1, 0]), vec![0, 1, 1, 2, 3]);
    assert_eq!(sorted_ascending(vec![]), Vec::<u64>::new());
}

#[test]
fn sorting_keeps_what_there_was() {
    let mut values: Vec<u64> = (0..1000u64).map(|i| (i * 7919 + 13) % 257).collect();
    let sorted = sort_ranked::<u64, Ascending>(values.clone());
    values.sort();
    assert_eq!(sorted, values);
    assert_eq!(
        merge_ranked::<u64, Ascending>(vec![1, 4, 4, 9], vec![0, 4, 10, 11]),
        vec![0, 1, 4, 4, 4, 9, 10, 11]
    );
    assert_eq!(merge_ranked::<u64, Ascending>(vec![], vec![]), Vec::<u64>::new());
    assert_eq!(merge_ranked::<u64, Ascending>(vec![2], vec![]), vec![2]);
    let outcome = |url: &str, status: u16, ns: u64| Response {
        url: url.to_string(),
        response_time_ns: ns,
        response_size: 0,
        status_code: status,
    };
    let by_time = sort_ranked::<Response, SlowestFirst>(vec![
        outcome("a", 200, 1),
        outcome("b", 200, 3),
        outcome("c", 200, 2),
    ]);
    assert_eq!(by_time.iter().map(|r| r.url.as_str()).collect::<Vec<_>>(), vec!["b", "c", "a"]);
    let by_status = sort_ranked::<Response, ErrorsFirst>(vec![
        outcome("b", 404, 1),
        outcome("a", 500, 3),
        outcome("a", 404, 2),
    ]);
    assert_eq!(
        by_status.iter().map(|r| (r.status_code, r.url.as_str())).collect::<Vec<_>>(),
        vec![(500, "a"), (404, "a"), (404, "b")]
    );
}

#[test]
fn texts_are_ordered_by_their_bytes() {
    let samples = ["", "a", "A", "ab", "b", "é", "z", "aa", "a\u{0}", "\u{10FFFF}", "日本"];
    for a in samples {
        for b in samples {
            assert_eq!(text_le(a, b), a <= b, "{:?} {:?}", a, b);
            assert_eq!(bytes_le(a.as_bytes(), b.as_bytes()), a.as_bytes() <= b.as_bytes());
            assert_eq!(bytes_equal(a.as_bytes(), b.as_bytes()), a == b);
            assert_eq!(bytes_spell(a.as_bytes(), b), a == b);
        }
    }
}

#[test]
fn rates_are_rounded_down() {
    assert_eq!(rate_ppm_of(0, 0), 0);
    assert_eq!(rate_ppm_of(0, 5), 0);
    assert_eq!(rate_ppm_of(5, 5), 1_000_000);
    assert_eq!(rate_ppm_of(1, 3), 333_333);
    assert_eq!(rate_ppm_of(2, 3), 666_666);
    assert_eq!(rate_ppm_of(usize::MAX, usize::MAX), 1_000_000);
    assert_eq!(per_second_milli_of(0, 0), 0);
    assert_eq!(per_second_milli_of(10, 0), 0);
    assert_eq!(per_second_milli_of(10, 2_000_000_000), 5_000);
    assert_eq!(per_second_milli_of(1, 3_000_000_000), 333);
    assert_eq!(per_second_milli_of(1, 1), 1_000_000_000_000);
}

fn performance(total_requests: usize, slow_count: usize) -> PerformanceStats {
    PerformanceStats {
        total_requests,
        requests_per_second_milli: 0,
        slow_count,
        slow_rate_ppm: 0,
        min_size: 0,
        avg_size: 0,
        max_size: 0,
    }
}

#[test]
fn throughput_and_slow_share_as_texts() {
    assert_eq!(performance(10, 0).throughput(0), "0 / sec");
    assert_eq!(performance(10, 0).throughput(2_000_000_000), "5.00 / sec");
    assert_eq!(performance(1, 0).throughput(3_000_000_000), "0.33 / sec");
    assert_eq!(performance(2, 0).throughput(3_000_000_000), "0.67 / sec");
    assert_eq!(performance(0, 0).throughput(3_000_000_000), "0.00 / sec");
    // 0.125 and 0.375 are ties: to the even neighbour.
    assert_eq!(performance(1, 0).throughput(8_000_000_000), "0.12 / sec");
    assert_eq!(performance(3, 0).throughput(8_000_000_000), "0.38 / sec");
    assert_eq!(performance(1234, 0).throughput(1_000_000_000), "1234.00 / sec");
    assert_eq!(performance(4, 1).slow_share(true), "25%");
    assert_eq!(performance(4, 1).slow_share(false), "Not Set");
    assert_eq!(performance(0, 0).slow_share(true), "0%");
}

#[test]
fn status_classes() {
    for code in [0u16, 99, 100, 199, 200, 250, 299, 300, 399, 400, 408, 499, 500, 502, 599, 600, 999, u16::MAX] {
        assert_eq!(is_success(code), (200..300).contains(&code));
        assert_eq!(is_redirection(code), (300..400).contains(&code));
        assert_eq!(is_client_error(code), (400..500).contains(&code));
        assert_eq!(is_server_error(code), (500..600).contains(&code));
        assert_eq!(is_error(code), (400..600).contains(&code));
    }
}

#[test]
fn decimal_numerals() {
    assert_eq!(decimal(0), "0");
    assert_eq!(decimal(7), "7");
    assert_eq!(decimal(10), "10");
    assert_eq!(decimal(1234567890), "1234567890");
    assert_eq!(decimal(u128::MAX), u128::MAX.to_string());
    let mut text = String::from("n=");
    push_decimal(&mut text, 405);
    push_two_digits(&mut text, 7);
    push_two_digits(&mut text, 0);
    push_two_digits(&mut text, 99);
    assert_eq!(text, "n=405070099");
    for d in 0..10u8 {
        assert_eq!(digit_str(d), d.to_string());
        assert_eq!(digit_of(char::from(b'0' + d)), Some(d));
    }
    assert_eq!(digit_of('a'), None);
    assert_eq!(digit_of('٣'), None);
    assert_eq!(chars_of("aé日"), vec!['a', 'é', '日']);
    assert_eq!(chars_of(""), Vec::<char>::new());
}

#[test]
fn numbers_are_read_within_their_limit() {
    let chars = chars_of("x+0123/45y");
    assert_eq!(parse_number(&chars, 1, 6, 1000), Some(123));
    assert_eq!(parse_number(&chars, 2, 6, 123), Some(123));
    assert_eq!(parse_number(&chars, 2, 6, 122), None);
    assert_eq!(parse_number(&chars, 7, 9, 45), Some(45));
    assert_eq!(parse_number(&chars, 7, 10, 1000), None);
    assert_eq!(parse_number(&chars, 0, 6, 1000), None);
    assert_eq!(parse_number(&chars, 1, 2, 1000), None);
    assert_eq!(parse_number(&chars, 3, 3, 1000), None);
    assert_eq!(parse_number(&chars_of("18446744073709551615"), 0, 20, u64::MAX), Some(u64::MAX));
    assert_eq!(parse_number(&chars_of("18446744073709551616"), 0, 20, u64::MAX), None);
    assert_eq!(parse_number(&chars_of("99999999999999999999999"), 0, 23, u64::MAX), None);
    assert_eq!(parse_number(&chars_of("0"), 0, 1, 0), Some(0));
    assert_eq!(find_char(&chars, 0, '/'), Some(6));
    assert_eq!(find_char(&chars, 7, '/'), None);
    assert_eq!(find_char(&chars, 10, 'y'), None);
    assert_eq!(find_char(&chars, 2, '0'), Some(2));
}
