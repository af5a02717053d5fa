use siteprobe::utils::{
    check_basic_auth, generate_random_number, kb, ms, percent, power_of_ten, rounded_quotient,
    truncate_clusters, truncate_message, validate_basic_auth, BasicAuthError,
};
use std::collections::HashSet;

// ===========================================================================================
// truncate_message Tests
// ===========================================================================================

#[test]
fn test_truncate_message_no_truncation_needed() {
    assert_eq!(truncate_message("Short", 10), "Short");
}

#[test]
fn test_truncate_message_with_truncation() {
    let result = truncate_message("This is a long message", 10);
    assert_eq!(result, "This is a…");
}

#[test]
fn test_truncate_message_exact_width() {
    let result = truncate_message("Exact size", 10);
    assert_eq!(result, "Exact size");
}

#[test]
fn test_truncate_message_empty_string() {
    let message = "";
    let result = truncate_message(message, 5);
    assert_eq!(result, "");
}

#[test]
fn test_truncate_message_unicode_handling() {
    let message = "こんにちは世界"; // "Hello World" in Japanese
    let result = truncate_message(message, 6);
    assert_eq!(result, "こんにちは…");
}

#[test]
fn test_truncate_message_emoji_handling() {
    let message = "😽‍🧝🏼‍♂️🫏🤣👨";
    let result = truncate_message(message, 3);
    assert_eq!(result, "😽‍🧝🏼‍♂️🫏…");
}

#[test]
fn truncate_message_keeps_a_combining_mark_with_its_letter() {
    // Seven characters in four clusters: a cut by characters would part them.
    assert_eq!(truncate_message("e\u{301}e\u{301}e\u{301}x", 4), "e\u{301}e\u{301}e\u{301}x");
    assert_eq!(truncate_message("e\u{301}e\u{301}e\u{301}x", 3), "e\u{301}e\u{301}…");
    assert_eq!(truncate_message("abc", 2), "a…");
}

#[test]
fn truncate_clusters_goes_by_the_clusters_given() {
    let clusters = vec!["ab", "cd", "ef"];
    assert_eq!(truncate_clusters("abcdef", &clusters, 2), "ab…");
    assert_eq!(truncate_clusters("abcdef", &clusters, 3), "abcdef");
    assert_eq!(truncate_clusters("abcdef", &Vec::new(), 2), "abcdef");
}

// ===========================================================================================
// validate_basic_auth Tests
// ===========================================================================================

#[test]
fn test_valid_basic_auth() {
    assert!(validate_basic_auth("user:pass").is_ok());
    assert!(validate_basic_auth("user@domain.com:password123").is_ok());
    assert!(validate_basic_auth("user:pass:with:colon").is_ok());
}

#[test]
fn test_invalid_basic_auth() {
    assert!(validate_basic_auth("invalid").is_err());
    assert!(validate_basic_auth("").is_err());
    assert!(validate_basic_auth(":").is_err());
    assert!(validate_basic_auth("user:").is_err());
    assert!(validate_basic_auth(":pass").is_err());
}

#[test]
fn basic_auth_hands_back_the_credentials_or_a_message() {
    assert_eq!(validate_basic_auth("user:pass"), Ok("user:pass".to_string()));
    assert_eq!(validate_basic_auth("u::"), Ok("u::".to_string()));
    assert_eq!(
        validate_basic_auth("invalid"),
        Err("Invalid format: must be `username:password`".to_string())
    );
    assert_eq!(
        validate_basic_auth("user:"),
        Err("Invalid format: must be `username:password` with non-empty values".to_string())
    );
    assert_eq!(check_basic_auth("é:ü"), Ok(()));
    assert_eq!(check_basic_auth(""), Err(BasicAuthError::MissingColon));
    assert_eq!(check_basic_auth(":x:y"), Err(BasicAuthError::EmptyPart));
    assert_eq!(check_basic_auth("a:"), Err(BasicAuthError::EmptyPart));
}

// ===========================================================================================
// generate_random_number Tests
// ===========================================================================================

#[test]
fn test_generate_random_number_valid_length() {
    let length = 5;
    let number = generate_random_number(length);
    let number_str = number.to_string();

    assert_eq!(
        number_str.len(),
        length as usize,
        "Generated number does not match the specified length"
    );
}

#[test]
fn test_generate_random_number_min_length() {
    let length = 1;
    let number = generate_random_number(length);
    assert!(
        (1..=9).contains(&number),
        "Generated number is outside the range for length 1"
    );
}

#[test]
fn test_generate_random_number_randomness() {
    let length = 4;

    // Generate multiple numbers and collect them into a HashSet to check for uniqueness
    let mut numbers = HashSet::new();
    for _ in 0..1000 {
        let number = generate_random_number(length);
        numbers.insert(number);
    }

    assert!(
        numbers.len() > 900,
        "Generated numbers are not sufficiently random (too many duplicates found)"
    );
}

#[test]
fn random_number_has_the_digits_asked_for_at_every_length() {
    for length in 1..=19u32 {
        for _ in 0..50 {
            let number = generate_random_number(length);
            assert_eq!(number.to_string().len(), length as usize);
        }
    }
    assert_eq!(power_of_ten(0), 1);
    assert_eq!(power_of_ten(3), 1000);
    assert_eq!(power_of_ten(19), 10_000_000_000_000_000_000);
}

// ===========================================================================================
// Formatting
// ===========================================================================================

#[test]
fn kb_rounds_to_two_decimals_half_to_even() {
    assert_eq!(kb(0), "0.00kb");
    assert_eq!(kb(1024), "1.00kb");
    assert_eq!(kb(1536), "1.50kb");
    assert_eq!(kb(1), "0.00kb");
    assert_eq!(kb(5), "0.00kb");
    assert_eq!(kb(6), "0.01kb");
    // 0.125 and 0.375 are ties.
    assert_eq!(kb(128), "0.12kb");
    assert_eq!(kb(384), "0.38kb");
    assert_eq!(kb(123456789), "120563.27kb");
    for bytes in [0usize, 1, 5, 6, 128, 384, 640, 1023, 1024, 1029, 99999, 123456789] {
        let kilobytes = bytes as f64 / 1024.0;
        assert_eq!(kb(bytes), format!("{kilobytes:.2}kb"));
    }
}

#[test]
fn ms_shows_whole_milliseconds() {
    assert_eq!(ms(0), "0.00ms");
    assert_eq!(ms(999_999), "0.00ms");
    assert_eq!(ms(1_000_000), "1.00ms");
    assert_eq!(ms(1_234_567_890), "1234.00ms");
    assert_eq!(ms(u64::MAX), "18446744073709.00ms");
}

#[test]
fn percent_rounds_half_to_even_and_is_zero_of_nothing() {
    assert_eq!(percent(0, 0), "0%");
    assert_eq!(percent(5, 0), "0%");
    assert_eq!(percent(1, 1), "100%");
    assert_eq!(percent(2, 3), "67%");
    assert_eq!(percent(1, 3), "33%");
    assert_eq!(percent(1, 200), "0%");
    assert_eq!(percent(3, 200), "2%");
    assert_eq!(percent(5, 200), "2%");
    assert_eq!(percent(7, 200), "4%");
    assert_eq!(rounded_quotient(7, 2), 4);
    assert_eq!(rounded_quotient(5, 2), 2);
    assert_eq!(rounded_quotient(u128::MAX, 1), u128::MAX);
    assert_eq!(rounded_quotient(u128::MAX, 2), 1u128 << 127);
}
