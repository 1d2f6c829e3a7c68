use speed_daemon::chat::is_alphanumeric;
use speed_daemon::prices::{handle_insert, handle_query, PriceBook};
use speed_daemon::prime::MalformedResponse;

#[test]
fn alphanumeric_names() {
    assert!(is_alphanumeric("bob42"));
    assert!(is_alphanumeric(""));
    assert!(is_alphanumeric("Zoë"));
    assert!(!is_alphanumeric("bob 42"));
    assert!(!is_alphanumeric("bob!"));
    assert!(!is_alphanumeric("-"));
}

#[test]
fn malformed_response_method() {
    assert_eq!(MalformedResponse::new().method, "Malformed");
}

#[test]
fn insert_gives_no_reply() {
    let mut book = PriceBook::new();
    assert_eq!(handle_insert(&(12345, 101), &mut book), None);
}

#[test]
fn query_means_prices_in_window() {
    let mut book = PriceBook::new();
    handle_insert(&(12345, 101), &mut book);
    handle_insert(&(12346, 102), &mut book);
    handle_insert(&(12347, 100), &mut book);
    handle_insert(&(40960, 5), &mut book);
    assert_eq!(handle_query(&(12288, 16384), &book), Some(101));
    assert_eq!(handle_query(&(12346, 12346), &book), Some(102));
    assert_eq!(handle_query(&(0, 100000), &book), Some(77));
}

#[test]
fn query_rounds_toward_zero() {
    let mut book = PriceBook::new();
    handle_insert(&(1, -3), &mut book);
    handle_insert(&(2, -4), &mut book);
    assert_eq!(handle_query(&(0, 10), &book), Some(-3));
    handle_insert(&(3, 10), &mut book);
    handle_insert(&(4, 2), &mut book);
    assert_eq!(handle_query(&(3, 4), &book), Some(6));
}

#[test]
fn query_empty_or_reversed_window_is_zero() {
    let mut book = PriceBook::new();
    assert_eq!(handle_query(&(0, 10), &book), Some(0));
    handle_insert(&(5, 50), &mut book);
    assert_eq!(handle_query(&(10, 0), &book), Some(0));
    assert_eq!(handle_query(&(6, 10), &book), Some(0));
}

#[test]
fn insert_replaces_price_at_same_timestamp() {
    let mut book = PriceBook::new();
    handle_insert(&(5, 50), &mut book);
    handle_insert(&(5, 70), &mut book);
    assert_eq!(handle_query(&(5, 5), &book), Some(70));
}

#[test]
fn query_extreme_prices() {
    let mut book = PriceBook::new();
    handle_insert(&(i32::MIN, i32::MAX), &mut book);
    handle_insert(&(i32::MAX, i32::MAX), &mut book);
    assert_eq!(handle_query(&(i32::MIN, i32::MAX), &book), Some(i32::MAX));
    let mut low = PriceBook::new();
    handle_insert(&(0, i32::MIN), &mut low);
    handle_insert(&(1, i32::MIN), &mut low);
    assert_eq!(handle_query(&(0, 1), &low), Some(i32::MIN));
}

use speed_daemon::proxy::{intercept_message, TONYS_ACCOUNT};

#[test]
fn rewrites_address_in_middle() {
    assert_eq!(
        intercept_message("Please pay the ticket price of 15 Boguscoins to one of these addresses: 7iKDZEwPZSqIvDnHvVN2r0hUWXD5rHX 7LOrwbDlS8NujgjddyogWgIM93MV5N2VR\n"),
        format!("Please pay the ticket price of 15 Boguscoins to one of these addresses: {} {}\n", TONYS_ACCOUNT, TONYS_ACCOUNT)
    );
}

#[test]
fn rewrites_address_at_start_without_newline() {
    assert_eq!(
        intercept_message("7F1u3wSD5RbOHQmupo9nx4TnhQ is mine"),
        format!("{} is mine", TONYS_ACCOUNT)
    );
}

#[test]
fn leaves_non_addresses() {
    assert_eq!(intercept_message("hello world\n"), "hello world\n");
    assert_eq!(intercept_message("7short\n"), "7short\n");
    assert_eq!(
        intercept_message("7iKDZEwPZSqIvDnHvVN2r0hUWXD5rHX-x\n"),
        "7iKDZEwPZSqIvDnHvVN2r0hUWXD5rHX-x\n"
    );
    assert_eq!(
        intercept_message("8iKDZEwPZSqIvDnHvVN2r0hUWXD5rHX\n"),
        "8iKDZEwPZSqIvDnHvVN2r0hUWXD5rHX\n"
    );
}

#[test]
fn address_length_bounds() {
    let len25 = format!("7{}", "a".repeat(24));
    let len26 = format!("7{}", "a".repeat(25));
    let len35 = format!("7{}", "a".repeat(34));
    let len36 = format!("7{}", "a".repeat(35));
    assert_eq!(intercept_message(&len25), len25);
    assert_eq!(intercept_message(&len26), TONYS_ACCOUNT);
    assert_eq!(intercept_message(&len35), TONYS_ACCOUNT);
    assert_eq!(intercept_message(&len36), len36);
}

#[test]
fn trailing_whitespace_is_removed_and_spaces_kept() {
    assert_eq!(intercept_message("a  b \t \n"), "a  b\n");
    assert_eq!(intercept_message(""), "");
    assert_eq!(intercept_message("\n"), "\n");
}

use speed_daemon::proxy::intercept_marked;

#[test]
fn marked_rewrite_follows_the_flags() {
    let word = format!("7{}", "!".repeat(25));
    let all = vec![true; 26];
    assert_eq!(intercept_marked(&word, &all), TONYS_ACCOUNT);
    let mut one_off = vec![true; 26];
    one_off[10] = false;
    assert_eq!(intercept_marked(&word, &one_off), word);
    let line = format!("{} x \n", word);
    let mut flags = vec![true; 26];
    flags.extend([false, true, false, false]);
    assert_eq!(intercept_marked(&line, &flags), format!("{} x\n", TONYS_ACCOUNT));
}

#[test]
fn unicode_white_space_is_trimmed() {
    assert_eq!(intercept_message("a\u{3000}\u{2028}"), "a");
    assert_eq!(intercept_message("a\u{200b}"), "a\u{200b}");
}
