//! A pattern rule on its own.

use streamguard::rules::PatternRule;
use streamguard::Rule;

#[test]
fn test_email_detection_simple() {
    let mut rule = PatternRule::email("found email");

    assert!(rule.feed("Contact: user@example.com").is_block());
}

#[test]
fn test_email_across_chunks() {
    let mut rule = PatternRule::email("found email");

    assert!(rule.feed("Email me at ").is_allow());
    assert!(rule.feed("john@exam").is_allow());
    assert!(rule.feed("ple.com").is_block());
}

#[test]
fn test_email_detection_various_formats() {
    let mut rule = PatternRule::email("found email");

    rule.reset();
    assert!(rule.feed("test.user@domain.co.uk").is_block());

    rule.reset();
    assert!(rule.feed("admin@subdomain.example.org").is_block());

    rule.reset();
    assert!(rule.feed("user+tag@example.com").is_block());
}

#[test]
fn test_no_false_positive_for_non_email() {
    let mut rule = PatternRule::email("found email");

    assert!(rule.feed("This has no email").is_allow());

    rule.reset();
    assert!(rule.feed("Just an @ symbol").is_allow());

    rule.reset();
    assert!(rule.feed("Or a.dot but no @").is_allow());
}

#[test]
fn pattern_test_url_detection() {
    let mut rule = PatternRule::url("found URL");

    assert!(rule.feed("Visit https://example.com").is_block());

    rule.reset();
    assert!(rule.feed("Check http://test.org/path").is_block());
}

#[test]
fn pattern_test_ipv4_detection() {
    let mut rule = PatternRule::ipv4("found IP address");

    assert!(rule.feed("Server at 192.168.1.1").is_block());

    rule.reset();
    assert!(rule.feed("Connect to 10.0.0.254").is_block());
}

#[test]
fn pattern_test_credit_card_detection() {
    let mut rule = PatternRule::credit_card("found credit card");

    assert!(rule.feed("Card: 4532-1234-5678-9010").is_block());

    rule.reset();
    assert!(rule.feed("Number: 4532123456789010").is_block());
}

#[test]
fn pattern_test_custom_pattern() {
    let mut rule = PatternRule::custom(
        r"SECRET",
        "found secret",
        "secret keyword",
    );

    assert!(rule.feed("This contains SECRET data").is_block());
}

#[test]
fn test_reset_clears_buffer() {
    let mut rule = PatternRule::email("found email");

    rule.feed("user@exam");
    rule.reset();

    // After reset, partial email doesn't continue
    assert!(rule.feed("random text").is_allow());
}

#[test]
fn test_empty_chunk() {
    let mut rule = PatternRule::email("found email");
    assert!(rule.feed("").is_allow());
}
