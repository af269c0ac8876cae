//! The tests that decide whether a text holds a pattern.

use streamguard::rules::detect::{is_octet, is_quad, position_from};
use streamguard::rules::PatternRule;

#[test]
fn email_needs_name_domain_and_top_level() {
    assert!(PatternRule::check_email_pattern(b"a@b.cd"));
    assert!(PatternRule::check_email_pattern(b"Contact: user@example.com, thanks"));
    assert!(PatternRule::check_email_pattern(b"user+tag@example.com"));
    assert!(PatternRule::check_email_pattern(b"x@y.z9"));
    // Anything may follow the two bytes behind the dot.
    assert!(PatternRule::check_email_pattern(b"a@b.cd!!"));
    // A letter or digit anywhere before the `@` will do.
    assert!(PatternRule::check_email_pattern(b"a ---@b.cd"));

    assert!(!PatternRule::check_email_pattern(b""));
    assert!(!PatternRule::check_email_pattern(b"no at sign. here"));
    assert!(!PatternRule::check_email_pattern(b"@b.cd"));
    assert!(!PatternRule::check_email_pattern(b"--@b.cd"));
    assert!(!PatternRule::check_email_pattern(b"a@bcd"));
    assert!(!PatternRule::check_email_pattern(b"a@.cd"));
    assert!(!PatternRule::check_email_pattern(b"a@b.c"));
    assert!(!PatternRule::check_email_pattern(b"a@b."));
    assert!(!PatternRule::check_email_pattern(b"a@b.c-"));
    assert!(!PatternRule::check_email_pattern(b"a@b.-c"));
    assert!(!PatternRule::check_email_pattern(b"a.bc@d"));
}

#[test]
fn email_is_decided_by_first_at_and_first_dot_behind_it() {
    // The first `@` has no letter or digit before it.
    assert!(!PatternRule::check_email_pattern(b"-@ a@b.cd"));
    // The first dot behind the `@` is followed by one letter only.
    assert!(!PatternRule::check_email_pattern(b"a@b.c d@e.fg"));
    assert!(PatternRule::check_email_pattern(b"a@b@c.de"));
}

#[test]
fn email_classes_are_ascii() {
    // No ASCII letter or digit before the `@`.
    assert!(!PatternRule::check_email_pattern("é@b.cd".as_bytes()));
    assert!(!PatternRule::check_email_pattern("a@b.éé".as_bytes()));
}

#[test]
fn url_needs_letter_or_digit_behind_protocol() {
    assert!(PatternRule::check_url_pattern(b"http://a"));
    assert!(PatternRule::check_url_pattern(b"https://9"));
    assert!(PatternRule::check_url_pattern(b"Visit https://example.com now"));
    assert!(PatternRule::check_url_pattern(b"xhttp://test.org/path"));

    assert!(!PatternRule::check_url_pattern(b""));
    assert!(!PatternRule::check_url_pattern(b"http://"));
    assert!(!PatternRule::check_url_pattern(b"https://"));
    assert!(!PatternRule::check_url_pattern(b"http:// a"));
    assert!(!PatternRule::check_url_pattern(b"https://-a"));
    assert!(!PatternRule::check_url_pattern(b"http:/a"));
    assert!(!PatternRule::check_url_pattern(b"HTTP://a"));
    assert!(!PatternRule::check_url_pattern(b"ftp://a"));
}

#[test]
fn url_is_found_wherever_it_stands() {
    // One protocol with a letter or digit behind it is enough, whatever
    // stands before or behind it.
    assert!(PatternRule::check_url_pattern(b"http:// https://a"));
    assert!(PatternRule::check_url_pattern(b"http:// http://a"));
    assert!(PatternRule::check_url_pattern(b"https://a http://"));
    assert!(PatternRule::check_url_pattern(b"https:// http://a"));
    assert!(PatternRule::check_url_pattern(b"https:// https://a"));
    assert!(PatternRule::check_url_pattern(b"http://http://a"));
    assert!(PatternRule::check_url_pattern(b"https://https://9"));

    assert!(!PatternRule::check_url_pattern(b"http:// https://"));
    assert!(!PatternRule::check_url_pattern(b"http://- https://-"));
    assert!(!PatternRule::check_url_pattern(b"http://-http://"));
    // The `h` of the second protocol is a letter behind the first.
    assert!(PatternRule::check_url_pattern(b"http://http://"));
}

#[test]
fn octet_is_one_to_three_digits_up_to_255() {
    for (part, expected) in [
        ("0", true),
        ("9", true),
        ("00", true),
        ("000", true),
        ("255", true),
        ("199", true),
        ("256", false),
        ("999", false),
        ("", false),
        ("0000", false),
        ("1a", false),
        ("-1", false),
        (" 1", false),
    ] {
        assert_eq!(is_octet(part.as_bytes()), expected, "{:?}", part);
    }
}

#[test]
fn quad_is_four_octets() {
    for (word, expected) in [
        ("1.2.3.4", true),
        ("0.0.0.0", true),
        ("255.255.255.255", true),
        ("192.168.001.1", true),
        ("256.1.1.1", false),
        ("1.2.3", false),
        ("1.2.3.4.5", false),
        ("1.2.3.", false),
        (".1.2.3", false),
        ("1..2.3", false),
        ("1.2.3.4,", false),
        ("a.b.c.d", false),
        ("1234.1.1.1", false),
        ("...", false),
        ("", false),
    ] {
        assert_eq!(is_quad(word.as_bytes()), expected, "{:?}", word);
    }
}

#[test]
fn ipv4_is_a_word_of_the_text() {
    assert!(PatternRule::check_ipv4_pattern(b"Server at 192.168.1.1"));
    assert!(PatternRule::check_ipv4_pattern(b"10.0.0.254"));
    assert!(PatternRule::check_ipv4_pattern(b"x\t10.0.0.254\ny"));
    assert!(PatternRule::check_ipv4_pattern(b"1.2.3 1.2.3.4"));
    assert!(PatternRule::check_ipv4_pattern(b"a\x0b1.2.3.4\x0cb"));

    assert!(!PatternRule::check_ipv4_pattern(b""));
    assert!(!PatternRule::check_ipv4_pattern(b"   "));
    assert!(!PatternRule::check_ipv4_pattern(b"ip=1.2.3.4"));
    assert!(!PatternRule::check_ipv4_pattern(b"1.2.3.4."));
    assert!(!PatternRule::check_ipv4_pattern(b"(1.2.3.4)"));
    assert!(!PatternRule::check_ipv4_pattern(b"1.2. 3.4"));
    assert!(!PatternRule::check_ipv4_pattern(b"300.1.1.1 1.2.3"));
}

#[test]
fn card_needs_13_to_19_digits_and_four_together() {
    assert!(PatternRule::check_credit_card_pattern(b"4532-1234-5678-9010"));
    assert!(PatternRule::check_credit_card_pattern(b"Number: 4532123456789010"));
    assert!(PatternRule::check_credit_card_pattern(b"1234567890123"));
    assert!(PatternRule::check_credit_card_pattern(b"1234567890123456789"));
    // Spaces and dashes do not part digits.
    assert!(PatternRule::check_credit_card_pattern(b"1 2 3 4 5 6 7 8 9 0 1 2 3"));
    assert!(PatternRule::check_credit_card_pattern(b"12--  34aaaaaaaaaaaaaaa567890123"));
    // The digits are counted over the whole text.
    assert!(PatternRule::check_credit_card_pattern(b"1234 and 567 and 890 and 123"));

    assert!(!PatternRule::check_credit_card_pattern(b""));
    assert!(!PatternRule::check_credit_card_pattern(b"123456789012"));
    assert!(!PatternRule::check_credit_card_pattern(b"12345678901234567890"));
    // Thirteen digits, but never four together.
    assert!(!PatternRule::check_credit_card_pattern(b"123a456b789c012d3"));
    assert!(!PatternRule::check_credit_card_pattern(b"123.456.789.012.3"));
}

#[test]
fn position_of_a_byte() {
    assert_eq!(position_from(b"a.b.c", b'.', 0), Some(1));
    assert_eq!(position_from(b"a.b.c", b'.', 1), Some(1));
    assert_eq!(position_from(b"a.b.c", b'.', 2), Some(3));
    assert_eq!(position_from(b"a.b.c", b'.', 4), None);
    assert_eq!(position_from(b"a.b.c", b'.', 5), None);
    assert_eq!(position_from(b"", b'.', 0), None);
}
