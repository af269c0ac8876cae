//! The sequence rule fed directly: progress, carry, modes, scores.

use streamguard::rules::{ForbiddenSequenceRule, SequenceConfig};
use streamguard::{Decision, Rule};

fn block(reason: &str) -> Decision {
    Decision::Block { reason: reason.to_string() }
}

fn rewrite(text: &str) -> Decision {
    Decision::Rewrite { replacement: text.to_string() }
}

/// Feeds the chunks in order and tells whether the rule answered to one of
/// them with a block or a rewrite.
fn fires_within(rule: &mut ForbiddenSequenceRule, chunks: &[&str]) -> bool {
    let mut fired = false;
    for chunk in chunks {
        if !rule.feed(chunk).is_allow() {
            fired = true;
        }
    }
    fired
}

/// All ways to cut `text` into chunks at char boundaries, up to `most` cuts.
fn cuttings(text: &str, most: usize) -> Vec<Vec<&str>> {
    let mut found = vec![vec![text]];
    if most == 0 {
        return found;
    }
    for at in 1..text.len() {
        if !text.is_char_boundary(at) {
            continue;
        }
        for rest in cuttings(&text[at..], most - 1) {
            let mut cut = vec![&text[..at]];
            cut.extend(rest);
            found.push(cut);
        }
    }
    found
}

#[test]
fn token_lists_that_make_a_rule() {
    assert!(ForbiddenSequenceRule::accepts(&vec!["a"]));
    assert!(ForbiddenSequenceRule::accepts(&vec!["a".to_string(), "bc".to_string()]));
    assert!(!ForbiddenSequenceRule::accepts::<&str>(&vec![]));
    assert!(!ForbiddenSequenceRule::accepts(&vec![""]));
    assert!(!ForbiddenSequenceRule::accepts(&vec!["a", "", "b"]));
}

#[test]
fn name_and_fresh_score() {
    let rule = ForbiddenSequenceRule::with_gaps(vec!["a"], "r");
    assert_eq!(rule.name(), "forbidden_sequence");
    assert_eq!(rule.last_score(), 0);
}

#[test]
fn tokens_of_both_kinds() {
    let mut by_slice = ForbiddenSequenceRule::with_gaps(vec!["ab", "cd"], "r");
    let mut by_string =
        ForbiddenSequenceRule::with_gaps(vec!["ab".to_string(), "cd".to_string()], "r");
    for chunk in ["xa", "b c", "d"] {
        assert_eq!(by_slice.feed(chunk), by_string.feed(chunk));
    }
}

#[test]
fn empty_chunk_changes_nothing() {
    let mut rule = ForbiddenSequenceRule::new_with_score(vec!["ab"], "r", 5);
    assert_eq!(rule.feed("ab"), block("r"));
    assert_eq!(rule.last_score(), 5);
    // The score of the last answer stays.
    assert_eq!(rule.feed(""), Decision::Allow);
    assert_eq!(rule.last_score(), 5);
    assert_eq!(rule.feed("x"), Decision::Allow);
    assert_eq!(rule.last_score(), 0);

    let mut rule = ForbiddenSequenceRule::with_gaps(vec!["ab"], "r");
    assert_eq!(rule.feed("a"), Decision::Allow);
    assert_eq!(rule.feed(""), Decision::Allow);
    assert_eq!(rule.feed("b"), block("r"));
}

#[test]
fn match_starts_the_rule_over() {
    let mut rule = ForbiddenSequenceRule::with_gaps(vec!["a", "b"], "r");
    // What follows the match in the same chunk is dropped.
    assert_eq!(rule.feed("a b a"), block("r"));
    assert_eq!(rule.feed("b"), Decision::Allow);
    assert_eq!(rule.feed("a"), Decision::Allow);
    assert_eq!(rule.feed("b"), block("r"));
}

#[test]
fn tokens_are_found_in_order_only() {
    let mut rule = ForbiddenSequenceRule::with_gaps(vec!["one", "two"], "r");
    assert_eq!(rule.feed("two one"), Decision::Allow);
    assert_eq!(rule.feed(" two"), block("r"));
}

#[test]
fn tokens_do_not_overlap() {
    let mut rule = ForbiddenSequenceRule::with_gaps(vec!["aba", "ab"], "r");
    assert_eq!(rule.feed("abab"), Decision::Allow);
    assert_eq!(rule.feed("ab"), block("r"));

    let mut rule = ForbiddenSequenceRule::with_gaps(vec!["aa", "aa"], "r");
    assert_eq!(rule.feed("aaa"), Decision::Allow);
    assert_eq!(rule.feed("a"), block("r"));
}

#[test]
fn carry_keeps_enough_for_a_split_token() {
    let mut rule = ForbiddenSequenceRule::with_gaps(vec!["needle"], "r");
    let hay = "x".repeat(1000);
    assert_eq!(rule.feed(&hay), Decision::Allow);
    assert_eq!(rule.feed("need"), Decision::Allow);
    assert_eq!(rule.feed(&"le".to_string()), block("r"));

    let mut rule = ForbiddenSequenceRule::with_gaps(vec!["needle"], "r");
    assert_eq!(rule.feed(&format!("{}needl", hay)), Decision::Allow);
    assert_eq!(rule.feed("e"), block("r"));
}

#[test]
fn rewrite_shows_carry_and_chunk() {
    let mut rule = ForbiddenSequenceRule::new_with_rewrite(vec!["pass", "word"], "*");
    assert_eq!(rule.feed("my pass is "), Decision::Allow);
    // The carry is what stands behind the token found last.
    assert_eq!(rule.feed("a word, a pass"), rewrite(" is a *, a *"));
    assert_eq!(rule.last_score(), 0);
    assert_eq!(rule.feed("word"), Decision::Allow);
}

#[test]
fn rewrite_replaces_token_after_token() {
    // The second token is searched in what the first replacement left.
    let mut rule = ForbiddenSequenceRule::new_with_rewrite(vec!["ab", "xx"], "x");
    assert_eq!(rule.feed("ab xx abx"), rewrite("x x x"));

    let mut rule = ForbiddenSequenceRule::new_with_rewrite(vec!["a", "b"], "b");
    assert_eq!(rule.feed("a-b"), rewrite("b-b"));

    let mut rule = ForbiddenSequenceRule::new_with_rewrite(vec!["a", "b"], "");
    assert_eq!(rule.feed("xaybz"), rewrite("xyz"));
}

#[test]
fn rewrite_of_bytes_that_are_no_text() {
    // The carry is cut to the bytes of the longest token. Here the cut falls
    // into a character of two bytes; its second byte is shown as U+FFFD.
    let mut rule = ForbiddenSequenceRule::new_with_rewrite(vec!["ab"], "*");
    assert_eq!(rule.feed("ééx"), Decision::Allow);
    assert_eq!(rule.feed("ab"), rewrite("\u{fffd}x*"));
    // A cut between two characters shows nothing of the kind.
    let mut rule = ForbiddenSequenceRule::new_with_rewrite(vec!["ab"], "*");
    assert_eq!(rule.feed("ééé"), Decision::Allow);
    assert_eq!(rule.feed("ab"), rewrite("é*"));
}

#[test]
fn stop_word_goes_before_tokens() {
    let config = SequenceConfig::new().stop_words(vec!["not"]);
    let mut rule = ForbiddenSequenceRule::new(vec!["do", "it"], "r", config);
    // The stop word is found first, wherever it stands in the chunk.
    assert_eq!(rule.feed("do it not"), Decision::Allow);
    assert_eq!(rule.feed("do it"), block("r"));
    // The carry is searched for the stop word too.
    assert_eq!(rule.feed("do no"), Decision::Allow);
    assert_eq!(rule.feed("t it"), Decision::Allow);
    assert_eq!(rule.feed("it"), Decision::Allow);
    assert_eq!(rule.feed("do it"), block("r"));
}

#[test]
fn empty_stop_word_stops_everything() {
    let config = SequenceConfig::new().stop_words(vec![""]);
    let mut rule = ForbiddenSequenceRule::new(vec!["a"], "r", config);
    assert_eq!(rule.feed("a"), Decision::Allow);
}

#[test]
fn config_builders() {
    let config = SequenceConfig::new();
    assert!(config.allow_gaps);
    assert!(config.stop_words.is_empty());
    let config = SequenceConfig::default();
    assert!(config.allow_gaps);
    assert!(config.stop_words.is_empty());
    let config = SequenceConfig::strict();
    assert!(!config.allow_gaps);
    assert!(config.stop_words.is_empty());
    let config = SequenceConfig::strict().allow_gaps(true).stop_words(vec!["a", "b"]);
    assert!(config.allow_gaps);
    assert_eq!(config.stop_words, vec!["a".to_string(), "b".to_string()]);
    let config = config.stop_words(vec!["c".to_string()]).allow_gaps(false);
    assert!(!config.allow_gaps);
    assert_eq!(config.stop_words, vec!["c".to_string()]);
}

#[test]
fn strict_rule_takes_next_token_at_start_only() {
    let mut rule = ForbiddenSequenceRule::strict(vec!["a", "b", "c"], "r");
    assert_eq!(rule.feed("xx a"), Decision::Allow);
    assert_eq!(rule.feed(" \t\n"), Decision::Allow);
    assert_eq!(rule.feed("  b trailing"), Decision::Allow);
    // What followed `b` is still there, and it is not `c`.
    assert_eq!(rule.feed("c"), Decision::Allow);
    // The rule was thrown back and starts over.
    assert_eq!(rule.feed("a"), Decision::Allow);
    assert_eq!(rule.feed("b"), Decision::Allow);
    assert_eq!(rule.feed("c"), block("r"));
}

#[test]
fn strict_rule_takes_one_token_per_chunk_once_under_way() {
    let mut rule = ForbiddenSequenceRule::strict(vec!["a", "b", "c"], "r");
    assert_eq!(rule.feed("a"), Decision::Allow);
    assert_eq!(rule.feed("b c"), Decision::Allow);
    assert_eq!(rule.feed(" "), block("r"));
}

#[test]
fn strict_rule_finds_first_token_with_gaps() {
    // Before the first token is found, a strict rule searches with gaps.
    let mut rule = ForbiddenSequenceRule::strict(vec!["a", "b"], "r");
    assert_eq!(rule.feed("a x b"), block("r"));
    let mut rule = ForbiddenSequenceRule::strict(vec!["a", "b"], "r");
    assert_eq!(rule.feed("a "), Decision::Allow);
    assert_eq!(rule.feed("x b"), Decision::Allow);
}

#[test]
fn strict_rule_waits_for_a_token_cut_by_the_chunk() {
    let mut rule = ForbiddenSequenceRule::strict(vec!["secret", "key"], "r");
    assert_eq!(rule.feed("secret "), Decision::Allow);
    assert_eq!(rule.feed("k"), Decision::Allow);
    assert_eq!(rule.feed("ey"), block("r"));

    let mut rule = ForbiddenSequenceRule::strict(vec!["one", "two"], "r");
    assert_eq!(rule.feed("one"), Decision::Allow);
    assert_eq!(rule.feed(" tw"), Decision::Allow);
    assert_eq!(rule.feed("o"), block("r"));

    // The cut may fall into the white space, and byte by byte into the token.
    let mut rule = ForbiddenSequenceRule::strict(vec!["one", "two"], "r");
    for chunk in ["one", " ", "\n", "t", "w"] {
        assert_eq!(rule.feed(chunk), Decision::Allow, "{:?}", chunk);
    }
    assert_eq!(rule.feed("o"), block("r"));
}

#[test]
fn strict_rule_is_thrown_back_by_another_first_byte() {
    let mut rule = ForbiddenSequenceRule::strict(vec!["one", "two"], "r");
    assert_eq!(rule.feed("one"), Decision::Allow);
    assert_eq!(rule.feed(" x"), Decision::Allow);
    // The rule starts over: `two` alone is nothing to it now.
    assert_eq!(rule.feed("two"), Decision::Allow);
    assert_eq!(rule.feed("one"), Decision::Allow);
    assert_eq!(rule.feed("two"), block("r"));
}

#[test]
fn strict_rule_carries_little_of_a_long_rest() {
    // Behind `b` stand ten bytes. The rule carries the last of them, which
    // is not the start of `c`.
    let mut rule = ForbiddenSequenceRule::strict(vec!["a", "b", "c"], "r");
    assert_eq!(rule.feed("a"), Decision::Allow);
    assert_eq!(rule.feed("bzzzzzzzzzz"), Decision::Allow);
    assert_eq!(rule.feed("c"), Decision::Allow);
    assert_eq!(rule.feed("a"), Decision::Allow);
    assert_eq!(rule.feed("b"), Decision::Allow);
    assert_eq!(rule.feed("c"), block("r"));
}

#[test]
fn strict_rule_waits_while_the_first_byte_fits() {
    // `tx` begins like `two`, so the rule is not thrown back; and what it
    // carries never begins with `two`, so it does not go on either.
    let mut rule = ForbiddenSequenceRule::strict(vec!["one", "two"], "r");
    assert_eq!(rule.feed("one"), Decision::Allow);
    assert_eq!(rule.feed(" tx"), Decision::Allow);
    assert_eq!(rule.feed("two"), Decision::Allow);
    // The carry, `txtwo`, is cut down once it is longer than six bytes. Its
    // last three bytes then begin with another byte, and the rule starts over.
    assert_eq!(rule.feed("yy"), Decision::Allow);
    assert_eq!(rule.feed("one"), Decision::Allow);
    assert_eq!(rule.feed("one"), Decision::Allow);
    assert_eq!(rule.feed(" two"), block("r"));
}

#[test]
fn reset_returns_to_the_start() {
    let mut rule = ForbiddenSequenceRule::new_with_score(vec!["a", "b"], "r", 7);
    assert_eq!(rule.feed("a b"), block("r"));
    assert_eq!(rule.last_score(), 7);
    rule.reset();
    assert_eq!(rule.last_score(), 0);
    assert_eq!(rule.feed("a"), Decision::Allow);
    rule.reset();
    assert_eq!(rule.feed("b"), Decision::Allow);
    assert_eq!(rule.feed("a"), Decision::Allow);
    assert_eq!(rule.feed("b"), block("r"));
}

#[test]
fn cutting_the_text_does_not_change_the_verdict() {
    let tokens = vec!["ab", "b", "cab"];
    let texts = [
        ("abbcab", true),
        ("ab-b-cab", true),
        ("xxabxxxxxxxxbxcabx", true),
        ("abcab", false),
        ("abbca", false),
        ("babcabab", false),
        ("cabbab", false),
        ("aébécab", false),
        ("abébécab", true),
        ("", false),
    ];
    for (text, expected) in texts {
        for cut in cuttings(text, 3) {
            let mut rule = ForbiddenSequenceRule::with_gaps(tokens.clone(), "r");
            assert_eq!(fires_within(&mut rule, &cut), expected, "{:?}", cut);
        }
    }
}

#[test]
fn cutting_a_long_text_does_not_change_the_verdict() {
    let gap = "-".repeat(50);
    let text = format!("{}ab{}b{}cab{}", gap, gap, gap, gap);
    for width in [1, 2, 3, 5, 7, 11, 49, 50, 51, 200] {
        let mut rule = ForbiddenSequenceRule::with_gaps(vec!["ab", "b", "cab"], "r");
        let chunks: Vec<String> =
            text.as_bytes().chunks(width).map(|c| String::from_utf8(c.to_vec()).unwrap()).collect();
        let chunks: Vec<&str> = chunks.iter().map(|c| c.as_str()).collect();
        assert!(fires_within(&mut rule, &chunks), "width {}", width);
    }
}

#[test]
fn strict_rule_depends_on_the_cutting() {
    let mut rule = ForbiddenSequenceRule::strict(vec!["a", "b"], "r");
    assert!(fires_within(&mut rule, &["a x b"]));
    let mut rule = ForbiddenSequenceRule::strict(vec!["a", "b"], "r");
    assert!(!fires_within(&mut rule, &["a ", "x b"]));
}

#[test]
fn stop_word_depends_on_the_cutting() {
    let config = SequenceConfig::new().stop_words(vec!["not"]);
    let mut rule = ForbiddenSequenceRule::new(vec!["do", "it"], "r", config.clone());
    assert!(!fires_within(&mut rule, &["not do it"]));
    let mut rule = ForbiddenSequenceRule::new(vec!["do", "it"], "r", config);
    assert!(fires_within(&mut rule, &["not ", "do it"]));
}
