//! The engine: latch, empty chunks, scores, decay, threshold, composition.

use streamguard::rules::{ForbiddenSequenceRule, PatternRule};
use streamguard::{ChunkTally, Decision, GuardEngine, RewriteMode, Rule};

/// A rule that answers with what it was made with, whatever it is fed, and
/// counts how often it was asked.
struct Fixed {
    answer: Decision,
    score: u32,
    name: String,
    asked: std::sync::Arc<std::sync::Mutex<Vec<String>>>,
}

impl Fixed {
    fn new(answer: Decision, score: u32, name: &str) -> (Fixed, std::sync::Arc<std::sync::Mutex<Vec<String>>>) {
        let asked = std::sync::Arc::new(std::sync::Mutex::new(Vec::new()));
        (Fixed { answer, score, name: name.to_string(), asked: asked.clone() }, asked)
    }
}

impl Rule for Fixed {
    fn feed(&mut self, chunk: &str) -> Decision {
        self.asked.lock().unwrap().push(chunk.to_string());
        self.answer.clone()
    }

    fn reset(&mut self) {
        self.asked.lock().unwrap().push("<reset>".to_string());
    }

    fn name(&self) -> &str {
        &self.name
    }

    fn last_score(&self) -> u32 {
        self.score
    }
}

/// A rule with the default name and score.
struct Plain;

impl Rule for Plain {
    fn feed(&mut self, _chunk: &str) -> Decision {
        Decision::Block { reason: "plain".to_string() }
    }

    fn reset(&mut self) {}
}

fn block(reason: &str) -> Decision {
    Decision::Block { reason: reason.to_string() }
}

fn rewrite(text: &str) -> Decision {
    Decision::Rewrite { replacement: text.to_string() }
}

#[test]
fn stopped_engine_blocks_everything_and_asks_no_rule() {
    let (rule, asked) = Fixed::new(block("no"), 0, "fixed");
    let mut engine = GuardEngine::new();
    engine.add_rule(Box::new(rule));

    assert_eq!(engine.feed("x"), block("no"));
    assert!(engine.is_stopped());
    assert_eq!(asked.lock().unwrap().len(), 1);

    for chunk in ["again", "", "anything else"] {
        assert_eq!(engine.feed(chunk), block("stream already blocked"));
        assert!(engine.is_stopped());
    }
    assert_eq!(asked.lock().unwrap().len(), 1);
}

#[test]
fn empty_chunk_passes_and_asks_no_rule() {
    let (rule, asked) = Fixed::new(block("no"), 7, "fixed");
    let mut engine = GuardEngine::new();
    engine.add_rule(Box::new(rule));

    assert_eq!(engine.feed(""), Decision::Allow);
    assert!(!engine.is_stopped());
    assert_eq!(engine.current_score(), 0);
    assert!(asked.lock().unwrap().is_empty());
}

#[test]
fn empty_chunk_leaves_partial_match_alone() {
    let mut engine = GuardEngine::new();
    engine.add_rule(Box::new(PatternRule::email("email")));
    assert_eq!(engine.feed("user@exam"), Decision::Allow);
    assert_eq!(engine.feed(""), Decision::Allow);
    assert_eq!(engine.feed("ple.com"), block("email"));
}

#[test]
fn rules_are_asked_in_order_with_the_chunk() {
    let (first, asked_first) = Fixed::new(Decision::Allow, 0, "first");
    let (second, asked_second) = Fixed::new(Decision::Allow, 0, "second");
    let mut engine = GuardEngine::new();
    engine.add_rule(Box::new(first));
    engine.add_rule(Box::new(second));
    assert_eq!(engine.rule_count(), 2);

    assert_eq!(engine.feed("abc"), Decision::Allow);
    assert_eq!(*asked_first.lock().unwrap(), vec!["abc".to_string()]);
    assert_eq!(*asked_second.lock().unwrap(), vec!["abc".to_string()]);
}

#[test]
fn default_name_and_score_of_a_rule() {
    let rule = Plain;
    assert_eq!(rule.name(), "unnamed_rule");
    assert_eq!(rule.last_score(), 0);

    let mut engine = GuardEngine::new();
    engine.add_rule(Box::new(Plain));
    assert_eq!(engine.feed("x"), block("plain"));
    assert!(engine.score_details().is_empty());
}

#[test]
fn first_wins_takes_first_answer_but_asks_all() {
    let (first, _) = Fixed::new(rewrite("one"), 0, "first");
    let (second, asked_second) = Fixed::new(block("two"), 0, "second");
    let mut engine = GuardEngine::new();
    engine.add_rule(Box::new(first));
    engine.add_rule(Box::new(second));

    assert_eq!(engine.feed("abc"), rewrite("one"));
    // A first rewrite ends the stream as a block does.
    assert!(engine.is_stopped());
    // The second rule saw the chunk itself, not the rewrite.
    assert_eq!(*asked_second.lock().unwrap(), vec!["abc".to_string()]);
}

#[test]
fn chain_mode_feeds_rewrite_to_next_rule() {
    let (first, _) = Fixed::new(rewrite("one"), 0, "first");
    let (second, asked_second) = Fixed::new(rewrite("two"), 0, "second");
    let (third, asked_third) = Fixed::new(Decision::Allow, 0, "third");
    let mut engine = GuardEngine::with_rewrite_chain();
    engine.add_rule(Box::new(first));
    engine.add_rule(Box::new(second));
    engine.add_rule(Box::new(third));

    assert_eq!(engine.feed("abc"), rewrite("two"));
    assert!(!engine.is_stopped());
    assert_eq!(*asked_second.lock().unwrap(), vec!["one".to_string()]);
    assert_eq!(*asked_third.lock().unwrap(), vec!["two".to_string()]);
}

#[test]
fn chain_mode_block_beats_chained_rewrite() {
    let (first, _) = Fixed::new(rewrite("one"), 0, "first");
    let (second, _) = Fixed::new(block("stop"), 0, "second");
    let mut engine = GuardEngine::with_rewrite_chain();
    engine.add_rule(Box::new(first));
    engine.add_rule(Box::new(second));

    assert_eq!(engine.feed("abc"), block("stop"));
    assert!(engine.is_stopped());
}

#[test]
fn scoring_engine_holds_back_blocks_but_not_rewrites() {
    let (blocker, _) = Fixed::new(block("no"), 10, "blocker");
    let mut engine = GuardEngine::with_score_threshold(100);
    engine.add_rule(Box::new(blocker));
    assert_eq!(engine.feed("x"), Decision::Allow);
    assert!(!engine.is_stopped());
    assert_eq!(engine.current_score(), 10);

    let (rewriter, _) = Fixed::new(rewrite("r"), 10, "rewriter");
    let mut engine = GuardEngine::with_score_threshold(100);
    engine.add_rule(Box::new(rewriter));
    assert_eq!(engine.feed("x"), rewrite("r"));
    assert!(engine.is_stopped());
    assert_eq!(engine.current_score(), 10);
}

#[test]
fn threshold_beats_recorded_answer() {
    let (rewriter, _) = Fixed::new(rewrite("r"), 5, "rewriter");
    let mut engine = GuardEngine::with_score_threshold(5);
    engine.add_rule(Box::new(rewriter));
    assert_eq!(engine.feed("x"), block("score threshold exceeded: 5 >= 5"));
    assert!(engine.is_stopped());
}

#[test]
fn threshold_zero_blocks_first_chunk_that_is_not_empty() {
    let mut engine = GuardEngine::with_score_threshold(0);
    assert_eq!(engine.feed(""), Decision::Allow);
    assert_eq!(engine.feed("x"), block("score threshold exceeded: 0 >= 0"));
    assert!(engine.is_stopped());
}

#[test]
fn threshold_reached_over_several_chunks() {
    let mut engine = GuardEngine::with_score_threshold(100);
    engine.add_rule(Box::new(ForbiddenSequenceRule::new_with_score(vec!["bad"], "bad", 40)));
    assert_eq!(engine.feed("bad"), Decision::Allow);
    assert_eq!(engine.feed("bad"), Decision::Allow);
    assert_eq!(engine.current_score(), 80);
    assert_eq!(engine.feed("bad"), block("score threshold exceeded: 120 >= 100"));
    assert_eq!(engine.feed("good"), block("stream already blocked"));
    assert_eq!(engine.current_score(), 120);
}

#[test]
fn score_never_drops_without_decay() {
    let mut engine = GuardEngine::with_score_threshold(1000);
    engine.add_rule(Box::new(ForbiddenSequenceRule::new_with_score(vec!["bad"], "bad", 3)));
    let mut last = 0;
    for chunk in ["a", "bad", "b", "c", "bad bad", "bad", "zzz"] {
        engine.feed(chunk);
        assert!(engine.current_score() >= last);
        last = engine.current_score();
    }
    assert_eq!(last, 9);
}

#[test]
fn decay_rounds_toward_zero_and_only_on_chunks_without_score() {
    let mut engine = GuardEngine::with_score_decay(500_000);
    engine.add_rule(Box::new(ForbiddenSequenceRule::new_with_score(vec!["bad"], "bad", 101)));
    engine.feed("bad");
    assert_eq!(engine.current_score(), 101);
    engine.feed("bad");
    assert_eq!(engine.current_score(), 202);
    let mut seen = Vec::new();
    for _ in 0..9 {
        engine.feed("ok");
        seen.push(engine.current_score());
    }
    assert_eq!(seen, vec![101, 50, 25, 12, 6, 3, 1, 0, 0]);
}

#[test]
fn decay_of_a_third_and_of_one() {
    let mut engine = GuardEngine::with_score_decay(333_333);
    engine.add_rule(Box::new(ForbiddenSequenceRule::new_with_score(vec!["bad"], "bad", 100)));
    engine.feed("bad");
    engine.feed("ok");
    // 100 * 666667 / 1000000 = 66.6667
    assert_eq!(engine.current_score(), 66);

    for rate in [1_000_000, 1_000_001, u32::MAX] {
        let mut engine = GuardEngine::with_score_decay(rate);
        engine.add_rule(Box::new(ForbiddenSequenceRule::new_with_score(vec!["bad"], "bad", 100)));
        engine.feed("bad");
        assert_eq!(engine.current_score(), 100);
        engine.feed("ok");
        assert_eq!(engine.current_score(), 0);
    }
}

#[test]
fn decay_zero_is_no_scoring() {
    let (blocker, _) = Fixed::new(block("no"), 10, "blocker");
    let mut engine = GuardEngine::with_score_decay(0);
    engine.add_rule(Box::new(blocker));
    assert_eq!(engine.feed("x"), block("no"));
    assert!(engine.is_stopped());
}

#[test]
fn decay_of_largest_score() {
    let (scorer, _) = Fixed::new(Decision::Allow, u32::MAX, "max");
    let mut engine = GuardEngine::with_score_decay(1);
    engine.add_rule(Box::new(scorer));
    engine.feed("x");
    assert_eq!(engine.current_score(), u32::MAX);
    engine.reset();
    assert_eq!(engine.current_score(), 0);
}

#[test]
fn cumulative_score_stops_at_the_largest_number() {
    let (first, _) = Fixed::new(Decision::Allow, u32::MAX - 1, "first");
    let (second, _) = Fixed::new(Decision::Allow, 5, "second");
    let mut engine = GuardEngine::new();
    engine.add_rule(Box::new(first));
    engine.add_rule(Box::new(second));
    engine.feed("x");
    assert_eq!(engine.current_score(), u32::MAX);
    engine.feed("y");
    assert_eq!(engine.current_score(), u32::MAX);
    let details = engine.score_details();
    assert_eq!(details.len(), 2);
    assert_eq!(details[0], ("first".to_string(), u32::MAX - 1));
    assert_eq!(details[1], ("second".to_string(), 5));
}

#[test]
fn threshold_message_with_largest_numbers() {
    let (scorer, _) = Fixed::new(Decision::Allow, u32::MAX, "max");
    let mut engine = GuardEngine::with_score_threshold(u32::MAX);
    engine.add_rule(Box::new(scorer));
    assert_eq!(
        engine.feed("x"),
        block("score threshold exceeded: 4294967295 >= 4294967295")
    );
}

#[test]
fn score_details_hold_scoring_rules_of_last_chunk_in_order() {
    let (a, _) = Fixed::new(Decision::Allow, 3, "a");
    let (b, _) = Fixed::new(Decision::Allow, 0, "b");
    let (c, _) = Fixed::new(Decision::Allow, 4, "c");
    let mut engine = GuardEngine::new();
    engine.add_rule(Box::new(a));
    engine.add_rule(Box::new(b));
    engine.add_rule(Box::new(c));
    engine.feed("x");
    assert_eq!(
        engine.score_details().to_vec(),
        vec![("a".to_string(), 3), ("c".to_string(), 4)]
    );
    assert_eq!(engine.current_score(), 7);
    // An empty chunk changes nothing.
    engine.feed("");
    assert_eq!(engine.score_details().len(), 2);
    assert_eq!(engine.current_score(), 7);
}

#[test]
fn reset_clears_latch_score_details_and_rules() {
    let (rule, asked) = Fixed::new(block("no"), 9, "fixed");
    let mut engine = GuardEngine::new();
    engine.add_rule(Box::new(rule));
    engine.feed("x");
    assert!(engine.is_stopped());
    assert_eq!(engine.current_score(), 9);

    engine.reset();
    assert!(!engine.is_stopped());
    assert_eq!(engine.current_score(), 0);
    assert!(engine.score_details().is_empty());
    assert_eq!(engine.rule_count(), 1);
    assert_eq!(*asked.lock().unwrap(), vec!["x".to_string(), "<reset>".to_string()]);
}

#[test]
fn default_engine_is_new_engine() {
    let mut engine = GuardEngine::default();
    assert_eq!(engine.rule_count(), 0);
    assert!(!engine.is_stopped());
    assert_eq!(engine.current_score(), 0);
    assert_eq!(engine.feed("anything"), Decision::Allow);
}

#[test]
fn tally_records_outcomes() {
    // Without scoring, in first-wins mode: the first block counts.
    let mut tally = ChunkTally::start("chunk");
    assert_eq!(tally.text(), "chunk");
    tally.record(false, RewriteMode::FirstWins, Decision::Allow, 0, "a");
    tally.record(false, RewriteMode::FirstWins, block("one"), 2, "b");
    tally.record(false, RewriteMode::FirstWins, rewrite("two"), 3, "c");
    assert_eq!(tally.text(), "chunk");
    let mut engine = GuardEngine::new();
    assert_eq!(engine.settle(tally), block("one"));
    assert!(engine.is_stopped());
    assert_eq!(engine.current_score(), 5);
    assert_eq!(
        engine.score_details().to_vec(),
        vec![("b".to_string(), 2), ("c".to_string(), 3)]
    );

    // With scoring, the block is held back and the rewrite counts.
    let mut tally = ChunkTally::start("chunk");
    tally.record(true, RewriteMode::FirstWins, block("one"), 2, "b");
    tally.record(true, RewriteMode::FirstWins, rewrite("two"), 3, "c");
    let mut engine = GuardEngine::with_score_threshold(6);
    assert_eq!(engine.settle(tally), rewrite("two"));
    assert!(engine.is_stopped());

    // In chain mode the text follows the rewrites.
    let mut tally = ChunkTally::start("chunk");
    tally.record(false, RewriteMode::Chain, rewrite("two"), 0, "c");
    assert_eq!(tally.text(), "two");
    tally.record(false, RewriteMode::Chain, rewrite("three"), 0, "d");
    assert_eq!(tally.text(), "three");
    let mut engine = GuardEngine::with_rewrite_chain();
    assert_eq!(engine.settle(tally), rewrite("three"));
    assert!(!engine.is_stopped());
}

#[test]
fn settle_without_outcomes_passes() {
    let tally = ChunkTally::start("chunk");
    let mut engine = GuardEngine::with_score_decay(500_000);
    assert_eq!(engine.settle(tally), Decision::Allow);
    assert_eq!(engine.current_score(), 0);
    assert!(!engine.is_stopped());
}
