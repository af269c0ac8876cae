//! The engine: it shows each chunk to its rules in order, adds up their
//! scores, composes their rewrites and latches once the stream is blocked.

use vstd::prelude::*;

use crate::decision::{Decision, Rule, Verdict};

verus! {

/// How rewrites of several rules are combined.
#[derive(Debug, Clone, Copy, PartialEq, Eq, Structural)]
pub enum RewriteMode {
    /// The first rewrite is the answer.
    FirstWins,
    /// Each rewrite becomes the text that the next rule sees.
    Chain,
}

/// The decay coefficient 1, in parts per million.
pub const DECAY_ONE: u32 = 1_000_000;

/// What one rule gave back for a chunk: its answer, the score it reports for
/// that answer, and its name.
pub struct Outcome {
    pub verdict: Verdict,
    pub score: u32,
    pub name: Seq<char>,
}

/// The running result of one chunk while the rules are asked in turn.
pub struct Tally {
    /// Sum of the positive scores so far, capped at `u32::MAX`.
    pub score: u32,
    /// The text that the next rule is shown.
    pub text: Seq<char>,
    /// Whether a rewrite was chained into `text`.
    pub rewritten: bool,
    /// The first answer that ends the stream, if there was one.
    pub first: Option<Verdict>,
    /// Name and score of each rule that scored, in order.
    pub details: Seq<(Seq<char>, u32)>,
}

/// The model of an engine.
pub struct EngineState {
    pub stopped: bool,
    pub threshold: Option<u32>,
    pub score: u32,
    /// Decay coefficient in parts per million, at most `DECAY_ONE`.
    pub decay: u32,
    pub mode: RewriteMode,
    pub details: Seq<(Seq<char>, u32)>,
    pub rule_count: nat,
}

/// Addition that stops at `u32::MAX`.
pub open spec fn capped_sum(a: u32, b: u32) -> u32 {
    if a + b > u32::MAX {
        u32::MAX
    } else {
        (a + b) as u32
    }
}

/// A score after one decay step: `score * (1 - decay)`, rounded toward zero.
pub open spec fn decayed(score: u32, decay: u32) -> u32 {
    if decay >= DECAY_ONE {
        0
    } else {
        ((score as int * (DECAY_ONE - decay)) / (DECAY_ONE as int)) as u32
    }
}

/// The character of a decimal digit.
pub open spec fn digit_char(d: nat) -> char {
    if d == 0 {
        '0'
    } else if d == 1 {
        '1'
    } else if d == 2 {
        '2'
    } else if d == 3 {
        '3'
    } else if d == 4 {
        '4'
    } else if d == 5 {
        '5'
    } else if d == 6 {
        '6'
    } else if d == 7 {
        '7'
    } else if d == 8 {
        '8'
    } else {
        '9'
    }
}

/// A number written in decimal, without leading zeros.
pub open spec fn decimal_text(n: nat) -> Seq<char>
    decreases n,
{
    if n < 10 {
        seq![digit_char(n)]
    } else {
        decimal_text(n / 10).push(digit_char(n % 10))
    }
}

/// The reason given once the stream is blocked.
pub open spec fn blocked_reason() -> Seq<char> {
    "stream already blocked"@
}

/// The reason given when the cumulative score reaches the threshold.
pub open spec fn threshold_reason(score: u32, threshold: u32) -> Seq<char> {
    "score threshold exceeded: "@ + decimal_text(score as nat) + " >= "@ + decimal_text(
        threshold as nat,
    )
}

impl Tally {
    /// The tally before any rule was asked.
    pub open spec fn start(chunk: Seq<char>) -> Tally {
        Tally { score: 0, text: chunk, rewritten: false, first: None, details: Seq::empty() }
    }

    /// The tally with the score of `o` added, where it is positive.
    pub open spec fn scored(self, o: Outcome) -> Tally {
        if o.score > 0 {
            Tally {
                score: capped_sum(self.score, o.score),
                details: self.details.push((o.name, o.score)),
                ..self
            }
        } else {
            self
        }
    }

    /// The tally after one more rule gave `o`.
    ///
    /// A block counts only where the engine does not score; a rewrite is
    /// chained in chain mode and otherwise counts like a block, whether or
    /// not the engine scores.
    pub open spec fn record(self, scoring: bool, mode: RewriteMode, o: Outcome) -> Tally {
        let t = self.scored(o);
        match o.verdict {
            Verdict::Allow => t,
            Verdict::Block(_) => if !scoring && t.first is None {
                Tally { first: Some(o.verdict), ..t }
            } else {
                t
            },
            Verdict::Rewrite(text) => if mode == RewriteMode::Chain {
                Tally { text: text, rewritten: true, ..t }
            } else if t.first is None {
                Tally { first: Some(o.verdict), ..t }
            } else {
                t
            },
        }
    }

    /// The tally after the rules gave `outcomes`, in order.
    pub open spec fn of(
        scoring: bool,
        mode: RewriteMode,
        chunk: Seq<char>,
        outcomes: Seq<Outcome>,
    ) -> Tally
        decreases outcomes.len(),
    {
        if outcomes.len() == 0 {
            Tally::start(chunk)
        } else {
            Tally::of(scoring, mode, chunk, outcomes.drop_last()).record(
                scoring,
                mode,
                outcomes.last(),
            )
        }
    }
}

/// Every entry holds a positive score.
pub open spec fn all_scored(details: Seq<(Seq<char>, u32)>) -> bool {
    forall|i: int| 0 <= i < details.len() ==> (#[trigger] details[i]).1 > 0
}

/// A tally holds an entry for each rule that scored, and for no other.
pub proof fn tally_details(
    scoring: bool,
    mode: RewriteMode,
    chunk: Seq<char>,
    outcomes: Seq<Outcome>,
)
    ensures
        all_scored(Tally::of(scoring, mode, chunk, outcomes).details),
        Tally::of(scoring, mode, chunk, outcomes).details.len() <= outcomes.len(),
    decreases outcomes.len(),
{
    if outcomes.len() > 0 {
        tally_details(scoring, mode, chunk, outcomes.drop_last());
    }
}

/// The sum of the scores that the rules reported.
pub open spec fn total_score(outcomes: Seq<Outcome>) -> nat
    decreases outcomes.len(),
{
    if outcomes.len() == 0 {
        0
    } else {
        total_score(outcomes.drop_last()) + outcomes.last().score as nat
    }
}

/// Whether an answer counts as one that ends the stream: blocks count
/// unless the engine scores, rewrites count unless the engine chains them.
pub open spec fn counts(scoring: bool, mode: RewriteMode, verdict: Verdict) -> bool {
    match verdict {
        Verdict::Allow => false,
        Verdict::Block(_) => !scoring,
        Verdict::Rewrite(_) => mode == RewriteMode::FirstWins,
    }
}

/// The first answer that counts, if there is one.
pub open spec fn first_answer(
    scoring: bool,
    mode: RewriteMode,
    outcomes: Seq<Outcome>,
) -> Option<Verdict>
    decreases outcomes.len(),
{
    if outcomes.len() == 0 {
        None
    } else if first_answer(scoring, mode, outcomes.drop_last()) is Some {
        first_answer(scoring, mode, outcomes.drop_last())
    } else if counts(scoring, mode, outcomes.last().verdict) {
        Some(outcomes.last().verdict)
    } else {
        None
    }
}

/// The score of a tally is the sum of the scores that the rules reported,
/// capped at `u32::MAX`.
pub proof fn tally_score_is_sum(
    scoring: bool,
    mode: RewriteMode,
    chunk: Seq<char>,
    outcomes: Seq<Outcome>,
)
    ensures
        Tally::of(scoring, mode, chunk, outcomes).score == if total_score(outcomes) > u32::MAX {
            u32::MAX as nat
        } else {
            total_score(outcomes)
        },
    decreases outcomes.len(),
{
    if outcomes.len() > 0 {
        tally_score_is_sum(scoring, mode, chunk, outcomes.drop_last());
    }
}

/// A tally holds, as the answer that ends the stream, the first answer that
/// counts.
pub proof fn tally_first_answer(
    scoring: bool,
    mode: RewriteMode,
    chunk: Seq<char>,
    outcomes: Seq<Outcome>,
)
    ensures
        Tally::of(scoring, mode, chunk, outcomes).first == first_answer(scoring, mode, outcomes),
    decreases outcomes.len(),
{
    if outcomes.len() > 0 {
        tally_first_answer(scoring, mode, chunk, outcomes.drop_last());
    }
}

/// The text of a tally is the chunk, or in chain mode the latest rewrite.
pub proof fn tally_text(scoring: bool, mode: RewriteMode, chunk: Seq<char>, outcomes: Seq<Outcome>)
    ensures
        mode == RewriteMode::FirstWins ==> {
            &&& Tally::of(scoring, mode, chunk, outcomes).text == chunk
            &&& !Tally::of(scoring, mode, chunk, outcomes).rewritten
        },
        !Tally::of(scoring, mode, chunk, outcomes).rewritten ==> Tally::of(
            scoring,
            mode,
            chunk,
            outcomes,
        ).text == chunk,
        Tally::of(scoring, mode, chunk, outcomes).rewritten ==> exists|i: int|
            0 <= i < outcomes.len() && (#[trigger] outcomes[i]).verdict == Verdict::Rewrite(
                Tally::of(scoring, mode, chunk, outcomes).text,
            ),
    decreases outcomes.len(),
{
    if outcomes.len() > 0 {
        let head = outcomes.drop_last();
        tally_text(scoring, mode, chunk, head);
        let before = Tally::of(scoring, mode, chunk, head);
        let after = Tally::of(scoring, mode, chunk, outcomes);
        if after.rewritten {
            if outcomes.last().verdict is Rewrite && mode == RewriteMode::Chain {
                assert(outcomes[outcomes.len() - 1].verdict == Verdict::Rewrite(after.text));
            } else {
                let i = choose|i: int|
                    0 <= i < head.len() && (#[trigger] head[i]).verdict == Verdict::Rewrite(
                        before.text,
                    );
                assert(outcomes[i] == head[i]);
            }
        }
    }
}

/// A tally holds a positive score exactly if some rule scored.
pub proof fn tally_scores_with_details(
    scoring: bool,
    mode: RewriteMode,
    chunk: Seq<char>,
    outcomes: Seq<Outcome>,
)
    ensures
        Tally::of(scoring, mode, chunk, outcomes).score == 0 <==> Tally::of(
            scoring,
            mode,
            chunk,
            outcomes,
        ).details.len() == 0,
    decreases outcomes.len(),
{
    if outcomes.len() > 0 {
        tally_scores_with_details(scoring, mode, chunk, outcomes.drop_last());
    }
}

impl EngineState {
    /// What holds of every engine: the decay coefficient is at most 1, and
    /// the score details hold positive scores only.
    pub open spec fn wf(self) -> bool {
        &&& self.decay <= DECAY_ONE
        &&& all_scored(self.details)
    }

    /// Whether single blocks are held back so that scores can add up.
    pub open spec fn scoring(self) -> bool {
        self.threshold is Some || self.decay > 0
    }

    /// The cumulative score after a chunk whose rules scored `chunk_score`.
    pub open spec fn next_score(self, chunk_score: u32) -> u32 {
        let sum = capped_sum(self.score, chunk_score);
        if chunk_score == 0 && self.decay > 0 && sum > 0 {
            decayed(sum, self.decay)
        } else {
            sum
        }
    }

    /// The state and the answer once all rules were asked.
    pub open spec fn settle(self, t: Tally) -> (EngineState, Verdict) {
        let score = self.next_score(t.score);
        let open = EngineState { score: score, details: t.details, ..self };
        let shut = EngineState { stopped: true, ..open };
        if self.threshold is Some && score >= self.threshold->0 {
            (shut, Verdict::Block(threshold_reason(score, self.threshold->0)))
        } else if t.first is Some {
            (shut, t.first->0)
        } else if t.rewritten {
            (open, Verdict::Rewrite(t.text))
        } else {
            (open, Verdict::Allow)
        }
    }
}

/// Name and score of each entry, by the view of the name.
pub open spec fn details_view(entries: Seq<(String, u32)>) -> Seq<(Seq<char>, u32)> {
    entries.map_values(|e: (String, u32)| (e.0@, e.1))
}

/// Adds two scores, stopping at `u32::MAX`.
pub fn add_capped(a: u32, b: u32) -> (sum: u32)
    ensures
        sum == capped_sum(a, b),
{
    if a > u32::MAX - b {
        u32::MAX
    } else {
        a + b
    }
}

/// Applies one decay step to a score.
pub fn decay_score(score: u32, decay: u32) -> (left: u32)
    ensures
        left == decayed(score, decay),
        left <= score,
{
    if decay >= DECAY_ONE {
        0
    } else {
        let keep: u64 = (DECAY_ONE - decay) as u64;
        assert(score as int * keep as int <= score as int * (DECAY_ONE as int)) by (nonlinear_arith)
            requires
                0 <= keep <= DECAY_ONE,
                0 <= score,
        ;
        assert(score as int * (DECAY_ONE as int) <= 0xffff_ffff * 1_000_000) by (nonlinear_arith)
            requires
                score <= 0xffff_ffff,
                DECAY_ONE == 1_000_000,
        ;
        let product: u64 = (score as u64) * keep;
        assert(product as int / (DECAY_ONE as int) <= score as int) by (nonlinear_arith)
            requires
                product as int <= score as int * (DECAY_ONE as int),
                DECAY_ONE == 1_000_000,
                0 <= score,
        ;
        (product / (DECAY_ONE as u64)) as u32
    }
}

/// The text of one decimal digit.
fn digit_text(d: u32) -> (text: &'static str)
    requires
        d < 10,
    ensures
        text@ == seq![digit_char(d as nat)],
{
    proof {
        reveal_strlit("0");
        reveal_strlit("1");
        reveal_strlit("2");
        reveal_strlit("3");
        reveal_strlit("4");
        reveal_strlit("5");
        reveal_strlit("6");
        reveal_strlit("7");
        reveal_strlit("8");
        reveal_strlit("9");
    }
    let text = if d == 0 {
        "0"
    } else if d == 1 {
        "1"
    } else if d == 2 {
        "2"
    } else if d == 3 {
        "3"
    } else if d == 4 {
        "4"
    } else if d == 5 {
        "5"
    } else if d == 6 {
        "6"
    } else if d == 7 {
        "7"
    } else if d == 8 {
        "8"
    } else {
        "9"
    };
    assert(text@ =~= seq![digit_char(d as nat)]);
    text
}

/// Writes a number in decimal.
pub fn decimal(n: u32) -> (text: String)
    ensures
        text@ == decimal_text(n as nat),
    decreases n,
{
    if n < 10 {
        digit_text(n).to_owned()
    } else {
        let mut text = decimal(n / 10);
        text.append(digit_text(n % 10));
        assert(text@ =~= decimal_text(n as nat));
        text
    }
}

/// Writes the reason for a block by the score threshold.
pub fn threshold_message(score: u32, threshold: u32) -> (text: String)
    ensures
        text@ == threshold_reason(score, threshold),
{
    let mut text = "score threshold exceeded: ".to_owned();
    let left = decimal(score);
    text.append(left.as_str());
    text.append(" >= ");
    let right = decimal(threshold);
    text.append(right.as_str());
    text
}

/// The running result of one chunk while the engine asks its rules.
pub struct ChunkTally {
    score: u32,
    text: String,
    has_rewrite: bool,
    first: Option<Decision>,
    details: Vec<(String, u32)>,
}

impl View for ChunkTally {
    type V = Tally;

    closed spec fn view(&self) -> Tally {
        Tally {
            score: self.score,
            text: self.text@,
            rewritten: self.has_rewrite,
            first: match self.first {
                Some(d) => Some(d@),
                None => None,
            },
            details: details_view(self.details@),
        }
    }
}

impl ChunkTally {
    /// The tally of a chunk before any rule was asked.
    pub fn start(chunk: &str) -> (tally: ChunkTally)
        ensures
            tally@ == Tally::start(chunk@),
    {
        let tally = ChunkTally {
            score: 0,
            text: chunk.to_owned(),
            has_rewrite: false,
            first: None,
            details: Vec::new(),
        };
        assert(details_view(tally.details@) =~= Seq::empty());
        tally
    }

    /// The text to show to the next rule.
    pub fn text(&self) -> (text: &str)
        ensures
            text@ == self@.text,
    {
        self.text.as_str()
    }

    /// Takes in what one rule gave back: its answer, its score and its name.
    pub fn record(
        &mut self,
        scoring: bool,
        mode: RewriteMode,
        decision: Decision,
        score: u32,
        name: &str,
    )
        ensures
            final(self)@ == old(self)@.record(
                scoring,
                mode,
                Outcome { verdict: decision@, score: score, name: name@ },
            ),
    {
        if score > 0 {
            self.score = add_capped(self.score, score);
            let ghost before = self.details@;
            let entry = (name.to_owned(), score);
            self.details.push(entry);
            assert(details_view(self.details@) =~= details_view(before).push((name@, score)));
        }
        match decision {
            Decision::Allow => {},
            Decision::Block { reason } => {
                if !scoring && self.first.is_none() {
                    self.first = Some(Decision::Block { reason });
                }
            },
            Decision::Rewrite { replacement } => {
                match mode {
                    RewriteMode::Chain => {
                        self.text = replacement;
                        self.has_rewrite = true;
                    },
                    RewriteMode::FirstWins => {
                        if self.first.is_none() {
                            self.first = Some(Decision::Rewrite { replacement });
                        }
                    },
                }
            },
        }
    }
}

/// The streaming guardrail engine.
///
/// It owns its rules. Each chunk is shown to every rule, in the order in
/// which the rules were added; nothing of the stream is kept by the engine
/// itself.
pub struct GuardEngine {
    rules: Vec<Box<dyn Rule>>,
    stopped: bool,
    score_threshold: Option<u32>,
    current_score: u32,
    score_decay: u32,
    rewrite_mode: RewriteMode,
    score_details: Vec<(String, u32)>,
}

impl View for GuardEngine {
    type V = EngineState;

    closed spec fn view(&self) -> EngineState {
        EngineState {
            stopped: self.stopped,
            threshold: self.score_threshold,
            score: self.current_score,
            decay: self.score_decay,
            mode: self.rewrite_mode,
            details: details_view(self.score_details@),
            rule_count: self.rules@.len(),
        }
    }
}

impl GuardEngine {
    /// The rules of the engine, in the order in which they are asked.
    pub closed spec fn rules(&self) -> Seq<Box<dyn Rule>> {
        self.rules@
    }

    /// Each outcome holds the answer of the rule at its place to the text
    /// that the rule was shown: the chunk, or in chain mode the latest
    /// rewrite of the rules before it.
    pub open spec fn answered(
        rules: Seq<Box<dyn Rule>>,
        scoring: bool,
        mode: RewriteMode,
        chunk: Seq<char>,
        outcomes: Seq<Outcome>,
    ) -> bool {
        forall|k: int|
            0 <= k < outcomes.len() ==> (#[trigger] outcomes[k]).verdict == rules[k].answer(
                Tally::of(scoring, mode, chunk, outcomes.take(k)).text,
            )
    }

    /// The model counts the rules of the engine.
    pub proof fn rules_counted(&self)
        ensures
            self@.rule_count == self.rules().len(),
    {
    }

    /// The state of an engine that was just made: no rules, not stopped,
    /// score 0, with the given threshold, decay and rewrite mode.
    pub open spec fn fresh(threshold: Option<u32>, decay: u32, mode: RewriteMode) -> EngineState {
        EngineState {
            stopped: false,
            threshold: threshold,
            score: 0,
            decay: decay,
            mode: mode,
            details: Seq::empty(),
            rule_count: 0,
        }
    }

    /// An engine without rules, threshold or decay, in first-wins mode.
    pub fn new() -> (engine: GuardEngine)
        ensures
            engine@ == GuardEngine::fresh(None, 0, RewriteMode::FirstWins),
            engine.rules().len() == 0,
    {
        let engine = GuardEngine {
            rules: Vec::new(),
            stopped: false,
            score_threshold: None,
            current_score: 0,
            score_decay: 0,
            rewrite_mode: RewriteMode::FirstWins,
            score_details: Vec::new(),
        };
        assert(details_view(engine.score_details@) =~= Seq::empty());
        engine
    }

    /// An engine that blocks once the cumulative score reaches `threshold`.
    pub fn with_score_threshold(threshold: u32) -> (engine: GuardEngine)
        ensures
            engine@ == GuardEngine::fresh(Some(threshold), 0, RewriteMode::FirstWins),
    {
        let mut engine = GuardEngine::new();
        engine.score_threshold = Some(threshold);
        engine
    }

    /// An engine whose cumulative score decays on every chunk that scores
    /// nothing. The coefficient is given in parts per million and is capped
    /// at `DECAY_ONE`, which stands for 1.
    pub fn with_score_decay(decay_rate: u32) -> (engine: GuardEngine)
        ensures
            engine@ == GuardEngine::fresh(
                None,
                if decay_rate > DECAY_ONE {
                    DECAY_ONE
                } else {
                    decay_rate
                },
                RewriteMode::FirstWins,
            ),
    {
        let mut engine = GuardEngine::new();
        engine.score_decay = if decay_rate > DECAY_ONE {
            DECAY_ONE
        } else {
            decay_rate
        };
        engine
    }

    /// An engine in which each rewrite becomes the input of the next rule.
    pub fn with_rewrite_chain() -> (engine: GuardEngine)
        ensures
            engine@ == GuardEngine::fresh(None, 0, RewriteMode::Chain),
    {
        let mut engine = GuardEngine::new();
        engine.rewrite_mode = RewriteMode::Chain;
        engine
    }

    /// Adds a rule behind those already there.
    pub fn add_rule(&mut self, rule: Box<dyn Rule>)
        ensures
            final(self).rules() == old(self).rules().push(rule),
            final(self)@ == (EngineState { rule_count: old(self)@.rule_count + 1, ..old(self)@ }),
    {
        proof {
            vstd::seq::axiom_seq_push_len(self.rules@, rule);
        }
        self.rules.push(rule);
    }

    /// Closes a chunk: adds its score to the cumulative score, applies decay
    /// where the chunk scored nothing, and gives the answer. The threshold
    /// comes first, then the first answer that ends the stream, then a
    /// chained rewrite. The latch is set with either of the first two.
    pub fn settle(&mut self, tally: ChunkTally) -> (decision: Decision)
        ensures
            (final(self)@, decision@) == old(self)@.settle(tally@),
            final(self).rules() == old(self).rules(),
    {
        let sum = add_capped(self.current_score, tally.score);
        if tally.score == 0 && self.score_decay > 0 && sum > 0 {
            self.current_score = decay_score(sum, self.score_decay);
        } else {
            self.current_score = sum;
        }
        self.score_details = tally.details;
        if let Some(threshold) = self.score_threshold {
            if self.current_score >= threshold {
                self.stopped = true;
                return Decision::Block {
                    reason: threshold_message(self.current_score, threshold),
                };
            }
        }
        if let Some(first) = tally.first {
            self.stopped = true;
            return first;
        }
        if tally.has_rewrite {
            Decision::Rewrite { replacement: tally.text }
        } else {
            Decision::Allow
        }
    }

    /// Takes the next chunk of the stream and answers for it.
    ///
    /// A stopped engine answers with a block and asks no rule. An empty chunk
    /// passes and no rule is asked. Otherwise every rule is asked in order,
    /// and the answer is what `settle` makes of what the rules gave back.
    pub fn feed(&mut self, chunk: &str) -> (decision: Decision)
        ensures
            old(self)@.stopped ==> {
                &&& decision@ == Verdict::Block(blocked_reason())
                &&& *final(self) == *old(self)
            },
            !old(self)@.stopped && chunk@.len() == 0 ==> {
                &&& decision@ == Verdict::Allow
                &&& *final(self) == *old(self)
            },
            !old(self)@.stopped && chunk@.len() > 0 ==> exists|outcomes: Seq<Outcome>|
                {
                    &&& outcomes.len() == old(self)@.rule_count
                    &&& GuardEngine::answered(
                        old(self).rules(),
                        old(self)@.scoring(),
                        old(self)@.mode,
                        chunk@,
                        outcomes,
                    )
                    &&& (final(self)@, decision@) == old(self)@.settle(
                        #[trigger] Tally::of(
                            old(self)@.scoring(),
                            old(self)@.mode,
                            chunk@,
                            outcomes,
                        ),
                    )
                },
            !old(self)@.stopped && chunk@.len() > 0 ==> {
                &&& all_scored(final(self)@.details)
                &&& final(self)@.details.len() <= final(self)@.rule_count
            },
            old(self)@.wf() ==> final(self)@.wf(),
            decision@ is Block ==> final(self)@.stopped,
            final(self)@.score < old(self)@.score ==> {
                &&& old(self)@.decay > 0
                &&& final(self)@.details.len() == 0
                &&& final(self)@.score == decayed(old(self)@.score, old(self)@.decay)
            },
            !old(self)@.stopped && chunk@.len() > 0 && final(self)@.threshold is Some
                && final(self)@.score >= final(self)@.threshold->0 ==> {
                &&& final(self)@.stopped
                &&& decision@ == Verdict::Block(
                    threshold_reason(final(self)@.score, final(self)@.threshold->0),
                )
            },
    {
        if self.stopped {
            return Decision::Block { reason: "stream already blocked".to_owned() };
        }
        if chunk.is_empty() {
            return Decision::Allow;
        }
        let scoring = self.score_threshold.is_some() || self.score_decay > 0;
        let mode = self.rewrite_mode;
        let mut tally = ChunkTally::start(chunk);
        let count = self.rules.len();
        let ghost mut outcomes: Seq<Outcome> = Seq::empty();
        let mut i: usize = 0;
        while i < count
            invariant
                i <= count,
                count == self.rules@.len() == old(self).rules@.len(),
                self@ == old(self)@,
                outcomes.len() == i,
                tally@ == Tally::of(scoring, mode, chunk@, outcomes),
                forall|j: int| i <= j < count ==> self.rules@[j] == old(self).rules@[j],
                GuardEngine::answered(old(self).rules@, scoring, mode, chunk@, outcomes),
            decreases count - i,
        {
            let ghost rules_before = self.rules@;
            let ghost shown = tally@.text;
            let decision = self.rules[i].feed(tally.text());
            proof {
                let after = self.rules@[i as int];
                vstd::seq::axiom_seq_update_len(rules_before, i as int, after);
                assert forall|j: int| i < j < count implies self.rules@[j] == old(
                    self,
                ).rules@[j] by {
                    vstd::seq::axiom_seq_update_different(rules_before, j, i as int, after);
                }
            }
            let score = self.rules[i].last_score();
            let name = self.rules[i].name();
            let ghost outcome = Outcome { verdict: decision@, score: score, name: name@ };
            tally.record(scoring, mode, decision, score, name);
            proof {
                let longer = outcomes.push(outcome);
                assert(longer.drop_last() =~= outcomes);
                assert forall|k: int| 0 <= k < longer.len() implies (#[trigger] longer[k]).verdict
                    == old(self).rules@[k].answer(
                    Tally::of(scoring, mode, chunk@, longer.take(k)).text,
                ) by {
                    assert(longer.take(k) =~= outcomes.take(k));
                    if k < i {
                        assert(longer[k] == outcomes[k]);
                    } else {
                        assert(outcomes.take(k) =~= outcomes);
                        assert(decision@ == rules_before[i as int].answer(shown));
                    }
                }
                outcomes = longer;
            }
            i += 1;
        }
        let ghost last = tally@;
        let decision = self.settle(tally);
        assert(last == Tally::of(old(self)@.scoring(), old(self)@.mode, chunk@, outcomes));
        assert((self@, decision@) == old(self)@.settle(last));
        proof {
            tally_scores_with_details(old(self)@.scoring(), old(self)@.mode, chunk@, outcomes);
            tally_details(old(self)@.scoring(), old(self)@.mode, chunk@, outcomes);
        }
        decision
    }

    /// Starts a new stream: clears the latch, the cumulative score and the
    /// score details, and resets every rule.
    pub fn reset(&mut self)
        ensures
            final(self)@ == (EngineState {
                stopped: false,
                score: 0,
                details: Seq::empty(),
                ..old(self)@
            }),
    {
        self.stopped = false;
        self.current_score = 0;
        self.score_details.clear();
        assert(details_view(self.score_details@) =~= Seq::empty());
        let count = self.rules.len();
        let mut i: usize = 0;
        while i < count
            invariant
                i <= count,
                count == self.rules@.len(),
                self@ == (EngineState {
                    stopped: false,
                    score: 0,
                    details: Seq::empty(),
                    ..old(self)@
                }),
            decreases count - i,
        {
            let ghost rules_before = self.rules@;
            self.rules[i].reset();
            proof {
                vstd::seq::axiom_seq_update_len(rules_before, i as int, self.rules@[i as int]);
            }
            i += 1;
        }
    }

    /// Whether the stream is blocked.
    pub fn is_stopped(&self) -> (stopped: bool)
        ensures
            stopped == self@.stopped,
    {
        self.stopped
    }

    /// The number of rules.
    pub fn rule_count(&self) -> (count: usize)
        ensures
            count == self@.rule_count,
    {
        self.rules.len()
    }

    /// The cumulative score.
    pub fn current_score(&self) -> (score: u32)
        ensures
            score == self@.score,
    {
        self.current_score
    }

    /// Name and score of each rule that scored on the most recent chunk, in
    /// the order of the rules.
    pub fn score_details(&self) -> (details: &[(String, u32)])
        ensures
            details_view(details@) == self@.details,
    {
        self.score_details.as_slice()
    }
}

impl Default for GuardEngine {
    /// An engine without rules, threshold or decay, in first-wins mode.
    fn default() -> (engine: GuardEngine)
        ensures
            engine@ == GuardEngine::fresh(None, 0, RewriteMode::FirstWins),
    {
        GuardEngine::new()
    }
}

} // verus!
