//! Detection of structured patterns: email addresses, URLs, IPv4 addresses
//! and credit card numbers, or a plain literal.
//!
//! A pattern rule appends each chunk to a bounded buffer and tests the whole
//! buffer, so a pattern split over chunks is found once it is complete.

use vstd::prelude::*;

use crate::decision::{Decision, Rule, Verdict};
use crate::rules::detect;
use crate::rules::redact;
use crate::text;

verus! {

/// The patterns that come ready-made.
#[derive(Debug, Clone, Copy, PartialEq, Eq, Structural)]
pub enum PatternPreset {
    /// Email addresses.
    Email,
    /// Email addresses; detected exactly as `Email`.
    EmailStrict,
    /// URLs with `http://` or `https://`.
    Url,
    /// IPv4 addresses.
    Ipv4,
    /// Credit card numbers.
    CreditCard,
}

/// The most that a pattern rule keeps of the stream, in bytes.
pub const MAX_BUFFER: usize = 500;

impl PatternPreset {
    /// The pattern of the preset in the notation of regular expressions. It is
    /// kept for reference; detection does not read it.
    pub open spec fn pattern_text(self) -> Seq<char> {
        match self {
            PatternPreset::Email => r"[a-zA-Z0-9._%+-]+@[a-zA-Z0-9.-]+\.[a-zA-Z]{2,}"@,
            PatternPreset::EmailStrict => r"[a-zA-Z0-9.!#$%&'*+/=?^_`{|}~-]+@[a-zA-Z0-9](?:[a-zA-Z0-9-]{0,61}[a-zA-Z0-9])?(?:\.[a-zA-Z0-9](?:[a-zA-Z0-9-]{0,61}[a-zA-Z0-9])?)*"@,
            PatternPreset::Url => r"https?://[a-zA-Z0-9.-]+(?:\.[a-zA-Z]{2,})+(?:/[^\s]*)?"@,
            PatternPreset::Ipv4 => r"\b(?:[0-9]{1,3}\.){3}[0-9]{1,3}\b"@,
            PatternPreset::CreditCard => r"\b(?:\d{4}[- ]?){3}\d{4}\b"@,
        }
    }

    /// What the preset is called.
    pub open spec fn description_text(self) -> Seq<char> {
        match self {
            PatternPreset::Email => "email address"@,
            PatternPreset::EmailStrict => "email address (strict)"@,
            PatternPreset::Url => "URL"@,
            PatternPreset::Ipv4 => "IPv4 address"@,
            PatternPreset::CreditCard => "credit card number"@,
        }
    }

    /// The pattern of the preset in the notation of regular expressions.
    pub fn pattern(&self) -> (pattern: &'static str)
        ensures
            pattern@ == self.pattern_text(),
    {
        match self {
            PatternPreset::Email => r"[a-zA-Z0-9._%+-]+@[a-zA-Z0-9.-]+\.[a-zA-Z]{2,}",
            PatternPreset::EmailStrict => r"[a-zA-Z0-9.!#$%&'*+/=?^_`{|}~-]+@[a-zA-Z0-9](?:[a-zA-Z0-9-]{0,61}[a-zA-Z0-9])?(?:\.[a-zA-Z0-9](?:[a-zA-Z0-9-]{0,61}[a-zA-Z0-9])?)*",
            PatternPreset::Url => r"https?://[a-zA-Z0-9.-]+(?:\.[a-zA-Z]{2,})+(?:/[^\s]*)?",
            PatternPreset::Ipv4 => r"\b(?:[0-9]{1,3}\.){3}[0-9]{1,3}\b",
            PatternPreset::CreditCard => r"\b(?:\d{4}[- ]?){3}\d{4}\b",
        }
    }

    /// What the preset is called.
    pub fn description(&self) -> (description: &'static str)
        ensures
            description@ == self.description_text(),
    {
        match self {
            PatternPreset::Email => "email address",
            PatternPreset::EmailStrict => "email address (strict)",
            PatternPreset::Url => "URL",
            PatternPreset::Ipv4 => "IPv4 address",
            PatternPreset::CreditCard => "credit card number",
        }
    }
}

/// What a pattern rule looks for.
#[derive(Debug, Clone)]
pub struct PatternConfig {
    preset: Option<PatternPreset>,
    pattern: String,
    description: String,
    case_insensitive: bool,
}

/// The model of a `PatternConfig`.
pub struct ConfigModel {
    /// The preset, or `None` for a literal.
    pub preset: Option<PatternPreset>,
    /// The literal to find; for a preset, its pattern for reference.
    pub pattern: Seq<char>,
    pub description: Seq<char>,
    /// Whether the ASCII capital letters of the text are turned to small
    /// letters before it is tested.
    pub case_insensitive: bool,
}

impl View for PatternConfig {
    type V = ConfigModel;

    closed spec fn view(&self) -> ConfigModel {
        ConfigModel {
            preset: self.preset,
            pattern: self.pattern@,
            description: self.description@,
            case_insensitive: self.case_insensitive,
        }
    }
}

impl ConfigModel {
    /// The configuration of a preset.
    pub open spec fn of_preset(preset: PatternPreset) -> ConfigModel {
        ConfigModel {
            preset: Some(preset),
            pattern: preset.pattern_text(),
            description: preset.description_text(),
            case_insensitive: false,
        }
    }

    /// The configuration of a literal.
    pub open spec fn of_literal(pattern: Seq<char>, description: Seq<char>) -> ConfigModel {
        ConfigModel {
            preset: None,
            pattern: pattern,
            description: description,
            case_insensitive: false,
        }
    }

    /// The text as it is tested: turned to small letters where the case does
    /// not count.
    pub open spec fn seen(self, t: Seq<u8>) -> Seq<u8> {
        if self.case_insensitive {
            text::lowered(t)
        } else {
            t
        }
    }

    /// Whether the text holds the pattern. A preset has its own test; a
    /// literal is searched for.
    pub open spec fn matches(self, t: Seq<u8>) -> bool {
        match self.preset {
            Some(PatternPreset::Email) => detect::email_like(self.seen(t)),
            Some(PatternPreset::EmailStrict) => detect::email_like(self.seen(t)),
            Some(PatternPreset::Url) => detect::url_like(self.seen(t)),
            Some(PatternPreset::Ipv4) => detect::ipv4_like(self.seen(t)),
            Some(PatternPreset::CreditCard) => detect::card_like(self.seen(t)),
            None => text::contains(self.seen(t), self.seen(text::bytes(self.pattern))),
        }
    }

    /// The text with each occurrence of the pattern replaced by `to`. A
    /// literal is not rewritten.
    pub open spec fn rewritten(self, t: Seq<u8>, to: Seq<u8>) -> Seq<u8> {
        match self.preset {
            Some(PatternPreset::Email) => redact::emails_redacted(t, to),
            Some(PatternPreset::EmailStrict) => redact::emails_redacted(t, to),
            Some(PatternPreset::Url) => redact::urls_redacted(t, to),
            Some(PatternPreset::Ipv4) => redact::ipv4_redacted(t, to),
            Some(PatternPreset::CreditCard) => redact::cards_redacted(t, to),
            None => t,
        }
    }
}

impl PatternConfig {
    /// The configuration of a preset.
    pub fn from_preset(preset: PatternPreset) -> (config: PatternConfig)
        ensures
            config@ == ConfigModel::of_preset(preset),
    {
        PatternConfig {
            preset: Some(preset),
            pattern: preset.pattern().to_owned(),
            description: preset.description().to_owned(),
            case_insensitive: false,
        }
    }

    /// The configuration of a literal to find.
    pub fn custom(pattern: &str, description: &str) -> (config: PatternConfig)
        ensures
            config@ == ConfigModel::of_literal(pattern@, description@),
    {
        PatternConfig {
            preset: None,
            pattern: pattern.to_owned(),
            description: description.to_owned(),
            case_insensitive: false,
        }
    }

    /// Sets whether the case of letters counts. Matching is on bytes: where the
    /// case does not count, the ASCII letters `A` to `Z` are taken for `a` to
    /// `z`, and every other byte stays as it is.
    pub fn case_insensitive(self, enabled: bool) -> (config: PatternConfig)
        ensures
            config@ == (ConfigModel { case_insensitive: enabled, ..self@ }),
    {
        let mut config = self;
        config.case_insensitive = enabled;
        config
    }

    /// The pattern.
    pub fn pattern(&self) -> (pattern: &str)
        ensures
            pattern@ == self@.pattern,
    {
        self.pattern.as_str()
    }
}

/// The model of a pattern rule: what it was made with, and what it holds of
/// the stream.
pub struct PatternModel {
    pub config: ConfigModel,
    pub reason: Seq<char>,
    /// With a replacement the rule rewrites; without one it blocks.
    pub replacement: Option<Seq<u8>>,
    /// The end of the stream so far, `MAX_BUFFER` bytes at most.
    pub buffer: Seq<u8>,
}

/// The last `MAX_BUFFER` bytes of `buf`, or all of it if it is shorter.
pub open spec fn kept(buf: Seq<u8>) -> Seq<u8> {
    if buf.len() > MAX_BUFFER {
        text::tail(buf, buf.len() - MAX_BUFFER)
    } else {
        buf
    }
}

impl PatternModel {
    /// A rule as it is made: it holds nothing of the stream.
    pub open spec fn fresh(
        config: ConfigModel,
        reason: Seq<char>,
        replacement: Option<Seq<u8>>,
    ) -> PatternModel {
        PatternModel {
            config: config,
            reason: reason,
            replacement: replacement,
            buffer: Seq::empty(),
        }
    }

    /// What holds of every rule: its buffer is within the bound.
    pub open spec fn wf(self) -> bool {
        self.buffer.len() <= MAX_BUFFER
    }

    /// The rule as `reset` leaves it.
    pub open spec fn cleared(self) -> PatternModel {
        PatternModel { buffer: Seq::empty(), ..self }
    }

    /// The answer to a match on the text `buf`: `buf` rewritten, where the
    /// rule rewrites, and a block otherwise.
    pub open spec fn verdict(self, buf: Seq<u8>) -> Verdict {
        match self.replacement {
            Some(to) => Verdict::Rewrite(text::lossy_text(self.config.rewritten(buf, to))),
            None => Verdict::Block(self.reason),
        }
    }

    /// The rule after a chunk, and its answer.
    ///
    /// An empty chunk passes and changes nothing. Otherwise the chunk is
    /// appended to the buffer. If the whole holds the pattern, the rule
    /// answers and empties its buffer. If not, the chunk passes, and the end
    /// of the whole is kept.
    pub open spec fn respond(self, chunk: Seq<u8>) -> (PatternModel, Verdict) {
        let buf = self.buffer + chunk;
        if chunk.len() == 0 {
            (self, Verdict::Allow)
        } else if self.config.matches(buf) {
            (self.cleared(), self.verdict(buf))
        } else {
            (PatternModel { buffer: kept(buf), ..self }, Verdict::Allow)
        }
    }
}

/// A rule that answers when its buffer holds its pattern.
pub struct PatternRule {
    config: PatternConfig,
    buffer: Vec<u8>,
    reason: String,
    replacement: Option<Vec<u8>>,
}

impl View for PatternRule {
    type V = PatternModel;

    closed spec fn view(&self) -> PatternModel {
        PatternModel {
            config: self.config@,
            reason: self.reason@,
            replacement: match self.replacement {
                Some(to) => Some(to@),
                None => None,
            },
            buffer: self.buffer@,
        }
    }
}

impl PatternRule {
    #[verifier::type_invariant]
    spec fn inv(&self) -> bool {
        self@.wf()
    }

    /// A rule that blocks with `reason` when it finds the preset.
    pub fn from_preset(preset: PatternPreset, reason: &str) -> (rule: PatternRule)
        ensures
            rule@ == PatternModel::fresh(ConfigModel::of_preset(preset), reason@, None),
    {
        PatternRule {
            config: PatternConfig::from_preset(preset),
            buffer: Vec::new(),
            reason: reason.to_owned(),
            replacement: None,
        }
    }

    /// A rule that blocks on an email address.
    pub fn email(reason: &str) -> (rule: PatternRule)
        ensures
            rule@ == PatternModel::fresh(
                ConfigModel::of_preset(PatternPreset::Email),
                reason@,
                None,
            ),
    {
        Self::from_preset(PatternPreset::Email, reason)
    }

    /// A rule that blocks on an email address, made with the strict preset.
    pub fn email_strict(reason: &str) -> (rule: PatternRule)
        ensures
            rule@ == PatternModel::fresh(
                ConfigModel::of_preset(PatternPreset::EmailStrict),
                reason@,
                None,
            ),
    {
        Self::from_preset(PatternPreset::EmailStrict, reason)
    }

    /// A rule that blocks on a URL.
    pub fn url(reason: &str) -> (rule: PatternRule)
        ensures
            rule@ == PatternModel::fresh(ConfigModel::of_preset(PatternPreset::Url), reason@, None),
    {
        Self::from_preset(PatternPreset::Url, reason)
    }

    /// A rule that blocks on an IPv4 address.
    pub fn ipv4(reason: &str) -> (rule: PatternRule)
        ensures
            rule@ == PatternModel::fresh(
                ConfigModel::of_preset(PatternPreset::Ipv4),
                reason@,
                None,
            ),
    {
        Self::from_preset(PatternPreset::Ipv4, reason)
    }

    /// A rule that blocks on a credit card number.
    pub fn credit_card(reason: &str) -> (rule: PatternRule)
        ensures
            rule@ == PatternModel::fresh(
                ConfigModel::of_preset(PatternPreset::CreditCard),
                reason@,
                None,
            ),
    {
        Self::from_preset(PatternPreset::CreditCard, reason)
    }

    fn rewriting(preset: PatternPreset, reason: &str, replacement: &str) -> (rule: PatternRule)
        ensures
            rule@ == PatternModel::fresh(
                ConfigModel::of_preset(preset),
                reason@,
                Some(text::bytes(replacement@)),
            ),
    {
        let source = replacement.as_bytes();
        let to = text::copy_range(source, 0, source.len());
        assert(source@.subrange(0, source@.len() as int) =~= source@);
        PatternRule {
            config: PatternConfig::from_preset(preset),
            buffer: Vec::new(),
            reason: reason.to_owned(),
            replacement: Some(to),
        }
    }

    /// A rule that puts `replacement` in the place of each email address.
    pub fn email_rewrite(replacement: &str) -> (rule: PatternRule)
        ensures
            rule@ == PatternModel::fresh(
                ConfigModel::of_preset(PatternPreset::Email),
                "email redacted"@,
                Some(text::bytes(replacement@)),
            ),
    {
        Self::rewriting(PatternPreset::Email, "email redacted", replacement)
    }

    /// A rule that puts `replacement` in the place of each URL.
    pub fn url_rewrite(replacement: &str) -> (rule: PatternRule)
        ensures
            rule@ == PatternModel::fresh(
                ConfigModel::of_preset(PatternPreset::Url),
                "url redacted"@,
                Some(text::bytes(replacement@)),
            ),
    {
        Self::rewriting(PatternPreset::Url, "url redacted", replacement)
    }

    /// A rule that puts `replacement` in the place of each IPv4 address.
    pub fn ipv4_rewrite(replacement: &str) -> (rule: PatternRule)
        ensures
            rule@ == PatternModel::fresh(
                ConfigModel::of_preset(PatternPreset::Ipv4),
                "ip redacted"@,
                Some(text::bytes(replacement@)),
            ),
    {
        Self::rewriting(PatternPreset::Ipv4, "ip redacted", replacement)
    }

    /// A rule that puts `replacement` in the place of each card number.
    pub fn credit_card_rewrite(replacement: &str) -> (rule: PatternRule)
        ensures
            rule@ == PatternModel::fresh(
                ConfigModel::of_preset(PatternPreset::CreditCard),
                "card redacted"@,
                Some(text::bytes(replacement@)),
            ),
    {
        Self::rewriting(PatternPreset::CreditCard, "card redacted", replacement)
    }

    /// A rule that blocks with `reason` when it finds the literal `pattern`.
    pub fn custom(pattern: &str, reason: &str, description: &str) -> (rule: PatternRule)
        ensures
            rule@ == PatternModel::fresh(
                ConfigModel::of_literal(pattern@, description@),
                reason@,
                None,
            ),
    {
        PatternRule {
            config: PatternConfig::custom(pattern, description),
            buffer: Vec::new(),
            reason: reason.to_owned(),
            replacement: None,
        }
    }

    /// A rule that blocks with `reason` when it finds what `config` says.
    pub fn with_config(config: PatternConfig, reason: &str) -> (rule: PatternRule)
        ensures
            rule@ == PatternModel::fresh(config@, reason@, None),
    {
        PatternRule {
            config: config,
            buffer: Vec::new(),
            reason: reason.to_owned(),
            replacement: None,
        }
    }

    /// Tells whether the text holds the pattern of the rule.
    pub fn matches_pattern(&self, t: &[u8]) -> (yes: bool)
        ensures
            yes == self@.config.matches(t@),
    {
        let folded: Vec<u8>;
        let seen: &[u8] = if self.config.case_insensitive {
            folded = text::to_lower(t);
            folded.as_slice()
        } else {
            t
        };
        match self.config.preset {
            Some(PatternPreset::Email) => Self::check_email_pattern(seen),
            Some(PatternPreset::EmailStrict) => Self::check_email_pattern(seen),
            Some(PatternPreset::Url) => Self::check_url_pattern(seen),
            Some(PatternPreset::Ipv4) => Self::check_ipv4_pattern(seen),
            Some(PatternPreset::CreditCard) => Self::check_credit_card_pattern(seen),
            None => {
                let literal = self.config.pattern.as_str().as_bytes();
                if self.config.case_insensitive {
                    let small = text::to_lower(literal);
                    text::search(seen, small.as_slice()).is_some()
                } else {
                    text::search(seen, literal).is_some()
                }
            },
        }
    }

    /// Replaces each occurrence of the pattern of the rule by `to`.
    pub fn rewrite_text(&self, t: &[u8], to: &[u8]) -> (out: Vec<u8>)
        ensures
            out@ == self@.config.rewritten(t@, to@),
    {
        match self.config.preset {
            Some(PatternPreset::Email) => Self::rewrite_emails(t, to),
            Some(PatternPreset::EmailStrict) => Self::rewrite_emails(t, to),
            Some(PatternPreset::Url) => Self::rewrite_urls(t, to),
            Some(PatternPreset::Ipv4) => Self::rewrite_ipv4(t, to),
            Some(PatternPreset::CreditCard) => Self::rewrite_credit_cards(t, to),
            None => {
                let out = text::copy_range(t, 0, t.len());
                assert(out@ =~= t@);
                out
            },
        }
    }
}

impl Rule for PatternRule {
    /// The answer that the model gives.
    open spec fn answer(&self, chunk: Seq<char>) -> Verdict {
        self@.respond(text::bytes(chunk)).1
    }

    /// Takes the next chunk and answers as the model says.
    fn feed(&mut self, chunk: &str) -> (decision: Decision)
        ensures
            (final(self)@, decision@) == old(self)@.respond(text::bytes(chunk@)),
            chunk@.len() == 0 ==> decision@ is Allow && final(self)@ == old(self)@,
            final(self)@.wf(),
    {
        proof {
            text::bytes_empty(chunk@);
            use_type_invariant(&*self);
        }
        if chunk.is_empty() {
            return Decision::Allow;
        }
        let mut buf: Vec<u8> = Vec::new();
        text::append(&mut buf, self.buffer.as_slice());
        text::append(&mut buf, chunk.as_bytes());
        assert(buf@ =~= self@.buffer + text::bytes(chunk@));
        if self.matches_pattern(buf.as_slice()) {
            let decision = match &self.replacement {
                Some(to) => {
                    let rewritten = self.rewrite_text(buf.as_slice(), to.as_slice());
                    Decision::Rewrite { replacement: text::to_text(rewritten.as_slice()) }
                },
                None => Decision::Block { reason: self.reason.clone() },
            };
            self.buffer = Vec::new();
            decision
        } else {
            let size = buf.len();
            if size > MAX_BUFFER {
                let left = text::copy_range(buf.as_slice(), size - MAX_BUFFER, size);
                assert(left@ =~= kept(buf@));
                self.buffer = left;
            } else {
                self.buffer = buf;
            }
            Decision::Allow
        }
    }

    /// Empties the buffer.
    fn reset(&mut self)
        ensures
            final(self)@ == old(self)@.cleared(),
    {
        proof {
            use_type_invariant(&*self);
        }
        self.buffer = Vec::new();
    }

    /// The name of every pattern rule.
    fn name(&self) -> (name: &str)
        ensures
            name@ == "pattern_rule"@,
    {
        "pattern_rule"
    }

    /// A pattern rule does not score.
    fn last_score(&self) -> (score: u32)
        ensures
            score == 0,
    {
        0
    }
}

} // verus!
