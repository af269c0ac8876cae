//! Detection of a forbidden sequence of tokens.
//!
//! The rule walks through its tokens in order while text streams by. A token
//! may be split over chunks: what is left of the text behind the last found
//! token is carried over to the next chunk.

use vstd::prelude::*;

use crate::decision::{Decision, Rule, Verdict};
use crate::text;
use crate::text::AsText;

verus! {

/// How a sequence rule matches.
#[derive(Debug, Clone)]
pub struct SequenceConfig {
    /// Whether other text may stand between two tokens. Without gaps only
    /// white space may.
    pub allow_gaps: bool,
    /// Words that throw the rule back to its first token.
    pub stop_words: Vec<String>,
}

/// The model of a sequence rule: what it was made with, and how far it is.
pub struct SequenceModel {
    /// The tokens to find, in order. There is at least one, and none is empty.
    pub tokens: Seq<Seq<u8>>,
    pub allow_gaps: bool,
    pub stop_words: Seq<Seq<u8>>,
    pub reason: Seq<char>,
    /// The score of a match.
    pub score: u32,
    /// With a replacement the rule rewrites; without one it blocks.
    pub replacement: Option<Seq<u8>>,
    /// How many tokens were found so far.
    pub progress: nat,
    /// The text behind the last found token.
    pub carry: Seq<u8>,
    /// The score of the most recent answer.
    pub last_score: u32,
}

/// One of `words` stands in `buf`.
pub open spec fn hits_any(words: Seq<Seq<u8>>, buf: Seq<u8>) -> bool {
    exists|i: int| 0 <= i < words.len() && text::contains(buf, #[trigger] words[i])
}

/// The length of the longest of `tokens`.
pub open spec fn longest(tokens: Seq<Seq<u8>>) -> nat
    decreases tokens.len(),
{
    if tokens.len() == 0 {
        0
    } else if tokens.last().len() > longest(tokens.drop_last()) {
        tokens.last().len()
    } else {
        longest(tokens.drop_last())
    }
}

/// A carry that has grown over twice `keep` is cut down to its last `keep`
/// bytes.
pub open spec fn shorten(buf: Seq<u8>, keep: nat) -> Seq<u8> {
    if buf.len() > 2 * keep {
        text::tail(buf, buf.len() - keep)
    } else {
        buf
    }
}

/// Takes tokens out of `buf` as long as the next one is found: each at its
/// first occurrence, the search going on behind it. Gives the progress
/// reached and what is left of `buf`.
pub open spec fn consume(tokens: Seq<Seq<u8>>, progress: nat, buf: Seq<u8>) -> (nat, Seq<u8>)
    decreases tokens.len() - progress,
{
    if progress >= tokens.len() {
        (progress, buf)
    } else {
        match text::find(buf, tokens[progress as int]) {
            Some(p) => consume(
                tokens,
                progress + 1,
                text::tail(buf, p + tokens[progress as int].len()),
            ),
            None => (progress, buf),
        }
    }
}

/// `s` with each of `tokens` replaced by `to`, one token after the other.
pub open spec fn replace_each(s: Seq<u8>, tokens: Seq<Seq<u8>>, to: Seq<u8>) -> Seq<u8>
    decreases tokens.len(),
{
    if tokens.len() == 0 {
        s
    } else {
        text::replace_all(replace_each(s, tokens.drop_last(), to), tokens.last(), to)
    }
}

impl SequenceModel {
    /// A rule as it is made: nothing found, nothing carried.
    pub open spec fn fresh(
        tokens: Seq<Seq<u8>>,
        reason: Seq<char>,
        allow_gaps: bool,
        stop_words: Seq<Seq<u8>>,
        score: u32,
        replacement: Option<Seq<u8>>,
    ) -> SequenceModel {
        SequenceModel {
            tokens: tokens,
            allow_gaps: allow_gaps,
            stop_words: stop_words,
            reason: reason,
            score: score,
            replacement: replacement,
            progress: 0,
            carry: Seq::empty(),
            last_score: 0,
        }
    }

    /// What holds of every rule: it has tokens, none of them empty, and at
    /// least one of them is still to be found. The carry is at most twice as
    /// long as the longest token.
    pub open spec fn wf(self) -> bool {
        &&& self.tokens.len() > 0
        &&& forall|i: int| 0 <= i < self.tokens.len() ==> (#[trigger] self.tokens[i]).len() > 0
        &&& self.progress < self.tokens.len()
        &&& self.carry.len() <= 2 * longest(self.tokens)
    }

    /// The rule thrown back to its first token, with nothing carried.
    pub open spec fn rewound(self) -> SequenceModel {
        SequenceModel { progress: 0, carry: Seq::empty(), ..self }
    }

    /// The rule as `reset` leaves it.
    pub open spec fn cleared(self) -> SequenceModel {
        SequenceModel { last_score: 0, ..self.rewound() }
    }

    /// The search in `buf`, which is the carry with a new chunk behind it:
    /// the rule afterwards, and whether the last token was found. A rule that
    /// found its last token starts over.
    ///
    /// A stop word anywhere in `buf` throws the rule back.
    ///
    /// Without gaps, once a token was found, the next one must stand at the
    /// start of `buf`, after white space at most. If it stands there, it is
    /// taken. If `buf` goes on with a byte that is not the first byte of that
    /// token, the rule is thrown back. In every other case the rule waits:
    /// what is there may be the start of the token, cut by the end of the
    /// chunk.
    ///
    /// In every other case tokens are taken out of `buf` as long as they are
    /// found.
    ///
    /// What is carried on is cut down by `shorten`.
    pub open spec fn search(self, buf: Seq<u8>) -> (SequenceModel, bool) {
        let keep = longest(self.tokens);
        if hits_any(self.stop_words, buf) {
            (self.rewound(), false)
        } else if !self.allow_gaps && self.progress > 0 {
            let rest = text::trim_start(buf);
            let target = self.tokens[self.progress as int];
            if text::starts_with(rest, target) {
                if self.progress + 1 >= self.tokens.len() {
                    (self.rewound(), true)
                } else {
                    (
                        SequenceModel {
                            progress: self.progress + 1,
                            carry: shorten(text::tail(rest, target.len() as int), keep),
                            ..self
                        },
                        false,
                    )
                }
            } else if rest.len() > 0 && rest[0] != target[0] {
                (self.rewound(), false)
            } else {
                (SequenceModel { carry: shorten(rest, keep), ..self }, false)
            }
        } else {
            let (progress, left) = consume(self.tokens, self.progress, buf);
            if progress >= self.tokens.len() {
                (self.rewound(), true)
            } else {
                (SequenceModel { progress: progress, carry: shorten(left, keep), ..self }, false)
            }
        }
    }

    /// The search step for a chunk that is not empty.
    pub open spec fn advance(self, chunk: Seq<u8>) -> (SequenceModel, bool) {
        self.search(self.carry + chunk)
    }

    /// The answer to a match on `chunk`: the carry and the chunk with every
    /// token replaced, where the rule rewrites, and a block otherwise.
    pub open spec fn verdict(self, chunk: Seq<u8>) -> Verdict {
        match self.replacement {
            Some(to) => Verdict::Rewrite(
                text::lossy_text(replace_each(self.carry + chunk, self.tokens, to)),
            ),
            None => Verdict::Block(self.reason),
        }
    }

    /// The rule after a chunk, and its answer.
    ///
    /// An empty chunk passes and changes nothing. A match scores, answers and
    /// throws the rule back to its first token; anything else passes with
    /// score 0.
    pub open spec fn respond(self, chunk: Seq<u8>) -> (SequenceModel, Verdict) {
        if chunk.len() == 0 {
            (self, Verdict::Allow)
        } else if self.advance(chunk).1 {
            (SequenceModel { last_score: self.score, ..self.advance(chunk).0 }, self.verdict(chunk))
        } else {
            (SequenceModel { last_score: 0, ..self.advance(chunk).0 }, Verdict::Allow)
        }
    }
}

/// No token is longer than the longest.
pub proof fn longest_bounds(tokens: Seq<Seq<u8>>, i: int)
    requires
        0 <= i < tokens.len(),
    ensures
        tokens[i].len() <= longest(tokens),
    decreases tokens.len(),
{
    if i < tokens.len() - 1 {
        longest_bounds(tokens.drop_last(), i);
    }
}

/// Tells whether one of `words` stands in `buf`.
fn holds_any(words: &Vec<Vec<u8>>, buf: &[u8]) -> (hit: bool)
    ensures
        hit == hits_any(text::views(words@), buf@),
{
    let mut i: usize = 0;
    while i < words.len()
        invariant
            i <= words@.len(),
            forall|j: int| 0 <= j < i ==> !text::contains(buf@, #[trigger] text::views(words@)[j]),
        decreases words.len() - i,
    {
        if text::search(buf, words[i].as_slice()).is_some() {
            assert(text::contains(buf@, text::views(words@)[i as int]));
            return true;
        }
        i += 1;
    }
    false
}

/// The length of the longest token.
fn longest_len(tokens: &Vec<Vec<u8>>) -> (len: usize)
    ensures
        len == longest(text::views(tokens@)),
{
    let mut len: usize = 0;
    let mut i: usize = 0;
    while i < tokens.len()
        invariant
            i <= tokens@.len(),
            len == longest(text::views(tokens@).take(i as int)),
        decreases tokens.len() - i,
    {
        assert(text::views(tokens@).take(i + 1).drop_last() =~= text::views(tokens@).take(
            i as int,
        ));
        if tokens[i].len() > len {
            len = tokens[i].len();
        }
        i += 1;
    }
    assert(text::views(tokens@).take(tokens@.len() as int) =~= text::views(tokens@));
    len
}

/// Takes tokens out of `buf` as long as the next one is found. Gives the
/// progress reached and the position behind the last token taken.
fn take_tokens(tokens: &Vec<Vec<u8>>, progress: usize, buf: &[u8]) -> (reached: (usize, usize))
    requires
        progress <= tokens@.len(),
    ensures
        progress <= reached.0 <= tokens@.len(),
        reached.1 <= buf@.len(),
        consume(text::views(tokens@), progress as nat, buf@) == (
            reached.0 as nat,
            text::tail(buf@, reached.1 as int),
        ),
{
    let mut found: usize = progress;
    let mut start: usize = 0;
    let end = buf.len();
    assert(text::tail(buf@, 0) =~= buf@);
    while found < tokens.len()
        invariant
            progress <= found <= tokens@.len(),
            start <= buf@.len() == end,
            consume(text::views(tokens@), progress as nat, buf@) == consume(
                text::views(tokens@),
                found as nat,
                text::tail(buf@, start as int),
            ),
        decreases tokens@.len() - found,
    {
        let target = tokens[found].as_slice();
        proof {
            text::find_in_tail(buf@, target@, start as int);
            text::find_from_is_first(buf@, target@, start as int);
        }
        match text::search_from(buf, target, start) {
            Some(p) => {
                assert(text::occurs_at(buf@, target@, p as int));
                assert(text::tail(text::tail(buf@, start as int), p - start + target@.len())
                    =~= text::tail(buf@, p + target@.len()));
                start = p + target.len();
                found += 1;
            },
            None => {
                return (found, start);
            },
        }
    }
    (found, start)
}

/// What is carried on of `buf` from position `from` on: all of it, or its
/// last `keep` bytes if it is more than twice as long.
fn carried(buf: &[u8], from: usize, keep: usize) -> (left: Vec<u8>)
    requires
        from <= buf@.len(),
    ensures
        left@ == shorten(text::tail(buf@, from as int), keep as nat),
        left@.len() <= 2 * keep,
{
    let end = buf.len();
    let size = end - from;
    let start = if size > keep && size - keep > keep {
        end - keep
    } else {
        from
    };
    let left = text::copy_range(buf, start, end);
    proof {
        let rest = text::tail(buf@, from as int);
        if rest.len() > 2 * keep {
            assert(text::tail(rest, rest.len() - keep) =~= left@);
        } else {
            assert(rest =~= left@);
        }
    }
    left
}

/// Replaces each token in `s` by `to`, one token after the other.
fn replace_tokens(s: &[u8], tokens: &Vec<Vec<u8>>, to: &[u8]) -> (out: Vec<u8>)
    ensures
        out@ == replace_each(s@, text::views(tokens@), to@),
{
    let mut out: Vec<u8> = text::copy_range(s, 0, s.len());
    assert(out@ =~= s@);
    let mut i: usize = 0;
    while i < tokens.len()
        invariant
            i <= tokens@.len(),
            out@ == replace_each(s@, text::views(tokens@).take(i as int), to@),
        decreases tokens.len() - i,
    {
        assert(text::views(tokens@).take(i + 1).drop_last() =~= text::views(tokens@).take(
            i as int,
        ));
        out = text::replace(out.as_slice(), tokens[i].as_slice(), to);
        i += 1;
    }
    assert(text::views(tokens@).take(tokens@.len() as int) =~= text::views(tokens@));
    out
}

impl Default for SequenceConfig {
    /// Gaps allowed, no stop words.
    fn default() -> (config: SequenceConfig)
        ensures
            config.allow_gaps,
            config.stop_words@.len() == 0,
    {
        SequenceConfig { allow_gaps: true, stop_words: Vec::new() }
    }
}

impl SequenceConfig {
    /// Gaps allowed, no stop words.
    pub fn new() -> (config: SequenceConfig)
        ensures
            config.allow_gaps,
            config.stop_words@.len() == 0,
    {
        SequenceConfig { allow_gaps: true, stop_words: Vec::new() }
    }

    /// No gaps, no stop words.
    pub fn strict() -> (config: SequenceConfig)
        ensures
            !config.allow_gaps,
            config.stop_words@.len() == 0,
    {
        SequenceConfig { allow_gaps: false, stop_words: Vec::new() }
    }

    /// Sets whether gaps are allowed.
    pub fn allow_gaps(self, allow: bool) -> (config: SequenceConfig)
        ensures
            config.allow_gaps == allow,
            config.stop_words == self.stop_words,
    {
        let mut config = self;
        config.allow_gaps = allow;
        config
    }

    /// Sets the stop words, in place of those that were there.
    pub fn stop_words<S: AsText>(self, words: Vec<S>) -> (config: SequenceConfig)
        ensures
            config.allow_gaps == self.allow_gaps,
            text::all_bytes(config.stop_words@) == text::all_bytes(words@),
            config.stop_words@.len() == words@.len(),
            forall|i: int| 0 <= i < words@.len() ==> config.stop_words@[i]@ == words@[i].text(),
    {
        let mut list: Vec<String> = Vec::new();
        let mut i: usize = 0;
        while i < words.len()
            invariant
                i <= words@.len(),
                list@.len() == i,
                forall|j: int| 0 <= j < i ==> list@[j]@ == words@[j].text(),
            decreases words.len() - i,
        {
            list.push(words[i].as_text().to_owned());
            i += 1;
        }
        assert(text::all_bytes(list@) =~= text::all_bytes(words@));
        SequenceConfig { allow_gaps: self.allow_gaps, stop_words: list }
    }
}

/// A rule that answers when its tokens have all appeared in order.
///
/// With gaps allowed, any text may stand between two tokens. Without gaps,
/// only white space may, once the first token was found. A stop word throws
/// the rule back to its first token. On a match the rule blocks, or, where it
/// was made with a replacement, rewrites.
pub struct ForbiddenSequenceRule {
    tokens: Vec<Vec<u8>>,
    state: usize,
    buffer: Vec<u8>,
    reason: String,
    allow_gaps: bool,
    stop_words: Vec<Vec<u8>>,
    score: u32,
    replacement: Option<Vec<u8>>,
    last_decision_score: u32,
}

impl View for ForbiddenSequenceRule {
    type V = SequenceModel;

    closed spec fn view(&self) -> SequenceModel {
        SequenceModel {
            tokens: text::views(self.tokens@),
            allow_gaps: self.allow_gaps,
            stop_words: text::views(self.stop_words@),
            reason: self.reason@,
            score: self.score,
            replacement: match self.replacement {
                Some(to) => Some(to@),
                None => None,
            },
            progress: self.state as nat,
            carry: self.buffer@,
            last_score: self.last_decision_score,
        }
    }
}

impl ForbiddenSequenceRule {
    #[verifier::type_invariant]
    spec fn inv(&self) -> bool {
        self@.wf()
    }

    /// Whether a list of tokens can make a rule: it is not empty, and none of
    /// its tokens is.
    pub open spec fn usable<S: AsText>(tokens: Seq<S>) -> bool {
        &&& tokens.len() > 0
        &&& forall|i: int| 0 <= i < tokens.len() ==> (#[trigger] tokens[i]).text().len() > 0
    }

    /// Tells whether a list of tokens can make a rule.
    pub fn accepts<S: AsText>(tokens: &Vec<S>) -> (ok: bool)
        ensures
            ok == Self::usable(tokens@),
    {
        if tokens.len() == 0 {
            return false;
        }
        let mut i: usize = 0;
        while i < tokens.len()
            invariant
                i <= tokens@.len(),
                forall|j: int| 0 <= j < i ==> (#[trigger] tokens@[j]).text().len() > 0,
            decreases tokens.len() - i,
        {
            if tokens[i].as_text().is_empty() {
                return false;
            }
            i += 1;
        }
        true
    }

    fn build<S: AsText>(
        tokens: &Vec<S>,
        reason: &str,
        allow_gaps: bool,
        stop_words: &Vec<String>,
        score: u32,
        replacement: Option<Vec<u8>>,
    ) -> (rule: ForbiddenSequenceRule)
        requires
            Self::usable(tokens@),
        ensures
            rule@.wf(),
            rule@ == SequenceModel::fresh(
                text::all_bytes(tokens@),
                reason@,
                allow_gaps,
                text::all_bytes(stop_words@),
                score,
                match replacement {
                    Some(to) => Some(to@),
                    None => None,
                },
            ),
    {
        let list = text::bytes_of_all(tokens);
        let stops = text::bytes_of_all(stop_words);
        proof {
            assert forall|i: int| 0 <= i < tokens@.len() implies (#[trigger] text::views(
                list@,
            )[i]).len() > 0 by {
                assert(tokens@[i].text().len() > 0);
                text::bytes_empty(tokens@[i].text());
            }
        }
        let rule = ForbiddenSequenceRule {
            tokens: list,
            state: 0,
            buffer: Vec::new(),
            reason: reason.to_owned(),
            allow_gaps: allow_gaps,
            stop_words: stops,
            score: score,
            replacement: replacement,
            last_decision_score: 0,
        };
        proof {
            use_type_invariant(&rule);
        }
        rule
    }

    /// A rule that blocks with `reason`, matching as `config` says.
    pub fn new<S: AsText>(tokens: Vec<S>, reason: &str, config: SequenceConfig) -> (rule:
        ForbiddenSequenceRule)
        requires
            Self::usable(tokens@),
        ensures
            rule@.wf(),
            rule@ == SequenceModel::fresh(
                text::all_bytes(tokens@),
                reason@,
                config.allow_gaps,
                text::all_bytes(config.stop_words@),
                0,
                None,
            ),
    {
        Self::build(&tokens, reason, config.allow_gaps, &config.stop_words, 0, None)
    }

    /// A rule that blocks with `reason`; gaps allowed, no stop words.
    pub fn with_gaps<S: AsText>(tokens: Vec<S>, reason: &str) -> (rule: ForbiddenSequenceRule)
        requires
            Self::usable(tokens@),
        ensures
            rule@.wf(),
            rule@ == SequenceModel::fresh(
                text::all_bytes(tokens@),
                reason@,
                true,
                Seq::empty(),
                0,
                None,
            ),
    {
        let stops: Vec<String> = Vec::new();
        assert(text::all_bytes(stops@) =~= Seq::empty());
        Self::build(&tokens, reason, true, &stops, 0, None)
    }

    /// A rule that blocks with `reason`; no gaps, no stop words.
    pub fn strict<S: AsText>(tokens: Vec<S>, reason: &str) -> (rule: ForbiddenSequenceRule)
        requires
            Self::usable(tokens@),
        ensures
            rule@.wf(),
            rule@ == SequenceModel::fresh(
                text::all_bytes(tokens@),
                reason@,
                false,
                Seq::empty(),
                0,
                None,
            ),
    {
        let stops: Vec<String> = Vec::new();
        assert(text::all_bytes(stops@) =~= Seq::empty());
        Self::build(&tokens, reason, false, &stops, 0, None)
    }

    /// A rule that blocks with `reason` and scores `score` on a match; gaps
    /// allowed, no stop words.
    pub fn new_with_score<S: AsText>(tokens: Vec<S>, reason: &str, score: u32) -> (rule:
        ForbiddenSequenceRule)
        requires
            Self::usable(tokens@),
        ensures
            rule@.wf(),
            rule@ == SequenceModel::fresh(
                text::all_bytes(tokens@),
                reason@,
                true,
                Seq::empty(),
                score,
                None,
            ),
    {
        let stops: Vec<String> = Vec::new();
        assert(text::all_bytes(stops@) =~= Seq::empty());
        Self::build(&tokens, reason, true, &stops, score, None)
    }

    /// A rule that rewrites: on a match every token is replaced by
    /// `replacement`; gaps allowed, no stop words.
    pub fn new_with_rewrite<S: AsText>(tokens: Vec<S>, replacement: &str) -> (rule:
        ForbiddenSequenceRule)
        requires
            Self::usable(tokens@),
        ensures
            rule@.wf(),
            rule@ == SequenceModel::fresh(
                text::all_bytes(tokens@),
                "rewrite forbidden sequence"@,
                true,
                Seq::empty(),
                0,
                Some(text::bytes(replacement@)),
            ),
    {
        let stops: Vec<String> = Vec::new();
        assert(text::all_bytes(stops@) =~= Seq::empty());
        let source = replacement.as_bytes();
        let to = text::copy_range(source, 0, source.len());
        assert(source@.subrange(0, source@.len() as int) =~= source@);
        Self::build(&tokens, "rewrite forbidden sequence", true, &stops, 0, Some(to))
    }
}

impl ForbiddenSequenceRule {
    /// Tells whether a stop word stands in `buf`.
    fn check_stop_words(&self, buf: &[u8]) -> (hit: bool)
        ensures
            hit == hits_any(self@.stop_words, buf@),
    {
        holds_any(&self.stop_words, buf)
    }

    /// Throws the rule back to its first token.
    fn rewind(&mut self)
        ensures
            final(self)@ == old(self)@.rewound(),
    {
        proof {
            use_type_invariant(&*self);
        }
        self.buffer = Vec::new();
        self.state = 0;
    }

    /// Searches `buf`, which is the carry with the next chunk behind it,
    /// and tells whether the last token was found.
    fn check_match(&mut self, buf: &[u8]) -> (matched: bool)
        ensures
            (final(self)@, matched) == old(self)@.search(buf@),
    {
        proof {
            use_type_invariant(&*self);
        }
        if self.check_stop_words(buf) {
            self.rewind();
            return false;
        }
        let count = self.tokens.len();
        let keep = longest_len(&self.tokens);
        let end = buf.len();
        if !self.allow_gaps && self.state > 0 {
            let at = text::skip_spaces(buf, 0);
            assert(text::tail(buf@, 0) =~= buf@);
            let ghost rest = text::trim_start(buf@);
            let target = self.tokens[self.state].as_slice();
            proof {
                assert(target@ == self@.tokens[self.state as int]);
                assert(target@.len() > 0);
                assert(text::occurs_at(rest, target@, 0) <==> text::occurs_at(
                    buf@,
                    target@,
                    at as int,
                )) by {
                    if at + target@.len() <= buf@.len() {
                        assert(rest.subrange(0, target@.len() as int) =~= buf@.subrange(
                            at as int,
                            at + target@.len(),
                        ));
                    }
                }
            }
            if text::matches_at(buf, target, at) {
                assert(at + target@.len() <= end);
                if self.state + 1 >= count {
                    self.rewind();
                    return true;
                }
                let left = carried(buf, at + target.len(), keep);
                assert(text::tail(rest, target@.len() as int) =~= text::tail(
                    buf@,
                    at + target@.len(),
                ));
                self.buffer = left;
                self.state = self.state + 1;
                return false;
            } else if at < end && buf[at] != target[0] {
                self.rewind();
                return false;
            } else {
                let left = carried(buf, at, keep);
                self.buffer = left;
                return false;
            }
        }
        let (found, start) = take_tokens(&self.tokens, self.state, buf);
        if found >= count {
            self.rewind();
            return true;
        }
        let left = carried(buf, start, keep);
        self.buffer = left;
        self.state = found;
        false
    }
}

impl Rule for ForbiddenSequenceRule {
    /// The answer that the model gives.
    open spec fn answer(&self, chunk: Seq<char>) -> Verdict {
        self@.respond(text::bytes(chunk)).1
    }

    /// Takes the next chunk and answers as the model says.
    fn feed(&mut self, chunk: &str) -> (decision: Decision)
        ensures
            (final(self)@, decision@) == old(self)@.respond(text::bytes(chunk@)),
            chunk@.len() == 0 ==> decision@ is Allow && final(self)@ == old(self)@,
            final(self)@.wf(),
    {
        proof {
            text::bytes_empty(chunk@);
            use_type_invariant(&*self);
        }
        if chunk.is_empty() {
            return Decision::Allow;
        }
        let mut whole: Vec<u8> = Vec::new();
        text::append(&mut whole, self.buffer.as_slice());
        text::append(&mut whole, chunk.as_bytes());
        assert(whole@ =~= self@.carry + text::bytes(chunk@));
        let matched = self.check_match(whole.as_slice());
        proof {
            use_type_invariant(&*self);
        }
        if matched {
            self.last_decision_score = self.score;
            proof {
                use_type_invariant(&*self);
            }
            match &self.replacement {
                Some(to) => {
                    let rewritten = replace_tokens(whole.as_slice(), &self.tokens, to.as_slice());
                    Decision::Rewrite { replacement: text::to_text(rewritten.as_slice()) }
                },
                None => Decision::Block { reason: self.reason.clone() },
            }
        } else {
            self.last_decision_score = 0;
            proof {
                use_type_invariant(&*self);
            }
            Decision::Allow
        }
    }

    /// Throws the rule back to its first token and clears its score.
    fn reset(&mut self)
        ensures
            final(self)@ == old(self)@.cleared(),
            final(self)@.wf(),
    {
        self.rewind();
        proof {
            use_type_invariant(&*self);
        }
        self.last_decision_score = 0;
        proof {
            use_type_invariant(&*self);
        }
    }

    /// The name of every sequence rule.
    fn name(&self) -> (name: &str)
        ensures
            name@ == "forbidden_sequence"@,
    {
        "forbidden_sequence"
    }

    /// The score of the most recent answer.
    fn last_score(&self) -> (score: u32)
        ensures
            score == self@.last_score,
    {
        self.last_decision_score
    }
}

} // verus!
