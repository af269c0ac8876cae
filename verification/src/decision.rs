//! The verdict type and the interface that every rule offers.

use vstd::prelude::*;

verus! {

/// What happens to the stream at this point.
#[derive(Debug, Clone, PartialEq, Eq)]
pub enum Decision {
    /// The input passes unchanged.
    Allow,
    /// The stream is blocked.
    Block {
        /// Human-readable reason for blocking.
        reason: String,
    },
    /// The input is replaced.
    Rewrite {
        /// Text to emit instead of the input.
        replacement: String,
    },
}

/// The mathematical value of a [`Decision`]: the variant and its payload as a
/// sequence of characters.
pub enum Verdict {
    Allow,
    Block(Seq<char>),
    Rewrite(Seq<char>),
}

impl View for Decision {
    type V = Verdict;

    open spec fn view(&self) -> Verdict {
        match self {
            Decision::Allow => Verdict::Allow,
            Decision::Block { reason } => Verdict::Block(reason@),
            Decision::Rewrite { replacement } => Verdict::Rewrite(replacement@),
        }
    }
}

/// A decision together with scoring information.
#[derive(Debug, Clone, PartialEq)]
pub struct ScoredDecision {
    /// The underlying decision.
    pub decision: Decision,
    /// Score of the rule that decided (0 without scoring).
    pub score: u32,
    /// Accumulated score over all rules.
    pub total_score: u32,
    /// Score per rule, by rule name.
    pub score_details: Vec<(String, u32)>,
}

impl Decision {
    /// True exactly for `Allow`.
    #[inline]
    pub fn is_allow(&self) -> (b: bool)
        ensures
            b == (self@ is Allow),
    {
        match self {
            Decision::Allow => true,
            _ => false,
        }
    }

    /// True exactly for `Block`.
    #[inline]
    pub fn is_block(&self) -> (b: bool)
        ensures
            b == (self@ is Block),
    {
        match self {
            Decision::Block { .. } => true,
            _ => false,
        }
    }

    /// True exactly for `Rewrite`.
    #[inline]
    pub fn is_rewrite(&self) -> (b: bool)
        ensures
            b == (self@ is Rewrite),
    {
        match self {
            Decision::Rewrite { .. } => true,
            _ => false,
        }
    }

    /// The replacement text of a `Rewrite`, and `None` for the other variants.
    pub fn rewritten_text(&self) -> (text: Option<&str>)
        ensures
            match self@ {
                Verdict::Rewrite(t) => text matches Some(s) && s@ == t,
                _ => text is None,
            },
    {
        match self {
            Decision::Rewrite { replacement } => Some(replacement.as_str()),
            _ => None,
        }
    }
}

/// A streaming rule: it inspects text chunk by chunk and keeps what it needs
/// between chunks.
///
/// A rule is deterministic: what it answers to a chunk depends on the chunk
/// and on the state that the rule is in, and on nothing else. `answer` names
/// that answer, and `feed` gives it. What a rule of this crate answers is
/// stated on its own `feed`.
pub trait Rule: Send + Sync {
    /// What the rule answers to `chunk` in the state that it is in. A rule
    /// that does not say what it answers leaves this a function that is not
    /// known further.
    open spec fn answer(&self, chunk: Seq<char>) -> Verdict {
        arbitrary::<spec_fn(&Self, Seq<char>) -> Verdict>()(self, chunk)
    }

    /// Takes the next chunk and answers for it.
    fn feed(&mut self, chunk: &str) -> (decision: Decision)
        ensures
            decision@ == old(self).answer(chunk@),
    ;

    /// Returns the rule to the state it was constructed in.
    fn reset(&mut self);

    /// A stable name for the rule. A rule that gives none of its own is
    /// called `unnamed_rule`.
    fn name(&self) -> (name: &str)
        default_ensures
            name@ == "unnamed_rule"@,
    {
        "unnamed_rule"
    }

    /// The score of the most recent answer. A rule that does not score
    /// reports 0.
    fn last_score(&self) -> (score: u32)
        default_ensures
            score == 0,
    {
        0
    }
}

} // verus!
