//! What holds of a rule however its stream is cut into chunks.

use vstd::prelude::*;

use crate::rules::detect;
use crate::rules::pattern;
use crate::rules::pattern::{ConfigModel, PatternModel, PatternPreset, MAX_BUFFER};
use crate::rules::sequence;
use crate::rules::sequence::SequenceModel;
use crate::text;

verus! {

impl PatternModel {
    /// The rule after the chunks were fed to it in order.
    pub open spec fn after(self, chunks: Seq<Seq<u8>>) -> PatternModel
        decreases chunks.len(),
    {
        if chunks.len() == 0 {
            self
        } else {
            self.after(chunks.drop_last()).respond(chunks.last()).0
        }
    }

    /// The rule answers to the chunk with a block or a rewrite.
    pub open spec fn fires(self, chunk: Seq<u8>) -> bool {
        !(self.respond(chunk).1 is Allow)
    }

    /// Fed the chunks in order, the rule answers to one of them with a block
    /// or a rewrite.
    pub open spec fn fires_within(self, chunks: Seq<Seq<u8>>) -> bool {
        exists|i: int|
            0 <= i < chunks.len() && #[trigger] self.after(chunks.take(i)).fires(chunks[i])
    }
}

/// What a rule has been given before the last chunk that is not empty.
pub open spec fn held_back(chunks: Seq<Seq<u8>>) -> Seq<u8>
    decreases chunks.len(),
{
    if chunks.len() == 0 {
        Seq::empty()
    } else if chunks.last().len() == 0 {
        held_back(chunks.drop_last())
    } else {
        text::concat(chunks.drop_last())
    }
}

/// Every rule that feeding makes is well formed: the buffer stays within its
/// bound. A rule that has answered with a block or a rewrite holds nothing.
pub proof fn pattern_buffer_bounded(m: PatternModel, chunk: Seq<u8>)
    requires
        m.wf(),
    ensures
        m.respond(chunk).0.wf(),
        m.fires(chunk) ==> m.respond(chunk).0.buffer.len() == 0,
{
}

/// A rule that has fired on none of the chunks holds the end of their text.
proof fn pattern_keeps_end(m: PatternModel, chunks: Seq<Seq<u8>>)
    requires
        m.buffer.len() == 0,
        !m.fires_within(chunks),
    ensures
        m.after(chunks) == (PatternModel { buffer: pattern::kept(text::concat(chunks)), ..m }),
    decreases chunks.len(),
{
    if chunks.len() > 0 {
        let head = chunks.drop_last();
        let i = chunks.len() - 1;
        assert forall|j: int| 0 <= j < head.len() implies !(#[trigger] m.after(head.take(j)).fires(
            head[j],
        )) by {
            assert(head.take(j) =~= chunks.take(j));
            assert(!m.after(chunks.take(j)).fires(chunks[j]));
        }
        pattern_keeps_end(m, head);
        assert(chunks.take(i) =~= head);
        assert(!m.after(chunks.take(i)).fires(chunks[i]));
        let before = text::concat(head);
        let last = chunks.last();
        if last.len() == 0 {
            assert(before + last =~= before);
        } else {
            assert(pattern::kept(pattern::kept(before) + last) =~= pattern::kept(before + last));
        }
    } else {
        assert(m.buffer =~= pattern::kept(text::concat(chunks)));
    }
}

/// A stretch of the text, no longer than the buffer of a rule, decides for
/// the pattern: every part of the text that holds the stretch holds the
/// pattern.
pub open spec fn decided_within(c: ConfigModel, t: Seq<u8>, lo: int, hi: int) -> bool {
    &&& 0 <= lo <= hi <= t.len()
    &&& hi - lo <= MAX_BUFFER
    &&& forall|s: int, e: int|
        0 <= s <= lo && hi <= e <= t.len() ==> #[trigger] c.matches(t.subrange(s, e))
}

/// A rule that has fired on none of the chunks has not yet been given the
/// whole of a stretch that decides for its pattern.
proof fn pattern_before_stretch(
    m: PatternModel,
    chunks: Seq<Seq<u8>>,
    whole: Seq<u8>,
    lo: int,
    hi: int,
)
    requires
        m.buffer.len() == 0,
        !m.fires_within(chunks),
        decided_within(m.config, whole, lo, hi),
        text::concat(chunks).len() <= whole.len(),
        whole.subrange(0, text::concat(chunks).len() as int) == text::concat(chunks),
    ensures
        text::concat(chunks).len() < hi || text::concat(chunks).len() == 0,
    decreases chunks.len(),
{
    if chunks.len() > 0 {
        let head = chunks.drop_last();
        let last = chunks.last();
        let i = chunks.len() - 1;
        let before = text::concat(head);
        let given = text::concat(chunks);
        assert forall|j: int| 0 <= j < head.len() implies !(#[trigger] m.after(head.take(j)).fires(
            head[j],
        )) by {
            assert(head.take(j) =~= chunks.take(j));
            assert(!m.after(chunks.take(j)).fires(chunks[j]));
        }
        assert(whole.subrange(0, before.len() as int) =~= before);
        pattern_before_stretch(m, head, whole, lo, hi);
        pattern_keeps_end(m, head);
        assert(chunks.take(i) =~= head);
        assert(!m.after(chunks.take(i)).fires(chunks[i]));
        if last.len() > 0 && given.len() >= hi {
            let s: int = if before.len() > MAX_BUFFER {
                before.len() - MAX_BUFFER
            } else {
                0
            };
            assert(given == before + last);
            assert(pattern::kept(before) =~= before.subrange(s, before.len() as int));
            assert(pattern::kept(before) + last =~= given.subrange(s, given.len() as int));
            assert(given.subrange(s, given.len() as int) =~= whole.subrange(
                0,
                given.len() as int,
            ).subrange(s, given.len() as int));
            assert(pattern::kept(before) + last =~= whole.subrange(s, given.len() as int));
            assert(m.config.matches(whole.subrange(s, given.len() as int)));
        }
    }
}

/// Cutting a text into chunks loses no match, for a rule whose pattern is
/// decided by a stretch of the text that fits into the buffer of the rule.
pub proof fn pattern_found_by_stretch(m: PatternModel, chunks: Seq<Seq<u8>>, lo: int, hi: int)
    requires
        m.buffer.len() == 0,
        text::concat(chunks).len() > 0,
        decided_within(m.config, text::concat(chunks), lo, hi),
    ensures
        m.fires_within(chunks),
{
    let whole = text::concat(chunks);
    if !m.fires_within(chunks) {
        assert(whole.subrange(0, whole.len() as int) =~= whole);
        pattern_before_stretch(m, chunks, whole, lo, hi);
    }
}

/// Cutting a text into chunks loses no match, provided that what comes
/// before the last chunk that is not empty fits into the buffer of the rule.
proof fn pattern_found_when_held(m: PatternModel, chunks: Seq<Seq<u8>>)
    requires
        m.buffer.len() == 0,
        m.fires(text::concat(chunks)),
        held_back(chunks).len() <= MAX_BUFFER,
    ensures
        m.fires_within(chunks),
    decreases chunks.len(),
{
    assert(m.buffer + text::concat(chunks) =~= text::concat(chunks));
    if chunks.len() == 0 {
        assert(text::concat(chunks).len() == 0);
    } else {
        let head = chunks.drop_last();
        let i = chunks.len() - 1;
        assert(chunks.take(i) =~= head);
        if m.fires_within(head) {
            let j = choose|j: int| 0 <= j < head.len() && #[trigger] m.after(head.take(j)).fires(
                head[j],
            );
            assert(head.take(j) =~= chunks.take(j));
            assert(m.after(chunks.take(j)).fires(chunks[j]));
        } else if chunks.last().len() == 0 {
            assert(text::concat(chunks) =~= text::concat(head));
            pattern_found_when_held(m, head);
        } else {
            pattern_keeps_end(m, head);
            assert(m.after(head).buffer + chunks.last() =~= m.buffer + text::concat(chunks));
            assert(m.after(chunks.take(i)).fires(chunks[i]));
        }
    }
}

/// Turning a text to small letters and taking a part of it can be done in
/// either order.
pub proof fn seen_part(c: ConfigModel, t: Seq<u8>, s: int, e: int)
    requires
        0 <= s <= e <= t.len(),
    ensures
        c.seen(t.subrange(s, e)) == c.seen(t).subrange(s, e),
{
    assert(text::lowered(t.subrange(s, e)) =~= text::lowered(t).subrange(s, e));
}

/// A part of a text that holds an occurrence of `needle` has it where the
/// text has it, and has none where the text has none.
pub proof fn occurs_in_part(t: Seq<u8>, needle: Seq<u8>, s: int, e: int, p: int)
    requires
        0 <= s <= e <= t.len(),
        0 <= p,
    ensures
        text::occurs_at(t.subrange(s, e), needle, p) == (text::occurs_at(t, needle, s + p) && s
            + p + needle.len() <= e),
{
    if p + needle.len() <= e - s {
        assert(t.subrange(s, e).subrange(p, p + needle.len()) =~= t.subrange(
            s + p,
            s + p + needle.len(),
        ));
    }
}

/// The first occurrence of `needle` in a text is the first in every part of
/// the text that holds it; and a part of a text without `needle` has none.
pub proof fn find_in_part(t: Seq<u8>, needle: Seq<u8>, s: int, e: int)
    requires
        0 <= s <= e <= t.len(),
    ensures
        text::find(t, needle) is None ==> text::find(t.subrange(s, e), needle) is None,
        text::find(t, needle) matches Some(p) ==> s <= p && p + needle.len() <= e ==> text::find(
            t.subrange(s, e),
            needle,
        ) == Some(p - s),
{
    let part = t.subrange(s, e);
    text::find_from_is_first(t, needle, 0);
    text::find_from_is_first(part, needle, 0);
    assert forall|q: int| 0 <= q && text::occurs_at(part, needle, q) implies text::occurs_at(
        t,
        needle,
        s + q,
    ) by {
        occurs_in_part(t, needle, s, e, q);
    }
    match text::find(t, needle) {
        None => {
            if text::find(part, needle) is Some {
                let q = text::find(part, needle)->0;
                assert(text::occurs_at(t, needle, s + q));
            }
        },
        Some(p) => {
            if s <= p && p + needle.len() <= e {
                occurs_in_part(t, needle, s, e, p - s);
                assert forall|q: int| 0 <= q < p - s implies !text::occurs_at(part, needle, q) by {
                    if text::occurs_at(part, needle, q) {
                        assert(text::occurs_at(t, needle, s + q));
                    }
                }
                text::find_from_unique(part, needle, 0, p - s);
            }
        },
    }
}

/// A literal that is found in a text is decided by the stretch where it
/// stands first.
proof fn literal_stretch(c: ConfigModel, t: Seq<u8>) -> (w: (int, int))
    requires
        c.preset is None,
        c.seen(text::bytes(c.pattern)).len() <= MAX_BUFFER,
        c.matches(t),
    ensures
        decided_within(c, t, w.0, w.1),
{
    let literal = c.seen(text::bytes(c.pattern));
    let seen = c.seen(t);
    text::find_from_is_first(seen, literal, 0);
    let p = text::find(seen, literal)->0;
    let hi = p + literal.len();
    assert(seen.len() == t.len());
    assert forall|s: int, e: int| 0 <= s <= p && hi <= e <= t.len() implies #[trigger] c.matches(
        t.subrange(s, e),
    ) by {
        seen_part(c, t, s, e);
        find_in_part(seen, literal, s, e);
    }
    (p, hi)
}

/// A text that looks like it holds a URL is decided by the stretch from a
/// protocol to the letter or digit behind it.
proof fn url_stretch(c: ConfigModel, t: Seq<u8>) -> (w: (int, int))
    requires
        c.preset == Some(PatternPreset::Url),
        c.matches(t),
    ensures
        decided_within(c, t, w.0, w.1),
{
    let seen = c.seen(t);
    assert(seen.len() == t.len());
    let p = choose|p: int| detect::url_at(seen, p);
    let hi: int = if text::occurs_at(seen, detect::http(), p) && detect::alnum_at(seen, p + 7) {
        p + 8
    } else {
        p + 9
    };
    assert forall|s: int, e: int| 0 <= s <= p && hi <= e <= t.len() implies #[trigger] c.matches(
        t.subrange(s, e),
    ) by {
        seen_part(c, t, s, e);
        occurs_in_part(seen, detect::http(), s, e, p - s);
        occurs_in_part(seen, detect::https(), s, e, p - s);
        let part = seen.subrange(s, e);
        assert(part[hi - 1 - s] == seen[hi - 1]);
        assert(detect::url_at(part, p - s));
    }
    (p, hi)
}

/// The stretch of `t` from `a` up to `b` is a word: it holds no white space,
/// and white space or an end of the text stands on either side of it.
pub open spec fn is_word(t: Seq<u8>, a: int, b: int) -> bool {
    &&& 0 <= a < b <= t.len()
    &&& forall|k: int| a <= k < b ==> !text::is_space(#[trigger] t[k])
    &&& (a == 0 || text::is_space(t[a - 1]))
    &&& (b == t.len() || text::is_space(t[b]))
}

/// Every word of a text is among its words.
pub proof fn word_is_listed(t: Seq<u8>, a: int, b: int) -> (i: int)
    requires
        is_word(t, a, b),
    ensures
        0 <= i < detect::words(t).len(),
        detect::words(t)[i] == t.subrange(a, b),
    decreases t.len(),
{
    text::leading_end(t, text::spaces());
    let start = text::leading_spaces(t) as int;
    let rest = text::trim_start(t);
    assert(!text::is_space(t[a]));
    assert(start <= a);
    text::leading_end(rest, text::solid());
    let n = text::leading_word(rest) as int;
    let stop = start + n;
    assert(forall|k: int| 0 <= k < rest.len() ==> rest[k] == t[start + k]);
    if a == start {
        if b < stop {
            assert(!text::is_space(rest[b - start]));
        }
        if stop < b {
            assert(text::is_space(rest[n]));
            assert(!text::is_space(t[stop]));
        }
        assert(rest.take(n) =~= t.subrange(a, b));
        0
    } else {
        assert(text::is_space(t[a - 1]));
        if a - 1 < stop {
            assert(!text::is_space(rest[a - 1 - start]));
        }
        let next = text::tail(rest, n);
        assert(next =~= text::tail(t, stop));
        assert(forall|k: int| 0 <= k < next.len() ==> next[k] == t[stop + k]);
        assert(is_word(next, a - stop, b - stop)) by {
            assert forall|k: int| a - stop <= k < b - stop implies !text::is_space(
                #[trigger] next[k],
            ) by {
                assert(!text::is_space(t[stop + k]));
            }
        }
        let j = word_is_listed(next, a - stop, b - stop);
        assert(next.subrange(a - stop, b - stop) =~= t.subrange(a, b));
        j + 1
    }
}

/// Each of the words of a text is a word of it.
pub proof fn listed_is_word(t: Seq<u8>, i: int) -> (w: (int, int))
    requires
        0 <= i < detect::words(t).len(),
    ensures
        is_word(t, w.0, w.1),
        detect::words(t)[i] == t.subrange(w.0, w.1),
    decreases t.len(),
{
    text::leading_end(t, text::spaces());
    let start = text::leading_spaces(t) as int;
    let rest = text::trim_start(t);
    text::leading_end(rest, text::solid());
    let n = text::leading_word(rest) as int;
    let stop = start + n;
    assert(forall|k: int| 0 <= k < rest.len() ==> rest[k] == t[start + k]);
    assert(!text::is_space(rest[0]));
    if i == 0 {
        assert(rest.take(n) =~= t.subrange(start, stop));
        assert(is_word(t, start, stop)) by {
            assert forall|k: int| start <= k < stop implies !text::is_space(#[trigger] t[k]) by {
                assert(!text::is_space(rest[k - start]));
            }
            if stop < t.len() {
                assert(text::is_space(rest[n]));
            }
        }
        (start, stop)
    } else {
        let next = text::tail(rest, n);
        assert(next =~= text::tail(t, stop));
        assert(forall|k: int| 0 <= k < next.len() ==> next[k] == t[stop + k]);
        let (a, b) = listed_is_word(next, i - 1);
        assert(text::is_space(rest[n]));
        assert(!text::is_space(next[a]));
        assert(a > 0);
        assert(next.subrange(a, b) =~= t.subrange(stop + a, stop + b));
        assert(is_word(t, stop + a, stop + b)) by {
            assert forall|k: int| stop + a <= k < stop + b implies !text::is_space(
                #[trigger] t[k],
            ) by {
                assert(!text::is_space(next[k - stop]));
            }
        }
        (stop + a, stop + b)
    }
}

/// The lengths of the parts of a split, and the bytes between them, make up
/// the length of what was split: with four parts of at most three bytes, at
/// most fifteen.
pub proof fn quad_is_short(w: Seq<u8>)
    requires
        detect::quad(w),
    ensures
        w.len() <= 15,
{
    let parts = detect::split(w, detect::DOT);
    assert(detect::octet(parts[0]) && detect::octet(parts[1]) && detect::octet(parts[2])
        && detect::octet(parts[3]));
    let p0 = detect::index_of(w, detect::DOT);
    text::find_from_is_first(w, seq![detect::DOT], 0);
    let w1 = text::tail(w, p0->0 + 1);
    let p1 = detect::index_of(w1, detect::DOT);
    text::find_from_is_first(w1, seq![detect::DOT], 0);
    let w2 = text::tail(w1, p1->0 + 1);
    let p2 = detect::index_of(w2, detect::DOT);
    text::find_from_is_first(w2, seq![detect::DOT], 0);
    let w3 = text::tail(w2, p2->0 + 1);
    let p3 = detect::index_of(w3, detect::DOT);
    assert(p0 is Some);
    assert(parts =~= seq![w.take(p0->0)] + detect::split(w1, detect::DOT));
    assert(detect::split(w1, detect::DOT).len() == 3);
    assert(p1 is Some);
    assert(detect::split(w1, detect::DOT) =~= seq![w1.take(p1->0)] + detect::split(
        w2,
        detect::DOT,
    ));
    assert(detect::split(w2, detect::DOT).len() == 2);
    assert(p2 is Some);
    assert(detect::split(w2, detect::DOT) =~= seq![w2.take(p2->0)] + detect::split(
        w3,
        detect::DOT,
    ));
    assert(detect::split(w3, detect::DOT).len() == 1);
    assert(p3 is None) by {
        if p3 is Some {
            let w4 = text::tail(w3, p3->0 + 1);
            detect::split_has_parts(w4, detect::DOT);
            assert(detect::split(w3, detect::DOT) =~= seq![w3.take(p3->0)] + detect::split(
                w4,
                detect::DOT,
            ));
        }
    }
    assert(parts[0] == w.take(p0->0));
    assert(parts[1] == w1.take(p1->0));
    assert(parts[2] == w2.take(p2->0));
    assert(parts[3] == w3);
}

/// A text that holds an IPv4 address is decided by the stretch of that word
/// and the white space on either side of it.
proof fn ipv4_stretch(c: ConfigModel, t: Seq<u8>) -> (w: (int, int))
    requires
        c.preset == Some(PatternPreset::Ipv4),
        c.matches(t),
    ensures
        decided_within(c, t, w.0, w.1),
{
    let seen = c.seen(t);
    assert(seen.len() == t.len());
    let i = choose|i: int| 0 <= i < detect::words(seen).len() && detect::quad(
        #[trigger] detect::words(seen)[i],
    );
    let (a, b) = listed_is_word(seen, i);
    quad_is_short(seen.subrange(a, b));
    let lo: int = if a > 0 {
        a - 1
    } else {
        0
    };
    let hi: int = if b < seen.len() {
        b + 1
    } else {
        b
    };
    assert forall|s: int, e: int| 0 <= s <= lo && hi <= e <= t.len() implies #[trigger] c.matches(
        t.subrange(s, e),
    ) by {
        seen_part(c, t, s, e);
        let part = seen.subrange(s, e);
        assert(forall|k: int| 0 <= k < part.len() ==> part[k] == seen[s + k]);
        assert(is_word(part, a - s, b - s)) by {
            assert forall|k: int| a - s <= k < b - s implies !text::is_space(
                #[trigger] part[k],
            ) by {
                assert(!text::is_space(seen[s + k]));
            }
        }
        let j = word_is_listed(part, a - s, b - s);
        assert(part.subrange(a - s, b - s) =~= seen.subrange(a, b));
        assert(detect::quad(detect::words(part)[j]));
    }
    (lo, hi)
}

/// The patterns that a stretch of the text decides, never mind what stands
/// around it: a URL, an IPv4 address, and a literal that fits into the
/// buffer of a rule.
pub open spec fn local(c: ConfigModel) -> bool {
    match c.preset {
        Some(PatternPreset::Url) => true,
        Some(PatternPreset::Ipv4) => true,
        Some(_) => false,
        None => c.seen(text::bytes(c.pattern)).len() <= MAX_BUFFER,
    }
}

/// Cutting a text into chunks loses no match.
///
/// Take a rule that holds nothing yet and that answers to the whole text,
/// fed as one chunk, with a block or a rewrite. Then, fed the text in chunks,
/// it answers so to one of the chunks. This holds of every cutting where the
/// pattern is a URL, an IPv4 address or a literal that fits into the buffer.
/// For the other patterns it holds provided that what comes before the last
/// chunk that is not empty fits into the buffer of the rule.
pub proof fn pattern_found_in_chunks(m: PatternModel, chunks: Seq<Seq<u8>>)
    requires
        m.buffer.len() == 0,
        m.fires(text::concat(chunks)),
        local(m.config) || held_back(chunks).len() <= MAX_BUFFER,
    ensures
        m.fires_within(chunks),
{
    let whole = text::concat(chunks);
    assert(m.buffer + whole =~= whole);
    if local(m.config) {
        let (lo, hi) = match m.config.preset {
            Some(PatternPreset::Url) => url_stretch(m.config, whole),
            Some(PatternPreset::Ipv4) => ipv4_stretch(m.config, whole),
            _ => literal_stretch(m.config, whole),
        };
        pattern_found_by_stretch(m, chunks, lo, hi);
    } else {
        pattern_found_when_held(m, chunks);
    }
}

/// The token stands in the text at `p`, which is at or after `from`.
pub open spec fn stands(token: Seq<u8>, t: Seq<u8>, from: int, p: int) -> bool {
    from <= p && text::occurs_at(t, token, p)
}

/// The tokens from the `k`-th on stand in the text in order: the `k`-th at
/// or after `from`, and each of the others behind the one before it.
pub open spec fn in_order_from(tokens: Seq<Seq<u8>>, k: int, t: Seq<u8>, from: int) -> bool
    decreases tokens.len() - k,
{
    if k < 0 || k >= tokens.len() {
        true
    } else {
        exists|p: int| #[trigger]
            stands(tokens[k], t, from, p) && in_order_from(tokens, k + 1, t, p + tokens[k].len())
    }
}

/// The tokens stand in the text in order, each behind the one before it.
pub open spec fn in_order(tokens: Seq<Seq<u8>>, t: Seq<u8>) -> bool {
    in_order_from(tokens, 0, t, 0)
}

/// The position behind the first `k` tokens, where each is taken at its
/// first occurrence behind the one before it; `None` if one of them is not
/// found.
pub open spec fn reach(tokens: Seq<Seq<u8>>, k: nat, t: Seq<u8>) -> Option<int>
    decreases k,
{
    if k == 0 {
        Some(0)
    } else {
        match reach(tokens, (k - 1) as nat, t) {
            None => None,
            Some(e) => match text::find_from(t, tokens[k - 1], e) {
                None => None,
                Some(p) => Some(p + tokens[k - 1].len()),
            },
        }
    }
}

/// What stands in a text stands in every text that goes on from it, and what
/// stands in the longer text within the shorter one stands in the shorter.
pub proof fn occurs_in_longer(t: Seq<u8>, more: Seq<u8>, needle: Seq<u8>, p: int)
    requires
        0 <= p,
        p + needle.len() <= t.len(),
    ensures
        text::occurs_at(t + more, needle, p) == text::occurs_at(t, needle, p),
{
    assert((t + more).subrange(p, p + needle.len()) =~= t.subrange(p, p + needle.len()));
}

/// A first occurrence stays the first when the text goes on.
pub proof fn find_in_longer(t: Seq<u8>, more: Seq<u8>, needle: Seq<u8>, from: int)
    requires
        0 <= from,
        text::find_from(t, needle, from) is Some,
    ensures
        text::find_from(t + more, needle, from) == text::find_from(t, needle, from),
{
    let p = text::find_from(t, needle, from)->0;
    text::find_from_is_first(t, needle, from);
    occurs_in_longer(t, more, needle, p);
    assert forall|q: int| from <= q < p implies !text::occurs_at(t + more, needle, q) by {
        occurs_in_longer(t, more, needle, q);
    }
    text::find_from_unique(t + more, needle, from, p);
}

/// The position behind the first `k` tokens lies within the text.
pub proof fn reach_within(tokens: Seq<Seq<u8>>, k: nat, t: Seq<u8>)
    requires
        k <= tokens.len(),
    ensures
        reach(tokens, k, t) is Some ==> 0 <= reach(tokens, k, t)->0 <= t.len(),
    decreases k,
{
    if k > 0 {
        reach_within(tokens, (k - 1) as nat, t);
        if reach(tokens, (k - 1) as nat, t) is Some {
            text::find_from_is_first(t, tokens[k - 1], reach(tokens, (k - 1) as nat, t)->0);
        }
    }
}

/// The position behind the first `k` tokens stays when the text goes on.
pub proof fn reach_in_longer(tokens: Seq<Seq<u8>>, k: nat, t: Seq<u8>, more: Seq<u8>)
    requires
        k <= tokens.len(),
        reach(tokens, k, t) is Some,
    ensures
        reach(tokens, k, t + more) == reach(tokens, k, t),
    decreases k,
{
    if k > 0 {
        reach_in_longer(tokens, (k - 1) as nat, t, more);
        reach_within(tokens, (k - 1) as nat, t);
        find_in_longer(t, more, tokens[k - 1], reach(tokens, (k - 1) as nat, t)->0);
    }
}

/// Tokens that stand in order from some position on also do so from every
/// earlier position on.
pub proof fn in_order_from_earlier(
    tokens: Seq<Seq<u8>>,
    k: int,
    t: Seq<u8>,
    from: int,
    earlier: int,
)
    requires
        earlier <= from,
        in_order_from(tokens, k, t, from),
    ensures
        in_order_from(tokens, k, t, earlier),
{
    if 0 <= k < tokens.len() {
        let p = choose|p: int| #[trigger]
            stands(tokens[k], t, from, p) && in_order_from(tokens, k + 1, t, p + tokens[k].len());
        assert(stands(tokens[k], t, earlier, p));
    }
}

/// Taking each token at its first occurrence decides whether the tokens
/// stand in order: they do exactly if the rest of them does behind the first
/// `k` so taken, and they do not if one of the first `k` is not found.
pub proof fn reach_decides(tokens: Seq<Seq<u8>>, k: nat, t: Seq<u8>)
    requires
        k <= tokens.len(),
    ensures
        match reach(tokens, k, t) {
            Some(e) => in_order(tokens, t) == in_order_from(tokens, k as int, t, e),
            None => !in_order(tokens, t),
        },
    decreases k,
{
    if k > 0 {
        let i = k - 1;
        reach_decides(tokens, i as nat, t);
        reach_within(tokens, i as nat, t);
        match reach(tokens, i as nat, t) {
            None => {},
            Some(e) => {
                let token = tokens[i];
                text::find_from_is_first(t, token, e);
                match text::find_from(t, token, e) {
                    None => {},
                    Some(q) => {
                        if in_order_from(tokens, i, t, e) {
                            let p = choose|p: int| #[trigger]
                                stands(token, t, e, p) && in_order_from(
                                    tokens,
                                    i + 1,
                                    t,
                                    p + token.len(),
                                );
                            in_order_from_earlier(
                                tokens,
                                i + 1,
                                t,
                                p + token.len(),
                                q + token.len(),
                            );
                        }
                        if in_order_from(tokens, k as int, t, q + token.len()) {
                            assert(stands(token, t, e, q));
                        }
                    },
                }
            },
        }
    }
}

impl SequenceModel {
    /// The rule after the chunks were fed to it in order.
    pub open spec fn after(self, chunks: Seq<Seq<u8>>) -> SequenceModel
        decreases chunks.len(),
    {
        if chunks.len() == 0 {
            self
        } else {
            self.after(chunks.drop_last()).respond(chunks.last()).0
        }
    }

    /// The rule answers to the chunk with a block or a rewrite.
    pub open spec fn fires(self, chunk: Seq<u8>) -> bool {
        !(self.respond(chunk).1 is Allow)
    }

    /// Fed the chunks in order, the rule answers to one of them with a block
    /// or a rewrite.
    pub open spec fn fires_within(self, chunks: Seq<Seq<u8>>) -> bool {
        exists|i: int|
            0 <= i < chunks.len() && #[trigger] self.after(chunks.take(i)).fires(chunks[i])
    }

    /// None of the stop words of the rule stands in the text.
    pub open spec fn stop_free(self, t: Seq<u8>) -> bool {
        forall|i: int|
            0 <= i < self.stop_words.len() ==> !text::contains(t, #[trigger] self.stop_words[i])
    }

    /// The rule is in step with the text `t` that it was fed: it has found
    /// the tokens that stand in `t`, each at its first occurrence behind the
    /// one before it; the next token does not stand behind them; and the
    /// carry is the end of `t`, from a position on before which the next
    /// token cannot begin.
    pub open spec fn tracks(self, t: Seq<u8>) -> bool {
        let e = reach(self.tokens, self.progress, t);
        let s = t.len() - self.carry.len();
        &&& self.wf()
        &&& e is Some
        &&& e->0 <= s <= t.len()
        &&& self.carry == text::tail(t, s)
        &&& (s == e->0 || s + sequence::longest(self.tokens) <= t.len())
        &&& text::find_from(t, self.tokens[self.progress as int], e->0) is None
    }
}

/// Every rule that feeding makes is well formed. In particular, no rule ever
/// carries more than twice the length of its longest token, with gaps or
/// without. A rule that has answered with a block or a rewrite has started
/// over and carries nothing.
pub proof fn sequence_carry_bounded(m: SequenceModel, chunk: Seq<u8>)
    requires
        m.wf(),
    ensures
        m.respond(chunk).0.wf(),
        m.respond(chunk).0.carry.len() <= 2 * sequence::longest(m.tokens),
        m.respond(chunk).0.tokens == m.tokens,
        m.fires(chunk) ==> m.respond(chunk).0.progress == 0 && m.respond(chunk).0.carry.len() == 0,
        m.respond(chunk).1 is Allow ==> m.respond(chunk).0.last_score == 0 || chunk.len() == 0,
{
    let buf = m.carry + chunk;
    if chunk.len() > 0 && !sequence::hits_any(m.stop_words, buf) && (m.allow_gaps || m.progress
        == 0) {
        consume_bounds(m.tokens, m.progress, buf);
    }
}

/// A rule without gaps that is under way does not lose a token that the end
/// of a chunk cuts in two.
///
/// Take a chunk after which nothing but the start of the next token stands
/// behind the white space, or nothing at all. The rule passes the chunk,
/// keeps its progress and carries that start. With the next chunk it is
/// where one chunk made of the two would have brought it, and it answers to
/// the one with a block or a rewrite exactly if it would have to the other.
pub proof fn strict_token_may_be_cut(m: SequenceModel, first: Seq<u8>, second: Seq<u8>)
    requires
        m.wf(),
        !m.allow_gaps,
        m.progress > 0,
        first.len() > 0,
        second.len() > 0,
        m.stop_free(m.carry + first + second),
        text::trim_start(m.carry + first).len() < m.tokens[m.progress as int].len(),
        m.tokens[m.progress as int].subrange(0, text::trim_start(m.carry + first).len() as int)
            == text::trim_start(m.carry + first),
    ensures
        m.respond(first).1 is Allow,
        m.respond(first).0.progress == m.progress,
        m.respond(first).0.carry == text::trim_start(m.carry + first),
        m.respond(first).0.respond(second).0 == m.respond(first + second).0,
        m.respond(first).0.fires(second) == m.fires(first + second),
{
    let target = m.tokens[m.progress as int];
    let keep = sequence::longest(m.tokens);
    let one = m.carry + first;
    let both = m.carry + (first + second);
    let rest = text::trim_start(one);
    assert(both == one + second) by {
        assert(both =~= one + second);
    }
    assert(both =~= m.carry + first + second);
    sequence::longest_bounds(m.tokens, m.progress as int);
    text::leading_end(one, text::spaces());
    text::leading_in_longer(one, second, text::spaces());
    assert forall|i: int| 0 <= i < m.stop_words.len() implies !text::contains(
        one,
        #[trigger] m.stop_words[i],
    ) && !text::contains(rest + second, m.stop_words[i]) by {
        if text::contains(one, m.stop_words[i]) {
            assert(text::tail(one, 0) =~= one);
            contains_in_longer(one, 0, second, m.stop_words[i]);
        }
        if text::contains(rest + second, m.stop_words[i]) {
            assert(text::tail(both, text::leading_spaces(one) as int) =~= rest + second);
            contains_in_longer(
                both,
                text::leading_spaces(one) as int,
                Seq::empty(),
                m.stop_words[i],
            );
            assert(both + Seq::<u8>::empty() =~= both);
        }
    }
    if rest.len() > 0 {
        assert(rest[0] == target.subrange(0, rest.len() as int)[0]);
    }
    assert(!text::starts_with(rest, target));
    let waiting = m.respond(first).0;
    assert(waiting.carry == rest);
    if rest.len() > 0 {
        assert(text::leading_spaces(one + second) == text::leading_spaces(one));
        assert(text::trim_start(one + second) =~= rest + second);
        text::leading_in_longer(rest, second, text::spaces());
        assert(!text::is_space(rest[0])) by {
            assert(rest[0] == one[text::leading_spaces(one) as int]);
        }
        assert(text::leading_spaces(rest) == 0);
        assert(text::trim_start(rest + second) =~= rest + second);
    } else {
        assert(rest + second =~= second);
        assert(text::leading_spaces(one) == one.len());
        assert(text::leading_spaces(one + second) == one.len() + text::leading_spaces(second));
        text::leading_end(second, text::spaces());
        let k = text::leading_spaces(second) as int;
        assert(text::tail(one + second, one.len() + k) =~= text::tail(second, k));
    }
    assert(text::trim_start(waiting.carry + second) == text::trim_start(one + second));
}

/// Taking tokens out never goes back, and not past the last token.
pub proof fn consume_bounds(tokens: Seq<Seq<u8>>, progress: nat, buf: Seq<u8>)
    requires
        progress <= tokens.len(),
    ensures
        progress <= sequence::consume(tokens, progress, buf).0 <= tokens.len(),
    decreases tokens.len() - progress,
{
    if progress < tokens.len() {
        match text::find(buf, tokens[progress as int]) {
            Some(p) => {
                consume_bounds(
                    tokens,
                    progress + 1,
                    text::tail(buf, p + tokens[progress as int].len()),
                );
            },
            None => {},
        }
    }
}

/// Taking tokens out of the end of a text follows the first occurrences in
/// the whole text, as long as the next token cannot begin in the part of the
/// text that the end leaves out.
proof fn consume_tracks(tokens: Seq<Seq<u8>>, k: nat, t: Seq<u8>, e: int, s: int)
    requires
        k <= tokens.len(),
        forall|i: int| 0 <= i < tokens.len() ==> (#[trigger] tokens[i]).len() > 0,
        reach(tokens, k, t) == Some(e),
        0 <= e <= s <= t.len(),
        k < tokens.len() ==> forall|p: int| e <= p < s ==> !text::occurs_at(t, tokens[k as int], p),
    ensures
        ({
            let (k2, left) = sequence::consume(tokens, k, text::tail(t, s));
            let s2 = t.len() - left.len();
            &&& k <= k2 <= tokens.len()
            &&& reach(tokens, k2, t) is Some
            &&& reach(tokens, k2, t)->0 <= s2 <= t.len()
            &&& left == text::tail(t, s2)
            &&& (k2 == k ==> s2 == s)
            &&& (k2 > k ==> s2 == reach(tokens, k2, t)->0)
            &&& (k2 < tokens.len() ==> text::find_from(
                t,
                tokens[k2 as int],
                reach(tokens, k2, t)->0,
            ) is None)
        }),
    decreases tokens.len() - k,
{
    let buf = text::tail(t, s);
    if k < tokens.len() {
        let token = tokens[k as int];
        text::find_in_tail(t, token, s);
        text::find_from_is_first(t, token, s);
        text::find_from_is_first(t, token, e);
        match text::find_from(t, token, s) {
            None => {},
            Some(p) => {
                text::find_from_unique(t, token, e, p);
                let next = p + token.len();
                assert(reach(tokens, k + 1, t) == Some(next));
                assert(text::tail(buf, p - s + token.len()) =~= text::tail(t, next));
                consume_tracks(tokens, k + 1, t, next, next);
            },
        }
    }
}

/// A word that stands in the end of a text stands in the text, and in every
/// text that goes on from it.
pub proof fn contains_in_longer(t: Seq<u8>, from: int, more: Seq<u8>, word: Seq<u8>)
    requires
        0 <= from <= t.len(),
        text::contains(text::tail(t, from), word),
    ensures
        text::contains(t + more, word),
{
    let rest = text::tail(t, from);
    text::find_from_is_first(rest, word, 0);
    let p = text::find(rest, word)->0;
    assert((t + more).subrange(from + p, from + p + word.len()) =~= rest.subrange(
        p,
        p + word.len(),
    ));
    assert(text::occurs_at(t + more, word, from + p));
    text::find_from_is_first(t + more, word, 0);
}

/// One chunk more keeps a rule in step with its text, until it fires; and it
/// fires only when its tokens stand in the text in order.
proof fn advance_tracks(m: SequenceModel, t: Seq<u8>, chunk: Seq<u8>)
    requires
        m.tracks(t),
        m.allow_gaps || m.tokens.len() == 1,
        m.stop_free(t + chunk),
        chunk.len() > 0,
    ensures
        m.advance(chunk).1 ==> in_order(m.tokens, t + chunk),
        !m.advance(chunk).1 ==> m.advance(chunk).0.tracks(t + chunk) && !in_order(
            m.tokens,
            t + chunk,
        ),
        m.advance(chunk).0.tokens == m.tokens,
        m.advance(chunk).0.allow_gaps == m.allow_gaps,
        m.advance(chunk).0.stop_words == m.stop_words,
{
    let whole = t + chunk;
    let tokens = m.tokens;
    let e = reach(tokens, m.progress, t)->0;
    let s = t.len() - m.carry.len();
    let keep = sequence::longest(tokens);
    let target = tokens[m.progress as int];
    let buf = m.carry + chunk;
    reach_within(tokens, m.progress, t);
    assert(buf =~= text::tail(whole, s));
    if sequence::hits_any(m.stop_words, buf) {
        let i = choose|i: int|
            0 <= i < m.stop_words.len() && text::contains(buf, #[trigger] m.stop_words[i]);
        contains_in_longer(whole, s, Seq::empty(), m.stop_words[i]);
        assert(whole + Seq::<u8>::empty() =~= whole);
    }
    reach_in_longer(tokens, m.progress, t, chunk);
    reach_within(tokens, m.progress, t);
    sequence::longest_bounds(tokens, m.progress as int);
    text::find_from_is_first(t, target, e);
    assert forall|p: int| e <= p < s implies !text::occurs_at(whole, target, p) by {
        occurs_in_longer(t, chunk, target, p);
    }
    consume_tracks(tokens, m.progress, whole, e, s);
    let (k2, left) = sequence::consume(tokens, m.progress, buf);
    let s2 = whole.len() - left.len();
    if k2 >= tokens.len() {
        reach_decides(tokens, k2, whole);
    } else {
        reach_decides(tokens, k2 + 1, whole);
        reach_within(tokens, k2, whole);
        let after = m.advance(chunk).0;
        assert(left == text::tail(whole, s2));
        if left.len() > 2 * keep {
            assert(after.carry == text::tail(left, left.len() - keep));
            assert(text::tail(left, left.len() - keep) =~= text::tail(whole, whole.len() - keep));
        }
    }
}

/// However a text is cut into chunks, a rule that allows gaps answers to one
/// of the chunks with a block or a rewrite exactly if its tokens stand in
/// the text in order, each behind the one before it. The same holds of a
/// rule without gaps that has one token only.
///
/// This is said of a rule that has found and carried nothing yet, and of a
/// text in which none of its stop words stands.
pub proof fn sequence_found_in_chunks(m: SequenceModel, chunks: Seq<Seq<u8>>)
    requires
        m.wf(),
        m.allow_gaps || m.tokens.len() == 1,
        m.progress == 0,
        m.carry.len() == 0,
        m.stop_free(text::concat(chunks)),
    ensures
        m.fires_within(chunks) <==> in_order(m.tokens, text::concat(chunks)),
{
    sequence_run(m, chunks);
}

/// Fed a text in chunks, a rule that searches with gaps either has fired, and its
/// tokens stand in the text in order; or it has not, they do not, and the
/// rule is in step with the text.
proof fn sequence_run(m: SequenceModel, chunks: Seq<Seq<u8>>)
    requires
        m.wf(),
        m.allow_gaps || m.tokens.len() == 1,
        m.progress == 0,
        m.carry.len() == 0,
        m.stop_free(text::concat(chunks)),
    ensures
        m.fires_within(chunks) <==> in_order(m.tokens, text::concat(chunks)),
        !m.fires_within(chunks) ==> {
            &&& m.after(chunks).tracks(text::concat(chunks))
            &&& m.after(chunks).tokens == m.tokens
            &&& m.after(chunks).allow_gaps == m.allow_gaps
            &&& m.after(chunks).stop_words == m.stop_words
        },
    decreases chunks.len(),
{
    let whole = text::concat(chunks);
    if chunks.len() == 0 {
        assert(m.carry =~= text::tail(whole, 0));
        assert(text::find_from(whole, m.tokens[0], 0) is None);
        reach_decides(m.tokens, 1, whole);
    } else {
        let head = chunks.drop_last();
        let last = chunks.last();
        let t = text::concat(head);
        let i = chunks.len() - 1;
        assert(chunks.take(i) =~= head);
        assert forall|j: int| 0 <= j < m.stop_words.len() implies !text::contains(
            t,
            #[trigger] m.stop_words[j],
        ) by {
            if text::contains(t, m.stop_words[j]) {
                assert(text::tail(t, 0) =~= t);
                contains_in_longer(t, 0, last, m.stop_words[j]);
            }
        }
        sequence_run(m, head);
        assert forall|j: int| 0 <= j < head.len() implies (#[trigger] m.after(
            chunks.take(j),
        ).fires(chunks[j])) == m.after(head.take(j)).fires(head[j]) by {
            assert(head.take(j) =~= chunks.take(j));
        }
        if m.fires_within(head) {
            let j = choose|j: int|
                0 <= j < head.len() && #[trigger] m.after(head.take(j)).fires(head[j]);
            assert(m.after(chunks.take(j)).fires(chunks[j]));
            in_order_in_longer(m.tokens, t, last);
        } else {
            let before = m.after(head);
            if last.len() == 0 {
                assert(whole =~= t);
                assert(!before.fires(last));
            } else {
                advance_tracks(before, t, last);
                assert(before.fires(last) == before.advance(last).1);
                if before.fires(last) {
                    assert(m.after(chunks.take(i)).fires(chunks[i]));
                }
            }
            if m.fires_within(chunks) && !before.fires(last) {
                let j = choose|j: int|
                    0 <= j < chunks.len() && #[trigger] m.after(chunks.take(j)).fires(chunks[j]);
                assert(j < head.len());
                assert(m.after(head.take(j)).fires(head[j]));
            }
        }
    }
}

/// Tokens that stand in a text in order do so in every text that goes on
/// from it.
pub proof fn in_order_in_longer(tokens: Seq<Seq<u8>>, t: Seq<u8>, more: Seq<u8>)
    requires
        in_order(tokens, t),
    ensures
        in_order(tokens, t + more),
{
    reach_decides(tokens, tokens.len(), t);
    reach_in_longer(tokens, tokens.len(), t, more);
    reach_decides(tokens, tokens.len(), t + more);
}

} // verus!
