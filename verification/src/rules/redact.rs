//! The rewrites that put a replacement in the place of each pattern found.

use vstd::prelude::*;

use crate::rules::detect;
use crate::rules::pattern::PatternRule;
use crate::text;

verus! {

/// The class of bytes that an email address is made of: letters, digits and
/// `@ . _ - + %`.
pub open spec fn mail_bytes() -> spec_fn(u8) -> bool {
    |b: u8|
        text::is_alnum(b) || b == detect::AT || b == detect::DOT || b == detect::UNDERSCORE || b
            == detect::DASH || b == detect::PLUS || b == detect::PERCENT
}

/// The class of bytes that a card number is made of: digits, spaces and
/// dashes.
pub open spec fn card_bytes() -> spec_fn(u8) -> bool {
    |b: u8| text::is_digit(b) || detect::is_separator(b)
}

/// `s` holds the byte `b`.
pub open spec fn has_byte(s: Seq<u8>, b: u8) -> bool {
    exists|i: int| 0 <= i < s.len() && s[i] == b
}

/// `s` holds an `@` and, somewhere behind it, a `.`.
pub open spec fn at_then_dot(s: Seq<u8>) -> bool {
    exists|i: int, j: int| 0 <= i < j < s.len() && s[i] == detect::AT && s[j] == detect::DOT
}

/// A stretch of email bytes that is taken for an address: more than five
/// bytes, with an `@` and a `.` behind it.
pub open spec fn mail_shaped(run: Seq<u8>) -> bool {
    run.len() > 5 && at_then_dot(run)
}

/// The text with each email address replaced by `to`.
///
/// The text is cut at every byte that no email address is made of. Each
/// stretch between two cuts that is shaped like an address is replaced; the
/// other stretches, and the bytes at the cuts, stay.
pub open spec fn emails_redacted(t: Seq<u8>, to: Seq<u8>) -> Seq<u8>
    decreases t.len(),
{
    if t.len() == 0 {
        Seq::empty()
    } else {
        proof {
            text::leading_end(t, mail_bytes());
        }
        let n = text::leading(t, mail_bytes()) as int;
        let run = t.take(n);
        let out = if mail_shaped(run) {
            to
        } else {
            run
        };
        if n == t.len() {
            out
        } else {
            out + seq![t[n]] + emails_redacted(text::tail(t, n + 1), to)
        }
    }
}

/// The text with each span that begins with `proto` replaced by `to`. A span
/// runs from `proto` up to the next white space, or to the end of the text.
/// The search goes on behind each span.
pub open spec fn spans_redacted(t: Seq<u8>, proto: Seq<u8>, to: Seq<u8>) -> Seq<u8>
    decreases t.len(),
{
    if proto.len() == 0 {
        t
    } else {
        match text::find(t, proto) {
            None => t,
            Some(p) => {
                proof {
                    text::find_from_is_first(t, proto, 0);
                    text::leading_end(text::tail(t, p + proto.len()), text::solid());
                }
                let behind = p + proto.len();
                let end = behind + text::leading_word(text::tail(t, behind));
                t.take(p) + to + spans_redacted(text::tail(t, end), proto, to)
            },
        }
    }
}

/// The text with each URL replaced by `to`: first those with `https://`,
/// then those with `http://`.
pub open spec fn urls_redacted(t: Seq<u8>, to: Seq<u8>) -> Seq<u8> {
    spans_redacted(spans_redacted(t, detect::https(), to), detect::http(), to)
}

/// `acc` after the words were gone through in order: for each word that is
/// an IPv4 address, every occurrence of it was replaced by `to`.
pub open spec fn words_redacted(acc: Seq<u8>, words: Seq<Seq<u8>>, to: Seq<u8>) -> Seq<u8>
    decreases words.len(),
{
    if words.len() == 0 {
        acc
    } else {
        let before = words_redacted(acc, words.drop_last(), to);
        if detect::quad(words.last()) {
            text::replace_all(before, words.last(), to)
        } else {
            before
        }
    }
}

/// The text with each IPv4 address among its words replaced by `to`,
/// wherever that address occurs.
pub open spec fn ipv4_redacted(t: Seq<u8>, to: Seq<u8>) -> Seq<u8> {
    words_redacted(t, detect::words(t), to)
}

/// The text with each card number replaced by `to`.
///
/// A stretch begins at a digit and runs on through digits, spaces and
/// dashes. It is replaced if it holds 13 to 19 digits. Everything else
/// stays.
pub open spec fn cards_redacted(t: Seq<u8>, to: Seq<u8>) -> Seq<u8>
    decreases t.len(),
{
    if t.len() == 0 {
        Seq::empty()
    } else if text::is_digit(t[0]) {
        proof {
            text::leading_end(t, card_bytes());
        }
        let n = text::leading(t, card_bytes()) as int;
        let run = t.take(n);
        let out = if 13 <= detect::count_digits(run) <= 19 {
            to
        } else {
            run
        };
        out + cards_redacted(text::tail(t, n), to)
    } else {
        seq![t[0]] + cards_redacted(text::tail(t, 1), to)
    }
}

/// What one more byte adds to a stretch: an `@` if it is one, and a `.`
/// behind an `@` if it is a `.` and an `@` was there.
pub proof fn mail_shape_grows(s: Seq<u8>, b: u8)
    ensures
        has_byte(s.push(b), detect::AT) == (has_byte(s, detect::AT) || b == detect::AT),
        at_then_dot(s.push(b)) == (at_then_dot(s) || (has_byte(s, detect::AT) && b
            == detect::DOT)),
{
    let next = s.push(b);
    if has_byte(s, detect::AT) {
        let i = choose|i: int| 0 <= i < s.len() && s[i] == detect::AT;
        assert(next[i] == detect::AT);
        if b == detect::DOT {
            assert(next[s.len() as int] == detect::DOT);
        }
    }
    if b == detect::AT {
        assert(next[s.len() as int] == detect::AT);
    }
    if has_byte(next, detect::AT) && b != detect::AT {
        let i = choose|i: int| 0 <= i < next.len() && next[i] == detect::AT;
        assert(s[i] == detect::AT);
    }
    if at_then_dot(s) {
        let (i, j) = choose|i: int, j: int|
            0 <= i < j < s.len() && s[i] == detect::AT && s[j] == detect::DOT;
        assert(next[i] == detect::AT && next[j] == detect::DOT);
    }
    if at_then_dot(next) {
        let (i, j) = choose|i: int, j: int|
            0 <= i < j < next.len() && next[i] == detect::AT && next[j] == detect::DOT;
        assert(s[i] == detect::AT);
        if j < s.len() {
            assert(s[j] == detect::DOT);
        }
    }
}

impl PatternRule {
    /// Replaces each email address in the text by `to`.
    pub fn rewrite_emails(t: &[u8], to: &[u8]) -> (out: Vec<u8>)
        ensures
            out@ == emails_redacted(t@, to@),
    {
        let end = t.len();
        let mut out: Vec<u8> = Vec::new();
        let mut i: usize = 0;
        assert(text::tail(t@, 0) =~= t@);
        while i < end
            invariant
                i <= end == t@.len(),
                emails_redacted(t@, to@) == out@ + emails_redacted(text::tail(t@, i as int), to@),
            decreases end - i,
        {
            let ghost rest = text::tail(t@, i as int);
            let mut j: usize = i;
            let mut seen_at = false;
            let mut seen_dot = false;
            assert(t@.subrange(i as int, i as int) =~= Seq::<u8>::empty());
            while j < end && Self::mail_byte(t[j])
                invariant
                    i <= j <= end == t@.len(),
                    forall|k: int| i <= k < j ==> mail_bytes()(t@[k]),
                    seen_at == has_byte(t@.subrange(i as int, j as int), detect::AT),
                    seen_dot == at_then_dot(t@.subrange(i as int, j as int)),
                decreases end - j,
            {
                proof {
                    mail_shape_grows(t@.subrange(i as int, j as int), t@[j as int]);
                    assert(t@.subrange(i as int, j + 1) =~= t@.subrange(i as int, j as int).push(
                        t@[j as int],
                    ));
                }
                let b = t[j];
                if b == detect::AT {
                    seen_at = true;
                }
                if seen_at && b == detect::DOT {
                    seen_dot = true;
                }
                j += 1;
            }
            proof {
                assert forall|k: int| 0 <= k < j - i implies mail_bytes()(rest[k]) by {
                    assert(rest[k] == t@[i + k]);
                }
                text::leading_is(rest, mail_bytes(), j - i);
                assert(rest.take(j - i) =~= t@.subrange(i as int, j as int));
            }
            let ghost before = out@;
            if seen_dot && j - i > 5 {
                text::append(&mut out, to);
            } else {
                text::append_range(&mut out, t, i, j);
            }
            if j == end {
                assert(text::tail(t@, end as int) =~= Seq::<u8>::empty());
                assert(out@ =~= before + emails_redacted(rest, to@));
                i = j;
            } else {
                out.push(t[j]);
                proof {
                    assert(text::tail(rest, j - i + 1) =~= text::tail(t@, j + 1));
                    let piece = if mail_shaped(rest.take(j - i)) {
                        to@
                    } else {
                        rest.take(j - i)
                    };
                    assert(out@ =~= before + (piece + seq![rest[j - i]]));
                    assert(before + (piece + seq![rest[j - i]] + emails_redacted(
                        text::tail(t@, j + 1),
                        to@,
                    )) =~= out@ + emails_redacted(text::tail(t@, j + 1), to@));
                }
                i = j + 1;
            }
        }
        assert(text::tail(t@, end as int) =~= Seq::<u8>::empty());
        assert(out@ + Seq::<u8>::empty() =~= out@);
        out
    }

    /// Tells whether an email address can hold the byte.
    pub fn mail_byte(b: u8) -> (yes: bool)
        ensures
            yes == mail_bytes()(b),
    {
        text::alnum(b) || b == detect::AT || b == detect::DOT || b == detect::UNDERSCORE || b
            == detect::DASH || b == detect::PLUS || b == detect::PERCENT
    }
}

/// Replaces each span of `t` that begins with `proto` by `to`.
pub fn redact_spans(t: &[u8], proto: &[u8], to: &[u8]) -> (out: Vec<u8>)
    ensures
        out@ == spans_redacted(t@, proto@, to@),
{
    let end = t.len();
    let mut out: Vec<u8> = Vec::new();
    if proto.len() == 0 {
        text::append(&mut out, t);
        assert(out@ =~= t@);
        return out;
    }
    let mut pos: usize = 0;
    assert(text::tail(t@, 0) =~= t@);
    assert(out@ + spans_redacted(t@, proto@, to@) =~= spans_redacted(t@, proto@, to@));
    loop
        invariant
            proto@.len() > 0,
            pos <= end == t@.len(),
            spans_redacted(t@, proto@, to@) == out@ + spans_redacted(
                text::tail(t@, pos as int),
                proto@,
                to@,
            ),
        decreases end - pos,
    {
        let ghost rest = text::tail(t@, pos as int);
        proof {
            text::find_in_tail(t@, proto@, pos as int);
            text::find_from_is_first(t@, proto@, pos as int);
        }
        match text::search_from(t, proto, pos) {
            None => {
                text::append_range(&mut out, t, pos, end);
                return out;
            },
            Some(p) => {
                assert(text::occurs_at(t@, proto@, p as int));
                let ghost before = out@;
                let behind = p + proto.len();
                let stop = text::skip_word(t, behind);
                text::append_range(&mut out, t, pos, p);
                text::append(&mut out, to);
                proof {
                    let q = p - pos;
                    assert(text::tail(rest, q + proto@.len()) =~= text::tail(t@, behind as int));
                    assert(rest.take(q) =~= t@.subrange(pos as int, p as int));
                    assert(text::tail(rest, stop - pos) =~= text::tail(t@, stop as int));
                    assert(out@ =~= before + (rest.take(q) + to@));
                    assert(before + (rest.take(q) + to@ + spans_redacted(
                        text::tail(t@, stop as int),
                        proto@,
                        to@,
                    )) =~= out@ + spans_redacted(text::tail(t@, stop as int), proto@, to@));
                }
                pos = stop;
            },
        }
    }
}

impl PatternRule {
    /// Replaces each URL in the text by `to`.
    pub fn rewrite_urls(t: &[u8], to: &[u8]) -> (out: Vec<u8>)
        ensures
            out@ == urls_redacted(t@, to@),
    {
        let plain: Vec<u8> = vec![0x68u8, 0x74u8, 0x74u8, 0x70u8, 0x3au8, 0x2fu8, 0x2fu8];
        let secure: Vec<u8> = vec![0x68u8, 0x74u8, 0x74u8, 0x70u8, 0x73u8, 0x3au8, 0x2fu8, 0x2fu8];
        assert(plain@ =~= detect::http());
        assert(secure@ =~= detect::https());
        let first = redact_spans(t, secure.as_slice(), to);
        redact_spans(first.as_slice(), plain.as_slice(), to)
    }

    /// Replaces each IPv4 address among the words of the text by `to`,
    /// wherever it occurs.
    pub fn rewrite_ipv4(t: &[u8], to: &[u8]) -> (out: Vec<u8>)
        ensures
            out@ == ipv4_redacted(t@, to@),
    {
        let end = t.len();
        let mut out: Vec<u8> = text::copy_range(t, 0, end);
        assert(out@ =~= t@);
        let mut pos: usize = 0;
        let ghost mut done: Seq<Seq<u8>> = Seq::empty();
        assert(text::tail(t@, 0) =~= t@);
        loop
            invariant
                pos <= end == t@.len(),
                detect::words(t@) == done + detect::words(text::tail(t@, pos as int)),
                out@ == words_redacted(t@, done, to@),
            decreases end - pos,
        {
            let start = text::skip_spaces(t, pos);
            let stop = text::skip_word(t, start);
            proof {
                detect::words_from(t@, pos as int, start as int, stop as int);
            }
            if start == end {
                assert(detect::words(t@) =~= done);
                return out;
            }
            let word = vstd::slice::slice_subrange(t, start, stop);
            proof {
                assert(detect::words(t@) =~= done.push(word@) + detect::words(
                    text::tail(t@, stop as int),
                ));
                assert(done.push(word@).drop_last() =~= done);
            }
            if detect::is_quad(word) {
                out = text::replace(out.as_slice(), word, to);
            }
            proof {
                done = done.push(word@);
            }
            pos = stop;
        }
    }

    /// Tells whether a card number can hold the byte.
    pub fn card_byte(b: u8) -> (yes: bool)
        ensures
            yes == card_bytes()(b),
    {
        text::digit(b) || b == detect::BLANK || b == detect::DASH
    }

    /// Replaces each card number in the text by `to`.
    pub fn rewrite_credit_cards(t: &[u8], to: &[u8]) -> (out: Vec<u8>)
        ensures
            out@ == cards_redacted(t@, to@),
    {
        let end = t.len();
        let mut out: Vec<u8> = Vec::new();
        let mut i: usize = 0;
        assert(text::tail(t@, 0) =~= t@);
        while i < end
            invariant
                i <= end == t@.len(),
                cards_redacted(t@, to@) == out@ + cards_redacted(text::tail(t@, i as int), to@),
            decreases end - i,
        {
            let ghost rest = text::tail(t@, i as int);
            let ghost before = out@;
            if !text::digit(t[i]) {
                out.push(t[i]);
                proof {
                    assert(text::tail(rest, 1) =~= text::tail(t@, i + 1));
                    assert(before + (seq![rest[0]] + cards_redacted(text::tail(t@, i + 1), to@))
                        =~= out@ + cards_redacted(text::tail(t@, i + 1), to@));
                }
                i += 1;
            } else {
                let mut j: usize = i;
                let mut digits: usize = 0;
                assert(t@.subrange(i as int, i as int) =~= Seq::<u8>::empty());
                while j < end && Self::card_byte(t[j])
                    invariant
                        i <= j <= end == t@.len(),
                        forall|k: int| i <= k < j ==> card_bytes()(t@[k]),
                        digits == detect::count_digits(t@.subrange(i as int, j as int)),
                        digits <= j - i,
                    decreases end - j,
                {
                    assert(t@.subrange(i as int, j + 1).drop_last() =~= t@.subrange(
                        i as int,
                        j as int,
                    ));
                    if text::digit(t[j]) {
                        digits += 1;
                    }
                    j += 1;
                }
                proof {
                    assert forall|k: int| 0 <= k < j - i implies card_bytes()(rest[k]) by {
                        assert(rest[k] == t@[i + k]);
                    }
                    text::leading_is(rest, card_bytes(), j - i);
                    assert(rest.take(j - i) =~= t@.subrange(i as int, j as int));
                    assert(text::tail(rest, j - i) =~= text::tail(t@, j as int));
                    assert(card_bytes()(rest[0]));
                }
                if 13 <= digits && digits <= 19 {
                    text::append(&mut out, to);
                } else {
                    text::append_range(&mut out, t, i, j);
                }
                proof {
                    let piece = if 13 <= detect::count_digits(rest.take(j - i)) <= 19 {
                        to@
                    } else {
                        rest.take(j - i)
                    };
                    assert(before + (piece + cards_redacted(text::tail(t@, j as int), to@))
                        =~= out@ + cards_redacted(text::tail(t@, j as int), to@));
                }
                i = j;
            }
        }
        assert(text::tail(t@, end as int) =~= Seq::<u8>::empty());
        assert(out@ + Seq::<u8>::empty() =~= out@);
        out
    }
}

} // verus!
