//! The tests that decide whether a text holds a pattern.

use vstd::prelude::*;

use crate::rules::pattern::PatternRule;
use crate::text;

verus! {

/// The byte `@`.
pub const AT: u8 = 0x40;

/// The byte `.`.
pub const DOT: u8 = 0x2e;

/// The byte `-`.
pub const DASH: u8 = 0x2d;

/// The byte ` `.
pub const BLANK: u8 = 0x20;

/// The byte `_`.
pub const UNDERSCORE: u8 = 0x5f;

/// The byte `+`.
pub const PLUS: u8 = 0x2b;

/// The byte `%`.
pub const PERCENT: u8 = 0x25;

/// The bytes of `http://`.
pub open spec fn http() -> Seq<u8> {
    seq![0x68u8, 0x74u8, 0x74u8, 0x70u8, 0x3au8, 0x2fu8, 0x2fu8]
}

/// The bytes of `https://`.
pub open spec fn https() -> Seq<u8> {
    seq![0x68u8, 0x74u8, 0x74u8, 0x70u8, 0x73u8, 0x3au8, 0x2fu8, 0x2fu8]
}

/// The bytes and byte strings above are the texts that their names say.
pub proof fn protocols_are_text()
    ensures
        http() == text::bytes("http://"@),
        https() == text::bytes("https://"@),
        seq![AT] == text::bytes("@"@),
        seq![DOT] == text::bytes("."@),
        seq![DASH] == text::bytes("-"@),
        seq![BLANK] == text::bytes(" "@),
        seq![UNDERSCORE] == text::bytes("_"@),
        seq![PLUS] == text::bytes("+"@),
        seq![PERCENT] == text::bytes("%"@),
{
    reveal_strlit("http://");
    reveal_strlit("https://");
    reveal_strlit("@");
    reveal_strlit(".");
    reveal_strlit("-");
    reveal_strlit(" ");
    reveal_strlit("_");
    reveal_strlit("+");
    reveal_strlit("%");
    vstd::utf8::is_ascii_chars_encode_utf8("_"@);
    vstd::utf8::is_ascii_chars_encode_utf8("+"@);
    vstd::utf8::is_ascii_chars_encode_utf8("%"@);
    vstd::utf8::is_ascii_chars_encode_utf8("http://"@);
    vstd::utf8::is_ascii_chars_encode_utf8("https://"@);
    vstd::utf8::is_ascii_chars_encode_utf8("@"@);
    vstd::utf8::is_ascii_chars_encode_utf8("."@);
    vstd::utf8::is_ascii_chars_encode_utf8("-"@);
    vstd::utf8::is_ascii_chars_encode_utf8(" "@);
    assert(http() =~= text::bytes("http://"@));
    assert(https() =~= text::bytes("https://"@));
    assert(seq![AT] =~= text::bytes("@"@));
    assert(seq![DOT] =~= text::bytes("."@));
    assert(seq![DASH] =~= text::bytes("-"@));
    assert(seq![BLANK] =~= text::bytes(" "@));
    assert(seq![UNDERSCORE] =~= text::bytes("_"@));
    assert(seq![PLUS] =~= text::bytes("+"@));
    assert(seq![PERCENT] =~= text::bytes("%"@));
}

/// The first position of the byte `b` in `t`.
pub open spec fn index_of(t: Seq<u8>, b: u8) -> Option<int> {
    text::find(t, seq![b])
}

/// Position `at` of `t` holds an ASCII letter or digit.
pub open spec fn alnum_at(t: Seq<u8>, at: int) -> bool {
    0 <= at < t.len() && text::is_alnum(t[at])
}

/// The text looks like it holds an email address.
///
/// It has an `@`, and before the first `@` stands at least one letter or
/// digit. Behind that `@` comes a `.`, and the first such `.` has something
/// before it and two letters or digits right after it.
pub open spec fn email_like(t: Seq<u8>) -> bool {
    match index_of(t, AT) {
        None => false,
        Some(at) => {
            let domain = text::tail(t, at + 1);
            &&& exists|i: int| 0 <= i < at && text::is_alnum(#[trigger] t[i])
            &&& match index_of(domain, DOT) {
                None => false,
                Some(dot) => dot > 0 && alnum_at(domain, dot + 1) && alnum_at(domain, dot + 2),
            }
        },
    }
}

/// A URL begins at position `p` of the text: `http://` or `https://` stands
/// there, and a letter or digit follows it.
pub open spec fn url_at(t: Seq<u8>, p: int) -> bool {
    ||| text::occurs_at(t, http(), p) && alnum_at(t, p + 7)
    ||| text::occurs_at(t, https(), p) && alnum_at(t, p + 8)
}

/// The text looks like it holds a URL: somewhere in it stands `http://` or
/// `https://` with a letter or digit behind it.
pub open spec fn url_like(t: Seq<u8>) -> bool {
    exists|p: int| url_at(t, p)
}

/// The words of a text: its stretches without white space, in order.
pub open spec fn words(t: Seq<u8>) -> Seq<Seq<u8>>
    decreases t.len(),
{
    let rest = text::trim_start(t);
    if rest.len() == 0 {
        Seq::empty()
    } else {
        proof {
            text::leading_end(t, text::spaces());
            text::leading_end(rest, text::solid());
        }
        let n = text::leading_word(rest);
        seq![rest.take(n as int)] + words(text::tail(rest, n as int))
    }
}

/// The parts of `w` between the occurrences of the byte `sep`.
pub open spec fn split(w: Seq<u8>, sep: u8) -> Seq<Seq<u8>>
    decreases w.len(),
{
    match index_of(w, sep) {
        None => seq![w],
        Some(i) => {
            proof {
                text::find_from_is_first(w, seq![sep], 0);
            }
            seq![w.take(i)] + split(text::tail(w, i + 1), sep)
        },
    }
}

/// The number that a string of decimal digits stands for.
pub open spec fn number(digits: Seq<u8>) -> nat
    decreases digits.len(),
{
    if digits.len() == 0 {
        0
    } else {
        (number(digits.drop_last()) * 10 + (digits.last() - 0x30)) as nat
    }
}

/// One to three decimal digits that stand for a number up to 255.
pub open spec fn octet(part: Seq<u8>) -> bool {
    &&& 1 <= part.len() <= 3
    &&& forall|i: int| 0 <= i < part.len() ==> text::is_digit(#[trigger] part[i])
    &&& number(part) <= 255
}

/// Four octets with a `.` between each two.
pub open spec fn quad(w: Seq<u8>) -> bool {
    &&& split(w, DOT).len() == 4
    &&& forall|i: int| 0 <= i < 4 ==> octet(#[trigger] split(w, DOT)[i])
}

/// The text holds an IPv4 address: one of its words is four octets with a
/// `.` between each two.
pub open spec fn ipv4_like(t: Seq<u8>) -> bool {
    exists|i: int| 0 <= i < words(t).len() && quad(#[trigger] words(t)[i])
}

/// A space or a dash: what may stand between the digits of a card number.
pub open spec fn is_separator(b: u8) -> bool {
    b == BLANK || b == DASH
}

/// The number of decimal digits in `s`.
pub open spec fn count_digits(s: Seq<u8>) -> nat
    decreases s.len(),
{
    if s.len() == 0 {
        0
    } else if text::is_digit(s.last()) {
        count_digits(s.drop_last()) + 1
    } else {
        count_digits(s.drop_last())
    }
}

/// The stretch of `t` from `a` up to `b` holds digits, spaces and dashes
/// only.
pub open spec fn unbroken(t: Seq<u8>, a: int, b: int) -> bool {
    &&& 0 <= a <= b <= t.len()
    &&& forall|k: int| a <= k < b ==> text::is_digit(#[trigger] t[k]) || is_separator(t[k])
}

/// The text looks like it holds a credit card number.
///
/// It has 13 to 19 digits in all, and somewhere four digits stand together,
/// with spaces and dashes between them at most.
pub open spec fn card_like(t: Seq<u8>) -> bool {
    &&& 13 <= count_digits(t) <= 19
    &&& exists|a: int, b: int| unbroken(t, a, b) && #[trigger] count_digits(t.subrange(a, b)) >= 4
}

/// Finds the first position of the byte `b` in `t` at or after `from`.
pub fn position_from(t: &[u8], b: u8, from: usize) -> (found: Option<usize>)
    requires
        from <= t@.len(),
    ensures
        match found {
            Some(p) => {
                &&& from <= p < t@.len()
                &&& t@[p as int] == b
                &&& forall|q: int| from <= q < p ==> t@[q] != b
                &&& index_of(text::tail(t@, from as int), b) == Some(p - from)
            },
            None => {
                &&& forall|q: int| from <= q < t@.len() ==> t@[q] != b
                &&& index_of(text::tail(t@, from as int), b) is None
            },
        },
{
    let ghost rest = text::tail(t@, from as int);
    let mut i: usize = from;
    while i < t.len()
        invariant
            from <= i <= t@.len(),
            rest == text::tail(t@, from as int),
            forall|q: int| from <= q < i ==> t@[q] != b,
        decreases t.len() - i,
    {
        if t[i] == b {
            proof {
                assert(rest.subrange(i - from, i - from + 1) =~= seq![b]);
                assert forall|q: int| 0 <= q < i - from implies !text::occurs_at(
                    rest,
                    seq![b],
                    q,
                ) by {
                    if text::occurs_at(rest, seq![b], q) {
                        assert(rest.subrange(q, q + 1)[0] == b);
                    }
                }
                text::find_from_unique(rest, seq![b], 0, i - from);
            }
            return Some(i);
        }
        i += 1;
    }
    proof {
        text::find_from_is_first(rest, seq![b], 0);
        if text::find(rest, seq![b]) is Some {
            let q = text::find(rest, seq![b])->0;
            assert(rest.subrange(q, q + 1)[0] == b);
        }
    }
    None
}

impl PatternRule {
    /// Tells whether the text looks like it holds an email address.
    pub fn check_email_pattern(t: &[u8]) -> (yes: bool)
        ensures
            yes == email_like(t@),
    {
        assert(text::tail(t@, 0) =~= t@);
        let end = t.len();
        let at = match position_from(t, AT, 0) {
            None => {
                return false;
            },
            Some(at) => at,
        };
        let mut named = false;
        let mut i: usize = 0;
        while i < at
            invariant
                i <= at < t@.len() == end,
                named <==> exists|j: int| 0 <= j < i && text::is_alnum(#[trigger] t@[j]),
            decreases at - i,
        {
            if text::alnum(t[i]) {
                named = true;
            }
            i += 1;
        }
        if !named {
            return false;
        }
        let ghost domain = text::tail(t@, at + 1);
        match position_from(t, DOT, at + 1) {
            None => false,
            Some(dot) => {
                assert(forall|k: int| 0 <= k < domain.len() ==> domain[k] == t@[at + 1 + k]);
                dot > at + 1 && end - dot > 2 && text::alnum(t[dot + 1]) && text::alnum(
                    t[dot + 2],
                )
            },
        }
    }

    /// Tells whether the text looks like it holds a URL.
    pub fn check_url_pattern(t: &[u8]) -> (yes: bool)
        ensures
            yes == url_like(t@),
    {
        let plain: Vec<u8> = vec![0x68u8, 0x74u8, 0x74u8, 0x70u8, 0x3au8, 0x2fu8, 0x2fu8];
        let secure: Vec<u8> = vec![0x68u8, 0x74u8, 0x74u8, 0x70u8, 0x73u8, 0x3au8, 0x2fu8, 0x2fu8];
        assert(plain@ =~= http());
        assert(secure@ =~= https());
        let end = t.len();
        let mut p: usize = 0;
        while p < end
            invariant
                p <= end == t@.len(),
                plain@ == http(),
                secure@ == https(),
                forall|q: int| 0 <= q < p ==> !url_at(t@, q),
            decreases end - p,
        {
            if text::matches_at(t, plain.as_slice(), p) && end - p > 7 && text::alnum(t[p + 7]) {
                assert(url_at(t@, p as int));
                return true;
            }
            if text::matches_at(t, secure.as_slice(), p) && end - p > 8 && text::alnum(t[p + 8]) {
                assert(url_at(t@, p as int));
                return true;
            }
            p += 1;
        }
        assert forall|q: int| !url_at(t@, q) by {
            if q >= end {
                assert(!text::occurs_at(t@, http(), q));
                assert(!text::occurs_at(t@, https(), q));
            }
        }
        false
    }
}

/// Tells whether `part` is an octet.
pub fn is_octet(part: &[u8]) -> (yes: bool)
    ensures
        yes == octet(part@),
{
    let len = part.len();
    if len == 0 || len > 3 {
        return false;
    }
    let mut value: u32 = 0;
    let mut i: usize = 0;
    while i < len
        invariant
            i <= len == part@.len(),
            len <= 3,
            forall|j: int| 0 <= j < i ==> text::is_digit(#[trigger] part@[j]),
            value == number(part@.take(i as int)),
            value <= 999,
        decreases len - i,
    {
        if !text::digit(part[i]) {
            return false;
        }
        proof {
            assert(part@.take(i + 1).drop_last() =~= part@.take(i as int));
            number_bound(part@.take(i as int));
            number_bound(part@.take(i + 1));
        }
        value = value * 10 + (part[i] - 0x30) as u32;
        i += 1;
    }
    assert(part@.take(len as int) =~= part@);
    value <= 255
}

/// A string of up to three digits stands for a number below 1000, a shorter
/// one for a number below 100, and so on.
pub proof fn number_bound(digits: Seq<u8>)
    requires
        forall|i: int| 0 <= i < digits.len() ==> text::is_digit(#[trigger] digits[i]),
    ensures
        digits.len() == 0 ==> number(digits) == 0,
        digits.len() == 1 ==> number(digits) <= 9,
        digits.len() == 2 ==> number(digits) <= 99,
        digits.len() == 3 ==> number(digits) <= 999,
    decreases digits.len(),
{
    if digits.len() > 0 {
        assert(text::is_digit(digits[digits.len() - 1]));
        number_bound(digits.drop_last());
    }
}

/// Tells whether `w` is four octets with a `.` between each two.
pub fn is_quad(w: &[u8]) -> (yes: bool)
    ensures
        yes == quad(w@),
{
    let end = w.len();
    let mut from: usize = 0;
    let mut count: usize = 0;
    assert(text::tail(w@, 0) =~= w@);
    let ghost mut done: Seq<Seq<u8>> = Seq::empty();
    loop
        invariant
            from <= end == w@.len(),
            count == done.len(),
            count <= 3,
            split(w@, DOT) == done + split(text::tail(w@, from as int), DOT),
            forall|i: int| 0 <= i < done.len() ==> octet(#[trigger] done[i]),
        decreases end - from,
    {
        let ghost rest = text::tail(w@, from as int);
        match position_from(w, DOT, from) {
            None => {
                let part = vstd::slice::slice_subrange(w, from, end);
                let last = is_octet(part);
                proof {
                    let all = split(w@, DOT);
                    assert(all =~= done.push(rest));
                    if count == 3 && last {
                        assert forall|i: int| 0 <= i < 4 implies octet(#[trigger] all[i]) by {
                            if i < 3 {
                                assert(all[i] == done[i]);
                            }
                        }
                    }
                    if count == 3 && !last {
                        assert(all[3] == rest);
                    }
                }
                return count == 3 && last;
            },
            Some(dot) => {
                let part = vstd::slice::slice_subrange(w, from, dot);
                let ghost next = text::tail(w@, dot + 1);
                proof {
                    assert(rest.take(dot - from) =~= part@);
                    assert(text::tail(rest, dot - from + 1) =~= next);
                    assert(split(w@, DOT) =~= done.push(part@) + split(next, DOT));
                    split_has_parts(next, DOT);
                }
                if count == 3 || !is_octet(part) {
                    proof {
                        let all = split(w@, DOT);
                        if count < 3 {
                            assert(all[count as int] == part@);
                        }
                    }
                    return false;
                }
                proof {
                    done = done.push(part@);
                }
                count += 1;
                from = dot + 1;
            },
        }
    }
}

/// A split has at least one part.
pub proof fn split_has_parts(w: Seq<u8>, sep: u8)
    ensures
        split(w, sep).len() >= 1,
{
}

/// The words of a text from `pos` on, given where the next word starts and
/// ends: none if only white space is left, else that word and the words
/// behind it.
pub proof fn words_from(t: Seq<u8>, pos: int, start: int, stop: int)
    requires
        0 <= pos <= t.len(),
        start == pos + text::leading_spaces(text::tail(t, pos)),
        start <= t.len(),
        stop == start + text::leading_word(text::tail(t, start)),
    ensures
        start == t.len() ==> words(text::tail(t, pos)).len() == 0,
        start < t.len() ==> start < stop <= t.len() && words(text::tail(t, pos)) == seq![
            t.subrange(start, stop),
        ] + words(text::tail(t, stop)),
{
    let s = text::tail(t, pos);
    let rest = text::trim_start(s);
    assert(rest =~= text::tail(t, start));
    if start < t.len() {
        text::leading_end(s, text::spaces());
        text::leading_end(rest, text::solid());
        assert(!text::is_space(rest[0]));
        let n = text::leading_word(rest);
        assert(rest.take(n as int) =~= t.subrange(start, stop));
        assert(text::tail(rest, n as int) =~= text::tail(t, stop));
    }
}

impl PatternRule {
    /// Tells whether the text holds an IPv4 address.
    pub fn check_ipv4_pattern(t: &[u8]) -> (yes: bool)
        ensures
            yes == ipv4_like(t@),
    {
        let end = t.len();
        let mut pos: usize = 0;
        let ghost mut done: Seq<Seq<u8>> = Seq::empty();
        assert(text::tail(t@, 0) =~= t@);
        loop
            invariant
                pos <= end == t@.len(),
                words(t@) == done + words(text::tail(t@, pos as int)),
                forall|i: int| 0 <= i < done.len() ==> !quad(#[trigger] done[i]),
            decreases end - pos,
        {
            let start = text::skip_spaces(t, pos);
            let stop = text::skip_word(t, start);
            proof {
                words_from(t@, pos as int, start as int, stop as int);
            }
            if start == end {
                assert(words(t@) =~= done);
                return false;
            }
            let word = vstd::slice::slice_subrange(t, start, stop);
            assert(words(t@) =~= done.push(word@) + words(text::tail(t@, stop as int)));
            if is_quad(word) {
                assert(words(t@)[done.len() as int] == word@);
                return true;
            }
            proof {
                done = done.push(word@);
            }
            pos = stop;
        }
    }
}

/// The digits of a stretch are those of its two parts.
pub proof fn count_digits_split(t: Seq<u8>, a: int, m: int, b: int)
    requires
        0 <= a <= m <= b <= t.len(),
    ensures
        count_digits(t.subrange(a, b)) == count_digits(t.subrange(a, m)) + count_digits(
            t.subrange(m, b),
        ),
    decreases b - m,
{
    if m == b {
        assert(t.subrange(m, b) =~= Seq::<u8>::empty());
    } else {
        count_digits_split(t, a, m, b - 1);
        assert(t.subrange(a, b).drop_last() =~= t.subrange(a, b - 1));
        assert(t.subrange(m, b).drop_last() =~= t.subrange(m, b - 1));
    }
}

impl PatternRule {
    /// Tells whether the text looks like it holds a credit card number.
    pub fn check_credit_card_pattern(t: &[u8]) -> (yes: bool)
        ensures
            yes == card_like(t@),
    {
        let end = t.len();
        let mut digits: usize = 0;
        let mut i: usize = 0;
        while i < end
            invariant
                i <= end == t@.len(),
                digits == count_digits(t@.take(i as int)),
                digits <= i,
            decreases end - i,
        {
            assert(t@.take(i + 1).drop_last() =~= t@.take(i as int));
            if text::digit(t[i]) {
                digits += 1;
            }
            i += 1;
        }
        assert(t@.take(end as int) =~= t@);
        if digits < 13 || digits > 19 {
            return false;
        }
        let mut together: usize = 0;
        let ghost mut from: int = 0;
        let mut i: usize = 0;
        assert(t@.subrange(0, 0) =~= Seq::<u8>::empty());
        while i < end
            invariant
                i <= end == t@.len(),
                13 <= count_digits(t@) <= 19,
                unbroken(t@, from, i as int),
                from > 0 ==> !text::is_digit(t@[from - 1]) && !is_separator(t@[from - 1]),
                together == count_digits(t@.subrange(from, i as int)),
                together < 4,
                forall|a: int, b: int|
                    unbroken(t@, a, b) && b <= i ==> #[trigger] count_digits(t@.subrange(a, b))
                        < 4,
            decreases end - i,
        {
            let b = t[i];
            let ghost before = from;
            if text::digit(b) {
                together += 1;
            } else if b != BLANK && b != DASH {
                together = 0;
                proof {
                    from = i + 1;
                }
            }
            proof {
                let next = i + 1;
                if from == next {
                    assert(t@.subrange(from, next) =~= Seq::<u8>::empty());
                } else {
                    assert(t@.subrange(from, next).drop_last() =~= t@.subrange(from, i as int));
                }
                if together < 4 {
                    assert forall|a: int, b: int| unbroken(t@, a, b) && b <= next implies (
                    #[trigger] count_digits(t@.subrange(a, b))) < 4 by {
                        if b == next {
                            if a < from {
                                assert(text::is_digit(t@[from - 1]) || is_separator(t@[from - 1]));
                            }
                            count_digits_split(t@, from, a, next);
                        }
                    }
                }
            }
            proof {
                assert(unbroken(t@, from, i + 1)) by {
                    assert forall|k: int| from <= k < i + 1 implies text::is_digit(
                        #[trigger] t@[k],
                    ) || is_separator(t@[k]) by {
                        if k < i {
                            assert(unbroken(t@, before, i as int));
                        }
                    }
                }
                assert(together == count_digits(t@.subrange(from, i + 1)));
            }
            if together >= 4 {
                assert(card_like(t@)) by {
                    assert(unbroken(t@, from, i + 1) && count_digits(t@.subrange(from, i + 1))
                        >= 4);
                }
                return true;
            }
            i += 1;
        }
        false
    }
}

} // verus!
