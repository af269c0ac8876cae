//! Byte strings: character classes, substring search and replacement.
//!
//! The rules of this crate match on bytes. The classes are the ASCII ones;
//! a byte above 0x7f belongs to none of them.

use vstd::prelude::*;

verus! {

/// An ASCII decimal digit.
pub open spec fn is_digit(b: u8) -> bool {
    0x30 <= b <= 0x39
}

/// An ASCII letter or digit.
pub open spec fn is_alnum(b: u8) -> bool {
    is_digit(b) || (0x41 <= b <= 0x5a) || (0x61 <= b <= 0x7a)
}

/// ASCII white space: space, tab, line feed, vertical tab, form feed,
/// carriage return.
pub open spec fn is_space(b: u8) -> bool {
    b == 0x20 || (0x09 <= b <= 0x0d)
}

/// The byte with an ASCII capital letter turned into its small letter.
pub open spec fn lower(b: u8) -> u8 {
    if 0x41 <= b <= 0x5a {
        (b + 0x20) as u8
    } else {
        b
    }
}

/// The byte string with every ASCII capital letter turned into its small
/// letter.
pub open spec fn lowered(s: Seq<u8>) -> Seq<u8> {
    Seq::new(s.len(), |i: int| lower(s[i]))
}

/// The classes above are those of the ASCII characters that their names say.
pub proof fn classes_are_ascii(b: u8)
    ensures
        is_digit(b) <==> '0' <= b as char <= '9',
        is_alnum(b) <==> is_digit(b) || 'A' <= b as char <= 'Z' || 'a' <= b as char <= 'z',
        is_space(b) <==> b as char == ' ' || '\t' <= b as char <= '\r',
        'A' <= b as char <= 'Z' ==> lower(b) - b == 'a' as u8 - 'A' as u8,
        !('A' <= b as char <= 'Z') ==> lower(b) == b,
{
}

/// `needle` stands in `hay` at position `at`.
pub open spec fn occurs_at(hay: Seq<u8>, needle: Seq<u8>, at: int) -> bool {
    &&& 0 <= at
    &&& at + needle.len() <= hay.len()
    &&& hay.subrange(at, at + needle.len()) == needle
}

/// The first position at or after `from` at which `needle` stands in `hay`.
pub open spec fn find_from(hay: Seq<u8>, needle: Seq<u8>, from: int) -> Option<int>
    decreases hay.len() - from + 1,
{
    if from < 0 || from + needle.len() > hay.len() {
        None
    } else if occurs_at(hay, needle, from) {
        Some(from)
    } else {
        find_from(hay, needle, from + 1)
    }
}

/// The first position at which `needle` stands in `hay`.
pub open spec fn find(hay: Seq<u8>, needle: Seq<u8>) -> Option<int> {
    find_from(hay, needle, 0)
}

/// `needle` stands somewhere in `hay`.
pub open spec fn contains(hay: Seq<u8>, needle: Seq<u8>) -> bool {
    find(hay, needle) is Some
}

/// `hay` begins with `needle`.
pub open spec fn starts_with(hay: Seq<u8>, needle: Seq<u8>) -> bool {
    occurs_at(hay, needle, 0)
}

/// The part of `s` from position `from` on.
pub open spec fn tail(s: Seq<u8>, from: int) -> Seq<u8> {
    s.subrange(from, s.len() as int)
}

/// The number of bytes at the start of `s` that belong to `class`.
pub open spec fn leading(s: Seq<u8>, class: spec_fn(u8) -> bool) -> nat
    decreases s.len(),
{
    if s.len() > 0 && class(s[0]) {
        1 + leading(s.drop_first(), class)
    } else {
        0
    }
}

/// The class of white-space bytes.
pub open spec fn spaces() -> spec_fn(u8) -> bool {
    |b: u8| is_space(b)
}

/// The class of bytes that are no white space.
pub open spec fn solid() -> spec_fn(u8) -> bool {
    |b: u8| !is_space(b)
}

/// The number of white-space bytes at the start of `s`.
pub open spec fn leading_spaces(s: Seq<u8>) -> nat {
    leading(s, spaces())
}

/// `s` without the white space at its start.
pub open spec fn trim_start(s: Seq<u8>) -> Seq<u8> {
    tail(s, leading_spaces(s) as int)
}

/// The number of bytes at the start of `s` that are no white space.
pub open spec fn leading_word(s: Seq<u8>) -> nat {
    leading(s, solid())
}

/// The leading bytes of a class end within `s`, all of them belong to the
/// class, and the byte behind them does not.
pub proof fn leading_end(s: Seq<u8>, class: spec_fn(u8) -> bool)
    ensures
        leading(s, class) <= s.len(),
        forall|i: int| 0 <= i < leading(s, class) ==> class(s[i]),
        leading(s, class) < s.len() ==> !class(s[leading(s, class) as int]),
    decreases s.len(),
{
    if s.len() > 0 && class(s[0]) {
        let rest = s.drop_first();
        leading_end(rest, class);
        assert forall|i: int| 0 <= i < leading(s, class) implies class(s[i]) by {
            if i > 0 {
                assert(s[i] == rest[i - 1]);
            }
        }
        if leading(s, class) < s.len() {
            assert(s[leading(s, class) as int] == rest[leading(rest, class) as int]);
        }
    }
}

/// Where the first `n` bytes of `s` belong to a class and the next one does
/// not, `n` is the number of leading bytes of that class.
pub proof fn leading_is(s: Seq<u8>, class: spec_fn(u8) -> bool, n: int)
    requires
        0 <= n <= s.len(),
        forall|i: int| 0 <= i < n ==> class(s[i]),
        n < s.len() ==> !class(s[n]),
    ensures
        leading(s, class) == n,
    decreases n,
{
    if n > 0 {
        let rest = s.drop_first();
        assert(class(s[0]));
        assert forall|i: int| 0 <= i < n - 1 implies class(rest[i]) by {
            assert(rest[i] == s[i + 1]);
        }
        if n - 1 < rest.len() {
            assert(rest[n - 1] == s[n]);
        }
        leading_is(rest, class, n - 1);
    }
}

/// The leading bytes of a class in a text that goes on: those of the text, and
/// where the text holds nothing else, those of what follows as well.
pub proof fn leading_in_longer(s: Seq<u8>, more: Seq<u8>, class: spec_fn(u8) -> bool)
    ensures
        leading(s, class) < s.len() ==> leading(s + more, class) == leading(s, class),
        leading(s, class) == s.len() ==> leading(s + more, class) == s.len() + leading(
            more,
            class,
        ),
{
    leading_end(s, class);
    leading_end(more, class);
    let n = leading(s, class) as int;
    let whole = s + more;
    if n < s.len() {
        assert forall|i: int| 0 <= i < n implies class(whole[i]) by {
            assert(whole[i] == s[i]);
        }
        assert(whole[n] == s[n]);
        leading_is(whole, class, n);
    } else {
        let k = leading(more, class) as int;
        assert forall|i: int| 0 <= i < n + k implies class(whole[i]) by {
            if i < n {
                assert(whole[i] == s[i]);
            } else {
                assert(whole[i] == more[i - n]);
            }
        }
        if n + k < whole.len() {
            assert(whole[n + k] == more[k]);
        }
        leading_is(whole, class, n + k);
    }
}

/// The chunks of a stream put together.
pub open spec fn concat(chunks: Seq<Seq<u8>>) -> Seq<u8>
    decreases chunks.len(),
{
    if chunks.len() == 0 {
        Seq::empty()
    } else {
        concat(chunks.drop_last()) + chunks.last()
    }
}

/// `find_from` gives the least position at or after `from` where `needle`
/// stands, and `None` exactly if there is no such position.
pub proof fn find_from_is_first(hay: Seq<u8>, needle: Seq<u8>, from: int)
    requires
        0 <= from,
    ensures
        match find_from(hay, needle, from) {
            Some(p) => {
                &&& from <= p
                &&& occurs_at(hay, needle, p)
                &&& forall|q: int| from <= q < p ==> !occurs_at(hay, needle, q)
            },
            None => forall|q: int| from <= q ==> !occurs_at(hay, needle, q),
        },
    decreases hay.len() - from + 1,
{
    if from + needle.len() > hay.len() {
    } else if occurs_at(hay, needle, from) {
    } else {
        find_from_is_first(hay, needle, from + 1);
    }
}

/// A position where `needle` stands, with none before it from `from` on, is
/// what `find_from` gives.
pub proof fn find_from_unique(hay: Seq<u8>, needle: Seq<u8>, from: int, p: int)
    requires
        0 <= from <= p,
        occurs_at(hay, needle, p),
        forall|q: int| from <= q < p ==> !occurs_at(hay, needle, q),
    ensures
        find_from(hay, needle, from) == Some(p),
{
    find_from_is_first(hay, needle, from);
}

/// Searching the tail of `hay` is searching `hay` from that position.
pub proof fn find_in_tail(hay: Seq<u8>, needle: Seq<u8>, from: int)
    requires
        0 <= from <= hay.len(),
    ensures
        find(tail(hay, from), needle) == match find_from(hay, needle, from) {
            Some(p) => Some(p - from),
            None => None,
        },
{
    let rest = tail(hay, from);
    find_from_is_first(hay, needle, from);
    find_from_is_first(rest, needle, 0);
    assert forall|q: int| 0 <= q implies (occurs_at(rest, needle, q) <==> occurs_at(
        hay,
        needle,
        q + from,
    )) by {
        if q + needle.len() <= rest.len() {
            assert(rest.subrange(q, q + needle.len()) =~= hay.subrange(
                q + from,
                q + from + needle.len(),
            ));
        }
    }
    match find_from(hay, needle, from) {
        Some(p) => {
            assert(occurs_at(rest, needle, p - from));
            assert forall|q: int| 0 <= q < p - from implies !occurs_at(rest, needle, q) by {
                assert(!occurs_at(hay, needle, q + from));
            }
            find_from_unique(rest, needle, 0, p - from);
        },
        None => {
            if find(rest, needle) is Some {
                let q = find(rest, needle)->0;
                assert(occurs_at(hay, needle, q + from));
            }
        },
    }
}

/// Tells whether a byte is an ASCII decimal digit.
pub fn digit(b: u8) -> (yes: bool)
    ensures
        yes == is_digit(b),
{
    0x30 <= b && b <= 0x39
}

/// Tells whether a byte is an ASCII letter or digit.
pub fn alnum(b: u8) -> (yes: bool)
    ensures
        yes == is_alnum(b),
{
    (0x30 <= b && b <= 0x39) || (0x41 <= b && b <= 0x5a) || (0x61 <= b && b <= 0x7a)
}

/// Tells whether a byte is ASCII white space.
pub fn space(b: u8) -> (yes: bool)
    ensures
        yes == is_space(b),
{
    b == 0x20 || (0x09 <= b && b <= 0x0d)
}

/// Tells whether `needle` stands in `hay` at position `at`.
pub fn matches_at(hay: &[u8], needle: &[u8], at: usize) -> (yes: bool)
    ensures
        yes == occurs_at(hay@, needle@, at as int),
{
    if needle.len() > hay.len() || at > hay.len() - needle.len() {
        return false;
    }
    let mut i: usize = 0;
    while i < needle.len()
        invariant
            i <= needle.len(),
            at + needle.len() <= hay.len(),
            forall|j: int| 0 <= j < i ==> hay@[at + j] == needle@[j],
        decreases needle.len() - i,
    {
        if hay[at + i] != needle[i] {
            assert(hay@.subrange(at as int, at + needle.len())[i as int] != needle@[i as int]);
            return false;
        }
        i += 1;
    }
    assert(hay@.subrange(at as int, at + needle.len()) =~= needle@);
    true
}

/// Finds the first position at or after `from` at which `needle` stands in
/// `hay`.
pub fn search_from(hay: &[u8], needle: &[u8], from: usize) -> (found: Option<usize>)
    ensures
        match found {
            Some(p) => find_from(hay@, needle@, from as int) == Some(p as int),
            None => find_from(hay@, needle@, from as int) is None,
        },
{
    if needle.len() > hay.len() || from > hay.len() - needle.len() {
        return None;
    }
    let last = hay.len() - needle.len();
    let mut i: usize = from;
    loop
        invariant
            from <= i <= last,
            last == hay.len() - needle.len(),
            find_from(hay@, needle@, from as int) == find_from(hay@, needle@, i as int),
        decreases last - i,
    {
        if matches_at(hay, needle, i) {
            return Some(i);
        }
        if i == last {
            assert(find_from(hay@, needle@, i + 1) is None);
            return None;
        }
        i += 1;
    }
}

/// Finds the first position at which `needle` stands in `hay`: the position
/// holds `needle`, and no earlier one does.
pub fn search(hay: &[u8], needle: &[u8]) -> (found: Option<usize>)
    ensures
        match found {
            Some(p) => {
                &&& find(hay@, needle@) == Some(p as int)
                &&& occurs_at(hay@, needle@, p as int)
                &&& forall|q: int| 0 <= q < p ==> !occurs_at(hay@, needle@, q)
            },
            None => {
                &&& find(hay@, needle@) is None
                &&& forall|q: int| !occurs_at(hay@, needle@, q)
            },
        },
{
    proof {
        find_from_is_first(hay@, needle@, 0);
    }
    search_from(hay, needle, 0)
}

/// `hay` with each occurrence of `from` replaced by `to`, taking the
/// occurrences from the left and never overlapping. An empty `from` occurs
/// nowhere.
pub open spec fn replace_all(hay: Seq<u8>, from: Seq<u8>, to: Seq<u8>) -> Seq<u8>
    decreases hay.len(),
{
    if from.len() == 0 {
        hay
    } else {
        match find(hay, from) {
            None => hay,
            Some(p) => {
                proof {
                    find_from_is_first(hay, from, 0);
                }
                hay.subrange(0, p) + to + replace_all(tail(hay, p + from.len()), from, to)
            },
        }
    }
}

/// Appends the bytes of `src` from `from` up to `to`.
pub fn append_range(out: &mut Vec<u8>, src: &[u8], from: usize, to: usize)
    requires
        from <= to <= src@.len(),
    ensures
        final(out)@ == old(out)@ + src@.subrange(from as int, to as int),
{
    let mut i: usize = from;
    while i < to
        invariant
            from <= i <= to <= src@.len(),
            out@ == old(out)@ + src@.subrange(from as int, i as int),
        decreases to - i,
    {
        out.push(src[i]);
        assert(src@.subrange(from as int, i + 1) =~= src@.subrange(from as int, i as int).push(
            src@[i as int],
        ));
        assert(out@ =~= old(out)@ + src@.subrange(from as int, i + 1));
        i += 1;
    }
}

/// Appends all bytes of `src`.
pub fn append(out: &mut Vec<u8>, src: &[u8])
    ensures
        final(out)@ == old(out)@ + src@,
{
    assert(src@.subrange(0, src@.len() as int) =~= src@);
    append_range(out, src, 0, src.len());
}

/// Copies the bytes of `src` from `from` up to `to`.
pub fn copy_range(src: &[u8], from: usize, to: usize) -> (out: Vec<u8>)
    requires
        from <= to <= src@.len(),
    ensures
        out@ == src@.subrange(from as int, to as int),
{
    let mut out: Vec<u8> = Vec::new();
    append_range(&mut out, src, from, to);
    assert(out@ =~= src@.subrange(from as int, to as int));
    out
}

/// Replaces each occurrence of `from` in `hay` by `to`.
pub fn replace(hay: &[u8], from: &[u8], to: &[u8]) -> (out: Vec<u8>)
    ensures
        out@ == replace_all(hay@, from@, to@),
{
    let mut out: Vec<u8> = Vec::new();
    if from.len() == 0 {
        append(&mut out, hay);
        assert(out@ =~= hay@);
        return out;
    }
    let mut pos: usize = 0;
    let end = hay.len();
    assert(tail(hay@, 0) =~= hay@);
    assert(out@ + replace_all(hay@, from@, to@) =~= replace_all(hay@, from@, to@));
    loop
        invariant
            from@.len() > 0,
            end == hay@.len(),
            pos <= hay@.len(),
            replace_all(hay@, from@, to@) == out@ + replace_all(tail(hay@, pos as int), from@, to@),
        decreases hay@.len() - pos,
    {
        let ghost rest = tail(hay@, pos as int);
        proof {
            find_in_tail(hay@, from@, pos as int);
            find_from_is_first(hay@, from@, pos as int);
        }
        match search_from(hay, from, pos) {
            None => {
                append_range(&mut out, hay, pos, hay.len());
                return out;
            },
            Some(p) => {
                let ghost before = out@;
                assert(occurs_at(hay@, from@, p as int));
                append_range(&mut out, hay, pos, p);
                append(&mut out, to);
                proof {
                    let q = p - pos;
                    assert(rest.subrange(0, q) =~= hay@.subrange(pos as int, p as int));
                    assert(tail(rest, q + from@.len()) =~= tail(hay@, p + from@.len()));
                    assert(out@ =~= before + (rest.subrange(0, q) + to@));
                    assert(before + (rest.subrange(0, q) + to@ + replace_all(
                        tail(rest, q + from@.len()),
                        from@,
                        to@,
                    )) =~= out@ + replace_all(tail(hay@, p + from@.len()), from@, to@));
                }
                pos = p + from.len();
            },
        }
    }
}

/// Turns every ASCII capital letter into its small letter.
pub fn to_lower(s: &[u8]) -> (out: Vec<u8>)
    ensures
        out@ == lowered(s@),
{
    let mut out: Vec<u8> = Vec::new();
    let mut i: usize = 0;
    while i < s.len()
        invariant
            i <= s@.len(),
            out@.len() == i,
            forall|j: int| 0 <= j < i ==> out@[j] == lower(s@[j]),
        decreases s.len() - i,
    {
        let b = s[i];
        let c: u8 = if 0x41 <= b && b <= 0x5a {
            b + 0x20
        } else {
            b
        };
        out.push(c);
        i += 1;
    }
    assert(out@ =~= lowered(s@));
    out
}

/// The bytes of a text: its UTF-8 encoding.
pub open spec fn bytes(text: Seq<char>) -> Seq<u8> {
    vstd::utf8::encode_utf8(text)
}

/// A text is empty exactly if it has no bytes.
pub proof fn bytes_empty(text: Seq<char>)
    ensures
        bytes(text).len() == 0 <==> text.len() == 0,
{
    if text.len() > 0 {
        assert(vstd::utf8::encode_scalar(text[0] as u32).len() > 0);
    }
}

/// The text that a byte string is shown as: its UTF-8 decoding, with the
/// replacement character U+FFFD for each malformed part.
pub uninterp spec fn lossy_text(bytes: Seq<u8>) -> Seq<char>;

/// Calls `String::from_utf8_lossy`. The result is the lossy decoding of the
/// bytes; for well-formed UTF-8 that is the decoded text itself.
#[verifier::external_body]
pub(crate) fn to_text(bytes: &[u8]) -> (text: String)
    ensures
        text@ == lossy_text(bytes@),
        vstd::utf8::valid_utf8(bytes@) ==> text@ == vstd::utf8::decode_utf8(bytes@),
{
    String::from_utf8_lossy(bytes).into_owned()
}

/// A value that is read as text: a string slice or an owned string.
pub trait AsText {
    /// The text of the value.
    spec fn text(&self) -> Seq<char>;

    /// Gives the text of the value.
    fn as_text(&self) -> (s: &str)
        ensures
            s@ == self.text(),
    ;
}

impl<'a> AsText for &'a str {
    open spec fn text(&self) -> Seq<char> {
        (*self)@
    }

    fn as_text(&self) -> (s: &str) {
        *self
    }
}

impl AsText for String {
    open spec fn text(&self) -> Seq<char> {
        self@
    }

    fn as_text(&self) -> (s: &str) {
        self.as_str()
    }
}

/// The bytes of each text of a list.
pub open spec fn all_bytes<S: AsText>(texts: Seq<S>) -> Seq<Seq<u8>> {
    Seq::new(texts.len(), |i: int| bytes(texts[i].text()))
}

/// The byte strings that a list of byte vectors holds.
pub open spec fn views(list: Seq<Vec<u8>>) -> Seq<Seq<u8>> {
    Seq::new(list.len(), |i: int| list[i]@)
}

/// Copies the bytes of each text of a list.
pub fn bytes_of_all<S: AsText>(texts: &Vec<S>) -> (list: Vec<Vec<u8>>)
    ensures
        views(list@) == all_bytes(texts@),
{
    let mut list: Vec<Vec<u8>> = Vec::new();
    let mut i: usize = 0;
    while i < texts.len()
        invariant
            i <= texts@.len(),
            list@.len() == i,
            forall|j: int| 0 <= j < i ==> list@[j]@ == bytes(texts@[j].text()),
        decreases texts.len() - i,
    {
        let source = texts[i].as_text().as_bytes();
        let item = copy_range(source, 0, source.len());
        assert(source@.subrange(0, source@.len() as int) =~= source@);
        list.push(item);
        i += 1;
    }
    assert(views(list@) =~= all_bytes(texts@));
    list
}

/// The first position at or after `from` that holds no white space.
pub fn skip_spaces(buf: &[u8], from: usize) -> (at: usize)
    requires
        from <= buf@.len(),
    ensures
        from <= at <= buf@.len(),
        at == from + leading_spaces(tail(buf@, from as int)),
{
    let mut at: usize = from;
    while at < buf.len() && space(buf[at])
        invariant
            from <= at <= buf@.len(),
            forall|j: int| from <= j < at ==> is_space(buf@[j]),
        decreases buf.len() - at,
    {
        at += 1;
    }
    proof {
        leading_is(tail(buf@, from as int), spaces(), at - from);
    }
    at
}

/// The first position at or after `from` that holds white space.
pub fn skip_word(buf: &[u8], from: usize) -> (at: usize)
    requires
        from <= buf@.len(),
    ensures
        from <= at <= buf@.len(),
        at == from + leading_word(tail(buf@, from as int)),
{
    let mut at: usize = from;
    while at < buf.len() && !space(buf[at])
        invariant
            from <= at <= buf@.len(),
            forall|j: int| from <= j < at ==> !is_space(buf@[j]),
        decreases buf.len() - at,
    {
        at += 1;
    }
    proof {
        leading_is(tail(buf@, from as int), solid(), at - from);
    }
    at
}

} // verus!
