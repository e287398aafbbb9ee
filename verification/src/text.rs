//! Text as a sequence of characters, and its UTF-8 bytes where a position is a byte offset.
//!
//! A contract speaks of `text@`, the characters. An offset is an index into the UTF-8 encoding
//! of those characters, and a slice between two offsets exists only where both fall between
//! characters.

use vstd::prelude::*;
use vstd::string::*;
use vstd::utf8::*;

verus! {

/// The UTF-8 encoding of a text.
pub open spec fn bytes(text: Seq<char>) -> Seq<u8> {
    encode_utf8(text)
}

/// Whether both offsets are in range, in order, and between characters.
pub open spec fn sliceable(text: Seq<char>, from: int, to: int) -> bool {
    &&& 0 <= from <= to <= bytes(text).len()
    &&& is_char_boundary(bytes(text), from)
    &&& is_char_boundary(bytes(text), to)
}

/// The characters between two byte offsets.
pub open spec fn slice(text: Seq<char>, from: int, to: int) -> Seq<char> {
    decode_utf8(bytes(text).subrange(from, to))
}

/// A boundary of a text is a boundary of each prefix that holds it.
pub proof fn lemma_prefix_boundary(text: Seq<char>, from: int, to: int)
    requires
        sliceable(text, from, to),
    ensures
        valid_utf8(bytes(text).subrange(0, to)),
        is_char_boundary(bytes(text).subrange(0, to), from),
        bytes(text).subrange(0, to).subrange(from, to) == bytes(text).subrange(from, to),
        valid_utf8(bytes(text).subrange(from, to)),
{
    let b = bytes(text);
    encode_utf8_valid_utf8(text);
    valid_utf8_split(b, to);
    let p = b.subrange(0, to);
    if from < to {
        is_char_boundary_iff_not_is_continuation_byte(b, from);
        is_char_boundary_iff_not_is_continuation_byte(p, from);
    } else {
        is_char_boundary_start_end_of_seq(p);
    }
    assert(p.subrange(from, to) =~= b.subrange(from, to));
    valid_utf8_split(p, from);
}

/// The text between two byte offsets, where there is one.
pub fn get<'a>(text: &'a str, from: usize, to: usize) -> (part: Option<&'a str>)
    ensures
        match part {
            Some(found) => sliceable(text@, from as int, to as int) && found@ == slice(
                text@,
                from as int,
                to as int,
            ),
            None => !sliceable(text@, from as int, to as int),
        },
{
    let length: usize = text.as_bytes().len();
    if from > to || to > length {
        return None;
    }
    if !text.is_char_boundary(from) || !text.is_char_boundary(to) {
        return None;
    }
    proof {
        lemma_prefix_boundary(text@, from as int, to as int);
    }
    let (head, _) = text.split_at(to);
    let (_, found) = head.split_at(from);
    proof {
        encode_utf8_decode_utf8(found@);
    }
    Some(found)
}

/// Whether two texts hold the same characters.
pub fn same(left: &str, right: &str) -> (equal: bool)
    ensures
        equal == (left@ == right@),
{
    let a = left.as_bytes();
    let b = right.as_bytes();
    proof {
        encode_utf8_decode_utf8(left@);
        encode_utf8_decode_utf8(right@);
    }
    if a.len() != b.len() {
        return false;
    }
    let mut i: usize = 0;
    while i < a.len()
        invariant
            i <= a@.len(),
            a@.len() == b@.len(),
            a@ == bytes(left@),
            b@ == bytes(right@),
            forall|k: int| 0 <= k < i ==> a@[k] == b@[k],
        decreases a@.len() - i,
    {
        if a[i] != b[i] {
            return false;
        }
        i += 1;
    }
    assert(a@ =~= b@);
    true
}

/// The start and the end of a text are boundaries.
pub proof fn lemma_ends(text: Seq<char>)
    ensures
        is_char_boundary(bytes(text), 0),
        is_char_boundary(bytes(text), bytes(text).len() as int),
        valid_utf8(bytes(text)),
        slice(text, 0, bytes(text).len() as int) == text,
{
    encode_utf8_valid_utf8(text);
    is_char_boundary_start_end_of_seq(bytes(text));
    assert(bytes(text).subrange(0, bytes(text).len() as int) =~= bytes(text));
    encode_utf8_decode_utf8(text);
}

/// Encoding distributes over concatenation.
pub proof fn lemma_bytes_concat(a: Seq<char>, b: Seq<char>)
    ensures
        bytes(a + b) == bytes(a) + bytes(b),
    decreases a.len(),
{
    if a.len() == 0 {
        assert(a + b =~= b);
        assert(bytes(a) =~= Seq::<u8>::empty());
    } else {
        let rest = a.drop_first();
        lemma_bytes_concat(rest, b);
        assert((a + b).drop_first() =~= rest + b);
        assert((a + b)[0] == a[0]);
        assert(bytes(a + b) =~= bytes(a) + bytes(b));
    }
}

/// The encoding of one more text never starts inside a character.
proof fn lemma_first_byte(t: Seq<char>)
    requires
        t.len() > 0,
    ensures
        bytes(t).len() > 0,
        !is_continuation_byte(bytes(t)[0]),
{
    encode_utf8_valid_utf8(t);
    encode_utf8_first_scalar(t);
    is_char_boundary_start_end_of_seq(bytes(t));
    is_char_boundary_iff_not_is_continuation_byte(bytes(t), 0);
}

/// The end of a prefix is a boundary of the whole.
pub proof fn lemma_concat_boundary(a: Seq<char>, b: Seq<char>)
    ensures
        is_char_boundary(bytes(a + b), bytes(a).len() as int),
{
    lemma_bytes_concat(a, b);
    encode_utf8_valid_utf8(a + b);
    is_char_boundary_start_end_of_seq(bytes(a + b));
    if b.len() > 0 {
        lemma_first_byte(b);
        is_char_boundary_iff_not_is_continuation_byte(bytes(a + b), bytes(a).len() as int);
    } else {
        assert(bytes(b) =~= Seq::<u8>::empty());
    }
}

/// A text laid between two others is the slice between their ends.
pub proof fn lemma_parts(a: Seq<char>, b: Seq<char>, c: Seq<char>)
    ensures
        sliceable(a + b + c, bytes(a).len() as int, (bytes(a).len() + bytes(b).len()) as int),
        slice(a + b + c, bytes(a).len() as int, (bytes(a).len() + bytes(b).len()) as int) == b,
{
    assert(a + b + c =~= a + (b + c));
    lemma_concat_boundary(a, b + c);
    lemma_concat_boundary(a + b, c);
    lemma_bytes_concat(a, b);
    lemma_bytes_concat(a + b, c);
    let from = bytes(a).len() as int;
    let to = from + bytes(b).len();
    assert(bytes(a + b + c).subrange(from, to) =~= bytes(b));
    encode_utf8_decode_utf8(b);
}

/// A text is what comes before, between and after two boundaries.
pub proof fn lemma_cut(t: Seq<char>, from: int, to: int)
    requires
        sliceable(t, from, to),
    ensures
        t == slice(t, 0, from) + slice(t, from, to) + slice(t, to, bytes(t).len() as int),
        bytes(slice(t, 0, from)) == bytes(t).subrange(0, from),
        bytes(slice(t, from, to)) == bytes(t).subrange(from, to),
        bytes(slice(t, to, bytes(t).len() as int)) == bytes(t).subrange(to, bytes(t).len() as int),
{
    let b = bytes(t);
    let end = b.len() as int;
    lemma_prefix_boundary(t, from, to);
    encode_utf8_valid_utf8(t);
    encode_utf8_decode_utf8(t);
    decode_utf8_split(b, to);
    valid_utf8_split(b, to);
    valid_utf8_split(b, from);
    let p = b.subrange(0, to);
    decode_utf8_split(p, from);
    assert(p.subrange(0, from) =~= b.subrange(0, from));
    assert(p.subrange(from, p.len() as int) =~= b.subrange(from, to));
    decode_utf8_encode_utf8(b.subrange(0, from));
    decode_utf8_encode_utf8(b.subrange(from, to));
    decode_utf8_encode_utf8(b.subrange(to, end));
}

/// Between a boundary and itself lies nothing.
pub proof fn lemma_nothing_between(t: Seq<char>, at: int)
    requires
        sliceable(t, at, at),
    ensures
        slice(t, at, at) == Seq::<char>::empty(),
{
    lemma_cut(t, at, at);
    let part = slice(t, at, at);
    assert(bytes(part) =~= Seq::<u8>::empty());
    if part.len() > 0 {
        lemma_first_byte(part);
    }
}

/// A slice of a slice is a slice.
pub proof fn lemma_slice_within(t: Seq<char>, from: int, to: int, start: int, end: int)
    requires
        sliceable(t, from, to),
        sliceable(slice(t, from, to), start, end),
    ensures
        sliceable(t, from + start, from + end),
        slice(t, from + start, from + end) == slice(slice(t, from, to), start, end),
{
    let length = bytes(t).len() as int;
    let inner = slice(t, from, to);
    lemma_cut(t, from, to);
    lemma_cut(inner, start, end);
    let head = slice(t, 0, from);
    let tail = slice(t, to, length);
    let before = slice(inner, 0, start);
    let part = slice(inner, start, end);
    let after = slice(inner, end, bytes(inner).len() as int);
    assert(t =~= (head + before) + part + (after + tail));
    lemma_parts(head + before, part, after + tail);
    lemma_bytes_concat(head, before);
    assert(bytes(head).len() == from);
    assert(bytes(before).len() == start);
    assert(bytes(part).len() == end - start);
}

/// What searching for a pattern finds: the first place where it stands, or none where it does not.
pub proof fn lemma_find_from(t: Seq<char>, p: Seq<char>, from: int)
    ensures
        match find_from(t, p, from) {
            Some(at) => from <= at <= bytes(t).len() && matches_at(t, p, at) && (forall|k: int|
                from <= k < at ==> !#[trigger] matches_at(t, p, k)),
            None => forall|k: int| from <= k ==> !#[trigger] matches_at(t, p, k),
        },
    decreases bytes(t).len() + 1 - from,
{
    if from <= bytes(t).len() && !matches_at(t, p, from) {
        lemma_find_from(t, p, from + 1);
    }
}

/// An ASCII byte is a whole character.
pub proof fn lemma_ascii_at(t: Seq<char>, at: int)
    requires
        0 <= at < bytes(t).len(),
        bytes(t)[at] < 0x80,
    ensures
        sliceable(t, at, at + 1),
        slice(t, at, at + 1) == seq![bytes(t)[at] as char],
        t == slice(t, 0, at) + seq![bytes(t)[at] as char] + slice(t, at + 1, bytes(t).len() as int),
        bytes(slice(t, 0, at)) == bytes(t).subrange(0, at),
        bytes(slice(t, at + 1, bytes(t).len() as int)) == bytes(t).subrange(
            at + 1,
            bytes(t).len() as int,
        ),
{
    let b = bytes(t);
    encode_utf8_valid_utf8(t);
    is_char_boundary_iff_not_is_continuation_byte(b, at);
    valid_utf8_split(b, at);
    let rest = b.subrange(at, b.len() as int);
    assert(rest[0] == b[at]);
    assert(is_leading_byte_width_1(rest[0]));
    assert(length_of_first_scalar(rest) == 1);
    is_char_boundary_start_end_of_seq(b);
    if at + 1 < b.len() {
        let tail = pop_first_scalar(rest);
        assert(valid_utf8(tail));
        assert(tail =~= b.subrange(at + 1, b.len() as int));
        is_char_boundary_start_end_of_seq(tail);
        is_char_boundary_iff_not_is_continuation_byte(tail, 0);
        is_char_boundary_iff_not_is_continuation_byte(b, at + 1);
    }
    lemma_cut(t, at, at + 1);
    let one = b.subrange(at, at + 1);
    assert(one =~= seq![b[at]]);
    let single = seq![b[at] as char];
    is_ascii_chars_encode_utf8(single);
    assert(bytes(single) =~= one);
    encode_utf8_decode_utf8(single);
}

/// An ASCII character is in a text exactly where its byte is in the encoding.
pub proof fn lemma_ascii_absent(t: Seq<char>, byte: u8)
    requires
        byte < 0x80,
    ensures
        !bytes(t).contains(byte) <==> !t.contains(byte as char),
    decreases t.len(),
{
    if bytes(t).contains(byte) {
        let at = choose|i: int| 0 <= i < bytes(t).len() && bytes(t)[i] == byte;
        lemma_ascii_at(t, at);
        assert(t[slice(t, 0, at).len() as int] == byte as char);
    }
    if t.contains(byte as char) {
        let at = choose|i: int| 0 <= i < t.len() && t[i] == byte as char;
        let a = t.take(at);
        let b = seq![byte as char];
        assert(t =~= a + b + t.skip(at + 1));
        lemma_bytes_concat(a, b);
        lemma_bytes_concat(a + b, t.skip(at + 1));
        is_ascii_chars_encode_utf8(b);
        assert(bytes(b) =~= seq![byte]);
        assert(bytes(t)[bytes(a).len() as int] == byte);
    }
}

/// Where a character first stands in a text, or the text's length where it does not.
pub open spec fn index_of(t: Seq<char>, c: char) -> nat
    decreases t.len(),
{
    if t.len() == 0 || t[0] == c {
        0
    } else {
        1 + index_of(t.drop_first(), c)
    }
}

/// The pieces of a text between the occurrences of a character.
pub open spec fn split(t: Seq<char>, c: char) -> Seq<Seq<char>>
    decreases t.len(),
{
    let at = index_of(t, c) as int;
    if at >= t.len() {
        seq![t]
    } else {
        seq![t.take(at)] + split(t.skip(at + 1), c)
    }
}

/// The characters of each text of a list.
pub open spec fn views(parts: Seq<&str>) -> Seq<Seq<char>> {
    Seq::new(parts.len(), |i: int| parts[i]@)
}

/// The characters of each owned text of a list.
pub open spec fn string_views(parts: Seq<String>) -> Seq<Seq<char>> {
    Seq::new(parts.len(), |i: int| parts[i]@)
}

/// Nothing before the first occurrence holds the character.
pub proof fn lemma_index_of(a: Seq<char>, c: char, b: Seq<char>)
    requires
        !a.contains(c),
    ensures
        index_of(a + seq![c] + b, c) == a.len(),
        index_of(a, c) == a.len(),
    decreases a.len(),
{
    let t = a + seq![c] + b;
    if a.len() == 0 {
        assert(t[0] == c);
    } else {
        let rest = a.drop_first();
        assert(a[0] != c) by {
            assert(a.contains(a[0]));
        }
        assert(!rest.contains(c)) by {
            if rest.contains(c) {
                let i = choose|i: int| 0 <= i < rest.len() && rest[i] == c;
                assert(a[i + 1] == c);
            }
        }
        lemma_index_of(rest, c, b);
        assert(t.drop_first() =~= rest + seq![c] + b);
    }
}

/// Divides a text at the first occurrence of an ASCII character.
pub fn split_once<'a>(text: &'a str, separator: u8) -> (parts: Option<(&'a str, &'a str)>)
    requires
        separator < 0x80,
    ensures
        match parts {
            Some((before, after)) => text@ == before@ + seq![separator as char] + after@
                && !before@.contains(separator as char),
            None => !text@.contains(separator as char),
        },
{
    let encoded = text.as_bytes();
    let mut at: usize = 0;
    while at < encoded.len()
        invariant
            at <= encoded@.len(),
            encoded@ == bytes(text@),
            separator < 0x80,
            forall|k: int| 0 <= k < at ==> encoded@[k] != separator,
        decreases encoded@.len() - at,
    {
        if encoded[at] == separator {
            proof {
                lemma_ascii_at(text@, at as int);
                let before = slice(text@, 0, at as int);
                lemma_ascii_absent(before, separator);
                assert(bytes(text@).subrange(0, at as int) == bytes(before));
                lemma_ends(text@);
            }
            let before = get(text, 0, at);
            let after = get(text, at + 1, encoded.len());
            match (before, after) {
                (Some(before), Some(after)) => {
                    return Some((before, after));
                },
                _ => {},
            }
            assert(false);
        }
        at += 1;
    }
    proof {
        lemma_ascii_absent(text@, separator);
    }
    None
}

/// Divides a text at every occurrence of an ASCII character.
pub fn split_all<'a>(text: &'a str, separator: u8) -> (parts: Vec<&'a str>)
    requires
        separator < 0x80,
    ensures
        views(parts@) == split(text@, separator as char),
{
    let mut parts: Vec<&'a str> = Vec::new();
    let mut rest: &'a str = text;
    let ghost c = separator as char;
    loop
        invariant
            separator < 0x80,
            c == separator as char,
            views(parts@) + split(rest@, c) == split(text@, c),
        decreases rest@.len(),
    {
        match split_once(rest, separator) {
            Some((before, after)) => {
                proof {
                    lemma_index_of(before@, c, after@);
                    assert(rest@.take(before@.len() as int) =~= before@);
                    assert(rest@.skip(before@.len() as int + 1) =~= after@);
                    assert(views(parts@.push(before)) =~= views(parts@).push(before@));
                    assert(views(parts@).push(before@) + split(after@, c) =~= views(parts@)
                        + split(rest@, c));
                }
                parts.push(before);
                rest = after;
            },
            None => {
                proof {
                    lemma_index_of(rest@, c, Seq::empty());
                    assert(views(parts@.push(rest)) =~= views(parts@) + split(rest@, c));
                }
                parts.push(rest);
                return parts;
            },
        }
    }
}

/// Where a character last stands in a text.
pub open spec fn last_index_of(t: Seq<char>, c: char) -> int
    decreases t.len(),
{
    if t.len() == 0 {
        -1
    } else if t.last() == c {
        t.len() - 1
    } else {
        last_index_of(t.drop_last(), c)
    }
}

/// The two sides of the last occurrence of a character.
pub open spec fn rsplit(t: Seq<char>, c: char) -> Option<(Seq<char>, Seq<char>)> {
    let at = last_index_of(t, c);
    if at < 0 {
        None
    } else {
        Some((t.take(at), t.skip(at + 1)))
    }
}

/// Nothing after the last occurrence holds the character.
pub proof fn lemma_last_index_of(a: Seq<char>, c: char, b: Seq<char>)
    requires
        !b.contains(c),
    ensures
        last_index_of(a + seq![c] + b, c) == a.len(),
        last_index_of(b, c) == -1,
    decreases b.len(),
{
    let t = a + seq![c] + b;
    if b.len() == 0 {
        assert(t.last() == c);
    } else {
        assert(b.contains(b.last()));
        let rest = b.drop_last();
        assert(!rest.contains(c)) by {
            if rest.contains(c) {
                let i = choose|i: int| 0 <= i < rest.len() && rest[i] == c;
                assert(b[i] == c);
            }
        }
        lemma_last_index_of(a, c, rest);
        assert(t.drop_last() =~= a + seq![c] + rest);
        assert(t.last() == b.last());
    }
}

/// Divides a text at the last occurrence of an ASCII character.
pub fn rsplit_once<'a>(text: &'a str, separator: u8) -> (parts: Option<(&'a str, &'a str)>)
    requires
        separator < 0x80,
    ensures
        match (parts, rsplit(text@, separator as char)) {
            (Some((before, after)), Some((head, tail))) => before@ == head && after@ == tail,
            (None, None) => true,
            _ => false,
        },
{
    let encoded = text.as_bytes();
    let mut at: usize = encoded.len();
    let ghost c = separator as char;
    while at > 0
        invariant
            at <= encoded@.len(),
            encoded@ == bytes(text@),
            separator < 0x80,
            c == separator as char,
            forall|k: int| at <= k < encoded@.len() ==> encoded@[k] != separator,
        decreases at,
    {
        at -= 1;
        if encoded[at] == separator {
            proof {
                lemma_ascii_at(text@, at as int);
                lemma_ends(text@);
                let after = slice(text@, at + 1, bytes(text@).len() as int);
                lemma_ascii_absent(after, separator);
                assert(!bytes(after).contains(separator)) by {
                    if bytes(after).contains(separator) {
                        let i = choose|i: int|
                            0 <= i < bytes(after).len() && bytes(after)[i] == separator;
                        assert(encoded@[at + 1 + i] == separator);
                    }
                }
                let before = slice(text@, 0, at as int);
                lemma_last_index_of(before, c, after);
                assert(text@.take(before.len() as int) =~= before);
                assert(text@.skip(before.len() as int + 1) =~= after);
            }
            let before = get(text, 0, at);
            let after = get(text, at + 1, encoded.len());
            match (before, after) {
                (Some(before), Some(after)) => {
                    return Some((before, after));
                },
                _ => {},
            }
            assert(false);
        }
    }
    proof {
        lemma_ascii_absent(text@, separator);
        lemma_last_index_of(Seq::empty(), c, text@);
    }
    None
}

/// Whether a text begins with another.
pub open spec fn begins(t: Seq<char>, p: Seq<char>) -> bool {
    p.len() <= t.len() && t.take(p.len() as int) == p
}

/// Whether a text ends with another.
pub open spec fn ends(t: Seq<char>, p: Seq<char>) -> bool {
    p.len() <= t.len() && t.skip(t.len() - p.len()) == p
}

/// The text after a prefix, where it has that prefix.
pub fn strip_prefix<'a>(text: &'a str, prefix: &str) -> (rest: Option<&'a str>)
    ensures
        match rest {
            Some(rest) => begins(text@, prefix@) && rest@ == text@.skip(prefix@.len() as int),
            None => !begins(text@, prefix@),
        },
{
    let width: usize = prefix.as_bytes().len();
    let length: usize = text.as_bytes().len();
    proof {
        if begins(text@, prefix@) {
            let tail = text@.skip(prefix@.len() as int);
            assert(text@ =~= Seq::<char>::empty() + prefix@ + tail);
            lemma_parts(Seq::empty(), prefix@, tail);
            assert(bytes(Seq::<char>::empty()) =~= Seq::<u8>::empty());
        }
        lemma_ends(text@);
    }
    match get(text, 0, width) {
        Some(head) => {
            if same(head, prefix) {
                proof {
                    lemma_cut(text@, 0, width as int);
                    let tail = slice(text@, width as int, length as int);
                    assert(slice(text@, 0, 0) =~= Seq::<char>::empty());
                    assert(text@ =~= prefix@ + tail);
                    assert(text@.take(prefix@.len() as int) =~= prefix@);
                    assert(text@.skip(prefix@.len() as int) =~= tail);
                }
                return get(text, width, length);
            }
            proof {
                if begins(text@, prefix@) {
                    assert(head@ == prefix@);
                }
            }
            None
        },
        None => None,
    }
}

/// Whether a text begins with another.
pub fn starts_with(text: &str, prefix: &str) -> (found: bool)
    ensures
        found == begins(text@, prefix@),
{
    strip_prefix(text, prefix).is_some()
}

/// The text before a suffix, where it has that suffix.
pub fn strip_suffix<'a>(text: &'a str, suffix: &str) -> (rest: Option<&'a str>)
    ensures
        match rest {
            Some(rest) => ends(text@, suffix@) && rest@ == text@.take(text@.len() - suffix@.len()),
            None => !ends(text@, suffix@),
        },
{
    let width: usize = suffix.as_bytes().len();
    let length: usize = text.as_bytes().len();
    proof {
        if ends(text@, suffix@) {
            let head = text@.take(text@.len() - suffix@.len());
            assert(text@ =~= head + suffix@ + Seq::<char>::empty());
            lemma_parts(head, suffix@, Seq::empty());
            assert(bytes(Seq::<char>::empty()) =~= Seq::<u8>::empty());
            lemma_bytes_concat(head, suffix@);
            assert(text@ =~= head + suffix@);
        }
        lemma_ends(text@);
    }
    if width > length {
        return None;
    }
    let at: usize = length - width;
    match get(text, at, length) {
        Some(tail) => {
            if same(tail, suffix) {
                proof {
                    lemma_cut(text@, at as int, length as int);
                    let head = slice(text@, 0, at as int);
                    assert(slice(text@, length as int, length as int) =~= Seq::<char>::empty());
                    assert(text@ =~= head + suffix@);
                    assert(text@.skip(text@.len() - suffix@.len()) =~= suffix@);
                    assert(text@.take(text@.len() - suffix@.len()) =~= head);
                }
                return get(text, 0, at);
            }
            None
        },
        None => None,
    }
}

/// Whether a text ends with another.
pub fn ends_with(text: &str, suffix: &str) -> (found: bool)
    ensures
        found == ends(text@, suffix@),
{
    strip_suffix(text, suffix).is_some()
}

/// Whether a pattern stands at a byte offset of a text.
pub open spec fn matches_at(t: Seq<char>, p: Seq<char>, at: int) -> bool {
    sliceable(t, at, at + bytes(p).len()) && slice(t, at, at + bytes(p).len()) == p
}

/// The first offset, from one on, at which a pattern stands.
pub open spec fn find_from(t: Seq<char>, p: Seq<char>, from: int) -> Option<int>
    decreases bytes(t).len() + 1 - from,
{
    if from > bytes(t).len() {
        None
    } else if matches_at(t, p, from) {
        Some(from)
    } else {
        find_from(t, p, from + 1)
    }
}

/// The first offset, from one on, at which a pattern stands.
pub fn find(text: &str, pattern: &str, from: usize) -> (found: Option<usize>)
    ensures
        match (found, find_from(text@, pattern@, from as int)) {
            (Some(at), Some(expected)) => at == expected && from <= at && at + bytes(
                pattern@,
            ).len() <= bytes(text@).len() && matches_at(text@, pattern@, at as int),
            (None, None) => true,
            _ => false,
        },
{
    let width: usize = pattern.as_bytes().len();
    let length: usize = text.as_bytes().len();
    let mut at: usize = from;
    while at <= length
        invariant
            from <= at,
            at <= length + 1 || at == from,
            width == bytes(pattern@).len(),
            length == bytes(text@).len(),
            find_from(text@, pattern@, from as int) == find_from(text@, pattern@, at as int),
        decreases length + 1 - at,
    {
        if width > length - at {
            proof {
                lemma_no_room(text@, pattern@, at as int);
            }
            return None;
        }
        match get(text, at, at + width) {
            Some(part) => {
                if same(part, pattern) {
                    return Some(at);
                }
            },
            None => {},
        }
        if at == length {
            assert(find_from(text@, pattern@, at as int + 1) is None);
            return None;
        }
        at += 1;
    }
    None
}

/// No pattern stands where less text is left than it needs.
proof fn lemma_no_room(t: Seq<char>, p: Seq<char>, at: int)
    requires
        bytes(p).len() > bytes(t).len() - at,
    ensures
        find_from(t, p, at) is None,
    decreases bytes(t).len() + 1 - at,
{
    if at <= bytes(t).len() {
        lemma_no_room(t, p, at + 1);
    }
}

/// Whether a pattern stands anywhere in a text.
pub open spec fn holds(t: Seq<char>, p: Seq<char>) -> bool {
    find_from(t, p, 0) is Some
}

/// Whether a pattern stands anywhere in a text.
pub fn contains(text: &str, pattern: &str) -> (found: bool)
    ensures
        found == holds(text@, pattern@),
{
    find(text, pattern, 0).is_some()
}

} // verus!
