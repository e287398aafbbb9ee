//! Graph positions to edit-plan positions.
//!
//! These are two different coordinate systems and nothing warns you when they are confused: the
//! graph records a 1-based byte column, the edit plan carries a 0-based UTF-16 offset. They agree
//! on every ASCII line, which is exactly why a mix-up survives testing and then corrupts the
//! first file with an accented name or an emoji in a comment.
//!
//! Every conversion here refuses rather than clamps. A column past the end of its line means the
//! graph no longer describes the file, and silently landing an edit at the nearest valid offset
//! would write bytes nobody planned.

use crate::text;
use crate::words;
use vstd::prelude::*;
use vstd::string::*;
use vstd::utf8::*;

verus! {

/// A position that could not be converted, with the reason an agent can act on.
#[derive(Debug, PartialEq, Eq, Structural)]
pub enum PositionError {
    /// The file has no such line.
    LineOutOfRange { line: u32, lines: usize },
    /// The line is shorter than the column claims.
    ColumnOutOfRange { line: u32, column: u32, bytes: usize },
    /// The byte column falls inside a multi-byte character.
    NotACharBoundary { line: u32, column: u32 },
}

/// What an error says.
pub open spec fn message_of(error: PositionError) -> Seq<char> {
    match error {
        PositionError::LineOutOfRange { line, lines } => "the graph points at line "@
            + words::decimal(line as nat) + " but the file has "@ + words::decimal(lines as nat)
            + "; rebuild the graph"@,
        PositionError::ColumnOutOfRange { line, column, bytes } =>
            "the graph points at byte column "@ + words::decimal(column as nat) + " on line "@
            + words::decimal(line as nat) + ", which is "@ + words::decimal(bytes as nat)
            + " bytes long; rebuild the graph"@,
        PositionError::NotACharBoundary { line, column } => "byte column "@ + words::decimal(
            column as nat,
        ) + " on line "@ + words::decimal(line as nat)
            + " falls inside a character; the graph and the file disagree"@,
    }
}

impl PositionError {
    /// What the error says.
    pub fn message(&self) -> (out: String)
        ensures
            out@ == message_of(*self),
    {
        match self {
            PositionError::LineOutOfRange { line, lines } => "the graph points at line ".to_owned().concat(
            words::number(*line as u64).as_str()).concat(" but the file has ").concat(
                words::number(*lines as u64).as_str(),
            ).concat("; rebuild the graph"),
            PositionError::ColumnOutOfRange { line, column, bytes } =>
                "the graph points at byte column ".to_owned().concat(
            words::number(*column as u64).as_str()).concat(" on line ").concat(
                words::number(*line as u64).as_str(),
            ).concat(", which is ").concat(words::number(*bytes as u64).as_str()).concat(
                " bytes long; rebuild the graph",
            ),
            PositionError::NotACharBoundary { line, column } => "byte column ".to_owned().concat(
            words::number(*column as u64).as_str()).concat(" on line ").concat(
                words::number(*line as u64).as_str(),
            ).concat(" falls inside a character; the graph and the file disagree"),
        }
    }
}

/// The lines of a text, without their newlines.
pub open spec fn lines(t: Seq<char>) -> Seq<Seq<char>> {
    text::split(t, '\n')
}

/// A line without the carriage return that belongs to its separator.
pub open spec fn without_return(line: Seq<char>) -> Seq<char> {
    if line.len() > 0 && line.last() == '\r' {
        line.drop_last()
    } else {
        line
    }
}

/// How many UTF-16 units a character takes.
pub open spec fn units(c: char) -> nat {
    if c as u32 >= 0x10000 {
        2
    } else {
        1
    }
}

/// How many UTF-16 units a text takes.
pub open spec fn utf16_length(t: Seq<char>) -> nat
    decreases t.len(),
{
    if t.len() == 0 {
        0
    } else {
        utf16_length(t.drop_last()) + units(t.last())
    }
}

/// A 1-based position as an index. No text has a position of zero.
pub open spec fn index(position: u32) -> int {
    position - 1
}

/// The UTF-16 offset of a byte column, or how the position and the text disagree.
pub open spec fn converted(t: Seq<char>, line: u32, column: u32) -> Result<u32, PositionError> {
    if line == 0 || line > lines(t).len() {
        Err(PositionError::LineOutOfRange { line, lines: lines(t).len() as usize })
    } else {
        let content = without_return(lines(t)[index(line)]);
        if column == 0 || index(column) > text::bytes(content).len() {
            Err(
                PositionError::ColumnOutOfRange {
                    line,
                    column,
                    bytes: text::bytes(content).len() as usize,
                },
            )
        } else if !is_char_boundary(text::bytes(content), index(column)) {
            Err(PositionError::NotACharBoundary { line, column })
        } else {
            Ok(utf16_length(text::slice(content, 0, index(column))) as u32)
        }
    }
}

/// The UTF-16 length of a line, or how the position and the text disagree.
pub open spec fn line_length(t: Seq<char>, line: u32) -> Result<u32, PositionError> {
    if line == 0 || line > lines(t).len() {
        Err(PositionError::LineOutOfRange { line, lines: lines(t).len() as usize })
    } else {
        Ok(utf16_length(without_return(lines(t)[index(line)])) as u32)
    }
}

/// Where a line starts, in bytes.
pub open spec fn line_start(all: Seq<Seq<char>>, at: int) -> nat
    decreases at,
{
    if at <= 0 {
        0
    } else {
        line_start(all, at - 1) + text::bytes(all[at - 1]).len() + 1
    }
}

/// The byte offset of a 1-based line and byte column, where the text has that position.
pub open spec fn byte_position(t: Seq<char>, line: u32, column: u32) -> Option<int> {
    if line == 0 || line > lines(t).len() {
        None
    } else {
        let content = without_return(lines(t)[line - 1]);
        if 0 <= index(column) <= text::bytes(content).len() && is_char_boundary(
            text::bytes(content),
            index(column),
        ) {
            Some(line_start(lines(t), line - 1) + index(column))
        } else {
            None
        }
    }
}

/// The text between two positions, where both exist and stand in order.
pub open spec fn between(t: Seq<char>, start: (u32, u32), end: (u32, u32)) -> Option<Seq<char>> {
    match (byte_position(t, start.0, start.1), byte_position(t, end.0, end.1)) {
        (Some(from), Some(to)) => if from <= to {
            Some(text::slice(t, from, to))
        } else {
            None
        },
        _ => None,
    }
}

/// A text takes no more UTF-16 units than bytes.
pub proof fn lemma_utf16_length(t: Seq<char>)
    ensures
        utf16_length(t) <= text::bytes(t).len(),
    decreases t.len(),
{
    if t.len() > 0 {
        let rest = t.drop_last();
        let last = seq![t.last()];
        lemma_utf16_length(rest);
        assert(t =~= rest + last);
        text::lemma_bytes_concat(rest, last);
        encode_utf8_first_scalar(last);
        char_is_scalar(t.last());
        assert(last.drop_first() =~= Seq::<char>::empty());
        assert(text::bytes(last) =~= encode_scalar(t.last() as u32) + text::bytes(
            Seq::<char>::empty(),
        ));
    }
}

/// A line is laid in its text after the lines before it and their newlines.
pub proof fn lemma_line(t: Seq<char>, at: int) -> (sides: (Seq<char>, Seq<char>))
    requires
        0 <= at < lines(t).len(),
    ensures
        t == sides.0 + lines(t)[at] + sides.1,
        text::bytes(sides.0).len() == line_start(lines(t), at),
    decreases at,
{
    let all = lines(t);
    let first = text::index_of(t, '\n') as int;
    assert(text::bytes(Seq::<char>::empty()) =~= Seq::<u8>::empty());
    if first >= t.len() {
        assert(all =~= seq![t]);
        assert(t =~= Seq::<char>::empty() + t + Seq::<char>::empty());
        (Seq::empty(), Seq::empty())
    } else {
        lemma_index_of_is(t, '\n');
        let head = t.take(first);
        let tail = t.skip(first + 1);
        assert(all =~= seq![head] + lines(tail));
        if at == 0 {
            assert(t =~= Seq::<char>::empty() + head + t.skip(first));
            (Seq::empty(), t.skip(first))
        } else {
            let inner = lemma_line(tail, at - 1);
            let newline = seq!['\n'];
            assert(t =~= head + newline + tail);
            let before = head + newline + inner.0;
            text::lemma_bytes_concat(head, newline);
            text::lemma_bytes_concat(head + newline, inner.0);
            is_ascii_chars_encode_utf8(newline);
            assert(t =~= before + lines(tail)[at - 1] + inner.1);
            lemma_line_start(head, lines(tail), at);
            (before, inner.1)
        }
    }
}

/// Putting a line first moves every later line by its bytes and its newline.
proof fn lemma_line_start(head: Seq<char>, rest: Seq<Seq<char>>, at: int)
    requires
        1 <= at <= rest.len(),
    ensures
        line_start(seq![head] + rest, at) == text::bytes(head).len() + 1 + line_start(rest, at - 1),
    decreases at,
{
    let all = seq![head] + rest;
    if at > 1 {
        lemma_line_start(head, rest, at - 1);
        assert(all[at - 1] == rest[at - 2]);
    } else {
        assert(all[0] == head);
        assert(line_start(all, 0) == 0);
        assert(line_start(rest, 0) == 0);
    }
}

/// The first occurrence of a character is one.
pub proof fn lemma_index_of_is(t: Seq<char>, c: char)
    ensures
        text::index_of(t, c) < t.len() ==> t[text::index_of(t, c) as int] == c,
        text::index_of(t, c) <= t.len(),
    decreases t.len(),
{
    if t.len() > 0 && t[0] != c {
        lemma_index_of_is(t.drop_first(), c);
    }
}

/// A line begins no earlier than after the newlines before it.
proof fn lemma_line_start_least(all: Seq<Seq<char>>, at: int)
    requires
        0 <= at <= all.len(),
    ensures
        line_start(all, at) >= at,
    decreases at,
{
    if at > 0 {
        lemma_line_start_least(all, at - 1);
    }
}

/// A text has at most one line more than bytes.
pub proof fn lemma_line_count(t: Seq<char>)
    ensures
        lines(t).len() <= text::bytes(t).len() + 1,
{
    let last = lines(t).len() - 1;
    if last >= 0 {
        lemma_line_bytes(t, last);
        lemma_line_start_least(lines(t), last);
    }
}

/// A line takes no more bytes than its text.
pub proof fn lemma_line_bytes(t: Seq<char>, at: int)
    requires
        0 <= at < lines(t).len(),
    ensures
        line_start(lines(t), at) + text::bytes(lines(t)[at]).len() <= text::bytes(t).len(),
        text::bytes(without_return(lines(t)[at])).len() <= text::bytes(lines(t)[at]).len(),
{
    let sides = lemma_line(t, at);
    let line = lines(t)[at];
    text::lemma_bytes_concat(sides.0, line);
    text::lemma_bytes_concat(sides.0 + line, sides.1);
    if line.len() > 0 && line.last() == '\r' {
        assert(line =~= line.drop_last() + seq!['\r']);
        text::lemma_bytes_concat(line.drop_last(), seq!['\r']);
    }
}

/// A position that converts is a boundary of its text.
pub proof fn lemma_byte_position(t: Seq<char>, line: u32, column: u32)
    requires
        byte_position(t, line, column) is Some,
    ensures
        0 <= byte_position(t, line, column)->0 <= text::bytes(t).len(),
        is_char_boundary(text::bytes(t), byte_position(t, line, column)->0),
{
    let at = line - 1;
    let sides = lemma_line(t, at);
    let whole = lines(t)[at];
    let content = without_return(whole);
    let offset = index(column);
    text::lemma_ends(content);
    text::lemma_cut(content, offset, text::bytes(content).len() as int);
    let left = text::slice(content, 0, offset);
    let right = text::slice(content, offset, text::bytes(content).len() as int);
    assert(text::slice(content, text::bytes(content).len() as int, text::bytes(content).len() as int)
        =~= Seq::<char>::empty());
    let rest = whole.skip(content.len() as int);
    assert(whole =~= content + rest);
    assert(t =~= (sides.0 + left) + (right + rest + sides.1));
    text::lemma_concat_boundary(sides.0 + left, right + rest + sides.1);
    text::lemma_bytes_concat(sides.0, left);
    text::lemma_bytes_concat(sides.0 + left, right + rest + sides.1);
}

/// A prefix takes no more UTF-16 units than the whole.
pub proof fn lemma_utf16_prefix(t: Seq<char>, count: int)
    requires
        0 <= count <= t.len(),
    ensures
        utf16_length(t.take(count)) <= utf16_length(t),
    decreases t.len(),
{
    if count < t.len() {
        lemma_utf16_prefix(t.drop_last(), count);
        assert(t.drop_last().take(count) =~= t.take(count));
    } else {
        assert(t.take(count) =~= t);
    }
}

/// How many UTF-16 units a text takes.
fn utf16_count(part: &str) -> (count: u32)
    requires
        utf16_length(part@) <= u32::MAX,
    ensures
        count == utf16_length(part@),
{
    let characters = words::chars(part);
    let mut count: u32 = 0;
    let mut i: usize = 0;
    while i < characters.len()
        invariant
            characters@ == part@,
            i <= characters.len(),
            count == utf16_length(part@.take(i as int)),
            utf16_length(part@) <= u32::MAX,
        decreases characters.len() - i,
    {
        proof {
            let next = part@.take(i + 1);
            assert(next.drop_last() =~= part@.take(i as int));
            lemma_utf16_prefix(part@, i + 1);
        }
        if characters[i] as u32 >= 0x10000 {
            count += 2;
        } else {
            count += 1;
        }
        i += 1;
    }
    assert(part@.take(i as int) =~= part@);
    count
}

/// A line without the carriage return that belongs to its separator.
pub fn strip_return<'a>(line: &'a str) -> (content: &'a str)
    ensures
        content@ == without_return(line@),
{
    proof {
        reveal_strlit("\r");
        if line@.len() > 0 {
            assert(line@.skip(line@.len() - 1) =~= seq![line@.last()]);
            assert(line@.take(line@.len() - 1) =~= line@.drop_last());
        }
    }
    match text::strip_suffix(line, "\r") {
        Some(content) => {
            assert(line@.skip(line@.len() - 1)[0] == '\r');
            content
        },
        None => {
            assert(line@.len() > 0 && line@.last() == '\r' ==> line@.skip(line@.len() - 1) =~= "\r"@);
            line
        },
    }
}

/// The 0-based UTF-16 offset of a 1-based byte column on a 1-based line.
pub fn utf16_offset(text: &str, line: u32, byte_column: u32) -> (offset: Result<u32, PositionError>)
    ensures
        offset == converted(text@, line, byte_column),
        offset matches Ok(units) ==> units <= text::bytes(text@).len(),
{
    let all = text::split_all(text, 10);
    if line == 0 || line as usize > all.len() {
        return Err(PositionError::LineOutOfRange { line, lines: all.len() });
    }
    let at: usize = line as usize - 1;
    let content = strip_return(all[at]);
    proof {
        lemma_line_bytes(text@, at as int);
        assert(text::views(all@)[at as int] == lines(text@)[at as int]);
    }
    let length: usize = content.as_bytes().len();
    if byte_column == 0 || byte_column as usize - 1 > length {
        return Err(
            PositionError::ColumnOutOfRange { line, column: byte_column, bytes: length },
        );
    }
    let column: usize = byte_column as usize - 1;
    if !content.is_char_boundary(column) {
        return Err(PositionError::NotACharBoundary { line, column: byte_column });
    }
    proof {
        text::lemma_ends(content@);
        text::lemma_cut(content@, 0, column as int);
    }
    match text::get(content, 0, column) {
        Some(before) => {
            proof {
                lemma_utf16_length(before@);
            }
            Ok(utf16_count(before))
        },
        None => {
            assert(false);
            Err(PositionError::NotACharBoundary { line, column: byte_column })
        },
    }
}

/// The UTF-16 length of a whole line, for an edit that ends where the line does.
///
/// A line that is longer than 32 bits can count is left out.
pub fn utf16_line_length(text: &str, line: u32) -> (length: Result<u32, PositionError>)
    requires
        1 <= line <= lines(text@).len() ==> utf16_length(
            without_return(lines(text@)[index(line)]),
        ) <= u32::MAX,
    ensures
        length == line_length(text@, line),
{
    let all = text::split_all(text, 10);
    if line == 0 || line as usize > all.len() {
        return Err(PositionError::LineOutOfRange { line, lines: all.len() });
    }
    let at: usize = line as usize - 1;
    proof {
        lemma_line_bytes(text@, at as int);
        assert(text::views(all@)[at as int] == lines(text@)[at as int]);
    }
    Ok(utf16_count(strip_return(all[at])))
}

/// Absolute byte offset of a 1-based line and 1-based byte column.
fn byte_offset(text: &str, line: u32, byte_column: u32) -> (offset: Option<usize>)
    ensures
        match (offset, byte_position(text@, line, byte_column)) {
            (Some(found), Some(expected)) => found == expected,
            (None, None) => true,
            _ => false,
        },
{
    let length: usize = text.as_bytes().len();
    let all = text::split_all(text, 10);
    if line == 0 || (line as usize) > all.len() {
        return None;
    }
    let target: usize = line as usize - 1;
    let mut consumed: usize = 0;
    let mut at: usize = 0;
    while at < target
        invariant
            at <= target < all@.len(),
            length == text::bytes(text@).len(),
            text::views(all@) == lines(text@),
            consumed == line_start(lines(text@), at as int),
        decreases target - at,
    {
        proof {
            lemma_line_bytes(text@, at as int);
            lemma_line_bytes(text@, at as int + 1);
            assert(text::views(all@)[at as int] == all@[at as int]@);
        }
        consumed += all[at].as_bytes().len() + 1;
        at += 1;
    }
    let content = strip_return(all[target]);
    proof {
        lemma_line_bytes(text@, target as int);
        assert(text::views(all@)[target as int] == all@[target as int]@);
    }
    if byte_column == 0 {
        return None;
    }
    let column: usize = byte_column as usize - 1;
    if column > content.as_bytes().len() || !content.is_char_boundary(column) {
        return None;
    }
    Some(consumed + column)
}

/// The exact text between two graph positions, or `None` when either does not convert.
pub fn slice_between(text: &str, start: (u32, u32), end: (u32, u32)) -> (part: Option<String>)
    ensures
        match (part, between(text@, start, end)) {
            (Some(found), Some(expected)) => found@ == expected,
            (None, None) => true,
            _ => false,
        },
{
    let from: usize = match byte_offset(text, start.0, start.1) {
        Some(from) => from,
        None => {
            return None;
        },
    };
    let to: usize = match byte_offset(text, end.0, end.1) {
        Some(to) => to,
        None => {
            return None;
        },
    };
    if from > to {
        return None;
    }
    proof {
        lemma_byte_position(text@, start.0, start.1);
        lemma_byte_position(text@, end.0, end.1);
    }
    match text::get(text, from, to) {
        Some(part) => Some(part.to_owned()),
        None => None,
    }
}

/// How many newlines a byte sequence holds.
pub open spec fn newlines(b: Seq<u8>) -> nat
    decreases b.len(),
{
    if b.len() == 0 {
        0
    } else {
        newlines(b.drop_last()) + if b.last() == 10 {
            1nat
        } else {
            0
        }
    }
}

/// Where the last line of a byte sequence begins.
pub open spec fn line_begin(b: Seq<u8>) -> nat
    decreases b.len(),
{
    if b.len() == 0 {
        0
    } else if b.last() == 10 {
        b.len()
    } else {
        line_begin(b.drop_last())
    }
}

/// The 1-based line and byte column of a byte offset that is a boundary of its text.
pub open spec fn position(t: Seq<char>, offset: int) -> Option<(u32, u32)> {
    if 0 <= offset <= text::bytes(t).len() && is_char_boundary(text::bytes(t), offset) {
        let head = text::bytes(t).subrange(0, offset);
        Some(((newlines(head) + 1) as u32, (offset - line_begin(head) + 1) as u32))
    } else {
        None
    }
}

/// Newlines and line beginnings stay within the bytes they are counted in.
pub proof fn lemma_newlines(b: Seq<u8>)
    ensures
        newlines(b) <= b.len(),
        line_begin(b) <= b.len(),
    decreases b.len(),
{
    if b.len() > 0 {
        lemma_newlines(b.drop_last());
    }
}

/// The 1-based line and 1-based byte column of an absolute byte offset.
///
/// A plan speaks in line and column; a declaration is located in byte offsets.
pub fn position_of(text: &str, offset: usize) -> (found: Option<(u32, u32)>)
    requires
        text::bytes(text@).len() < u32::MAX,
    ensures
        found == position(text@, offset as int),
{
    let encoded = text.as_bytes();
    if offset > encoded.len() || !text.is_char_boundary(offset) {
        return None;
    }
    let mut line: u32 = 1;
    let mut begin: usize = 0;
    let mut i: usize = 0;
    while i < offset
        invariant
            i <= offset <= encoded@.len(),
            encoded@ == text::bytes(text@),
            encoded@.len() < u32::MAX,
            line == newlines(encoded@.subrange(0, i as int)) + 1,
            begin == line_begin(encoded@.subrange(0, i as int)),
        decreases offset - i,
    {
        proof {
            assert(encoded@.subrange(0, i + 1).drop_last() =~= encoded@.subrange(0, i as int));
            lemma_newlines(encoded@.subrange(0, i as int));
        }
        if encoded[i] == 10 {
            line += 1;
            begin = i + 1;
        }
        i += 1;
    }
    proof {
        lemma_newlines(encoded@.subrange(0, offset as int));
    }
    Some((line, (offset - begin + 1) as u32))
}

/// An ASCII text takes one byte and one UTF-16 unit for each character.
proof fn lemma_ascii(t: Seq<char>)
    requires
        is_ascii_chars(t),
    ensures
        text::bytes(t).len() == t.len(),
        utf16_length(t) == t.len(),
    decreases t.len(),
{
    is_ascii_chars_encode_utf8(t);
    if t.len() > 0 {
        let rest = t.drop_last();
        lemma_ascii(rest);
    }
}

/// The two coordinate systems agree on an ASCII line: the offset is the column less one.
pub proof fn law_ascii_columns_agree(t: Seq<char>, line: u32, column: u32)
    requires
        1 <= line <= lines(t).len(),
        is_ascii_chars(without_return(lines(t)[index(line)])),
        1 <= column <= without_return(lines(t)[index(line)]).len() + 1,
    ensures
        converted(t, line, column) == Ok::<u32, PositionError>(index(column) as u32),
{
    let content = without_return(lines(t)[index(line)]);
    let at = index(column);
    lemma_ascii(content);
    text::lemma_ends(content);
    let head = content.take(at);
    let tail = content.skip(at);
    assert(content =~= head + tail);
    assert(is_ascii_chars(head));
    lemma_ascii(head);
    text::lemma_concat_boundary(head, tail);
    text::lemma_bytes_concat(head, tail);
    assert(Seq::<char>::empty() + head + tail =~= content);
    assert(text::bytes(Seq::<char>::empty()) =~= Seq::<u8>::empty());
    text::lemma_parts(Seq::empty(), head, tail);
    assert(text::slice(content, 0, at) == head);
}

/// A position that converts is one that can be sliced at, and the other way round.
pub proof fn law_both_conversions_take_the_same_positions(t: Seq<char>, line: u32, column: u32)
    ensures
        converted(t, line, column) is Ok <==> byte_position(t, line, column) is Some,
{
}

/// Offsets on a line keep the order of its columns.
pub proof fn law_offsets_keep_order(t: Seq<char>, line: u32, first: u32, second: u32)
    requires
        converted(t, line, first) is Ok,
        converted(t, line, second) is Ok,
        first <= second,
    ensures
        converted(t, line, first)->Ok_0 <= converted(t, line, second)->Ok_0,
{
    let content = without_return(lines(t)[index(line)]);
    let a = index(first);
    let b = index(second);
    text::lemma_ends(content);
    let whole = text::slice(content, 0, b);
    text::lemma_cut(content, a, b);
    text::lemma_cut(content, 0, b);
    text::lemma_cut(content, 0, a);
    let head = text::slice(content, 0, a);
    let middle = text::slice(content, a, b);
    let tail = text::slice(content, b, text::bytes(content).len() as int);
    assert(content =~= Seq::<char>::empty() + (head + middle) + tail);
    assert(text::bytes(Seq::<char>::empty()) =~= Seq::<u8>::empty());
    text::lemma_parts(Seq::empty(), head + middle, tail);
    text::lemma_bytes_concat(head, middle);
    assert(whole == head + middle);
    assert(whole.take(head.len() as int) =~= head);
    lemma_utf16_prefix(whole, head.len() as int);
    lemma_utf16_length(whole);
    lemma_utf16_length(head);
}

/// Newlines add up over concatenation.
proof fn lemma_newlines_concat(a: Seq<u8>, b: Seq<u8>)
    ensures
        newlines(a + b) == newlines(a) + newlines(b),
    decreases b.len(),
{
    if b.len() == 0 {
        assert(a + b =~= a);
    } else {
        lemma_newlines_concat(a, b.drop_last());
        assert((a + b).drop_last() =~= a + b.drop_last());
    }
}

/// Where there is no newline there is one line, from the start.
proof fn lemma_one_line(b: Seq<u8>)
    requires
        !b.contains(10),
    ensures
        newlines(b) == 0,
        line_begin(b) == 0,
    decreases b.len(),
{
    if b.len() > 0 {
        let rest = b.drop_last();
        assert(b[b.len() - 1] == b.last());
        assert(!rest.contains(10)) by {
            if rest.contains(10) {
                let i = choose|i: int| 0 <= i < rest.len() && rest[i] == 10;
                assert(b[i] == 10);
            }
        }
        lemma_one_line(rest);
    }
}

/// After a newline the last line begins where it begins in the rest.
proof fn lemma_line_begin_after(a: Seq<u8>, b: Seq<u8>)
    requires
        a.len() > 0,
        a.last() == 10,
    ensures
        line_begin(a + b) == a.len() + line_begin(b),
    decreases b.len(),
{
    if b.len() == 0 {
        assert(a + b =~= a);
    } else {
        assert((a + b).drop_last() =~= a + b.drop_last());
        lemma_line_begin_after(a, b.drop_last());
    }
}

/// The line of an offset is one of the text's, begins where the line begins, and reaches the offset.
proof fn lemma_line_of_offset(t: Seq<char>, offset: int)
    requires
        0 <= offset <= text::bytes(t).len(),
    ensures
        ({
            let head = text::bytes(t).subrange(0, offset);
            newlines(head) < lines(t).len() && line_start(lines(t), newlines(head) as int)
                == line_begin(head) && offset - line_begin(head) <= text::bytes(
                lines(t)[newlines(head) as int],
            ).len()
        }),
    decreases t.len(),
{
    let at = text::index_of(t, '\n') as int;
    let b = text::bytes(t);
    let head = b.subrange(0, offset);
    lemma_index_of_is(t, '\n');
    let first = t.take(at);
    lemma_before_newline(t);
    text::lemma_ascii_absent(first, 10);
    if at >= t.len() {
        assert(first =~= t);
        assert(!head.contains(10)) by {
            if head.contains(10) {
                let i = choose|i: int| 0 <= i < head.len() && head[i] == 10;
                assert(b[i] == 10);
            }
        }
        lemma_one_line(head);
    } else {
        let rest = t.skip(at + 1);
        let newline = seq!['\n'];
        assert(t =~= first + newline + rest);
        text::lemma_bytes_concat(first, newline);
        text::lemma_bytes_concat(first + newline, rest);
        is_ascii_chars_encode_utf8(newline);
        assert(text::bytes(newline) =~= seq![10u8]);
        let lead = text::bytes(first) + seq![10u8];
        assert(b =~= lead + text::bytes(rest));
        if offset < lead.len() {
            assert(head =~= text::bytes(first).subrange(0, offset));
            assert(!head.contains(10)) by {
                if head.contains(10) {
                    let i = choose|i: int| 0 <= i < head.len() && head[i] == 10;
                    assert(text::bytes(first)[i] == 10);
                }
            }
            lemma_one_line(head);
        } else {
            let inner = text::bytes(rest).subrange(0, offset - lead.len());
            assert(head =~= lead + inner);
            lemma_newlines_concat(lead, inner);
            lemma_newlines_concat(text::bytes(first), seq![10u8]);
            lemma_one_line(text::bytes(first));
            assert(seq![10u8].drop_last() =~= Seq::<u8>::empty());
            assert(newlines(Seq::<u8>::empty()) == 0);
            assert(seq![10u8].len() == 1 && seq![10u8].last() == 10);
            assert(newlines(seq![10u8]) == 1);
            lemma_line_begin_after(lead, inner);
            lemma_line_of_offset(rest, offset - lead.len());
            assert(lines(t) =~= seq![first] + lines(rest));
            lemma_line_start(first, lines(rest), newlines(inner) as int + 1);
        }
    }
}

/// Nothing before the first newline is one.
proof fn lemma_before_newline(t: Seq<char>)
    ensures
        !t.take(text::index_of(t, '\n') as int).contains('\n'),
    decreases t.len(),
{
    let at = text::index_of(t, '\n') as int;
    lemma_index_of_is(t, '\n');
    if t.len() > 0 && t[0] != '\n' {
        let rest = t.drop_first();
        lemma_before_newline(rest);
        if t.take(at).contains('\n') {
            let i = choose|i: int| 0 <= i < at && t.take(at)[i] == '\n';
            assert(i > 0);
            assert(rest.take(at - 1)[i - 1] == '\n');
        }
    }
}

/// A position leads back to the byte offset it was made from, wherever it can be converted at all.
pub proof fn law_a_position_leads_back(t: Seq<char>, offset: int)
    requires
        text::bytes(t).len() < u32::MAX,
        position(t, offset) matches Some((line, column)) && converted(t, line, column) is Ok,
    ensures
        ({
            let (line, column) = position(t, offset)->0;
            byte_position(t, line, column) == Some(offset)
        }),
{
    let head = text::bytes(t).subrange(0, offset);
    lemma_newlines(head);
    lemma_line_of_offset(t, offset);
}

/// Every later line starts past the end of an earlier one.
proof fn lemma_lines_apart(all: Seq<Seq<char>>, first: int, second: int)
    requires
        0 <= first < second <= all.len(),
    ensures
        line_start(all, first) + text::bytes(all[first]).len() < line_start(all, second),
    decreases second,
{
    if first < second - 1 {
        lemma_lines_apart(all, first, second - 1);
    }
}

/// A byte offset has one position: a line and a column that lead to it are the ones it is reported
/// under.
pub proof fn law_an_offset_has_one_position(t: Seq<char>, line: u32, column: u32)
    requires
        text::bytes(t).len() < u32::MAX,
        byte_position(t, line, column) is Some,
    ensures
        position(t, byte_position(t, line, column)->0) == Some((line, column)),
{
    let offset = byte_position(t, line, column)->0;
    lemma_byte_position(t, line, column);
    let head = text::bytes(t).subrange(0, offset);
    let all = lines(t);
    let at = newlines(head) as int;
    lemma_newlines(head);
    lemma_line_of_offset(t, offset);
    lemma_line_bytes(t, line - 1);
    if line - 1 < at {
        lemma_lines_apart(all, line - 1, at);
    } else if at < line - 1 {
        lemma_lines_apart(all, at, line - 1);
    }
}

} // verus!
