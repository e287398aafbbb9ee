//! The full source range of a declaration.
//!
//! Neither source of truth carries it. The graph records only the identifier, and the parser's
//! declaration span stops at the name, covering `pub fn one`. An edit that means "replace this
//! function" needs where the body ends, and getting that wrong writes over whatever follows.
//!
//! So the end is found by matching the declaration's opening brace, over the tokenizer rather
//! than the raw text: a `}` inside a string literal or a comment is not a closing brace, and
//! counting characters would treat it as one.

use crate::coordinates;
use crate::parse;
use crate::parse::{Declaration, DeclarationView, Token, TokenKind};
use crate::text;
use vstd::prelude::*;
use vstd::string::*;

verus! {

/// A declaration located in one file, in byte offsets.
#[derive(Debug, Clone, Copy, PartialEq, Eq, Structural)]
pub struct DeclarationRange {
    /// First byte of the declaration, with modifiers like `pub` or `export`.
    pub start: usize,
    /// One past the last byte: the closing brace, or the terminating `;`.
    pub end: usize,
    /// Whether the end was located in the source, or is only where the signature stopped.
    ///
    /// A caller must not offer "insert after this declaration" on an unproven end: it would place
    /// the text in the middle of something.
    pub end_proven: bool,
}

/// Whether a token can carry a real brace. Strings and comments cannot.
pub open spec fn carries_braces(token: Token) -> bool {
    !(token.kind is String || token.kind is LineComment || token.kind is BlockComment
        || token.kind is Regex || token.kind is Unterminated)
}

/// How far the reading of a declaration has come: it has ended, or so many braces are open.
pub enum Reading {
    Ended { at: int },
    Open { depth: int, opened: bool },
}

/// Reads the bytes of one token, from one on.
pub open spec fn read_bytes(b: Seq<u8>, at: int, depth: int, opened: bool) -> Reading
    decreases b.len() - at,
{
    if at < 0 || at >= b.len() {
        Reading::Open { depth, opened }
    } else if b[at] == 123 {
        read_bytes(b, at + 1, depth + 1, true)
    } else if b[at] == 125 && depth > 0 {
        if depth - 1 == 0 {
            Reading::Ended { at: at + 1 }
        } else {
            read_bytes(b, at + 1, depth - 1, opened)
        }
    } else if b[at] == 59 && !opened {
        Reading::Ended { at: at + 1 }
    } else {
        read_bytes(b, at + 1, depth, opened)
    }
}

/// Where the declaration being read ends, from a token on.
pub open spec fn end_from(
    source: Seq<char>,
    tokens: Seq<Token>,
    at: int,
    depth: int,
    opened: bool,
) -> Option<int>
    decreases tokens.len() - at,
{
    if at < 0 || at >= tokens.len() {
        None
    } else {
        let token = tokens[at];
        if !carries_braces(token) {
            end_from(source, tokens, at + 1, depth, opened)
        } else if !text::sliceable(source, token.start as int, token.end as int) {
            None
        } else {
            let b = text::bytes(source).subrange(token.start as int, token.end as int);
            match read_bytes(b, 0, depth, opened) {
                Reading::Ended { at: offset } => Some(token.start + offset),
                Reading::Open { depth, opened } => end_from(
                    source,
                    tokens,
                    at + 1,
                    depth,
                    opened,
                ),
            }
        }
    }
}

/// The first token, from one on, that reaches past an offset.
pub open spec fn past_from(tokens: Seq<Token>, start: int, at: int) -> int
    decreases tokens.len() - at,
{
    if at < 0 || at >= tokens.len() || tokens[at].end > start {
        at
    } else {
        past_from(tokens, start, at + 1)
    }
}

/// The offset one past whatever ends the declaration starting at an offset.
pub open spec fn end_of(source: Seq<char>, tokens: Seq<Token>, start: int) -> Option<int> {
    end_from(source, tokens, past_from(tokens, start, 0), 0, false)
}

/// The range of a declaration whose signature the parser reported.
pub open spec fn range_of(
    source: Seq<char>,
    tokens: Seq<Token>,
    declaration: DeclarationView,
) -> DeclarationRange {
    match end_of(source, tokens, declaration.start as int) {
        Some(end) => DeclarationRange {
            start: declaration.start,
            end: end as usize,
            end_proven: true,
        },
        None => DeclarationRange {
            start: declaration.start,
            end: declaration.end,
            end_proven: false,
        },
    }
}

/// The first declaration, from one on, with a name, and with a line where one is asked for.
pub open spec fn named_from(
    declarations: Seq<DeclarationView>,
    name: Seq<char>,
    line: Option<u32>,
    from: int,
) -> Option<int>
    decreases declarations.len() - from,
{
    if from < 0 || from >= declarations.len() {
        None
    } else if declarations[from].name == name && (line matches Some(l) ==> declarations[from].line
        == l) {
        Some(from)
    } else {
        named_from(declarations, name, line, from + 1)
    }
}

/// The declaration with a name on a line, or else the first with that name.
pub open spec fn picked(declarations: Seq<DeclarationView>, name: Seq<char>, line: u32) -> Option<
    int,
> {
    match named_from(declarations, name, Some(line), 0) {
        Some(at) => Some(at),
        None => named_from(declarations, name, None, 0),
    }
}

/// The declaration named in a file whose signature begins on a line.
pub open spec fn located(
    source: Seq<char>,
    path: Seq<char>,
    name: Seq<char>,
    line: u32,
) -> Option<DeclarationRange> {
    match (parse::known_facts(path, source), parse::path_language(path)) {
        (Some(facts), Some(language)) => match picked(facts.declarations, name, line) {
            Some(at) => Some(
                range_of(source, parse::tokens_of(source, language), facts.declarations[at]),
            ),
            None => None,
        },
        _ => None,
    }
}

/// The lines of a declaration's proven body, or its one line where its end is not proven.
pub open spec fn body_of(source: Seq<char>, range: Option<DeclarationRange>, line: u32) -> (u32, u32) {
    match range {
        Some(found) => if found.end_proven {
            match (
                coordinates::position(source, found.start as int),
                coordinates::position(source, found.end as int),
            ) {
                (Some(start), Some(end)) => (start.0, end.0),
                _ => (line, line),
            }
        } else {
            (line, line)
        },
        None => (line, line),
    }
}

/// Whether a token can carry a real brace. Strings and comments cannot.
fn is_code(token: &Token) -> (found: bool)
    ensures
        found == carries_braces(*token),
{
    match token.kind {
        TokenKind::String => false,
        TokenKind::LineComment => false,
        TokenKind::BlockComment => false,
        TokenKind::Regex => false,
        TokenKind::Unterminated => false,
        _ => true,
    }
}

/// Braces never outnumber the bytes they are counted in, so they can always be counted.
proof fn lemma_depth_bound(tokens: int, length: int)
    requires
        0 <= tokens <= usize::MAX,
        0 <= length <= usize::MAX,
    ensures
        tokens * length + length <= u128::MAX,
        (tokens + 1) * length == tokens * length + length,
        0 <= tokens * length,
{
    assert(tokens * length + length <= u128::MAX && 0 <= tokens * length) by (nonlinear_arith)
        requires
            0 <= tokens <= 0xffff_ffff_ffff_ffff,
            0 <= length <= 0xffff_ffff_ffff_ffff,
    ;
    assert((tokens + 1) * length == tokens * length + length) by (nonlinear_arith);
}

/// The offset one past whatever ends the declaration starting at `start`.
///
/// A braced declaration ends at the brace matching its first one; a declaration without a body
/// ends at its terminator. Returns `None` when neither is found, in an indentation-delimited
/// language or a file that ends mid-declaration, so the caller knows the end is unproven rather
/// than being handed a plausible guess.
pub fn declaration_end(source: &str, tokens: &Vec<Token>, start: usize) -> (end: Option<usize>)
    ensures
        match (end, end_of(source@, tokens@, start as int)) {
            (Some(found), Some(expected)) => found == expected,
            (None, None) => true,
            _ => false,
        },
{
    let encoded = source.as_bytes();
    let length: usize = encoded.len();
    let count: usize = tokens.len();
    let mut at: usize = 0;
    while at < tokens.len() && tokens[at].end <= start
        invariant
            at <= tokens@.len(),
            past_from(tokens@, start as int, 0) == past_from(tokens@, start as int, at as int),
        decreases tokens@.len() - at,
    {
        at += 1;
    }
    let mut depth: u128 = 0;
    let mut opened = false;
    while at < tokens.len()
        invariant
            at <= tokens@.len() == count,
            encoded@ == text::bytes(source@),
            length == encoded@.len(),
            depth <= at * length,
            end_of(source@, tokens@, start as int) == end_from(
                source@,
                tokens@,
                at as int,
                depth as int,
                opened,
            ),
        decreases tokens@.len() - at,
    {
        let token = tokens[at];
        proof {
            lemma_depth_bound(at as int, length as int);
        }
        if is_code(&token) {
            if text::get(source, token.start, token.end).is_none() {
                return None;
            }
            let ghost b = text::bytes(source@).subrange(token.start as int, token.end as int);
            let mut i: usize = token.start;
            let ghost entered = depth as int;
            let ghost was_opened = opened;
            while i < token.end
                invariant
                    token.start <= i <= token.end <= encoded@.len(),
                    encoded@ == text::bytes(source@),
                    length == encoded@.len(),
                    at < tokens@.len(),
                    token == tokens@[at as int],
                    carries_braces(token),
                    text::sliceable(source@, token.start as int, token.end as int),
                    b == text::bytes(source@).subrange(token.start as int, token.end as int),
                    at * length + length <= u128::MAX,
                    depth <= at * length + (i - token.start),
                    read_bytes(b, 0, entered, was_opened) == read_bytes(
                        b,
                        i - token.start,
                        depth as int,
                        opened,
                    ),
                    end_of(source@, tokens@, start as int) == end_from(
                        source@,
                        tokens@,
                        at as int,
                        entered,
                        was_opened,
                    ),
                decreases token.end - i,
            {
                let byte = encoded[i];
                assert(b[i - token.start] == byte);
                if byte == 123 {
                    depth += 1;
                    opened = true;
                } else if byte == 125 && depth > 0 {
                    depth -= 1;
                    if depth == 0 {
                        return Some(i + 1);
                    }
                } else if byte == 59 && !opened {
                    return Some(i + 1);
                }
                i += 1;
            }
        }
        at += 1;
    }
    None
}

/// The range of a declaration whose signature the parser reported.
pub fn range_from(source: &str, tokens: &Vec<Token>, declaration: &Declaration) -> (range:
    DeclarationRange)
    ensures
        range == range_of(source@, tokens@, declaration@),
{
    match declaration_end(source, tokens, declaration.start) {
        Some(end) => DeclarationRange { start: declaration.start, end, end_proven: true },
        None => DeclarationRange {
            start: declaration.start,
            end: declaration.end,
            end_proven: false,
        },
    }
}

/// The declarations of a file without their representation.
pub open spec fn declarations_view(declarations: Seq<Declaration>) -> Seq<DeclarationView> {
    Seq::new(declarations.len(), |i: int| declarations[i].view())
}

/// The first declaration with a name, and with a line where one is asked for.
fn find_named(declarations: &Vec<Declaration>, name: &str, line: Option<u32>) -> (found: Option<
    usize,
>)
    ensures
        match (found, named_from(declarations_view(declarations@), name@, line, 0)) {
            (Some(at), Some(expected)) => at == expected && at < declarations@.len(),
            (None, None) => true,
            _ => false,
        },
{
    let ghost all = declarations_view(declarations@);
    let mut i: usize = 0;
    while i < declarations.len()
        invariant
            i <= declarations@.len(),
            all == declarations_view(declarations@),
            named_from(all, name@, line, 0) == named_from(all, name@, line, i as int),
        decreases declarations@.len() - i,
    {
        assert(all[i as int] == declarations@[i as int]@);
        let on_line = match line {
            Some(wanted) => declarations[i].line == wanted,
            None => true,
        };
        if text::same(declarations[i].name.as_str(), name) && on_line {
            return Some(i);
        }
        i += 1;
    }
    None
}

/// The declaration with a name on a line, or else the first with that name.
pub fn pick(declarations: &Vec<Declaration>, name: &str, line: u32) -> (found: Option<usize>)
    ensures
        match (found, picked(declarations_view(declarations@), name@, line)) {
            (Some(at), Some(expected)) => at == expected && at < declarations@.len(),
            (None, None) => true,
            _ => false,
        },
{
    match find_named(declarations, name, Some(line)) {
        Some(at) => Some(at),
        None => find_named(declarations, name, None),
    }
}

/// Finds the declaration named `name` whose signature begins on `line`.
///
/// The line disambiguates same-named declarations in one file, which is why it is required rather
/// than taking the first match.
pub fn locate(source: &str, path: &str, name: &str, line: u32) -> (range: Option<DeclarationRange>)
    requires
        text::bytes(source@).len() < i32::MAX,
    ensures
        range == located(source@, path@, name@, line),
{
    let facts = match parse::read_facts(path, source) {
        Some(facts) => facts,
        None => {
            return None;
        },
    };
    assert(declarations_view(facts.declarations@) =~= facts@.declarations);
    let language = match parse::language_at(path) {
        Some(language) => language,
        None => {
            return None;
        },
    };
    match pick(&facts.declarations, name, line) {
        Some(at) => {
            let tokens = parse::tokenize(source, language);
            Some(range_from(source, &tokens, &facts.declarations[at]))
        },
        None => None,
    }
}

/// The first and last line of the body of a located declaration, or the declaration's one line
/// where its end is not proven.
pub fn body_range(source: &str, range: Option<DeclarationRange>, line: u32) -> (lines: (u32, u32))
    requires
        text::bytes(source@).len() < u32::MAX,
    ensures
        lines == body_of(source@, range, line),
{
    match range {
        Some(found) => {
            if !found.end_proven {
                return (line, line);
            }
            match (
                coordinates::position_of(source, found.start),
                coordinates::position_of(source, found.end),
            ) {
                (Some(start), Some(end)) => (start.0, end.0),
                _ => (line, line),
            }
        },
        None => (line, line),
    }
}

/// The first and last line of the proven body of the declaration named `name` on `line`.
pub fn body_lines(source: &str, path: &str, name: &str, line: u32) -> (lines: (u32, u32))
    requires
        text::bytes(source@).len() < i32::MAX,
    ensures
        lines == body_of(source@, located(source@, path@, name@, line), line),
{
    body_range(source, locate(source, path, name, line), line)
}

/// Reading ends just past a closing brace or a terminator.
proof fn lemma_read_bytes(b: Seq<u8>, at: int, depth: int, opened: bool)
    requires
        0 <= at,
        read_bytes(b, at, depth, opened) is Ended,
    ensures
        at < read_bytes(b, at, depth, opened)->at <= b.len(),
        b[read_bytes(b, at, depth, opened)->at - 1] == 125 || b[read_bytes(
            b,
            at,
            depth,
            opened,
        )->at - 1] == 59,
    decreases b.len() - at,
{
    if b[at] == 123 {
        lemma_read_bytes(b, at + 1, depth + 1, true);
    } else if b[at] == 125 && depth > 0 {
        if depth - 1 != 0 {
            lemma_read_bytes(b, at + 1, depth - 1, opened);
        }
    } else if b[at] == 59 && !opened {
    } else {
        lemma_read_bytes(b, at + 1, depth, opened);
    }
}

/// A proven end stands just past a `}` or a `;` that belongs to a token of code: never to a
/// string, a comment or a regular expression.
pub proof fn law_proven_end_is_a_terminator(source: Seq<char>, tokens: Seq<Token>, start: int)
    requires
        end_of(source, tokens, start) is Some,
    ensures
        0 < end_of(source, tokens, start)->0 <= text::bytes(source).len(),
        text::bytes(source)[end_of(source, tokens, start)->0 - 1] == 125 || text::bytes(
            source,
        )[end_of(source, tokens, start)->0 - 1] == 59,
        exists|k: int|
            0 <= k < tokens.len() && carries_braces(#[trigger] tokens[k]) && tokens[k].start
                < end_of(source, tokens, start)->0 <= tokens[k].end,
{
    lemma_past_from(tokens, start, 0);
    lemma_end_from(source, tokens, past_from(tokens, start, 0), 0, false);
}

/// The first token past an offset is a place among the tokens or after them.
proof fn lemma_past_from(tokens: Seq<Token>, start: int, at: int)
    requires
        0 <= at,
    ensures
        past_from(tokens, start, at) >= at,
    decreases tokens.len() - at,
{
    if at < tokens.len() && tokens[at].end <= start {
        lemma_past_from(tokens, start, at + 1);
    }
}

/// An end that was read stands just past a closing brace or a terminator of a token of code.
proof fn lemma_end_from(source: Seq<char>, tokens: Seq<Token>, at: int, depth: int, opened: bool)
    requires
        0 <= at,
        end_from(source, tokens, at, depth, opened) is Some,
    ensures
        0 < end_from(source, tokens, at, depth, opened)->0 <= text::bytes(source).len(),
        text::bytes(source)[end_from(source, tokens, at, depth, opened)->0 - 1] == 125
            || text::bytes(source)[end_from(source, tokens, at, depth, opened)->0 - 1] == 59,
        exists|k: int|
            0 <= k < tokens.len() && carries_braces(#[trigger] tokens[k]) && tokens[k].start
                < end_from(source, tokens, at, depth, opened)->0 <= tokens[k].end,
    decreases tokens.len() - at,
{
    let token = tokens[at];
    if !carries_braces(token) {
        lemma_end_from(source, tokens, at + 1, depth, opened);
    } else {
        let b = text::bytes(source).subrange(token.start as int, token.end as int);
        match read_bytes(b, 0, depth, opened) {
            Reading::Ended { at: offset } => {
                lemma_read_bytes(b, 0, depth, opened);
                assert(b[offset - 1] == text::bytes(source)[token.start + offset - 1]);
                assert(carries_braces(tokens[at]));
            },
            Reading::Open { depth, opened } => {
                lemma_end_from(source, tokens, at + 1, depth, opened);
            },
        }
    }
}

} // verus!
