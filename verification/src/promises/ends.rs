//! What finding the end of a declaration promises: that every brace it opened is closed there, and
//! not before.

use crate::declaration;
use crate::declaration::Reading;
use crate::parse::Token;
use crate::text;
use vstd::prelude::*;

verus! {

/// The offsets of the bytes that can open or close something, of the tokens from one up to another:
/// those of all but strings, comments, regular expressions and what the file ends inside.
pub open spec fn offsets(tokens: Seq<Token>, from: int, to: int) -> Seq<int>
    decreases to - from,
{
    if to <= from {
        Seq::empty()
    } else {
        let token = tokens[from];
        (if token.kind is String || token.kind is LineComment || token.kind is BlockComment
            || token.kind is Regex || token.kind is Unterminated {
            Seq::empty()
        } else {
            Seq::new((token.end - token.start) as nat, |i: int| token.start + i)
        }) + offsets(tokens, from + 1, to)
    }
}

/// The bytes at offsets.
pub open spec fn bytes_at(b: Seq<u8>, at: Seq<int>) -> Seq<u8> {
    Seq::new(at.len(), |i: int| b[at[i]])
}

/// How many times a byte stands among the first of some.
pub open spec fn count(b: Seq<u8>, byte: u8, to: int) -> int
    decreases to,
{
    if to <= 0 {
        0
    } else {
        count(b, byte, to - 1) + (if b[to - 1] == byte {
            1int
        } else {
            0int
        })
    }
}

/// Whether a byte is the first that opens a brace.
pub open spec fn first_brace(b: Seq<u8>, at: int) -> bool {
    &&& 0 <= at < b.len()
    &&& b[at] == 0x7b
    &&& forall|i: int| 0 <= i < at ==> #[trigger] b[i] != 0x7b
}

/// Whether a declaration ends with a byte: it is a `;` before any brace, or the `}` that closes the
/// first brace.
pub open spec fn ends_with(b: Seq<u8>, at: int) -> bool {
    &&& 0 <= at < b.len()
    &&& (b[at] == 0x3b && forall|i: int| 0 <= i < at ==> #[trigger] b[i] != 0x7b) || (exists|
        brace: int,
    |
        brace < at && #[trigger] first_brace(b, brace) && b[at] == 0x7d && open_at(b, brace, at + 1)
            == 0)
}

/// How many braces are open before a byte, counted from the first one.
pub open spec fn open_at(b: Seq<u8>, brace: int, at: int) -> int {
    count(b, 0x7b, at) - count(b, 0x7b, brace) - (count(b, 0x7d, at) - count(b, 0x7d, brace))
}

/// What has been read of some bytes is what is open.
spec fn read_so_far(b: Seq<u8>, at: int, depth: int, opened: bool) -> bool {
    &&& 0 <= at <= b.len()
    &&& forall|i: int| 0 <= i < at ==> !#[trigger] ends_with(b, i)
    &&& if opened {
        depth > 0 && exists|brace: int|
            brace < at && #[trigger] first_brace(b, brace) && depth == open_at(b, brace, at)
    } else {
        depth == 0 && forall|i: int| 0 <= i < at ==> #[trigger] b[i] != 0x7b
    }
}

/// Reading stops at the first byte that ends a declaration.
proof fn lemma_read(b: Seq<u8>, at: int, depth: int, opened: bool)
    requires
        read_so_far(b, at, depth, opened),
    ensures
        match declaration::read_bytes(b, at, depth, opened) {
            Reading::Ended { at: end } => ends_with(b, end - 1) && forall|i: int|
                0 <= i < end - 1 ==> !#[trigger] ends_with(b, i),
            Reading::Open { depth, opened } => read_so_far(b, b.len() as int, depth, opened),
        },
    decreases b.len() - at,
{
    if at < b.len() {
        if opened {
            let brace = choose|brace: int|
                brace < at && #[trigger] first_brace(b, brace) && depth == open_at(b, brace, at);
            assert(b[brace] == 0x7b);
            assert forall|other: int| #[trigger] first_brace(b, other) implies other == brace by {
                if other < brace {
                    assert(b[other] != 0x7b);
                } else if brace < other {
                    assert(b[brace] != 0x7b);
                }
            }
            if b[at] == 0x7b {
                assert(open_at(b, brace, at + 1) == depth + 1);
                assert(!ends_with(b, at));
                assert(read_so_far(b, at + 1, depth + 1, true));
                lemma_read(b, at + 1, depth + 1, true);
            } else if b[at] == 0x7d {
                assert(open_at(b, brace, at + 1) == depth - 1);
                if depth - 1 == 0 {
                    assert(ends_with(b, at));
                } else {
                    assert(!ends_with(b, at));
                    assert(read_so_far(b, at + 1, depth - 1, true));
                    lemma_read(b, at + 1, depth - 1, opened);
                }
            } else {
                assert(open_at(b, brace, at + 1) == depth);
                assert(!ends_with(b, at));
                assert(read_so_far(b, at + 1, depth, true));
                lemma_read(b, at + 1, depth, opened);
            }
        } else {
            assert forall|brace: int| brace < at implies !#[trigger] first_brace(b, brace) by {
                if 0 <= brace {
                    assert(b[brace] != 0x7b);
                }
            }
            if b[at] == 0x7b {
                assert(!ends_with(b, at));
                assert(first_brace(b, at));
                assert(open_at(b, at, at + 1) == 1) by {
                    assert(count(b, 0x7b, at + 1) == count(b, 0x7b, at) + 1);
                    assert(count(b, 0x7d, at + 1) == count(b, 0x7d, at));
                }
                assert(read_so_far(b, at + 1, 1, true));
                lemma_read(b, at + 1, depth + 1, true);
            } else if b[at] == 0x3b {
                assert(ends_with(b, at));
            } else {
                assert(!ends_with(b, at));
                assert(read_so_far(b, at + 1, depth, false));
                lemma_read(b, at + 1, depth, opened);
            }
        }
    }
}

/// Reading two runs of bytes is reading the first and then the second.
proof fn lemma_read_both(a: Seq<u8>, b: Seq<u8>, at: int, depth: int, opened: bool)
    requires
        0 <= at <= a.len(),
    ensures
        declaration::read_bytes(a + b, at, depth, opened) == (match declaration::read_bytes(
            a,
            at,
            depth,
            opened,
        ) {
            Reading::Ended { at: end } => Reading::Ended { at: end },
            Reading::Open { depth, opened } => declaration::read_bytes(
                a + b,
                a.len() as int,
                depth,
                opened,
            ),
        }),
    decreases a.len() - at,
{
    if at < a.len() {
        assert((a + b)[at] == a[at]);
        lemma_read_both(a, b, at + 1, depth, opened);
        lemma_read_both(a, b, at + 1, depth + 1, true);
        lemma_read_both(a, b, at + 1, depth - 1, opened);
    }
}

/// Reading the second of two runs of bytes is reading it alone.
proof fn lemma_read_second(a: Seq<u8>, b: Seq<u8>, at: int, depth: int, opened: bool)
    requires
        0 <= at <= b.len(),
    ensures
        declaration::read_bytes(a + b, a.len() + at, depth, opened) == (
        match declaration::read_bytes(b, at, depth, opened) {
            Reading::Ended { at: end } => Reading::Ended { at: a.len() + end },
            Reading::Open { depth, opened } => Reading::Open { depth, opened },
        }),
    decreases b.len() - at,
{
    if at < b.len() {
        assert((a + b)[a.len() + at] == b[at]);
        lemma_read_second(a, b, at + 1, depth, opened);
        lemma_read_second(a, b, at + 1, depth + 1, true);
        lemma_read_second(a, b, at + 1, depth - 1, opened);
    }
}

/// An end that is read is behind some byte that was read.
proof fn lemma_ended_within(b: Seq<u8>, at: int, depth: int, opened: bool)
    requires
        0 <= at <= b.len(),
    ensures
        declaration::read_bytes(b, at, depth, opened) matches Reading::Ended { at: end } ==> at < end
            <= b.len(),
    decreases b.len() - at,
{
    if at < b.len() {
        lemma_ended_within(b, at + 1, depth, opened);
        lemma_ended_within(b, at + 1, depth + 1, true);
        lemma_ended_within(b, at + 1, depth - 1, opened);
    }
}

/// Whether every token that can open or close something is a part of the source.
pub open spec fn readable(source: Seq<char>, tokens: Seq<Token>) -> bool {
    forall|k: int|
        0 <= k < tokens.len() && declaration::carries_braces(#[trigger] tokens[k])
            ==> text::sliceable(source, tokens[k].start as int, tokens[k].end as int)
}

/// Reading token by token is reading all their bytes.
proof fn lemma_tokens_read(
    source: Seq<char>,
    tokens: Seq<Token>,
    at: int,
    depth: int,
    opened: bool,
)
    requires
        readable(source, tokens),
        0 <= at <= tokens.len(),
    ensures
        ({
            let places = offsets(tokens, at, tokens.len() as int);
            let b = bytes_at(text::bytes(source), places);
            declaration::end_from(source, tokens, at, depth, opened) == (
            match declaration::read_bytes(b, 0, depth, opened) {
                Reading::Ended { at: end } => Some(places[end - 1] + 1),
                Reading::Open { .. } => None,
            })
        }),
    decreases tokens.len() - at,
{
    let all = text::bytes(source);
    let places = offsets(tokens, at, tokens.len() as int);
    let b = bytes_at(all, places);
    if at < tokens.len() {
        let token = tokens[at];
        let rest = offsets(tokens, at + 1, tokens.len() as int);
        let others = bytes_at(all, rest);
        if !declaration::carries_braces(token) {
            lemma_tokens_read(source, tokens, at + 1, depth, opened);
            assert(places =~= rest);
        } else {
            assert(text::sliceable(source, token.start as int, token.end as int));
            let own = all.subrange(token.start as int, token.end as int);
            assert(places.len() == own.len() + rest.len());
            assert(b =~= own + others);
            lemma_read_both(own, others, 0, depth, opened);
            lemma_ended_within(own, 0, depth, opened);
            match declaration::read_bytes(own, 0, depth, opened) {
                Reading::Ended { at: end } => {
                    assert(places[end - 1] == token.start + (end - 1));
                },
                Reading::Open { depth: d, opened: o } => {
                    lemma_tokens_read(source, tokens, at + 1, d, o);
                    lemma_read_second(own, others, 0, d, o);
                    lemma_ended_within(others, 0, d, o);
                    match declaration::read_bytes(others, 0, d, o) {
                        Reading::Ended { at: end } => {
                            assert(places[own.len() + end - 1] == rest[end - 1]);
                        },
                        _ => {},
                    }
                },
            }
        }
    } else {
        assert(b.len() == 0);
    }
}

/// The first token that reaches past an offset is just that.
proof fn lemma_past(tokens: Seq<Token>, start: int, at: int)
    requires
        0 <= at <= tokens.len(),
        forall|k: int| 0 <= k < at ==> (#[trigger] tokens[k]).end <= start,
    ensures
        first_past(tokens, start, declaration::past_from(tokens, start, at)),
    decreases tokens.len() - at,
{
    if at < tokens.len() && tokens[at].end <= start {
        lemma_past(tokens, start, at + 1);
    }
}

/// Whether a token is the first that reaches past an offset.
pub open spec fn first_past(tokens: Seq<Token>, start: int, at: int) -> bool {
    &&& 0 <= at <= tokens.len()
    &&& forall|k: int| 0 <= k < at ==> (#[trigger] tokens[k]).end <= start
    &&& at < tokens.len() ==> tokens[at].end > start
}

/// Whether an offset is just behind the first byte that ends a declaration.
pub open spec fn just_behind(
    source: Seq<char>,
    tokens: Seq<Token>,
    first: int,
    end: int,
    last: int,
) -> bool {
    let places = offsets(tokens, first, tokens.len() as int);
    let b = bytes_at(text::bytes(source), places);
    &&& ends_with(b, last)
    &&& forall|i: int| 0 <= i < last ==> !#[trigger] ends_with(b, i)
    &&& end == places[last] + 1
}

/// A declaration ends where what it opened is closed: at the first `;` before any brace, or else at
/// the `}` that closes its first brace, whatever braces are opened and closed in between, and
/// whatever strings and comments say. Where there is neither, its end is not proven.
pub proof fn law_a_declaration_ends_where_its_braces_close(
    source: Seq<char>,
    tokens: Seq<Token>,
    start: int,
)
    requires
        readable(source, tokens),
    ensures
        exists|first: int| #[trigger]
            first_past(tokens, start, first) && (match declaration::end_of(source, tokens, start) {
                Some(end) => exists|last: int| #[trigger]
                    just_behind(source, tokens, first, end, last),
                None => forall|i: int| !#[trigger] ends_with(
                    bytes_at(
                        text::bytes(source),
                        offsets(tokens, first, tokens.len() as int),
                    ),
                    i,
                ),
            }),
{
    let first = declaration::past_from(tokens, start, 0);
    lemma_past(tokens, start, 0);
    let places = offsets(tokens, first, tokens.len() as int);
    let b = bytes_at(text::bytes(source), places);
    lemma_tokens_read(source, tokens, first, 0, false);
    assert(read_so_far(b, 0, 0, false));
    lemma_read(b, 0, 0, false);
    lemma_ended_within(b, 0, 0, false);
    match declaration::end_of(source, tokens, start) {
        Some(end) => {
            let read = declaration::read_bytes(b, 0, 0, false)->at;
            assert(just_behind(source, tokens, first, end, read - 1));
        },
        None => {},
    }
}

} // verus!
