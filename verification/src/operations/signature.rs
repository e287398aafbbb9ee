//! Splitting a parenthesised list into its top-level items.
//!
//! Both halves of a signature change need this: the declaration's parameters and each call site's
//! arguments. Splitting on commas is only correct at depth zero, and the depth that matters is
//! not just `()[]{}`: `Map<string, number>` holds a comma that separates nothing.
//!
//! Angle brackets are the hard case, because `<` is also less-than. A `<` is treated as opening a
//! generic only when a plausible `>` closes it with nothing statement-like in between. Real
//! comparisons inside a default value do not satisfy that; contrived ones (`a < b, c > d`) would,
//! and are accepted as the price of reading ordinary TypeScript.

use crate::parse;
use crate::parse::{Token, TokenKind};
use crate::text;
use crate::words;
use vstd::prelude::*;

verus! {

/// How many tokens a generic argument list may take.
pub const LOOKAHEAD: usize = 200;

/// One item of a list, and the exact bytes it occupies.
#[derive(Debug)]
pub struct Item {
    pub start: usize,
    pub end: usize,
    pub text: String,
    /// Whether the item spreads a value: `...rest`, which is not a positional item at all.
    pub spread: bool,
}

/// A parsed `( ... )`, with the byte range of the parentheses themselves.
#[derive(Debug)]
pub struct List {
    pub items: Vec<Item>,
    pub open: usize,
    pub close: usize,
}

/// One item as a mathematical value.
#[verifier::ext_equal]
pub struct ItemView {
    pub start: int,
    pub end: int,
    pub text: Seq<char>,
    pub spread: bool,
}

/// A parsed list as a mathematical value.
#[verifier::ext_equal]
pub struct ListView {
    pub items: Seq<ItemView>,
    pub open: int,
    pub close: int,
}

impl Item {
    /// The item without its representation.
    pub open spec fn view(self) -> ItemView {
        ItemView {
            start: self.start as int,
            end: self.end as int,
            text: self.text@,
            spread: self.spread,
        }
    }
}

/// The items of a list without their representation.
pub open spec fn items_view(items: Seq<Item>) -> Seq<ItemView> {
    Seq::new(items.len(), |i: int| items[i].view())
}

impl List {
    /// The list without its representation.
    pub open spec fn view(self) -> ListView {
        ListView {
            items: items_view(self.items@),
            open: self.open as int,
            close: self.close as int,
        }
    }
}

/// Whether a token carries program meaning; a comma inside a comment separates nothing.
pub open spec fn meaningful(token: Token) -> bool {
    !(token.kind is Whitespace || token.kind is Newline || token.kind is Indent
        || token.kind is LineComment || token.kind is BlockComment || token.kind is Unterminated)
}

/// The tokens that carry program meaning.
pub open spec fn code_of(tokens: Seq<Token>) -> Seq<Token>
    decreases tokens.len(),
{
    if tokens.len() == 0 {
        Seq::empty()
    } else if meaningful(tokens.last()) {
        code_of(tokens.drop_last()).push(tokens.last())
    } else {
        code_of(tokens.drop_last())
    }
}

/// Whether a token opens a nested list.
pub open spec fn opens(t: Seq<char>) -> bool {
    t == "("@ || t == "["@ || t == "{"@
}

/// Whether a token closes a nested list.
pub open spec fn closes(t: Seq<char>) -> bool {
    t == ")"@ || t == "]"@ || t == "}"@
}

/// The token that closes the generic argument list read so far, if it is one.
pub open spec fn generic_close(
    source: Seq<char>,
    code: Seq<Token>,
    at: int,
    end: int,
    angle: int,
    nested: int,
) -> Option<int>
    decreases end - at,
{
    if at >= end {
        None
    } else {
        let t = parse::token_text(source, code[at]);
        if t == "<"@ {
            generic_close(source, code, at + 1, end, angle + 1, nested)
        } else if t == ">"@ {
            if angle - 1 == 0 && nested == 0 {
                Some(at)
            } else {
                generic_close(source, code, at + 1, end, angle - 1, nested)
            }
        } else if opens(t) {
            generic_close(source, code, at + 1, end, angle, nested + 1)
        } else if closes(t) {
            if nested - 1 < 0 {
                None
            } else {
                generic_close(source, code, at + 1, end, angle, nested - 1)
            }
        } else if t == ";"@ || t == "=>"@ {
            None
        } else {
            generic_close(source, code, at + 1, end, angle, nested)
        }
    }
}

/// The token that closes the generic argument list starting at a token, if it is one.
pub open spec fn generic_at(source: Seq<char>, code: Seq<Token>, at: int) -> Option<int> {
    let end = if code.len() <= at + LOOKAHEAD {
        code.len() as int
    } else {
        at + LOOKAHEAD
    };
    generic_close(source, code, at, end, 0, 0)
}

/// The item that occupies a byte range.
pub open spec fn item_at(source: Seq<char>, start: int, end: int) -> ItemView {
    let t = if text::sliceable(source, start, end) {
        text::slice(source, start, end)
    } else {
        Seq::empty()
    };
    let head = words::trimmed_start(t);
    ItemView { start, end, text: t, spread: text::begins(head, "..."@) || text::begins(head, "*"@) }
}

/// The items read so far and the one under way, if one is.
pub open spec fn with_pending(
    source: Seq<char>,
    items: Seq<ItemView>,
    start: Option<int>,
    end: int,
) -> Seq<ItemView> {
    match start {
        Some(from) => items.push(item_at(source, from, end)),
        None => items,
    }
}

/// The list whose reading has come as far as a token.
pub open spec fn list_from(
    source: Seq<char>,
    code: Seq<Token>,
    open: int,
    at: int,
    depth: int,
    start: Option<int>,
    end: int,
    items: Seq<ItemView>,
) -> Option<ListView>
    decreases code.len() - at,
{
    if at < 0 || at >= code.len() {
        None
    } else {
        let token = code[at];
        let t = parse::token_text(source, token);
        let begun = match start {
            Some(from) => Some(from),
            None => Some(token.start as int),
        };
        if opens(t) {
            list_from(source, code, open, at + 1, depth + 1, begun, token.end as int, items)
        } else if closes(t) && depth > 0 {
            list_from(source, code, open, at + 1, depth - 1, begun, token.end as int, items)
        } else if t == ")"@ {
            Some(
                ListView {
                    items: with_pending(source, items, start, end),
                    open,
                    close: token.start as int,
                },
            )
        } else if t == ","@ && depth == 0 {
            list_from(
                source,
                code,
                open,
                at + 1,
                depth,
                None,
                end,
                with_pending(source, items, start, end),
            )
        } else if t == "<"@ && generic_at(source, code, at) is Some {
            let close = generic_at(source, code, at)->0;
            if close < at || close >= code.len() {
                None
            } else {
                list_from(source, code, open, close + 1, depth, begun, code[close].end as int, items)
            }
        } else {
            list_from(source, code, open, at + 1, depth, begun, token.end as int, items)
        }
    }
}

/// The list opened by a token, where it is a `(` and closes.
pub open spec fn list_at(source: Seq<char>, code: Seq<Token>, at: int) -> Option<ListView> {
    if 0 <= at < code.len() && parse::token_text(source, code[at]) == "("@ {
        let open = code[at].start as int;
        list_from(source, code, open, at + 1, 0, None, open, Seq::empty())
    } else {
        None
    }
}

/// The bytes whose deletion makes an item disappear, comma and all.
pub open spec fn removal_of(items: Seq<ItemView>, index: int) -> Option<(int, int)> {
    if index < 0 || index >= items.len() {
        None
    } else if index + 1 < items.len() {
        Some((items[index].start, items[index + 1].start))
    } else if index > 0 {
        Some((items[index - 1].end, items[index].end))
    } else {
        Some((items[index].start, items[index].end))
    }
}

/// Whether a token carries program meaning; a comma inside a comment separates nothing.
pub fn is_code(token: &Token) -> (found: bool)
    ensures
        found == meaningful(*token),
{
    match token.kind {
        TokenKind::Whitespace => false,
        TokenKind::Newline => false,
        TokenKind::Indent => false,
        TokenKind::LineComment => false,
        TokenKind::BlockComment => false,
        TokenKind::Unterminated => false,
        _ => true,
    }
}

/// The tokens that carry program meaning.
pub fn only_code(tokens: &Vec<Token>) -> (code: Vec<Token>)
    ensures
        code@ == code_of(tokens@),
{
    let mut code: Vec<Token> = Vec::new();
    let mut i: usize = 0;
    while i < tokens.len()
        invariant
            i <= tokens@.len(),
            code@ == code_of(tokens@.take(i as int)),
        decreases tokens@.len() - i,
    {
        assert(tokens@.take(i + 1).drop_last() =~= tokens@.take(i as int));
        if is_code(&tokens[i]) {
            code.push(tokens[i]);
        }
        i += 1;
    }
    assert(tokens@.take(i as int) =~= tokens@);
    code
}

/// The tokens of a source that carry program meaning.
pub fn code_tokens(source: &str, language: weavatrix_parse::Language) -> (code: Vec<Token>)
    requires
        text::bytes(source@).len() < u32::MAX,
    ensures
        code@ == code_of(parse::tokens_of(source@, language)),
{
    only_code(&parse::tokenize(source, language))
}

/// Whether a text opens a nested list.
fn is_open(t: &str) -> (found: bool)
    ensures
        found == opens(t@),
{
    text::same(t, "(") || text::same(t, "[") || text::same(t, "{")
}

/// Whether a text closes a nested list.
fn is_close(t: &str) -> (found: bool)
    ensures
        found == closes(t@),
{
    text::same(t, ")") || text::same(t, "]") || text::same(t, "}")
}

/// How far a generic argument list starting at `at` reaches, if it is one.
///
/// Bounded deliberately: an unclosed `<` in a long file would otherwise scan to the end and read
/// a comparison as a type.
pub(crate) fn generic_end(source: &str, code: &Vec<Token>, at: usize) -> (close: Option<usize>)
    requires
        at < code@.len(),
    ensures
        match (close, generic_at(source@, code@, at as int)) {
            (Some(found), Some(expected)) => found == expected && at <= found < code@.len(),
            (None, None) => true,
            _ => false,
        },
{
    let end: usize = if code.len() - at <= LOOKAHEAD {
        code.len()
    } else {
        at + LOOKAHEAD
    };
    let mut angle: i32 = 0;
    let mut nested: i32 = 0;
    let mut i: usize = at;
    while i < end
        invariant
            at <= i <= end <= code@.len(),
            end - at <= LOOKAHEAD,
            -(i - at) <= angle <= i - at,
            0 <= nested <= i - at,
            generic_at(source@, code@, at as int) == generic_close(
                source@,
                code@,
                i as int,
                end as int,
                angle as int,
                nested as int,
            ),
        decreases end - i,
    {
        let t = code[i].text(source);
        if text::same(t, "<") {
            angle += 1;
        } else if text::same(t, ">") {
            angle -= 1;
            if angle == 0 && nested == 0 {
                return Some(i);
            }
        } else if is_open(t) {
            nested += 1;
        } else if is_close(t) {
            nested -= 1;
            // The enclosing list closed before the angle bracket did, so it was not one.
            if nested < 0 {
                return None;
            }
        } else if text::same(t, ";") || text::same(t, "=>") {
            return None;
        }
        i += 1;
    }
    None
}

/// Builds one item from the bytes it spans.
///
/// Spread is read off the text rather than off a token, because a tokenizer is free to emit `...`
/// as three punctuation tokens and this must not depend on which it chose.
fn item(source: &str, start: usize, end: usize) -> (built: Item)
    ensures
        built@ == item_at(source@, start as int, end as int),
{
    let t = match text::get(source, start, end) {
        Some(t) => t,
        None => {
            proof {
                reveal_strlit("");
            }
            ""
        },
    };
    assert(t@ =~= item_at(source@, start as int, end as int).text);
    let head = words::trim_start(t);
    let spread = text::starts_with(head, "...") || text::starts_with(head, "*");
    Item { start, end, text: t.to_owned(), spread }
}

/// Splits the list opened by `code[open_index]`, which must be a `(`.
///
/// Returns `None` when the parentheses do not close, because every caller's next step is to
/// delete or insert bytes and a guessed boundary would land them in the wrong place.
pub fn split(source: &str, code: &Vec<Token>, open_index: usize) -> (list: Option<List>)
    ensures
        match (list, list_at(source@, code@, open_index as int)) {
            (Some(found), Some(expected)) => found@ == expected,
            (None, None) => true,
            _ => false,
        },
{
    if open_index >= code.len() || !code[open_index].reads(source, "(") {
        return None;
    }
    let open: usize = code[open_index].start;
    let mut items: Vec<Item> = Vec::new();
    let mut depth: usize = 0;
    let mut start: Option<usize> = None;
    let mut end: usize = open;
    let mut at: usize = open_index + 1;
    assert(items_view(items@) =~= Seq::empty());
    while at < code.len()
        invariant
            open_index < at <= code@.len(),
            depth <= at,
            open == code@[open_index as int].start,
            list_at(source@, code@, open_index as int) == list_from(
                source@,
                code@,
                open as int,
                at as int,
                depth as int,
                match start {
                    Some(from) => Some(from as int),
                    None => None,
                },
                end as int,
                items_view(items@),
            ),
        decreases code@.len() - at,
    {
        let token = code[at];
        let t = token.text(source);
        if is_open(t) {
            depth += 1;
        } else if is_close(t) && depth > 0 {
            depth -= 1;
        } else if text::same(t, ")") {
            if let Some(from) = start {
                let built = item(source, from, end);
                assert(items_view(items@.push(built)) =~= items_view(items@).push(built@));
                items.push(built);
            }
            return Some(List { items, open, close: token.start });
        } else if text::same(t, ",") && depth == 0 {
            if let Some(from) = start {
                let built = item(source, from, end);
                assert(items_view(items@.push(built)) =~= items_view(items@).push(built@));
                items.push(built);
            }
            start = None;
            at += 1;
            continue ;
        } else if text::same(t, "<") {
            if let Some(close) = generic_end(source, code, at) {
                if start.is_none() {
                    start = Some(token.start);
                }
                end = code[close].end;
                at = close + 1;
                continue ;
            }
        }
        if start.is_none() {
            start = Some(token.start);
        }
        end = token.end;
        at += 1;
    }
    None
}

/// The bytes to delete so that item `index` disappears, comma and all.
///
/// The comma belongs to whichever neighbour survives, which is why this cannot be the item's own
/// range: deleting `b` from `(a, b)` has to take the comma before it, and from `(a, b, c)` the
/// comma after.
pub fn removal(items: &Vec<Item>, index: usize) -> (range: Option<(usize, usize)>)
    ensures
        match (range, removal_of(items_view(items@), index as int)) {
            (Some(found), Some(expected)) => found.0 == expected.0 && found.1 == expected.1,
            (None, None) => true,
            _ => false,
        },
{
    if index >= items.len() {
        return None;
    }
    if items.len() - index > 1 {
        Some((items[index].start, items[index + 1].start))
    } else if index > 0 {
        Some((items[index - 1].end, items[index].end))
    } else {
        Some((items[index].start, items[index].end))
    }
}

/// Whether tokens stand one after another.
pub open spec fn in_order(code: Seq<Token>) -> bool {
    &&& forall|i: int| 0 <= i < code.len() ==> (#[trigger] code[i]).start <= code[i].end
    &&& forall|i: int, j: int|
        0 <= i < j < code.len() ==> (#[trigger] code[i]).end <= (#[trigger] code[j]).start
}

/// Whether items stand one after another between two offsets.
pub open spec fn laid_out(items: Seq<ItemView>, from: int, to: int) -> bool {
    &&& forall|i: int|
        0 <= i < items.len() ==> from <= (#[trigger] items[i]).start <= items[i].end <= to
    &&& forall|i: int, j: int|
        0 <= i < j < items.len() ==> (#[trigger] items[i]).end <= (#[trigger] items[j]).start
}

/// The items of a list stand one after another between its parentheses, where the tokens stand
/// one after another.
pub proof fn law_items_are_laid_out(source: Seq<char>, code: Seq<Token>, at: int)
    requires
        in_order(code),
        list_at(source, code, at) is Some,
    ensures
        laid_out(
            list_at(source, code, at)->0.items,
            list_at(source, code, at)->0.open,
            list_at(source, code, at)->0.close,
        ),
        list_at(source, code, at)->0.open <= list_at(source, code, at)->0.close,
{
    let open = code[at].start as int;
    assert(code[at].start <= code[at].end);
    assert(laid_out(Seq::<ItemView>::empty(), open, code[at].end as int));
    lemma_list_from(source, code, open, at + 1, 0, None, open, Seq::empty());
}

/// The closing token of a generic argument list is one of the tokens it was looked for in.
proof fn lemma_generic_close(
    source: Seq<char>,
    code: Seq<Token>,
    at: int,
    end: int,
    angle: int,
    nested: int,
)
    requires
        generic_close(source, code, at, end, angle, nested) is Some,
    ensures
        at <= generic_close(source, code, at, end, angle, nested)->0 < end,
    decreases end - at,
{
    let t = parse::token_text(source, code[at]);
    if t == "<"@ {
        lemma_generic_close(source, code, at + 1, end, angle + 1, nested);
    } else if t == ">"@ {
        if !(angle - 1 == 0 && nested == 0) {
            lemma_generic_close(source, code, at + 1, end, angle - 1, nested);
        }
    } else if opens(t) {
        lemma_generic_close(source, code, at + 1, end, angle, nested + 1);
    } else if closes(t) {
        lemma_generic_close(source, code, at + 1, end, angle, nested - 1);
    } else {
        lemma_generic_close(source, code, at + 1, end, angle, nested);
    }
}

/// What has been read of a list stays laid out to its end.
proof fn lemma_list_from(
    source: Seq<char>,
    code: Seq<Token>,
    open: int,
    at: int,
    depth: int,
    start: Option<int>,
    end: int,
    items: Seq<ItemView>,
)
    requires
        in_order(code),
        1 <= at <= code.len(),
        open <= code[at - 1].end,
        end <= code[at - 1].end,
        laid_out(items, open, match start {
            Some(from) => from,
            None => code[at - 1].end as int,
        }),
        start matches Some(from) ==> open <= from <= end,
        list_from(source, code, open, at, depth, start, end, items) is Some,
    ensures
        laid_out(
            list_from(source, code, open, at, depth, start, end, items)->0.items,
            open,
            list_from(source, code, open, at, depth, start, end, items)->0.close,
        ),
        open <= list_from(source, code, open, at, depth, start, end, items)->0.close,
        list_from(source, code, open, at, depth, start, end, items)->0.open == open,
    decreases code.len() - at,
{
    let token = code[at];
    let previous = code[at - 1];
    assert(previous.end <= token.start);
    assert(token.start <= token.end);
    let t = parse::token_text(source, token);
    let begun = match start {
        Some(from) => Some(from),
        None => Some(token.start as int),
    };
    let pending = with_pending(source, items, start, end);
    assert(laid_out(pending, open, previous.end as int));
    if opens(t) {
        lemma_list_from(source, code, open, at + 1, depth + 1, begun, token.end as int, items);
    } else if closes(t) && depth > 0 {
        lemma_list_from(source, code, open, at + 1, depth - 1, begun, token.end as int, items);
    } else if t == ")"@ {
    } else if t == ","@ && depth == 0 {
        assert(laid_out(pending, open, token.end as int));
        lemma_list_from(source, code, open, at + 1, depth, None, end, pending);
    } else if t == "<"@ && generic_at(source, code, at) is Some {
        let last = if code.len() <= at + LOOKAHEAD {
            code.len() as int
        } else {
            at + LOOKAHEAD
        };
        lemma_generic_close(source, code, at, last, 0, 0);
        let close = generic_at(source, code, at)->0;
        if close > at {
            assert(token.end <= code[close].start);
            assert(code[close].start <= code[close].end);
        }
        lemma_list_from(
            source,
            code,
            open,
            close + 1,
            depth,
            begun,
            code[close].end as int,
            items,
        );
    } else {
        lemma_list_from(source, code, open, at + 1, depth, begun, token.end as int, items);
    }
}

/// Deleting an item takes that item whole and no byte of another.
pub proof fn law_removal_takes_one_item(items: Seq<ItemView>, index: int, from: int, to: int)
    requires
        laid_out(items, from, to),
        0 <= index < items.len(),
    ensures
        removal_of(items, index) is Some,
        from <= (removal_of(items, index)->0).0 <= items[index].start,
        items[index].end <= (removal_of(items, index)->0).1 <= to,
        forall|other: int|
            0 <= other < items.len() && other != index ==> (#[trigger] items[other]).end
                <= (removal_of(items, index)->0).0 || (removal_of(items, index)->0).1
                <= items[other].start,
{
    let range = removal_of(items, index)->0;
    assert forall|other: int| 0 <= other < items.len() && other != index implies (
    #[trigger] items[other]).end <= range.0 || range.1 <= items[other].start by {
        if other < index {
            assert(items[other].end <= items[index].start);
            if index + 1 >= items.len() && other < index - 1 {
                assert(items[other].end <= items[index - 1].start);
            }
        } else {
            if other > index + 1 {
                assert(items[index + 1].end <= items[other].start);
            }
        }
    }
    if index + 1 < items.len() {
        assert(items[index].end <= items[index + 1].start);
    } else if index > 0 {
        assert(items[index - 1].end <= items[index].start);
    }
}

} // verus!
