//! What reading a list promises: that it is split at its own commas, and at no others.

use crate::operations::signature;
use crate::operations::signature::ItemView;
use crate::parse;
use crate::parse::Token;
use vstd::prelude::*;
use vstd::string::*;

verus! {

/// How many brackets are left open between two tokens: those that open less those that close.
pub open spec fn nesting(source: Seq<char>, code: Seq<Token>, from: int, to: int) -> int
    decreases to - from,
{
    if to <= from {
        0
    } else {
        let t = parse::token_text(source, code[to - 1]);
        nesting(source, code, from, to - 1) + (if t == "("@ || t == "["@ || t == "{"@ {
            1int
        } else if t == ")"@ || t == "]"@ || t == "}"@ {
            -1int
        } else {
            0int
        })
    }
}

/// Whether a token is a comma of the list itself, outside every bracket within it.
pub open spec fn separates(source: Seq<char>, code: Seq<Token>, from: int, at: int) -> bool {
    parse::token_text(source, code[at]) == ","@ && nesting(source, code, from, at) == 0
}

/// How many commas of the list itself stand between two tokens.
pub open spec fn commas(source: Seq<char>, code: Seq<Token>, from: int, to: int) -> int
    decreases to - from,
{
    if to <= from {
        0
    } else {
        commas(source, code, from, to - 1) + (if separates(source, code, from, to - 1) {
            1int
        } else {
            0int
        })
    }
}

/// Whether the tokens from one up to another are the inside of a list: every bracket that closes
/// was opened, every one that was opened closes, and a `)` follows. There is no `<` in it, and
/// something before each of its commas.
pub open spec fn inside(source: Seq<char>, code: Seq<Token>, from: int, to: int) -> bool {
    &&& 0 <= from <= to < code.len()
    &&& forall|k: int| from <= k <= to ==> #[trigger] nesting(source, code, from, k) >= 0
    &&& nesting(source, code, from, to) == 0
    &&& parse::token_text(source, code[to]) == ")"@
    &&& forall|k: int| from <= k < to ==> parse::token_text(source, #[trigger] code[k]) != "<"@
    &&& forall|k: int|
        from <= k < to && #[trigger] separates(source, code, from, k) ==> from < k && !separates(
            source,
            code,
            from,
            k - 1,
        )
}

/// Whether a token begins an item.
pub open spec fn begins_item(source: Seq<char>, code: Seq<Token>, from: int, at: int) -> bool {
    at == from || separates(source, code, from, at - 1)
}

/// Whether a token ends an item.
pub open spec fn ends_item(source: Seq<char>, code: Seq<Token>, from: int, to: int, at: int) -> bool {
    at + 1 == to || separates(source, code, from, at + 1)
}

/// Whether a token that separates nothing is where it belongs: it begins the item of its number
/// where it begins one, and ends it where it ends one.
pub open spec fn belongs(
    source: Seq<char>,
    code: Seq<Token>,
    from: int,
    to: int,
    items: Seq<ItemView>,
    at: int,
) -> bool {
    let number = commas(source, code, from, at);
    &&& 0 <= number < items.len()
    &&& begins_item(source, code, from, at) ==> items[number].start == code[at].start
    &&& ends_item(source, code, from, to, at) ==> items[number].end == code[at].end
}

/// How many items the inside of a list has: one more than its commas, but for one behind which
/// nothing stands.
pub open spec fn items_in(source: Seq<char>, code: Seq<Token>, from: int, to: int) -> int {
    commas(source, code, from, to) + (if to > from && !separates(source, code, from, to - 1) {
        1int
    } else {
        0int
    })
}

/// Commas are counted from none.
proof fn lemma_commas(source: Seq<char>, code: Seq<Token>, from: int, to: int)
    ensures
        commas(source, code, from, to) >= 0,
    decreases to - from,
{
    if to > from {
        lemma_commas(source, code, from, to - 1);
    }
}

/// Reading goes on as it began.
proof fn lemma_split(
    source: Seq<char>,
    code: Seq<Token>,
    open: int,
    from: int,
    at: int,
    to: int,
    start: Option<int>,
    end: int,
    items: Seq<ItemView>,
)
    requires
        inside(source, code, from, to),
        from <= at <= to,
        items.len() == commas(source, code, from, at),
        start is None <==> begins_item(source, code, from, at),
        start is Some ==> end == code[at - 1].end,
    ensures
        ({
            let found = signature::list_from(
                source,
                code,
                open,
                at,
                nesting(source, code, from, at),
                start,
                end,
                items,
            );
            let list = found->0;
            &&& found is Some
            &&& list.open == open
            &&& list.close == code[to].start
            &&& list.items.len() == items_in(source, code, from, to)
            &&& items.len() <= list.items.len()
            &&& forall|i: int| 0 <= i < items.len() ==> list.items[i] == items[i]
            &&& start matches Some(s) ==> items.len() < list.items.len()
                && list.items[items.len() as int].start == s
            &&& start is Some && (at == to || separates(source, code, from, at))
                ==> list.items[items.len() as int].end == end
            &&& forall|k: int|
                at <= k < to && !separates(source, code, from, k) ==> #[trigger] belongs(
                    source,
                    code,
                    from,
                    to,
                    list.items,
                    k,
                )
        }),
    decreases to - at,
{
    reveal_strlit("(");
    reveal_strlit(")");
    reveal_strlit("[");
    reveal_strlit("]");
    reveal_strlit("{");
    reveal_strlit("}");
    reveal_strlit(",");
    reveal_strlit("<");
    assert("("@[0] == '(' && ")"@[0] == ')' && "["@[0] == '[' && "]"@[0] == ']' && "{"@[0] == '{'
        && "}"@[0] == '}' && ","@[0] == ',' && "<"@[0] == '<');
    let depth = nesting(source, code, from, at);
    let found = signature::list_from(source, code, open, at, depth, start, end, items);
    let token = code[at];
    let t = parse::token_text(source, token);
    if at < to {
        assert(nesting(source, code, from, at + 1) >= 0);
        assert(t != "<"@);
        let begun = match start {
            Some(s) => Some(s),
            None => Some(token.start as int),
        };
        if separates(source, code, from, at) {
            assert(start is Some);
            let more = signature::with_pending(source, items, start, end);
            lemma_split(source, code, open, from, at + 1, to, None, end, more);
            let list = found->0;
            assert(list.items[items.len() as int] == more[items.len() as int]);
            assert forall|i: int| 0 <= i < items.len() implies list.items[i] == items[i] by {
                assert(list.items[i] == more[i]);
            }
        } else {
            lemma_split(source, code, open, from, at + 1, to, begun, token.end as int, items);
            let list = found->0;
            assert(belongs(source, code, from, to, list.items, at));
        }
    } else {
        lemma_commas(source, code, from, at);
        if start is Some {
            assert(at > from && !separates(source, code, from, at - 1));
        }
    }
}

/// A list is split at its own commas, and at no others: each item begins where the list or the
/// comma before it lets it, and ends before the next, whatever commas stand inside brackets within
/// it.
pub proof fn law_a_list_is_split_at_its_own_commas(
    source: Seq<char>,
    code: Seq<Token>,
    at: int,
    to: int,
)
    requires
        0 <= at,
        inside(source, code, at + 1, to),
        parse::token_text(source, code[at]) == "("@,
    ensures
        signature::list_at(source, code, at) matches Some(list) && list.open == code[at].start
            && list.close == code[to].start && list.items.len() == items_in(
            source,
            code,
            at + 1,
            to,
        ) && all_belong(source, code, at + 1, to, list.items),
{
    let open = code[at].start as int;
    lemma_split(source, code, open, at + 1, at + 1, to, None, open, Seq::empty());
}

/// Whether every token of a list that is none of its commas is where it belongs.
pub open spec fn all_belong(
    source: Seq<char>,
    code: Seq<Token>,
    from: int,
    to: int,
    items: Seq<ItemView>,
) -> bool {
    forall|k: int|
        from <= k < to && !separates(source, code, from, k) ==> #[trigger] belongs(
            source,
            code,
            from,
            to,
            items,
            k,
        )
}

} // verus!
