//! What the plan of organizing imports takes from a file: unused bindings and nothing that is used.

use crate::coordinates;
use crate::fit;
use crate::graph::Repository;
use crate::json;
use crate::json::JsonView;
use crate::operations::edit_symbol;
use crate::operations::organize_imports;
use crate::operations::organize_imports::{BindingView, MentionsView, StatementView};
use crate::operations::rename_plan;
use crate::operations::signature;
use crate::parse;
use crate::parse::Token;
use crate::plan;
use crate::plan::{BuilderView, EditView};
use crate::promises::imports;
use crate::promises::plans;
use crate::promises::signature::plan_read;
use crate::text;
use crate::words;
use vstd::prelude::*;
use vstd::string::*;

verus! {

/// Whether bindings stand one after another, from an offset on and up to one.
pub open spec fn spread_out(named: Seq<BindingView>, from: int, to: int) -> bool {
    &&& organize_imports::in_order(named)
    &&& forall|b: int|
        0 <= b < named.len() ==> from <= (#[trigger] named[b]).start && named[b].end <= to
}

/// Whether the parts of a statement stand where they should: its bindings one after another inside
/// its braces, and those behind its start.
pub open spec fn laid_out(statement: StatementView) -> bool {
    match statement.braces {
        Some((open, close)) => statement.start <= open <= close && spread_out(
            statement.named,
            open as int,
            close as int,
        ),
        None => statement.named.len() == 0,
    }
}

/// One more binding behind the others leaves them one after another.
proof fn lemma_one_more(named: Seq<BindingView>, one: BindingView, from: int, to: int, next: int)
    requires
        spread_out(named, from, to),
        from <= to <= one.start <= one.end <= next,
    ensures
        spread_out(named.push(one), from, next),
{
    let more = named.push(one);
    assert forall|i: int| 0 <= i < more.len() implies (#[trigger] more[i]).start <= more[i].end by {
        if i < named.len() {
            assert(more[i] == named[i]);
        }
    }
    assert forall|i: int, j: int| 0 <= i < j < more.len() implies (#[trigger] more[i]).end <= (
    #[trigger] more[j]).start by {
        assert(more[i] == named[i]);
        if j < named.len() {
            assert(more[j] == named[j]);
        }
    }
    assert forall|b: int| 0 <= b < more.len() implies from <= (#[trigger] more[b]).start
        && more[b].end <= next by {
        if b < named.len() {
            assert(more[b] == named[b]);
        }
    }
}

/// Bindings that end by an offset end by a later one.
proof fn lemma_later(named: Seq<BindingView>, from: int, to: int, next: int)
    requires
        spread_out(named, from, to),
        to <= next,
    ensures
        spread_out(named, from, next),
{
    assert forall|b: int| 0 <= b < named.len() implies from <= (#[trigger] named[b]).start
        && named[b].end <= next by {}
}

/// The bindings of a group stand one after another between its first token and its last.
proof fn lemma_group(
    source: Seq<char>,
    code: Seq<Token>,
    at: int,
    read: Seq<BindingView>,
    from: int,
)
    requires
        signature::in_order(code),
        1 <= at <= code.len(),
        from <= code[at - 1].end,
        spread_out(read, from, code[at - 1].end as int),
    ensures
        ({
            let (named, after) = organize_imports::group_from(source, code, at, read);
            &&& at <= after <= code.len()
            &&& spread_out(named, from, code[after - 1].end as int)
        }),
    decreases code.len() - at,
{
    if at < code.len() {
        let t = parse::token_text(source, code[at]);
        assert(code[at - 1].end <= code[at].start);
        assert(code[at].start <= code[at].end);
        lemma_later(read, from, code[at - 1].end as int, code[at].end as int);
        if t == "}"@ {
        } else if t == ","@ || !(code[at].kind is Identifier) {
            lemma_group(source, code, at + 1, read, from);
        } else {
            let name = organize_imports::name_at(source, code, at);
            if name > at {
                assert(code[at].end <= code[name].start);
                assert(code[name].start <= code[name].end);
            }
            if organize_imports::alias_at(source, code, name + 1) {
                assert(code[name].end <= code[name + 2].start);
                assert(code[name + 2].start <= code[name + 2].end);
                let one = BindingView {
                    local: parse::token_text(source, code[name + 2]),
                    start: code[at].start,
                    end: code[name + 2].end,
                };
                lemma_one_more(
                    read,
                    one,
                    from,
                    code[at - 1].end as int,
                    code[name + 2].end as int,
                );
                lemma_group(source, code, name + 3, read.push(one), from);
            } else {
                let one = BindingView {
                    local: parse::token_text(source, code[name]),
                    start: code[at].start,
                    end: code[name].end,
                };
                lemma_one_more(read, one, from, code[at - 1].end as int, code[name].end as int);
                lemma_group(source, code, name + 1, read.push(one), from);
            }
        }
    }
}

/// A statement stays laid out while its bindings are read.
proof fn lemma_bindings(
    source: Seq<char>,
    code: Seq<Token>,
    at: int,
    statement: StatementView,
)
    requires
        signature::in_order(code),
        1 <= at <= code.len(),
        statement.start <= code[at - 1].end,
        laid_out(statement),
    ensures
        ({
            let (next, middle) = organize_imports::bindings_from(source, code, at, statement);
            &&& laid_out(next)
            &&& next.start == statement.start
            &&& at <= middle <= code.len()
        }),
    decreases code.len() - at,
{
    if at < code.len() {
        let token = code[at];
        let t = parse::token_text(source, token);
        assert(code[at - 1].end <= token.start);
        assert(token.start <= token.end);
        if t == "{"@ {
            assert(spread_out(Seq::empty(), token.start as int, token.end as int));
            lemma_group(source, code, at + 1, Seq::empty(), token.start as int);
            let (named, after) = organize_imports::group_from(
                source,
                code,
                at + 1,
                Seq::empty(),
            );
            if after > at + 1 {
                assert(token.end <= code[after - 1].start);
            }
            assert(code[after - 1].start <= code[after - 1].end);
            let next = StatementView {
                named,
                braces: Some((token.start, code[after - 1].end)),
                ..statement
            };
            lemma_bindings(source, code, after, next);
        } else if t == "from"@ || t == ";"@ {
        } else {
            let named = if token.kind is Identifier && t != "type"@ && t != "as"@ {
                statement.unnamed.push(t)
            } else {
                statement.unnamed
            };
            let unnamed = if t == "*"@ {
                named.push("*"@)
            } else {
                named
            };
            lemma_bindings(source, code, at + 1, StatementView { unnamed, ..statement });
        }
    }
}

/// Whether every statement is laid out.
pub open spec fn all_laid_out(statements: Seq<StatementView>) -> bool {
    forall|s: int| 0 <= s < statements.len() ==> laid_out(#[trigger] statements[s])
}

/// Every statement that is found is laid out.
proof fn lemma_statements(
    source: Seq<char>,
    code: Seq<Token>,
    at: int,
    found: Seq<StatementView>,
)
    requires
        signature::in_order(code),
        all_laid_out(found),
        0 <= at,
    ensures
        all_laid_out(organize_imports::imports_from(source, code, at, found)),
    decreases code.len() - at,
{
    if at < code.len() {
        if !organize_imports::starts_import(source, code, at) {
            lemma_statements(source, code, at + 1, found);
        } else {
            let opened = StatementView {
                start: code[at].start,
                end: code[at].end,
                named: Seq::empty(),
                braces: None,
                unnamed: Seq::empty(),
            };
            let (statement, middle) = organize_imports::bindings_from(
                source,
                code,
                at + 1,
                opened,
            );
            let (end, after) = organize_imports::tail_from(source, code, middle, statement.end);
            assert(code[at].start <= code[at].end);
            lemma_bindings(source, code, at + 1, opened);
            if !(after <= at || after > code.len()) {
                let next = found.push(StatementView { end, ..statement });
                assert forall|s: int| 0 <= s < next.len() implies laid_out(#[trigger] next[s]) by {
                    if s < found.len() {
                        assert(next[s] == found[s]);
                    }
                }
                lemma_statements(source, code, after, next);
            }
        }
    }
}

/// The ranges that go with a statement.
#[verifier::opaque]
spec fn ranges_of(
    source: Seq<char>,
    statement: StatementView,
    mentioned: MentionsView,
) -> Seq<(int, int)> {
    let flags = organize_imports::unused_flags(statement.named, mentioned);
    if statement.named.len() > 0 && organize_imports::all_set(flags) {
        if statement.unnamed.len() == 0 {
            seq![
                organize_imports::own_lines(
                    source,
                    statement.start as int,
                    statement.end as int,
                ),
            ]
        } else {
            match statement.braces {
                Some((open, close)) => seq![
                    (
                        organize_imports::comma_before(
                            source,
                            statement.start as int,
                            open as int,
                        ),
                        close as int,
                    ),
                ],
                None => Seq::empty(),
            }
        }
    } else {
        organize_imports::runs_from(statement.named, flags, 0, Seq::empty())
    }
}

/// Whether a plan is of one file that stays open.
spec fn single(builder: BuilderView, path: Seq<char>) -> bool {
    builder.current == Some(0int) && builder.files.len() == 1 && builder.files[0].path == path
}

/// Whether an edit is the deletion of one of some ranges.
spec fn deletes_one(source: Seq<char>, ranges: Seq<(int, int)>, edit: EditView) -> bool {
    exists|r: int|
        0 <= r < ranges.len() && organize_imports::deletion(
            source,
            (#[trigger] ranges[r]).0,
            ranges[r].1,
        ) == Some(edit)
}

/// Deleting ranges adds the deletion of each that can be expressed, and those alone.
proof fn lemma_all_deleted(
    builder: BuilderView,
    path: Seq<char>,
    source: Seq<char>,
    ranges: Seq<(int, int)>,
)
    requires
        single(builder, path),
    ensures
        ({
            let next = organize_imports::all_deleted(builder, source, ranges);
            &&& single(next, path)
            &&& forall|edit: EditView| #[trigger]
                next.files[0].edits.contains(edit) <==> builder.files[0].edits.contains(edit)
                    || deletes_one(source, ranges, edit)
        }),
    decreases ranges.len(),
{
    let next = organize_imports::all_deleted(builder, source, ranges);
    if ranges.len() > 0 {
        let rest = ranges.drop_last();
        let last = ranges.last();
        let before = organize_imports::all_deleted(builder, source, rest);
        lemma_all_deleted(builder, path, source, rest);
        let edits = before.files[0].edits;
        let all = next.files[0].edits;
        let made = organize_imports::deletion(source, last.0, last.1);
        assert forall|edit: EditView| #[trigger] all.contains(edit) <==> builder.files[0].edits.contains(
            edit,
        ) || deletes_one(source, ranges, edit) by {
            assert(ranges[ranges.len() - 1] == last);
            if edits.contains(edit) {
                let i = choose|i: int| 0 <= i < edits.len() && edits[i] == edit;
                assert(all[i] == edit);
            }
            if made == Some(edit) {
                assert(all[edits.len() as int] == edit);
            }
            if all.contains(edit) {
                let i = choose|i: int| 0 <= i < all.len() && all[i] == edit;
                if i < edits.len() {
                    assert(edits[i] == edit);
                    assert(edits.contains(edit));
                }
            }
            if deletes_one(source, rest, edit) {
                let r = choose|r: int|
                    0 <= r < rest.len() && organize_imports::deletion(
                        source,
                        (#[trigger] rest[r]).0,
                        rest[r].1,
                    ) == Some(edit);
                assert(ranges[r] == rest[r]);
            }
            if deletes_one(source, ranges, edit) {
                let r = choose|r: int|
                    0 <= r < ranges.len() && organize_imports::deletion(
                        source,
                        (#[trigger] ranges[r]).0,
                        ranges[r].1,
                    ) == Some(edit);
                if r < rest.len() {
                    assert(rest[r] == ranges[r]);
                }
            }
        }
    } else {
        assert forall|edit: EditView| !deletes_one(source, ranges, edit) by {}
    }
}

/// Whether an edit is a deletion that goes with one of some statements.
spec fn goes_with_one(
    source: Seq<char>,
    statements: Seq<StatementView>,
    mentioned: MentionsView,
    edit: EditView,
) -> bool {
    exists|s: int|
        0 <= s < statements.len() && deletes_one(
            source,
            ranges_of(source, #[trigger] statements[s], mentioned),
            edit,
        )
}

/// Judging a statement deletes the ranges that go with it.
proof fn lemma_judged(
    before: BuilderView,
    removed: Seq<Seq<char>>,
    source: Seq<char>,
    statement: StatementView,
    mentioned: MentionsView,
)
    ensures
        organize_imports::judged(before, removed, source, statement, mentioned).0
            == organize_imports::all_deleted(
            before,
            source,
            ranges_of(source, statement, mentioned),
        ),
{
    reveal(ranges_of);
    let ranges = ranges_of(source, statement, mentioned);
    let flags = organize_imports::unused_flags(statement.named, mentioned);
    if statement.named.len() > 0 && organize_imports::all_set(flags) {
        if ranges.len() == 1 {
            assert(ranges.drop_last() =~= Seq::<(int, int)>::empty());
            assert(organize_imports::all_deleted(before, source, ranges.drop_last()) == before);
        }
    }
}

/// The deletions that go with one more statement are added to those of the others.
proof fn lemma_one_more_statement(
    source: Seq<char>,
    statements: Seq<StatementView>,
    mentioned: MentionsView,
    edit: EditView,
)
    requires
        statements.len() > 0,
    ensures
        goes_with_one(source, statements, mentioned, edit) <==> goes_with_one(
            source,
            statements.drop_last(),
            mentioned,
            edit,
        ) || deletes_one(source, ranges_of(source, statements.last(), mentioned), edit),
{
    let rest = statements.drop_last();
    assert(statements[statements.len() - 1] == statements.last());
    if goes_with_one(source, rest, mentioned, edit) {
        let s = choose|s: int|
            0 <= s < rest.len() && deletes_one(
                source,
                ranges_of(source, #[trigger] rest[s], mentioned),
                edit,
            );
        assert(statements[s] == rest[s]);
    }
    if goes_with_one(source, statements, mentioned, edit) {
        let s = choose|s: int|
            0 <= s < statements.len() && deletes_one(
                source,
                ranges_of(source, #[trigger] statements[s], mentioned),
                edit,
            );
        if s < rest.len() {
            assert(rest[s] == statements[s]);
        }
    }
}

/// Whether a plan holds the deletions that go with some statements, and those alone.
spec fn holds_deletions(
    builder: BuilderView,
    path: Seq<char>,
    source: Seq<char>,
    statements: Seq<StatementView>,
    mentioned: MentionsView,
) -> bool {
    single(builder, path) && forall|edit: EditView| #[trigger]
        builder.files[0].edits.contains(edit) <==> goes_with_one(
            source,
            statements,
            mentioned,
            edit,
        )
}

/// Deleting what goes with one more statement keeps a plan to what goes with them.
proof fn lemma_one_more_judged(
    before: BuilderView,
    path: Seq<char>,
    source: Seq<char>,
    statements: Seq<StatementView>,
    mentioned: MentionsView,
)
    requires
        statements.len() > 0,
        holds_deletions(before, path, source, statements.drop_last(), mentioned),
    ensures
        holds_deletions(
            organize_imports::all_deleted(
                before,
                source,
                ranges_of(source, statements.last(), mentioned),
            ),
            path,
            source,
            statements,
            mentioned,
        ),
{
    let ranges = ranges_of(source, statements.last(), mentioned);
    let next = organize_imports::all_deleted(before, source, ranges);
    lemma_all_deleted(before, path, source, ranges);
    assert forall|edit: EditView| #[trigger]
        next.files[0].edits.contains(edit) <==> goes_with_one(
            source,
            statements,
            mentioned,
            edit,
        ) by {
        lemma_one_more_statement(source, statements, mentioned, edit);
        assert(before.files[0].edits.contains(edit) <==> goes_with_one(
            source,
            statements.drop_last(),
            mentioned,
            edit,
        ));
    }
}

/// The edits of judged statements are the deletions that go with them.
proof fn lemma_all_judged(
    builder: BuilderView,
    path: Seq<char>,
    source: Seq<char>,
    statements: Seq<StatementView>,
    mentioned: MentionsView,
)
    requires
        single(builder, path),
        builder.files[0].edits.len() == 0,
    ensures
        holds_deletions(
            organize_imports::all_judged(builder, source, statements, mentioned).0,
            path,
            source,
            statements,
            mentioned,
        ),
    decreases statements.len(),
{
    if statements.len() > 0 {
        let rest = statements.drop_last();
        lemma_all_judged(builder, path, source, rest, mentioned);
        let (before, removed) = organize_imports::all_judged(builder, source, rest, mentioned);
        lemma_judged(before, removed, source, statements.last(), mentioned);
        lemma_one_more_judged(before, path, source, statements, mentioned);
    } else {
        assert forall|edit: EditView| !goes_with_one(source, statements, mentioned, edit) by {}
    }
}

/// Whether ranges lie between two offsets.
spec fn ranges_within(ranges: Seq<(int, int)>, from: int, to: int) -> bool {
    forall|r: int| 0 <= r < ranges.len() ==> from <= (#[trigger] ranges[r]).0 && ranges[r].1 <= to
}

/// The runs of unused bindings lie between their ends.
proof fn lemma_runs_within(
    named: Seq<BindingView>,
    unused: Seq<bool>,
    at: int,
    found: Seq<(int, int)>,
    from: int,
    to: int,
)
    requires
        spread_out(named, from, to),
        ranges_within(found, from, to),
        0 <= at,
    ensures
        ranges_within(organize_imports::runs_from(named, unused, at, found), from, to),
    decreases named.len() - at,
{
    if at < named.len() {
        if !unused[at] {
            lemma_runs_within(named, unused, at + 1, found, from, to);
        } else {
            let last = organize_imports::run_end(unused, at);
            if last < at || last >= named.len() {
            } else if last + 1 < named.len() {
                let range = (named[at].start as int, named[last + 1].start as int);
                assert(named[last + 1].start <= named[last + 1].end);
                assert(named[at].start <= named[at].end);
                let next = found.push(range);
                assert(ranges_within(next, from, to)) by {
                    assert forall|r: int| 0 <= r < next.len() implies from <= (
                    #[trigger] next[r]).0 && next[r].1 <= to by {
                        if r < found.len() {
                            assert(next[r] == found[r]);
                        }
                    }
                }
                lemma_runs_within(named, unused, last + 1, next, from, to);
            } else if at > 0 {
                let range = (named[at - 1].end as int, named[last].end as int);
                assert(named[at - 1].start <= named[at - 1].end);
                assert(named[last].start <= named[last].end);
                let next = found.push(range);
                assert(ranges_within(next, from, to)) by {
                    assert forall|r: int| 0 <= r < next.len() implies from <= (
                    #[trigger] next[r]).0 && next[r].1 <= to by {
                        if r < found.len() {
                            assert(next[r] == found[r]);
                        }
                    }
                }
                lemma_runs_within(named, unused, last + 1, next, from, to);
            } else {
                lemma_runs_within(named, unused, last + 1, found, from, to);
            }
        }
    }
}

/// The last comma is one.
proof fn lemma_last_comma(b: Seq<u8>)
    ensures
        organize_imports::last_comma(b) matches Some(at) ==> 0 <= at < b.len() && b[at] == 44,
    decreases b.len(),
{
    if b.len() > 0 && b.last() != 44 {
        lemma_last_comma(b.drop_last());
    }
}

/// Whether nothing but white space stands between an offset and a later one.
pub open spec fn blank_from(source: Seq<char>, from: int, to: int) -> bool {
    text::sliceable(source, from, to) && words::blank(text::slice(source, from, to))
}

/// Whether a range takes from a statement only what may go: white space on its own lines beside it;
/// where a default stands beside the braces, only what is in them and the comma before them; and no
/// byte of a binding that is used.
pub open spec fn takes_only(
    source: Seq<char>,
    tokens: Seq<Token>,
    statement: StatementView,
    from: int,
    to: int,
) -> bool {
    &&& statement.start <= from || blank_from(source, from, statement.start as int)
    &&& to <= statement.end || (statement.braces is Some && to <= (statement.braces->0).1) || (
    blank_from(source, statement.end as int, to - 1) && text::bytes(source)[to - 1] == 10)
    &&& statement.unnamed.len() > 0 ==> statement.braces is Some && to <= (statement.braces->0).1
        && ((statement.braces->0).0 <= from || (statement.start <= from && text::bytes(
        source,
    )[from] == 44))
    &&& forall|b: int|
        0 <= b < statement.named.len() && (imports::named_twice(
            source,
            tokens,
            (#[trigger] statement.named[b]).local,
        ) || imports::named_in_templates(source, tokens, statement.named[b].local)) ==> to
            <= statement.named[b].start || statement.named[b].end <= from
}

/// What goes with a statement takes only what may go.
proof fn lemma_ranges_take_only(
    source: Seq<char>,
    tokens: Seq<Token>,
    statement: StatementView,
    r: int,
)
    requires
        laid_out(statement),
        0 <= r < ranges_of(
            source,
            statement,
            organize_imports::mentions(source, tokens),
        ).len(),
    ensures
        ({
            let range = ranges_of(
                source,
                statement,
                organize_imports::mentions(source, tokens),
            )[r];
            takes_only(source, tokens, statement, range.0, range.1)
        }),
{
    reveal(ranges_of);
    let mentioned = organize_imports::mentions(source, tokens);
    let named = statement.named;
    let flags = organize_imports::unused_flags(named, mentioned);
    let ranges = ranges_of(source, statement, mentioned);
    let range = ranges[r];
    let start = statement.start as int;
    let end = statement.end as int;
    assert forall|b: int| 0 <= b < named.len() implies (#[trigger] flags[b] <==> !(
    imports::named_twice(source, tokens, named[b].local) || imports::named_in_templates(
        source,
        tokens,
        named[b].local,
    ))) by {
        imports::law_unused_is_named_once(source, tokens, named[b].local);
    }
    if named.len() > 0 && organize_imports::all_set(flags) {
        assert forall|b: int|
            0 <= b < named.len() && (imports::named_twice(
                source,
                tokens,
                (#[trigger] named[b]).local,
            ) || imports::named_in_templates(source, tokens, named[b].local)) implies false by {
            assert(flags[b]);
        }
        if statement.unnamed.len() == 0 {
            match (
                organize_imports::clear_before(source, start),
                organize_imports::clear_behind(source, end),
            ) {
                (Some(from), Some(to)) => {
                    text::lemma_find_from(source, "\n"@, end);
                    match text::find_from(source, "\n"@, end) {
                        Some(newline) => {
                            reveal_strlit("\n");
                            assert("\n"@ =~= seq!['\n']);
                            vstd::utf8::is_ascii_chars_encode_utf8("\n"@);
                            assert(text::bytes("\n"@) =~= seq![10u8]);
                            text::lemma_cut(source, newline, newline + 1);
                            assert(text::bytes(source).subrange(newline, newline + 1)[0] == 10u8);
                        },
                        None => {},
                    }
                },
                _ => {},
            }
        } else {
            let (open, close) = statement.braces->0;
            if start <= open <= text::bytes(source).len() {
                lemma_last_comma(text::bytes(source).subrange(start, open as int));
            }
        }
    } else {
        if named.len() == 0 {
            assert(ranges.len() == 0);
        } else {
            let (open, close) = statement.braces->0;
            organize_imports::law_runs_take_the_unused_bindings(named, flags);
            lemma_runs_within(named, flags, 0, Seq::empty(), open as int, close as int);
            assert(open <= range.0 && range.1 <= close);
            assert forall|b: int|
                0 <= b < named.len() && (imports::named_twice(
                    source,
                    tokens,
                    (#[trigger] named[b]).local,
                ) || imports::named_in_templates(source, tokens, named[b].local)) implies range.1
                <= named[b].start || named[b].end <= range.0 by {
                assert(!flags[b]);
                assert(organize_imports::spares(ranges[r], named[b]));
            }
        }
    }
}

/// A deletion of a range stands there.
proof fn lemma_deletion_stands(source: Seq<char>, from: int, to: int)
    requires
        text::bytes(source).len() < u32::MAX,
        organize_imports::deletion(source, from, to) is Some,
    ensures
        fit::stands_at(source, organize_imports::deletion(source, from, to)->0, from, to),
        organize_imports::deletion(source, from, to)->0.after.len() == 0,
{
    let start = coordinates::position(source, from)->0;
    let end = coordinates::position(source, to)->0;
    fit::lemma_position_names(source, from, start.0, start.1);
    fit::lemma_position_names(source, to, end.0, end.1);
}

/// Whether an edit takes from one of some statements only what may go.
pub open spec fn takes_from_one(
    source: Seq<char>,
    tokens: Seq<Token>,
    statements: Seq<StatementView>,
    edit: EditView,
) -> bool {
    edit.after.len() == 0 && exists|s: int, from: int, to: int|
        0 <= s < statements.len() && #[trigger] fit::stands_at(source, edit, from, to)
            && #[trigger] takes_only(source, tokens, statements[s], from, to)
}

/// The answer that plans something carries the plan of the judged statements.
proof fn lemma_planned(
    repository: Repository,
    arguments: JsonView,
    path: Seq<char>,
    source: Seq<char>,
    language: weavatrix_parse::Language,
) -> (built: BuilderView)
    requires
        imports::organized(repository, arguments, path, source, language),
        signature::in_order(signature::code_of(parse::tokens_of(source, language))),
    ensures
        ({
            let tokens = parse::tokens_of(source, language);
            let statements = organize_imports::imports_of(source, tokens);
            let mentioned = organize_imports::mentions(source, tokens);
            let answer = organize_imports::organize_imports_answer(repository, arguments);
            &&& all_laid_out(statements)
            &&& single(built, path)
            &&& forall|edit: EditView| #[trigger]
                built.files[0].edits.contains(edit) <==> goes_with_one(
                    source,
                    statements,
                    mentioned,
                    edit,
                )
            &&& plan_read(answer) matches Some(plan) ==> plan == built.plan()
            &&& answer.text("status"@) == Some("PLANNED"@) && !built.is_empty() ==> plan_read(
                answer,
            ) == Some(built.plan())
        }),
{
    broadcast use json::lemma_with_get;

    reveal(organize_imports::organize_imports_answer);
    fit::lemma_plan_key();
    let answer = organize_imports::organize_imports_answer(repository, arguments);
    let tokens = parse::tokens_of(source, language);
    let code = signature::code_of(tokens);
    let statements = organize_imports::imports_of(source, tokens);
    let mentioned = organize_imports::mentions(source, tokens);
    let opened = BuilderView::start("organize_imports"@).file(path, plan::sha256_hex(source));
    lemma_statements(source, code, 0, Seq::empty());
    assert(single(opened, path));
    lemma_all_judged(opened, path, source, statements, mentioned);
    let built = organize_imports::all_judged(opened, source, statements, mentioned).0;
    organize_imports::law_the_plan_reads_back(path, source, statements, mentioned);
    if built.is_empty() {
        crate::envelope::lemma_empty_plan_is_refused(built);
    }
    reveal_strlit("PLANNED");
    reveal_strlit("NO_UNUSED_IMPORTS");
    assert("PLANNED"@.len() == 7 && "NO_UNUSED_IMPORTS"@.len() == 17);
    built
}

/// Organizing imports takes nothing that is used: every edit of its plan is a deletion in that
/// file, from one import statement, of white space around it or of what may go of it, and touches
/// no binding whose name stands anywhere else in the file. A default or namespace import stays.
pub proof fn law_organizing_takes_nothing_that_is_used(
    repository: Repository,
    arguments: JsonView,
    path: Seq<char>,
    source: Seq<char>,
    language: weavatrix_parse::Language,
    file: Seq<char>,
    edit: EditView,
)
    requires
        imports::organized(repository, arguments, path, source, language),
        signature::in_order(signature::code_of(parse::tokens_of(source, language))),
        plan_read(organize_imports::organize_imports_answer(repository, arguments)) matches Some(
            plan,
        ) && rename_plan::files_hold(plan.files, file, edit),
    ensures
        file == path,
        takes_from_one(
            source,
            parse::tokens_of(source, language),
            organize_imports::imports_of(source, parse::tokens_of(source, language)),
            edit,
        ),
{
    let tokens = parse::tokens_of(source, language);
    let statements = organize_imports::imports_of(source, tokens);
    let mentioned = organize_imports::mentions(source, tokens);
    let built = lemma_planned(repository, arguments, path, source, language);
    plans::lemma_unfinished(built, file, edit);
    assert(built.files[0].edits.contains(edit));
    assert(goes_with_one(source, statements, mentioned, edit));
    let s = choose|s: int|
        0 <= s < statements.len() && deletes_one(
            source,
            ranges_of(source, #[trigger] statements[s], mentioned),
            edit,
        );
    let ranges = ranges_of(source, statements[s], mentioned);
    let r = choose|r: int|
        0 <= r < ranges.len() && organize_imports::deletion(
            source,
            (#[trigger] ranges[r]).0,
            ranges[r].1,
        ) == Some(edit);
    assert(laid_out(statements[s]));
    fit::lemma_source_bound(repository.sources@, path);
    lemma_ranges_take_only(source, tokens, statements[s], r);
    lemma_deletion_stands(source, ranges[r].0, ranges[r].1);
    assert(takes_only(source, tokens, statements[s], ranges[r].0, ranges[r].1));
}

/// Whether an offset stands between characters and has a position.
pub open spec fn positioned(source: Seq<char>, offset: int) -> bool {
    text::sliceable(source, offset, offset) && edit_symbol::plan_position(source, offset) is Some
}

/// Whether every offset of a statement stands between characters, and every offset that does has a
/// position.
pub open spec fn expressible(source: Seq<char>, statement: StatementView) -> bool {
    &&& forall|offset: int| #[trigger]
        text::sliceable(source, offset, offset) ==> positioned(source, offset)
    &&& text::sliceable(source, statement.start as int, statement.start as int)
    &&& text::sliceable(source, statement.end as int, statement.end as int)
    &&& statement.braces matches Some((open, close)) ==> text::sliceable(
        source,
        open as int,
        open as int,
    ) && text::sliceable(source, close as int, close as int)
    &&& forall|b: int|
        0 <= b < statement.named.len() ==> text::sliceable(
            source,
            (#[trigger] statement.named[b]).start as int,
            statement.named[b].start as int,
        ) && text::sliceable(
            source,
            statement.named[b].end as int,
            statement.named[b].end as int,
        )
}

/// Whether both ends of ranges stand between characters.
spec fn ends_between(source: Seq<char>, ranges: Seq<(int, int)>) -> bool {
    forall|r: int|
        0 <= r < ranges.len() ==> text::sliceable(
            source,
            (#[trigger] ranges[r]).0,
            ranges[r].0,
        ) && text::sliceable(source, ranges[r].1, ranges[r].1)
}

/// The runs of unused bindings end where bindings do.
proof fn lemma_runs_between(
    source: Seq<char>,
    statement: StatementView,
    unused: Seq<bool>,
    at: int,
    found: Seq<(int, int)>,
)
    requires
        expressible(source, statement),
        ends_between(source, found),
        0 <= at,
    ensures
        ends_between(
            source,
            organize_imports::runs_from(statement.named, unused, at, found),
        ),
    decreases statement.named.len() - at,
{
    let named = statement.named;
    if at < named.len() {
        if !unused[at] {
            lemma_runs_between(source, statement, unused, at + 1, found);
        } else {
            let last = organize_imports::run_end(unused, at);
            if last < at || last >= named.len() {
            } else if last + 1 < named.len() {
                let range = (named[at].start as int, named[last + 1].start as int);
                let next = found.push(range);
                assert(ends_between(source, next)) by {
                    assert forall|r: int| 0 <= r < next.len() implies text::sliceable(
                        source,
                        (#[trigger] next[r]).0,
                        next[r].0,
                    ) && text::sliceable(source, next[r].1, next[r].1) by {
                        if r < found.len() {
                            assert(next[r] == found[r]);
                        }
                    }
                }
                lemma_runs_between(source, statement, unused, last + 1, next);
            } else if at > 0 {
                let range = (named[at - 1].end as int, named[last].end as int);
                let next = found.push(range);
                assert(ends_between(source, next)) by {
                    assert forall|r: int| 0 <= r < next.len() implies text::sliceable(
                        source,
                        (#[trigger] next[r]).0,
                        next[r].0,
                    ) && text::sliceable(source, next[r].1, next[r].1) by {
                        if r < found.len() {
                            assert(next[r] == found[r]);
                        }
                    }
                }
                lemma_runs_between(source, statement, unused, last + 1, next);
            } else {
                lemma_runs_between(source, statement, unused, last + 1, found);
            }
        }
    }
}

/// What goes with a statement takes each of its unused bindings whole.
proof fn lemma_ranges_take(
    source: Seq<char>,
    tokens: Seq<Token>,
    statement: StatementView,
    b: int,
) -> (r: int)
    requires
        laid_out(statement),
        expressible(source, statement),
        0 <= b < statement.named.len(),
        statement.named[b].end <= statement.end,
        !imports::named_twice(source, tokens, statement.named[b].local),
        !imports::named_in_templates(source, tokens, statement.named[b].local),
    ensures
        ({
            let ranges = ranges_of(
                source,
                statement,
                organize_imports::mentions(source, tokens),
            );
            &&& 0 <= r < ranges.len()
            &&& ranges[r].0 <= statement.named[b].start
            &&& statement.named[b].end <= ranges[r].1
            &&& organize_imports::deletion(source, ranges[r].0, ranges[r].1) is Some
        }),
{
    reveal(ranges_of);
    let mentioned = organize_imports::mentions(source, tokens);
    let named = statement.named;
    let flags = organize_imports::unused_flags(named, mentioned);
    let ranges = ranges_of(source, statement, mentioned);
    let start = statement.start as int;
    let end = statement.end as int;
    let (open, close) = statement.braces->0;
    imports::law_unused_is_named_once(source, tokens, named[b].local);
    assert(flags[b]);
    assert(open <= named[b].start && named[b].start <= named[b].end && named[b].end <= close);
    if organize_imports::all_set(flags) {
        let range = ranges[0];
        if statement.unnamed.len() == 0 {
            match (
                organize_imports::clear_before(source, start),
                organize_imports::clear_behind(source, end),
            ) {
                (Some(from), Some(to)) => {
                    coordinates::lemma_newlines(text::bytes(source).subrange(0, start));
                    text::lemma_find_from(source, "\n"@, end);
                    match text::find_from(source, "\n"@, end) {
                        Some(newline) => {
                            reveal_strlit("\n");
                            assert("\n"@ =~= seq!['\n']);
                            vstd::utf8::is_ascii_chars_encode_utf8("\n"@);
                            assert(text::bytes("\n"@) =~= seq![10u8]);
                        },
                        None => {},
                    }
                    assert(text::sliceable(source, from, from));
                    assert(text::sliceable(source, to, to));
                },
                _ => {},
            }
        } else {
            lemma_last_comma(text::bytes(source).subrange(start, open as int));
            if range.0 != open {
                text::lemma_ascii_at(source, range.0);
            }
        }
        assert(text::sliceable(source, range.0, range.0));
        assert(text::sliceable(source, range.1, range.1));
        assert(positioned(source, range.0) && positioned(source, range.1));
        0
    } else {
        organize_imports::law_runs_take_the_unused_bindings(named, flags);
        lemma_runs_between(source, statement, flags, 0, Seq::empty());
        assert(organize_imports::taken(ranges, named[b]));
        let r = choose|r: int|
            0 <= r < ranges.len() && organize_imports::takes(#[trigger] ranges[r], named[b]);
        assert(positioned(source, ranges[r].0) && positioned(source, ranges[r].1));
        r
    }
}

/// Whether files hold a deletion that takes a binding whole.
pub open spec fn deletes_binding(
    files: Seq<plan::FileView>,
    path: Seq<char>,
    source: Seq<char>,
    binding: BindingView,
) -> bool {
    exists|edit: EditView, from: int, to: int|
        rename_plan::files_hold(files, path, edit) && edit.after.len() == 0
            && #[trigger] fit::stands_at(source, edit, from, to) && from <= binding.start
            && binding.end <= to
}

/// Organizing imports takes every unused binding: where its name stands nowhere else in the file,
/// and positions can be expressed, the plan deletes it whole.
pub proof fn law_organizing_takes_every_unused_binding(
    repository: Repository,
    arguments: JsonView,
    path: Seq<char>,
    source: Seq<char>,
    language: weavatrix_parse::Language,
    s: int,
    b: int,
)
    requires
        imports::organized(repository, arguments, path, source, language),
        signature::in_order(signature::code_of(parse::tokens_of(source, language))),
        0 <= s < organize_imports::imports_of(source, parse::tokens_of(source, language)).len(),
        ({
            let tokens = parse::tokens_of(source, language);
            let statement = organize_imports::imports_of(source, tokens)[s];
            &&& expressible(source, statement)
            &&& 0 <= b < statement.named.len()
            &&& statement.named[b].end <= statement.end
            &&& !imports::named_twice(source, tokens, statement.named[b].local)
            &&& !imports::named_in_templates(source, tokens, statement.named[b].local)
        }),
    ensures
        ({
            let tokens = parse::tokens_of(source, language);
            let statement = organize_imports::imports_of(source, tokens)[s];
            plan_read(organize_imports::organize_imports_answer(repository, arguments)) matches Some(
                plan,
            ) && deletes_binding(plan.files, path, source, statement.named[b])
        }),
{
    let answer = organize_imports::organize_imports_answer(repository, arguments);
    let tokens = parse::tokens_of(source, language);
    let statements = organize_imports::imports_of(source, tokens);
    let statement = statements[s];
    let mentioned = organize_imports::mentions(source, tokens);
    let built = lemma_planned(repository, arguments, path, source, language);
    assert(laid_out(statements[s]));
    let r = lemma_ranges_take(source, tokens, statement, b);
    let range = ranges_of(source, statement, mentioned)[r];
    let edit = organize_imports::deletion(source, range.0, range.1)->0;
    assert(deletes_one(source, ranges_of(source, statements[s], mentioned), edit));
    assert(goes_with_one(source, statements, mentioned, edit));
    assert(built.files[0].edits.contains(edit));
    assert(rename_plan::files_hold(built.files, path, edit));
    plans::lemma_finished(built, path, edit);
    let name = statement.named[b].local;
    assert(imports::binds(statements[s], name));
    imports::law_a_binding_goes_exactly_where_its_name_stands_once(
        repository,
        arguments,
        path,
        source,
        language,
        name,
    );
    let plan = plan_read(answer)->0;
    fit::lemma_source_bound(repository.sources@, path);
    lemma_deletion_stands(source, range.0, range.1);
    assert(rename_plan::files_hold(plan.files, path, edit));
    assert(fit::stands_at(source, edit, range.0, range.1));
}

} // verus!
