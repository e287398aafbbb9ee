//! What a change of signature promises: the parameter asked for, and no other, and the argument at
//! its place at every call that the graph proves.

use crate::coordinates;
use crate::envelope;
use crate::evidence;
use crate::fit;
use crate::graph::{Node, Repository};
use crate::json;
use crate::json::JsonView;
use crate::operations::change_signature;
use crate::operations::change_signature::{CallsView, ChangeView, DeclaredView, PlannedView};
use crate::operations::edit_symbol;
use crate::operations::references;
use crate::operations::rename_plan;
use crate::operations::signature;
use crate::operations::signature::{ItemView, ListView};
use crate::order;
use crate::parse;
use crate::parse::Token;
use crate::plan;
use crate::plan::{BuilderView, EditView, PlanView};
use crate::promises::plans;
use crate::promises::rename;
use crate::resolve;
use crate::text;
use crate::words;
use vstd::prelude::*;
use vstd::string::*;

verus! {

/// Whether a range takes one item of a list whole, and no byte of another.
pub open spec fn takes_item(items: Seq<ItemView>, index: int, from: int, to: int) -> bool {
    &&& 0 <= index < items.len()
    &&& from <= items[index].start
    &&& items[index].end <= to
    &&& forall|other: int|
        0 <= other < items.len() && other != index ==> (#[trigger] items[other]).end <= from || to
            <= items[other].start
}

/// Whether an edit deletes one item of a list whole, and no byte of another.
pub open spec fn deletes_item(
    source: Seq<char>,
    items: Seq<ItemView>,
    index: int,
    edit: EditView,
) -> bool {
    &&& edit.after.len() == 0
    &&& exists|from: int, to: int|
        #[trigger] fit::stands_at(source, edit, from, to) && takes_item(items, index, from, to)
}

/// Whether files hold the deletion of one item of a list.
pub open spec fn holds_deletion(
    files: Seq<plan::FileView>,
    path: Seq<char>,
    source: Seq<char>,
    items: Seq<ItemView>,
    index: int,
) -> bool {
    exists|edit: EditView| #[trigger]
        rename_plan::files_hold(files, path, edit) && deletes_item(source, items, index, edit)
}

/// Where a token stands among those that carry program meaning.
pub open spec fn place_in_code(tokens: Seq<Token>, at: int) -> int {
    signature::code_of(tokens.take(at)).len() as int
}

/// Whether a token carries program meaning.
pub open spec fn carries_meaning(token: Token) -> bool {
    token.kind is Identifier || token.kind is String || token.kind is Interpolation
        || token.kind is Regex || token.kind is Other
}

/// The tokens that carry program meaning are all there, in their order.
pub proof fn law_code_leaves_out_nothing_meant(tokens: Seq<Token>, at: int)
    requires
        0 <= at < tokens.len(),
        carries_meaning(tokens[at]),
    ensures
        0 <= place_in_code(tokens, at) < signature::code_of(tokens).len(),
        signature::code_of(tokens)[place_in_code(tokens, at)] == tokens[at],
        forall|earlier: int|
            0 <= earlier < at && carries_meaning(#[trigger] tokens[earlier]) ==> place_in_code(
                tokens,
                earlier,
            ) < place_in_code(tokens, at),
    decreases tokens.len(),
{
    let rest = tokens.drop_last();
    let code = signature::code_of(tokens);
    if at < rest.len() {
        law_code_leaves_out_nothing_meant(rest, at);
        assert(rest.take(at) =~= tokens.take(at));
        assert(code[place_in_code(tokens, at)] == signature::code_of(rest)[place_in_code(
            rest,
            at,
        )]);
        assert forall|earlier: int|
            0 <= earlier < at && carries_meaning(#[trigger] tokens[earlier]) implies place_in_code(
            tokens,
            earlier,
        ) < place_in_code(tokens, at) by {
            assert(rest[earlier] == tokens[earlier]);
            assert(rest.take(earlier) =~= tokens.take(earlier));
        }
    } else {
        assert(tokens.take(at) =~= rest);
        assert forall|earlier: int|
            0 <= earlier < at && carries_meaning(#[trigger] tokens[earlier]) implies place_in_code(
            tokens,
            earlier,
        ) < place_in_code(tokens, at) by {
            assert(rest[earlier] == tokens[earlier]);
            law_code_leaves_out_nothing_meant(rest, earlier);
            assert(rest.take(earlier) =~= tokens.take(earlier));
        }
    }
}

/// Whether a place that names the symbol is settled: it is listed as one that could not be, or its
/// argument at the index is deleted and listed, or it passes none there.
pub open spec fn answered(
    planned: PlannedView,
    path: Seq<char>,
    source: Seq<char>,
    code: Seq<Token>,
    index: int,
    at: int,
) -> bool {
    let line = code[at].line;
    ||| change_signature::is_listed(planned.uncertain, path, line)
    ||| (change_signature::list_behind(source, code, at) matches Some(list)
        && !change_signature::spreads(list.items) && (index >= list.items.len() || (
    planned.call_sites.contains(
        change_signature::edited_call(path, line, words::trimmed(list.items[index].text)),
    ) && holds_deletion(planned.builder.files, path, source, list.items, index))))
}

/// Whether nothing that is listed or planned is lost.
pub open spec fn grows(planned: PlannedView, next: PlannedView) -> bool {
    &&& change_signature::keeps(planned, next)
    &&& plans::keeps_edits(planned.builder.files, next.builder.files)
}

/// What was settled stays settled where nothing is lost.
proof fn lemma_answered_kept(
    planned: PlannedView,
    next: PlannedView,
    path: Seq<char>,
    source: Seq<char>,
    code: Seq<Token>,
    index: int,
    at: int,
)
    requires
        grows(planned, next),
        answered(planned, path, source, code, index, at),
    ensures
        answered(next, path, source, code, index, at),
{
    let line = code[at].line;
    if change_signature::is_listed(planned.uncertain, path, line) {
        let (kind, reason) = choose|kind: Seq<char>, reason: Seq<char>|
            planned.uncertain.contains(
                #[trigger] change_signature::unsettled(path, line, kind, reason),
            );
        assert(next.uncertain.contains(change_signature::unsettled(path, line, kind, reason)));
    } else {
        let items = change_signature::list_behind(source, code, at)->0.items;
        if index < items.len() {
            let edit = choose|edit: EditView| #[trigger]
                rename_plan::files_hold(planned.builder.files, path, edit) && deletes_item(
                    source,
                    items,
                    index,
                    edit,
                );
            assert(rename_plan::files_hold(next.builder.files, path, edit));
            assert(next.call_sites.contains(
                change_signature::edited_call(path, line, words::trimmed(items[index].text)),
            ));
        }
    }
}

/// A replacement of a range stands there.
pub proof fn lemma_replacement_stands(source: Seq<char>, range: (int, int), after: Seq<char>)
    requires
        text::bytes(source).len() < u32::MAX,
        change_signature::replacement(source, range, after) is Some,
    ensures
        fit::stands_at(
            source,
            change_signature::replacement(source, range, after)->0,
            range.0,
            range.1,
        ),
        change_signature::replacement(source, range, after)->0.after == after,
{
    let start = coordinates::position(source, range.0)->0;
    let end = coordinates::position(source, range.1)->0;
    fit::lemma_position_names(source, range.0, start.0, start.1);
    fit::lemma_position_names(source, range.1, end.0, end.1);
}

/// One more value in a list loses none.
pub proof fn lemma_more(list: Seq<JsonView>, value: JsonView)
    ensures
        list.push(value).contains(value),
        forall|other: JsonView| list.contains(other) ==> #[trigger] list.push(value).contains(other),
{
    assert(list.push(value)[list.len() as int] == value);
    assert forall|other: JsonView| list.contains(other) implies #[trigger] list.push(
        value,
    ).contains(other) by {
        let i = choose|i: int| 0 <= i < list.len() && list[i] == other;
        assert(list.push(value)[i] == other);
    }
}

/// Looking at one place settles it, and loses nothing.
proof fn lemma_call_answered(
    state: CallsView,
    path: Seq<char>,
    source: Seq<char>,
    code: Seq<Token>,
    name: Seq<char>,
    index: int,
    at: int,
)
    requires
        index >= 0,
        text::bytes(source).len() < u32::MAX,
        signature::in_order(code),
    ensures
        ({
            let next = change_signature::with_call(state, path, source, code, name, index, at);
            &&& grows(state.planned, next.planned)
            &&& answered(next.planned, path, source, code, index, at)
        }),
{
    let next = change_signature::with_call(state, path, source, code, name, index, at);
    let line = code[at].line;
    if next.planned.uncertain.len() > state.planned.uncertain.len() {
        let value = next.planned.uncertain.last();
        lemma_more(state.planned.uncertain, value);
        assert(next.planned.uncertain.contains(value));
        assert(change_signature::is_listed(next.planned.uncertain, path, line));
    } else {
        let list = change_signature::list_behind(source, code, at)->0;
        let opening = change_signature::opening_of(source, code, at);
        signature::law_items_are_laid_out(source, code, opening);
        if index < list.items.len() {
            signature::law_removal_takes_one_item(list.items, index, list.open, list.close);
            let range = signature::removal_of(list.items, index)->0;
            let edit = change_signature::replacement(source, range, Seq::empty())->0;
            lemma_replacement_stands(source, range, Seq::empty());
            assert(takes_item(list.items, index, range.0, range.1));
            assert(deletes_item(source, list.items, index, edit));
            plans::lemma_edit_added(
                state.planned.builder,
                path,
                plan::sha256_hex(source),
                edit,
            );
            assert(rename_plan::files_hold(next.planned.builder.files, path, edit));
            lemma_more(state.planned.call_sites, next.planned.call_sites.last());
        }
    }
}

/// Looking at places settles each of them, and loses nothing.
pub proof fn lemma_calls_answered(
    state: CallsView,
    path: Seq<char>,
    source: Seq<char>,
    code: Seq<Token>,
    name: Seq<char>,
    index: int,
    calls: Seq<int>,
)
    requires
        index >= 0,
        text::bytes(source).len() < u32::MAX,
    ensures
        ({
            let next = change_signature::with_calls(state, path, source, code, name, index, calls);
            &&& grows(state.planned, next.planned)
            &&& signature::in_order(code) ==> forall|k: int|
                0 <= k < calls.len() ==> answered(
                    next.planned,
                    path,
                    source,
                    code,
                    index,
                    #[trigger] calls[k],
                )
        }),
    decreases calls.len(),
{
    if calls.len() > 0 {
        let rest = calls.drop_last();
        let before = change_signature::with_calls(state, path, source, code, name, index, rest);
        let next = change_signature::with_calls(state, path, source, code, name, index, calls);
        lemma_calls_answered(state, path, source, code, name, index, rest);
        lemma_call_grows(before, path, source, code, name, index, calls.last());
        if signature::in_order(code) {
            lemma_call_answered(before, path, source, code, name, index, calls.last());
            assert forall|k: int| 0 <= k < calls.len() implies answered(
                next.planned,
                path,
                source,
                code,
                index,
                #[trigger] calls[k],
            ) by {
                if k < rest.len() {
                    assert(rest[k] == calls[k]);
                    lemma_answered_kept(
                        before.planned,
                        next.planned,
                        path,
                        source,
                        code,
                        index,
                        calls[k],
                    );
                }
            }
        }
    }
}

/// Looking at one place loses nothing.
pub proof fn lemma_call_grows(
    state: CallsView,
    path: Seq<char>,
    source: Seq<char>,
    code: Seq<Token>,
    name: Seq<char>,
    index: int,
    at: int,
)
    requires
        index >= 0,
    ensures
        grows(
            state.planned,
            change_signature::with_call(state, path, source, code, name, index, at).planned,
        ),
{
    let next = change_signature::with_call(state, path, source, code, name, index, at);
    if next.planned.uncertain.len() > state.planned.uncertain.len() {
        lemma_more(state.planned.uncertain, next.planned.uncertain.last());
    } else if next.planned.call_sites.len() > state.planned.call_sites.len() {
        let list = change_signature::list_behind(source, code, at)->0;
        let range = signature::removal_of(list.items, index)->0;
        let edit = change_signature::replacement(source, range, Seq::empty())->0;
        plans::lemma_edit_added(state.planned.builder, path, plan::sha256_hex(source), edit);
        lemma_more(state.planned.call_sites, next.planned.call_sites.last());
    }
}

/// What the lines of a file come to loses nothing.
pub proof fn lemma_file_grows(
    repository: Repository,
    id: Seq<char>,
    planned: PlannedView,
    name: Seq<char>,
    index: int,
    declared: DeclaredView,
    path: Seq<char>,
    lines: Seq<u32>,
)
    requires
        index >= 0,
    ensures
        grows(
            planned,
            change_signature::file_edited(
                repository,
                id,
                planned,
                name,
                index,
                declared,
                path,
                lines,
            ),
        ),
{
    let next = change_signature::file_edited(
        repository,
        id,
        planned,
        name,
        index,
        declared,
        path,
        lines,
    );
    match change_signature::opened(repository, path) {
        None => {
            lemma_more(planned.uncertain, next.uncertain.last());
        },
        Some((source, code)) => {
            fit::lemma_source_bound(repository.sources@, path);
            let (start, calls) = change_signature::file_calls(
                planned,
                name,
                declared,
                path,
                source,
                code,
                lines,
            );
            lemma_calls_answered(start, path, source, code, name, index, calls);
            let edited = change_signature::with_calls(
                start,
                path,
                source,
                code,
                name,
                index,
                calls,
            ).planned;
            let reports = change_signature::line_reports(
                repository,
                id,
                path,
                source,
                code,
                name,
                lines,
            );
            lemma_joined(edited, reports);
        },
    }
}

/// More that is listed loses nothing.
pub proof fn lemma_joined(planned: PlannedView, reports: Seq<JsonView>)
    ensures
        grows(planned, (PlannedView { uncertain: planned.uncertain + reports, ..planned })),
{
    let all = planned.uncertain + reports;
    assert forall|value: JsonView| planned.uncertain.contains(value) implies #[trigger] all.contains(
        value,
    ) by {
        let i = choose|i: int| 0 <= i < planned.uncertain.len() && planned.uncertain[i] == value;
        assert(all[i] == value);
    }
}

/// The edits of all the calls lose nothing.
proof fn lemma_edited_grows(
    repository: Repository,
    id: Seq<char>,
    planned: PlannedView,
    name: Seq<char>,
    index: int,
    declared: DeclaredView,
    files: Seq<(Seq<char>, Seq<u32>)>,
)
    requires
        index >= 0,
    ensures
        grows(
            planned,
            change_signature::calls_edited(
                repository,
                id,
                planned,
                name,
                index,
                declared,
                files,
            ),
        ),
    decreases files.len(),
{
    if files.len() > 0 {
        let rest = files.drop_last();
        lemma_edited_grows(repository, id, planned, name, index, declared, rest);
        let before = change_signature::calls_edited(
            repository,
            id,
            planned,
            name,
            index,
            declared,
            rest,
        );
        lemma_file_grows(
            repository,
            id,
            before,
            name,
            index,
            declared,
            files.last().0,
            files.last().1,
        );
    }
}

/// Every place on a line that was collected is settled, but for the name of the declaration.
proof fn lemma_edited_answered(
    repository: Repository,
    id: Seq<char>,
    planned: PlannedView,
    name: Seq<char>,
    index: int,
    declared: DeclaredView,
    files: Seq<(Seq<char>, Seq<u32>)>,
    file: int,
    source: Seq<char>,
    code: Seq<Token>,
    at: int,
)
    requires
        index >= 0,
        0 <= file < files.len(),
        change_signature::opened(repository, files[file].0) == Some((source, code)),
        0 <= at < code.len(),
        code[at].kind is Identifier,
        parse::token_text(source, code[at]) == name,
        files[file].1.contains(code[at].line),
        !(files[file].0 == declared.path && at == declared.at),
        signature::in_order(code),
    ensures
        answered(
            change_signature::calls_edited(
                repository,
                id,
                planned,
                name,
                index,
                declared,
                files,
            ),
            files[file].0,
            source,
            code,
            index,
            at,
        ),
    decreases files.len(),
{
    let rest = files.drop_last();
    let before = change_signature::calls_edited(
        repository,
        id,
        planned,
        name,
        index,
        declared,
        rest,
    );
    let next = change_signature::calls_edited(
        repository,
        id,
        planned,
        name,
        index,
        declared,
        files,
    );
    let (path, lines) = files.last();
    if file < rest.len() {
        assert(rest[file] == files[file]);
        lemma_edited_answered(
            repository,
            id,
            planned,
            name,
            index,
            declared,
            rest,
            file,
            source,
            code,
            at,
        );
        lemma_file_grows(repository, id, before, name, index, declared, path, lines);
        lemma_answered_kept(before, next, files[file].0, source, code, index, at);
    } else {
        fit::lemma_source_bound(repository.sources@, path);
        let (start, calls) = change_signature::file_calls(
            before,
            name,
            declared,
            path,
            source,
            code,
            lines,
        );
        let own = if path == declared.path {
            declared.at
        } else {
            -1
        };
        lemma_place_gone_through(source, code, name, lines, own, code.len() as int, at);
        lemma_calls_answered(start, path, source, code, name, index, calls);
        let edited = change_signature::with_calls(
            start,
            path,
            source,
            code,
            name,
            index,
            calls,
        ).planned;
        let k = choose|k: int| 0 <= k < calls.len() && calls[k] == at;
        assert(answered(edited, path, source, code, index, calls[k]));
        lemma_joined(
            edited,
            change_signature::line_reports(repository, id, path, source, code, name, lines),
        );
        lemma_answered_kept(edited, next, path, source, code, index, at);
    }
}

/// A place that names the symbol on one of the lines is gone through.
pub proof fn lemma_place_gone_through(
    source: Seq<char>,
    code: Seq<Token>,
    name: Seq<char>,
    lines: Seq<u32>,
    declared: int,
    count: int,
    at: int,
)
    requires
        0 <= at < count,
        code[at].kind is Identifier,
        parse::token_text(source, code[at]) == name,
        lines.contains(code[at].line),
        at != declared,
    ensures
        change_signature::calls_on(source, code, name, lines, declared, count).contains(at),
    decreases count,
{
    let calls = change_signature::calls_on(source, code, name, lines, declared, count);
    if at == count - 1 {
        assert(calls.last() == at);
    } else {
        lemma_place_gone_through(source, code, name, lines, declared, count - 1, at);
        let before = change_signature::calls_on(source, code, name, lines, declared, count - 1);
        let i = choose|i: int| 0 <= i < before.len() && before[i] == at;
        assert(calls[i] == at);
    }
}

/// The plan that an answer carries, where it carries one that the applier reads.
pub open spec fn plan_read(answer: JsonView) -> Option<PlanView> {
    match answer.get("plan"@) {
        Some(value) => match envelope::plan_of(value) {
            Ok(plan) => Some(plan),
            Err(_) => None,
        },
        None => None,
    }
}

/// Whether an entry is about a line of a file.
pub open spec fn about(entry: JsonView, path: Seq<char>, line: u32) -> bool {
    entry.text("file"@) == Some(path) && entry.number("line"@) == Some(line as nat)
}

/// Whether a list of an answer has an entry about a line of a file.
pub open spec fn lists(answer: JsonView, key: Seq<char>, path: Seq<char>, line: u32) -> bool {
    answer.list(key) matches Some(entries) && exists|i: int|
        0 <= i < entries.len() && about(#[trigger] entries[i], path, line)
}

/// Whether an answer lists a call as one that lost an argument.
pub open spec fn lists_removed(
    answer: JsonView,
    path: Seq<char>,
    line: u32,
    removed: Seq<char>,
) -> bool {
    answer.list("callSites"@) matches Some(entries) && exists|i: int|
        0 <= i < entries.len() && about(#[trigger] entries[i], path, line) && entries[i].text(
            "removed"@,
        ) == Some(removed)
}

/// Whether a call is left as it has to be once a parameter is gone: it is listed among those that
/// could not be settled, or it passes no argument at the index, or exactly that argument is deleted
/// and listed.
pub open spec fn call_settled(
    answer: JsonView,
    path: Seq<char>,
    source: Seq<char>,
    code: Seq<Token>,
    at: int,
    index: int,
) -> bool {
    let line = code[at].line;
    ||| lists(answer, "uncertain"@, path, line)
    ||| (change_signature::list_behind(source, code, at) matches Some(list) && (forall|i: int|
        0 <= i < list.items.len() ==> !(#[trigger] list.items[i]).spread) && (index
        >= list.items.len() || (lists_removed(
        answer,
        path,
        line,
        words::trimmed(list.items[index].text),
    ) && (plan_read(answer) matches Some(plan) && holds_deletion(
        plan.files,
        path,
        source,
        list.items,
        index,
    )))))
}

/// Whether a token is the first on a line that has a name.
pub open spec fn first_named(
    source: Seq<char>,
    tokens: Seq<Token>,
    name: Seq<char>,
    line: u32,
    at: int,
) -> bool {
    &&& 0 <= at < tokens.len()
    &&& tokens[at].kind is Identifier
    &&& tokens[at].line == line
    &&& parse::token_text(source, tokens[at]) == name
    &&& forall|k: int|
        0 <= k < at ==> !((#[trigger] tokens[k]).kind is Identifier && tokens[k].line == line
            && parse::token_text(source, tokens[k]) == name)
}

/// The name that is found on a line is the first there.
pub proof fn lemma_first_named(
    source: Seq<char>,
    code: Seq<Token>,
    name: Seq<char>,
    line: u32,
    at: int,
)
    ensures
        first_named(source, code, name, line, at) <==> change_signature::identifier_from(
            source,
            code,
            name,
            line,
            0,
        ) == Some(at),
{
    lemma_first_named_from(source, code, name, line, 0);
}

/// The name that is found from a token on is the first from there.
proof fn lemma_first_named_from(
    source: Seq<char>,
    code: Seq<Token>,
    name: Seq<char>,
    line: u32,
    from: int,
)
    requires
        0 <= from,
    ensures
        change_signature::identifier_from(source, code, name, line, from) matches Some(at) ==> from
            <= at < code.len() && code[at].kind is Identifier && code[at].line == line
            && parse::token_text(source, code[at]) == name && forall|k: int|
            from <= k < at ==> !((#[trigger] code[k]).kind is Identifier && code[k].line == line
                && parse::token_text(source, code[k]) == name),
        change_signature::identifier_from(source, code, name, line, from) is None ==> forall|k: int|
            from <= k < code.len() ==> !((#[trigger] code[k]).kind is Identifier && code[k].line
                == line && parse::token_text(source, code[k]) == name),
    decreases code.len() - from,
{
    if from < code.len() && !(code[from].line == line && code[from].kind is Identifier
        && parse::token_text(source, code[from]) == name) {
        lemma_first_named_from(source, code, name, line, from + 1);
    }
}

/// The keys of an answer that are asked for are no others.
pub proof fn lemma_keys_apart()
    ensures
        "status"@ != "uncertain"@ && "completeness"@ != "uncertain"@ && "backend"@ != "uncertain"@
            && "symbol"@ != "uncertain"@ && "declaration"@ != "uncertain"@ && "callSites"@
            != "uncertain"@,
        "status"@ != "callSites"@ && "completeness"@ != "callSites"@ && "backend"@ != "callSites"@
            && "symbol"@ != "callSites"@ && "declaration"@ != "callSites"@,
        "status"@ != "plan"@ && "completeness"@ != "plan"@ && "backend"@ != "plan"@ && "symbol"@
            != "plan"@ && "declaration"@ != "plan"@ && "callSites"@ != "plan"@ && "uncertain"@
            != "plan"@ && "reason"@ != "plan"@,
        "file"@ != "line"@ && "file"@ != "removed"@ && "line"@ != "removed"@ && "file"@ != "kind"@
            && "line"@ != "kind"@,
{
    reveal_strlit("status");
    reveal_strlit("completeness");
    reveal_strlit("backend");
    reveal_strlit("symbol");
    reveal_strlit("declaration");
    reveal_strlit("callSites");
    reveal_strlit("uncertain");
    reveal_strlit("plan");
    reveal_strlit("reason");
    reveal_strlit("file");
    reveal_strlit("line");
    reveal_strlit("removed");
    reveal_strlit("kind");
    assert("callSites"@[0] == 'c' && "uncertain"@[0] == 'u');
    assert("file"@[0] == 'f' && "line"@[0] == 'l' && "kind"@[0] == 'k');
    assert("plan"@.len() == 4 && "status"@.len() == 6 && "completeness"@.len() == 12
        && "backend"@.len() == 7 && "symbol"@.len() == 6 && "declaration"@.len() == 11
        && "callSites"@.len() == 9 && "uncertain"@.len() == 9 && "reason"@.len() == 6
        && "removed"@.len() == 7 && "file"@.len() == 4 && "line"@.len() == 4);
}

/// What an answer that was planned carries.
pub proof fn lemma_planned_answer(symbol: Seq<char>, path: Seq<char>, planned: PlannedView)
    requires
        !planned.builder.is_empty(),
    ensures
        ({
            let answer = change_signature::planned_answer(symbol, path, planned);
            &&& answer.text("status"@) == Some("PLANNED"@)
            &&& answer.list("callSites"@) == Some(planned.call_sites)
            &&& answer.list("uncertain"@) == Some(planned.uncertain)
            &&& answer.get("plan"@) == Some(plan::plan_value(planned.builder.plan()))
        }),
{
    broadcast use json::lemma_with_get;

    lemma_keys_apart();
}

/// What was settled is settled in the answer.
proof fn lemma_answer_settles(
    symbol: Seq<char>,
    declared: Seq<char>,
    planned: PlannedView,
    path: Seq<char>,
    source: Seq<char>,
    code: Seq<Token>,
    index: int,
    at: int,
)
    requires
        answered(planned, path, source, code, index, at),
        !planned.builder.is_empty(),
        envelope::plan_of(plan::plan_value(planned.builder.plan())) == Ok::<PlanView, Seq<char>>(
            planned.builder.plan(),
        ),
    ensures
        call_settled(
            change_signature::planned_answer(symbol, declared, planned),
            path,
            source,
            code,
            at,
            index,
        ),
{
    broadcast use json::lemma_with_get;

    lemma_keys_apart();
    lemma_planned_answer(symbol, declared, planned);
    let answer = change_signature::planned_answer(symbol, declared, planned);
    let line = code[at].line;
    if change_signature::is_listed(planned.uncertain, path, line) {
        let (kind, reason) = choose|kind: Seq<char>, reason: Seq<char>|
            planned.uncertain.contains(
                #[trigger] change_signature::unsettled(path, line, kind, reason),
            );
        let entry = change_signature::unsettled(path, line, kind, reason);
        let i = choose|i: int| 0 <= i < planned.uncertain.len() && planned.uncertain[i] == entry;
        assert(about(planned.uncertain[i], path, line));
        let entries = answer.list("uncertain"@)->0;
        assert(entries == planned.uncertain);
        assert(about(entries[i], path, line));
        assert(lists(answer, "uncertain"@, path, line));
    } else {
        let list = change_signature::list_behind(source, code, at)->0;
        assert forall|i: int| 0 <= i < list.items.len() implies !(
        #[trigger] list.items[i]).spread by {}
        if index < list.items.len() {
            let removed = words::trimmed(list.items[index].text);
            let entry = change_signature::edited_call(path, line, removed);
            let i = choose|i: int|
                0 <= i < planned.call_sites.len() && planned.call_sites[i] == entry;
            assert(about(planned.call_sites[i], path, line));
            let edit = choose|edit: EditView| #[trigger]
                rename_plan::files_hold(planned.builder.files, path, edit) && deletes_item(
                    source,
                    list.items,
                    index,
                    edit,
                );
            plans::lemma_finished(planned.builder, path, edit);
            let plan = plan_read(answer)->0;
            assert(rename_plan::files_hold(plan.files, path, edit));
        }
    }
}

/// Whether arguments ask to remove the parameter at an index of a symbol.
pub open spec fn asks_to_remove(arguments: JsonView, symbol: Seq<char>, index: nat) -> bool {
    &&& arguments.text("symbol"@) == Some(symbol)
    &&& arguments.get("operation"@) matches Some(operation) && operation.text("kind"@) == Some(
        "remove_parameter"@,
    ) && operation.number("index"@) == Some(index)
}

/// Removing a parameter reaches every call: in an answer with a plan, every use of the symbol's
/// name on a line that any call or reference in the graph proves, other than the name in its
/// declaration, loses exactly the argument at the index, or is listed as one to settle by hand, or
/// passes no argument there.
pub proof fn law_removing_a_parameter_reaches_every_call(
    repository: Repository,
    arguments: JsonView,
    symbol: Seq<char>,
    index: nat,
    at: int,
    path: Seq<char>,
    source: Seq<char>,
    language: weavatrix_parse::Language,
    use_at: int,
)
    requires
        asks_to_remove(arguments, symbol, index),
        resolve::resolved(repository.graph.nodes@, symbol) == Some(at),
        evidence::source_of(repository.sources@, path) == Some(source),
        parse::path_language(path) == Some(language),
        signature::in_order(signature::code_of(parse::tokens_of(source, language))),
        0 <= use_at < parse::tokens_of(source, language).len(),
        parse::tokens_of(source, language)[use_at].kind is Identifier,
        parse::token_text(source, parse::tokens_of(source, language)[use_at]) == words::plain_name(
            repository.graph.nodes@[at].label@,
        ),
        rename::proven(
            repository,
            repository.graph.edges@,
            repository.graph.nodes@[at].id@,
            path,
            parse::tokens_of(source, language)[use_at].line,
        ),
        repository.graph.nodes@[at].span matches Some(span) && !(span.file@ == path && first_named(
            source,
            parse::tokens_of(source, language),
            words::plain_name(repository.graph.nodes@[at].label@),
            span.start_line,
            use_at,
        )),
    ensures
        ({
            let answer = change_signature::change_signature_answer(repository, arguments);
            let tokens = parse::tokens_of(source, language);
            plan_read(answer) is Some ==> call_settled(
                answer,
                path,
                source,
                signature::code_of(tokens),
                place_in_code(tokens, use_at),
                index as int,
            )
        }),
{
    reveal(change_signature::change_signature_answer);
    let answer = change_signature::change_signature_answer(repository, arguments);
    let nodes = repository.graph.nodes@;
    let node = nodes[at];
    let name = words::plain_name(node.label@);
    let span = node.span->0;
    let tokens = parse::tokens_of(source, language);
    let code = signature::code_of(tokens);
    let k = place_in_code(tokens, use_at);
    law_code_leaves_out_nothing_meant(tokens, use_at);
    if plan_read(answer) is Some {
        lemma_refusals_have_no_plan(repository, arguments, symbol, index, at);
        let (home, home_code) = change_signature::opened(repository, span.file@)->0;
        let named = change_signature::identifier_from(
            home,
            home_code,
            name,
            span.start_line,
            0,
        )->0;
        let parameters = change_signature::list_named(home, home_code, name, span.start_line)->0;
        let start = BuilderView::start("change_signature"@).file(
            span.file@,
            plan::sha256_hex(home),
        );
        let range = signature::removal_of(parameters.items, index as int)->0;
        let files = references::referenced(repository, repository.graph.edges@, node.id@);
        let planned = change_signature::calls_edited(
            repository,
            node.id@,
            change_signature::declaration_edited(start, home, parameters, index as int, range),
            name,
            index as int,
            DeclaredView { path: span.file@, at: named, range },
            files,
        );
        rename::law_every_proven_line_is_collected(repository, repository.graph.edges@, node.id@);
        let line = tokens[use_at].line;
        assert(order::has_line(files, path, line));
        let file = choose|file: int|
            0 <= file < files.len() && (#[trigger] files[file]).0 == path && files[file].1.contains(
                line,
            );
        lemma_first_named(home, home_code, name, span.start_line, named);
        if path == span.file@ && k == named {
            assert(first_named(source, tokens, name, span.start_line, use_at)) by {
                assert forall|e: int| 0 <= e < use_at implies !((#[trigger] tokens[e]).kind is Identifier
                    && tokens[e].line == span.start_line && parse::token_text(source, tokens[e])
                    == name) by {
                    if tokens[e].kind is Identifier && tokens[e].line == span.start_line
                        && parse::token_text(source, tokens[e]) == name {
                        law_code_leaves_out_nothing_meant(tokens, e);
                        assert(code[place_in_code(tokens, e)] == tokens[e]);
                    }
                }
            }
        }
        lemma_edited_answered(
            repository,
            node.id@,
            change_signature::declaration_edited(start, home, parameters, index as int, range),
            name,
            index as int,
            DeclaredView { path: span.file@, at: named, range },
            files,
            file,
            source,
            code,
            k,
        );
        change_signature::law_the_plan_reads_back(
            repository,
            node.id@,
            name,
            span.file@,
            named,
            home,
            parameters,
            ChangeView::Remove { index },
        );
        lemma_answer_settles(
            name,
            span.file@,
            planned,
            path,
            source,
            code,
            index as int,
            k,
        );
    }
}

/// A refusal carries no plan.
pub proof fn lemma_refusals_have_no_plan(
    repository: Repository,
    arguments: JsonView,
    symbol: Seq<char>,
    index: nat,
    at: int,
)
    requires
        asks_to_remove(arguments, symbol, index),
        resolve::resolved(repository.graph.nodes@, symbol) == Some(at),
        repository.graph.nodes@[at].span is Some,
        plan_read(change_signature::change_signature_answer(repository, arguments)) is Some,
    ensures
        index <= usize::MAX,
        ({
            let node = repository.graph.nodes@[at];
            let span = node.span->0;
            let name = words::plain_name(node.label@);
            &&& change_signature::opened(repository, span.file@) matches Some((home, code))
                && change_signature::list_named(home, code, name, span.start_line) matches Some(
                parameters,
            ) && signature::removal_of(parameters.items, index as int) matches Some(range) && {
                let named = change_signature::identifier_from(
                    home,
                    code,
                    name,
                    span.start_line,
                    0,
                )->0;
                let start = BuilderView::start("change_signature"@).file(
                    span.file@,
                    plan::sha256_hex(home),
                );
                let planned = change_signature::calls_edited(
                    repository,
                    node.id@,
                    change_signature::declaration_edited(
                        start,
                        home,
                        parameters,
                        index as int,
                        range,
                    ),
                    name,
                    index as int,
                    DeclaredView { path: span.file@, at: named, range },
                    references::referenced(repository, repository.graph.edges@, node.id@),
                );
                !planned.builder.is_empty()
                    && change_signature::change_signature_answer(repository, arguments)
                    == change_signature::planned_answer(name, span.file@, planned)
            }
        }),
{
    broadcast use json::lemma_with_get;

    reveal(change_signature::change_signature_answer);
    reveal_strlit("add_parameter");
    reveal_strlit("remove_parameter");
    assert("add_parameter"@.len() == 13 && "remove_parameter"@.len() == 16);
    fit::lemma_plan_key();
    lemma_keys_apart();
}

/// Every token that carries program meaning was there before.
proof fn lemma_code_from(tokens: Seq<Token>, k: int) -> (at: int)
    requires
        0 <= k < signature::code_of(tokens).len(),
    ensures
        0 <= at < tokens.len(),
        tokens[at] == signature::code_of(tokens)[k],
        carries_meaning(tokens[at]),
        place_in_code(tokens, at) == k,
    decreases tokens.len(),
{
    if tokens.len() == 0 {
        0
    } else {
        let rest = tokens.drop_last();
        let before = signature::code_of(rest);
        if k < before.len() {
            let at = lemma_code_from(rest, k);
            assert(rest.take(at) =~= tokens.take(at));
            at
        } else {
            assert(tokens.take(tokens.len() - 1) =~= rest);
            tokens.len() - 1
        }
    }
}

/// The first name on a line is the first among the tokens that carry program meaning.
proof fn lemma_first_in_code(
    source: Seq<char>,
    tokens: Seq<Token>,
    name: Seq<char>,
    line: u32,
    at: int,
)
    requires
        first_named(source, tokens, name, line, at),
    ensures
        change_signature::identifier_from(
            source,
            signature::code_of(tokens),
            name,
            line,
            0,
        ) == Some(place_in_code(tokens, at)),
{
    let code = signature::code_of(tokens);
    let k = place_in_code(tokens, at);
    law_code_leaves_out_nothing_meant(tokens, at);
    assert forall|j: int| 0 <= j < k implies !((#[trigger] code[j]).kind is Identifier
        && code[j].line == line && parse::token_text(source, code[j]) == name) by {
        let e = lemma_code_from(tokens, j);
        if e > at {
            law_code_leaves_out_nothing_meant(tokens, e);
            assert(carries_meaning(tokens[at]));
        }
    }
    lemma_first_named(source, code, name, line, k);
}

/// Whether an item is what stands in its bytes, and spreads exactly where that begins with the mark
/// of a spread.
pub open spec fn as_written(source: Seq<char>, item: ItemView) -> bool {
    &&& text::sliceable(source, item.start, item.end) ==> item.text == text::slice(
        source,
        item.start,
        item.end,
    )
    &&& item.spread <==> text::begins(words::trimmed_start(item.text), "..."@) || text::begins(
        words::trimmed_start(item.text),
        "*"@,
    )
}

/// Whether every item is as written.
pub open spec fn all_as_written(source: Seq<char>, items: Seq<ItemView>) -> bool {
    forall|i: int| 0 <= i < items.len() ==> as_written(source, #[trigger] items[i])
}

/// Items of a list are as written to its end.
proof fn lemma_items_written(
    source: Seq<char>,
    code: Seq<Token>,
    open: int,
    at: int,
    depth: int,
    start: Option<int>,
    end: int,
    items: Seq<ItemView>,
)
    requires
        all_as_written(source, items),
    ensures
        signature::list_from(source, code, open, at, depth, start, end, items) matches Some(list)
            ==> all_as_written(source, list.items),
    decreases code.len() - at,
{
    if 0 <= at < code.len() {
        let token = code[at];
        let t = parse::token_text(source, token);
        let begun = match start {
            Some(from) => Some(from),
            None => Some(token.start as int),
        };
        let pending = signature::with_pending(source, items, start, end);
        assert(all_as_written(source, pending)) by {
            assert forall|i: int| 0 <= i < pending.len() implies as_written(
                source,
                #[trigger] pending[i],
            ) by {
                if i < items.len() {
                    assert(pending[i] == items[i]);
                }
            }
        }
        if signature::opens(t) {
            lemma_items_written(source, code, open, at + 1, depth + 1, begun, token.end as int, items);
        } else if signature::closes(t) && depth > 0 {
            lemma_items_written(source, code, open, at + 1, depth - 1, begun, token.end as int, items);
        } else if t == ")"@ {
        } else if t == ","@ && depth == 0 {
            lemma_items_written(source, code, open, at + 1, depth, None, end, pending);
        } else if t == "<"@ && signature::generic_at(source, code, at) is Some {
            let close = signature::generic_at(source, code, at)->0;
            if !(close < at || close >= code.len()) {
                lemma_items_written(
                    source,
                    code,
                    open,
                    close + 1,
                    depth,
                    begun,
                    code[close].end as int,
                    items,
                );
            }
        } else {
            lemma_items_written(source, code, open, at + 1, depth, begun, token.end as int, items);
        }
    }
}

/// The items of a list are what stands in their bytes: what a call is said to lose is the text that
/// goes, and a spread is known by how it is written.
pub proof fn law_items_are_as_written(source: Seq<char>, code: Seq<Token>, at: int)
    ensures
        signature::list_at(source, code, at) matches Some(list) ==> all_as_written(
            source,
            list.items,
        ),
{
    if 0 <= at < code.len() {
        let open = code[at].start as int;
        lemma_items_written(source, code, open, at + 1, 0, None, open, Seq::empty());
    }
}

/// Whether both ends of every item have positions.
pub open spec fn positioned(source: Seq<char>, items: Seq<ItemView>) -> bool {
    forall|i: int|
        0 <= i < items.len() ==> edit_symbol::plan_position(source, (#[trigger] items[i]).start) is Some
            && edit_symbol::plan_position(source, items[i].end) is Some
}

/// Whether a list is the parameter list of a symbol: the one behind the first occurrence of its
/// name on the line where it is declared.
pub open spec fn declares(
    repository: Repository,
    node: Node,
    source: Seq<char>,
    language: weavatrix_parse::Language,
    parameters: ListView,
    named: int,
) -> bool {
    let tokens = parse::tokens_of(source, language);
    &&& node.span matches Some(span) && evidence::source_of(repository.sources@, span.file@) == Some(
        source,
    ) && parse::path_language(span.file@) == Some(language) && first_named(
        source,
        tokens,
        words::plain_name(node.label@),
        span.start_line,
        named,
    )
    &&& change_signature::list_behind(
        source,
        signature::code_of(tokens),
        place_in_code(tokens, named),
    ) == Some(parameters)
    &&& signature::in_order(signature::code_of(tokens))
}

/// Removing a parameter takes exactly that one from the declaration, and is planned wherever its
/// position can be expressed.
pub proof fn law_removing_a_parameter_takes_it_from_the_declaration(
    repository: Repository,
    arguments: JsonView,
    symbol: Seq<char>,
    index: nat,
    at: int,
    source: Seq<char>,
    language: weavatrix_parse::Language,
    parameters: ListView,
    named: int,
)
    requires
        asks_to_remove(arguments, symbol, index),
        index <= usize::MAX,
        resolve::resolved(repository.graph.nodes@, symbol) == Some(at),
        declares(repository, repository.graph.nodes@[at], source, language, parameters, named),
        positioned(source, parameters.items),
    ensures
        ({
            let answer = change_signature::change_signature_answer(repository, arguments);
            let path = repository.graph.nodes@[at].span->0.file@;
            if index < parameters.items.len() {
                &&& answer.text("status"@) == Some("PLANNED"@)
                &&& plan_read(answer) matches Some(plan) && holds_deletion(
                    plan.files,
                    path,
                    source,
                    parameters.items,
                    index as int,
                )
            } else {
                answer.text("status"@) == Some("NO_CHANGE"@) && plan_read(answer) is None
            }
        }),
{
    broadcast use json::lemma_with_get;

    reveal(change_signature::change_signature_answer);
    reveal_strlit("add_parameter");
    reveal_strlit("remove_parameter");
    assert("add_parameter"@.len() == 13 && "remove_parameter"@.len() == 16);
    lemma_keys_apart();
    let answer = change_signature::change_signature_answer(repository, arguments);
    let node = repository.graph.nodes@[at];
    let name = words::plain_name(node.label@);
    let span = node.span->0;
    let path = span.file@;
    let tokens = parse::tokens_of(source, language);
    let code = signature::code_of(tokens);
    let k = place_in_code(tokens, named);
    lemma_first_in_code(source, tokens, name, span.start_line, named);
    fit::lemma_source_bound(repository.sources@, path);
    if index < parameters.items.len() {
        let items = parameters.items;
        let opening = change_signature::opening_of(source, code, k);
        signature::law_items_are_laid_out(source, code, opening);
        signature::law_removal_takes_one_item(
            items,
            index as int,
            parameters.open,
            parameters.close,
        );
        let range = signature::removal_of(items, index as int)->0;
        assert(edit_symbol::plan_position(source, range.0) is Some
            && edit_symbol::plan_position(source, range.1) is Some) by {
            assert(edit_symbol::plan_position(source, items[index as int].start) is Some);
            if index + 1 < items.len() {
                assert(edit_symbol::plan_position(source, items[index as int + 1].start) is Some);
            } else if index > 0 {
                assert(edit_symbol::plan_position(source, items[index as int - 1].end) is Some);
            }
        }
        let edit = change_signature::replacement(source, range, Seq::empty())->0;
        lemma_replacement_stands(source, range, Seq::empty());
        assert(takes_item(items, index as int, range.0, range.1));
        assert(deletes_item(source, items, index as int, edit));
        let empty = BuilderView::start("change_signature"@);
        let start = empty.file(path, plan::sha256_hex(source));
        let edited = change_signature::declaration_edited(
            start,
            source,
            parameters,
            index as int,
            range,
        );
        plans::lemma_edit_added(empty, path, plan::sha256_hex(source), edit);
        let files = references::referenced(repository, repository.graph.edges@, node.id@);
        let declared = DeclaredView { path, at: k, range };
        lemma_edited_grows(repository, node.id@, edited, name, index as int, declared, files);
        let planned = change_signature::calls_edited(
            repository,
            node.id@,
            edited,
            name,
            index as int,
            declared,
            files,
        );
        assert(rename_plan::files_hold(planned.builder.files, path, edit));
        plans::lemma_finished(planned.builder, path, edit);
        change_signature::law_the_plan_reads_back(
            repository,
            node.id@,
            name,
            path,
            k,
            source,
            parameters,
            ChangeView::Remove { index },
        );
        lemma_planned_answer(name, path, planned);
        assert(answer == change_signature::planned_answer(name, path, planned));
        let plan = plan_read(answer)->0;
        assert(rename_plan::files_hold(plan.files, path, edit));
    }
}

/// Whether arguments ask to add a parameter to a symbol.
pub open spec fn asks_to_add(
    arguments: JsonView,
    symbol: Seq<char>,
    name: Seq<char>,
    default: Option<Seq<char>>,
) -> bool {
    &&& arguments.text("symbol"@) == Some(symbol)
    &&& arguments.get("operation"@) matches Some(operation) && operation.text("kind"@) == Some(
        "add_parameter"@,
    ) && operation.text("name"@) == Some(name) && operation.text("default"@) == default
}

/// A parameter as it is declared: its name, and its default where it has one.
pub open spec fn declared_as(name: Seq<char>, default: Option<Seq<char>>) -> Seq<char> {
    match default {
        Some(value) => name + " = "@ + value,
        None => name,
    }
}

/// Whether an edit adds a parameter behind the last of a list, or as the only one of an empty list.
pub open spec fn adds_parameter(
    source: Seq<char>,
    parameters: ListView,
    declared: Seq<char>,
    edit: EditView,
) -> bool {
    if parameters.items.len() > 0 {
        &&& fit::stands_at(
            source,
            edit,
            parameters.items.last().start,
            parameters.items.last().end,
        )
        &&& edit.after == edit.before + ", "@ + declared
    } else {
        &&& fit::stands_at(source, edit, parameters.open, parameters.close + 1)
        &&& edit.after == "("@ + declared + ")"@
    }
}

/// Adding a parameter declares it behind the others and changes nothing else; where it has no
/// default, every line that uses the symbol is listed as one that needs a value, and where it has
/// one, none is.
pub proof fn law_adding_a_parameter_declares_it_last(
    repository: Repository,
    arguments: JsonView,
    symbol: Seq<char>,
    name: Seq<char>,
    default: Option<Seq<char>>,
    at: int,
    source: Seq<char>,
    language: weavatrix_parse::Language,
    parameters: ListView,
    named: int,
)
    requires
        asks_to_add(arguments, symbol, name, default),
        resolve::resolved(repository.graph.nodes@, symbol) == Some(at),
        declares(repository, repository.graph.nodes@[at], source, language, parameters, named),
        positioned(source, parameters.items),
        parameters.items.len() == 0 ==> edit_symbol::plan_position(source, parameters.open) is Some
            && edit_symbol::plan_position(source, parameters.close + 1) is Some,
    ensures
        ({
            let answer = change_signature::change_signature_answer(repository, arguments);
            let path = repository.graph.nodes@[at].span->0.file@;
            &&& answer.text("status"@) == Some("PLANNED"@)
            &&& plan_read(answer) matches Some(plan) && (exists|edit: EditView| #[trigger]
                rename_plan::files_hold(plan.files, path, edit) && adds_parameter(
                    source,
                    parameters,
                    declared_as(name, default),
                    edit,
                )) && (forall|p: Seq<char>, edit: EditView| #[trigger]
                rename_plan::files_hold(plan.files, p, edit) ==> p == path && adds_parameter(
                    source,
                    parameters,
                    declared_as(name, default),
                    edit,
                ))
            &&& answer.list("callSites"@) == Some(Seq::<JsonView>::empty())
            &&& default is Some ==> answer.list("uncertain"@) == Some(Seq::<JsonView>::empty())
            &&& default is None ==> forall|file: Seq<char>, line: u32| #[trigger]
                rename::proven(
                    repository,
                    repository.graph.edges@,
                    repository.graph.nodes@[at].id@,
                    file,
                    line,
                ) ==> lists(answer, "uncertain"@, file, line)
        }),
{
    broadcast use json::lemma_with_get;

    reveal(change_signature::change_signature_answer);
    lemma_keys_apart();
    let answer = change_signature::change_signature_answer(repository, arguments);
    let node = repository.graph.nodes@[at];
    let id = node.id@;
    let own = words::plain_name(node.label@);
    let span = node.span->0;
    let path = span.file@;
    let tokens = parse::tokens_of(source, language);
    let code = signature::code_of(tokens);
    let k = place_in_code(tokens, named);
    let declared = declared_as(name, default);
    lemma_first_in_code(source, tokens, own, span.start_line, named);
    fit::lemma_source_bound(repository.sources@, path);
    let opening = change_signature::opening_of(source, code, k);
    signature::law_items_are_laid_out(source, code, opening);
    law_items_are_as_written(source, code, opening);
    let (range, added) = change_signature::addition_of(parameters, name, default);
    if parameters.items.len() > 0 {
        let last = parameters.items.len() - 1;
        assert(edit_symbol::plan_position(source, parameters.items[last].start) is Some);
        assert(parameters.items[last].start <= parameters.items[last].end);
        assert(as_written(source, parameters.items[last]));
    }
    let edit = change_signature::replacement(source, range, added)->0;
    lemma_replacement_stands(source, range, added);
    assert(adds_parameter(source, parameters, declared, edit));
    let empty = BuilderView::start("change_signature"@);
    let start = empty.file(path, plan::sha256_hex(source));
    let planned = change_signature::addition_planned(
        repository,
        id,
        start,
        source,
        parameters,
        name,
        default,
    );
    plans::lemma_edit_added(empty, path, plan::sha256_hex(source), edit);
    plans::lemma_finished(planned.builder, path, edit);
    change_signature::law_the_plan_reads_back(
        repository,
        id,
        own,
        path,
        k,
        source,
        parameters,
        ChangeView::Add { name, default },
    );
    lemma_planned_answer(own, path, planned);
    let plan = plan_read(answer)->0;
    assert(rename_plan::files_hold(plan.files, path, edit));
    assert forall|p: Seq<char>, one: EditView| #[trigger] rename_plan::files_hold(
        plan.files,
        p,
        one,
    ) implies p == path && adds_parameter(source, parameters, declared, one) by {
        plans::lemma_unfinished(planned.builder, p, one);
        plans::lemma_edit_alone(empty, path, plan::sha256_hex(source), edit, p, one);
    }
    if default is None {
        let files = references::referenced(repository, repository.graph.edges@, id);
        rename::law_every_proven_line_is_collected(repository, repository.graph.edges@, id);
        assert forall|file: Seq<char>, line: u32| #[trigger]
            rename::proven(repository, repository.graph.edges@, id, file, line) implies lists(
            answer,
            "uncertain"@,
            file,
            line,
        ) by {
            assert(order::has_line(files, file, line));
            let f = choose|f: int|
                0 <= f < files.len() && (#[trigger] files[f]).0 == file && files[f].1.contains(line);
            let l = choose|l: int| 0 <= l < files[f].1.len() && files[f].1[l] == line;
            change_signature::law_a_missing_default_reports_every_call(files, f, l);
            let entry = change_signature::value_required(file, line);
            let entries = answer.list("uncertain"@)->0;
            let i = choose|i: int| 0 <= i < entries.len() && entries[i] == entry;
            assert(about(entries[i], file, line));
        }
    }
}

} // verus!
