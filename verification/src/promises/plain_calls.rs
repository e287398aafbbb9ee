//! What removing a parameter promises of a call that leaves no doubt: it loses its argument.

use crate::evidence;
use crate::fit;
use crate::graph::Repository;
use crate::json;
use crate::json::JsonView;
use crate::operations::change_signature;
use crate::operations::change_signature::{CallsView, ChangeView, DeclaredView, PlannedView};
use crate::operations::edit_symbol;
use crate::operations::references;
use crate::operations::rename_plan;
use crate::operations::signature;
use crate::order;
use crate::parse;
use crate::parse::Token;
use crate::plan;
use crate::plan::{BuilderView, EditView};
use crate::promises::plans;
use crate::promises::rename;
use crate::promises::signature as changes;
use crate::resolve;
use crate::text;
use crate::words;
use vstd::prelude::*;
use vstd::string::*;

verus! {

/// Whether a token is an identifier that reads as a name.
pub open spec fn is_name(source: Seq<char>, token: Token, name: Seq<char>) -> bool {
    token.kind is Identifier && parse::token_text(source, token) == name
}

/// Whether a use leaves no doubt: it is the only one with its name on its line, it stands inside
/// the list of no other, and its own list can be read, spreads nothing, and has an argument at the
/// index, all with positions.
pub open spec fn plain(
    source: Seq<char>,
    code: Seq<Token>,
    name: Seq<char>,
    at: int,
    index: int,
) -> bool {
    &&& 0 <= at < code.len()
    &&& is_name(source, code[at], name)
    &&& forall|o: int|
        0 <= o < code.len() && o != at && is_name(source, #[trigger] code[o], name) ==> code[o].line
            != code[at].line && !encloses(source, code, o, code[at].start as int)
    &&& change_signature::list_behind(source, code, at) matches Some(list) && 0 <= index
        < list.items.len() && (forall|i: int|
        0 <= i < list.items.len() ==> !(#[trigger] list.items[i]).spread) && changes::positioned(
        source,
        list.items,
    )
}

/// Whether the list behind a name encloses an offset.
pub open spec fn encloses(source: Seq<char>, code: Seq<Token>, at: int, offset: int) -> bool {
    change_signature::list_behind(source, code, at) matches Some(list) && list.open <= offset
        < list.close
}

/// Whether a range is inside the list behind a name other than one.
spec fn of_another(
    source: Seq<char>,
    code: Seq<Token>,
    name: Seq<char>,
    at: int,
    range: (int, int),
) -> bool {
    exists|o: int|
        0 <= o < code.len() && o != at && is_name(source, #[trigger] code[o], name)
            && change_signature::list_behind(source, code, o) is Some && (
        change_signature::list_behind(source, code, o)->0).open <= range.0 && range.1 <= (
        change_signature::list_behind(source, code, o)->0).close
}

/// Whether every range that is gone is inside the list behind a name other than one.
spec fn all_of_others(
    source: Seq<char>,
    code: Seq<Token>,
    name: Seq<char>,
    at: int,
    taken: Seq<(int, int)>,
) -> bool {
    forall|i: int| 0 <= i < taken.len() ==> of_another(source, code, name, at, #[trigger] taken[i])
}

/// Whether a call lost its argument at the index, and is listed for it.
spec fn edited(
    planned: PlannedView,
    path: Seq<char>,
    source: Seq<char>,
    code: Seq<Token>,
    index: int,
    at: int,
) -> bool {
    change_signature::list_behind(source, code, at) matches Some(list)
        && planned.call_sites.contains(
        change_signature::edited_call(
            path,
            code[at].line,
            words::trimmed(list.items[index].text),
        ),
    ) && changes::holds_deletion(planned.builder.files, path, source, list.items, index)
}

/// What was edited stays edited.
proof fn lemma_edited_kept(
    planned: PlannedView,
    next: PlannedView,
    path: Seq<char>,
    source: Seq<char>,
    code: Seq<Token>,
    index: int,
    at: int,
)
    requires
        changes::grows(planned, next),
        edited(planned, path, source, code, index, at),
    ensures
        edited(next, path, source, code, index, at),
{
    let items = change_signature::list_behind(source, code, at)->0.items;
    let edit = choose|edit: EditView| #[trigger]
        rename_plan::files_hold(planned.builder.files, path, edit) && changes::deletes_item(
            source,
            items,
            index,
            edit,
        );
    assert(rename_plan::files_hold(next.builder.files, path, edit));
    assert(next.call_sites.contains(
        change_signature::edited_call(path, code[at].line, words::trimmed(items[index].text)),
    ));
}

/// A call that leaves no doubt is edited.
proof fn lemma_plain_edited(
    state: CallsView,
    path: Seq<char>,
    source: Seq<char>,
    code: Seq<Token>,
    name: Seq<char>,
    index: int,
    at: int,
)
    requires
        text::bytes(source).len() < u32::MAX,
        signature::in_order(code),
        plain(source, code, name, at, index),
        all_of_others(source, code, name, at, state.taken),
    ensures
        edited(
            change_signature::with_call(state, path, source, code, name, index, at).planned,
            path,
            source,
            code,
            index,
            at,
        ),
{
    let next = change_signature::with_call(state, path, source, code, name, index, at);
    let line = code[at].line;
    assert(!change_signature::within(state.taken, code[at].start as int)) by {
        if change_signature::within(state.taken, code[at].start as int) {
            let i = choose|i: int|
                0 <= i < state.taken.len() && (#[trigger] state.taken[i]).0 <= code[at].start
                    < state.taken[i].1;
            assert(of_another(source, code, name, at, state.taken[i]));
            let range = state.taken[i];
            let o = choose|o: int|
                0 <= o < code.len() && o != at && is_name(source, #[trigger] code[o], name)
                    && change_signature::list_behind(source, code, o) is Some && (
                change_signature::list_behind(source, code, o)->0).open <= range.0 && range.1 <= (
                change_signature::list_behind(source, code, o)->0).close;
            assert(encloses(source, code, o, code[at].start as int));
        }
    }
    assert(!change_signature::differs(source, code, name, at)) by {
        changes::lemma_first_named(source, code, name, line, at);
        assert forall|k: int| 0 <= k < at implies !((#[trigger] code[k]).kind is Identifier
            && code[k].line == line && parse::token_text(source, code[k]) == name) by {
            if code[k].kind is Identifier && parse::token_text(source, code[k]) == name {
                assert(is_name(source, code[k], name));
            }
        }
        assert(changes::first_named(source, code, name, line, at));
    }
    let list = change_signature::list_behind(source, code, at)->0;
    let items = list.items;
    assert(!change_signature::spreads(items));
    let opening = change_signature::opening_of(source, code, at);
    signature::law_items_are_laid_out(source, code, opening);
    signature::law_removal_takes_one_item(items, index, list.open, list.close);
    let range = signature::removal_of(items, index)->0;
    assert(edit_symbol::plan_position(source, range.0) is Some && edit_symbol::plan_position(
        source,
        range.1,
    ) is Some) by {
        assert(edit_symbol::plan_position(source, items[index].start) is Some);
        if index + 1 < items.len() {
            assert(edit_symbol::plan_position(source, items[index + 1].start) is Some);
        } else if index > 0 {
            assert(edit_symbol::plan_position(source, items[index - 1].end) is Some);
        }
    }
    let edit = change_signature::replacement(source, range, Seq::empty())->0;
    changes::lemma_replacement_stands(source, range, Seq::empty());
    assert(changes::takes_item(items, index, range.0, range.1));
    assert(changes::deletes_item(source, items, index, edit));
    plans::lemma_edit_added(state.planned.builder, path, plan::sha256_hex(source), edit);
    assert(rename_plan::files_hold(next.planned.builder.files, path, edit));
    changes::lemma_more(state.planned.call_sites, next.planned.call_sites.last());
}

/// What another call takes is inside its own list.
proof fn lemma_takes_its_own(
    state: CallsView,
    path: Seq<char>,
    source: Seq<char>,
    code: Seq<Token>,
    name: Seq<char>,
    index: int,
    at: int,
    other: int,
)
    requires
        signature::in_order(code),
        all_of_others(source, code, name, at, state.taken),
        0 <= other < code.len(),
        other != at,
        is_name(source, code[other], name),
    ensures
        all_of_others(
            source,
            code,
            name,
            at,
            change_signature::with_call(state, path, source, code, name, index, other).taken,
        ),
{
    let next = change_signature::with_call(state, path, source, code, name, index, other);
    assert forall|i: int| 0 <= i < next.taken.len() implies of_another(
        source,
        code,
        name,
        at,
        #[trigger] next.taken[i],
    ) by {
        if i < state.taken.len() {
            assert(next.taken[i] == state.taken[i]);
        } else {
            let list = change_signature::list_behind(source, code, other)->0;
            let opening = change_signature::opening_of(source, code, other);
            signature::law_items_are_laid_out(source, code, opening);
            signature::law_removal_takes_one_item(list.items, index, list.open, list.close);
            assert(is_name(source, code[other], name));
        }
    }
}

/// Whether places are names, each once.
spec fn distinct_names(
    source: Seq<char>,
    code: Seq<Token>,
    name: Seq<char>,
    calls: Seq<int>,
) -> bool {
    &&& forall|i: int|
        0 <= i < calls.len() ==> 0 <= #[trigger] calls[i] < code.len() && is_name(
            source,
            code[calls[i]],
            name,
        )
    &&& forall|i: int, j: int|
        0 <= i < j < calls.len() ==> #[trigger] calls[i] < #[trigger] calls[j]
}

/// The places that are gone through are names, each once.
proof fn lemma_calls_on(
    source: Seq<char>,
    code: Seq<Token>,
    name: Seq<char>,
    lines: Seq<u32>,
    declared: int,
    count: int,
)
    requires
        0 <= count <= code.len(),
    ensures
        distinct_names(
            source,
            code,
            name,
            change_signature::calls_on(source, code, name, lines, declared, count),
        ),
        forall|i: int|
            0 <= i < change_signature::calls_on(
                source,
                code,
                name,
                lines,
                declared,
                count,
            ).len() ==> #[trigger] change_signature::calls_on(
                source,
                code,
                name,
                lines,
                declared,
                count,
            )[i] < count,
    decreases count,
{
    if count > 0 {
        lemma_calls_on(source, code, name, lines, declared, count - 1);
        let before = change_signature::calls_on(source, code, name, lines, declared, count - 1);
        let all = change_signature::calls_on(source, code, name, lines, declared, count);
        assert forall|i: int| 0 <= i < all.len() implies 0 <= #[trigger] all[i] < code.len()
            && is_name(source, code[all[i]], name) && all[i] < count by {
            if i < before.len() {
                assert(all[i] == before[i]);
            }
        }
        assert forall|i: int, j: int| 0 <= i < j < all.len() implies #[trigger] all[i]
            < #[trigger] all[j] by {
            assert(all[i] == before[i]);
            if j < before.len() {
                assert(all[j] == before[j]);
            }
        }
    }
}

/// Going through places edits a call that leaves no doubt.
proof fn lemma_calls_edit(
    state: CallsView,
    path: Seq<char>,
    source: Seq<char>,
    code: Seq<Token>,
    name: Seq<char>,
    index: int,
    calls: Seq<int>,
    at: int,
)
    requires
        text::bytes(source).len() < u32::MAX,
        signature::in_order(code),
        plain(source, code, name, at, index),
        distinct_names(source, code, name, calls),
        all_of_others(source, code, name, at, state.taken),
    ensures
        ({
            let next = change_signature::with_calls(state, path, source, code, name, index, calls);
            if calls.contains(at) {
                edited(next.planned, path, source, code, index, at)
            } else {
                all_of_others(source, code, name, at, next.taken)
            }
        }),
    decreases calls.len(),
{
    if calls.len() > 0 {
        let rest = calls.drop_last();
        let last = calls.last();
        let before = change_signature::with_calls(state, path, source, code, name, index, rest);
        assert(distinct_names(source, code, name, rest)) by {
            assert forall|i: int| 0 <= i < rest.len() implies 0 <= #[trigger] rest[i] < code.len()
                && is_name(source, code[rest[i]], name) by {
                assert(rest[i] == calls[i]);
            }
            assert forall|i: int, j: int| 0 <= i < j < rest.len() implies #[trigger] rest[i]
                < #[trigger] rest[j] by {
                assert(rest[i] == calls[i] && rest[j] == calls[j]);
            }
        }
        lemma_calls_edit(state, path, source, code, name, index, rest, at);
        let end = calls.len() - 1;
        assert(calls[end] == last);
        if last == at {
            if rest.contains(at) {
                let i = choose|i: int| 0 <= i < rest.len() && rest[i] == at;
                assert(calls[i] < calls[end]);
            }
            lemma_plain_edited(before, path, source, code, name, index, at);
        } else if rest.contains(at) {
            changes::lemma_call_grows(before, path, source, code, name, index, last);
            let next = change_signature::with_calls(state, path, source, code, name, index, calls);
            lemma_edited_kept(before.planned, next.planned, path, source, code, index, at);
        } else {
            if calls.contains(at) {
                let i = choose|i: int| 0 <= i < calls.len() && calls[i] == at;
                assert(rest[i] == at);
            }
            lemma_takes_its_own(before, path, source, code, name, index, at, last);
        }
        if rest.contains(at) {
            let i = choose|i: int| 0 <= i < rest.len() && rest[i] == at;
            assert(calls[i] == at);
        }
    }
}

/// A call that leaves no doubt, on a line that was collected, is edited.
proof fn lemma_edited_for_certain(
    repository: Repository,
    id: Seq<char>,
    planned: PlannedView,
    name: Seq<char>,
    index: int,
    declared: DeclaredView,
    files: Seq<(Seq<char>, Seq<u32>)>,
    file: int,
    source: Seq<char>,
    code: Seq<Token>,
    at: int,
)
    requires
        0 <= file < files.len(),
        change_signature::opened(repository, files[file].0) == Some((source, code)),
        plain(source, code, name, at, index),
        files[file].1.contains(code[at].line),
        files[file].0 == declared.path ==> at != declared.at && of_another(
            source,
            code,
            name,
            at,
            declared.range,
        ),
        signature::in_order(code),
    ensures
        edited(
            change_signature::calls_edited(
                repository,
                id,
                planned,
                name,
                index,
                declared,
                files,
            ),
            files[file].0,
            source,
            code,
            index,
            at,
        ),
    decreases files.len(),
{
    let rest = files.drop_last();
    let before = change_signature::calls_edited(
        repository,
        id,
        planned,
        name,
        index,
        declared,
        rest,
    );
    let next = change_signature::calls_edited(
        repository,
        id,
        planned,
        name,
        index,
        declared,
        files,
    );
    let (path, lines) = files.last();
    if file < rest.len() {
        assert(rest[file] == files[file]);
        lemma_edited_for_certain(
            repository,
            id,
            planned,
            name,
            index,
            declared,
            rest,
            file,
            source,
            code,
            at,
        );
        changes::lemma_file_grows(repository, id, before, name, index, declared, path, lines);
        lemma_edited_kept(before, next, files[file].0, source, code, index, at);
    } else {
        fit::lemma_source_bound(repository.sources@, path);
        let (start, calls) = change_signature::file_calls(
            before,
            name,
            declared,
            path,
            source,
            code,
            lines,
        );
        let own = if path == declared.path {
            declared.at
        } else {
            -1
        };
        changes::lemma_place_gone_through(source, code, name, lines, own, code.len() as int, at);
        lemma_calls_on(source, code, name, lines, own, code.len() as int);
        assert(all_of_others(source, code, name, at, start.taken));
        lemma_calls_edit(start, path, source, code, name, index, calls, at);
        let made = change_signature::with_calls(
            start,
            path,
            source,
            code,
            name,
            index,
            calls,
        ).planned;
        changes::lemma_joined(
            made,
            change_signature::line_reports(repository, id, path, source, code, name, lines),
        );
        lemma_edited_kept(made, next, path, source, code, index, at);
    }
}

/// A call that leaves no doubt loses its argument: where removing a parameter is planned, such a
/// call on a line that the graph proves is not merely listed to be settled, but loses exactly the
/// argument at the index, and is listed as one that did.
pub proof fn law_a_plain_call_loses_its_argument(
    repository: Repository,
    arguments: JsonView,
    symbol: Seq<char>,
    index: nat,
    at: int,
    path: Seq<char>,
    source: Seq<char>,
    language: weavatrix_parse::Language,
    use_at: int,
)
    requires
        changes::asks_to_remove(arguments, symbol, index),
        resolve::resolved(repository.graph.nodes@, symbol) == Some(at),
        repository.graph.nodes@[at].span is Some,
        evidence::source_of(repository.sources@, path) == Some(source),
        parse::path_language(path) == Some(language),
        signature::in_order(signature::code_of(parse::tokens_of(source, language))),
        0 <= use_at < parse::tokens_of(source, language).len(),
        parse::tokens_of(source, language)[use_at].kind is Identifier,
        plain(
            source,
            signature::code_of(parse::tokens_of(source, language)),
            words::plain_name(repository.graph.nodes@[at].label@),
            changes::place_in_code(parse::tokens_of(source, language), use_at),
            index as int,
        ),
        rename::proven(
            repository,
            repository.graph.edges@,
            repository.graph.nodes@[at].id@,
            path,
            parse::tokens_of(source, language)[use_at].line,
        ),
        !(repository.graph.nodes@[at].span->0.file@ == path
            && repository.graph.nodes@[at].span->0.start_line == parse::tokens_of(
            source,
            language,
        )[use_at].line),
    ensures
        ({
            let answer = change_signature::change_signature_answer(repository, arguments);
            let tokens = parse::tokens_of(source, language);
            let code = signature::code_of(tokens);
            let k = changes::place_in_code(tokens, use_at);
            let list = change_signature::list_behind(source, code, k)->0;
            changes::plan_read(answer) matches Some(plan) ==> changes::holds_deletion(
                plan.files,
                path,
                source,
                list.items,
                index as int,
            ) && changes::lists_removed(
                answer,
                path,
                code[k].line,
                words::trimmed(list.items[index as int].text),
            )
        }),
{
    broadcast use json::lemma_with_get;

    reveal(change_signature::change_signature_answer);
    let answer = change_signature::change_signature_answer(repository, arguments);
    let node = repository.graph.nodes@[at];
    let name = words::plain_name(node.label@);
    let span = node.span->0;
    let tokens = parse::tokens_of(source, language);
    let code = signature::code_of(tokens);
    let k = changes::place_in_code(tokens, use_at);
    changes::law_code_leaves_out_nothing_meant(tokens, use_at);
    if changes::plan_read(answer) is Some {
        changes::lemma_refusals_have_no_plan(repository, arguments, symbol, index, at);
        let (home, home_code) = change_signature::opened(repository, span.file@)->0;
        let named = change_signature::identifier_from(
            home,
            home_code,
            name,
            span.start_line,
            0,
        )->0;
        let parameters = change_signature::list_named(home, home_code, name, span.start_line)->0;
        let start = BuilderView::start("change_signature"@).file(
            span.file@,
            plan::sha256_hex(home),
        );
        let range = signature::removal_of(parameters.items, index as int)->0;
        let declared = DeclaredView { path: span.file@, at: named, range };
        let files = references::referenced(repository, repository.graph.edges@, node.id@);
        let first = change_signature::declaration_edited(
            start,
            home,
            parameters,
            index as int,
            range,
        );
        let planned = change_signature::calls_edited(
            repository,
            node.id@,
            first,
            name,
            index as int,
            declared,
            files,
        );
        rename::law_every_proven_line_is_collected(repository, repository.graph.edges@, node.id@);
        let line = tokens[use_at].line;
        assert(order::has_line(files, path, line));
        let file = choose|file: int|
            0 <= file < files.len() && (#[trigger] files[file]).0 == path && files[file].1.contains(
                line,
            );
        changes::lemma_first_named(home, home_code, name, span.start_line, named);
        if path == span.file@ {
            let opening = change_signature::opening_of(source, code, named);
            signature::law_items_are_laid_out(source, code, opening);
            signature::law_removal_takes_one_item(
                parameters.items,
                index as int,
                parameters.open,
                parameters.close,
            );
            assert(code[named].line == span.start_line);
            assert(is_name(source, code[named], name));
            assert(named != k);
            assert(of_another(source, code, name, k, range));
        }
        lemma_edited_for_certain(
            repository,
            node.id@,
            first,
            name,
            index as int,
            declared,
            files,
            file,
            source,
            code,
            k,
        );
        change_signature::law_the_plan_reads_back(
            repository,
            node.id@,
            name,
            span.file@,
            named,
            home,
            parameters,
            ChangeView::Remove { index },
        );
        changes::lemma_planned_answer(name, span.file@, planned);
        changes::lemma_keys_apart();
        let items = change_signature::list_behind(source, code, k)->0.items;
        let edit = choose|edit: EditView| #[trigger]
            rename_plan::files_hold(planned.builder.files, path, edit) && changes::deletes_item(
                source,
                items,
                index as int,
                edit,
            );
        plans::lemma_finished(planned.builder, path, edit);
        let plan = changes::plan_read(answer)->0;
        assert(rename_plan::files_hold(plan.files, path, edit));
        let removed = words::trimmed(items[index as int].text);
        let entry = change_signature::edited_call(path, line, removed);
        let entries = answer.list("callSites"@)->0;
        assert(entries == planned.call_sites);
        let i = choose|i: int| 0 <= i < entries.len() && entries[i] == entry;
        assert(changes::about(entries[i], path, line));
    }
}

} // verus!
