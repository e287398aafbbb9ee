//! What removing a parameter promises of everything else: that it is left alone.

use crate::evidence;
use crate::fit;
use crate::graph::{Node, Repository};
use crate::json::JsonView;
use crate::operations::change_signature;
use crate::operations::change_signature::{CallsView, ChangeView, DeclaredView, PlannedView};
use crate::operations::references;
use crate::operations::rename_plan;
use crate::operations::signature;
use crate::order;
use crate::parse;
use crate::parse::Token;
use crate::plan;
use crate::plan::{BuilderView, EditView};
use crate::promises::plain_calls;
use crate::promises::plans;
use crate::promises::rename;
use crate::promises::signature as changes;
use crate::resolve;
use crate::text;
use crate::words;
use vstd::prelude::*;

verus! {

/// Whether an edit takes the item at an index from the list behind a name.
pub open spec fn takes_from_list(
    source: Seq<char>,
    code: Seq<Token>,
    name: Seq<char>,
    index: int,
    at: int,
    edit: EditView,
) -> bool {
    &&& 0 <= at < code.len()
    &&& plain_calls::is_name(source, code[at], name)
    &&& change_signature::list_behind(source, code, at) matches Some(list) && 0 <= index
        < list.items.len() && changes::deletes_item(source, list.items, index, edit)
}

/// Whether the list behind a name spreads a value.
pub open spec fn spreads_behind(source: Seq<char>, code: Seq<Token>, at: int) -> bool {
    change_signature::list_behind(source, code, at) matches Some(list) && exists|i: int|
        0 <= i < list.items.len() && (#[trigger] list.items[i]).spread
}

/// Whether removing a parameter calls for an edit: it takes the item at the index from the list
/// behind the symbol's name, on the line where the symbol is declared, or on a line that the graph
/// proves and where nothing is spread.
pub open spec fn called_for(
    repository: Repository,
    node: Node,
    index: int,
    path: Seq<char>,
    edit: EditView,
) -> bool {
    match (evidence::source_of(repository.sources@, path), parse::path_language(path)) {
        (Some(source), Some(language)) => {
            let code = signature::code_of(parse::tokens_of(source, language));
            exists|at: int| #[trigger]
                takes_from_list(
                    source,
                    code,
                    words::plain_name(node.label@),
                    index,
                    at,
                    edit,
                ) && ((node.span matches Some(span) && span.file@ == path && span.start_line
                    == code[at].line) || (rename::proven(
                    repository,
                    repository.graph.edges@,
                    node.id@,
                    path,
                    code[at].line,
                ) && !spreads_behind(source, code, at)))
        },
        _ => false,
    }
}

/// One call adds no edit but its own.
proof fn lemma_call_adds(
    state: CallsView,
    path: Seq<char>,
    source: Seq<char>,
    code: Seq<Token>,
    name: Seq<char>,
    index: int,
    at: int,
    file: Seq<char>,
    edit: EditView,
)
    requires
        text::bytes(source).len() < u32::MAX,
        file == path ==> signature::in_order(code),
        0 <= at < code.len(),
        plain_calls::is_name(source, code[at], name),
        rename_plan::files_hold(
            change_signature::with_call(
                state,
                path,
                source,
                code,
                name,
                index,
                at,
            ).planned.builder.files,
            file,
            edit,
        ),
    ensures
        rename_plan::files_hold(state.planned.builder.files, file, edit) || (file == path
            && takes_from_list(source, code, name, index, at, edit) && !spreads_behind(
            source,
            code,
            at,
        )),
{
    if !rename_plan::files_hold(state.planned.builder.files, file, edit) {
        let list = change_signature::list_behind(source, code, at)->0;
        let items = list.items;
        let range = signature::removal_of(items, index)->0;
        let own = change_signature::replacement(source, range, Seq::empty())->0;
        plans::lemma_edit_alone(
            state.planned.builder,
            path,
            plan::sha256_hex(source),
            own,
            file,
            edit,
        );
        let opening = change_signature::opening_of(source, code, at);
        signature::law_items_are_laid_out(source, code, opening);
        signature::law_removal_takes_one_item(items, index, list.open, list.close);
        changes::lemma_replacement_stands(source, range, Seq::empty());
        assert(changes::takes_item(items, index, range.0, range.1));
        assert(changes::deletes_item(source, items, index, edit));
    }
}

/// Whether an edit is one of those that some places call for.
spec fn of_calls(
    source: Seq<char>,
    code: Seq<Token>,
    name: Seq<char>,
    index: int,
    calls: Seq<int>,
    edit: EditView,
) -> bool {
    exists|i: int|
        0 <= i < calls.len() && takes_from_list(
            source,
            code,
            name,
            index,
            #[trigger] calls[i],
            edit,
        ) && !spreads_behind(source, code, calls[i])
}

/// Calls add no edits but their own.
proof fn lemma_calls_add(
    state: CallsView,
    path: Seq<char>,
    source: Seq<char>,
    code: Seq<Token>,
    name: Seq<char>,
    index: int,
    calls: Seq<int>,
    file: Seq<char>,
    edit: EditView,
)
    requires
        text::bytes(source).len() < u32::MAX,
        file == path ==> signature::in_order(code),
        forall|i: int|
            0 <= i < calls.len() ==> 0 <= #[trigger] calls[i] < code.len() && plain_calls::is_name(
                source,
                code[calls[i]],
                name,
            ),
        rename_plan::files_hold(
            change_signature::with_calls(
                state,
                path,
                source,
                code,
                name,
                index,
                calls,
            ).planned.builder.files,
            file,
            edit,
        ),
    ensures
        rename_plan::files_hold(state.planned.builder.files, file, edit) || (file == path
            && of_calls(source, code, name, index, calls, edit)),
    decreases calls.len(),
{
    if calls.len() > 0 {
        let rest = calls.drop_last();
        let end = calls.len() - 1;
        let before = change_signature::with_calls(state, path, source, code, name, index, rest);
        assert(0 <= calls[end] < code.len());
        lemma_call_adds(before, path, source, code, name, index, calls[end], file, edit);
        if rename_plan::files_hold(before.planned.builder.files, file, edit) {
            assert forall|i: int| 0 <= i < rest.len() implies 0 <= #[trigger] rest[i] < code.len()
                && plain_calls::is_name(source, code[rest[i]], name) by {
                assert(rest[i] == calls[i]);
            }
            lemma_calls_add(state, path, source, code, name, index, rest, file, edit);
            if !rename_plan::files_hold(state.planned.builder.files, file, edit) {
                let i = choose|i: int|
                    0 <= i < rest.len() && takes_from_list(
                        source,
                        code,
                        name,
                        index,
                        #[trigger] rest[i],
                        edit,
                    ) && !spreads_behind(source, code, rest[i]);
                assert(calls[i] == rest[i]);
            }
        }
    }
}

/// The places that are gone through are names on the lines.
proof fn lemma_places(
    source: Seq<char>,
    code: Seq<Token>,
    name: Seq<char>,
    lines: Seq<u32>,
    declared: int,
    count: int,
)
    requires
        0 <= count <= code.len(),
    ensures
        ({
            let calls = change_signature::calls_on(source, code, name, lines, declared, count);
            forall|i: int|
                0 <= i < calls.len() ==> 0 <= #[trigger] calls[i] < code.len()
                    && plain_calls::is_name(source, code[calls[i]], name) && lines.contains(
                    code[calls[i]].line,
                )
        }),
    decreases count,
{
    if count > 0 {
        lemma_places(source, code, name, lines, declared, count - 1);
    }
}

/// Whether an edit is called for by a place on one of the lines of a file.
spec fn of_files(
    repository: Repository,
    name: Seq<char>,
    index: int,
    files: Seq<(Seq<char>, Seq<u32>)>,
    file: Seq<char>,
    source: Seq<char>,
    code: Seq<Token>,
    edit: EditView,
) -> bool {
    exists|at: int| #[trigger]
        takes_from_list(source, code, name, index, at, edit) && !spreads_behind(source, code, at)
            && order::has_line(files, file, code[at].line)
}

/// Files add no edits but those of their calls.
proof fn lemma_files_add(
    repository: Repository,
    id: Seq<char>,
    planned: PlannedView,
    name: Seq<char>,
    index: int,
    declared: DeclaredView,
    files: Seq<(Seq<char>, Seq<u32>)>,
    file: Seq<char>,
    source: Seq<char>,
    code: Seq<Token>,
    edit: EditView,
)
    requires
        change_signature::opened(repository, file) is Some ==> change_signature::opened(
            repository,
            file,
        ) == Some((source, code)) && signature::in_order(code),
        rename_plan::files_hold(
            change_signature::calls_edited(
                repository,
                id,
                planned,
                name,
                index,
                declared,
                files,
            ).builder.files,
            file,
            edit,
        ),
    ensures
        rename_plan::files_hold(planned.builder.files, file, edit) || (
        change_signature::opened(repository, file) is Some && of_files(
            repository,
            name,
            index,
            files,
            file,
            source,
            code,
            edit,
        )),
    decreases files.len(),
{
    if files.len() > 0 {
        let rest = files.drop_last();
        let end = files.len() - 1;
        let before = change_signature::calls_edited(
            repository,
            id,
            planned,
            name,
            index,
            declared,
            rest,
        );
        let (path, lines) = files[end];
        if rename_plan::files_hold(before.builder.files, file, edit) {
            lemma_files_add(
                repository,
                id,
                planned,
                name,
                index,
                declared,
                rest,
                file,
                source,
                code,
                edit,
            );
            if !rename_plan::files_hold(planned.builder.files, file, edit) {
                let at = choose|at: int| #[trigger]
                    takes_from_list(source, code, name, index, at, edit) && !spreads_behind(
                        source,
                        code,
                        at,
                    ) && order::has_line(rest, file, code[at].line);
                let i = choose|i: int|
                    0 <= i < rest.len() && (#[trigger] rest[i]).0 == file && rest[i].1.contains(
                        code[at].line,
                    );
                assert(files[i] == rest[i]);
                assert(order::has_line(files, file, code[at].line));
            }
        } else {
            let (own, tokens) = change_signature::opened(repository, path)->0;
            fit::lemma_source_bound(repository.sources@, path);
            let (start, calls) = change_signature::file_calls(
                before,
                name,
                declared,
                path,
                own,
                tokens,
                lines,
            );
            let place = if path == declared.path {
                declared.at
            } else {
                -1
            };
            lemma_places(own, tokens, name, lines, place, tokens.len() as int);
            lemma_calls_add(start, path, own, tokens, name, index, calls, file, edit);
            let i = choose|i: int|
                0 <= i < calls.len() && takes_from_list(
                    own,
                    tokens,
                    name,
                    index,
                    #[trigger] calls[i],
                    edit,
                ) && !spreads_behind(own, tokens, calls[i]);
            let at = calls[i];
            assert(lines.contains(code[at].line));
            assert(files[end].0 == file);
            assert(order::has_line(files, file, code[at].line));
            assert(takes_from_list(source, code, name, index, at, edit));
        }
    }
}

/// Removing a parameter changes nothing it need not: every edit of its plan takes the item at the
/// index, and nothing more, from the list behind the symbol's name, where the symbol is declared or
/// on a line that the graph proves.
pub proof fn law_removing_a_parameter_touches_nothing_else(
    repository: Repository,
    arguments: JsonView,
    symbol: Seq<char>,
    index: nat,
    at: int,
    path: Seq<char>,
    edit: EditView,
)
    requires
        changes::asks_to_remove(arguments, symbol, index),
        resolve::resolved(repository.graph.nodes@, symbol) == Some(at),
        repository.graph.nodes@[at].span is Some,
        (evidence::source_of(repository.sources@, path) matches Some(source)
            && parse::path_language(path) matches Some(language)) ==> signature::in_order(
            signature::code_of(
                parse::tokens_of(
                    evidence::source_of(repository.sources@, path)->0,
                    parse::path_language(path)->0,
                ),
            ),
        ),
    ensures
        changes::plan_read(change_signature::change_signature_answer(repository, arguments)) matches Some(
            plan,
        ) ==> rename_plan::files_hold(plan.files, path, edit) ==> called_for(
            repository,
            repository.graph.nodes@[at],
            index as int,
            path,
            edit,
        ),
{
    broadcast use crate::json::lemma_with_get;

    reveal(change_signature::change_signature_answer);
    let answer = change_signature::change_signature_answer(repository, arguments);
    let node = repository.graph.nodes@[at];
    let name = words::plain_name(node.label@);
    let span = node.span->0;
    if changes::plan_read(answer) is Some && rename_plan::files_hold(
        changes::plan_read(answer)->0.files,
        path,
        edit,
    ) {
        changes::lemma_refusals_have_no_plan(repository, arguments, symbol, index, at);
        let (home, home_code) = change_signature::opened(repository, span.file@)->0;
        let named = change_signature::identifier_from(
            home,
            home_code,
            name,
            span.start_line,
            0,
        )->0;
        let parameters = change_signature::list_named(home, home_code, name, span.start_line)->0;
        let empty = BuilderView::start("change_signature"@);
        let start = empty.file(span.file@, plan::sha256_hex(home));
        let range = signature::removal_of(parameters.items, index as int)->0;
        let declared = DeclaredView { path: span.file@, at: named, range };
        let files = references::referenced(repository, repository.graph.edges@, node.id@);
        let first = change_signature::declaration_edited(
            start,
            home,
            parameters,
            index as int,
            range,
        );
        let planned = change_signature::calls_edited(
            repository,
            node.id@,
            first,
            name,
            index as int,
            declared,
            files,
        );
        change_signature::law_the_plan_reads_back(
            repository,
            node.id@,
            name,
            span.file@,
            named,
            home,
            parameters,
            ChangeView::Remove { index },
        );
        changes::lemma_planned_answer(name, span.file@, planned);
        plans::lemma_unfinished(planned.builder, path, edit);
        let source = (change_signature::opened(repository, path)->0).0;
        let code = (change_signature::opened(repository, path)->0).1;
        lemma_files_add(
            repository,
            node.id@,
            first,
            name,
            index as int,
            declared,
            files,
            path,
            source,
            code,
            edit,
        );
        rename::law_every_proven_line_is_collected(repository, repository.graph.edges@, node.id@);
        if rename_plan::files_hold(first.builder.files, path, edit) {
            let own = change_signature::replacement(home, range, Seq::empty());
            assert(own is Some) by {
                if own is None {
                    let opened_file = choose|i: int|
                        0 <= i < start.files.len() && (#[trigger] start.files[i]).path == path
                            && start.files[i].edits.contains(edit);
                    plan::lemma_path_at(empty.files, span.file@);
                    assert(start.files[opened_file].edits.len() == 0);
                }
            }
            plans::lemma_edit_alone(
                empty,
                span.file@,
                plan::sha256_hex(home),
                own->0,
                path,
                edit,
            );
            fit::lemma_source_bound(repository.sources@, span.file@);
            changes::lemma_first_named(home, home_code, name, span.start_line, named);
            let opening = change_signature::opening_of(home, home_code, named);
            signature::law_items_are_laid_out(home, home_code, opening);
            signature::law_removal_takes_one_item(
                parameters.items,
                index as int,
                parameters.open,
                parameters.close,
            );
            changes::lemma_replacement_stands(home, range, Seq::empty());
            assert(changes::takes_item(parameters.items, index as int, range.0, range.1));
            assert(changes::deletes_item(home, parameters.items, index as int, edit));
            assert(takes_from_list(home, home_code, name, index as int, named, edit));
        } else {
            let place = choose|place: int| #[trigger]
                takes_from_list(source, code, name, index as int, place, edit) && !spreads_behind(
                    source,
                    code,
                    place,
                ) && order::has_line(files, path, code[place].line);
            assert(rename::proven(
                repository,
                repository.graph.edges@,
                node.id@,
                path,
                code[place].line,
            ));
        }
    }
}

} // verus!
