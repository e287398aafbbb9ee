//! Adding and removing a parameter, with the call sites that pass it.
//!
//! This is always `PARTIAL`. The call sites come from graph edges, so a call the graph did not
//! record is a call this does not touch. Unlike a rename, where a missed site merely keeps an old
//! name, a missed site here keeps an argument the function no longer takes. Every call site the
//! plan edits is listed, and everything the analysis could not settle is listed beside it rather
//! than folded into the count.
//!
//! Two shapes are refused rather than guessed. A call that spreads (`f(...args)`) has no
//! positional argument to remove, because the array decides at run time how many there are. And
//! adding a parameter with no default leaves every existing call one argument short; the value to
//! pass is a decision, not a derivation, so the declaration changes and the call sites are
//! reported.

use crate::envelope;
use crate::contract;
use crate::evidence;
use crate::fit;
use crate::graph::{Edge, Repository, SourceFile};
use crate::json;
use crate::json::{Fields, Items, Json, JsonView};
use crate::operations;
use crate::operations::edit_symbol;
use crate::operations::occurrences;
use crate::operations::references;
use crate::operations::signature;
use crate::operations::signature::{Item, ItemView, List, ListView};
use crate::order;
use crate::order::FileLines;
use crate::parse;
use crate::parse::{Token, TokenKind};
use crate::plan;
use crate::plan::{BuilderView, EditView, PlanBuilder, PlanView};
use crate::resolve;
use crate::text;
use crate::words;
use vstd::prelude::*;
use vstd::string::*;

verus! {

/// Where a name stands on a line as an identifier, from a token on.
pub open spec fn identifier_from(
    source: Seq<char>,
    code: Seq<Token>,
    name: Seq<char>,
    line: u32,
    from: int,
) -> Option<int>
    decreases code.len() - from,
{
    if from < 0 || from >= code.len() {
        None
    } else if code[from].line == line && code[from].kind is Identifier && parse::token_text(
        source,
        code[from],
    ) == name {
        Some(from)
    } else {
        identifier_from(source, code, name, line, from + 1)
    }
}

/// The first token from one on that reads as a text.
pub open spec fn reading_from(source: Seq<char>, code: Seq<Token>, t: Seq<char>, from: int) -> Option<
    int,
>
    decreases code.len() - from,
{
    if from < 0 || from >= code.len() {
        None
    } else if parse::token_text(source, code[from]) == t {
        Some(from)
    } else {
        reading_from(source, code, t, from + 1)
    }
}

/// Where the list of the identifier at a token opens: at the next token, or past the generic
/// arguments that stand between.
pub open spec fn opening_of(source: Seq<char>, code: Seq<Token>, identifier: int) -> int {
    let at = identifier + 1;
    if at < code.len() && parse::token_text(source, code[at]) == "<"@ {
        match signature::generic_at(source, code, at) {
            Some(close) => close + 1,
            None => match reading_from(source, code, ">"@, at) {
                Some(close) => close + 1,
                None => at,
            },
        }
    } else {
        at
    }
}

/// The parameter or argument list behind the identifier at a token.
pub open spec fn list_behind(source: Seq<char>, code: Seq<Token>, identifier: int) -> Option<
    ListView,
> {
    signature::list_at(source, code, opening_of(source, code, identifier))
}

/// The parameter or argument list belonging to a name, called or declared on a line.
pub open spec fn list_named(source: Seq<char>, code: Seq<Token>, name: Seq<char>, line: u32) -> Option<
    ListView,
> {
    match identifier_from(source, code, name, line, 0) {
        Some(identifier) => list_behind(source, code, identifier),
        None => None,
    }
}

/// A source and its tokens that carry program meaning, where it can be read and its language is
/// known.
pub open spec fn opened(repository: Repository, path: Seq<char>) -> Option<
    (Seq<char>, Seq<Token>),
> {
    match (evidence::source_of(repository.sources@, path), parse::path_language(path)) {
        (Some(source), Some(language)) => Some(
            (source, signature::code_of(parse::tokens_of(source, language))),
        ),
        _ => None,
    }
}

/// The replacement of a byte range, where its position can be expressed exactly.
pub open spec fn replacement(source: Seq<char>, range: (int, int), after: Seq<char>) -> Option<
    EditView,
> {
    match (
        edit_symbol::plan_position(source, range.0),
        edit_symbol::plan_position(source, range.1),
    ) {
        (Some(start), Some(end)) => if text::sliceable(source, range.0, range.1) {
            Some(
                EditView {
                    start_line: start.0,
                    start_char: start.1,
                    end_line: end.0,
                    end_char: end.1,
                    before: text::slice(source, range.0, range.1),
                    after,
                    provenance: "RESOLVED"@,
                },
            )
        } else {
            None
        },
        _ => None,
    }
}

/// A plan with one replacement more, or the same where its position cannot be expressed exactly.
pub open spec fn replaced(
    builder: BuilderView,
    source: Seq<char>,
    range: (int, int),
    after: Seq<char>,
) -> BuilderView {
    match replacement(source, range, after) {
        Some(edit) => builder.edit(edit),
        None => builder,
    }
}

/// What the caller asked for.
pub enum ChangeView {
    Add { name: Seq<char>, default: Option<Seq<char>> },
    Remove { index: nat },
}

/// The change that the `operation` object describes, or the refusal of it.
pub open spec fn change_of(arguments: JsonView) -> Result<ChangeView, JsonView> {
    match arguments.get("operation"@) {
        None => Err(operations::invalid_args_value("change_signature"@, seq!["operation"@])),
        Some(operation) => {
            let kind = operation.text("kind"@);
            if kind == Some("add_parameter"@) {
                match operation.text("name"@) {
                    Some(name) => Ok(
                        ChangeView::Add { name, default: operation.text("default"@) },
                    ),
                    None => Err(
                        operations::invalid_args_value(
                            "change_signature"@,
                            seq!["operation.name"@],
                        ),
                    ),
                }
            } else if kind == Some("remove_parameter"@) {
                match operation.number("index"@) {
                    Some(index) => if index <= usize::MAX {
                        Ok(ChangeView::Remove { index })
                    } else {
                        Err(
                            operations::invalid_args_value(
                                "change_signature"@,
                                seq!["operation.index"@],
                            ),
                        )
                    },
                    None => Err(
                        operations::invalid_args_value(
                            "change_signature"@,
                            seq!["operation.index"@],
                        ),
                    ),
                }
            } else {
                Err(
                    JsonView::empty().with_text("status"@, "INVALID_ARGS"@).with_text(
                        "operation"@,
                        "change_signature"@,
                    ).with_text(
                        "reason"@,
                        "operation.kind must be \"add_parameter\" or \"remove_parameter\""@,
                    ),
                )
            }
        },
    }
}

/// The text that adds a parameter to a declaration, and where it goes.
pub open spec fn addition_of(list: ListView, name: Seq<char>, default: Option<Seq<char>>) -> (
    (int, int),
    Seq<char>,
) {
    let declared = match default {
        Some(value) => name + " = "@ + value,
        None => name,
    };
    if list.items.len() == 0 {
        ((list.open, list.close + 1), "("@ + declared + ")"@)
    } else {
        let last = list.items.last();
        ((last.start, last.end), last.text + ", "@ + declared)
    }
}

/// What one change resolved to, or resolves to so far.
#[verifier::ext_equal]
pub struct PlannedView {
    pub builder: BuilderView,
    pub call_sites: Seq<JsonView>,
    pub uncertain: Seq<JsonView>,
}

/// A call that needs an argument only the caller can choose.
pub open spec fn value_required(file: Seq<char>, line: u32) -> JsonView {
    JsonView::empty().with_text("file"@, file).with_number("line"@, line as nat).with_text(
        "kind"@,
        "VALUE_REQUIRED"@,
    ).with_text(
        "reason"@,
        "the parameter has no default, so this call needs an argument that only you can choose"@,
    )
}

/// The calls on lines of a file that need an argument.
pub open spec fn values_required_in(file: Seq<char>, lines: Seq<u32>) -> Seq<JsonView> {
    Seq::new(lines.len(), |i: int| value_required(file, lines[i]))
}

/// The calls in the first files that need an argument.
pub open spec fn values_required(files: Seq<(Seq<char>, Seq<u32>)>) -> Seq<JsonView>
    decreases files.len(),
{
    if files.len() == 0 {
        Seq::empty()
    } else {
        values_required(files.drop_last()) + values_required_in(files.last().0, files.last().1)
    }
}

/// Whether an item of a list spreads.
pub open spec fn spreads(items: Seq<ItemView>) -> bool {
    exists|i: int| 0 <= i < items.len() && (#[trigger] items[i]).spread
}

/// A use of the symbol that could not be settled, as it is listed.
pub open spec fn unsettled(
    path: Seq<char>,
    line: u32,
    kind: Seq<char>,
    reason: Seq<char>,
) -> JsonView {
    JsonView::empty().with_text("file"@, path).with_number("line"@, line as nat).with_text(
        "kind"@,
        kind,
    ).with_text("reason"@, reason)
}

/// A call that lost its argument, as it is listed.
pub open spec fn edited_call(path: Seq<char>, line: u32, removed: Seq<char>) -> JsonView {
    JsonView::empty().with_text("file"@, path).with_number("line"@, line as nat).with_text(
        "removed"@,
        removed,
    )
}

/// Whether a token is an identifier that reads as a name.
pub open spec fn names(source: Seq<char>, token: Token, name: Seq<char>) -> bool {
    token.kind is Identifier && parse::token_text(source, token) == name
}

/// The places among the first tokens where a name stands on one of the lines, but for the place of
/// its declaration.
pub open spec fn calls_on(
    source: Seq<char>,
    code: Seq<Token>,
    name: Seq<char>,
    lines: Seq<u32>,
    declared: int,
    count: int,
) -> Seq<int>
    decreases count,
{
    if count <= 0 {
        Seq::empty()
    } else {
        let before = calls_on(source, code, name, lines, declared, count - 1);
        let token = code[count - 1];
        if names(source, token, name) && lines.contains(token.line) && count - 1 != declared {
            before.push(count - 1)
        } else {
            before
        }
    }
}

/// Whether a name is a member of what stands before it.
pub open spec fn qualified(source: Seq<char>, code: Seq<Token>, at: int) -> bool {
    at > 0 && (parse::token_text(source, code[at - 1]) == "."@ || parse::token_text(
        source,
        code[at - 1],
    ) == ":"@)
}

/// Whether a name is qualified otherwise than the first of its line, so that the graph may not
/// mean it.
pub open spec fn differs(source: Seq<char>, code: Seq<Token>, name: Seq<char>, at: int) -> bool {
    identifier_from(source, code, name, code[at].line, 0) matches Some(first) && qualified(
        source,
        code,
        first,
    ) != qualified(source, code, at)
}

/// Whether an offset lies in one of the ranges.
pub open spec fn within(ranges: Seq<(int, int)>, offset: int) -> bool {
    exists|i: int| 0 <= i < ranges.len() && (#[trigger] ranges[i]).0 <= offset < ranges[i].1
}

/// The calls of a file edited so far, and the bytes that go with them.
#[verifier::ext_equal]
pub struct CallsView {
    pub planned: PlannedView,
    pub taken: Seq<(int, int)>,
}

/// The calls with one more that is listed rather than edited.
pub open spec fn listed(
    state: CallsView,
    path: Seq<char>,
    line: u32,
    kind: Seq<char>,
    reason: Seq<char>,
) -> CallsView {
    CallsView {
        planned: PlannedView {
            uncertain: state.planned.uncertain.push(unsettled(path, line, kind, reason)),
            ..state.planned
        },
        ..state
    }
}

/// The calls with what one place that names the symbol comes to.
///
/// A call that already passes fewer arguments than the index relies on the parameter being
/// optional; removing the parameter leaves it correct and needs no edit.
pub open spec fn with_call(
    state: CallsView,
    path: Seq<char>,
    source: Seq<char>,
    code: Seq<Token>,
    name: Seq<char>,
    index: int,
    at: int,
) -> CallsView {
    let line = code[at].line;
    if within(state.taken, code[at].start as int) {
        listed(
            state,
            path,
            line,
            "NESTED_CALL"@,
            "the call stands inside an argument that is removed, and goes with it"@,
        )
    } else if differs(source, code, name, at) {
        listed(
            state,
            path,
            line,
            "AMBIGUOUS_CALL"@,
            "the name stands on this line both as a member and on its own, so which of them the graph means is not known"@,
        )
    } else {
        match list_behind(source, code, at) {
            None => listed(
                state,
                path,
                line,
                "NO_ARGUMENT_LIST"@,
                "the name stands here without an argument list that could be read"@,
            ),
            Some(list) => if spreads(list.items) {
                listed(
                    state,
                    path,
                    line,
                    "SPREAD_ARGUMENT"@,
                    "the call spreads an array, so which argument sits at this index is only known at run time"@,
                )
            } else {
                match signature::removal_of(list.items, index) {
                    None => state,
                    Some(range) => match replacement(source, range, Seq::empty()) {
                        None => listed(
                            state,
                            path,
                            line,
                            "POSITION_UNKNOWN"@,
                            "the position of the argument cannot be expressed exactly"@,
                        ),
                        Some(edit) => CallsView {
                            planned: PlannedView {
                                builder: state.planned.builder.file(
                                    path,
                                    plan::sha256_hex(source),
                                ).edit(edit),
                                call_sites: state.planned.call_sites.push(
                                    edited_call(
                                        path,
                                        line,
                                        words::trimmed(list.items[index].text),
                                    ),
                                ),
                                uncertain: state.planned.uncertain,
                            },
                            taken: state.taken.push(range),
                        },
                    },
                }
            },
        }
    }
}

/// The calls with what the first of some places that name the symbol come to.
pub open spec fn with_calls(
    state: CallsView,
    path: Seq<char>,
    source: Seq<char>,
    code: Seq<Token>,
    name: Seq<char>,
    index: int,
    calls: Seq<int>,
) -> CallsView
    decreases calls.len(),
{
    if calls.len() == 0 {
        state
    } else {
        with_call(
            with_calls(state, path, source, code, name, index, calls.drop_last()),
            path,
            source,
            code,
            name,
            index,
            calls.last(),
        )
    }
}

/// How many of the first tokens name the symbol on a line.
pub open spec fn named_on(source: Seq<char>, code: Seq<Token>, name: Seq<char>, line: u32) -> nat
    decreases code.len(),
{
    if code.len() == 0 {
        0
    } else {
        named_on(source, code.drop_last(), name, line) + if code.last().line == line && names(
            source,
            code.last(),
            name,
        ) {
            1nat
        } else {
            0
        }
    }
}

/// How often a name stands on a line as an identifier, in its code or in the code of a template.
pub open spec fn identified_on(source: Seq<char>, path: Seq<char>, name: Seq<char>, line: u32) -> nat {
    match occurrences::identifier_places(source, path, name) {
        Some(places) => if name.len() > 0 {
            occurrences::columns_on(places, line).len()
        } else {
            0
        },
        None => 0,
    }
}

/// Whether an edge of the graph says that a line uses a symbol.
pub open spec fn pointed_at(edges: Seq<Edge>, id: Seq<char>, path: Seq<char>, line: u32) -> bool {
    exists|i: int| 0 <= i < edges.len() && points(#[trigger] edges[i], id, path, line)
}

/// Whether an edge says that a line uses a symbol.
pub open spec fn points(edge: Edge, id: Seq<char>, path: Seq<char>, line: u32) -> bool {
    references::uses(edge) && edge.target@ == id && (edge.span matches Some(span) && span.file@
        == path && span.start_line == line)
}

/// What is listed of a line beside the calls in its code: a use inside a template, or a use that
/// the graph points at and that the name does not stand on.
pub open spec fn line_report(
    repository: Repository,
    id: Seq<char>,
    path: Seq<char>,
    source: Seq<char>,
    code: Seq<Token>,
    name: Seq<char>,
    line: u32,
) -> Option<JsonView> {
    if identified_on(source, path, name, line) > named_on(source, code, name, line) {
        Some(
            unsettled(
                path,
                line,
                "INTERPOLATED_CALL"@,
                "the name stands inside a template, where calls are not edited"@,
            ),
        )
    } else if named_on(source, code, name, line) == 0 && pointed_at(
        repository.graph.edges@,
        id,
        path,
        line,
    ) {
        Some(
            unsettled(
                path,
                line,
                "CALL_NOT_FOUND"@,
                "the graph records a use on this line, and the name does not stand on it"@,
            ),
        )
    } else {
        None
    }
}

/// What is listed of the first lines of a file beside the calls in their code.
pub open spec fn line_reports(
    repository: Repository,
    id: Seq<char>,
    path: Seq<char>,
    source: Seq<char>,
    code: Seq<Token>,
    name: Seq<char>,
    lines: Seq<u32>,
) -> Seq<JsonView>
    decreases lines.len(),
{
    if lines.len() == 0 {
        Seq::empty()
    } else {
        let before = line_reports(repository, id, path, source, code, name, lines.drop_last());
        match line_report(repository, id, path, source, code, name, lines.last()) {
            Some(report) => before.push(report),
            None => before,
        }
    }
}

/// Where a parameter is removed from a declaration: its file, the place of its name there, and the
/// bytes that go.
pub struct DeclaredView {
    pub path: Seq<char>,
    pub at: int,
    pub range: (int, int),
}

/// What the editing of a file starts from, and the places it goes through. In the file of the
/// declaration the place of its name is none of them, and the removed bytes are gone already.
pub open spec fn file_calls(
    planned: PlannedView,
    name: Seq<char>,
    declared: DeclaredView,
    path: Seq<char>,
    source: Seq<char>,
    code: Seq<Token>,
    lines: Seq<u32>,
) -> (CallsView, Seq<int>) {
    let own = path == declared.path;
    (
        CallsView {
            planned,
            taken: if own {
                seq![declared.range]
            } else {
                Seq::empty()
            },
        },
        calls_on(
            source,
            code,
            name,
            lines,
            if own {
                declared.at
            } else {
                -1
            },
            code.len() as int,
        ),
    )
}

/// What the lines of one file that use the symbol come to.
pub open spec fn file_edited(
    repository: Repository,
    id: Seq<char>,
    planned: PlannedView,
    name: Seq<char>,
    index: int,
    declared: DeclaredView,
    path: Seq<char>,
    lines: Seq<u32>,
) -> PlannedView {
    match opened(repository, path) {
        None => PlannedView {
            uncertain: planned.uncertain.push(
                JsonView::empty().with_text("file"@, path).with_text(
                    "kind"@,
                    "SOURCE_UNAVAILABLE"@,
                ),
            ),
            ..planned
        },
        Some((source, code)) => {
            let (start, calls) = file_calls(planned, name, declared, path, source, code, lines);
            let edited = with_calls(start, path, source, code, name, index, calls).planned;
            PlannedView {
                uncertain: edited.uncertain + line_reports(
                    repository,
                    id,
                    path,
                    source,
                    code,
                    name,
                    lines,
                ),
                ..edited
            }
        },
    }
}

/// A plan with one argument removed at each call in the first files, and the rest listed.
pub open spec fn calls_edited(
    repository: Repository,
    id: Seq<char>,
    planned: PlannedView,
    name: Seq<char>,
    index: int,
    declared: DeclaredView,
    files: Seq<(Seq<char>, Seq<u32>)>,
) -> PlannedView
    decreases files.len(),
{
    if files.len() == 0 {
        planned
    } else {
        file_edited(
            repository,
            id,
            calls_edited(repository, id, planned, name, index, declared, files.drop_last()),
            name,
            index,
            declared,
            files.last().0,
            files.last().1,
        )
    }
}

/// What adding a parameter resolves to.
pub open spec fn addition_planned(
    repository: Repository,
    id: Seq<char>,
    builder: BuilderView,
    source: Seq<char>,
    parameters: ListView,
    name: Seq<char>,
    default: Option<Seq<char>>,
) -> PlannedView {
    let (range, added) = addition_of(parameters, name, default);
    PlannedView {
        builder: replaced(builder, source, range, added),
        call_sites: Seq::empty(),
        uncertain: if default is Some {
            Seq::empty()
        } else {
            values_required(references::referenced(repository, repository.graph.edges@, id))
        },
    }
}

/// A declaration that lost a parameter, before any call is looked at.
pub open spec fn declaration_edited(
    builder: BuilderView,
    source: Seq<char>,
    parameters: ListView,
    index: int,
    range: (int, int),
) -> PlannedView {
    PlannedView {
        builder: replaced(builder, source, range, Seq::empty()),
        call_sites: Seq::empty(),
        uncertain: Seq::empty().push(
            JsonView::empty().with_text("kind"@, "REMOVED_PARAMETER"@).with_text(
                "parameter"@,
                words::trimmed(parameters.items[index].text),
            ),
        ),
    }
}

/// What removing a parameter resolves to, or the refusal where there is no such parameter.
pub open spec fn removal_planned(
    repository: Repository,
    id: Seq<char>,
    symbol: Seq<char>,
    path: Seq<char>,
    at: int,
    builder: BuilderView,
    source: Seq<char>,
    parameters: ListView,
    index: int,
) -> Result<PlannedView, JsonView> {
    match signature::removal_of(parameters.items, index) {
        None => Err(
            operations::plain_answer(
                "NO_CHANGE"@,
                symbol + " declares "@ + words::decimal(parameters.items.len())
                    + " parameter(s); index "@ + words::decimal(index as nat)
                    + " is not one of them"@,
            ),
        ),
        Some(range) => Ok(
            calls_edited(
                repository,
                id,
                declaration_edited(builder, source, parameters, index, range),
                symbol,
                index,
                DeclaredView { path, at, range },
                references::referenced(repository, repository.graph.edges@, id),
            ),
        ),
    }
}

/// What a change resolves to, or the refusal of it.
pub open spec fn change_planned(
    repository: Repository,
    id: Seq<char>,
    symbol: Seq<char>,
    path: Seq<char>,
    at: int,
    builder: BuilderView,
    source: Seq<char>,
    parameters: ListView,
    change: ChangeView,
) -> Result<PlannedView, JsonView> {
    match change {
        ChangeView::Add { name, default } => Ok(
            addition_planned(repository, id, builder, source, parameters, name, default),
        ),
        ChangeView::Remove { index } => removal_planned(
            repository,
            id,
            symbol,
            path,
            at,
            builder,
            source,
            parameters,
            index as int,
        ),
    }
}

/// The answer to a change that was planned.
pub open spec fn planned_answer(symbol: Seq<char>, path: Seq<char>, planned: PlannedView) -> JsonView {
    if planned.builder.is_empty() {
        operations::plain_answer("NO_CHANGE"@, "the requested change produced no edit"@)
    } else {
        JsonView::empty().with_text("status"@, "PLANNED"@).with_text(
            "completeness"@,
            "PARTIAL"@,
        ).with_text("backend"@, "graph+lexical"@).with_text("symbol"@, symbol).with_text(
            "declaration"@,
            path,
        ).with_list("callSites"@, planned.call_sites).with_list(
            "uncertain"@,
            planned.uncertain,
        ).with("plan"@, plan::plan_value(planned.builder.plan())).with_list(
            "warnings"@,
            Seq::empty().push(JsonView::Text("GRAPH_PROVEN_CALL_SITES_ONLY"@)),
        ).with_text(
            "next"@,
            "apply with apply_edit_plan (preview -> confirm). Check every uncertain entry first: those are the calls this could not settle on its own."@,
        )
    }
}

/// The answer to a change of a declaration that was located.
pub open spec fn located_answer(
    repository: Repository,
    id: Seq<char>,
    symbol: Seq<char>,
    path: Seq<char>,
    line: u32,
    change: ChangeView,
) -> JsonView {
    match opened(repository, path) {
        None => operations::plain_answer(
            "SOURCE_UNAVAILABLE"@,
            path + " could not be read, or its language is not recognised"@,
        ),
        Some((source, code)) => match list_named(source, code, symbol, line) {
            None => operations::plain_answer(
                "NOT_A_SYMBOL"@,
                "no parameter list was found for "@ + symbol + " at "@ + path + ":"@
                    + words::decimal(line as nat)
                    + "; a signature can only be changed on something that declares one"@,
            ),
            Some(parameters) => match change_planned(
                repository,
                id,
                symbol,
                path,
                identifier_from(source, code, symbol, line, 0)->0,
                BuilderView::start("change_signature"@).file(path, plan::sha256_hex(source)),
                source,
                parameters,
                change,
            ) {
                Err(refusal) => refusal,
                Ok(planned) => planned_answer(symbol, path, planned),
            },
        },
    }
}

/// The answer to `change_signature`.
#[verifier::opaque]
pub open spec fn change_signature_answer(repository: Repository, arguments: JsonView) -> JsonView {
    let nodes = repository.graph.nodes@;
    match arguments.text("symbol"@) {
        None => operations::invalid_args_value(
            "change_signature"@,
            seq!["symbol"@, "operation"@],
        ),
        Some(symbol) => match change_of(arguments) {
            Err(refusal) => refusal,
            Ok(change) => match resolve::resolved(nodes, symbol) {
                None => operations::not_found_value(nodes, symbol),
                Some(at) => match nodes[at].span {
                    None => operations::not_found_value(nodes, symbol),
                    Some(span) => located_answer(
                        repository,
                        nodes[at].id@,
                        words::plain_name(nodes[at].label@),
                        span.file@,
                        span.start_line,
                        change,
                    ),
                },
            },
        },
    }
}

/// Where a name stands on a line as an identifier.
fn find_identifier(source: &str, code: &Vec<Token>, name: &str, line: u32) -> (found: Option<usize>)
    ensures
        match (found, identifier_from(source@, code@, name@, line, 0)) {
            (Some(at), Some(expected)) => at == expected && at < code@.len(),
            (None, None) => true,
            _ => false,
        },
{
    let mut i: usize = 0;
    while i < code.len()
        invariant
            i <= code@.len(),
            identifier_from(source@, code@, name@, line, 0) == identifier_from(
                source@,
                code@,
                name@,
                line,
                i as int,
            ),
        decreases code@.len() - i,
    {
        let token = code[i];
        if token.line == line && token.kind == TokenKind::Identifier && token.reads(source, name) {
            return Some(i);
        }
        i += 1;
    }
    None
}

/// The first token from one on that reads as a text.
fn find_reading(source: &str, code: &Vec<Token>, t: &str, from: usize) -> (found: Option<usize>)
    ensures
        match (found, reading_from(source@, code@, t@, from as int)) {
            (Some(at), Some(expected)) => at == expected && at < code@.len(),
            (None, None) => true,
            _ => false,
        },
{
    let mut i: usize = from;
    while i < code.len()
        invariant
            reading_from(source@, code@, t@, from as int) == reading_from(
                source@,
                code@,
                t@,
                i as int,
            ),
        decreases code@.len() - i,
    {
        if code[i].reads(source, t) {
            return Some(i);
        }
        i += 1;
    }
    None
}

/// The parameter or argument list belonging to `name`, called or declared on `line`.
///
/// The identifier is matched as a whole word so `run` never matches inside `runAll`, and the list
/// is the one opened by the very next token. A generic argument list in between is stepped over,
/// since `f<T>(a)` declares the same parameters as `f(a)`.
fn list_at(source: &str, code: &Vec<Token>, name: &str, line: u32) -> (list: Option<List>)
    ensures
        match (list, list_named(source@, code@, name@, line)) {
            (Some(found), Some(expected)) => found@ == expected,
            (None, None) => true,
            _ => false,
        },
{
    let identifier: usize = match find_identifier(source, code, name, line) {
        Some(identifier) => identifier,
        None => {
            return None;
        },
    };
    read_list(source, code, identifier)
}

/// The parameter or argument list behind the identifier at a token.
fn read_list(source: &str, code: &Vec<Token>, identifier: usize) -> (list: Option<List>)
    requires
        identifier < code@.len(),
    ensures
        match (list, list_behind(source@, code@, identifier as int)) {
            (Some(found), Some(expected)) => found@ == expected,
            (None, None) => true,
            _ => false,
        },
{
    let total: usize = code.len();
    let mut at: usize = identifier + 1;
    if at < total && code[at].reads(source, "<") {
        match signature::generic_end(source, code, at) {
            Some(close) => {
                at = close + 1;
            },
            None => match find_reading(source, code, ">", at) {
                Some(close) => {
                    at = close + 1;
                },
                None => {},
            },
        }
    }
    signature::split(source, code, at)
}

/// The parameters that `name` declares on a line of a source.
pub fn parameters_of(
    source: &str,
    language: weavatrix_parse::Language,
    name: &str,
    line: u32,
) -> (items: Vec<Item>)
    requires
        text::bytes(source@).len() < u32::MAX,
    ensures
        signature::items_view(items@) == (match list_named(
            source@,
            signature::code_of(parse::tokens_of(source@, language)),
            name@,
            line,
        ) {
            Some(list) => list.items,
            None => Seq::empty(),
        }),
{
    let code = signature::code_tokens(source, language);
    match list_at(source, &code, name, line) {
        Some(list) => list.items,
        None => {
            let items: Vec<Item> = Vec::new();
            assert(signature::items_view(items@) =~= Seq::empty());
            items
        },
    }
}

/// A file parsed once, so the tokens are not rebuilt for every lookup in it.
struct Source<'a> {
    text: &'a str,
    code: Vec<Token>,
}

/// Opens a file, where it can be read and its language is known.
fn open<'a>(repository: &'a Repository, path: &str) -> (found: Option<Source<'a>>)
    ensures
        match (found, opened(*repository, path@)) {
            (Some(source), Some(expected)) => source.text@ == expected.0 && source.code@
                == expected.1 && text::bytes(source.text@).len() < u32::MAX,
            (None, None) => true,
            _ => false,
        },
{
    let source = match evidence::read_source(&repository.sources, path) {
        Some(source) => source,
        None => {
            return None;
        },
    };
    match parse::language_at(path) {
        Some(language) => Some(
            Source { text: source, code: signature::code_tokens(source, language) },
        ),
        None => None,
    }
}

/// A byte range whose position can be expressed exactly, and the text it holds.
struct Place<'a> {
    start: (u32, u32),
    end: (u32, u32),
    before: &'a str,
}

/// Locates a byte range, where its position can be expressed exactly.
fn locate_range<'a>(source: &'a str, from: usize, to: usize) -> (found: Option<Place<'a>>)
    requires
        text::bytes(source@).len() < u32::MAX,
    ensures
        forall|after: Seq<char>|
            #![trigger replacement(source@, (from as int, to as int), after)]
            match (found, replacement(source@, (from as int, to as int), after)) {
                (Some(place), Some(edit)) => edit == (EditView {
                    start_line: place.start.0,
                    start_char: place.start.1,
                    end_line: place.end.0,
                    end_char: place.end.1,
                    before: place.before@,
                    after,
                    provenance: "RESOLVED"@,
                }),
                (None, None) => true,
                _ => false,
            },
{
    let start = match edit_symbol::locate_offset(source, from) {
        Some(start) => start,
        None => {
            return None;
        },
    };
    let end = match edit_symbol::locate_offset(source, to) {
        Some(end) => end,
        None => {
            return None;
        },
    };
    match text::get(source, from, to) {
        Some(before) => Some(Place { start, end, before }),
        None => None,
    }
}

/// Adds one replacement to the plan, or nothing when its position cannot be expressed exactly.
fn replace(builder: PlanBuilder, source: &str, from: usize, to: usize, after: &str) -> (planned:
    PlanBuilder)
    requires
        text::bytes(source@).len() < u32::MAX,
    ensures
        planned@ == replaced(builder@, source@, (from as int, to as int), after@),
{
    assert(replaced(builder@, source@, (from as int, to as int), after@) == (match replacement(
        source@,
        (from as int, to as int),
        after@,
    ) {
        Some(edit) => builder@.edit(edit),
        None => builder@,
    }));
    match locate_range(source, from, to) {
        Some(place) => builder.edit(
            place.start.0,
            place.start.1,
            place.end.0,
            place.end.1,
            place.before,
            after,
            "RESOLVED",
        ),
        None => builder,
    }
}

/// What the caller asked for.
enum Change<'a> {
    Add { name: &'a str, default: Option<&'a str> },
    Remove { index: usize },
}

impl<'a> Change<'a> {
    /// The change without its representation.
    spec fn view(self) -> ChangeView {
        match self {
            Change::Add { name, default } => ChangeView::Add {
                name: name@,
                default: match default {
                    Some(value) => Some(value@),
                    None => None,
                },
            },
            Change::Remove { index } => ChangeView::Remove { index: index as nat },
        }
    }
}

/// Reads the `operation` object, which the contract leaves untyped.
fn change<'a>(arguments: &'a Json) -> (read: Result<Change<'a>, Json>)
    ensures
        match (read, change_of(arguments@)) {
            (Ok(found), Ok(expected)) => found@ == expected,
            (Err(refusal), Err(expected)) => refusal@ == expected,
            _ => false,
        },
{
    let operation = match arguments.get("operation") {
        Some(operation) => operation,
        None => {
            return Err(operations::missing_one("change_signature", "operation"));
        },
    };
    let kind = operation.text("kind");
    let adds = match kind {
        Some(kind) => text::same(kind, "add_parameter"),
        None => false,
    };
    let removes = match kind {
        Some(kind) => text::same(kind, "remove_parameter"),
        None => false,
    };
    if adds {
        match operation.text("name") {
            Some(name) => Ok(Change::Add { name, default: operation.text("default") }),
            None => Err(operations::missing_one("change_signature", "operation.name")),
        }
    } else if removes {
        match operation.number("index") {
            Some(index) => {
                if index <= usize::MAX as u64 {
                    Ok(Change::Remove { index: index as usize })
                } else {
                    Err(operations::missing_one("change_signature", "operation.index"))
                }
            },
            None => Err(operations::missing_one("change_signature", "operation.index")),
        }
    } else {
        Err(
            Fields::new().with_text("status", "INVALID_ARGS").with_text(
                "operation",
                "change_signature",
            ).with_text(
                "reason",
                "operation.kind must be \"add_parameter\" or \"remove_parameter\"",
            ).done(),
        )
    }
}

/// What one change resolved to, or resolves to so far.
struct Planned {
    builder: PlanBuilder,
    call_sites: Items,
    uncertain: Items,
}

impl Planned {
    /// The plan without its representation.
    spec fn view(self) -> PlannedView {
        PlannedView {
            builder: self.builder@,
            call_sites: self.call_sites@,
            uncertain: self.uncertain@,
        }
    }
}

/// The calls that need an argument.
fn require_values(files: &Vec<FileLines>) -> (reports: Items)
    ensures
        reports@ == values_required(order::lines_view(files@)),
{
    let ghost all = order::lines_view(files@);
    let mut reports = Items::new();
    let mut i: usize = 0;
    while i < files.len()
        invariant
            i <= files@.len(),
            all == order::lines_view(files@),
            reports@ == values_required(all.take(i as int)),
        decreases files@.len() - i,
    {
        assert(all.take(i + 1).drop_last() =~= all.take(i as int));
        let file = files[i].file.as_str();
        let lines = &files[i].lines;
        let ghost start = reports@;
        let ghost more = values_required_in(file@, lines@);
        let mut j: usize = 0;
        assert(start + more.take(0) =~= start);
        while j < lines.len()
            invariant
                j <= lines@.len(),
                more == values_required_in(file@, lines@),
                reports@ == start + more.take(j as int),
            decreases lines@.len() - j,
        {
            assert((start + more.take(j as int)).push(more[j as int]) =~= start + more.take(j + 1));
            reports.push(
                Fields::new().with_text("file", file).with_number(
                    "line",
                    lines[j] as u64,
                ).with_text("kind", "VALUE_REQUIRED").with_text(
                    "reason",
                    "the parameter has no default, so this call needs an argument that only you can choose",
                ).done(),
            );
            j += 1;
        }
        assert(more.take(j as int) =~= more);
        i += 1;
    }
    assert(all.take(i as int) =~= all);
    reports
}

/// Appends a parameter to the declaration.
///
/// Only the declaration changes. With a default the existing calls stay correct; without one they
/// are each short an argument, and the value to pass is a decision rather than something that can
/// be derived, so every proven call site is reported instead of edited.
fn plan_add(
    repository: &Repository,
    id: &str,
    builder: PlanBuilder,
    source: &str,
    parameters: &List,
    name: &str,
    default: Option<&str>,
) -> (planned: Planned)
    requires
        text::bytes(source@).len() < u32::MAX,
    ensures
        planned@ == addition_planned(
            *repository,
            id@,
            builder@,
            source@,
            parameters@,
            name@,
            match default {
                Some(value) => Some(value@),
                None => None,
            },
        ),
{
    let declared = match default {
        Some(value) => name.to_owned().concat(" = ").concat(value),
        None => name.to_owned(),
    };
    let items = &parameters.items;
    let builder = if items.len() == 0 {
        // An empty list has nothing to append to, so the parentheses themselves are rewritten.
        let added = "(".to_owned().concat(declared.as_str()).concat(")");
        if parameters.close < source.as_bytes().len() {
            replace(builder, source, parameters.open, parameters.close + 1, added.as_str())
        } else {
            builder
        }
    } else {
        let last = &items[items.len() - 1];
        assert(parameters@.items.last() == last@);
        let added = last.text.clone().concat(", ").concat(declared.as_str());
        replace(builder, source, last.start, last.end, added.as_str())
    };
    let uncertain = match default {
        Some(_) => Items::new(),
        None => require_values(&references::referencing_lines(repository, id)),
    };
    Planned { builder, call_sites: Items::new(), uncertain }
}

/// Whether an item of a list spreads.
fn has_spread(items: &Vec<Item>) -> (found: bool)
    ensures
        found == spreads(signature::items_view(items@)),
{
    let ghost all = signature::items_view(items@);
    let mut i: usize = 0;
    while i < items.len()
        invariant
            i <= items@.len(),
            all == signature::items_view(items@),
            forall|k: int| 0 <= k < i ==> !(#[trigger] all[k]).spread,
        decreases items@.len() - i,
    {
        assert(all[i as int].spread == items@[i as int].spread);
        if items[i].spread {
            return true;
        }
        i += 1;
    }
    false
}

/// Byte ranges as mathematical values.
spec fn ranges_of(ranges: Seq<(usize, usize)>) -> Seq<(int, int)> {
    Seq::new(ranges.len(), |i: int| (ranges[i].0 as int, ranges[i].1 as int))
}

/// Lists a use of the symbol that could not be settled.
fn list_use(uncertain: &mut Items, path: &str, line: u32, kind: &str, reason: &str)
    ensures
        final(uncertain)@ == old(uncertain)@.push(unsettled(path@, line, kind@, reason@)),
{
    uncertain.push(
        Fields::new().with_text("file", path).with_number("line", line as u64).with_text(
            "kind",
            kind,
        ).with_text("reason", reason).done(),
    );
}

/// Whether an offset lies in one of the ranges.
fn is_within(ranges: &Vec<(usize, usize)>, offset: usize) -> (found: bool)
    ensures
        found == within(ranges_of(ranges@), offset as int),
{
    let ghost all = ranges_of(ranges@);
    let mut i: usize = 0;
    while i < ranges.len()
        invariant
            i <= ranges@.len(),
            all == ranges_of(ranges@),
            forall|k: int| 0 <= k < i ==> !((#[trigger] all[k]).0 <= offset < all[k].1),
        decreases ranges@.len() - i,
    {
        assert(all[i as int] == (ranges@[i as int].0 as int, ranges@[i as int].1 as int));
        if ranges[i].0 <= offset && offset < ranges[i].1 {
            return true;
        }
        i += 1;
    }
    false
}

/// Whether a name is a member of what stands before it.
fn is_qualified(source: &str, code: &Vec<Token>, at: usize) -> (found: bool)
    requires
        at < code@.len(),
    ensures
        found == qualified(source@, code@, at as int),
{
    at > 0 && (code[at - 1].reads(source, ".") || code[at - 1].reads(source, ":"))
}

/// Whether a name is qualified otherwise than the first of its line.
fn is_different(source: &str, code: &Vec<Token>, name: &str, at: usize) -> (found: bool)
    requires
        at < code@.len(),
    ensures
        found == differs(source@, code@, name@, at as int),
{
    match find_identifier(source, code, name, code[at].line) {
        Some(first) => is_qualified(source, code, first) != is_qualified(source, code, at),
        None => false,
    }
}

/// Edits one place that names the symbol, or lists it.
fn edit_call(
    planned: Planned,
    taken: &mut Vec<(usize, usize)>,
    path: &str,
    source: &str,
    code: &Vec<Token>,
    name: &str,
    index: usize,
    at: usize,
) -> (next: Planned)
    requires
        at < code@.len(),
        text::bytes(source@).len() < u32::MAX,
    ensures
        (CallsView { planned: next@, taken: ranges_of(final(taken)@) }) == with_call(
            CallsView { planned: planned@, taken: ranges_of(old(taken)@) },
            path@,
            source@,
            code@,
            name@,
            index as int,
            at as int,
        ),
{
    let Planned { builder, mut call_sites, mut uncertain } = planned;
    let line: u32 = code[at].line;
    if is_within(taken, code[at].start) {
        list_use(
            &mut uncertain,
            path,
            line,
            "NESTED_CALL",
            "the call stands inside an argument that is removed, and goes with it",
        );
        return Planned { builder, call_sites, uncertain };
    }
    if is_different(source, code, name, at) {
        list_use(
            &mut uncertain,
            path,
            line,
            "AMBIGUOUS_CALL",
            "the name stands on this line both as a member and on its own, so which of them the graph means is not known",
        );
        return Planned { builder, call_sites, uncertain };
    }
    let list = match read_list(source, code, at) {
        Some(list) => list,
        None => {
            list_use(
                &mut uncertain,
                path,
                line,
                "NO_ARGUMENT_LIST",
                "the name stands here without an argument list that could be read",
            );
            return Planned { builder, call_sites, uncertain };
        },
    };
    if has_spread(&list.items) {
        list_use(
            &mut uncertain,
            path,
            line,
            "SPREAD_ARGUMENT",
            "the call spreads an array, so which argument sits at this index is only known at run time",
        );
        return Planned { builder, call_sites, uncertain };
    }
    // A call that already passes fewer arguments than this index relies on the parameter being
    // optional; removing the parameter leaves it correct and needs no edit.
    let range = match signature::removal(&list.items, index) {
        Some(range) => range,
        None => {
            return Planned { builder, call_sites, uncertain };
        },
    };
    let place = match locate_range(source, range.0, range.1) {
        Some(place) => place,
        None => {
            list_use(
                &mut uncertain,
                path,
                line,
                "POSITION_UNKNOWN",
                "the position of the argument cannot be expressed exactly",
            );
            return Planned { builder, call_sites, uncertain };
        },
    };
    proof {
        reveal_strlit("");
        assert(""@ =~= Seq::<char>::empty());
        assert(list@.items[index as int] == list.items@[index as int]@);
        assert(ranges_of(taken@.push(range)) =~= ranges_of(taken@).push(
            (range.0 as int, range.1 as int),
        ));
    }
    let builder = builder.file(path, plan::sha256_of(source).as_str()).edit(
        place.start.0,
        place.start.1,
        place.end.0,
        place.end.1,
        place.before,
        "",
        "RESOLVED",
    );
    call_sites.push(
        Fields::new().with_text("file", path).with_number("line", line as u64).with_text(
            "removed",
            words::trim(list.items[index].text.as_str()),
        ).done(),
    );
    taken.push(range);
    Planned { builder, call_sites, uncertain }
}

/// Whether a number is in a list.
fn has_number(numbers: &Vec<u32>, number: u32) -> (found: bool)
    ensures
        found == numbers@.contains(number),
{
    let mut i: usize = 0;
    while i < numbers.len()
        invariant
            i <= numbers@.len(),
            forall|k: int| 0 <= k < i ==> numbers@[k] != number,
        decreases numbers@.len() - i,
    {
        if numbers[i] == number {
            return true;
        }
        i += 1;
    }
    false
}

/// Places as mathematical values.
spec fn places_of(places: Seq<usize>) -> Seq<int> {
    Seq::new(places.len(), |i: int| places[i] as int)
}

/// The places where a name stands on one of the lines, but for the place of its declaration.
fn find_calls(
    source: &str,
    code: &Vec<Token>,
    name: &str,
    lines: &Vec<u32>,
    declared: Option<usize>,
) -> (calls: Vec<usize>)
    ensures
        places_of(calls@) == calls_on(
            source@,
            code@,
            name@,
            lines@,
            match declared {
                Some(at) => at as int,
                None => -1,
            },
            code@.len() as int,
        ),
        forall|i: int| 0 <= i < calls@.len() ==> (#[trigger] calls@[i]) < code@.len(),
{
    let ghost own: int = match declared {
        Some(at) => at as int,
        None => -1,
    };
    let mut calls: Vec<usize> = Vec::new();
    let mut i: usize = 0;
    assert(places_of(calls@) =~= Seq::empty());
    while i < code.len()
        invariant
            i <= code@.len(),
            own == (match declared {
                Some(at) => at as int,
                None => -1,
            }),
            places_of(calls@) == calls_on(source@, code@, name@, lines@, own, i as int),
            forall|k: int| 0 <= k < calls@.len() ==> (#[trigger] calls@[k]) < code@.len(),
        decreases code@.len() - i,
    {
        let token = code[i];
        let declares = match declared {
            Some(at) => at == i,
            None => false,
        };
        if token.kind == TokenKind::Identifier && token.reads(source, name) && has_number(
            lines,
            token.line,
        ) && !declares {
            assert(places_of(calls@.push(i)) =~= places_of(calls@).push(i as int));
            calls.push(i);
        }
        i += 1;
    }
    calls
}

/// How many tokens name the symbol on a line.
fn count_named(source: &str, code: &Vec<Token>, name: &str, line: u32) -> (count: usize)
    ensures
        count == named_on(source@, code@, name@, line),
{
    let mut count: usize = 0;
    let mut i: usize = 0;
    while i < code.len()
        invariant
            i <= code@.len(),
            count <= i,
            count == named_on(source@, code@.take(i as int), name@, line),
        decreases code@.len() - i,
    {
        assert(code@.take(i + 1).drop_last() =~= code@.take(i as int));
        let token = code[i];
        if token.line == line && token.kind == TokenKind::Identifier && token.reads(source, name) {
            count += 1;
        }
        i += 1;
    }
    assert(code@.take(i as int) =~= code@);
    count
}

/// Whether an edge of the graph says that a line uses a symbol.
fn is_pointed_at(edges: &Vec<Edge>, id: &str, path: &str, line: u32) -> (found: bool)
    ensures
        found == pointed_at(edges@, id@, path@, line),
{
    let mut i: usize = 0;
    while i < edges.len()
        invariant
            i <= edges@.len(),
            forall|k: int| 0 <= k < i ==> !points(#[trigger] edges@[k], id@, path@, line),
        decreases edges@.len() - i,
    {
        let edge = &edges[i];
        if (text::same(edge.kind.as_str(), "calls") || text::same(edge.kind.as_str(), "references"))
            && text::same(edge.target.as_str(), id) {
            match &edge.span {
                Some(span) => {
                    if text::same(span.file.as_str(), path) && span.start_line == line {
                        assert(points(edges@[i as int], id@, path@, line));
                        return true;
                    }
                },
                None => {},
            }
        }
        i += 1;
    }
    false
}

/// Lists what the lines of a file hold beside the calls in their code.
fn report_lines(
    repository: &Repository,
    id: &str,
    uncertain: &mut Items,
    path: &str,
    source: &str,
    code: &Vec<Token>,
    name: &str,
    lines: &Vec<u32>,
)
    requires
        text::bytes(source@).len() < u32::MAX,
    ensures
        final(uncertain)@ == old(uncertain)@ + line_reports(
            *repository,
            id@,
            path@,
            source@,
            code@,
            name@,
            lines@,
        ),
{
    let places = if words::chars(name).len() > 0 {
        occurrences::identifier_occurrences(source, path, name)
    } else {
        None
    };
    let ghost start = uncertain@;
    let mut i: usize = 0;
    assert(lines@.take(0) =~= Seq::empty());
    assert(start + Seq::<JsonView>::empty() =~= start);
    while i < lines.len()
        invariant
            i <= lines@.len(),
            name@.len() == 0 ==> places is None,
            name@.len() > 0 ==> match (
                places,
                occurrences::identifier_places(source@, path@, name@),
            ) {
                (Some(found), Some(expected)) => found@ == expected,
                (None, None) => true,
                _ => false,
            },
            uncertain@ == start + line_reports(
                *repository,
                id@,
                path@,
                source@,
                code@,
                name@,
                lines@.take(i as int),
            ),
        decreases lines@.len() - i,
    {
        assert(lines@.take(i + 1).drop_last() =~= lines@.take(i as int));
        let ghost before = line_reports(
            *repository,
            id@,
            path@,
            source@,
            code@,
            name@,
            lines@.take(i as int),
        );
        let line: u32 = lines[i];
        let named: usize = count_named(source, code, name, line);
        let identified: usize = match &places {
            Some(found) => occurrences::on_one_line(found, line).len(),
            None => 0,
        };
        assert(identified == identified_on(source@, path@, name@, line));
        if identified > named {
            list_use(
                uncertain,
                path,
                line,
                "INTERPOLATED_CALL",
                "the name stands inside a template, where calls are not edited",
            );
            assert(uncertain@ =~= start + before.push(uncertain@.last()));
        } else if named == 0 && is_pointed_at(&repository.graph.edges, id, path, line) {
            list_use(
                uncertain,
                path,
                line,
                "CALL_NOT_FOUND",
                "the graph records a use on this line, and the name does not stand on it",
            );
            assert(uncertain@ =~= start + before.push(uncertain@.last()));
        }
        i += 1;
    }
    assert(lines@.take(i as int) =~= lines@);
}

/// Where a parameter is removed from a declaration.
struct Declared<'a> {
    path: &'a str,
    at: usize,
    range: (usize, usize),
}

impl<'a> Declared<'a> {
    /// The declaration without its representation.
    spec fn view(self) -> DeclaredView {
        DeclaredView {
            path: self.path@,
            at: self.at as int,
            range: (self.range.0 as int, self.range.1 as int),
        }
    }
}

/// Removes one argument at each call of one file that the graph proved, listing the rest.
fn edit_file(
    repository: &Repository,
    id: &str,
    planned: Planned,
    name: &str,
    index: usize,
    declared: &Declared<'_>,
    path: &str,
    lines: &Vec<u32>,
) -> (next: Planned)
    ensures
        next@ == file_edited(
            *repository,
            id@,
            planned@,
            name@,
            index as int,
            declared@,
            path@,
            lines@,
        ),
{
    let mut planned = planned;
    let source = match open(repository, path) {
        Some(source) => source,
        None => {
            planned.uncertain.push(
                Fields::new().with_text("file", path).with_text(
                    "kind",
                    "SOURCE_UNAVAILABLE",
                ).done(),
            );
            return planned;
        },
    };
    let own = text::same(path, declared.path);
    let calls = find_calls(
        source.text,
        &source.code,
        name,
        lines,
        if own {
            Some(declared.at)
        } else {
            None
        },
    );
    let mut taken: Vec<(usize, usize)> = Vec::new();
    if own {
        taken.push(declared.range);
    }
    let ghost start = CallsView { planned: planned@, taken: ranges_of(taken@) };
    proof {
        assert(own ==> ranges_of(taken@) =~= seq![declared@.range]);
        assert(!own ==> ranges_of(taken@) =~= Seq::empty());
    }
    let ghost all = places_of(calls@);
    let mut i: usize = 0;
    assert(all.take(0) =~= Seq::empty());
    while i < calls.len()
        invariant
            i <= calls@.len(),
            all == places_of(calls@),
            forall|k: int| 0 <= k < calls@.len() ==> (#[trigger] calls@[k]) < source.code@.len(),
            text::bytes(source.text@).len() < u32::MAX,
            (CallsView { planned: planned@, taken: ranges_of(taken@) }) == with_calls(
                start,
                path@,
                source.text@,
                source.code@,
                name@,
                index as int,
                all.take(i as int),
            ),
        decreases calls@.len() - i,
    {
        assert(all.take(i + 1).drop_last() =~= all.take(i as int));
        assert(all.take(i + 1).last() == calls@[i as int]);
        planned = edit_call(
            planned,
            &mut taken,
            path,
            source.text,
            &source.code,
            name,
            index,
            calls[i],
        );
        i += 1;
    }
    assert(all.take(i as int) =~= all);
    let Planned { builder, call_sites, mut uncertain } = planned;
    report_lines(
        repository,
        id,
        &mut uncertain,
        path,
        source.text,
        &source.code,
        name,
        lines,
    );
    Planned { builder, call_sites, uncertain }
}

/// Removes one argument at each call site the graph proved, listing the rest.
fn edit_call_sites(
    repository: &Repository,
    id: &str,
    planned: Planned,
    name: &str,
    index: usize,
    declared: &Declared<'_>,
    files: &Vec<FileLines>,
) -> (next: Planned)
    ensures
        next@ == calls_edited(
            *repository,
            id@,
            planned@,
            name@,
            index as int,
            declared@,
            order::lines_view(files@),
        ),
{
    let ghost start = planned@;
    let ghost all = order::lines_view(files@);
    let mut planned = planned;
    let mut i: usize = 0;
    while i < files.len()
        invariant
            i <= files@.len(),
            all == order::lines_view(files@),
            planned@ == calls_edited(
                *repository,
                id@,
                start,
                name@,
                index as int,
                declared@,
                all.take(i as int),
            ),
        decreases files@.len() - i,
    {
        assert(all.take(i + 1).drop_last() =~= all.take(i as int));
        assert(all[i as int] == (files@[i as int].file@, files@[i as int].lines@));
        planned = edit_file(
            repository,
            id,
            planned,
            name,
            index,
            declared,
            files[i].file.as_str(),
            &files[i].lines,
        );
        i += 1;
    }
    assert(all.take(i as int) =~= all);
    planned
}

/// Removes a parameter from the declaration and its argument from each proven call.
fn plan_remove(
    repository: &Repository,
    id: &str,
    symbol: &str,
    path: &str,
    at: usize,
    builder: PlanBuilder,
    source: &str,
    parameters: &List,
    index: usize,
) -> (planned: Result<Planned, Json>)
    requires
        text::bytes(source@).len() < u32::MAX,
    ensures
        match (
            planned,
            removal_planned(
                *repository,
                id@,
                symbol@,
                path@,
                at as int,
                builder@,
                source@,
                parameters@,
                index as int,
            ),
        ) {
            (Ok(found), Ok(expected)) => found@ == expected,
            (Err(refusal), Err(expected)) => refusal@ == expected,
            _ => false,
        },
{
    let items = &parameters.items;
    let range = match signature::removal(items, index) {
        Some(range) => range,
        None => {
            let reason = symbol.to_owned().concat(" declares ").concat(
                words::number(items.len() as u64).as_str(),
            ).concat(" parameter(s); index ").concat(words::number(index as u64).as_str()).concat(
                " is not one of them",
            );
            return Err(operations::answer("NO_CHANGE", reason.as_str()));
        },
    };
    proof {
        reveal_strlit("");
        assert(""@ =~= Seq::<char>::empty());
        assert(parameters@.items[index as int] == items@[index as int]@);
    }
    let builder = replace(builder, source, range.0, range.1, "");
    let mut uncertain = Items::new();
    uncertain.push(
        Fields::new().with_text("kind", "REMOVED_PARAMETER").with_text(
            "parameter",
            words::trim(items[index].text.as_str()),
        ).done(),
    );
    let planned = Planned { builder, call_sites: Items::new(), uncertain };
    let files = references::referencing_lines(repository, id);
    let declared = Declared { path, at, range };
    Ok(edit_call_sites(repository, id, planned, symbol, index, &declared, &files))
}

/// Answers a change of a declaration that was located.
fn change_located(
    repository: &Repository,
    id: &str,
    symbol: &str,
    path: &str,
    line: u32,
    change: &Change<'_>,
) -> (value: Json)
    ensures
        value@ == located_answer(*repository, id@, symbol@, path@, line, change@),
{
    let source = match open(repository, path) {
        Some(source) => source,
        None => {
            let reason = path.to_owned().concat(
                " could not be read, or its language is not recognised",
            );
            return operations::answer("SOURCE_UNAVAILABLE", reason.as_str());
        },
    };
    let located = find_identifier(source.text, &source.code, symbol, line);
    let parameters = match located {
        Some(at) => read_list(source.text, &source.code, at),
        None => None,
    };
    let (at, parameters) = match (located, parameters) {
        (Some(at), Some(parameters)) => (at, parameters),
        _ => {
            let reason = "no parameter list was found for ".to_owned().concat(symbol).concat(
                " at ",
            ).concat(path).concat(":").concat(words::number(line as u64).as_str()).concat(
                "; a signature can only be changed on something that declares one",
            );
            return operations::answer("NOT_A_SYMBOL", reason.as_str());
        },
    };
    let builder = PlanBuilder::new("change_signature").file(
        path,
        plan::sha256_of(source.text).as_str(),
    );
    let planned = match change {
        Change::Add { name, default } => plan_add(
            repository,
            id,
            builder,
            source.text,
            &parameters,
            name,
            *default,
        ),
        Change::Remove { index } => match plan_remove(
            repository,
            id,
            symbol,
            path,
            at,
            builder,
            source.text,
            &parameters,
            *index,
        ) {
            Ok(planned) => planned,
            Err(refusal) => {
                return refusal;
            },
        },
    };
    if planned.builder.is_empty() {
        return operations::answer("NO_CHANGE", "the requested change produced no edit");
    }
    let mut warnings = Items::new();
    warnings.push(json::string("GRAPH_PROVEN_CALL_SITES_ONLY"));
    let Planned { builder, call_sites, uncertain } = planned;
    Fields::new().with_text("status", "PLANNED").with_text("completeness", "PARTIAL").with_text(
        "backend",
        "graph+lexical",
    ).with_text("symbol", symbol).with_text("declaration", path).with_list(
        "callSites",
        call_sites,
    ).with_list("uncertain", uncertain).with("plan", builder.build()).with_list(
        "warnings",
        warnings,
    ).with_text(
        "next",
        "apply with apply_edit_plan (preview -> confirm). Check every uncertain entry first: those are the calls this could not settle on its own.",
    ).done()
}

/// `change_signature`: a plan that adds or removes one parameter.
pub fn change_signature(repository: &Repository, arguments: &Json) -> (value: Json)
    ensures
        value@ == change_signature_answer(*repository, arguments@),
{
    proof {
        reveal(change_signature_answer);
    }
    let symbol = match arguments.text("symbol") {
        Some(symbol) => symbol,
        None => {
            return operations::missing_two("change_signature", "symbol", "operation");
        },
    };
    let asked = match change(arguments) {
        Ok(asked) => asked,
        Err(refusal) => {
            return refusal;
        },
    };
    let at: usize = match resolve::resolve_symbol(&repository.graph, symbol) {
        Some(at) => at,
        None => {
            return operations::not_found(&repository.graph, symbol);
        },
    };
    let node = &repository.graph.nodes[at];
    let span = match &node.span {
        Some(span) => span,
        None => {
            return operations::not_found(&repository.graph, symbol);
        },
    };
    change_located(
        repository,
        node.id.as_str(),
        words::trim_parentheses(node.label.as_str()),
        span.file.as_str(),
        span.start_line,
        &asked,
    )
}

/// Every answer of this operation keeps to the contract.
pub proof fn law_answers_conform(
    repository: Repository,
    arguments: JsonView,
)
    ensures
        contract::conforms(change_signature_answer(repository, arguments)),
{
    broadcast use json::lemma_with_get;

    reveal(change_signature_answer);
    contract::lemma_keys();
}

/// A replacement keeps a plan sound.
proof fn lemma_replaced_sound(
    builder: BuilderView,
    source: Seq<char>,
    range: (int, int),
    after: Seq<char>,
)
    requires
        envelope::sound(builder),
    ensures
        envelope::sound(replaced(builder, source, range, after)),
{
    broadcast use envelope::lemma_sound_edit;

}

/// Editing the calls of a file keeps a plan sound.
proof fn lemma_calls_sound(
    state: CallsView,
    path: Seq<char>,
    source: Seq<char>,
    code: Seq<Token>,
    name: Seq<char>,
    index: int,
    calls: Seq<int>,
)
    requires
        envelope::sound(state.planned.builder),
    ensures
        envelope::sound(
            with_calls(state, path, source, code, name, index, calls).planned.builder,
        ),
    decreases calls.len(),
{
    broadcast use envelope::lemma_sound_file, envelope::lemma_sound_edit;

    if calls.len() > 0 {
        lemma_calls_sound(state, path, source, code, name, index, calls.drop_last());
    }
}

/// Editing the calls in files keeps a plan sound.
proof fn lemma_calls_edited_sound(
    repository: Repository,
    id: Seq<char>,
    planned: PlannedView,
    name: Seq<char>,
    index: int,
    declared: DeclaredView,
    files: Seq<(Seq<char>, Seq<u32>)>,
)
    requires
        envelope::sound(planned.builder),
    ensures
        envelope::sound(
            calls_edited(repository, id, planned, name, index, declared, files).builder,
        ),
    decreases files.len(),
{
    if files.len() > 0 {
        let rest = files.drop_last();
        lemma_calls_edited_sound(repository, id, planned, name, index, declared, rest);
        let before = calls_edited(repository, id, planned, name, index, declared, rest);
        let (path, lines) = files.last();
        match opened(repository, path) {
            Some((source, code)) => {
                let (start, calls) = file_calls(before, name, declared, path, source, code, lines);
                lemma_calls_sound(start, path, source, code, name, index, calls);
            },
            None => {},
        }
    }
}

/// A replacement keeps a plan fitting.
proof fn lemma_replaced_fits(
    sources: Seq<SourceFile>,
    builder: BuilderView,
    source: Seq<char>,
    range: (int, int),
    after: Seq<char>,
)
    requires
        fit::fits(sources, builder),
        fit::open_on(sources, builder, source),
    ensures
        fit::fits(sources, replaced(builder, source, range, after)),
        fit::open_on(sources, replaced(builder, source, range, after), source),
{
    fit::lemma_source_bound(sources, builder.files[builder.current->0].path);
    match replacement(source, range, after) {
        Some(edit) => {
            edit_symbol::lemma_range_stands(source, edit, range.0, range.1);
            fit::lemma_fits_edit(sources, builder, source, edit);
        },
        None => {},
    }
}

/// Editing the calls of a file keeps a plan fitting.
proof fn lemma_calls_fit(
    sources: Seq<SourceFile>,
    state: CallsView,
    path: Seq<char>,
    source: Seq<char>,
    code: Seq<Token>,
    name: Seq<char>,
    index: int,
    calls: Seq<int>,
)
    requires
        fit::fits(sources, state.planned.builder),
        evidence::source_of(sources, path) == Some(source),
    ensures
        fit::fits(
            sources,
            with_calls(state, path, source, code, name, index, calls).planned.builder,
        ),
    decreases calls.len(),
{
    if calls.len() > 0 {
        lemma_calls_fit(sources, state, path, source, code, name, index, calls.drop_last());
        let before = with_calls(state, path, source, code, name, index, calls.drop_last());
        match list_behind(source, code, calls.last()) {
            Some(list) => match signature::removal_of(list.items, index) {
                Some(range) => {
                    let opened = before.planned.builder.file(path, plan::sha256_hex(source));
                    fit::lemma_fits_file(sources, before.planned.builder, path, source);
                    lemma_replaced_fits(sources, opened, source, range, Seq::empty());
                },
                None => {},
            },
            None => {},
        }
    }
}

/// Editing the calls in files keeps a plan fitting.
proof fn lemma_calls_edited_fit(
    repository: Repository,
    id: Seq<char>,
    planned: PlannedView,
    name: Seq<char>,
    index: int,
    declared: DeclaredView,
    files: Seq<(Seq<char>, Seq<u32>)>,
)
    requires
        fit::fits(repository.sources@, planned.builder),
    ensures
        fit::fits(
            repository.sources@,
            calls_edited(repository, id, planned, name, index, declared, files).builder,
        ),
    decreases files.len(),
{
    if files.len() > 0 {
        let rest = files.drop_last();
        lemma_calls_edited_fit(repository, id, planned, name, index, declared, rest);
        let before = calls_edited(repository, id, planned, name, index, declared, rest);
        let (path, lines) = files.last();
        match opened(repository, path) {
            Some((source, code)) => {
                let (start, calls) = file_calls(before, name, declared, path, source, code, lines);
                lemma_calls_fit(
                    repository.sources@,
                    start,
                    path,
                    source,
                    code,
                    name,
                    index,
                    calls,
                );
            },
            None => {},
        }
    }
}

/// What a change resolves to is sound and fits the sources.
proof fn lemma_change_fits(
    repository: Repository,
    id: Seq<char>,
    symbol: Seq<char>,
    path: Seq<char>,
    at: int,
    source: Seq<char>,
    parameters: ListView,
    change: ChangeView,
)
    requires
        evidence::source_of(repository.sources@, path) == Some(source),
    ensures
        ({
            let start = BuilderView::start("change_signature"@).file(
                path,
                plan::sha256_hex(source),
            );
            change_planned(repository, id, symbol, path, at, start, source, parameters, change) matches Ok(
                planned,
            ) ==> fit::fits(repository.sources@, planned.builder) && envelope::sound(
                planned.builder,
            )
        }),
{
    broadcast use envelope::lemma_sound_start, envelope::lemma_sound_file;

    let sources = repository.sources@;
    let empty = BuilderView::start("change_signature"@);
    let start = empty.file(path, plan::sha256_hex(source));
    fit::lemma_fits_start(sources, "change_signature"@);
    fit::lemma_fits_file(sources, empty, path, source);
    match change {
        ChangeView::Add { name, default } => {
            let (range, added) = addition_of(parameters, name, default);
            lemma_replaced_sound(start, source, range, added);
            lemma_replaced_fits(sources, start, source, range, added);
        },
        ChangeView::Remove { index } => match signature::removal_of(
            parameters.items,
            index as int,
        ) {
            Some(range) => {
                lemma_replaced_sound(start, source, range, Seq::empty());
                lemma_replaced_fits(sources, start, source, range, Seq::empty());
                let edited = declaration_edited(start, source, parameters, index as int, range);
                let declared = DeclaredView { path, at, range };
                let files = references::referenced(repository, repository.graph.edges@, id);
                lemma_calls_edited_sound(
                    repository,
                    id,
                    edited,
                    symbol,
                    index as int,
                    declared,
                    files,
                );
                lemma_calls_edited_fit(
                    repository,
                    id,
                    edited,
                    symbol,
                    index as int,
                    declared,
                    files,
                );
            },
            None => {},
        },
    }
}

/// The plan of a change that has edits is one that the applier reads back.
pub proof fn law_the_plan_reads_back(
    repository: Repository,
    id: Seq<char>,
    symbol: Seq<char>,
    path: Seq<char>,
    at: int,
    source: Seq<char>,
    parameters: ListView,
    change: ChangeView,
)
    ensures
        ({
            let start = BuilderView::start("change_signature"@).file(
                path,
                plan::sha256_hex(source),
            );
            change_planned(repository, id, symbol, path, at, start, source, parameters, change) matches Ok(
                planned,
            ) ==> !planned.builder.is_empty() ==> envelope::plan_of(
                plan::plan_value(planned.builder.plan()),
            ) == Ok::<PlanView, Seq<char>>(planned.builder.plan())
        }),
{
    broadcast use envelope::lemma_sound_start, envelope::lemma_sound_file;

    let start = BuilderView::start("change_signature"@).file(path, plan::sha256_hex(source));
    match change {
        ChangeView::Add { name, default } => {
            let (range, added) = addition_of(parameters, name, default);
            lemma_replaced_sound(start, source, range, added);
        },
        ChangeView::Remove { index } => match signature::removal_of(
            parameters.items,
            index as int,
        ) {
            Some(range) => {
                lemma_replaced_sound(start, source, range, Seq::empty());
                lemma_calls_edited_sound(
                    repository,
                    id,
                    declaration_edited(start, source, parameters, index as int, range),
                    symbol,
                    index as int,
                    DeclaredView { path, at, range },
                    references::referenced(repository, repository.graph.edges@, id),
                );
            },
            None => {},
        },
    }
    match change_planned(repository, id, symbol, path, at, start, source, parameters, change) {
        Ok(planned) => {
            if !planned.builder.is_empty() {
                envelope::law_a_sound_plan_reads_back(planned.builder);
            }
        },
        Err(_) => {},
    }
}

/// Every edit of a plan stands in the source it was made from: the text it replaces is the text
/// between its positions, and its file carries that source's hash.
pub proof fn law_the_plan_fits_the_sources(repository: Repository, arguments: JsonView)
    ensures
        fit::answer_fits(
            repository.sources@,
            change_signature_answer(repository, arguments),
        ),
{
    broadcast use json::lemma_with_get;

    reveal(change_signature_answer);
    fit::lemma_plan_key();
    let nodes = repository.graph.nodes@;
    let answer = change_signature_answer(repository, arguments);
    match (arguments.text("symbol"@), change_of(arguments)) {
        (Some(symbol), Ok(change)) => match resolve::resolved(nodes, symbol) {
            Some(at) => match nodes[at].span {
                Some(span) => {
                    let name = words::plain_name(nodes[at].label@);
                    match opened(repository, span.file@) {
                        Some((source, code)) => match list_named(
                            source,
                            code,
                            name,
                            span.start_line,
                        ) {
                            Some(parameters) => {
                                let place = identifier_from(
                                    source,
                                    code,
                                    name,
                                    span.start_line,
                                    0,
                                )->0;
                                let start = BuilderView::start("change_signature"@).file(
                                    span.file@,
                                    plan::sha256_hex(source),
                                );
                                lemma_change_fits(
                                    repository,
                                    nodes[at].id@,
                                    name,
                                    span.file@,
                                    place,
                                    source,
                                    parameters,
                                    change,
                                );
                                match change_planned(
                                    repository,
                                    nodes[at].id@,
                                    name,
                                    span.file@,
                                    place,
                                    start,
                                    source,
                                    parameters,
                                    change,
                                ) {
                                    Ok(planned) => {
                                        if !planned.builder.is_empty() {
                                            fit::lemma_answer_fits(
                                                repository.sources@,
                                                answer,
                                                planned.builder,
                                            );
                                        }
                                    },
                                    Err(_) => {},
                                }
                            },
                            None => {},
                        },
                        None => {},
                    }
                },
                None => {},
            },
            None => {},
        },
        _ => {},
    }
}

/// A call that spreads is listed rather than edited.
pub proof fn law_a_spread_call_is_not_edited(
    state: CallsView,
    path: Seq<char>,
    source: Seq<char>,
    code: Seq<Token>,
    name: Seq<char>,
    index: int,
    at: int,
)
    requires
        list_behind(source, code, at) matches Some(list) && spreads(list.items),
    ensures
        ({
            let next = with_call(state, path, source, code, name, index, at);
            &&& next.planned.builder == state.planned.builder
            &&& next.planned.call_sites == state.planned.call_sites
            &&& next.planned.uncertain.len() == state.planned.uncertain.len() + 1
        }),
{
}

/// Whether a place that names the symbol is settled: its argument is removed and it is listed among
/// the edited calls, or it is listed among those that could not be settled, or it is a call that
/// passes no argument at the index.
pub open spec fn settled(
    planned: PlannedView,
    path: Seq<char>,
    source: Seq<char>,
    code: Seq<Token>,
    index: int,
    at: int,
) -> bool {
    let line = code[at].line;
    ||| is_listed(planned.uncertain, path, line)
    ||| (list_behind(source, code, at) matches Some(list) && (if index < list.items.len() {
        planned.call_sites.contains(
            edited_call(path, line, words::trimmed(list.items[index].text)),
        )
    } else {
        !spreads(list.items)
    }))
}

/// Whether a line is among those with a use that could not be settled.
pub open spec fn is_listed(uncertain: Seq<JsonView>, path: Seq<char>, line: u32) -> bool {
    exists|kind: Seq<char>, reason: Seq<char>|
        uncertain.contains(#[trigger] unsettled(path, line, kind, reason))
}

/// Whether what is listed of one plan is listed of another.
pub open spec fn keeps(planned: PlannedView, next: PlannedView) -> bool {
    &&& forall|value: JsonView|
        planned.uncertain.contains(value) ==> #[trigger] next.uncertain.contains(value)
    &&& forall|value: JsonView|
        planned.call_sites.contains(value) ==> #[trigger] next.call_sites.contains(value)
}

/// What was settled stays settled where nothing that is listed is lost.
proof fn lemma_settled_kept(
    planned: PlannedView,
    next: PlannedView,
    path: Seq<char>,
    source: Seq<char>,
    code: Seq<Token>,
    index: int,
    at: int,
)
    requires
        keeps(planned, next),
        settled(planned, path, source, code, index, at),
    ensures
        settled(next, path, source, code, index, at),
{
    let line = code[at].line;
    if is_listed(planned.uncertain, path, line) {
        let (kind, reason) = choose|kind: Seq<char>, reason: Seq<char>|
            planned.uncertain.contains(#[trigger] unsettled(path, line, kind, reason));
        assert(next.uncertain.contains(unsettled(path, line, kind, reason)));
    }
}

/// One more value in a list loses none.
proof fn lemma_pushed(list: Seq<JsonView>, value: JsonView)
    ensures
        list.push(value).contains(value),
        forall|other: JsonView| list.contains(other) ==> #[trigger] list.push(value).contains(other),
{
    assert(list.push(value)[list.len() as int] == value);
    assert forall|other: JsonView| list.contains(other) implies #[trigger] list.push(
        value,
    ).contains(other) by {
        let i = choose|i: int| 0 <= i < list.len() && list[i] == other;
        assert(list.push(value)[i] == other);
    }
}

/// Looking at one place settles it, and loses nothing that is listed.
proof fn lemma_call_settled(
    state: CallsView,
    path: Seq<char>,
    source: Seq<char>,
    code: Seq<Token>,
    name: Seq<char>,
    index: int,
    at: int,
)
    requires
        index >= 0,
    ensures
        ({
            let next = with_call(state, path, source, code, name, index, at);
            &&& keeps(state.planned, next.planned)
            &&& settled(next.planned, path, source, code, index, at)
        }),
{
    let next = with_call(state, path, source, code, name, index, at);
    let line = code[at].line;
    if next.planned.uncertain.len() > state.planned.uncertain.len() {
        let value = next.planned.uncertain.last();
        lemma_pushed(state.planned.uncertain, value);
        assert(next.planned.uncertain.contains(value));
        assert(is_listed(next.planned.uncertain, path, line));
    } else if next.planned.call_sites.len() > state.planned.call_sites.len() {
        lemma_pushed(state.planned.call_sites, next.planned.call_sites.last());
    }
}

/// Looking at places settles each of them, and loses nothing that is listed.
proof fn lemma_calls_settled(
    state: CallsView,
    path: Seq<char>,
    source: Seq<char>,
    code: Seq<Token>,
    name: Seq<char>,
    index: int,
    calls: Seq<int>,
)
    requires
        index >= 0,
    ensures
        ({
            let next = with_calls(state, path, source, code, name, index, calls);
            &&& keeps(state.planned, next.planned)
            &&& forall|k: int|
                0 <= k < calls.len() ==> settled(
                    next.planned,
                    path,
                    source,
                    code,
                    index,
                    #[trigger] calls[k],
                )
        }),
    decreases calls.len(),
{
    if calls.len() > 0 {
        let rest = calls.drop_last();
        lemma_calls_settled(state, path, source, code, name, index, rest);
        let before = with_calls(state, path, source, code, name, index, rest);
        lemma_call_settled(before, path, source, code, name, index, calls.last());
        let next = with_calls(state, path, source, code, name, index, calls);
        assert forall|k: int| 0 <= k < calls.len() implies settled(
            next.planned,
            path,
            source,
            code,
            index,
            #[trigger] calls[k],
        ) by {
            if k < rest.len() {
                assert(rest[k] == calls[k]);
                lemma_settled_kept(before.planned, next.planned, path, source, code, index, calls[k]);
            }
        }
    }
}

/// A place that names the symbol on one of the lines is gone through.
proof fn lemma_calls_on(
    source: Seq<char>,
    code: Seq<Token>,
    name: Seq<char>,
    lines: Seq<u32>,
    declared: int,
    count: int,
    at: int,
)
    requires
        0 <= at < count,
        names(source, code[at], name),
        lines.contains(code[at].line),
        at != declared,
    ensures
        calls_on(source, code, name, lines, declared, count).contains(at),
    decreases count,
{
    let calls = calls_on(source, code, name, lines, declared, count);
    if at == count - 1 {
        assert(calls.last() == at);
    } else {
        lemma_calls_on(source, code, name, lines, declared, count - 1, at);
        let before = calls_on(source, code, name, lines, declared, count - 1);
        let i = choose|i: int| 0 <= i < before.len() && before[i] == at;
        assert(calls[i] == at);
    }
}

/// What the lines of a file come to loses nothing that is listed.
proof fn lemma_file_keeps(
    repository: Repository,
    id: Seq<char>,
    planned: PlannedView,
    name: Seq<char>,
    index: int,
    declared: DeclaredView,
    path: Seq<char>,
    lines: Seq<u32>,
)
    requires
        index >= 0,
    ensures
        keeps(
            planned,
            file_edited(repository, id, planned, name, index, declared, path, lines),
        ),
{
    let next = file_edited(repository, id, planned, name, index, declared, path, lines);
    match opened(repository, path) {
        None => {
            lemma_pushed(planned.uncertain, next.uncertain.last());
        },
        Some((source, code)) => {
            let (start, calls) = file_calls(planned, name, declared, path, source, code, lines);
            lemma_calls_settled(start, path, source, code, name, index, calls);
            let edited = with_calls(start, path, source, code, name, index, calls).planned;
            let reports = line_reports(repository, id, path, source, code, name, lines);
            lemma_joined_keeps(edited, reports);
        },
    }
}

/// More that is listed loses nothing.
proof fn lemma_joined_keeps(planned: PlannedView, reports: Seq<JsonView>)
    ensures
        keeps(planned, (PlannedView { uncertain: planned.uncertain + reports, ..planned })),
        forall|value: JsonView|
            reports.contains(value) ==> #[trigger] (planned.uncertain + reports).contains(value),
{
    let all = planned.uncertain + reports;
    assert forall|value: JsonView| planned.uncertain.contains(value) implies #[trigger] all.contains(
        value,
    ) by {
        let i = choose|i: int| 0 <= i < planned.uncertain.len() && planned.uncertain[i] == value;
        assert(all[i] == value);
    }
    assert forall|value: JsonView| reports.contains(value) implies #[trigger] all.contains(
        value,
    ) by {
        let i = choose|i: int| 0 <= i < reports.len() && reports[i] == value;
        assert(all[planned.uncertain.len() + i] == value);
    }
}

/// No proven call is left with its argument in silence: every place that names the symbol on a line
/// the graph attributes to it is edited and listed, or listed as unsettled, or a call that passes no
/// argument at the index. Only the name of the declaration itself is none.
pub proof fn law_every_proven_call_is_settled(
    repository: Repository,
    id: Seq<char>,
    planned: PlannedView,
    name: Seq<char>,
    index: int,
    declared: DeclaredView,
    files: Seq<(Seq<char>, Seq<u32>)>,
    file: int,
    source: Seq<char>,
    code: Seq<Token>,
    at: int,
)
    requires
        index >= 0,
        0 <= file < files.len(),
        opened(repository, files[file].0) == Some((source, code)),
        0 <= at < code.len(),
        names(source, code[at], name),
        files[file].1.contains(code[at].line),
        !(files[file].0 == declared.path && at == declared.at),
    ensures
        settled(
            calls_edited(repository, id, planned, name, index, declared, files),
            files[file].0,
            source,
            code,
            index,
            at,
        ),
    decreases files.len(),
{
    let rest = files.drop_last();
    let before = calls_edited(repository, id, planned, name, index, declared, rest);
    let next = calls_edited(repository, id, planned, name, index, declared, files);
    let (path, lines) = files.last();
    if file < rest.len() {
        assert(rest[file] == files[file]);
        law_every_proven_call_is_settled(
            repository,
            id,
            planned,
            name,
            index,
            declared,
            rest,
            file,
            source,
            code,
            at,
        );
        lemma_file_keeps(repository, id, before, name, index, declared, path, lines);
        lemma_settled_kept(before, next, files[file].0, source, code, index, at);
    } else {
        let (start, calls) = file_calls(before, name, declared, path, source, code, lines);
        let own = if path == declared.path {
            declared.at
        } else {
            -1
        };
        lemma_calls_on(source, code, name, lines, own, code.len() as int, at);
        lemma_calls_settled(start, path, source, code, name, index, calls);
        let edited = with_calls(start, path, source, code, name, index, calls).planned;
        let k = choose|k: int| 0 <= k < calls.len() && calls[k] == at;
        assert(settled(edited, path, source, code, index, calls[k]));
        lemma_joined_keeps(
            edited,
            line_reports(repository, id, path, source, code, name, lines),
        );
        lemma_settled_kept(edited, next, path, source, code, index, at);
    }
}

/// A line that the graph points at is never passed over: where the name stands inside a template of
/// it, or nowhere on it, the line is listed.
pub proof fn law_a_line_without_the_name_is_listed(
    repository: Repository,
    id: Seq<char>,
    planned: PlannedView,
    name: Seq<char>,
    index: int,
    declared: DeclaredView,
    path: Seq<char>,
    lines: Seq<u32>,
    source: Seq<char>,
    code: Seq<Token>,
    line: u32,
)
    requires
        opened(repository, path) == Some((source, code)),
        lines.contains(line),
        identified_on(source, path, name, line) > named_on(source, code, name, line) || (named_on(
            source,
            code,
            name,
            line,
        ) == 0 && pointed_at(repository.graph.edges@, id, path, line)),
    ensures
        is_listed(
            file_edited(repository, id, planned, name, index, declared, path, lines).uncertain,
            path,
            line,
        ),
{
    let (start, calls) = file_calls(planned, name, declared, path, source, code, lines);
    let edited = with_calls(start, path, source, code, name, index, calls).planned;
    let reports = line_reports(repository, id, path, source, code, name, lines);
    let report = line_report(repository, id, path, source, code, name, line)->0;
    lemma_line_reported(repository, id, path, source, code, name, lines, line);
    lemma_joined_keeps(edited, reports);
    assert((edited.uncertain + reports).contains(report));
}

/// What is listed of a line is listed of all of them.
proof fn lemma_line_reported(
    repository: Repository,
    id: Seq<char>,
    path: Seq<char>,
    source: Seq<char>,
    code: Seq<Token>,
    name: Seq<char>,
    lines: Seq<u32>,
    line: u32,
)
    requires
        lines.contains(line),
        line_report(repository, id, path, source, code, name, line) is Some,
    ensures
        line_reports(repository, id, path, source, code, name, lines).contains(
            line_report(repository, id, path, source, code, name, line)->0,
        ),
    decreases lines.len(),
{
    let report = line_report(repository, id, path, source, code, name, line)->0;
    let rest = lines.drop_last();
    let before = line_reports(repository, id, path, source, code, name, rest);
    let all = line_reports(repository, id, path, source, code, name, lines);
    if lines.last() == line {
        assert(all.last() == report);
        assert(all[all.len() - 1] == report);
    } else {
        let i = choose|i: int| 0 <= i < lines.len() && lines[i] == line;
        assert(rest[i] == line);
        lemma_line_reported(repository, id, path, source, code, name, rest, line);
        let k = choose|k: int| 0 <= k < before.len() && before[k] == report;
        assert(all[k] == report);
    }
}

/// A parameter added without a default leaves every proven call to be settled: each is reported.
pub proof fn law_a_missing_default_reports_every_call(
    files: Seq<(Seq<char>, Seq<u32>)>,
    file: int,
    line: int,
)
    requires
        0 <= file < files.len(),
        0 <= line < files[file].1.len(),
    ensures
        values_required(files).contains(value_required(files[file].0, files[file].1[line])),
    decreases files.len(),
{
    let report = value_required(files[file].0, files[file].1[line]);
    let before = values_required(files.drop_last());
    let own = values_required_in(files.last().0, files.last().1);
    if file == files.len() - 1 {
        assert((before + own)[before.len() + line] == report);
    } else {
        assert(files.drop_last()[file] == files[file]);
        law_a_missing_default_reports_every_call(files.drop_last(), file, line);
        let i = choose|i: int| 0 <= i < before.len() && before[i] == report;
        assert((before + own)[i] == report);
    }
}

} // verus!
