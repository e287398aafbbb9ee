//! Symbol-anchored edits: replace a declaration's body, or insert around it.
//!
//! The anchor is the parser range the graph recorded, so this never guesses where a declaration
//! begins. What it cannot do is check that the result still parses, so every plan carries that
//! limit as a warning rather than implying a correctness it did not verify.

use crate::envelope;
use crate::contract;
use crate::coordinates;
use crate::declaration;
use crate::declaration::DeclarationRange;
use crate::evidence;
use crate::fit;
use crate::graph::Repository;
use crate::json;
use crate::json::{Fields, Items, Json, JsonView};
use crate::operations;
use crate::plan;
use crate::plan::{BuilderView, EditView, PlanBuilder, PlanView};
use crate::resolve;
use crate::text;
use crate::words;
use vstd::prelude::*;
use vstd::string::*;

verus! {

/// What an edit needs, once the symbol has been resolved to a real declaration.
pub struct AnchorView {
    pub file: Seq<char>,
    pub source: Seq<char>,
    pub label: Seq<char>,
    pub declaration: DeclarationRange,
}

/// The declaration a symbol resolves to in a readable file, or the refusal that says why not.
pub open spec fn anchored(repository: Repository, symbol: Seq<char>) -> Result<
    AnchorView,
    JsonView,
> {
    let nodes = repository.graph.nodes@;
    match resolve::resolved(nodes, symbol) {
        None => Err(operations::not_found_value(nodes, symbol)),
        Some(at) => match nodes[at].span {
            None => Err(
                JsonView::empty().with_text("status"@, "NOT_A_SYMBOL"@).with_text(
                    "reason"@,
                    "the selected node has no recorded source range, so there is nothing to anchor an edit to"@,
                ).with_text("symbol"@, symbol),
            ),
            Some(span) => match evidence::source_of(repository.sources@, span.file@) {
                None => Err(
                    operations::plain_answer(
                        "SOURCE_UNAVAILABLE"@,
                        span.file@ + ": the file is missing, too large, or not valid UTF-8"@,
                    ),
                ),
                Some(source) => match declaration::located(
                    source,
                    span.file@,
                    nodes[at].label@,
                    span.start_line,
                ) {
                    None => Err(
                        operations::plain_answer(
                            "NOT_A_SYMBOL"@,
                            span.file@ + ": the parser does not report a declaration named "@
                                + nodes[at].label@ + " on line "@ + words::decimal(
                                span.start_line as nat,
                            ) + "; symbol-anchored edits need one"@,
                        ),
                    ),
                    Some(range) => Ok(
                        AnchorView {
                            file: span.file@,
                            source,
                            label: nodes[at].label@,
                            declaration: range,
                        },
                    ),
                },
            },
        },
    }
}

/// The byte range an operation edits, and the text it replaces there.
pub open spec fn target(anchor: AnchorView, operation: Seq<char>) -> (int, int, Seq<char>) {
    let range = anchor.declaration;
    if operation == "replace_symbol_body"@ {
        (
            range.start as int,
            range.end as int,
            if text::sliceable(anchor.source, range.start as int, range.end as int) {
                text::slice(anchor.source, range.start as int, range.end as int)
            } else {
                Seq::empty()
            },
        )
    } else if operation == "insert_before_symbol"@ {
        (range.start as int, range.start as int, Seq::empty())
    } else {
        (range.end as int, range.end as int, Seq::empty())
    }
}

/// The position of a byte offset as a plan carries it: its line and UTF-16 offset.
pub open spec fn plan_position(source: Seq<char>, offset: int) -> Option<(u32, u32)> {
    match coordinates::position(source, offset) {
        Some((line, column)) => match coordinates::converted(source, line, column) {
            Ok(units) => Some((line, units)),
            Err(_) => None,
        },
        None => None,
    }
}

/// The edit an anchored operation makes, where its ends can be located.
pub open spec fn edit_for(anchor: AnchorView, operation: Seq<char>, content: Seq<char>) -> Option<
    EditView,
> {
    let (from, to, before) = target(anchor, operation);
    match (plan_position(anchor.source, from), plan_position(anchor.source, to)) {
        (Some(start), Some(end)) => Some(
            EditView {
                start_line: start.0,
                start_char: start.1,
                end_line: end.0,
                end_char: end.1,
                before,
                after: content,
                provenance: "EXTRACTED"@,
            },
        ),
        _ => None,
    }
}

/// The plan of one edit of an anchored declaration.
pub open spec fn plan_for(anchor: AnchorView, edit: EditView) -> BuilderView {
    BuilderView::start("edit_symbol"@).file(anchor.file, plan::sha256_hex(anchor.source)).edit(edit)
}

/// Whether an operation is one of the three.
pub open spec fn known(operation: Seq<char>) -> bool {
    operation == "replace_symbol_body"@ || operation == "insert_before_symbol"@ || operation
        == "insert_after_symbol"@
}

/// The answer where the operation is none of the three.
pub open spec fn unknown_operation() -> JsonView {
    JsonView::empty().with_text("status"@, "INVALID_ARGS"@).with_text(
        "operation"@,
        "edit_symbol"@,
    ).with_list("invalid"@, Seq::empty().push(JsonView::Text("operation"@))).with_text(
        "reason"@,
        "operation must be one of replace_symbol_body, insert_before_symbol, insert_after_symbol"@,
    )
}

/// The answer to an edit of an anchored declaration.
pub open spec fn anchored_answer(
    anchor: AnchorView,
    operation: Seq<char>,
    content: Seq<char>,
) -> JsonView {
    if !anchor.declaration.end_proven && operation != "insert_before_symbol"@ {
        operations::plain_answer(
            "NOT_SUPPORTED"@,
            anchor.file + ": the end of this declaration could not be located in the source, so "@
                + operation
                + " would place text inside it. insert_before_symbol is unaffected."@,
        )
    } else {
        match edit_for(anchor, operation, content) {
            None => operations::stale_graph_value(anchor.file),
            Some(edit) => JsonView::empty().with_text("status"@, "PLANNED"@).with_text(
                "completeness"@,
                "PARTIAL"@,
            ).with_text("symbol"@, anchor.label).with(
                "plan"@,
                plan::plan_value(plan_for(anchor, edit).plan()),
            ).with_list(
                "warnings"@,
                Seq::empty().push(JsonView::Text("SYNTAX_CHECK_NOT_PERFORMED"@)),
            ).with_text(
                "next"@,
                "apply with apply_edit_plan (preview -> confirm). The native engine does not syntax-check the result, so review it or run the project's own build."@,
            ),
        }
    }
}

/// The answer to `edit_symbol`.
#[verifier::opaque]
pub open spec fn edit_symbol_answer(repository: Repository, arguments: JsonView) -> JsonView {
    match (arguments.text("symbol"@), arguments.text("operation"@), arguments.text("content"@)) {
        (Some(symbol), Some(operation), Some(content)) => if !known(operation) {
            unknown_operation()
        } else {
            match anchored(repository, symbol) {
                Err(refusal) => refusal,
                Ok(anchor) => anchored_answer(anchor, operation, content),
            }
        },
        _ => operations::invalid_args_value(
            "edit_symbol"@,
            seq!["symbol"@, "operation"@, "content"@],
        ),
    }
}

/// What an edit needs, once the symbol has been resolved to a real declaration.
struct Anchor<'a> {
    file: &'a str,
    source: &'a str,
    label: &'a str,
    declaration: DeclarationRange,
}

impl<'a> Anchor<'a> {
    /// The anchor without its representation.
    spec fn view(self) -> AnchorView {
        AnchorView {
            file: self.file@,
            source: self.source@,
            label: self.label@,
            declaration: self.declaration,
        }
    }
}

/// Resolves the symbol to a declaration in a readable file, or the refusal that says why not.
fn anchor<'a>(repository: &'a Repository, symbol: &str) -> (found: Result<Anchor<'a>, Json>)
    ensures
        match (found, anchored(*repository, symbol@)) {
            (Ok(anchor), Ok(expected)) => anchor@ == expected && text::bytes(anchor.source@).len()
                <= evidence::MAX_SOURCE_BYTES,
            (Err(refusal), Err(expected)) => refusal@ == expected,
            _ => false,
        },
{
    let at: usize = match resolve::resolve_symbol(&repository.graph, symbol) {
        Some(at) => at,
        None => {
            return Err(operations::not_found(&repository.graph, symbol));
        },
    };
    let node = &repository.graph.nodes[at];
    let span = match &node.span {
        Some(span) => span,
        None => {
            return Err(
                Fields::new().with_text("status", "NOT_A_SYMBOL").with_text(
                    "reason",
                    "the selected node has no recorded source range, so there is nothing to anchor an edit to",
                ).with_text("symbol", symbol).done(),
            );
        },
    };
    let file = span.file.as_str();
    let source = match evidence::read_source(&repository.sources, file) {
        Some(source) => source,
        None => {
            let reason = file.to_owned().concat(
                ": the file is missing, too large, or not valid UTF-8",
            );
            return Err(operations::answer("SOURCE_UNAVAILABLE", reason.as_str()));
        },
    };
    // The graph span covers the identifier only, so the declaration itself is located in the
    // source. Anchoring an insertion to the name would put it between `pub fn` and the name.
    let range = match declaration::locate(source, file, node.label.as_str(), span.start_line) {
        Some(range) => range,
        None => {
            let reason = file.to_owned().concat(
                ": the parser does not report a declaration named ",
            ).concat(node.label.as_str()).concat(" on line ").concat(
                words::number(span.start_line as u64).as_str(),
            ).concat("; symbol-anchored edits need one");
            return Err(operations::answer("NOT_A_SYMBOL", reason.as_str()));
        },
    };
    Ok(Anchor { file, source, label: node.label.as_str(), declaration: range })
}

/// The position of a byte offset as a plan carries it: its line and UTF-16 offset.
pub(crate) fn locate_offset(source: &str, offset: usize) -> (found: Option<(u32, u32)>)
    requires
        text::bytes(source@).len() < u32::MAX,
    ensures
        found == plan_position(source@, offset as int),
{
    match coordinates::position_of(source, offset) {
        Some((line, column)) => match coordinates::utf16_offset(source, line, column) {
            Ok(units) => Some((line, units)),
            Err(_) => None,
        },
        None => None,
    }
}

/// The answer to an edit of an anchored declaration.
fn edit_anchored(anchored: &Anchor<'_>, operation: &str, content: &str) -> (value: Json)
    requires
        text::bytes(anchored.source@).len() < u32::MAX,
    ensures
        value@ == anchored_answer(anchored@, operation@, content@),
{
    let range = anchored.declaration;
    if !range.end_proven && !text::same(operation, "insert_before_symbol") {
        let reason = anchored.file.to_owned().concat(
            ": the end of this declaration could not be located in the source, so ",
        ).concat(operation).concat(
            " would place text inside it. insert_before_symbol is unaffected.",
        );
        return operations::answer("NOT_SUPPORTED", reason.as_str());
    }
    let mut from: usize = range.end;
    let mut to: usize = range.end;
    proof {
        reveal_strlit("");
    }
    let mut before: &str = "";
    assert(before@ =~= Seq::empty());
    if text::same(operation, "replace_symbol_body") {
        from = range.start;
        match text::get(anchored.source, range.start, range.end) {
            Some(found) => {
                before = found;
            },
            None => {},
        }
    } else if text::same(operation, "insert_before_symbol") {
        // An insertion is a zero-width edit: same position twice, empty `before`.
        from = range.start;
        to = range.start;
    }
    assert(target(anchored@, operation@) == (from as int, to as int, before@));
    let start = match locate_offset(anchored.source, from) {
        Some(start) => start,
        None => {
            return operations::stale_graph(anchored.file);
        },
    };
    let end = match locate_offset(anchored.source, to) {
        Some(end) => end,
        None => {
            return operations::stale_graph(anchored.file);
        },
    };
    let plan = PlanBuilder::new("edit_symbol").file(
        anchored.file,
        plan::sha256_of(anchored.source).as_str(),
    ).edit(start.0, start.1, end.0, end.1, before, content, "EXTRACTED").build();
    let mut warnings = Items::new();
    warnings.push(json::string("SYNTAX_CHECK_NOT_PERFORMED"));
    Fields::new().with_text("status", "PLANNED").with_text("completeness", "PARTIAL").with_text(
        "symbol",
        anchored.label,
    ).with("plan", plan).with_list("warnings", warnings).with_text(
        "next",
        "apply with apply_edit_plan (preview -> confirm). The native engine does not syntax-check the result, so review it or run the project's own build.",
    ).done()
}

/// `edit_symbol`: replaces a declaration, or inserts text before or after it.
pub fn edit_symbol(repository: &Repository, arguments: &Json) -> (value: Json)
    ensures
        value@ == edit_symbol_answer(*repository, arguments@),
{
    proof {
        reveal(edit_symbol_answer);
    }
    let (symbol, operation, content) = match (
        arguments.text("symbol"),
        arguments.text("operation"),
        arguments.text("content"),
    ) {
        (Some(symbol), Some(operation), Some(content)) => (symbol, operation, content),
        _ => {
            return operations::missing_three("edit_symbol", "symbol", "operation", "content");
        },
    };
    if !text::same(operation, "replace_symbol_body") && !text::same(
        operation,
        "insert_before_symbol",
    ) && !text::same(operation, "insert_after_symbol") {
        let mut invalid = Items::new();
        invalid.push(json::string("operation"));
        return Fields::new().with_text("status", "INVALID_ARGS").with_text(
            "operation",
            "edit_symbol",
        ).with_list("invalid", invalid).with_text(
            "reason",
            "operation must be one of replace_symbol_body, insert_before_symbol, insert_after_symbol",
        ).done();
    }
    match anchor(repository, symbol) {
        Ok(anchored) => edit_anchored(&anchored, operation, content),
        Err(refusal) => refusal,
    }
}

/// An insertion is a zero-width edit with nothing before it.
pub proof fn law_an_insertion_is_zero_width(
    anchor: AnchorView,
    operation: Seq<char>,
    content: Seq<char>,
)
    requires
        operation != "replace_symbol_body"@,
        edit_for(anchor, operation, content) is Some,
    ensures
        edit_for(anchor, operation, content)->0.before.len() == 0,
        edit_for(anchor, operation, content)->0.start_line == edit_for(
            anchor,
            operation,
            content,
        )->0.end_line,
        edit_for(anchor, operation, content)->0.start_char == edit_for(
            anchor,
            operation,
            content,
        )->0.end_char,
{
}

/// A replacement carries the exact existing text of the whole declaration as what it replaces.
pub proof fn law_a_replacement_carries_the_existing_text(anchor: AnchorView, content: Seq<char>)
    requires
        text::sliceable(
            anchor.source,
            anchor.declaration.start as int,
            anchor.declaration.end as int,
        ),
        edit_for(anchor, "replace_symbol_body"@, content) is Some,
    ensures
        edit_for(anchor, "replace_symbol_body"@, content)->0.before == text::slice(
            anchor.source,
            anchor.declaration.start as int,
            anchor.declaration.end as int,
        ),
{
}

/// Every answer of this operation keeps to the contract.
pub proof fn law_answers_conform(
    repository: Repository,
    arguments: JsonView,
)
    ensures
        contract::conforms(edit_symbol_answer(repository, arguments)),
{
    broadcast use json::lemma_with_get;

    reveal(edit_symbol_answer);
    contract::lemma_keys();
}

/// The plan of an edit is one that the applier reads back.
pub proof fn law_the_plan_reads_back(
    anchor: AnchorView,
    operation: Seq<char>,
    content: Seq<char>,
)
    requires
        edit_for(anchor, operation, content) is Some,
    ensures
        ({
            let built = plan_for(anchor, edit_for(anchor, operation, content)->0);
            envelope::plan_of(plan::plan_value(built.plan())) == Ok::<PlanView, Seq<char>>(
                built.plan(),
            )
        }),
{
    broadcast use envelope::lemma_sound_start, envelope::lemma_sound_file,
        envelope::lemma_sound_edit;

    let edit = edit_for(anchor, operation, content)->0;
    let opened = BuilderView::start("edit_symbol"@).file(
        anchor.file,
        plan::sha256_hex(anchor.source),
    );
    let built = plan_for(anchor, edit);
    assert(built.files[0].edits.len() == 1);
    envelope::law_a_sound_plan_reads_back(built);
}

/// An edit of a byte range stands where it replaces what the range holds.
pub proof fn lemma_range_stands(source: Seq<char>, edit: EditView, from: int, to: int)
    requires
        text::bytes(source).len() < u32::MAX,
        plan_position(source, from) == Some((edit.start_line, edit.start_char)),
        plan_position(source, to) == Some((edit.end_line, edit.end_char)),
        text::sliceable(source, from, to),
        edit.before == text::slice(source, from, to),
    ensures
        fit::stands(source, edit),
{
    let start = coordinates::position(source, from)->0;
    let end = coordinates::position(source, to)->0;
    fit::lemma_position_names(source, from, start.0, start.1);
    fit::lemma_position_names(source, to, end.0, end.1);
    assert(fit::stands_at(source, edit, from, to));
}

/// The edit of an anchored declaration stands in its source, where the declaration does not end
/// before it starts.
proof fn lemma_edit_stands(anchor: AnchorView, operation: Seq<char>, content: Seq<char>)
    requires
        text::bytes(anchor.source).len() < u32::MAX,
        anchor.declaration.start <= anchor.declaration.end,
        edit_for(anchor, operation, content) is Some,
    ensures
        fit::stands(anchor.source, edit_for(anchor, operation, content)->0),
{
    let (from, to, before) = target(anchor, operation);
    if from == to {
        text::lemma_nothing_between(anchor.source, from);
    }
    lemma_range_stands(anchor.source, edit_for(anchor, operation, content)->0, from, to);
}

/// Every edit of a plan stands in the source it was made from: the text it replaces is the text
/// between its positions, and its file carries that source's hash. A declaration that the parser
/// ends before it starts is left out.
pub proof fn law_the_plan_fits_the_sources(repository: Repository, arguments: JsonView)
    requires
        arguments.text("symbol"@) matches Some(symbol) ==> (anchored(repository, symbol) matches Ok(
            anchor,
        ) ==> anchor.declaration.start <= anchor.declaration.end),
    ensures
        fit::answer_fits(repository.sources@, edit_symbol_answer(repository, arguments)),
{
    broadcast use json::lemma_with_get, envelope::lemma_sound_start, envelope::lemma_sound_file,
        envelope::lemma_sound_edit;

    reveal(edit_symbol_answer);
    fit::lemma_plan_key();
    let sources = repository.sources@;
    let answer = edit_symbol_answer(repository, arguments);
    match (arguments.text("symbol"@), arguments.text("operation"@), arguments.text("content"@)) {
        (Some(symbol), Some(operation), Some(content)) => match anchored(repository, symbol) {
            Ok(anchor) => match edit_for(anchor, operation, content) {
                Some(edit) => {
                    let empty = BuilderView::start("edit_symbol"@);
                    let opened = empty.file(anchor.file, plan::sha256_hex(anchor.source));
                    fit::lemma_source_bound(sources, anchor.file);
                    fit::lemma_fits_start(sources, "edit_symbol"@);
                    fit::lemma_fits_file(sources, empty, anchor.file, anchor.source);
                    lemma_edit_stands(anchor, operation, content);
                    fit::lemma_fits_edit(sources, opened, anchor.source, edit);
                    if known(operation) && (anchor.declaration.end_proven || operation
                        == "insert_before_symbol"@) {
                        fit::lemma_answer_fits(sources, answer, plan_for(anchor, edit));
                    }
                },
                None => {},
            },
            Err(_) => {},
        },
        _ => {},
    }
}

} // verus!
