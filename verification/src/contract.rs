//! The tool contract: the tools, their schemas, and the states they answer with.
//!
//! This is the only source of the tool catalog, so no operation can drift from the schemas agents
//! already depend on: a change to a name, a schema or a state is a change of this module, and
//! that is a contract-version decision.

use crate::json;
use crate::json::{Fields, Items, Json, JsonView};
use crate::order;
use crate::text;
use vstd::prelude::*;
use vstd::string::*;

verus! {

/// Version of the tool contract.
pub const CONTRACT_VERSION: u32 = 1;

/// One tool exactly as the contract records it.
pub struct ToolContract {
    /// Tool name as agents call it.
    pub name: String,
    /// Description shown in the catalog.
    pub description: String,
    /// JSON Schema for the tool's arguments.
    pub input_schema: Json,
}

/// A status an operation is allowed to answer with.
///
/// An operation that needs a state outside the contract is not conformant; the contract must be
/// versioned first. This is the rule that keeps every client answerable to one vocabulary.
#[derive(Debug, Clone, PartialEq, Eq, PartialOrd, Ord)]
pub struct ResultState(pub String);

/// One tool as a mathematical value.
#[verifier::ext_equal]
pub struct ToolView {
    pub name: Seq<char>,
    pub description: Seq<char>,
    pub input_schema: JsonView,
}

impl ToolContract {
    /// The tool without its representation.
    pub open spec fn view(self) -> ToolView {
        ToolView {
            name: self.name@,
            description: self.description@,
            input_schema: self.input_schema@,
        }
    }
}

/// The tools of a list without their representation.
pub open spec fn tools_view(tools: Seq<ToolContract>) -> Seq<ToolView> {
    Seq::new(tools.len(), |i: int| tools[i].view())
}

/// The names of the tools, in contract order.
pub open spec fn tool_names() -> Seq<Seq<char>> {
    seq![
        "rename_symbol"@,
        "rename_related_symbols"@,
        "apply_edit_plan"@,
        "rollback_last_apply"@,
        "change_signature"@,
        "edit_symbol"@,
        "bulk_replace"@,
        "organize_imports"@,
        "move_file"@,
        "move_symbol"@,
        "delete_readiness"@,
    ]
}

/// Whether an answer keeps to the contract: it carries a status that an answer may carry, and it
/// claims no more than `PARTIAL` of what was planned.
pub open spec fn conforms(answer: JsonView) -> bool {
    &&& answer.text("status"@) matches Some(status) && answer_status(status)
    &&& answer.text("completeness"@) matches Some(claim) ==> claim == "PARTIAL"@
}

/// No other key of an answer is the one that claims completeness.
pub(crate) proof fn lemma_keys()
    ensures
        "status"@ != "completeness"@,
        "reason"@ != "completeness"@,
        "file"@ != "completeness"@,
        "next"@ != "completeness"@,
        "symbol"@ != "completeness"@,
        "warnings"@ != "completeness"@,
        "plan"@ != "completeness"@,
        "from"@ != "completeness"@,
        "files"@ != "completeness"@,
        "to"@ != "completeness"@,
        "expiresAt"@ != "completeness"@,
        "confirmToken"@ != "completeness"@,
        "uncertainReferences"@ != "completeness"@,
        "renamedEdits"@ != "completeness"@,
        "operation"@ != "completeness"@,
        "backend"@ != "completeness"@,
        "uncertain"@ != "completeness"@,
        "totalEdits"@ != "completeness"@,
        "total"@ != "completeness"@,
        "scannedFiles"@ != "completeness"@,
        "renames"@ != "completeness"@,
        "removed"@ != "completeness"@,
        "newName"@ != "completeness"@,
        "verdict"@ != "completeness"@,
        "undoId"@ != "completeness"@,
        "transactionId"@ != "completeness"@,
        "previewed"@ != "completeness"@,
        "ordering"@ != "completeness"@,
        "move"@ != "completeness"@,
        "invalid"@ != "completeness"@,
        "importers"@ != "completeness"@,
        "candidates"@ != "completeness"@,
        "unknownDynamicUsages"@ != "completeness"@,
        "unknown"@ != "completeness"@,
        "specifierEdits"@ != "completeness"@,
        "safe"@ != "completeness"@,
        "rollbackTransactionId"@ != "completeness"@,
        "restored"@ != "completeness"@,
        "previewBlocked"@ != "completeness"@,
        "oldName"@ != "completeness"@,
        "occurrences"@ != "completeness"@,
        "note"@ != "completeness"@,
        "newDependencies"@ != "completeness"@,
        "language"@ != "completeness"@,
        "knownReferences"@ != "completeness"@,
        "introduced"@ != "completeness"@,
        "fidelity"@ != "completeness"@,
        "failed"@ != "completeness"@,
        "deletion"@ != "completeness"@,
        "declaration"@ != "completeness"@,
        "cycles"@ != "completeness"@,
        "conflicts"@ != "completeness"@,
        "confidence"@ != "completeness"@,
        "checkedBindings"@ != "completeness"@,
        "cause"@ != "completeness"@,
        "capped"@ != "completeness"@,
        "callSites"@ != "completeness"@,
        "blastRadius"@ != "completeness"@,
{
    reveal_strlit("completeness");
    assert("completeness"@.len() == 12);
    assert("completeness"@[2] == 'm');
    reveal_strlit("status");
    assert("status"@.len() == 6);
    reveal_strlit("reason");
    assert("reason"@.len() == 6);
    reveal_strlit("file");
    assert("file"@.len() == 4);
    reveal_strlit("next");
    assert("next"@.len() == 4);
    reveal_strlit("symbol");
    assert("symbol"@.len() == 6);
    reveal_strlit("warnings");
    assert("warnings"@.len() == 8);
    reveal_strlit("plan");
    assert("plan"@.len() == 4);
    reveal_strlit("from");
    assert("from"@.len() == 4);
    reveal_strlit("files");
    assert("files"@.len() == 5);
    reveal_strlit("to");
    assert("to"@.len() == 2);
    reveal_strlit("expiresAt");
    assert("expiresAt"@.len() == 9);
    reveal_strlit("confirmToken");
    assert("confirmToken"@.len() == 12);
    assert("confirmToken"@[2] == 'n');
    reveal_strlit("uncertainReferences");
    assert("uncertainReferences"@.len() == 19);
    reveal_strlit("renamedEdits");
    assert("renamedEdits"@.len() == 12);
    assert("renamedEdits"@[2] == 'n');
    reveal_strlit("operation");
    assert("operation"@.len() == 9);
    reveal_strlit("backend");
    assert("backend"@.len() == 7);
    reveal_strlit("uncertain");
    assert("uncertain"@.len() == 9);
    reveal_strlit("totalEdits");
    assert("totalEdits"@.len() == 10);
    reveal_strlit("total");
    assert("total"@.len() == 5);
    reveal_strlit("scannedFiles");
    assert("scannedFiles"@.len() == 12);
    assert("scannedFiles"@[2] == 'a');
    reveal_strlit("renames");
    assert("renames"@.len() == 7);
    reveal_strlit("removed");
    assert("removed"@.len() == 7);
    reveal_strlit("newName");
    assert("newName"@.len() == 7);
    reveal_strlit("verdict");
    assert("verdict"@.len() == 7);
    reveal_strlit("undoId");
    assert("undoId"@.len() == 6);
    reveal_strlit("transactionId");
    assert("transactionId"@.len() == 13);
    reveal_strlit("previewed");
    assert("previewed"@.len() == 9);
    reveal_strlit("ordering");
    assert("ordering"@.len() == 8);
    reveal_strlit("move");
    assert("move"@.len() == 4);
    reveal_strlit("invalid");
    assert("invalid"@.len() == 7);
    reveal_strlit("importers");
    assert("importers"@.len() == 9);
    reveal_strlit("candidates");
    assert("candidates"@.len() == 10);
    reveal_strlit("unknownDynamicUsages");
    assert("unknownDynamicUsages"@.len() == 20);
    reveal_strlit("unknown");
    assert("unknown"@.len() == 7);
    reveal_strlit("specifierEdits");
    assert("specifierEdits"@.len() == 14);
    reveal_strlit("safe");
    assert("safe"@.len() == 4);
    reveal_strlit("rollbackTransactionId");
    assert("rollbackTransactionId"@.len() == 21);
    reveal_strlit("restored");
    assert("restored"@.len() == 8);
    reveal_strlit("previewBlocked");
    assert("previewBlocked"@.len() == 14);
    reveal_strlit("oldName");
    assert("oldName"@.len() == 7);
    reveal_strlit("occurrences");
    assert("occurrences"@.len() == 11);
    reveal_strlit("note");
    assert("note"@.len() == 4);
    reveal_strlit("newDependencies");
    assert("newDependencies"@.len() == 15);
    reveal_strlit("language");
    assert("language"@.len() == 8);
    reveal_strlit("knownReferences");
    assert("knownReferences"@.len() == 15);
    reveal_strlit("introduced");
    assert("introduced"@.len() == 10);
    reveal_strlit("fidelity");
    assert("fidelity"@.len() == 8);
    reveal_strlit("failed");
    assert("failed"@.len() == 6);
    reveal_strlit("deletion");
    assert("deletion"@.len() == 8);
    reveal_strlit("declaration");
    assert("declaration"@.len() == 11);
    reveal_strlit("cycles");
    assert("cycles"@.len() == 6);
    reveal_strlit("conflicts");
    assert("conflicts"@.len() == 9);
    reveal_strlit("confidence");
    assert("confidence"@.len() == 10);
    reveal_strlit("checkedBindings");
    assert("checkedBindings"@.len() == 15);
    reveal_strlit("cause");
    assert("cause"@.len() == 5);
    reveal_strlit("capped");
    assert("capped"@.len() == 6);
    reveal_strlit("callSites");
    assert("callSites"@.len() == 9);
    reveal_strlit("blastRadius");
    assert("blastRadius"@.len() == 11);
}

/// Whether a name is one of the tools.
pub open spec fn declared(name: Seq<char>) -> bool {
    name == "rename_symbol"@
        || name == "rename_related_symbols"@
        || name == "apply_edit_plan"@
        || name == "rollback_last_apply"@
        || name == "change_signature"@
        || name == "edit_symbol"@
        || name == "bulk_replace"@
        || name == "organize_imports"@
        || name == "move_file"@
        || name == "move_symbol"@
        || name == "delete_readiness"@
}

/// A status that an answer carries.
pub open spec fn answer_status(state: Seq<char>) -> bool {
    state == "NOT_FOUND"@
        || state == "STALE_GRAPH"@
        || state == "INVALID_ARGS"@
        || state == "REPO_BUSY"@
        || state == "STALE"@
        || state == "ROLLBACK_INCOMPLETE"@
        || state == "INVALID_PLAN"@
        || state == "WRITE_GATE_CLOSED"@
        || state == "PREVIEW_OK"@
        || state == "PREVIEW_BLOCKED"@
        || state == "APPLIED"@
        || state == "NO_CHANGE"@
        || state == "ROLLED_BACK"@
        || state == "INVALID_PATTERN"@
        || state == "ZERO_WIDTH_UNSUPPORTED"@
        || state == "NO_MATCHES"@
        || state == "PREVIEW"@
        || state == "NO_SELECTION"@
        || state == "UNKNOWN_OCCURRENCES"@
        || state == "COUNT_MISMATCH"@
        || state == "SOURCE_UNAVAILABLE"@
        || state == "PLANNED"@
        || state == "NOT_A_SYMBOL"@
        || state == "EVALUATED"@
        || state == "NOT_SUPPORTED"@
        || state == "OK"@
        || state == "FILE_TOO_LARGE"@
        || state == "UNPROVEN"@
        || state == "NO_UNUSED_IMPORTS"@
        || state == "BLOCKED"@
        || state == "CONFLICT"@
        || state == "INVALID_NEW_NAME"@
        || state == "NO_EDITS"@
        || state == "TOKEN_UNKNOWN"@
        || state == "TOKEN_EXPIRED"@
        || state == "TOKEN_REPOSITORY_MISMATCH"@
        || state == "TOKEN_PLAN_MISMATCH"@
}

/// A claim about how much of a change was planned.
pub open spec fn completeness(state: Seq<char>) -> bool {
    state == "COMPLETE"@ || state == "PARTIAL"@
}

/// A class of evidence for an edit.
pub open spec fn provenance_class(state: Seq<char>) -> bool {
    state == "EXACT_LSP"@ || state == "RESOLVED"@ || state == "EXTRACTED"@ || state
        == "LEXICAL_EXACT"@ || state == "INFERRED"@
}

/// A verdict of an evaluation.
pub open spec fn verdict(state: Seq<char>) -> bool {
    state == "FEASIBLE"@ || state == "WOULD_VIOLATE"@ || state == "REVIEW_REQUIRED"@
}

/// Whether the contract permits a state.
pub open spec fn permitted(state: Seq<char>) -> bool {
    answer_status(state) || completeness(state) || provenance_class(state) || verdict(state)
}

/// Whether a name is one of the tools.
pub fn declares(name: &str) -> (found: bool)
    ensures
        found == declared(name@),
{
    text::same(name, "rename_symbol")
        || text::same(name, "rename_related_symbols")
        || text::same(name, "apply_edit_plan")
        || text::same(name, "rollback_last_apply")
        || text::same(name, "change_signature")
        || text::same(name, "edit_symbol")
        || text::same(name, "bulk_replace")
        || text::same(name, "organize_imports")
        || text::same(name, "move_file")
        || text::same(name, "move_symbol")
        || text::same(name, "delete_readiness")
}

/// Whether a state is a status that an answer carries.
fn is_answer_status(state: &str) -> (found: bool)
    ensures
        found == answer_status(state@),
{
    text::same(state, "NOT_FOUND")
        || text::same(state, "STALE_GRAPH")
        || text::same(state, "INVALID_ARGS")
        || text::same(state, "REPO_BUSY")
        || text::same(state, "STALE")
        || text::same(state, "ROLLBACK_INCOMPLETE")
        || text::same(state, "INVALID_PLAN")
        || text::same(state, "WRITE_GATE_CLOSED")
        || text::same(state, "PREVIEW_OK")
        || text::same(state, "PREVIEW_BLOCKED")
        || text::same(state, "APPLIED")
        || text::same(state, "NO_CHANGE")
        || text::same(state, "ROLLED_BACK")
        || text::same(state, "INVALID_PATTERN")
        || text::same(state, "ZERO_WIDTH_UNSUPPORTED")
        || text::same(state, "NO_MATCHES")
        || text::same(state, "PREVIEW")
        || text::same(state, "NO_SELECTION")
        || text::same(state, "UNKNOWN_OCCURRENCES")
        || text::same(state, "COUNT_MISMATCH")
        || text::same(state, "SOURCE_UNAVAILABLE")
        || text::same(state, "PLANNED")
        || text::same(state, "NOT_A_SYMBOL")
        || text::same(state, "EVALUATED")
        || text::same(state, "NOT_SUPPORTED")
        || text::same(state, "OK")
        || text::same(state, "FILE_TOO_LARGE")
        || text::same(state, "UNPROVEN")
        || text::same(state, "NO_UNUSED_IMPORTS")
        || text::same(state, "BLOCKED")
        || text::same(state, "CONFLICT")
        || text::same(state, "INVALID_NEW_NAME")
        || text::same(state, "NO_EDITS")
        || text::same(state, "TOKEN_UNKNOWN")
        || text::same(state, "TOKEN_EXPIRED")
        || text::same(state, "TOKEN_REPOSITORY_MISMATCH")
        || text::same(state, "TOKEN_PLAN_MISMATCH")
}

/// Whether `state` is a status the contract permits an operation to answer with.
pub fn permits_state(state: &str) -> (found: bool)
    ensures
        found == permitted(state@),
{
    is_answer_status(state) || text::same(state, "COMPLETE") || text::same(state, "PARTIAL")
        || text::same(state, "EXACT_LSP") || text::same(state, "RESOLVED") || text::same(
        state,
        "EXTRACTED",
    ) || text::same(state, "LEXICAL_EXACT") || text::same(state, "INFERRED") || text::same(
        state,
        "FEASIBLE",
    ) || text::same(state, "WOULD_VIOLATE") || text::same(state, "REVIEW_REQUIRED")
}

/// The schema of one argument: its type.
pub open spec fn argument_schema(kind: Seq<char>) -> JsonView {
    JsonView::empty().with_text("type"@, kind)
}

/// The schema of one argument: its type.
fn argument(kind: &str) -> (value: Json)
    ensures
        value@ == argument_schema(kind@),
{
    Fields::new().with_text("type", kind).done()
}

/// The schema of a tool's arguments.
pub open spec fn schema_value(properties: JsonView, required: Seq<JsonView>) -> JsonView {
    JsonView::empty().with_text("type"@, "object"@).with("properties"@, properties).with_list(
        "required"@,
        required,
    )
}

/// One tool with its schema.
fn tool(name: &str, description: &str, properties: Fields, required: Items) -> (built: ToolContract)
    ensures
        built@ == (ToolView {
            name: name@,
            description: description@,
            input_schema: schema_value(properties@, required@),
        }),
{
    let input_schema = Fields::new().with_text("type", "object").with(
        "properties",
        properties.done(),
    ).with_list("required", required).done();
    ToolContract { name: name.to_owned(), description: description.to_owned(), input_schema }
}

/// The `rename_symbol` tool as the contract records it.
pub open spec fn rename_symbol_tool() -> ToolView {
    ToolView {
        name: "rename_symbol"@,
        description: "Renames one symbol at every site the graph proves, and previews its own plan."@,
        input_schema: schema_value(
            JsonView::empty().with(
            "symbol"@,
            argument_schema("string"@),
        ).with(
            "new_name"@,
            argument_schema("string"@),
        ).with(
            "mode"@,
            argument_schema("string"@),
        ).with(
            "confirm_token"@,
            argument_schema("string"@),
        ),
            Seq::<JsonView>::empty().push(JsonView::Text("symbol"@)).push(JsonView::Text("new_name"@)),
        ),
    }
}

/// The `rename_symbol` tool as the contract records it.
fn rename_symbol() -> (built: ToolContract)
    ensures
        built@ == rename_symbol_tool(),
{
    let mut required = Items::new();
    required.push(json::string("symbol"));
    required.push(json::string("new_name"));
    tool(
        "rename_symbol",
        "Renames one symbol at every site the graph proves, and previews its own plan.",
        Fields::new().with("symbol", argument("string")).with("new_name", argument("string")).with("mode", argument("string")).with("confirm_token", argument("string")),
        required,
    )
}

/// The `rename_related_symbols` tool as the contract records it.
pub open spec fn rename_related_symbols_tool() -> ToolView {
    ToolView {
        name: "rename_related_symbols"@,
        description: "Renames several symbols in one transaction, or none of them."@,
        input_schema: schema_value(
            JsonView::empty().with(
            "renames"@,
            argument_schema("array"@),
        ).with(
            "mode"@,
            argument_schema("string"@),
        ).with(
            "confirm_token"@,
            argument_schema("string"@),
        ),
            Seq::<JsonView>::empty().push(JsonView::Text("renames"@)),
        ),
    }
}

/// The `rename_related_symbols` tool as the contract records it.
fn rename_related_symbols() -> (built: ToolContract)
    ensures
        built@ == rename_related_symbols_tool(),
{
    let mut required = Items::new();
    required.push(json::string("renames"));
    tool(
        "rename_related_symbols",
        "Renames several symbols in one transaction, or none of them.",
        Fields::new().with("renames", argument("array")).with("mode", argument("string")).with("confirm_token", argument("string")),
        required,
    )
}

/// The `apply_edit_plan` tool as the contract records it.
pub open spec fn apply_edit_plan_tool() -> ToolView {
    ToolView {
        name: "apply_edit_plan"@,
        description: "Previews a plan against the working tree, and applies it once it is confirmed."@,
        input_schema: schema_value(
            JsonView::empty().with(
            "plan"@,
            argument_schema("object"@),
        ).with(
            "mode"@,
            argument_schema("string"@),
        ).with(
            "confirm_token"@,
            argument_schema("string"@),
        ),
            Seq::<JsonView>::empty(),
        ),
    }
}

/// The `apply_edit_plan` tool as the contract records it.
fn apply_edit_plan() -> (built: ToolContract)
    ensures
        built@ == apply_edit_plan_tool(),
{
    let mut required = Items::new();
    tool(
        "apply_edit_plan",
        "Previews a plan against the working tree, and applies it once it is confirmed.",
        Fields::new().with("plan", argument("object")).with("mode", argument("string")).with("confirm_token", argument("string")),
        required,
    )
}

/// The `rollback_last_apply` tool as the contract records it.
pub open spec fn rollback_last_apply_tool() -> ToolView {
    ToolView {
        name: "rollback_last_apply"@,
        description: "Restores the contents that the last apply replaced."@,
        input_schema: schema_value(
            JsonView::empty(),
            Seq::<JsonView>::empty(),
        ),
    }
}

/// The `rollback_last_apply` tool as the contract records it.
fn rollback_last_apply() -> (built: ToolContract)
    ensures
        built@ == rollback_last_apply_tool(),
{
    let mut required = Items::new();
    tool(
        "rollback_last_apply",
        "Restores the contents that the last apply replaced.",
        Fields::new(),
        required,
    )
}

/// The `change_signature` tool as the contract records it.
pub open spec fn change_signature_tool() -> ToolView {
    ToolView {
        name: "change_signature"@,
        description: "Adds or removes a parameter, with the argument at each call site the graph proves."@,
        input_schema: schema_value(
            JsonView::empty().with(
            "symbol"@,
            argument_schema("string"@),
        ).with(
            "operation"@,
            argument_schema("object"@),
        ),
            Seq::<JsonView>::empty().push(JsonView::Text("symbol"@)).push(JsonView::Text("operation"@)),
        ),
    }
}

/// The `change_signature` tool as the contract records it.
fn change_signature() -> (built: ToolContract)
    ensures
        built@ == change_signature_tool(),
{
    let mut required = Items::new();
    required.push(json::string("symbol"));
    required.push(json::string("operation"));
    tool(
        "change_signature",
        "Adds or removes a parameter, with the argument at each call site the graph proves.",
        Fields::new().with("symbol", argument("string")).with("operation", argument("object")),
        required,
    )
}

/// The `edit_symbol` tool as the contract records it.
pub open spec fn edit_symbol_tool() -> ToolView {
    ToolView {
        name: "edit_symbol"@,
        description: "Replaces a declaration, or inserts text before or after it."@,
        input_schema: schema_value(
            JsonView::empty().with(
            "symbol"@,
            argument_schema("string"@),
        ).with(
            "operation"@,
            argument_schema("string"@),
        ).with(
            "content"@,
            argument_schema("string"@),
        ),
            Seq::<JsonView>::empty().push(JsonView::Text("symbol"@)).push(JsonView::Text("operation"@)).push(JsonView::Text("content"@)),
        ),
    }
}

/// The `edit_symbol` tool as the contract records it.
fn edit_symbol() -> (built: ToolContract)
    ensures
        built@ == edit_symbol_tool(),
{
    let mut required = Items::new();
    required.push(json::string("symbol"));
    required.push(json::string("operation"));
    required.push(json::string("content"));
    tool(
        "edit_symbol",
        "Replaces a declaration, or inserts text before or after it.",
        Fields::new().with("symbol", argument("string")).with("operation", argument("string")).with("content", argument("string")),
        required,
    )
}

/// The `bulk_replace` tool as the contract records it.
pub open spec fn bulk_replace_tool() -> ToolView {
    ToolView {
        name: "bulk_replace"@,
        description: "Lists the occurrences of a pattern, and plans the replacement of those selected."@,
        input_schema: schema_value(
            JsonView::empty().with(
            "pattern"@,
            argument_schema("string"@),
        ).with(
            "replacement"@,
            argument_schema("string"@),
        ).with(
            "literal"@,
            argument_schema("boolean"@),
        ).with(
            "flags"@,
            argument_schema("string"@),
        ).with(
            "path_prefix"@,
            argument_schema("string"@),
        ).with(
            "occurrence_ids"@,
            argument_schema("array"@),
        ).with(
            "expected_count"@,
            argument_schema("integer"@),
        ),
            Seq::<JsonView>::empty().push(JsonView::Text("pattern"@)).push(JsonView::Text("replacement"@)),
        ),
    }
}

/// The `bulk_replace` tool as the contract records it.
fn bulk_replace() -> (built: ToolContract)
    ensures
        built@ == bulk_replace_tool(),
{
    let mut required = Items::new();
    required.push(json::string("pattern"));
    required.push(json::string("replacement"));
    tool(
        "bulk_replace",
        "Lists the occurrences of a pattern, and plans the replacement of those selected.",
        Fields::new().with("pattern", argument("string")).with("replacement", argument("string")).with("literal", argument("boolean")).with("flags", argument("string")).with("path_prefix", argument("string")).with("occurrence_ids", argument("array")).with("expected_count", argument("integer")),
        required,
    )
}

/// The `organize_imports` tool as the contract records it.
pub open spec fn organize_imports_tool() -> ToolView {
    ToolView {
        name: "organize_imports"@,
        description: "Removes the named imports of a file that nothing in it uses."@,
        input_schema: schema_value(
            JsonView::empty().with(
            "file"@,
            argument_schema("string"@),
        ),
            Seq::<JsonView>::empty().push(JsonView::Text("file"@)),
        ),
    }
}

/// The `organize_imports` tool as the contract records it.
fn organize_imports() -> (built: ToolContract)
    ensures
        built@ == organize_imports_tool(),
{
    let mut required = Items::new();
    required.push(json::string("file"));
    tool(
        "organize_imports",
        "Removes the named imports of a file that nothing in it uses.",
        Fields::new().with("file", argument("string")),
        required,
    )
}

/// The `move_file` tool as the contract records it.
pub open spec fn move_file_tool() -> ToolView {
    ToolView {
        name: "move_file"@,
        description: "Rewrites the relative import specifiers that moving a file would break."@,
        input_schema: schema_value(
            JsonView::empty().with(
            "from"@,
            argument_schema("string"@),
        ).with(
            "to"@,
            argument_schema("string"@),
        ),
            Seq::<JsonView>::empty().push(JsonView::Text("from"@)).push(JsonView::Text("to"@)),
        ),
    }
}

/// The `move_file` tool as the contract records it.
fn move_file() -> (built: ToolContract)
    ensures
        built@ == move_file_tool(),
{
    let mut required = Items::new();
    required.push(json::string("from"));
    required.push(json::string("to"));
    tool(
        "move_file",
        "Rewrites the relative import specifiers that moving a file would break.",
        Fields::new().with("from", argument("string")).with("to", argument("string")),
        required,
    )
}

/// The `move_symbol` tool as the contract records it.
pub open spec fn move_symbol_tool() -> ToolView {
    ToolView {
        name: "move_symbol"@,
        description: "Evaluates what moving a declaration would do to the dependency structure."@,
        input_schema: schema_value(
            JsonView::empty().with(
            "symbol"@,
            argument_schema("string"@),
        ).with(
            "to_file"@,
            argument_schema("string"@),
        ),
            Seq::<JsonView>::empty().push(JsonView::Text("symbol"@)).push(JsonView::Text("to_file"@)),
        ),
    }
}

/// The `move_symbol` tool as the contract records it.
fn move_symbol() -> (built: ToolContract)
    ensures
        built@ == move_symbol_tool(),
{
    let mut required = Items::new();
    required.push(json::string("symbol"));
    required.push(json::string("to_file"));
    tool(
        "move_symbol",
        "Evaluates what moving a declaration would do to the dependency structure.",
        Fields::new().with("symbol", argument("string")).with("to_file", argument("string")),
        required,
    )
}

/// The `delete_readiness` tool as the contract records it.
pub open spec fn delete_readiness_tool() -> ToolView {
    ToolView {
        name: "delete_readiness"@,
        description: "Tells whether anything still depends on a symbol."@,
        input_schema: schema_value(
            JsonView::empty().with(
            "symbol"@,
            argument_schema("string"@),
        ),
            Seq::<JsonView>::empty().push(JsonView::Text("symbol"@)),
        ),
    }
}

/// The `delete_readiness` tool as the contract records it.
fn delete_readiness() -> (built: ToolContract)
    ensures
        built@ == delete_readiness_tool(),
{
    let mut required = Items::new();
    required.push(json::string("symbol"));
    tool(
        "delete_readiness",
        "Tells whether anything still depends on a symbol.",
        Fields::new().with("symbol", argument("string")),
        required,
    )
}

/// Every tool of the contract, in contract order.
pub open spec fn all_tools() -> Seq<ToolView> {
    Seq::empty().push(rename_symbol_tool()).push(rename_related_symbols_tool()).push(apply_edit_plan_tool()).push(rollback_last_apply_tool()).push(change_signature_tool()).push(edit_symbol_tool()).push(bulk_replace_tool()).push(organize_imports_tool()).push(move_file_tool()).push(move_symbol_tool()).push(delete_readiness_tool())
}

/// Every tool the contract declares, in contract order.
pub fn tools() -> (all: Vec<ToolContract>)
    ensures
        tools_view(all@) == all_tools(),
{
    let mut all: Vec<ToolContract> = Vec::new();
    all.push(rename_symbol());
    all.push(rename_related_symbols());
    all.push(apply_edit_plan());
    all.push(rollback_last_apply());
    all.push(change_signature());
    all.push(edit_symbol());
    all.push(bulk_replace());
    all.push(organize_imports());
    all.push(move_file());
    all.push(move_symbol());
    all.push(delete_readiness());
    assert(tools_view(all@) =~= all_tools());
    all
}

/// One tool as the catalog lists it.
pub open spec fn tool_value(tool: ToolView) -> JsonView {
    JsonView::empty().with_text("name"@, tool.name).with_text("description"@, tool.description).with(
        "inputSchema"@,
        tool.input_schema,
    )
}

/// Tools as the catalog lists them.
pub open spec fn catalog_of(tools: Seq<ToolView>) -> Seq<JsonView> {
    Seq::new(tools.len(), |i: int| tool_value(tools[i]))
}

/// The catalog exactly as the contract records it, ready for a tool listing.
pub fn catalog_value() -> (value: Json)
    ensures
        value@ == JsonView::List(catalog_of(all_tools())),
{
    let all = tools();
    let mut items = Items::new();
    let mut i: usize = 0;
    while i < all.len()
        invariant
            i <= all@.len(),
            tools_view(all@) == all_tools(),
            items@ =~= catalog_of(all_tools()).take(i as int),
        decreases all@.len() - i,
    {
        let tool = &all[i];
        assert(all_tools()[i as int] == tool@);
        items.push(
            Fields::new().with_text("name", tool.name.as_str()).with_text(
                "description",
                tool.description.as_str(),
            ).with("inputSchema", tool.input_schema.duplicate()).done(),
        );
        i += 1;
    }
    assert(items@ =~= catalog_of(all_tools()));
    items.done()
}

/// The names of a list of tools.
pub open spec fn names_of(tools: Seq<ToolView>) -> Seq<Seq<char>> {
    Seq::new(tools.len(), |i: int| tools[i].name)
}

/// The tools of the contract are the declared names, each once, and no other.
pub proof fn law_the_tools_are_the_declared_names(name: Seq<char>)
    ensures
        names_of(all_tools()) == tool_names(),
        declared(name) <==> tool_names().contains(name),
        catalog_of(all_tools()).len() == tool_names().len(),
{
    assert(names_of(all_tools()) =~= tool_names());
    let names = tool_names();
    if declared(name) {
        assert(name == names[0] || name == names[1] || name == names[2] || name == names[3] || name
            == names[4] || name == names[5] || name == names[6] || name == names[7] || name
            == names[8] || name == names[9] || name == names[10]);
    }
}

/// A contract as a document records it.
pub struct Contract {
    pub tools: Vec<ToolContract>,
    pub states: Vec<String>,
    pub catalog: Json,
}

/// The text under a key, or no text at all.
pub open spec fn field_of(value: JsonView, key: Seq<char>) -> Seq<char> {
    match value.text(key) {
        Some(t) => t,
        None => Seq::empty(),
    }
}

/// The tools that a document's entries record, from one on, after those already read; nothing
/// where one of them declares no schema.
pub open spec fn tools_from(entries: Seq<JsonView>, at: int, read: Seq<ToolView>) -> Option<
    Seq<ToolView>,
>
    decreases entries.len() - at,
{
    if at < 0 || at >= entries.len() {
        Some(read)
    } else {
        match entries[at].get("inputSchema"@) {
            Some(schema) => tools_from(
                entries,
                at + 1,
                read.push(
                    ToolView {
                        name: field_of(entries[at], "name"@),
                        description: field_of(entries[at], "description"@),
                        input_schema: schema,
                    },
                ),
            ),
            None => None,
        }
    }
}

/// The states with those of the first values of a group among them.
pub open spec fn group_added(states: Seq<Seq<char>>, group: Seq<JsonView>) -> Seq<Seq<char>>
    decreases group.len(),
{
    if group.len() == 0 {
        states
    } else {
        let before = group_added(states, group.drop_last());
        match group.last() {
            JsonView::Text(t) => order::inserted(before, t),
            _ => before,
        }
    }
}

/// The states of the first groups of a document.
pub open spec fn states_of(groups: Seq<(Seq<char>, JsonView)>) -> Seq<Seq<char>>
    decreases groups.len(),
{
    if groups.len() == 0 {
        Seq::empty()
    } else {
        let before = states_of(groups.drop_last());
        match groups.last().1 {
            JsonView::List(group) => group_added(before, group),
            _ => before,
        }
    }
}

/// The text under a key, or no text at all.
fn field(value: &Json, key: &str) -> (out: String)
    ensures
        out@ == field_of(value@, key@),
{
    match value.text(key) {
        Some(t) => t.to_owned(),
        None => String::new(),
    }
}

/// Puts the states of one group among states.
fn add_group(states: &mut Vec<String>, group: &Vec<Json>)
    ensures
        text::string_views(final(states)@) == group_added(
            text::string_views(old(states)@),
            json::list_view(group@),
        ),
{
    let ghost all = json::list_view(group@);
    let ghost start = text::string_views(states@);
    proof {
        json::lemma_list_view(group@);
    }
    let mut i: usize = 0;
    while i < group.len()
        invariant
            i <= group@.len(),
            all.len() == group@.len(),
            forall|k: int| 0 <= k < group@.len() ==> #[trigger] all[k] == group@[k]@,
            text::string_views(states@) == group_added(start, all.take(i as int)),
        decreases group@.len() - i,
    {
        assert(all.take(i + 1).drop_last() =~= all.take(i as int));
        assert(all[i as int] == group@[i as int]@);
        match group[i].as_str() {
            Some(state) => {
                order::insert(states, state);
            },
            None => {},
        }
        i += 1;
    }
    assert(all.take(i as int) =~= all);
}

/// The tools that a document's entries record; nothing where one of them declares no schema.
fn read_tools(entries: &Vec<Json>) -> (found: Option<Vec<ToolContract>>)
    ensures
        match (found, tools_from(json::list_view(entries@), 0, Seq::empty())) {
            (Some(tools), Some(expected)) => tools_view(tools@) == expected,
            (None, None) => true,
            _ => false,
        },
{
    let ghost all = json::list_view(entries@);
    proof {
        json::lemma_list_view(entries@);
    }
    let mut tools: Vec<ToolContract> = Vec::new();
    let mut i: usize = 0;
    assert(tools_view(tools@) =~= Seq::empty());
    while i < entries.len()
        invariant
            i <= entries@.len(),
            all == json::list_view(entries@),
            all.len() == entries@.len(),
            forall|k: int| 0 <= k < entries@.len() ==> #[trigger] all[k] == entries@[k]@,
            tools_from(all, 0, Seq::empty()) == tools_from(all, i as int, tools_view(tools@)),
        decreases entries@.len() - i,
    {
        assert(all[i as int] == entries@[i as int]@);
        match entries[i].get("inputSchema") {
            Some(schema) => {
                let tool = ToolContract {
                    name: field(&entries[i], "name"),
                    description: field(&entries[i], "description"),
                    input_schema: schema.duplicate(),
                };
                assert(tools_view(tools@.push(tool)) =~= tools_view(tools@).push(tool@));
                tools.push(tool);
            },
            None => {
                return None;
            },
        }
        i += 1;
    }
    Some(tools)
}

impl Contract {
    /// Reads the contract that a document records, or nothing where the document carries no
    /// tools, or a tool without a schema.
    pub fn read(document: &Json) -> (found: Option<Contract>)
        ensures
            match (
                found,
                document@.list("tools"@),
            ) {
                (Some(contract), Some(entries)) => tools_from(entries, 0, Seq::empty()) == Some(
                    tools_view(contract.tools@),
                ) && contract.catalog@ == JsonView::List(entries) && text::string_views(
                    contract.states@,
                ) == (match document@.get("resultStates"@) {
                    Some(JsonView::Object(groups)) => states_of(groups),
                    _ => Seq::empty(),
                }),
                (None, Some(entries)) => tools_from(entries, 0, Seq::empty()) is None,
                (None, None) => true,
                _ => false,
            },
    {
        let entries = match document.list("tools") {
            Some(entries) => entries,
            None => {
                return None;
            },
        };
        let tools = match read_tools(entries) {
            Some(tools) => tools,
            None => {
                return None;
            },
        };
        let mut states: Vec<String> = Vec::new();
        assert(text::string_views(states@) =~= Seq::empty());
        if let Some(Json::Object(groups)) = document.get("resultStates") {
            let ghost all = json::entries_view(groups@);
            proof {
                json::lemma_entries_view(groups@);
            }
            let mut i: usize = 0;
            while i < groups.len()
                invariant
                    i <= groups@.len(),
                    all == json::entries_view(groups@),
                    all.len() == groups@.len(),
                    forall|k: int|
                        0 <= k < groups@.len() ==> #[trigger] all[k] == (
                            groups@[k].0@,
                            groups@[k].1@,
                        ),
                    text::string_views(states@) == states_of(all.take(i as int)),
                decreases groups@.len() - i,
            {
                assert(all.take(i + 1).drop_last() =~= all.take(i as int));
                assert(all[i as int] == (groups@[i as int].0@, groups@[i as int].1@));
                match groups[i].1.as_array() {
                    Some(group) => {
                        add_group(&mut states, group);
                    },
                    None => {},
                }
                i += 1;
            }
            assert(all.take(i as int) =~= all);
        }
        let catalog = match document.get("tools") {
            Some(value) => value.duplicate(),
            None => Json::Null,
        };
        Some(Contract { tools, states, catalog })
    }

    /// Whether `name` is one of the recorded tools.
    pub fn declares(&self, name: &str) -> (found: bool)
        ensures
            found == names_of(tools_view(self.tools@)).contains(name@),
    {
        let ghost names = names_of(tools_view(self.tools@));
        let mut i: usize = 0;
        while i < self.tools.len()
            invariant
                i <= self.tools@.len(),
                names == names_of(tools_view(self.tools@)),
                forall|k: int| 0 <= k < i ==> #[trigger] names[k] != name@,
            decreases self.tools@.len() - i,
        {
            assert(names[i as int] == self.tools@[i as int].name@);
            if text::same(self.tools[i].name.as_str(), name) {
                return true;
            }
            i += 1;
        }
        false
    }

    /// Whether `state` is one of the recorded states.
    pub fn permits_state(&self, state: &str) -> (found: bool)
        ensures
            found == text::string_views(self.states@).contains(state@),
    {
        order::has(&self.states, state)
    }
}

} // verus!
