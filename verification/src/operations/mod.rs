//! The refactor operation surface.
//!
//! Dispatch is total and every arm is a native engine: all of the contract's tools answer for
//! themselves, and the match has no fallback arm, so adding a tool to the contract fails to
//! compile rather than quietly returning "not supported" at run time.
//!
//! `NOT_SUPPORTED` survives as a per-call answer where an engine genuinely cannot prove something
//! about the input it was given: a symbol the graph records under a name that is not an
//! identifier, for instance. It is never the answer for a tool as a whole.

use crate::contract;
use crate::graph::{Graph, Node, Repository};
use crate::json;
use crate::json::{Fields, Items, Json, JsonView};
use crate::operations::apply::{DryRun, Preview, Step, StepView};
use crate::plan::EditPlan;
use crate::resolve;
use crate::text;
use crate::token;
use crate::token::{IssuedView, TokenStore};
use crate::words;
use vstd::prelude::*;
use vstd::string::*;

pub mod apply;
pub mod bulk_replace;
pub mod change_signature;
pub mod cycles;
pub mod delete_readiness;
pub mod edit_symbol;
pub mod move_file;
pub mod move_symbol;
pub mod occurrences;
pub mod organize_imports;
pub mod references;
pub mod rename_plan;
pub mod rename_related;
pub mod rename_symbol;
pub mod signature;

verus! {

/// A refactor operation, resolved from a tool name the contract declares.
#[derive(Debug, Clone, Copy, PartialEq, Eq, Structural)]
pub enum Operation {
    RenameSymbol,
    RenameRelatedSymbols,
    ApplyEditPlan,
    RollbackLastApply,
    ChangeSignature,
    EditSymbol,
    BulkReplace,
    OrganizeImports,
    MoveFile,
    MoveSymbol,
    DeleteReadiness,
}

/// The tool name an operation answers to.
pub open spec fn name_of(operation: Operation) -> Seq<char> {
    match operation {
        Operation::RenameSymbol => "rename_symbol"@,
        Operation::RenameRelatedSymbols => "rename_related_symbols"@,
        Operation::ApplyEditPlan => "apply_edit_plan"@,
        Operation::RollbackLastApply => "rollback_last_apply"@,
        Operation::ChangeSignature => "change_signature"@,
        Operation::EditSymbol => "edit_symbol"@,
        Operation::BulkReplace => "bulk_replace"@,
        Operation::OrganizeImports => "organize_imports"@,
        Operation::MoveFile => "move_file"@,
        Operation::MoveSymbol => "move_symbol"@,
        Operation::DeleteReadiness => "delete_readiness"@,
    }
}

/// The operation a tool name resolves to.
pub open spec fn operation_named(name: Seq<char>) -> Option<Operation> {
    if name == "rename_symbol"@ {
        Some(Operation::RenameSymbol)
    } else if name == "rename_related_symbols"@ {
        Some(Operation::RenameRelatedSymbols)
    } else if name == "apply_edit_plan"@ {
        Some(Operation::ApplyEditPlan)
    } else if name == "rollback_last_apply"@ {
        Some(Operation::RollbackLastApply)
    } else if name == "change_signature"@ {
        Some(Operation::ChangeSignature)
    } else if name == "edit_symbol"@ {
        Some(Operation::EditSymbol)
    } else if name == "bulk_replace"@ {
        Some(Operation::BulkReplace)
    } else if name == "organize_imports"@ {
        Some(Operation::OrganizeImports)
    } else if name == "move_file"@ {
        Some(Operation::MoveFile)
    } else if name == "move_symbol"@ {
        Some(Operation::MoveSymbol)
    } else if name == "delete_readiness"@ {
        Some(Operation::DeleteReadiness)
    } else {
        None
    }
}

/// Whether an operation can write to the repository once every gate is satisfied.
pub open spec fn can_write(operation: Operation) -> bool {
    operation is RenameSymbol || operation is RenameRelatedSymbols || operation is ApplyEditPlan
        || operation is RollbackLastApply
}

impl Operation {
    /// Resolves a tool name, or `None` when the contract does not declare it.
    pub fn from_name(name: &str) -> (operation: Option<Operation>)
        ensures
            operation == operation_named(name@),
    {
        if text::same(name, "rename_symbol") {
            Some(Operation::RenameSymbol)
        } else if text::same(name, "rename_related_symbols") {
            Some(Operation::RenameRelatedSymbols)
        } else if text::same(name, "apply_edit_plan") {
            Some(Operation::ApplyEditPlan)
        } else if text::same(name, "rollback_last_apply") {
            Some(Operation::RollbackLastApply)
        } else if text::same(name, "change_signature") {
            Some(Operation::ChangeSignature)
        } else if text::same(name, "edit_symbol") {
            Some(Operation::EditSymbol)
        } else if text::same(name, "bulk_replace") {
            Some(Operation::BulkReplace)
        } else if text::same(name, "organize_imports") {
            Some(Operation::OrganizeImports)
        } else if text::same(name, "move_file") {
            Some(Operation::MoveFile)
        } else if text::same(name, "move_symbol") {
            Some(Operation::MoveSymbol)
        } else if text::same(name, "delete_readiness") {
            Some(Operation::DeleteReadiness)
        } else {
            None
        }
    }

    /// Whether the operation can write to the repository once every gate is satisfied.
    ///
    /// The plan producers are reads. Only these four ever touch a file, and only behind the
    /// environment gate plus a plan-bound single-use token.
    pub fn writes(self) -> (found: bool)
        ensures
            found == can_write(self),
    {
        match self {
            Operation::RenameSymbol => true,
            Operation::RenameRelatedSymbols => true,
            Operation::ApplyEditPlan => true,
            Operation::RollbackLastApply => true,
            _ => false,
        }
    }

    /// The tool name this operation answers to.
    pub fn name(self) -> (name: &'static str)
        ensures
            name@ == name_of(self),
    {
        match self {
            Operation::RenameSymbol => "rename_symbol",
            Operation::RenameRelatedSymbols => "rename_related_symbols",
            Operation::ApplyEditPlan => "apply_edit_plan",
            Operation::RollbackLastApply => "rollback_last_apply",
            Operation::ChangeSignature => "change_signature",
            Operation::EditSymbol => "edit_symbol",
            Operation::BulkReplace => "bulk_replace",
            Operation::OrganizeImports => "organize_imports",
            Operation::MoveFile => "move_file",
            Operation::MoveSymbol => "move_symbol",
            Operation::DeleteReadiness => "delete_readiness",
        }
    }
}

/// Every tool of the contract has an operation, and no operation exists outside the contract.
pub proof fn law_operations_are_the_declared_tools(name: Seq<char>)
    ensures
        operation_named(name) is Some <==> contract::declared(name),
        operation_named(name) matches Some(operation) ==> name_of(operation) == name,
{
}

/// An operation answers to its own name.
pub proof fn law_an_operation_answers_to_its_name(operation: Operation)
    ensures
        operation_named(name_of(operation)) == Some(operation),
{
    reveal_strlit("rename_symbol");
    reveal_strlit("rename_related_symbols");
    reveal_strlit("apply_edit_plan");
    reveal_strlit("rollback_last_apply");
    reveal_strlit("change_signature");
    reveal_strlit("edit_symbol");
    reveal_strlit("bulk_replace");
    reveal_strlit("organize_imports");
    reveal_strlit("move_file");
    reveal_strlit("move_symbol");
    reveal_strlit("delete_readiness");
    assert("rename_symbol"@.len() == 13 && "rename_related_symbols"@.len() == 22
        && "apply_edit_plan"@.len() == 15 && "rollback_last_apply"@.len() == 19
        && "change_signature"@.len() == 16 && "edit_symbol"@.len() == 11 && "bulk_replace"@.len()
        == 12 && "organize_imports"@.len() == 16 && "move_file"@.len() == 9
        && "move_symbol"@.len() == 11 && "delete_readiness"@.len() == 16);
    assert("change_signature"@[0] == 'c' && "organize_imports"@[0] == 'o'
        && "delete_readiness"@[0] == 'd' && "edit_symbol"@[0] == 'e' && "move_symbol"@[0] == 'm');
}

/// How many of the first tools of a list can write.
pub open spec fn writers(names: Seq<Seq<char>>) -> nat
    decreases names.len(),
{
    if names.len() == 0 {
        0
    } else {
        writers(names.drop_last()) + match operation_named(names.last()) {
            Some(operation) => if can_write(operation) {
                1nat
            } else {
                0
            },
            None => 0,
        }
    }
}

/// Exactly four of the contract's tools can write.
pub proof fn law_exactly_four_operations_can_write()
    ensures
        writers(contract::tool_names()) == 4,
{
    law_an_operation_answers_to_its_name(Operation::RenameSymbol);
    law_an_operation_answers_to_its_name(Operation::RenameRelatedSymbols);
    law_an_operation_answers_to_its_name(Operation::ApplyEditPlan);
    law_an_operation_answers_to_its_name(Operation::RollbackLastApply);
    law_an_operation_answers_to_its_name(Operation::ChangeSignature);
    law_an_operation_answers_to_its_name(Operation::EditSymbol);
    law_an_operation_answers_to_its_name(Operation::BulkReplace);
    law_an_operation_answers_to_its_name(Operation::OrganizeImports);
    law_an_operation_answers_to_its_name(Operation::MoveFile);
    law_an_operation_answers_to_its_name(Operation::MoveSymbol);
    law_an_operation_answers_to_its_name(Operation::DeleteReadiness);
    reveal_with_fuel(writers, 12);
    let names = contract::tool_names();
    assert(names.len() == 11);
    assert(names.take(11) =~= names);
    assert(names.take(11).drop_last() =~= names.take(10));
    assert(names.take(10).drop_last() =~= names.take(9));
    assert(names.take(9).drop_last() =~= names.take(8));
    assert(names.take(8).drop_last() =~= names.take(7));
    assert(names.take(7).drop_last() =~= names.take(6));
    assert(names.take(6).drop_last() =~= names.take(5));
    assert(names.take(5).drop_last() =~= names.take(4));
    assert(names.take(4).drop_last() =~= names.take(3));
    assert(names.take(3).drop_last() =~= names.take(2));
    assert(names.take(2).drop_last() =~= names.take(1));
    assert(names.take(1).drop_last() =~= names.take(0));
    assert(writers(names.take(4)) == 4);
    assert(writers(names.take(11)) == 4);
}

/// What an operation comes to, given why a pattern did not compile, if it did not, and the
/// confirmations after it.
pub open spec fn operation_step(
    issued: Map<Seq<char>, IssuedView>,
    repository: Repository,
    operation: Operation,
    arguments: JsonView,
    write_allowed: bool,
    now: u64,
    refused: Option<Seq<char>>,
) -> (StepView, Map<Seq<char>, IssuedView>) {
    match operation {
        Operation::RenameSymbol => rename_symbol::rename_symbol_step(
            issued,
            repository,
            arguments,
            write_allowed,
            now,
        ),
        Operation::RenameRelatedSymbols => rename_related::rename_related_step(
            issued,
            repository,
            arguments,
            write_allowed,
            now,
        ),
        Operation::ApplyEditPlan => apply::apply_edit_plan_step(
            issued,
            repository.root@,
            arguments,
            write_allowed,
            now,
        ),
        Operation::RollbackLastApply => (apply::rollback_step(write_allowed), issued),
        Operation::ChangeSignature => (
            StepView::Answer(change_signature::change_signature_answer(repository, arguments)),
            issued,
        ),
        Operation::EditSymbol => (
            StepView::Answer(edit_symbol::edit_symbol_answer(repository, arguments)),
            issued,
        ),
        Operation::BulkReplace => (
            StepView::Answer(bulk_replace::bulk_replace_answer(repository, arguments, refused)),
            issued,
        ),
        Operation::OrganizeImports => (
            StepView::Answer(organize_imports::organize_imports_answer(repository, arguments)),
            issued,
        ),
        Operation::MoveFile => (
            StepView::Answer(move_file::move_file_answer(repository, arguments)),
            issued,
        ),
        Operation::MoveSymbol => (
            StepView::Answer(move_symbol::move_symbol_answer(repository, arguments)),
            issued,
        ),
        Operation::DeleteReadiness => (
            StepView::Answer(delete_readiness::delete_readiness_answer(repository, arguments)),
            issued,
        ),
    }
}

/// Every operation answers with a contract status, and no planner claims more than `PARTIAL`.
pub proof fn law_every_answer_conforms(
    issued: Map<Seq<char>, IssuedView>,
    repository: Repository,
    operation: Operation,
    arguments: JsonView,
    write_allowed: bool,
    now: u64,
    refused: Option<Seq<char>>,
)
    ensures
        apply::step_conforms(
            operation_step(
                issued,
                repository,
                operation,
                arguments,
                write_allowed,
                now,
                refused,
            ).0,
        ),
{
    match operation {
        Operation::RenameSymbol => {
            rename_symbol::law_renames_conform(
                issued,
                repository,
                arguments,
                write_allowed,
                now,
            );
        },
        Operation::RenameRelatedSymbols => {
            rename_related::law_batches_conform(
                issued,
                repository,
                arguments,
                write_allowed,
                now,
            );
        },
        Operation::ApplyEditPlan => {
            apply::law_applies_conform(
                issued,
                repository.root@,
                arguments,
                write_allowed,
                now,
            );
        },
        Operation::RollbackLastApply => {
            broadcast use json::lemma_with_get;

            contract::lemma_keys();
        },
        Operation::ChangeSignature => {
            change_signature::law_answers_conform(repository, arguments);
        },
        Operation::EditSymbol => {
            edit_symbol::law_answers_conform(repository, arguments);
        },
        Operation::BulkReplace => {
            bulk_replace::law_answers_conform(repository, arguments, refused);
        },
        Operation::OrganizeImports => {
            organize_imports::law_answers_conform(repository, arguments);
        },
        Operation::MoveFile => {
            move_file::law_answers_conform(repository, arguments);
        },
        Operation::MoveSymbol => {
            move_symbol::law_answers_conform(repository, arguments);
        },
        Operation::DeleteReadiness => {
            delete_readiness::law_answers_conform(repository, arguments);
        },
    }
}

/// Producing a plan is a read: an operation that cannot write is answered, and changes no
/// confirmation. No call writes, or even asks for the retained transactions, unless the server may
/// write; and a plan is written only where the call presents an unexpired confirmation for that
/// plan and that repository, which is spent by it.
pub proof fn law_nothing_writes_without_the_gates(
    issued: Map<Seq<char>, IssuedView>,
    repository: Repository,
    operation: Operation,
    arguments: JsonView,
    write_allowed: bool,
    now: u64,
    refused: Option<Seq<char>>,
)
    ensures
        ({
            let (step, after) = operation_step(
                issued,
                repository,
                operation,
                arguments,
                write_allowed,
                now,
                refused,
            );
            let presented = arguments.text("confirm_token"@);
            &&& !can_write(operation) ==> step is Answer && after == issued
            &&& step is List ==> write_allowed
            &&& !(step is Rollback)
            &&& step matches StepView::Write { plan, .. } ==> write_allowed && apply::confirmed(
                issued,
                presented,
                plan,
                repository.root@,
                now,
            ) && !after.dom().contains(presented->0)
        }),
{
    match operation {
        Operation::RenameSymbol => {
            rename_symbol::law_renames_conform(
                issued,
                repository,
                arguments,
                write_allowed,
                now,
            );
        },
        Operation::RenameRelatedSymbols => {
            rename_related::law_batches_conform(
                issued,
                repository,
                arguments,
                write_allowed,
                now,
            );
        },
        Operation::ApplyEditPlan => {
            reveal(apply::apply_edit_plan_step);
        },
        _ => {},
    }
}

/// One server's refactor surface: the confirmations it has issued and whether it may write.
///
/// The write gate lives here rather than at each call site so there is exactly one place that
/// decides it, and it is fixed when the session is created: a gate re-read per call could be
/// changed underneath a running server.
pub struct RefactorSession {
    tokens: TokenStore,
    write_allowed: bool,
}

impl RefactorSession {
    /// The confirmations that were issued and not presented, under their values.
    pub closed spec fn issued(self) -> Map<Seq<char>, IssuedView> {
        self.tokens@
    }

    /// Whether the session may write.
    pub closed spec fn may_write(self) -> bool {
        self.write_allowed
    }

    /// Opens a session. `write_allowed` is the environment gate, already decided by the host.
    pub fn new(write_allowed: bool) -> (session: RefactorSession)
        ensures
            session.issued() == Map::<Seq<char>, IssuedView>::empty(),
            session.may_write() == write_allowed,
    {
        RefactorSession { tokens: TokenStore::new(), write_allowed }
    }

    /// A session that will never write, for callers that only plan.
    ///
    /// Named rather than a bare `new(false)` so a caller that meant to pass a real gate cannot
    /// silently get a closed one.
    pub fn read_only() -> (session: RefactorSession)
        ensures
            session.issued() == Map::<Seq<char>, IssuedView>::empty(),
            !session.may_write(),
    {
        RefactorSession::new(false)
    }

    /// Calls one refactor operation at a time, given in seconds.
    ///
    /// Fails only when `name` is not a tool the contract declares. Every other refusal is an
    /// answer carrying a contract status, because an agent branches on statuses and cannot branch
    /// on a transport error.
    pub fn call(
        &mut self,
        repository: &Repository,
        name: &str,
        arguments: &Json,
        now: u64,
    ) -> (step: Result<Step, String>)
        ensures
            final(self).may_write() == old(self).may_write(),
            match (step, operation_named(name@)) {
                (Ok(next), Some(operation)) => exists|refused: Option<Seq<char>>|
                    (next@, final(self).issued()) == #[trigger] operation_step(
                        old(self).issued(),
                        *repository,
                        operation,
                        arguments@,
                        old(self).may_write(),
                        now,
                        refused,
                    ),
                (Err(reason), None) => final(self).issued() == old(self).issued() && reason@
                    == "unknown refactor operation: "@ + name@,
                _ => false,
            },
    {
        let operation = match Operation::from_name(name) {
            Some(operation) => operation,
            None => {
                return Err("unknown refactor operation: ".to_owned().concat(name));
            },
        };
        let allowed = self.write_allowed;
        let ghost mut refused: Option<Seq<char>> = None;
        let step = match operation {
            Operation::DeleteReadiness => Step::Answer(
                delete_readiness::delete_readiness(repository, arguments),
            ),
            Operation::EditSymbol => Step::Answer(edit_symbol::edit_symbol(repository, arguments)),
            Operation::BulkReplace => {
                let value = bulk_replace::bulk_replace(repository, arguments);
                proof {
                    refused =
                    choose|refused: Option<Seq<char>>|
                        value@ == #[trigger] bulk_replace::bulk_replace_answer(
                            *repository,
                            arguments@,
                            refused,
                        );
                }
                Step::Answer(value)
            },
            Operation::MoveSymbol => Step::Answer(move_symbol::move_symbol(repository, arguments)),
            Operation::MoveFile => Step::Answer(move_file::move_file(repository, arguments)),
            Operation::OrganizeImports => Step::Answer(
                organize_imports::organize_imports(repository, arguments),
            ),
            Operation::RenameSymbol => rename_symbol::rename_symbol(
                &mut self.tokens,
                repository,
                arguments,
                allowed,
                now,
            ),
            Operation::RenameRelatedSymbols => rename_related::rename_related_symbols(
                &mut self.tokens,
                repository,
                arguments,
                allowed,
                now,
            ),
            Operation::ApplyEditPlan => apply::apply_edit_plan(
                &mut self.tokens,
                repository.root.as_str(),
                arguments,
                allowed,
                now,
            ),
            Operation::RollbackLastApply => apply::rollback_last_apply(allowed),
            Operation::ChangeSignature => Step::Answer(
                change_signature::change_signature(repository, arguments),
            ),
        };
        assert((step@, self.issued()) == operation_step(
            old(self).issued(),
            *repository,
            operation,
            arguments@,
            old(self).may_write(),
            now,
            refused,
        ));
        Ok(step)
    }

    /// Goes on with an apply once the repository was opened, or was not.
    pub fn after_open(
        &mut self,
        root: &str,
        plan: EditPlan,
        presented: Option<&str>,
        opened: Result<(), String>,
        now: u64,
    ) -> (step: Step)
        ensures
            final(self).may_write() == old(self).may_write(),
            (step@, final(self).issued()) == apply::opened_step(
                old(self).issued(),
                root@,
                plan@,
                token::optional(presented),
                opened,
                old(self).may_write(),
                now,
            ),
    {
        let allowed = self.write_allowed;
        apply::after_open(&mut self.tokens, root, plan, presented, opened, allowed, now)
    }

    /// Answers a preview once its dry run has an outcome, and issues the confirmation where it
    /// passed.
    ///
    /// A clock so late that the confirmation's end could not be counted is left out.
    pub fn after_dry_run(
        &mut self,
        root: &str,
        plan: &EditPlan,
        preview: Preview,
        outcome: DryRun,
        now: u64,
    ) -> (answer: Json)
        requires
            now <= u64::MAX - token::TOKEN_TTL,
        ensures
            final(self).may_write() == old(self).may_write(),
            answer@ == apply::previewed(outcome, preview@, plan@, now),
            final(self).issued() == apply::issued_after(
                old(self).issued(),
                outcome,
                plan@,
                root@,
                now,
            ),
    {
        apply::after_dry_run(&mut self.tokens, root, plan, preview, outcome, now)
    }
}

/// Calls one refactor operation in a session of its own that will never write.
///
/// Fails only when `name` is not a tool the contract declares.
pub fn call(repository: &Repository, name: &str, arguments: &Json, now: u64) -> (step: Result<
    Step,
    String,
>)
    ensures
        match (step, operation_named(name@)) {
            (Ok(next), Some(operation)) => exists|refused: Option<Seq<char>>|
                next@ == (#[trigger] operation_step(
                    Map::empty(),
                    *repository,
                    operation,
                    arguments@,
                    false,
                    now,
                    refused,
                )).0,
            (Err(reason), None) => reason@ == "unknown refactor operation: "@ + name@,
            _ => false,
        },
{
    let mut session = RefactorSession::read_only();
    session.call(repository, name, arguments, now)
}

/// The tool catalog, taken from the contract.
pub fn catalog() -> (value: Json)
    ensures
        value@ == JsonView::List(contract::catalog_of(contract::all_tools())),
{
    contract::catalog_value()
}

/// Names of every tool there is.
pub fn catalog_names() -> (names: Vec<String>)
    ensures
        text::string_views(names@) == contract::tool_names(),
{
    let all = contract::tools();
    let mut names: Vec<String> = Vec::new();
    let mut i: usize = 0;
    let ghost expected = contract::names_of(contract::all_tools());
    while i < all.len()
        invariant
            i <= all@.len(),
            contract::tools_view(all@) == contract::all_tools(),
            expected == contract::names_of(contract::all_tools()),
            text::string_views(names@) =~= expected.take(i as int),
        decreases all@.len() - i,
    {
        assert(contract::tools_view(all@)[i as int] == all@[i as int]@);
        assert(expected.len() == all@.len());
        assert(expected[i as int] == all@[i as int].name@);
        let name = all[i].name.clone();
        assert(text::string_views(names@.push(name)) =~= text::string_views(names@).push(name@));
        assert(expected.take(i as int).push(expected[i as int]) =~= expected.take(i + 1));
        names.push(name);
        i += 1;
    }
    proof {
        contract::law_the_tools_are_the_declared_names(Seq::empty());
        assert(expected.take(i as int) =~= expected);
    }
    names
}

/// Texts as JSON values.
pub open spec fn texts(parts: Seq<Seq<char>>) -> Seq<JsonView> {
    Seq::new(parts.len(), |i: int| JsonView::Text(parts[i]))
}

/// Texts as JSON values.
pub(crate) fn text_items(parts: &Vec<&str>) -> (items: Items)
    ensures
        items@ == texts(text::views(parts@)),
{
    let mut items = Items::new();
    let mut i: usize = 0;
    while i < parts.len()
        invariant
            i <= parts@.len(),
            items@ =~= texts(text::views(parts@)).take(i as int),
        decreases parts@.len() - i,
    {
        items.push(json::string(parts[i]));
        i += 1;
    }
    assert(items@ =~= texts(text::views(parts@)));
    items
}

/// Owned texts as JSON values.
pub(crate) fn string_items(parts: &Vec<String>) -> (items: Items)
    ensures
        items@ == texts(text::string_views(parts@)),
{
    let mut items = Items::new();
    let mut i: usize = 0;
    while i < parts.len()
        invariant
            i <= parts@.len(),
            items@ =~= texts(text::string_views(parts@)).take(i as int),
        decreases parts@.len() - i,
    {
        items.push(json::string(parts[i].as_str()));
        i += 1;
    }
    assert(items@ =~= texts(text::string_views(parts@)));
    items
}

/// The answer where the named symbol is not in the graph.
pub open spec fn not_found_value(nodes: Seq<Node>, symbol: Seq<char>) -> JsonView {
    let candidates = resolve::candidates(nodes, symbol);
    JsonView::empty().with_text("status"@, "NOT_FOUND"@).with_text(
        "reason"@,
        if candidates.len() > 1 {
            "the name matches more than one symbol; pass one of the candidate ids"@
        } else {
            "the selected symbol is not present in the active graph; pass an exact id"@
        },
    ).with_text("symbol"@, symbol).with_list("candidates"@, texts(candidates))
}

/// The symbol an agent named is not in the graph, with every id it could have meant.
///
/// The candidates ride in the refusal because without them the refusal costs a round trip: the
/// agent has to run a graph query to learn ids the resolver already saw.
pub(crate) fn not_found(graph: &Graph, symbol: &str) -> (value: Json)
    ensures
        value@ == not_found_value(graph.nodes@, symbol@),
{
    let candidates = resolve::candidate_ids(graph, symbol);
    let reason = if candidates.len() > 1 {
        "the name matches more than one symbol; pass one of the candidate ids"
    } else {
        "the selected symbol is not present in the active graph; pass an exact id"
    };
    Fields::new().with_text("status", "NOT_FOUND").with_text("reason", reason).with_text(
        "symbol",
        symbol,
    ).with_list("candidates", string_items(&candidates)).done()
}

/// The answer where the graph and the file no longer agree.
pub open spec fn stale_graph_value(file: Seq<char>) -> JsonView {
    JsonView::empty().with_text("status"@, "STALE_GRAPH"@).with_text(
        "reason"@,
        file
            + ": the recorded source range no longer matches the file. Rebuild the graph; nothing was planned from a range that cannot be located."@,
    )
}

/// The graph and the file no longer agree, so no range from it can be trusted.
pub(crate) fn stale_graph(file: &str) -> (value: Json)
    ensures
        value@ == stale_graph_value(file@),
{
    let reason = file.to_owned().concat(
        ": the recorded source range no longer matches the file. Rebuild the graph; nothing was planned from a range that cannot be located.",
    );
    Fields::new().with_text("status", "STALE_GRAPH").with_text("reason", reason.as_str()).done()
}

/// The answer where required arguments are missing or of the wrong type.
pub open spec fn invalid_args_value(operation: Seq<char>, missing: Seq<Seq<char>>) -> JsonView {
    JsonView::empty().with_text("status"@, "INVALID_ARGS"@).with_text(
        "operation"@,
        operation,
    ).with_list("invalid"@, texts(missing)).with_text(
        "reason"@,
        "missing or invalid required argument(s): "@ + words::joined(missing, ", "@)
            + ". Nothing was planned or written."@,
    )
}

/// A missing or wrongly typed argument, named rather than described.
///
/// The engines state their preconditions by returning this, never by panicking: an agent branches
/// on a status and cannot branch on a crash.
pub(crate) fn invalid_args(operation: &str, missing: &Vec<&str>) -> (value: Json)
    ensures
        value@ == invalid_args_value(operation@, text::views(missing@)),
{
    let reason = "missing or invalid required argument(s): ".to_owned().concat(
        words::join(missing, ", ").as_str(),
    ).concat(". Nothing was planned or written.");
    Fields::new().with_text("status", "INVALID_ARGS").with_text("operation", operation).with_list(
        "invalid",
        text_items(missing),
    ).with_text("reason", reason.as_str()).done()
}

/// The answer where one required argument is missing.
pub(crate) fn missing_one(operation: &str, a: &str) -> (value: Json)
    ensures
        value@ == invalid_args_value(operation@, seq![a@]),
{
    let mut missing: Vec<&str> = Vec::new();
    missing.push(a);
    assert(text::views(missing@) =~= seq![a@]);
    invalid_args(operation, &missing)
}

/// The answer where one of two required arguments is missing.
pub(crate) fn missing_two(operation: &str, a: &str, b: &str) -> (value: Json)
    ensures
        value@ == invalid_args_value(operation@, seq![a@, b@]),
{
    let mut missing: Vec<&str> = Vec::new();
    missing.push(a);
    missing.push(b);
    assert(text::views(missing@) =~= seq![a@, b@]);
    invalid_args(operation, &missing)
}

/// The answer where one of three required arguments is missing.
pub(crate) fn missing_three(operation: &str, a: &str, b: &str, c: &str) -> (value: Json)
    ensures
        value@ == invalid_args_value(operation@, seq![a@, b@, c@]),
{
    let mut missing: Vec<&str> = Vec::new();
    missing.push(a);
    missing.push(b);
    missing.push(c);
    assert(text::views(missing@) =~= seq![a@, b@, c@]);
    invalid_args(operation, &missing)
}

/// The answer whose only content is a status and its reason.
pub open spec fn plain_answer(status: Seq<char>, reason: Seq<char>) -> JsonView {
    JsonView::empty().with_text("status"@, status).with_text("reason"@, reason)
}

/// An answer whose only content is a status and its reason.
pub(crate) fn answer(status: &str, reason: &str) -> (value: Json)
    ensures
        value@ == plain_answer(status@, reason@),
{
    Fields::new().with_text("status", status).with_text("reason", reason).done()
}

} // verus!
