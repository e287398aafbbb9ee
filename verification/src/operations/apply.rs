//! The write path: preview, apply, roll back.
//!
//! The transaction itself belongs to the working tree: journal, atomic replacement, crash
//! recovery and undo are its job. What this module owns is the contract: which statuses an agent
//! sees, and the rule that a preview is the only way to get permission to write. So every
//! function here decides the next [`Step`], and the host performs it and hands back what became
//! of it.

use crate::contract;
use crate::envelope;
use crate::json;
use crate::json::{Fields, Items, Json, JsonView};
use crate::operations;
use crate::plan;
use crate::plan::{EditPlan, FileView, PlanView};
use crate::text;
use crate::token;
use crate::token::{IssuedView, TokenStore};
use vstd::prelude::*;
use vstd::string::*;

verus! {

/// The codes of a transaction's failure that the contract tells apart.
#[derive(Debug, Clone, Copy, PartialEq, Eq, Structural)]
pub enum FailureCode {
    SourceHashMismatch,
    ConcurrentModification,
    RootBusy,
    RecoveryRequired,
    RollbackFailed,
    JournalCorrupt,
    Other,
}

/// A transaction's failure: its own code, and its prose.
#[derive(Debug)]
pub struct Failure {
    pub code: FailureCode,
    pub text: String,
}

/// One file of a dry run.
#[derive(Debug)]
pub struct CheckedFile {
    pub path: String,
    pub changed: bool,
}

/// What became of a dry run.
#[derive(Debug)]
pub enum DryRun {
    /// The repository could not be opened.
    Unopened(String),
    /// The working tree accepts the plan.
    Passed { files: Vec<CheckedFile>, total_edits: u64 },
    /// The working tree rejects the plan.
    Failed(Failure),
}

/// What became of a write.
#[derive(Debug)]
pub enum Written {
    /// The repository could not be opened.
    Unopened(String),
    /// The plan was written and the previous contents retained.
    Done { transaction_id: String, undo_id: String },
    /// Nothing was written.
    Failed(Failure),
}

/// What became of asking for the retained transactions.
#[derive(Debug)]
pub enum Listed {
    /// The repository could not be opened.
    Unopened(String),
    /// The retained transactions, oldest first.
    Receipts(Vec<String>),
    /// They could not be read.
    Failed(Failure),
}

/// What became of restoring a retained transaction.
#[derive(Debug)]
pub enum Restored {
    /// The previous contents of this many paths are back.
    Done { paths: u64, transaction_id: String },
    /// They are not.
    Failed(String),
}

/// Everything a batch of renames resolved to, shared by the preview and the write.
///
/// Both halves report the same renames and the same count, so they read one value rather than
/// each rebuilding it: a preview that described a different batch than the apply wrote would be
/// the worst possible bug in a tool whose whole promise is that you confirm what you saw.
pub struct Batch {
    pub plan: Json,
    pub names: Items,
    pub ordering: Items,
    pub uncertain: Items,
    pub total: u64,
}

/// A batch as a mathematical value.
#[verifier::ext_equal]
pub struct BatchView {
    pub plan: JsonView,
    pub names: Seq<JsonView>,
    pub ordering: Seq<JsonView>,
    pub uncertain: Seq<JsonView>,
    pub total: nat,
}

impl Batch {
    /// The batch without its representation.
    pub open spec fn view(self) -> BatchView {
        BatchView {
            plan: self.plan@,
            names: self.names@,
            ordering: self.ordering@,
            uncertain: self.uncertain@,
            total: self.total as nat,
        }
    }
}

/// What a plan is previewed for.
pub enum Preview {
    /// A plan that was handed in.
    Plan,
    /// One rename, whose answer so far gets the outcome.
    Symbol(Fields),
    /// A batch of renames.
    Batch(Batch),
}

/// What a plan is previewed for, as a mathematical value.
pub enum PreviewView {
    Plan,
    Symbol(JsonView),
    Batch(BatchView),
}

impl Preview {
    /// The purpose without its representation.
    pub open spec fn view(self) -> PreviewView {
        match self {
            Preview::Plan => PreviewView::Plan,
            Preview::Symbol(answer) => PreviewView::Symbol(answer@),
            Preview::Batch(batch) => PreviewView::Batch(batch@),
        }
    }
}

/// What a plan is written for.
pub enum Purpose {
    /// A plan of its own.
    Plan,
    /// A batch of renames.
    Batch(Batch),
}

/// What a plan is written for, as a mathematical value.
pub enum PurposeView {
    Plan,
    Batch(BatchView),
}

impl Purpose {
    /// The purpose without its representation.
    pub open spec fn view(self) -> PurposeView {
        match self {
            Purpose::Plan => PurposeView::Plan,
            Purpose::Batch(batch) => PurposeView::Batch(batch@),
        }
    }
}

/// What a call comes to: its answer, or what the host has to do first.
pub enum Step {
    /// The call is answered.
    Answer(Json),
    /// Open the repository for writing, before the gates are looked at.
    Open { plan: EditPlan, presented: Option<String> },
    /// Check a plan against the working tree, writing nothing.
    DryRun { plan: EditPlan, preview: Preview },
    /// Write a plan whose gates have all been passed.
    Write { plan: EditPlan, purpose: Purpose },
    /// Ask for the retained transactions.
    List,
    /// Restore a retained transaction.
    Rollback { id: String },
}

/// What a call comes to, as a mathematical value.
pub enum StepView {
    Answer(JsonView),
    Open { plan: PlanView, presented: Option<Seq<char>> },
    DryRun { plan: PlanView, preview: PreviewView },
    Write { plan: PlanView, purpose: PurposeView },
    List,
    Rollback { id: Seq<char> },
}

impl Step {
    /// The step without its representation.
    pub open spec fn view(self) -> StepView {
        match self {
            Step::Answer(value) => StepView::Answer(value@),
            Step::Open { plan, presented } => StepView::Open {
                plan: plan@,
                presented: match presented {
                    Some(value) => Some(value@),
                    None => None,
                },
            },
            Step::DryRun { plan, preview } => StepView::DryRun { plan: plan@, preview: preview@ },
            Step::Write { plan, purpose } => StepView::Write { plan: plan@, purpose: purpose@ },
            Step::List => StepView::List,
            Step::Rollback { id } => StepView::Rollback { id: id@ },
        }
    }
}

/// The answer where the server may not write.
pub open spec fn gate_closed() -> JsonView {
    operations::plain_answer(
        "WRITE_GATE_CLOSED"@,
        "the server was started without source edits enabled"@,
    )
}

/// The answer where the repository could not be opened.
pub open spec fn unopened(why: Seq<char>) -> JsonView {
    operations::plain_answer(
        "REPO_BUSY"@,
        "the repository could not be opened for writing: "@ + why,
    )
}

/// Whether a failure means the working tree moved under the plan.
pub open spec fn stale(code: FailureCode) -> bool {
    code == FailureCode::SourceHashMismatch || code == FailureCode::ConcurrentModification
}

/// The contract status that describes a transaction failure.
pub open spec fn failure_status(code: FailureCode) -> Seq<char> {
    match code {
        FailureCode::SourceHashMismatch => "STALE"@,
        FailureCode::ConcurrentModification => "STALE"@,
        FailureCode::RootBusy => "REPO_BUSY"@,
        FailureCode::RecoveryRequired => "REPO_BUSY"@,
        FailureCode::RollbackFailed => "ROLLBACK_INCOMPLETE"@,
        FailureCode::JournalCorrupt => "ROLLBACK_INCOMPLETE"@,
        FailureCode::Other => "INVALID_PLAN"@,
    }
}

/// The answer to a transaction failure.
pub open spec fn failed(failure: Failure) -> JsonView {
    operations::plain_answer(failure_status(failure.code), failure.text@)
}

/// The answer where the server may not write.
pub(crate) fn closed_gate() -> (value: Json)
    ensures
        value@ == gate_closed(),
{
    operations::answer("WRITE_GATE_CLOSED", "the server was started without source edits enabled")
}

/// The answer where the repository could not be opened.
fn busy(why: &str) -> (value: Json)
    ensures
        value@ == unopened(why@),
{
    let reason = "the repository could not be opened for writing: ".to_owned().concat(why);
    operations::answer("REPO_BUSY", reason.as_str())
}

impl Failure {
    /// Whether this means the working tree moved under the plan.
    fn is_stale(&self) -> (found: bool)
        ensures
            found == stale(self.code),
    {
        self.code == FailureCode::SourceHashMismatch || self.code
            == FailureCode::ConcurrentModification
    }

    /// Turns a transaction failure into the contract status that describes it.
    ///
    /// Matched on the failure's own code rather than on its prose. Sniffing a message for "hash"
    /// is how a stale file gets reported as an invalid plan the day someone rewords the error,
    /// and the difference matters: a stale tree is fixed by previewing again, an invalid plan
    /// never is.
    pub fn answer(&self) -> (value: Json)
        ensures
            value@ == failed(*self),
    {
        let status = match self.code {
            FailureCode::SourceHashMismatch => "STALE",
            FailureCode::ConcurrentModification => "STALE",
            FailureCode::RootBusy => "REPO_BUSY",
            FailureCode::RecoveryRequired => "REPO_BUSY",
            FailureCode::RollbackFailed => "ROLLBACK_INCOMPLETE",
            FailureCode::JournalCorrupt => "ROLLBACK_INCOMPLETE",
            FailureCode::Other => "INVALID_PLAN",
        };
        operations::answer(status, self.text.as_str())
    }
}

/// Whether arguments ask to apply.
pub open spec fn applies(arguments: JsonView) -> bool {
    arguments.text("mode"@) == Some("apply"@)
}

/// Whether arguments ask to apply.
pub(crate) fn asks_to_apply(arguments: &Json) -> (found: bool)
    ensures
        found == applies(arguments@),
{
    match arguments.text("mode") {
        Some(mode) => text::same(mode, "apply"),
        None => false,
    }
}

/// What `apply_edit_plan` comes to, and the confirmations after it.
#[verifier::opaque]
pub open spec fn apply_edit_plan_step(
    issued: Map<Seq<char>, IssuedView>,
    root: Seq<char>,
    arguments: JsonView,
    write_allowed: bool,
    now: u64,
) -> (StepView, Map<Seq<char>, IssuedView>) {
    let presented = arguments.text("confirm_token"@);
    match arguments.get("plan"@) {
        None => if !applies(arguments) {
            (
                StepView::Answer(
                    operations::invalid_args_value("apply_edit_plan"@, seq!["plan"@]),
                ),
                issued,
            )
        } else if !write_allowed {
            (StepView::Answer(gate_closed()), issued)
        } else {
            (
                match token::presented_token(issued, presented, root, now) {
                    Ok(token) => StepView::Write { plan: token.plan, purpose: PurposeView::Plan },
                    Err(refusal) => StepView::Answer(refusal),
                },
                token::after_consume(issued, presented),
            )
        },
        Some(value) => match envelope::plan_of(value) {
            Err(reason) => (
                StepView::Answer(operations::plain_answer("INVALID_PLAN"@, reason)),
                issued,
            ),
            Ok(plan) => if applies(arguments) {
                (StepView::Open { plan, presented }, issued)
            } else {
                (StepView::DryRun { plan, preview: PreviewView::Plan }, issued)
            },
        },
    }
}

/// `apply_edit_plan`: preview verifies, apply writes.
///
/// An apply may present the confirmation alone. The preview already carried the plan to the
/// agent; making it echo the plan back is paying for the same bytes twice, the second time as
/// completion tokens. The token names exactly one previewed plan, so the server supplies it.
pub fn apply_edit_plan(
    tokens: &mut TokenStore,
    root: &str,
    arguments: &Json,
    write_allowed: bool,
    now: u64,
) -> (step: Step)
    ensures
        (step@, final(tokens)@) == apply_edit_plan_step(
            old(tokens)@,
            root@,
            arguments@,
            write_allowed,
            now,
        ),
{
    proof {
        reveal(apply_edit_plan_step);
    }
    let apply = asks_to_apply(arguments);
    let presented = arguments.text("confirm_token");
    match arguments.get("plan") {
        None => {
            if !apply {
                return Step::Answer(operations::missing_one("apply_edit_plan", "plan"));
            }
            if !write_allowed {
                return Step::Answer(closed_gate());
            }
            match tokens.consume_for_plan(presented, root, now) {
                Ok(plan) => Step::Write { plan, purpose: Purpose::Plan },
                Err(refusal) => Step::Answer(refusal),
            }
        },
        Some(value) => match envelope::read_envelope(value) {
            Err(error) => Step::Answer(
                operations::answer(error.code, error.reason.as_str()),
            ),
            Ok(plan) => {
                if apply {
                    Step::Open {
                        plan,
                        presented: match presented {
                            Some(value) => Some(value.to_owned()),
                            None => None,
                        },
                    }
                } else {
                    Step::DryRun { plan, preview: Preview::Plan }
                }
            },
        },
    }
}

/// What a plan comes to whose write waits for a confirmation, and the confirmations after it.
pub open spec fn gated_step(
    issued: Map<Seq<char>, IssuedView>,
    root: Seq<char>,
    plan: PlanView,
    presented: Option<Seq<char>>,
    purpose: PurposeView,
    write_allowed: bool,
    now: u64,
) -> (StepView, Map<Seq<char>, IssuedView>) {
    if !write_allowed {
        (StepView::Answer(gate_closed()), issued)
    } else {
        (
            match token::consume_refusal(issued, presented, plan, root, now) {
                Some(refusal) => StepView::Answer(refusal),
                None => StepView::Write { plan, purpose },
            },
            token::after_consume(issued, presented),
        )
    }
}

/// Passes a plan through the gates: the environment, which the host decided, and the token.
pub(crate) fn pass_gates(
    tokens: &mut TokenStore,
    root: &str,
    plan: EditPlan,
    presented: Option<&str>,
    purpose: Purpose,
    write_allowed: bool,
    now: u64,
) -> (step: Step)
    ensures
        (step@, final(tokens)@) == gated_step(
            old(tokens)@,
            root@,
            plan@,
            token::optional(presented),
            purpose@,
            write_allowed,
            now,
        ),
{
    if !write_allowed {
        return Step::Answer(closed_gate());
    }
    match tokens.consume(presented, &plan, root, now) {
        Some(refusal) => Step::Answer(refusal),
        None => Step::Write { plan, purpose },
    }
}

/// What an apply with a plan comes to once the repository was opened, or was not, and the
/// confirmations after it.
pub open spec fn opened_step(
    issued: Map<Seq<char>, IssuedView>,
    root: Seq<char>,
    plan: PlanView,
    presented: Option<Seq<char>>,
    opened: Result<(), String>,
    write_allowed: bool,
    now: u64,
) -> (StepView, Map<Seq<char>, IssuedView>) {
    match opened {
        Err(why) => (StepView::Answer(unopened(why@)), issued),
        Ok(_) => gated_step(issued, root, plan, presented, PurposeView::Plan, write_allowed, now),
    }
}

/// Goes on with an apply once the repository was opened, or was not.
pub fn after_open(
    tokens: &mut TokenStore,
    root: &str,
    plan: EditPlan,
    presented: Option<&str>,
    opened: Result<(), String>,
    write_allowed: bool,
    now: u64,
) -> (step: Step)
    ensures
        (step@, final(tokens)@) == opened_step(
            old(tokens)@,
            root@,
            plan@,
            token::optional(presented),
            opened,
            write_allowed,
            now,
        ),
{
    match opened {
        Err(why) => Step::Answer(busy(why.as_str())),
        Ok(_) => pass_gates(tokens, root, plan, presented, Purpose::Plan, write_allowed, now),
    }
}

/// Files of a dry run as a preview reports them.
pub open spec fn checked_files(files: Seq<CheckedFile>) -> Seq<JsonView> {
    Seq::new(
        files.len(),
        |i: int|
            JsonView::empty().with_text("path"@, files[i].path@).with_text(
                "status"@,
                if files[i].changed {
                    "READY"@
                } else {
                    "NO_CHANGE"@
                },
            ),
    )
}

/// Paths of a dry run as a batch's preview reports them.
pub open spec fn checked_paths(files: Seq<CheckedFile>) -> Seq<JsonView> {
    Seq::new(files.len(), |i: int| JsonView::Text(files[i].path@))
}

/// The answer to the preview of a plan.
pub open spec fn plan_previewed(outcome: DryRun, plan: PlanView, now: u64) -> JsonView {
    match outcome {
        DryRun::Unopened(why) => unopened(why@),
        DryRun::Passed { files, total_edits } => JsonView::empty().with_text(
            "status"@,
            "PREVIEW_OK"@,
        ).with_list("files"@, checked_files(files@)).with_number(
            "totalEdits"@,
            total_edits as nat,
        ).with_text("confirmToken"@, token::token_value(plan, now)).with_number(
            "expiresAt"@,
            (now + token::TOKEN_TTL) as nat,
        ).with_text(
            "next"@,
            "call apply_edit_plan again with the same plan, mode=\"apply\", and this confirm_token. The token is single-use and bound to this exact plan and repository."@,
        ),
        DryRun::Failed(failure) => if stale(failure.code) {
            operations::plain_answer(
                "PREVIEW_BLOCKED"@,
                "the plan does not match the working tree, so nothing can be applied. Re-run the producing tool for a fresh plan: "@
                    + failure.text@,
            )
        } else {
            failed(failure)
        },
    }
}

/// The answer to one rename with what its preview found.
pub open spec fn symbol_previewed(
    outcome: DryRun,
    answer: JsonView,
    plan: PlanView,
    now: u64,
) -> JsonView {
    match outcome {
        DryRun::Unopened(_) => answer,
        DryRun::Passed { .. } => answer.with("previewed"@, JsonView::Bool(true)).with_text(
            "confirmToken"@,
            token::token_value(plan, now),
        ).with_number("expiresAt"@, (now + token::TOKEN_TTL) as nat),
        DryRun::Failed(failure) => answer.with("previewed"@, JsonView::Bool(false)).with_text(
            "previewBlocked"@,
            failure.text@,
        ),
    }
}

/// The answer to the preview of a batch of renames.
pub open spec fn batch_previewed(
    outcome: DryRun,
    batch: BatchView,
    plan: PlanView,
    now: u64,
) -> JsonView {
    match outcome {
        DryRun::Unopened(why) => unopened(why@),
        DryRun::Passed { files, .. } => JsonView::empty().with_text(
            "status"@,
            "PREVIEW_OK"@,
        ).with_text("completeness"@, "PARTIAL"@).with_text(
            "backend"@,
            "graph+lexical"@,
        ).with_list("renames"@, batch.names).with_number("renamedEdits"@, batch.total).with_list(
            "files"@,
            checked_paths(files@),
        ).with_list("ordering"@, batch.ordering).with_list(
            "uncertainReferences"@,
            batch.uncertain,
        ).with_list(
            "warnings"@,
            Seq::empty().push(JsonView::Text("GRAPH_PROVEN_SITES_ONLY"@)),
        ).with("plan"@, batch.plan).with_text(
            "confirmToken"@,
            token::token_value(plan, now),
        ).with_number("expiresAt"@, (now + token::TOKEN_TTL) as nat).with_text(
            "next"@,
            "call again with the identical renames, mode=\"apply\", and this confirm_token. The token is single-use and bound to this exact plan."@,
        ),
        DryRun::Failed(failure) => operations::plain_answer(
            "PREVIEW_BLOCKED"@,
            "the plan does not match the working tree, so nothing can be applied. Preview again for a fresh plan: "@
                + failure.text@,
        ),
    }
}

/// The answer to a preview.
pub open spec fn previewed(
    outcome: DryRun,
    preview: PreviewView,
    plan: PlanView,
    now: u64,
) -> JsonView {
    match preview {
        PreviewView::Plan => plan_previewed(outcome, plan, now),
        PreviewView::Symbol(answer) => symbol_previewed(outcome, answer, plan, now),
        PreviewView::Batch(batch) => batch_previewed(outcome, batch, plan, now),
    }
}

/// The confirmations after a preview: one more where the dry run passed, and only there.
pub open spec fn issued_after(
    issued: Map<Seq<char>, IssuedView>,
    outcome: DryRun,
    plan: PlanView,
    root: Seq<char>,
    now: u64,
) -> Map<Seq<char>, IssuedView> {
    match outcome {
        DryRun::Passed { .. } => token::after_issue(issued, plan, root, now),
        _ => issued,
    }
}

/// Answers the preview of a plan that passed.
fn plan_passed(files: &Vec<CheckedFile>, total_edits: u64, value: &str, expires_at: u64) -> (answer:
    Json)
    ensures
        answer@ == JsonView::empty().with_text("status"@, "PREVIEW_OK"@).with_list(
            "files"@,
            checked_files(files@),
        ).with_number("totalEdits"@, total_edits as nat).with_text(
            "confirmToken"@,
            value@,
        ).with_number("expiresAt"@, expires_at as nat).with_text(
            "next"@,
            "call apply_edit_plan again with the same plan, mode=\"apply\", and this confirm_token. The token is single-use and bound to this exact plan and repository."@,
        ),
{
    let mut items = Items::new();
    let mut i: usize = 0;
    while i < files.len()
        invariant
            i <= files@.len(),
            items@ =~= checked_files(files@).take(i as int),
        decreases files@.len() - i,
    {
        let status = if files[i].changed {
            "READY"
        } else {
            "NO_CHANGE"
        };
        items.push(
            Fields::new().with_text("path", files[i].path.as_str()).with_text(
                "status",
                status,
            ).done(),
        );
        i += 1;
    }
    assert(items@ =~= checked_files(files@));
    Fields::new().with_text("status", "PREVIEW_OK").with_list("files", items).with_number(
        "totalEdits",
        total_edits,
    ).with_text("confirmToken", value).with_number("expiresAt", expires_at).with_text(
        "next",
        "call apply_edit_plan again with the same plan, mode=\"apply\", and this confirm_token. The token is single-use and bound to this exact plan and repository.",
    ).done()
}

/// Answers the preview of a batch that passed.
fn batch_passed(files: &Vec<CheckedFile>, batch: Batch, value: &str, expires_at: u64) -> (answer:
    Json)
    ensures
        answer@ == JsonView::empty().with_text("status"@, "PREVIEW_OK"@).with_text(
            "completeness"@,
            "PARTIAL"@,
        ).with_text("backend"@, "graph+lexical"@).with_list(
            "renames"@,
            batch.names@,
        ).with_number("renamedEdits"@, batch.total as nat).with_list(
            "files"@,
            checked_paths(files@),
        ).with_list("ordering"@, batch.ordering@).with_list(
            "uncertainReferences"@,
            batch.uncertain@,
        ).with_list(
            "warnings"@,
            Seq::empty().push(JsonView::Text("GRAPH_PROVEN_SITES_ONLY"@)),
        ).with("plan"@, batch.plan@).with_text("confirmToken"@, value@).with_number(
            "expiresAt"@,
            expires_at as nat,
        ).with_text(
            "next"@,
            "call again with the identical renames, mode=\"apply\", and this confirm_token. The token is single-use and bound to this exact plan."@,
        ),
{
    let mut paths = Items::new();
    let mut i: usize = 0;
    while i < files.len()
        invariant
            i <= files@.len(),
            paths@ =~= checked_paths(files@).take(i as int),
        decreases files@.len() - i,
    {
        paths.push(json::string(files[i].path.as_str()));
        i += 1;
    }
    assert(paths@ =~= checked_paths(files@));
    let mut warnings = Items::new();
    warnings.push(json::string("GRAPH_PROVEN_SITES_ONLY"));
    Fields::new().with_text("status", "PREVIEW_OK").with_text("completeness", "PARTIAL").with_text(
        "backend",
        "graph+lexical",
    ).with_list("renames", batch.names).with_number("renamedEdits", batch.total).with_list(
        "files",
        paths,
    ).with_list("ordering", batch.ordering).with_list(
        "uncertainReferences",
        batch.uncertain,
    ).with_list("warnings", warnings).with("plan", batch.plan).with_text(
        "confirmToken",
        value,
    ).with_number("expiresAt", expires_at).with_text(
        "next",
        "call again with the identical renames, mode=\"apply\", and this confirm_token. The token is single-use and bound to this exact plan.",
    ).done()
}

/// Answers a preview once its dry run has an outcome, and issues the confirmation where it passed.
///
/// What must never happen is a token for a plan the working tree would reject, so the token only
/// exists when the dry run passed. For one rename a failure here is not a failure of the rename:
/// the plan is still returned and can be previewed explicitly. A clock so late that the
/// confirmation's end could not be counted is left out.
pub fn after_dry_run(
    tokens: &mut TokenStore,
    root: &str,
    plan: &EditPlan,
    preview: Preview,
    outcome: DryRun,
    now: u64,
) -> (answer: Json)
    requires
        now <= u64::MAX - token::TOKEN_TTL,
    ensures
        answer@ == previewed(outcome, preview@, plan@, now),
        final(tokens)@ == issued_after(old(tokens)@, outcome, plan@, root@, now),
{
    match outcome {
        DryRun::Unopened(why) => match preview {
            Preview::Symbol(answer) => answer.done(),
            Preview::Plan => busy(why.as_str()),
            Preview::Batch(_) => busy(why.as_str()),
        },
        DryRun::Passed { files, total_edits } => {
            let token = tokens.issue(plan, root, now);
            match preview {
                Preview::Plan => plan_passed(
                    &files,
                    total_edits,
                    token.value.as_str(),
                    token.expires_at,
                ),
                Preview::Symbol(answer) => answer.with("previewed", Json::Bool(true)).with_text(
                    "confirmToken",
                    token.value.as_str(),
                ).with_number("expiresAt", token.expires_at).done(),
                Preview::Batch(batch) => batch_passed(
                    &files,
                    batch,
                    token.value.as_str(),
                    token.expires_at,
                ),
            }
        },
        DryRun::Failed(failure) => match preview {
            Preview::Plan => {
                // At preview time a moved tree is not an error state to recover from, it is the
                // answer: this plan cannot be applied, produce a fresh one.
                if failure.is_stale() {
                    let reason =
                        "the plan does not match the working tree, so nothing can be applied. Re-run the producing tool for a fresh plan: ".to_owned().concat(
                    failure.text.as_str());
                    operations::answer("PREVIEW_BLOCKED", reason.as_str())
                } else {
                    failure.answer()
                }
            },
            Preview::Symbol(answer) => answer.with("previewed", Json::Bool(false)).with_text(
                "previewBlocked",
                failure.text.as_str(),
            ).done(),
            Preview::Batch(_) => {
                let reason =
                    "the plan does not match the working tree, so nothing can be applied. Preview again for a fresh plan: ".to_owned().concat(
                failure.text.as_str());
                operations::answer("PREVIEW_BLOCKED", reason.as_str())
            },
        },
    }
}

/// How many edits the files of a plan hold.
pub open spec fn plan_edits(files: Seq<FileView>) -> nat
    decreases files.len(),
{
    if files.len() == 0 {
        0
    } else {
        plan_edits(files.drop_last()) + files.last().edits.len()
    }
}

/// A count as an answer carries it: up to the largest number.
pub open spec fn counted(count: nat) -> nat {
    if count <= u64::MAX {
        count
    } else {
        u64::MAX as nat
    }
}

/// The paths of a plan as an answer carries them.
pub open spec fn plan_paths(files: Seq<FileView>) -> Seq<JsonView> {
    Seq::new(files.len(), |i: int| JsonView::Text(files[i].path))
}

/// The answer to the write of a plan.
pub open spec fn plan_written(outcome: Written, plan: PlanView) -> JsonView {
    match outcome {
        Written::Unopened(why) => unopened(why@),
        Written::Done { transaction_id, undo_id } => JsonView::empty().with_text(
            "status"@,
            "APPLIED"@,
        ).with_text("transactionId"@, transaction_id@).with_text("undoId"@, undo_id@).with_list(
            "files"@,
            plan_paths(plan.files),
        ).with_number("totalEdits"@, counted(plan_edits(plan.files))).with_text(
            "next"@,
            "the previous contents are retained; rollback_last_apply restores them."@,
        ),
        Written::Failed(failure) => failed(failure),
    }
}

/// The answer to the write of a batch of renames.
pub open spec fn batch_written(outcome: Written, batch: BatchView, plan: PlanView) -> JsonView {
    match outcome {
        Written::Unopened(why) => unopened(why@),
        Written::Done { transaction_id, undo_id } => JsonView::empty().with_text(
            "status"@,
            "APPLIED"@,
        ).with_text("transactionId"@, transaction_id@).with_text("undoId"@, undo_id@).with_list(
            "renames"@,
            batch.names,
        ).with_number("renamedEdits"@, batch.total).with_list(
            "files"@,
            plan_paths(plan.files),
        ).with_text(
            "next"@,
            "every rename landed in one transaction; rollback_last_apply undoes all of them."@,
        ),
        Written::Failed(failure) => operations::plain_answer(
            "STALE"@,
            "nothing was written; the batch is unchanged on disk: "@ + failure.text@,
        ),
    }
}

/// The answer to a write.
pub open spec fn write_answer(outcome: Written, purpose: PurposeView, plan: PlanView) -> JsonView {
    match purpose {
        PurposeView::Plan => plan_written(outcome, plan),
        PurposeView::Batch(batch) => batch_written(outcome, batch, plan),
    }
}

/// The paths of a plan as an answer carries them.
fn path_items(plan: &EditPlan) -> (items: Items)
    ensures
        items@ == plan_paths(plan@.files),
{
    let mut items = Items::new();
    let mut i: usize = 0;
    while i < plan.files.len()
        invariant
            i <= plan.files@.len(),
            items@ =~= plan_paths(plan@.files).take(i as int),
        decreases plan.files@.len() - i,
    {
        items.push(json::string(plan.files[i].path.as_str()));
        i += 1;
    }
    assert(items@ =~= plan_paths(plan@.files));
    items
}

/// How many edits a plan holds, up to the largest number.
fn count_edits(plan: &EditPlan) -> (count: u64)
    ensures
        count == counted(plan_edits(plan@.files)),
{
    let ghost all = plan@.files;
    let mut count: u64 = 0;
    let mut i: usize = 0;
    while i < plan.files.len()
        invariant
            i <= plan.files@.len(),
            all == plan::files_view(plan.files@),
            count == counted(plan_edits(all.take(i as int))),
        decreases plan.files@.len() - i,
    {
        assert(all.take(i + 1).drop_last() =~= all.take(i as int));
        count = count.saturating_add(plan.files[i].edits.len() as u64);
        i += 1;
    }
    assert(all.take(i as int) =~= all);
    count
}

/// Answers a write once it has an outcome.
pub fn after_write(plan: &EditPlan, purpose: Purpose, outcome: Written) -> (answer: Json)
    ensures
        answer@ == write_answer(outcome, purpose@, plan@),
{
    match outcome {
        Written::Unopened(why) => busy(why.as_str()),
        Written::Done { transaction_id, undo_id } => {
            let head = Fields::new().with_text("status", "APPLIED").with_text(
                "transactionId",
                transaction_id.as_str(),
            ).with_text("undoId", undo_id.as_str());
            match purpose {
                Purpose::Plan => head.with_list("files", path_items(plan)).with_number(
                    "totalEdits",
                    count_edits(plan),
                ).with_text(
                    "next",
                    "the previous contents are retained; rollback_last_apply restores them.",
                ).done(),
                Purpose::Batch(batch) => head.with_list("renames", batch.names).with_number(
                    "renamedEdits",
                    batch.total,
                ).with_list("files", path_items(plan)).with_text(
                    "next",
                    "every rename landed in one transaction; rollback_last_apply undoes all of them.",
                ).done(),
            }
        },
        Written::Failed(failure) => match purpose {
            Purpose::Plan => failure.answer(),
            Purpose::Batch(_) => {
                let reason = "nothing was written; the batch is unchanged on disk: ".to_owned().concat(
                failure.text.as_str());
                operations::answer("STALE", reason.as_str())
            },
        },
    }
}

/// What `rollback_last_apply` comes to.
pub open spec fn rollback_step(write_allowed: bool) -> StepView {
    if write_allowed {
        StepView::List
    } else {
        StepView::Answer(gate_closed())
    }
}

/// `rollback_last_apply`: restores the most recent retained transaction.
pub fn rollback_last_apply(write_allowed: bool) -> (step: Step)
    ensures
        step@ == rollback_step(write_allowed),
{
    if !write_allowed {
        return Step::Answer(closed_gate());
    }
    Step::List
}

/// What a rollback comes to once the retained transactions are known, or are not.
pub open spec fn listed_step(outcome: Listed) -> StepView {
    match outcome {
        Listed::Unopened(why) => StepView::Answer(unopened(why@)),
        Listed::Failed(failure) => StepView::Answer(failed(failure)),
        Listed::Receipts(receipts) => if receipts@.len() == 0 {
            StepView::Answer(
                operations::plain_answer(
                    "NO_CHANGE"@,
                    "no retained apply exists for this repository; there is nothing to roll back"@,
                ),
            )
        } else {
            StepView::Rollback { id: receipts@.last()@ }
        },
    }
}

/// Goes on with a rollback once the retained transactions are known, or are not.
pub fn after_list(outcome: Listed) -> (step: Step)
    ensures
        step@ == listed_step(outcome),
{
    match outcome {
        Listed::Unopened(why) => Step::Answer(busy(why.as_str())),
        Listed::Failed(failure) => Step::Answer(failure.answer()),
        Listed::Receipts(receipts) => {
            if receipts.len() == 0 {
                return Step::Answer(
                    operations::answer(
                        "NO_CHANGE",
                        "no retained apply exists for this repository; there is nothing to roll back",
                    ),
                );
            }
            Step::Rollback { id: receipts[receipts.len() - 1].clone() }
        },
    }
}

/// The answer to a rollback.
pub open spec fn restored_answer(outcome: Restored) -> JsonView {
    match outcome {
        Restored::Done { paths, transaction_id } => JsonView::empty().with_text(
            "status"@,
            "ROLLED_BACK"@,
        ).with_number("restored"@, paths as nat).with_text(
            "rollbackTransactionId"@,
            transaction_id@,
        ).with_text(
            "next"@,
            "run verified_change phase=verify if the refactor is being retried."@,
        ),
        Restored::Failed(why) => operations::plain_answer(
            "ROLLBACK_INCOMPLETE"@,
            "the retained contents are kept and the rollback can be retried: "@ + why@,
        ),
    }
}

/// Answers a rollback once it has an outcome.
pub fn after_rollback(outcome: Restored) -> (answer: Json)
    ensures
        answer@ == restored_answer(outcome),
{
    match outcome {
        Restored::Done { paths, transaction_id } => Fields::new().with_text(
            "status",
            "ROLLED_BACK",
        ).with_number("restored", paths).with_text(
            "rollbackTransactionId",
            transaction_id.as_str(),
        ).with_text(
            "next",
            "run verified_change phase=verify if the refactor is being retried.",
        ).done(),
        Restored::Failed(why) => {
            let reason = "the retained contents are kept and the rollback can be retried: ".to_owned().concat(
            why.as_str());
            operations::answer("ROLLBACK_INCOMPLETE", reason.as_str())
        },
    }
}

/// Whether the answer of a step, or its answer so far, keeps to the contract.
pub open spec fn step_conforms(step: StepView) -> bool {
    match step {
        StepView::Answer(answer) => contract::conforms(answer),
        StepView::DryRun { plan: _, preview: PreviewView::Symbol(answer) } => contract::conforms(
            answer,
        ),
        _ => true,
    }
}

/// What `apply_edit_plan` comes to keeps to the contract.
pub proof fn law_applies_conform(
    issued: Map<Seq<char>, IssuedView>,
    root: Seq<char>,
    arguments: JsonView,
    write_allowed: bool,
    now: u64,
)
    ensures
        step_conforms(apply_edit_plan_step(issued, root, arguments, write_allowed, now).0),
{
    broadcast use json::lemma_with_get;

    reveal(apply_edit_plan_step);
    contract::lemma_keys();
}

/// What a plan at the gates comes to keeps to the contract, the repository opened or not.
pub proof fn law_gates_conform(
    issued: Map<Seq<char>, IssuedView>,
    root: Seq<char>,
    plan: PlanView,
    presented: Option<Seq<char>>,
    purpose: PurposeView,
    opened: Result<(), String>,
    write_allowed: bool,
    now: u64,
)
    ensures
        step_conforms(
            gated_step(issued, root, plan, presented, purpose, write_allowed, now).0,
        ),
        step_conforms(opened_step(issued, root, plan, presented, opened, write_allowed, now).0),
{
    broadcast use json::lemma_with_get;

    contract::lemma_keys();
}

/// Every answer to a preview keeps to the contract, where the answer it completes does.
pub proof fn law_previews_conform(
    outcome: DryRun,
    preview: PreviewView,
    plan: PlanView,
    now: u64,
)
    requires
        step_conforms(StepView::DryRun { plan, preview }),
    ensures
        contract::conforms(previewed(outcome, preview, plan, now)),
{
    broadcast use json::lemma_with_get;

    contract::lemma_keys();
    match preview {
        PreviewView::Symbol(answer) => {
            assert(answer is Object);
        },
        _ => {},
    }
}

/// Every answer to a write or a rollback keeps to the contract.
pub proof fn law_writes_conform(
    written: Written,
    purpose: PurposeView,
    plan: PlanView,
    listed: Listed,
    restored: Restored,
)
    ensures
        contract::conforms(write_answer(written, purpose, plan)),
        step_conforms(listed_step(listed)),
        contract::conforms(restored_answer(restored)),
{
    broadcast use json::lemma_with_get;

    contract::lemma_keys();
}

/// A confirmation that a presented value gives to write a plan in a repository.
pub open spec fn confirmed(
    issued: Map<Seq<char>, IssuedView>,
    presented: Option<Seq<char>>,
    plan: PlanView,
    root: Seq<char>,
    now: u64,
) -> bool {
    presented matches Some(value) && issued.dom().contains(value) && {
        let given = issued[value];
        &&& given.expires_at > now
        &&& given.repository == root
        &&& given.plan == plan
    }
}

/// A plan is written only where every gate is passed: the server may write, and the call presents
/// an unexpired confirmation for this plan and this repository, which is spent by it.
pub proof fn law_writing_takes_every_gate(
    issued: Map<Seq<char>, IssuedView>,
    root: Seq<char>,
    plan: PlanView,
    presented: Option<Seq<char>>,
    purpose: PurposeView,
    opened: Result<(), String>,
    arguments: JsonView,
    write_allowed: bool,
    now: u64,
)
    ensures
        ({
            let (step, after) = gated_step(
                issued,
                root,
                plan,
                presented,
                purpose,
                write_allowed,
                now,
            );
            step matches StepView::Write { plan: written, .. } ==> write_allowed && written == plan
                && confirmed(issued, presented, plan, root, now) && !after.dom().contains(
                presented->0,
            )
        }),
        ({
            let (step, after) = opened_step(
                issued,
                root,
                plan,
                presented,
                opened,
                write_allowed,
                now,
            );
            step matches StepView::Write { plan: written, .. } ==> write_allowed && written == plan
                && confirmed(issued, presented, plan, root, now) && !after.dom().contains(
                presented->0,
            )
        }),
        ({
            let (step, after) = apply_edit_plan_step(issued, root, arguments, write_allowed, now);
            let value = arguments.text("confirm_token"@);
            step matches StepView::Write { plan: written, .. } ==> write_allowed && confirmed(
                issued,
                value,
                written,
                root,
                now,
            ) && !after.dom().contains(value->0)
        }),
        rollback_step(write_allowed) is List ==> write_allowed,
{
    reveal(apply_edit_plan_step);
}

/// A confirmation exists only for a plan whose dry run passed: any other outcome leaves the
/// confirmations as they were, and a preview that passed makes its plan's the one it answers.
pub proof fn law_only_a_passed_preview_confirms(
    issued: Map<Seq<char>, IssuedView>,
    outcome: DryRun,
    plan: PlanView,
    root: Seq<char>,
    now: u64,
)
    requires
        now <= u64::MAX - token::TOKEN_TTL,
    ensures
        !(outcome is Passed) ==> issued_after(issued, outcome, plan, root, now) == issued,
        outcome is Passed ==> confirmed(
            issued_after(issued, outcome, plan, root, now),
            Some(token::token_value(plan, now)),
            plan,
            root,
            now,
        ),
{
}

/// A previewed plan is applied by its confirmation alone: until it expires, presenting it writes
/// exactly the plan that was previewed.
pub proof fn law_a_confirmation_alone_applies_its_plan(
    issued: Map<Seq<char>, IssuedView>,
    outcome: DryRun,
    plan: PlanView,
    root: Seq<char>,
    now: u64,
    arguments: JsonView,
    later: u64,
)
    requires
        now <= u64::MAX - token::TOKEN_TTL,
        later < now + token::TOKEN_TTL,
        outcome is Passed,
        applies(arguments),
        arguments.get("plan"@) is None,
        arguments.text("confirm_token"@) == Some(token::token_value(plan, now)),
    ensures
        apply_edit_plan_step(
            issued_after(issued, outcome, plan, root, now),
            root,
            arguments,
            true,
            later,
        ).0 == (StepView::Write { plan, purpose: PurposeView::Plan }),
{
    reveal(apply_edit_plan_step);
}

/// Whether an answer says that the working tree changed.
pub open spec fn says_changed(answer: JsonView) -> bool {
    answer.text("status"@) == Some("APPLIED"@) || answer.text("status"@) == Some("ROLLED_BACK"@)
}

/// The statuses that say the working tree changed are no others.
proof fn lemma_changed_statuses()
    ensures
        "INVALID_ARGS"@ != "APPLIED"@ && "INVALID_ARGS"@ != "ROLLED_BACK"@,
        "INVALID_PLAN"@ != "APPLIED"@ && "INVALID_PLAN"@ != "ROLLED_BACK"@,
        "NO_CHANGE"@ != "APPLIED"@ && "NO_CHANGE"@ != "ROLLED_BACK"@,
        "PREVIEW_BLOCKED"@ != "APPLIED"@ && "PREVIEW_BLOCKED"@ != "ROLLED_BACK"@,
        "PREVIEW_OK"@ != "APPLIED"@ && "PREVIEW_OK"@ != "ROLLED_BACK"@,
        "REPO_BUSY"@ != "APPLIED"@ && "REPO_BUSY"@ != "ROLLED_BACK"@,
        "ROLLBACK_INCOMPLETE"@ != "APPLIED"@ && "ROLLBACK_INCOMPLETE"@ != "ROLLED_BACK"@,
        "STALE"@ != "APPLIED"@ && "STALE"@ != "ROLLED_BACK"@,
        "TOKEN_EXPIRED"@ != "APPLIED"@ && "TOKEN_EXPIRED"@ != "ROLLED_BACK"@,
        "TOKEN_PLAN_MISMATCH"@ != "APPLIED"@ && "TOKEN_PLAN_MISMATCH"@ != "ROLLED_BACK"@,
        "TOKEN_REPOSITORY_MISMATCH"@ != "APPLIED"@ && "TOKEN_REPOSITORY_MISMATCH"@ != "ROLLED_BACK"@,
        "TOKEN_UNKNOWN"@ != "APPLIED"@ && "TOKEN_UNKNOWN"@ != "ROLLED_BACK"@,
        "WRITE_GATE_CLOSED"@ != "APPLIED"@ && "WRITE_GATE_CLOSED"@ != "ROLLED_BACK"@,
{
    reveal_strlit("APPLIED");
    reveal_strlit("ROLLED_BACK");
    assert("APPLIED"@.len() == 7 && "ROLLED_BACK"@.len() == 11);
    reveal_strlit("INVALID_ARGS");
    assert("INVALID_ARGS"@.len() == 12);
    reveal_strlit("INVALID_PLAN");
    assert("INVALID_PLAN"@.len() == 12);
    reveal_strlit("NO_CHANGE");
    assert("NO_CHANGE"@.len() == 9);
    reveal_strlit("PREVIEW_BLOCKED");
    assert("PREVIEW_BLOCKED"@.len() == 15);
    reveal_strlit("PREVIEW_OK");
    assert("PREVIEW_OK"@.len() == 10);
    reveal_strlit("REPO_BUSY");
    assert("REPO_BUSY"@.len() == 9);
    reveal_strlit("ROLLBACK_INCOMPLETE");
    assert("ROLLBACK_INCOMPLETE"@.len() == 19);
    reveal_strlit("STALE");
    assert("STALE"@.len() == 5);
    reveal_strlit("TOKEN_EXPIRED");
    assert("TOKEN_EXPIRED"@.len() == 13);
    reveal_strlit("TOKEN_PLAN_MISMATCH");
    assert("TOKEN_PLAN_MISMATCH"@.len() == 19);
    reveal_strlit("TOKEN_REPOSITORY_MISMATCH");
    assert("TOKEN_REPOSITORY_MISMATCH"@.len() == 25);
    reveal_strlit("TOKEN_UNKNOWN");
    assert("TOKEN_UNKNOWN"@.len() == 13);
    reveal_strlit("WRITE_GATE_CLOSED");
    assert("WRITE_GATE_CLOSED"@.len() == 17);
}

/// An answer says that the working tree changed exactly where the transaction said so: a write is
/// answered as applied where it was done and only there, and a rollback as rolled back. What is
/// answered without a transaction, whatever stopped it, never says so.
pub proof fn law_only_a_transaction_changes_the_tree(
    issued: Map<Seq<char>, IssuedView>,
    root: Seq<char>,
    plan: PlanView,
    presented: Option<Seq<char>>,
    purpose: PurposeView,
    opened: Result<(), String>,
    arguments: JsonView,
    write_allowed: bool,
    now: u64,
    previewed: DryRun,
    written: Written,
    listed: Listed,
    restored: Restored,
)
    ensures
        !says_changed(plan_previewed(previewed, plan, now)),
        says_changed(write_answer(written, purpose, plan)) <==> written is Done,
        written is Done ==> write_answer(written, purpose, plan).text("status"@) == Some(
            "APPLIED"@,
        ),
        says_changed(restored_answer(restored)) <==> restored is Done,
        restored is Done ==> restored_answer(restored).text("status"@) == Some("ROLLED_BACK"@),
        apply_edit_plan_step(issued, root, arguments, write_allowed, now).0 matches StepView::Answer(
            answer,
        ) ==> !says_changed(answer),
        opened_step(
            issued,
            root,
            plan,
            presented,
            opened,
            write_allowed,
            now,
        ).0 matches StepView::Answer(answer) ==> !says_changed(answer),
        gated_step(
            issued,
            root,
            plan,
            presented,
            purpose,
            write_allowed,
            now,
        ).0 matches StepView::Answer(answer) ==> !says_changed(answer),
        rollback_step(write_allowed) matches StepView::Answer(answer) ==> !says_changed(answer),
        listed_step(listed) matches StepView::Answer(answer) ==> !says_changed(answer),
{
    broadcast use json::lemma_with_get;

    reveal(apply_edit_plan_step);
    contract::lemma_keys();
    lemma_changed_statuses();
}

/// A closed gate spends nothing: where the server may not write, no apply changes the confirmations.
pub proof fn law_a_closed_gate_spends_nothing(
    issued: Map<Seq<char>, IssuedView>,
    root: Seq<char>,
    plan: PlanView,
    presented: Option<Seq<char>>,
    purpose: PurposeView,
    opened: Result<(), String>,
    arguments: JsonView,
    now: u64,
)
    ensures
        apply_edit_plan_step(issued, root, arguments, false, now).1 == issued,
        opened_step(issued, root, plan, presented, opened, false, now).1 == issued,
        gated_step(issued, root, plan, presented, purpose, false, now) == (
            StepView::Answer(gate_closed()),
            issued,
        ),
{
    reveal(apply_edit_plan_step);
}

/// A rollback restores the last retained transaction: where the server may write and transactions
/// are retained, the last of them is what is restored, and one that was restored is answered as
/// such. Where none is retained nothing is, and a server that may not write does not even ask.
pub proof fn law_a_rollback_restores_the_last(listed: Listed, restored: Restored)
    ensures
        rollback_step(true) == StepView::List,
        rollback_step(false) == StepView::Answer(gate_closed()),
        listed matches Listed::Receipts(receipts) ==> {
            if receipts@.len() > 0 {
                listed_step(listed) == StepView::Rollback { id: receipts@.last()@ }
            } else {
                listed_step(listed) matches StepView::Answer(answer) && answer.text("status"@)
                    == Some("NO_CHANGE"@)
            }
        },
        !(listed is Receipts) ==> listed_step(listed) is Answer,
        restored matches Restored::Done { paths, transaction_id } ==> {
            let answer = restored_answer(restored);
            &&& answer.text("status"@) == Some("ROLLED_BACK"@)
            &&& answer.number("restored"@) == Some(paths as nat)
            &&& answer.text("rollbackTransactionId"@) == Some(transaction_id@)
        },
        restored is Failed ==> restored_answer(restored).text("status"@) == Some(
            "ROLLBACK_INCOMPLETE"@,
        ),
{
    broadcast use json::lemma_with_get;

    reveal_strlit("status");
    reveal_strlit("restored");
    reveal_strlit("rollbackTransactionId");
    assert("status"@.len() == 6 && "restored"@.len() == 8 && "rollbackTransactionId"@.len() == 21);
}

} // verus!
