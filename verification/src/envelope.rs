//! Reading a `weavatrix.edit-plan.v1` envelope into the typed plan the worktree applies.
//!
//! The mapping is written out rather than derived, because every field here is load-bearing and a
//! silent default would be a hole in the proof: a missing `sha256` that became an empty string
//! would turn a stale-file check into a no-op, and an unknown provenance that fell back to a
//! permissive value would let an inferred edit reach a file.

use crate::json;
use crate::json::{Json, JsonView};
use crate::plan;
use crate::plan::{BuilderView, EditPlan, EditView, FileEdit, FileView, PlanView, TextEdit};
use crate::text;
use vstd::prelude::*;
use vstd::string::*;

verus! {

/// Why an envelope could not be read, in the vocabulary the contract already uses.
#[derive(Debug)]
pub struct EnvelopeError {
    pub code: &'static str,
    pub reason: String,
}

impl EnvelopeError {
    /// A plan that is not valid, for a reason.
    fn invalid(reason: String) -> (error: EnvelopeError)
        ensures
            error.code@ == "INVALID_PLAN"@,
            error.reason@ == reason@,
    {
        EnvelopeError { code: "INVALID_PLAN", reason }
    }
}

/// The provenance classes that are ever written.
pub open spec fn applicable(provenance: Seq<char>) -> bool {
    provenance == "EXACT_LSP"@ || provenance == "RESOLVED"@ || provenance == "EXTRACTED"@
        || provenance == "LEXICAL_EXACT"@
}

/// `Provenance::is_applicable` of `Provenance::new`: whether a provenance class is ever written.
///
/// The applicable set is the edit kernel's to define, so this asks it. It holds exactly for the
/// four classes that the kernel names.
#[verifier::external_body]
fn is_applicable(provenance: &str) -> (found: bool)
    ensures
        found == applicable(provenance@),
{
    weavatrix_refactor_plan::Provenance::new(provenance).is_applicable()
}

/// The text under a key, or what is wrong with it.
pub open spec fn text_at(value: JsonView, key: Seq<char>, context: Seq<char>) -> Result<
    Seq<char>,
    Seq<char>,
> {
    match value.text(key) {
        Some(t) => Ok(t),
        None => Err(context + ": "@ + key + " must be a string"@),
    }
}

/// The 32-bit number under a key, or what is wrong with it.
pub open spec fn number_at(value: JsonView, key: Seq<char>, context: Seq<char>) -> Result<
    u32,
    Seq<char>,
> {
    match value.number(key) {
        Some(n) => if n <= u32::MAX {
            Ok(n as u32)
        } else {
            Err(context + ": "@ + key + " must be a non-negative integer"@)
        },
        None => Err(context + ": "@ + key + " must be a non-negative integer"@),
    }
}

/// One edit of an envelope, or what is wrong with it.
pub open spec fn edit_of(value: JsonView, context: Seq<char>) -> Result<EditView, Seq<char>> {
    match text_at(value, "provenance"@, context) {
        Err(reason) => Err(reason),
        Ok(provenance) => if !applicable(provenance) {
            Err(
                context + ": provenance "@ + provenance
                    + " is not applyable; only EXACT_LSP, RESOLVED, EXTRACTED and LEXICAL_EXACT edits are ever written"@,
            )
        } else {
            match (
                number_at(value, "startLine"@, context),
                number_at(value, "startChar"@, context),
                number_at(value, "endLine"@, context),
                number_at(value, "endChar"@, context),
                text_at(value, "before"@, context),
                text_at(value, "after"@, context),
            ) {
                (Err(reason), _, _, _, _, _) => Err(reason),
                (_, Err(reason), _, _, _, _) => Err(reason),
                (_, _, Err(reason), _, _, _) => Err(reason),
                (_, _, _, Err(reason), _, _) => Err(reason),
                (_, _, _, _, Err(reason), _) => Err(reason),
                (_, _, _, _, _, Err(reason)) => Err(reason),
                (
                    Ok(start_line),
                    Ok(start_char),
                    Ok(end_line),
                    Ok(end_char),
                    Ok(before),
                    Ok(after),
                ) => Ok(
                    EditView {
                        start_line,
                        start_char,
                        end_line,
                        end_char,
                        before,
                        after,
                        provenance,
                    },
                ),
            }
        },
    }
}

/// The edits of an envelope's file from one on, after those already read, or what is wrong with
/// the first that is wrong.
pub open spec fn edits_from(
    values: Seq<JsonView>,
    context: Seq<char>,
    at: int,
    read: Seq<EditView>,
) -> Result<Seq<EditView>, Seq<char>>
    decreases values.len() - at,
{
    if at < 0 || at >= values.len() {
        Ok(read)
    } else {
        match edit_of(values[at], context) {
            Ok(edit) => edits_from(values, context, at + 1, read.push(edit)),
            Err(reason) => Err(reason),
        }
    }
}

/// One file of an envelope, or what is wrong with it.
pub open spec fn file_of(value: JsonView) -> Result<FileView, Seq<char>> {
    match text_at(value, "path"@, "plan file"@) {
        Err(reason) => Err(reason),
        Ok(path) => {
            let context = "plan file "@ + path;
            match text_at(value, "sha256"@, context) {
                Err(reason) => Err(reason),
                Ok(sha256) => match value.list("edits"@) {
                    None => Err(context + ": edits must be an array"@),
                    Some(values) => if values.len() == 0 {
                        Err(context + ": edits must not be empty"@)
                    } else {
                        match edits_from(values, context, 0, Seq::empty()) {
                            Ok(edits) => Ok(FileView { path, sha256, edits }),
                            Err(reason) => Err(reason),
                        }
                    },
                },
            }
        },
    }
}

/// The files of an envelope from one on, after those already read, or what is wrong with the
/// first that is wrong.
pub open spec fn files_from(values: Seq<JsonView>, at: int, read: Seq<FileView>) -> Result<
    Seq<FileView>,
    Seq<char>,
>
    decreases values.len() - at,
{
    if at < 0 || at >= values.len() {
        Ok(read)
    } else {
        match file_of(values[at]) {
            Ok(file) => files_from(values, at + 1, read.push(file)),
            Err(reason) => Err(reason),
        }
    }
}

/// The plan of an envelope, or what is wrong with it.
pub open spec fn plan_of(value: JsonView) -> Result<PlanView, Seq<char>> {
    match text_at(value, "schemaVersion"@, "plan"@) {
        Err(reason) => Err(reason),
        Ok(schema) => if schema != "weavatrix.edit-plan.v1"@ {
            Err("plan: schemaVersion must be weavatrix.edit-plan.v1, found "@ + schema)
        } else {
            match text_at(value, "operation"@, "plan"@) {
                Err(reason) => Err(reason),
                Ok(operation) => match value.list("files"@) {
                    None => Err("plan: files must be an array"@),
                    Some(values) => if values.len() == 0 {
                        Err("plan: files must not be empty"@)
                    } else {
                        match files_from(values, 0, Seq::empty()) {
                            Ok(files) => Ok(PlanView { operation, files }),
                            Err(reason) => Err(reason),
                        }
                    },
                },
            }
        },
    }
}

/// Whether an error carries the code of an invalid plan and a reason.
pub open spec fn refuses(error: EnvelopeError, reason: Seq<char>) -> bool {
    error.code@ == "INVALID_PLAN"@ && error.reason@ == reason
}

/// The text under a key, or what is wrong with it.
fn required_str<'a>(value: &'a Json, key: &str, context: &str) -> (found: Result<
    &'a str,
    EnvelopeError,
>)
    ensures
        match (found, text_at(value@, key@, context@)) {
            (Ok(t), Ok(expected)) => t@ == expected,
            (Err(error), Err(reason)) => refuses(error, reason),
            _ => false,
        },
{
    match value.text(key) {
        Some(t) => Ok(t),
        None => Err(
            EnvelopeError::invalid(
                context.to_owned().concat(": ").concat(key).concat(" must be a string"),
            ),
        ),
    }
}

/// The 32-bit number under a key, or what is wrong with it.
fn required_u32(value: &Json, key: &str, context: &str) -> (found: Result<u32, EnvelopeError>)
    ensures
        match (found, number_at(value@, key@, context@)) {
            (Ok(n), Ok(expected)) => n == expected,
            (Err(error), Err(reason)) => refuses(error, reason),
            _ => false,
        },
{
    match value.number(key) {
        Some(n) => {
            if n <= u32::MAX as u64 {
                return Ok(n as u32);
            }
        },
        None => {},
    }
    Err(
        EnvelopeError::invalid(
            context.to_owned().concat(": ").concat(key).concat(" must be a non-negative integer"),
        ),
    )
}

/// One edit of an envelope, or what is wrong with it.
fn text_edit(value: &Json, context: &str) -> (found: Result<TextEdit, EnvelopeError>)
    ensures
        match (found, edit_of(value@, context@)) {
            (Ok(edit), Ok(expected)) => edit@ == expected,
            (Err(error), Err(reason)) => refuses(error, reason),
            _ => false,
        },
{
    let provenance = required_str(value, "provenance", context)?;
    if !is_applicable(provenance) {
        return Err(
            EnvelopeError::invalid(
                context.to_owned().concat(": provenance ").concat(provenance).concat(
                    " is not applyable; only EXACT_LSP, RESOLVED, EXTRACTED and LEXICAL_EXACT edits are ever written",
                ),
            ),
        );
    }
    let start_line: u32 = required_u32(value, "startLine", context)?;
    let start_char: u32 = required_u32(value, "startChar", context)?;
    let end_line: u32 = required_u32(value, "endLine", context)?;
    let end_char: u32 = required_u32(value, "endChar", context)?;
    let before = required_str(value, "before", context)?;
    let after = required_str(value, "after", context)?;
    Ok(
        TextEdit {
            start_line,
            start_char,
            end_line,
            end_char,
            before: before.to_owned(),
            after: after.to_owned(),
            provenance: provenance.to_owned(),
        },
    )
}

/// One file of an envelope, or what is wrong with it.
fn file_edit(value: &Json) -> (found: Result<FileEdit, EnvelopeError>)
    ensures
        match (found, file_of(value@)) {
            (Ok(file), Ok(expected)) => file@ == expected,
            (Err(error), Err(reason)) => refuses(error, reason),
            _ => false,
        },
{
    let path = required_str(value, "path", "plan file")?;
    let context = "plan file ".to_owned().concat(path);
    let sha256 = required_str(value, "sha256", context.as_str())?;
    let values = match value.list("edits") {
        Some(values) => values,
        None => {
            return Err(EnvelopeError::invalid(context.concat(": edits must be an array")));
        },
    };
    let ghost all = json::list_view(values@);
    proof {
        json::lemma_list_view(values@);
    }
    if values.len() == 0 {
        return Err(EnvelopeError::invalid(context.concat(": edits must not be empty")));
    }
    let mut edits: Vec<TextEdit> = Vec::new();
    let mut i: usize = 0;
    assert(plan::edits_view(edits@) =~= Seq::empty());
    while i < values.len()
        invariant
            i <= values@.len(),
            values@.len() > 0,
            all.len() == values@.len(),
            forall|k: int| 0 <= k < values@.len() ==> #[trigger] all[k] == values@[k]@,
            value@.list("edits"@) == Some(all),
            text_at(value@, "path"@, "plan file"@) == Ok::<Seq<char>, Seq<char>>(path@),
            context@ == "plan file "@ + path@,
            text_at(value@, "sha256"@, context@) == Ok::<Seq<char>, Seq<char>>(sha256@),
            edits_from(all, context@, 0, Seq::empty()) == edits_from(
                all,
                context@,
                i as int,
                plan::edits_view(edits@),
            ),
        decreases values@.len() - i,
    {
        assert(all[i as int] == values@[i as int]@);
        match text_edit(&values[i], context.as_str()) {
            Ok(edit) => {
                assert(plan::edits_view(edits@.push(edit)) =~= plan::edits_view(edits@).push(edit@));
                edits.push(edit);
            },
            Err(error) => {
                return Err(error);
            },
        }
        i += 1;
    }
    Ok(FileEdit { path: path.to_owned(), sha256: sha256.to_owned(), edits })
}

/// Reads an envelope, refusing anything the applier could not prove.
///
/// Answers `INVALID_PLAN` with the field at fault. Nothing is read from disk here, so a refusal
/// costs nothing and never half-touches the working tree.
pub fn read_envelope(plan: &Json) -> (found: Result<EditPlan, EnvelopeError>)
    ensures
        match (found, plan_of(plan@)) {
            (Ok(read), Ok(expected)) => read@ == expected,
            (Err(error), Err(reason)) => refuses(error, reason),
            _ => false,
        },
{
    let schema = required_str(plan, "schemaVersion", "plan")?;
    if !text::same(schema, "weavatrix.edit-plan.v1") {
        return Err(
            EnvelopeError::invalid(
                "plan: schemaVersion must be weavatrix.edit-plan.v1, found ".to_owned().concat(
                    schema,
                ),
            ),
        );
    }
    let operation = required_str(plan, "operation", "plan")?;
    let values = match plan.list("files") {
        Some(values) => values,
        None => {
            return Err(EnvelopeError::invalid("plan: files must be an array".to_owned()));
        },
    };
    let ghost all = json::list_view(values@);
    proof {
        json::lemma_list_view(values@);
    }
    if values.len() == 0 {
        return Err(EnvelopeError::invalid("plan: files must not be empty".to_owned()));
    }
    let mut files: Vec<FileEdit> = Vec::new();
    let mut i: usize = 0;
    assert(plan::files_view(files@) =~= Seq::empty());
    while i < values.len()
        invariant
            i <= values@.len(),
            values@.len() > 0,
            all.len() == values@.len(),
            forall|k: int| 0 <= k < values@.len() ==> #[trigger] all[k] == values@[k]@,
            plan@.list("files"@) == Some(all),
            text_at(plan@, "schemaVersion"@, "plan"@) == Ok::<Seq<char>, Seq<char>>(schema@),
            schema@ == "weavatrix.edit-plan.v1"@,
            text_at(plan@, "operation"@, "plan"@) == Ok::<Seq<char>, Seq<char>>(operation@),
            files_from(all, 0, Seq::empty()) == files_from(
                all,
                i as int,
                plan::files_view(files@),
            ),
        decreases values@.len() - i,
    {
        assert(all[i as int] == values@[i as int]@);
        match file_edit(&values[i]) {
            Ok(file) => {
                assert(plan::files_view(files@.push(file)) =~= plan::files_view(files@).push(file@));
                files.push(file);
            },
            Err(error) => {
                return Err(error);
            },
        }
        i += 1;
    }
    Ok(EditPlan { operation: operation.to_owned(), files })
}

/// Whether every edit of a plan can be written, and no file of it is without edits.
pub open spec fn writable(plan: PlanView) -> bool {
    &&& plan.files.len() > 0
    &&& forall|i: int|
        0 <= i < plan.files.len() ==> (#[trigger] plan.files[i]).edits.len() > 0 && writable_edits(
            plan.files[i].edits,
        )
}

/// Whether every edit of a file can be written.
pub open spec fn writable_edits(edits: Seq<EditView>) -> bool {
    forall|i: int| 0 <= i < edits.len() ==> applicable((#[trigger] edits[i]).provenance)
}

/// An edit reads back from the envelope it was built into.
proof fn lemma_edit_reads_back(edit: EditView, context: Seq<char>)
    requires
        applicable(edit.provenance),
    ensures
        edit_of(plan::edit_value(edit), context) == Ok::<EditView, Seq<char>>(edit),
{
    broadcast use json::lemma_with_get;

    reveal_strlit("startLine");
    reveal_strlit("startChar");
    reveal_strlit("endLine");
    reveal_strlit("endChar");
    reveal_strlit("before");
    reveal_strlit("after");
    reveal_strlit("provenance");
    let value = plan::edit_value(edit);
    assert("startLine"@.len() == 9 && "startChar"@.len() == 9 && "startLine"@[5]
        != "startChar"@[5]);
    assert("endLine"@.len() == 7 && "endChar"@.len() == 7 && "endLine"@[3] != "endChar"@[3]);
    assert("before"@.len() == 6 && "after"@.len() == 5 && "provenance"@.len() == 10);
    assert(value.get("provenance"@) == Some(JsonView::Text(edit.provenance)));
    assert(value.get("startLine"@) == Some(JsonView::Number(edit.start_line as nat)));
    assert(value.get("startChar"@) == Some(JsonView::Number(edit.start_char as nat)));
    assert(value.get("endLine"@) == Some(JsonView::Number(edit.end_line as nat)));
    assert(value.get("endChar"@) == Some(JsonView::Number(edit.end_char as nat)));
    assert(value.get("before"@) == Some(JsonView::Text(edit.before)));
    assert(value.get("after"@) == Some(JsonView::Text(edit.after)));
}

/// Edits read back from the envelope they were built into.
proof fn lemma_edits_read_back(edits: Seq<EditView>, context: Seq<char>, at: int)
    requires
        writable_edits(edits),
        0 <= at <= edits.len(),
    ensures
        edits_from(plan::edit_values(edits), context, at, edits.take(at)) == Ok::<
            Seq<EditView>,
            Seq<char>,
        >(edits),
    decreases edits.len() - at,
{
    if at < edits.len() {
        assert(applicable(edits[at].provenance));
        lemma_edit_reads_back(edits[at], context);
        assert(edits.take(at).push(edits[at]) =~= edits.take(at + 1));
        lemma_edits_read_back(edits, context, at + 1);
    } else {
        assert(edits.take(at) =~= edits);
    }
}

/// A file reads back from the envelope it was built into.
proof fn lemma_file_reads_back(file: FileView)
    requires
        file.edits.len() > 0,
        writable_edits(file.edits),
    ensures
        file_of(plan::file_value(file)) == Ok::<FileView, Seq<char>>(file),
{
    broadcast use json::lemma_with_get;

    reveal_strlit("path");
    reveal_strlit("sha256");
    reveal_strlit("edits");
    let value = plan::file_value(file);
    assert("path"@.len() == 4 && "sha256"@.len() == 6 && "edits"@.len() == 5);
    assert(value.get("path"@) == Some(JsonView::Text(file.path)));
    assert(value.get("sha256"@) == Some(JsonView::Text(file.sha256)));
    assert(value.get("edits"@) == Some(JsonView::List(plan::edit_values(file.edits))));
    assert(file.edits.take(0) =~= Seq::empty());
    lemma_edits_read_back(file.edits, "plan file "@ + file.path, 0);
}

/// Files read back from the envelope they were built into.
proof fn lemma_files_read_back(plan: PlanView, at: int)
    requires
        writable(plan),
        0 <= at <= plan.files.len(),
    ensures
        files_from(plan::file_values(plan.files), at, plan.files.take(at)) == Ok::<
            Seq<FileView>,
            Seq<char>,
        >(plan.files),
    decreases plan.files.len() - at,
{
    if at < plan.files.len() {
        assert(plan.files[at].edits.len() > 0);
        lemma_file_reads_back(plan.files[at]);
        assert(plan.files.take(at).push(plan.files[at]) =~= plan.files.take(at + 1));
        lemma_files_read_back(plan, at + 1);
    } else {
        assert(plan.files.take(at) =~= plan.files);
    }
}

/// A plan that was built reads back as it was, where it has edits and every one can be written.
pub proof fn law_built_plans_read_back(plan: PlanView)
    requires
        writable(plan),
    ensures
        plan_of(plan::plan_value(plan)) == Ok::<PlanView, Seq<char>>(plan),
{
    broadcast use json::lemma_with_get;

    reveal_strlit("schemaVersion");
    reveal_strlit("operation");
    reveal_strlit("files");
    let value = plan::plan_value(plan);
    assert("schemaVersion"@.len() == 13 && "operation"@.len() == 9 && "files"@.len() == 5);
    assert(value.get("schemaVersion"@) == Some(JsonView::Text("weavatrix.edit-plan.v1"@)));
    assert(value.get("operation"@) == Some(JsonView::Text(plan.operation)));
    assert(value.get("files"@) == Some(JsonView::List(plan::file_values(plan.files))));
    assert(plan.files.take(0) =~= Seq::empty());
    lemma_files_read_back(plan, 0);
}

/// What is read never holds an edit whose provenance is not one of the four that are written.
pub proof fn law_read_plans_are_writable(value: JsonView)
    requires
        plan_of(value) is Ok,
    ensures
        writable(plan_of(value)->Ok_0),
{
    let values = value.list("files"@)->0;
    lemma_files_writable(values, 0, Seq::empty());
}

/// Reading more edits keeps them writable, and leaves none out.
proof fn lemma_edits_writable(
    values: Seq<JsonView>,
    context: Seq<char>,
    at: int,
    read: Seq<EditView>,
)
    requires
        writable_edits(read),
        0 <= at <= values.len(),
        edits_from(values, context, at, read) is Ok,
    ensures
        writable_edits(edits_from(values, context, at, read)->Ok_0),
        edits_from(values, context, at, read)->Ok_0.len() == read.len() + values.len() - at,
    decreases values.len() - at,
{
    if at < values.len() {
        let edit = edit_of(values[at], context)->Ok_0;
        lemma_edits_writable(values, context, at + 1, read.push(edit));
    }
}

/// Reading more files keeps them writable, and leaves none out.
proof fn lemma_files_writable(values: Seq<JsonView>, at: int, read: Seq<FileView>)
    requires
        forall|i: int|
            0 <= i < read.len() ==> (#[trigger] read[i]).edits.len() > 0 && writable_edits(
                read[i].edits,
            ),
        0 <= at <= values.len(),
        files_from(values, at, read) is Ok,
    ensures
        forall|i: int|
            0 <= i < files_from(values, at, read)->Ok_0.len() ==> (#[trigger] files_from(
                values,
                at,
                read,
            )->Ok_0[i]).edits.len() > 0 && writable_edits(
                files_from(values, at, read)->Ok_0[i].edits,
            ),
        files_from(values, at, read)->Ok_0.len() == read.len() + values.len() - at,
    decreases values.len() - at,
{
    if at < values.len() {
        let file = file_of(values[at])->Ok_0;
        let context = "plan file "@ + file.path;
        let edits = values[at].list("edits"@)->0;
        lemma_edits_writable(edits, context, 0, Seq::empty());
        lemma_files_writable(values, at + 1, read.push(file));
    }
}

/// Whether every edit of a plan under construction can be written.
pub open spec fn sound(builder: BuilderView) -> bool {
    &&& builder.current matches Some(at) ==> 0 <= at < builder.files.len()
    &&& forall|i: int|
        0 <= i < builder.files.len() ==> writable_edits((#[trigger] builder.files[i]).edits)
}

/// A plan with nothing in it is sound.
pub broadcast proof fn lemma_sound_start(operation: Seq<char>)
    ensures
        #[trigger] sound(BuilderView::start(operation)),
{
}

/// Opening a file keeps a plan sound.
pub broadcast proof fn lemma_sound_file(builder: BuilderView, path: Seq<char>, sha256: Seq<char>)
    requires
        sound(builder),
    ensures
        #[trigger] sound(builder.file(path, sha256)),
{
    let opened = builder.file(path, sha256);
    assert forall|i: int| 0 <= i < opened.files.len() implies writable_edits(
        (#[trigger] opened.files[i]).edits,
    ) by {
        if i < builder.files.len() {
            assert(opened.files[i] == builder.files[i]);
        }
    }
}

/// Adding an edit that can be written keeps a plan sound.
pub broadcast proof fn lemma_sound_edit(builder: BuilderView, edit: EditView)
    requires
        sound(builder),
        applicable(edit.provenance),
    ensures
        #[trigger] sound(builder.edit(edit)),
{
    match builder.current {
        Some(at) => {
            let added = builder.edit(edit);
            assert(writable_edits(builder.files[at].edits));
            assert forall|i: int| 0 <= i < added.files.len() implies writable_edits(
                (#[trigger] added.files[i]).edits,
            ) by {
                if i != at {
                    assert(added.files[i] == builder.files[i]);
                } else {
                    let edits = added.files[at].edits;
                    assert forall|j: int| 0 <= j < edits.len() implies applicable(
                        (#[trigger] edits[j]).provenance,
                    ) by {
                        if j < builder.files[at].edits.len() {
                            assert(edits[j] == builder.files[at].edits[j]);
                        }
                    }
                }
            }
        },
        None => {},
    }
}

/// The files with edits are writable, and there are some where a file has edits.
proof fn lemma_kept_files(files: Seq<FileView>)
    requires
        forall|i: int| 0 <= i < files.len() ==> writable_edits((#[trigger] files[i]).edits),
    ensures
        forall|i: int|
            0 <= i < plan::with_edits(files).len() ==> (#[trigger] plan::with_edits(
                files,
            )[i]).edits.len() > 0 && writable_edits(plan::with_edits(files)[i].edits),
        (exists|i: int| 0 <= i < files.len() && (#[trigger] files[i]).edits.len() > 0)
            ==> plan::with_edits(files).len() > 0,
    decreases files.len(),
{
    if files.len() > 0 {
        let rest = files.drop_last();
        assert forall|i: int| 0 <= i < rest.len() implies writable_edits(
            (#[trigger] rest[i]).edits,
        ) by {
            assert(rest[i] == files[i]);
        }
        lemma_kept_files(rest);
        assert(writable_edits(files[files.len() - 1].edits));
        if exists|i: int| 0 <= i < files.len() && (#[trigger] files[i]).edits.len() > 0 {
            let i = choose|i: int| 0 <= i < files.len() && (#[trigger] files[i]).edits.len() > 0;
            if i < rest.len() {
                assert(rest[i].edits.len() > 0);
            }
        }
    }
}

/// A plan that a planner would refuse to read is never produced: where every edit can be written
/// and there is one, the finished envelope reads back as the plan.
pub proof fn law_a_sound_plan_reads_back(builder: BuilderView)
    requires
        sound(builder),
        !builder.is_empty(),
    ensures
        plan_of(plan::plan_value(builder.plan())) == Ok::<PlanView, Seq<char>>(builder.plan()),
{
    let i = choose|i: int| 0 <= i < builder.files.len() && builder.files[i].edits.len() != 0;
    assert(builder.files[i].edits.len() > 0);
    lemma_kept_files(builder.files);
    law_built_plans_read_back(builder.plan());
}

/// A plan without edits is refused.
pub proof fn lemma_empty_plan_is_refused(builder: BuilderView)
    requires
        builder.is_empty(),
    ensures
        plan_of(plan::plan_value(builder.plan())) is Err,
{
    broadcast use json::lemma_with_get;

    reveal_strlit("schemaVersion");
    reveal_strlit("operation");
    reveal_strlit("files");
    plan::law_no_file_ships_empty(builder);
    let value = plan::plan_value(builder.plan());
    assert("schemaVersion"@.len() == 13 && "operation"@.len() == 9 && "files"@.len() == 5);
    assert(value.get("files"@) == Some(JsonView::List(plan::file_values(builder.plan().files))));
}

} // verus!
