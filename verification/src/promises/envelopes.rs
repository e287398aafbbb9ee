//! What reading a plan promises: that it is read as it is written, or not at all.

use crate::envelope;
use crate::json::JsonView;
use crate::plan::{EditView, FileView, PlanView};
use vstd::prelude::*;
use vstd::string::*;

verus! {

/// Whether a value is written as an edit, with one of the four provenances that are ever applied.
pub open spec fn reads_edit(value: JsonView, edit: EditView) -> bool {
    &&& value.number("startLine"@) == Some(edit.start_line as nat)
    &&& value.number("startChar"@) == Some(edit.start_char as nat)
    &&& value.number("endLine"@) == Some(edit.end_line as nat)
    &&& value.number("endChar"@) == Some(edit.end_char as nat)
    &&& value.text("before"@) == Some(edit.before)
    &&& value.text("after"@) == Some(edit.after)
    &&& value.text("provenance"@) == Some(edit.provenance)
    &&& edit.provenance == "EXACT_LSP"@ || edit.provenance == "RESOLVED"@ || edit.provenance
        == "EXTRACTED"@ || edit.provenance == "LEXICAL_EXACT"@
}

/// Whether values are written as edits, one for one.
pub open spec fn reads_edits(values: Seq<JsonView>, edits: Seq<EditView>) -> bool {
    &&& values.len() == edits.len()
    &&& forall|i: int| 0 <= i < values.len() ==> reads_edit(#[trigger] values[i], edits[i])
}

/// Whether a value is written as a file with edits.
pub open spec fn reads_file(value: JsonView, file: FileView) -> bool {
    &&& value.text("path"@) == Some(file.path)
    &&& value.text("sha256"@) == Some(file.sha256)
    &&& value.list("edits"@) matches Some(values) && values.len() > 0 && reads_edits(
        values,
        file.edits,
    )
}

/// Whether values are written as files, one for one.
pub open spec fn reads_files(values: Seq<JsonView>, files: Seq<FileView>) -> bool {
    &&& values.len() == files.len()
    &&& forall|i: int| 0 <= i < values.len() ==> reads_file(#[trigger] values[i], files[i])
}

/// Whether a value is written as a plan of this version.
pub open spec fn reads_plan(value: JsonView, plan: PlanView) -> bool {
    &&& value.text("schemaVersion"@) == Some("weavatrix.edit-plan.v1"@)
    &&& value.text("operation"@) == Some(plan.operation)
    &&& value.list("files"@) matches Some(values) && values.len() > 0 && reads_files(
        values,
        plan.files,
    )
}

/// One edit is read as it is written, or not at all.
proof fn lemma_edit(value: JsonView, context: Seq<char>, edit: EditView)
    ensures
        envelope::edit_of(value, context) == Ok::<EditView, Seq<char>>(edit) <==> reads_edit(
            value,
            edit,
        ),
{
    let read = envelope::edit_of(value, context);
    if reads_edit(value, edit) {
        assert(read is Ok);
        assert(read->Ok_0 =~= edit);
    }
}

/// Edits are read as they are written.
proof fn lemma_edits_read(values: Seq<JsonView>, context: Seq<char>, at: int, read: Seq<EditView>)
    requires
        0 <= at <= values.len(),
        read.len() == at,
        forall|i: int| 0 <= i < at ==> reads_edit(#[trigger] values[i], read[i]),
    ensures
        envelope::edits_from(values, context, at, read) matches Ok(edits) ==> reads_edits(
            values,
            edits,
        ),
    decreases values.len() - at,
{
    if at < values.len() {
        match envelope::edit_of(values[at], context) {
            Ok(edit) => {
                lemma_edit(values[at], context, edit);
                lemma_edits_read(values, context, at + 1, read.push(edit));
            },
            Err(_) => {},
        }
    }
}

/// Edits that are written are read.
proof fn lemma_edits_written(
    values: Seq<JsonView>,
    context: Seq<char>,
    edits: Seq<EditView>,
    at: int,
)
    requires
        reads_edits(values, edits),
        0 <= at <= values.len(),
    ensures
        envelope::edits_from(values, context, at, edits.take(at)) == Ok::<
            Seq<EditView>,
            Seq<char>,
        >(edits),
    decreases values.len() - at,
{
    if at < values.len() {
        assert(reads_edit(values[at], edits[at]));
        lemma_edit(values[at], context, edits[at]);
        lemma_edits_written(values, context, edits, at + 1);
        assert(edits.take(at).push(edits[at]) =~= edits.take(at + 1));
    } else {
        assert(edits.take(at) =~= edits);
    }
}

/// One file is read as it is written, or not at all.
proof fn lemma_file(value: JsonView, file: FileView)
    ensures
        envelope::file_of(value) == Ok::<FileView, Seq<char>>(file) <==> reads_file(value, file),
{
    let read = envelope::file_of(value);
    if value.text("path"@) is Some && value.list("edits"@) is Some {
        let context = "plan file "@ + value.text("path"@)->0;
        let values = value.list("edits"@)->0;
        lemma_edits_read(values, context, 0, Seq::empty());
        if reads_file(value, file) {
            lemma_edits_written(values, context, file.edits, 0);
            assert(file.edits.take(0) =~= Seq::<EditView>::empty());
            assert(read->Ok_0 =~= file);
        }
    }
}

/// Files are read as they are written.
proof fn lemma_files_read(values: Seq<JsonView>, at: int, read: Seq<FileView>)
    requires
        0 <= at <= values.len(),
        read.len() == at,
        forall|i: int| 0 <= i < at ==> reads_file(#[trigger] values[i], read[i]),
    ensures
        envelope::files_from(values, at, read) matches Ok(files) ==> reads_files(values, files),
    decreases values.len() - at,
{
    if at < values.len() {
        match envelope::file_of(values[at]) {
            Ok(file) => {
                lemma_file(values[at], file);
                lemma_files_read(values, at + 1, read.push(file));
            },
            Err(_) => {},
        }
    }
}

/// Files that are written are read.
proof fn lemma_files_written(values: Seq<JsonView>, files: Seq<FileView>, at: int)
    requires
        reads_files(values, files),
        0 <= at <= values.len(),
    ensures
        envelope::files_from(values, at, files.take(at)) == Ok::<Seq<FileView>, Seq<char>>(files),
    decreases values.len() - at,
{
    if at < values.len() {
        assert(reads_file(values[at], files[at]));
        lemma_file(values[at], files[at]);
        lemma_files_written(values, files, at + 1);
        assert(files.take(at).push(files[at]) =~= files.take(at + 1));
    } else {
        assert(files.take(at) =~= files);
    }
}

/// A plan is read exactly as it is written, and only where it is written as one: with its version,
/// its operation, and files with edits, each of a provenance that is ever applied.
pub proof fn law_a_plan_is_read_as_it_is_written(value: JsonView, plan: PlanView)
    ensures
        envelope::plan_of(value) == Ok::<PlanView, Seq<char>>(plan) <==> reads_plan(value, plan),
{
    let read = envelope::plan_of(value);
    if value.list("files"@) is Some {
        let values = value.list("files"@)->0;
        lemma_files_read(values, 0, Seq::empty());
        if reads_plan(value, plan) {
            lemma_files_written(values, plan.files, 0);
            assert(plan.files.take(0) =~= Seq::<FileView>::empty());
            assert(read->Ok_0 =~= plan);
        }
    }
}

} // verus!
