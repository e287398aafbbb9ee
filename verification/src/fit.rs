//! Plans against the sources they were made from.
//!
//! An edit carries the text it replaces, and the applier refuses it where the file reads
//! otherwise. So a plan is worth producing only where every edit of it stands in its source: both
//! of its positions name a byte, and what lies between is what it replaces.

use crate::coordinates;
use crate::coordinates::PositionError;
use crate::envelope;
use crate::evidence;
use crate::graph::SourceFile;
use crate::json::JsonView;
use crate::plan;
use crate::plan::{BuilderView, EditView, FileView};
use crate::text;
use vstd::prelude::*;
use vstd::string::*;

verus! {

/// Whether a byte column is the one that a plan's position stands for.
pub open spec fn named_by(t: Seq<char>, line: u32, units: u32, offset: int, column: u32) -> bool {
    &&& coordinates::converted(t, line, column) == Ok::<u32, PositionError>(units)
    &&& coordinates::byte_position(t, line, column) == Some(offset)
}

/// Whether a plan's position, a line and a UTF-16 offset, names a byte offset of a text.
pub open spec fn names(t: Seq<char>, line: u32, units: u32, offset: int) -> bool {
    exists|column: u32| named_by(t, line, units, offset, column)
}

/// Whether an edit stands in a source between two byte offsets.
pub open spec fn stands_at(source: Seq<char>, edit: EditView, from: int, to: int) -> bool {
    &&& names(source, edit.start_line, edit.start_char, from)
    &&& names(source, edit.end_line, edit.end_char, to)
    &&& text::sliceable(source, from, to)
    &&& text::slice(source, from, to) == edit.before
}

/// Whether an edit stands in a source: its positions name bytes of it, between which it reads as
/// what the edit replaces.
pub open spec fn stands(source: Seq<char>, edit: EditView) -> bool {
    exists|from: int, to: int| stands_at(source, edit, from, to)
}

/// Whether the edits of a file stand in its source, and the file carries the hash of that source.
pub open spec fn file_fits(sources: Seq<SourceFile>, file: FileView) -> bool {
    match evidence::source_of(sources, file.path) {
        Some(source) => file.sha256 == plan::sha256_hex(source) && forall|i: int|
            0 <= i < file.edits.len() ==> stands(source, #[trigger] file.edits[i]),
        None => false,
    }
}

/// Whether every file of a plan fits its source.
pub open spec fn files_fit(sources: Seq<SourceFile>, files: Seq<FileView>) -> bool {
    forall|i: int| 0 <= i < files.len() ==> file_fits(sources, #[trigger] files[i])
}

/// Whether a plan under construction fits the sources.
pub open spec fn fits(sources: Seq<SourceFile>, builder: BuilderView) -> bool {
    &&& builder.current matches Some(at) ==> 0 <= at < builder.files.len()
    &&& files_fit(sources, builder.files)
}

/// Whether the file opened last is one with a given source.
pub open spec fn open_on(sources: Seq<SourceFile>, builder: BuilderView, source: Seq<char>) -> bool {
    match builder.current {
        Some(at) => 0 <= at < builder.files.len() && evidence::source_of(
            sources,
            builder.files[at].path,
        ) == Some(source),
        None => false,
    }
}

/// Whether the plan that an answer carries, where it reads as one, fits the sources.
pub open spec fn answer_fits(sources: Seq<SourceFile>, answer: JsonView) -> bool {
    match answer.get("plan"@) {
        Some(value) => match envelope::plan_of(value) {
            Ok(plan) => files_fit(sources, plan.files),
            Err(_) => true,
        },
        None => true,
    }
}

/// A plan with nothing in it fits.
pub proof fn lemma_fits_start(sources: Seq<SourceFile>, operation: Seq<char>)
    ensures
        fits(sources, BuilderView::start(operation)),
{
}

/// Opening a file under the hash of its source keeps a plan fitting.
pub proof fn lemma_fits_file(
    sources: Seq<SourceFile>,
    builder: BuilderView,
    path: Seq<char>,
    source: Seq<char>,
)
    requires
        fits(sources, builder),
        evidence::source_of(sources, path) == Some(source),
    ensures
        fits(sources, builder.file(path, plan::sha256_hex(source))),
        open_on(sources, builder.file(path, plan::sha256_hex(source)), source),
{
    let opened = builder.file(path, plan::sha256_hex(source));
    plan::lemma_path_at(builder.files, path);
    assert forall|i: int| 0 <= i < opened.files.len() implies file_fits(
        sources,
        #[trigger] opened.files[i],
    ) by {
        if i < builder.files.len() {
            assert(opened.files[i] == builder.files[i]);
        }
    }
}

/// Adding an edit that stands in the source of the open file keeps a plan fitting.
pub proof fn lemma_fits_edit(
    sources: Seq<SourceFile>,
    builder: BuilderView,
    source: Seq<char>,
    edit: EditView,
)
    requires
        fits(sources, builder),
        open_on(sources, builder, source),
        stands(source, edit),
    ensures
        fits(sources, builder.edit(edit)),
        open_on(sources, builder.edit(edit), source),
{
    let at = builder.current->0;
    let added = builder.edit(edit);
    assert(file_fits(sources, builder.files[at]));
    assert forall|i: int| 0 <= i < added.files.len() implies file_fits(
        sources,
        #[trigger] added.files[i],
    ) by {
        if i != at {
            assert(added.files[i] == builder.files[i]);
        } else {
            let edits = added.files[at].edits;
            assert forall|j: int| 0 <= j < edits.len() implies stands(
                source,
                #[trigger] edits[j],
            ) by {
                if j < builder.files[at].edits.len() {
                    assert(edits[j] == builder.files[at].edits[j]);
                }
            }
        }
    }
}

/// What is kept of files that fit, fits.
pub proof fn lemma_kept_fit(sources: Seq<SourceFile>, files: Seq<FileView>)
    requires
        files_fit(sources, files),
    ensures
        files_fit(sources, plan::with_edits(files)),
    decreases files.len(),
{
    if files.len() > 0 {
        let rest = files.drop_last();
        assert forall|i: int| 0 <= i < rest.len() implies file_fits(
            sources,
            #[trigger] rest[i],
        ) by {
            assert(rest[i] == files[i]);
        }
        lemma_kept_fit(sources, rest);
        assert(file_fits(sources, files[files.len() - 1]));
    }
}

/// A finished plan that reads back fits where the plan under construction did.
pub proof fn lemma_read_fits(sources: Seq<SourceFile>, builder: BuilderView)
    requires
        fits(sources, builder),
        envelope::sound(builder),
    ensures
        envelope::plan_of(plan::plan_value(builder.plan())) matches Ok(plan) ==> files_fit(
            sources,
            plan.files,
        ),
{
    if builder.is_empty() {
        envelope::lemma_empty_plan_is_refused(builder);
    } else {
        envelope::law_a_sound_plan_reads_back(builder);
        lemma_kept_fit(sources, builder.files);
    }
}

/// An answer with a finished plan fits where the plan under construction did.
pub proof fn lemma_answer_fits(sources: Seq<SourceFile>, answer: JsonView, builder: BuilderView)
    requires
        fits(sources, builder),
        envelope::sound(builder),
        answer.get("plan"@) == Some(plan::plan_value(builder.plan())),
    ensures
        answer_fits(sources, answer),
{
    lemma_read_fits(sources, builder);
}

/// Where the content of a line lies in its text.
proof fn lemma_content(t: Seq<char>, at: int)
    requires
        0 <= at < coordinates::lines(t).len(),
    ensures
        ({
            let start = coordinates::line_start(coordinates::lines(t), at) as int;
            let content = coordinates::without_return(coordinates::lines(t)[at]);
            &&& text::sliceable(t, start, start + text::bytes(content).len())
            &&& text::slice(t, start, start + text::bytes(content).len()) == content
        }),
{
    let sides = coordinates::lemma_line(t, at);
    let whole = coordinates::lines(t)[at];
    let content = coordinates::without_return(whole);
    let rest = whole.skip(content.len() as int);
    assert(whole =~= content + rest);
    assert(t =~= sides.0 + content + (rest + sides.1));
    text::lemma_parts(sides.0, content, rest + sides.1);
}

/// An edit between two columns of a line stands where it replaces what they enclose.
pub proof fn lemma_columns_stand(
    source: Seq<char>,
    edit: EditView,
    line: u32,
    first: u32,
    last: u32,
)
    requires
        line >= 1,
        coordinates::index(first) <= coordinates::index(last),
        edit.start_line == line,
        edit.end_line == line,
        coordinates::converted(source, line, first) == Ok::<u32, PositionError>(edit.start_char),
        coordinates::converted(source, line, last) == Ok::<u32, PositionError>(edit.end_char),
        edit.before == text::slice(
            coordinates::without_return(coordinates::lines(source)[line - 1]),
            coordinates::index(first),
            coordinates::index(last),
        ),
    ensures
        stands(source, edit),
{
    let start = coordinates::line_start(coordinates::lines(source), line - 1) as int;
    let content = coordinates::without_return(coordinates::lines(source)[line - 1]);
    let a = coordinates::index(first);
    let b = coordinates::index(last);
    lemma_content(source, line - 1);
    text::lemma_slice_within(source, start, start + text::bytes(content).len(), a, b);
    assert(named_by(source, line, edit.start_char, start + a, first));
    assert(named_by(source, line, edit.end_char, start + b, last));
    assert(stands_at(source, edit, start + a, start + b));
}

/// A byte offset that has a position in a plan is named by it.
pub proof fn lemma_position_names(source: Seq<char>, offset: int, line: u32, column: u32)
    requires
        text::bytes(source).len() < u32::MAX,
        coordinates::position(source, offset) == Some((line, column)),
        coordinates::converted(source, line, column) is Ok,
    ensures
        names(source, line, coordinates::converted(source, line, column)->Ok_0, offset),
{
    coordinates::law_a_position_leads_back(source, offset);
    assert(
    named_by(source, line, coordinates::converted(source, line, column)->Ok_0, offset, column));
}

/// A plan's position names one byte offset and no other, so an edit that stands in a source can
/// mean only one range of it.
pub proof fn law_a_position_names_one_offset(
    t: Seq<char>,
    line: u32,
    units: u32,
    first: int,
    second: int,
)
    requires
        text::bytes(t).len() < u32::MAX,
        names(t, line, units, first),
        names(t, line, units, second),
    ensures
        first == second,
{
    let a = choose|column: u32| named_by(t, line, units, first, column);
    let b = choose|column: u32| named_by(t, line, units, second, column);
    if coordinates::index(a) < coordinates::index(b) {
        lemma_offsets_grow(t, line, a, b);
    } else if coordinates::index(b) < coordinates::index(a) {
        lemma_offsets_grow(t, line, b, a);
    }
}

/// A later column of a line has a larger offset.
pub proof fn lemma_offsets_grow(t: Seq<char>, line: u32, first: u32, second: u32)
    requires
        text::bytes(t).len() < u32::MAX,
        coordinates::converted(t, line, first) is Ok,
        coordinates::converted(t, line, second) is Ok,
        coordinates::index(first) < coordinates::index(second),
    ensures
        coordinates::converted(t, line, first)->Ok_0 < coordinates::converted(
            t,
            line,
            second,
        )->Ok_0,
{
    let at = coordinates::index(line);
    let content = coordinates::without_return(coordinates::lines(t)[at]);
    let a = coordinates::index(first);
    let b = coordinates::index(second);
    coordinates::lemma_line_bytes(t, at);
    text::lemma_ends(content);
    let whole = text::slice(content, 0, b);
    text::lemma_cut(content, a, b);
    text::lemma_cut(content, 0, b);
    text::lemma_cut(content, 0, a);
    let head = text::slice(content, 0, a);
    let middle = text::slice(content, a, b);
    let tail = text::slice(content, b, text::bytes(content).len() as int);
    assert(content =~= Seq::<char>::empty() + (head + middle) + tail);
    assert(text::bytes(Seq::<char>::empty()) =~= Seq::<u8>::empty());
    text::lemma_parts(Seq::empty(), head + middle, tail);
    text::lemma_bytes_concat(head, middle);
    assert(whole == head + middle);
    assert(middle.len() > 0);
    assert(whole.drop_last() =~= head + middle.drop_last());
    assert(whole.drop_last().take(head.len() as int) =~= head);
    coordinates::lemma_utf16_prefix(whole.drop_last(), head.len() as int);
    coordinates::lemma_utf16_length(whole);
}

/// The keys of the planners' answers other than that of the plan.
pub(crate) proof fn lemma_plan_key()
    ensures
        "status"@ != "plan"@,
        "reason"@ != "plan"@,
        "file"@ != "plan"@,
        "next"@ != "plan"@,
        "symbol"@ != "plan"@,
        "warnings"@ != "plan"@,
        "from"@ != "plan"@,
        "files"@ != "plan"@,
        "to"@ != "plan"@,
        "uncertainReferences"@ != "plan"@,
        "operation"@ != "plan"@,
        "backend"@ != "plan"@,
        "uncertain"@ != "plan"@,
        "total"@ != "plan"@,
        "scannedFiles"@ != "plan"@,
        "removed"@ != "plan"@,
        "newName"@ != "plan"@,
        "invalid"@ != "plan"@,
        "importers"@ != "plan"@,
        "candidates"@ != "plan"@,
        "unknown"@ != "plan"@,
        "specifierEdits"@ != "plan"@,
        "oldName"@ != "plan"@,
        "occurrences"@ != "plan"@,
        "note"@ != "plan"@,
        "language"@ != "plan"@,
        "completeness"@ != "plan"@,
        "callSites"@ != "plan"@,
        "declaration"@ != "plan"@,
        "move"@ != "plan"@,
        "conflicts"@ != "plan"@,
        "cause"@ != "plan"@,
        "failed"@ != "plan"@,
        "capped"@ != "plan"@,
        "checkedBindings"@ != "plan"@,
        "renamedEdits"@ != "plan"@,
{
    reveal_strlit("plan");
    assert("plan"@.len() == 4 && "plan"@[0] == 'p');
    reveal_strlit("status");
    reveal_strlit("reason");
    reveal_strlit("file");
    reveal_strlit("next");
    reveal_strlit("symbol");
    reveal_strlit("warnings");
    reveal_strlit("from");
    reveal_strlit("files");
    reveal_strlit("to");
    reveal_strlit("uncertainReferences");
    reveal_strlit("operation");
    reveal_strlit("backend");
    reveal_strlit("uncertain");
    reveal_strlit("total");
    reveal_strlit("scannedFiles");
    reveal_strlit("removed");
    reveal_strlit("newName");
    reveal_strlit("invalid");
    reveal_strlit("importers");
    reveal_strlit("candidates");
    reveal_strlit("unknown");
    reveal_strlit("specifierEdits");
    reveal_strlit("oldName");
    reveal_strlit("occurrences");
    reveal_strlit("note");
    reveal_strlit("language");
    reveal_strlit("completeness");
    reveal_strlit("callSites");
    reveal_strlit("declaration");
    reveal_strlit("move");
    reveal_strlit("conflicts");
    reveal_strlit("cause");
    reveal_strlit("failed");
    reveal_strlit("capped");
    reveal_strlit("checkedBindings");
    reveal_strlit("renamedEdits");
    assert("status"@.len() == 6);
    assert("reason"@.len() == 6);
    assert("file"@[0] == 'f');
    assert("next"@[0] == 'n');
    assert("symbol"@.len() == 6);
    assert("warnings"@.len() == 8);
    assert("from"@[0] == 'f');
    assert("files"@.len() == 5);
    assert("to"@.len() == 2);
    assert("uncertainReferences"@.len() == 19);
    assert("operation"@.len() == 9);
    assert("backend"@.len() == 7);
    assert("uncertain"@.len() == 9);
    assert("total"@.len() == 5);
    assert("scannedFiles"@.len() == 12);
    assert("removed"@.len() == 7);
    assert("newName"@.len() == 7);
    assert("invalid"@.len() == 7);
    assert("importers"@.len() == 9);
    assert("candidates"@.len() == 10);
    assert("unknown"@.len() == 7);
    assert("specifierEdits"@.len() == 14);
    assert("oldName"@.len() == 7);
    assert("occurrences"@.len() == 11);
    assert("note"@[0] == 'n');
    assert("language"@.len() == 8);
    assert("completeness"@.len() == 12);
    assert("callSites"@.len() == 9);
    assert("declaration"@.len() == 11);
    assert("move"@[0] == 'm');
    assert("conflicts"@.len() == 9);
    assert("cause"@.len() == 5);
    assert("failed"@.len() == 6);
    assert("capped"@.len() == 6);
    assert("checkedBindings"@.len() == 15);
    assert("renamedEdits"@.len() == 12);
}

/// A source that can be read is short enough for its positions to be counted.
pub proof fn lemma_source_bound(sources: Seq<SourceFile>, path: Seq<char>)
    ensures
        evidence::source_of(sources, path) matches Some(source) ==> text::bytes(source).len()
            < u32::MAX,
    decreases sources.len(),
{
    if sources.len() > 0 && sources[0].path@ != path {
        lemma_source_bound(sources.drop_first(), path);
    }
}

} // verus!
