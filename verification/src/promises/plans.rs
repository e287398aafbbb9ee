//! What opening files and adding edits does to the edits that a plan holds.

use crate::operations::rename_plan;
use crate::plan;
use crate::plan::{BuilderView, EditView, FileView};
use vstd::prelude::*;

verus! {

/// Whether every edit of one plan is held by another.
pub open spec fn keeps_edits(before: Seq<FileView>, after: Seq<FileView>) -> bool {
    forall|path: Seq<char>, edit: EditView|
        rename_plan::files_hold(before, path, edit) ==> #[trigger] rename_plan::files_hold(
            after,
            path,
            edit,
        )
}

/// Opening a file and adding an edit to it drops no edit, and leaves that one there.
pub proof fn lemma_edit_added(
    builder: BuilderView,
    path: Seq<char>,
    sha256: Seq<char>,
    edit: EditView,
)
    ensures
        keeps_edits(builder.files, builder.file(path, sha256).edit(edit).files),
        rename_plan::files_hold(builder.file(path, sha256).edit(edit).files, path, edit),
{
    let opened = builder.file(path, sha256);
    let after = opened.edit(edit);
    let at = opened.current->0;
    plan::lemma_path_at(builder.files, path);
    assert(opened.files[at].path == path);
    assert(after.files[at].edits[opened.files[at].edits.len() as int] == edit);
    assert(after.files[at].path == path && after.files[at].edits.contains(edit));
    assert forall|p: Seq<char>, e: EditView|
        rename_plan::files_hold(builder.files, p, e) implies #[trigger] rename_plan::files_hold(
        after.files,
        p,
        e,
    ) by {
        let i = choose|i: int|
            0 <= i < builder.files.len() && (#[trigger] builder.files[i]).path == p
                && builder.files[i].edits.contains(e);
        assert(opened.files[i] == builder.files[i]);
        let j = choose|j: int| 0 <= j < builder.files[i].edits.len() && builder.files[i].edits[j] == e;
        assert(after.files[i].edits[j] == e);
        assert(after.files[i].path == p && after.files[i].edits.contains(e));
    }
}

/// Opening a file drops no edit.
pub proof fn lemma_file_opened(builder: BuilderView, path: Seq<char>, sha256: Seq<char>)
    ensures
        keeps_edits(builder.files, builder.file(path, sha256).files),
{
    let opened = builder.file(path, sha256);
    plan::lemma_path_at(builder.files, path);
    assert forall|p: Seq<char>, e: EditView|
        rename_plan::files_hold(builder.files, p, e) implies #[trigger] rename_plan::files_hold(
        opened.files,
        p,
        e,
    ) by {
        let i = choose|i: int|
            0 <= i < builder.files.len() && (#[trigger] builder.files[i]).path == p
                && builder.files[i].edits.contains(e);
        assert(opened.files[i] == builder.files[i]);
    }
}

/// A finished plan holds every edit, and a plan with an edit is not empty.
pub proof fn lemma_finished(builder: BuilderView, path: Seq<char>, edit: EditView)
    requires
        rename_plan::files_hold(builder.files, path, edit),
    ensures
        rename_plan::files_hold(builder.plan().files, path, edit),
        !builder.is_empty(),
{
    let i = choose|i: int|
        0 <= i < builder.files.len() && (#[trigger] builder.files[i]).path == path
            && builder.files[i].edits.contains(edit);
    plan::lemma_with_edits_kept(builder.files, i);
    let kept = builder.plan().files;
    let k = choose|k: int| 0 <= k < kept.len() && kept[k] == builder.files[i];
    assert(kept[k].path == path && kept[k].edits.contains(edit));
    assert(builder.files[i].edits.len() > 0);
}

/// A finished plan holds no edit that was not added.
pub proof fn lemma_unfinished(builder: BuilderView, path: Seq<char>, edit: EditView)
    requires
        rename_plan::files_hold(builder.plan().files, path, edit),
    ensures
        rename_plan::files_hold(builder.files, path, edit),
{
    let kept = builder.plan().files;
    let k = choose|k: int|
        0 <= k < kept.len() && (#[trigger] kept[k]).path == path && kept[k].edits.contains(edit);
    let i = crate::promises::rename::lemma_kept(builder.files, k);
    assert(builder.files[i].path == path && builder.files[i].edits.contains(edit));
}

/// Opening a file and adding an edit to it adds that edit alone.
pub proof fn lemma_edit_alone(
    builder: BuilderView,
    path: Seq<char>,
    sha256: Seq<char>,
    edit: EditView,
    other_path: Seq<char>,
    other: EditView,
)
    requires
        rename_plan::files_hold(builder.file(path, sha256).edit(edit).files, other_path, other),
    ensures
        rename_plan::files_hold(builder.files, other_path, other) || (other_path == path && other
            == edit),
{
    let opened = builder.file(path, sha256);
    let after = opened.edit(edit);
    let at = opened.current->0;
    plan::lemma_path_at(builder.files, path);
    let i = choose|i: int|
        0 <= i < after.files.len() && (#[trigger] after.files[i]).path == other_path
            && after.files[i].edits.contains(other);
    let j = choose|j: int| 0 <= j < after.files[i].edits.len() && after.files[i].edits[j] == other;
    if i != at || j < opened.files[at].edits.len() {
        assert(opened.files[i].edits[j] == other);
        assert(i < builder.files.len());
        assert(builder.files[i] == opened.files[i]);
        assert(builder.files[i].path == other_path && builder.files[i].edits.contains(other));
    }
}

} // verus!
