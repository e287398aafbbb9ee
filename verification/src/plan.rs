//! Building a `weavatrix.edit-plan.v1` envelope.
//!
//! Every planner emits the same shape, so it is built in one place. The alternative, each engine
//! assembling its own answer, is how one of them ends up omitting a hash or spelling a field
//! differently, and the applier would refuse it long after the mistake was made.

use crate::json;
use crate::json::{Fields, Items, Json, JsonView};
use crate::text;
use vstd::prelude::*;
use vstd::string::*;

verus! {

/// One exact replacement over the original source text, in lines and UTF-16 offsets.
#[derive(Debug)]
pub struct TextEdit {
    pub start_line: u32,
    pub start_char: u32,
    pub end_line: u32,
    pub end_char: u32,
    pub before: String,
    pub after: String,
    pub provenance: String,
}

/// The edits of one file, and the hash of the contents they were planned against.
#[derive(Debug)]
pub struct FileEdit {
    pub path: String,
    pub sha256: String,
    pub edits: Vec<TextEdit>,
}

/// A plan of text edits.
#[derive(Debug)]
pub struct EditPlan {
    pub operation: String,
    pub files: Vec<FileEdit>,
}

/// One edit as a mathematical value.
#[verifier::ext_equal]
pub struct EditView {
    pub start_line: u32,
    pub start_char: u32,
    pub end_line: u32,
    pub end_char: u32,
    pub before: Seq<char>,
    pub after: Seq<char>,
    pub provenance: Seq<char>,
}

/// The edits of one file as a mathematical value.
#[verifier::ext_equal]
pub struct FileView {
    pub path: Seq<char>,
    pub sha256: Seq<char>,
    pub edits: Seq<EditView>,
}

/// A plan as a mathematical value.
#[verifier::ext_equal]
pub struct PlanView {
    pub operation: Seq<char>,
    pub files: Seq<FileView>,
}

impl TextEdit {
    /// The edit without its representation.
    pub open spec fn view(self) -> EditView {
        EditView {
            start_line: self.start_line,
            start_char: self.start_char,
            end_line: self.end_line,
            end_char: self.end_char,
            before: self.before@,
            after: self.after@,
            provenance: self.provenance@,
        }
    }

    /// Another edit that is the same.
    pub fn duplicate(&self) -> (copy: TextEdit)
        ensures
            copy@ == self@,
    {
        TextEdit {
            start_line: self.start_line,
            start_char: self.start_char,
            end_line: self.end_line,
            end_char: self.end_char,
            before: self.before.clone(),
            after: self.after.clone(),
            provenance: self.provenance.clone(),
        }
    }

    /// Whether this edit and another are the same.
    pub fn same(&self, other: &TextEdit) -> (equal: bool)
        ensures
            equal == (self@ == other@),
    {
        self.start_line == other.start_line && self.start_char == other.start_char && self.end_line
            == other.end_line && self.end_char == other.end_char && text::same(
            self.before.as_str(),
            other.before.as_str(),
        ) && text::same(self.after.as_str(), other.after.as_str()) && text::same(
            self.provenance.as_str(),
            other.provenance.as_str(),
        )
    }
}

/// The edits of a list without their representation.
pub open spec fn edits_view(edits: Seq<TextEdit>) -> Seq<EditView> {
    Seq::new(edits.len(), |i: int| edits[i].view())
}

impl FileEdit {
    /// The file without its representation.
    pub open spec fn view(self) -> FileView {
        FileView { path: self.path@, sha256: self.sha256@, edits: edits_view(self.edits@) }
    }

    /// Another file that is the same.
    pub fn duplicate(&self) -> (copy: FileEdit)
        ensures
            copy@ == self@,
    {
        let mut edits: Vec<TextEdit> = Vec::new();
        let mut i: usize = 0;
        while i < self.edits.len()
            invariant
                i <= self.edits@.len(),
                edits@.len() == i,
                forall|k: int| 0 <= k < i ==> (#[trigger] edits@[k])@ == self.edits@[k]@,
            decreases self.edits@.len() - i,
        {
            edits.push(self.edits[i].duplicate());
            i += 1;
        }
        assert(edits_view(edits@) =~= edits_view(self.edits@));
        FileEdit { path: self.path.clone(), sha256: self.sha256.clone(), edits }
    }

    /// Whether this file and another are the same.
    pub fn same(&self, other: &FileEdit) -> (equal: bool)
        ensures
            equal == (self@ == other@),
    {
        if !text::same(self.path.as_str(), other.path.as_str()) || !text::same(
            self.sha256.as_str(),
            other.sha256.as_str(),
        ) || self.edits.len() != other.edits.len() {
            assert(self@.edits.len() == self.edits@.len() && other@.edits.len() == other.edits@.len());
            return false;
        }
        let mut i: usize = 0;
        while i < self.edits.len()
            invariant
                i <= self.edits@.len() == other.edits@.len(),
                forall|k: int| 0 <= k < i ==> (#[trigger] self.edits@[k])@ == other.edits@[k]@,
            decreases self.edits@.len() - i,
        {
            if !self.edits[i].same(&other.edits[i]) {
                assert(self@.edits[i as int] != other@.edits[i as int]);
                return false;
            }
            i += 1;
        }
        assert(self@.edits =~= other@.edits);
        true
    }
}

/// The files of a list without their representation.
pub open spec fn files_view(files: Seq<FileEdit>) -> Seq<FileView> {
    Seq::new(files.len(), |i: int| files[i].view())
}

impl EditPlan {
    /// The plan without its representation.
    pub open spec fn view(self) -> PlanView {
        PlanView { operation: self.operation@, files: files_view(self.files@) }
    }

    /// Another plan that is the same.
    pub fn duplicate(&self) -> (copy: EditPlan)
        ensures
            copy@ == self@,
    {
        let mut files: Vec<FileEdit> = Vec::new();
        let mut i: usize = 0;
        while i < self.files.len()
            invariant
                i <= self.files@.len(),
                files@.len() == i,
                forall|k: int| 0 <= k < i ==> (#[trigger] files@[k])@ == self.files@[k]@,
            decreases self.files@.len() - i,
        {
            files.push(self.files[i].duplicate());
            i += 1;
        }
        assert(files_view(files@) =~= files_view(self.files@));
        EditPlan { operation: self.operation.clone(), files }
    }

    /// Whether this plan and another are the same.
    pub fn same(&self, other: &EditPlan) -> (equal: bool)
        ensures
            equal == (self@ == other@),
    {
        if !text::same(self.operation.as_str(), other.operation.as_str()) || self.files.len() != other.files.len() {
            assert(self@.files.len() == self.files@.len() && other@.files.len() == other.files@.len());
            return false;
        }
        let mut i: usize = 0;
        while i < self.files.len()
            invariant
                i <= self.files@.len() == other.files@.len(),
                forall|k: int| 0 <= k < i ==> (#[trigger] self.files@[k])@ == other.files@[k]@,
            decreases self.files@.len() - i,
        {
            if !self.files[i].same(&other.files[i]) {
                assert(self@.files[i as int] != other@.files[i as int]);
                return false;
            }
            i += 1;
        }
        assert(self@.files =~= other@.files);
        true
    }
}

/// The hexadecimal SHA-256 digest of a text's bytes.
pub uninterp spec fn sha256_hex(t: Seq<char>) -> Seq<char>;

/// The hash the applier will re-check before writing: `weavatrix_worktree::Sha256Hash::compute` of
/// the text's bytes, as `Display` writes it. A function of the text alone.
#[verifier::external_body]
pub fn sha256_of(text: &str) -> (hash: String)
    ensures
        hash@ == sha256_hex(text@),
{
    weavatrix_worktree::Sha256Hash::compute(text.as_bytes()).to_string()
}

/// A plan under construction, and the file that the next edit lands on.
#[verifier::ext_equal]
pub struct BuilderView {
    pub operation: Seq<char>,
    pub files: Seq<FileView>,
    pub current: Option<int>,
}

/// Where a path first stands among files, or their number where it does not.
pub open spec fn path_at(files: Seq<FileView>, path: Seq<char>) -> nat
    decreases files.len(),
{
    if files.len() == 0 || files[0].path == path {
        0
    } else {
        1 + path_at(files.drop_first(), path)
    }
}

impl BuilderView {
    /// A plan for one operation with nothing in it.
    pub open spec fn start(operation: Seq<char>) -> BuilderView {
        BuilderView { operation, files: Seq::empty(), current: None }
    }

    /// The plan with a file opened, anew or again.
    pub open spec fn file(self, path: Seq<char>, sha256: Seq<char>) -> BuilderView {
        let at = path_at(self.files, path);
        if at < self.files.len() {
            BuilderView { current: Some(at as int), ..self }
        } else {
            BuilderView {
                operation: self.operation,
                files: self.files.push(FileView { path, sha256, edits: Seq::empty() }),
                current: Some(self.files.len() as int),
            }
        }
    }

    /// The plan with one more edit of the file opened last, where one is open.
    pub open spec fn edit(self, edit: EditView) -> BuilderView {
        match self.current {
            Some(at) => {
                let file = self.files[at];
                BuilderView {
                    files: self.files.update(
                        at,
                        FileView {
                            path: file.path,
                            sha256: file.sha256,
                            edits: file.edits.push(edit),
                        },
                    ),
                    ..self
                }
            },
            None => self,
        }
    }

    /// Whether nothing would be written.
    pub open spec fn is_empty(self) -> bool {
        forall|i: int| 0 <= i < self.files.len() ==> (#[trigger] self.files[i]).edits.len() == 0
    }

    /// The finished plan: the files with edits, each under its path.
    pub open spec fn plan(self) -> PlanView {
        PlanView { operation: self.operation, files: with_edits(self.files) }
    }
}

/// The files that have edits.
pub open spec fn with_edits(files: Seq<FileView>) -> Seq<FileView>
    decreases files.len(),
{
    if files.len() == 0 {
        Seq::empty()
    } else if files.last().edits.len() > 0 {
        with_edits(files.drop_last()).push(files.last())
    } else {
        with_edits(files.drop_last())
    }
}

/// One edit as the envelope carries it.
pub open spec fn edit_value(edit: EditView) -> JsonView {
    JsonView::empty().with_number("startLine"@, edit.start_line as nat).with_number(
        "startChar"@,
        edit.start_char as nat,
    ).with_number("endLine"@, edit.end_line as nat).with_number(
        "endChar"@,
        edit.end_char as nat,
    ).with_text("before"@, edit.before).with_text("after"@, edit.after).with_text(
        "provenance"@,
        edit.provenance,
    )
}

/// The edits of one file as the envelope carries them.
pub open spec fn edit_values(edits: Seq<EditView>) -> Seq<JsonView> {
    Seq::new(edits.len(), |i: int| edit_value(edits[i]))
}

/// One file as the envelope carries it.
pub open spec fn file_value(file: FileView) -> JsonView {
    JsonView::empty().with_text("path"@, file.path).with_text("sha256"@, file.sha256).with_list(
        "edits"@,
        edit_values(file.edits),
    )
}

/// The files of a plan as the envelope carries them.
pub open spec fn file_values(files: Seq<FileView>) -> Seq<JsonView> {
    Seq::new(files.len(), |i: int| file_value(files[i]))
}

/// A plan as the envelope carries it.
pub open spec fn plan_value(plan: PlanView) -> JsonView {
    JsonView::empty().with_text("schemaVersion"@, "weavatrix.edit-plan.v1"@).with_text(
        "operation"@,
        plan.operation,
    ).with_list("files"@, file_values(plan.files))
}

/// Accumulates files and their edits into one envelope.
pub struct PlanBuilder {
    operation: String,
    files: Vec<FileEdit>,
    current: Option<usize>,
}

impl PlanBuilder {
    /// The plan so far.
    pub closed spec fn view(self) -> BuilderView {
        BuilderView {
            operation: self.operation@,
            files: files_view(self.files@),
            current: match self.current {
                Some(at) => Some(at as int),
                None => None,
            },
        }
    }

    /// The open file is one of the plan's.
    #[verifier::type_invariant]
    spec fn open_file_exists(self) -> bool {
        self.current matches Some(at) ==> at < self.files@.len()
    }

    /// Starts a plan for one operation.
    pub fn new(operation: &str) -> (builder: PlanBuilder)
        ensures
            builder@ == BuilderView::start(operation@),
    {
        let builder = PlanBuilder {
            operation: operation.to_owned(),
            files: Vec::new(),
            current: None,
        };
        assert(files_view(builder.files@) =~= Seq::empty());
        builder
    }

    /// Opens or reuses a file entry. Edits added after this land on it.
    ///
    /// Reusing keeps one entry per path: two entries for the same file would each carry the same
    /// "before" hash and the second would be applied to bytes the first already changed.
    pub fn file(self, path: &str, sha256: &str) -> (builder: PlanBuilder)
        ensures
            builder@ == self@.file(path@, sha256@),
    {
        let ghost start = self@;
        let PlanBuilder { operation, mut files, current: _ } = self;
        let ghost all = files_view(files@);
        let mut i: usize = 0;
        assert(all.skip(0) =~= all);
        while i < files.len()
            invariant
                i <= files@.len(),
                all == files_view(files@),
                start.files == all,
                start.operation == operation@,
                start == self@,
                path_at(all, path@) == i + path_at(all.skip(i as int), path@),
            decreases files@.len() - i,
        {
            proof {
                assert(all.skip(i as int)[0] == all[i as int]);
                assert(all.skip(i as int).drop_first() =~= all.skip(i + 1));
            }
            if text::same(files[i].path.as_str(), path) {
                return PlanBuilder { operation, files, current: Some(i) };
            }
            i += 1;
        }
        let at: usize = files.len();
        let file = FileEdit {
            path: path.to_owned(),
            sha256: sha256.to_owned(),
            edits: Vec::new(),
        };
        proof {
            assert(edits_view(file.edits@) =~= Seq::empty());
            assert(files_view(files@.push(file)) =~= all.push(file@));
        }
        files.push(file);
        PlanBuilder { operation, files, current: Some(at) }
    }

    /// Adds one byte-exact edit to the file opened last.
    pub fn edit(
        self,
        start_line: u32,
        start_char: u32,
        end_line: u32,
        end_char: u32,
        before: &str,
        after: &str,
        provenance: &str,
    ) -> (builder: PlanBuilder)
        ensures
            builder@ == self@.edit(
                EditView {
                    start_line,
                    start_char,
                    end_line,
                    end_char,
                    before: before@,
                    after: after@,
                    provenance: provenance@,
                },
            ),
    {
        proof {
            use_type_invariant(&self);
        }
        let edit = TextEdit {
            start_line,
            start_char,
            end_line,
            end_char,
            before: before.to_owned(),
            after: after.to_owned(),
            provenance: provenance.to_owned(),
        };
        let PlanBuilder { operation, mut files, current } = self;
        match current {
            Some(at) => {
                let ghost earlier = files@;
                let mut file = files.remove(at);
                let ghost opened = file;
                file.edits.push(edit);
                proof {
                    assert(edits_view(file.edits@) =~= edits_view(opened.edits@).push(edit@));
                }
                files.insert(at, file);
                assert(files@ =~= earlier.update(at as int, file));
                assert(files_view(files@) =~= files_view(earlier).update(at as int, file@));
            },
            None => {},
        }
        PlanBuilder { operation, files, current }
    }

    /// Whether nothing would be written.
    pub fn is_empty(&self) -> (empty: bool)
        ensures
            empty == self@.is_empty(),
    {
        let mut i: usize = 0;
        while i < self.files.len()
            invariant
                i <= self.files@.len(),
                forall|k: int| 0 <= k < i ==> (#[trigger] self@.files[k]).edits.len() == 0,
            decreases self.files@.len() - i,
        {
            assert(self@.files[i as int].edits.len() == self.files@[i as int].edits@.len());
            if self.files[i].edits.len() != 0 {
                return false;
            }
            i += 1;
        }
        true
    }

    /// The finished plan: the files with edits, each under its path.
    pub fn finish(self) -> (plan: EditPlan)
        ensures
            plan@ == self@.plan(),
    {
        let PlanBuilder { operation, files, current: _ } = self;
        let ghost all = files_view(files@);
        let mut kept: Vec<FileEdit> = Vec::new();
        let mut i: usize = 0;
        assert(files_view(kept@) =~= Seq::empty());
        while i < files.len()
            invariant
                i <= files@.len(),
                all == files_view(files@),
                files_view(kept@) == with_edits(all.take(i as int)),
            decreases files@.len() - i,
        {
            proof {
                assert(all.take(i + 1).drop_last() =~= all.take(i as int));
                assert(all[i as int] == files@[i as int]@);
            }
            if files[i].edits.len() != 0 {
                let copy = files[i].duplicate();
                assert(files_view(kept@.push(copy)) =~= files_view(kept@).push(copy@));
                kept.push(copy);
            }
            i += 1;
        }
        assert(all.take(i as int) =~= all);
        EditPlan { operation, files: kept }
    }

    /// Finishes the envelope.
    pub fn build(self) -> (value: Json)
        ensures
            value@ == plan_value(self@.plan()),
    {
        self.finish().envelope()
    }
}

impl TextEdit {
    /// The edit as the envelope carries it.
    fn value(&self) -> (value: Json)
        ensures
            value@ == edit_value(self@),
    {
        Fields::new().with_number("startLine", self.start_line as u64).with_number(
            "startChar",
            self.start_char as u64,
        ).with_number("endLine", self.end_line as u64).with_number(
            "endChar",
            self.end_char as u64,
        ).with_text("before", self.before.as_str()).with_text(
            "after",
            self.after.as_str(),
        ).with_text("provenance", self.provenance.as_str()).done()
    }
}

impl FileEdit {
    /// The file as the envelope carries it.
    fn value(&self) -> (value: Json)
        ensures
            value@ == file_value(self@),
    {
        let mut edits = Items::new();
        let mut i: usize = 0;
        while i < self.edits.len()
            invariant
                i <= self.edits@.len(),
                edits@ =~= edit_values(self@.edits).take(i as int),
            decreases self.edits@.len() - i,
        {
            let value = self.edits[i].value();
            assert(value@ == edit_values(self@.edits)[i as int]);
            edits.push(value);
            i += 1;
        }
        assert(edits@ =~= edit_values(self@.edits));
        Fields::new().with_text("path", self.path.as_str()).with_text(
            "sha256",
            self.sha256.as_str(),
        ).with_list("edits", edits).done()
    }
}

impl EditPlan {
    /// The plan as the envelope carries it.
    pub fn envelope(&self) -> (value: Json)
        ensures
            value@ == plan_value(self@),
    {
        let mut files = Items::new();
        let mut i: usize = 0;
        while i < self.files.len()
            invariant
                i <= self.files@.len(),
                files@ =~= file_values(self@.files).take(i as int),
            decreases self.files@.len() - i,
        {
            let value = self.files[i].value();
            assert(value@ == file_values(self@.files)[i as int]);
            files.push(value);
            i += 1;
        }
        assert(files@ =~= file_values(self@.files));
        Fields::new().with_text("schemaVersion", "weavatrix.edit-plan.v1").with_text(
            "operation",
            self.operation.as_str(),
        ).with_list("files", files).done()
    }
}

/// Whether no path stands twice among files.
pub open spec fn distinct_paths(files: Seq<FileView>) -> bool {
    forall|i: int, j: int|
        0 <= i < j < files.len() ==> (#[trigger] files[i]).path != (#[trigger] files[j]).path
}

/// What the place of a path says.
pub proof fn lemma_path_at(files: Seq<FileView>, path: Seq<char>)
    ensures
        path_at(files, path) <= files.len(),
        path_at(files, path) < files.len() ==> files[path_at(files, path) as int].path == path,
        forall|k: int| 0 <= k < path_at(files, path) ==> (#[trigger] files[k]).path != path,
    decreases files.len(),
{
    if files.len() > 0 && files[0].path != path {
        let rest = files.drop_first();
        lemma_path_at(rest, path);
        assert forall|k: int| 0 <= k < path_at(files, path) implies (#[trigger] files[k]).path
            != path by {
            if k > 0 {
                assert(rest[k - 1] == files[k]);
            }
        }
    }
}

/// However often a file is opened, one path gets one entry; and an edit changes no path.
pub proof fn law_one_entry_per_path(
    builder: BuilderView,
    path: Seq<char>,
    sha256: Seq<char>,
    edit: EditView,
)
    requires
        distinct_paths(builder.files),
        builder.current matches Some(at) ==> 0 <= at < builder.files.len(),
    ensures
        distinct_paths(builder.file(path, sha256).files),
        distinct_paths(builder.edit(edit).files),
        distinct_paths(builder.plan().files),
{
    lemma_path_at(builder.files, path);
    lemma_with_edits(builder.files);
}

/// The files of a finished plan are those with edits, in the order they were opened.
proof fn lemma_with_edits(files: Seq<FileView>)
    ensures
        forall|i: int|
            0 <= i < with_edits(files).len() ==> (#[trigger] with_edits(files)[i]).edits.len() > 0
                && files.contains(with_edits(files)[i]),
        distinct_paths(files) ==> distinct_paths(with_edits(files)),
    decreases files.len(),
{
    if files.len() > 0 {
        let rest = files.drop_last();
        lemma_with_edits(rest);
        let kept = with_edits(rest);
        let out = with_edits(files);
        assert forall|i: int| 0 <= i < out.len() implies (#[trigger] out[i]).edits.len() > 0
            && files.contains(out[i]) by {
            if i < kept.len() {
                assert(out[i] == kept[i]);
                let k = choose|k: int| 0 <= k < rest.len() && rest[k] == kept[i];
                assert(files[k] == out[i]);
            } else {
                assert(files[files.len() - 1] == out[i]);
            }
        }
        if distinct_paths(files) {
            assert forall|i: int, j: int| 0 <= i < j < rest.len() implies (#[trigger] rest[i]).path
                != (#[trigger] rest[j]).path by {
                assert(files[i].path != files[j].path);
            }
            assert forall|i: int, j: int| 0 <= i < j < out.len() implies (#[trigger] out[i]).path
                != (#[trigger] out[j]).path by {
                assert(out[i] == kept[i]);
                if j < kept.len() {
                    assert(out[j] == kept[j]);
                } else {
                    let k = choose|k: int| 0 <= k < rest.len() && rest[k] == kept[i];
                    assert(files[k] == out[i]);
                    assert(files[files.len() - 1] == out[j]);
                }
            }
        }
    }
}

/// A file that was opened and never edited is not shipped, and every file that is has edits.
pub proof fn law_no_file_ships_empty(builder: BuilderView)
    ensures
        forall|i: int|
            0 <= i < builder.plan().files.len() ==> (#[trigger] builder.plan().files[i]).edits.len()
                > 0,
        builder.is_empty() ==> builder.plan().files.len() == 0,
        !builder.is_empty() ==> builder.plan().files.len() > 0,
{
    lemma_with_edits(builder.files);
    if builder.is_empty() && builder.plan().files.len() > 0 {
        let file = builder.plan().files[0];
        assert(builder.files.contains(file));
        let k = choose|k: int| 0 <= k < builder.files.len() && builder.files[k] == file;
        assert(builder.files[k].edits.len() == 0);
    }
    if !builder.is_empty() {
        let k = choose|k: int| 0 <= k < builder.files.len() && builder.files[k].edits.len() != 0;
        lemma_with_edits_kept(builder.files, k);
    }
}

/// A file with edits is kept.
pub proof fn lemma_with_edits_kept(files: Seq<FileView>, at: int)
    requires
        0 <= at < files.len(),
        files[at].edits.len() > 0,
    ensures
        with_edits(files).contains(files[at]),
        with_edits(files).len() > 0,
    decreases files.len(),
{
    let rest = files.drop_last();
    let out = with_edits(files);
    if at == files.len() - 1 {
        assert(out[out.len() - 1] == files[at]);
    } else {
        lemma_with_edits_kept(rest, at);
        let kept = with_edits(rest);
        let k = choose|k: int| 0 <= k < kept.len() && kept[k] == rest[at];
        assert(out[k] == files[at]);
    }
}

/// An edit lands on the file that was opened last, also where that file was opened before, and on
/// no other.
pub proof fn law_edit_lands_on_the_opened_file(
    builder: BuilderView,
    path: Seq<char>,
    sha256: Seq<char>,
    edit: EditView,
)
    ensures
        ({
            let opened = builder.file(path, sha256);
            let edited = opened.edit(edit);
            let at = path_at(builder.files, path) as int;
            &&& 0 <= at < edited.files.len()
            &&& edited.files.len() == opened.files.len()
            &&& edited.files[at].path == path
            &&& edited.files[at].edits == opened.files[at].edits.push(edit)
            &&& forall|k: int|
                0 <= k < edited.files.len() && k != at ==> #[trigger] edited.files[k]
                    == opened.files[k]
        }),
{
    lemma_path_at(builder.files, path);
}

} // verus!
