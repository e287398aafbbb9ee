//! Relocating a file: every relative import that would break, rewritten.
//!
//! Two directions have to be handled and they are easy to confuse. The moved file's own
//! specifiers were written from its old directory and now resolve from the new one; its
//! importers' specifiers pointed at the old location and now have to point at the new one.
//! Missing either leaves a repository that looks refactored and does not build.
//!
//! Only relative specifiers are touched. A module name is not a path, and rewriting one would
//! turn a working import into a broken identifier.

use crate::envelope;
use crate::contract;
use crate::coordinates;
use crate::evidence;
use crate::fit;
use crate::graph::{Node, Repository, SourceFile};
use crate::json;
use crate::json::{Fields, Items, Json, JsonView};
use crate::operations;
use crate::operations::occurrences;
use crate::order;
use crate::parse;
use crate::parse::{Import, ImportView};
use crate::plan;
use crate::plan::{BuilderView, EditView, PlanBuilder, PlanView};
use crate::specifier;
use crate::text;
use crate::words;
use vstd::prelude::*;
use vstd::string::*;

verus! {

/// One specifier that has to change, already located in its file.
#[verifier::ext_equal]
pub struct RewriteView {
    pub file: Seq<char>,
    pub line: u32,
    pub start_char: u32,
    pub end_char: u32,
    pub before: Seq<char>,
    pub after: Seq<char>,
}

/// The bytes of a specifier inside the import statement the parser reported.
pub open spec fn specifier_range(source: Seq<char>, import: ImportView) -> Option<(int, int)> {
    if text::sliceable(source, import.start as int, import.end as int) {
        let statement = text::slice(source, import.start as int, import.end as int);
        match text::find_from(statement, import.specifier, 0) {
            Some(offset) => Some(
                (
                    import.start + offset,
                    import.start + offset + text::bytes(import.specifier).len(),
                ),
            ),
            None => None,
        }
    } else {
        None
    }
}

/// A byte range as the plan carries it: its line and UTF-16 columns.
pub open spec fn positions(source: Seq<char>, range: (int, int)) -> Option<(u32, u32, u32)> {
    let (line, start, end) = occurrences::place_of(source, range);
    match (
        coordinates::converted(source, line, start),
        coordinates::converted(source, line, end),
    ) {
        (Ok(start_char), Ok(end_char)) => Some((line, start_char, end_char)),
        _ => None,
    }
}

/// What a move rewrites, and what it could not settle.
#[verifier::ext_equal]
pub struct RewritesView {
    pub rewrites: Seq<RewriteView>,
    pub uncertain: Seq<JsonView>,
    pub importers: Seq<Seq<char>>,
}

/// A specifier that could not be settled.
pub open spec fn unsettled(file: Seq<char>, specifier: Seq<char>, reason: Seq<char>) -> JsonView {
    JsonView::empty().with_text("file"@, file).with_text("specifier"@, specifier).with_text(
        "reason"@,
        reason,
    )
}

/// What is rewritten with one specifier of a file replaced where it stands.
pub open spec fn with_rewrite(
    state: RewritesView,
    file: Seq<char>,
    source: Seq<char>,
    import: ImportView,
    after: Seq<char>,
    reason: Seq<char>,
) -> RewritesView {
    match specifier_range(source, import) {
        None => RewritesView {
            uncertain: state.uncertain.push(unsettled(file, import.specifier, reason)),
            ..state
        },
        Some(range) => match positions(source, range) {
            None => state,
            Some((line, start_char, end_char)) => RewritesView {
                rewrites: state.rewrites.push(
                    RewriteView {
                        file,
                        line,
                        start_char,
                        end_char,
                        before: import.specifier,
                        after,
                    },
                ),
                ..state
            },
        },
    }
}

/// What is rewritten with one of the moved file's own imports.
pub open spec fn with_own(
    state: RewritesView,
    source: Seq<char>,
    from: Seq<char>,
    to: Seq<char>,
    import: ImportView,
) -> RewritesView {
    if !specifier::relative(import.specifier) {
        state
    } else {
        match specifier::resolved(from, import.specifier) {
            None => RewritesView {
                uncertain: state.uncertain.push(
                    unsettled(
                        from,
                        import.specifier,
                        "the specifier resolves outside the repository"@,
                    ),
                ),
                ..state
            },
            Some(target) => {
                let updated = specifier::rewritten(to, import.specifier, target);
                if updated == import.specifier {
                    state
                } else {
                    with_rewrite(
                        state,
                        from,
                        source,
                        import,
                        updated,
                        "the specifier could not be located inside its own import statement"@,
                    )
                }
            },
        }
    }
}

/// What is rewritten with the first of the moved file's own imports.
pub open spec fn with_owns(
    state: RewritesView,
    source: Seq<char>,
    from: Seq<char>,
    to: Seq<char>,
    imports: Seq<ImportView>,
) -> RewritesView
    decreases imports.len(),
{
    if imports.len() == 0 {
        state
    } else {
        with_own(
            with_owns(state, source, from, to, imports.drop_last()),
            source,
            from,
            to,
            imports.last(),
        )
    }
}

/// Whether a resolved specifier points at a file, with or without its extension.
pub open spec fn points_at(target: Seq<char>, file: Seq<char>) -> bool {
    target == file || target == specifier::bare(file)
}

/// The specifier that reaches the moved file from one that imports it, with an extension where
/// the specifier had one.
pub open spec fn repointed(file: Seq<char>, specifier: Seq<char>, to: Seq<char>) -> Seq<char> {
    specifier::path_between(
        file,
        if specifier::segments(specifier).last().contains('.') {
            to
        } else {
            specifier::bare(to)
        },
    )
}

/// What is rewritten with one import of another file.
pub open spec fn with_importer(
    state: RewritesView,
    file: Seq<char>,
    source: Seq<char>,
    from: Seq<char>,
    to: Seq<char>,
    import: ImportView,
) -> RewritesView {
    if !specifier::relative(import.specifier) {
        state
    } else {
        match specifier::resolved(file, import.specifier) {
            None => state,
            Some(target) => if points_at(target, from) {
                with_rewrite(
                    RewritesView { importers: order::inserted(state.importers, file), ..state },
                    file,
                    source,
                    import,
                    repointed(file, import.specifier, to),
                    "the specifier could not be located inside its import statement"@,
                )
            } else {
                state
            },
        }
    }
}

/// What is rewritten with the first imports of another file.
pub open spec fn with_importers(
    state: RewritesView,
    file: Seq<char>,
    source: Seq<char>,
    from: Seq<char>,
    to: Seq<char>,
    imports: Seq<ImportView>,
) -> RewritesView
    decreases imports.len(),
{
    if imports.len() == 0 {
        state
    } else {
        with_importer(
            with_importers(state, file, source, from, to, imports.drop_last()),
            file,
            source,
            from,
            to,
            imports.last(),
        )
    }
}

/// The paths of the first nodes that are files, ascending.
pub open spec fn indexed(nodes: Seq<Node>) -> Seq<Seq<char>>
    decreases nodes.len(),
{
    if nodes.len() == 0 {
        Seq::empty()
    } else if nodes.last().kind@ == "file"@ && nodes.last().label@.len() > 0 {
        order::inserted(indexed(nodes.drop_last()), nodes.last().label@)
    } else {
        indexed(nodes.drop_last())
    }
}

/// The imports of a file that can be read and whose language is known.
pub open spec fn imports_of(repository: Repository, file: Seq<char>) -> Option<
    (Seq<char>, Seq<ImportView>),
> {
    match evidence::source_of(repository.sources@, file) {
        None => None,
        Some(source) => match parse::known_facts(file, source) {
            None => None,
            Some(facts) => Some((source, facts.imports)),
        },
    }
}

/// What is rewritten with the imports of the first of some files.
pub open spec fn with_files(
    repository: Repository,
    state: RewritesView,
    from: Seq<char>,
    to: Seq<char>,
    files: Seq<Seq<char>>,
) -> RewritesView
    decreases files.len(),
{
    if files.len() == 0 {
        state
    } else {
        let before = with_files(repository, state, from, to, files.drop_last());
        let file = files.last();
        if file == from {
            before
        } else {
            match imports_of(repository, file) {
                None => before,
                Some((source, imports)) => with_importers(
                    before,
                    file,
                    source,
                    from,
                    to,
                    imports,
                ),
            }
        }
    }
}

/// Everything that a move rewrites: the moved file's own specifiers, then its importers'.
pub open spec fn rewrites_of(
    repository: Repository,
    source: Seq<char>,
    from: Seq<char>,
    to: Seq<char>,
) -> RewritesView {
    let start = RewritesView {
        rewrites: Seq::empty(),
        uncertain: Seq::empty(),
        importers: Seq::empty(),
    };
    let own = match parse::known_facts(from, source) {
        Some(facts) => with_owns(start, source, from, to, facts.imports),
        None => start,
    };
    with_files(repository, own, from, to, indexed(repository.graph.nodes@))
}

/// The edit that a rewrite makes.
pub open spec fn rewrite_edit(change: RewriteView) -> EditView {
    EditView {
        start_line: change.line,
        start_char: change.start_char,
        end_line: change.line,
        end_char: change.end_char,
        before: change.before,
        after: change.after,
        provenance: "EXTRACTED"@,
    }
}

/// A plan with the first of some rewrites.
pub open spec fn rewrites_planned(repository: Repository, rewrites: Seq<RewriteView>) -> BuilderView
    decreases rewrites.len(),
{
    if rewrites.len() == 0 {
        BuilderView::start("move_file"@)
    } else {
        let before = rewrites_planned(repository, rewrites.drop_last());
        let change = rewrites.last();
        match evidence::source_of(repository.sources@, change.file) {
            None => before,
            Some(source) => before.file(change.file, plan::sha256_hex(source)).edit(
                rewrite_edit(change),
            ),
        }
    }
}

/// The answer to a move that was planned.
pub open spec fn planned_answer(
    repository: Repository,
    from: Seq<char>,
    to: Seq<char>,
    found: RewritesView,
) -> JsonView {
    JsonView::empty().with_text("status"@, "PLANNED"@).with_text(
        "completeness"@,
        "PARTIAL"@,
    ).with("move"@, JsonView::empty().with_text("from"@, from).with_text("to"@, to)).with_number(
        "specifierEdits"@,
        found.rewrites.len(),
    ).with_list("importers"@, operations::texts(found.importers)).with(
        "plan"@,
        plan::plan_value(rewrites_planned(repository, found.rewrites).plan()),
    ).with_list("uncertainReferences"@, found.uncertain).with_list(
        "warnings"@,
        Seq::empty().push(JsonView::Text("FILE_RENAME_NOT_INCLUDED"@)),
    ).with_text(
        "next"@,
        "apply the specifier edits with apply_edit_plan (preview -> confirm), then move the file itself: weavatrix.edit-plan.v1 carries text edits only, so the rename is a separate, deliberate step."@,
    )
}

/// The answer to `move_file`.
#[verifier::opaque]
pub open spec fn move_file_answer(repository: Repository, arguments: JsonView) -> JsonView {
    match (arguments.text("from"@), arguments.text("to"@)) {
        (Some(from), Some(to)) => if from == to {
            operations::plain_answer("NO_CHANGE"@, from + " is already at that path"@)
        } else {
            match evidence::source_of(repository.sources@, from) {
                None => operations::plain_answer(
                    "SOURCE_UNAVAILABLE"@,
                    from + ": the file is missing, too large, or not valid UTF-8"@,
                ),
                Some(source) => planned_answer(
                    repository,
                    from,
                    to,
                    rewrites_of(repository, source, from, to),
                ),
            }
        },
        _ => operations::invalid_args_value("move_file"@, seq!["from"@, "to"@]),
    }
}

/// One specifier that has to change, already located in its file.
struct Rewrite {
    file: String,
    line: u32,
    start_char: u32,
    end_char: u32,
    before: String,
    after: String,
}

/// Rewrites without their representation.
spec fn rewrite_views(rewrites: Seq<Rewrite>) -> Seq<RewriteView> {
    Seq::new(
        rewrites.len(),
        |i: int|
            RewriteView {
                file: rewrites[i].file@,
                line: rewrites[i].line,
                start_char: rewrites[i].start_char,
                end_char: rewrites[i].end_char,
                before: rewrites[i].before@,
                after: rewrites[i].after@,
            },
    )
}

/// What a move rewrites, and what it could not settle.
struct Rewrites {
    rewrites: Vec<Rewrite>,
    uncertain: Items,
    importers: Vec<String>,
}

impl Rewrites {
    /// The rewrites without their representation.
    spec fn view(self) -> RewritesView {
        RewritesView {
            rewrites: rewrite_views(self.rewrites@),
            uncertain: self.uncertain@,
            importers: text::string_views(self.importers@),
        }
    }
}

/// Locates a specifier inside the import statement the parser reported.
///
/// The parser's span covers the whole statement, so the specifier is found within it rather than
/// assumed to be at its end: `import x from './a'` and `export * from './a'` put it in different
/// places, and quoting style varies.
fn locate_specifier(source: &str, import: &Import) -> (found: Option<(usize, usize)>)
    ensures
        match (found, specifier_range(source@, import@)) {
            (Some(range), Some(expected)) => range.0 == expected.0 && range.1 == expected.1
                && range.0 <= range.1 <= text::bytes(source@).len(),
            (None, None) => true,
            _ => false,
        },
{
    let statement = match text::get(source, import.start, import.end) {
        Some(statement) => statement,
        None => {
            return None;
        },
    };
    proof {
        text::lemma_cut(source@, import.start as int, import.end as int);
    }
    let width: usize = import.specifier.as_str().as_bytes().len();
    match text::find(statement, import.specifier.as_str(), 0) {
        Some(offset) => Some((import.start + offset, import.start + offset + width)),
        None => None,
    }
}

/// Turns a byte range into the plan's line and UTF-16 columns.
fn positioned(source: &str, from: usize, to: usize) -> (found: Option<(u32, u32, u32)>)
    requires
        text::bytes(source@).len() < u32::MAX,
        from <= to <= text::bytes(source@).len(),
    ensures
        found == positions(source@, (from as int, to as int)),
{
    let (line, start, end) = occurrences::place(source, from, to);
    match (
        coordinates::utf16_offset(source, line, start),
        coordinates::utf16_offset(source, line, end),
    ) {
        (Ok(start_char), Ok(end_char)) => Some((line, start_char, end_char)),
        _ => None,
    }
}

/// Replaces one specifier of a file where it stands.
fn add_rewrite(
    state: &mut Rewrites,
    file: &str,
    source: &str,
    import: &Import,
    after: &str,
    reason: &str,
)
    requires
        text::bytes(source@).len() < u32::MAX,
    ensures
        final(state)@ == with_rewrite(
            old(state)@,
            file@,
            source@,
            import@,
            after@,
            reason@,
        ),
{
    let range = match locate_specifier(source, import) {
        Some(range) => range,
        None => {
            state.uncertain.push(
                Fields::new().with_text("file", file).with_text(
                    "specifier",
                    import.specifier.as_str(),
                ).with_text("reason", reason).done(),
            );
            return ;
        },
    };
    match positioned(source, range.0, range.1) {
        Some((line, start_char, end_char)) => {
            let rewrite = Rewrite {
                file: file.to_owned(),
                line,
                start_char,
                end_char,
                before: import.specifier.clone(),
                after: after.to_owned(),
            };
            assert(rewrite_views(state.rewrites@.push(rewrite)) =~= rewrite_views(
                state.rewrites@,
            ).push(
                RewriteView {
                    file: file@,
                    line,
                    start_char,
                    end_char,
                    before: import.specifier@,
                    after: after@,
                },
            ));
            state.rewrites.push(rewrite);
        },
        None => {},
    }
}

/// Rewrites the moved file's own specifiers for its new directory.
fn own_imports(state: &mut Rewrites, source: &str, from: &str, to: &str)
    requires
        text::bytes(source@).len() < i32::MAX,
    ensures
        final(state)@ == (match parse::known_facts(from@, source@) {
            Some(facts) => with_owns(old(state)@, source@, from@, to@, facts.imports),
            None => old(state)@,
        }),
{
    let facts = match parse::read_facts(from, source) {
        Some(facts) => facts,
        None => {
            return ;
        },
    };
    let ghost all = facts@.imports;
    let mut i: usize = 0;
    while i < facts.imports.len()
        invariant
            i <= facts.imports@.len(),
            text::bytes(source@).len() < u32::MAX,
            all == facts@.imports,
            state@ == with_owns(old(state)@, source@, from@, to@, all.take(i as int)),
        decreases facts.imports@.len() - i,
    {
        assert(all.take(i + 1).drop_last() =~= all.take(i as int));
        let import = &facts.imports[i];
        assert(all[i as int] == import@);
        let written = import.specifier.as_str();
        i += 1;
        if !specifier::is_relative(written) {
            continue ;
        }
        let target = match specifier::resolve(from, written) {
            Some(target) => target,
            None => {
                state.uncertain.push(
                    Fields::new().with_text("file", from).with_text(
                        "specifier",
                        written,
                    ).with_text("reason", "the specifier resolves outside the repository").done(),
                );
                continue ;
            },
        };
        let updated = specifier::rewrite(to, written, target.as_str());
        if text::same(updated.as_str(), written) {
            continue ;
        }
        add_rewrite(
            state,
            from,
            source,
            import,
            updated.as_str(),
            "the specifier could not be located inside its own import statement",
        );
    }
    assert(all.take(i as int) =~= all);
}

/// Whether a resolved specifier points at a file, with or without its extension.
fn is_pointed_at(target: &str, file: &str) -> (found: bool)
    ensures
        found == points_at(target@, file@),
{
    text::same(target, file) || text::same(target, specifier::without_extension(file).as_str())
}

/// Whether the last segment of a specifier holds a dot.
fn has_dot(written: &str) -> (found: bool)
    ensures
        found == specifier::segments(written@).last().contains('.'),
{
    let parts = text::split_all(written, 47);
    proof {
        specifier::lemma_segments(written@);
        assert(text::views(parts@).last() == parts@.last()@);
    }
    let last = parts[parts.len() - 1];
    let characters = words::chars(last);
    let mut i: usize = 0;
    while i < characters.len()
        invariant
            i <= characters@.len(),
            characters@ == last@,
            last@ == specifier::segments(written@).last(),
            forall|k: int| 0 <= k < i ==> last@[k] != '.',
        decreases characters@.len() - i,
    {
        if characters[i] == '.' {
            assert(last@[i as int] == '.');
            return true;
        }
        i += 1;
    }
    false
}

/// The specifier that reaches the moved file from one that imports it.
fn repoint(file: &str, written: &str, to: &str) -> (updated: String)
    ensures
        updated@ == repointed(file@, written@, to@),
{
    if has_dot(written) {
        specifier::between(file, to)
    } else {
        specifier::between(file, specifier::without_extension(to).as_str())
    }
}

/// Rewrites the specifiers of one file that pointed at the moved one.
fn one_importer(
    repository: &Repository,
    state: &mut Rewrites,
    file: &str,
    from: &str,
    to: &str,
)
    ensures
        final(state)@ == (match imports_of(*repository, file@) {
            None => old(state)@,
            Some((source, imports)) => with_importers(
                old(state)@,
                file@,
                source,
                from@,
                to@,
                imports,
            ),
        }),
{
    let source = match evidence::read_source(&repository.sources, file) {
        Some(source) => source,
        None => {
            return ;
        },
    };
    let facts = match parse::read_facts(file, source) {
        Some(facts) => facts,
        None => {
            return ;
        },
    };
    let ghost all = facts@.imports;
    let mut i: usize = 0;
    while i < facts.imports.len()
        invariant
            i <= facts.imports@.len(),
            text::bytes(source@).len() < u32::MAX,
            all == facts@.imports,
            state@ == with_importers(
                old(state)@,
                file@,
                source@,
                from@,
                to@,
                all.take(i as int),
            ),
        decreases facts.imports@.len() - i,
    {
        assert(all.take(i + 1).drop_last() =~= all.take(i as int));
        let import = &facts.imports[i];
        assert(all[i as int] == import@);
        let written = import.specifier.as_str();
        i += 1;
        if !specifier::is_relative(written) {
            continue ;
        }
        let target = match specifier::resolve(file, written) {
            Some(target) => target,
            None => {
                continue ;
            },
        };
        // The specifier may omit the extension, so compare on the stem too.
        if !is_pointed_at(target.as_str(), from) {
            continue ;
        }
        order::insert(&mut state.importers, file);
        let updated = repoint(file, written, to);
        add_rewrite(
            state,
            file,
            source,
            import,
            updated.as_str(),
            "the specifier could not be located inside its import statement",
        );
    }
    assert(all.take(i as int) =~= all);
}

/// Every indexed file, so importers can be found without a resolved import graph.
pub(crate) fn indexed_files(nodes: &Vec<Node>) -> (files: Vec<String>)
    ensures
        text::string_views(files@) == indexed(nodes@),
{
    let mut files: Vec<String> = Vec::new();
    assert(text::string_views(files@) =~= Seq::empty());
    let mut i: usize = 0;
    while i < nodes.len()
        invariant
            i <= nodes@.len(),
            text::string_views(files@) == indexed(nodes@.take(i as int)),
        decreases nodes@.len() - i,
    {
        assert(nodes@.take(i + 1).drop_last() =~= nodes@.take(i as int));
        let label = nodes[i].label.as_str();
        if text::same(nodes[i].kind.as_str(), "file") && words::chars(label).len() > 0 {
            order::insert(&mut files, label);
        }
        i += 1;
    }
    assert(nodes@.take(i as int) =~= nodes@);
    files
}

/// The indexed files ascend.
pub(crate) proof fn lemma_indexed(nodes: Seq<Node>)
    ensures
        order::ascending(indexed(nodes)),
    decreases nodes.len(),
{
    if nodes.len() > 0 {
        lemma_indexed(nodes.drop_last());
        order::lemma_inserted(indexed(nodes.drop_last()), nodes.last().label@);
    }
}

/// Rewrites every importer's specifier that pointed at the moved file.
fn importer_imports(repository: &Repository, state: &mut Rewrites, from: &str, to: &str)
    ensures
        final(state)@ == with_files(
            *repository,
            old(state)@,
            from@,
            to@,
            indexed(repository.graph.nodes@),
        ),
{
    let files = indexed_files(&repository.graph.nodes);
    let ghost all = text::string_views(files@);
    let mut i: usize = 0;
    while i < files.len()
        invariant
            i <= files@.len(),
            all == text::string_views(files@),
            state@ == with_files(*repository, old(state)@, from@, to@, all.take(i as int)),
        decreases files@.len() - i,
    {
        assert(all.take(i + 1).drop_last() =~= all.take(i as int));
        let file = files[i].as_str();
        if !text::same(file, from) {
            one_importer(repository, state, file, from, to);
        }
        i += 1;
    }
    assert(all.take(i as int) =~= all);
}

/// Plans rewrites.
fn plan_rewrites(repository: &Repository, rewrites: &Vec<Rewrite>) -> (builder: PlanBuilder)
    ensures
        builder@ == rewrites_planned(*repository, rewrite_views(rewrites@)),
{
    let ghost all = rewrite_views(rewrites@);
    let mut builder = PlanBuilder::new("move_file");
    let mut i: usize = 0;
    while i < rewrites.len()
        invariant
            i <= rewrites@.len(),
            all == rewrite_views(rewrites@),
            builder@ == rewrites_planned(*repository, all.take(i as int)),
        decreases rewrites@.len() - i,
    {
        assert(all.take(i + 1).drop_last() =~= all.take(i as int));
        let change = &rewrites[i];
        let file = change.file.as_str();
        match evidence::read_source(&repository.sources, file) {
            Some(source) => {
                builder = builder.file(file, plan::sha256_of(source).as_str()).edit(
                    change.line,
                    change.start_char,
                    change.line,
                    change.end_char,
                    change.before.as_str(),
                    change.after.as_str(),
                    "EXTRACTED",
                );
            },
            None => {},
        }
        i += 1;
    }
    assert(all.take(i as int) =~= all);
    builder
}

/// `move_file`: a plan of the specifiers that a move would break.
pub fn move_file(repository: &Repository, arguments: &Json) -> (value: Json)
    ensures
        value@ == move_file_answer(*repository, arguments@),
{
    proof {
        reveal(move_file_answer);
    }
    let (from, to) = match (arguments.text("from"), arguments.text("to")) {
        (Some(from), Some(to)) => (from, to),
        _ => {
            return operations::missing_two("move_file", "from", "to");
        },
    };
    if text::same(from, to) {
        let reason = from.to_owned().concat(" is already at that path");
        return operations::answer("NO_CHANGE", reason.as_str());
    }
    let source = match evidence::read_source(&repository.sources, from) {
        Some(source) => source,
        None => {
            let reason = from.to_owned().concat(
                ": the file is missing, too large, or not valid UTF-8",
            );
            return operations::answer("SOURCE_UNAVAILABLE", reason.as_str());
        },
    };
    let mut found = Rewrites {
        rewrites: Vec::new(),
        uncertain: Items::new(),
        importers: Vec::new(),
    };
    assert(found@.rewrites =~= Seq::empty());
    assert(found@.importers =~= Seq::empty());
    own_imports(&mut found, source, from, to);
    importer_imports(repository, &mut found, from, to);
    let builder = plan_rewrites(repository, &found.rewrites);
    let mut warnings = Items::new();
    warnings.push(json::string("FILE_RENAME_NOT_INCLUDED"));
    let moved = Fields::new().with_text("from", from).with_text("to", to).done();
    let Rewrites { rewrites, uncertain, importers } = found;
    Fields::new().with_text("status", "PLANNED").with_text("completeness", "PARTIAL").with(
        "move",
        moved,
    ).with_number("specifierEdits", rewrites.len() as u64).with_list(
        "importers",
        operations::string_items(&importers),
    ).with("plan", builder.build()).with_list("uncertainReferences", uncertain).with_list(
        "warnings",
        warnings,
    ).with_text(
        "next",
        "apply the specifier edits with apply_edit_plan (preview -> confirm), then move the file itself: weavatrix.edit-plan.v1 carries text edits only, so the rename is a separate, deliberate step.",
    ).done()
}

/// Every answer of this operation keeps to the contract.
pub proof fn law_answers_conform(
    repository: Repository,
    arguments: JsonView,
)
    ensures
        contract::conforms(move_file_answer(repository, arguments)),
{
    broadcast use json::lemma_with_get;

    reveal(move_file_answer);
    contract::lemma_keys();
}

/// An importer's rewritten specifier leads to where the file was moved, where its new path is
/// normalised: to the path itself where the specifier had an extension, and to the path without
/// its extension where it had none.
pub proof fn law_importers_reach_the_moved_file(
    file: Seq<char>,
    written: Seq<char>,
    to: Seq<char>,
)
    requires
        specifier::normal(to),
    ensures
        specifier::resolved(file, repointed(file, written, to)) == Some(
            if specifier::segments(written).last().contains('.') {
                to
            } else {
                specifier::bare(to)
            },
        ),
{
    specifier::lemma_bare(to);
    specifier::law_between_resolves(file, to);
    specifier::law_between_resolves(file, specifier::bare(to));
}

/// A plan of rewrites is sound.
proof fn lemma_rewrites_sound(repository: Repository, rewrites: Seq<RewriteView>)
    ensures
        envelope::sound(rewrites_planned(repository, rewrites)),
    decreases rewrites.len(),
{
    broadcast use envelope::lemma_sound_start, envelope::lemma_sound_file,
        envelope::lemma_sound_edit;

    if rewrites.len() > 0 {
        lemma_rewrites_sound(repository, rewrites.drop_last());
    }
}

/// The plan of a move that has edits is one that the applier reads back.
pub proof fn law_the_plan_reads_back(repository: Repository, rewrites: Seq<RewriteView>)
    requires
        !rewrites_planned(repository, rewrites).is_empty(),
    ensures
        ({
            let built = rewrites_planned(repository, rewrites).plan();
            envelope::plan_of(plan::plan_value(built)) == Ok::<PlanView, Seq<char>>(built)
        }),
{
    lemma_rewrites_sound(repository, rewrites);
    envelope::law_a_sound_plan_reads_back(rewrites_planned(repository, rewrites));
}

/// Whether every rewrite stands in the source of its file.
pub open spec fn rewrites_stand(sources: Seq<SourceFile>, rewrites: Seq<RewriteView>) -> bool {
    forall|i: int| 0 <= i < rewrites.len() ==> rewrite_stands(sources, #[trigger] rewrites[i])
}

/// Whether a rewrite stands in the source of its file.
pub open spec fn rewrite_stands(sources: Seq<SourceFile>, change: RewriteView) -> bool {
    evidence::source_of(sources, change.file) matches Some(source) ==> fit::stands(
        source,
        rewrite_edit(change),
    )
}

/// Replacing one specifier where it stands keeps every rewrite standing.
proof fn lemma_rewrite_stands(
    sources: Seq<SourceFile>,
    state: RewritesView,
    file: Seq<char>,
    source: Seq<char>,
    import: ImportView,
    after: Seq<char>,
    reason: Seq<char>,
)
    requires
        rewrites_stand(sources, state.rewrites),
        evidence::source_of(sources, file) == Some(source),
    ensures
        rewrites_stand(
            sources,
            with_rewrite(state, file, source, import, after, reason).rewrites,
        ),
{
    fit::lemma_source_bound(sources, file);
    let next = with_rewrite(state, file, source, import, after, reason);
    match specifier_range(source, import) {
        Some(range) => match positions(source, range) {
            Some((line, start_char, end_char)) => {
                let statement = text::slice(source, import.start as int, import.end as int);
                text::lemma_find_from(statement, import.specifier, 0);
                text::lemma_slice_within(
                    source,
                    import.start as int,
                    import.end as int,
                    range.0 - import.start,
                    range.1 - import.start,
                );
                let change = next.rewrites.last();
                occurrences::lemma_place_stands(source, range, rewrite_edit(change));
            },
            None => {},
        },
        None => {},
    }
    assert forall|i: int| 0 <= i < next.rewrites.len() implies rewrite_stands(
        sources,
        #[trigger] next.rewrites[i],
    ) by {
        if i < state.rewrites.len() {
            assert(next.rewrites[i] == state.rewrites[i]);
        }
    }
}

/// The rewrites of the moved file's own imports stand in it.
proof fn lemma_owns_stand(
    sources: Seq<SourceFile>,
    state: RewritesView,
    source: Seq<char>,
    from: Seq<char>,
    to: Seq<char>,
    imports: Seq<ImportView>,
)
    requires
        rewrites_stand(sources, state.rewrites),
        evidence::source_of(sources, from) == Some(source),
    ensures
        rewrites_stand(sources, with_owns(state, source, from, to, imports).rewrites),
    decreases imports.len(),
{
    if imports.len() > 0 {
        lemma_owns_stand(sources, state, source, from, to, imports.drop_last());
        let before = with_owns(state, source, from, to, imports.drop_last());
        let import = imports.last();
        match specifier::resolved(from, import.specifier) {
            Some(target) => {
                lemma_rewrite_stands(
                    sources,
                    before,
                    from,
                    source,
                    import,
                    specifier::rewritten(to, import.specifier, target),
                    "the specifier could not be located inside its own import statement"@,
                );
            },
            None => {},
        }
    }
}

/// The rewrites of an importer's imports stand in it.
proof fn lemma_importers_stand(
    sources: Seq<SourceFile>,
    state: RewritesView,
    file: Seq<char>,
    source: Seq<char>,
    from: Seq<char>,
    to: Seq<char>,
    imports: Seq<ImportView>,
)
    requires
        rewrites_stand(sources, state.rewrites),
        evidence::source_of(sources, file) == Some(source),
    ensures
        rewrites_stand(sources, with_importers(state, file, source, from, to, imports).rewrites),
    decreases imports.len(),
{
    if imports.len() > 0 {
        lemma_importers_stand(sources, state, file, source, from, to, imports.drop_last());
        let before = with_importers(state, file, source, from, to, imports.drop_last());
        let import = imports.last();
        lemma_rewrite_stands(
            sources,
            RewritesView { importers: order::inserted(before.importers, file), ..before },
            file,
            source,
            import,
            repointed(file, import.specifier, to),
            "the specifier could not be located inside its import statement"@,
        );
    }
}

/// The rewrites of the importers among some files stand in them.
proof fn lemma_files_stand(
    repository: Repository,
    state: RewritesView,
    from: Seq<char>,
    to: Seq<char>,
    files: Seq<Seq<char>>,
)
    requires
        rewrites_stand(repository.sources@, state.rewrites),
    ensures
        rewrites_stand(
            repository.sources@,
            with_files(repository, state, from, to, files).rewrites,
        ),
    decreases files.len(),
{
    if files.len() > 0 {
        lemma_files_stand(repository, state, from, to, files.drop_last());
        let before = with_files(repository, state, from, to, files.drop_last());
        match imports_of(repository, files.last()) {
            Some((source, imports)) => {
                lemma_importers_stand(
                    repository.sources@,
                    before,
                    files.last(),
                    source,
                    from,
                    to,
                    imports,
                );
            },
            None => {},
        }
    }
}

/// A plan of rewrites that stand fits the sources.
proof fn lemma_rewrites_fit(repository: Repository, rewrites: Seq<RewriteView>)
    requires
        rewrites_stand(repository.sources@, rewrites),
    ensures
        fit::fits(repository.sources@, rewrites_planned(repository, rewrites)),
    decreases rewrites.len(),
{
    let sources = repository.sources@;
    if rewrites.len() == 0 {
        fit::lemma_fits_start(sources, "move_file"@);
    } else {
        let rest = rewrites.drop_last();
        assert forall|i: int| 0 <= i < rest.len() implies rewrite_stands(
            sources,
            #[trigger] rest[i],
        ) by {
            assert(rest[i] == rewrites[i]);
        }
        lemma_rewrites_fit(repository, rest);
        let before = rewrites_planned(repository, rest);
        let change = rewrites[rewrites.len() - 1];
        assert(rewrite_stands(sources, change));
        match evidence::source_of(sources, change.file) {
            Some(source) => {
                fit::lemma_fits_file(sources, before, change.file, source);
                fit::lemma_fits_edit(
                    sources,
                    before.file(change.file, plan::sha256_hex(source)),
                    source,
                    rewrite_edit(change),
                );
            },
            None => {},
        }
    }
}

/// Every edit of a plan stands in the source it was made from: the specifier it replaces is the
/// text between its positions, and its file carries that source's hash.
pub proof fn law_the_plan_fits_the_sources(repository: Repository, arguments: JsonView)
    ensures
        fit::answer_fits(repository.sources@, move_file_answer(repository, arguments)),
{
    broadcast use json::lemma_with_get;

    reveal(move_file_answer);
    fit::lemma_plan_key();
    let sources = repository.sources@;
    let answer = move_file_answer(repository, arguments);
    match (arguments.text("from"@), arguments.text("to"@)) {
        (Some(from), Some(to)) => match evidence::source_of(sources, from) {
            Some(source) => {
                let start = RewritesView {
                    rewrites: Seq::empty(),
                    uncertain: Seq::empty(),
                    importers: Seq::empty(),
                };
                let own = match parse::known_facts(from, source) {
                    Some(facts) => with_owns(start, source, from, to, facts.imports),
                    None => start,
                };
                match parse::known_facts(from, source) {
                    Some(facts) => {
                        lemma_owns_stand(sources, start, source, from, to, facts.imports);
                    },
                    None => {},
                }
                lemma_files_stand(
                    repository,
                    own,
                    from,
                    to,
                    indexed(repository.graph.nodes@),
                );
                let rewrites = rewrites_of(repository, source, from, to).rewrites;
                lemma_rewrites_sound(repository, rewrites);
                lemma_rewrites_fit(repository, rewrites);
                if from != to {
                    fit::lemma_answer_fits(
                        sources,
                        answer,
                        rewrites_planned(repository, rewrites),
                    );
                }
            },
            None => {},
        },
        _ => {},
    }
}

} // verus!
