//! What moving a file promises: every relative import of the file, and every import that led to it,
//! leads where it has to once the file stands at its new path, and nothing else changes.

use crate::evidence;
use crate::fit;
use crate::graph::{Node, Repository};
use crate::json;
use crate::json::JsonView;
use crate::operations;
use crate::operations::move_file;
use crate::operations::move_file::{RewriteView, RewritesView};
use crate::operations::occurrences;
use crate::operations::rename_plan;
use crate::order;
use crate::parse;
use crate::parse::ImportView;
use crate::plan;
use crate::plan::EditView;
use crate::promises::plans;
use crate::promises::signature::plan_read;
use crate::specifier;
use crate::text;
use vstd::prelude::*;
use vstd::string::*;

verus! {

/// Whether a specifier is one that is followed from the file it stands in.
pub open spec fn followed(specifier: Seq<char>) -> bool {
    text::begins(specifier, "./"@) || text::begins(specifier, "../"@)
}

/// Whether the specifier of an import stands at an offset of its statement.
pub open spec fn stands_in_statement(source: Seq<char>, import: ImportView, offset: int) -> bool {
    &&& text::sliceable(source, import.start as int, import.end as int)
    &&& text::matches_at(
        text::slice(source, import.start as int, import.end as int),
        import.specifier,
        offset,
    )
}

/// Whether the specifier of an import stands in its statement.
pub open spec fn is_there(source: Seq<char>, import: ImportView) -> bool {
    exists|offset: int| #[trigger] stands_in_statement(source, import, offset)
}

/// Whether the specifier of an import has a position wherever it stands in its statement.
pub open spec fn has_position(source: Seq<char>, import: ImportView) -> bool {
    forall|offset: int| #[trigger]
        stands_in_statement(source, import, offset) ==> move_file::positions(
            source,
            (
                import.start + offset,
                import.start + offset + text::bytes(import.specifier).len(),
            ),
        ) is Some
}

/// Whether an edit writes another specifier over that of an import, inside its statement.
pub open spec fn rewrites_import(
    source: Seq<char>,
    import: ImportView,
    after: Seq<char>,
    edit: EditView,
) -> bool {
    &&& edit.before == import.specifier
    &&& edit.after == after
    &&& exists|from: int, to: int| #[trigger]
        fit::stands_at(source, edit, from, to) && import.start <= from && to <= import.end
}

/// Whether rewrites hold one of an import.
spec fn holds_rewrite(
    rewrites: Seq<RewriteView>,
    file: Seq<char>,
    source: Seq<char>,
    import: ImportView,
    after: Seq<char>,
) -> bool {
    exists|i: int|
        0 <= i < rewrites.len() && (#[trigger] rewrites[i]).file == file && rewrites_import(
            source,
            import,
            after,
            move_file::rewrite_edit(rewrites[i]),
        )
}

/// Whether entries list a specifier of a file.
pub open spec fn lists_specifier(entries: Seq<JsonView>, file: Seq<char>, specifier: Seq<char>) -> bool {
    exists|i: int|
        0 <= i < entries.len() && (#[trigger] entries[i]).text("file"@) == Some(file)
            && entries[i].text("specifier"@) == Some(specifier)
}

/// Whether nothing that is rewritten or listed is lost.
spec fn grows(state: RewritesView, next: RewritesView) -> bool {
    &&& forall|r: RewriteView| state.rewrites.contains(r) ==> #[trigger] next.rewrites.contains(r)
    &&& forall|v: JsonView| state.uncertain.contains(v) ==> #[trigger] next.uncertain.contains(v)
    &&& order::ascending(state.importers) ==> order::ascending(next.importers)
    &&& order::ascending(state.importers) ==> forall|f: Seq<char>|
        state.importers.contains(f) ==> #[trigger] next.importers.contains(f)
}

/// Whether an import is settled: rewritten where its specifier stands, and listed where it does
/// not.
spec fn settled(
    state: RewritesView,
    file: Seq<char>,
    source: Seq<char>,
    import: ImportView,
    after: Seq<char>,
) -> bool {
    if is_there(source, import) {
        holds_rewrite(state.rewrites, file, source, import, after)
    } else {
        lists_specifier(state.uncertain, file, import.specifier)
    }
}

/// What was settled stays settled.
proof fn lemma_settled_kept(
    state: RewritesView,
    next: RewritesView,
    file: Seq<char>,
    source: Seq<char>,
    import: ImportView,
    after: Seq<char>,
)
    requires
        grows(state, next),
        settled(state, file, source, import, after),
    ensures
        settled(next, file, source, import, after),
{
    if is_there(source, import) {
        let i = choose|i: int|
            0 <= i < state.rewrites.len() && (#[trigger] state.rewrites[i]).file == file
                && rewrites_import(
                source,
                import,
                after,
                move_file::rewrite_edit(state.rewrites[i]),
            );
        let one = state.rewrites[i];
        assert(state.rewrites.contains(one));
        assert(next.rewrites.contains(one));
        let k = choose|k: int| 0 <= k < next.rewrites.len() && next.rewrites[k] == one;
        assert(next.rewrites[k].file == file);
    } else {
        let i = choose|i: int|
            0 <= i < state.uncertain.len() && (#[trigger] state.uncertain[i]).text("file"@) == Some(
                file,
            ) && state.uncertain[i].text("specifier"@) == Some(import.specifier);
        let one = state.uncertain[i];
        assert(state.uncertain.contains(one));
        assert(next.uncertain.contains(one));
        let k = choose|k: int| 0 <= k < next.uncertain.len() && next.uncertain[k] == one;
        assert(next.uncertain[k].text("file"@) == Some(file));
    }
}

/// One more rewrite or entry loses none.
proof fn lemma_rewrite_grows(
    state: RewritesView,
    file: Seq<char>,
    source: Seq<char>,
    import: ImportView,
    after: Seq<char>,
    reason: Seq<char>,
)
    ensures
        grows(state, move_file::with_rewrite(state, file, source, import, after, reason)),
{
    let next = move_file::with_rewrite(state, file, source, import, after, reason);
    assert forall|r: RewriteView| state.rewrites.contains(r) implies #[trigger] next.rewrites.contains(
        r,
    ) by {
        let i = choose|i: int| 0 <= i < state.rewrites.len() && state.rewrites[i] == r;
        assert(next.rewrites[i] == r);
    }
    assert forall|v: JsonView| state.uncertain.contains(v) implies #[trigger] next.uncertain.contains(
        v,
    ) by {
        let i = choose|i: int| 0 <= i < state.uncertain.len() && state.uncertain[i] == v;
        assert(next.uncertain[i] == v);
    }
}

/// Replacing a specifier settles its import.
proof fn lemma_rewrite_settles(
    state: RewritesView,
    file: Seq<char>,
    source: Seq<char>,
    import: ImportView,
    after: Seq<char>,
    reason: Seq<char>,
)
    requires
        text::bytes(source).len() < u32::MAX,
        has_position(source, import),
    ensures
        settled(
            move_file::with_rewrite(state, file, source, import, after, reason),
            file,
            source,
            import,
            after,
        ),
{
    broadcast use json::lemma_with_get;

    let next = move_file::with_rewrite(state, file, source, import, after, reason);
    if text::sliceable(source, import.start as int, import.end as int) {
        let statement = text::slice(source, import.start as int, import.end as int);
        text::lemma_find_from(statement, import.specifier, 0);
        text::lemma_cut(source, import.start as int, import.end as int);
    }
    match move_file::specifier_range(source, import) {
        Some(range) => {
            let offset = range.0 - import.start;
            assert(stands_in_statement(source, import, offset));
            text::lemma_slice_within(
                source,
                import.start as int,
                import.end as int,
                range.0 - import.start,
                range.1 - import.start,
            );
            let change = next.rewrites[state.rewrites.len() as int];
            let edit = move_file::rewrite_edit(change);
            lemma_place_stands_at(source, range, edit);
            assert(rewrites_import(source, import, after, edit));
        },
        None => {
            if is_there(source, import) {
                let offset = choose|offset: int| #[trigger]
                    stands_in_statement(source, import, offset);
                assert(false);
            }
            reveal_strlit("file");
            reveal_strlit("specifier");
            assert("file"@.len() == 4 && "specifier"@.len() == 9);
            let entry = next.uncertain[state.uncertain.len() as int];
            assert(entry == move_file::unsettled(file, import.specifier, reason));
            assert(entry.text("file"@) == Some(file));
        },
    }
}

/// An edit of a byte range, by its place, stands there.
proof fn lemma_place_stands_at(source: Seq<char>, range: (int, int), edit: EditView)
    requires
        text::bytes(source).len() < u32::MAX,
        text::sliceable(source, range.0, range.1),
        move_file::positions(source, range) == Some(
            (edit.start_line, edit.start_char, edit.end_char),
        ),
        edit.end_line == edit.start_line,
        edit.before == text::slice(source, range.0, range.1),
    ensures
        fit::stands_at(source, edit, range.0, range.1),
{
    let (line, start, end) = occurrences::place_of(source, range);
    let head = text::bytes(source).subrange(0, range.0);
    crate::coordinates::lemma_newlines(head);
    crate::coordinates::law_a_position_leads_back(source, range.0);
    crate::coordinates::law_both_conversions_take_the_same_positions(source, line, end);
    assert(fit::named_by(source, line, edit.start_char, range.0, start));
    assert(fit::named_by(source, line, edit.end_char, range.1, end));
}

/// Looking at one of the moved file's imports loses nothing.
proof fn lemma_own_grows(
    state: RewritesView,
    source: Seq<char>,
    from: Seq<char>,
    to: Seq<char>,
    import: ImportView,
)
    ensures
        grows(state, move_file::with_own(state, source, from, to, import)),
{
    let next = move_file::with_own(state, source, from, to, import);
    match specifier::resolved(from, import.specifier) {
        Some(target) => {
            lemma_rewrite_grows(
                state,
                from,
                source,
                import,
                specifier::rewritten(to, import.specifier, target),
                "the specifier could not be located inside its own import statement"@,
            );
        },
        None => {
            assert forall|v: JsonView| state.uncertain.contains(v) implies #[trigger] next.uncertain.contains(
                v,
            ) by {
                let i = choose|i: int| 0 <= i < state.uncertain.len() && state.uncertain[i] == v;
                assert(next.uncertain[i] == v);
            }
        },
    }
}

/// Whether one of the moved file's imports is settled: it keeps leading where it led, or is
/// rewritten so that it does, or is listed.
spec fn own_settled(
    state: RewritesView,
    source: Seq<char>,
    from: Seq<char>,
    to: Seq<char>,
    import: ImportView,
) -> bool {
    match specifier::resolved(from, import.specifier) {
        None => lists_specifier(state.uncertain, from, import.specifier),
        Some(target) => {
            let updated = specifier::rewritten(to, import.specifier, target);
            updated == import.specifier || settled(state, from, source, import, updated)
        },
    }
}

/// Looking at the moved file's imports settles each of them, and loses nothing.
proof fn lemma_owns_settled(
    state: RewritesView,
    source: Seq<char>,
    from: Seq<char>,
    to: Seq<char>,
    imports: Seq<ImportView>,
)
    requires
        text::bytes(source).len() < u32::MAX,
    ensures
        ({
            let next = move_file::with_owns(state, source, from, to, imports);
            &&& grows(state, next)
            &&& forall|k: int|
                0 <= k < imports.len() && followed((#[trigger] imports[k]).specifier)
                    && has_position(source, imports[k]) ==> own_settled(
                    next,
                    source,
                    from,
                    to,
                    imports[k],
                )
        }),
    decreases imports.len(),
{
    broadcast use json::lemma_with_get;

    if imports.len() > 0 {
        let rest = imports.drop_last();
        let last = imports.last();
        let before = move_file::with_owns(state, source, from, to, rest);
        let next = move_file::with_owns(state, source, from, to, imports);
        lemma_owns_settled(state, source, from, to, rest);
        lemma_own_grows(before, source, from, to, last);
        assert forall|k: int|
            0 <= k < imports.len() && followed((#[trigger] imports[k]).specifier) && has_position(
                source,
                imports[k],
            ) implies own_settled(next, source, from, to, imports[k]) by {
            let import = imports[k];
            if k < rest.len() {
                assert(rest[k] == import);
                assert(own_settled(before, source, from, to, import));
                match specifier::resolved(from, import.specifier) {
                    None => {
                        lemma_listed_kept(before, next, from, import.specifier);
                    },
                    Some(target) => {
                        let updated = specifier::rewritten(to, import.specifier, target);
                        if updated != import.specifier {
                            lemma_settled_kept(before, next, from, source, import, updated);
                        }
                    },
                }
            } else {
                match specifier::resolved(from, import.specifier) {
                    None => {
                        reveal_strlit("file");
                        reveal_strlit("specifier");
                        assert("file"@.len() == 4 && "specifier"@.len() == 9);
                        let entry = next.uncertain[before.uncertain.len() as int];
                        assert(entry.text("file"@) == Some(from));
                    },
                    Some(target) => {
                        lemma_rewrite_settles(
                            before,
                            from,
                            source,
                            import,
                            specifier::rewritten(to, import.specifier, target),
                            "the specifier could not be located inside its own import statement"@,
                        );
                    },
                }
            }
        }
    }
}

/// What was listed stays listed.
proof fn lemma_listed_kept(
    state: RewritesView,
    next: RewritesView,
    file: Seq<char>,
    specifier: Seq<char>,
)
    requires
        grows(state, next),
        lists_specifier(state.uncertain, file, specifier),
    ensures
        lists_specifier(next.uncertain, file, specifier),
{
    let i = choose|i: int|
        0 <= i < state.uncertain.len() && (#[trigger] state.uncertain[i]).text("file"@) == Some(
            file,
        ) && state.uncertain[i].text("specifier"@) == Some(specifier);
    let one = state.uncertain[i];
    assert(state.uncertain.contains(one));
    assert(next.uncertain.contains(one));
    let k = choose|k: int| 0 <= k < next.uncertain.len() && next.uncertain[k] == one;
    assert(next.uncertain[k].text("file"@) == Some(file));
}

/// Whether a path leads to a file: it is the file's, or the file's without its extension.
pub open spec fn leads_to(path: Seq<char>, file: Seq<char>) -> bool {
    path == file || path == specifier::bare(file)
}

/// Whether an import of another file is settled: the file is among the importers, and the specifier
/// is rewritten to reach the new path, or listed.
spec fn importer_settled(
    state: RewritesView,
    file: Seq<char>,
    source: Seq<char>,
    from: Seq<char>,
    to: Seq<char>,
    import: ImportView,
) -> bool {
    (specifier::resolved(file, import.specifier) matches Some(target) && leads_to(target, from))
        ==> state.importers.contains(file) && settled(
        state,
        file,
        source,
        import,
        move_file::repointed(file, import.specifier, to),
    )
}

/// Looking at the imports of another file settles each of them, and loses nothing.
proof fn lemma_importers_settled(
    state: RewritesView,
    file: Seq<char>,
    source: Seq<char>,
    from: Seq<char>,
    to: Seq<char>,
    imports: Seq<ImportView>,
)
    requires
        text::bytes(source).len() < u32::MAX,
        order::ascending(state.importers),
    ensures
        ({
            let next = move_file::with_importers(state, file, source, from, to, imports);
            &&& order::ascending(next.importers)
            &&& grows(state, next)
            &&& forall|k: int|
                0 <= k < imports.len() && followed((#[trigger] imports[k]).specifier)
                    && has_position(source, imports[k]) ==> importer_settled(
                    next,
                    file,
                    source,
                    from,
                    to,
                    imports[k],
                )
        }),
    decreases imports.len(),
{
    if imports.len() > 0 {
        let rest = imports.drop_last();
        let last = imports.last();
        let before = move_file::with_importers(state, file, source, from, to, rest);
        let next = move_file::with_importers(state, file, source, from, to, imports);
        lemma_importers_settled(state, file, source, from, to, rest);
        order::lemma_inserted(before.importers, file);
        let noted = RewritesView {
            importers: order::inserted(before.importers, file),
            ..before
        };
        let after = move_file::repointed(file, last.specifier, to);
        let reason = "the specifier could not be located inside its import statement"@;
        lemma_rewrite_grows(noted, file, source, last, after, reason);
        assert(order::ascending(next.importers) && grows(before, next));
        assert forall|k: int|
            0 <= k < imports.len() && followed((#[trigger] imports[k]).specifier) && has_position(
                source,
                imports[k],
            ) implies importer_settled(next, file, source, from, to, imports[k]) by {
            let import = imports[k];
            if k < rest.len() {
                assert(rest[k] == import);
                assert(importer_settled(before, file, source, from, to, import));
                if specifier::resolved(file, import.specifier) matches Some(target) && leads_to(
                    target,
                    from,
                ) {
                    lemma_settled_kept(
                        before,
                        next,
                        file,
                        source,
                        import,
                        move_file::repointed(file, import.specifier, to),
                    );
                    assert(next.importers.contains(file));
                }
            } else {
                lemma_rewrite_settles(noted, file, source, last, after, reason);
                assert(order::inserted(before.importers, file).contains(file));
            }
        }
    }
}

/// Looking at files settles the imports of each of them, and loses nothing.
proof fn lemma_files_settled(
    repository: Repository,
    state: RewritesView,
    from: Seq<char>,
    to: Seq<char>,
    files: Seq<Seq<char>>,
)
    requires
        order::ascending(state.importers),
    ensures
        ({
            let next = move_file::with_files(repository, state, from, to, files);
            &&& order::ascending(next.importers)
            &&& grows(state, next)
            &&& forall|f: int, k: int|
                0 <= f < files.len() && files[f] != from && (move_file::imports_of(
                    repository,
                    files[f],
                ) matches Some((source, imports)) && 0 <= k < imports.len() && followed(
                    imports[k].specifier,
                ) && has_position(source, imports[k])) ==> #[trigger] file_settled(
                    repository,
                    next,
                    from,
                    to,
                    files[f],
                    k,
                )
        }),
    decreases files.len(),
{
    if files.len() > 0 {
        let rest = files.drop_last();
        let file = files.last();
        let before = move_file::with_files(repository, state, from, to, rest);
        let next = move_file::with_files(repository, state, from, to, files);
        lemma_files_settled(repository, state, from, to, rest);
        if file != from && move_file::imports_of(repository, file) is Some {
            let (source, imports) = move_file::imports_of(repository, file)->0;
            fit::lemma_source_bound(repository.sources@, file);
            lemma_importers_settled(before, file, source, from, to, imports);
        }
        assert(grows(before, next));
        assert forall|f: int, k: int|
            0 <= f < files.len() && files[f] != from && (move_file::imports_of(
                repository,
                files[f],
            ) matches Some((source, imports)) && 0 <= k < imports.len() && followed(
                imports[k].specifier,
            ) && has_position(source, imports[k])) implies #[trigger] file_settled(
            repository,
            next,
            from,
            to,
            files[f],
            k,
        ) by {
            let (source, imports) = move_file::imports_of(repository, files[f])->0;
            let import = imports[k];
            if f < rest.len() {
                assert(rest[f] == files[f]);
                assert(file_settled(repository, before, from, to, rest[f], k));
                if specifier::resolved(files[f], import.specifier) matches Some(target) && leads_to(
                    target,
                    from,
                ) {
                    lemma_settled_kept(
                        before,
                        next,
                        files[f],
                        source,
                        import,
                        move_file::repointed(files[f], import.specifier, to),
                    );
                    assert(next.importers.contains(files[f]));
                }
            } else {
                assert(importer_settled(next, file, source, from, to, imports[k]));
            }
        }
    }
}

/// Whether an import of another file, by its place, is settled.
spec fn file_settled(
    repository: Repository,
    state: RewritesView,
    from: Seq<char>,
    to: Seq<char>,
    file: Seq<char>,
    k: int,
) -> bool {
    move_file::imports_of(repository, file) matches Some((source, imports)) ==> importer_settled(
        state,
        file,
        source,
        from,
        to,
        imports[k],
    )
}

/// A plan of rewrites holds each of them whose file can be read.
proof fn lemma_planned(repository: Repository, rewrites: Seq<RewriteView>, i: int)
    requires
        0 <= i < rewrites.len(),
        evidence::source_of(repository.sources@, rewrites[i].file) is Some,
    ensures
        rename_plan::files_hold(
            move_file::rewrites_planned(repository, rewrites).files,
            rewrites[i].file,
            move_file::rewrite_edit(rewrites[i]),
        ),
    decreases rewrites.len(),
{
    let rest = rewrites.drop_last();
    let before = move_file::rewrites_planned(repository, rest);
    let last = rewrites.last();
    match evidence::source_of(repository.sources@, last.file) {
        Some(source) => {
            plans::lemma_edit_added(
                before,
                last.file,
                plan::sha256_hex(source),
                move_file::rewrite_edit(last),
            );
        },
        None => {},
    }
    if i < rest.len() {
        assert(rest[i] == rewrites[i]);
        lemma_planned(repository, rest, i);
    }
}

/// What the answer to a move carries.
proof fn lemma_move_answer(
    repository: Repository,
    from: Seq<char>,
    to: Seq<char>,
    found: RewritesView,
)
    ensures
        ({
            let answer = move_file::planned_answer(repository, from, to, found);
            &&& answer.text("status"@) == Some("PLANNED"@)
            &&& answer.get("plan"@) == Some(
                plan::plan_value(move_file::rewrites_planned(repository, found.rewrites).plan()),
            )
            &&& answer.list("uncertainReferences"@) == Some(found.uncertain)
            &&& answer.list("importers"@) == Some(operations::texts(found.importers))
            &&& answer.number("specifierEdits"@) == Some(found.rewrites.len())
            &&& answer.get("move"@) matches Some(moved) && moved.text("from"@) == Some(from)
                && moved.text("to"@) == Some(to)
        }),
{
    broadcast use json::lemma_with_get;

    reveal_strlit("status");
    reveal_strlit("completeness");
    reveal_strlit("move");
    reveal_strlit("specifierEdits");
    reveal_strlit("importers");
    reveal_strlit("plan");
    reveal_strlit("uncertainReferences");
    reveal_strlit("from");
    reveal_strlit("to");
    assert("status"@.len() == 6 && "completeness"@.len() == 12 && "move"@.len() == 4
        && "specifierEdits"@.len() == 14 && "importers"@.len() == 9 && "plan"@.len() == 4
        && "uncertainReferences"@.len() == 19 && "from"@.len() == 4 && "to"@.len() == 2);
    assert("move"@[0] == 'm' && "plan"@[0] == 'p');
}

/// Whether the import of a file is left as it has to be: where its specifier stands in its
/// statement, the plan writes another over it that leads where it has to; where it does not, the
/// specifier is listed.
pub open spec fn import_settled(
    answer: JsonView,
    file: Seq<char>,
    source: Seq<char>,
    import: ImportView,
    seen_from: Seq<char>,
    target: Seq<char>,
) -> bool {
    if is_there(source, import) {
        plan_read(answer) matches Some(plan) && exists|edit: EditView| #[trigger]
            rename_plan::files_hold(plan.files, file, edit) && rewrites_import(
                source,
                import,
                edit.after,
                edit,
            ) && specifier::resolved(seen_from, edit.after) == Some(target)
    } else {
        answer.list("uncertainReferences"@) matches Some(entries) && lists_specifier(
            entries,
            file,
            import.specifier,
        )
    }
}

/// What is settled is settled in the answer.
proof fn lemma_answer_settles(
    repository: Repository,
    from: Seq<char>,
    to: Seq<char>,
    found: RewritesView,
    file: Seq<char>,
    source: Seq<char>,
    import: ImportView,
    after: Seq<char>,
    seen_from: Seq<char>,
    target: Seq<char>,
)
    requires
        settled(found, file, source, import, after),
        evidence::source_of(repository.sources@, file) == Some(source),
        specifier::resolved(seen_from, after) == Some(target),
    ensures
        import_settled(
            move_file::planned_answer(repository, from, to, found),
            file,
            source,
            import,
            seen_from,
            target,
        ),
{
    let answer = move_file::planned_answer(repository, from, to, found);
    lemma_move_answer(repository, from, to, found);
    if is_there(source, import) {
        let i = choose|i: int|
            0 <= i < found.rewrites.len() && (#[trigger] found.rewrites[i]).file == file
                && rewrites_import(
                source,
                import,
                after,
                move_file::rewrite_edit(found.rewrites[i]),
            );
        let edit = move_file::rewrite_edit(found.rewrites[i]);
        lemma_planned(repository, found.rewrites, i);
        let built = move_file::rewrites_planned(repository, found.rewrites);
        plans::lemma_finished(built, file, edit);
        move_file::law_the_plan_reads_back(repository, found.rewrites);
        let plan = plan_read(answer)->0;
        assert(rename_plan::files_hold(plan.files, file, edit));
    }
}

/// Whether arguments ask to move a file that can be read to another path.
pub open spec fn asks_to_move(
    repository: Repository,
    arguments: JsonView,
    from: Seq<char>,
    to: Seq<char>,
    source: Seq<char>,
) -> bool {
    &&& arguments.text("from"@) == Some(from)
    &&& arguments.text("to"@) == Some(to)
    &&& from != to
    &&& evidence::source_of(repository.sources@, from) == Some(source)
}

/// A moved file keeps what it imports: every relative import that leads to a file from the old path
/// leads to the same file from the new one, as it is or as the plan rewrites it; where it leads out
/// of the repository, or is not found in its own statement, it is listed.
pub proof fn law_a_moved_file_keeps_what_it_imports(
    repository: Repository,
    arguments: JsonView,
    from: Seq<char>,
    to: Seq<char>,
    source: Seq<char>,
    facts: parse::FactsView,
    k: int,
)
    requires
        asks_to_move(repository, arguments, from, to, source),
        specifier::normal(from),
        parse::known_facts(from, source) == Some(facts),
        0 <= k < facts.imports.len(),
        followed(facts.imports[k].specifier),
        has_position(source, facts.imports[k]),
    ensures
        ({
            let answer = move_file::move_file_answer(repository, arguments);
            let import = facts.imports[k];
            match specifier::resolved(from, import.specifier) {
                Some(target) => specifier::resolved(to, import.specifier) == Some(target)
                    || import_settled(answer, from, source, import, to, target),
                None => answer.list("uncertainReferences"@) matches Some(entries)
                    && lists_specifier(entries, from, import.specifier),
            }
        }),
{
    reveal(move_file::move_file_answer);
    let import = facts.imports[k];
    let start = RewritesView {
        rewrites: Seq::empty(),
        uncertain: Seq::empty(),
        importers: Seq::empty(),
    };
    let own = move_file::with_owns(start, source, from, to, facts.imports);
    let files = move_file::indexed(repository.graph.nodes@);
    let found = move_file::with_files(repository, own, from, to, files);
    fit::lemma_source_bound(repository.sources@, from);
    lemma_owns_settled(start, source, from, to, facts.imports);
    assert(own_settled(own, source, from, to, import));
    assert(order::ascending(own.importers));
    lemma_files_settled(repository, own, from, to, files);
    lemma_move_answer(repository, from, to, found);
    match specifier::resolved(from, import.specifier) {
        None => {
            lemma_listed_kept(own, found, from, import.specifier);
        },
        Some(target) => {
            let updated = specifier::rewritten(to, import.specifier, target);
            specifier::law_rewrite_resolves(from, to, import.specifier, target);
            if updated != import.specifier {
                lemma_settled_kept(own, found, from, source, import, updated);
                lemma_answer_settles(
                    repository,
                    from,
                    to,
                    found,
                    from,
                    source,
                    import,
                    updated,
                    to,
                    target,
                );
            }
        },
    }
}

/// The indexed files are exactly the labels of the file nodes.
pub proof fn law_the_indexed_files_are_the_file_nodes(nodes: Seq<Node>)
    ensures
        order::ascending(move_file::indexed(nodes)),
        forall|path: Seq<char>| #[trigger]
            move_file::indexed(nodes).contains(path) <==> exists|n: int|
                0 <= n < nodes.len() && (#[trigger] nodes[n]).kind@ == "file"@ && nodes[n].label@
                    == path && path.len() > 0,
    decreases nodes.len(),
{
    move_file::lemma_indexed(nodes);
    if nodes.len() > 0 {
        let rest = nodes.drop_last();
        let before = move_file::indexed(rest);
        let all = move_file::indexed(nodes);
        law_the_indexed_files_are_the_file_nodes(rest);
        order::lemma_inserted(before, nodes.last().label@);
        assert forall|path: Seq<char>| #[trigger] all.contains(path) <==> exists|n: int|
            0 <= n < nodes.len() && (#[trigger] nodes[n]).kind@ == "file"@ && nodes[n].label@ == path
                && path.len() > 0 by {
            if before.contains(path) {
                let n = choose|n: int|
                    0 <= n < rest.len() && (#[trigger] rest[n]).kind@ == "file"@ && rest[n].label@
                        == path && path.len() > 0;
                assert(nodes[n] == rest[n]);
            }
            if all.contains(path) && !before.contains(path) {
                assert(nodes[nodes.len() - 1].label@ == path);
            }
            if exists|n: int|
                0 <= n < nodes.len() && (#[trigger] nodes[n]).kind@ == "file"@ && nodes[n].label@
                    == path && path.len() > 0 {
                let n = choose|n: int|
                    0 <= n < nodes.len() && (#[trigger] nodes[n]).kind@ == "file"@
                        && nodes[n].label@ == path && path.len() > 0;
                if n < rest.len() {
                    assert(rest[n] == nodes[n]);
                    assert(before.contains(path));
                }
            }
        }
    }
}

/// Every importer of a moved file follows it: every relative import of another indexed file that
/// leads to the old path is rewritten to lead to the new one, with an extension exactly where it
/// had one, or is listed where it is not found in its statement; and that file is named as an
/// importer.
pub proof fn law_every_importer_follows_a_moved_file(
    repository: Repository,
    arguments: JsonView,
    from: Seq<char>,
    to: Seq<char>,
    source: Seq<char>,
    node: int,
    file: Seq<char>,
    file_source: Seq<char>,
    facts: parse::FactsView,
    k: int,
    target: Seq<char>,
)
    requires
        asks_to_move(repository, arguments, from, to, source),
        specifier::normal(to),
        0 <= node < repository.graph.nodes@.len(),
        repository.graph.nodes@[node].kind@ == "file"@,
        repository.graph.nodes@[node].label@ == file,
        file.len() > 0,
        file != from,
        evidence::source_of(repository.sources@, file) == Some(file_source),
        parse::known_facts(file, file_source) == Some(facts),
        0 <= k < facts.imports.len(),
        followed(facts.imports[k].specifier),
        has_position(file_source, facts.imports[k]),
        specifier::resolved(file, facts.imports[k].specifier) == Some(target),
        leads_to(target, from),
    ensures
        ({
            let answer = move_file::move_file_answer(repository, arguments);
            let import = facts.imports[k];
            &&& import_settled(
                answer,
                file,
                file_source,
                import,
                file,
                if specifier::segments(import.specifier).last().contains('.') {
                    to
                } else {
                    specifier::bare(to)
                },
            )
            &&& answer.list("importers"@) matches Some(importers) && importers.contains(
                JsonView::Text(file),
            )
        }),
{
    reveal(move_file::move_file_answer);
    let import = facts.imports[k];
    let nodes = repository.graph.nodes@;
    let files = move_file::indexed(nodes);
    let start = RewritesView {
        rewrites: Seq::empty(),
        uncertain: Seq::empty(),
        importers: Seq::empty(),
    };
    let own = match parse::known_facts(from, source) {
        Some(found) => move_file::with_owns(start, source, from, to, found.imports),
        None => start,
    };
    let found = move_file::with_files(repository, own, from, to, files);
    fit::lemma_source_bound(repository.sources@, from);
    match parse::known_facts(from, source) {
        Some(known) => {
            lemma_owns_settled(start, source, from, to, known.imports);
        },
        None => {},
    }
    assert(order::ascending(own.importers));
    law_the_indexed_files_are_the_file_nodes(nodes);
    assert(nodes[node].label@ == file);
    assert(files.contains(file));
    let f = choose|f: int| 0 <= f < files.len() && files[f] == file;
    lemma_files_settled(repository, own, from, to, files);
    assert(file_settled(repository, found, from, to, files[f], k));
    lemma_move_answer(repository, from, to, found);
    lemma_repointed_leads_there(file, import.specifier, to);
    let after = move_file::repointed(file, import.specifier, to);
    lemma_answer_settles(
        repository,
        from,
        to,
        found,
        file,
        file_source,
        import,
        after,
        file,
        specifier::resolved(file, after)->0,
    );
    let i = choose|i: int| 0 <= i < found.importers.len() && found.importers[i] == file;
    assert(operations::texts(found.importers)[i] == JsonView::Text(file));
}

/// A repointed specifier leads to the new path.
proof fn lemma_repointed_leads_there(file: Seq<char>, written: Seq<char>, to: Seq<char>)
    requires
        specifier::normal(to),
    ensures
        specifier::resolved(file, move_file::repointed(file, written, to)) == Some(
            if specifier::segments(written).last().contains('.') {
                to
            } else {
                specifier::bare(to)
            },
        ),
{
    move_file::law_importers_reach_the_moved_file(file, written, to);
}

/// Whether writing one specifier over another in a file is what a move calls for: an import of the
/// file has the old one, and the new one leads where it has to. That is the same target from the
/// moved file's new path, or the moved file's new path from a file that led to the old one.
pub open spec fn called_for(
    repository: Repository,
    from: Seq<char>,
    to: Seq<char>,
    file: Seq<char>,
    before: Seq<char>,
    after: Seq<char>,
) -> bool {
    &&& followed(before)
    &&& imports_as(repository, file, before)
    &&& specifier::resolved(file, before) matches Some(target) && (if file == from {
        specifier::resolved(to, after) == Some(target)
    } else {
        leads_to(target, from) && (specifier::resolved(file, after) matches Some(reached)
            && leads_to(reached, to))
    })
}

/// Whether one of some imports has a specifier.
pub open spec fn has_specifier(imports: Seq<ImportView>, specifier: Seq<char>) -> bool {
    exists|k: int| 0 <= k < imports.len() && (#[trigger] imports[k]).specifier == specifier
}

/// Whether a file that can be read has an import with a specifier.
pub open spec fn imports_as(repository: Repository, file: Seq<char>, specifier: Seq<char>) -> bool {
    evidence::source_of(repository.sources@, file) matches Some(source) && parse::known_facts(
        file,
        source,
    ) matches Some(facts) && has_specifier(facts.imports, specifier)
}

/// Whether every rewrite is called for.
spec fn all_called_for(
    repository: Repository,
    from: Seq<char>,
    to: Seq<char>,
    rewrites: Seq<RewriteView>,
) -> bool {
    forall|i: int|
        0 <= i < rewrites.len() ==> called_for(
            repository,
            from,
            to,
            (#[trigger] rewrites[i]).file,
            rewrites[i].before,
            rewrites[i].after,
        )
}

/// One more rewrite that is called for keeps them so.
proof fn lemma_one_called_for(
    repository: Repository,
    from: Seq<char>,
    to: Seq<char>,
    state: RewritesView,
    file: Seq<char>,
    source: Seq<char>,
    import: ImportView,
    after: Seq<char>,
    reason: Seq<char>,
)
    requires
        all_called_for(repository, from, to, state.rewrites),
        called_for(repository, from, to, file, import.specifier, after),
    ensures
        all_called_for(
            repository,
            from,
            to,
            move_file::with_rewrite(state, file, source, import, after, reason).rewrites,
        ),
{
    let next = move_file::with_rewrite(state, file, source, import, after, reason).rewrites;
    assert forall|i: int| 0 <= i < next.len() implies called_for(
        repository,
        from,
        to,
        (#[trigger] next[i]).file,
        next[i].before,
        next[i].after,
    ) by {
        if i < state.rewrites.len() {
            assert(next[i] == state.rewrites[i]);
        }
    }
}

/// The rewrites of the moved file's imports are called for.
proof fn lemma_owns_called_for(
    repository: Repository,
    state: RewritesView,
    source: Seq<char>,
    from: Seq<char>,
    to: Seq<char>,
    facts: parse::FactsView,
    count: int,
)
    requires
        all_called_for(repository, from, to, state.rewrites),
        specifier::normal(from),
        evidence::source_of(repository.sources@, from) == Some(source),
        parse::known_facts(from, source) == Some(facts),
        0 <= count <= facts.imports.len(),
    ensures
        all_called_for(
            repository,
            from,
            to,
            move_file::with_owns(state, source, from, to, facts.imports.take(count)).rewrites,
        ),
    decreases count,
{
    let some = facts.imports.take(count);
    if count > 0 {
        assert(some.drop_last() =~= facts.imports.take(count - 1));
        lemma_owns_called_for(repository, state, source, from, to, facts, count - 1);
        let before = move_file::with_owns(state, source, from, to, some.drop_last());
        let import = some.last();
        assert(facts.imports[count - 1].specifier == import.specifier);
        assert(has_specifier(facts.imports, import.specifier));
        if followed(import.specifier) {
            match specifier::resolved(from, import.specifier) {
                Some(target) => {
                    specifier::law_rewrite_resolves(from, to, import.specifier, target);
                    lemma_one_called_for(
                        repository,
                        from,
                        to,
                        before,
                        from,
                        source,
                        import,
                        specifier::rewritten(to, import.specifier, target),
                        "the specifier could not be located inside its own import statement"@,
                    );
                },
                None => {},
            }
        }
    }
}

/// The rewrites of another file's imports are called for.
proof fn lemma_importers_called_for(
    repository: Repository,
    state: RewritesView,
    file: Seq<char>,
    source: Seq<char>,
    from: Seq<char>,
    to: Seq<char>,
    facts: parse::FactsView,
    count: int,
)
    requires
        all_called_for(repository, from, to, state.rewrites),
        specifier::normal(to),
        file != from,
        evidence::source_of(repository.sources@, file) == Some(source),
        parse::known_facts(file, source) == Some(facts),
        0 <= count <= facts.imports.len(),
    ensures
        all_called_for(
            repository,
            from,
            to,
            move_file::with_importers(
                state,
                file,
                source,
                from,
                to,
                facts.imports.take(count),
            ).rewrites,
        ),
    decreases count,
{
    let some = facts.imports.take(count);
    if count > 0 {
        assert(some.drop_last() =~= facts.imports.take(count - 1));
        lemma_importers_called_for(repository, state, file, source, from, to, facts, count - 1);
        let before = move_file::with_importers(state, file, source, from, to, some.drop_last());
        let import = some.last();
        assert(facts.imports[count - 1].specifier == import.specifier);
        assert(has_specifier(facts.imports, import.specifier));
        if followed(import.specifier) {
            match specifier::resolved(file, import.specifier) {
                Some(target) => {
                    if leads_to(target, from) {
                        lemma_repointed_leads_there(file, import.specifier, to);
                        lemma_one_called_for(
                            repository,
                            from,
                            to,
                            RewritesView {
                                importers: order::inserted(before.importers, file),
                                ..before
                            },
                            file,
                            source,
                            import,
                            move_file::repointed(file, import.specifier, to),
                            "the specifier could not be located inside its import statement"@,
                        );
                    }
                },
                None => {},
            }
        }
    }
}

/// The rewrites of files are called for.
proof fn lemma_files_called_for(
    repository: Repository,
    state: RewritesView,
    from: Seq<char>,
    to: Seq<char>,
    files: Seq<Seq<char>>,
)
    requires
        all_called_for(repository, from, to, state.rewrites),
        specifier::normal(to),
    ensures
        all_called_for(
            repository,
            from,
            to,
            move_file::with_files(repository, state, from, to, files).rewrites,
        ),
    decreases files.len(),
{
    if files.len() > 0 {
        let rest = files.drop_last();
        let file = files.last();
        lemma_files_called_for(repository, state, from, to, rest);
        let before = move_file::with_files(repository, state, from, to, rest);
        if file != from && move_file::imports_of(repository, file) is Some {
            let source = evidence::source_of(repository.sources@, file)->0;
            let facts = parse::known_facts(file, source)->0;
            lemma_importers_called_for(
                repository,
                before,
                file,
                source,
                from,
                to,
                facts,
                facts.imports.len() as int,
            );
            assert(facts.imports.take(facts.imports.len() as int) =~= facts.imports);
        }
    }
}

/// The edits of a plan of rewrites are those of the rewrites.
proof fn lemma_planned_from(
    repository: Repository,
    rewrites: Seq<RewriteView>,
    file: Seq<char>,
    edit: EditView,
)
    requires
        rename_plan::files_hold(
            move_file::rewrites_planned(repository, rewrites).files,
            file,
            edit,
        ),
    ensures
        exists|i: int|
            0 <= i < rewrites.len() && (#[trigger] rewrites[i]).file == file && edit
                == move_file::rewrite_edit(rewrites[i]),
    decreases rewrites.len(),
{
    if rewrites.len() > 0 {
        let rest = rewrites.drop_last();
        let before = move_file::rewrites_planned(repository, rest);
        let last = rewrites.last();
        match evidence::source_of(repository.sources@, last.file) {
            Some(source) => {
                plans::lemma_edit_alone(
                    before,
                    last.file,
                    plan::sha256_hex(source),
                    move_file::rewrite_edit(last),
                    file,
                    edit,
                );
            },
            None => {},
        }
        if rename_plan::files_hold(before.files, file, edit) {
            lemma_planned_from(repository, rest, file, edit);
            let i = choose|i: int|
                0 <= i < rest.len() && (#[trigger] rest[i]).file == file && edit
                    == move_file::rewrite_edit(rest[i]);
            assert(rewrites[i] == rest[i]);
        } else {
            assert(rewrites[rewrites.len() - 1].file == file);
        }
    }
}

/// A move changes nothing it need not: every edit of its plan writes one specifier over that of an
/// import, and leads where the move calls for.
pub proof fn law_a_move_touches_nothing_else(
    repository: Repository,
    arguments: JsonView,
    from: Seq<char>,
    to: Seq<char>,
    source: Seq<char>,
    file: Seq<char>,
    edit: EditView,
)
    requires
        asks_to_move(repository, arguments, from, to, source),
        specifier::normal(from),
        specifier::normal(to),
    ensures
        ({
            let answer = move_file::move_file_answer(repository, arguments);
            &&& answer.text("status"@) == Some("PLANNED"@)
            &&& answer.get("move"@) matches Some(moved) && moved.text("from"@) == Some(from)
                && moved.text("to"@) == Some(to)
            &&& plan_read(answer) matches Some(plan) ==> rename_plan::files_hold(
                plan.files,
                file,
                edit,
            ) ==> called_for(repository, from, to, file, edit.before, edit.after)
        }),
{
    reveal(move_file::move_file_answer);
    let answer = move_file::move_file_answer(repository, arguments);
    let start = RewritesView {
        rewrites: Seq::empty(),
        uncertain: Seq::empty(),
        importers: Seq::empty(),
    };
    let own = match parse::known_facts(from, source) {
        Some(found) => move_file::with_owns(start, source, from, to, found.imports),
        None => start,
    };
    match parse::known_facts(from, source) {
        Some(facts) => {
            lemma_owns_called_for(
                repository,
                start,
                source,
                from,
                to,
                facts,
                facts.imports.len() as int,
            );
            assert(facts.imports.take(facts.imports.len() as int) =~= facts.imports);
        },
        None => {},
    }
    let files = move_file::indexed(repository.graph.nodes@);
    let found = move_file::with_files(repository, own, from, to, files);
    lemma_files_called_for(repository, own, from, to, files);
    lemma_move_answer(repository, from, to, found);
    let built = move_file::rewrites_planned(repository, found.rewrites);
    if plan_read(answer) is Some && !built.is_empty() {
        move_file::law_the_plan_reads_back(repository, found.rewrites);
        let plan = plan_read(answer)->0;
        if rename_plan::files_hold(plan.files, file, edit) {
            plans::lemma_unfinished(built, file, edit);
            lemma_planned_from(repository, found.rewrites, file, edit);
        }
    } else if built.is_empty() {
        crate::envelope::lemma_empty_plan_is_refused(built);
    }
}

/// What stands in the way of a move is said: a file that is already there, or one that cannot be
/// read.
pub proof fn law_a_move_that_is_none_is_refused(
    repository: Repository,
    arguments: JsonView,
    from: Seq<char>,
    to: Seq<char>,
)
    requires
        arguments.text("from"@) == Some(from),
        arguments.text("to"@) == Some(to),
    ensures
        ({
            let answer = move_file::move_file_answer(repository, arguments);
            &&& from == to ==> answer.text("status"@) == Some("NO_CHANGE"@)
            &&& from != to && evidence::source_of(repository.sources@, from) is None
                ==> answer.text("status"@) == Some("SOURCE_UNAVAILABLE"@)
        }),
{
    broadcast use json::lemma_with_get;

    reveal(move_file::move_file_answer);
}

} // verus!
