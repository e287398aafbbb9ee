//! The plans of renames: that they hold every site, and that they fit the sources they were made
//! from.

use crate::coordinates;
use crate::envelope;
use crate::evidence;
use crate::fit;
use crate::graph::{Repository, SourceFile};
use crate::json::JsonView;
use crate::operations::apply::StepView;
use crate::operations::occurrences;
use crate::operations::references;
use crate::operations::rename_related;
use crate::operations::rename_symbol;
use crate::operations::rename_symbol::{PlacedView, RenameView, RenamedView, Site};
use crate::order;
use crate::parse;
use crate::plan;
use crate::plan::{BuilderView, EditView, FileView};
use crate::resolve;
use crate::text;
use crate::token::IssuedView;
use crate::words;
use vstd::prelude::*;
use vstd::string::*;

verus! {

/// Whether a site stands in a source over a name.
pub open spec fn site_stands(source: Seq<char>, site: Site, name: Seq<char>, after: Seq<char>) -> bool {
    fit::stands(source, rename_symbol::placed_edit(PlacedView { site, before: name, after }))
}

/// Whether the sites of a file stand in its source over a name, and the file carries that source's
/// hash.
pub open spec fn renamed_fits(
    sources: Seq<SourceFile>,
    file: RenamedView,
    name: Seq<char>,
    after: Seq<char>,
) -> bool {
    match evidence::source_of(sources, file.path) {
        Some(source) => file.hash == plan::sha256_hex(source) && forall|i: int|
            0 <= i < file.sites.len() ==> site_stands(source, #[trigger] file.sites[i], name, after),
        None => false,
    }
}

/// Whether every file of a rename fits its source.
pub open spec fn rename_fits(sources: Seq<SourceFile>, rename: RenameView) -> bool {
    forall|i: int|
        0 <= i < rename.files.len() ==> renamed_fits(
            sources,
            #[trigger] rename.files[i],
            rename.old_name,
            rename.new_name,
        )
}

/// A place that was accepted becomes a site that stands over the name.
proof fn lemma_site_stands(
    source: Seq<char>,
    path: Seq<char>,
    name: Seq<char>,
    after: Seq<char>,
    proven: Seq<u32>,
    place: (u32, u32, u32),
)
    requires
        text::bytes(source).len() < u32::MAX,
        name.len() > 0,
        rename_symbol::accepted_in(
            source,
            occurrences::identifier_places(source, path, name),
            name,
            proven,
        ).contains(place),
    ensures
        site_stands(source, rename_symbol::site_at(source, place), name, after),
{
    let places = occurrences::identifier_places(source, path, name);
    rename_symbol::law_a_site_needs_both_proofs(source, places, name, proven, place);
    let edit = rename_symbol::placed_edit(
        PlacedView { site: rename_symbol::site_at(source, place), before: name, after },
    );
    match places {
        Some(found) => {
            let language = parse::path_language(path)->0;
            let ranges = occurrences::identifiers(source, 0, language, name, 0);
            let i = choose|i: int| 0 <= i < found.len() && found[i] == place;
            occurrences::law_identifiers_read_as_the_name(source, language, name, i);
            occurrences::lemma_place_stands(source, ranges[i], edit);
        },
        None => {
            let at = place.0 - 1;
            let content = coordinates::without_return(coordinates::lines(source)[at]);
            coordinates::lemma_line_bytes(source, at);
            occurrences::law_words_are_found_where_they_stand(
                content,
                name,
                (place.1, place.2),
            );
            let start = choose|start: int|
                #[trigger] occurrences::stands_at(content, name, start) && (place.1, place.2)
                    == occurrences::columns_at(name, start);
            fit::lemma_columns_stand(source, edit, place.0, place.1, place.2);
        },
    }
}

/// The sites of a readable file fit it.
proof fn lemma_source_fits(
    sources: Seq<SourceFile>,
    rename: RenameView,
    path: Seq<char>,
    source: Seq<char>,
    proven: Seq<u32>,
)
    requires
        rename_fits(sources, rename),
        rename.old_name.len() > 0,
        evidence::source_of(sources, path) == Some(source),
    ensures
        rename_fits(sources, rename_symbol::with_source(rename, path, source, proven)),
{
    fit::lemma_source_bound(sources, path);
    let name = rename.old_name;
    let accepted = rename_symbol::accepted_in(
        source,
        occurrences::identifier_places(source, path, name),
        name,
        proven,
    );
    let next = rename_symbol::with_source(rename, path, source, proven);
    assert forall|i: int| 0 <= i < next.files.len() implies renamed_fits(
        sources,
        #[trigger] next.files[i],
        next.old_name,
        next.new_name,
    ) by {
        if i < rename.files.len() {
            assert(next.files[i] == rename.files[i]);
        } else {
            let sites = next.files[i].sites;
            assert forall|j: int| 0 <= j < sites.len() implies site_stands(
                source,
                #[trigger] sites[j],
                name,
                rename.new_name,
            ) by {
                assert(accepted.contains(accepted[j]));
                lemma_site_stands(source, path, name, rename.new_name, proven, accepted[j]);
            }
        }
    }
}

/// What is collected for a rename fits the sources.
proof fn lemma_collected_fits(
    repository: Repository,
    rename: RenameView,
    referencing: Seq<(Seq<char>, Seq<u32>)>,
    importing: Seq<Seq<char>>,
)
    requires
        rename_fits(repository.sources@, rename),
        rename.old_name.len() > 0,
    ensures
        rename_fits(
            repository.sources@,
            rename_symbol::collected(repository, rename, referencing, importing),
        ),
        rename_symbol::collected(repository, rename, referencing, importing).old_name
            == rename.old_name,
        rename_symbol::collected(repository, rename, referencing, importing).new_name
            == rename.new_name,
    decreases referencing.len(),
{
    if referencing.len() > 0 {
        let rest = referencing.drop_last();
        lemma_collected_fits(repository, rename, rest, importing);
        let before = rename_symbol::collected(repository, rename, rest, importing);
        let (path, lines) = referencing.last();
        match evidence::source_of(repository.sources@, path) {
            Some(source) => {
                let found = references::import_lines_of(
                    source,
                    before.old_name,
                    coordinates::lines(source).len() as int,
                );
                lemma_source_fits(
                    repository.sources@,
                    before,
                    path,
                    source,
                    if importing.contains(path) {
                        rename_symbol::numbers_inserted(lines, found)
                    } else {
                        lines
                    },
                );
            },
            None => {},
        }
    }
}

/// A rename that was found fits the sources.
pub proof fn lemma_found_fits(repository: Repository, symbol: Seq<char>, new_name: Seq<char>)
    ensures
        rename_symbol::found_sites(repository, symbol, new_name) matches Ok(rename) ==> rename_fits(
            repository.sources@,
            rename,
        ),
{
    let nodes = repository.graph.nodes@;
    match resolve::resolved(nodes, symbol) {
        Some(at) => {
            let old_name = words::plain_name(nodes[at].label@);
            match nodes[at].span {
                Some(span) => {
                    if words::identifier(old_name) {
                        lemma_collected_fits(
                            repository,
                            RenameView {
                                old_name,
                                new_name,
                                files: Seq::empty(),
                                uncertain: Seq::empty(),
                            },
                            rename_symbol::referencing_files(
                                repository,
                                nodes[at].id@,
                                span.file@,
                                span.start_line,
                            ),
                            references::importing(repository, span.file@),
                        );
                    }
                },
                None => {},
            }
        },
        None => {},
    }
}

/// Whether placed edits stand in a source.
spec fn placed_stand(source: Seq<char>, edits: Seq<PlacedView>) -> bool {
    forall|i: int| 0 <= i < edits.len() ==> fit::stands(source, rename_symbol::placed_edit(#[trigger] edits[i]))
}

/// Putting one more among edits that stand keeps them standing.
proof fn lemma_inserted_stand(source: Seq<char>, list: Seq<PlacedView>, item: PlacedView)
    requires
        placed_stand(source, list),
        fit::stands(source, rename_symbol::placed_edit(item)),
    ensures
        placed_stand(source, rename_symbol::placed_inserted(list, item)),
    decreases list.len(),
{
    let all = rename_symbol::placed_inserted(list, item);
    if list.len() > 0 && !rename_symbol::site_before(item.site, list[0].site) {
        let rest = list.drop_first();
        assert forall|i: int| 0 <= i < rest.len() implies fit::stands(
            source,
            rename_symbol::placed_edit(#[trigger] rest[i]),
        ) by {
            assert(rest[i] == list[i + 1]);
        }
        lemma_inserted_stand(source, rest, item);
        assert forall|i: int| 0 <= i < all.len() implies fit::stands(
            source,
            rename_symbol::placed_edit(#[trigger] all[i]),
        ) by {
            if i == 0 {
                assert(all[0] == list[0]);
            } else {
                assert(all[i] == rename_symbol::placed_inserted(rest, item)[i - 1]);
            }
        }
    } else {
        assert forall|i: int| 0 <= i < all.len() implies fit::stands(
            source,
            rename_symbol::placed_edit(#[trigger] all[i]),
        ) by {
            if i == 0 {
                assert(all[0] == item);
            } else {
                assert(all[i] == list[i - 1]);
            }
        }
    }
}

/// Putting more sites that stand among edits keeps them standing.
proof fn lemma_sites_stand(
    source: Seq<char>,
    list: Seq<PlacedView>,
    sites: Seq<Site>,
    before: Seq<char>,
    after: Seq<char>,
)
    requires
        placed_stand(source, list),
        forall|i: int|
            0 <= i < sites.len() ==> site_stands(source, #[trigger] sites[i], before, after),
    ensures
        placed_stand(source, rename_symbol::sites_inserted(list, sites, before, after)),
    decreases sites.len(),
{
    if sites.len() > 0 {
        let rest = sites.drop_last();
        assert forall|i: int| 0 <= i < rest.len() implies site_stands(
            source,
            #[trigger] rest[i],
            before,
            after,
        ) by {
            assert(rest[i] == sites[i]);
        }
        lemma_sites_stand(source, list, rest, before, after);
        assert(site_stands(source, sites[sites.len() - 1], before, after));
        lemma_inserted_stand(
            source,
            rename_symbol::sites_inserted(list, rest, before, after),
            PlacedView { site: sites.last(), before, after },
        );
    }
}

/// Whether every one of some renames fits the sources.
pub open spec fn renames_fit(sources: Seq<SourceFile>, renames: Seq<RenameView>) -> bool {
    forall|i: int| 0 <= i < renames.len() ==> rename_fits(sources, #[trigger] renames[i])
}

/// The edits that fitting renames make in a file stand in its source.
proof fn lemma_edits_stand(
    sources: Seq<SourceFile>,
    renames: Seq<RenameView>,
    path: Seq<char>,
    source: Seq<char>,
)
    requires
        renames_fit(sources, renames),
        evidence::source_of(sources, path) == Some(source),
    ensures
        placed_stand(source, rename_symbol::edits_for(renames, path)),
    decreases renames.len(),
{
    if renames.len() > 0 {
        let rest = renames.drop_last();
        assert forall|i: int| 0 <= i < rest.len() implies rename_fits(
            sources,
            #[trigger] rest[i],
        ) by {
            assert(rest[i] == renames[i]);
        }
        lemma_edits_stand(sources, rest, path, source);
        let rename = renames[renames.len() - 1];
        assert(rename_fits(sources, rename));
        match rename_symbol::renamed_from(rename.files, path, 0) {
            Some(at) => {
                lemma_renamed_at(rename.files, path, 0);
                assert(renamed_fits(
                    sources,
                    rename.files[at],
                    rename.old_name,
                    rename.new_name,
                ));
                lemma_sites_stand(
                    source,
                    rename_symbol::edits_for(rest, path),
                    rename.files[at].sites,
                    rename.old_name,
                    rename.new_name,
                );
            },
            None => {},
        }
    }
}

/// Where the sites of a path stand, that path is.
proof fn lemma_renamed_at(files: Seq<RenamedView>, path: Seq<char>, from: int)
    requires
        0 <= from,
    ensures
        rename_symbol::renamed_from(files, path, from) matches Some(at) ==> from <= at < files.len()
            && files[at].path == path,
    decreases files.len() - from,
{
    if from < files.len() && files[from].path != path {
        lemma_renamed_at(files, path, from + 1);
    }
}

/// A path that fitting renames touch has a source, and the hash they carry for it is its hash.
proof fn lemma_hash(
    sources: Seq<SourceFile>,
    renames: Seq<RenameView>,
    path: Seq<char>,
    from: int,
    at: int,
)
    requires
        renames_fit(sources, renames),
        0 <= from <= at < renames.len(),
        rename_symbol::renamed_from(renames[at].files, path, 0) is Some,
    ensures
        evidence::source_of(sources, path) matches Some(source) && rename_symbol::hash_for(
            renames,
            path,
            from,
        ) == plan::sha256_hex(source),
    decreases renames.len() - from,
{
    assert(rename_fits(sources, renames[from]));
    match rename_symbol::renamed_from(renames[from].files, path, 0) {
        Some(found) => {
            lemma_renamed_at(renames[from].files, path, 0);
            assert(renamed_fits(
                sources,
                renames[from].files[found],
                renames[from].old_name,
                renames[from].new_name,
            ));
        },
        None => {
            lemma_hash(sources, renames, path, from + 1, at);
        },
    }
}

/// Adding edits that stand to the open file keeps a plan fitting.
proof fn lemma_edits_fit(
    sources: Seq<SourceFile>,
    builder: BuilderView,
    source: Seq<char>,
    edits: Seq<PlacedView>,
)
    requires
        fit::fits(sources, builder),
        fit::open_on(sources, builder, source),
        placed_stand(source, edits),
    ensures
        fit::fits(sources, rename_symbol::edits_planned(builder, edits)),
        fit::open_on(sources, rename_symbol::edits_planned(builder, edits), source),
    decreases edits.len(),
{
    if edits.len() > 0 {
        let rest = edits.drop_last();
        assert forall|i: int| 0 <= i < rest.len() implies fit::stands(
            source,
            rename_symbol::placed_edit(#[trigger] rest[i]),
        ) by {
            assert(rest[i] == edits[i]);
        }
        lemma_edits_fit(sources, builder, source, rest);
        assert(fit::stands(source, rename_symbol::placed_edit(edits[edits.len() - 1])));
        fit::lemma_fits_edit(
            sources,
            rename_symbol::edits_planned(builder, rest),
            source,
            rename_symbol::placed_edit(edits.last()),
        );
    }
}

/// A plan of paths that fitting renames touch fits the sources.
proof fn lemma_paths_fit(
    sources: Seq<SourceFile>,
    operation: Seq<char>,
    renames: Seq<RenameView>,
    paths: Seq<Seq<char>>,
)
    requires
        renames_fit(sources, renames),
        forall|i: int| 0 <= i < paths.len() ==> touches(renames, #[trigger] paths[i]),
    ensures
        fit::fits(sources, rename_symbol::paths_planned(operation, renames, paths)),
    decreases paths.len(),
{
    if paths.len() == 0 {
        fit::lemma_fits_start(sources, operation);
    } else {
        let rest = paths.drop_last();
        assert forall|i: int| 0 <= i < rest.len() implies touches(renames, #[trigger] rest[i]) by {
            assert(rest[i] == paths[i]);
        }
        lemma_paths_fit(sources, operation, renames, rest);
        let path = paths[paths.len() - 1];
        assert(touches(renames, path));
        let at = choose|at: int|
            0 <= at < renames.len() && rename_symbol::renamed_from(
                (#[trigger] renames[at]).files,
                path,
                0,
            ) is Some;
        lemma_hash(sources, renames, path, 0, at);
        let source = evidence::source_of(sources, path)->0;
        let before = rename_symbol::paths_planned(operation, renames, rest);
        fit::lemma_fits_file(sources, before, path, source);
        lemma_edits_stand(sources, renames, path, source);
        lemma_edits_fit(
            sources,
            before.file(path, plan::sha256_hex(source)),
            source,
            rename_symbol::edits_for(renames, path),
        );
    }
}

/// Whether some rename touches a path.
spec fn touches(renames: Seq<RenameView>, path: Seq<char>) -> bool {
    exists|at: int|
        0 <= at < renames.len() && rename_symbol::renamed_from(
            (#[trigger] renames[at]).files,
            path,
            0,
        ) is Some
}

/// The paths that files add to touched ones are theirs.
proof fn lemma_touched_by(files: Seq<RenamedView>, start: Seq<Seq<char>>, path: Seq<char>)
    requires
        order::ascending(start),
        rename_symbol::touched_by(files, start).contains(path),
    ensures
        start.contains(path) || exists|i: int|
            0 <= i < files.len() && (#[trigger] files[i]).path == path,
    decreases files.len(),
{
    if files.len() > 0 {
        let rest = files.drop_last();
        rename_symbol::lemma_touched_by(rest, start);
        order::lemma_inserted(rename_symbol::touched_by(rest, start), files.last().path);
        if path == files.last().path {
            assert(files[files.len() - 1].path == path);
        } else {
            lemma_touched_by(rest, start, path);
            if !start.contains(path) {
                let i = choose|i: int| 0 <= i < rest.len() && (#[trigger] rest[i]).path == path;
                assert(files[i].path == path);
            }
        }
    }
}

/// A touched path is one that some rename touches.
proof fn lemma_touched(renames: Seq<RenameView>, path: Seq<char>)
    requires
        rename_symbol::touched(renames).contains(path),
    ensures
        touches(renames, path),
    decreases renames.len(),
{
    if renames.len() > 0 {
        let rest = renames.drop_last();
        let last = renames[renames.len() - 1];
        rename_symbol::lemma_touched_ascending(rest);
        lemma_touched_by(last.files, rename_symbol::touched(rest), path);
        if rename_symbol::touched(rest).contains(path) {
            lemma_touched(rest, path);
            let at = choose|at: int|
                0 <= at < rest.len() && rename_symbol::renamed_from(
                    (#[trigger] rest[at]).files,
                    path,
                    0,
                ) is Some;
            assert(renames[at] == rest[at]);
        } else {
            let i = choose|i: int|
                0 <= i < last.files.len() && (#[trigger] last.files[i]).path == path;
            rename_symbol::lemma_renamed_from(last.files, 0, i);
        }
    }
}

/// The plan of renames that were found is sound and fits the sources.
proof fn lemma_renames_fit(
    repository: Repository,
    operation: Seq<char>,
    requests: Seq<(Seq<char>, Seq<char>)>,
    renames: Seq<RenameView>,
)
    requires
        renames.len() == requests.len(),
        forall|i: int|
            0 <= i < renames.len() ==> rename_symbol::found_sites(
                repository,
                (#[trigger] requests[i]).0,
                requests[i].1,
            ) == Ok::<RenameView, JsonView>(renames[i]),
    ensures
        fit::fits(repository.sources@, rename_symbol::renames_plan(operation, renames)),
        envelope::sound(rename_symbol::renames_plan(operation, renames)),
{
    let sources = repository.sources@;
    let paths = rename_symbol::touched(renames);
    assert forall|i: int| 0 <= i < renames.len() implies rename_fits(
        sources,
        #[trigger] renames[i],
    ) by {
        lemma_found_fits(repository, requests[i].0, requests[i].1);
    }
    assert forall|i: int| 0 <= i < paths.len() implies touches(renames, #[trigger] paths[i]) by {
        assert(paths.contains(paths[i]));
        lemma_touched(renames, paths[i]);
    }
    lemma_paths_fit(sources, operation, renames, paths);
    rename_symbol::lemma_paths_sound(operation, renames, paths);
}

/// Whether the plan that a step is about fits the sources.
pub open spec fn step_fits(sources: Seq<SourceFile>, step: StepView) -> bool {
    match step {
        StepView::DryRun { plan, preview: _ } => fit::files_fit(sources, plan.files),
        StepView::Write { plan, purpose: _ } => fit::files_fit(sources, plan.files),
        _ => true,
    }
}

/// Every edit of a rename's plan stands in the source it was made from: the name it replaces is
/// the text between its positions, and its file carries that source's hash.
pub proof fn law_a_rename_fits_the_sources(
    issued: Map<Seq<char>, IssuedView>,
    repository: Repository,
    arguments: JsonView,
    write_allowed: bool,
    now: u64,
)
    ensures
        step_fits(
            repository.sources@,
            rename_symbol::rename_symbol_step(
                issued,
                repository,
                arguments,
                write_allowed,
                now,
            ).0,
        ),
{
    reveal(rename_symbol::rename_symbol_step);
    match (arguments.text("symbol"@), arguments.text("new_name"@)) {
        (Some(symbol), Some(new_name)) => match rename_symbol::found_sites(
            repository,
            symbol,
            new_name,
        ) {
            Ok(rename) => {
                let renames = Seq::empty().push(rename);
                lemma_renames_fit(
                    repository,
                    "rename_symbol"@,
                    Seq::empty().push((symbol, new_name)),
                    renames,
                );
                fit::lemma_read_fits(
                    repository.sources@,
                    rename_symbol::renames_plan("rename_symbol"@, renames),
                );
            },
            Err(_) => {},
        },
        _ => {},
    }
}

/// Every edit of a batch's plan stands in the source it was made from: the name it replaces is the
/// text between its positions, and its file carries that source's hash.
pub proof fn law_a_batch_fits_the_sources(
    issued: Map<Seq<char>, IssuedView>,
    repository: Repository,
    arguments: JsonView,
    write_allowed: bool,
    now: u64,
)
    ensures
        step_fits(
            repository.sources@,
            rename_related::rename_related_step(
                issued,
                repository,
                arguments,
                write_allowed,
                now,
            ).0,
        ),
{
    reveal(rename_related::rename_related_step);
    match rename_related::requested(arguments) {
        Ok(requests) => {
            rename_related::law_a_batch_is_all_or_nothing(repository, requests);
            match rename_related::renames_from(repository, requests, 0, Seq::empty()) {
                Ok(renames) => {
                    lemma_renames_fit(
                        repository,
                        "rename_related_symbols"@,
                        requests,
                        renames,
                    );
                    fit::lemma_read_fits(
                        repository.sources@,
                        rename_symbol::renames_plan("rename_related_symbols"@, renames),
                    );
                },
                Err(_) => {},
            }
        },
        Err(_) => {},
    }
}

/// Putting one more among edits leaves it and every other there.
proof fn lemma_inserted_holds(list: Seq<PlacedView>, item: PlacedView, one: PlacedView)
    requires
        list.contains(one) || one == item,
    ensures
        rename_symbol::placed_inserted(list, item).contains(one),
    decreases list.len(),
{
    let all = rename_symbol::placed_inserted(list, item);
    if list.len() == 0 {
        assert(all[0] == item);
    } else if rename_symbol::site_before(item.site, list[0].site) {
        assert(all[0] == item);
        if list.contains(one) {
            let i = choose|i: int| 0 <= i < list.len() && list[i] == one;
            assert(all[i + 1] == one);
        }
    } else {
        let rest = list.drop_first();
        assert(all[0] == list[0]);
        if one != list[0] {
            if list.contains(one) {
                let i = choose|i: int| 0 <= i < list.len() && list[i] == one;
                assert(rest[i - 1] == one);
            }
            lemma_inserted_holds(rest, item, one);
            let tail = rename_symbol::placed_inserted(rest, item);
            let i = choose|i: int| 0 <= i < tail.len() && tail[i] == one;
            assert(all[i + 1] == one);
        }
    }
}

/// Putting more sites among edits leaves them and every other there.
proof fn lemma_sites_hold(
    list: Seq<PlacedView>,
    sites: Seq<Site>,
    before: Seq<char>,
    after: Seq<char>,
    one: PlacedView,
)
    requires
        list.contains(one) || (one.before == before && one.after == after && sites.contains(
            one.site,
        )),
    ensures
        rename_symbol::sites_inserted(list, sites, before, after).contains(one),
    decreases sites.len(),
{
    if sites.len() > 0 {
        let rest = sites.drop_last();
        if !list.contains(one) {
            let i = choose|i: int| 0 <= i < sites.len() && sites[i] == one.site;
            if i < rest.len() {
                assert(rest[i] == one.site);
            }
        }
        if list.contains(one) || rest.contains(one.site) {
            lemma_sites_hold(list, rest, before, after, one);
        }
        lemma_inserted_holds(
            rename_symbol::sites_inserted(list, rest, before, after),
            PlacedView { site: sites.last(), before, after },
            one,
        );
    }
}

/// Every site of a rename is among the edits of its file.
proof fn lemma_edits_hold(renames: Seq<RenameView>, at: int, path: Seq<char>, site: Site)
    requires
        0 <= at < renames.len(),
        rename_symbol::renamed_from(renames[at].files, path, 0) matches Some(file)
            && renames[at].files[file].sites.contains(site),
    ensures
        rename_symbol::edits_for(renames, path).contains(
            PlacedView { site, before: renames[at].old_name, after: renames[at].new_name },
        ),
    decreases renames.len(),
{
    let one = PlacedView { site, before: renames[at].old_name, after: renames[at].new_name };
    let rest = renames.drop_last();
    let last = renames.last();
    if at < rest.len() {
        assert(rest[at] == renames[at]);
        lemma_edits_hold(rest, at, path, site);
    }
    match rename_symbol::renamed_from(last.files, path, 0) {
        Some(file) => {
            lemma_sites_hold(
                rename_symbol::edits_for(rest, path),
                last.files[file].sites,
                last.old_name,
                last.new_name,
                one,
            );
        },
        None => {},
    }
}

/// Whether files hold an edit of a path.
pub open spec fn files_hold(files: Seq<FileView>, path: Seq<char>, edit: EditView) -> bool {
    exists|i: int|
        0 <= i < files.len() && (#[trigger] files[i]).path == path && files[i].edits.contains(edit)
}

/// Opening a file drops no edit.
proof fn lemma_file_holds(
    builder: BuilderView,
    opened: Seq<char>,
    sha256: Seq<char>,
    path: Seq<char>,
    edit: EditView,
)
    requires
        files_hold(builder.files, path, edit),
    ensures
        files_hold(builder.file(opened, sha256).files, path, edit),
{
    let i = choose|i: int|
        0 <= i < builder.files.len() && (#[trigger] builder.files[i]).path == path
            && builder.files[i].edits.contains(edit);
    assert(builder.file(opened, sha256).files[i] == builder.files[i]);
}

/// Adding edits to the open file drops no edit, and leaves each of them there.
proof fn lemma_planned_holds(
    builder: BuilderView,
    edits: Seq<PlacedView>,
    path: Seq<char>,
    edit: EditView,
)
    requires
        builder.current matches Some(at) && 0 <= at < builder.files.len(),
        files_hold(builder.files, path, edit) || (builder.files[builder.current->0].path == path
            && exists|k: int|
            0 <= k < edits.len() && rename_symbol::placed_edit(#[trigger] edits[k]) == edit),
    ensures
        files_hold(rename_symbol::edits_planned(builder, edits).files, path, edit),
    decreases edits.len(),
{
    if edits.len() > 0 {
        let rest = edits.drop_last();
        let at = builder.current->0;
        let before = rename_symbol::edits_planned(builder, rest);
        let after = rename_symbol::edits_planned(builder, edits);
        lemma_planned_shape(builder, rest);
        if files_hold(builder.files, path, edit) || exists|k: int|
            0 <= k < rest.len() && rename_symbol::placed_edit(#[trigger] rest[k]) == edit {
            lemma_planned_holds(builder, rest, path, edit);
            let i = choose|i: int|
                0 <= i < before.files.len() && (#[trigger] before.files[i]).path == path
                    && before.files[i].edits.contains(edit);
            let j = choose|j: int|
                0 <= j < before.files[i].edits.len() && before.files[i].edits[j] == edit;
            assert(after.files[i].edits[j] == edit);
            assert(after.files[i].path == path);
        } else {
            let k = choose|k: int|
                0 <= k < edits.len() && rename_symbol::placed_edit(#[trigger] edits[k]) == edit;
            if k < rest.len() {
                assert(rename_symbol::placed_edit(rest[k]) == edit);
            }
            assert(after.files[at].edits[before.files[at].edits.len() as int] == edit);
            assert(after.files[at].path == path);
        }
    }
}

/// Adding edits to the open file leaves it open, and every path as it was.
proof fn lemma_planned_shape(builder: BuilderView, edits: Seq<PlacedView>)
    requires
        builder.current matches Some(at) && 0 <= at < builder.files.len(),
    ensures
        rename_symbol::edits_planned(builder, edits).current == builder.current,
        rename_symbol::edits_planned(builder, edits).files.len() == builder.files.len(),
        forall|i: int|
            0 <= i < builder.files.len() ==> (#[trigger] rename_symbol::edits_planned(
                builder,
                edits,
            ).files[i]).path == builder.files[i].path,
    decreases edits.len(),
{
    if edits.len() > 0 {
        lemma_planned_shape(builder, edits.drop_last());
    }
}

/// A plan of paths holds every edit of each.
proof fn lemma_paths_hold(
    operation: Seq<char>,
    renames: Seq<RenameView>,
    paths: Seq<Seq<char>>,
    path: Seq<char>,
    one: PlacedView,
)
    requires
        paths.contains(path),
        rename_symbol::edits_for(renames, path).contains(one),
    ensures
        files_hold(
            rename_symbol::paths_planned(operation, renames, paths).files,
            path,
            rename_symbol::placed_edit(one),
        ),
    decreases paths.len(),
{
    let rest = paths.drop_last();
    let before = rename_symbol::paths_planned(operation, renames, rest);
    let sha256 = rename_symbol::hash_for(renames, paths.last(), 0);
    let opened = before.file(paths.last(), sha256);
    let edits = rename_symbol::edits_for(renames, paths.last());
    let edit = rename_symbol::placed_edit(one);
    plan::lemma_path_at(before.files, paths.last());
    if paths.last() == path {
        let k = choose|k: int| 0 <= k < edits.len() && edits[k] == one;
        assert(rename_symbol::placed_edit(edits[k]) == edit);
    } else {
        let i = choose|i: int| 0 <= i < paths.len() && paths[i] == path;
        assert(rest[i] == path);
        lemma_paths_hold(operation, renames, rest, path, one);
        lemma_file_holds(before, paths.last(), sha256, path, edit);
    }
    lemma_planned_holds(opened, edits, path, edit);
}

/// Every site of every rename is planned, with its own rename's names, whatever the other renames
/// are: chains and swaps take effect at once, not one after the other.
pub proof fn law_every_site_is_planned(
    operation: Seq<char>,
    renames: Seq<RenameView>,
    at: int,
    file: int,
    site: int,
)
    requires
        0 <= at < renames.len(),
        0 <= file < renames[at].files.len(),
        0 <= site < renames[at].files[file].sites.len(),
        rename_symbol::renamed_from(renames[at].files, renames[at].files[file].path, 0) == Some(
            file,
        ),
    ensures
        files_hold(
            rename_symbol::renames_plan(operation, renames).plan().files,
            renames[at].files[file].path,
            rename_symbol::placed_edit(
                PlacedView {
                    site: renames[at].files[file].sites[site],
                    before: renames[at].old_name,
                    after: renames[at].new_name,
                },
            ),
        ),
{
    let path = renames[at].files[file].path;
    let one = PlacedView {
        site: renames[at].files[file].sites[site],
        before: renames[at].old_name,
        after: renames[at].new_name,
    };
    let edit = rename_symbol::placed_edit(one);
    let built = rename_symbol::renames_plan(operation, renames);
    rename_symbol::lemma_touched(renames, at, file);
    lemma_edits_hold(renames, at, path, one.site);
    lemma_paths_hold(operation, renames, rename_symbol::touched(renames), path, one);
    let i = choose|i: int|
        0 <= i < built.files.len() && (#[trigger] built.files[i]).path == path
            && built.files[i].edits.contains(edit);
    plan::lemma_with_edits_kept(built.files, i);
    let kept = built.plan().files;
    let k = choose|k: int| 0 <= k < kept.len() && kept[k] == built.files[i];
    assert(kept[k].path == path && kept[k].edits.contains(edit));
}

} // verus!
