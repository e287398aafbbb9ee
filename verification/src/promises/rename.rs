//! What a rename promises: the declaration, every use that the graph proves and every import of the
//! name change, and nothing else does.

use crate::coordinates;
use crate::declaration;
use crate::evidence;
use crate::graph;
use crate::graph::{Edge, Node, Repository};
use crate::coordinates::PositionError;
use crate::fit;
use crate::json;
use crate::json::JsonView;
use crate::operations::apply::{PreviewView, StepView};
use crate::operations::occurrences;
use crate::operations::references;
use crate::operations::rename_plan;
use crate::operations::rename_related;
use crate::operations::rename_symbol;
use crate::operations::rename_symbol::{PlacedView, RenameView, RenamedView, Site};
use crate::order;
use crate::parse;
use crate::plan;
use crate::plan::{BuilderView, EditView, FileView, PlanView};
use crate::resolve;
use crate::text;
use crate::token::IssuedView;
use crate::words;
use vstd::prelude::*;

verus! {

/// Whether an edge is a use of a symbol: a call or a reference of it.
pub open spec fn use_of(edge: Edge, id: Seq<char>) -> bool {
    (edge.kind@ == "calls"@ || edge.kind@ == "references"@) && edge.target@ == id
}

/// Whether a node is the first with an id.
pub open spec fn first_with(nodes: Seq<Node>, id: Seq<char>, at: int) -> bool {
    &&& 0 <= at < nodes.len()
    &&& nodes[at].id@ == id
    &&& forall|k: int| 0 <= k < at ==> (#[trigger] nodes[k]).id@ != id
}

/// Whether a line of a file belongs to the declaration of the symbol with an id.
pub open spec fn within_declaration(
    repository: Repository,
    id: Seq<char>,
    at: int,
    path: Seq<char>,
    line: u32,
) -> bool {
    let nodes = repository.graph.nodes@;
    &&& first_with(nodes, id, at)
    &&& nodes[at].span matches Some(span) && span.file@ == path && (evidence::source_of(
        repository.sources@,
        path,
    ) matches Some(source) && {
        let (from, to) = declaration::body_of(
            source,
            declaration::located(
                source,
                path,
                words::plain_name(nodes[at].label@),
                span.start_line,
            ),
            span.start_line,
        );
        from <= line <= to
    })
}

/// Whether an edge proves that a line of a file uses a symbol: it carries that line, or it carries
/// none and the line belongs to the declaration of the symbol that uses it.
pub open spec fn proves(
    repository: Repository,
    edge: Edge,
    id: Seq<char>,
    path: Seq<char>,
    line: u32,
) -> bool {
    use_of(edge, id) && match edge.span {
        Some(span) => span.file@ == path && span.start_line == line,
        None => exists|at: int| within_declaration(repository, edge.source@, at, path, line),
    }
}

/// Whether one of some edges proves that a line of a file uses a symbol.
pub open spec fn proven(
    repository: Repository,
    edges: Seq<Edge>,
    id: Seq<char>,
    path: Seq<char>,
    line: u32,
) -> bool {
    exists|e: int| 0 <= e < edges.len() && proves(repository, #[trigger] edges[e], id, path, line)
}

/// The first node with an id is the one that is found.
pub proof fn lemma_first_with(nodes: Seq<Node>, id: Seq<char>, at: int)
    ensures
        first_with(nodes, id, at) <==> graph::id_from(nodes, id, 0) == Some(at),
{
    lemma_first_from(nodes, id, 0);
}

/// What is found from a place on is the first from there.
proof fn lemma_first_from(nodes: Seq<Node>, id: Seq<char>, from: int)
    requires
        0 <= from,
    ensures
        graph::id_from(nodes, id, from) matches Some(at) ==> from <= at < nodes.len()
            && nodes[at].id@ == id && forall|k: int| from <= k < at ==> (#[trigger] nodes[k]).id@ != id,
        graph::id_from(nodes, id, from) is None ==> forall|k: int|
            from <= k < nodes.len() ==> (#[trigger] nodes[k]).id@ != id,
    decreases nodes.len() - from,
{
    if from < nodes.len() && nodes[from].id@ != id {
        lemma_first_from(nodes, id, from + 1);
    }
}

/// The lines that are collected for a symbol are exactly those that some edge proves: not one line
/// for a file, not one edge for a line, but every line of every use.
pub proof fn law_every_proven_line_is_collected(
    repository: Repository,
    edges: Seq<Edge>,
    id: Seq<char>,
)
    ensures
        order::by_path(references::referenced(repository, edges, id)),
        forall|path: Seq<char>, line: u32|
            #[trigger] order::has_line(
                references::referenced(repository, edges, id),
                path,
                line,
            ) <==> proven(repository, edges, id, path, line),
    decreases edges.len(),
{
    let all = references::referenced(repository, edges, id);
    if edges.len() > 0 {
        let rest = edges.drop_last();
        let edge = edges.last();
        let files = references::referenced(repository, rest, id);
        law_every_proven_line_is_collected(repository, rest, id);
        lemma_with_use(repository, files, edge, id);
        assert forall|path: Seq<char>, line: u32| #[trigger] order::has_line(all, path, line)
            <==> proven(repository, edges, id, path, line) by {
            assert(order::has_line(files, path, line) <==> proven(
                repository,
                rest,
                id,
                path,
                line,
            ));
            if proven(repository, rest, id, path, line) {
                let e = choose|e: int|
                    0 <= e < rest.len() && proves(
                        repository,
                        #[trigger] rest[e],
                        id,
                        path,
                        line,
                    );
                assert(edges[e] == rest[e]);
            }
            if proves(repository, edge, id, path, line) {
                assert(edges[edges.len() - 1] == edge);
            }
            if proven(repository, edges, id, path, line) {
                let e = choose|e: int|
                    0 <= e < edges.len() && proves(
                        repository,
                        #[trigger] edges[e],
                        id,
                        path,
                        line,
                    );
                if e < rest.len() {
                    assert(rest[e] == edges[e]);
                }
            }
        }
    }
}

/// One more use adds the lines that it proves.
proof fn lemma_with_use(
    repository: Repository,
    files: Seq<(Seq<char>, Seq<u32>)>,
    edge: Edge,
    id: Seq<char>,
)
    requires
        order::by_path(files),
    ensures
        order::by_path(references::with_use(repository, files, edge, id)),
        forall|path: Seq<char>, line: u32|
            #[trigger] order::has_line(
                references::with_use(repository, files, edge, id),
                path,
                line,
            ) <==> order::has_line(files, path, line) || proves(repository, edge, id, path, line),
{
    let nodes = repository.graph.nodes@;
    let next = references::with_use(repository, files, edge, id);
    if use_of(edge, id) {
        match edge.span {
            Some(span) => {
                order::lemma_adding(files, span.file@, span.start_line);
            },
            None => {
                let found = graph::id_from(nodes, edge.source@, 0);
                assert forall|path: Seq<char>, line: u32, at: int|
                    within_declaration(repository, edge.source@, at, path, line) implies found
                    == Some(at) by {
                    lemma_first_with(nodes, edge.source@, at);
                }
                if found is Some {
                    let at = found->0;
                    lemma_first_with(nodes, edge.source@, at);
                    if nodes[at].span is Some {
                        let span = nodes[at].span->0;
                        let source = evidence::source_of(repository.sources@, span.file@);
                        if source is Some {
                            let (from, to) = declaration::body_of(
                                source->0,
                                declaration::located(
                                    source->0,
                                    span.file@,
                                    words::plain_name(nodes[at].label@),
                                    span.start_line,
                                ),
                                span.start_line,
                            );
                            order::lemma_opening(files, span.file@);
                            let opened = order::file_opened(files, span.file@);
                            assert(order::has_file(opened, span.file@));
                            order::lemma_adding_run(opened, span.file@, from, to);
                            assert forall|path: Seq<char>, line: u32|
                                #[trigger] order::has_line(next, path, line) <==> order::has_line(
                                    files,
                                    path,
                                    line,
                                ) || proves(repository, edge, id, path, line) by {
                                assert(order::has_line(opened, path, line) <==> order::has_line(
                                    files,
                                    path,
                                    line,
                                ));
                                if path == span.file@ && from <= line <= to {
                                    assert(within_declaration(
                                        repository,
                                        edge.source@,
                                        at,
                                        path,
                                        line,
                                    ));
                                }
                            }
                        }
                    }
                }
            },
        }
    }
}

/// Whether a node is the first that stands for a file.
pub open spec fn stands_for_file(nodes: Seq<Node>, path: Seq<char>, at: int) -> bool {
    &&& 0 <= at < nodes.len()
    &&& nodes[at].kind@ == "file"@
    &&& nodes[at].label@ == path
    &&& forall|k: int|
        0 <= k < at ==> !((#[trigger] nodes[k]).kind@ == "file"@ && nodes[k].label@ == path)
}

/// Whether an edge proves that one file imports another.
pub open spec fn proves_import(
    nodes: Seq<Node>,
    edge: Edge,
    path: Seq<char>,
    importer: Seq<char>,
    to: int,
    from: int,
) -> bool {
    &&& edge.kind@ == "imports"@
    &&& stands_for_file(nodes, path, to)
    &&& edge.target@ == nodes[to].id@
    &&& first_with(nodes, edge.source@, from)
    &&& nodes[from].label@ == importer
}

/// Whether the graph proves that one file imports another.
pub open spec fn imports_proven(
    nodes: Seq<Node>,
    edges: Seq<Edge>,
    path: Seq<char>,
    importer: Seq<char>,
) -> bool {
    exists|e: int, to: int, from: int|
        0 <= e < edges.len() && #[trigger] proves_import(
            nodes,
            edges[e],
            path,
            importer,
            to,
            from,
        )
}

/// The node that is found for a file is the first that stands for it.
proof fn lemma_file_node(nodes: Seq<Node>, path: Seq<char>, at: int)
    ensures
        stands_for_file(nodes, path, at) <==> references::file_node_from(nodes, path, 0) == Some(
            at,
        ),
{
    lemma_file_node_from(nodes, path, 0);
}

/// What is found from a place on is the first from there.
proof fn lemma_file_node_from(nodes: Seq<Node>, path: Seq<char>, from: int)
    requires
        0 <= from,
    ensures
        references::file_node_from(nodes, path, from) matches Some(at) ==> from <= at < nodes.len()
            && nodes[at].kind@ == "file"@ && nodes[at].label@ == path && forall|k: int|
            from <= k < at ==> !((#[trigger] nodes[k]).kind@ == "file"@ && nodes[k].label@ == path),
        references::file_node_from(nodes, path, from) is None ==> forall|k: int|
            from <= k < nodes.len() ==> !((#[trigger] nodes[k]).kind@ == "file"@ && nodes[k].label@
                == path),
    decreases nodes.len() - from,
{
    if from < nodes.len() && !(nodes[from].kind@ == "file"@ && nodes[from].label@ == path) {
        lemma_file_node_from(nodes, path, from + 1);
    }
}

/// The files that are looked through for imports of a file are exactly those with an import of it
/// in the graph.
pub proof fn law_every_importer_is_found(repository: Repository, path: Seq<char>)
    ensures
        order::ascending(references::importing(repository, path)),
        forall|file: Seq<char>|
            #[trigger] references::importing(repository, path).contains(file) <==> imports_proven(
                repository.graph.nodes@,
                repository.graph.edges@,
                path,
                file,
            ),
{
    let nodes = repository.graph.nodes@;
    let edges = repository.graph.edges@;
    let found = references::file_node_from(nodes, path, 0);
    if found is Some {
        lemma_file_node(nodes, path, found->0);
        lemma_importers(nodes, edges, path, found->0);
    } else {
        assert forall|file: Seq<char>, e: int, to: int, from: int|
            #[trigger] proves_import(nodes, edges[e], path, file, to, from) implies false by {
            lemma_file_node(nodes, path, to);
        }
    }
}

/// The importers among the first edges are those that one of them proves.
proof fn lemma_importers(nodes: Seq<Node>, edges: Seq<Edge>, path: Seq<char>, at: int)
    requires
        stands_for_file(nodes, path, at),
    ensures
        order::ascending(references::importers(nodes, edges, nodes[at].id@)),
        forall|file: Seq<char>|
            #[trigger] references::importers(nodes, edges, nodes[at].id@).contains(file)
                <==> imports_proven(nodes, edges, path, file),
    decreases edges.len(),
{
    let id = nodes[at].id@;
    let all = references::importers(nodes, edges, id);
    if edges.len() > 0 {
        let rest = edges.drop_last();
        let edge = edges.last();
        let before = references::importers(nodes, rest, id);
        lemma_importers(nodes, rest, path, at);
        let source = graph::id_from(nodes, edge.source@, 0);
        if source is Some {
            lemma_first_with(nodes, edge.source@, source->0);
            order::lemma_inserted(before, nodes[source->0].label@);
        }
        assert forall|file: Seq<char>| #[trigger] all.contains(file) <==> imports_proven(
            nodes,
            edges,
            path,
            file,
        ) by {
            if imports_proven(nodes, rest, path, file) {
                let (e, to, from) = choose|e: int, to: int, from: int|
                    0 <= e < rest.len() && #[trigger] proves_import(
                        nodes,
                        rest[e],
                        path,
                        file,
                        to,
                        from,
                    );
                assert(proves_import(nodes, edges[e], path, file, to, from));
            }
            if all.contains(file) && !before.contains(file) {
                assert(proves_import(
                    nodes,
                    edges[edges.len() - 1],
                    path,
                    file,
                    at,
                    source->0,
                ));
            }
            if imports_proven(nodes, edges, path, file) {
                let (e, to, from) = choose|e: int, to: int, from: int|
                    0 <= e < edges.len() && #[trigger] proves_import(
                        nodes,
                        edges[e],
                        path,
                        file,
                        to,
                        from,
                    );
                lemma_file_node(nodes, path, to);
                lemma_file_node(nodes, path, at);
                if e < rest.len() {
                    assert(proves_import(nodes, rest[e], path, file, to, from));
                    assert(before.contains(file));
                } else {
                    lemma_first_with(nodes, edge.source@, from);
                }
            }
        }
    }
}

/// Opening more files changes no line, and each of them is there.
proof fn lemma_files_opened(files: Seq<(Seq<char>, Seq<u32>)>, more: Seq<Seq<char>>)
    requires
        order::by_path(files),
    ensures
        order::by_path(rename_symbol::files_opened(files, more)),
        forall|path: Seq<char>|
            #[trigger] order::has_file(rename_symbol::files_opened(files, more), path)
                <==> order::has_file(files, path) || more.contains(path),
        forall|path: Seq<char>, line: u32|
            #[trigger] order::has_line(rename_symbol::files_opened(files, more), path, line)
                <==> order::has_line(files, path, line),
    decreases more.len(),
{
    if more.len() > 0 {
        let rest = more.drop_last();
        let before = rename_symbol::files_opened(files, rest);
        let all = rename_symbol::files_opened(files, more);
        lemma_files_opened(files, rest);
        order::lemma_opening(before, more.last());
        assert forall|path: Seq<char>| #[trigger] order::has_file(all, path) <==> order::has_file(
            files,
            path,
        ) || more.contains(path) by {
            assert(order::has_file(before, path) <==> order::has_file(files, path)
                || rest.contains(path));
            assert(more[more.len() - 1] == more.last());
            if rest.contains(path) {
                let i = choose|i: int| 0 <= i < rest.len() && rest[i] == path;
                assert(more[i] == path);
            }
            if more.contains(path) && path != more.last() {
                let i = choose|i: int| 0 <= i < more.len() && more[i] == path;
                assert(rest[i] == path);
            }
        }
        assert forall|path: Seq<char>, line: u32| #[trigger] order::has_line(all, path, line)
            <==> order::has_line(files, path, line) by {
            assert(order::has_line(before, path, line) <==> order::has_line(files, path, line));
        }
    } else {
        assert forall|path: Seq<char>| !more.contains(path) by {}
    }
}

/// Whether a line of a file is one where a symbol is declared or used, as far as the graph proves.
pub open spec fn attributed(repository: Repository, node: Node, path: Seq<char>, line: u32) -> bool {
    ||| node.span matches Some(span) && span.file@ == path && span.start_line == line
    ||| proven(repository, repository.graph.edges@, node.id@, path, line)
}

/// Whether a line of a source begins or continues an import statement, in a file that the graph
/// proves to import the file that declares a symbol, and the name stands there as a word.
pub open spec fn imported_on(
    repository: Repository,
    node: Node,
    path: Seq<char>,
    source: Seq<char>,
    line: u32,
) -> bool {
    let all = coordinates::lines(source);
    &&& node.span matches Some(span) && imports_proven(
        repository.graph.nodes@,
        repository.graph.edges@,
        span.file@,
        path,
    )
    &&& 1 <= line <= all.len()
    &&& references::in_statement(all, line - 1)
    &&& exists|start: int|
        #[trigger] occurrences::stands_at(
            coordinates::without_return(all[line - 1]),
            words::plain_name(node.label@),
            start,
        )
}

/// The lines that a rename looks at in each file are those attributed to its symbol; every importer
/// of the declaring file is looked at too.
pub proof fn law_the_lines_looked_at_are_the_attributed_ones(
    repository: Repository,
    at: int,
)
    requires
        0 <= at < repository.graph.nodes@.len(),
        repository.graph.nodes@[at].span is Some,
    ensures
        ({
            let node = repository.graph.nodes@[at];
            let span = node.span->0;
            let files = rename_symbol::referencing_files(
                repository,
                node.id@,
                span.file@,
                span.start_line,
            );
            &&& order::by_path(files)
            &&& forall|path: Seq<char>, line: u32|
                #[trigger] order::has_line(files, path, line) <==> attributed(
                    repository,
                    node,
                    path,
                    line,
                )
            &&& forall|path: Seq<char>|
                imports_proven(
                    repository.graph.nodes@,
                    repository.graph.edges@,
                    span.file@,
                    path,
                ) ==> #[trigger] order::has_file(files, path)
        }),
{
    let node = repository.graph.nodes@[at];
    let span = node.span->0;
    let edges = repository.graph.edges@;
    let used = references::referenced(repository, edges, node.id@);
    let declared = order::line_added(used, span.file@, span.start_line);
    let importing = references::importing(repository, span.file@);
    let files = rename_symbol::files_opened(declared, importing);
    law_every_proven_line_is_collected(repository, edges, node.id@);
    order::lemma_adding(used, span.file@, span.start_line);
    lemma_files_opened(declared, importing);
    law_every_importer_is_found(repository, span.file@);
    assert forall|path: Seq<char>, line: u32| #[trigger] order::has_line(files, path, line)
        <==> attributed(repository, node, path, line) by {
        assert(order::has_line(declared, path, line) <==> order::has_line(used, path, line) || (
        path == span.file@ && line == span.start_line));
        assert(order::has_line(used, path, line) <==> proven(
            repository,
            edges,
            node.id@,
            path,
            line,
        ));
    }
    assert forall|path: Seq<char>|
        imports_proven(repository.graph.nodes@, edges, span.file@, path) implies #[trigger] order::has_file(
        files,
        path,
    ) by {
        assert(importing.contains(path));
    }
}

/// The lines that import a name are exactly those of import statements on which it stands.
pub proof fn law_import_lines_are_those_that_name(source: Seq<char>, name: Seq<char>, count: int)
    requires
        0 <= count <= coordinates::lines(source).len() <= u32::MAX,
    ensures
        forall|line: u32|
            #[trigger] references::import_lines_of(source, name, count).contains(line) <==> 1 <= line
                <= count && references::in_statement(coordinates::lines(source), line - 1)
                && occurrences::on_line(source, line, name).len() > 0,
    decreases count,
{
    let all = references::import_lines_of(source, name, count);
    if count > 0 {
        let before = references::import_lines_of(source, name, count - 1);
        law_import_lines_are_those_that_name(source, name, count - 1);
        assert forall|line: u32| #[trigger] all.contains(line) <==> 1 <= line <= count
            && references::in_statement(coordinates::lines(source), line - 1)
            && occurrences::on_line(source, line, name).len() > 0 by {
            if before.contains(line) {
                let i = choose|i: int| 0 <= i < before.len() && before[i] == line;
                assert(all[i] == line);
            }
            if all.contains(line) {
                let i = choose|i: int| 0 <= i < all.len() && all[i] == line;
                if i < before.len() {
                    assert(before[i] == line);
                    assert(before.contains(line));
                }
            }
            if line == count && all.len() > before.len() {
                assert(all[before.len() as int] == line);
            }
        }
    }
}

/// Putting more numbers among some adds those alone.
proof fn lemma_numbers_inserted(list: Seq<u32>, more: Seq<u32>)
    ensures
        forall|x: u32|
            #[trigger] rename_symbol::numbers_inserted(list, more).contains(x) <==> list.contains(x)
                || more.contains(x),
    decreases more.len(),
{
    if more.len() > 0 {
        let rest = more.drop_last();
        let before = rename_symbol::numbers_inserted(list, rest);
        lemma_numbers_inserted(list, rest);
        order::lemma_number_inserted(before, more.last());
        assert forall|x: u32|
            #[trigger] rename_symbol::numbers_inserted(list, more).contains(x) <==> list.contains(x)
                || more.contains(x) by {
            assert(before.contains(x) <==> list.contains(x) || rest.contains(x));
            assert(more[more.len() - 1] == more.last());
            if rest.contains(x) {
                let i = choose|i: int| 0 <= i < rest.len() && rest[i] == x;
                assert(more[i] == x);
            }
            if more.contains(x) && x != more.last() {
                let i = choose|i: int| 0 <= i < more.len() && more[i] == x;
                assert(rest[i] == x);
            }
        }
    }
}

/// The lines of one file that a rename takes as proven.
spec fn proven_in(
    source: Seq<char>,
    name: Seq<char>,
    path: Seq<char>,
    lines: Seq<u32>,
    importing: Seq<Seq<char>>,
) -> Seq<u32> {
    if importing.contains(path) {
        rename_symbol::numbers_inserted(
            lines,
            references::import_lines_of(source, name, coordinates::lines(source).len() as int),
        )
    } else {
        lines
    }
}

/// The places of one file that a rename takes.
spec fn accepted_at(
    source: Seq<char>,
    name: Seq<char>,
    path: Seq<char>,
    lines: Seq<u32>,
    importing: Seq<Seq<char>>,
) -> Seq<(u32, u32, u32)> {
    rename_symbol::accepted_in(
        source,
        occurrences::identifier_places(source, path, name),
        name,
        proven_in(source, name, path, lines, importing),
    )
}

/// Whether the sites of a file are the places that were taken in one of the files looked at.
spec fn comes_from(
    repository: Repository,
    name: Seq<char>,
    referencing: Seq<(Seq<char>, Seq<u32>)>,
    importing: Seq<Seq<char>>,
    file: RenamedView,
    i: int,
) -> bool {
    &&& 0 <= i < referencing.len()
    &&& referencing[i].0 == file.path
    &&& evidence::source_of(repository.sources@, file.path) matches Some(source) && file.sites
        == rename_symbol::sites_at(
        source,
        accepted_at(source, name, file.path, referencing[i].1, importing),
    )
}

/// Whether the sites of a file are the places that were taken in some file looked at.
spec fn sourced(
    repository: Repository,
    name: Seq<char>,
    referencing: Seq<(Seq<char>, Seq<u32>)>,
    importing: Seq<Seq<char>>,
    file: RenamedView,
) -> bool {
    exists|i: int| comes_from(repository, name, referencing, importing, file, i)
}

/// What is collected comes from the files that were looked at.
proof fn lemma_collected_from(
    repository: Repository,
    rename: RenameView,
    referencing: Seq<(Seq<char>, Seq<u32>)>,
    importing: Seq<Seq<char>>,
)
    requires
        rename.files.len() == 0,
    ensures
        ({
            let out = rename_symbol::collected(repository, rename, referencing, importing);
            &&& out.old_name == rename.old_name
            &&& out.new_name == rename.new_name
            &&& forall|f: int|
                0 <= f < out.files.len() ==> sourced(
                    repository,
                    rename.old_name,
                    referencing,
                    importing,
                    #[trigger] out.files[f],
                )
        }),
    decreases referencing.len(),
{
    let out = rename_symbol::collected(repository, rename, referencing, importing);
    if referencing.len() > 0 {
        let rest = referencing.drop_last();
        let before = rename_symbol::collected(repository, rename, rest, importing);
        lemma_collected_from(repository, rename, rest, importing);
        assert forall|f: int| 0 <= f < out.files.len() implies sourced(
            repository,
            rename.old_name,
            referencing,
            importing,
            #[trigger] out.files[f],
        ) by {
            if f < before.files.len() {
                assert(out.files[f] == before.files[f]);
                assert(sourced(repository, rename.old_name, rest, importing, before.files[f]));
                let i = choose|i: int|
                    comes_from(
                        repository,
                        rename.old_name,
                        rest,
                        importing,
                        before.files[f],
                        i,
                    );
                assert(rest[i] == referencing[i]);
                assert(comes_from(
                    repository,
                    rename.old_name,
                    referencing,
                    importing,
                    out.files[f],
                    i,
                ));
            } else {
                assert(comes_from(
                    repository,
                    rename.old_name,
                    referencing,
                    importing,
                    out.files[f],
                    referencing.len() - 1,
                ));
            }
        }
    }
}

/// What is collected holds the places and the reports of every file that was looked at.
proof fn lemma_collected_holds(
    repository: Repository,
    rename: RenameView,
    referencing: Seq<(Seq<char>, Seq<u32>)>,
    importing: Seq<Seq<char>>,
    i: int,
    source: Seq<char>,
) -> (f: int)
    requires
        rename.files.len() == 0,
        order::by_path(referencing),
        0 <= i < referencing.len(),
        evidence::source_of(repository.sources@, referencing[i].0) == Some(source),
    ensures
        ({
            let out = rename_symbol::collected(repository, rename, referencing, importing);
            let (path, lines) = referencing[i];
            let accepted = accepted_at(source, rename.old_name, path, lines, importing);
            &&& accepted.len() > 0 ==> 0 <= f < out.files.len() && out.files[f].path == path
                && out.files[f].sites == rename_symbol::sites_at(source, accepted)
            &&& forall|value: JsonView|
                #[trigger] rename_symbol::reported(
                    path,
                    source,
                    rename.old_name,
                    accepted,
                    coordinates::lines(source).len() as int,
                ).contains(value) ==> out.uncertain.contains(value)
        }),
    decreases referencing.len(),
{
    let out = rename_symbol::collected(repository, rename, referencing, importing);
    let rest = referencing.drop_last();
    let before = rename_symbol::collected(repository, rename, rest, importing);
    let (path, lines) = referencing[i];
    let accepted = accepted_at(source, rename.old_name, path, lines, importing);
    let reports = rename_symbol::reported(
        path,
        source,
        rename.old_name,
        accepted,
        coordinates::lines(source).len() as int,
    );
    lemma_collected_from(repository, rename, rest, importing);
    if i == referencing.len() - 1 {
        assert forall|value: JsonView| #[trigger] reports.contains(value) implies out.uncertain.contains(
            value,
        ) by {
            let k = choose|k: int| 0 <= k < reports.len() && reports[k] == value;
            assert(out.uncertain[before.uncertain.len() + k] == value);
        }
        before.files.len() as int
    } else {
        assert forall|a: int, b: int| 0 <= a < b < rest.len() implies order::before(
            (#[trigger] rest[a]).0,
            (#[trigger] rest[b]).0,
        ) by {
            assert(rest[a] == referencing[a] && rest[b] == referencing[b]);
        }
        assert(rest[i] == referencing[i]);
        let f = lemma_collected_holds(repository, rename, rest, importing, i, source);
        if accepted.len() > 0 {
            assert(out.files[f] == before.files[f]);
        }
        assert forall|value: JsonView| #[trigger] reports.contains(value) implies out.uncertain.contains(
            value,
        ) by {
            let k = choose|k: int| 0 <= k < before.uncertain.len() && before.uncertain[k] == value;
            assert(out.uncertain[k] == value);
        }
        f
    }
}

/// No two files of what is collected have the same path.
proof fn lemma_collected_apart(
    repository: Repository,
    rename: RenameView,
    referencing: Seq<(Seq<char>, Seq<u32>)>,
    importing: Seq<Seq<char>>,
)
    requires
        rename.files.len() == 0,
        order::by_path(referencing),
    ensures
        ({
            let out = rename_symbol::collected(repository, rename, referencing, importing);
            forall|f: int, g: int|
                0 <= f < g < out.files.len() ==> (#[trigger] out.files[f]).path != (
                #[trigger] out.files[g]).path
        }),
    decreases referencing.len(),
{
    let out = rename_symbol::collected(repository, rename, referencing, importing);
    if referencing.len() > 0 {
        let rest = referencing.drop_last();
        let before = rename_symbol::collected(repository, rename, rest, importing);
        assert forall|a: int, b: int| 0 <= a < b < rest.len() implies order::before(
            (#[trigger] rest[a]).0,
            (#[trigger] rest[b]).0,
        ) by {
            assert(rest[a] == referencing[a] && rest[b] == referencing[b]);
        }
        lemma_collected_apart(repository, rename, rest, importing);
        lemma_collected_from(repository, rename, rest, importing);
        assert forall|f: int, g: int| 0 <= f < g < out.files.len() implies (
        #[trigger] out.files[f]).path != (#[trigger] out.files[g]).path by {
            assert(out.files[f] == before.files[f]);
            if g < before.files.len() {
                assert(out.files[g] == before.files[g]);
            } else {
                assert(sourced(repository, rename.old_name, rest, importing, before.files[f]));
                let i = choose|i: int|
                    comes_from(
                        repository,
                        rename.old_name,
                        rest,
                        importing,
                        before.files[f],
                        i,
                    );
                assert(rest[i] == referencing[i]);
                let last = referencing.len() - 1;
                assert(order::before(referencing[i].0, referencing[last].0));
                order::lemma_before(referencing[i].0, referencing[last].0);
            }
        }
    }
}

/// The only file with a path is the one that is found.
proof fn lemma_renamed_from(files: Seq<RenamedView>, path: Seq<char>, from: int, at: int)
    requires
        0 <= from <= at < files.len(),
        files[at].path == path,
        forall|f: int, g: int|
            0 <= f < g < files.len() ==> (#[trigger] files[f]).path != (#[trigger] files[g]).path,
    ensures
        rename_symbol::renamed_from(files, path, from) == Some(at),
    decreases at - from,
{
    if from < at {
        assert(files[from].path != files[at].path);
        lemma_renamed_from(files, path, from + 1, at);
    }
}

/// Whether a byte range of a source is an identifier with a name: a token of its language that
/// reads as it, or a word of its own where the language is unknown.
pub open spec fn identified(
    source: Seq<char>,
    path: Seq<char>,
    name: Seq<char>,
    line: u32,
    from: int,
    to: int,
) -> bool {
    match parse::path_language(path) {
        Some(language) => exists|k: int|
            0 <= k < parse::tokens_of(source, language).len() && (#[trigger] parse::tokens_of(
                source,
                language,
            )[k]).kind is Identifier && parse::token_text(
                source,
                parse::tokens_of(source, language)[k],
            ) == name && parse::tokens_of(source, language)[k].start == from && parse::tokens_of(
                source,
                language,
            )[k].end == to,
        None => {
            let all = coordinates::lines(source);
            &&& 1 <= line <= all.len()
            &&& occurrences::stands_at(
                coordinates::without_return(all[line - 1]),
                name,
                from - coordinates::line_start(all, line - 1),
            )
            &&& to == from + text::bytes(name).len()
        },
    }
}

/// Every identifier token that reads as a name is among the identifiers found.
proof fn lemma_tokens_found(
    t: Seq<char>,
    base: int,
    language: weavatrix_parse::Language,
    name: Seq<char>,
    depth: int,
    tokens: Seq<parse::Token>,
    count: int,
    k: int,
)
    requires
        0 <= depth <= occurrences::MAX_DEPTH,
        0 <= k < count <= tokens.len(),
        tokens[k].kind is Identifier,
        parse::token_text(t, tokens[k]) == name,
    ensures
        occurrences::token_identifiers(t, base, language, name, depth, tokens, count).contains(
            (base + tokens[k].start, base + tokens[k].end),
        ),
    decreases count,
{
    let range = (base + tokens[k].start, base + tokens[k].end);
    let all = occurrences::token_identifiers(t, base, language, name, depth, tokens, count);
    let before = occurrences::token_identifiers(
        t,
        base,
        language,
        name,
        depth,
        tokens,
        count - 1,
    );
    if k == count - 1 {
        assert(all[before.len() as int] == range);
    } else {
        lemma_tokens_found(t, base, language, name, depth, tokens, count - 1, k);
        let i = choose|i: int| 0 <= i < before.len() && before[i] == range;
        assert(all[i] == range);
    }
}

/// Whether bytes without a brace lead to one that closes.
pub open spec fn flat(b: Seq<u8>, from: int, close: int) -> bool {
    &&& 0 <= from <= close < b.len()
    &&& b[close] == 0x7d
    &&& forall|i: int| from <= i < close ==> #[trigger] b[i] != 0x7b && b[i] != 0x7d
}

/// Whether a `${` before an offset is closed before it.
pub open spec fn closed_before(b: Seq<u8>, from: int, open: int) -> bool {
    exists|close: int| close < open && #[trigger] flat(b, from, close)
}

/// Whether a `${...}` without braces of its own is a section of a template without backslashes, in
/// which each `${` before it is closed before it too.
pub open spec fn is_section(b: Seq<u8>, open: int, close: int) -> bool {
    &&& 0 <= open
    &&& open + 2 <= close < b.len()
    &&& b[open] == 0x24 && b[open + 1] == 0x7b
    &&& flat(b, open + 2, close)
    &&& forall|i: int| 0 <= i <= close ==> #[trigger] b[i] != 0x5c
    &&& forall|i: int|
        0 <= i < open && #[trigger] b[i] == 0x24 && b[i + 1] == 0x7b ==> closed_before(
            b,
            i + 2,
            open,
        )
}

/// Whether a byte range of a source is an identifier with a name inside a `${...}` of a
/// template: a token of what stands between its braces that reads as the name.
pub open spec fn interpolated(
    source: Seq<char>,
    path: Seq<char>,
    name: Seq<char>,
    from: int,
    to: int,
) -> bool {
    parse::path_language(path) matches Some(language) && exists|
        k: int,
        open: int,
        close: int,
        inner: int,
    | #[trigger]
        in_section(source, parse::tokens_of(source, language), language, name, k, open, close, inner, from, to)
}

/// Whether a byte range is that of one token in one section of one template.
pub open spec fn in_section(
    source: Seq<char>,
    tokens: Seq<parse::Token>,
    language: weavatrix_parse::Language,
    name: Seq<char>,
    k: int,
    open: int,
    close: int,
    inner: int,
    from: int,
    to: int,
) -> bool {
    &&& 0 <= k < tokens.len()
    &&& ({
        let t = parse::token_text(source, tokens[k]);
        let parts = parse::tokens_of(text::slice(t, open + 2, close), language);
        &&& tokens[k].kind is Interpolation || (tokens[k].kind is String && text::begins(t, "`"@))
        &&& is_section(text::bytes(t), open, close)
        &&& text::sliceable(t, open + 2, close)
        &&& 0 <= inner < parts.len()
        &&& parts[inner].kind is Identifier
        &&& parse::token_text(text::slice(t, open + 2, close), parts[inner]) == name
        &&& from == tokens[k].start + open + 2 + parts[inner].start
        &&& to == tokens[k].start + open + 2 + parts[inner].end
    })
}

/// What was found stays found.
proof fn lemma_sections_kept(b: Seq<u8>, at: int, found: Seq<(int, int)>, range: (int, int))
    requires
        found.contains(range),
    ensures
        occurrences::template_sections_from(b, at, found).contains(range),
    decreases b.len() + 1 - at,
{
    if 0 <= at && at + 1 < b.len() {
        if b[at] == 92 {
            lemma_sections_kept(b, at + 2, found, range);
        } else if b[at] == 36 && b[at + 1] == 123 && occurrences::template_close(b, at + 2, 1) is Some {
            let close = occurrences::template_close(b, at + 2, 1)->0;
            if at < close <= b.len() {
                let more = found.push((at + 2, close - 1));
                let i = choose|i: int| 0 <= i < found.len() && found[i] == range;
                assert(more[i] == range);
                lemma_sections_kept(b, close, more, range);
            }
        } else {
            lemma_sections_kept(b, at + 1, found, range);
        }
    }
}

/// A section without braces of its own closes at the first one.
proof fn lemma_section_closes(b: Seq<u8>, at: int, close: int)
    requires
        flat(b, at, close),
        forall|i: int| at <= i < close ==> #[trigger] b[i] != 0x5c,
    ensures
        occurrences::template_close(b, at, 1) == Some(close + 1),
    decreases close - at,
{
    if at < close {
        assert(b[at] != 0x5c);
        assert(b[at] != 0x7b && b[at] != 0x7d);
        assert(flat(b, at + 1, close));
        lemma_section_closes(b, at + 1, close);
    } else {
        assert(occurrences::template_close(b, at + 1, 0) == Some(at + 1));
    }
}

/// A section of a template is found.
proof fn lemma_section_found(
    b: Seq<u8>,
    at: int,
    open: int,
    close: int,
    found: Seq<(int, int)>,
)
    requires
        is_section(b, open, close),
        0 <= at <= open,
    ensures
        occurrences::template_sections_from(b, at, found).contains((open + 2, close)),
    decreases open - at,
{
    assert(b[at] != 0x5c);
    if at < open && !(b[at] == 0x24 && b[at + 1] == 0x7b) {
        lemma_section_found(b, at + 1, open, close, found);
    } else if at < open {
        assert(closed_before(b, at + 2, open));
        let end = choose|end: int| end < open && #[trigger] flat(b, at + 2, end);
        lemma_section_closes(b, at + 2, end);
        lemma_section_found(b, end + 1, open, close, found.push((at + 2, end)));
    } else {
        lemma_section_closes(b, open + 2, close);
        let more = found.push((open + 2, close));
        assert(more[found.len() as int] == (open + 2, close));
        lemma_sections_kept(b, close + 1, more, (open + 2, close));
    }
}

/// What one section holds is among what all of them hold.
proof fn lemma_section_holds(
    t: Seq<char>,
    base: int,
    language: weavatrix_parse::Language,
    name: Seq<char>,
    sections: Seq<(int, int)>,
    count: int,
    at: int,
    range: (int, int),
)
    requires
        0 <= at < count <= sections.len(),
        text::sliceable(t, sections[at].0, sections[at].1),
        occurrences::identifiers(
            text::slice(t, sections[at].0, sections[at].1),
            base + sections[at].0,
            language,
            name,
            1,
        ).contains(range),
    ensures
        occurrences::section_identifiers(t, base, language, name, 0, sections, count).contains(
            range,
        ),
    decreases count,
{
    let before = occurrences::section_identifiers(
        t,
        base,
        language,
        name,
        0,
        sections,
        count - 1,
    );
    let all = occurrences::section_identifiers(t, base, language, name, 0, sections, count);
    if at == count - 1 {
        let own = occurrences::identifiers(
            text::slice(t, sections[at].0, sections[at].1),
            base + sections[at].0,
            language,
            name,
            1,
        );
        let i = choose|i: int| 0 <= i < own.len() && own[i] == range;
        assert(all[before.len() + i] == range);
    } else {
        lemma_section_holds(t, base, language, name, sections, count - 1, at, range);
        let i = choose|i: int| 0 <= i < before.len() && before[i] == range;
        assert(all[i] == range);
    }
}

/// What one template holds is among what all tokens hold.
proof fn lemma_template_holds(
    source: Seq<char>,
    language: weavatrix_parse::Language,
    name: Seq<char>,
    tokens: Seq<parse::Token>,
    count: int,
    k: int,
    range: (int, int),
)
    requires
        0 <= k < count <= tokens.len(),
        tokens[k].kind is String || tokens[k].kind is Interpolation,
        ({
            let sections = occurrences::code_sections(source, tokens, k, language);
            occurrences::section_identifiers(
                parse::token_text(source, tokens[k]),
                tokens[k].start as int,
                language,
                name,
                0,
                sections,
                sections.len() as int,
            ).contains(range)
        }),
    ensures
        occurrences::token_identifiers(source, 0, language, name, 0, tokens, count).contains(range),
    decreases count,
{
    let before = occurrences::token_identifiers(source, 0, language, name, 0, tokens, count - 1);
    let all = occurrences::token_identifiers(source, 0, language, name, 0, tokens, count);
    if k == count - 1 {
        let sections = occurrences::code_sections(source, tokens, k, language);
        let own = occurrences::section_identifiers(
            parse::token_text(source, tokens[k]),
            tokens[k].start as int,
            language,
            name,
            0,
            sections,
            sections.len() as int,
        );
        let i = choose|i: int| 0 <= i < own.len() && own[i] == range;
        assert(all[before.len() + i] == range);
    } else {
        lemma_template_holds(source, language, name, tokens, count - 1, k, range);
        let i = choose|i: int| 0 <= i < before.len() && before[i] == range;
        assert(all[i] == range);
    }
}

/// Every identifier in a section of a template is among the identifiers found.
proof fn lemma_interpolated_found(
    source: Seq<char>,
    path: Seq<char>,
    language: weavatrix_parse::Language,
    name: Seq<char>,
    from: int,
    to: int,
)
    requires
        parse::path_language(path) == Some(language),
        interpolated(source, path, name, from, to),
    ensures
        occurrences::identifiers(source, 0, language, name, 0).contains((from, to)),
{
    let tokens = parse::tokens_of(source, language);
    let (k, open, close, inner) = choose|k: int, open: int, close: int, inner: int| #[trigger]
        in_section(source, tokens, language, name, k, open, close, inner, from, to);
    let t = parse::token_text(source, tokens[k]);
    let part = text::slice(t, open + 2, close);
    let parts = parse::tokens_of(part, language);
    let base = tokens[k].start + open + 2;
    lemma_section_found(text::bytes(t), 0, open, close, Seq::empty());
    let sections = occurrences::code_sections(source, tokens, k, language);
    let at = choose|at: int| 0 <= at < sections.len() && sections[at] == (open + 2, close);
    lemma_tokens_found(part, base, language, name, 1, parts, parts.len() as int, inner);
    lemma_section_holds(
        t,
        tokens[k].start as int,
        language,
        name,
        sections,
        sections.len() as int,
        at,
        (from, to),
    );
    lemma_template_holds(source, language, name, tokens, tokens.len() as int, k, (from, to));
}

/// An identifier whose ends have positions on a line is a place on it.
proof fn lemma_identified_place(
    source: Seq<char>,
    path: Seq<char>,
    name: Seq<char>,
    line: u32,
    from: int,
    to: int,
    first: u32,
    past: u32,
) -> (place: (u32, u32, u32))
    requires
        text::bytes(source).len() < u32::MAX,
        identified(source, path, name, line, from, to) || interpolated(source, path, name, from, to),
        fit::names(source, line, first, from),
        fit::names(source, line, past, to),
    ensures
        place.0 == line,
        match occurrences::identifier_places(source, path, name) {
            Some(places) => places.contains(place),
            None => occurrences::on_line(source, line, name).contains((place.1, place.2)),
        },
        coordinates::converted(source, line, place.1) == Ok::<u32, PositionError>(first),
        coordinates::converted(source, line, place.2) == Ok::<u32, PositionError>(past),
{
    let a = choose|a: u32| fit::named_by(source, line, first, from, a);
    let b = choose|b: u32| fit::named_by(source, line, past, to, b);
    coordinates::law_an_offset_has_one_position(source, line, a);
    coordinates::law_an_offset_has_one_position(source, line, b);
    coordinates::lemma_line_bytes(source, line - 1);
    let place = (line, a, b);
    match parse::path_language(path) {
        Some(language) => {
            let tokens = parse::tokens_of(source, language);
            let ranges = occurrences::identifiers(source, 0, language, name, 0);
            if interpolated(source, path, name, from, to) {
                lemma_interpolated_found(source, path, language, name, from, to);
            } else {
                let k = choose|k: int|
                    0 <= k < tokens.len() && (#[trigger] tokens[k]).kind is Identifier
                        && parse::token_text(source, tokens[k]) == name && tokens[k].start == from
                        && tokens[k].end == to;
                lemma_tokens_found(source, 0, language, name, 0, tokens, tokens.len() as int, k);
            }
            let i = choose|i: int| 0 <= i < ranges.len() && ranges[i] == (from, to);
            let head = text::bytes(source).subrange(0, from);
            coordinates::lemma_newlines(head);
            assert(occurrences::place_of(source, (from, to)) == place);
            assert(occurrences::places_of(source, ranges)[i] == place);
        },
        None => {
            let all = coordinates::lines(source);
            let content = coordinates::without_return(all[line - 1]);
            let start = from - coordinates::line_start(all, line - 1);
            occurrences::law_words_are_found_where_they_stand(content, name, (a, b));
            assert(occurrences::stands_at(content, name, start));
            assert((a, b) == occurrences::columns_at(name, start));
        },
    }
    place
}

/// The edit that writes a new name over an old one.
pub open spec fn renaming(line: u32, first: u32, past: u32, old_name: Seq<char>, new_name: Seq<char>) -> EditView {
    EditView {
        start_line: line,
        start_char: first,
        end_line: line,
        end_char: past,
        before: old_name,
        after: new_name,
        provenance: "RESOLVED"@,
    }
}

/// Files with a site have edits.
proof fn lemma_some_edit(files: Seq<RenamedView>, f: int)
    requires
        0 <= f < files.len(),
        files[f].sites.len() > 0,
    ensures
        rename_symbol::edits_in(files) > 0,
    decreases files.len(),
{
    if f < files.len() - 1 {
        assert(files.drop_last()[f] == files[f]);
        lemma_some_edit(files.drop_last(), f);
    }
}

/// Whether a symbol may be given a name: both are identifiers, and they differ.
pub open spec fn renameable(node: Node, new_name: Seq<char>) -> bool {
    &&& words::identifier(new_name)
    &&& words::identifier(words::plain_name(node.label@))
    &&& words::plain_name(node.label@) != new_name
    &&& node.span is Some
}

/// Every identifier on a line that is attributed to a symbol, or that imports its name, is among
/// the sites of its rename.
proof fn lemma_site_found(
    repository: Repository,
    symbol: Seq<char>,
    new_name: Seq<char>,
    at: int,
    path: Seq<char>,
    source: Seq<char>,
    line: u32,
    from: int,
    to: int,
    first: u32,
    past: u32,
) -> (found: (int, int))
    requires
        resolve::resolved(repository.graph.nodes@, symbol) == Some(at),
        renameable(repository.graph.nodes@[at], new_name),
        evidence::source_of(repository.sources@, path) == Some(source),
        attributed(repository, repository.graph.nodes@[at], path, line) || imported_on(
            repository,
            repository.graph.nodes@[at],
            path,
            source,
            line,
        ),
        identified(
            source,
            path,
            words::plain_name(repository.graph.nodes@[at].label@),
            line,
            from,
            to,
        ) || interpolated(
            source,
            path,
            words::plain_name(repository.graph.nodes@[at].label@),
            from,
            to,
        ),
        fit::names(source, line, first, from),
        fit::names(source, line, past, to),
    ensures
        rename_symbol::found_sites(repository, symbol, new_name) is Ok,
        ({
            let rename = rename_symbol::found_sites(repository, symbol, new_name)->Ok_0;
            let (f, s) = found;
            &&& rename.old_name == words::plain_name(repository.graph.nodes@[at].label@)
            &&& rename.new_name == new_name
            &&& 0 <= f < rename.files.len()
            &&& rename.files[f].path == path
            &&& rename_symbol::renamed_from(rename.files, path, 0) == Some(f)
            &&& 0 <= s < rename.files[f].sites.len()
            &&& rename.files[f].sites[s] == (Site { line, start: first, end: past })
        }),
{
    let nodes = repository.graph.nodes@;
    let node = nodes[at];
    let name = words::plain_name(node.label@);
    resolve::law_resolution_is_the_only_match(nodes, symbol);
    let span = node.span->0;
    let files = rename_symbol::referencing_files(
        repository,
        node.id@,
        span.file@,
        span.start_line,
    );
    let importing = references::importing(repository, span.file@);
    let start = RenameView {
        old_name: name,
        new_name,
        files: Seq::empty(),
        uncertain: Seq::empty(),
    };
    let rename = rename_symbol::collected(repository, start, files, importing);
    law_the_lines_looked_at_are_the_attributed_ones(repository, at);
    law_every_importer_is_found(repository, span.file@);
    fit::lemma_source_bound(repository.sources@, path);
    coordinates::lemma_line_count(source);
    assert(order::has_file(files, path)) by {
        if attributed(repository, node, path, line) {
            assert(order::has_line(files, path, line));
            let i = choose|i: int|
                0 <= i < files.len() && (#[trigger] files[i]).0 == path && files[i].1.contains(line);
            assert(files[i].0 == path);
        }
    }
    let i = if attributed(repository, node, path, line) {
        assert(order::has_line(files, path, line));
        choose|i: int|
            0 <= i < files.len() && (#[trigger] files[i]).0 == path && files[i].1.contains(line)
    } else {
        choose|i: int| 0 <= i < files.len() && (#[trigger] files[i]).0 == path
    };
    let lines = files[i].1;
    let taken = proven_in(source, name, path, lines, importing);
    let found = references::import_lines_of(
        source,
        name,
        coordinates::lines(source).len() as int,
    );
    lemma_numbers_inserted(lines, found);
    assert(taken.contains(line)) by {
        if !attributed(repository, node, path, line) {
            assert(importing.contains(path));
            law_import_lines_are_those_that_name(
                source,
                name,
                coordinates::lines(source).len() as int,
            );
            let content = coordinates::without_return(coordinates::lines(source)[line - 1]);
            let w = choose|w: int| #[trigger] occurrences::stands_at(content, name, w);
            let columns = occurrences::columns_at(name, w);
            occurrences::law_words_are_found_where_they_stand(content, name, columns);
            assert(occurrences::on_line(source, line, name).contains(columns));
            assert(found.contains(line));
        }
    }
    let place = lemma_identified_place(source, path, name, line, from, to, first, past);
    let accepted = accepted_at(source, name, path, lines, importing);
    rename_symbol::law_a_site_needs_both_proofs(
        source,
        occurrences::identifier_places(source, path, name),
        name,
        taken,
        place,
    );
    assert(accepted.contains(place));
    let s = choose|s: int| 0 <= s < accepted.len() && accepted[s] == place;
    lemma_collected_from(repository, start, files, importing);
    let f = lemma_collected_holds(repository, start, files, importing, i, source);
    lemma_collected_apart(repository, start, files, importing);
    lemma_renamed_from(rename.files, path, 0, f);
    lemma_some_edit(rename.files, f);
    (f, s)
}

/// The plan that a call comes to, whether it is previewed or written.
pub open spec fn plan_in(step: StepView) -> Option<PlanView> {
    match step {
        StepView::DryRun { plan, .. } => Some(plan),
        StepView::Write { plan, .. } => Some(plan),
        _ => None,
    }
}

/// Whether an identifier of a source has to change where the symbol of a node is renamed: it has
/// the symbol's name, in the code or in an interpolation, and stands on the line of the
/// declaration, on a line that any call or reference of the symbol in the graph proves, or on a
/// line of an import in a file that imports the declaring one.
pub open spec fn has_to_change(
    repository: Repository,
    node: Node,
    path: Seq<char>,
    source: Seq<char>,
    line: u32,
    from: int,
    to: int,
) -> bool {
    &&& evidence::source_of(repository.sources@, path) == Some(source)
    &&& attributed(repository, node, path, line) || imported_on(
        repository,
        node,
        path,
        source,
        line,
    )
    &&& identified(source, path, words::plain_name(node.label@), line, from, to) || interpolated(
        source,
        path,
        words::plain_name(node.label@),
        from,
        to,
    )
}

/// A rename changes every place it has to: a call that may rename at all is planned, and in the
/// plan, previewed or written, every identifier that has to change becomes the new name.
pub proof fn law_a_rename_reaches_every_use(
    issued: Map<Seq<char>, IssuedView>,
    repository: Repository,
    arguments: JsonView,
    write_allowed: bool,
    now: u64,
    symbol: Seq<char>,
    new_name: Seq<char>,
    at: int,
    path: Seq<char>,
    source: Seq<char>,
    line: u32,
    from: int,
    to: int,
    first: u32,
    past: u32,
)
    requires
        arguments.text("symbol"@) == Some(symbol),
        arguments.text("new_name"@) == Some(new_name),
        resolve::resolved(repository.graph.nodes@, symbol) == Some(at),
        renameable(repository.graph.nodes@[at], new_name),
        has_to_change(repository, repository.graph.nodes@[at], path, source, line, from, to),
        fit::names(source, line, first, from),
        fit::names(source, line, past, to),
    ensures
        ({
            let step = rename_symbol::rename_symbol_step(
                issued,
                repository,
                arguments,
                write_allowed,
                now,
            ).0;
            &&& arguments.text("mode"@) != Some("apply"@) ==> step is DryRun
            &&& plan_in(step) matches Some(plan) ==> rename_plan::files_hold(
                plan.files,
                path,
                renaming(
                    line,
                    first,
                    past,
                    words::plain_name(repository.graph.nodes@[at].label@),
                    new_name,
                ),
            )
        }),
{
    reveal(rename_symbol::rename_symbol_step);
    let (f, s) = lemma_site_found(
        repository,
        symbol,
        new_name,
        at,
        path,
        source,
        line,
        from,
        to,
        first,
        past,
    );
    let rename = rename_symbol::found_sites(repository, symbol, new_name)->Ok_0;
    let renames = Seq::<RenameView>::empty().push(rename);
    assert(renames[0] == rename);
    rename_plan::law_every_site_is_planned("rename_symbol"@, renames, 0, f, s);
    let requests = Seq::<(Seq<char>, Seq<char>)>::empty().push((symbol, new_name));
    assert(requests[0] == (symbol, new_name));
    rename_symbol::law_the_plan_reads_back(repository, "rename_symbol"@, requests, renames);
}

/// A rename that was found is from the symbol's name to the one asked for.
pub proof fn lemma_names_kept(repository: Repository, symbol: Seq<char>, new_name: Seq<char>)
    ensures
        rename_symbol::found_sites(repository, symbol, new_name) matches Ok(found) ==> found.new_name
            == new_name && (resolve::resolved(repository.graph.nodes@, symbol) matches Some(at)
            && found.old_name == words::plain_name(repository.graph.nodes@[at].label@)),
{
    if rename_symbol::found_sites(repository, symbol, new_name) is Ok {
        let at = resolve::resolved(repository.graph.nodes@, symbol)->0;
        let node = repository.graph.nodes@[at];
        let span = node.span->0;
        lemma_collected_from(
            repository,
            RenameView {
                old_name: words::plain_name(node.label@),
                new_name,
                files: Seq::empty(),
                uncertain: Seq::empty(),
            },
            rename_symbol::referencing_files(repository, node.id@, span.file@, span.start_line),
            references::importing(repository, span.file@),
        );
    }
}

/// The requests of a batch are its entries, in order.
pub proof fn lemma_requests(
    entries: Seq<JsonView>,
    from: int,
    read: Seq<(Seq<char>, Seq<char>)>,
)
    requires
        0 <= from <= entries.len(),
        read.len() == from,
        forall|i: int|
            0 <= i < from ==> (#[trigger] entries[i]).text("symbol"@) == Some(read[i].0)
                && entries[i].text("new_name"@) == Some(read[i].1),
    ensures
        rename_related::requests_from(entries, from, read) matches Ok(all) ==> all.len()
            == entries.len() && forall|i: int|
            0 <= i < entries.len() ==> (#[trigger] entries[i]).text("symbol"@) == Some(all[i].0)
                && entries[i].text("new_name"@) == Some(all[i].1),
    decreases entries.len() - from,
{
    if from < entries.len() {
        match rename_related::request(entries[from]) {
            Some(pair) => {
                lemma_requests(entries, from + 1, read.push(pair));
            },
            None => {},
        }
    }
}

/// A batch changes every place it has to: in its one plan, previewed or written, every identifier
/// that has to change for one of its renames becomes that rename's new name, whatever the others
/// are. So chains and swaps take effect at once.
pub proof fn law_a_batch_reaches_every_use(
    issued: Map<Seq<char>, IssuedView>,
    repository: Repository,
    arguments: JsonView,
    write_allowed: bool,
    now: u64,
    entries: Seq<JsonView>,
    entry: int,
    symbol: Seq<char>,
    new_name: Seq<char>,
    at: int,
    path: Seq<char>,
    source: Seq<char>,
    line: u32,
    from: int,
    to: int,
    first: u32,
    past: u32,
)
    requires
        arguments.list("renames"@) == Some(entries),
        0 <= entry < entries.len(),
        entries[entry].text("symbol"@) == Some(symbol),
        entries[entry].text("new_name"@) == Some(new_name),
        resolve::resolved(repository.graph.nodes@, symbol) == Some(at),
        renameable(repository.graph.nodes@[at], new_name),
        has_to_change(repository, repository.graph.nodes@[at], path, source, line, from, to),
        fit::names(source, line, first, from),
        fit::names(source, line, past, to),
    ensures
        plan_in(
            rename_related::rename_related_step(
                issued,
                repository,
                arguments,
                write_allowed,
                now,
            ).0,
        ) matches Some(plan) ==> rename_plan::files_hold(
            plan.files,
            path,
            renaming(
                line,
                first,
                past,
                words::plain_name(repository.graph.nodes@[at].label@),
                new_name,
            ),
        ),
{
    reveal(rename_related::rename_related_step);
    lemma_requests(entries, 0, Seq::empty());
    match rename_related::requested(arguments) {
        Ok(requests) => {
            assert(entries[entry].text("symbol"@) == Some(requests[entry].0));
            rename_related::law_a_batch_is_all_or_nothing(repository, requests);
            match rename_related::renames_from(repository, requests, 0, Seq::empty()) {
                Ok(renames) => {
                    assert(requests[entry] == (symbol, new_name));
                    let (f, s) = lemma_site_found(
                        repository,
                        symbol,
                        new_name,
                        at,
                        path,
                        source,
                        line,
                        from,
                        to,
                        first,
                        past,
                    );
                    rename_plan::law_every_site_is_planned(
                        "rename_related_symbols"@,
                        renames,
                        entry,
                        f,
                        s,
                    );
                    rename_symbol::law_the_plan_reads_back(
                        repository,
                        "rename_related_symbols"@,
                        requests,
                        renames,
                    );
                },
                Err(_) => {},
            }
        },
        Err(_) => {},
    }
}

/// Whether an edit is the renaming of a place that has to change for the symbol of a node.
pub open spec fn called_for(
    repository: Repository,
    node: Node,
    new_name: Seq<char>,
    path: Seq<char>,
    edit: EditView,
) -> bool {
    &&& edit.before == words::plain_name(node.label@)
    &&& edit.after == new_name
    &&& edit.start_line == edit.end_line
    &&& evidence::source_of(repository.sources@, path) matches Some(source) && fit::stands(
        source,
        edit,
    ) && (attributed(repository, node, path, edit.start_line) || imported_on(
        repository,
        node,
        path,
        source,
        edit.start_line,
    ))
}

/// Whether an edit is one of the sites that a rename found in a file.
spec fn is_site(rename: RenameView, path: Seq<char>, edit: EditView) -> bool {
    exists|f: int, s: int|
        0 <= f < rename.files.len() && 0 <= s < rename.files[f].sites.len() && rename.files[f].path
            == path && edit == rename_symbol::placed_edit(
            PlacedView {
                site: #[trigger] rename.files[f].sites[s],
                before: rename.old_name,
                after: rename.new_name,
            },
        )
}

/// Whether an edit is a site of one of some renames.
spec fn is_some_site(renames: Seq<RenameView>, path: Seq<char>, edit: EditView) -> bool {
    exists|r: int| 0 <= r < renames.len() && is_site(#[trigger] renames[r], path, edit)
}

/// Putting one more among edits adds that one alone.
proof fn lemma_placed_from(list: Seq<PlacedView>, item: PlacedView, one: PlacedView)
    requires
        rename_symbol::placed_inserted(list, item).contains(one),
    ensures
        list.contains(one) || one == item,
    decreases list.len(),
{
    let all = rename_symbol::placed_inserted(list, item);
    let i = choose|i: int| 0 <= i < all.len() && all[i] == one;
    if list.len() == 0 {
    } else if rename_symbol::site_before(item.site, list[0].site) {
        if i > 0 {
            assert(list[i - 1] == one);
        }
    } else {
        if i == 0 {
            assert(list[0] == one);
        } else {
            let rest = list.drop_first();
            assert(rename_symbol::placed_inserted(rest, item)[i - 1] == one);
            lemma_placed_from(rest, item, one);
            if rest.contains(one) {
                let k = choose|k: int| 0 <= k < rest.len() && rest[k] == one;
                assert(list[k + 1] == one);
            }
        }
    }
}

/// Putting sites among edits adds those alone.
proof fn lemma_sites_from(
    list: Seq<PlacedView>,
    sites: Seq<Site>,
    before: Seq<char>,
    after: Seq<char>,
    one: PlacedView,
)
    requires
        rename_symbol::sites_inserted(list, sites, before, after).contains(one),
    ensures
        list.contains(one) || (one.before == before && one.after == after && sites.contains(
            one.site,
        )),
    decreases sites.len(),
{
    if sites.len() > 0 {
        let rest = sites.drop_last();
        let earlier = rename_symbol::sites_inserted(list, rest, before, after);
        lemma_placed_from(earlier, PlacedView { site: sites.last(), before, after }, one);
        assert(sites[sites.len() - 1] == sites.last());
        if earlier.contains(one) {
            lemma_sites_from(list, rest, before, after, one);
            if rest.contains(one.site) {
                let k = choose|k: int| 0 <= k < rest.len() && rest[k] == one.site;
                assert(sites[k] == one.site);
            }
        }
    }
}

/// Found files are among the files.
proof fn lemma_renamed_is(files: Seq<RenamedView>, path: Seq<char>, from: int)
    requires
        0 <= from,
    ensures
        rename_symbol::renamed_from(files, path, from) matches Some(f) ==> from <= f < files.len()
            && files[f].path == path,
    decreases files.len() - from,
{
    if from < files.len() && files[from].path != path {
        lemma_renamed_is(files, path, from + 1);
    }
}

/// The edits of a file are sites of the renames.
proof fn lemma_edits_from(renames: Seq<RenameView>, path: Seq<char>, one: PlacedView)
    requires
        rename_symbol::edits_for(renames, path).contains(one),
    ensures
        is_some_site(renames, path, rename_symbol::placed_edit(one)),
    decreases renames.len(),
{
    if renames.len() > 0 {
        let rest = renames.drop_last();
        let last = renames.last();
        let edit = rename_symbol::placed_edit(one);
        let before = rename_symbol::edits_for(rest, path);
        lemma_renamed_is(last.files, path, 0);
        match rename_symbol::renamed_from(last.files, path, 0) {
            Some(f) => {
                lemma_sites_from(
                    before,
                    last.files[f].sites,
                    last.old_name,
                    last.new_name,
                    one,
                );
                if !before.contains(one) {
                    let sites = last.files[f].sites;
                    let s = choose|s: int| 0 <= s < sites.len() && sites[s] == one.site;
                    assert(last.files[f].sites[s] == one.site);
                    assert(is_site(last, path, edit));
                    assert(renames[renames.len() - 1] == last);
                }
            },
            None => {},
        }
        if before.contains(one) {
            lemma_edits_from(rest, path, one);
            let r = choose|r: int| 0 <= r < rest.len() && is_site(#[trigger] rest[r], path, edit);
            assert(renames[r] == rest[r]);
        }
    }
}

/// Whether every edit of some files is a site of the renames.
spec fn all_sites(renames: Seq<RenameView>, files: Seq<FileView>) -> bool {
    forall|i: int, j: int|
        0 <= i < files.len() && 0 <= j < files[i].edits.len() ==> is_some_site(
            renames,
            files[i].path,
            #[trigger] files[i].edits[j],
        )
}

/// Adding sites to the open file keeps every edit a site.
proof fn lemma_planned_sites(
    renames: Seq<RenameView>,
    builder: BuilderView,
    edits: Seq<PlacedView>,
    path: Seq<char>,
)
    requires
        builder.current matches Some(at) && 0 <= at < builder.files.len() && builder.files[at].path
            == path,
        all_sites(renames, builder.files),
        forall|k: int|
            0 <= k < edits.len() ==> is_some_site(
                renames,
                path,
                rename_symbol::placed_edit(#[trigger] edits[k]),
            ),
    ensures
        all_sites(renames, rename_symbol::edits_planned(builder, edits).files),
        rename_symbol::edits_planned(builder, edits).current == builder.current,
        rename_symbol::edits_planned(builder, edits).files.len() == builder.files.len(),
        rename_symbol::edits_planned(builder, edits).files[builder.current->0].path == path,
    decreases edits.len(),
{
    if edits.len() > 0 {
        let rest = edits.drop_last();
        assert forall|k: int| 0 <= k < rest.len() implies is_some_site(
            renames,
            path,
            rename_symbol::placed_edit(#[trigger] rest[k]),
        ) by {
            assert(rest[k] == edits[k]);
        }
        lemma_planned_sites(renames, builder, rest, path);
        let before = rename_symbol::edits_planned(builder, rest);
        let after = rename_symbol::edits_planned(builder, edits);
        let at = builder.current->0;
        assert(edits[edits.len() - 1] == edits.last());
        assert forall|i: int, j: int|
            0 <= i < after.files.len() && 0 <= j < after.files[i].edits.len() implies is_some_site(
            renames,
            after.files[i].path,
            #[trigger] after.files[i].edits[j],
        ) by {
            if i != at {
                assert(after.files[i] == before.files[i]);
                assert(before.files[i].edits[j] == after.files[i].edits[j]);
            } else if j < before.files[at].edits.len() {
                assert(after.files[at].edits[j] == before.files[at].edits[j]);
            }
        }
    }
}

/// A plan of the first paths holds sites of the renames alone.
proof fn lemma_paths_sites(operation: Seq<char>, renames: Seq<RenameView>, paths: Seq<Seq<char>>)
    ensures
        all_sites(renames, rename_symbol::paths_planned(operation, renames, paths).files),
    decreases paths.len(),
{
    if paths.len() > 0 {
        let rest = paths.drop_last();
        let path = paths.last();
        lemma_paths_sites(operation, renames, rest);
        let before = rename_symbol::paths_planned(operation, renames, rest);
        let opened = before.file(path, rename_symbol::hash_for(renames, path, 0));
        plan::lemma_path_at(before.files, path);
        assert forall|i: int, j: int|
            0 <= i < opened.files.len() && 0 <= j < opened.files[i].edits.len() implies is_some_site(
            renames,
            opened.files[i].path,
            #[trigger] opened.files[i].edits[j],
        ) by {
            assert(i < before.files.len());
            assert(opened.files[i] == before.files[i]);
            assert(before.files[i].edits[j] == opened.files[i].edits[j]);
        }
        let edits = rename_symbol::edits_for(renames, path);
        assert forall|k: int| 0 <= k < edits.len() implies is_some_site(
            renames,
            path,
            rename_symbol::placed_edit(#[trigger] edits[k]),
        ) by {
            assert(edits.contains(edits[k]));
            lemma_edits_from(renames, path, edits[k]);
        }
        lemma_planned_sites(renames, opened, edits, path);
    }
}

/// The files with edits are among the files.
pub proof fn lemma_kept(files: Seq<FileView>, i: int) -> (from: int)
    requires
        0 <= i < plan::with_edits(files).len(),
    ensures
        0 <= from < files.len(),
        files[from] == plan::with_edits(files)[i],
    decreases files.len(),
{
    if files.len() == 0 {
        0
    } else {
        let rest = files.drop_last();
        let kept = plan::with_edits(rest);
        if i < kept.len() {
            let from = lemma_kept(rest, i);
            assert(rest[from] == files[from]);
            from
        } else {
            files.len() - 1
        }
    }
}

/// A site that was found for a symbol is called for.
proof fn lemma_site_called_for(
    repository: Repository,
    symbol: Seq<char>,
    new_name: Seq<char>,
    at: int,
    path: Seq<char>,
    edit: EditView,
)
    requires
        rename_symbol::found_sites(repository, symbol, new_name) is Ok,
        resolve::resolved(repository.graph.nodes@, symbol) == Some(at),
        is_site(rename_symbol::found_sites(repository, symbol, new_name)->Ok_0, path, edit),
    ensures
        called_for(repository, repository.graph.nodes@[at], new_name, path, edit),
{
    let rename = rename_symbol::found_sites(repository, symbol, new_name)->Ok_0;
    let nodes = repository.graph.nodes@;
    let node = nodes[at];
    let name = words::plain_name(node.label@);
    resolve::law_resolution_is_the_only_match(nodes, symbol);
    let span = node.span->0;
    let files = rename_symbol::referencing_files(
        repository,
        node.id@,
        span.file@,
        span.start_line,
    );
    let importing = references::importing(repository, span.file@);
    let start = RenameView {
        old_name: name,
        new_name,
        files: Seq::empty(),
        uncertain: Seq::empty(),
    };
    lemma_collected_from(repository, start, files, importing);
    rename_plan::lemma_found_fits(repository, symbol, new_name);
    law_the_lines_looked_at_are_the_attributed_ones(repository, at);
    law_every_importer_is_found(repository, span.file@);
    let (f, s) = choose|f: int, s: int|
        0 <= f < rename.files.len() && 0 <= s < rename.files[f].sites.len() && rename.files[f].path
            == path && edit == rename_symbol::placed_edit(
            PlacedView {
                site: #[trigger] rename.files[f].sites[s],
                before: rename.old_name,
                after: rename.new_name,
            },
        );
    let site = rename.files[f].sites[s];
    assert(rename_plan::renamed_fits(
        repository.sources@,
        rename.files[f],
        rename.old_name,
        rename.new_name,
    ));
    let source = evidence::source_of(repository.sources@, path)->0;
    assert(rename_plan::site_stands(source, site, name, new_name));
    assert(sourced(repository, name, files, importing, rename.files[f]));
    let i = choose|i: int|
        comes_from(repository, name, files, importing, rename.files[f], i);
    let lines = files[i].1;
    let accepted = accepted_at(source, name, path, lines, importing);
    let place = accepted[s];
    let taken = proven_in(source, name, path, lines, importing);
    assert(accepted.contains(place));
    rename_symbol::law_a_site_needs_both_proofs(
        source,
        occurrences::identifier_places(source, path, name),
        name,
        taken,
        place,
    );
    let line = place.0;
    assert(site.line == line);
    assert(taken.contains(line));
    let found = references::import_lines_of(
        source,
        name,
        coordinates::lines(source).len() as int,
    );
    lemma_numbers_inserted(lines, found);
    fit::lemma_source_bound(repository.sources@, path);
    coordinates::lemma_line_count(source);
    if lines.contains(line) {
        assert(files[i].0 == path && files[i].1.contains(line));
        assert(order::has_line(files, path, line));
    } else {
        assert(importing.contains(path));
        assert(found.contains(line));
        law_import_lines_are_those_that_name(
            source,
            name,
            coordinates::lines(source).len() as int,
        );
        let on = occurrences::on_line(source, line, name);
        let content = coordinates::without_return(coordinates::lines(source)[line - 1]);
        assert(on.contains(on[0]));
        occurrences::law_words_are_found_where_they_stand(content, name, on[0]);
        assert(imported_on(repository, node, path, source, line));
    }
}

/// A rename changes nothing it need not: every edit of its plan, previewed or written, writes the
/// new name over the symbol's name, on a line that the graph attributes to the symbol or that
/// imports its name.
pub proof fn law_a_rename_touches_nothing_else(
    issued: Map<Seq<char>, IssuedView>,
    repository: Repository,
    arguments: JsonView,
    write_allowed: bool,
    now: u64,
    symbol: Seq<char>,
    new_name: Seq<char>,
    at: int,
    file: int,
    edit: int,
)
    requires
        arguments.text("symbol"@) == Some(symbol),
        arguments.text("new_name"@) == Some(new_name),
        resolve::resolved(repository.graph.nodes@, symbol) == Some(at),
    ensures
        plan_in(
            rename_symbol::rename_symbol_step(
                issued,
                repository,
                arguments,
                write_allowed,
                now,
            ).0,
        ) matches Some(plan) ==> 0 <= file < plan.files.len() && 0 <= edit
            < plan.files[file].edits.len() ==> called_for(
            repository,
            repository.graph.nodes@[at],
            new_name,
            plan.files[file].path,
            plan.files[file].edits[edit],
        ),
{
    reveal(rename_symbol::rename_symbol_step);
    if rename_symbol::found_sites(repository, symbol, new_name) is Ok {
        let rename = rename_symbol::found_sites(repository, symbol, new_name)->Ok_0;
        let renames = Seq::<RenameView>::empty().push(rename);
        assert(renames[0] == rename);
        let requests = Seq::<(Seq<char>, Seq<char>)>::empty().push((symbol, new_name));
        assert(requests[0] == (symbol, new_name));
        rename_symbol::law_the_plan_reads_back(repository, "rename_symbol"@, requests, renames);
        let built = rename_symbol::renames_plan("rename_symbol"@, renames);
        lemma_paths_sites("rename_symbol"@, renames, rename_symbol::touched(renames));
        let files = built.plan().files;
        if 0 <= file < files.len() && 0 <= edit < files[file].edits.len() {
            let k = lemma_kept(built.files, file);
            let one = built.files[k].edits[edit];
            assert(is_some_site(renames, built.files[k].path, one));
            let r = choose|r: int|
                0 <= r < renames.len() && is_site(#[trigger] renames[r], built.files[k].path, one);
            assert(renames[r] == rename);
            lemma_site_called_for(repository, symbol, new_name, at, built.files[k].path, one);
        }
    }
}

/// Whether an answer lists an occurrence on a line of a file for review.
pub open spec fn lists_for_review(answer: JsonView, path: Seq<char>, line: u32) -> bool {
    answer.list("uncertainReferences"@) matches Some(entries) && exists|i: int|
        0 <= i < entries.len() && (#[trigger] entries[i]).text("file"@) == Some(path)
            && entries[i].number("line"@) == Some(line as nat)
}

/// The fields of a report are apart.
pub proof fn lemma_report_keys()
    ensures
        "file"@ != "line"@ && "file"@ != "kind"@ && "file"@ != "excerpt"@ && "line"@ != "kind"@
            && "line"@ != "excerpt"@,
        "uncertainReferences"@ != "status"@ && "uncertainReferences"@ != "completeness"@
            && "uncertainReferences"@ != "backend"@ && "uncertainReferences"@ != "oldName"@
            && "uncertainReferences"@ != "newName"@ && "uncertainReferences"@ != "renamedEdits"@
            && "uncertainReferences"@ != "plan"@,
{
    reveal_strlit("file");
    reveal_strlit("line");
    reveal_strlit("kind");
    reveal_strlit("excerpt");
    reveal_strlit("uncertainReferences");
    reveal_strlit("status");
    reveal_strlit("completeness");
    reveal_strlit("backend");
    reveal_strlit("oldName");
    reveal_strlit("newName");
    reveal_strlit("renamedEdits");
    reveal_strlit("plan");
    assert("file"@[0] == 'f' && "line"@[0] == 'l' && "kind"@[0] == 'k');
    assert("file"@.len() == 4 && "line"@.len() == 4 && "excerpt"@.len() == 7);
    assert("uncertainReferences"@.len() == 19 && "status"@.len() == 6 && "completeness"@.len() == 12
        && "backend"@.len() == 7 && "oldName"@.len() == 7 && "newName"@.len() == 7
        && "renamedEdits"@.len() == 12 && "plan"@.len() == 4);
}

/// A rename passes nothing over in silence: in every file it looks at, each word that is the
/// symbol's name is renamed, or its line is listed for review.
pub proof fn law_every_word_is_renamed_or_listed(
    issued: Map<Seq<char>, IssuedView>,
    repository: Repository,
    arguments: JsonView,
    write_allowed: bool,
    now: u64,
    symbol: Seq<char>,
    new_name: Seq<char>,
    at: int,
    path: Seq<char>,
    source: Seq<char>,
    line: u32,
    word: int,
    other: u32,
)
    requires
        arguments.text("symbol"@) == Some(symbol),
        arguments.text("new_name"@) == Some(new_name),
        resolve::resolved(repository.graph.nodes@, symbol) == Some(at),
        renameable(repository.graph.nodes@[at], new_name),
        evidence::source_of(repository.sources@, path) == Some(source),
        attributed(repository, repository.graph.nodes@[at], path, other) || imports_proven(
            repository.graph.nodes@,
            repository.graph.edges@,
            repository.graph.nodes@[at].span->0.file@,
            path,
        ),
        1 <= line <= coordinates::lines(source).len(),
        occurrences::stands_at(
            coordinates::without_return(coordinates::lines(source)[line - 1]),
            words::plain_name(repository.graph.nodes@[at].label@),
            word,
        ),
    ensures
        rename_symbol::rename_symbol_step(
            issued,
            repository,
            arguments,
            write_allowed,
            now,
        ).0 matches StepView::DryRun { plan, preview } ==> (preview matches PreviewView::Symbol(
            answer,
        ) && (lists_for_review(answer, path, line) || renames_word(
            plan.files,
            path,
            source,
            line,
            word,
            words::plain_name(repository.graph.nodes@[at].label@),
            new_name,
        ))),
{
    broadcast use json::lemma_with_get;

    reveal(rename_symbol::rename_symbol_step);
    let nodes = repository.graph.nodes@;
    let node = nodes[at];
    let name = words::plain_name(node.label@);
    let step = rename_symbol::rename_symbol_step(
        issued,
        repository,
        arguments,
        write_allowed,
        now,
    ).0;
    if step is DryRun {
        resolve::law_resolution_is_the_only_match(nodes, symbol);
        lemma_report_keys();
        let span = node.span->0;
        let files = rename_symbol::referencing_files(
            repository,
            node.id@,
            span.file@,
            span.start_line,
        );
        let importing = references::importing(repository, span.file@);
        let start = RenameView {
            old_name: name,
            new_name,
            files: Seq::empty(),
            uncertain: Seq::empty(),
        };
        let rename = rename_symbol::collected(repository, start, files, importing);
        law_the_lines_looked_at_are_the_attributed_ones(repository, at);
        assert(order::has_file(files, path)) by {
            if attributed(repository, node, path, other) {
                assert(order::has_line(files, path, other));
                let i = choose|i: int|
                    0 <= i < files.len() && (#[trigger] files[i]).0 == path
                        && files[i].1.contains(other);
                assert(files[i].0 == path);
            }
        }
        let i = choose|i: int| 0 <= i < files.len() && (#[trigger] files[i]).0 == path;
        let lines = files[i].1;
        let accepted = accepted_at(source, name, path, lines, importing);
        let content = coordinates::without_return(coordinates::lines(source)[line - 1]);
        let columns = occurrences::columns_at(name, word);
        occurrences::law_words_are_found_where_they_stand(content, name, columns);
        rename_symbol::law_every_occurrence_is_planned_or_reported(
            path,
            source,
            name,
            accepted,
            line,
            columns,
        );
        lemma_collected_from(repository, start, files, importing);
        let f = lemma_collected_holds(repository, start, files, importing, i, source);
        let place = (line, columns.0, columns.1);
        if accepted.contains(place) {
            let s = choose|s: int| 0 <= s < accepted.len() && accepted[s] == place;
            lemma_collected_apart(repository, start, files, importing);
            lemma_renamed_from(rename.files, path, 0, f);
            let renames = Seq::<RenameView>::empty().push(rename);
            assert(renames[0] == rename);
            rename_plan::law_every_site_is_planned("rename_symbol"@, renames, 0, f, s);
            let requests = Seq::<(Seq<char>, Seq<char>)>::empty().push((symbol, new_name));
            assert(requests[0] == (symbol, new_name));
            rename_symbol::law_the_plan_reads_back(repository, "rename_symbol"@, requests, renames);
            let site = rename.files[f].sites[s];
            assert(site == rename_symbol::site_at(source, place));
            fit::lemma_source_bound(repository.sources@, path);
            coordinates::lemma_line_bytes(source, line - 1);
            assert(columns.0 == word + 1);
            assert(coordinates::converted(source, line, columns.0) is Ok);
            let edit = renaming(line, site.start, site.end, name, new_name);
            assert(rename_plan::files_hold(step->DryRun_plan.files, path, edit));
        } else {
            let report = rename_symbol::unproven(
                path,
                line,
                coordinates::lines(source)[line - 1],
            );
            assert(rename.uncertain.contains(report));
            let k = choose|k: int| 0 <= k < rename.uncertain.len() && rename.uncertain[k] == report;
            let answer = step->preview->Symbol_0;
            assert(answer.list("uncertainReferences"@) == Some(rename.uncertain));
            let entries = rename.uncertain;
            assert(entries[k].text("file"@) == Some(path));
        }
    }
}

/// Whether some edit of a file renames the word at a byte offset of a line.
pub open spec fn renames_word(
    files: Seq<FileView>,
    path: Seq<char>,
    source: Seq<char>,
    line: u32,
    word: int,
    name: Seq<char>,
    new_name: Seq<char>,
) -> bool {
    exists|first: u32, past: u32|
        rename_plan::files_hold(files, path, #[trigger] renaming(line, first, past, name, new_name))
            && coordinates::converted(source, line, (word + 1) as u32) == Ok::<u32, PositionError>(
            first,
        )
}

} // verus!
