//! Where the graph proves that a symbol is referenced.

use crate::coordinates;
use crate::declaration;
use crate::evidence;
use crate::graph;
use crate::graph::{Edge, Node, Repository};
use crate::operations::occurrences;
use crate::order;
use crate::order::FileLines;
use crate::text;
use crate::words;
use vstd::prelude::*;

verus! {

/// Whether a relation means "this site uses that symbol", as opposed to containing it.
pub open spec fn uses(edge: Edge) -> bool {
    edge.kind@ == "calls"@ || edge.kind@ == "references"@
}

/// Files and their lines with what one use of a symbol proves.
pub open spec fn with_use(
    repository: Repository,
    files: Seq<(Seq<char>, Seq<u32>)>,
    edge: Edge,
    id: Seq<char>,
) -> Seq<(Seq<char>, Seq<u32>)> {
    let nodes = repository.graph.nodes@;
    if !uses(edge) || edge.target@ != id {
        files
    } else {
        match edge.span {
            Some(span) => order::line_added(files, span.file@, span.start_line),
            None => match graph::id_from(nodes, edge.source@, 0) {
                None => files,
                Some(at) => match nodes[at].span {
                    None => files,
                    Some(span) => match evidence::source_of(repository.sources@, span.file@) {
                        None => files,
                        Some(source) => {
                            let (from, to) = declaration::body_of(
                                source,
                                declaration::located(
                                    source,
                                    span.file@,
                                    words::plain_name(nodes[at].label@),
                                    span.start_line,
                                ),
                                span.start_line,
                            );
                            order::lines_added(
                                order::file_opened(files, span.file@),
                                span.file@,
                                from,
                                to,
                            )
                        },
                    },
                },
            },
        }
    }
}

/// The lines that the first edges of a graph prove to reference a symbol, by file.
pub open spec fn referenced(repository: Repository, edges: Seq<Edge>, id: Seq<char>) -> Seq<
    (Seq<char>, Seq<u32>),
>
    decreases edges.len(),
{
    if edges.len() == 0 {
        Seq::empty()
    } else {
        with_use(repository, referenced(repository, edges.drop_last(), id), edges.last(), id)
    }
}

/// Exact lines the graph proves reference this symbol, grouped by file.
///
/// An edge that carries the reference expression's own span counts for that line alone, so a
/// module-level call with no enclosing symbol counts too. An edge that carries only a source
/// symbol is widened to that declaration's proven body, without turning an unbounded guess into
/// evidence.
pub fn referencing_lines(repository: &Repository, id: &str) -> (files: Vec<FileLines>)
    ensures
        order::lines_view(files@) == referenced(*repository, repository.graph.edges@, id@),
{
    let edges = &repository.graph.edges;
    let mut files: Vec<FileLines> = Vec::new();
    assert(order::lines_view(files@) =~= Seq::empty());
    let mut i: usize = 0;
    while i < edges.len()
        invariant
            *edges == repository.graph.edges,
            i <= edges@.len(),
            order::lines_view(files@) == referenced(*repository, edges@.take(i as int), id@),
        decreases edges@.len() - i,
    {
        assert(edges@.take(i + 1).drop_last() =~= edges@.take(i as int));
        add_use(repository, &mut files, &edges[i], id);
        i += 1;
    }
    assert(edges@.take(i as int) =~= edges@);
    files
}

/// Adds what one use of a symbol proves.
fn add_use(repository: &Repository, files: &mut Vec<FileLines>, edge: &Edge, id: &str)
    ensures
        order::lines_view(final(files)@) == with_use(
            *repository,
            order::lines_view(old(files)@),
            *edge,
            id@,
        ),
{
    let kind = edge.kind.as_str();
    if !(text::same(kind, "calls") || text::same(kind, "references")) || !text::same(
        edge.target.as_str(),
        id,
    ) {
        return ;
    }
    match &edge.span {
        Some(span) => {
            order::add_line(files, span.file.as_str(), span.start_line);
        },
        None => {
            let at: usize = match graph::find_id(&repository.graph.nodes, edge.source.as_str()) {
                Some(at) => at,
                None => {
                    return ;
                },
            };
            let node = &repository.graph.nodes[at];
            let span = match &node.span {
                Some(span) => span,
                None => {
                    return ;
                },
            };
            let file = span.file.as_str();
            let source = match evidence::read_source(&repository.sources, file) {
                Some(source) => source,
                None => {
                    return ;
                },
            };
            let (from, to) = declaration::body_lines(
                source,
                file,
                words::trim_parentheses(node.label.as_str()),
                span.start_line,
            );
            order::open_file(files, file);
            order::add_lines(files, file, from, to);
        },
    }
}

/// Where the node of a file stands, from a place on.
pub open spec fn file_node_from(nodes: Seq<Node>, path: Seq<char>, from: int) -> Option<int>
    decreases nodes.len() - from,
{
    if from < 0 || from >= nodes.len() {
        None
    } else if nodes[from].kind@ == "file"@ && nodes[from].label@ == path {
        Some(from)
    } else {
        file_node_from(nodes, path, from + 1)
    }
}

/// The sources of the imports of a node among the first edges of a graph, ascending.
pub open spec fn importers(nodes: Seq<Node>, edges: Seq<Edge>, id: Seq<char>) -> Seq<Seq<char>>
    decreases edges.len(),
{
    if edges.len() == 0 {
        Seq::empty()
    } else {
        let before = importers(nodes, edges.drop_last(), id);
        let edge = edges.last();
        if edge.kind@ == "imports"@ && edge.target@ == id {
            match graph::id_from(nodes, edge.source@, 0) {
                Some(at) => order::inserted(before, nodes[at].label@),
                None => before,
            }
        } else {
            before
        }
    }
}

/// The files that the graph proves import one.
pub open spec fn importing(repository: Repository, path: Seq<char>) -> Seq<Seq<char>> {
    let nodes = repository.graph.nodes@;
    match file_node_from(nodes, path, 0) {
        Some(at) => importers(nodes, repository.graph.edges@, nodes[at].id@),
        None => Seq::empty(),
    }
}

/// Where the node of a file stands.
pub(crate) fn find_file_node(nodes: &Vec<Node>, path: &str) -> (found: Option<usize>)
    ensures
        match (found, file_node_from(nodes@, path@, 0)) {
            (Some(at), Some(expected)) => at == expected && at < nodes@.len(),
            (None, None) => true,
            _ => false,
        },
{
    let mut i: usize = 0;
    while i < nodes.len()
        invariant
            i <= nodes@.len(),
            file_node_from(nodes@, path@, 0) == file_node_from(nodes@, path@, i as int),
        decreases nodes@.len() - i,
    {
        if text::same(nodes[i].kind.as_str(), "file") && text::same(nodes[i].label.as_str(), path) {
            return Some(i);
        }
        i += 1;
    }
    None
}

/// Files the graph proves import the one that declares the symbol.
pub fn importing_files(repository: &Repository, declaring: &str) -> (files: Vec<String>)
    ensures
        text::string_views(files@) == importing(*repository, declaring@),
{
    let nodes = &repository.graph.nodes;
    let edges = &repository.graph.edges;
    let mut files: Vec<String> = Vec::new();
    assert(text::string_views(files@) =~= Seq::empty());
    let target: usize = match find_file_node(nodes, declaring) {
        Some(target) => target,
        None => {
            return files;
        },
    };
    let id = nodes[target].id.as_str();
    let mut i: usize = 0;
    while i < edges.len()
        invariant
            i <= edges@.len(),
            text::string_views(files@) == importers(nodes@, edges@.take(i as int), id@),
        decreases edges@.len() - i,
    {
        assert(edges@.take(i + 1).drop_last() =~= edges@.take(i as int));
        let edge = &edges[i];
        if text::same(edge.kind.as_str(), "imports") && text::same(edge.target.as_str(), id) {
            match graph::find_id(nodes, edge.source.as_str()) {
                Some(at) => {
                    order::insert(&mut files, nodes[at].label.as_str());
                },
                None => {},
            }
        }
        i += 1;
    }
    assert(edges@.take(i as int) =~= edges@);
    files
}

/// Whether a line begins an import statement.
pub open spec fn imports(line: Seq<char>) -> bool {
    let head = words::trimmed_start(line);
    text::begins(head, "import "@) || text::begins(head, "use "@) || text::begins(head, "pub use "@)
        || text::begins(head, "from "@) || text::begins(head, "export "@)
}

/// Whether an import statement may go on behind the line it begins on. An `export` does so only
/// as a list of names: anything else that is exported has a body of its own.
pub open spec fn may_go_on(line: Seq<char>) -> bool {
    let head = words::trimmed_start(line);
    if text::begins(head, "export "@) {
        let rest = words::trimmed_start(head.skip("export "@.len() as int));
        text::begins(rest, "{"@) || (text::begins(rest, "type "@) && text::begins(
            words::trimmed_start(rest.skip("type "@.len() as int)),
            "{"@,
        ))
    } else {
        imports(line)
    }
}

/// How many groups a part of an import statement leaves open, if the statement goes on at all: not
/// behind a `;`, nor outside every group behind a quote or a comment.
pub open spec fn left_open(part: Seq<char>, depth: nat) -> Option<nat>
    decreases part.len(),
{
    if part.len() == 0 {
        Some(depth)
    } else {
        let c = part[0];
        let rest = part.drop_first();
        if c == ';' || (depth == 0 && (c == '\'' || c == '"' || c == '`' || c == '/' || c == '#')) {
            None
        } else if c == '{' || c == '(' {
            left_open(rest, depth + 1)
        } else if (c == '}' || c == ')') && depth > 0 {
            left_open(rest, (depth - 1) as nat)
        } else {
            left_open(rest, depth)
        }
    }
}

/// How many groups an import statement has open behind a line of it, if it goes on there: inside a
/// group, or behind a `,` or a `\` that ends the line.
pub open spec fn open_behind(line: Seq<char>, depth: nat) -> Option<nat> {
    let last = words::trimmed_end(line);
    match left_open(line, depth) {
        Some(open) => if open > 0 || text::ends(last, ","@) || text::ends(last, "\\"@) {
            Some(open)
        } else {
            None
        },
        None => None,
    }
}

/// How many groups an import statement has open behind the first lines, if one goes on there.
pub open spec fn statement_behind(all: Seq<Seq<char>>, count: int) -> Option<nat>
    decreases count,
{
    if count <= 0 {
        None
    } else {
        let line = all[count - 1];
        if imports(line) {
            if may_go_on(line) {
                open_behind(line, 0)
            } else {
                None
            }
        } else {
            match statement_behind(all, count - 1) {
                Some(depth) => open_behind(line, depth),
                None => None,
            }
        }
    }
}

/// Whether a line, counted from zero, is part of an import statement: it begins one, or one goes on
/// behind the line before it.
pub open spec fn in_statement(all: Seq<Seq<char>>, at: int) -> bool {
    imports(all[at]) || statement_behind(all, at) is Some
}

/// The lines among the first of a source that import a name, ascending.
pub open spec fn import_lines_of(source: Seq<char>, name: Seq<char>, count: int) -> Seq<u32>
    decreases count,
{
    if count <= 0 {
        Seq::empty()
    } else {
        let before = import_lines_of(source, name, count - 1);
        if in_statement(coordinates::lines(source), count - 1) && occurrences::on_line(
            source,
            count as u32,
            name,
        ).len() > 0 {
            before.push(count as u32)
        } else {
            before
        }
    }
}

/// A part opens no more groups than it has characters.
proof fn lemma_left_open(part: Seq<char>, depth: nat)
    ensures
        left_open(part, depth) matches Some(open) ==> open <= depth + part.len(),
    decreases part.len(),
{
    if part.len() > 0 {
        let rest = part.drop_first();
        lemma_left_open(rest, depth + 1);
        lemma_left_open(rest, depth);
        if depth > 0 {
            lemma_left_open(rest, (depth - 1) as nat);
        }
    }
}

/// A text has no more characters than bytes.
proof fn lemma_characters(t: Seq<char>)
    ensures
        t.len() <= text::bytes(t).len(),
{
    lemma_units(t);
    coordinates::lemma_utf16_length(t);
}

/// A text has no more characters than UTF-16 units.
proof fn lemma_units(t: Seq<char>)
    ensures
        t.len() <= coordinates::utf16_length(t),
    decreases t.len(),
{
    if t.len() > 0 {
        lemma_units(t.drop_last());
    }
}

/// Whether a line begins an import statement.
fn is_import(line: &str) -> (found: bool)
    ensures
        found == imports(line@),
{
    let head = words::trim_start(line);
    text::starts_with(head, "import ") || text::starts_with(head, "use ") || text::starts_with(
        head,
        "pub use ",
    ) || text::starts_with(head, "from ") || text::starts_with(head, "export ")
}

/// Whether an import statement may go on behind the line it begins on.
fn can_go_on(line: &str) -> (found: bool)
    ensures
        found == may_go_on(line@),
{
    match text::strip_prefix(words::trim_start(line), "export ") {
        Some(exported) => {
            let rest = words::trim_start(exported);
            text::starts_with(rest, "{") || match text::strip_prefix(rest, "type ") {
                Some(named) => text::starts_with(words::trim_start(named), "{"),
                None => false,
            }
        },
        None => is_import(line),
    }
}

/// How many groups a part of an import statement leaves open, if the statement goes on at all.
fn count_open(part: &str, depth: usize) -> (open: Option<usize>)
    requires
        depth + part@.len() <= usize::MAX,
    ensures
        match (open, left_open(part@, depth as nat)) {
            (Some(found), Some(expected)) => found == expected,
            (None, None) => true,
            _ => false,
        },
{
    let characters = words::chars(part);
    let mut open: usize = depth;
    let mut i: usize = 0;
    assert(part@.skip(0) =~= part@);
    while i < characters.len()
        invariant
            i <= characters@.len(),
            characters@ == part@,
            open <= depth + i,
            depth + part@.len() <= usize::MAX,
            left_open(part@, depth as nat) == left_open(part@.skip(i as int), open as nat),
        decreases characters@.len() - i,
    {
        let c = characters[i];
        proof {
            assert(part@.skip(i as int)[0] == c);
            assert(part@.skip(i as int).drop_first() =~= part@.skip(i + 1));
        }
        if c == ';' || (open == 0 && (c == '\'' || c == '"' || c == '`' || c == '/' || c == '#')) {
            return None;
        } else if c == '{' || c == '(' {
            open += 1;
        } else if (c == '}' || c == ')') && open > 0 {
            open -= 1;
        }
        i += 1;
    }
    assert(part@.skip(i as int).len() == 0);
    Some(open)
}

/// How many groups an import statement has open behind a line of it, if it goes on there.
fn go_on(line: &str, depth: usize) -> (open: Option<usize>)
    requires
        depth + line@.len() <= usize::MAX,
    ensures
        match (open, open_behind(line@, depth as nat)) {
            (Some(found), Some(expected)) => found == expected,
            (None, None) => true,
            _ => false,
        },
{
    let last = words::trim_end(line);
    match count_open(line, depth) {
        Some(open) => if open > 0 || text::ends_with(last, ",") || text::ends_with(last, "\\") {
            Some(open)
        } else {
            None
        },
        None => None,
    }
}

/// Lines of an import statement, which in an importing file name this symbol and no other.
///
/// Without these a rename leaves the file importing a name that no longer exists: the call was
/// updated and the import was not. The proof is the graph's own import edge: this file brings in
/// the file that declares the symbol, so the name on a line of its import is that symbol, also
/// where the statement takes several lines.
pub fn import_lines(source: &str, name: &str) -> (found: Vec<u32>)
    requires
        text::bytes(source@).len() < u32::MAX,
    ensures
        found@ == import_lines_of(source@, name@, coordinates::lines(source@).len() as int),
{
    let all = text::split_all(source, 10);
    let mut found: Vec<u32> = Vec::new();
    let ghost lines = coordinates::lines(source@);
    proof {
        coordinates::lemma_line_count(source@);
    }
    let mut state: Option<usize> = None;
    let mut i: usize = 0;
    while i < all.len()
        invariant
            i <= all@.len() <= u32::MAX,
            text::bytes(source@).len() < u32::MAX,
            lines == coordinates::lines(source@),
            text::views(all@) == lines,
            match (state, statement_behind(lines, i as int)) {
                (Some(depth), Some(expected)) => depth == expected && depth
                    <= coordinates::line_start(lines, i as int),
                (None, None) => true,
                _ => false,
            },
            found@ == import_lines_of(source@, name@, i as int),
        decreases all@.len() - i,
    {
        let line: u32 = (i + 1) as u32;
        let content = all[i];
        proof {
            assert(text::views(all@)[i as int] == content@);
            coordinates::lemma_line_bytes(source@, i as int);
            lemma_characters(content@);
            lemma_left_open(content@, 0);
            if state is Some {
                lemma_left_open(content@, state->0 as nat);
            }
        }
        let begins = is_import(content);
        let goes_on = match state {
            Some(_) => true,
            None => false,
        };
        if begins || goes_on {
            if occurrences::occurrences_on_line(source, line, name).len() > 0 {
                found.push(line);
            }
        }
        state = if begins {
            if can_go_on(content) {
                go_on(content, 0)
            } else {
                None
            }
        } else {
            match state {
                Some(depth) => go_on(content, depth),
                None => None,
            }
        };
        i += 1;
    }
    found
}

/// No line of an import statement that names the symbol is passed over: neither the one it begins
/// on nor any it goes on to.
pub proof fn law_an_import_takes_all_its_lines(source: Seq<char>, name: Seq<char>, at: int)
    requires
        0 <= at < coordinates::lines(source).len() <= u32::MAX,
        in_statement(coordinates::lines(source), at),
        occurrences::on_line(source, (at + 1) as u32, name).len() > 0,
    ensures
        import_lines_of(source, name, coordinates::lines(source).len() as int).contains(
            (at + 1) as u32,
        ),
{
    lemma_import_line_kept(source, name, at, coordinates::lines(source).len() as int);
}

/// A line that imports a name stays among those found.
proof fn lemma_import_line_kept(source: Seq<char>, name: Seq<char>, at: int, count: int)
    requires
        0 <= at < count <= u32::MAX,
        in_statement(coordinates::lines(source), at),
        occurrences::on_line(source, (at + 1) as u32, name).len() > 0,
    ensures
        import_lines_of(source, name, count).contains((at + 1) as u32),
    decreases count,
{
    let found = import_lines_of(source, name, count);
    if at == count - 1 {
        assert(found.last() == (at + 1) as u32);
    } else {
        lemma_import_line_kept(source, name, at, count - 1);
        let before = import_lines_of(source, name, count - 1);
        let k = choose|k: int| 0 <= k < before.len() && before[k] == (at + 1) as u32;
        assert(found[k] == (at + 1) as u32);
    }
}

} // verus!
