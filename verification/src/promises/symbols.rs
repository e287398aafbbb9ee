//! What the operations on one symbol promise: where an edit of a declaration lands, what a move of
//! one does to the dependencies between files, and what is known before one is deleted.

use crate::declaration;
use crate::declaration::DeclarationRange;
use crate::evidence;
use crate::fit;
use crate::graph::{Edge, Node, Repository};
use crate::json;
use crate::json::JsonView;
use crate::operations;
use crate::operations::cycles;
use crate::operations::delete_readiness;
use crate::operations::edit_symbol;
use crate::operations::edit_symbol::AnchorView;
use crate::operations::move_symbol;
use crate::operations::rename_plan;
use crate::order;
use crate::parse;
use crate::parse::DeclarationView;
use crate::plan;
use crate::plan::{BuilderView, EditView};
use crate::promises::plans;
use crate::promises::signature::plan_read;
use crate::resolve;
use crate::text;
use vstd::prelude::*;
use vstd::string::*;

verus! {

/// Whether a declaration is the one that a symbol on a line means: it has the symbol's name, and is
/// on the line where any with that name is; and it is the first of its kind.
pub open spec fn meant(
    declarations: Seq<DeclarationView>,
    name: Seq<char>,
    line: u32,
    at: int,
) -> bool {
    let on_line = exists|k: int|
        0 <= k < declarations.len() && (#[trigger] declarations[k]).name == name
            && declarations[k].line == line;
    &&& 0 <= at < declarations.len()
    &&& declarations[at].name == name
    &&& on_line ==> declarations[at].line == line
    &&& forall|k: int|
        0 <= k < at && (#[trigger] declarations[k]).name == name ==> on_line && declarations[k].line
            != line
}

/// What is found from a declaration on is the first from there.
proof fn lemma_named_from(
    declarations: Seq<DeclarationView>,
    name: Seq<char>,
    line: Option<u32>,
    from: int,
)
    requires
        0 <= from,
    ensures
        match declaration::named_from(declarations, name, line, from) {
            Some(at) => from <= at < declarations.len() && declarations[at].name == name && (line is Some
                ==> declarations[at].line == line->0) && forall|k: int|
                from <= k < at ==> (#[trigger] declarations[k]).name != name || (line is Some
                    && declarations[k].line != line->0),
            None => forall|k: int|
                from <= k < declarations.len() ==> (#[trigger] declarations[k]).name != name || (line is Some
                    && declarations[k].line != line->0),
        },
    decreases declarations.len() - from,
{
    if from < declarations.len() && !(declarations[from].name == name && (line is Some
        ==> declarations[from].line == line->0)) {
        lemma_named_from(declarations, name, line, from + 1);
    }
}

/// A symbol is located at the start of the declaration that it means, and nowhere where there is
/// none.
pub proof fn law_a_symbol_is_located_at_its_declaration(
    source: Seq<char>,
    path: Seq<char>,
    name: Seq<char>,
    line: u32,
    facts: parse::FactsView,
    language: weavatrix_parse::Language,
)
    requires
        parse::known_facts(path, source) == Some(facts),
        parse::path_language(path) == Some(language),
    ensures
        declaration::located(source, path, name, line) is Some <==> exists|k: int|
            0 <= k < facts.declarations.len() && (#[trigger] facts.declarations[k]).name == name,
        declaration::located(source, path, name, line) matches Some(range) ==> exists|at: int|
            #[trigger] meant(facts.declarations, name, line, at) && range.start
                == facts.declarations[at].start && (range.end_proven || range.end
                == facts.declarations[at].end),
{
    let all = facts.declarations;
    lemma_named_from(all, name, Some(line), 0);
    lemma_named_from(all, name, None, 0);
    match declaration::picked(all, name, line) {
        Some(at) => {
            assert(all[at].name == name);
            assert(meant(all, name, line, at));
        },
        None => {},
    }
}

/// Where an operation on a declaration lands: over all of it, just before it, or just behind it.
pub open spec fn lands(operation: Seq<char>, range: DeclarationRange) -> (int, int) {
    if operation == "replace_symbol_body"@ {
        (range.start as int, range.end as int)
    } else if operation == "insert_before_symbol"@ {
        (range.start as int, range.start as int)
    } else {
        (range.end as int, range.end as int)
    }
}

/// An edit of a symbol lands on its declaration: one that replaces it takes all of it, and one that
/// inserts goes just before or just behind it, and writes the content as it was given. There is one
/// edit, in the declaring file. Where the end of the declaration is not proven, nothing is planned
/// that would need it.
pub proof fn law_an_edit_lands_on_the_declaration(
    repository: Repository,
    arguments: JsonView,
    symbol: Seq<char>,
    operation: Seq<char>,
    content: Seq<char>,
    at: int,
    source: Seq<char>,
    range: DeclarationRange,
)
    requires
        arguments.text("symbol"@) == Some(symbol),
        arguments.text("operation"@) == Some(operation),
        arguments.text("content"@) == Some(content),
        operation == "replace_symbol_body"@ || operation == "insert_before_symbol"@ || operation
            == "insert_after_symbol"@,
        resolve::resolved(repository.graph.nodes@, symbol) == Some(at),
        repository.graph.nodes@[at].span matches Some(span) && evidence::source_of(
            repository.sources@,
            span.file@,
        ) == Some(source) && declaration::located(
            source,
            span.file@,
            repository.graph.nodes@[at].label@,
            span.start_line,
        ) == Some(range),
        range.start <= range.end,
    ensures
        ({
            let answer = edit_symbol::edit_symbol_answer(repository, arguments);
            let path = repository.graph.nodes@[at].span->0.file@;
            let (from, to) = lands(operation, range);
            if !range.end_proven && operation != "insert_before_symbol"@ {
                answer.text("status"@) == Some("NOT_SUPPORTED"@) && plan_read(answer) is None
            } else if edit_symbol::plan_position(source, from) is Some
                && edit_symbol::plan_position(source, to) is Some {
                &&& answer.text("status"@) == Some("PLANNED"@)
                &&& plan_read(answer) matches Some(plan) && (exists|edit: EditView| #[trigger]
                    rename_plan::files_hold(plan.files, path, edit)) && forall|
                    p: Seq<char>,
                    edit: EditView,
                | #[trigger]
                    rename_plan::files_hold(plan.files, p, edit) ==> p == path && edit.after
                        == content && fit::stands_at(source, edit, from, to)
            } else {
                plan_read(answer) is None
            }
        }),
{
    broadcast use json::lemma_with_get;

    reveal(edit_symbol::edit_symbol_answer);
    fit::lemma_plan_key();
    let answer = edit_symbol::edit_symbol_answer(repository, arguments);
    let node = repository.graph.nodes@[at];
    let path = node.span->0.file@;
    let anchor = AnchorView { file: path, source, label: node.label@, declaration: range };
    let (from, to) = lands(operation, range);
    fit::lemma_source_bound(repository.sources@, path);
    if (range.end_proven || operation == "insert_before_symbol"@) && edit_symbol::plan_position(
        source,
        from,
    ) is Some && edit_symbol::plan_position(source, to) is Some {
        let edit = edit_symbol::edit_for(anchor, operation, content)->0;
        edit_symbol::law_the_plan_reads_back(anchor, operation, content);
        let empty = BuilderView::start("edit_symbol"@);
        let built = edit_symbol::plan_for(anchor, edit);
        plans::lemma_edit_added(empty, path, plan::sha256_hex(source), edit);
        plans::lemma_finished(built, path, edit);
        let plan = plan_read(answer)->0;
        assert(plan == built.plan());
        assert(rename_plan::files_hold(plan.files, path, edit));
        let start = crate::coordinates::position(source, from)->0;
        let end = crate::coordinates::position(source, to)->0;
        fit::lemma_position_names(source, from, start.0, start.1);
        fit::lemma_position_names(source, to, end.0, end.1);
        if from == to {
            assert(text::bytes(source).subrange(from, to) =~= Seq::<u8>::empty());
            assert(text::bytes(Seq::<char>::empty()) =~= Seq::<u8>::empty());
            vstd::utf8::encode_utf8_decode_utf8(Seq::<char>::empty());
        }
        assert(fit::stands_at(source, edit, from, to));
        assert forall|p: Seq<char>, one: EditView| #[trigger]
            rename_plan::files_hold(plan.files, p, one) implies p == path && one.after == content
            && fit::stands_at(source, one, from, to) by {
            plans::lemma_unfinished(built, p, one);
            plans::lemma_edit_alone(empty, path, plan::sha256_hex(source), edit, p, one);
        }
    }
}

/// Whether a node lives in a file: the one that declares it, or else the one it is labelled with.
pub open spec fn lives_in(node: Node, file: Seq<char>) -> bool {
    file.len() > 0 && file == match node.span {
        Some(span) => span.file@,
        None => node.label@,
    }
}

/// Whether a symbol lives in a file: the last node with its id that lives in one lives there; but a
/// symbol that was moved lives where it was moved to.
pub open spec fn symbol_in(
    nodes: Seq<Node>,
    id: Seq<char>,
    moved: Option<(Seq<char>, Seq<char>)>,
    file: Seq<char>,
) -> bool {
    if moved is Some && (moved->0).0 == id {
        file == (moved->0).1
    } else {
        exists|n: int| last_home(nodes, id, file, n)
    }
}

/// Whether a node is the last with an id that lives in a file, and lives in a given one.
pub open spec fn last_home(nodes: Seq<Node>, id: Seq<char>, file: Seq<char>, n: int) -> bool {
    &&& 0 <= n < nodes.len()
    &&& nodes[n].id@ == id
    &&& lives_in(nodes[n], file)
    &&& forall|k: int|
        n < k < nodes.len() && (#[trigger] nodes[k]).id@ == id ==> !lives_somewhere(nodes[k])
}

/// Whether a node lives in some file.
pub open spec fn lives_somewhere(node: Node) -> bool {
    match node.span {
        Some(span) => span.file@.len() > 0,
        None => node.label@.len() > 0,
    }
}

/// The file that a symbol lives in is the one it is taken to be owned by.
proof fn lemma_owner(nodes: Seq<Node>, id: Seq<char>, file: Seq<char>)
    ensures
        move_symbol::owner(nodes, id) == Some(file) <==> exists|n: int|
            last_home(nodes, id, file, n),
    decreases nodes.len(),
{
    if nodes.len() > 0 {
        let rest = nodes.drop_last();
        let last = nodes.len() - 1;
        lemma_owner(rest, id, file);
        if nodes.last().id@ == id && lives_somewhere(nodes.last()) {
            if move_symbol::owner(nodes, id) == Some(file) {
                assert(last_home(nodes, id, file, last));
            }
            if exists|n: int| last_home(nodes, id, file, n) {
                let n = choose|n: int| last_home(nodes, id, file, n);
                assert(nodes[last].id@ == id);
                assert(n == last);
            }
        } else {
            if move_symbol::owner(rest, id) == Some(file) {
                let n = choose|n: int| last_home(rest, id, file, n);
                assert(nodes[n] == rest[n]);
                assert forall|k: int|
                    n < k < nodes.len() && (#[trigger] nodes[k]).id@ == id implies !lives_somewhere(
                    nodes[k],
                ) by {
                    if k < last {
                        assert(rest[k] == nodes[k]);
                    }
                }
                assert(last_home(nodes, id, file, n));
            }
            if exists|n: int| last_home(nodes, id, file, n) {
                let n = choose|n: int| last_home(nodes, id, file, n);
                assert(rest[n] == nodes[n]);
                assert forall|k: int|
                    n < k < rest.len() && (#[trigger] rest[k]).id@ == id implies !lives_somewhere(
                    rest[k],
                ) by {
                    assert(nodes[k] == rest[k]);
                }
                assert(last_home(rest, id, file, n));
            }
        }
    } else {
        assert forall|n: int| !last_home(nodes, id, file, n) by {}
    }
}

/// The file that a symbol lives in once one was moved.
proof fn lemma_owner_after(
    nodes: Seq<Node>,
    id: Seq<char>,
    moved: Option<(Seq<char>, Seq<char>)>,
    file: Seq<char>,
)
    ensures
        move_symbol::owner_after(nodes, id, moved) == Some(file) <==> symbol_in(
            nodes,
            id,
            moved,
            file,
        ),
{
    lemma_owner(nodes, id, file);
}

/// Whether an edge makes one file depend on another: it is no containment, and its ends live in
/// different files.
pub open spec fn makes_dependency(
    nodes: Seq<Node>,
    edge: Edge,
    moved: Option<(Seq<char>, Seq<char>)>,
    pair: (Seq<char>, Seq<char>),
) -> bool {
    &&& edge.kind@ != "contains"@
    &&& symbol_in(nodes, edge.source@, moved, pair.0)
    &&& symbol_in(nodes, edge.target@, moved, pair.1)
    &&& pair.0 != pair.1
}

/// Whether some edge makes one file depend on another.
pub open spec fn depends(
    nodes: Seq<Node>,
    edges: Seq<Edge>,
    moved: Option<(Seq<char>, Seq<char>)>,
    pair: (Seq<char>, Seq<char>),
) -> bool {
    exists|e: int|
        0 <= e < edges.len() && makes_dependency(nodes, #[trigger] edges[e], moved, pair)
}

/// Putting a pair into a list adds that pair alone.
proof fn lemma_pair_inserted(
    list: Seq<(Seq<char>, Seq<char>)>,
    item: (Seq<char>, Seq<char>),
    one: (Seq<char>, Seq<char>),
)
    ensures
        order::pair_inserted(list, item).contains(one) <==> list.contains(one) || one == item,
    decreases list.len(),
{
    let out = order::pair_inserted(list, item);
    if list.len() == 0 {
        assert(out[0] == item);
    } else if list[0] == item {
        assert(list.contains(item));
    } else if order::pair_before(item, list[0]) {
        assert(out[0] == item);
        if list.contains(one) {
            let i = choose|i: int| 0 <= i < list.len() && list[i] == one;
            assert(out[i + 1] == one);
        }
        if out.contains(one) && one != item {
            let i = choose|i: int| 0 <= i < out.len() && out[i] == one;
            assert(list[i - 1] == one);
        }
    } else {
        let rest = list.drop_first();
        let tail = order::pair_inserted(rest, item);
        lemma_pair_inserted(rest, item, one);
        assert(out[0] == list[0]);
        if list.contains(one) && one != list[0] {
            let i = choose|i: int| 0 <= i < list.len() && list[i] == one;
            assert(rest[i - 1] == one);
        }
        if tail.contains(one) {
            let i = choose|i: int| 0 <= i < tail.len() && tail[i] == one;
            assert(out[i + 1] == one);
        }
        if rest.contains(one) {
            let i = choose|i: int| 0 <= i < rest.len() && rest[i] == one;
            assert(list[i + 1] == one);
        }
        if out.contains(one) && one != list[0] {
            let i = choose|i: int| 0 <= i < out.len() && out[i] == one;
            assert(tail[i - 1] == one);
        }
    }
}

/// The dependencies between files are exactly those that some edge makes.
pub proof fn law_the_dependencies_are_those_the_edges_make(
    nodes: Seq<Node>,
    edges: Seq<Edge>,
    moved: Option<(Seq<char>, Seq<char>)>,
    pair: (Seq<char>, Seq<char>),
)
    ensures
        move_symbol::dependencies(nodes, edges, moved).contains(pair) <==> depends(
            nodes,
            edges,
            moved,
            pair,
        ),
    decreases edges.len(),
{
    if edges.len() > 0 {
        let rest = edges.drop_last();
        let edge = edges.last();
        let before = move_symbol::dependencies(nodes, rest, moved);
        law_the_dependencies_are_those_the_edges_make(nodes, rest, moved, pair);
        lemma_owner_after(nodes, edge.source@, moved, pair.0);
        lemma_owner_after(nodes, edge.target@, moved, pair.1);
        let source = move_symbol::owner_after(nodes, edge.source@, moved);
        let target = move_symbol::owner_after(nodes, edge.target@, moved);
        if source is Some && target is Some {
            lemma_pair_inserted(before, (source->0, target->0), pair);
        }
        if depends(nodes, rest, moved, pair) {
            let e = choose|e: int|
                0 <= e < rest.len() && makes_dependency(nodes, #[trigger] rest[e], moved, pair);
            assert(edges[e] == rest[e]);
        }
        if makes_dependency(nodes, edge, moved, pair) {
            assert(edges[edges.len() - 1] == edge);
        }
        if depends(nodes, edges, moved, pair) {
            let e = choose|e: int|
                0 <= e < edges.len() && makes_dependency(nodes, #[trigger] edges[e], moved, pair);
            if e < rest.len() {
                assert(rest[e] == edges[e]);
            }
        }
    }
}

/// The pairs that another list does not hold are those.
proof fn lemma_missing_from(
    first: Seq<(Seq<char>, Seq<char>)>,
    other: Seq<(Seq<char>, Seq<char>)>,
    pair: (Seq<char>, Seq<char>),
)
    ensures
        move_symbol::missing_from(first, other).contains(pair) <==> first.contains(pair)
            && !other.contains(pair),
    decreases first.len(),
{
    if first.len() > 0 {
        let rest = first.drop_last();
        let before = move_symbol::missing_from(rest, other);
        let all = move_symbol::missing_from(first, other);
        lemma_missing_from(rest, other, pair);
        assert(first[first.len() - 1] == first.last());
        if rest.contains(pair) {
            let i = choose|i: int| 0 <= i < rest.len() && rest[i] == pair;
            assert(first[i] == pair);
        }
        if first.contains(pair) && pair != first.last() {
            let i = choose|i: int| 0 <= i < first.len() && first[i] == pair;
            assert(rest[i] == pair);
        }
        if before.contains(pair) {
            let i = choose|i: int| 0 <= i < before.len() && before[i] == pair;
            assert(all[i] == pair);
        }
        if all.contains(pair) {
            let i = choose|i: int| 0 <= i < all.len() && all[i] == pair;
            if i < before.len() {
                assert(before[i] == pair);
            }
        }
        if all.len() > before.len() {
            assert(all[before.len() as int] == first.last());
        }
    }
}

/// The dependencies on a cycle are those of which the target leads back to the source.
proof fn lemma_cyclic(
    edges: Seq<(Seq<char>, Seq<char>)>,
    first: Seq<(Seq<char>, Seq<char>)>,
    pair: (Seq<char>, Seq<char>),
)
    ensures
        cycles::cyclic(edges, first).contains(pair) <==> first.contains(pair) && pair.0 != pair.1
            && cycles::reachable(edges, pair.1, pair.0),
    decreases first.len(),
{
    if first.len() > 0 {
        let rest = first.drop_last();
        let before = cycles::cyclic(edges, rest);
        let all = cycles::cyclic(edges, first);
        lemma_cyclic(edges, rest, pair);
        assert(first[first.len() - 1] == first.last());
        if rest.contains(pair) {
            let i = choose|i: int| 0 <= i < rest.len() && rest[i] == pair;
            assert(first[i] == pair);
        }
        if first.contains(pair) && pair != first.last() {
            let i = choose|i: int| 0 <= i < first.len() && first[i] == pair;
            assert(rest[i] == pair);
        }
        if before.contains(pair) {
            let i = choose|i: int| 0 <= i < before.len() && before[i] == pair;
            assert(all[i] == pair);
        }
        if all.contains(pair) {
            let i = choose|i: int| 0 <= i < all.len() && all[i] == pair;
            if i < before.len() {
                assert(before[i] == pair);
            }
        }
        if all.len() > before.len() {
            assert(all[before.len() as int] == first.last());
        }
    }
}

/// Whether one of some files depends on the next.
pub open spec fn step(
    nodes: Seq<Node>,
    edges: Seq<Edge>,
    moved: Option<(Seq<char>, Seq<char>)>,
    files: Seq<Seq<char>>,
    i: int,
) -> bool {
    depends(nodes, edges, moved, (files[i], files[i + 1]))
}

/// Whether files lead from one to another, each depending on the next.
pub open spec fn route(
    nodes: Seq<Node>,
    edges: Seq<Edge>,
    moved: Option<(Seq<char>, Seq<char>)>,
    files: Seq<Seq<char>>,
    from: Seq<char>,
    to: Seq<char>,
) -> bool {
    &&& files.len() >= 2
    &&& files[0] == from
    &&& files.last() == to
    &&& forall|i: int|
        0 <= i < files.len() - 1 ==> #[trigger] step(nodes, edges, moved, files, i)
}

/// Whether a dependency lies on a cycle: its target leads back to its source.
pub open spec fn on_cycle(
    nodes: Seq<Node>,
    edges: Seq<Edge>,
    moved: Option<(Seq<char>, Seq<char>)>,
    pair: (Seq<char>, Seq<char>),
) -> bool {
    depends(nodes, edges, moved, pair) && exists|files: Seq<Seq<char>>|
        route(nodes, edges, moved, files, pair.1, pair.0)
}

/// A chain of dependencies is one of files.
proof fn lemma_route_of_chain(
    nodes: Seq<Node>,
    edges: Seq<Edge>,
    moved: Option<(Seq<char>, Seq<char>)>,
    from: Seq<char>,
    to: Seq<char>,
    chain: Seq<int>,
)
    requires
        cycles::leads(move_symbol::dependencies(nodes, edges, moved), from, to, chain),
    ensures
        exists|files: Seq<Seq<char>>| route(nodes, edges, moved, files, from, to),
{
    let all = move_symbol::dependencies(nodes, edges, moved);
    let count = chain.len() as int;
    let files = Seq::new(
        chain.len() + 1,
        |i: int|
            if i < count {
                all[chain[i]].0
            } else {
                to
            },
    );
    assert forall|i: int| 0 <= i < files.len() - 1 implies #[trigger] step(
        nodes,
        edges,
        moved,
        files,
        i,
    ) by {
        let k = chain[i];
        let pair = all[k];
        assert(all.contains(pair));
        law_the_dependencies_are_those_the_edges_make(nodes, edges, moved, pair);
        assert(files[i] == pair.0);
        if i + 1 < count {
            assert(all[chain[i]].1 == all[chain[i + 1]].0);
            assert(files[i + 1] == pair.1);
        } else {
            assert(k == chain.last());
            assert(files[i + 1] == pair.1);
        }
    }
    assert(files[0] == from);
    assert(files.last() == to);
    assert(route(nodes, edges, moved, files, from, to));
}

/// Files that lead from one to another are a chain of dependencies.
proof fn lemma_chain_of_route(
    nodes: Seq<Node>,
    edges: Seq<Edge>,
    moved: Option<(Seq<char>, Seq<char>)>,
    from: Seq<char>,
    to: Seq<char>,
    files: Seq<Seq<char>>,
)
    requires
        route(nodes, edges, moved, files, from, to),
    ensures
        cycles::reachable(move_symbol::dependencies(nodes, edges, moved), from, to),
{
    let all = move_symbol::dependencies(nodes, edges, moved);
    let count = files.len() - 1;
    let chain = Seq::new(count as nat, |i: int| place_of(all, (files[i], files[i + 1])));
    assert forall|i: int| 0 <= i < count implies 0 <= #[trigger] chain[i] < all.len()
        && all[chain[i]].0 == files[i] && all[chain[i]].1 == files[i + 1] by {
        let pair = (files[i], files[i + 1]);
        assert(step(nodes, edges, moved, files, i));
        law_the_dependencies_are_those_the_edges_make(nodes, edges, moved, pair);
        let k = choose|k: int| 0 <= k < all.len() && all[k] == pair;
        assert(is_place(all, pair, k));
        assert(is_place(all, pair, chain[i]));
    }
    assert forall|i: int| 0 <= i < chain.len() - 1 implies all[#[trigger] chain[i]].1 == all[chain[i
        + 1]].0 by {
        assert(all[chain[i + 1]].0 == files[i + 1]);
    }
    assert(all[chain[0]].0 == from);
    assert(chain.last() == chain[count - 1]);
    assert(all[chain[count - 1]].1 == files[count]);
    assert(cycles::leads(all, from, to, chain));
}

/// Files that lead from one to another are a chain of dependencies, and the other way round.
proof fn lemma_route(
    nodes: Seq<Node>,
    edges: Seq<Edge>,
    moved: Option<(Seq<char>, Seq<char>)>,
    from: Seq<char>,
    to: Seq<char>,
)
    ensures
        cycles::reachable(move_symbol::dependencies(nodes, edges, moved), from, to)
            <==> exists|files: Seq<Seq<char>>| route(nodes, edges, moved, files, from, to),
{
    let all = move_symbol::dependencies(nodes, edges, moved);
    if cycles::reachable(all, from, to) {
        let chain = choose|chain: Seq<int>| cycles::leads(all, from, to, chain);
        lemma_route_of_chain(nodes, edges, moved, from, to, chain);
    }
    if exists|files: Seq<Seq<char>>| route(nodes, edges, moved, files, from, to) {
        let files = choose|files: Seq<Seq<char>>| route(nodes, edges, moved, files, from, to);
        lemma_chain_of_route(nodes, edges, moved, from, to, files);
    }
}

/// Whether a pair stands at a place of a list.
spec fn is_place(list: Seq<(Seq<char>, Seq<char>)>, pair: (Seq<char>, Seq<char>), k: int) -> bool {
    0 <= k < list.len() && list[k] == pair
}

/// A place where a pair stands.
spec fn place_of(list: Seq<(Seq<char>, Seq<char>)>, pair: (Seq<char>, Seq<char>)) -> int {
    choose|k: int| is_place(list, pair, k)
}

/// The dependencies that lie on a cycle are those that are found to.
proof fn lemma_cycles(
    nodes: Seq<Node>,
    edges: Seq<Edge>,
    moved: Option<(Seq<char>, Seq<char>)>,
    pair: (Seq<char>, Seq<char>),
)
    ensures
        cycles::cycles_of(move_symbol::dependencies(nodes, edges, moved)).contains(pair)
            <==> on_cycle(nodes, edges, moved, pair),
{
    let all = move_symbol::dependencies(nodes, edges, moved);
    law_the_dependencies_are_those_the_edges_make(nodes, edges, moved, pair);
    lemma_cyclic(all, all, pair);
    lemma_route(nodes, edges, moved, pair.1, pair.0);
}

/// Whether a file uses a symbol from elsewhere.
pub open spec fn uses_symbol(
    nodes: Seq<Node>,
    edges: Seq<Edge>,
    id: Seq<char>,
    from: Seq<char>,
    file: Seq<char>,
) -> bool {
    file != from && exists|e: int|
        0 <= e < edges.len() && (#[trigger] edges[e]).kind@ != "contains"@ && edges[e].target@ == id
            && symbol_in(nodes, edges[e].source@, None, file)
}

/// The importers of a symbol are the files that use it from elsewhere.
proof fn lemma_importers(nodes: Seq<Node>, edges: Seq<Edge>, id: Seq<char>, from: Seq<char>)
    ensures
        order::ascending(move_symbol::importers(nodes, edges, id, from)),
        forall|file: Seq<char>| #[trigger]
            move_symbol::importers(nodes, edges, id, from).contains(file) <==> uses_symbol(
                nodes,
                edges,
                id,
                from,
                file,
            ),
    decreases edges.len(),
{
    if edges.len() > 0 {
        let rest = edges.drop_last();
        let edge = edges.last();
        let before = move_symbol::importers(nodes, rest, id, from);
        let all = move_symbol::importers(nodes, edges, id, from);
        lemma_importers(nodes, rest, id, from);
        let owner = move_symbol::owner(nodes, edge.source@);
        if owner is Some {
            order::lemma_inserted(before, owner->0);
        }
        assert forall|file: Seq<char>| #[trigger] all.contains(file) <==> uses_symbol(
            nodes,
            edges,
            id,
            from,
            file,
        ) by {
            assert(before.contains(file) <==> uses_symbol(nodes, rest, id, from, file));
            lemma_owner(nodes, edge.source@, file);
            assert(edges[edges.len() - 1] == edge);
            if uses_symbol(nodes, rest, id, from, file) {
                let e = choose|e: int|
                    0 <= e < rest.len() && (#[trigger] rest[e]).kind@ != "contains"@
                        && rest[e].target@ == id && symbol_in(nodes, rest[e].source@, None, file);
                assert(edges[e] == rest[e]);
            }
            if all.contains(file) && !before.contains(file) {
                assert(symbol_in(nodes, edges[edges.len() - 1].source@, None, file));
            }
            if uses_symbol(nodes, edges, id, from, file) {
                let e = choose|e: int|
                    0 <= e < edges.len() && (#[trigger] edges[e]).kind@ != "contains"@
                        && edges[e].target@ == id && symbol_in(nodes, edges[e].source@, None, file);
                if e < rest.len() {
                    assert(rest[e] == edges[e]);
                    assert(before.contains(file));
                }
            }
        }
    }
}

/// Whether a list of an object holds a value.
pub open spec fn holds_value(object: Option<JsonView>, key: Seq<char>, value: JsonView) -> bool {
    object matches Some(inner) && inner.list(key) matches Some(values) && values.contains(value)
}

/// A pair as a list of two texts.
pub open spec fn as_list(pair: (Seq<char>, Seq<char>)) -> JsonView {
    JsonView::List(seq![JsonView::Text(pair.0), JsonView::Text(pair.1)])
}

/// A move of a symbol is judged by the cycles it makes: it is feasible exactly where every
/// dependency that lies on a cycle once the symbol lives in the new file already lay on one before.
/// The cycles that are said to come and to go are those that do, the importers are the files that
/// use the symbol from elsewhere, and the new dependencies are those that were none before.
pub proof fn law_a_move_is_judged_by_the_cycles_it_makes(
    repository: Repository,
    arguments: JsonView,
    symbol: Seq<char>,
    to_file: Seq<char>,
    at: int,
    pair: (Seq<char>, Seq<char>),
    file: Seq<char>,
)
    requires
        arguments.text("symbol"@) == Some(symbol),
        arguments.text("to_file"@) == Some(to_file),
        resolve::resolved(repository.graph.nodes@, symbol) == Some(at),
        repository.graph.nodes@[at].span is Some,
    ensures
        ({
            let nodes = repository.graph.nodes@;
            let edges = repository.graph.edges@;
            let node = nodes[at];
            let from = node.span->0.file@;
            let moved = Some((node.id@, to_file));
            let answer = move_symbol::move_symbol_answer(repository, arguments);
            if from == to_file {
                answer.text("status"@) == Some("NO_CHANGE"@)
            } else {
                &&& answer.text("status"@) == Some("EVALUATED"@)
                &&& answer.text("verdict"@) == Some("FEASIBLE"@) || answer.text("verdict"@) == Some(
                    "WOULD_VIOLATE"@,
                )
                &&& answer.text("verdict"@) == Some("FEASIBLE"@) && on_cycle(
                    nodes,
                    edges,
                    moved,
                    pair,
                ) ==> on_cycle(nodes, edges, None, pair)
                &&& answer.text("verdict"@) == Some("WOULD_VIOLATE"@) ==> exists|
                    new: (Seq<char>, Seq<char>),
                | #[trigger]
                    on_cycle(nodes, edges, moved, new) && !on_cycle(nodes, edges, None, new)
                &&& holds_value(answer.get("cycles"@), "introduced"@, as_list(pair)) <==> on_cycle(
                    nodes,
                    edges,
                    moved,
                    pair,
                ) && !on_cycle(nodes, edges, None, pair)
                &&& holds_value(answer.get("cycles"@), "removed"@, as_list(pair)) <==> on_cycle(
                    nodes,
                    edges,
                    None,
                    pair,
                ) && !on_cycle(nodes, edges, moved, pair)
                &&& holds_value(
                    answer.get("blastRadius"@),
                    "importers"@,
                    JsonView::Text(file),
                ) <==> uses_symbol(nodes, edges, node.id@, from, file)
                &&& holds_value(
                    answer.get("blastRadius"@),
                    "newDependencies"@,
                    move_symbol::dependency_value(pair),
                ) <==> depends(nodes, edges, moved, pair) && !depends(nodes, edges, None, pair)
            }
        }),
{
    broadcast use json::lemma_with_get;

    reveal(move_symbol::move_symbol_answer);
    lemma_move_keys();
    let nodes = repository.graph.nodes@;
    let edges = repository.graph.edges@;
    let node = nodes[at];
    let from = node.span->0.file@;
    let moved = Some((node.id@, to_file));
    let answer = move_symbol::move_symbol_answer(repository, arguments);
    let projection = move_symbol::projected(nodes, edges, node.id@, from, to_file);
    let before = move_symbol::dependencies(nodes, edges, None);
    let after = move_symbol::dependencies(nodes, edges, moved);
    if from != to_file {
        lemma_missing_from(cycles::cycles_of(after), cycles::cycles_of(before), pair);
        lemma_missing_from(cycles::cycles_of(before), cycles::cycles_of(after), pair);
        lemma_missing_from(after, before, pair);
        lemma_cycles(nodes, edges, None, pair);
        lemma_cycles(nodes, edges, moved, pair);
        law_the_dependencies_are_those_the_edges_make(nodes, edges, None, pair);
        law_the_dependencies_are_those_the_edges_make(nodes, edges, moved, pair);
        lemma_importers(nodes, edges, node.id@, from);
        lemma_pair_values(projection.introduced, pair);
        lemma_pair_values(projection.removed, pair);
        lemma_dependency_values(projection.new_dependencies, pair);
        lemma_texts(projection.importers, file);
        if projection.introduced.len() > 0 {
            let new = projection.introduced[0];
            assert(projection.introduced.contains(new));
            lemma_missing_from(cycles::cycles_of(after), cycles::cycles_of(before), new);
            lemma_cycles(nodes, edges, None, new);
            lemma_cycles(nodes, edges, moved, new);
            assert(on_cycle(nodes, edges, moved, new));
        }
    }
}

/// Pairs are listed as themselves.
proof fn lemma_pair_values(
    pairs: Seq<(Seq<char>, Seq<char>)>,
    pair: (Seq<char>, Seq<char>),
)
    ensures
        move_symbol::pair_values(pairs).contains(as_list(pair)) <==> pairs.contains(pair),
{
    let values = move_symbol::pair_values(pairs);
    assert forall|i: int| 0 <= i < pairs.len() implies #[trigger] values[i] == as_list(pairs[i]) by {
        assert(Seq::<JsonView>::empty().push(JsonView::Text(pairs[i].0)).push(
            JsonView::Text(pairs[i].1),
        ) =~= seq![JsonView::Text(pairs[i].0), JsonView::Text(pairs[i].1)]);
    }
    if pairs.contains(pair) {
        let i = choose|i: int| 0 <= i < pairs.len() && pairs[i] == pair;
        assert(values[i] == as_list(pair));
    }
    if values.contains(as_list(pair)) {
        let i = choose|i: int| 0 <= i < values.len() && values[i] == as_list(pair);
        assert(as_list(pairs[i]) == as_list(pair));
        let left = seq![JsonView::Text(pairs[i].0), JsonView::Text(pairs[i].1)];
        let right = seq![JsonView::Text(pair.0), JsonView::Text(pair.1)];
        assert(left == right);
        assert(left[0] == right[0] && left[1] == right[1]);
        assert(pairs[i] == pair);
    }
}

/// Dependencies are listed as themselves.
proof fn lemma_dependency_values(
    pairs: Seq<(Seq<char>, Seq<char>)>,
    pair: (Seq<char>, Seq<char>),
)
    ensures
        move_symbol::dependency_values(pairs).contains(move_symbol::dependency_value(pair))
            <==> pairs.contains(pair),
{
    broadcast use json::lemma_with_get;

    lemma_move_keys();
    let values = move_symbol::dependency_values(pairs);
    let value = move_symbol::dependency_value(pair);
    if pairs.contains(pair) {
        let i = choose|i: int| 0 <= i < pairs.len() && pairs[i] == pair;
        assert(values[i] == value);
    }
    if values.contains(value) {
        let i = choose|i: int| 0 <= i < values.len() && values[i] == value;
        let other = move_symbol::dependency_value(pairs[i]);
        assert(other.text("from"@) == Some(pairs[i].0) && other.text("to"@) == Some(pairs[i].1));
        assert(value.text("from"@) == Some(pair.0) && value.text("to"@) == Some(pair.1));
        assert(pairs[i] == pair);
    }
}

/// Texts are listed as themselves.
proof fn lemma_texts(parts: Seq<Seq<char>>, part: Seq<char>)
    ensures
        operations::texts(parts).contains(JsonView::Text(part)) <==> parts.contains(part),
{
    let values = operations::texts(parts);
    if parts.contains(part) {
        let i = choose|i: int| 0 <= i < parts.len() && parts[i] == part;
        assert(values[i] == JsonView::Text(part));
    }
    if values.contains(JsonView::Text(part)) {
        let i = choose|i: int| 0 <= i < values.len() && values[i] == JsonView::Text(part);
        assert(parts[i] == part);
    }
}

/// The keys that are asked for are no others.
proof fn lemma_move_keys()
    ensures
        "status"@ != "verdict"@ && "status"@ != "cycles"@ && "status"@ != "blastRadius"@
            && "verdict"@ != "cycles"@ && "verdict"@ != "blastRadius"@ && "move"@ != "cycles"@
            && "move"@ != "blastRadius"@ && "cycles"@ != "blastRadius"@ && "introduced"@
            != "removed"@ && "importers"@ != "newDependencies"@ && "from"@ != "to"@,
        "FEASIBLE"@ != "WOULD_VIOLATE"@,
{
    reveal_strlit("status");
    reveal_strlit("verdict");
    reveal_strlit("cycles");
    reveal_strlit("blastRadius");
    reveal_strlit("move");
    reveal_strlit("introduced");
    reveal_strlit("removed");
    reveal_strlit("importers");
    reveal_strlit("newDependencies");
    reveal_strlit("from");
    reveal_strlit("to");
    reveal_strlit("FEASIBLE");
    reveal_strlit("WOULD_VIOLATE");
    assert("status"@[0] == 's' && "cycles"@[0] == 'c');
    assert("status"@.len() == 6 && "verdict"@.len() == 7 && "cycles"@.len() == 6
        && "blastRadius"@.len() == 11 && "move"@.len() == 4 && "introduced"@.len() == 10
        && "removed"@.len() == 7 && "importers"@.len() == 9 && "newDependencies"@.len() == 15
        && "from"@.len() == 4 && "to"@.len() == 2 && "FEASIBLE"@.len() == 8
        && "WOULD_VIOLATE"@.len() == 13);
}

/// Whether an edge is a reference to a symbol: it leads there, and is no containment.
pub open spec fn refers(edge: Edge, id: Seq<char>) -> bool {
    edge.target@ == id && edge.kind@ != "contains"@
}

/// Whether an entry tells of an edge: its relation, and what it is known from.
pub open spec fn tells_of_edge(entry: JsonView, edge: Edge) -> bool {
    entry.text("relation"@) == Some(edge.kind@) && entry.text("provenance"@) == Some(edge.evidence@)
}

/// Whether an entry tells of some reference among edges.
pub open spec fn tells_of_reference(entry: JsonView, edges: Seq<Edge>, id: Seq<char>) -> bool {
    exists|e: int|
        0 <= e < edges.len() && refers(#[trigger] edges[e], id) && tells_of_edge(entry, edges[e])
}

/// Whether some entry tells of an edge.
pub open spec fn is_told(entries: Seq<JsonView>, edge: Edge) -> bool {
    exists|i: int| 0 <= i < entries.len() && tells_of_edge(#[trigger] entries[i], edge)
}

/// A reference is told as it is.
proof fn lemma_reference_value(edge: Edge)
    ensures
        tells_of_edge(delete_readiness::reference_value(edge), edge),
{
    broadcast use json::lemma_with_get;

    reveal_strlit("relation");
    reveal_strlit("provenance");
    assert("relation"@.len() == 8 && "provenance"@.len() == 10);
}

/// The references that are listed are those among the edges, each of them up to the bound.
proof fn lemma_references(edges: Seq<Edge>, id: Seq<char>)
    ensures
        ({
            let found = delete_readiness::references(edges, id);
            &&& found.len() <= 200
            &&& forall|i: int|
                0 <= i < found.len() ==> tells_of_reference(#[trigger] found[i], edges, id)
            &&& found.len() < 200 ==> forall|e: int|
                0 <= e < edges.len() && refers(#[trigger] edges[e], id) ==> is_told(found, edges[e])
        }),
    decreases edges.len(),
{
    if edges.len() > 0 {
        let rest = edges.drop_last();
        let edge = edges.last();
        let before = delete_readiness::references(rest, id);
        let found = delete_readiness::references(edges, id);
        lemma_references(rest, id);
        lemma_reference_value(edge);
        assert(edges[edges.len() - 1] == edge);
        assert forall|i: int| 0 <= i < found.len() implies tells_of_reference(
            #[trigger] found[i],
            edges,
            id,
        ) by {
            if i < before.len() {
                assert(found[i] == before[i]);
                assert(tells_of_reference(before[i], rest, id));
                let e = choose|e: int|
                    0 <= e < rest.len() && refers(#[trigger] rest[e], id) && tells_of_edge(
                        before[i],
                        rest[e],
                    );
                assert(edges[e] == rest[e]);
            } else {
                assert(refers(edges[edges.len() - 1], id));
            }
        }
        if found.len() < 200 {
            assert forall|e: int| 0 <= e < edges.len() && refers(#[trigger] edges[e], id) implies is_told(
                found,
                edges[e],
            ) by {
                if e < rest.len() {
                    assert(rest[e] == edges[e]);
                    assert(is_told(before, rest[e]));
                    let i = choose|i: int|
                        0 <= i < before.len() && tells_of_edge(#[trigger] before[i], rest[e]);
                    assert(found[i] == before[i]);
                } else {
                    assert(tells_of_edge(found[before.len() as int], edge));
                }
            }
        }
    }
}

/// A deletion is judged by what refers to the symbol: it is not safe exactly where some edge of the
/// graph other than a containment leads to it, and unproven where none does. Every such edge is
/// told, up to two hundred, and nothing else is.
pub proof fn law_a_deletion_is_judged_by_what_refers_to_it(
    repository: Repository,
    arguments: JsonView,
    symbol: Seq<char>,
    at: int,
)
    requires
        arguments.text("symbol"@) == Some(symbol),
        resolve::resolved(repository.graph.nodes@, symbol) == Some(at),
    ensures
        ({
            let answer = delete_readiness::delete_readiness_answer(repository, arguments);
            let node = repository.graph.nodes@[at];
            let edges = repository.graph.edges@;
            let referred = exists|e: int|
                0 <= e < edges.len() && refers(#[trigger] edges[e], node.id@);
            &&& answer.text("status"@) == Some("OK"@)
            &&& answer.get("safe"@) == Some(
                if referred {
                    JsonView::Bool(false)
                } else {
                    JsonView::Text("UNPROVEN"@)
                },
            )
            &&& answer.text("verdict"@) == Some("REVIEW_REQUIRED"@)
            &&& answer.list("knownReferences"@) matches Some(entries) && entries.len() <= 200 && (
            forall|i: int|
                0 <= i < entries.len() ==> tells_of_reference(
                    #[trigger] entries[i],
                    edges,
                    node.id@,
                )) && (entries.len() < 200 ==> forall|e: int|
                0 <= e < edges.len() && refers(#[trigger] edges[e], node.id@) ==> is_told(
                    entries,
                    edges[e],
                ))
            &&& answer.text("symbol"@) == Some(node.label@)
            &&& node.span matches Some(span) ==> answer.text("file"@) == Some(span.file@) && (
            answer.get("deletion"@) is Some && (answer.get("deletion"@)->0).number("startLine"@)
                == Some((span.start_line + 1) as nat) && (answer.get("deletion"@)->0).number(
                "endLine"@,
            ) == Some((span.end_line + 1) as nat))
        }),
{
    broadcast use json::lemma_with_get;

    reveal(delete_readiness::delete_readiness_answer);
    lemma_delete_keys();
    let node = repository.graph.nodes@[at];
    let edges = repository.graph.edges@;
    let known = delete_readiness::references(edges, node.id@);
    lemma_references(edges, node.id@);
    if known.len() > 0 {
        assert(tells_of_reference(known[0], edges, node.id@));
        let e = choose|e: int|
            0 <= e < edges.len() && refers(#[trigger] edges[e], node.id@) && tells_of_edge(
                known[0],
                edges[e],
            );
        assert(refers(edges[e], node.id@));
    } else if exists|e: int| 0 <= e < edges.len() && refers(#[trigger] edges[e], node.id@) {
        let e = choose|e: int| 0 <= e < edges.len() && refers(#[trigger] edges[e], node.id@);
        assert(is_told(known, edges[e]));
    }
}

/// The keys that are asked for are no others.
proof fn lemma_delete_keys()
    ensures
        "status"@ != "symbol"@ && "status"@ != "file"@ && "status"@ != "safe"@ && "status"@
            != "knownReferences"@ && "status"@ != "deletion"@ && "status"@ != "verdict"@,
        "symbol"@ != "file"@ && "symbol"@ != "safe"@ && "symbol"@ != "knownReferences"@ && "symbol"@
            != "deletion"@ && "symbol"@ != "verdict"@,
        "file"@ != "safe"@ && "file"@ != "knownReferences"@ && "file"@ != "deletion"@ && "file"@
            != "verdict"@ && "file"@ != "startLine"@ && "file"@ != "endLine"@,
        "safe"@ != "knownReferences"@ && "safe"@ != "deletion"@ && "safe"@ != "verdict"@,
        "confidence"@ != "knownReferences"@ && "confidence"@ != "deletion"@ && "confidence"@
            != "verdict"@ && "confidence"@ != "unknownDynamicUsages"@,
        "reason"@ != "knownReferences"@ && "reason"@ != "deletion"@ && "reason"@ != "verdict"@
            && "reason"@ != "unknownDynamicUsages"@,
        "knownReferences"@ != "deletion"@ && "knownReferences"@ != "verdict"@ && "knownReferences"@
            != "unknownDynamicUsages"@,
        "unknownDynamicUsages"@ != "deletion"@ && "unknownDynamicUsages"@ != "verdict"@,
        "status"@ != "unknownDynamicUsages"@ && "symbol"@ != "unknownDynamicUsages"@ && "file"@
            != "unknownDynamicUsages"@ && "safe"@ != "unknownDynamicUsages"@,
        "deletion"@ != "verdict"@ && "startLine"@ != "endLine"@,
        "signal"@ != "status"@,
{
    reveal_strlit("status");
    reveal_strlit("symbol");
    reveal_strlit("file");
    reveal_strlit("safe");
    reveal_strlit("confidence");
    reveal_strlit("reason");
    reveal_strlit("knownReferences");
    reveal_strlit("unknownDynamicUsages");
    reveal_strlit("deletion");
    reveal_strlit("verdict");
    reveal_strlit("startLine");
    reveal_strlit("endLine");
    reveal_strlit("signal");
    assert("status"@[1] == 't' && "symbol"@[1] == 'y' && "signal"@[1] == 'i');
    assert("file"@[0] == 'f' && "safe"@[0] == 's');
    assert("status"@.len() == 6 && "symbol"@.len() == 6 && "file"@.len() == 4 && "safe"@.len() == 4
        && "confidence"@.len() == 10 && "reason"@.len() == 6 && "knownReferences"@.len() == 15
        && "unknownDynamicUsages"@.len() == 20 && "deletion"@.len() == 8 && "verdict"@.len() == 7
        && "startLine"@.len() == 9 && "endLine"@.len() == 7);
}

/// Whether a text stands anywhere in a source.
pub open spec fn found_in(source: Seq<char>, t: Seq<char>) -> bool {
    exists|at: int| 0 <= at && #[trigger] text::matches_at(source, t, at)
}

/// A text is held where it stands.
proof fn lemma_held(source: Seq<char>, t: Seq<char>)
    ensures
        text::holds(source, t) <==> found_in(source, t),
{
    text::lemma_find_from(source, t, 0);
}

/// Whether a source loads code by name at run time.
pub open spec fn loads(source: Seq<char>) -> bool {
    ||| found_in(source, "require("@)
    ||| found_in(source, "import("@)
    ||| found_in(source, "eval("@)
    ||| found_in(source, "Function("@)
    ||| found_in(source, "libloading"@)
    ||| found_in(source, "dlopen"@)
}

/// Whether a source reaches members by reflection.
pub open spec fn reflects(source: Seq<char>) -> bool {
    ||| found_in(source, "Reflect."@)
    ||| found_in(source, "getattr("@)
    ||| found_in(source, "__getattr__"@)
    ||| found_in(source, "std::any::"@)
    ||| found_in(source, "TypeId::of"@)
    ||| found_in(source, "Any>::downcast"@)
}

/// Whether a signal is reported with a status.
pub open spec fn signalled(entry: JsonView, signal: Seq<char>, status: Seq<char>) -> bool {
    entry.text("signal"@) == Some(signal) && entry.text("status"@) == Some(status)
}

/// The risks of a deletion are told for what they are: what leaves the repository, what the source
/// of the declaration loads or reflects, where it could be read, and that exact references are not
/// known.
pub proof fn law_the_risks_of_a_deletion_are_told(
    repository: Repository,
    arguments: JsonView,
    symbol: Seq<char>,
    at: int,
)
    requires
        arguments.text("symbol"@) == Some(symbol),
        resolve::resolved(repository.graph.nodes@, symbol) == Some(at),
    ensures
        ({
            let answer = delete_readiness::delete_readiness_answer(repository, arguments);
            let node = repository.graph.nodes@[at];
            let source = match node.span {
                Some(span) => evidence::source_of(repository.sources@, span.file@),
                None => None,
            };
            &&& answer.list("unknownDynamicUsages"@) matches Some(entries) && entries.len() == 4
                && signalled(
                entries[0],
                "EXTERNAL_CONSUMERS"@,
                if node.kind@ == "file"@ || node.exported {
                    "NOT_POSSIBLE_FROM_REPOSITORY_GRAPH"@
                } else {
                    "NOT_APPLICABLE_INTERNAL"@
                },
            ) && signalled(
                entries[1],
                "DYNAMIC_LOADING"@,
                match source {
                    None => "NOT_CHECKED_SOURCE_UNAVAILABLE"@,
                    Some(t) => if loads(t) {
                        "PRESENT"@
                    } else {
                        "NOT_OBSERVED_IN_DECLARING_FILE"@
                    },
                },
            ) && signalled(
                entries[2],
                "REFLECTION"@,
                match source {
                    None => "NOT_CHECKED_SOURCE_UNAVAILABLE"@,
                    Some(t) => if reflects(t) {
                        "PRESENT"@
                    } else {
                        "NOT_OBSERVED_IN_DECLARING_FILE"@
                    },
                },
            ) && signalled(entries[3], "EXACT_REFERENCES"@, "NOT_SUPPORTED_BY_NATIVE_ENGINE"@)
        }),
{
    broadcast use json::lemma_with_get;

    reveal(delete_readiness::delete_readiness_answer);
    lemma_delete_keys();
    let node = repository.graph.nodes@[at];
    let source = delete_readiness::declaring_source(repository, node);
    match source {
        Some(t) => {
            lemma_held(t, "require("@);
            lemma_held(t, "import("@);
            lemma_held(t, "eval("@);
            lemma_held(t, "Function("@);
            lemma_held(t, "libloading"@);
            lemma_held(t, "dlopen"@);
            lemma_held(t, "Reflect."@);
            lemma_held(t, "getattr("@);
            lemma_held(t, "__getattr__"@);
            lemma_held(t, "std::any::"@);
            lemma_held(t, "TypeId::of"@);
            lemma_held(t, "Any>::downcast"@);
        },
        None => {},
    }
    let signals = evidence::signals(node, source);
    let entries = evidence::reported(signals);
    let answer = delete_readiness::delete_readiness_answer(repository, arguments);
    assert(answer.list("unknownDynamicUsages"@) == Some(entries));
    assert(entries[0] == evidence::signal_value(signals[0]));
    assert(entries[1] == evidence::signal_value(signals[1]));
    assert(entries[2] == evidence::signal_value(signals[2]));
    assert(entries[3] == evidence::signal_value(signals[3]));
}

} // verus!
