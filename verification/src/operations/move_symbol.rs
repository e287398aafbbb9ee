//! What moving a declaration to another file would do to the dependency structure.
//!
//! This one produces no edits on purpose. Relocating a declaration is a mechanical change any
//! editor makes correctly; what an agent cannot see is whether the move introduces a cycle, and
//! that is a property of the graph rather than of the text. So the answer is a projection: which
//! edges would appear, which would vanish, and whether the result still has no cycles.
//!
//! It is a prediction from simulated edges, not a rebuild, and says so.

use crate::contract;
use crate::evidence;
use crate::graph::{Edge, Graph, Node, Repository};
use crate::json;
use crate::json::{Fields, Items, Json, JsonView};
use crate::operations;
use crate::operations::cycles;
use crate::operations::cycles::Dependency;
use crate::order;
use crate::resolve;
use crate::text;
use vstd::prelude::*;
use vstd::string::*;

verus! {

/// The file a node lives in: the one that declares it, or else its label.
pub open spec fn home(node: Node) -> Seq<char> {
    match node.span {
        Some(span) => span.file@,
        None => node.label@,
    }
}

/// The file of the last node with an id that lives in one.
pub open spec fn owner(nodes: Seq<Node>, id: Seq<char>) -> Option<Seq<char>>
    decreases nodes.len(),
{
    if nodes.len() == 0 {
        None
    } else if nodes.last().id@ == id && home(nodes.last()).len() > 0 {
        Some(home(nodes.last()))
    } else {
        owner(nodes.drop_last(), id)
    }
}

/// The file of a symbol, where a moved one already lives in its destination.
pub open spec fn owner_after(
    nodes: Seq<Node>,
    id: Seq<char>,
    moved: Option<(Seq<char>, Seq<char>)>,
) -> Option<Seq<char>> {
    match moved {
        Some((moved_id, destination)) => if id == moved_id {
            Some(destination)
        } else {
            owner(nodes, id)
        },
        None => owner(nodes, id),
    }
}

/// The file dependencies that the first edges of the graph make.
///
/// Containment says where a symbol lives, which is exactly what a move changes, so it makes none.
pub open spec fn dependencies(
    nodes: Seq<Node>,
    edges: Seq<Edge>,
    moved: Option<(Seq<char>, Seq<char>)>,
) -> Seq<Dependency>
    decreases edges.len(),
{
    if edges.len() == 0 {
        Seq::empty()
    } else {
        let before = dependencies(nodes, edges.drop_last(), moved);
        let edge = edges.last();
        match (
            owner_after(nodes, edge.source@, moved),
            owner_after(nodes, edge.target@, moved),
        ) {
            (Some(source), Some(target)) => if edge.kind@ != "contains"@ && source != target {
                order::pair_inserted(before, (source, target))
            } else {
                before
            },
            _ => before,
        }
    }
}

/// The first pairs of a list that another does not hold.
pub open spec fn missing_from(first: Seq<Dependency>, other: Seq<Dependency>) -> Seq<Dependency>
    decreases first.len(),
{
    if first.len() == 0 {
        Seq::empty()
    } else if other.contains(first.last()) {
        missing_from(first.drop_last(), other)
    } else {
        missing_from(first.drop_last(), other).push(first.last())
    }
}

/// The files other than its own that the first edges use a symbol from.
pub open spec fn importers(nodes: Seq<Node>, edges: Seq<Edge>, id: Seq<char>, from: Seq<char>) -> Seq<
    Seq<char>,
>
    decreases edges.len(),
{
    if edges.len() == 0 {
        Seq::empty()
    } else {
        let before = importers(nodes, edges.drop_last(), id, from);
        let edge = edges.last();
        match owner(nodes, edge.source@) {
            Some(file) => if edge.kind@ != "contains"@ && edge.target@ == id && file != from {
                order::inserted(before, file)
            } else {
                before
            },
            None => before,
        }
    }
}

/// A pair as a list of its two texts.
pub open spec fn pair_value(pair: Dependency) -> JsonView {
    JsonView::List(Seq::empty().push(JsonView::Text(pair.0)).push(JsonView::Text(pair.1)))
}

/// Pairs as lists of their two texts.
pub open spec fn pair_values(pairs: Seq<Dependency>) -> Seq<JsonView> {
    Seq::new(pairs.len(), |i: int| pair_value(pairs[i]))
}

/// A dependency as it is reported.
pub open spec fn dependency_value(pair: Dependency) -> JsonView {
    JsonView::empty().with_text("from"@, pair.0).with_text("to"@, pair.1)
}

/// Dependencies as they are reported.
pub open spec fn dependency_values(pairs: Seq<Dependency>) -> Seq<JsonView> {
    Seq::new(pairs.len(), |i: int| dependency_value(pairs[i]))
}

/// What moving a symbol would do to the dependency structure.
pub struct ProjectionView {
    pub introduced: Seq<Dependency>,
    pub removed: Seq<Dependency>,
    pub before: nat,
    pub after: nat,
    pub importers: Seq<Seq<char>>,
    pub new_dependencies: Seq<Dependency>,
}

/// What moving a symbol would do to the dependency structure.
pub open spec fn projected(
    nodes: Seq<Node>,
    edges: Seq<Edge>,
    id: Seq<char>,
    from: Seq<char>,
    to_file: Seq<char>,
) -> ProjectionView {
    let before = dependencies(nodes, edges, None);
    let after = dependencies(nodes, edges, Some((id, to_file)));
    let cycles_before = cycles::cycles_of(before);
    let cycles_after = cycles::cycles_of(after);
    ProjectionView {
        introduced: missing_from(cycles_after, cycles_before),
        removed: missing_from(cycles_before, cycles_after),
        before: cycles_before.len(),
        after: cycles_after.len(),
        importers: importers(nodes, edges, id, from),
        new_dependencies: missing_from(after, before),
    }
}

/// Whether a projection introduces no cycle.
pub open spec fn verdict_of(projection: ProjectionView) -> Seq<char> {
    if projection.introduced.len() == 0 {
        "FEASIBLE"@
    } else {
        "WOULD_VIOLATE"@
    }
}

/// The answer that reports a projection.
pub open spec fn projection_answer(
    projection: ProjectionView,
    label: Seq<char>,
    from: Seq<char>,
    to_file: Seq<char>,
) -> JsonView {
    JsonView::empty().with_text("status"@, "EVALUATED"@).with_text(
        "verdict"@,
        verdict_of(projection),
    ).with(
        "move"@,
        JsonView::empty().with_text("symbol"@, label).with_text("from"@, from).with_text(
            "to"@,
            to_file,
        ),
    ).with(
        "cycles"@,
        JsonView::empty().with_list("introduced"@, pair_values(projection.introduced)).with_list(
            "removed"@,
            pair_values(projection.removed),
        ).with_number("before"@, projection.before).with_number("after"@, projection.after),
    ).with(
        "blastRadius"@,
        JsonView::empty().with_list(
            "importers"@,
            operations::texts(projection.importers),
        ).with_list("newDependencies"@, dependency_values(projection.new_dependencies)),
    ).with_text("fidelity"@, "PROJECTED_FROM_GRAPH_EDGES"@).with_text(
        "next"@,
        "this dry-run computes no byte edits. Move the declaration with your editor or edit_symbol, then run verified_change phase=verify for the authoritative result."@,
    )
}

/// The answer to `move_symbol`.
#[verifier::opaque]
pub open spec fn move_symbol_answer(repository: Repository, arguments: JsonView) -> JsonView {
    let nodes = repository.graph.nodes@;
    let edges = repository.graph.edges@;
    match (arguments.text("symbol"@), arguments.text("to_file"@)) {
        (Some(symbol), Some(to_file)) => match resolve::resolved(nodes, symbol) {
            None => operations::not_found_value(nodes, symbol),
            Some(at) => match evidence::file_of(nodes[at]) {
                None => JsonView::empty().with_text("status"@, "NOT_A_SYMBOL"@).with_text(
                    "reason"@,
                    "the selected node has no declaring file, so there is nothing to move"@,
                ).with_text("symbol"@, symbol),
                Some(from) => if from == to_file {
                    operations::plain_answer(
                        "NO_CHANGE"@,
                        symbol + " already lives in "@ + to_file,
                    )
                } else {
                    projection_answer(
                        projected(nodes, edges, nodes[at].id@, from, to_file),
                        nodes[at].label@,
                        from,
                        to_file,
                    )
                },
            },
        },
        _ => operations::invalid_args_value("move_symbol"@, seq!["symbol"@, "to_file"@]),
    }
}

/// The file of the last node with an id that lives in one.
fn find_owner<'a>(nodes: &'a Vec<Node>, id: &str) -> (found: Option<&'a str>)
    ensures
        json::same_text(found, owner(nodes@, id@)),
{
    let mut i: usize = nodes.len();
    assert(nodes@.take(i as int) =~= nodes@);
    while i > 0
        invariant
            i <= nodes@.len(),
            owner(nodes@, id@) == owner(nodes@.take(i as int), id@),
        decreases i,
    {
        i -= 1;
        proof {
            assert(nodes@.take(i + 1).drop_last() =~= nodes@.take(i as int));
            assert(nodes@.take(i + 1).last() == nodes@[i as int]);
        }
        let node = &nodes[i];
        if text::same(node.id.as_str(), id) {
            let file = match &node.span {
                Some(span) => span.file.as_str(),
                None => node.label.as_str(),
            };
            if !file.is_empty() {
                return Some(file);
            }
        }
    }
    assert(nodes@.take(0).len() == 0);
    None
}

/// An optional move as mathematical values.
spec fn move_view(moved: Option<(&str, &str)>) -> Option<(Seq<char>, Seq<char>)> {
    match moved {
        Some((id, destination)) => Some((id@, destination@)),
        None => None,
    }
}

/// The file of a symbol, where a moved one already lives in its destination.
fn find_owner_after<'a>(nodes: &'a Vec<Node>, id: &str, moved: Option<(&str, &'a str)>) -> (found:
    Option<&'a str>)
    ensures
        json::same_text(found, owner_after(nodes@, id@, move_view(moved))),
{
    match moved {
        Some((moved_id, destination)) => {
            if text::same(id, moved_id) {
                return Some(destination);
            }
            find_owner(nodes, id)
        },
        None => find_owner(nodes, id),
    }
}

/// File-level dependency edges, with the moved symbol's own edges redirected.
fn file_edges(graph: &Graph, moved: Option<(&str, &str)>) -> (found: Vec<(String, String)>)
    ensures
        order::pair_views(found@) == dependencies(graph.nodes@, graph.edges@, move_view(moved)),
{
    let edges = &graph.edges;
    let mut found: Vec<(String, String)> = Vec::new();
    let mut i: usize = 0;
    assert(order::pair_views(found@) =~= Seq::empty());
    while i < edges.len()
        invariant
            i <= edges@.len(),
            order::pair_views(found@) == dependencies(
                graph.nodes@,
                edges@.take(i as int),
                move_view(moved),
            ),
        decreases edges@.len() - i,
    {
        proof {
            assert(edges@.take(i + 1).drop_last() =~= edges@.take(i as int));
            assert(edges@.take(i + 1).last() == edges@[i as int]);
        }
        let edge = &edges[i];
        if !text::same(edge.kind.as_str(), "contains") {
            match (
                find_owner_after(&graph.nodes, edge.source.as_str(), moved),
                find_owner_after(&graph.nodes, edge.target.as_str(), moved),
            ) {
                (Some(source), Some(target)) => {
                    if !text::same(source, target) {
                        order::insert_pair(&mut found, source, target);
                    }
                },
                _ => {},
            }
        }
        i += 1;
    }
    assert(edges@.take(i as int) =~= edges@);
    found
}

/// The pairs of a list that another does not hold.
fn without(list: &Vec<(String, String)>, other: &Vec<(String, String)>) -> (found: Vec<
    (String, String),
>)
    ensures
        order::pair_views(found@) == missing_from(
            order::pair_views(list@),
            order::pair_views(other@),
        ),
{
    let ghost all = order::pair_views(list@);
    let mut found: Vec<(String, String)> = Vec::new();
    let mut i: usize = 0;
    assert(order::pair_views(found@) =~= Seq::empty());
    while i < list.len()
        invariant
            i <= list@.len(),
            all == order::pair_views(list@),
            order::pair_views(found@) == missing_from(
                all.take(i as int),
                order::pair_views(other@),
            ),
        decreases list@.len() - i,
    {
        proof {
            assert(all.take(i + 1).drop_last() =~= all.take(i as int));
            assert(all[i as int] == (list@[i as int].0@, list@[i as int].1@));
        }
        if !order::has_pair(other, list[i].0.as_str(), list[i].1.as_str()) {
            let pair = (list[i].0.clone(), list[i].1.clone());
            assert(order::pair_views(found@.push(pair)) =~= order::pair_views(found@).push(
                (pair.0@, pair.1@),
            ));
            found.push(pair);
        }
        i += 1;
    }
    assert(all.take(i as int) =~= all);
    found
}

/// The files other than its own that use a symbol.
fn find_importers(graph: &Graph, id: &str, from: &str) -> (found: Vec<String>)
    ensures
        text::string_views(found@) == importers(graph.nodes@, graph.edges@, id@, from@),
{
    let edges = &graph.edges;
    let mut found: Vec<String> = Vec::new();
    let mut i: usize = 0;
    assert(text::string_views(found@) =~= Seq::empty());
    while i < edges.len()
        invariant
            i <= edges@.len(),
            text::string_views(found@) == importers(
                graph.nodes@,
                edges@.take(i as int),
                id@,
                from@,
            ),
        decreases edges@.len() - i,
    {
        proof {
            assert(edges@.take(i + 1).drop_last() =~= edges@.take(i as int));
            assert(edges@.take(i + 1).last() == edges@[i as int]);
        }
        let edge = &edges[i];
        if !text::same(edge.kind.as_str(), "contains") && text::same(edge.target.as_str(), id) {
            match find_owner(&graph.nodes, edge.source.as_str()) {
                Some(file) => {
                    if !text::same(file, from) {
                        order::insert(&mut found, file);
                    }
                },
                None => {},
            }
        }
        i += 1;
    }
    assert(edges@.take(i as int) =~= edges@);
    found
}

/// Pairs as lists of their two texts.
fn pair_items(pairs: &Vec<(String, String)>) -> (items: Items)
    ensures
        items@ == pair_values(order::pair_views(pairs@)),
{
    let ghost all = order::pair_views(pairs@);
    let mut items = Items::new();
    let mut i: usize = 0;
    while i < pairs.len()
        invariant
            i <= pairs@.len(),
            all == order::pair_views(pairs@),
            items@ =~= pair_values(all).take(i as int),
        decreases pairs@.len() - i,
    {
        let mut pair = Items::new();
        pair.push(json::string(pairs[i].0.as_str()));
        pair.push(json::string(pairs[i].1.as_str()));
        let value = pair.done();
        assert(value@ == pair_value(all[i as int]));
        items.push(value);
        i += 1;
    }
    assert(items@ =~= pair_values(all));
    items
}

/// Dependencies as they are reported.
fn dependency_items(pairs: &Vec<(String, String)>) -> (items: Items)
    ensures
        items@ == dependency_values(order::pair_views(pairs@)),
{
    let ghost all = order::pair_views(pairs@);
    let mut items = Items::new();
    let mut i: usize = 0;
    while i < pairs.len()
        invariant
            i <= pairs@.len(),
            all == order::pair_views(pairs@),
            items@ =~= dependency_values(all).take(i as int),
        decreases pairs@.len() - i,
    {
        let value = Fields::new().with_text("from", pairs[i].0.as_str()).with_text(
            "to",
            pairs[i].1.as_str(),
        ).done();
        assert(value@ == dependency_value(all[i as int]));
        items.push(value);
        i += 1;
    }
    assert(items@ =~= dependency_values(all));
    items
}

/// The answer that reports what moving a symbol would do.
fn project(graph: &Graph, node: &Node, from: &str, to_file: &str) -> (value: Json)
    ensures
        value@ == projection_answer(
            projected(graph.nodes@, graph.edges@, node.id@, from@, to_file@),
            node.label@,
            from@,
            to_file@,
        ),
{
    let before = file_edges(graph, None);
    let after = file_edges(graph, Some((node.id.as_str(), to_file)));
    let cycles_before = cycles::cycles(&before);
    let cycles_after = cycles::cycles(&after);
    let introduced = without(&cycles_after, &cycles_before);
    let removed = without(&cycles_before, &cycles_after);
    let new_dependencies = without(&after, &before);
    let importing = find_importers(graph, node.id.as_str(), from);
    let verdict = if introduced.len() == 0 {
        "FEASIBLE"
    } else {
        "WOULD_VIOLATE"
    };
    Fields::new().with_text("status", "EVALUATED").with_text("verdict", verdict).with(
        "move",
        Fields::new().with_text("symbol", node.label.as_str()).with_text("from", from).with_text(
            "to",
            to_file,
        ).done(),
    ).with(
        "cycles",
        Fields::new().with_list("introduced", pair_items(&introduced)).with_list(
            "removed",
            pair_items(&removed),
        ).with_number("before", cycles_before.len() as u64).with_number(
            "after",
            cycles_after.len() as u64,
        ).done(),
    ).with(
        "blastRadius",
        Fields::new().with_list("importers", operations::string_items(&importing)).with_list(
            "newDependencies",
            dependency_items(&new_dependencies),
        ).done(),
    ).with_text("fidelity", "PROJECTED_FROM_GRAPH_EDGES").with_text(
        "next",
        "this dry-run computes no byte edits. Move the declaration with your editor or edit_symbol, then run verified_change phase=verify for the authoritative result.",
    ).done()
}

/// `move_symbol`: evaluates what moving a declaration would do to the dependency structure.
pub fn move_symbol(repository: &Repository, arguments: &Json) -> (value: Json)
    ensures
        value@ == move_symbol_answer(*repository, arguments@),
{
    proof {
        reveal(move_symbol_answer);
    }
    let (symbol, to_file) = match (arguments.text("symbol"), arguments.text("to_file")) {
        (Some(symbol), Some(to_file)) => (symbol, to_file),
        _ => {
            return operations::missing_two("move_symbol", "symbol", "to_file");
        },
    };
    let graph = &repository.graph;
    let at: usize = match resolve::resolve_symbol(graph, symbol) {
        Some(at) => at,
        None => {
            return operations::not_found(graph, symbol);
        },
    };
    let node = &graph.nodes[at];
    let from = match evidence::declaring_file(node) {
        Some(from) => from,
        None => {
            return Fields::new().with_text("status", "NOT_A_SYMBOL").with_text(
                "reason",
                "the selected node has no declaring file, so there is nothing to move",
            ).with_text("symbol", symbol).done();
        },
    };
    if text::same(from, to_file) {
        let reason = symbol.to_owned().concat(" already lives in ").concat(to_file);
        return operations::answer("NO_CHANGE", reason.as_str());
    }
    project(graph, node, from, to_file)
}

/// What is missing from a list is what the other does not hold.
proof fn lemma_missing_from(first: Seq<Dependency>, other: Seq<Dependency>, x: Dependency)
    ensures
        missing_from(first, other).contains(x) <==> first.contains(x) && !other.contains(x),
    decreases first.len(),
{
    if first.len() > 0 {
        let rest = first.drop_last();
        lemma_missing_from(rest, other, x);
        let kept = missing_from(rest, other);
        let out = missing_from(first, other);
        assert(first[first.len() - 1] == first.last());
        if first.contains(x) {
            let i = choose|i: int| 0 <= i < first.len() && first[i] == x;
            if i < rest.len() {
                assert(rest[i] == x);
            }
        }
        if rest.contains(x) {
            let i = choose|i: int| 0 <= i < rest.len() && rest[i] == x;
            assert(first[i] == x);
        }
        if kept.contains(x) {
            let i = choose|i: int| 0 <= i < kept.len() && kept[i] == x;
            assert(out[i] == x);
        }
        if !other.contains(first.last()) {
            assert(out[out.len() - 1] == first.last());
        }
        if out.contains(x) {
            let i = choose|i: int| 0 <= i < out.len() && out[i] == x;
            if i < kept.len() {
                assert(kept[i] == x);
            }
        }
    }
}

/// The edges found are those that lie on a cycle.
proof fn lemma_cyclic(edges: Seq<Dependency>, first: Seq<Dependency>, x: Dependency)
    ensures
        cycles::cyclic(edges, first).contains(x) <==> first.contains(x) && cycles::on_cycle(
            edges,
            x,
        ),
    decreases first.len(),
{
    if first.len() > 0 {
        let rest = first.drop_last();
        lemma_cyclic(edges, rest, x);
        let kept = cycles::cyclic(edges, rest);
        let out = cycles::cyclic(edges, first);
        assert(first[first.len() - 1] == first.last());
        if first.contains(x) {
            let i = choose|i: int| 0 <= i < first.len() && first[i] == x;
            if i < rest.len() {
                assert(rest[i] == x);
            }
        }
        if rest.contains(x) {
            let i = choose|i: int| 0 <= i < rest.len() && rest[i] == x;
            assert(first[i] == x);
        }
        if kept.contains(x) {
            let i = choose|i: int| 0 <= i < kept.len() && kept[i] == x;
            assert(out[i] == x);
        }
        if cycles::on_cycle(edges, first.last()) {
            assert(out[out.len() - 1] == first.last());
        }
        if out.contains(x) {
            let i = choose|i: int| 0 <= i < out.len() && out[i] == x;
            if i < kept.len() {
                assert(kept[i] == x);
            }
        }
    }
}

/// A move is called feasible exactly where every dependency that lies on a cycle afterwards
/// already lay on one before.
pub proof fn law_feasible_moves_add_no_cycle(
    nodes: Seq<Node>,
    edges: Seq<Edge>,
    id: Seq<char>,
    from: Seq<char>,
    to_file: Seq<char>,
)
    ensures
        ({
            let before = dependencies(nodes, edges, None);
            let after = dependencies(nodes, edges, Some((id, to_file)));
            verdict_of(projected(nodes, edges, id, from, to_file)) == "FEASIBLE"@ <==> forall|
                edge: Dependency,
            |
                after.contains(edge) && #[trigger] cycles::on_cycle(after, edge) ==> before.contains(
                    edge,
                ) && cycles::on_cycle(before, edge)
        }),
{
    reveal_strlit("FEASIBLE");
    reveal_strlit("WOULD_VIOLATE");
    assert("FEASIBLE"@.len() == 8 && "WOULD_VIOLATE"@.len() == 13);
    let before = dependencies(nodes, edges, None);
    let after = dependencies(nodes, edges, Some((id, to_file)));
    let introduced = projected(nodes, edges, id, from, to_file).introduced;
    let cycles_before = cycles::cycles_of(before);
    let cycles_after = cycles::cycles_of(after);
    if introduced.len() == 0 {
        assert forall|edge: Dependency|
            after.contains(edge) && #[trigger] cycles::on_cycle(
                after,
                edge,
            ) implies before.contains(edge) && cycles::on_cycle(before, edge) by {
            lemma_cyclic(after, after, edge);
            lemma_cyclic(before, before, edge);
            lemma_missing_from(cycles_after, cycles_before, edge);
        }
    } else {
        let edge = introduced[0];
        assert(introduced.contains(edge));
        lemma_missing_from(cycles_after, cycles_before, edge);
        lemma_cyclic(after, after, edge);
        lemma_cyclic(before, before, edge);
        assert(cycles::on_cycle(after, edge));
    }
}

/// Every answer of this operation keeps to the contract.
pub proof fn law_answers_conform(
    repository: Repository,
    arguments: JsonView,
)
    ensures
        contract::conforms(move_symbol_answer(repository, arguments)),
{
    broadcast use json::lemma_with_get;

    reveal(move_symbol_answer);
    contract::lemma_keys();
}

} // verus!
