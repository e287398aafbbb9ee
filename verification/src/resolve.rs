//! Turning what an agent typed into exactly one graph node.
//!
//! Resolution is deliberately narrow. An exact id wins; a label wins only when it is unique. An
//! ambiguous label resolves to nothing rather than to the first match, because picking one
//! silently is how a refactor edits the wrong symbol.

use crate::graph;
use crate::graph::{Graph, Node};
use crate::text;
use vstd::prelude::*;

verus! {

/// Whether a query could mean a node: by its label, or by the end of its id.
pub open spec fn could_mean(node: Node, query: Seq<char>) -> bool {
    node.label@ == query || text::ends(node.id@, query)
}

/// The first node, from one on, that a query could mean.
pub open spec fn meant_from(nodes: Seq<Node>, query: Seq<char>, from: int) -> Option<int>
    decreases nodes.len() - from,
{
    if from < 0 || from >= nodes.len() {
        None
    } else if could_mean(nodes[from], query) {
        Some(from)
    } else {
        meant_from(nodes, query, from + 1)
    }
}

/// The node a query resolves to: an exact id, or else the only node it could mean.
pub open spec fn resolved(nodes: Seq<Node>, query: Seq<char>) -> Option<int> {
    match graph::id_from(nodes, query, 0) {
        Some(at) => Some(at),
        None => match meant_from(nodes, query, 0) {
            Some(first) => if meant_from(nodes, query, first + 1) is Some {
                None
            } else {
                Some(first)
            },
            None => None,
        },
    }
}

/// The ids of every node that a query could mean, in graph order.
pub open spec fn candidates(nodes: Seq<Node>, query: Seq<char>) -> Seq<Seq<char>>
    decreases nodes.len(),
{
    if nodes.len() == 0 {
        Seq::empty()
    } else {
        let rest = candidates(nodes.drop_last(), query);
        if could_mean(nodes.last(), query) {
            rest.push(nodes.last().id@)
        } else {
            rest
        }
    }
}

/// Whether a query could mean a node.
fn matches_node(node: &Node, query: &str) -> (found: bool)
    ensures
        found == could_mean(*node, query@),
{
    text::same(node.label.as_str(), query) || text::ends_with(node.id.as_str(), query)
}

/// The first node, from one on, that a query could mean.
fn find_meant(nodes: &Vec<Node>, query: &str, from: usize) -> (found: Option<usize>)
    ensures
        match (found, meant_from(nodes@, query@, from as int)) {
            (Some(at), Some(expected)) => at == expected && from <= at < nodes@.len(),
            (None, None) => true,
            _ => false,
        },
{
    let mut i: usize = from;
    while i < nodes.len()
        invariant
            from <= i,
            i <= nodes@.len() || i == from,
            meant_from(nodes@, query@, from as int) == meant_from(nodes@, query@, i as int),
        decreases nodes@.len() - i,
    {
        if matches_node(&nodes[i], query) {
            return Some(i);
        }
        i += 1;
    }
    None
}

/// Resolves `query` to one node, or `None` when it matches nothing or more than one thing.
pub fn resolve_symbol(graph: &Graph, query: &str) -> (index: Option<usize>)
    ensures
        match (index, resolved(graph.nodes@, query@)) {
            (Some(at), Some(expected)) => at == expected && at < graph.nodes@.len(),
            (None, None) => true,
            _ => false,
        },
{
    if let Some(at) = graph::find_id(&graph.nodes, query) {
        return Some(at);
    }
    let total: usize = graph.nodes.len();
    match find_meant(&graph.nodes, query, 0) {
        Some(first) => {
            assert(first < total);
            if find_meant(&graph.nodes, query, first + 1).is_some() {
                None
            } else {
                Some(first)
            }
        },
        None => None,
    }
}

/// The ids of every node that a query could mean, in graph order.
pub fn candidate_ids(graph: &Graph, query: &str) -> (ids: Vec<String>)
    ensures
        text::string_views(ids@) == candidates(graph.nodes@, query@),
{
    let nodes = &graph.nodes;
    let mut ids: Vec<String> = Vec::new();
    let mut i: usize = 0;
    assert(text::string_views(ids@) =~= Seq::empty());
    while i < nodes.len()
        invariant
            i <= nodes@.len(),
            text::string_views(ids@) == candidates(nodes@.take(i as int), query@),
        decreases nodes@.len() - i,
    {
        proof {
            assert(nodes@.take(i + 1).drop_last() =~= nodes@.take(i as int));
        }
        if matches_node(&nodes[i], query) {
            let id = nodes[i].id.clone();
            assert(text::string_views(ids@.push(id)) =~= text::string_views(ids@).push(id@));
            ids.push(id);
        }
        i += 1;
    }
    assert(nodes@.take(i as int) =~= nodes@);
    ids
}

/// What a first place of an id says.
pub proof fn lemma_id_from(nodes: Seq<Node>, id: Seq<char>, from: int)
    requires
        0 <= from,
    ensures
        graph::id_from(nodes, id, from) matches Some(at) ==> from <= at < nodes.len()
            && nodes[at].id@ == id && forall|k: int|
            from <= k < at ==> (#[trigger] nodes[k]).id@ != id,
        graph::id_from(nodes, id, from) is None ==> forall|k: int|
            from <= k < nodes.len() ==> (#[trigger] nodes[k]).id@ != id,
    decreases nodes.len() - from,
{
    if from < nodes.len() && nodes[from].id@ != id {
        lemma_id_from(nodes, id, from + 1);
    }
}

/// What the first node that a query could mean says.
proof fn lemma_meant_from(nodes: Seq<Node>, query: Seq<char>, from: int)
    requires
        0 <= from,
    ensures
        meant_from(nodes, query, from) matches Some(at) ==> from <= at < nodes.len() && could_mean(
            nodes[at],
            query,
        ) && forall|k: int| from <= k < at ==> !could_mean(#[trigger] nodes[k], query),
        meant_from(nodes, query, from) is None ==> forall|k: int|
            from <= k < nodes.len() ==> !could_mean(#[trigger] nodes[k], query),
    decreases nodes.len() - from,
{
    if from < nodes.len() && !could_mean(nodes[from], query) {
        lemma_meant_from(nodes, query, from + 1);
    }
}

/// An exact id always resolves, and to a node that has it.
pub proof fn law_exact_id_wins(nodes: Seq<Node>, at: int)
    requires
        0 <= at < nodes.len(),
    ensures
        resolved(nodes, nodes[at].id@) matches Some(found) && 0 <= found < nodes.len()
            && nodes[found].id@ == nodes[at].id@,
{
    lemma_id_from(nodes, nodes[at].id@, 0);
}

/// A query that is no id and could mean two nodes resolves to nothing.
pub proof fn law_ambiguous_resolves_to_nothing(
    nodes: Seq<Node>,
    query: Seq<char>,
    one: int,
    other: int,
)
    requires
        forall|k: int| 0 <= k < nodes.len() ==> (#[trigger] nodes[k]).id@ != query,
        0 <= one < other < nodes.len(),
        could_mean(nodes[one], query),
        could_mean(nodes[other], query),
    ensures
        resolved(nodes, query) is None,
{
    lemma_id_from(nodes, query, 0);
    lemma_meant_from(nodes, query, 0);
    let first = meant_from(nodes, query, 0)->0;
    lemma_meant_from(nodes, query, first + 1);
}

/// What resolves is the only node the query could mean, unless it is that node's exact id.
pub proof fn law_resolution_is_the_only_match(nodes: Seq<Node>, query: Seq<char>)
    requires
        resolved(nodes, query) is Some,
    ensures
        0 <= resolved(nodes, query)->0 < nodes.len(),
        nodes[resolved(nodes, query)->0].id@ == query || (could_mean(
            nodes[resolved(nodes, query)->0],
            query,
        ) && forall|k: int|
            0 <= k < nodes.len() && k != resolved(nodes, query)->0 ==> !could_mean(
                #[trigger] nodes[k],
                query,
            )),
{
    lemma_id_from(nodes, query, 0);
    lemma_meant_from(nodes, query, 0);
    if graph::id_from(nodes, query, 0) is None {
        let first = meant_from(nodes, query, 0)->0;
        lemma_meant_from(nodes, query, first + 1);
    }
}

/// A query that could mean one node alone, and is no id, resolves to it.
pub proof fn law_unique_match_resolves(nodes: Seq<Node>, query: Seq<char>, at: int)
    requires
        0 <= at < nodes.len(),
        could_mean(nodes[at], query),
        forall|k: int|
            0 <= k < nodes.len() && k != at ==> !could_mean(#[trigger] nodes[k], query)
                && nodes[k].id@ != query,
    ensures
        resolved(nodes, query) == Some(at),
{
    lemma_id_from(nodes, query, 0);
    lemma_meant_from(nodes, query, 0);
    let first = meant_from(nodes, query, 0)->0;
    lemma_meant_from(nodes, query, first + 1);
}

} // verus!
