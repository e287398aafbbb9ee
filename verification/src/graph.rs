//! The evidence a repository offers: its graph, and the sources that could be read.
//!
//! The graph's nodes and edges carry what the planners read of them and nothing else. A kind is
//! the name the graph gives it, such as `file` or `calls`.

use crate::text;
use vstd::prelude::*;
use vstd::string::*;

verus! {

/// Where a fact stands in the sources: a file, and its 1-based first and last line.
#[derive(Debug)]
pub struct Span {
    pub file: String,
    pub start_line: u32,
    pub end_line: u32,
}

/// A node of the graph.
#[derive(Debug)]
pub struct Node {
    pub id: String,
    pub label: String,
    pub kind: String,
    /// Whether the graph records that the declaration leaves its module.
    pub exported: bool,
    pub span: Option<Span>,
}

/// A relation between two nodes, and the evidence for it.
#[derive(Debug)]
pub struct Edge {
    pub source: String,
    pub target: String,
    pub kind: String,
    pub evidence: String,
    /// Where the related expression itself stands, where the graph recorded it.
    pub span: Option<Span>,
}

/// The evidence graph.
#[derive(Debug)]
pub struct Graph {
    pub nodes: Vec<Node>,
    pub edges: Vec<Edge>,
}

/// A file of the repository, by its repository-relative path, and its text.
#[derive(Debug)]
pub struct SourceFile {
    pub path: String,
    pub text: String,
}

/// A repository as the planners see it.
#[derive(Debug)]
pub struct Repository {
    pub root: String,
    pub graph: Graph,
    pub sources: Vec<SourceFile>,
}

/// Where a node with an id first stands, from a place on.
pub open spec fn id_from(nodes: Seq<Node>, id: Seq<char>, from: int) -> Option<int>
    decreases nodes.len() - from,
{
    if from < 0 || from >= nodes.len() {
        None
    } else if nodes[from].id@ == id {
        Some(from)
    } else {
        id_from(nodes, id, from + 1)
    }
}

/// Where a node with an id first stands.
pub fn find_id(nodes: &Vec<Node>, id: &str) -> (found: Option<usize>)
    ensures
        match (found, id_from(nodes@, id@, 0)) {
            (Some(at), Some(expected)) => at == expected && at < nodes@.len() && nodes@[at as int].id@
                == id@,
            (None, None) => true,
            _ => false,
        },
{
    let mut i: usize = 0;
    while i < nodes.len()
        invariant
            i <= nodes@.len(),
            id_from(nodes@, id@, 0) == id_from(nodes@, id@, i as int),
        decreases nodes@.len() - i,
    {
        if text::same(nodes[i].id.as_str(), id) {
            return Some(i);
        }
        i += 1;
    }
    None
}

} // verus!
