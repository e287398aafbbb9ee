//! Resolving what a caller names to one node of the graph.

use weavatrix_graph::{AttributeValue, SourceSpan};
use weavatrix_rust::{Analyzer, SourceInput};
use weavatrix_rust_refactor::graph::{Edge, Graph, Node, Repository, SourceFile, Span};
use weavatrix_rust_refactor::resolve::{candidate_ids, resolve_symbol};

fn span(found: &SourceSpan) -> Span {
    Span {
        file: found.file.clone(),
        start_line: found.start.line,
        end_line: found.end.line,
    }
}

fn repository(files: &[(&str, &str)]) -> Repository {
    let snapshot = Analyzer::default()
        .analyze_sources(
            "/",
            "fixture",
            files
                .iter()
                .map(|(path, contents)| SourceInput {
                    path: (*path).to_owned(),
                    bytes: contents.as_bytes().to_vec(),
                    content_hash: None,
                })
                .collect::<Vec<_>>(),
        )
        .expect("the fixture is analyzed");
    Repository {
        root: "/repo".to_owned(),
        graph: Graph {
            nodes: snapshot
                .nodes
                .iter()
                .map(|node| Node {
                    id: node.id.as_str().to_owned(),
                    label: node.label.clone(),
                    kind: node.kind.as_str().to_owned(),
                    exported: node.attributes.get("exported") == Some(&AttributeValue::Bool(true)),
                    span: node.span.as_ref().map(span),
                })
                .collect(),
            edges: snapshot
                .edges
                .iter()
                .map(|edge| Edge {
                    source: edge.source.as_str().to_owned(),
                    target: edge.target.as_str().to_owned(),
                    kind: edge.kind.as_str().to_owned(),
                    evidence: edge.provenance.evidence.as_str().to_owned(),
                    span: edge.provenance.span.as_ref().map(span),
                })
                .collect(),
        },
        sources: files
            .iter()
            .map(|(path, contents)| SourceFile {
                path: (*path).to_owned(),
                text: (*contents).to_owned(),
            })
            .collect(),
    }
}

fn fixture() -> Repository {
    repository(&[
        ("src/lib.rs", "pub mod core;\npub mod caller;\n"),
        (
            "src/core.rs",
            "pub fn used(value: u32) -> u32 {\n    value + 1\n}\n\npub fn orphan() -> u32 {\n    0\n}\n",
        ),
        (
            "src/caller.rs",
            "use crate::core::used;\n\npub fn run() -> u32 {\n    used(1)\n}\n",
        ),
        (
            "Cargo.toml",
            "[package]\nname = \"fixture\"\nversion = \"0.0.0\"\nedition = \"2024\"\n",
        ),
    ])
}

fn node(id: &str, label: &str) -> Node {
    Node {
        id: id.to_owned(),
        label: label.to_owned(),
        kind: "function".to_owned(),
        exported: false,
        span: None,
    }
}

#[test]
fn an_exact_id_resolves() {
    let state = fixture();
    let Some(first) = state.graph.nodes.first().map(|node| node.id.clone()) else {
        return;
    };
    assert!(resolve_symbol(&state.graph, &first).is_some());
}

#[test]
fn an_unknown_query_resolves_to_nothing() {
    let state = fixture();
    assert!(resolve_symbol(&state.graph, "definitely::not::here").is_none());
}

#[test]
fn an_ambiguous_label_refuses_rather_than_guessing() {
    let state = fixture();
    // A label carried by two nodes must not resolve; editing the wrong one is the failure mode
    // this whole product exists to prevent.
    let mut seen = std::collections::BTreeMap::<&str, usize>::new();
    for node in &state.graph.nodes {
        *seen.entry(node.label.as_str()).or_default() += 1;
    }
    if let Some((label, _)) = seen.iter().find(|(_, count)| **count > 1) {
        assert!(
            resolve_symbol(&state.graph, label).is_none(),
            "ambiguous label {label} must not resolve"
        );
    }
}

#[test]
fn an_id_wins_over_a_label_and_a_label_must_be_the_only_one() {
    let graph = Graph {
        nodes: vec![
            node("a", "shared"),
            node("b", "shared"),
            node("c", "single"),
            node("single", "other"),
        ],
        edges: Vec::new(),
    };
    assert_eq!(resolve_symbol(&graph, "b"), Some(1));
    assert_eq!(resolve_symbol(&graph, "single"), Some(3));
    assert_eq!(resolve_symbol(&graph, "other"), Some(3));
    assert_eq!(resolve_symbol(&graph, "shared"), None);
}

#[test]
fn the_candidates_of_an_ambiguous_label_are_its_ids() {
    let graph = Graph {
        nodes: vec![node("a", "shared"), node("b", "shared"), node("c", "single")],
        edges: Vec::new(),
    };
    assert_eq!(candidate_ids(&graph, "shared"), ["a", "b"]);
    assert!(candidate_ids(&graph, "nothing").is_empty());
}
