//! Judging a move of a symbol from its dependencies.
//!
//! The verdict only means something if a cycle can come out, so one case moves a declaration
//! into a file that something depending on it depends on.

use blazingly_json::Value;
use weavatrix_graph::{AttributeValue, SourceSpan};
use weavatrix_rust::{Analyzer, SourceInput};
use weavatrix_rust_refactor::graph::{Edge, Graph, Node, Repository, SourceFile, Span};
use weavatrix_rust_refactor::json::Json;
use weavatrix_rust_refactor::operations::apply::Step;
use weavatrix_rust_refactor::operations::move_symbol::move_symbol;

fn convert(value: &Value) -> Json {
    match value {
        Value::Null => Json::Null,
        Value::Bool(flag) => Json::Bool(*flag),
        Value::Number(number) => match number.as_u64() {
            Some(whole) => Json::Number(whole),
            None => Json::Notation(number.to_string()),
        },
        Value::String(text) => Json::Text(text.clone()),
        Value::Array(items) => Json::List(items.iter().map(convert).collect()),
        Value::Object(entries) => Json::Object(
            entries
                .iter()
                .map(|(key, value)| (key.clone(), convert(value)))
                .collect(),
        ),
    }
}

fn json(text: &str) -> Json {
    let value: Value = blazingly_json::from_str(text).expect("a JSON document");
    convert(&value)
}

fn status(value: &Json) -> &str {
    value.text("status").unwrap_or_default()
}

fn span(found: &SourceSpan) -> Span {
    Span {
        file: found.file.clone(),
        start_line: found.start.line,
        end_line: found.end.line,
    }
}

fn repository(files: &[(&str, &str)]) -> Repository {
    let snapshot = Analyzer::default()
        .analyze_sources(
            "/",
            "fixture",
            files
                .iter()
                .map(|(path, contents)| SourceInput {
                    path: (*path).to_owned(),
                    bytes: contents.as_bytes().to_vec(),
                    content_hash: None,
                })
                .collect::<Vec<_>>(),
        )
        .expect("the fixture is analyzed");
    Repository {
        root: "/repo".to_owned(),
        graph: Graph {
            nodes: snapshot
                .nodes
                .iter()
                .map(|node| Node {
                    id: node.id.as_str().to_owned(),
                    label: node.label.clone(),
                    kind: node.kind.as_str().to_owned(),
                    exported: node.attributes.get("exported") == Some(&AttributeValue::Bool(true)),
                    span: node.span.as_ref().map(span),
                })
                .collect(),
            edges: snapshot
                .edges
                .iter()
                .map(|edge| Edge {
                    source: edge.source.as_str().to_owned(),
                    target: edge.target.as_str().to_owned(),
                    kind: edge.kind.as_str().to_owned(),
                    evidence: edge.provenance.evidence.as_str().to_owned(),
                    span: edge.provenance.span.as_ref().map(span),
                })
                .collect(),
        },
        sources: files
            .iter()
            .map(|(path, contents)| SourceFile {
                path: (*path).to_owned(),
                text: (*contents).to_owned(),
            })
            .collect(),
    }
}

/// `caller` depends on `core`; nothing depends on `caller`.
const FILES: [(&str, &str); 4] = [
    ("src/lib.rs", "pub mod core;\npub mod caller;\n"),
    (
        "src/core.rs",
        "pub fn helper(value: u32) -> u32 {\n    value + 1\n}\n",
    ),
    (
        "src/caller.rs",
        "use crate::core::helper;\n\npub fn run() -> u32 {\n    helper(1)\n}\n",
    ),
    (
        "Cargo.toml",
        "[package]\nname = \"fixture\"\nversion = \"0.0.0\"\nedition = \"2024\"\n",
    ),
];

fn call(arguments: &Json) -> Json {
    match weavatrix_rust_refactor::call(&repository(&FILES), "move_symbol", arguments, 0) {
        Ok(Step::Answer(answer)) => answer,
        _ => panic!("a declared tool that answers at once"),
    }
}

fn function(id: &str, file: &str) -> Node {
    Node {
        id: id.to_owned(),
        label: id.to_owned(),
        kind: "function".to_owned(),
        exported: true,
        span: Some(Span {
            file: file.to_owned(),
            start_line: 1,
            end_line: 1,
        }),
    }
}

fn calls(source: &str, target: &str) -> Edge {
    Edge {
        source: source.to_owned(),
        target: target.to_owned(),
        kind: "calls".to_owned(),
        evidence: "resolved".to_owned(),
        span: None,
    }
}

#[test]
fn move_symbol_a_missing_argument_is_invalid_args() {
    assert_eq!(
        status(&call(&json(r#"{"symbol": "helper"}"#))),
        "INVALID_ARGS"
    );
}

#[test]
fn an_unknown_symbol_is_not_found() {
    let answer = call(&json(
        r#"{"symbol": "absent::name", "to_file": "src/caller.rs"}"#,
    ));
    assert_eq!(status(&answer), "NOT_FOUND");
}

#[test]
fn moving_a_symbol_to_its_own_file_is_no_change() {
    let answer = call(&json(
        r#"{"symbol": "helper", "to_file": "src/core.rs"}"#,
    ));
    assert_eq!(status(&answer), "NO_CHANGE");
}

#[test]
fn a_move_that_creates_no_cycle_is_feasible() {
    let answer = call(&json(
        r#"{"symbol": "helper", "to_file": "src/caller.rs"}"#,
    ));
    assert_eq!(status(&answer), "EVALUATED", "{answer:?}");
    // Moving the helper into its only consumer removes the dependency rather than adding one.
    assert_eq!(answer.text("verdict"), Some("FEASIBLE"), "{answer:?}");
    let introduced = answer
        .get("cycles")
        .and_then(|cycles| cycles.list("introduced"))
        .map(Vec::len);
    assert_eq!(introduced, Some(0));
}

#[test]
fn the_answer_names_who_depends_on_the_symbol() {
    let answer = call(&json(
        r#"{"symbol": "helper", "to_file": "src/other.rs"}"#,
    ));
    assert_eq!(status(&answer), "EVALUATED", "{answer:?}");
    let importers = answer
        .get("blastRadius")
        .and_then(|radius| radius.list("importers"))
        .expect("importers");
    assert!(
        importers
            .iter()
            .any(|file| file.as_str() == Some("src/caller.rs")),
        "the consumer must appear in the blast radius, got {importers:?}"
    );
}

#[test]
fn the_projection_says_it_is_a_projection() {
    let answer = call(&json(
        r#"{"symbol": "helper", "to_file": "src/caller.rs"}"#,
    ));
    assert_eq!(status(&answer), "EVALUATED", "{answer:?}");
    assert_eq!(
        answer.text("fidelity"),
        Some("PROJECTED_FROM_GRAPH_EDGES"),
        "a prediction from simulated edges must not read as a rebuild"
    );
    assert!(
        answer.get("plan").is_none(),
        "move_symbol computes no byte edits"
    );
}

#[test]
fn a_move_into_a_dependency_introduces_a_cycle() {
    // a.rs holds `first` and `second`; b.rs depends on `first`, and `second` depends on b.rs.
    let repository = Repository {
        root: "/repo".to_owned(),
        graph: Graph {
            nodes: vec![
                function("first", "a.rs"),
                function("second", "c.rs"),
                function("third", "b.rs"),
            ],
            edges: vec![calls("third", "first"), calls("second", "third")],
        },
        sources: Vec::new(),
    };
    let answer = move_symbol(
        &repository,
        &json(r#"{"symbol": "first", "to_file": "c.rs"}"#),
    );
    assert_eq!(status(&answer), "EVALUATED", "{answer:?}");
    let introduced = answer
        .get("cycles")
        .and_then(|cycles| cycles.list("introduced"))
        .map(Vec::len);
    assert_eq!(introduced, Some(2), "each dependency on the cycle is named: {answer:?}");
    assert_eq!(answer.text("verdict"), Some("WOULD_VIOLATE"));
}
