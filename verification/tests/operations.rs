//! The operations on a small repository, and the dispatch over them.

use blazingly_json::Value;
use weavatrix_graph::{AttributeValue, SourceSpan};
use weavatrix_rust::{Analyzer, SourceInput};
use weavatrix_rust_refactor::graph::{Edge, Graph, Node, Repository, SourceFile, Span};
use weavatrix_rust_refactor::json::Json;
use weavatrix_rust_refactor::operations::apply::Step;
use weavatrix_rust_refactor::operations::delete_readiness::{delete_readiness, MAX_REFERENCES};
use weavatrix_rust_refactor::operations::edit_symbol::edit_symbol;
use weavatrix_rust_refactor::{call, catalog, catalog_names, contract, Operation};

fn convert(value: &Value) -> Json {
    match value {
        Value::Null => Json::Null,
        Value::Bool(flag) => Json::Bool(*flag),
        Value::Number(number) => match number.as_u64() {
            Some(whole) => Json::Number(whole),
            None => Json::Notation(number.to_string()),
        },
        Value::String(text) => Json::Text(text.clone()),
        Value::Array(items) => Json::List(items.iter().map(convert).collect()),
        Value::Object(entries) => Json::Object(
            entries
                .iter()
                .map(|(key, value)| (key.clone(), convert(value)))
                .collect(),
        ),
    }
}

fn json(text: &str) -> Json {
    let value: Value = blazingly_json::from_str(text).expect("a JSON document");
    convert(&value)
}

fn status(value: &Json) -> &str {
    value.text("status").unwrap_or_default()
}

fn span(found: &SourceSpan) -> Span {
    Span {
        file: found.file.clone(),
        start_line: found.start.line,
        end_line: found.end.line,
    }
}

fn repository(files: &[(&str, &str)]) -> Repository {
    let snapshot = Analyzer::default()
        .analyze_sources(
            "/",
            "fixture",
            files
                .iter()
                .map(|(path, contents)| SourceInput {
                    path: (*path).to_owned(),
                    bytes: contents.as_bytes().to_vec(),
                    content_hash: None,
                })
                .collect::<Vec<_>>(),
        )
        .expect("the fixture is analyzed");
    Repository {
        root: "/repo".to_owned(),
        graph: Graph {
            nodes: snapshot
                .nodes
                .iter()
                .map(|node| Node {
                    id: node.id.as_str().to_owned(),
                    label: node.label.clone(),
                    kind: node.kind.as_str().to_owned(),
                    exported: node.attributes.get("exported") == Some(&AttributeValue::Bool(true)),
                    span: node.span.as_ref().map(span),
                })
                .collect(),
            edges: snapshot
                .edges
                .iter()
                .map(|edge| Edge {
                    source: edge.source.as_str().to_owned(),
                    target: edge.target.as_str().to_owned(),
                    kind: edge.kind.as_str().to_owned(),
                    evidence: edge.provenance.evidence.as_str().to_owned(),
                    span: edge.provenance.span.as_ref().map(span),
                })
                .collect(),
        },
        sources: files
            .iter()
            .map(|(path, contents)| SourceFile {
                path: (*path).to_owned(),
                text: (*contents).to_owned(),
            })
            .collect(),
    }
}

fn fixture() -> Repository {
    repository(&[
        ("src/lib.rs", "pub mod core;\npub mod caller;\n"),
        (
            "src/core.rs",
            "pub fn used(value: u32) -> u32 {\n    value + 1\n}\n\npub fn orphan() -> u32 {\n    0\n}\n",
        ),
        (
            "src/caller.rs",
            "use crate::core::used;\n\npub fn run() -> u32 {\n    used(1)\n}\n",
        ),
        (
            "Cargo.toml",
            "[package]\nname = \"fixture\"\nversion = \"0.0.0\"\nedition = \"2024\"\n",
        ),
    ])
}

#[test]
fn a_missing_symbol_is_not_found_not_an_error() {
    let state = fixture();
    let answer = delete_readiness(&state, &json(r#"{"symbol": "src/nope.rs#ghost"}"#));
    assert_eq!(answer.text("status"), Some("NOT_FOUND"));
}

#[test]
fn a_missing_argument_is_invalid_args_not_a_crash() {
    let state = fixture();
    let answer = delete_readiness(&state, &json("{}"));
    assert_eq!(answer.text("status"), Some("INVALID_ARGS"));
}

#[test]
fn a_referenced_symbol_is_unsafe_with_high_confidence() {
    let state = fixture();
    let answer = delete_readiness(&state, &json(r#"{"symbol": "used"}"#));
    assert_eq!(status(&answer), "OK", "{answer:?}");
    let references = answer.list("knownReferences").map_or(0, Vec::len);
    assert!(references > 0, "{answer:?}");
    assert_eq!(answer.flag("safe"), Some(false));
    assert_eq!(answer.text("confidence"), Some("high"));
    assert!(references <= MAX_REFERENCES);
}

#[test]
fn deletion_is_never_automated_whatever_the_verdict() {
    let state = fixture();
    let answer = delete_readiness(&state, &json(r#"{"symbol": "orphan"}"#));
    assert_eq!(status(&answer), "OK", "{answer:?}");
    assert_eq!(answer.text("verdict"), Some("REVIEW_REQUIRED"));
    // safe:true would claim a proof this engine cannot produce.
    assert_ne!(answer.flag("safe"), Some(true));
}

#[test]
fn edit_symbol_a_missing_argument_is_invalid_args() {
    let state = fixture();
    assert_eq!(
        status(&edit_symbol(&state, &json(r#"{"symbol": "used"}"#))),
        "INVALID_ARGS"
    );
}

#[test]
fn an_unknown_operation_is_refused_by_name() {
    let state = fixture();
    let answer = edit_symbol(
        &state,
        &json(r#"{"symbol": "used", "operation": "rewrite_everything", "content": "x"}"#),
    );
    assert_eq!(status(&answer), "INVALID_ARGS");
    assert_eq!(answer.list("invalid").map(Vec::len), Some(1));
}

#[test]
fn a_missing_symbol_is_not_found() {
    let state = fixture();
    let answer = edit_symbol(
        &state,
        &json(
            r#"{"symbol": "nope::never", "operation": "insert_before_symbol", "content": "//\n"}"#,
        ),
    );
    assert_eq!(status(&answer), "NOT_FOUND");
}

fn first_edit(answer: &Json) -> &Json {
    let plan = answer.get("plan").expect("plan");
    let files = plan.list("files").expect("files");
    &files.first().expect("one file").list("edits").expect("edits")[0]
}

#[test]
fn an_insertion_is_a_zero_width_edit_with_empty_before() {
    let state = fixture();
    let answer = edit_symbol(
        &state,
        &json(
            r#"{"symbol": "used", "operation": "insert_before_symbol", "content": "// note\n"}"#,
        ),
    );
    assert_eq!(status(&answer), "PLANNED", "{answer:?}");
    let edit = first_edit(&answer);
    assert_eq!(edit.text("before"), Some(""));
    assert_eq!(edit.number("startLine"), edit.number("endLine"));
    assert_eq!(edit.number("startChar"), edit.number("endChar"));
    assert_eq!(edit.number("startLine"), Some(1));
    assert_eq!(edit.number("startChar"), Some(0));
    assert_eq!(edit.text("after"), Some("// note\n"));
}

#[test]
fn replacing_a_body_carries_the_exact_existing_text_as_before() {
    let state = fixture();
    let answer = edit_symbol(
        &state,
        &json(
            r#"{"symbol": "used", "operation": "replace_symbol_body", "content": "pub fn used(v: u32) -> u32 { v }"}"#,
        ),
    );
    assert_eq!(status(&answer), "PLANNED", "{answer:?}");
    let before = first_edit(&answer).text("before").expect("before text");
    assert!(
        before.contains("used"),
        "the before text must be the real declaration, found {before:?}"
    );
    assert_eq!(before, "pub fn used(value: u32) -> u32 {\n    value + 1\n}");
}

#[test]
fn the_missing_syntax_gate_is_stated_rather_than_implied() {
    let state = fixture();
    let answer = edit_symbol(
        &state,
        &json(r#"{"symbol": "used", "operation": "insert_after_symbol", "content": "\n"}"#),
    );
    assert_eq!(status(&answer), "PLANNED", "{answer:?}");
    let warnings = answer.list("warnings").expect("warnings");
    assert!(
        warnings
            .iter()
            .any(|warning| warning.as_str() == Some("SYNTAX_CHECK_NOT_PERFORMED")),
        "a plan that was not syntax-checked must say so"
    );
}

#[test]
fn every_contract_tool_resolves_to_an_operation() {
    for tool in contract::tools() {
        assert!(
            Operation::from_name(&tool.name).is_some(),
            "{} is in the contract with no operation arm",
            tool.name
        );
    }
}

#[test]
fn no_operation_exists_outside_the_contract() {
    for name in catalog_names() {
        assert!(contract::declares(&name));
    }
    assert_eq!(catalog_names().len(), contract::tools().len());
}

#[test]
fn exactly_four_operations_can_write() {
    let writers = contract::tools()
        .iter()
        .filter_map(|tool| Operation::from_name(&tool.name))
        .filter(|operation| operation.writes())
        .count();
    assert_eq!(writers, 4);
}

#[test]
fn every_operation_answers_with_a_contract_status_ported_or_not() {
    let state = fixture();
    for tool in contract::tools() {
        let step = call(&state, &tool.name, &json("{}"), 0).expect("declared tool");
        let Step::Answer(answer) = step else {
            panic!("{} has something to do before it answers", tool.name);
        };
        let status = answer.text("status").unwrap_or_default();
        assert!(
            contract::permits_state(status),
            "{} answered {status}, which is outside the contract",
            tool.name
        );
    }
}

#[test]
fn an_undeclared_tool_is_an_error_not_a_status() {
    let state = fixture();
    let refused = call(&state, "reformat_universe", &json("{}"), 0);
    assert!(refused.is_err());
    assert_eq!(
        refused.err().unwrap_or_default(),
        "unknown refactor operation: reformat_universe"
    );
}

#[test]
fn the_catalog_matches_the_contract() {
    assert_eq!(
        catalog().as_array().map(Vec::len),
        Some(contract::tools().len())
    );
}

#[test]
fn an_operation_answers_to_its_own_name() {
    for tool in contract::tools() {
        let operation = Operation::from_name(&tool.name).expect("declared");
        assert_eq!(operation.name(), tool.name);
    }
    assert!(Operation::from_name("Rename_Symbol").is_none());
}
