//! Risk signals that make an absence of references unprovable.

use weavatrix_rust_refactor::evidence::{read_source, status_for, Risk};
use weavatrix_rust_refactor::graph::{Node, SourceFile};

fn node() -> Node {
    Node {
        id: "src/a.rs#one".to_owned(),
        label: "one".to_owned(),
        kind: "function".to_owned(),
        exported: false,
        span: None,
    }
}

#[test]
fn the_native_engine_never_claims_an_exact_zero_reference_proof() {
    let risk = Risk::assess(&node(), Some("fn one() {}\n"));
    assert!(
        risk.blocking().contains(&"EXACT_REFERENCES"),
        "a missing exact backend must always block the proof"
    );
}

#[test]
fn unreadable_source_is_unchecked_not_absent() {
    let risk = Risk::assess(&node(), None);
    assert!(risk.blocking().contains(&"DYNAMIC_LOADING"));
    assert!(risk.blocking().contains(&"REFLECTION"));
    assert_eq!(status_for(true, false), "NOT_CHECKED_SOURCE_UNAVAILABLE");
}

#[test]
fn observed_dynamic_code_is_reported_present() {
    let risk = Risk::assess(&node(), Some("let m = require('./x');\n"));
    let report = risk.report();
    let dynamic = report
        .as_array()
        .and_then(|signals| {
            signals.iter().find(|signal| {
                signal.get("signal").and_then(|value| value.as_str()) == Some("DYNAMIC_LOADING")
            })
        })
        .and_then(|signal| signal.get("status").and_then(|value| value.as_str()));
    assert_eq!(dynamic, Some("PRESENT"));
}

#[test]
fn every_signal_is_reported_whatever_the_verdict() {
    let risk = Risk::assess(&node(), Some("fn one() {}\n"));
    assert_eq!(risk.report().as_array().map(Vec::len), Some(4));
}

#[test]
fn a_file_and_an_export_have_consumers_that_cannot_be_seen() {
    let internal = Risk::assess(&node(), Some("fn one() {}\n"));
    assert!(!internal.blocking().contains(&"EXTERNAL_CONSUMERS"));
    let mut exported = node();
    exported.exported = true;
    assert!(Risk::assess(&exported, None)
        .blocking()
        .contains(&"EXTERNAL_CONSUMERS"));
    let mut file = node();
    file.kind = "file".to_owned();
    assert!(Risk::assess(&file, None)
        .blocking()
        .contains(&"EXTERNAL_CONSUMERS"));
}

#[test]
fn reflection_is_reported_beside_dynamic_loading() {
    let risk = Risk::assess(&node(), Some("value = getattr(module, name)\n"));
    assert_eq!(risk.blocking(), ["REFLECTION", "EXACT_REFERENCES"]);
}

#[test]
fn a_source_past_the_bound_is_not_read() {
    let sources = vec![
        SourceFile {
            path: "src/small.rs".to_owned(),
            text: "fn one() {}\n".to_owned(),
        },
        SourceFile {
            path: "src/large.rs".to_owned(),
            text: "x".repeat(4 * 1024 * 1024 + 1),
        },
    ];
    assert_eq!(read_source(&sources, "src/small.rs"), Some("fn one() {}\n"));
    assert_eq!(read_source(&sources, "src/large.rs"), None);
    assert_eq!(read_source(&sources, "src/absent.rs"), None);
}
