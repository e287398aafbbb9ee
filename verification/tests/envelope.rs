//! Reading an edit-plan envelope.

use weavatrix_rust_refactor::envelope::read_envelope;
use weavatrix_rust_refactor::json::Json;
use weavatrix_rust_refactor::plan::PlanBuilder;

fn text(value: &str) -> Json {
    Json::Text(value.to_owned())
}

fn object(entries: Vec<(&str, Json)>) -> Json {
    Json::Object(
        entries
            .into_iter()
            .map(|(key, value)| (key.to_owned(), value))
            .collect(),
    )
}

fn edit(provenance: &str) -> Json {
    object(vec![
        ("startLine", Json::Number(1)),
        ("startChar", Json::Number(4)),
        ("endLine", Json::Number(1)),
        ("endChar", Json::Number(7)),
        ("before", text("one")),
        ("after", text("two")),
        ("provenance", text(provenance)),
    ])
}

fn file(entries: Vec<(&str, Json)>) -> Json {
    object(entries)
}

fn with_files(schema: &str, files: Vec<Json>) -> Json {
    object(vec![
        ("schemaVersion", text(schema)),
        ("operation", text("rename_symbol")),
        ("files", Json::List(files)),
    ])
}

fn envelope(provenance: &str) -> Json {
    with_files(
        "weavatrix.edit-plan.v1",
        vec![file(vec![
            ("path", text("src/a.rs")),
            ("sha256", text(&"0".repeat(64))),
            ("edits", Json::List(vec![edit(provenance)])),
        ])],
    )
}

#[test]
fn a_proven_envelope_reads() {
    for proven in ["EXACT_LSP", "RESOLVED", "EXTRACTED", "LEXICAL_EXACT"] {
        let plan = read_envelope(&envelope(proven)).map_err(|error| error.reason);
        assert!(plan.is_ok(), "{proven} must be applyable: {plan:?}");
    }
}

#[test]
fn an_inferred_edit_is_refused() {
    let error = read_envelope(&envelope("INFERRED")).unwrap_err();
    assert_eq!(error.code, "INVALID_PLAN");
    assert!(error.reason.contains("not applyable"));
}

#[test]
fn a_missing_hash_is_refused_rather_than_defaulted() {
    let plan = with_files(
        "weavatrix.edit-plan.v1",
        vec![file(vec![
            ("path", text("src/a.rs")),
            ("edits", Json::List(vec![edit("EXACT_LSP")])),
        ])],
    );
    let error = read_envelope(&plan).unwrap_err();
    assert!(error.reason.contains("sha256"));
}

#[test]
fn the_wrong_schema_is_refused() {
    let plan = with_files(
        "weavatrix.edit-plan.v2",
        vec![file(vec![
            ("path", text("src/a.rs")),
            ("sha256", text(&"0".repeat(64))),
            ("edits", Json::List(vec![edit("EXACT_LSP")])),
        ])],
    );
    assert!(read_envelope(&plan).is_err());
}

#[test]
fn an_empty_plan_is_refused() {
    assert!(read_envelope(&with_files("weavatrix.edit-plan.v1", vec![])).is_err());
}

#[test]
fn a_read_plan_carries_what_was_written() {
    let plan = read_envelope(&envelope("RESOLVED")).expect("reads");
    assert_eq!(plan.operation, "rename_symbol");
    assert_eq!(plan.files.len(), 1);
    assert_eq!(plan.files[0].path, "src/a.rs");
    let edit = &plan.files[0].edits[0];
    assert_eq!((edit.start_line, edit.start_char), (1, 4));
    assert_eq!((edit.end_line, edit.end_char), (1, 7));
    assert_eq!(edit.before, "one");
    assert_eq!(edit.after, "two");
    assert_eq!(edit.provenance, "RESOLVED");
}

#[test]
fn a_built_plan_reads_back_as_it_was_built() {
    let value = PlanBuilder::new("edit_symbol")
        .file("src/a.rs", "00")
        .edit(2, 0, 2, 3, "old", "new", "EXTRACTED")
        .edit(4, 1, 4, 1, "", "x", "EXTRACTED")
        .build();
    let plan = read_envelope(&value).expect("a built plan reads");
    assert_eq!(plan.files[0].edits.len(), 2);
    assert_eq!(plan.files[0].edits[1].after, "x");
}

#[test]
fn a_number_that_does_not_fit_is_refused() {
    let large = object(vec![
        ("startLine", Json::Number(5_000_000_000)),
        ("startChar", Json::Number(4)),
        ("endLine", Json::Number(1)),
        ("endChar", Json::Number(7)),
        ("before", text("one")),
        ("after", text("two")),
        ("provenance", text("RESOLVED")),
    ]);
    let plan = with_files(
        "weavatrix.edit-plan.v1",
        vec![file(vec![
            ("path", text("src/a.rs")),
            ("sha256", text("00")),
            ("edits", Json::List(vec![large])),
        ])],
    );
    let error = read_envelope(&plan).unwrap_err();
    assert!(error.reason.contains("startLine"), "{}", error.reason);
}
