//! Building a plan and hashing the sources it was planned against.

use weavatrix_rust_refactor::json::Json;
use weavatrix_rust_refactor::plan::{sha256_of, PlanBuilder};
use weavatrix_worktree::Sha256Hash;

#[test]
fn the_envelope_carries_the_frozen_schema_version() {
    let plan = PlanBuilder::new("edit_symbol")
        .file("a.rs", &sha256_of("x"))
        .edit(1, 0, 1, 1, "x", "y", "EXTRACTED")
        .build();
    assert_eq!(
        plan.get("schemaVersion").and_then(Json::as_str),
        Some("weavatrix.edit-plan.v1")
    );
}

#[test]
fn one_path_gets_one_file_entry_however_many_edits() {
    let plan = PlanBuilder::new("bulk_replace")
        .file("a.rs", &sha256_of("x"))
        .edit(1, 0, 1, 1, "x", "y", "LEXICAL_EXACT")
        .file("a.rs", &sha256_of("x"))
        .edit(2, 0, 2, 1, "x", "y", "LEXICAL_EXACT")
        .build();
    let files = plan.get("files").and_then(Json::as_array).expect("files");
    assert_eq!(
        files.len(),
        1,
        "a second entry would apply to already-edited bytes"
    );
    assert_eq!(
        files[0]
            .get("edits")
            .and_then(Json::as_array)
            .map(Vec::len),
        Some(2)
    );
}

#[test]
fn a_file_with_no_edits_is_dropped_rather_than_shipped_empty() {
    let plan = PlanBuilder::new("bulk_replace")
        .file("untouched.rs", &sha256_of("x"))
        .build();
    assert_eq!(
        plan.get("files").and_then(Json::as_array).map(Vec::len),
        Some(0)
    );
}

#[test]
fn emptiness_is_visible_before_building() {
    let empty = PlanBuilder::new("bulk_replace").file("a.rs", "hash");
    assert!(empty.is_empty());
    let filled = PlanBuilder::new("bulk_replace").file("a.rs", "hash").edit(
        1,
        0,
        1,
        1,
        "x",
        "y",
        "LEXICAL_EXACT",
    );
    assert!(!filled.is_empty());
}

#[test]
fn the_hash_is_the_one_the_applier_recomputes() {
    // Same input, same digest as weavatrix-worktree computes when it re-reads the file.
    let text = "pub fn one() {}\n";
    assert_eq!(
        sha256_of(text),
        Sha256Hash::compute(text.as_bytes()).to_string()
    );
}

#[test]
fn a_known_digest_is_computed() {
    assert_eq!(
        sha256_of("abc"),
        "ba7816bf8f01cfea414140de5dae2223b00361a396177a9cb410ff61f20015ad"
    );
    assert_eq!(
        sha256_of(""),
        "e3b0c44298fc1c149afbf4c8996fb92427ae41e4649b934ca495991b7852b855"
    );
}

#[test]
fn an_edit_lands_on_the_file_opened_last() {
    let plan = PlanBuilder::new("bulk_replace")
        .file("a.rs", "1")
        .file("b.rs", "2")
        .edit(1, 0, 1, 1, "x", "y", "LEXICAL_EXACT")
        .file("a.rs", "ignored")
        .edit(3, 2, 3, 4, "pq", "rs", "LEXICAL_EXACT")
        .finish();
    assert_eq!(plan.operation, "bulk_replace");
    assert_eq!(plan.files.len(), 2);
    assert_eq!(plan.files[0].path, "a.rs");
    assert_eq!(plan.files[0].sha256, "1", "the first hash of a path is the one kept");
    assert_eq!(plan.files[0].edits.len(), 1);
    assert_eq!(plan.files[0].edits[0].start_line, 3);
    assert_eq!(plan.files[0].edits[0].start_char, 2);
    assert_eq!(plan.files[0].edits[0].end_line, 3);
    assert_eq!(plan.files[0].edits[0].end_char, 4);
    assert_eq!(plan.files[0].edits[0].before, "pq");
    assert_eq!(plan.files[0].edits[0].after, "rs");
    assert_eq!(plan.files[1].path, "b.rs");
    assert_eq!(plan.files[1].edits[0].after, "y");
}

#[test]
fn an_edit_before_any_file_is_dropped() {
    let builder = PlanBuilder::new("bulk_replace").edit(1, 0, 1, 1, "x", "y", "LEXICAL_EXACT");
    assert!(builder.is_empty());
    assert!(builder.finish().files.is_empty());
}

#[test]
fn a_built_edit_carries_every_field() {
    let plan = PlanBuilder::new("edit_symbol")
        .file("a.rs", "hash")
        .edit(1, 2, 3, 4, "before", "after", "EXTRACTED")
        .build();
    assert_eq!(plan.text("operation"), Some("edit_symbol"));
    let files = plan.list("files").expect("files");
    assert_eq!(files[0].text("path"), Some("a.rs"));
    assert_eq!(files[0].text("sha256"), Some("hash"));
    let edit = &files[0].list("edits").expect("edits")[0];
    assert_eq!(edit.number("startLine"), Some(1));
    assert_eq!(edit.number("startChar"), Some(2));
    assert_eq!(edit.number("endLine"), Some(3));
    assert_eq!(edit.number("endChar"), Some(4));
    assert_eq!(edit.text("before"), Some("before"));
    assert_eq!(edit.text("after"), Some("after"));
    assert_eq!(edit.text("provenance"), Some("EXTRACTED"));
}
