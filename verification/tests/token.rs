//! Confirmations: single use, bound to a plan, a repository and a time.

use weavatrix_rust_refactor::json::Json;
use weavatrix_rust_refactor::plan::{EditPlan, FileEdit, TextEdit};
use weavatrix_rust_refactor::token::{fingerprint, TokenStore, TOKEN_TTL};

const NOW: u64 = 1_700_000_000;

fn plan(after: &str) -> EditPlan {
    EditPlan {
        operation: "rename_symbol".to_owned(),
        files: vec![FileEdit {
            path: "src/a.rs".to_owned(),
            sha256: "0".repeat(64),
            edits: vec![TextEdit {
                start_line: 1,
                start_char: 0,
                end_line: 1,
                end_char: 3,
                before: "one".to_owned(),
                after: after.to_owned(),
                provenance: "EXACT_LSP".to_owned(),
            }],
        }],
    }
}

fn status(value: Option<&Json>) -> Option<&str> {
    value?.get("status")?.as_str()
}

#[test]
fn a_previewed_plan_applies_once() {
    let mut store = TokenStore::new();
    let repository = "/repo";
    let token = store.issue(&plan("two"), repository, NOW);
    assert!(
        store
            .consume(Some(&token.value), &plan("two"), repository, NOW)
            .is_none()
    );
    // The same value a second time is spent, whatever it proved the first time.
    let replay = store.consume(Some(&token.value), &plan("two"), repository, NOW);
    assert_eq!(status(replay.as_ref()), Some("TOKEN_UNKNOWN"));
}

#[test]
fn a_token_does_not_travel_to_another_plan() {
    let mut store = TokenStore::new();
    let repository = "/repo";
    let token = store.issue(&plan("two"), repository, NOW);
    let refusal = store.consume(Some(&token.value), &plan("three"), repository, NOW);
    assert_eq!(status(refusal.as_ref()), Some("TOKEN_PLAN_MISMATCH"));
}

#[test]
fn a_token_does_not_travel_to_another_repository() {
    let mut store = TokenStore::new();
    let token = store.issue(&plan("two"), "/repo", NOW);
    let refusal = store.consume(Some(&token.value), &plan("two"), "/other", NOW);
    assert_eq!(status(refusal.as_ref()), Some("TOKEN_REPOSITORY_MISMATCH"));
}

#[test]
fn applying_without_a_confirmation_is_refused() {
    let mut store = TokenStore::new();
    let refusal = store.consume(None, &plan("two"), "/repo", NOW);
    assert_eq!(status(refusal.as_ref()), Some("TOKEN_UNKNOWN"));
}

#[test]
fn an_invented_confirmation_is_refused() {
    let mut store = TokenStore::new();
    let refusal = store.consume(Some("deadbeef"), &plan("two"), "/repo", NOW);
    assert_eq!(status(refusal.as_ref()), Some("TOKEN_UNKNOWN"));
}

#[test]
fn a_confirmation_expires_at_the_end_of_its_life() {
    let mut store = TokenStore::new();
    let token = store.issue(&plan("two"), "/repo", NOW);
    assert_eq!(token.expires_at, NOW + 300);
    assert_eq!(TOKEN_TTL, 300);
    let refusal = store.consume(Some(&token.value), &plan("two"), "/repo", NOW + 300);
    assert_eq!(status(refusal.as_ref()), Some("TOKEN_EXPIRED"));
    let token = store.issue(&plan("two"), "/repo", NOW);
    assert!(store
        .consume(Some(&token.value), &plan("two"), "/repo", NOW + 299)
        .is_none());
}

#[test]
fn a_refused_confirmation_is_spent_all_the_same() {
    let mut store = TokenStore::new();
    let token = store.issue(&plan("two"), "/repo", NOW);
    let refusal = store.consume(Some(&token.value), &plan("three"), "/repo", NOW);
    assert_eq!(status(refusal.as_ref()), Some("TOKEN_PLAN_MISMATCH"));
    let again = store.consume(Some(&token.value), &plan("two"), "/repo", NOW);
    assert_eq!(status(again.as_ref()), Some("TOKEN_UNKNOWN"));
}

#[test]
fn a_confirmation_gives_back_the_plan_it_was_issued_for() {
    let mut store = TokenStore::new();
    let token = store.issue(&plan("two"), "/repo", NOW);
    let other = store.issue(&plan("three"), "/repo", NOW);
    assert_ne!(token.value, other.value);
    let found = store
        .consume_for_plan(Some(&token.value), "/repo", NOW)
        .expect("issued");
    assert_eq!(found.files[0].edits[0].after, "two");
    let spent = store.consume_for_plan(Some(&token.value), "/repo", NOW);
    assert_eq!(status(spent.as_ref().err()), Some("TOKEN_UNKNOWN"));
    let wrong = store.consume_for_plan(Some(&other.value), "/other", NOW);
    assert_eq!(status(wrong.as_ref().err()), Some("TOKEN_REPOSITORY_MISMATCH"));
}

#[test]
fn a_confirmation_is_the_fingerprint_and_the_time() {
    let mut store = TokenStore::new();
    let token = store.issue(&plan("two"), "/repo", 1);
    assert_eq!(token.value, format!("{}9e3779b97f4a7c15", fingerprint(&plan("two"))));
    assert_eq!(fingerprint(&plan("two")).len(), 16);
    assert_ne!(fingerprint(&plan("two")), fingerprint(&plan("three")));
}

fn replacement(before: &str, after: &str) -> EditPlan {
    let mut plan = plan(after);
    plan.files[0].edits[0].before = before.to_owned();
    plan
}

#[test]
fn a_colon_does_not_carry_a_confirmation_to_another_plan() {
    let mut store = TokenStore::new();
    let token = store.issue(&replacement("a:b", "c"), "/repo", NOW);
    let refusal = store.consume(Some(&token.value), &replacement("a", "b:c"), "/repo", NOW);
    assert_eq!(status(refusal.as_ref()), Some("TOKEN_PLAN_MISMATCH"));
    assert_ne!(
        fingerprint(&replacement("a:b", "c")),
        fingerprint(&replacement("a", "b:c"))
    );
}

#[test]
fn plans_are_the_same_only_where_every_field_is() {
    assert!(plan("two").same(&plan("two")));
    assert!(!plan("two").same(&plan("three")));
    let mut moved = plan("two");
    moved.files[0].edits[0].end_char = 4;
    assert!(!plan("two").same(&moved));
    let mut longer = plan("two");
    longer.files.push(FileEdit {
        path: "src/b.rs".to_owned(),
        sha256: "0".repeat(64),
        edits: Vec::new(),
    });
    assert!(!plan("two").same(&longer));
}
