//! Several renames in one transaction.
//!
//! The swap is the case worth building a batch for. Run `alpha -> beta` and then `beta -> alpha`
//! as two sequential renames and the second one undoes the first. Applied as one positional batch
//! they exchange, which is what was asked for.

use blazingly_json::Value;
use weavatrix_graph::{AttributeValue, SourceSpan};
use weavatrix_rust::{Analyzer, SourceInput};
use weavatrix_rust_refactor::graph::{Edge, Graph, Node, Repository, SourceFile, Span};
use weavatrix_rust_refactor::json::Json;
use weavatrix_rust_refactor::operations::apply::{
    after_list, after_rollback, after_write, CheckedFile, DryRun, Failure, FailureCode, Listed,
    Restored, Step, Written,
};
use weavatrix_rust_refactor::operations::RefactorSession;
use weavatrix_rust_refactor::plan::{sha256_of, EditPlan, TextEdit};

const NOW: u64 = 1_700_000_000;

fn convert(value: &Value) -> Json {
    match value {
        Value::Null => Json::Null,
        Value::Bool(flag) => Json::Bool(*flag),
        Value::Number(number) => match number.as_u64() {
            Some(whole) => Json::Number(whole),
            None => Json::Notation(number.to_string()),
        },
        Value::String(text) => Json::Text(text.clone()),
        Value::Array(items) => Json::List(items.iter().map(convert).collect()),
        Value::Object(entries) => Json::Object(
            entries
                .iter()
                .map(|(key, value)| (key.clone(), convert(value)))
                .collect(),
        ),
    }
}

fn json(text: &str) -> Json {
    let value: Value = blazingly_json::from_str(text).expect("a JSON document");
    convert(&value)
}

fn with(document: Json, key: &str, value: Json) -> Json {
    match document {
        Json::Object(mut entries) => {
            entries.push((key.to_owned(), value));
            Json::Object(entries)
        }
        _ => panic!("an object"),
    }
}

fn text(value: &str) -> Json {
    Json::Text(value.to_owned())
}

fn status(value: &Json) -> &str {
    value.text("status").unwrap_or_default()
}

fn span(found: &SourceSpan) -> Span {
    Span {
        file: found.file.clone(),
        start_line: found.start.line,
        end_line: found.end.line,
    }
}

fn repository(files: &[(&str, &str)]) -> Repository {
    let snapshot = Analyzer::default()
        .analyze_sources(
            "/",
            "fixture",
            files
                .iter()
                .map(|(path, contents)| SourceInput {
                    path: (*path).to_owned(),
                    bytes: contents.as_bytes().to_vec(),
                    content_hash: None,
                })
                .collect::<Vec<_>>(),
        )
        .expect("the fixture is analyzed");
    Repository {
        root: "/repo".to_owned(),
        graph: Graph {
            nodes: snapshot
                .nodes
                .iter()
                .map(|node| Node {
                    id: node.id.as_str().to_owned(),
                    label: node.label.clone(),
                    kind: node.kind.as_str().to_owned(),
                    exported: node.attributes.get("exported") == Some(&AttributeValue::Bool(true)),
                    span: node.span.as_ref().map(span),
                })
                .collect(),
            edges: snapshot
                .edges
                .iter()
                .map(|edge| Edge {
                    source: edge.source.as_str().to_owned(),
                    target: edge.target.as_str().to_owned(),
                    kind: edge.kind.as_str().to_owned(),
                    evidence: edge.provenance.evidence.as_str().to_owned(),
                    span: edge.provenance.span.as_ref().map(span),
                })
                .collect(),
        },
        sources: files
            .iter()
            .map(|(path, contents)| SourceFile {
                path: (*path).to_owned(),
                text: (*contents).to_owned(),
            })
            .collect(),
    }
}

fn offset(text: &str, line: u32, character: u32) -> Option<usize> {
    let mut start = 0;
    for _ in 1..line {
        start += text[start..].find('\n')? + 1;
    }
    let mut units = 0;
    for (at, found) in text[start..].char_indices() {
        if units == character {
            return Some(start + at);
        }
        units += found.len_utf16() as u32;
    }
    (units == character).then_some(text.len())
}

fn edited(original: &str, edits: &[TextEdit]) -> Option<String> {
    let mut ranges = edits
        .iter()
        .map(|edit| {
            let start = offset(original, edit.start_line, edit.start_char)?;
            let end = offset(original, edit.end_line, edit.end_char)?;
            (original.get(start..end)? == edit.before).then_some((start, end, edit.after.as_str()))
        })
        .collect::<Option<Vec<_>>>()?;
    ranges.sort();
    let mut contents = original.to_owned();
    for (start, end, after) in ranges.into_iter().rev() {
        contents.replace_range(start..end, after);
    }
    Some(contents)
}

/// A host over a working tree in memory.
struct Host {
    session: RefactorSession,
    repository: Repository,
    undo: Vec<Vec<(String, String)>>,
}

impl Host {
    fn new(write_allowed: bool, files: &[(&str, &str)]) -> Host {
        Host {
            session: RefactorSession::new(write_allowed),
            repository: repository(files),
            undo: Vec::new(),
        }
    }

    fn source(&self, path: &str) -> &str {
        &self
            .repository
            .sources
            .iter()
            .find(|source| source.path == path)
            .expect("source")
            .text
    }

    fn outcome(&self, plan: &EditPlan) -> Result<Vec<(String, String)>, Failure> {
        let mut contents = Vec::new();
        for file in &plan.files {
            let current = self.source(&file.path);
            if sha256_of(current) != file.sha256 {
                return Err(Failure {
                    code: FailureCode::SourceHashMismatch,
                    text: "source hash mismatch".to_owned(),
                });
            }
            match edited(current, &file.edits) {
                Some(after) => contents.push((file.path.clone(), after)),
                None => {
                    return Err(Failure {
                        code: FailureCode::Other,
                        text: "the text before the edit differs".to_owned(),
                    })
                }
            }
        }
        Ok(contents)
    }

    fn dry_run(&self, plan: &EditPlan) -> DryRun {
        match self.outcome(plan) {
            Ok(contents) => DryRun::Passed {
                files: contents
                    .into_iter()
                    .map(|(path, after)| CheckedFile {
                        changed: self.source(&path) != after,
                        path,
                    })
                    .collect(),
                total_edits: plan.files.iter().map(|file| file.edits.len() as u64).sum(),
            },
            Err(failure) => DryRun::Failed(failure),
        }
    }

    fn replace(&mut self, contents: Vec<(String, String)>) -> Vec<(String, String)> {
        contents
            .into_iter()
            .map(|(path, after)| {
                let source = self
                    .repository
                    .sources
                    .iter_mut()
                    .find(|source| source.path == path)
                    .expect("source");
                (path, std::mem::replace(&mut source.text, after))
            })
            .collect()
    }

    fn write(&mut self, plan: &EditPlan) -> Written {
        match self.outcome(plan) {
            Ok(contents) => {
                let before = self.replace(contents);
                self.undo.push(before);
                Written::Done {
                    transaction_id: format!("transaction-{}", self.undo.len()),
                    undo_id: format!("undo-{}", self.undo.len()),
                }
            }
            Err(failure) => Written::Failed(failure),
        }
    }

    fn call(&mut self, name: &str, arguments: &Json) -> Json {
        let mut step = self
            .session
            .call(&self.repository, name, arguments, NOW)
            .expect("declared tool");
        loop {
            step = match step {
                Step::Answer(answer) => return answer,
                Step::Open { plan, presented } => {
                    self.session
                        .after_open("/repo", plan, presented.as_deref(), Ok(()), NOW)
                }
                Step::DryRun { plan, preview } => {
                    let outcome = self.dry_run(&plan);
                    return self
                        .session
                        .after_dry_run("/repo", &plan, preview, outcome, NOW);
                }
                Step::Write { plan, purpose } => {
                    let outcome = self.write(&plan);
                    return after_write(&plan, purpose, outcome);
                }
                Step::List => after_list(Listed::Receipts(
                    (1..=self.undo.len()).map(|at| format!("undo-{at}")).collect(),
                )),
                Step::Rollback { id } => {
                    assert_eq!(id, format!("undo-{}", self.undo.len()), "the latest is undone");
                    let before = self.undo.pop().expect("a retained transaction");
                    let paths = before.len() as u64;
                    self.replace(before);
                    return after_rollback(Restored::Done {
                        paths,
                        transaction_id: "rollback-1".to_owned(),
                    });
                }
            };
        }
    }
}

const FILES: [(&str, &str); 4] = [
    ("src/lib.rs", "pub mod core;\npub mod caller;\n"),
    (
        "src/core.rs",
        "pub fn alpha(value: u32) -> u32 {\n    value + 1\n}\n\npub fn beta(value: u32) -> u32 {\n    value + 2\n}\n",
    ),
    (
        "src/caller.rs",
        "use crate::core::alpha;\nuse crate::core::beta;\n\npub fn run() -> u32 {\n    alpha(1) + beta(2)\n}\n",
    ),
    (
        "Cargo.toml",
        "[package]\nname = \"fixture\"\nversion = \"0.0.0\"\nedition = \"2024\"\n",
    ),
];

/// The graph id of a function declared in `src/core.rs`.
fn declared(repository: &Repository, name: &str) -> Option<String> {
    repository
        .graph
        .nodes
        .iter()
        .find(|node| {
            node.label.trim_end_matches("()") == name
                && node
                    .span
                    .as_ref()
                    .is_some_and(|span| span.file == "src/core.rs")
        })
        .map(|node| node.id.clone())
}

fn renames(pairs: &[(&str, &str)]) -> Json {
    let repository = repository(&FILES);
    let entries = pairs
        .iter()
        .map(|(symbol, new_name)| {
            let id = declared(&repository, symbol).unwrap_or_else(|| (*symbol).to_owned());
            with(
                with(json("{}"), "symbol", text(&id)),
                "new_name",
                text(new_name),
            )
        })
        .collect();
    with(json("{}"), "renames", Json::List(entries))
}

fn call(arguments: &Json) -> Json {
    Host::new(false, &FILES).call("rename_related_symbols", arguments)
}

fn kinds<'a>(answer: &'a Json, key: &str) -> Vec<&'a str> {
    answer
        .list(key)
        .expect("entries")
        .iter()
        .filter_map(|entry| entry.text("kind"))
        .collect()
}

/// The other tests resolve their symbols through the graph, so a graph without them would let
/// this file pass while testing nothing.
#[test]
fn the_fixture_symbols_are_actually_in_the_graph() {
    let repository = repository(&FILES);
    assert!(
        declared(&repository, "alpha").is_some() && declared(&repository, "beta").is_some(),
        "the fixture's declarations are missing from the graph"
    );
}

#[test]
fn a_missing_renames_array_is_invalid_args() {
    assert_eq!(status(&call(&json("{}"))), "INVALID_ARGS");
}

#[test]
fn an_entry_without_a_new_name_is_named_in_the_refusal() {
    let answer = call(&json(r#"{"renames": [{"symbol": "alpha"}]}"#));
    assert_eq!(status(&answer), "INVALID_ARGS");
    assert!(
        answer
            .text("reason")
            .is_some_and(|reason| reason.contains("renames[0]")),
        "the refusal has to say which entry is wrong: {answer:?}"
    );
}

#[test]
fn one_failing_sub_rename_blocks_the_whole_batch() {
    let answer = call(&renames(&[
        ("alpha", "first"),
        ("src/core.rs#no_such_symbol", "second"),
    ]));
    assert_eq!(status(&answer), "BLOCKED", "{answer:?}");
    assert_eq!(
        answer.get("cause").and_then(|cause| cause.text("status")),
        Some("NOT_FOUND"),
        "the sub-rename's own refusal has to survive: {answer:?}"
    );
}

#[test]
fn two_symbols_given_one_name_is_a_conflict_not_a_plan() {
    let answer = call(&renames(&[("alpha", "same"), ("beta", "same")]));
    assert_eq!(status(&answer), "CONFLICT", "{answer:?}");
    let kinds = kinds(&answer, "conflicts");
    assert!(kinds.contains(&"NAME_COLLISION"), "{kinds:?}");
}

#[test]
fn a_swap_is_reported_as_ordering_rather_than_refused() {
    let answer = call(&renames(&[("alpha", "beta"), ("beta", "alpha")]));
    assert_eq!(status(&answer), "PREVIEW_OK", "{answer:?}");
    let kinds = kinds(&answer, "ordering");
    assert!(
        kinds.iter().all(|kind| *kind == "SWAP") && !kinds.is_empty(),
        "an exchange has to be named as one: {kinds:?}"
    );
    assert!(answer.text("confirmToken").is_some());
}

#[test]
fn applying_without_the_token_writes_nothing() {
    let mut host = Host::new(true, &FILES);
    let answer = host.call(
        "rename_related_symbols",
        &with(renames(&[("alpha", "first")]), "mode", text("apply")),
    );
    assert_ne!(status(&answer), "APPLIED", "{answer:?}");
    let core = host.source("src/core.rs");
    assert!(core.contains("pub fn alpha"), "got {core:?}");
}

#[test]
fn a_closed_write_gate_refuses_before_the_token_is_checked() {
    let answer = call(&with(
        with(renames(&[("alpha", "first")]), "mode", text("apply")),
        "confirm_token",
        text("anything"),
    ));
    assert_eq!(status(&answer), "WRITE_GATE_CLOSED", "{answer:?}");
}

#[test]
fn the_swap_exchanges_both_names_in_one_transaction() {
    let mut host = Host::new(true, &FILES);
    let swap = [("alpha", "beta"), ("beta", "alpha")];
    let preview = host.call("rename_related_symbols", &renames(&swap));
    assert_eq!(status(&preview), "PREVIEW_OK", "{preview:?}");
    let token = preview.text("confirmToken").expect("token");
    let applied = host.call(
        "rename_related_symbols",
        &with(
            with(renames(&swap), "mode", text("apply")),
            "confirm_token",
            text(token),
        ),
    );
    assert_eq!(status(&applied), "APPLIED", "{applied:?}");

    // Sequential renames would have collapsed both onto one name; the exchange shows that the
    // batch was applied positionally.
    let core = host.source("src/core.rs");
    let beta_first = core.find("pub fn beta").expect("beta declared");
    let alpha_second = core.find("pub fn alpha").expect("alpha declared");
    assert!(
        beta_first < alpha_second,
        "the declarations should have exchanged names, got {core:?}"
    );
    assert!(
        core.contains("pub fn beta(value: u32) -> u32 {\n    value + 1")
            && core.contains("pub fn alpha(value: u32) -> u32 {\n    value + 2"),
        "each body must have kept its own declaration, got {core:?}"
    );
    assert_eq!(host.undo.len(), 1, "one transaction");
}

#[test]
fn a_consumed_token_cannot_apply_the_batch_twice() {
    let mut host = Host::new(true, &FILES);
    let preview = host.call("rename_related_symbols", &renames(&[("alpha", "first")]));
    let token = preview.text("confirmToken").expect("token");
    let request = with(
        with(renames(&[("alpha", "first")]), "mode", text("apply")),
        "confirm_token",
        text(token),
    );
    let first = host.call("rename_related_symbols", &request);
    assert_eq!(status(&first), "APPLIED", "{first:?}");
    let second = host.call("rename_related_symbols", &request);
    assert_ne!(
        status(&second),
        "APPLIED",
        "a single-use token must not apply twice: {second:?}"
    );
}

#[test]
fn one_symbol_given_two_names_is_a_conflict() {
    let answer = call(&renames(&[("alpha", "first"), ("alpha", "second")]));
    assert_eq!(status(&answer), "CONFLICT", "{answer:?}");
}
