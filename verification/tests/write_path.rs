//! The write path: preview, apply, roll back.

use blazingly_json::Value;
use weavatrix_graph::{AttributeValue, SourceSpan};
use weavatrix_rust::{Analyzer, SourceInput};
use weavatrix_rust_refactor::contract;
use weavatrix_rust_refactor::graph::{Edge, Graph, Node, Repository, SourceFile, Span};
use weavatrix_rust_refactor::json::Json;
use weavatrix_rust_refactor::operations::apply::{
    after_list, after_rollback, after_write, apply_edit_plan, CheckedFile, DryRun, Failure, FailureCode, Listed,
    Purpose, Restored, Step, Written,
};
use weavatrix_rust_refactor::operations::RefactorSession;
use weavatrix_rust_refactor::plan::{sha256_of, EditPlan, TextEdit};
use weavatrix_rust_refactor::token::TokenStore;
use weavatrix_worktree::Sha256Hash;

const NOW: u64 = 1_700_000_000;

fn convert(value: &Value) -> Json {
    match value {
        Value::Null => Json::Null,
        Value::Bool(flag) => Json::Bool(*flag),
        Value::Number(number) => match number.as_u64() {
            Some(whole) => Json::Number(whole),
            None => Json::Notation(number.to_string()),
        },
        Value::String(text) => Json::Text(text.clone()),
        Value::Array(items) => Json::List(items.iter().map(convert).collect()),
        Value::Object(entries) => Json::Object(
            entries
                .iter()
                .map(|(key, value)| (key.clone(), convert(value)))
                .collect(),
        ),
    }
}

fn json(text: &str) -> Json {
    let value: Value = blazingly_json::from_str(text).expect("a JSON document");
    convert(&value)
}

fn with(document: Json, key: &str, value: Json) -> Json {
    match document {
        Json::Object(mut entries) => {
            entries.push((key.to_owned(), value));
            Json::Object(entries)
        }
        _ => panic!("an object"),
    }
}

fn text(value: &str) -> Json {
    Json::Text(value.to_owned())
}

fn status(value: &Json) -> &str {
    value.text("status").unwrap_or_default()
}

fn span(found: &SourceSpan) -> Span {
    Span {
        file: found.file.clone(),
        start_line: found.start.line,
        end_line: found.end.line,
    }
}

fn repository(files: &[(&str, &str)]) -> Repository {
    let snapshot = Analyzer::default()
        .analyze_sources(
            "/",
            "fixture",
            files
                .iter()
                .map(|(path, contents)| SourceInput {
                    path: (*path).to_owned(),
                    bytes: contents.as_bytes().to_vec(),
                    content_hash: None,
                })
                .collect::<Vec<_>>(),
        )
        .expect("the fixture is analyzed");
    Repository {
        root: "/repo".to_owned(),
        graph: Graph {
            nodes: snapshot
                .nodes
                .iter()
                .map(|node| Node {
                    id: node.id.as_str().to_owned(),
                    label: node.label.clone(),
                    kind: node.kind.as_str().to_owned(),
                    exported: node.attributes.get("exported") == Some(&AttributeValue::Bool(true)),
                    span: node.span.as_ref().map(span),
                })
                .collect(),
            edges: snapshot
                .edges
                .iter()
                .map(|edge| Edge {
                    source: edge.source.as_str().to_owned(),
                    target: edge.target.as_str().to_owned(),
                    kind: edge.kind.as_str().to_owned(),
                    evidence: edge.provenance.evidence.as_str().to_owned(),
                    span: edge.provenance.span.as_ref().map(span),
                })
                .collect(),
        },
        sources: files
            .iter()
            .map(|(path, contents)| SourceFile {
                path: (*path).to_owned(),
                text: (*contents).to_owned(),
            })
            .collect(),
    }
}

fn offset(text: &str, line: u32, character: u32) -> Option<usize> {
    let mut start = 0;
    for _ in 1..line {
        start += text[start..].find('\n')? + 1;
    }
    let mut units = 0;
    for (at, found) in text[start..].char_indices() {
        if units == character {
            return Some(start + at);
        }
        units += found.len_utf16() as u32;
    }
    (units == character).then_some(text.len())
}

fn edited(original: &str, edits: &[TextEdit]) -> Option<String> {
    let mut ranges = edits
        .iter()
        .map(|edit| {
            let start = offset(original, edit.start_line, edit.start_char)?;
            let end = offset(original, edit.end_line, edit.end_char)?;
            (original.get(start..end)? == edit.before).then_some((start, end, edit.after.as_str()))
        })
        .collect::<Option<Vec<_>>>()?;
    ranges.sort();
    let mut contents = original.to_owned();
    for (start, end, after) in ranges.into_iter().rev() {
        contents.replace_range(start..end, after);
    }
    Some(contents)
}

/// A host over a working tree in memory.
struct Host {
    session: RefactorSession,
    repository: Repository,
    undo: Vec<Vec<(String, String)>>,
}

impl Host {
    fn new(write_allowed: bool, files: &[(&str, &str)]) -> Host {
        Host {
            session: RefactorSession::new(write_allowed),
            repository: repository(files),
            undo: Vec::new(),
        }
    }

    fn source(&self, path: &str) -> &str {
        &self
            .repository
            .sources
            .iter()
            .find(|source| source.path == path)
            .expect("source")
            .text
    }

    fn outcome(&self, plan: &EditPlan) -> Result<Vec<(String, String)>, Failure> {
        let mut contents = Vec::new();
        for file in &plan.files {
            let current = self.source(&file.path);
            if sha256_of(current) != file.sha256 {
                return Err(Failure {
                    code: FailureCode::SourceHashMismatch,
                    text: "source hash mismatch".to_owned(),
                });
            }
            match edited(current, &file.edits) {
                Some(after) => contents.push((file.path.clone(), after)),
                None => {
                    return Err(Failure {
                        code: FailureCode::Other,
                        text: "the text before the edit differs".to_owned(),
                    })
                }
            }
        }
        Ok(contents)
    }

    fn dry_run(&self, plan: &EditPlan) -> DryRun {
        match self.outcome(plan) {
            Ok(contents) => DryRun::Passed {
                files: contents
                    .into_iter()
                    .map(|(path, after)| CheckedFile {
                        changed: self.source(&path) != after,
                        path,
                    })
                    .collect(),
                total_edits: plan.files.iter().map(|file| file.edits.len() as u64).sum(),
            },
            Err(failure) => DryRun::Failed(failure),
        }
    }

    fn replace(&mut self, contents: Vec<(String, String)>) -> Vec<(String, String)> {
        contents
            .into_iter()
            .map(|(path, after)| {
                let source = self
                    .repository
                    .sources
                    .iter_mut()
                    .find(|source| source.path == path)
                    .expect("source");
                (path, std::mem::replace(&mut source.text, after))
            })
            .collect()
    }

    fn write(&mut self, plan: &EditPlan) -> Written {
        match self.outcome(plan) {
            Ok(contents) => {
                let before = self.replace(contents);
                self.undo.push(before);
                Written::Done {
                    transaction_id: format!("transaction-{}", self.undo.len()),
                    undo_id: format!("undo-{}", self.undo.len()),
                }
            }
            Err(failure) => Written::Failed(failure),
        }
    }

    fn call(&mut self, name: &str, arguments: &Json) -> Json {
        let mut step = self
            .session
            .call(&self.repository, name, arguments, NOW)
            .expect("declared tool");
        loop {
            step = match step {
                Step::Answer(answer) => return answer,
                Step::Open { plan, presented } => {
                    self.session
                        .after_open("/repo", plan, presented.as_deref(), Ok(()), NOW)
                }
                Step::DryRun { plan, preview } => {
                    let outcome = self.dry_run(&plan);
                    return self
                        .session
                        .after_dry_run("/repo", &plan, preview, outcome, NOW);
                }
                Step::Write { plan, purpose } => {
                    let outcome = self.write(&plan);
                    return after_write(&plan, purpose, outcome);
                }
                Step::List => after_list(Listed::Receipts(
                    (1..=self.undo.len()).map(|at| format!("undo-{at}")).collect(),
                )),
                Step::Rollback { id } => {
                    assert_eq!(id, format!("undo-{}", self.undo.len()), "the latest is undone");
                    let before = self.undo.pop().expect("a retained transaction");
                    let paths = before.len() as u64;
                    self.replace(before);
                    return after_rollback(Restored::Done {
                        paths,
                        transaction_id: "rollback-1".to_owned(),
                    });
                }
            };
        }
    }
}

const ORIGINAL: &str = "pub fn one() -> u32 {\n    1\n}\n";

const FILES: [(&str, &str); 2] = [
    ("src/lib.rs", ORIGINAL),
    (
        "Cargo.toml",
        "[package]\nname = \"fixture\"\nversion = \"0.0.0\"\nedition = \"2024\"\n",
    ),
];

fn plan_for(contents: &str, provenance: &str) -> Json {
    json(&format!(
        r#"{{
            "schemaVersion": "weavatrix.edit-plan.v1",
            "operation": "rename_symbol",
            "files": [{{
                "path": "src/lib.rs",
                "sha256": "{}",
                "edits": [{{
                    "startLine": 1, "startChar": 7, "endLine": 1, "endChar": 10,
                    "before": "one", "after": "uno", "provenance": "{provenance}"
                }}]
            }}]
        }}"#,
        Sha256Hash::compute(contents.as_bytes())
    ))
}

fn plan(host: &Host) -> Json {
    plan_for(host.source("src/lib.rs"), "EXACT_LSP")
}

fn previewed(host: &mut Host) -> Json {
    let plan = plan(host);
    host.call("apply_edit_plan", &with(json("{}"), "plan", plan))
}

fn confirmed(host: &mut Host, token: &str) -> Json {
    let plan = plan(host);
    host.call(
        "apply_edit_plan",
        &with(
            with(json(r#"{"mode": "apply"}"#), "plan", plan),
            "confirm_token",
            text(token),
        ),
    )
}

#[test]
fn a_closed_gate_leaves_the_working_tree_untouched() {
    let mut host = Host::new(false, &FILES);
    let preview = previewed(&mut host);
    assert_eq!(
        status(&preview),
        "PREVIEW_OK",
        "preview must not need permission to write"
    );
    let token = preview.text("confirmToken").expect("token");
    let applied = confirmed(&mut host, token);
    assert_eq!(status(&applied), "WRITE_GATE_CLOSED");
    assert_eq!(host.source("src/lib.rs"), ORIGINAL);
}

#[test]
fn preview_then_apply_writes_exactly_the_planned_bytes_and_rolls_back() {
    let mut host = Host::new(true, &FILES);
    let preview = previewed(&mut host);
    assert_eq!(status(&preview), "PREVIEW_OK");
    let token = preview.text("confirmToken").expect("token");
    let applied = confirmed(&mut host, token);
    assert_eq!(status(&applied), "APPLIED", "{applied:?}");
    assert_eq!(
        host.source("src/lib.rs"),
        "pub fn uno() -> u32 {\n    1\n}\n"
    );

    let rolled = host.call("rollback_last_apply", &json("{}"));
    assert_eq!(status(&rolled), "ROLLED_BACK", "{rolled:?}");
    assert_eq!(rolled.number("restored"), Some(1));
    assert_eq!(rolled.text("rollbackTransactionId"), Some("rollback-1"));
    assert_eq!(
        host.source("src/lib.rs"),
        ORIGINAL,
        "rollback must restore the exact original bytes"
    );
}

#[test]
fn a_confirmation_cannot_write_twice() {
    let mut host = Host::new(true, &FILES);
    let preview = previewed(&mut host);
    let token = preview.text("confirmToken").expect("token");
    let first = confirmed(&mut host, token);
    assert_eq!(status(&first), "APPLIED");

    let after = host.source("src/lib.rs").to_owned();
    let replay = confirmed(&mut host, token);
    assert_eq!(status(&replay), "TOKEN_UNKNOWN");
    assert_eq!(host.source("src/lib.rs"), after);
}

#[test]
fn applying_without_a_confirmation_writes_nothing() {
    let mut host = Host::new(true, &FILES);
    let plan = plan(&host);
    let refused = host.call(
        "apply_edit_plan",
        &with(json(r#"{"mode": "apply"}"#), "plan", plan),
    );
    assert_eq!(status(&refused), "TOKEN_UNKNOWN");
    assert_eq!(host.source("src/lib.rs"), ORIGINAL);
}

#[test]
fn a_stale_plan_is_blocked_at_preview() {
    let mut host = Host::new(
        true,
        &[("src/lib.rs", "pub fn one() -> u32 {\n    2\n}\n"), FILES[1]],
    );
    let preview = host.call(
        "apply_edit_plan",
        &with(json("{}"), "plan", plan_for(ORIGINAL, "EXACT_LSP")),
    );
    assert_eq!(status(&preview), "PREVIEW_BLOCKED", "{preview:?}");
}

#[test]
fn an_inferred_edit_never_reaches_the_tree() {
    let mut host = Host::new(true, &FILES);
    let refused = host.call(
        "apply_edit_plan",
        &with(json("{}"), "plan", plan_for(ORIGINAL, "INFERRED")),
    );
    assert_eq!(status(&refused), "INVALID_PLAN");
    assert_eq!(host.source("src/lib.rs"), ORIGINAL);
}

#[test]
fn rolling_back_with_nothing_applied_is_a_status_not_a_failure() {
    let mut host = Host::new(true, &FILES);
    let rolled = host.call("rollback_last_apply", &json("{}"));
    assert_eq!(status(&rolled), "NO_CHANGE", "{rolled:?}");
}

#[test]
fn rolling_back_needs_the_gate() {
    let mut host = Host::new(false, &FILES);
    let refused = host.call("rollback_last_apply", &json("{}"));
    assert_eq!(status(&refused), "WRITE_GATE_CLOSED", "{refused:?}");
}

#[test]
fn an_apply_needs_a_plan_or_a_confirmation() {
    let mut host = Host::new(true, &FILES);
    let refused = host.call("apply_edit_plan", &json("{}"));
    assert_eq!(status(&refused), "INVALID_ARGS", "{refused:?}");
}

#[test]
fn an_unopened_repository_is_refused_before_the_confirmation_is_spent() {
    let mut host = Host::new(true, &FILES);
    let preview = previewed(&mut host);
    let token = preview.text("confirmToken").expect("token").to_owned();
    let arguments = with(
        with(json(r#"{"mode": "apply"}"#), "plan", plan(&host)),
        "confirm_token",
        text(&token),
    );
    let step = host
        .session
        .call(&host.repository, "apply_edit_plan", &arguments, NOW)
        .expect("declared tool");
    let Step::Open { plan, presented } = step else {
        panic!("the repository is opened first");
    };
    assert_eq!(presented.as_deref(), Some(token.as_str()));
    let refused = host.session.after_open(
        "/repo",
        plan,
        presented.as_deref(),
        Err("no such directory".to_owned()),
        NOW,
    );
    let Step::Answer(refused) = refused else {
        panic!("nothing is left to do");
    };
    assert_ne!(status(&refused), "APPLIED");
    let applied = confirmed(&mut host, &token);
    assert_eq!(status(&applied), "APPLIED", "{applied:?}");
}

#[test]
fn each_failure_of_a_write_has_its_own_status() {
    let plan = EditPlan {
        operation: "rename_symbol".to_owned(),
        files: Vec::new(),
    };
    for (code, expected) in [
        (FailureCode::SourceHashMismatch, "STALE"),
        (FailureCode::ConcurrentModification, "STALE"),
        (FailureCode::RootBusy, "REPO_BUSY"),
        (FailureCode::RecoveryRequired, "REPO_BUSY"),
        (FailureCode::RollbackFailed, "ROLLBACK_INCOMPLETE"),
        (FailureCode::JournalCorrupt, "ROLLBACK_INCOMPLETE"),
        (FailureCode::Other, "INVALID_PLAN"),
    ] {
        let answer = after_write(
            &plan,
            Purpose::Plan,
            Written::Failed(Failure {
                code,
                text: "why".to_owned(),
            }),
        );
        assert_eq!(status(&answer), expected, "{code:?}: {answer:?}");
        assert!(contract::permits_state(status(&answer)));
    }
    let unopened = after_write(&plan, Purpose::Plan, Written::Unopened("why".to_owned()));
    assert!(contract::permits_state(status(&unopened)), "{unopened:?}");
    assert_ne!(status(&unopened), "APPLIED");
}

#[test]
fn a_failed_rollback_is_not_a_rollback() {
    let answer = after_rollback(Restored::Failed("why".to_owned()));
    assert_ne!(status(&answer), "ROLLED_BACK");
    assert!(contract::permits_state(status(&answer)), "{answer:?}");
    for outcome in [
        Listed::Unopened("why".to_owned()),
        Listed::Failed(Failure {
            code: FailureCode::RootBusy,
            text: "why".to_owned(),
        }),
    ] {
        let Step::Answer(answer) = after_list(outcome) else {
            panic!("nothing is left to do");
        };
        assert!(contract::permits_state(status(&answer)), "{answer:?}");
    }
}

#[test]
fn the_latest_retained_transaction_is_the_one_restored() {
    let step = after_list(Listed::Receipts(vec![
        "first".to_owned(),
        "second".to_owned(),
    ]));
    let Step::Rollback { id } = step else {
        panic!("there is something to restore");
    };
    assert_eq!(id, "second");
}

#[test]
fn a_closed_gate_spends_no_confirmation() {
    let plan = EditPlan {
        operation: "rename_symbol".to_owned(),
        files: Vec::new(),
    };
    let mut tokens = TokenStore::new();
    let token = tokens.issue(&plan, "/repo", NOW);
    let arguments = with(json(r#"{"mode": "apply"}"#), "confirm_token", text(&token.value));
    let refused = apply_edit_plan(&mut tokens, "/repo", &arguments, false, NOW);
    let Step::Answer(refused) = refused else {
        panic!("nothing is left to do");
    };
    assert_eq!(status(&refused), "WRITE_GATE_CLOSED");
    let step = apply_edit_plan(&mut tokens, "/repo", &arguments, true, NOW);
    assert!(matches!(step, Step::Write { .. }));
}
