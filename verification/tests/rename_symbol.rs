//! Renaming a symbol, including the shadow trap.
//!
//! Two files declare the same name, and only one of them is the target. A find-replace renames
//! both and silently breaks the other. Renaming a *symbol* means the second one is left alone.

use blazingly_json::Value;
use weavatrix_graph::{AttributeValue, SourceSpan};
use weavatrix_rust::{Analyzer, SourceInput};
use weavatrix_rust_refactor::graph::{Edge, Graph, Node, Repository, SourceFile, Span};
use weavatrix_rust_refactor::json::Json;
use weavatrix_rust_refactor::operations::apply::{
    after_list, after_rollback, after_write, CheckedFile, DryRun, Failure, FailureCode, Listed,
    Restored, Step, Written,
};
use weavatrix_rust_refactor::operations::RefactorSession;
use weavatrix_rust_refactor::plan::{sha256_of, EditPlan, TextEdit};

const NOW: u64 = 1_700_000_000;

fn convert(value: &Value) -> Json {
    match value {
        Value::Null => Json::Null,
        Value::Bool(flag) => Json::Bool(*flag),
        Value::Number(number) => match number.as_u64() {
            Some(whole) => Json::Number(whole),
            None => Json::Notation(number.to_string()),
        },
        Value::String(text) => Json::Text(text.clone()),
        Value::Array(items) => Json::List(items.iter().map(convert).collect()),
        Value::Object(entries) => Json::Object(
            entries
                .iter()
                .map(|(key, value)| (key.clone(), convert(value)))
                .collect(),
        ),
    }
}

fn json(text: &str) -> Json {
    let value: Value = blazingly_json::from_str(text).expect("a JSON document");
    convert(&value)
}

fn with(document: Json, key: &str, value: Json) -> Json {
    match document {
        Json::Object(mut entries) => {
            entries.push((key.to_owned(), value));
            Json::Object(entries)
        }
        _ => panic!("an object"),
    }
}

fn text(value: &str) -> Json {
    Json::Text(value.to_owned())
}

fn status(value: &Json) -> &str {
    value.text("status").unwrap_or_default()
}

fn span(found: &SourceSpan) -> Span {
    Span {
        file: found.file.clone(),
        start_line: found.start.line,
        end_line: found.end.line,
    }
}

fn repository(files: &[(&str, &str)]) -> Repository {
    let snapshot = Analyzer::default()
        .analyze_sources(
            "/",
            "fixture",
            files
                .iter()
                .map(|(path, contents)| SourceInput {
                    path: (*path).to_owned(),
                    bytes: contents.as_bytes().to_vec(),
                    content_hash: None,
                })
                .collect::<Vec<_>>(),
        )
        .expect("the fixture is analyzed");
    Repository {
        root: "/repo".to_owned(),
        graph: Graph {
            nodes: snapshot
                .nodes
                .iter()
                .map(|node| Node {
                    id: node.id.as_str().to_owned(),
                    label: node.label.clone(),
                    kind: node.kind.as_str().to_owned(),
                    exported: node.attributes.get("exported") == Some(&AttributeValue::Bool(true)),
                    span: node.span.as_ref().map(span),
                })
                .collect(),
            edges: snapshot
                .edges
                .iter()
                .map(|edge| Edge {
                    source: edge.source.as_str().to_owned(),
                    target: edge.target.as_str().to_owned(),
                    kind: edge.kind.as_str().to_owned(),
                    evidence: edge.provenance.evidence.as_str().to_owned(),
                    span: edge.provenance.span.as_ref().map(span),
                })
                .collect(),
        },
        sources: files
            .iter()
            .map(|(path, contents)| SourceFile {
                path: (*path).to_owned(),
                text: (*contents).to_owned(),
            })
            .collect(),
    }
}

fn offset(text: &str, line: u32, character: u32) -> Option<usize> {
    let mut start = 0;
    for _ in 1..line {
        start += text[start..].find('\n')? + 1;
    }
    let mut units = 0;
    for (at, found) in text[start..].char_indices() {
        if units == character {
            return Some(start + at);
        }
        units += found.len_utf16() as u32;
    }
    (units == character).then_some(text.len())
}

fn edited(original: &str, edits: &[TextEdit]) -> Option<String> {
    let mut ranges = edits
        .iter()
        .map(|edit| {
            let start = offset(original, edit.start_line, edit.start_char)?;
            let end = offset(original, edit.end_line, edit.end_char)?;
            (original.get(start..end)? == edit.before).then_some((start, end, edit.after.as_str()))
        })
        .collect::<Option<Vec<_>>>()?;
    ranges.sort();
    let mut contents = original.to_owned();
    for (start, end, after) in ranges.into_iter().rev() {
        contents.replace_range(start..end, after);
    }
    Some(contents)
}

/// A host over a working tree in memory.
struct Host {
    session: RefactorSession,
    repository: Repository,
    undo: Vec<Vec<(String, String)>>,
}

impl Host {
    fn new(write_allowed: bool, files: &[(&str, &str)]) -> Host {
        Host {
            session: RefactorSession::new(write_allowed),
            repository: repository(files),
            undo: Vec::new(),
        }
    }

    fn source(&self, path: &str) -> &str {
        &self
            .repository
            .sources
            .iter()
            .find(|source| source.path == path)
            .expect("source")
            .text
    }

    fn outcome(&self, plan: &EditPlan) -> Result<Vec<(String, String)>, Failure> {
        let mut contents = Vec::new();
        for file in &plan.files {
            let current = self.source(&file.path);
            if sha256_of(current) != file.sha256 {
                return Err(Failure {
                    code: FailureCode::SourceHashMismatch,
                    text: "source hash mismatch".to_owned(),
                });
            }
            match edited(current, &file.edits) {
                Some(after) => contents.push((file.path.clone(), after)),
                None => {
                    return Err(Failure {
                        code: FailureCode::Other,
                        text: "the text before the edit differs".to_owned(),
                    })
                }
            }
        }
        Ok(contents)
    }

    fn dry_run(&self, plan: &EditPlan) -> DryRun {
        match self.outcome(plan) {
            Ok(contents) => DryRun::Passed {
                files: contents
                    .into_iter()
                    .map(|(path, after)| CheckedFile {
                        changed: self.source(&path) != after,
                        path,
                    })
                    .collect(),
                total_edits: plan.files.iter().map(|file| file.edits.len() as u64).sum(),
            },
            Err(failure) => DryRun::Failed(failure),
        }
    }

    fn replace(&mut self, contents: Vec<(String, String)>) -> Vec<(String, String)> {
        contents
            .into_iter()
            .map(|(path, after)| {
                let source = self
                    .repository
                    .sources
                    .iter_mut()
                    .find(|source| source.path == path)
                    .expect("source");
                (path, std::mem::replace(&mut source.text, after))
            })
            .collect()
    }

    fn write(&mut self, plan: &EditPlan) -> Written {
        match self.outcome(plan) {
            Ok(contents) => {
                let before = self.replace(contents);
                self.undo.push(before);
                Written::Done {
                    transaction_id: format!("transaction-{}", self.undo.len()),
                    undo_id: format!("undo-{}", self.undo.len()),
                }
            }
            Err(failure) => Written::Failed(failure),
        }
    }

    fn call(&mut self, name: &str, arguments: &Json) -> Json {
        let mut step = self
            .session
            .call(&self.repository, name, arguments, NOW)
            .expect("declared tool");
        loop {
            step = match step {
                Step::Answer(answer) => return answer,
                Step::Open { plan, presented } => {
                    self.session
                        .after_open("/repo", plan, presented.as_deref(), Ok(()), NOW)
                }
                Step::DryRun { plan, preview } => {
                    let outcome = self.dry_run(&plan);
                    return self
                        .session
                        .after_dry_run("/repo", &plan, preview, outcome, NOW);
                }
                Step::Write { plan, purpose } => {
                    let outcome = self.write(&plan);
                    return after_write(&plan, purpose, outcome);
                }
                Step::List => after_list(Listed::Receipts(
                    (1..=self.undo.len()).map(|at| format!("undo-{at}")).collect(),
                )),
                Step::Rollback { id } => {
                    assert_eq!(id, format!("undo-{}", self.undo.len()), "the latest is undone");
                    let before = self.undo.pop().expect("a retained transaction");
                    let paths = before.len() as u64;
                    self.replace(before);
                    return after_rollback(Restored::Done {
                        paths,
                        transaction_id: "rollback-1".to_owned(),
                    });
                }
            };
        }
    }
}

/// Previews and applies a plan through the write path.
fn apply(host: &mut Host, planned: &Json) -> Json {
    let plan = planned.get("plan").expect("plan");
    let preview = host.call("apply_edit_plan", &with(json("{}"), "plan", plan.duplicate()));
    assert_eq!(status(&preview), "PREVIEW_OK", "{preview:?}");
    let token = preview.text("confirmToken").expect("token").to_owned();
    host.call(
        "apply_edit_plan",
        &with(
            with(json(r#"{"mode": "apply"}"#), "plan", plan.duplicate()),
            "confirm_token",
            text(&token),
        ),
    )
}

const MANIFEST: (&str, &str) = (
    "Cargo.toml",
    "[package]\nname = \"fixture\"\nversion = \"0.0.0\"\nedition = \"2024\"\n",
);

/// `core::resolve_target` is used by `caller`; `local` declares an unrelated function with the
/// same name that nothing outside it uses.
const FILES: [(&str, &str); 5] = [
    (
        "src/lib.rs",
        "pub mod core;\npub mod caller;\npub mod local;\n",
    ),
    (
        "src/core.rs",
        "pub fn resolve_target(value: u32) -> u32 {\n    value + 1\n}\n",
    ),
    (
        "src/caller.rs",
        "use crate::core::resolve_target;\n\npub fn run() -> u32 {\n    resolve_target(1)\n}\n",
    ),
    (
        "src/local.rs",
        "fn resolve_target(node: u32) -> u32 {\n    node\n}\n\npub fn pick() -> u32 {\n    resolve_target(2)\n}\n",
    ),
    MANIFEST,
];

fn declared(repository: &Repository, name: &str, file: &str) -> String {
    repository
        .graph
        .nodes
        .iter()
        .find(|node| {
            node.label.trim_end_matches("()") == name
                && node.span.as_ref().is_some_and(|span| span.file == file)
        })
        .map(|node| node.id.clone())
        .expect("the declaration is in the graph")
}

fn rename(symbol: &str, new_name: &str) -> Json {
    with(
        with(json("{}"), "symbol", text(symbol)),
        "new_name",
        text(new_name),
    )
}

fn call(arguments: &Json) -> Json {
    Host::new(false, &FILES).call("rename_symbol", arguments)
}

fn core_renamed(host: &mut Host) -> Json {
    let id = declared(&host.repository, "resolve_target", "src/core.rs");
    host.call("rename_symbol", &rename(&id, "locate_target"))
}

#[test]
fn rename_symbol_a_missing_argument_is_invalid_args() {
    assert_eq!(
        status(&call(&json(r#"{"symbol": "resolve_target"}"#))),
        "INVALID_ARGS"
    );
}

#[test]
fn an_invalid_new_name_is_refused_before_anything_is_planned() {
    let answer = call(&rename("src/core.rs#resolve_target", "not a name"));
    assert_eq!(status(&answer), "INVALID_NEW_NAME");
}

#[test]
fn the_refusal_of_a_name_quotes_it() {
    let answer = call(&rename("src/core.rs#resolve_target", "a \"b\""));
    assert_eq!(
        answer.text("reason"),
        Some("\"a \\\"b\\\"\" is not a valid identifier")
    );
}

#[test]
fn renaming_to_the_same_name_is_no_change() {
    let id = declared(&repository(&FILES), "resolve_target", "src/core.rs");
    let answer = call(&rename(&id, "resolve_target"));
    assert_eq!(status(&answer), "NO_CHANGE");
}

#[test]
fn an_ambiguous_name_is_refused_rather_than_renaming_the_wrong_one() {
    // Two declarations share this label, so the bare name must not resolve to either.
    let answer = call(&rename("resolve_target", "locate_target"));
    assert_eq!(
        status(&answer),
        "NOT_FOUND",
        "an ambiguous label must not pick a declaration: {answer:?}"
    );
}

#[test]
fn the_declaration_and_its_proven_call_sites_are_renamed() {
    let answer = core_renamed(&mut Host::new(false, &FILES));
    assert_eq!(status(&answer), "PLANNED", "{answer:?}");
    assert_eq!(
        answer.text("completeness"),
        Some("PARTIAL"),
        "a backend that cannot prove the absence of other references must not claim COMPLETE"
    );
    let touched = answer
        .get("plan")
        .and_then(|plan| plan.list("files"))
        .expect("files")
        .iter()
        .filter_map(|file| file.text("path"))
        .collect::<Vec<_>>();
    assert!(
        touched.contains(&"src/core.rs"),
        "the declaration must be renamed: {touched:?}"
    );
    assert!(
        !touched.contains(&"src/local.rs"),
        "the unrelated same-named declaration must not be touched: {touched:?}"
    );
}

#[test]
fn applying_the_plan_leaves_the_shadowed_declaration_untouched() {
    let mut host = Host::new(true, &FILES);
    let planned = core_renamed(&mut host);
    assert_eq!(status(&planned), "PLANNED", "{planned:?}");
    let applied = apply(&mut host, &planned);
    assert_eq!(status(&applied), "APPLIED", "{applied:?}");

    let core = host.source("src/core.rs");
    assert!(core.contains("locate_target"), "got {core:?}");
    let local = host.source("src/local.rs");
    assert!(
        local.contains("resolve_target") && !local.contains("locate_target"),
        "the shadowed declaration must survive intact, got {local:?}"
    );
}

/// The refusal for an ambiguous bare name carries the candidate ids, so disambiguation costs no
/// extra call.
#[test]
fn an_ambiguous_refusal_names_its_candidates() {
    let answer = call(&rename("resolve_target", "locate_target"));
    assert_eq!(status(&answer), "NOT_FOUND", "{answer:?}");
    let candidates = answer.list("candidates").expect("candidates");
    assert!(
        candidates.len() >= 2,
        "both same-named declarations have to be offered: {candidates:?}"
    );
    assert!(
        candidates
            .iter()
            .filter_map(Json::as_str)
            .any(|id| id.contains("core.rs")),
        "{candidates:?}"
    );
}

/// The rename previews its own plan and hands over the confirmation, so the whole flow is two
/// calls and no plan is sent back.
#[test]
fn applying_with_the_token_alone_writes_the_previewed_plan() {
    let mut host = Host::new(true, &FILES);
    let planned = core_renamed(&mut host);
    assert_eq!(
        planned.flag("previewed"),
        Some(true),
        "the rename must have dry-run its own plan: {planned:?}"
    );
    let Some(token) = planned.text("confirmToken") else {
        panic!("{planned:?}");
    };
    let applied = host.call(
        "apply_edit_plan",
        &with(json(r#"{"mode": "apply"}"#), "confirm_token", text(token)),
    );
    assert_eq!(status(&applied), "APPLIED", "{applied:?}");
    let core = host.source("src/core.rs");
    assert!(core.contains("locate_target"), "got {core:?}");
}

/// The graph records a symbol's span as its declaration line, and a call lives in the body one
/// line further down.
#[test]
fn the_call_site_inside_a_calling_function_is_renamed_too() {
    let mut host = Host::new(true, &FILES);
    let planned = core_renamed(&mut host);
    assert_eq!(status(&planned), "PLANNED", "{planned:?}");
    let applied = apply(&mut host, &planned);
    assert_eq!(status(&applied), "APPLIED", "{applied:?}");

    let caller = host.source("src/caller.rs");
    assert!(
        caller.contains("locate_target(1)"),
        "the call has to be renamed with the declaration, got {caller:?}"
    );
    assert!(
        !caller.contains("use crate::core::resolve_target"),
        "an import left naming the old symbol is a rename that broke the build, got {caller:?}"
    );
}

/// A site needs the tokenizer's word, not just the graph's line: the name inside a string literal
/// on a proven line is no identifier.
#[test]
fn a_string_literal_on_a_proven_line_is_reported_not_renamed() {
    let mut host = Host::new(
        true,
        &[
            ("src/lib.rs", "pub mod core;\npub mod caller;\n"),
            (
                "src/core.rs",
                "pub fn resolve_target(value: u32) -> u32 {\n    value + 1\n}\n",
            ),
            (
                "src/caller.rs",
                "use crate::core::resolve_target;\n\npub const HELP: &str = \"call resolve_target with a value\";\n\npub fn run() -> u32 {\n    resolve_target(1)\n}\n",
            ),
            MANIFEST,
        ],
    );
    let planned = core_renamed(&mut host);
    assert_eq!(status(&planned), "PLANNED", "{planned:?}");
    let applied = apply(&mut host, &planned);
    assert_eq!(status(&applied), "APPLIED", "{applied:?}");

    let caller = host.source("src/caller.rs");
    assert!(
        caller.contains("\"call resolve_target with a value\""),
        "the string literal must survive the rename, got {caller:?}"
    );
    assert!(
        caller.contains("use crate::core::locate_target;") && caller.contains("locate_target(1)"),
        "the import and the call must still be renamed, got {caller:?}"
    );
    let uncertain = planned.list("uncertainReferences").expect("uncertain");
    assert!(
        uncertain.iter().any(|entry| {
            entry.text("file") == Some("src/caller.rs")
                && entry
                    .text("excerpt")
                    .is_some_and(|excerpt| excerpt.contains("HELP"))
        }),
        "the string occurrence has to be reported rather than dropped: {uncertain:?}"
    );
}

/// A call inside a template-literal interpolation is code; the same name in a plain template
/// string is prose.
#[test]
fn a_call_inside_a_template_interpolation_is_renamed_and_a_plain_template_is_not() {
    let mut host = Host::new(
        true,
        &[
            (
                "src/core.js",
                "export function resolveTarget(selector) {\n  return `/${resolveTarget(selector)}` + `resolveTarget`;\n}\n",
            ),
            (
                "src/caller.js",
                "import { resolveTarget } from './core.js';\n\nexport const OUT = resolveTarget('x');\n",
            ),
            MANIFEST,
        ],
    );
    let id = declared(&host.repository, "resolveTarget", "src/core.js");
    let planned = host.call("rename_symbol", &rename(&id, "locateTarget"));
    assert_eq!(status(&planned), "PLANNED", "{planned:?}");
    let applied = apply(&mut host, &planned);
    assert_eq!(status(&applied), "APPLIED", "{applied:?}");

    let core = host.source("src/core.js");
    assert!(
        core.contains("`/${locateTarget(selector)}`"),
        "the call inside the interpolation is code and must be renamed, got {core:?}"
    );
    assert!(
        core.contains("`resolveTarget`"),
        "the plain template string is prose and must survive, got {core:?}"
    );
}

#[test]
fn unproven_same_named_occurrences_are_reported_rather_than_renamed() {
    let answer = core_renamed(&mut Host::new(false, &FILES));
    assert_eq!(status(&answer), "PLANNED", "{answer:?}");
    let warnings = answer.list("warnings").expect("warnings");
    assert!(
        warnings
            .iter()
            .any(|warning| warning.as_str() == Some("GRAPH_PROVEN_SITES_ONLY")),
        "the limit of the backend has to be stated on every plan"
    );
}

#[test]
fn a_rename_that_the_tree_rejects_is_planned_without_a_confirmation() {
    let mut host = Host::new(true, &FILES);
    let id = declared(&host.repository, "resolve_target", "src/core.rs");
    let step = host
        .session
        .call(
            &host.repository,
            "rename_symbol",
            &rename(&id, "locate_target"),
            NOW,
        )
        .expect("declared tool");
    let Step::DryRun { plan, preview } = step else {
        panic!("a rename checks its own plan");
    };
    let answer = host.session.after_dry_run(
        "/repo",
        &plan,
        preview,
        DryRun::Failed(Failure {
            code: FailureCode::SourceHashMismatch,
            text: "stale".to_owned(),
        }),
        NOW,
    );
    assert_eq!(status(&answer), "PLANNED", "{answer:?}");
    assert!(answer.text("confirmToken").is_none(), "{answer:?}");
}
