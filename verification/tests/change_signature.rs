//! Adding and removing a parameter.
//!
//! Removing a parameter is the dangerous half: the declaration and every call have to change
//! together, and a call left holding an extra argument is a bug that may go unnoticed.

use blazingly_json::Value;
use weavatrix_graph::{AttributeValue, SourceSpan};
use weavatrix_rust::{Analyzer, SourceInput};
use weavatrix_rust_refactor::graph::{Edge, Graph, Node, Repository, SourceFile, Span};
use weavatrix_rust_refactor::json::Json;
use weavatrix_rust_refactor::operations::apply::{
    after_list, after_rollback, after_write, CheckedFile, DryRun, Failure, FailureCode, Listed,
    Restored, Step, Written,
};
use weavatrix_rust_refactor::operations::RefactorSession;
use weavatrix_rust_refactor::plan::{sha256_of, EditPlan, TextEdit};

const NOW: u64 = 1_700_000_000;

fn convert(value: &Value) -> Json {
    match value {
        Value::Null => Json::Null,
        Value::Bool(flag) => Json::Bool(*flag),
        Value::Number(number) => match number.as_u64() {
            Some(whole) => Json::Number(whole),
            None => Json::Notation(number.to_string()),
        },
        Value::String(text) => Json::Text(text.clone()),
        Value::Array(items) => Json::List(items.iter().map(convert).collect()),
        Value::Object(entries) => Json::Object(
            entries
                .iter()
                .map(|(key, value)| (key.clone(), convert(value)))
                .collect(),
        ),
    }
}

fn json(text: &str) -> Json {
    let value: Value = blazingly_json::from_str(text).expect("a JSON document");
    convert(&value)
}

fn with(document: Json, key: &str, value: Json) -> Json {
    match document {
        Json::Object(mut entries) => {
            entries.push((key.to_owned(), value));
            Json::Object(entries)
        }
        _ => panic!("an object"),
    }
}

fn text(value: &str) -> Json {
    Json::Text(value.to_owned())
}

fn status(value: &Json) -> &str {
    value.text("status").unwrap_or_default()
}

fn span(found: &SourceSpan) -> Span {
    Span {
        file: found.file.clone(),
        start_line: found.start.line,
        end_line: found.end.line,
    }
}

fn repository(files: &[(&str, &str)]) -> Repository {
    let snapshot = Analyzer::default()
        .analyze_sources(
            "/",
            "fixture",
            files
                .iter()
                .map(|(path, contents)| SourceInput {
                    path: (*path).to_owned(),
                    bytes: contents.as_bytes().to_vec(),
                    content_hash: None,
                })
                .collect::<Vec<_>>(),
        )
        .expect("the fixture is analyzed");
    Repository {
        root: "/repo".to_owned(),
        graph: Graph {
            nodes: snapshot
                .nodes
                .iter()
                .map(|node| Node {
                    id: node.id.as_str().to_owned(),
                    label: node.label.clone(),
                    kind: node.kind.as_str().to_owned(),
                    exported: node.attributes.get("exported") == Some(&AttributeValue::Bool(true)),
                    span: node.span.as_ref().map(span),
                })
                .collect(),
            edges: snapshot
                .edges
                .iter()
                .map(|edge| Edge {
                    source: edge.source.as_str().to_owned(),
                    target: edge.target.as_str().to_owned(),
                    kind: edge.kind.as_str().to_owned(),
                    evidence: edge.provenance.evidence.as_str().to_owned(),
                    span: edge.provenance.span.as_ref().map(span),
                })
                .collect(),
        },
        sources: files
            .iter()
            .map(|(path, contents)| SourceFile {
                path: (*path).to_owned(),
                text: (*contents).to_owned(),
            })
            .collect(),
    }
}

fn offset(text: &str, line: u32, character: u32) -> Option<usize> {
    let mut start = 0;
    for _ in 1..line {
        start += text[start..].find('\n')? + 1;
    }
    let mut units = 0;
    for (at, found) in text[start..].char_indices() {
        if units == character {
            return Some(start + at);
        }
        units += found.len_utf16() as u32;
    }
    (units == character).then_some(text.len())
}

fn edited(original: &str, edits: &[TextEdit]) -> Option<String> {
    let mut ranges = edits
        .iter()
        .map(|edit| {
            let start = offset(original, edit.start_line, edit.start_char)?;
            let end = offset(original, edit.end_line, edit.end_char)?;
            (original.get(start..end)? == edit.before).then_some((start, end, edit.after.as_str()))
        })
        .collect::<Option<Vec<_>>>()?;
    ranges.sort();
    let mut contents = original.to_owned();
    for (start, end, after) in ranges.into_iter().rev() {
        contents.replace_range(start..end, after);
    }
    Some(contents)
}

/// A host over a working tree in memory.
struct Host {
    session: RefactorSession,
    repository: Repository,
    undo: Vec<Vec<(String, String)>>,
}

impl Host {
    fn new(write_allowed: bool, files: &[(&str, &str)]) -> Host {
        Host {
            session: RefactorSession::new(write_allowed),
            repository: repository(files),
            undo: Vec::new(),
        }
    }

    fn source(&self, path: &str) -> &str {
        &self
            .repository
            .sources
            .iter()
            .find(|source| source.path == path)
            .expect("source")
            .text
    }

    fn outcome(&self, plan: &EditPlan) -> Result<Vec<(String, String)>, Failure> {
        let mut contents = Vec::new();
        for file in &plan.files {
            let current = self.source(&file.path);
            if sha256_of(current) != file.sha256 {
                return Err(Failure {
                    code: FailureCode::SourceHashMismatch,
                    text: "source hash mismatch".to_owned(),
                });
            }
            match edited(current, &file.edits) {
                Some(after) => contents.push((file.path.clone(), after)),
                None => {
                    return Err(Failure {
                        code: FailureCode::Other,
                        text: "the text before the edit differs".to_owned(),
                    })
                }
            }
        }
        Ok(contents)
    }

    fn dry_run(&self, plan: &EditPlan) -> DryRun {
        match self.outcome(plan) {
            Ok(contents) => DryRun::Passed {
                files: contents
                    .into_iter()
                    .map(|(path, after)| CheckedFile {
                        changed: self.source(&path) != after,
                        path,
                    })
                    .collect(),
                total_edits: plan.files.iter().map(|file| file.edits.len() as u64).sum(),
            },
            Err(failure) => DryRun::Failed(failure),
        }
    }

    fn replace(&mut self, contents: Vec<(String, String)>) -> Vec<(String, String)> {
        contents
            .into_iter()
            .map(|(path, after)| {
                let source = self
                    .repository
                    .sources
                    .iter_mut()
                    .find(|source| source.path == path)
                    .expect("source");
                (path, std::mem::replace(&mut source.text, after))
            })
            .collect()
    }

    fn write(&mut self, plan: &EditPlan) -> Written {
        match self.outcome(plan) {
            Ok(contents) => {
                let before = self.replace(contents);
                self.undo.push(before);
                Written::Done {
                    transaction_id: format!("transaction-{}", self.undo.len()),
                    undo_id: format!("undo-{}", self.undo.len()),
                }
            }
            Err(failure) => Written::Failed(failure),
        }
    }

    fn call(&mut self, name: &str, arguments: &Json) -> Json {
        let mut step = self
            .session
            .call(&self.repository, name, arguments, NOW)
            .expect("declared tool");
        loop {
            step = match step {
                Step::Answer(answer) => return answer,
                Step::Open { plan, presented } => {
                    self.session
                        .after_open("/repo", plan, presented.as_deref(), Ok(()), NOW)
                }
                Step::DryRun { plan, preview } => {
                    let outcome = self.dry_run(&plan);
                    return self
                        .session
                        .after_dry_run("/repo", &plan, preview, outcome, NOW);
                }
                Step::Write { plan, purpose } => {
                    let outcome = self.write(&plan);
                    return after_write(&plan, purpose, outcome);
                }
                Step::List => after_list(Listed::Receipts(
                    (1..=self.undo.len()).map(|at| format!("undo-{at}")).collect(),
                )),
                Step::Rollback { id } => {
                    assert_eq!(id, format!("undo-{}", self.undo.len()), "the latest is undone");
                    let before = self.undo.pop().expect("a retained transaction");
                    let paths = before.len() as u64;
                    self.replace(before);
                    return after_rollback(Restored::Done {
                        paths,
                        transaction_id: "rollback-1".to_owned(),
                    });
                }
            };
        }
    }
}

/// Previews and applies a plan through the write path.
fn apply(host: &mut Host, planned: &Json) -> Json {
    let plan = planned.get("plan").expect("plan");
    let preview = host.call("apply_edit_plan", &with(json("{}"), "plan", plan.duplicate()));
    assert_eq!(status(&preview), "PREVIEW_OK", "{preview:?}");
    let token = preview.text("confirmToken").expect("token").to_owned();
    host.call(
        "apply_edit_plan",
        &with(
            with(json(r#"{"mode": "apply"}"#), "plan", plan.duplicate()),
            "confirm_token",
            text(&token),
        ),
    )
}

const FILES: [(&str, &str); 4] = [
    (
        "src/core.js",
        "export function compute(alpha, beta) {\n  return alpha + beta;\n}\n",
    ),
    (
        "src/caller.js",
        "import { compute } from './core.js';\n\nexport function run() {\n  return compute(1, 2);\n}\n",
    ),
    (
        "src/spread.js",
        "import { compute } from './core.js';\n\nexport function relay(args) {\n  return compute(...args);\n}\n",
    ),
    (
        "package.json",
        "{\"name\":\"fixture\",\"version\":\"0.0.0\",\"type\":\"module\"}\n",
    ),
];

fn declared(repository: &Repository, name: &str) -> Option<String> {
    repository
        .graph
        .nodes
        .iter()
        .find(|node| {
            node.label.trim_end_matches("()") == name
                && node
                    .span
                    .as_ref()
                    .is_some_and(|span| span.file == "src/core.js")
        })
        .map(|node| node.id.clone())
}

fn change(operation: &str) -> Json {
    let host = Host::new(true, &FILES);
    let id = declared(&host.repository, "compute").expect("compute is in the graph");
    with(
        with(json("{}"), "symbol", text(&id)),
        "operation",
        json(operation),
    )
}

fn call(arguments: &Json) -> Json {
    Host::new(false, &FILES).call("change_signature", arguments)
}

fn kinds(answer: &Json) -> Vec<&str> {
    answer
        .list("uncertain")
        .expect("uncertain")
        .iter()
        .filter_map(|entry| entry.text("kind"))
        .collect()
}

#[test]
fn the_fixture_symbol_is_actually_in_the_graph() {
    assert!(
        declared(&repository(&FILES), "compute").is_some(),
        "compute is missing from the graph, so the tests here would pass without exercising it"
    );
}

#[test]
fn a_missing_operation_is_invalid_args() {
    assert_eq!(
        status(&call(&json(r#"{"symbol": "compute"}"#))),
        "INVALID_ARGS"
    );
}

#[test]
fn an_unknown_operation_kind_is_invalid_args() {
    let answer = call(&json(
        r#"{"symbol": "compute", "operation": {"kind": "reorder"}}"#,
    ));
    assert_eq!(status(&answer), "INVALID_ARGS");
}

#[test]
fn an_index_past_the_last_parameter_is_no_change() {
    let answer = call(&change(r#"{"kind": "remove_parameter", "index": 7}"#));
    assert_eq!(status(&answer), "NO_CHANGE", "{answer:?}");
}

#[test]
fn adding_a_parameter_with_a_default_touches_only_the_declaration() {
    let mut host = Host::new(true, &FILES);
    let planned = host.call(
        "change_signature",
        &change(r#"{"kind": "add_parameter", "name": "gamma", "default": "0"}"#),
    );
    assert_eq!(status(&planned), "PLANNED", "{planned:?}");
    assert_eq!(
        planned.list("uncertain").map(Vec::len),
        Some(0),
        "a defaulted parameter leaves every existing call correct: {planned:?}"
    );
    let applied = apply(&mut host, &planned);
    assert_eq!(status(&applied), "APPLIED", "{applied:?}");
    let after = host.source("src/core.js");
    assert!(
        after.starts_with("export function compute(alpha, beta, gamma = 0) {"),
        "got {after:?}"
    );
}

#[test]
fn adding_a_parameter_without_a_default_reports_every_call_site() {
    let answer = call(&change(r#"{"kind": "add_parameter", "name": "gamma"}"#));
    assert_eq!(status(&answer), "PLANNED", "{answer:?}");
    let kinds = kinds(&answer);
    assert!(
        kinds.contains(&"VALUE_REQUIRED"),
        "the value to pass is a decision, and has to be handed back: {kinds:?}"
    );
}

#[test]
fn removing_a_parameter_edits_the_declaration_and_the_call() {
    let mut host = Host::new(true, &FILES);
    let planned = host.call(
        "change_signature",
        &change(r#"{"kind": "remove_parameter", "index": 1}"#),
    );
    assert_eq!(status(&planned), "PLANNED", "{planned:?}");
    assert_eq!(
        planned.text("completeness"),
        Some("PARTIAL"),
        "call sites come from graph edges, so this can never be COMPLETE"
    );
    let applied = apply(&mut host, &planned);
    assert_eq!(status(&applied), "APPLIED", "{applied:?}");
    let core = host.source("src/core.js");
    assert!(
        core.starts_with("export function compute(alpha) {"),
        "got {core:?}"
    );
    let caller = host.source("src/caller.js");
    assert!(
        caller.contains("compute(1)"),
        "the call has to lose its argument with the parameter, got {caller:?}"
    );
}

#[test]
fn a_call_that_spreads_is_reported_rather_than_edited() {
    let answer = call(&change(r#"{"kind": "remove_parameter", "index": 1}"#));
    assert_eq!(status(&answer), "PLANNED", "{answer:?}");
    let spread = kinds(&answer).contains(&"SPREAD_ARGUMENT");
    let edited_spread = answer.list("callSites").is_some_and(|sites| {
        sites
            .iter()
            .any(|site| site.text("file") == Some("src/spread.js"))
    });
    assert!(
        spread && !edited_spread,
        "which argument sits at an index is unknowable behind a spread: {answer:?}"
    );
}

#[test]
fn an_unknown_symbol_cannot_change_its_signature() {
    let answer = call(&json(
        r#"{"symbol": "absent", "operation": {"kind": "remove_parameter", "index": 0}}"#,
    ));
    assert_eq!(status(&answer), "NOT_FOUND", "{answer:?}");
}

/// Removes the second parameter with a caller whose function has one line, giving the answer and
/// the caller as it ends up.
fn called_as(line: &str) -> (Json, String) {
    let caller = format!(
        "import {{ compute }} from './core.js';\n\nexport function run() {{\n  {line}\n}}\n"
    );
    let files = [FILES[0], ("src/caller.js", caller.as_str()), FILES[3]];
    let mut host = Host::new(true, &files);
    let planned = host.call(
        "change_signature",
        &change(r#"{"kind": "remove_parameter", "index": 1}"#),
    );
    assert_eq!(status(&planned), "PLANNED", "{planned:?}");
    let applied = apply(&mut host, &planned);
    assert_eq!(status(&applied), "APPLIED", "{applied:?}");
    let contents = host.source("src/caller.js").to_owned();
    (planned, contents)
}

#[test]
fn every_call_on_a_line_loses_its_argument() {
    let (_, caller) = called_as("return compute(1, 2) + compute(3, 4);");
    assert!(caller.contains("return compute(1) + compute(3);"), "got {caller:?}");
}

#[test]
fn a_call_inside_a_kept_argument_is_settled_too() {
    let (planned, caller) = called_as("return compute(compute(1, 2), 3);");
    assert!(caller.contains("return compute(compute(1));"), "got {caller:?} with {planned:?}");
}

#[test]
fn a_call_inside_a_removed_argument_is_listed() {
    let (planned, caller) = called_as("return compute(1, compute(2, 3));");
    assert!(kinds(&planned).contains(&"NESTED_CALL"), "{planned:?}");
    assert!(caller.contains("return compute(1);"), "got {caller:?}");
}

#[test]
fn a_reference_without_arguments_is_listed() {
    let (planned, caller) = called_as("return compute(1, 2) && compute;");
    assert!(kinds(&planned).contains(&"NO_ARGUMENT_LIST"), "{planned:?}");
    assert!(caller.contains("return compute(1) && compute;"), "got {caller:?}");
}

#[test]
fn a_member_of_the_same_name_beside_a_call_is_listed() {
    let (planned, caller) = called_as("return compute(1, 2) + other.compute(3, 4);");
    assert!(kinds(&planned).contains(&"AMBIGUOUS_CALL"), "{planned:?}");
    assert!(caller.contains("other.compute(3, 4)"), "got {caller:?}");
}

#[test]
fn a_call_inside_a_template_is_listed() {
    let (planned, caller) = called_as("return `${compute(1, 2)}`;");
    assert!(kinds(&planned).contains(&"INTERPOLATED_CALL"), "{planned:?}");
    assert!(caller.contains("compute(1, 2)"), "got {caller:?}");
}

#[test]
fn nested_generics_stand_between_a_name_and_its_arguments() {
    let files = [
        (
            "src/core.ts",
            "export function compute<T>(alpha: T, beta: number): T {\n  return alpha;\n}\n",
        ),
        (
            "src/caller.ts",
            "import { compute } from './core';\n\nexport function run() {\n  return compute<Array<Array<number>>>([], 2);\n}\n",
        ),
        FILES[3],
    ];
    let mut host = Host::new(true, &files);
    let id = host
        .repository
        .graph
        .nodes
        .iter()
        .find(|node| node.label.trim_end_matches("()") == "compute")
        .map(|node| node.id.clone())
        .expect("compute is in the graph");
    let planned = host.call(
        "change_signature",
        &with(
            with(json("{}"), "symbol", text(&id)),
            "operation",
            json(r#"{"kind": "remove_parameter", "index": 1}"#),
        ),
    );
    assert_eq!(status(&planned), "PLANNED", "{planned:?}");
    apply(&mut host, &planned);
    let core = host.source("src/core.ts");
    assert!(core.starts_with("export function compute<T>(alpha: T): T {"), "got {core:?}");
    let caller = host.source("src/caller.ts");
    assert!(
        caller.contains("compute<Array<Array<number>>>([])"),
        "got {caller:?} with {planned:?}"
    );
}
