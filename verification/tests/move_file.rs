//! Moving a file, in both directions.
//!
//! The moved file's own specifiers, written from its old directory, and its importers'
//! specifiers, which pointed at the old location, both have to be right.

use blazingly_json::Value;
use weavatrix_graph::{AttributeValue, SourceSpan};
use weavatrix_rust::{Analyzer, SourceInput};
use weavatrix_rust_refactor::graph::{Edge, Graph, Node, Repository, SourceFile, Span};
use weavatrix_rust_refactor::json::Json;
use weavatrix_rust_refactor::operations::apply::{
    after_list, after_rollback, after_write, CheckedFile, DryRun, Failure, FailureCode, Listed,
    Restored, Step, Written,
};
use weavatrix_rust_refactor::operations::RefactorSession;
use weavatrix_rust_refactor::plan::{sha256_of, EditPlan, TextEdit};

const NOW: u64 = 1_700_000_000;

fn convert(value: &Value) -> Json {
    match value {
        Value::Null => Json::Null,
        Value::Bool(flag) => Json::Bool(*flag),
        Value::Number(number) => match number.as_u64() {
            Some(whole) => Json::Number(whole),
            None => Json::Notation(number.to_string()),
        },
        Value::String(text) => Json::Text(text.clone()),
        Value::Array(items) => Json::List(items.iter().map(convert).collect()),
        Value::Object(entries) => Json::Object(
            entries
                .iter()
                .map(|(key, value)| (key.clone(), convert(value)))
                .collect(),
        ),
    }
}

fn json(text: &str) -> Json {
    let value: Value = blazingly_json::from_str(text).expect("a JSON document");
    convert(&value)
}

fn with(document: Json, key: &str, value: Json) -> Json {
    match document {
        Json::Object(mut entries) => {
            entries.push((key.to_owned(), value));
            Json::Object(entries)
        }
        _ => panic!("an object"),
    }
}

fn text(value: &str) -> Json {
    Json::Text(value.to_owned())
}

fn status(value: &Json) -> &str {
    value.text("status").unwrap_or_default()
}

fn span(found: &SourceSpan) -> Span {
    Span {
        file: found.file.clone(),
        start_line: found.start.line,
        end_line: found.end.line,
    }
}

fn repository(files: &[(&str, &str)]) -> Repository {
    let snapshot = Analyzer::default()
        .analyze_sources(
            "/",
            "fixture",
            files
                .iter()
                .map(|(path, contents)| SourceInput {
                    path: (*path).to_owned(),
                    bytes: contents.as_bytes().to_vec(),
                    content_hash: None,
                })
                .collect::<Vec<_>>(),
        )
        .expect("the fixture is analyzed");
    Repository {
        root: "/repo".to_owned(),
        graph: Graph {
            nodes: snapshot
                .nodes
                .iter()
                .map(|node| Node {
                    id: node.id.as_str().to_owned(),
                    label: node.label.clone(),
                    kind: node.kind.as_str().to_owned(),
                    exported: node.attributes.get("exported") == Some(&AttributeValue::Bool(true)),
                    span: node.span.as_ref().map(span),
                })
                .collect(),
            edges: snapshot
                .edges
                .iter()
                .map(|edge| Edge {
                    source: edge.source.as_str().to_owned(),
                    target: edge.target.as_str().to_owned(),
                    kind: edge.kind.as_str().to_owned(),
                    evidence: edge.provenance.evidence.as_str().to_owned(),
                    span: edge.provenance.span.as_ref().map(span),
                })
                .collect(),
        },
        sources: files
            .iter()
            .map(|(path, contents)| SourceFile {
                path: (*path).to_owned(),
                text: (*contents).to_owned(),
            })
            .collect(),
    }
}

fn offset(text: &str, line: u32, character: u32) -> Option<usize> {
    let mut start = 0;
    for _ in 1..line {
        start += text[start..].find('\n')? + 1;
    }
    let mut units = 0;
    for (at, found) in text[start..].char_indices() {
        if units == character {
            return Some(start + at);
        }
        units += found.len_utf16() as u32;
    }
    (units == character).then_some(text.len())
}

fn edited(original: &str, edits: &[TextEdit]) -> Option<String> {
    let mut ranges = edits
        .iter()
        .map(|edit| {
            let start = offset(original, edit.start_line, edit.start_char)?;
            let end = offset(original, edit.end_line, edit.end_char)?;
            (original.get(start..end)? == edit.before).then_some((start, end, edit.after.as_str()))
        })
        .collect::<Option<Vec<_>>>()?;
    ranges.sort();
    let mut contents = original.to_owned();
    for (start, end, after) in ranges.into_iter().rev() {
        contents.replace_range(start..end, after);
    }
    Some(contents)
}

/// A host over a working tree in memory.
struct Host {
    session: RefactorSession,
    repository: Repository,
    undo: Vec<Vec<(String, String)>>,
}

impl Host {
    fn new(write_allowed: bool, files: &[(&str, &str)]) -> Host {
        Host {
            session: RefactorSession::new(write_allowed),
            repository: repository(files),
            undo: Vec::new(),
        }
    }

    fn source(&self, path: &str) -> &str {
        &self
            .repository
            .sources
            .iter()
            .find(|source| source.path == path)
            .expect("source")
            .text
    }

    fn outcome(&self, plan: &EditPlan) -> Result<Vec<(String, String)>, Failure> {
        let mut contents = Vec::new();
        for file in &plan.files {
            let current = self.source(&file.path);
            if sha256_of(current) != file.sha256 {
                return Err(Failure {
                    code: FailureCode::SourceHashMismatch,
                    text: "source hash mismatch".to_owned(),
                });
            }
            match edited(current, &file.edits) {
                Some(after) => contents.push((file.path.clone(), after)),
                None => {
                    return Err(Failure {
                        code: FailureCode::Other,
                        text: "the text before the edit differs".to_owned(),
                    })
                }
            }
        }
        Ok(contents)
    }

    fn dry_run(&self, plan: &EditPlan) -> DryRun {
        match self.outcome(plan) {
            Ok(contents) => DryRun::Passed {
                files: contents
                    .into_iter()
                    .map(|(path, after)| CheckedFile {
                        changed: self.source(&path) != after,
                        path,
                    })
                    .collect(),
                total_edits: plan.files.iter().map(|file| file.edits.len() as u64).sum(),
            },
            Err(failure) => DryRun::Failed(failure),
        }
    }

    fn replace(&mut self, contents: Vec<(String, String)>) -> Vec<(String, String)> {
        contents
            .into_iter()
            .map(|(path, after)| {
                let source = self
                    .repository
                    .sources
                    .iter_mut()
                    .find(|source| source.path == path)
                    .expect("source");
                (path, std::mem::replace(&mut source.text, after))
            })
            .collect()
    }

    fn write(&mut self, plan: &EditPlan) -> Written {
        match self.outcome(plan) {
            Ok(contents) => {
                let before = self.replace(contents);
                self.undo.push(before);
                Written::Done {
                    transaction_id: format!("transaction-{}", self.undo.len()),
                    undo_id: format!("undo-{}", self.undo.len()),
                }
            }
            Err(failure) => Written::Failed(failure),
        }
    }

    fn call(&mut self, name: &str, arguments: &Json) -> Json {
        let mut step = self
            .session
            .call(&self.repository, name, arguments, NOW)
            .expect("declared tool");
        loop {
            step = match step {
                Step::Answer(answer) => return answer,
                Step::Open { plan, presented } => {
                    self.session
                        .after_open("/repo", plan, presented.as_deref(), Ok(()), NOW)
                }
                Step::DryRun { plan, preview } => {
                    let outcome = self.dry_run(&plan);
                    return self
                        .session
                        .after_dry_run("/repo", &plan, preview, outcome, NOW);
                }
                Step::Write { plan, purpose } => {
                    let outcome = self.write(&plan);
                    return after_write(&plan, purpose, outcome);
                }
                Step::List => after_list(Listed::Receipts(
                    (1..=self.undo.len()).map(|at| format!("undo-{at}")).collect(),
                )),
                Step::Rollback { id } => {
                    assert_eq!(id, format!("undo-{}", self.undo.len()), "the latest is undone");
                    let before = self.undo.pop().expect("a retained transaction");
                    let paths = before.len() as u64;
                    self.replace(before);
                    return after_rollback(Restored::Done {
                        paths,
                        transaction_id: "rollback-1".to_owned(),
                    });
                }
            };
        }
    }
}

/// Previews and applies a plan through the write path.
fn apply(host: &mut Host, planned: &Json) -> Json {
    let plan = planned.get("plan").expect("plan");
    let preview = host.call("apply_edit_plan", &with(json("{}"), "plan", plan.duplicate()));
    assert_eq!(status(&preview), "PREVIEW_OK", "{preview:?}");
    let token = preview.text("confirmToken").expect("token").to_owned();
    host.call(
        "apply_edit_plan",
        &with(
            with(json(r#"{"mode": "apply"}"#), "plan", plan.duplicate()),
            "confirm_token",
            text(&token),
        ),
    )
}

const MANIFEST: (&str, &str) = (
    "package.json",
    "{\n  \"name\": \"fixture\",\n  \"version\": \"1.0.0\",\n  \"type\": \"module\"\n}\n",
);

/// `src/main.js` imports `./core.js`; `src/other.js` also imports `./core.js`.
const FILES: [(&str, &str); 4] = [
    ("src/core.js", "export const value = 1\n"),
    (
        "src/main.js",
        "import {value} from './core.js'\n\nexport const doubled = value * 2\n",
    ),
    (
        "src/other.js",
        "import {value} from './core.js'\n\nexport const tripled = value * 3\n",
    ),
    MANIFEST,
];

fn call(arguments: &Json) -> Json {
    Host::new(false, &FILES).call("move_file", arguments)
}

#[test]
fn move_file_a_missing_argument_is_invalid_args() {
    assert_eq!(
        status(&call(&json(r#"{"from": "src/core.js"}"#))),
        "INVALID_ARGS"
    );
}

#[test]
fn moving_a_file_to_its_own_path_is_no_change() {
    let answer = call(&json(r#"{"from": "src/core.js", "to": "src/core.js"}"#));
    assert_eq!(status(&answer), "NO_CHANGE");
}

#[test]
fn a_missing_file_is_source_unavailable() {
    let answer = call(&json(
        r#"{"from": "src/absent.js", "to": "src/other/absent.js"}"#,
    ));
    assert_eq!(status(&answer), "SOURCE_UNAVAILABLE");
}

#[test]
fn every_importer_of_the_moved_file_is_named_and_rewritten() {
    let answer = call(&json(r#"{"from": "src/core.js", "to": "src/deep/core.js"}"#));
    assert_eq!(status(&answer), "PLANNED", "{answer:?}");
    let importers = answer.list("importers").expect("importers");
    assert_eq!(
        importers.len(),
        2,
        "both consumers must appear: {importers:?}"
    );
    assert_eq!(answer.number("specifierEdits"), Some(2));
}

#[test]
fn the_rename_itself_is_declared_as_a_separate_step() {
    let answer = call(&json(r#"{"from": "src/core.js", "to": "src/deep/core.js"}"#));
    let warnings = answer.list("warnings").expect("warnings");
    assert!(
        warnings
            .iter()
            .any(|warning| warning.as_str() == Some("FILE_RENAME_NOT_INCLUDED")),
        "a plan of text edits must not read as if it moved the file"
    );
}

#[test]
fn applying_the_plan_leaves_every_importer_pointing_at_the_new_path() {
    let mut host = Host::new(true, &FILES);
    let planned = host.call(
        "move_file",
        &json(r#"{"from": "src/core.js", "to": "src/deep/core.js"}"#),
    );
    assert_eq!(status(&planned), "PLANNED");
    let applied = apply(&mut host, &planned);
    assert_eq!(status(&applied), "APPLIED", "{applied:?}");
    for importer in ["src/main.js", "src/other.js"] {
        let contents = host.source(importer);
        assert!(
            contents.contains("'./deep/core.js'"),
            "{importer} must point at the new path, got {contents:?}"
        );
    }
}

#[test]
fn the_moved_file_own_specifiers_are_rewritten_for_the_new_directory() {
    // main.js imports ./core.js from src/; moved to src/deep/ it must climb to ../core.js.
    let mut host = Host::new(
        true,
        &[
            ("src/core.js", "export const value = 1\n"),
            (
                "src/main.js",
                "import {value} from './core.js'\n\nexport const doubled = value * 2\n",
            ),
            MANIFEST,
        ],
    );
    let planned = host.call(
        "move_file",
        &json(r#"{"from": "src/main.js", "to": "src/deep/main.js"}"#),
    );
    assert_eq!(status(&planned), "PLANNED", "{planned:?}");
    apply(&mut host, &planned);
    let contents = host.source("src/main.js");
    assert!(
        contents.contains("'../core.js'"),
        "the moved file must climb out of its new directory, got {contents:?}"
    );
}

#[test]
fn module_names_are_left_alone() {
    let answer = Host::new(
        false,
        &[
            ("src/core.js", "export const value = 1\n"),
            (
                "src/main.js",
                "import react from 'react'\nimport {value} from './core.js'\n",
            ),
            MANIFEST,
        ],
    )
    .call(
        "move_file",
        &json(r#"{"from": "src/core.js", "to": "src/deep/core.js"}"#),
    );
    assert_eq!(status(&answer), "PLANNED");
    let edits = answer
        .get("plan")
        .and_then(|plan| plan.list("files"))
        .and_then(|files| files.first())
        .and_then(|file| file.list("edits"))
        .expect("edits");
    assert_eq!(edits.len(), 1, "only the path specifier changes: {edits:?}");
    assert_eq!(edits[0].text("before"), Some("./core.js"));
    assert_eq!(edits[0].text("after"), Some("./deep/core.js"));
}

#[test]
fn a_dot_in_a_directory_is_no_extension() {
    let mut host = Host::new(
        true,
        &[
            ("src/v1.2/core.js", "export const value = 1\n"),
            (
                "src/main.js",
                "import {value} from './v1.2/core'\n\nexport const doubled = value * 2\n",
            ),
            MANIFEST,
        ],
    );
    let planned = host.call(
        "move_file",
        &json(r#"{"from": "src/v1.2/core.js", "to": "src/v1.3/core.js"}"#),
    );
    assert_eq!(status(&planned), "PLANNED", "{planned:?}");
    let applied = apply(&mut host, &planned);
    assert_eq!(status(&applied), "APPLIED", "{applied:?}");
    let contents = host.source("src/main.js");
    assert!(contents.contains("'./v1.3/core'"), "got {contents:?}");
}
