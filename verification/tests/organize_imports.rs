//! Removing import bindings that nothing uses.
//!
//! Every deletion carries the exact bytes it claims to remove, and the applier checks them again,
//! so an apply that succeeds and leaves valid source shows that the ranges were right.

use blazingly_json::Value;
use weavatrix_graph::{AttributeValue, SourceSpan};
use weavatrix_rust::{Analyzer, SourceInput};
use weavatrix_rust_refactor::graph::{Edge, Graph, Node, Repository, SourceFile, Span};
use weavatrix_rust_refactor::json::Json;
use weavatrix_rust_refactor::operations::apply::{
    after_list, after_rollback, after_write, CheckedFile, DryRun, Failure, FailureCode, Listed,
    Restored, Step, Written,
};
use weavatrix_rust_refactor::operations::RefactorSession;
use weavatrix_rust_refactor::plan::{sha256_of, EditPlan, TextEdit};

const NOW: u64 = 1_700_000_000;

fn convert(value: &Value) -> Json {
    match value {
        Value::Null => Json::Null,
        Value::Bool(flag) => Json::Bool(*flag),
        Value::Number(number) => match number.as_u64() {
            Some(whole) => Json::Number(whole),
            None => Json::Notation(number.to_string()),
        },
        Value::String(text) => Json::Text(text.clone()),
        Value::Array(items) => Json::List(items.iter().map(convert).collect()),
        Value::Object(entries) => Json::Object(
            entries
                .iter()
                .map(|(key, value)| (key.clone(), convert(value)))
                .collect(),
        ),
    }
}

fn json(text: &str) -> Json {
    let value: Value = blazingly_json::from_str(text).expect("a JSON document");
    convert(&value)
}

fn with(document: Json, key: &str, value: Json) -> Json {
    match document {
        Json::Object(mut entries) => {
            entries.push((key.to_owned(), value));
            Json::Object(entries)
        }
        _ => panic!("an object"),
    }
}

fn text(value: &str) -> Json {
    Json::Text(value.to_owned())
}

fn status(value: &Json) -> &str {
    value.text("status").unwrap_or_default()
}

fn span(found: &SourceSpan) -> Span {
    Span {
        file: found.file.clone(),
        start_line: found.start.line,
        end_line: found.end.line,
    }
}

fn repository(files: &[(&str, &str)]) -> Repository {
    let snapshot = Analyzer::default()
        .analyze_sources(
            "/",
            "fixture",
            files
                .iter()
                .map(|(path, contents)| SourceInput {
                    path: (*path).to_owned(),
                    bytes: contents.as_bytes().to_vec(),
                    content_hash: None,
                })
                .collect::<Vec<_>>(),
        )
        .expect("the fixture is analyzed");
    Repository {
        root: "/repo".to_owned(),
        graph: Graph {
            nodes: snapshot
                .nodes
                .iter()
                .map(|node| Node {
                    id: node.id.as_str().to_owned(),
                    label: node.label.clone(),
                    kind: node.kind.as_str().to_owned(),
                    exported: node.attributes.get("exported") == Some(&AttributeValue::Bool(true)),
                    span: node.span.as_ref().map(span),
                })
                .collect(),
            edges: snapshot
                .edges
                .iter()
                .map(|edge| Edge {
                    source: edge.source.as_str().to_owned(),
                    target: edge.target.as_str().to_owned(),
                    kind: edge.kind.as_str().to_owned(),
                    evidence: edge.provenance.evidence.as_str().to_owned(),
                    span: edge.provenance.span.as_ref().map(span),
                })
                .collect(),
        },
        sources: files
            .iter()
            .map(|(path, contents)| SourceFile {
                path: (*path).to_owned(),
                text: (*contents).to_owned(),
            })
            .collect(),
    }
}

fn offset(text: &str, line: u32, character: u32) -> Option<usize> {
    let mut start = 0;
    for _ in 1..line {
        start += text[start..].find('\n')? + 1;
    }
    let mut units = 0;
    for (at, found) in text[start..].char_indices() {
        if units == character {
            return Some(start + at);
        }
        units += found.len_utf16() as u32;
    }
    (units == character).then_some(text.len())
}

fn edited(original: &str, edits: &[TextEdit]) -> Option<String> {
    let mut ranges = edits
        .iter()
        .map(|edit| {
            let start = offset(original, edit.start_line, edit.start_char)?;
            let end = offset(original, edit.end_line, edit.end_char)?;
            (original.get(start..end)? == edit.before).then_some((start, end, edit.after.as_str()))
        })
        .collect::<Option<Vec<_>>>()?;
    ranges.sort();
    let mut contents = original.to_owned();
    for (start, end, after) in ranges.into_iter().rev() {
        contents.replace_range(start..end, after);
    }
    Some(contents)
}

/// A host over a working tree in memory.
struct Host {
    session: RefactorSession,
    repository: Repository,
    undo: Vec<Vec<(String, String)>>,
}

impl Host {
    fn new(write_allowed: bool, files: &[(&str, &str)]) -> Host {
        Host {
            session: RefactorSession::new(write_allowed),
            repository: repository(files),
            undo: Vec::new(),
        }
    }

    fn source(&self, path: &str) -> &str {
        &self
            .repository
            .sources
            .iter()
            .find(|source| source.path == path)
            .expect("source")
            .text
    }

    fn outcome(&self, plan: &EditPlan) -> Result<Vec<(String, String)>, Failure> {
        let mut contents = Vec::new();
        for file in &plan.files {
            let current = self.source(&file.path);
            if sha256_of(current) != file.sha256 {
                return Err(Failure {
                    code: FailureCode::SourceHashMismatch,
                    text: "source hash mismatch".to_owned(),
                });
            }
            match edited(current, &file.edits) {
                Some(after) => contents.push((file.path.clone(), after)),
                None => {
                    return Err(Failure {
                        code: FailureCode::Other,
                        text: "the text before the edit differs".to_owned(),
                    })
                }
            }
        }
        Ok(contents)
    }

    fn dry_run(&self, plan: &EditPlan) -> DryRun {
        match self.outcome(plan) {
            Ok(contents) => DryRun::Passed {
                files: contents
                    .into_iter()
                    .map(|(path, after)| CheckedFile {
                        changed: self.source(&path) != after,
                        path,
                    })
                    .collect(),
                total_edits: plan.files.iter().map(|file| file.edits.len() as u64).sum(),
            },
            Err(failure) => DryRun::Failed(failure),
        }
    }

    fn replace(&mut self, contents: Vec<(String, String)>) -> Vec<(String, String)> {
        contents
            .into_iter()
            .map(|(path, after)| {
                let source = self
                    .repository
                    .sources
                    .iter_mut()
                    .find(|source| source.path == path)
                    .expect("source");
                (path, std::mem::replace(&mut source.text, after))
            })
            .collect()
    }

    fn write(&mut self, plan: &EditPlan) -> Written {
        match self.outcome(plan) {
            Ok(contents) => {
                let before = self.replace(contents);
                self.undo.push(before);
                Written::Done {
                    transaction_id: format!("transaction-{}", self.undo.len()),
                    undo_id: format!("undo-{}", self.undo.len()),
                }
            }
            Err(failure) => Written::Failed(failure),
        }
    }

    fn call(&mut self, name: &str, arguments: &Json) -> Json {
        let mut step = self
            .session
            .call(&self.repository, name, arguments, NOW)
            .expect("declared tool");
        loop {
            step = match step {
                Step::Answer(answer) => return answer,
                Step::Open { plan, presented } => {
                    self.session
                        .after_open("/repo", plan, presented.as_deref(), Ok(()), NOW)
                }
                Step::DryRun { plan, preview } => {
                    let outcome = self.dry_run(&plan);
                    return self
                        .session
                        .after_dry_run("/repo", &plan, preview, outcome, NOW);
                }
                Step::Write { plan, purpose } => {
                    let outcome = self.write(&plan);
                    return after_write(&plan, purpose, outcome);
                }
                Step::List => after_list(Listed::Receipts(
                    (1..=self.undo.len()).map(|at| format!("undo-{at}")).collect(),
                )),
                Step::Rollback { id } => {
                    assert_eq!(id, format!("undo-{}", self.undo.len()), "the latest is undone");
                    let before = self.undo.pop().expect("a retained transaction");
                    let paths = before.len() as u64;
                    self.replace(before);
                    return after_rollback(Restored::Done {
                        paths,
                        transaction_id: "rollback-1".to_owned(),
                    });
                }
            };
        }
    }
}

/// Previews and applies a plan through the write path.
fn apply(host: &mut Host, planned: &Json) -> Json {
    let plan = planned.get("plan").expect("plan");
    let preview = host.call("apply_edit_plan", &with(json("{}"), "plan", plan.duplicate()));
    assert_eq!(status(&preview), "PREVIEW_OK", "{preview:?}");
    let token = preview.text("confirmToken").expect("token").to_owned();
    host.call(
        "apply_edit_plan",
        &with(
            with(json(r#"{"mode": "apply"}"#), "plan", plan.duplicate()),
            "confirm_token",
            text(&token),
        ),
    )
}

const MANIFEST: (&str, &str) = (
    "package.json",
    "{\"name\":\"fixture\",\"version\":\"0.0.0\",\"type\":\"module\"}\n",
);

fn organize(source: (&str, &str), file: &str) -> Json {
    Host::new(false, &[source, MANIFEST])
        .call("organize_imports", &with(json("{}"), "file", text(file)))
}

/// Plans, previews and applies, giving the file as it ends up.
fn organized(source: (&str, &str), file: &str) -> String {
    let mut host = Host::new(true, &[source, MANIFEST]);
    let planned = host.call("organize_imports", &with(json("{}"), "file", text(file)));
    assert_eq!(status(&planned), "PLANNED", "{planned:?}");
    let applied = apply(&mut host, &planned);
    assert_eq!(status(&applied), "APPLIED", "{applied:?}");
    host.source(file).to_owned()
}

#[test]
fn a_missing_file_argument_is_invalid_args() {
    let answer = Host::new(false, &[("src/a.js", "export const a = 1;\n"), MANIFEST])
        .call("organize_imports", &json("{}"));
    assert_eq!(status(&answer), "INVALID_ARGS");
}

#[test]
fn a_file_outside_the_repository_is_source_unavailable() {
    let file = ("src/a.js", "export const a = 1;\n");
    assert_eq!(
        status(&organize(file, "src/nope.js")),
        "SOURCE_UNAVAILABLE"
    );
}

#[test]
fn a_file_without_imports_has_nothing_to_organize() {
    let file = ("src/a.js", "export const a = 1;\n");
    assert_eq!(status(&organize(file, "src/a.js")), "NO_UNUSED_IMPORTS");
}

#[test]
fn bindings_that_are_used_are_left_alone() {
    let file = (
            "src/a.js",
            "import { one, two } from './lib.js';\n\nexport const sum = one(1) + two(2);\n",
        );
    let answer = organize(file, "src/a.js");
    assert_eq!(status(&answer), "NO_UNUSED_IMPORTS", "{answer:?}");
}

#[test]
fn a_name_that_appears_only_in_a_comment_is_still_unused() {
    let file = (
            "src/a.js",
            "import { one, two } from './lib.js';\n\n// two is mentioned here only\nexport const x = one(1);\n",
        );
    let answer = organize(file, "src/a.js");
    assert_eq!(status(&answer), "PLANNED", "{answer:?}");
    let removed = answer
        .get("removed")
        .and_then(Json::as_array)
        .expect("removed");
    assert_eq!(removed.len(), 1);
    assert_eq!(removed[0].as_str(), Some("two"));
}

#[test]
fn a_name_that_appears_only_inside_a_string_is_still_unused() {
    let file = (
            "src/a.js",
            "import { one, two } from './lib.js';\n\nexport const label = 'two';\nexport const x = one(1);\n",
        );
    assert_eq!(status(&organize(file, "src/a.js")), "PLANNED");
}

#[test]
fn a_default_import_is_reported_and_never_removed() {
    let file = (
            "src/a.jsx",
            "import React from 'react';\n\nexport const view = <div />;\n",
        );
    let answer = organize(file, "src/a.jsx");
    let uncertain = answer
        .get("uncertain")
        .and_then(Json::as_array)
        .map(|entries| {
            entries
                .iter()
                .filter_map(|entry| entry.get("binding").and_then(Json::as_str))
                .map(str::to_owned)
                .collect::<Vec<_>>()
        })
        .unwrap_or_default();
    assert!(
        uncertain.contains(&"React".to_owned()),
        "a default import has to be reported rather than judged: {answer:?}"
    );
    assert!(
        answer
            .get("removed")
            .and_then(Json::as_array)
            .is_none_or(|removed| !removed.iter().any(|name| name.as_str() == Some("React"))),
        "{answer:?}"
    );
}

#[test]
fn one_unused_binding_leaves_the_rest_of_the_import_intact() {
    let file = (
            "src/a.js",
            "import { one, two } from './lib.js';\n\nexport const x = one(1);\n",
        );
    let after = organized(file, "src/a.js");
    assert_eq!(
        after, "import { one } from './lib.js';\n\nexport const x = one(1);\n",
        "got {after:?}"
    );
}

#[test]
fn an_unused_first_binding_takes_its_own_comma() {
    let file = (
            "src/a.js",
            "import { one, two } from './lib.js';\n\nexport const x = two(1);\n",
        );
    let after = organized(file, "src/a.js");
    assert_eq!(
        after, "import { two } from './lib.js';\n\nexport const x = two(1);\n",
        "got {after:?}"
    );
}

#[test]
fn an_import_whose_every_binding_is_unused_is_removed_whole() {
    let file = (
            "src/a.js",
            "import { one } from './lib.js';\nimport { keep } from './other.js';\n\nexport const x = keep(1);\n",
        );
    let after = organized(file, "src/a.js");
    assert_eq!(
        after, "import { keep } from './other.js';\n\nexport const x = keep(1);\n",
        "the whole statement and its line should be gone, got {after:?}"
    );
}

#[test]
fn a_statement_without_a_semicolon_still_takes_its_module_specifier() {
    let file = (
            "src/a.js",
            "import { one } from './lib.js'\nimport { keep } from './other.js'\n\nexport const x = keep(1)\n",
        );
    let after = organized(file, "src/a.js");
    assert!(
        !after.contains("./lib.js"),
        "the specifier must go with the statement, got {after:?}"
    );
    assert!(
        after.starts_with("import { keep } from './other.js'"),
        "got {after:?}"
    );
}

#[test]
fn the_braces_go_but_the_default_beside_them_stays() {
    let file = (
            "src/a.js",
            "import base, { unused } from './lib.js';\n\nexport const x = base(1);\n",
        );
    let after = organized(file, "src/a.js");
    assert_eq!(
        after, "import base from './lib.js';\n\nexport const x = base(1);\n",
        "got {after:?}"
    );
}

#[test]
fn an_alias_is_judged_by_the_local_name() {
    let file = (
            "src/a.js",
            "import { original as local, other } from './lib.js';\n\nexport const x = local(1);\n",
        );
    let after = organized(file, "src/a.js");
    assert_eq!(
        after, "import { original as local } from './lib.js';\n\nexport const x = local(1);\n",
        "got {after:?}"
    );
}

#[test]
fn a_multi_line_import_keeps_the_bindings_it_still_needs() {
    let file = (
            "src/a.js",
            "import {\n  one,\n  two,\n  three,\n} from './lib.js';\n\nexport const x = one(1) + three(3);\n",
        );
    let after = organized(file, "src/a.js");
    assert!(
        after.contains("one") && after.contains("three") && !after.contains("two"),
        "got {after:?}"
    );
}

#[test]
fn a_dynamic_import_expression_is_not_treated_as_a_statement() {
    let file = (
            "src/a.js",
            "export async function load() {\n  return import('./lib.js');\n}\n",
        );
    assert_eq!(status(&organize(file, "src/a.js")), "NO_UNUSED_IMPORTS");
}

#[test]
fn a_rust_file_is_reported_unproven_rather_than_edited() {
    let file = (
            "src/main.rs",
            "use std::io::Write;\n\nfn main() {\n    let mut out = std::io::stdout();\n    out.write_all(b\"x\").unwrap();\n}\n",
        );
    let answer = organize(file, "src/main.rs");
    assert_eq!(
        status(&answer),
        "UNPROVEN",
        "removing a trait import that is used through its methods would break the build: \
         {answer:?}"
    );
    assert!(answer.get("plan").is_none(), "{answer:?}");
}

#[test]
fn an_unproven_answer_names_the_language_and_the_candidates() {
    let file = ("src/main.rs", "use std::io::Write;\n\nfn main() {}\n");
    let answer = organize(file, "src/main.rs");
    assert_eq!(answer.text("language"), Some("Rust"), "{answer:?}");
    let file = ("notes.unheard-of", "import x\n");
    let answer = organize(file, "notes.unheard-of");
    assert_eq!(status(&answer), "UNPROVEN", "{answer:?}");
}

#[test]
fn a_name_imported_twice_is_left_alone() {
    let file = (
        "src/a.js",
        "import { a } from './one.js';\nimport { a } from './two.js';\n",
    );
    let answer = organize(file, "src/a.js");
    assert_eq!(status(&answer), "NO_UNUSED_IMPORTS", "{answer:?}");
}

#[test]
fn a_binding_that_only_a_template_uses_is_left_alone() {
    let file = (
        "src/a.js",
        "import { a } from './one.js';\n\nexport const text = `see ${a}`;\n",
    );
    let answer = organize(file, "src/a.js");
    assert_eq!(status(&answer), "NO_UNUSED_IMPORTS", "{answer:?}");
}

#[test]
fn a_line_that_an_import_shares_is_not_taken_whole() {
    let file = (
        "src/a.js",
        "run();import { a } from './one.js';\nexport const b = 1;\n",
    );
    assert_eq!(
        organized(file, "src/a.js"),
        "run();\nexport const b = 1;\n"
    );
}
