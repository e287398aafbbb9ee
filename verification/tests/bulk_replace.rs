//! Literal and regex replacement, in two stages.
//!
//! The point of two stages is that a caller can see what a pattern matched before anything is
//! planned. So the tests care most about the cases where "replace them all" would be wrong: a
//! literal that also appears in a string, and a selection that must exclude it.

use blazingly_json::Value;
use weavatrix_graph::{AttributeValue, SourceSpan};
use weavatrix_rust::{Analyzer, SourceInput};
use weavatrix_rust_refactor::graph::{Edge, Graph, Node, Repository, SourceFile, Span};
use weavatrix_rust_refactor::json::Json;
use weavatrix_rust_refactor::operations::apply::{
    after_list, after_rollback, after_write, CheckedFile, DryRun, Failure, FailureCode, Listed,
    Restored, Step, Written,
};
use weavatrix_rust_refactor::operations::RefactorSession;
use weavatrix_rust_refactor::plan::{sha256_of, EditPlan, TextEdit};

const NOW: u64 = 1_700_000_000;

fn convert(value: &Value) -> Json {
    match value {
        Value::Null => Json::Null,
        Value::Bool(flag) => Json::Bool(*flag),
        Value::Number(number) => match number.as_u64() {
            Some(whole) => Json::Number(whole),
            None => Json::Notation(number.to_string()),
        },
        Value::String(text) => Json::Text(text.clone()),
        Value::Array(items) => Json::List(items.iter().map(convert).collect()),
        Value::Object(entries) => Json::Object(
            entries
                .iter()
                .map(|(key, value)| (key.clone(), convert(value)))
                .collect(),
        ),
    }
}

fn json(text: &str) -> Json {
    let value: Value = blazingly_json::from_str(text).expect("a JSON document");
    convert(&value)
}

fn with(document: Json, key: &str, value: Json) -> Json {
    match document {
        Json::Object(mut entries) => {
            entries.push((key.to_owned(), value));
            Json::Object(entries)
        }
        _ => panic!("an object"),
    }
}

fn text(value: &str) -> Json {
    Json::Text(value.to_owned())
}

fn status(value: &Json) -> &str {
    value.text("status").unwrap_or_default()
}

fn span(found: &SourceSpan) -> Span {
    Span {
        file: found.file.clone(),
        start_line: found.start.line,
        end_line: found.end.line,
    }
}

fn repository(files: &[(&str, &str)]) -> Repository {
    let snapshot = Analyzer::default()
        .analyze_sources(
            "/",
            "fixture",
            files
                .iter()
                .map(|(path, contents)| SourceInput {
                    path: (*path).to_owned(),
                    bytes: contents.as_bytes().to_vec(),
                    content_hash: None,
                })
                .collect::<Vec<_>>(),
        )
        .expect("the fixture is analyzed");
    Repository {
        root: "/repo".to_owned(),
        graph: Graph {
            nodes: snapshot
                .nodes
                .iter()
                .map(|node| Node {
                    id: node.id.as_str().to_owned(),
                    label: node.label.clone(),
                    kind: node.kind.as_str().to_owned(),
                    exported: node.attributes.get("exported") == Some(&AttributeValue::Bool(true)),
                    span: node.span.as_ref().map(span),
                })
                .collect(),
            edges: snapshot
                .edges
                .iter()
                .map(|edge| Edge {
                    source: edge.source.as_str().to_owned(),
                    target: edge.target.as_str().to_owned(),
                    kind: edge.kind.as_str().to_owned(),
                    evidence: edge.provenance.evidence.as_str().to_owned(),
                    span: edge.provenance.span.as_ref().map(span),
                })
                .collect(),
        },
        sources: files
            .iter()
            .map(|(path, contents)| SourceFile {
                path: (*path).to_owned(),
                text: (*contents).to_owned(),
            })
            .collect(),
    }
}

fn offset(text: &str, line: u32, character: u32) -> Option<usize> {
    let mut start = 0;
    for _ in 1..line {
        start += text[start..].find('\n')? + 1;
    }
    let mut units = 0;
    for (at, found) in text[start..].char_indices() {
        if units == character {
            return Some(start + at);
        }
        units += found.len_utf16() as u32;
    }
    (units == character).then_some(text.len())
}

fn edited(original: &str, edits: &[TextEdit]) -> Option<String> {
    let mut ranges = edits
        .iter()
        .map(|edit| {
            let start = offset(original, edit.start_line, edit.start_char)?;
            let end = offset(original, edit.end_line, edit.end_char)?;
            (original.get(start..end)? == edit.before).then_some((start, end, edit.after.as_str()))
        })
        .collect::<Option<Vec<_>>>()?;
    ranges.sort();
    let mut contents = original.to_owned();
    for (start, end, after) in ranges.into_iter().rev() {
        contents.replace_range(start..end, after);
    }
    Some(contents)
}

/// A host over a working tree in memory.
struct Host {
    session: RefactorSession,
    repository: Repository,
    undo: Vec<Vec<(String, String)>>,
}

impl Host {
    fn new(write_allowed: bool, files: &[(&str, &str)]) -> Host {
        Host {
            session: RefactorSession::new(write_allowed),
            repository: repository(files),
            undo: Vec::new(),
        }
    }

    fn source(&self, path: &str) -> &str {
        &self
            .repository
            .sources
            .iter()
            .find(|source| source.path == path)
            .expect("source")
            .text
    }

    fn outcome(&self, plan: &EditPlan) -> Result<Vec<(String, String)>, Failure> {
        let mut contents = Vec::new();
        for file in &plan.files {
            let current = self.source(&file.path);
            if sha256_of(current) != file.sha256 {
                return Err(Failure {
                    code: FailureCode::SourceHashMismatch,
                    text: "source hash mismatch".to_owned(),
                });
            }
            match edited(current, &file.edits) {
                Some(after) => contents.push((file.path.clone(), after)),
                None => {
                    return Err(Failure {
                        code: FailureCode::Other,
                        text: "the text before the edit differs".to_owned(),
                    })
                }
            }
        }
        Ok(contents)
    }

    fn dry_run(&self, plan: &EditPlan) -> DryRun {
        match self.outcome(plan) {
            Ok(contents) => DryRun::Passed {
                files: contents
                    .into_iter()
                    .map(|(path, after)| CheckedFile {
                        changed: self.source(&path) != after,
                        path,
                    })
                    .collect(),
                total_edits: plan.files.iter().map(|file| file.edits.len() as u64).sum(),
            },
            Err(failure) => DryRun::Failed(failure),
        }
    }

    fn replace(&mut self, contents: Vec<(String, String)>) -> Vec<(String, String)> {
        contents
            .into_iter()
            .map(|(path, after)| {
                let source = self
                    .repository
                    .sources
                    .iter_mut()
                    .find(|source| source.path == path)
                    .expect("source");
                (path, std::mem::replace(&mut source.text, after))
            })
            .collect()
    }

    fn write(&mut self, plan: &EditPlan) -> Written {
        match self.outcome(plan) {
            Ok(contents) => {
                let before = self.replace(contents);
                self.undo.push(before);
                Written::Done {
                    transaction_id: format!("transaction-{}", self.undo.len()),
                    undo_id: format!("undo-{}", self.undo.len()),
                }
            }
            Err(failure) => Written::Failed(failure),
        }
    }

    fn call(&mut self, name: &str, arguments: &Json) -> Json {
        let mut step = self
            .session
            .call(&self.repository, name, arguments, NOW)
            .expect("declared tool");
        loop {
            step = match step {
                Step::Answer(answer) => return answer,
                Step::Open { plan, presented } => {
                    self.session
                        .after_open("/repo", plan, presented.as_deref(), Ok(()), NOW)
                }
                Step::DryRun { plan, preview } => {
                    let outcome = self.dry_run(&plan);
                    return self
                        .session
                        .after_dry_run("/repo", &plan, preview, outcome, NOW);
                }
                Step::Write { plan, purpose } => {
                    let outcome = self.write(&plan);
                    return after_write(&plan, purpose, outcome);
                }
                Step::List => after_list(Listed::Receipts(
                    (1..=self.undo.len()).map(|at| format!("undo-{at}")).collect(),
                )),
                Step::Rollback { id } => {
                    assert_eq!(id, format!("undo-{}", self.undo.len()), "the latest is undone");
                    let before = self.undo.pop().expect("a retained transaction");
                    let paths = before.len() as u64;
                    self.replace(before);
                    return after_rollback(Restored::Done {
                        paths,
                        transaction_id: "rollback-1".to_owned(),
                    });
                }
            };
        }
    }
}

/// Previews and applies a plan through the write path.
fn apply(host: &mut Host, planned: &Json) -> Json {
    let plan = planned.get("plan").expect("plan");
    let preview = host.call("apply_edit_plan", &with(json("{}"), "plan", plan.duplicate()));
    assert_eq!(status(&preview), "PREVIEW_OK", "{preview:?}");
    let token = preview.text("confirmToken").expect("token").to_owned();
    host.call(
        "apply_edit_plan",
        &with(
            with(json(r#"{"mode": "apply"}"#), "plan", plan.duplicate()),
            "confirm_token",
            text(&token),
        ),
    )
}

const CODE: &str = "pub fn resolve() -> &'static str {\n    \"resolve\"\n}\n";

const MANIFEST: (&str, &str) = (
    "Cargo.toml",
    "[package]\nname = \"fixture\"\nversion = \"0.0.0\"\nedition = \"2024\"\n",
);

fn call(source: &str, arguments: &Json) -> Json {
    Host::new(true, &[("src/lib.rs", source), MANIFEST]).call("bulk_replace", arguments)
}

fn planned_after(planned: &Json) -> Option<&str> {
    planned
        .get("plan")
        .and_then(|plan| plan.list("files"))
        .and_then(|files| files.first())
        .and_then(|file| file.list("edits"))
        .and_then(|edits| edits.first())
        .and_then(|edit| edit.text("after"))
}

#[test]
fn the_first_stage_lists_occurrences_and_plans_nothing() {
    let answer = call(CODE, &json(r#"{"pattern": "resolve", "replacement": "locate"}"#));
    assert_eq!(status(&answer), "PREVIEW");
    assert!(answer.get("plan").is_none(), "stage one must not plan");
    assert_eq!(
        answer.number("total"),
        Some(2),
        "the declaration and the string literal both match"
    );
}

#[test]
fn a_selection_plans_only_the_chosen_occurrence() {
    let preview = call(CODE, &json(r#"{"pattern": "resolve", "replacement": "locate"}"#));
    let found = preview.list("occurrences").expect("occurrences");
    assert_eq!(found.len(), 2);
    let planned = call(
        CODE,
        &with(
            json(r#"{"pattern": "resolve", "replacement": "locate"}"#),
            "occurrence_ids",
            Json::List(vec![text(found[0].text("id").expect("id"))]),
        ),
    );
    assert_eq!(status(&planned), "PLANNED");
    assert_eq!(planned.number("total"), Some(1));
}

#[test]
fn planning_everything_requires_the_count_to_match() {
    let wrong = call(
        CODE,
        &json(r#"{"pattern": "resolve", "replacement": "locate", "expected_count": 99}"#),
    );
    assert_eq!(status(&wrong), "COUNT_MISMATCH");

    let right = call(
        CODE,
        &json(r#"{"pattern": "resolve", "replacement": "locate", "expected_count": 2}"#),
    );
    assert_eq!(status(&right), "PLANNED");
    assert_eq!(right.number("total"), Some(2));
}

#[test]
fn an_id_from_a_stale_preview_is_refused_by_name() {
    let answer = call(
        CODE,
        &json(
            r#"{"pattern": "resolve", "replacement": "locate", "occurrence_ids": ["src/lib.rs@99:0"]}"#,
        ),
    );
    assert_eq!(status(&answer), "UNKNOWN_OCCURRENCES");
    assert_eq!(answer.list("unknown").map(Vec::len), Some(1));
}

#[test]
fn an_empty_selection_is_refused_rather_than_treated_as_all() {
    let answer = call(
        CODE,
        &json(r#"{"pattern": "resolve", "replacement": "locate", "occurrence_ids": []}"#),
    );
    assert_eq!(status(&answer), "NO_SELECTION");
}

#[test]
fn a_pattern_that_matches_nothing_says_so() {
    let answer = call(CODE, &json(r#"{"pattern": "absent_name", "replacement": "x"}"#));
    assert_eq!(status(&answer), "NO_MATCHES");
}

#[test]
fn a_bad_regex_is_a_pattern_refusal_not_a_crash() {
    let answer = call(
        CODE,
        &json(r#"{"pattern": "(unclosed", "replacement": "x", "literal": false}"#),
    );
    assert_eq!(status(&answer), "INVALID_PATTERN");
}

#[test]
fn an_unsupported_flag_is_refused() {
    let answer = call(
        CODE,
        &json(r#"{"pattern": "resolve", "replacement": "x", "literal": false, "flags": "g"}"#),
    );
    assert_eq!(status(&answer), "INVALID_PATTERN");
}

#[test]
fn a_literal_dollar_in_the_replacement_stays_literal() {
    let planned = call(
        "let price = 1;\n",
        &json(r#"{"pattern": "price", "replacement": "$total", "expected_count": 1}"#),
    );
    assert_eq!(status(&planned), "PLANNED");
    assert_eq!(
        planned_after(&planned),
        Some("$total"),
        "in literal mode a dollar is a character, not a capture reference"
    );
}

#[test]
fn regex_mode_expands_captures() {
    let planned = call(
        "let one_value = 1;\n",
        &json(
            r#"{"pattern": "(\\w+)_value", "replacement": "${1}_amount", "literal": false, "expected_count": 1}"#,
        ),
    );
    assert_eq!(status(&planned), "PLANNED");
    assert_eq!(planned_after(&planned), Some("one_amount"));
}

#[test]
fn an_unbraced_capture_followed_by_word_characters_reads_as_one_name() {
    // `$1_amount` is the group named `1_amount`, not group 1 followed by text. The braced form is
    // the only unambiguous one, and the plan shows the caller exactly what it would write.
    let planned = call(
        "let one_value = 1;\n",
        &json(
            r#"{"pattern": "(\\w+)_value", "replacement": "$1_amount", "literal": false, "expected_count": 1}"#,
        ),
    );
    assert_eq!(status(&planned), "PLANNED");
    assert_eq!(
        planned_after(&planned),
        Some(""),
        "an unknown group name expands to nothing, and the preview makes that visible"
    );
}

#[test]
fn a_plan_from_bulk_replace_survives_the_applier_and_writes_the_selection() {
    let mut host = Host::new(true, &[("src/lib.rs", CODE), MANIFEST]);
    let planned = host.call(
        "bulk_replace",
        &json(r#"{"pattern": "resolve", "replacement": "locate", "expected_count": 2}"#),
    );
    assert_eq!(status(&planned), "PLANNED");
    let applied = apply(&mut host, &planned);
    assert_eq!(status(&applied), "APPLIED", "{applied:?}");
    assert_eq!(
        host.source("src/lib.rs"),
        "pub fn locate() -> &'static str {\n    \"locate\"\n}\n"
    );
}

#[test]
fn a_literal_pattern_matches_only_itself() {
    let answer = call(
        "let a = x.y;\nlet b = x-y;\n",
        &json(r#"{"pattern": "x.y", "replacement": "z", "literal": true}"#),
    );
    assert_eq!(answer.number("total"), Some(1), "{answer:?}");
    let answer = call(
        "let a = x.y;\nlet b = x-y;\n",
        &json(r#"{"pattern": "x.y", "replacement": "z", "literal": false}"#),
    );
    assert_eq!(answer.number("total"), Some(2), "{answer:?}");
}

#[test]
fn case_is_ignored_only_where_the_flag_says_so() {
    let source = "let Value = 1;\nlet value = 2;\n";
    let strict = call(
        source,
        &json(r#"{"pattern": "value", "replacement": "z", "literal": false}"#),
    );
    assert_eq!(strict.number("total"), Some(1), "{strict:?}");
    let loose = call(
        source,
        &json(r#"{"pattern": "value", "replacement": "z", "literal": false, "flags": "i"}"#),
    );
    assert_eq!(loose.number("total"), Some(2), "{loose:?}");
}

#[test]
fn a_missing_or_overlong_pattern_is_refused() {
    assert_eq!(
        status(&call(CODE, &json(r#"{"replacement": "x"}"#))),
        "INVALID_ARGS"
    );
    let long = with(
        json(r#"{"replacement": "x"}"#),
        "pattern",
        text(&"a".repeat(1001)),
    );
    assert_eq!(status(&call(CODE, &long)), "INVALID_PATTERN");
}

#[test]
fn an_occurrence_is_named_by_its_place() {
    let preview = call(CODE, &json(r#"{"pattern": "resolve", "replacement": "locate"}"#));
    let found = preview.list("occurrences").expect("occurrences");
    assert_eq!(found[0].text("id"), Some("src/lib.rs@1:7"));
    assert_eq!(found[0].text("file"), Some("src/lib.rs"));
    assert_eq!(found[1].text("id"), Some("src/lib.rs@2:5"));
}

#[test]
fn a_literal_pattern_is_never_refused_for_what_it_holds() {
    let answer = call(
        "let a = \"([*+?{|^$\";\n",
        &json(r#"{"pattern": "([*+?{|^$", "replacement": "z", "literal": true}"#),
    );
    assert_eq!(answer.number("total"), Some(1), "{answer:?}");
}

#[test]
fn no_two_occurrences_share_an_id() {
    let answer = call("a a\na aa\n", &json(r#"{"pattern": "a", "replacement": "b"}"#));
    let found = answer.list("occurrences").expect("occurrences");
    let ids: Vec<&str> = found.iter().filter_map(|entry| entry.text("id")).collect();
    assert_eq!(
        ids,
        [
            "src/lib.rs@1:0",
            "src/lib.rs@1:2",
            "src/lib.rs@2:0",
            "src/lib.rs@2:2",
            "src/lib.rs@2:3"
        ]
    );
}
