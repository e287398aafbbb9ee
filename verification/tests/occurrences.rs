//! Finding a name in a source: as a word, and as an identifier.

use weavatrix_rust_refactor::graph::{Edge, Graph, Node, Repository, SourceFile, Span};
use weavatrix_rust_refactor::operations::occurrences::{
    identifier_occurrences, interpolation_sections, occurrences_on_line, on_one_line,
    python_f_string_sections,
};
use weavatrix_rust_refactor::operations::references::{
    import_lines, importing_files, referencing_lines,
};

#[test]
fn a_word_is_found_only_at_its_boundaries() {
    let source = "run(runner, run)\nnothing\n  run\r\n";
    assert_eq!(occurrences_on_line(source, 1, "run"), [(1, 4), (13, 16)]);
    assert!(occurrences_on_line(source, 2, "run").is_empty());
    assert_eq!(occurrences_on_line(source, 3, "run"), [(3, 6)]);
    assert!(occurrences_on_line(source, 9, "run").is_empty());
}

#[test]
fn a_word_beside_a_letter_of_two_bytes_is_not_free() {
    assert!(occurrences_on_line("\u{e9}run run\u{e9}", 1, "run").is_empty());
    assert_eq!(occurrences_on_line("\u{1f3af}run", 1, "run"), [(5, 8)]);
}

#[test]
fn the_interiors_of_a_template_are_found_with_their_nesting() {
    let template = "`a ${one} b ${two({x: 1})} c`";
    let found: Vec<&str> = interpolation_sections(template)
        .into_iter()
        .map(|(start, end)| &template[start..end])
        .collect();
    assert_eq!(found, ["one", "two({x: 1})"]);
    assert!(interpolation_sections("`a ${unclosed`").is_empty());
}

#[test]
fn the_interiors_of_an_f_string_leave_doubled_braces_alone() {
    let literal = "f\"{one} {{two}} {three}\"";
    let found: Vec<&str> = python_f_string_sections(literal)
        .into_iter()
        .map(|(start, end)| &literal[start..end])
        .collect();
    assert_eq!(found, ["one", "three"]);
}

#[test]
fn an_identifier_is_found_in_code_and_not_in_prose() {
    let source = "const a = run; // run\nconst b = 'run';\nconst c = `${run} run`;\n";
    let found = identifier_occurrences(source, "a.js", "run").expect("a known language");
    assert_eq!(found, [(1, 11, 14), (3, 14, 17)]);
    assert_eq!(on_one_line(&found, 3), [(14, 17)]);
    assert!(on_one_line(&found, 2).is_empty());
}

#[test]
fn an_identifier_inside_an_f_string_is_code() {
    let source = "x = f\"{run()} run\"\n";
    let found = identifier_occurrences(source, "a.py", "run").expect("a known language");
    assert_eq!(found, [(1, 8, 11)]);
}

#[test]
fn a_file_of_no_known_language_has_no_identifiers_to_offer() {
    assert!(identifier_occurrences("run", "notes.unheard-of", "run").is_none());
    assert!(identifier_occurrences("run", "Makefile", "run").is_none());
}

#[test]
fn an_import_line_names_the_symbol_and_imports() {
    let source = "import { run } from './a.js';\nimport { other } from './b.js';\nrun();\n";
    assert_eq!(import_lines(source, "run"), [1]);
    assert!(import_lines(source, "absent").is_empty());
}

fn node(id: &str, kind: &str, file: &str, line: u32) -> Node {
    Node {
        id: id.to_owned(),
        label: id.to_owned(),
        kind: kind.to_owned(),
        exported: false,
        span: Some(Span {
            file: file.to_owned(),
            start_line: line,
            end_line: line,
        }),
    }
}

fn edge(source: &str, target: &str, kind: &str, line: Option<(&str, u32)>) -> Edge {
    Edge {
        source: source.to_owned(),
        target: target.to_owned(),
        kind: kind.to_owned(),
        evidence: "resolved".to_owned(),
        span: line.map(|(file, line)| Span {
            file: file.to_owned(),
            start_line: line,
            end_line: line,
        }),
    }
}

fn repository() -> Repository {
    Repository {
        root: "/repo".to_owned(),
        graph: Graph {
            nodes: vec![
                node("a.js", "file", "a.js", 1),
                node("b.js", "file", "b.js", 1),
                node("target", "function", "a.js", 1),
                node("caller", "function", "b.js", 2),
            ],
            edges: vec![
                edge("b.js", "a.js", "imports", None),
                edge("caller", "target", "calls", None),
                edge("b.js", "target", "calls", Some(("b.js", 7))),
                edge("caller", "caller", "calls", Some(("b.js", 9))),
            ],
        },
        sources: vec![SourceFile {
            path: "b.js".to_owned(),
            text: "import { target } from './a.js';\nfunction caller() {\n  target();\n}\n"
                .to_owned(),
        }],
    }
}

#[test]
fn an_edge_counts_for_its_own_line_or_for_its_source_body() {
    let files = referencing_lines(&repository(), "target");
    let found: Vec<(&str, &[u32])> = files
        .iter()
        .map(|file| (file.file.as_str(), file.lines.as_slice()))
        .collect();
    let expected: [u32; 4] = [2, 3, 4, 7];
    assert_eq!(found, [("b.js", &expected[..])]);
}

#[test]
fn the_importing_files_are_those_with_an_import_edge() {
    assert_eq!(importing_files(&repository(), "a.js"), ["b.js"]);
    assert!(importing_files(&repository(), "b.js").is_empty());
}

#[test]
fn a_line_of_zero_holds_no_word() {
    assert!(occurrences_on_line("run\n", 0, "run").is_empty());
}

#[test]
fn an_import_over_several_lines_names_the_symbol_on_any_of_them() {
    let source = "import {\n  resolveTarget,\n} from './core.js';\nresolveTarget();\n";
    assert_eq!(import_lines(source, "resolveTarget"), [2]);
    let source = "from core import (\n    run,\n    stop,\n)\nrun()\n";
    assert_eq!(import_lines(source, "run"), [2]);
    assert_eq!(import_lines(source, "stop"), [3]);
}

#[test]
fn the_body_of_an_export_is_no_import() {
    let source = "export function run() {\n  other();\n}\n";
    assert!(import_lines(source, "other").is_empty());
}
