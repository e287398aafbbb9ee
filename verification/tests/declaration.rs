//! Locating a declaration and where it ends.

use weavatrix_rust_refactor::declaration::{body_lines, locate};
use weavatrix_rust_refactor::parse::read_facts;

#[test]
fn a_function_range_covers_modifiers_through_the_closing_brace() {
    let source = "pub fn one() -> u32 {\n    1\n}\n\npub fn two() {}\n";
    let range = locate(source, "src/lib.rs", "one", 1).expect("declaration");
    assert!(range.end_proven);
    assert_eq!(
        &source[range.start..range.end],
        "pub fn one() -> u32 {\n    1\n}"
    );
}

#[test]
fn a_brace_inside_a_string_does_not_close_the_body() {
    let source = "pub fn one() -> &'static str {\n    \"}\"\n}\n";
    let range = locate(source, "src/lib.rs", "one", 1).expect("declaration");
    assert!(
        source[range.start..range.end].ends_with("}\"\n}"),
        "the string's brace must not end the declaration, got {:?}",
        &source[range.start..range.end]
    );
}

#[test]
fn a_brace_inside_a_comment_does_not_close_the_body() {
    let source = "pub fn one() -> u32 {\n    // }\n    1\n}\n";
    let range = locate(source, "src/lib.rs", "one", 1).expect("declaration");
    assert_eq!(
        &source[range.start..range.end],
        "pub fn one() -> u32 {\n    // }\n    1\n}"
    );
}

#[test]
fn nested_braces_are_matched_to_the_outermost() {
    let source = "pub fn one() -> u32 {\n    if true { 1 } else { 2 }\n}\n";
    let range = locate(source, "src/lib.rs", "one", 1).expect("declaration");
    assert!(source[range.start..range.end].contains("else { 2 }"));
    assert!(source[range.start..range.end].ends_with("\n}"));
}

#[test]
fn the_line_picks_between_same_named_declarations() {
    let source = "mod a {\n    pub fn one() -> u32 { 1 }\n}\nmod b {\n    pub fn one() -> u32 { 2 }\n}\n";
    let first = locate(source, "src/lib.rs", "one", 2);
    let second = locate(source, "src/lib.rs", "one", 5);
    if let (Some(first), Some(second)) = (first, second) {
        assert_ne!(
            first.start, second.start,
            "the line must select the declaration, not the first match"
        );
    }
}

#[test]
fn a_declaration_without_a_body_ends_at_its_terminator() {
    let source = "pub const ONE: u32 = 1;\n";
    if let Some(range) = locate(source, "src/lib.rs", "ONE", 1) {
        assert!(range.end_proven);
        assert_eq!(&source[range.start..range.end], "pub const ONE: u32 = 1;");
    }
}

#[test]
fn an_unknown_name_locates_nothing() {
    let source = "pub fn one() {}\n";
    assert!(locate(source, "src/lib.rs", "absent", 1).is_none());
}

#[test]
fn a_body_runs_from_its_first_line_to_the_closing_brace() {
    let source = "pub fn one() -> u32 {\n    1\n}\n\npub fn two() {}\n";
    assert_eq!(body_lines(source, "src/lib.rs", "one", 1), (1, 3));
}

#[test]
fn a_name_that_is_not_declared_keeps_its_own_line() {
    let source = "pub fn one() {}\n";
    assert_eq!(body_lines(source, "src/lib.rs", "absent", 1), (1, 1));
}

#[test]
fn a_file_of_no_known_language_locates_nothing() {
    assert!(locate("pub fn one() {}\n", "notes", "one", 1).is_none());
}

#[test]
fn a_c_source_that_opens_with_a_call_has_no_facts() {
    for path in ["src/a.c", "src/a.h", "src/a.cpp", "src/A.HPP"] {
        assert!(read_facts(path, "main() {}\n").is_none(), "{path}");
        assert!(read_facts(path, "\n// start\n/* here */ MACRO (x)\nint a;\n").is_none(), "{path}");
        assert!(locate("main() {}\n", path, "main", 1).is_none(), "{path}");
    }
}

#[test]
fn a_c_source_that_opens_with_a_type_has_its_facts() {
    let facts = read_facts("src/a.c", "int main() { return helper(1); }\n").expect("facts");
    assert_eq!(facts.declarations.len(), 1);
    assert_eq!(facts.declarations[0].name, "main");
    assert!(read_facts("src/a.c", "main\n").is_some());
    assert!(read_facts("src/a.c", "").is_some());
    assert!(locate("int main() {\n}\n", "src/a.c", "main", 1).is_some());
}

#[test]
fn a_call_at_the_start_of_another_language_is_no_obstacle() {
    assert!(read_facts("src/a.js", "main();\n").is_some());
    assert!(read_facts("src/a.py", "main()\n").is_some());
    assert!(read_facts("notes", "main()\n").is_none());
}
