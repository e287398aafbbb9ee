//! Words, slices and ordered lists.

use weavatrix_rust_refactor::operations::cycles::cycles;
use weavatrix_rust_refactor::order;
use weavatrix_rust_refactor::order::FileLines;
use weavatrix_rust_refactor::parse::language_at;
use weavatrix_rust_refactor::pattern::double_dollars;
use weavatrix_rust_refactor::text;
use weavatrix_rust_refactor::words;

#[test]
fn an_identifier_starts_with_a_letter_or_an_underscore() {
    for valid in ["a", "_", "snake_case", "camelCase9", "\u{e9}tat"] {
        assert!(words::is_identifier(valid), "{valid}");
    }
    for invalid in ["", "9a", "a-b", "a b", "a.b"] {
        assert!(!words::is_identifier(invalid), "{invalid}");
    }
}

#[test]
fn white_space_goes_from_both_ends_only() {
    assert_eq!(words::trim(" \u{a0}\ta b\n "), "a b");
    assert_eq!(words::trim_start("  a "), "a ");
    assert_eq!(words::trim_end("  a "), "  a");
    assert!(words::is_blank(" \t\n\u{2003}"));
    assert!(words::is_blank(""));
    assert!(!words::is_blank(" . "));
}

#[test]
fn every_pair_of_parentheses_goes_from_a_label() {
    assert_eq!(words::trim_parentheses("run()"), "run");
    assert_eq!(words::trim_parentheses("run()()"), "run");
    assert_eq!(words::trim_parentheses("run"), "run");
    assert_eq!(words::trim_parentheses("run(a)"), "run(a)");
}

#[test]
fn numbers_are_written_in_decimal_and_in_hexadecimal() {
    assert_eq!(words::number(0), "0");
    assert_eq!(words::number(1_000_203), "1000203");
    assert_eq!(words::number(u64::MAX), "18446744073709551615");
    assert_eq!(words::hex(0, 4), "0000");
    assert_eq!(words::hex(0xbeef, 8), "0000beef");
    assert_eq!(words::hex(u64::MAX, 16), "ffffffffffffffff");
}

#[test]
fn parts_are_joined_by_a_separator() {
    assert_eq!(words::join(&vec!["a", "b", "c"], ", "), "a, b, c");
    assert_eq!(words::join(&vec!["a"], ", "), "a");
    assert_eq!(words::join(&Vec::new(), ", "), "");
}

#[test]
fn a_slice_inside_a_character_is_no_slice() {
    assert_eq!(text::get("h\u{e9}llo", 1, 3), Some("\u{e9}"));
    assert_eq!(text::get("h\u{e9}llo", 1, 2), None);
    assert_eq!(text::get("h\u{e9}llo", 0, 9), None);
    assert_eq!(text::get("hello", 3, 2), None);
    assert_eq!(text::get("hello", 5, 5), Some(""));
}

#[test]
fn texts_are_split_at_a_separator() {
    assert_eq!(text::split_all("a\n\nb", 10), ["a", "", "b"]);
    assert_eq!(text::split_all("", 10), [""]);
    assert_eq!(text::split_once("a/b/c", 47), Some(("a", "b/c")));
    assert_eq!(text::rsplit_once("a/b/c", 47), Some(("a/b", "c")));
    assert_eq!(text::split_once("abc", 47), None);
}

#[test]
fn a_text_is_found_where_it_first_stands() {
    assert_eq!(text::find("one two one", "one", 0), Some(0));
    assert_eq!(text::find("one two one", "one", 1), Some(8));
    assert_eq!(text::find("one", "two", 0), None);
    assert!(text::contains("one two", "e t"));
    assert_eq!(text::strip_prefix("./a", "./"), Some("a"));
    assert_eq!(text::strip_suffix("a.rs", ".rs"), Some("a"));
    assert!(text::starts_with("abc", "ab") && !text::starts_with("abc", "bc"));
    assert!(text::ends_with("abc", "bc") && !text::ends_with("abc", "ab"));
    assert!(text::same("abc", "abc") && !text::same("abc", "abd"));
}

#[test]
fn a_list_stays_in_order_and_holds_nothing_twice() {
    let mut list = Vec::new();
    for item in ["b", "a", "\u{e9}", "b", "ab", "z"] {
        order::insert(&mut list, item);
    }
    assert_eq!(list, ["a", "ab", "b", "z", "\u{e9}"]);
    assert!(order::has(&list, "ab") && !order::has(&list, "c"));
    assert!(order::less("Z", "a") && order::less("a", "ab") && !order::less("a", "a"));
    let mut numbers = Vec::new();
    for number in [5, 1, 3, 5, 2] {
        order::insert_number(&mut numbers, number);
    }
    assert_eq!(numbers, [1, 2, 3, 5]);
}

#[test]
fn lines_are_gathered_under_their_files() {
    let mut files: Vec<FileLines> = Vec::new();
    order::add_line(&mut files, "b.rs", 4);
    order::add_lines(&mut files, "a.rs", 2, 4);
    order::add_line(&mut files, "b.rs", 1);
    let found: Vec<(&str, Vec<u32>)> = files
        .iter()
        .map(|file| (file.file.as_str(), file.lines.clone()))
        .collect();
    assert_eq!(found, [("a.rs", vec![2, 3, 4]), ("b.rs", vec![1, 4])]);
}

#[test]
fn the_edges_of_a_cycle_are_named_and_no_others() {
    let edges = [("a", "b"), ("b", "c"), ("c", "b"), ("c", "d"), ("d", "d")]
        .map(|(from, to)| (from.to_owned(), to.to_owned()))
        .to_vec();
    let expected = [("b", "c"), ("c", "b")].map(|(from, to)| (from.to_owned(), to.to_owned()));
    assert_eq!(
        cycles(&edges),
        expected,
        "a file that depends on itself is no cycle between files"
    );
}

#[test]
fn a_dollar_of_literal_text_is_doubled() {
    assert_eq!(double_dollars("$a$$"), "$$a$$$$");
    assert_eq!(double_dollars("plain"), "plain");
}

#[test]
fn a_language_is_chosen_by_the_last_extension() {
    assert_eq!(language_at("src/a.test.ts"), language_at("b.ts"));
    assert!(language_at("src/a.rs").is_some());
    assert_ne!(language_at("src/a.rs"), language_at("b.ts"));
    assert!(language_at("src/noextension").is_none());
}
