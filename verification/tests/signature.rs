//! Reading parameter and argument lists.

use weavatrix_parse::Language;
use weavatrix_rust_refactor::operations::change_signature::parameters_of;
use weavatrix_rust_refactor::operations::signature::{code_tokens, removal, split, List};

fn parse(source: &str) -> List {
    let code = code_tokens(source, Language::TypeScript);
    let open = code
        .iter()
        .position(|token| token.text(source) == "(")
        .expect("an open parenthesis");
    split(source, &code, open).expect("the list closes")
}

#[test]
fn an_empty_list_has_no_items() {
    assert!(parse("f()").items.is_empty());
}

#[test]
fn items_carry_their_exact_bytes() {
    let list = parse("f(alpha, beta)");
    let texts: Vec<&str> = list.items.iter().map(|item| item.text.as_str()).collect();
    assert_eq!(texts, ["alpha", "beta"]);
}

#[test]
fn a_comma_inside_a_generic_separates_nothing() {
    let list = parse("f(map: Map<string, number>, flag: boolean)");
    assert_eq!(list.items.len(), 2, "{:?}", list.items);
    assert_eq!(list.items[0].text, "map: Map<string, number>");
}

#[test]
fn a_comma_inside_a_nested_call_separates_nothing() {
    let list = parse("f(a = make(1, 2), b)");
    assert_eq!(list.items.len(), 2, "{:?}", list.items);
}

#[test]
fn a_comma_inside_an_object_pattern_separates_nothing() {
    let list = parse("f({ one, two }, rest)");
    assert_eq!(list.items.len(), 2, "{:?}", list.items);
}

#[test]
fn a_comma_inside_a_string_separates_nothing() {
    let list = parse("f('a, b', c)");
    assert_eq!(list.items.len(), 2, "{:?}", list.items);
}

#[test]
fn a_spread_is_marked_rather_than_counted_as_ordinary() {
    let list = parse("f(a, ...rest)");
    assert!(!list.items[0].spread && list.items[1].spread);
}

#[test]
fn a_less_than_in_a_default_is_not_read_as_a_generic() {
    let list = parse("f(a = x < 1 ? 2 : 3, b)");
    assert_eq!(list.items.len(), 2, "{:?}", list.items);
}

#[test]
fn an_unclosed_list_is_refused_rather_than_guessed() {
    let source = "f(a, b";
    let code = code_tokens(source, Language::TypeScript);
    let open = code
        .iter()
        .position(|token| token.text(source) == "(")
        .expect("open");
    assert!(split(source, &code, open).is_none());
}

#[test]
fn removing_a_middle_item_takes_the_comma_after_it() {
    let list = parse("f(a, b, c)");
    let (start, end) = removal(&list.items, 1).expect("range");
    assert_eq!(&"f(a, b, c)"[start..end], "b, ");
}

#[test]
fn removing_the_last_item_takes_the_comma_before_it() {
    let list = parse("f(a, b)");
    let (start, end) = removal(&list.items, 1).expect("range");
    assert_eq!(&"f(a, b)"[start..end], ", b");
}

#[test]
fn removing_the_only_item_leaves_the_parentheses() {
    let list = parse("f(a)");
    let (start, end) = removal(&list.items, 0).expect("range");
    assert_eq!(&"f(a)"[start..end], "a");
}

#[test]
fn a_declaration_yields_its_parameters() {
    let items = parameters_of(
        "export function run(one, two) {\n  return one;\n}\n",
        Language::JavaScript,
        "run",
        1,
    );
    let texts: Vec<&str> = items.iter().map(|item| item.text.as_str()).collect();
    assert_eq!(texts, ["one", "two"]);
}

#[test]
fn a_generic_declaration_yields_the_parameters_not_the_type_arguments() {
    let items = parameters_of(
        "export function run<T, U>(one: T, two: U) {}\n",
        Language::TypeScript,
        "run",
        1,
    );
    assert_eq!(items.len(), 2, "{items:?}");
    assert_eq!(items[0].text, "one: T");
}

#[test]
fn a_similarly_named_declaration_on_the_line_is_not_matched() {
    let items = parameters_of(
        "export function runAll(a, b, c) {}\n",
        Language::JavaScript,
        "run",
        1,
    );
    assert!(items.is_empty(), "{items:?}");
}

#[test]
fn a_comment_is_not_code() {
    let code = code_tokens("f( /* one, two */ a )", Language::TypeScript);
    let texts: Vec<&str> = code
        .iter()
        .map(|token| token.text("f( /* one, two */ a )"))
        .collect();
    assert_eq!(texts, ["f", "(", "a", ")"]);
}

#[test]
fn a_list_carries_the_bytes_of_its_parentheses() {
    let list = parse("let x = f(a, b);");
    assert_eq!((list.open, list.close), (9, 14));
    assert_eq!((list.items[0].start, list.items[0].end), (10, 11));
    assert_eq!((list.items[1].start, list.items[1].end), (13, 14));
}

#[test]
fn a_list_that_does_not_start_at_a_parenthesis_is_refused() {
    let source = "f(a)";
    let code = code_tokens(source, Language::TypeScript);
    assert!(split(source, &code, 0).is_none());
    assert!(split(source, &code, 99).is_none());
}

#[test]
fn removing_an_item_that_is_not_there_gives_no_range() {
    assert_eq!(removal(&parse("f(a)").items, 1), None);
    assert_eq!(removal(&parse("f()").items, 0), None);
}

#[test]
fn removing_the_first_item_leaves_the_second_in_its_place() {
    let source = "f(a, b)";
    let (start, end) = removal(&parse(source).items, 0).expect("range");
    assert_eq!(&source[start..end], "a, ");
}
