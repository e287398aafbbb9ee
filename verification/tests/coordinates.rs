//! Positions: byte columns, UTF-16 offsets, and what lies between them.

use weavatrix_rust_refactor::coordinates::{
    position_of, slice_between, utf16_line_length, utf16_offset, PositionError,
};

#[test]
fn ascii_columns_convert_to_the_offset_one_less() {
    let text = "export function resolveTarget(input) {\n";
    // "export function " is 16 bytes, so the identifier starts at byte column 17.
    assert_eq!(utf16_offset(text, 1, 17), Ok(16));
    assert_eq!(utf16_offset(text, 1, 1), Ok(0));
}

#[test]
fn a_multi_byte_prefix_shortens_the_utf16_offset() {
    // "héllo " is 7 bytes but 6 UTF-16 units: the accented character is two bytes, one unit.
    let text = "héllo world\n";
    assert_eq!(utf16_offset(text, 1, 8), Ok(6));
}

#[test]
fn a_surrogate_pair_counts_as_two_utf16_units() {
    // `let x = "` is 9 bytes, so the emoji occupies bytes 10..13 and the quote after it
    // starts at byte column 14. Four bytes in, two UTF-16 units out.
    let text = "let x = \"🎯\" // done\n";
    let before_emoji = utf16_offset(text, 1, 10).expect("byte column before the emoji");
    let after_emoji = utf16_offset(text, 1, 14).expect("byte column after the emoji");
    assert_eq!(before_emoji, 9);
    assert_eq!(after_emoji - before_emoji, 2);
}

#[test]
fn a_column_inside_a_character_is_refused_not_rounded() {
    let text = "héllo\n";
    assert_eq!(
        utf16_offset(text, 1, 3),
        Err(PositionError::NotACharBoundary { line: 1, column: 3 })
    );
}

#[test]
fn a_column_past_the_line_is_refused() {
    let text = "one\ntwo\n";
    assert!(matches!(
        utf16_offset(text, 1, 99),
        Err(PositionError::ColumnOutOfRange { .. })
    ));
}

#[test]
fn a_line_past_the_file_is_refused() {
    let text = "one\n";
    assert!(matches!(
        utf16_offset(text, 9, 1),
        Err(PositionError::LineOutOfRange { .. })
    ));
}

#[test]
fn carriage_returns_belong_to_the_separator_not_the_line() {
    let text = "one\r\ntwo\r\n";
    assert_eq!(utf16_line_length(text, 1), Ok(3));
    assert_eq!(utf16_offset(text, 1, 4), Ok(3));
}

#[test]
fn slicing_returns_the_exact_source_between_two_positions() {
    let text = "pub fn one() -> u32 {\n    1\n}\n";
    assert_eq!(slice_between(text, (1, 8), (1, 11)), Some("one".to_owned()));
    assert_eq!(
        slice_between(text, (1, 1), (3, 2)),
        Some("pub fn one() -> u32 {\n    1\n}".to_owned())
    );
}

#[test]
fn slicing_a_multi_byte_line_returns_characters_not_bytes() {
    let text = "let café = 1\n";
    assert_eq!(
        slice_between(text, (1, 5), (1, 10)),
        Some("café".to_owned())
    );
}

#[test]
fn an_inverted_range_slices_to_nothing() {
    let text = "one two\n";
    assert_eq!(slice_between(text, (1, 5), (1, 2)), None);
}

#[test]
fn a_position_of_zero_is_refused_not_rounded() {
    let text = "one\ntwo\n";
    assert_eq!(
        utf16_offset(text, 0, 2),
        Err(PositionError::LineOutOfRange { line: 0, lines: 3 })
    );
    assert_eq!(
        utf16_offset(text, 1, 0),
        Err(PositionError::ColumnOutOfRange { line: 1, column: 0, bytes: 3 })
    );
    assert_eq!(
        utf16_line_length(text, 0),
        Err(PositionError::LineOutOfRange { line: 0, lines: 3 })
    );
    assert_eq!(slice_between(text, (0, 1), (1, 2)), None);
    assert_eq!(slice_between(text, (1, 0), (1, 2)), None);
}

#[test]
fn a_line_length_past_the_file_is_refused() {
    assert_eq!(
        utf16_line_length("one\n", 4),
        Err(PositionError::LineOutOfRange { line: 4, lines: 2 })
    );
}

#[test]
fn each_refusal_says_what_disagrees() {
    let text = "h\u{e9}llo\n";
    assert_eq!(
        utf16_offset(text, 9, 1).unwrap_err().message(),
        "the graph points at line 9 but the file has 2; rebuild the graph"
    );
    assert_eq!(
        utf16_offset(text, 1, 99).unwrap_err().message(),
        "the graph points at byte column 99 on line 1, which is 6 bytes long; rebuild the graph"
    );
    assert_eq!(
        utf16_offset(text, 1, 3).unwrap_err().message(),
        "byte column 3 on line 1 falls inside a character; the graph and the file disagree"
    );
}

#[test]
fn a_position_leads_back_to_its_offset() {
    let text = "one\r\ncaf\u{e9} two\nthree";
    assert_eq!(position_of(text, 0), Some((1, 1)));
    // Byte eight is the first of the accented character.
    assert_eq!(position_of(text, 8), Some((2, 4)));
    assert_eq!(position_of(text, 9), None);
    assert_eq!(position_of(text, 10), Some((2, 6)));
    assert_eq!(slice_between(text, (2, 1), (2, 6)), Some("caf\u{e9}".to_owned()));
    assert_eq!(position_of(text, text.len()), Some((3, 6)));
    assert_eq!(position_of(text, text.len() + 1), None);
}

#[test]
fn offsets_keep_the_order_of_columns() {
    let text = "a\u{1f3af}b\u{e9}c\n";
    let offsets = [1, 2, 6, 7, 9, 10]
        .iter()
        .map(|column| utf16_offset(text, 1, *column).expect("a boundary"))
        .collect::<Vec<_>>();
    assert_eq!(offsets, [0, 1, 3, 4, 5, 6]);
}
