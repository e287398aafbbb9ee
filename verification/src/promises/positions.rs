//! What converting a position promises: that it counts as an editor does.

use crate::coordinates;
use crate::coordinates::PositionError;
use crate::text;
use vstd::prelude::*;

verus! {

/// A column is counted in UTF-16 units: the first of a line is at zero, and each character in front
/// of one moves it on by one unit, or by two where it is outside the basic plane.
pub proof fn law_columns_count_utf16_units(
    t: Seq<char>,
    line: u32,
    head: Seq<char>,
    c: char,
    tail: Seq<char>,
)
    requires
        text::bytes(t).len() < u32::MAX,
        1 <= line <= coordinates::lines(t).len(),
        coordinates::without_return(coordinates::lines(t)[line - 1]) == head + seq![c] + tail,
    ensures
        coordinates::converted(t, line, 1) == Ok::<u32, PositionError>(0),
        ({
            let before = (text::bytes(head).len() + 1) as u32;
            let behind = (text::bytes(head + seq![c]).len() + 1) as u32;
            coordinates::converted(t, line, before) matches Ok(units) && coordinates::converted(
                t,
                line,
                behind,
            ) == Ok::<u32, PositionError>(
                (units + (if c as u32 >= 0x10000 {
                    2int
                } else {
                    1int
                })) as u32,
            )
        }),
{
    let content = head + seq![c] + tail;
    let more = head + seq![c];
    let nothing = Seq::<char>::empty();
    coordinates::lemma_line_bytes(t, line - 1);
    text::lemma_bytes_concat(more, tail);
    text::lemma_bytes_concat(head, seq![c]);
    text::lemma_bytes_concat(nothing, nothing);
    text::lemma_parts(nothing, nothing, content);
    text::lemma_parts(nothing, head, seq![c] + tail);
    text::lemma_parts(nothing, more, tail);
    assert(nothing + nothing + content =~= content);
    assert(nothing + nothing =~= nothing);
    assert(nothing + head + (seq![c] + tail) =~= content);
    assert(nothing + more + tail =~= content);
    assert(more.drop_last() =~= head);
    coordinates::lemma_utf16_length(more);
    coordinates::lemma_utf16_length(head);
}

} // verus!
