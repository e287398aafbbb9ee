//! Where a name occurs: as a word on a line, and as an identifier in the code of a file.
//!
//! A textual scan cannot tell `resolveTarget` the identifier from `resolveTarget` inside
//! `'call resolveTarget'`: the word boundaries are identical. The tokenizer can, and the
//! difference is an edit that corrupts a literal.

use crate::coordinates;
use crate::coordinates::PositionError;
use crate::fit;
use crate::parse;
use crate::parse::{Token, TokenKind};
use crate::plan::EditView;
use crate::text;
use crate::words;
use vstd::prelude::*;
use vstd::string::*;
use vstd::utf8::*;

verus! {

/// Whether nothing before an offset of a text continues a word.
pub open spec fn free_before(t: Seq<char>, start: int) -> bool {
    let head = text::slice(t, 0, start);
    head.len() == 0 || !words::word(head.last())
}

/// Whether nothing after an offset of a text continues a word.
pub open spec fn free_after(t: Seq<char>, end: int) -> bool {
    let tail = text::slice(t, end, text::bytes(t).len() as int);
    tail.len() == 0 || !words::word(tail[0])
}

/// Whether a name stands at an offset of a text as a word of its own.
pub open spec fn word_at(t: Seq<char>, name: Seq<char>, start: int) -> bool {
    free_before(t, start) && free_after(t, start + text::bytes(name).len())
}

/// The occurrences of a name as a word, from an offset on, after those already found, each as
/// its 1-based first and past-the-end byte column.
pub open spec fn words_from(t: Seq<char>, name: Seq<char>, from: int, found: Seq<(u32, u32)>) -> Seq<
    (u32, u32),
>
    decreases text::bytes(t).len() + 1 - from,
{
    match text::find_from(t, name, from) {
        None => found,
        Some(start) => if start < from || start > text::bytes(t).len() {
            found
        } else {
            let end = start + text::bytes(name).len();
            words_from(
                t,
                name,
                start + 1,
                if word_at(t, name, start) {
                    found.push(((start + 1) as u32, (end + 1) as u32))
                } else {
                    found
                },
            )
        },
    }
}

/// The occurrences of a name as a word on a 1-based line.
pub open spec fn on_line(source: Seq<char>, line: u32, name: Seq<char>) -> Seq<(u32, u32)> {
    let all = coordinates::lines(source);
    if 0 <= coordinates::index(line) < all.len() {
        words_from(
            coordinates::without_return(all[coordinates::index(line)]),
            name,
            0,
            Seq::empty(),
        )
    } else {
        Seq::empty()
    }
}

/// Whether nothing before an offset of a text continues a word.
fn is_free_before(t: &str, start: usize) -> (found: bool)
    requires
        text::sliceable(t@, 0, start as int),
    ensures
        found == free_before(t@, start as int),
{
    match text::get(t, 0, start) {
        Some(head) => {
            let characters = words::chars(head);
            if characters.len() == 0 {
                return true;
            }
            !words::is_word(characters[characters.len() - 1])
        },
        None => {
            assert(false);
            true
        },
    }
}

/// Whether nothing after an offset of a text continues a word.
fn is_free_after(t: &str, end: usize) -> (found: bool)
    requires
        text::sliceable(t@, end as int, text::bytes(t@).len() as int),
    ensures
        found == free_after(t@, end as int),
{
    match text::get(t, end, t.as_bytes().len()) {
        Some(tail) => {
            let characters = words::chars(tail);
            if characters.len() == 0 {
                return true;
            }
            !words::is_word(characters[0])
        },
        None => {
            assert(false);
            true
        },
    }
}

/// The occurrences of a name in a text as a word, each as its 1-based first and past-the-end byte
/// column.
pub fn words_in(t: &str, name: &str) -> (hits: Vec<(u32, u32)>)
    requires
        text::bytes(t@).len() < u32::MAX,
    ensures
        hits@ == words_from(t@, name@, 0, Seq::empty()),
{
    let mut hits: Vec<(u32, u32)> = Vec::new();
    proof {
        text::lemma_ends(t@);
    }
    let width: usize = name.as_bytes().len();
    let mut from: usize = 0;
    loop
        invariant
            from <= text::bytes(t@).len() + 1,
            text::bytes(t@).len() < u32::MAX,
            width == text::bytes(name@).len(),
            is_char_boundary(text::bytes(t@), 0),
            is_char_boundary(text::bytes(t@), text::bytes(t@).len() as int),
            words_from(t@, name@, 0, Seq::empty()) == words_from(t@, name@, from as int, hits@),
        decreases text::bytes(t@).len() + 1 - from,
    {
        match text::find(t, name, from) {
            Some(start) => {
                let end: usize = start + width;
                if is_free_before(t, start) && is_free_after(t, end) {
                    hits.push(((start + 1) as u32, (end + 1) as u32));
                }
                from = start + 1;
            },
            None => {
                return hits;
            },
        }
    }
}

/// Word-boundary occurrences of `name` on a 1-based line, as (start, end) byte columns.
pub fn occurrences_on_line(source: &str, line: u32, name: &str) -> (hits: Vec<(u32, u32)>)
    requires
        text::bytes(source@).len() < u32::MAX,
    ensures
        hits@ == on_line(source@, line, name@),
{
    let all = text::split_all(source, 10);
    if line == 0 || line as usize > all.len() {
        return Vec::new();
    }
    let at: usize = line as usize - 1;
    let t = coordinates::strip_return(all[at]);
    proof {
        coordinates::lemma_line_bytes(source@, at as int);
        assert(text::views(all@)[at as int] == coordinates::lines(source@)[at as int]);
    }
    words_in(t, name)
}

/// Where a `{...}` section of a Python f-string closes, from a byte on.
pub open spec fn f_string_close(
    b: Seq<u8>,
    at: int,
    depth: int,
    quote: Option<u8>,
    escaped: bool,
) -> Option<int>
    decreases b.len() - at,
{
    if at < 0 || at >= b.len() {
        None
    } else {
        match quote {
            Some(delimiter) => if escaped {
                f_string_close(b, at + 1, depth, quote, false)
            } else if b[at] == 92 {
                f_string_close(b, at + 1, depth, quote, true)
            } else if b[at] == delimiter {
                f_string_close(b, at + 1, depth, None, escaped)
            } else {
                f_string_close(b, at + 1, depth, quote, escaped)
            },
            None => if b[at] == 39 || b[at] == 34 {
                f_string_close(b, at + 1, depth, Some(b[at]), escaped)
            } else if b[at] == 123 {
                f_string_close(b, at + 1, depth + 1, quote, escaped)
            } else if b[at] == 125 {
                if depth - 1 == 0 {
                    Some(at)
                } else {
                    f_string_close(b, at + 1, depth - 1, quote, escaped)
                }
            } else {
                f_string_close(b, at + 1, depth, quote, escaped)
            },
        }
    }
}

/// The executable `{...}` sections of a Python f-string from a byte on, after those already
/// found; doubled braces stay literal text.
pub open spec fn f_string_sections_from(b: Seq<u8>, at: int, found: Seq<(int, int)>) -> Seq<
    (int, int),
>
    decreases b.len() + 1 - at,
{
    if at < 0 || at >= b.len() {
        found
    } else if b[at] != 123 {
        f_string_sections_from(b, at + 1, found)
    } else if at + 1 < b.len() && b[at + 1] == 123 {
        f_string_sections_from(b, at + 2, found)
    } else {
        match f_string_close(b, at + 1, 1, None, false) {
            Some(close) => if close <= at || close >= b.len() {
                found
            } else {
                f_string_sections_from(b, close + 1, found.push((at + 1, close)))
            },
            None => found,
        }
    }
}

/// Where a `${...}` section of a template literal closes, from a byte on: just past its `}`.
pub open spec fn template_close(b: Seq<u8>, at: int, braces: int) -> Option<int>
    decreases b.len() + 1 - at,
{
    if braces == 0 {
        Some(at)
    } else if at < 0 || at >= b.len() {
        None
    } else if b[at] == 123 {
        template_close(b, at + 1, braces + 1)
    } else if b[at] == 125 {
        template_close(b, at + 1, braces - 1)
    } else if b[at] == 92 {
        template_close(b, at + 2, braces)
    } else {
        template_close(b, at + 1, braces)
    }
}

/// The interiors of the balanced `${...}` sections of a template literal from a byte on, after
/// those already found.
pub open spec fn template_sections_from(b: Seq<u8>, at: int, found: Seq<(int, int)>) -> Seq<
    (int, int),
>
    decreases b.len() + 1 - at,
{
    if at < 0 || at + 1 >= b.len() {
        found
    } else if b[at] == 92 {
        template_sections_from(b, at + 2, found)
    } else if b[at] == 36 && b[at + 1] == 123 && template_close(b, at + 2, 1) is Some {
        let close = template_close(b, at + 2, 1)->0;
        if close <= at || close > b.len() {
            found
        } else {
            template_sections_from(b, close, found.push((at + 2, close - 1)))
        }
    } else {
        template_sections_from(b, at + 1, found)
    }
}

/// Byte ranges as mathematical values.
pub open spec fn ranges_view(ranges: Seq<(usize, usize)>) -> Seq<(int, int)> {
    Seq::new(ranges.len(), |i: int| (ranges[i].0 as int, ranges[i].1 as int))
}

/// Where a `{...}` section of a Python f-string closes, from a byte on.
fn find_f_string_close(b: &[u8], from: usize) -> (found: Option<usize>)
    requires
        1 <= from <= b@.len(),
    ensures
        match (found, f_string_close(b@, from as int, 1, None, false)) {
            (Some(close), Some(expected)) => close == expected && from <= close < b@.len(),
            (None, None) => true,
            _ => false,
        },
{
    let mut at: usize = from;
    let mut depth: usize = 1;
    let mut quote: Option<u8> = None;
    let mut escaped = false;
    while at < b.len()
        invariant
            1 <= from <= at <= b@.len(),
            1 <= depth <= at - from + 1,
            f_string_close(b@, from as int, 1, None, false) == f_string_close(
                b@,
                at as int,
                depth as int,
                quote,
                escaped,
            ),
        decreases b@.len() - at,
    {
        let byte: u8 = b[at];
        match quote {
            Some(delimiter) => {
                if escaped {
                    escaped = false;
                } else if byte == 92 {
                    escaped = true;
                } else if byte == delimiter {
                    quote = None;
                }
            },
            None => {
                if byte == 39 || byte == 34 {
                    quote = Some(byte);
                } else if byte == 123 {
                    depth += 1;
                } else if byte == 125 {
                    depth -= 1;
                    if depth == 0 {
                        return Some(at);
                    }
                }
            },
        }
        at += 1;
    }
    None
}

/// Executable `{...}` sections of a Python f-string; doubled braces stay literal text.
pub fn python_f_string_sections(t: &str) -> (sections: Vec<(usize, usize)>)
    ensures
        ranges_view(sections@) == f_string_sections_from(text::bytes(t@), 0, Seq::empty()),
        forall|i: int|
            0 <= i < sections@.len() ==> (#[trigger] sections@[i]).1 <= text::bytes(t@).len(),
{
    let b = t.as_bytes();
    let mut sections: Vec<(usize, usize)> = Vec::new();
    let mut at: usize = 0;
    assert(ranges_view(sections@) =~= Seq::empty());
    while at < b.len()
        invariant
            at <= b@.len() + 1,
            b@ == text::bytes(t@),
            forall|i: int| 0 <= i < sections@.len() ==> (#[trigger] sections@[i]).1 <= b@.len(),
            f_string_sections_from(b@, 0, Seq::empty()) == f_string_sections_from(
                b@,
                at as int,
                ranges_view(sections@),
            ),
        decreases b@.len() + 1 - at,
    {
        if b[at] != 123 {
            at += 1;
            continue ;
        }
        if b.len() - at > 1 && b[at + 1] == 123 {
            at += 2;
            continue ;
        }
        match find_f_string_close(b, at + 1) {
            Some(close) => {
                let section = (at + 1, close);
                assert(ranges_view(sections@.push(section)) =~= ranges_view(sections@).push(
                    (section.0 as int, section.1 as int),
                ));
                sections.push(section);
                at = close + 1;
            },
            None => {
                return sections;
            },
        }
    }
    sections
}

/// Where a `${...}` section of a template literal closes, from a byte on: just past its `}`.
fn find_template_close(b: &[u8], from: usize) -> (found: Option<usize>)
    requires
        1 <= from <= b@.len(),
    ensures
        match (found, template_close(b@, from as int, 1)) {
            (Some(close), Some(expected)) => close == expected && from < close <= b@.len(),
            (None, None) => true,
            _ => false,
        },
{
    let mut at: usize = from;
    let mut braces: usize = 1;
    while at < b.len()
        invariant
            1 <= from <= at <= b@.len(),
            1 <= braces <= at - from + 1,
            template_close(b@, from as int, 1) == template_close(b@, at as int, braces as int),
        decreases b@.len() - at,
    {
        let byte: u8 = b[at];
        if byte == 123 {
            braces += 1;
        } else if byte == 125 {
            braces -= 1;
            if braces == 0 {
                assert(template_close(b@, at + 1, 0) == Some(at + 1));
                return Some(at + 1);
            }
        } else if byte == 92 {
            if b.len() - at < 2 {
                assert(template_close(b@, at + 2, braces as int) is None);
                return None;
            }
            at += 1;
        }
        at += 1;
    }
    None
}

/// The interiors of every balanced `${...}` in a template literal's text.
pub fn interpolation_sections(t: &str) -> (sections: Vec<(usize, usize)>)
    ensures
        ranges_view(sections@) == template_sections_from(text::bytes(t@), 0, Seq::empty()),
        forall|i: int|
            0 <= i < sections@.len() ==> (#[trigger] sections@[i]).1 <= text::bytes(t@).len(),
{
    let b = t.as_bytes();
    let mut sections: Vec<(usize, usize)> = Vec::new();
    let mut at: usize = 0;
    assert(ranges_view(sections@) =~= Seq::empty());
    while at < b.len() && b.len() - at > 1
        invariant
            at <= b@.len() + 1,
            b@ == text::bytes(t@),
            forall|i: int| 0 <= i < sections@.len() ==> (#[trigger] sections@[i]).1 <= b@.len(),
            template_sections_from(b@, 0, Seq::empty()) == template_sections_from(
                b@,
                at as int,
                ranges_view(sections@),
            ),
        decreases b@.len() + 1 - at,
    {
        if b[at] == 92 {
            at += 2;
            continue ;
        }
        if b[at] == 36 && b[at + 1] == 123 {
            match find_template_close(b, at + 2) {
                Some(close) => {
                    let section = (at + 2, (close - 1) as usize);
                    assert(ranges_view(sections@.push(section)) =~= ranges_view(sections@).push(
                        (section.0 as int, section.1 as int),
                    ));
                    sections.push(section);
                    at = close;
                    continue ;
                },
                None => {},
            }
        }
        at += 1;
    }
    sections
}

/// A letter of a Python string prefix, in either case.
pub open spec fn prefix_letter(c: char) -> bool {
    c == 'f' || c == 'F' || c == 'r' || c == 'R' || c == 'b' || c == 'B' || c == 'u' || c == 'U'
}

/// Whether a text is a Python string prefix that makes an f-string.
pub open spec fn f_prefix(t: Seq<char>) -> bool {
    &&& t.contains('f') || t.contains('F')
    &&& forall|i: int| 0 <= i < t.len() ==> prefix_letter(#[trigger] t[i])
}

/// Whether the token before one is the prefix that makes it an f-string.
pub open spec fn after_f_prefix(tokens: Seq<Token>, at: int, source: Seq<char>) -> bool {
    &&& at > 0
    &&& tokens[at - 1].end == tokens[at].start
    &&& tokens[at - 1].kind is Identifier
    &&& f_prefix(parse::token_text(source, tokens[at - 1]))
}

/// Whether a text is a Python string prefix that makes an f-string.
fn is_f_prefix(t: &str) -> (found: bool)
    ensures
        found == f_prefix(t@),
{
    let characters = words::chars(t);
    let mut formats = false;
    let mut i: usize = 0;
    while i < characters.len()
        invariant
            characters@ == t@,
            i <= characters@.len(),
            formats <==> exists|k: int| 0 <= k < i && (t@[k] == 'f' || t@[k] == 'F'),
            forall|k: int| 0 <= k < i ==> prefix_letter(#[trigger] t@[k]),
        decreases characters@.len() - i,
    {
        let c = characters[i];
        if c == 'f' || c == 'F' {
            formats = true;
        } else if !(c == 'r' || c == 'R' || c == 'b' || c == 'B' || c == 'u' || c == 'U') {
            assert(!prefix_letter(t@[i as int]));
            return false;
        }
        i += 1;
    }
    proof {
        if formats {
            let k = choose|k: int| 0 <= k < i && (t@[k] == 'f' || t@[k] == 'F');
            assert(t@.contains(t@[k]));
        }
        if t@.contains('f') {
            let k = choose|k: int| 0 <= k < t@.len() && t@[k] == 'f';
        }
        if t@.contains('F') {
            let k = choose|k: int| 0 <= k < t@.len() && t@[k] == 'F';
        }
    }
    formats
}

/// Whether the token before one is the prefix that makes it an f-string.
fn python_f_string_prefix(tokens: &Vec<Token>, at: usize, source: &str) -> (found: bool)
    requires
        at < tokens@.len(),
    ensures
        found == after_f_prefix(tokens@, at as int, source@),
{
    if at == 0 {
        return false;
    }
    let before = tokens[at - 1];
    before.end == tokens[at].start && before.kind == TokenKind::Identifier && is_f_prefix(
        before.text(source),
    )
}

/// The sections of a string token that are code.
pub open spec fn code_sections(
    source: Seq<char>,
    tokens: Seq<Token>,
    at: int,
    language: weavatrix_parse::Language,
) -> Seq<(int, int)> {
    let t = parse::token_text(source, tokens[at]);
    if tokens[at].kind is Interpolation || text::begins(t, "`"@) {
        template_sections_from(text::bytes(t), 0, Seq::empty())
    } else if parse::name_of(language) == "Python"@ && after_f_prefix(tokens, at, source) {
        f_string_sections_from(text::bytes(t), 0, Seq::empty())
    } else {
        Seq::empty()
    }
}

/// How deep templates are followed into their interpolations.
pub const MAX_DEPTH: u8 = 4;

/// The byte ranges where a text has a name as an identifier, its first byte counted as `base`.
pub open spec fn identifiers(
    t: Seq<char>,
    base: int,
    language: weavatrix_parse::Language,
    name: Seq<char>,
    depth: int,
) -> Seq<(int, int)>
    decreases MAX_DEPTH + 1 - depth, 3int, 0int,
{
    if depth < 0 || depth > MAX_DEPTH {
        Seq::empty()
    } else {
        let tokens = parse::tokens_of(t, language);
        token_identifiers(t, base, language, name, depth, tokens, tokens.len() as int)
    }
}

/// The byte ranges where the first tokens of a text have a name as an identifier.
pub open spec fn token_identifiers(
    t: Seq<char>,
    base: int,
    language: weavatrix_parse::Language,
    name: Seq<char>,
    depth: int,
    tokens: Seq<Token>,
    count: int,
) -> Seq<(int, int)>
    decreases MAX_DEPTH + 1 - depth, 2int, count,
{
    if depth < 0 || depth > MAX_DEPTH || count <= 0 {
        Seq::empty()
    } else {
        let before = token_identifiers(t, base, language, name, depth, tokens, count - 1);
        let token = tokens[count - 1];
        if token.kind is Identifier {
            if parse::token_text(t, token) == name {
                before.push((base + token.start, base + token.end))
            } else {
                before
            }
        } else if token.kind is String || token.kind is Interpolation {
            let sections = code_sections(t, tokens, count - 1, language);
            before + section_identifiers(
                parse::token_text(t, token),
                base + token.start,
                language,
                name,
                depth,
                sections,
                sections.len() as int,
            )
        } else {
            before
        }
    }
}

/// The byte ranges where the first sections of a string have a name as an identifier.
pub open spec fn section_identifiers(
    t: Seq<char>,
    base: int,
    language: weavatrix_parse::Language,
    name: Seq<char>,
    depth: int,
    sections: Seq<(int, int)>,
    count: int,
) -> Seq<(int, int)>
    decreases MAX_DEPTH + 1 - depth, 1int, count,
{
    if depth < 0 || depth > MAX_DEPTH || count <= 0 {
        Seq::empty()
    } else {
        let before = section_identifiers(t, base, language, name, depth, sections, count - 1);
        let (from, to) = sections[count - 1];
        if text::sliceable(t, from, to) {
            before + identifiers(text::slice(t, from, to), base + from, language, name, depth + 1)
        } else {
            before
        }
    }
}

/// Appends the byte ranges where the sections of a string have a name as an identifier.
fn add_sections(
    t: &str,
    base: usize,
    language: weavatrix_parse::Language,
    name: &str,
    out: &mut Vec<(usize, usize)>,
    depth: u8,
    sections: &Vec<(usize, usize)>,
    Ghost(limit): Ghost<int>,
)
    requires
        name@.len() > 0,
        depth <= MAX_DEPTH,
        base + text::bytes(t@).len() <= limit < u32::MAX,
        forall|i: int| 0 <= i < old(out)@.len() ==> (#[trigger] old(out)@[i]).0 <= old(out)@[i].1
            <= limit,
    ensures
        ranges_view(final(out)@) == ranges_view(old(out)@) + section_identifiers(
            t@,
            base as int,
            language,
            name@,
            depth as int,
            ranges_view(sections@),
            sections@.len() as int,
        ),
        forall|i: int| 0 <= i < final(out)@.len() ==> (#[trigger] final(out)@[i]).0
            <= final(out)@[i].1 <= limit,
    decreases MAX_DEPTH + 1 - depth, 1int, 0int,
{
    let ghost all = ranges_view(sections@);
    let ghost start = ranges_view(out@);
    let mut i: usize = 0;
    assert(start + section_identifiers(
        t@,
        base as int,
        language,
        name@,
        depth as int,
        all,
        0,
    ) =~= start);
    while i < sections.len()
        invariant
            i <= sections@.len(),
            all == ranges_view(sections@),
            name@.len() > 0,
            depth <= MAX_DEPTH,
            base + text::bytes(t@).len() <= limit < u32::MAX,
            forall|k: int| 0 <= k < out@.len() ==> (#[trigger] out@[k]).0 <= out@[k].1 <= limit,
            ranges_view(out@) == start + section_identifiers(
                t@,
                base as int,
                language,
                name@,
                depth as int,
                all,
                i as int,
            ),
        decreases sections@.len() - i,
    {
        let (from, to) = sections[i];
        let ghost before = section_identifiers(
            t@,
            base as int,
            language,
            name@,
            depth as int,
            all,
            i as int,
        );
        assert(all[i as int] == (from as int, to as int));
        match text::get(t, from, to) {
            Some(inner) => {
                proof {
                    text::lemma_cut(t@, from as int, to as int);
                }
                let ghost next = identifiers(
                    inner@,
                    base + from,
                    language,
                    name@,
                    depth + 1,
                );
                identifier_offsets(inner, base + from, language, name, out, depth + 1, Ghost(limit));
                assert(start + before + next =~= start + (before + next));
            },
            None => {},
        }
        i += 1;
    }
}

/// Appends the byte offsets of `name` wherever the tokenizer proves it is an identifier.
///
/// The expression inside a template interpolation is code: `` `/${resolveTarget(x)}` `` calls the
/// function as surely as a bare call does. But the tokenizer emits the whole template,
/// interpolations and all, as one string token. So template tokens are searched for balanced
/// `${...}` sections and each interior is re-tokenized recursively, while every other string
/// stays prose. Depth-limited because templates can nest.
fn identifier_offsets(
    t: &str,
    base: usize,
    language: weavatrix_parse::Language,
    name: &str,
    out: &mut Vec<(usize, usize)>,
    depth: u8,
    Ghost(limit): Ghost<int>,
)
    requires
        name@.len() > 0,
        depth <= MAX_DEPTH + 1,
        base + text::bytes(t@).len() <= limit < u32::MAX,
        forall|i: int| 0 <= i < old(out)@.len() ==> (#[trigger] old(out)@[i]).0 <= old(out)@[i].1
            <= limit,
    ensures
        ranges_view(final(out)@) == ranges_view(old(out)@) + identifiers(
            t@,
            base as int,
            language,
            name@,
            depth as int,
        ),
        forall|i: int| 0 <= i < final(out)@.len() ==> (#[trigger] final(out)@[i]).0
            <= final(out)@[i].1 <= limit,
    decreases MAX_DEPTH + 1 - depth, 3int, 0int,
{
    if depth > MAX_DEPTH {
        assert(ranges_view(out@) + Seq::<(int, int)>::empty() =~= ranges_view(out@));
        return ;
    }
    let tokens = parse::tokenize(t, language);
    let ghost start = ranges_view(out@);
    let mut i: usize = 0;
    assert(start + token_identifiers(
        t@,
        base as int,
        language,
        name@,
        depth as int,
        tokens@,
        0,
    ) =~= start);
    while i < tokens.len()
        invariant
            i <= tokens@.len(),
            name@.len() > 0,
            depth <= MAX_DEPTH,
            base + text::bytes(t@).len() <= limit < u32::MAX,
            forall|k: int| 0 <= k < out@.len() ==> (#[trigger] out@[k]).0 <= out@[k].1 <= limit,
            ranges_view(out@) == start + token_identifiers(
                t@,
                base as int,
                language,
                name@,
                depth as int,
                tokens@,
                i as int,
            ),
        decreases tokens@.len() - i,
    {
        let token = tokens[i];
        let found = token.text(t);
        let ghost before = token_identifiers(
            t@,
            base as int,
            language,
            name@,
            depth as int,
            tokens@,
            i as int,
        );
        if token.kind == TokenKind::Identifier {
            if text::same(found, name) {
                let range = (base + token.start, base + token.end);
                assert(ranges_view(out@.push(range)) =~= ranges_view(out@).push(
                    (range.0 as int, range.1 as int),
                ));
                assert((start + before).push((range.0 as int, range.1 as int)) =~= start
                    + before.push((range.0 as int, range.1 as int)));
                out.push(range);
            }
        } else if token.kind == TokenKind::String || token.kind == TokenKind::Interpolation {
            let sections = if token.kind == TokenKind::Interpolation || text::starts_with(
                found,
                "`",
            ) {
                interpolation_sections(found)
            } else if text::same(parse::language_name(language).as_str(), "Python")
                && python_f_string_prefix(&tokens, i, t) {
                python_f_string_sections(found)
            } else {
                Vec::new()
            };
            assert(ranges_view(sections@) =~= code_sections(t@, tokens@, i as int, language));
            let ghost next = section_identifiers(
                found@,
                base + token.start,
                language,
                name@,
                depth as int,
                ranges_view(sections@),
                sections@.len() as int,
            );
            if text::get(t, token.start, token.end).is_some() {
                proof {
                    text::lemma_cut(t@, token.start as int, token.end as int);
                }
                add_sections(
                    found,
                    base + token.start,
                    language,
                    name,
                    out,
                    depth,
                    &sections,
                    Ghost(limit),
                );
                assert(start + before + next =~= start + (before + next));
            } else {
                proof {
                    assert(text::bytes(Seq::<char>::empty()) =~= Seq::<u8>::empty());
                    assert(found@ =~= Seq::<char>::empty());
                    assert(sections@.len() == 0);
                    assert(start + before + Seq::<(int, int)>::empty() =~= start + before);
                    assert(before + Seq::<(int, int)>::empty() =~= before);
                }
            }
        }
        i += 1;
    }
}

/// An identifier: its 1-based line, and its first and past-the-end 1-based byte columns.
pub open spec fn place_of(source: Seq<char>, range: (int, int)) -> (u32, u32, u32) {
    let head = text::bytes(source).subrange(0, range.0);
    let begin = coordinates::line_begin(head);
    (
        (coordinates::newlines(head) + 1) as u32,
        (range.0 - begin + 1) as u32,
        (range.1 - begin + 1) as u32,
    )
}

/// The places of byte ranges.
pub open spec fn places_of(source: Seq<char>, ranges: Seq<(int, int)>) -> Seq<(u32, u32, u32)> {
    Seq::new(ranges.len(), |i: int| place_of(source, ranges[i]))
}

/// The places where a file has a name as an identifier, where its language is known.
pub open spec fn identifier_places(source: Seq<char>, path: Seq<char>, name: Seq<char>) -> Option<
    Seq<(u32, u32, u32)>,
> {
    match parse::path_language(path) {
        Some(language) => Some(places_of(source, identifiers(source, 0, language, name, 0))),
        None => None,
    }
}

/// The columns of the places on a line.
pub open spec fn columns_on(places: Seq<(u32, u32, u32)>, line: u32) -> Seq<(u32, u32)>
    decreases places.len(),
{
    if places.len() == 0 {
        Seq::empty()
    } else if places.last().0 == line {
        columns_on(places.drop_last(), line).push((places.last().1, places.last().2))
    } else {
        columns_on(places.drop_last(), line)
    }
}

/// The place of a byte range.
pub(crate) fn place(source: &str, start: usize, end: usize) -> (found: (u32, u32, u32))
    requires
        text::bytes(source@).len() < u32::MAX,
        start <= end <= text::bytes(source@).len(),
    ensures
        found == place_of(source@, (start as int, end as int)),
{
    let encoded = source.as_bytes();
    let mut line: u32 = 1;
    let mut begin: usize = 0;
    let mut i: usize = 0;
    while i < start
        invariant
            i <= start <= encoded@.len(),
            encoded@.len() < u32::MAX,
            line == coordinates::newlines(encoded@.subrange(0, i as int)) + 1,
            begin == coordinates::line_begin(encoded@.subrange(0, i as int)),
        decreases start - i,
    {
        proof {
            assert(encoded@.subrange(0, i + 1).drop_last() =~= encoded@.subrange(0, i as int));
            coordinates::lemma_newlines(encoded@.subrange(0, i as int));
        }
        if encoded[i] == 10 {
            line += 1;
            begin = i + 1;
        }
        i += 1;
    }
    proof {
        coordinates::lemma_newlines(encoded@.subrange(0, start as int));
    }
    (line, (start - begin + 1) as u32, (end - begin + 1) as u32)
}

/// Occurrences of `name` the tokenizer proves are identifiers, by line and byte columns.
///
/// `None` when the file's language is unknown; the caller then falls back to the textual scan.
pub fn identifier_occurrences(source: &str, path: &str, name: &str) -> (found: Option<
    Vec<(u32, u32, u32)>,
>)
    requires
        text::bytes(source@).len() < u32::MAX,
        name@.len() > 0,
    ensures
        match (found, identifier_places(source@, path@, name@)) {
            (Some(places), Some(expected)) => places@ == expected,
            (None, None) => true,
            _ => false,
        },
{
    let language = match parse::language_at(path) {
        Some(language) => language,
        None => {
            return None;
        },
    };
    let mut offsets: Vec<(usize, usize)> = Vec::new();
    let ghost limit = text::bytes(source@).len() as int;
    assert(ranges_view(offsets@) =~= Seq::empty());
    identifier_offsets(source, 0, language, name, &mut offsets, 0, Ghost(limit));
    let ghost ranges = identifiers(source@, 0, language, name@, 0);
    assert(ranges_view(offsets@) =~= ranges);
    let mut places: Vec<(u32, u32, u32)> = Vec::new();
    let mut i: usize = 0;
    while i < offsets.len()
        invariant
            i <= offsets@.len(),
            limit == text::bytes(source@).len(),
            limit < u32::MAX,
            ranges == ranges_view(offsets@),
            forall|k: int|
                0 <= k < offsets@.len() ==> (#[trigger] offsets@[k]).0 <= offsets@[k].1 <= limit,
            places@ == places_of(source@, ranges).take(i as int),
        decreases offsets@.len() - i,
    {
        let (start, end) = offsets[i];
        let found = place(source, start, end);
        proof {
            assert(ranges[i as int] == (start as int, end as int));
            assert(places@.push(found) =~= places_of(source@, ranges).take(i + 1));
        }
        places.push(found);
        i += 1;
    }
    assert(places@ =~= places_of(source@, ranges));
    Some(places)
}

/// The columns of the places on a line.
pub fn on_one_line(places: &Vec<(u32, u32, u32)>, line: u32) -> (columns: Vec<(u32, u32)>)
    ensures
        columns@ == columns_on(places@, line),
{
    let mut columns: Vec<(u32, u32)> = Vec::new();
    let mut i: usize = 0;
    while i < places.len()
        invariant
            i <= places@.len(),
            columns@ == columns_on(places@.take(i as int), line),
        decreases places@.len() - i,
    {
        assert(places@.take(i + 1).drop_last() =~= places@.take(i as int));
        let (at, start, end) = places[i];
        if at == line {
            columns.push((start, end));
        }
        i += 1;
    }
    assert(places@.take(i as int) =~= places@);
    columns
}

/// Whether a name stands at a byte offset of a text as a word of its own.
pub open spec fn stands_at(t: Seq<char>, name: Seq<char>, start: int) -> bool {
    text::matches_at(t, name, start) && word_at(t, name, start)
}

/// The columns of a name at a byte offset.
pub open spec fn columns_at(name: Seq<char>, start: int) -> (u32, u32) {
    ((start + 1) as u32, (start + text::bytes(name).len() + 1) as u32)
}

/// Whether columns are those of a name that stands as a word from an offset on.
spec fn stand_from(t: Seq<char>, name: Seq<char>, from: int, columns: (u32, u32)) -> bool {
    exists|start: int|
        from <= start && #[trigger] stands_at(t, name, start) && columns == columns_at(name, start)
}

/// What a scan from an offset on adds: the columns of each word from there on, and nothing else.
proof fn lemma_words_from(t: Seq<char>, name: Seq<char>, from: int, found: Seq<(u32, u32)>)
    ensures
        ({
            let all = words_from(t, name, from, found);
            &&& found.len() <= all.len()
            &&& forall|i: int| 0 <= i < found.len() ==> #[trigger] all[i] == found[i]
            &&& forall|i: int|
                found.len() <= i < all.len() ==> stand_from(t, name, from, #[trigger] all[i])
            &&& forall|start: int|
                from <= start && #[trigger] stands_at(t, name, start) ==> all.contains(
                    columns_at(name, start),
                )
        }),
    decreases text::bytes(t).len() + 1 - from,
{
    text::lemma_find_from(t, name, from);
    let all = words_from(t, name, from, found);
    match text::find_from(t, name, from) {
        None => {
            assert forall|start: int| from <= start && #[trigger] stands_at(t, name, start) implies
                all.contains(columns_at(name, start)) by {
                assert(!text::matches_at(t, name, start));
            }
        },
        Some(first) => {
            let next = if word_at(t, name, first) {
                found.push(columns_at(name, first))
            } else {
                found
            };
            lemma_words_from(t, name, first + 1, next);
            assert(all == words_from(t, name, first + 1, next));
            assert forall|i: int| 0 <= i < found.len() implies #[trigger] all[i] == found[i] by {
                assert(all[i] == next[i]);
            }
            assert forall|i: int| found.len() <= i < all.len() implies stand_from(
                t,
                name,
                from,
                #[trigger] all[i],
            ) by {
                if i < next.len() {
                    assert(all[i] == next[i]);
                    assert(stands_at(t, name, first));
                } else {
                    assert(stand_from(t, name, first + 1, all[i]));
                }
            }
            assert forall|start: int| from <= start && #[trigger] stands_at(t, name, start) implies
                all.contains(columns_at(name, start)) by {
                if start < first {
                    assert(!text::matches_at(t, name, start));
                } else if start == first {
                    assert(all[found.len() as int] == next[found.len() as int]);
                }
            }
        },
    }
}

/// A name is found on a line exactly where it stands as a word of its own: no part of a longer
/// word is taken for it, and no word is passed over.
pub proof fn law_words_are_found_where_they_stand(t: Seq<char>, name: Seq<char>, columns: (u32, u32))
    ensures
        words_from(t, name, 0, Seq::empty()).contains(columns) <==> exists|start: int|
            #[trigger] stands_at(t, name, start) && columns == columns_at(name, start),
{
    let all = words_from(t, name, 0, Seq::empty());
    lemma_words_from(t, name, 0, Seq::empty());
    if all.contains(columns) {
        let i = choose|i: int| 0 <= i < all.len() && all[i] == columns;
        assert(stand_from(t, name, 0, all[i]));
    }
    if exists|start: int| #[trigger] stands_at(t, name, start) && columns == columns_at(name, start) {
        let start = choose|start: int|
            #[trigger] stands_at(t, name, start) && columns == columns_at(name, start);
        assert(0 <= start);
    }
}

/// Whether every range reads as a name in a text whose first byte is counted as `base`.
pub open spec fn all_read(ranges: Seq<(int, int)>, t: Seq<char>, base: int, name: Seq<char>) -> bool {
    forall|i: int|
        0 <= i < ranges.len() ==> text::sliceable(
            t,
            (#[trigger] ranges[i]).0 - base,
            ranges[i].1 - base,
        ) && text::slice(t, ranges[i].0 - base, ranges[i].1 - base) == name
}

/// Every identifier that is found reads as the name, where the name is not empty.
proof fn lemma_identifiers_read(
    t: Seq<char>,
    base: int,
    language: weavatrix_parse::Language,
    name: Seq<char>,
    depth: int,
)
    requires
        name.len() > 0,
    ensures
        all_read(identifiers(t, base, language, name, depth), t, base, name),
    decreases MAX_DEPTH + 1 - depth, 3int, 0int,
{
    if 0 <= depth <= MAX_DEPTH {
        let tokens = parse::tokens_of(t, language);
        lemma_tokens_read(t, base, language, name, depth, tokens, tokens.len() as int);
    }
}

/// Every identifier in the first tokens reads as the name.
proof fn lemma_tokens_read(
    t: Seq<char>,
    base: int,
    language: weavatrix_parse::Language,
    name: Seq<char>,
    depth: int,
    tokens: Seq<Token>,
    count: int,
)
    requires
        name.len() > 0,
    ensures
        all_read(token_identifiers(t, base, language, name, depth, tokens, count), t, base, name),
    decreases MAX_DEPTH + 1 - depth, 2int, count,
{
    if 0 <= depth <= MAX_DEPTH && count > 0 {
        lemma_tokens_read(t, base, language, name, depth, tokens, count - 1);
        let before = token_identifiers(t, base, language, name, depth, tokens, count - 1);
        let all = token_identifiers(t, base, language, name, depth, tokens, count);
        let token = tokens[count - 1];
        let found = parse::token_text(t, token);
        if token.kind is String || token.kind is Interpolation {
            let sections = code_sections(t, tokens, count - 1, language);
            let more = section_identifiers(
                found,
                base + token.start,
                language,
                name,
                depth,
                sections,
                sections.len() as int,
            );
            lemma_sections_read(
                found,
                base + token.start,
                language,
                name,
                depth,
                sections,
                sections.len() as int,
            );
            assert(all == before + more);
            assert forall|i: int| 0 <= i < all.len() implies text::sliceable(
                t,
                (#[trigger] all[i]).0 - base,
                all[i].1 - base,
            ) && text::slice(t, all[i].0 - base, all[i].1 - base) == name by {
                if i < before.len() {
                    assert(all[i] == before[i]);
                } else {
                    let range = more[i - before.len()];
                    assert(all[i] == range);
                    let start = range.0 - (base + token.start);
                    let end = range.1 - (base + token.start);
                    assert(text::sliceable(found, start, end));
                    if text::sliceable(t, token.start as int, token.end as int) {
                        text::lemma_slice_within(
                            t,
                            token.start as int,
                            token.end as int,
                            start,
                            end,
                        );
                    } else {
                        // A token that is no range of the text has no text to hold the name.
                        lemma_empty_slice(found, start, end);
                    }
                }
            }
        } else if token.kind is Identifier && found == name {
            assert forall|i: int| 0 <= i < all.len() implies text::sliceable(
                t,
                (#[trigger] all[i]).0 - base,
                all[i].1 - base,
            ) && text::slice(t, all[i].0 - base, all[i].1 - base) == name by {
                if i < before.len() {
                    assert(all[i] == before[i]);
                }
            }
        }
    }
}

/// A slice of an empty text is empty.
proof fn lemma_empty_slice(t: Seq<char>, start: int, end: int)
    requires
        t.len() == 0,
        text::sliceable(t, start, end),
    ensures
        text::slice(t, start, end).len() == 0,
{
    text::lemma_cut(t, start, end);
    assert(t.len() == text::slice(t, 0, start).len() + text::slice(t, start, end).len()
        + text::slice(t, end, text::bytes(t).len() as int).len());
}

/// Every identifier in the first sections of a string reads as the name.
proof fn lemma_sections_read(
    t: Seq<char>,
    base: int,
    language: weavatrix_parse::Language,
    name: Seq<char>,
    depth: int,
    sections: Seq<(int, int)>,
    count: int,
)
    requires
        name.len() > 0,
    ensures
        all_read(
            section_identifiers(t, base, language, name, depth, sections, count),
            t,
            base,
            name,
        ),
    decreases MAX_DEPTH + 1 - depth, 1int, count,
{
    if 0 <= depth <= MAX_DEPTH && count > 0 {
        lemma_sections_read(t, base, language, name, depth, sections, count - 1);
        let before = section_identifiers(t, base, language, name, depth, sections, count - 1);
        let all = section_identifiers(t, base, language, name, depth, sections, count);
        let (from, to) = sections[count - 1];
        if text::sliceable(t, from, to) {
            let inner = text::slice(t, from, to);
            let more = identifiers(inner, base + from, language, name, depth + 1);
            lemma_identifiers_read(inner, base + from, language, name, depth + 1);
            assert(all == before + more);
            assert forall|i: int| 0 <= i < all.len() implies text::sliceable(
                t,
                (#[trigger] all[i]).0 - base,
                all[i].1 - base,
            ) && text::slice(t, all[i].0 - base, all[i].1 - base) == name by {
                if i < before.len() {
                    assert(all[i] == before[i]);
                } else {
                    let range = more[i - before.len()];
                    assert(all[i] == range);
                    text::lemma_slice_within(
                        t,
                        from,
                        to,
                        range.0 - (base + from),
                        range.1 - (base + from),
                    );
                }
            }
        }
    }
}

/// Every identifier that is found in a source, in its code or in the interpolations of its
/// templates, reads as the name.
pub proof fn law_identifiers_read_as_the_name(
    source: Seq<char>,
    language: weavatrix_parse::Language,
    name: Seq<char>,
    at: int,
)
    requires
        name.len() > 0,
        0 <= at < identifiers(source, 0, language, name, 0).len(),
    ensures
        ({
            let (start, end) = identifiers(source, 0, language, name, 0)[at];
            text::sliceable(source, start, end) && text::slice(source, start, end) == name
        }),
{
    lemma_identifiers_read(source, 0, language, name, 0);
    let range = identifiers(source, 0, language, name, 0)[at];
    assert(range.0 - 0 == range.0 && range.1 - 0 == range.1);
}

/// An edit of a byte range, by its place, stands where it replaces what the range holds.
pub proof fn lemma_place_stands(source: Seq<char>, range: (int, int), edit: EditView)
    requires
        text::bytes(source).len() < u32::MAX,
        text::sliceable(source, range.0, range.1),
        ({
            let (line, start, end) = place_of(source, range);
            &&& edit.start_line == line
            &&& edit.end_line == line
            &&& coordinates::converted(source, line, start) == Ok::<u32, PositionError>(
                edit.start_char,
            )
            &&& coordinates::converted(source, line, end) == Ok::<u32, PositionError>(
                edit.end_char,
            )
        }),
        edit.before == text::slice(source, range.0, range.1),
    ensures
        fit::stands(source, edit),
{
    let (line, start, end) = place_of(source, range);
    let head = text::bytes(source).subrange(0, range.0);
    coordinates::lemma_newlines(head);
    coordinates::law_a_position_leads_back(source, range.0);
    coordinates::law_both_conversions_take_the_same_positions(source, line, end);
    assert(fit::named_by(source, line, edit.start_char, range.0, start));
    assert(fit::named_by(source, line, edit.end_char, range.1, end));
    assert(fit::stands_at(source, edit, range.0, range.1));
}

} // verus!
