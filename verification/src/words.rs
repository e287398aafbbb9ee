//! Characters by class, and the texts that are made of them.

use crate::text;
use vstd::prelude::*;
use vstd::string::*;

verus! {

/// Whether Unicode gives a character the `White_Space` property.
pub uninterp spec fn whitespace(c: char) -> bool;

/// `char::is_whitespace`: a function of the character alone.
pub assume_specification[ char::is_whitespace ](c: char) -> (found: bool)
    ensures
        found == whitespace(c),
;

/// Whether Unicode gives a character the `Alphabetic` property.
pub uninterp spec fn alphabetic(c: char) -> bool;

/// `char::is_alphabetic`: a function of the character alone.
pub assume_specification[ char::is_alphabetic ](c: char) -> (found: bool)
    ensures
        found == alphabetic(c),
;

/// Whether a character is alphabetic or one of Unicode's numeric classes.
pub uninterp spec fn alphanumeric(c: char) -> bool;

/// `char::is_alphanumeric`: a function of the character alone.
pub assume_specification[ char::is_alphanumeric ](c: char) -> (found: bool)
    ensures
        found == alphanumeric(c),
;

/// A character that continues a word.
pub open spec fn word(c: char) -> bool {
    alphanumeric(c) || c == '_'
}

/// A valid identifier in the languages served: a letter or an underscore, then word characters.
pub open spec fn identifier(t: Seq<char>) -> bool {
    &&& t.len() > 0
    &&& alphabetic(t[0]) || t[0] == '_'
    &&& forall|i: int| 0 <= i < t.len() ==> word(#[trigger] t[i])
}

/// Whether a character continues a word.
pub fn is_word(c: char) -> (found: bool)
    ensures
        found == word(c),
{
    c.is_alphanumeric() || c == '_'
}

/// The characters of a text, one by one.
pub fn chars(text: &str) -> (out: Vec<char>)
    ensures
        out@ == text@,
{
    broadcast use {axiom_spec_iter, next_postcondition};

    let mut out: Vec<char> = Vec::new();
    for c in it: text.chars()
        invariant
            it.seq() == text@,
            out@ == text@.take(it.index() as int),
    {
        out.push(c);
    }
    out
}

/// Whether a text is a valid identifier in the languages served.
pub fn is_identifier(name: &str) -> (valid: bool)
    ensures
        valid == identifier(name@),
{
    let characters = chars(name);
    if characters.len() == 0 {
        return false;
    }
    if !(characters[0].is_alphabetic() || characters[0] == '_') {
        return false;
    }
    let mut i: usize = 0;
    while i < characters.len()
        invariant
            characters@ == name@,
            i <= characters.len(),
            forall|k: int| 0 <= k < i ==> word(#[trigger] name@[k]),
        decreases characters.len() - i,
    {
        if !is_word(characters[i]) {
            assert(!word(name@[i as int]));
            return false;
        }
        i += 1;
    }
    true
}

/// A text without its leading white space.
pub open spec fn trimmed_start(t: Seq<char>) -> Seq<char>
    decreases t.len(),
{
    if t.len() > 0 && whitespace(t[0]) {
        trimmed_start(t.drop_first())
    } else {
        t
    }
}

/// A text without its trailing white space.
pub open spec fn trimmed_end(t: Seq<char>) -> Seq<char>
    decreases t.len(),
{
    if t.len() > 0 && whitespace(t.last()) {
        trimmed_end(t.drop_last())
    } else {
        t
    }
}

/// A text without the white space around it.
pub open spec fn trimmed(t: Seq<char>) -> Seq<char> {
    trimmed_end(trimmed_start(t))
}

/// Whether a text is white space throughout.
pub open spec fn blank(t: Seq<char>) -> bool {
    forall|i: int| 0 <= i < t.len() ==> whitespace(#[trigger] t[i])
}

/// A text without its leading white space.
pub fn trim_start<'a>(text: &'a str) -> (rest: &'a str)
    ensures
        rest@ == trimmed_start(text@),
{
    let characters = chars(text);
    let mut from: usize = 0;
    assert(text@.skip(0) =~= text@);
    while from < characters.len() && characters[from].is_whitespace()
        invariant
            characters@ == text@,
            from <= characters.len(),
            trimmed_start(text@) == trimmed_start(text@.skip(from as int)),
        decreases characters.len() - from,
    {
        proof {
            assert(text@.skip(from as int).drop_first() =~= text@.skip(from + 1));
        }
        from += 1;
    }
    text.substring_char(from, characters.len())
}

/// A text without its trailing white space.
pub fn trim_end<'a>(text: &'a str) -> (rest: &'a str)
    ensures
        rest@ == trimmed_end(text@),
{
    let characters = chars(text);
    let mut to: usize = characters.len();
    assert(text@.take(to as int) =~= text@);
    while to > 0 && characters[to - 1].is_whitespace()
        invariant
            characters@ == text@,
            to <= characters.len(),
            trimmed_end(text@) == trimmed_end(text@.take(to as int)),
        decreases to,
    {
        proof {
            assert(text@.take(to as int).drop_last() =~= text@.take(to - 1));
        }
        to -= 1;
    }
    text.substring_char(0, to)
}

/// A text without the white space around it.
pub fn trim<'a>(text: &'a str) -> (rest: &'a str)
    ensures
        rest@ == trimmed(text@),
{
    trim_end(trim_start(text))
}

/// Whether a text is white space throughout.
pub fn is_blank(text: &str) -> (found: bool)
    ensures
        found == blank(text@),
{
    let characters = chars(text);
    let mut i: usize = 0;
    while i < characters.len()
        invariant
            characters@ == text@,
            i <= characters.len(),
            forall|k: int| 0 <= k < i ==> whitespace(#[trigger] text@[k]),
        decreases characters.len() - i,
    {
        if !characters[i].is_whitespace() {
            assert(!whitespace(text@[i as int]));
            return false;
        }
        i += 1;
    }
    true
}

/// A label without the parentheses that mark a callable.
pub open spec fn plain_name(label: Seq<char>) -> Seq<char>
    decreases label.len(),
{
    if text::ends(label, "()"@) && label.len() >= 2 {
        plain_name(label.take(label.len() - 2))
    } else {
        label
    }
}

/// A label without the parentheses that mark a callable.
pub fn trim_parentheses<'a>(label: &'a str) -> (name: &'a str)
    ensures
        name@ == plain_name(label@),
{
    proof {
        reveal_strlit("()");
    }
    let mut name: &'a str = label;
    loop
        invariant
            "()"@.len() == 2,
            plain_name(name@) == plain_name(label@),
        decreases name@.len(),
    {
        match text::strip_suffix(name, "()") {
            Some(rest) => {
                name = rest;
            },
            None => {
                return name;
            },
        }
    }
}

/// A decimal digit as a character.
pub open spec fn digit(n: nat) -> char {
    (('0' as u32) + n) as char
}

/// A number in decimal notation.
pub open spec fn decimal(n: nat) -> Seq<char>
    decreases n,
{
    if n < 10 {
        seq![digit(n)]
    } else {
        decimal(n / 10).push(digit(n % 10))
    }
}

/// A number in decimal notation is that number's alone, and holds nothing but digits.
pub proof fn lemma_decimal(n: nat, m: nat)
    ensures
        decimal(n) == decimal(m) ==> n == m,
        !decimal(n).contains(':'),
        !decimal(n).contains('@'),
        decimal(n).len() > 0,
    decreases n,
{
    if n >= 10 {
        lemma_decimal(n / 10, m / 10);
        assert(decimal(n).drop_last() =~= decimal(n / 10));
    }
    if m >= 10 {
        assert(decimal(m).drop_last() =~= decimal(m / 10));
    }
    assert forall|i: int| 0 <= i < decimal(n).len() implies decimal(n)[i] != ':' && decimal(n)[i]
        != '@' by {
        if n >= 10 && i < decimal(n / 10).len() {
            assert(decimal(n / 10)[i] == decimal(n)[i]);
            assert(decimal(n / 10).contains(decimal(n / 10)[i]));
        }
    }
    if decimal(n) == decimal(m) {
        lemma_decimal_length(m);
        assert(decimal(n).last() == digit(n % 10));
        assert(decimal(m).last() == digit(m % 10));
        if n >= 10 {
            lemma_decimal_length(n / 10);
            assert(m >= 10);
        } else if m >= 10 {
            lemma_decimal_length(m / 10);
            assert(false);
        }
    }
}

/// A number in decimal notation has a digit.
proof fn lemma_decimal_length(n: nat)
    ensures
        decimal(n).len() > 0,
    decreases n,
{
    if n >= 10 {
        lemma_decimal_length(n / 10);
    }
}

/// The text of one decimal digit.
fn digit_text(n: u64) -> (out: &'static str)
    requires
        n < 10,
    ensures
        out@ == seq![digit(n as nat)],
{
    proof {
        reveal_strlit("0");
        reveal_strlit("1");
        reveal_strlit("2");
        reveal_strlit("3");
        reveal_strlit("4");
        reveal_strlit("5");
        reveal_strlit("6");
        reveal_strlit("7");
        reveal_strlit("8");
        reveal_strlit("9");
    }
    if n == 0 {
        "0"
    } else if n == 1 {
        "1"
    } else if n == 2 {
        "2"
    } else if n == 3 {
        "3"
    } else if n == 4 {
        "4"
    } else if n == 5 {
        "5"
    } else if n == 6 {
        "6"
    } else if n == 7 {
        "7"
    } else if n == 8 {
        "8"
    } else {
        "9"
    }
}

/// A number in decimal notation.
pub fn number(n: u64) -> (out: String)
    ensures
        out@ == decimal(n as nat),
    decreases n,
{
    if n < 10 {
        digit_text(n).to_owned()
    } else {
        number(n / 10).concat(digit_text(n % 10))
    }
}

/// A hexadecimal digit as a character, in lower case.
pub open spec fn hex_digit(n: nat) -> char {
    if n < 10 {
        digit(n)
    } else {
        (('a' as u32) + (n - 10)) as char
    }
}

/// The lowest `width` hexadecimal digits of a number, leading zeros kept.
pub open spec fn hexadecimal(n: nat, width: nat) -> Seq<char>
    decreases width,
{
    if width == 0 {
        Seq::empty()
    } else {
        hexadecimal(n / 16, (width - 1) as nat).push(hex_digit(n % 16))
    }
}

/// The text of one hexadecimal digit.
fn hex_digit_text(n: u64) -> (out: &'static str)
    requires
        n < 16,
    ensures
        out@ == seq![hex_digit(n as nat)],
{
    proof {
        reveal_strlit("a");
        reveal_strlit("b");
        reveal_strlit("c");
        reveal_strlit("d");
        reveal_strlit("e");
        reveal_strlit("f");
    }
    if n < 10 {
        digit_text(n)
    } else if n == 10 {
        "a"
    } else if n == 11 {
        "b"
    } else if n == 12 {
        "c"
    } else if n == 13 {
        "d"
    } else if n == 14 {
        "e"
    } else {
        "f"
    }
}

/// The lowest `width` hexadecimal digits of a number, leading zeros kept.
pub fn hex(n: u64, width: u64) -> (out: String)
    ensures
        out@ == hexadecimal(n as nat, width as nat),
    decreases width,
{
    if width == 0 {
        String::new()
    } else {
        hex(n / 16, width - 1).concat(hex_digit_text(n % 16))
    }
}

/// Texts laid one after another with a separator between them.
pub open spec fn joined(parts: Seq<Seq<char>>, separator: Seq<char>) -> Seq<char>
    decreases parts.len(),
{
    if parts.len() == 0 {
        Seq::empty()
    } else if parts.len() == 1 {
        parts[0]
    } else {
        joined(parts.drop_last(), separator) + separator + parts.last()
    }
}

/// Texts laid one after another with a separator between them.
pub fn join(parts: &Vec<&str>, separator: &str) -> (out: String)
    ensures
        out@ == joined(text::views(parts@), separator@),
{
    if parts.len() == 0 {
        return String::new();
    }
    let mut out = parts[0].to_owned();
    let mut i: usize = 1;
    let ghost all = text::views(parts@);
    assert(all.take(1) =~= seq![parts@[0]@]);
    while i < parts.len()
        invariant
            1 <= i <= parts.len(),
            all == text::views(parts@),
            out@ == joined(all.take(i as int), separator@),
        decreases parts.len() - i,
    {
        out = out.concat(separator).concat(parts[i]);
        proof {
            assert(all.take(i + 1).drop_last() =~= all.take(i as int));
            assert(all.take(i + 1).last() == parts@[i as int]@);
        }
        i += 1;
    }
    assert(all.take(i as int) =~= all);
    out
}

/// A text between quotes, as `Debug` writes it.
pub uninterp spec fn quoted(t: Seq<char>) -> Seq<char>;

/// `str`'s `Debug` through `format!`: the text between double quotes, its special characters
/// escaped. Which characters are escaped, and how, is left unsaid; the result is a function of the
/// text alone.
#[verifier::external_body]
pub(crate) fn quote(text: &str) -> (out: String)
    ensures
        out@ == quoted(text@),
{
    format!("{text:?}")
}

} // verus!
