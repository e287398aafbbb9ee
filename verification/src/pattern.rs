//! Patterns: compiling them, and finding where they match.

use crate::text;
use crate::words;
use vstd::prelude::*;
use vstd::string::*;

verus! {

/// A compiled pattern, opaque here.
#[verifier::external_type_specification]
#[verifier::external_body]
pub struct ExRegex(regex::Regex);

/// What a pattern is compiled from.
#[verifier::ext_equal]
pub struct PatternView {
    pub source: Seq<char>,
    pub ignore_case: bool,
    pub multi_line: bool,
    pub dot_all: bool,
}

/// One match: its bytes in the text, and what a template becomes there.
#[derive(Debug)]
pub struct Match {
    pub start: usize,
    pub end: usize,
    pub after: String,
}

/// A match as a mathematical value.
pub struct MatchView {
    pub start: int,
    pub end: int,
    pub after: Seq<char>,
}

impl Match {
    /// The match without its representation.
    pub open spec fn view(self) -> MatchView {
        MatchView { start: self.start as int, end: self.end as int, after: self.after@ }
    }
}

/// Matches without their representation.
pub open spec fn match_views(matches: Seq<Match>) -> Seq<MatchView> {
    Seq::new(matches.len(), |i: int| matches[i].view())
}

/// A text with every dollar written twice.
pub open spec fn doubled(t: Seq<char>) -> Seq<char>
    decreases t.len(),
{
    if t.len() == 0 {
        Seq::empty()
    } else if t.last() == '$' {
        doubled(t.drop_last()).push('$').push('$')
    } else {
        doubled(t.drop_last()).push(t.last())
    }
}

/// A text with every meta character of a pattern escaped.
pub uninterp spec fn escaped(t: Seq<char>) -> Seq<char>;

/// `regex::escape`: a function of the text alone. Which characters are escaped is left unsaid; what
/// the escaped text matches is said of [`captures`].
#[verifier::external_body]
pub(crate) fn escape(pattern: &str) -> (out: String)
    ensures
        out@ == escaped(pattern@),
{
    regex::escape(pattern)
}

/// What a compiled pattern was compiled from.
pub uninterp spec fn compiled_from(regex: regex::Regex) -> PatternView;

/// `regex::RegexBuilder::build`, with the flags and the size limit given: a pattern that compiles is
/// the one that was asked for. An escaped text is a literal, which takes one state for each byte
/// and a few around them, none of more than 32 bytes: where case matters and the limit leaves twice
/// that room, it compiles. When another pattern is refused, and with what words, is left unsaid:
/// the limit bounds the memory that a compiled pattern takes, which differs from machine to
/// machine.
#[verifier::external_body]
pub(crate) fn compile(
    source: &str,
    ignore_case: bool,
    multi_line: bool,
    dot_all: bool,
    size_limit: usize,
) -> (compiled: Result<regex::Regex, String>)
    ensures
        compiled matches Ok(found) ==> compiled_from(found) == (PatternView {
            source: source@,
            ignore_case,
            multi_line,
            dot_all,
        }),
        forall|literal: Seq<char>|
            source@ == #[trigger] escaped(literal) && !ignore_case && 64 * (text::bytes(
                literal,
            ).len() + 64) <= size_limit ==> compiled is Ok,
{
    regex::RegexBuilder::new(source)
        .case_insensitive(ignore_case)
        .multi_line(multi_line)
        .dot_matches_new_line(dot_all)
        .size_limit(size_limit)
        .build()
        .map_err(|error| error.to_string())
}

/// Where a pattern matches in a text, in order and without overlap, and what a template becomes at
/// each match.
pub uninterp spec fn captured(pattern: PatternView, t: Seq<char>, template: Seq<char>) -> Seq<
    MatchView,
>;

/// `regex::Regex::captures_iter`, with the whole match of each capture and the template expanded by
/// `regex::Captures::expand`: a function of what the pattern was compiled from, the text and the
/// template. Every match is a range of the text, and none starts before the one before it ends.
/// Where every dollar of the template is doubled, the expansion is the text with single ones. Where
/// the pattern is an escaped text and case matters, a match is that text.
#[verifier::external_body]
pub(crate) fn captures(regex: &regex::Regex, text: &str, template: &str) -> (found: Vec<Match>)
    ensures
        match_views(found@) == captured(compiled_from(*regex), text@, template@),
        forall|i: int|
            0 <= i < found@.len() ==> text::sliceable(
                text@,
                (#[trigger] found@[i]).start as int,
                found@[i].end as int,
            ),
        forall|i: int, j: int|
            0 <= i < j < found@.len() ==> (#[trigger] found@[i]).end <= (
            #[trigger] found@[j]).start,
        forall|i: int, plain: Seq<char>|
            0 <= i < found@.len() && template@ == #[trigger] doubled(plain) ==> (
            #[trigger] found@[i]).after@ == plain,
        forall|i: int, literal: Seq<char>|
            0 <= i < found@.len() && compiled_from(*regex).source == #[trigger] escaped(literal)
                && !compiled_from(*regex).ignore_case ==> text::slice(
                text@,
                (#[trigger] found@[i]).start as int,
                found@[i].end as int,
            ) == literal,
{
    let expand = |capture: &regex::Captures<'_>| {
        let mut after = String::new();
        capture.expand(template, &mut after);
        after
    };
    regex
        .captures_iter(text)
        .map(|capture| Match {
            start: capture.get_match().start(),
            end: capture.get_match().end(),
            after: expand(&capture),
        })
        .collect()
}

/// Writes every dollar of a text twice.
pub fn double_dollars(text: &str) -> (out: String)
    ensures
        out@ == doubled(text@),
{
    let characters = words::chars(text);
    let mut out = String::new();
    let mut i: usize = 0;
    assert(out@ =~= Seq::empty());
    while i < characters.len()
        invariant
            i <= characters@.len(),
            characters@ == text@,
            out@ == doubled(text@.take(i as int)),
        decreases characters@.len() - i,
    {
        assert(text@.take(i + 1).drop_last() =~= text@.take(i as int));
        let one = text.substring_char(i, i + 1);
        let ghost before = out@;
        assert(one@ =~= seq![text@[i as int]]);
        out.append(one);
        assert(out@ =~= before.push(text@[i as int]));
        if characters[i] == '$' {
            out.append(one);
            assert(out@ =~= before.push('$').push('$'));
        }
        i += 1;
    }
    assert(text@.take(i as int) =~= text@);
    out
}

} // verus!
