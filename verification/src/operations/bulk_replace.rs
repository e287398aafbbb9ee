//! Occurrence-selective replacement over the indexed files.
//!
//! Two stages on purpose. The first returns every occurrence with a stable id and changes
//! nothing; the second takes the ids the caller chose, or an exact count of everything, and only
//! then produces a plan. A one-shot replace-all is the operation that quietly edits a string
//! literal in a file nobody looked at.

use crate::envelope;
use crate::contract;
use crate::coordinates;
use crate::coordinates::PositionError;
use crate::evidence;
use crate::fit;
use crate::graph::{Repository, SourceFile};
use crate::json;
use crate::json::{Fields, Items, Json, JsonView};
use crate::operations;
use crate::operations::apply;
use crate::operations::move_file;
use crate::order;
use crate::pattern;
use crate::pattern::{Match, MatchView, PatternView};
use crate::plan;
use crate::plan::{BuilderView, EditView, PlanBuilder, PlanView};
use crate::text;
use crate::words;
use vstd::prelude::*;
use vstd::string::*;
use vstd::utf8::*;

verus! {

/// The most files that one call scans.
pub const MAX_FILES: usize = 5_000;

/// The most occurrences that one file contributes.
pub const MAX_PER_FILE: usize = 500;

/// The most occurrences that one call answers.
pub const MAX_TOTAL: usize = 5_000;

/// The longest pattern, in bytes.
pub const MAX_PATTERN_BYTES: usize = 1_000;

/// The most memory that a compiled pattern takes, in bytes.
pub const SIZE_LIMIT: usize = 1_048_576;

/// How many characters an excerpt shows on either side of a match.
pub const WINDOW: usize = 30;

/// One occurrence of the pattern, and what it would become.
#[verifier::ext_equal]
pub struct OccurrenceView {
    pub id: Seq<char>,
    pub file: Seq<char>,
    pub line: u32,
    pub start_char: u32,
    pub end_char: u32,
    pub before: Seq<char>,
    pub after: Seq<char>,
    pub excerpt: Seq<char>,
}

/// A short window around a match, for a caller choosing between occurrences.
pub open spec fn excerpt_of(line: Seq<char>, start: int, end: int) -> Seq<char> {
    let head = text::slice(line, 0, start);
    let tail = text::slice(line, end, text::bytes(line).len() as int);
    let shown = if head.len() > WINDOW {
        head.skip(head.len() - WINDOW)
    } else {
        head
    };
    let rest = if tail.len() > WINDOW {
        tail.take(WINDOW as int)
    } else {
        tail
    };
    words::trimmed(shown + text::slice(line, start, end) + rest)
}

/// The id of the occurrence that starts at a place of a file.
pub open spec fn id_of(file: Seq<char>, line: u32, start_char: u32) -> Seq<char> {
    file + "@"@ + words::decimal(line as nat) + ":"@ + words::decimal(start_char as nat)
}

/// The occurrence that a match on a line is, in lines and UTF-16 offsets.
pub open spec fn occurrence(
    file: Seq<char>,
    line: u32,
    content: Seq<char>,
    found: MatchView,
    start_char: u32,
    end_char: u32,
) -> OccurrenceView {
    OccurrenceView {
        id: id_of(file, line, start_char),
        file,
        line,
        start_char,
        end_char,
        before: text::slice(content, found.start, found.end),
        after: found.after,
        excerpt: excerpt_of(content, found.start, found.end),
    }
}

/// What a scan has found so far.
#[verifier::ext_equal]
pub struct ScanView {
    pub found: Seq<OccurrenceView>,
    pub in_file: nat,
    pub zero_width: nat,
    pub capped: bool,
}

/// A scan with the matches of a line from one on.
pub open spec fn with_matches(
    scan: ScanView,
    file: Seq<char>,
    source: Seq<char>,
    line: u32,
    content: Seq<char>,
    matches: Seq<MatchView>,
    from: int,
) -> ScanView
    decreases matches.len() - from,
{
    if from < 0 || from >= matches.len() {
        scan
    } else {
        let found = matches[from];
        if found.start == found.end {
            with_matches(
                ScanView { zero_width: scan.zero_width + 1, ..scan },
                file,
                source,
                line,
                content,
                matches,
                from + 1,
            )
        } else if scan.in_file >= MAX_PER_FILE || scan.found.len() >= MAX_TOTAL {
            ScanView { capped: true, ..scan }
        } else {
            match (
                coordinates::converted(source, line, (found.start + 1) as u32),
                coordinates::converted(source, line, (found.end + 1) as u32),
            ) {
                (Ok(start_char), Ok(end_char)) => with_matches(
                    ScanView {
                        found: scan.found.push(
                            occurrence(file, line, content, found, start_char, end_char),
                        ),
                        in_file: scan.in_file + 1,
                        ..scan
                    },
                    file,
                    source,
                    line,
                    content,
                    matches,
                    from + 1,
                ),
                _ => with_matches(scan, file, source, line, content, matches, from + 1),
            }
        }
    }
}

/// A scan with the lines of a file from one on. A scan that is capped ends with its line.
pub open spec fn with_lines(
    scan: ScanView,
    file: Seq<char>,
    source: Seq<char>,
    compiled: PatternView,
    template: Seq<char>,
    from: int,
) -> ScanView
    decreases coordinates::lines(source).len() - from,
{
    let all = coordinates::lines(source);
    if from < 0 || from >= all.len() {
        scan
    } else {
        let content = coordinates::without_return(all[from]);
        let next = with_matches(
            scan,
            file,
            source,
            (from + 1) as u32,
            content,
            pattern::captured(compiled, content, template),
            0,
        );
        if next.capped {
            next
        } else {
            with_lines(next, file, source, compiled, template, from + 1)
        }
    }
}

/// A scan of the first of some files.
pub open spec fn scanned_files(
    repository: Repository,
    files: Seq<Seq<char>>,
    compiled: PatternView,
    template: Seq<char>,
) -> ScanView
    decreases files.len(),
{
    if files.len() == 0 {
        ScanView { found: Seq::empty(), in_file: 0, zero_width: 0, capped: false }
    } else {
        let before = scanned_files(repository, files.drop_last(), compiled, template);
        match evidence::source_of(repository.sources@, files.last()) {
            None => before,
            Some(source) => with_lines(
                ScanView { in_file: 0, ..before },
                files.last(),
                source,
                compiled,
                template,
                0,
            ),
        }
    }
}

/// How many of the first of some files can be read.
pub open spec fn readable(repository: Repository, files: Seq<Seq<char>>) -> nat
    decreases files.len(),
{
    if files.len() == 0 {
        0
    } else {
        readable(repository, files.drop_last()) + if evidence::source_of(
            repository.sources@,
            files.last(),
        ) is Some {
            1nat
        } else {
            0
        }
    }
}

/// The first of some paths that begin with a prefix, where one is given.
pub open spec fn under(files: Seq<Seq<char>>, prefix: Option<Seq<char>>) -> Seq<Seq<char>>
    decreases files.len(),
{
    if files.len() == 0 {
        Seq::empty()
    } else {
        let before = under(files.drop_last(), prefix);
        let kept = match prefix {
            Some(start) => text::begins(files.last(), start),
            None => true,
        };
        if kept {
            before.push(files.last())
        } else {
            before
        }
    }
}

/// The files that a call scans: the indexed ones under the prefix, in order, up to the bound.
pub open spec fn files_for(repository: Repository, prefix: Option<Seq<char>>) -> Seq<Seq<char>> {
    let files = under(move_file::indexed(repository.graph.nodes@), prefix);
    if files.len() > MAX_FILES {
        files.take(MAX_FILES as int)
    } else {
        files
    }
}

/// The answer where a pattern cannot be scanned for.
pub open spec fn invalid_pattern(reason: Seq<char>) -> JsonView {
    operations::plain_answer("INVALID_PATTERN"@, reason)
}

/// Whether flags are only those a pattern may have.
pub open spec fn known_flags(flags: Seq<char>) -> bool {
    forall|i: int|
        0 <= i < flags.len() ==> (#[trigger] flags[i] == 'i' || flags[i] == 'm' || flags[i] == 's')
}

/// What a pattern is compiled from, or why it is not even tried.
pub open spec fn pattern_for(pattern: Seq<char>, literal: bool, flags: Seq<char>) -> Result<
    PatternView,
    Seq<char>,
> {
    if pattern.len() == 0 {
        Err("pattern must not be empty"@)
    } else if text::bytes(pattern).len() > MAX_PATTERN_BYTES {
        Err("pattern exceeds 1000 bytes"@)
    } else if !known_flags(flags) {
        Err("flags may only contain i, m or s"@)
    } else {
        Ok(
            PatternView {
                source: if literal {
                    pattern::escaped(pattern)
                } else {
                    pattern
                },
                ignore_case: flags.contains('i'),
                multi_line: flags.contains('m'),
                dot_all: flags.contains('s'),
            },
        )
    }
}

/// Whether a call's pattern is literal: it is unless the call says otherwise.
pub open spec fn is_literal(arguments: JsonView) -> bool {
    match arguments.flag("literal"@) {
        Some(literal) => literal,
        None => true,
    }
}

/// The template that a replacement is: in literal mode it is text, not a template, so a dollar in
/// it is a dollar.
pub open spec fn template_for(replacement: Seq<char>, literal: bool) -> Seq<char> {
    if literal {
        pattern::doubled(replacement)
    } else {
        replacement
    }
}

/// An occurrence as a preview lists it.
pub open spec fn occurrence_value(found: OccurrenceView) -> JsonView {
    JsonView::empty().with_text("id"@, found.id).with_text("file"@, found.file).with_number(
        "line"@,
        found.line as nat,
    ).with_text("before"@, found.before).with_text("after"@, found.after).with_text(
        "excerpt"@,
        found.excerpt,
    )
}

/// Occurrences as a preview lists them.
pub open spec fn occurrence_values(found: Seq<OccurrenceView>) -> Seq<JsonView> {
    Seq::new(found.len(), |i: int| occurrence_value(found[i]))
}

/// The answer that lists the occurrences and changes nothing.
pub open spec fn preview_answer(scan: ScanView, scanned: nat) -> JsonView {
    JsonView::empty().with_text("status"@, "PREVIEW"@).with_number(
        "total"@,
        scan.found.len(),
    ).with_number("scannedFiles"@, scanned).with("capped"@, JsonView::Bool(scan.capped)).with_list(
        "occurrences"@,
        occurrence_values(scan.found),
    ).with_text(
        "next"@,
        "call again with occurrence_ids=[...] to plan a selection, or expected_count=<total> to plan every one of them"@,
    )
}

/// The ids among the first values of a selection, ascending.
pub open spec fn wanted(selection: Seq<JsonView>) -> Seq<Seq<char>>
    decreases selection.len(),
{
    if selection.len() == 0 {
        Seq::empty()
    } else {
        match selection.last() {
            JsonView::Text(id) => order::inserted(wanted(selection.drop_last()), id),
            _ => wanted(selection.drop_last()),
        }
    }
}

/// Whether an id is that of an occurrence.
pub open spec fn known(found: Seq<OccurrenceView>, id: Seq<char>) -> bool {
    exists|i: int| 0 <= i < found.len() && (#[trigger] found[i]).id == id
}

/// The first of some ids that are those of no occurrence.
pub open spec fn unknown(found: Seq<OccurrenceView>, ids: Seq<Seq<char>>) -> Seq<Seq<char>>
    decreases ids.len(),
{
    if ids.len() == 0 {
        Seq::empty()
    } else if known(found, ids.last()) {
        unknown(found, ids.drop_last())
    } else {
        unknown(found, ids.drop_last()).push(ids.last())
    }
}

/// The first of some occurrences whose ids are wanted.
pub open spec fn chosen(found: Seq<OccurrenceView>, ids: Seq<Seq<char>>) -> Seq<OccurrenceView>
    decreases found.len(),
{
    if found.len() == 0 {
        Seq::empty()
    } else if ids.contains(found.last().id) {
        chosen(found.drop_last(), ids).push(found.last())
    } else {
        chosen(found.drop_last(), ids)
    }
}

/// The occurrences that a call selects, or the refusal of the selection.
pub open spec fn selected(
    found: Seq<OccurrenceView>,
    selection: Option<Seq<JsonView>>,
    expected: Option<nat>,
) -> Result<Seq<OccurrenceView>, JsonView> {
    match selection {
        Some(values) => {
            let ids = wanted(values);
            if ids.len() == 0 {
                Err(
                    operations::plain_answer(
                        "NO_SELECTION"@,
                        "occurrence_ids was empty; select at least one occurrence, or pass expected_count to plan them all"@,
                    ),
                )
            } else if unknown(found, ids).len() > 0 {
                Err(
                    JsonView::empty().with_text("status"@, "UNKNOWN_OCCURRENCES"@).with_text(
                        "reason"@,
                        "some occurrence_ids do not match the current scan; the files changed. Preview again and reselect."@,
                    ).with_list("unknown"@, operations::texts(unknown(found, ids))),
                )
            } else {
                Ok(chosen(found, ids))
            }
        },
        None => {
            let count = match expected {
                Some(number) => number,
                None => 0,
            };
            if count != found.len() {
                Err(
                    JsonView::empty().with_text("status"@, "COUNT_MISMATCH"@).with_text(
                        "reason"@,
                        "expected_count is "@ + words::decimal(count)
                            + " but the scan found "@ + words::decimal(found.len())
                            + "; the files changed since the preview. Nothing was planned."@,
                    ).with_number("total"@, found.len()),
                )
            } else {
                Ok(found)
            }
        },
    }
}

/// A plan of the occurrences from one on, or the answer where one of their files cannot be read.
pub open spec fn planned_from(
    repository: Repository,
    builder: BuilderView,
    found: Seq<OccurrenceView>,
    from: int,
) -> Result<BuilderView, JsonView>
    decreases found.len() - from,
{
    if from < 0 || from >= found.len() {
        Ok(builder)
    } else {
        let one = found[from];
        match evidence::source_of(repository.sources@, one.file) {
            None => Err(
                operations::plain_answer(
                    "SOURCE_UNAVAILABLE"@,
                    one.file + ": unreadable while planning"@,
                ),
            ),
            Some(source) => planned_from(
                repository,
                builder.file(one.file, plan::sha256_hex(source)).edit(occurrence_edit(one)),
                found,
                from + 1,
            ),
        }
    }
}

/// The edit that an occurrence makes.
pub open spec fn occurrence_edit(one: OccurrenceView) -> EditView {
    EditView {
        start_line: one.line,
        start_char: one.start_char,
        end_line: one.line,
        end_char: one.end_char,
        before: one.before,
        after: one.after,
        provenance: "LEXICAL_EXACT"@,
    }
}

/// Whether every one of some occurrences stands in the source of its file.
pub open spec fn all_stand(sources: Seq<SourceFile>, found: Seq<OccurrenceView>) -> bool {
    forall|i: int| 0 <= i < found.len() ==> occurrence_stands(sources, #[trigger] found[i])
}

/// Whether an occurrence stands in the source of its file.
pub open spec fn occurrence_stands(sources: Seq<SourceFile>, one: OccurrenceView) -> bool {
    evidence::source_of(sources, one.file) matches Some(source) && fit::stands(
        source,
        occurrence_edit(one),
    )
}

/// The answer to a selection.
pub open spec fn plan_answer(
    repository: Repository,
    found: Seq<OccurrenceView>,
    selection: Option<Seq<JsonView>>,
    expected: Option<nat>,
    scanned: nat,
) -> JsonView {
    match selected(found, selection, expected) {
        Err(refusal) => refusal,
        Ok(picked) => match planned_from(
            repository,
            BuilderView::start("bulk_replace"@),
            picked,
            0,
        ) {
            Err(refusal) => refusal,
            Ok(builder) => JsonView::empty().with_text("status"@, "PLANNED"@).with_text(
                "completeness"@,
                "PARTIAL"@,
            ).with_number("total"@, picked.len()).with_number("scannedFiles"@, scanned).with(
                "plan"@,
                plan::plan_value(builder.plan()),
            ).with_list(
                "warnings"@,
                Seq::empty().push(JsonView::Text("INDEXED_FILES_ONLY"@)),
            ).with_text("next"@, "apply with apply_edit_plan (preview -> confirm)"@),
        },
    }
}

/// The answer once a pattern is compiled.
pub open spec fn compiled_answer(
    repository: Repository,
    arguments: JsonView,
    compiled: PatternView,
    template: Seq<char>,
) -> JsonView {
    let files = files_for(repository, arguments.text("path_prefix"@));
    let scan = scanned_files(repository, files, compiled, template);
    let scanned = readable(repository, files);
    if scan.found.len() == 0 && scan.zero_width > 0 {
        zero_width_answer(scan.zero_width)
    } else if scan.found.len() == 0 {
        operations::plain_answer(
            "NO_MATCHES"@,
            "no occurrence of the pattern exists in the indexed files"@,
        ).with_number("scannedFiles"@, scanned)
    } else if arguments.list("occurrence_ids"@) is None && arguments.number(
        "expected_count"@,
    ) is None {
        preview_answer(scan, scanned)
    } else {
        plan_answer(
            repository,
            scan.found,
            arguments.list("occurrence_ids"@),
            arguments.number("expected_count"@),
            scanned,
        )
    }
}

/// Whether a pattern within the bounds is sure to compile: it is literal, and case matters.
pub open spec fn sure_to_compile(literal: bool, flags: Seq<char>) -> bool {
    literal && !flags.contains('i')
}

/// The answer to `bulk_replace`, given why its pattern did not compile, if it did not. A pattern
/// that is sure to compile did.
#[verifier::opaque]
pub open spec fn bulk_replace_answer(
    repository: Repository,
    arguments: JsonView,
    refused: Option<Seq<char>>,
) -> JsonView {
    match (arguments.text("pattern"@), arguments.text("replacement"@)) {
        (None, _) => operations::invalid_args_value("bulk_replace"@, seq!["pattern"@]),
        (_, None) => operations::invalid_args_value("bulk_replace"@, seq!["replacement"@]),
        (Some(pattern), Some(replacement)) => {
            let flags = match arguments.text("flags"@) {
                Some(flags) => flags,
                None => Seq::empty(),
            };
            match pattern_for(pattern, is_literal(arguments), flags) {
                Err(reason) => invalid_pattern(reason),
                Ok(compiled) => if refused is Some && !sure_to_compile(
                    is_literal(arguments),
                    flags,
                ) {
                    invalid_pattern(refused->0)
                } else {
                    compiled_answer(
                        repository,
                        arguments,
                        compiled,
                        template_for(replacement, is_literal(arguments)),
                    )
                },
            }
        },
    }
}

/// One occurrence of the pattern, and what it would become.
#[derive(Debug)]
pub struct Occurrence {
    pub id: String,
    pub file: String,
    pub line: u32,
    pub start_char: u32,
    pub end_char: u32,
    pub before: String,
    pub after: String,
    pub excerpt: String,
}

impl Occurrence {
    /// The occurrence without its representation.
    pub open spec fn view(self) -> OccurrenceView {
        OccurrenceView {
            id: self.id@,
            file: self.file@,
            line: self.line,
            start_char: self.start_char,
            end_char: self.end_char,
            before: self.before@,
            after: self.after@,
            excerpt: self.excerpt@,
        }
    }
}

/// Occurrences without their representation.
pub open spec fn occurrence_views(found: Seq<Occurrence>) -> Seq<OccurrenceView> {
    Seq::new(found.len(), |i: int| found[i].view())
}

/// What a scan has found so far.
struct Scan {
    found: Vec<Occurrence>,
    in_file: usize,
    zero_width: u64,
    capped: bool,
}

/// Whether a scan stands for a mathematical one, its counts up to the largest number.
spec fn stands_for(scan: Scan, expected: ScanView) -> bool {
    &&& occurrence_views(scan.found@) == expected.found
    &&& scan.in_file == expected.in_file
    &&& scan.zero_width == apply::counted(expected.zero_width)
    &&& scan.capped == expected.capped
}

/// Whether flags are only those a pattern may have, and which of them they are.
fn read_flags(flags: &str) -> (read: Option<(bool, bool, bool)>)
    ensures
        match read {
            Some((ignore_case, multi_line, dot_all)) => known_flags(flags@) && ignore_case
                == flags@.contains('i') && multi_line == flags@.contains('m') && dot_all
                == flags@.contains('s'),
            None => !known_flags(flags@),
        },
{
    let characters = words::chars(flags);
    let mut ignore_case = false;
    let mut multi_line = false;
    let mut dot_all = false;
    let mut i: usize = 0;
    assert(!flags@.take(0).contains('i') && !flags@.take(0).contains('m') && !flags@.take(
        0,
    ).contains('s'));
    while i < characters.len()
        invariant
            i <= characters@.len(),
            characters@ == flags@,
            forall|k: int|
                0 <= k < i ==> (#[trigger] flags@[k] == 'i' || flags@[k] == 'm' || flags@[k]
                    == 's'),
            ignore_case == flags@.take(i as int).contains('i'),
            multi_line == flags@.take(i as int).contains('m'),
            dot_all == flags@.take(i as int).contains('s'),
        decreases characters@.len() - i,
    {
        let ghost before = flags@.take(i as int);
        let ghost after = flags@.take(i + 1);
        proof {
            assert(after =~= before.push(flags@[i as int]));
            assert forall|c: char| after.contains(c) == (before.contains(c) || c
                == flags@[i as int]) by {
                if before.contains(c) {
                    let k = choose|k: int| 0 <= k < before.len() && before[k] == c;
                    assert(after[k] == c);
                }
                assert(after[i as int] == flags@[i as int]);
                if after.contains(c) && c != flags@[i as int] {
                    let k = choose|k: int| 0 <= k < after.len() && after[k] == c;
                    assert(before[k] == c);
                }
            }
        }
        if characters[i] == 'i' {
            ignore_case = true;
        } else if characters[i] == 'm' {
            multi_line = true;
        } else if characters[i] == 's' {
            dot_all = true;
        } else {
            return None;
        }
        i += 1;
    }
    assert(flags@.take(i as int) =~= flags@);
    Some((ignore_case, multi_line, dot_all))
}

/// Compiles the caller's pattern, refusing anything the scanner could not run safely.
///
/// A pattern that passes the bounds may still not compile, unless it is literal and case matters;
/// the reason is then the compiler's.
fn matcher(pattern: &str, literal: bool, flags: &str) -> (compiled: Result<regex::Regex, Json>)
    ensures
        match (compiled, pattern_for(pattern@, literal, flags@)) {
            (Ok(regex), Ok(expected)) => pattern::compiled_from(regex) == expected,
            (Err(refusal), Err(reason)) => refusal@ == invalid_pattern(reason),
            (Err(refusal), Ok(_)) => !sure_to_compile(literal, flags@) && exists|
                reason: Seq<char>,
            |
                refusal@ == #[trigger] invalid_pattern(reason),
            (Ok(_), Err(_)) => false,
        },
{
    if words::chars(pattern).len() == 0 {
        return Err(operations::answer("INVALID_PATTERN", "pattern must not be empty"));
    }
    if pattern.as_bytes().len() > MAX_PATTERN_BYTES {
        return Err(operations::answer("INVALID_PATTERN", "pattern exceeds 1000 bytes"));
    }
    // `g` is deliberately absent: every match is always collected, so accepting the flag would
    // imply a choice the caller does not have.
    let (ignore_case, multi_line, dot_all) = match read_flags(flags) {
        Some(read) => read,
        None => {
            return Err(operations::answer("INVALID_PATTERN", "flags may only contain i, m or s"));
        },
    };
    let source = if literal {
        pattern::escape(pattern)
    } else {
        pattern.to_owned()
    };
    match pattern::compile(source.as_str(), ignore_case, multi_line, dot_all, SIZE_LIMIT) {
        Ok(regex) => Ok(regex),
        Err(error) => {
            let refusal = operations::answer("INVALID_PATTERN", error.as_str());
            assert(refusal@ == invalid_pattern(error@));
            Err(refusal)
        },
    }
}

/// Every file that a call scans, in deterministic order so occurrence ids are stable between
/// calls.
///
/// Taken from the file nodes rather than from symbol spans: a file with no declarations is still
/// an indexed file, and skipping it would silently narrow "replace across the repository" to
/// "replace where a symbol happens to live".
fn indexed_files(repository: &Repository, prefix: Option<&str>) -> (files: Vec<String>)
    ensures
        text::string_views(files@) == files_for(
            *repository,
            match prefix {
                Some(start) => Some(start@),
                None => None,
            },
        ),
        files@.len() <= MAX_FILES,
{
    let all = move_file::indexed_files(&repository.graph.nodes);
    let ghost paths = text::string_views(all@);
    let ghost start = match prefix {
        Some(start) => Some(start@),
        None => None,
    };
    let mut files: Vec<String> = Vec::new();
    assert(text::string_views(files@) =~= Seq::empty());
    let mut i: usize = 0;
    while i < all.len()
        invariant
            i <= all@.len(),
            paths == text::string_views(all@),
            start == (match prefix {
                Some(start) => Some(start@),
                None => None,
            }),
            text::string_views(files@) == capped_at(under(paths.take(i as int), start)),
        decreases all@.len() - i,
    {
        assert(paths.take(i + 1).drop_last() =~= paths.take(i as int));
        let path = all[i].as_str();
        let kept = match prefix {
            Some(start) => text::starts_with(path, start),
            None => true,
        };
        let ghost before = under(paths.take(i as int), start);
        if kept {
            if files.len() < MAX_FILES {
                let copy = path.to_owned();
                assert(text::string_views(files@.push(copy)) =~= text::string_views(files@).push(
                    path@,
                ));
                files.push(copy);
                assert(capped_at(before.push(path@)) =~= before.push(path@));
            } else {
                assert(capped_at(before.push(path@)) =~= capped_at(before));
            }
        }
        i += 1;
    }
    assert(paths.take(i as int) =~= paths);
    files
}

/// The first of some paths, up to the bound.
spec fn capped_at(files: Seq<Seq<char>>) -> Seq<Seq<char>> {
    if files.len() > MAX_FILES {
        files.take(MAX_FILES as int)
    } else {
        files
    }
}

/// A short window around a match, for a caller choosing between occurrences.
fn excerpt(line: &str, start: usize, end: usize) -> (shown: String)
    requires
        text::sliceable(line@, start as int, end as int),
    ensures
        shown@ == excerpt_of(line@, start as int, end as int),
{
    proof {
        text::lemma_ends(line@);
    }
    let (head, whole, tail) = match (
        text::get(line, 0, start),
        text::get(line, start, end),
        text::get(line, end, line.as_bytes().len()),
    ) {
        (Some(head), Some(whole), Some(tail)) => (head, whole, tail),
        _ => {
            assert(false);
            (line, line, line)
        },
    };
    let before: usize = words::chars(head).len();
    let after: usize = words::chars(tail).len();
    let shown = if before > WINDOW {
        let part = head.substring_char(before - WINDOW, before);
        assert(part@ =~= head@.skip(head@.len() - WINDOW));
        part
    } else {
        head
    };
    let rest = if after > WINDOW {
        let part = tail.substring_char(0, WINDOW);
        assert(part@ =~= tail@.take(WINDOW as int));
        part
    } else {
        tail
    };
    let window = shown.to_owned().concat(whole).concat(rest);
    words::trim(window.as_str()).to_owned()
}

/// Whether an occurrence is one of the matches in a line.
spec fn of_a_match(found: Occurrence, content: Seq<char>, matches: Seq<Match>) -> bool {
    exists|i: int|
        0 <= i < matches.len() && found.after@ == (#[trigger] matches[i]).after@ && found.before@
            == text::slice(content, matches[i].start as int, matches[i].end as int)
}

/// Whether occurrences stand apart: on one line of one file none starts before the one before it
/// ends, and each takes something.
pub open spec fn apart(found: Seq<OccurrenceView>) -> bool {
    &&& forall|i: int|
        0 <= i < found.len() ==> (#[trigger] found[i]).start_char < found[i].end_char && found[i].id
            == id_of(found[i].file, found[i].line, found[i].start_char)
    &&& forall|i: int, j: int|
        0 <= i < j < found.len() && found[i].file == found[j].file && found[i].line
            == found[j].line ==> (#[trigger] found[i]).end_char <= (#[trigger] found[j]).start_char
}

/// Whether the occurrences from one on are of one file and stand apart.
spec fn apart_from(found: Seq<Occurrence>, from: int, file: Seq<char>) -> bool {
    &&& forall|i: int|
        from <= i < found.len() ==> (#[trigger] found[i]).file@ == file && found[i].start_char
            < found[i].end_char && found[i].id@ == id_of(file, found[i].line, found[i].start_char)
    &&& forall|i: int, j: int|
        from <= i < j < found.len() && found[i].line == found[j].line ==> (
        #[trigger] found[i]).end_char <= (#[trigger] found[j]).start_char
}

/// Whether the occurrences from one on have ended where a byte of their line is reached.
spec fn ended_by(
    found: Seq<Occurrence>,
    from: int,
    source: Seq<char>,
    line: u32,
    reach: int,
) -> bool {
    let column = (reach + 1) as u32;
    from < found.len() ==> (coordinates::converted(source, line, column) matches Ok(offset)
        && forall|i: int|
        from <= i < found.len() ==> (#[trigger] found[i]).end_char <= offset)
}

/// Whether an occurrence is one in a file and stands in its source.
spec fn stands_in(found: Occurrence, file: Seq<char>, source: Seq<char>) -> bool {
    found.file@ == file && fit::stands(source, occurrence_edit(found@))
}

/// Whether occurrences from one on are what a literal pattern and a literal replacement make
/// them: where case matters, each reads as the pattern; each becomes the replacement.
pub open spec fn literal_from(
    found: Seq<Occurrence>,
    compiled: PatternView,
    template: Seq<char>,
    from: int,
) -> bool {
    &&& forall|i: int, plain: Seq<char>|
        from <= i < found.len() && template == #[trigger] pattern::doubled(plain) ==> (
        #[trigger] found[i]).after@ == plain
    &&& forall|i: int, literal: Seq<char>|
        from <= i < found.len() && compiled.source == #[trigger] pattern::escaped(literal)
            && !compiled.ignore_case ==> (#[trigger] found[i]).before@ == literal
}

/// Adds the matches of a line to a scan.
fn scan_line(
    scan: &mut Scan,
    file: &str,
    source: &str,
    line: u32,
    content: &str,
    matches: &Vec<Match>,
    Ghost(start): Ghost<ScanView>,
)
    requires
        text::bytes(source@).len() < u32::MAX,
        text::bytes(content@).len() < u32::MAX,
        1 <= line <= coordinates::lines(source@).len(),
        content@ == coordinates::without_return(coordinates::lines(source@)[line - 1]),
        stands_for(*old(scan), start),
        old(scan).found@.len() <= MAX_TOTAL,
        old(scan).in_file <= MAX_PER_FILE,
        forall|i: int|
            0 <= i < matches@.len() ==> text::sliceable(
                content@,
                (#[trigger] matches@[i]).start as int,
                matches@[i].end as int,
            ),
        forall|i: int, j: int|
            0 <= i < j < matches@.len() ==> (#[trigger] matches@[i]).end <= (
            #[trigger] matches@[j]).start,
    ensures
        stands_for(
            *final(scan),
            with_matches(
                start,
                file@,
                source@,
                line,
                content@,
                pattern::match_views(matches@),
                0,
            ),
        ),
        final(scan).found@.len() <= MAX_TOTAL,
        final(scan).in_file <= MAX_PER_FILE,
        old(scan).found@.len() <= final(scan).found@.len(),
        forall|k: int|
            0 <= k < old(scan).found@.len() ==> #[trigger] final(scan).found@[k] == old(
                scan,
            ).found@[k],
        forall|k: int|
            old(scan).found@.len() <= k < final(scan).found@.len() ==> of_a_match(
                #[trigger] final(scan).found@[k],
                content@,
                matches@,
            ),
        forall|k: int|
            old(scan).found@.len() <= k < final(scan).found@.len() ==> stands_in(
                #[trigger] final(scan).found@[k],
                file@,
                source@,
            ),
        apart_from(final(scan).found@, old(scan).found@.len() as int, file@),
        forall|k: int|
            old(scan).found@.len() <= k < final(scan).found@.len() ==> (
            #[trigger] final(scan).found@[k]).line == line,
{
    let ghost all = pattern::match_views(matches@);
    let ghost mut reach: int = 0;
    let ghost first = scan.found@.len() as int;
    let ghost target = with_matches(start, file@, source@, line, content@, all, 0);
    let ghost mut now = start;
    let mut i: usize = 0;
    while i < matches.len()
        invariant
            i <= matches@.len(),
            text::bytes(source@).len() < u32::MAX,
            text::bytes(content@).len() < u32::MAX,
            all == pattern::match_views(matches@),
            stands_for(*scan, now),
            target == with_matches(now, file@, source@, line, content@, all, i as int),
            target == with_matches(start, file@, source@, line, content@, all, 0),
            old(scan).found@.len() <= scan.found@.len(),
            forall|k: int|
                0 <= k < old(scan).found@.len() ==> #[trigger] scan.found@[k] == old(
                    scan,
                ).found@[k],
            forall|k: int|
                old(scan).found@.len() <= k < scan.found@.len() ==> of_a_match(
                    #[trigger] scan.found@[k],
                    content@,
                    matches@,
                ),
            forall|k: int|
                old(scan).found@.len() <= k < scan.found@.len() ==> stands_in(
                    #[trigger] scan.found@[k],
                    file@,
                    source@,
                ),
            1 <= line <= coordinates::lines(source@).len(),
            first == old(scan).found@.len(),
            apart_from(scan.found@, first, file@),
            forall|k: int|
                first <= k < scan.found@.len() ==> (#[trigger] scan.found@[k]).line == line,
            ended_by(scan.found@, first, source@, line, reach),
            0 <= reach <= text::bytes(content@).len(),
            forall|k: int| i <= k < matches@.len() ==> reach <= (#[trigger] matches@[k]).start,
            forall|k: int, l: int|
                0 <= k < l < matches@.len() ==> (#[trigger] matches@[k]).end <= (
                #[trigger] matches@[l]).start,
            content@ == coordinates::without_return(coordinates::lines(source@)[line - 1]),
            scan.found@.len() <= MAX_TOTAL,
            scan.in_file <= MAX_PER_FILE,
            forall|k: int|
                0 <= k < matches@.len() ==> text::sliceable(
                    content@,
                    (#[trigger] matches@[k]).start as int,
                    matches@[k].end as int,
                ),
        decreases matches@.len() - i,
    {
        let found = &matches[i];
        assert(all[i as int] == found@);
        if found.start == found.end {
            scan.zero_width = scan.zero_width.saturating_add(1);
            proof {
                now = ScanView { zero_width: now.zero_width + 1, ..now };
            }
            i += 1;
            continue ;
        }
        if scan.in_file >= MAX_PER_FILE || scan.found.len() >= MAX_TOTAL {
            scan.capped = true;
            return ;
        }
        // Columns in the plan are UTF-16; the matches are in bytes.
        match (
            coordinates::utf16_offset(source, line, (found.start + 1) as u32),
            coordinates::utf16_offset(source, line, (found.end + 1) as u32),
        ) {
            (Ok(start_char), Ok(end_char)) => {
                let before = match text::get(content, found.start, found.end) {
                    Some(before) => before,
                    None => {
                        assert(false);
                        content
                    },
                };
                let id = file.to_owned().concat("@").concat(
                    words::number(line as u64).as_str(),
                ).concat(":").concat(words::number(start_char as u64).as_str());
                let one = Occurrence {
                    id,
                    file: file.to_owned(),
                    line,
                    start_char,
                    end_char,
                    before: before.to_owned(),
                    after: found.after.clone(),
                    excerpt: excerpt(content, found.start, found.end),
                };
                proof {
                    assert(one@ == occurrence(
                        file@,
                        line,
                        content@,
                        found@,
                        start_char,
                        end_char,
                    ));
                    assert(occurrence_views(scan.found@.push(one)) =~= occurrence_views(
                        scan.found@,
                    ).push(one@));
                    now = ScanView {
                        found: now.found.push(one@),
                        in_file: now.in_file + 1,
                        ..now
                    };
                }
                assert(of_a_match(one, content@, matches@)) by {
                    assert(matches@[i as int].after@ == one.after@);
                }
                proof {
                    fit::lemma_columns_stand(
                        source@,
                        occurrence_edit(one@),
                        line,
                        (found.start + 1) as u32,
                        (found.end + 1) as u32,
                    );
                    lemma_next_apart(
                        source@,
                        scan.found@,
                        one,
                        first,
                        file@,
                        line,
                        reach,
                        found.start as int,
                        found.end as int,
                    );
                    reach = found.end as int;
                }
                scan.found.push(one);
                scan.in_file = scan.in_file + 1;
            },
            _ => {},
        }
        i += 1;
    }
}

/// An occurrence that starts where those before it have ended stands apart from them.
proof fn lemma_next_apart(
    source: Seq<char>,
    found: Seq<Occurrence>,
    one: Occurrence,
    first: int,
    file: Seq<char>,
    line: u32,
    reach: int,
    start: int,
    end: int,
)
    requires
        text::bytes(source).len() < u32::MAX,
        0 <= first <= found.len(),
        apart_from(found, first, file),
        forall|k: int| first <= k < found.len() ==> (#[trigger] found[k]).line == line,
        ended_by(found, first, source, line, reach),
        0 <= reach <= start < end < u32::MAX,
        coordinates::converted(source, line, (start + 1) as u32) == Ok::<u32, PositionError>(
            one.start_char,
        ),
        coordinates::converted(source, line, (end + 1) as u32) == Ok::<u32, PositionError>(
            one.end_char,
        ),
        one.file@ == file,
        one.line == line,
        one.id@ == id_of(file, line, one.start_char),
    ensures
        apart_from(found.push(one), first, file),
        ended_by(found.push(one), first, source, line, end),
        forall|k: int| first <= k < found.push(one).len() ==> (#[trigger] found.push(one)[k]).line
            == line,
{
    let all = found.push(one);
    fit::lemma_offsets_grow(source, line, (start + 1) as u32, (end + 1) as u32);
    assert forall|k: int| first <= k < found.len() implies (#[trigger] found[k]).end_char
        <= one.start_char by {
        coordinates::law_offsets_keep_order(
            source,
            line,
            (reach + 1) as u32,
            (start + 1) as u32,
        );
    }
    assert forall|i: int| first <= i < all.len() implies (#[trigger] all[i]).file@ == file
        && all[i].start_char < all[i].end_char && all[i].id@ == id_of(
        file,
        all[i].line,
        all[i].start_char,
    ) by {
        if i < found.len() {
            assert(all[i] == found[i]);
        }
    }
    assert forall|i: int, j: int|
        first <= i < j < all.len() && all[i].line == all[j].line implies (
    #[trigger] all[i]).end_char <= (#[trigger] all[j]).start_char by {
        assert(all[i] == found[i]);
        if j < found.len() {
            assert(all[j] == found[j]);
        }
    }
    assert forall|k: int| first <= k < all.len() implies (#[trigger] all[k]).end_char
        <= one.end_char && all[k].line == line by {
        if k < found.len() {
            assert(all[k] == found[k]);
        }
    }
}

/// Adds the lines of a file to a scan.
fn scan_file(
    scan: &mut Scan,
    file: &str,
    source: &str,
    regex: &regex::Regex,
    template: &str,
    Ghost(start): Ghost<ScanView>,
)
    requires
        text::bytes(source@).len() < u32::MAX,
        stands_for(*old(scan), start),
        old(scan).found@.len() <= MAX_TOTAL,
        old(scan).in_file <= MAX_PER_FILE,
    ensures
        stands_for(
            *final(scan),
            with_lines(
                start,
                file@,
                source@,
                pattern::compiled_from(*regex),
                template@,
                0,
            ),
        ),
        final(scan).found@.len() <= MAX_TOTAL,
        final(scan).in_file <= MAX_PER_FILE,
        literal_from(old(scan).found@, pattern::compiled_from(*regex), template@, 0)
            ==> literal_from(final(scan).found@, pattern::compiled_from(*regex), template@, 0),
        old(scan).found@.len() <= final(scan).found@.len(),
        forall|k: int|
            0 <= k < old(scan).found@.len() ==> #[trigger] final(scan).found@[k] == old(
                scan,
            ).found@[k],
        forall|k: int|
            old(scan).found@.len() <= k < final(scan).found@.len() ==> stands_in(
                #[trigger] final(scan).found@[k],
                file@,
                source@,
            ),
        apart_from(final(scan).found@, old(scan).found@.len() as int, file@),
{
    let all = text::split_all(source, 10);
    let ghost first = scan.found@.len() as int;
    let ghost compiled = pattern::compiled_from(*regex);
    let ghost target = with_lines(start, file@, source@, compiled, template@, 0);
    let ghost mut now = start;
    proof {
        coordinates::lemma_line_count(source@);
    }
    let mut i: usize = 0;
    while i < all.len()
        invariant
            i <= all@.len() <= u32::MAX,
            text::bytes(source@).len() < u32::MAX,
            text::views(all@) == coordinates::lines(source@),
            compiled == pattern::compiled_from(*regex),
            stands_for(*scan, now),
            target == with_lines(now, file@, source@, compiled, template@, i as int),
            target == with_lines(start, file@, source@, compiled, template@, 0),
            literal_from(old(scan).found@, compiled, template@, 0) ==> literal_from(
                scan.found@,
                compiled,
                template@,
                0,
            ),
            old(scan).found@.len() <= scan.found@.len(),
            forall|k: int|
                0 <= k < old(scan).found@.len() ==> #[trigger] scan.found@[k] == old(
                    scan,
                ).found@[k],
            forall|k: int|
                old(scan).found@.len() <= k < scan.found@.len() ==> stands_in(
                    #[trigger] scan.found@[k],
                    file@,
                    source@,
                ),
            first == old(scan).found@.len(),
            apart_from(scan.found@, first, file@),
            forall|k: int|
                first <= k < scan.found@.len() ==> (#[trigger] scan.found@[k]).line <= i,
            scan.found@.len() <= MAX_TOTAL,
            scan.in_file <= MAX_PER_FILE,
        decreases all@.len() - i,
    {
        assert(text::views(all@)[i as int] == all@[i as int]@);
        proof {
            coordinates::lemma_line_bytes(source@, i as int);
        }
        let line: u32 = (i + 1) as u32;
        let content = coordinates::strip_return(all[i]);
        let matches = pattern::captures(regex, content, template);
        let ghost earlier = scan.found@;
        scan_line(scan, file, source, line, content, &matches, Ghost(now));
        proof {
            assert forall|k: int|
                old(scan).found@.len() <= k < scan.found@.len() implies stands_in(
                #[trigger] scan.found@[k],
                file@,
                source@,
            ) by {
                if k < earlier.len() {
                    assert(scan.found@[k] == earlier[k]);
                }
            }
            lemma_lines_apart(earlier, scan.found@, first, file@, line);
            if literal_from(earlier, compiled, template@, 0) {
                lemma_literal(earlier, scan.found@, compiled, template@, content@, matches@);
            }
            now =
            with_matches(
                now,
                file@,
                source@,
                line,
                content@,
                pattern::captured(compiled, content@, template@),
                0,
            );
        }
        if scan.capped {
            return ;
        }
        i += 1;
    }
}

/// Occurrences of a later line stand apart from those of earlier ones.
proof fn lemma_lines_apart(
    earlier: Seq<Occurrence>,
    later: Seq<Occurrence>,
    first: int,
    file: Seq<char>,
    line: u32,
)
    requires
        0 <= first <= earlier.len() <= later.len(),
        line >= 1,
        apart_from(earlier, first, file),
        forall|k: int| first <= k < earlier.len() ==> (#[trigger] earlier[k]).line <= line - 1,
        forall|k: int| 0 <= k < earlier.len() ==> #[trigger] later[k] == earlier[k],
        apart_from(later, earlier.len() as int, file),
        forall|k: int| earlier.len() <= k < later.len() ==> (#[trigger] later[k]).line == line,
    ensures
        apart_from(later, first, file),
        forall|k: int| first <= k < later.len() ==> (#[trigger] later[k]).line <= line,
{
    assert forall|i: int| first <= i < later.len() implies (#[trigger] later[i]).file@ == file
        && later[i].start_char < later[i].end_char && later[i].id@ == id_of(
        file,
        later[i].line,
        later[i].start_char,
    ) && later[i].line <= line by {
        if i < earlier.len() {
            assert(later[i] == earlier[i]);
        }
    }
    assert forall|i: int, j: int|
        first <= i < j < later.len() && later[i].line == later[j].line implies (
    #[trigger] later[i]).end_char <= (#[trigger] later[j]).start_char by {
        if i < earlier.len() {
            assert(later[i] == earlier[i]);
            if j < earlier.len() {
                assert(later[j] == earlier[j]);
            }
        }
    }
}

/// Occurrences of another file stand apart from those of the files before it.
proof fn lemma_files_apart(
    earlier: Seq<Occurrence>,
    later: Seq<Occurrence>,
    paths: Seq<Seq<char>>,
    at: int,
)
    requires
        0 <= at < paths.len(),
        order::ascending(paths),
        earlier.len() <= later.len(),
        apart(occurrence_views(earlier)),
        forall|k: int|
            0 <= k < earlier.len() ==> paths.take(at).contains((#[trigger] earlier[k]).file@),
        forall|k: int| 0 <= k < earlier.len() ==> #[trigger] later[k] == earlier[k],
        apart_from(later, earlier.len() as int, paths[at]),
    ensures
        apart(occurrence_views(later)),
        forall|k: int|
            0 <= k < later.len() ==> paths.take(at + 1).contains((#[trigger] later[k]).file@),
{
    let views = occurrence_views(later);
    let before = occurrence_views(earlier);
    assert(paths.take(at + 1)[at] == paths[at]);
    assert forall|k: int| 0 <= k < later.len() implies paths.take(at + 1).contains(
        (#[trigger] later[k]).file@,
    ) && (k < earlier.len() ==> later[k].file@ != paths[at]) by {
        if k < earlier.len() {
            assert(later[k] == earlier[k]);
            let i = choose|i: int| 0 <= i < at && paths.take(at)[i] == earlier[k].file@;
            assert(paths.take(at + 1)[i] == earlier[k].file@);
            assert(order::before(paths[i], paths[at]));
            order::lemma_before(paths[i], paths[at]);
        }
    }
    assert forall|i: int| 0 <= i < views.len() implies (#[trigger] views[i]).start_char
        < views[i].end_char && views[i].id == id_of(
        views[i].file,
        views[i].line,
        views[i].start_char,
    ) by {
        if i < earlier.len() {
            assert(views[i] == before[i]);
        } else {
            assert(views[i] == later[i]@);
        }
    }
    assert forall|i: int, j: int|
        0 <= i < j < views.len() && views[i].file == views[j].file && views[i].line
            == views[j].line implies (#[trigger] views[i]).end_char <= (
    #[trigger] views[j]).start_char by {
        assert(views[i] == later[i]@ && views[j] == later[j]@);
        if j < earlier.len() {
            assert(views[i] == before[i] && views[j] == before[j]);
        }
    }
}

/// The files that a call scans ascend.
proof fn lemma_files_ascend(repository: Repository, prefix: Option<Seq<char>>)
    ensures
        order::ascending(files_for(repository, prefix)),
{
    let nodes = repository.graph.nodes@;
    let indexed = move_file::indexed(nodes);
    move_file::lemma_indexed(nodes);
    lemma_under_ascends(indexed, prefix);
    let files = under(indexed, prefix);
    let kept = files_for(repository, prefix);
    assert forall|i: int, j: int| 0 <= i < j < kept.len() implies order::before(
        #[trigger] kept[i],
        #[trigger] kept[j],
    ) by {
        assert(kept[i] == files[i] && kept[j] == files[j]);
    }
}

/// The paths that begin with a prefix ascend where all of them do.
proof fn lemma_under_ascends(files: Seq<Seq<char>>, prefix: Option<Seq<char>>)
    requires
        order::ascending(files),
    ensures
        order::ascending(under(files, prefix)),
        forall|k: int|
            0 <= k < under(files, prefix).len() ==> files.contains(
                #[trigger] under(files, prefix)[k],
            ),
    decreases files.len(),
{
    if files.len() > 0 {
        let rest = files.drop_last();
        assert forall|i: int, j: int| 0 <= i < j < rest.len() implies order::before(
            #[trigger] rest[i],
            #[trigger] rest[j],
        ) by {
            assert(rest[i] == files[i] && rest[j] == files[j]);
        }
        lemma_under_ascends(rest, prefix);
        let kept = under(rest, prefix);
        let out = under(files, prefix);
        assert forall|k: int| 0 <= k < out.len() implies files.contains(#[trigger] out[k]) by {
            if k < kept.len() {
                assert(out[k] == kept[k]);
                let i = choose|i: int| 0 <= i < rest.len() && rest[i] == kept[k];
                assert(files[i] == out[k]);
            } else {
                assert(files[files.len() - 1] == out[k]);
            }
        }
        assert forall|i: int, j: int| 0 <= i < j < out.len() implies order::before(
            #[trigger] out[i],
            #[trigger] out[j],
        ) by {
            assert(out[i] == kept[i]);
            if j < kept.len() {
                assert(out[j] == kept[j]);
            } else {
                let k = choose|k: int| 0 <= k < rest.len() && rest[k] == kept[i];
                assert(order::before(files[k], files[files.len() - 1]));
            }
        }
    }
}

/// Occurrences that stand apart have ids of their own: no id names two of them.
pub proof fn law_no_id_names_two_occurrences(found: Seq<OccurrenceView>, i: int, j: int)
    requires
        apart(found),
        0 <= i < j < found.len(),
    ensures
        found[i].id != found[j].id,
{
    let a = found[i];
    let b = found[j];
    if a.id == b.id {
        lemma_id(a.file, a.line, a.start_char);
        lemma_id(b.file, b.line, b.start_char);
        words::lemma_decimal(a.start_char as nat, b.start_char as nat);
        words::lemma_decimal(a.line as nat, b.line as nat);
        assert(a.end_char <= b.start_char);
    }
}

/// An id can be taken apart: what stands behind its last `:` is the offset, what stands between its
/// last `@` and that is the line, and the rest is the file.
proof fn lemma_id(file: Seq<char>, line: u32, start_char: u32)
    ensures
        ({
            let place = file + "@"@ + words::decimal(line as nat);
            &&& text::rsplit(id_of(file, line, start_char), ':') == Some(
                (place, words::decimal(start_char as nat)),
            )
            &&& text::rsplit(place, '@') == Some((file, words::decimal(line as nat)))
        }),
{
    reveal_strlit("@");
    reveal_strlit(":");
    let place = file + "@"@ + words::decimal(line as nat);
    let id = id_of(file, line, start_char);
    words::lemma_decimal(start_char as nat, 0);
    words::lemma_decimal(line as nat, 0);
    assert(id =~= place + seq![':'] + words::decimal(start_char as nat));
    text::lemma_last_index_of(place, ':', words::decimal(start_char as nat));
    assert(id.take(place.len() as int) =~= place);
    assert(id.skip(place.len() as int + 1) =~= words::decimal(start_char as nat));
    assert(place =~= file + seq!['@'] + words::decimal(line as nat));
    text::lemma_last_index_of(file, '@', words::decimal(line as nat));
    assert(place.take(file.len() as int) =~= file);
    assert(place.skip(file.len() as int + 1) =~= words::decimal(line as nat));
}

/// Occurrences stay literal as the matches of a line are added.
proof fn lemma_literal(
    earlier: Seq<Occurrence>,
    later: Seq<Occurrence>,
    compiled: PatternView,
    template: Seq<char>,
    content: Seq<char>,
    matches: Seq<Match>,
)
    requires
        literal_from(earlier, compiled, template, 0),
        earlier.len() <= later.len(),
        forall|k: int| 0 <= k < earlier.len() ==> #[trigger] later[k] == earlier[k],
        forall|k: int|
            earlier.len() <= k < later.len() ==> of_a_match(#[trigger] later[k], content, matches),
        forall|i: int, plain: Seq<char>|
            0 <= i < matches.len() && template == #[trigger] pattern::doubled(plain) ==> (
            #[trigger] matches[i]).after@ == plain,
        forall|i: int, literal: Seq<char>|
            0 <= i < matches.len() && compiled.source == #[trigger] pattern::escaped(literal)
                && !compiled.ignore_case ==> text::slice(
                content,
                (#[trigger] matches[i]).start as int,
                matches[i].end as int,
            ) == literal,
    ensures
        literal_from(later, compiled, template, 0),
{
    assert forall|i: int, plain: Seq<char>|
        0 <= i < later.len() && template == #[trigger] pattern::doubled(plain) implies (
    #[trigger] later[i]).after@ == plain by {
        if i < earlier.len() {
            assert(later[i] == earlier[i]);
        } else {
            assert(of_a_match(later[i], content, matches));
        }
    }
    assert forall|i: int, literal: Seq<char>|
        0 <= i < later.len() && compiled.source == #[trigger] pattern::escaped(literal)
            && !compiled.ignore_case implies (#[trigger] later[i]).before@ == literal by {
        if i < earlier.len() {
            assert(later[i] == earlier[i]);
        } else {
            assert(of_a_match(later[i], content, matches));
        }
    }
}

/// The answer where a pattern only matches without width.
pub open spec fn zero_width_answer(count: nat) -> JsonView {
    operations::plain_answer(
        "ZERO_WIDTH_UNSUPPORTED"@,
        "the pattern matched "@ + words::decimal(apply::counted(count))
            + " zero-width position(s); bulk_replace only replaces non-empty matches. Use edit_symbol for an insertion."@,
    )
}

/// A prefix without its representation.
pub open spec fn prefix_view(prefix: Option<&str>) -> Option<Seq<char>> {
    match prefix {
        Some(start) => Some(start@),
        None => None,
    }
}

/// Collects occurrences, or the refusal that stops the scan: the occurrences, how many files were
/// scanned, and whether the bounds cut the scan short.
///
/// In literal mode, which doubles the dollars of the replacement and escapes the pattern, every
/// occurrence becomes the replacement as it was written and, where case matters, reads as the
/// pattern as it was written. In either mode every occurrence stands in the source of its file, and
/// they stand apart.
pub fn scan(repository: &Repository, regex: &regex::Regex, template: &str, prefix: Option<&str>) -> (
    result: Result<(Vec<Occurrence>, usize, bool), Json>)
    ensures
        ({
            let files = files_for(*repository, prefix_view(prefix));
            let expected = scanned_files(
                *repository,
                files,
                pattern::compiled_from(*regex),
                template@,
            );
            match result {
                Err(refusal) => expected.found.len() == 0 && expected.zero_width > 0 && refusal@
                    == zero_width_answer(expected.zero_width),
                Ok((found, scanned, capped)) => !(expected.found.len() == 0
                    && expected.zero_width > 0) && occurrence_views(found@) == expected.found
                    && scanned == readable(*repository, files) && capped == expected.capped
                    && literal_from(found@, pattern::compiled_from(*regex), template@, 0)
                    && all_stand(repository.sources@, occurrence_views(found@)) && apart(
                    occurrence_views(found@),
                ),
            }
        }),
{
    let files = indexed_files(repository, prefix);
    proof {
        lemma_files_ascend(*repository, prefix_view(prefix));
    }
    let ghost paths = text::string_views(files@);
    let ghost compiled = pattern::compiled_from(*regex);
    let mut scan = Scan { found: Vec::new(), in_file: 0, zero_width: 0, capped: false };
    let mut scanned: usize = 0;
    assert(occurrence_views(scan.found@) =~= Seq::empty());
    let mut i: usize = 0;
    while i < files.len()
        invariant
            i <= files@.len() <= MAX_FILES,
            paths == text::string_views(files@),
            compiled == pattern::compiled_from(*regex),
            stands_for(
                scan,
                scanned_files(*repository, paths.take(i as int), compiled, template@),
            ),
            scanned == readable(*repository, paths.take(i as int)),
            scanned <= i,
            scan.found@.len() <= MAX_TOTAL,
            scan.in_file <= MAX_PER_FILE,
            literal_from(scan.found@, compiled, template@, 0),
            all_stand(repository.sources@, occurrence_views(scan.found@)),
            order::ascending(paths),
            apart(occurrence_views(scan.found@)),
            forall|k: int|
                0 <= k < scan.found@.len() ==> paths.take(i as int).contains(
                    (#[trigger] scan.found@[k]).file@,
                ),
        decreases files@.len() - i,
    {
        assert(paths.take(i + 1).drop_last() =~= paths.take(i as int));
        let ghost earlier = scan.found@;
        let file = files[i].as_str();
        match evidence::read_source(&repository.sources, file) {
            Some(source) => {
                let ghost now = ScanView {
                    in_file: 0,
                    ..scanned_files(*repository, paths.take(i as int), compiled, template@)
                };
                scanned += 1;
                scan.in_file = 0;
                scan_file(&mut scan, file, source, regex, template, Ghost(now));
                proof {
                    let views = occurrence_views(scan.found@);
                    assert forall|k: int| 0 <= k < views.len() implies occurrence_stands(
                        repository.sources@,
                        #[trigger] views[k],
                    ) by {
                        if k < earlier.len() {
                            assert(scan.found@[k] == earlier[k]);
                            assert(views[k] == occurrence_views(earlier)[k]);
                        } else {
                            assert(stands_in(scan.found@[k], file@, source@));
                        }
                    }
                    assert(paths[i as int] == file@);
                    lemma_files_apart(earlier, scan.found@, paths, i as int);
                }
            },
            None => {
                proof {
                    assert forall|k: int| 0 <= k < scan.found@.len() implies paths.take(
                        i + 1,
                    ).contains((#[trigger] scan.found@[k]).file@) by {
                        let n = choose|n: int|
                            0 <= n < i && paths.take(i as int)[n] == scan.found@[k].file@;
                        assert(paths.take(i + 1)[n] == scan.found@[k].file@);
                    }
                }
            },
        }
        i += 1;
    }
    assert(paths.take(i as int) =~= paths);
    let Scan { found, in_file: _, zero_width, capped } = scan;
    if found.len() == 0 && zero_width > 0 {
        let reason = "the pattern matched ".to_owned().concat(
            words::number(zero_width).as_str(),
        ).concat(
            " zero-width position(s); bulk_replace only replaces non-empty matches. Use edit_symbol for an insertion.",
        );
        return Err(operations::answer("ZERO_WIDTH_UNSUPPORTED", reason.as_str()));
    }
    Ok((found, scanned, capped))
}

/// Lists the occurrences and changes nothing.
fn preview(found: &Vec<Occurrence>, scanned: usize, capped: bool) -> (value: Json)
    ensures
        forall|scan: ScanView|
            scan.found == occurrence_views(found@) && scan.capped == capped ==> value@
                == #[trigger] preview_answer(scan, scanned as nat),
{
    let mut items = Items::new();
    let ghost all = occurrence_values(occurrence_views(found@));
    let mut i: usize = 0;
    while i < found.len()
        invariant
            i <= found@.len(),
            all == occurrence_values(occurrence_views(found@)),
            items@ =~= all.take(i as int),
        decreases found@.len() - i,
    {
        let one = &found[i];
        assert(all[i as int] == occurrence_value(one@));
        items.push(
            Fields::new().with_text("id", one.id.as_str()).with_text(
                "file",
                one.file.as_str(),
            ).with_number("line", one.line as u64).with_text(
                "before",
                one.before.as_str(),
            ).with_text("after", one.after.as_str()).with_text(
                "excerpt",
                one.excerpt.as_str(),
            ).done(),
        );
        i += 1;
    }
    assert(items@ =~= all);
    Fields::new().with_text("status", "PREVIEW").with_number(
        "total",
        found.len() as u64,
    ).with_number("scannedFiles", scanned as u64).with("capped", Json::Bool(capped)).with_list(
        "occurrences",
        items,
    ).with_text(
        "next",
        "call again with occurrence_ids=[...] to plan a selection, or expected_count=<total> to plan every one of them",
    ).done()
}

/// The ids of a selection, ascending.
fn read_selection(selection: &Vec<Json>) -> (ids: Vec<String>)
    ensures
        text::string_views(ids@) == wanted(json::list_view(selection@)),
{
    let ghost all = json::list_view(selection@);
    proof {
        json::lemma_list_view(selection@);
    }
    let mut ids: Vec<String> = Vec::new();
    assert(text::string_views(ids@) =~= Seq::empty());
    let mut i: usize = 0;
    while i < selection.len()
        invariant
            i <= selection@.len(),
            all.len() == selection@.len(),
            forall|k: int| 0 <= k < selection@.len() ==> #[trigger] all[k] == selection@[k]@,
            text::string_views(ids@) == wanted(all.take(i as int)),
        decreases selection@.len() - i,
    {
        assert(all.take(i + 1).drop_last() =~= all.take(i as int));
        assert(all[i as int] == selection@[i as int]@);
        match selection[i].as_str() {
            Some(id) => {
                order::insert(&mut ids, id);
            },
            None => {},
        }
        i += 1;
    }
    assert(all.take(i as int) =~= all);
    ids
}

/// Whether an id is that of an occurrence.
fn is_known(found: &Vec<Occurrence>, id: &str) -> (is: bool)
    ensures
        is == known(occurrence_views(found@), id@),
{
    let ghost all = occurrence_views(found@);
    let mut i: usize = 0;
    while i < found.len()
        invariant
            i <= found@.len(),
            all == occurrence_views(found@),
            forall|k: int| 0 <= k < i ==> (#[trigger] all[k]).id != id@,
        decreases found@.len() - i,
    {
        assert(all[i as int] == found@[i as int]@);
        if text::same(found[i].id.as_str(), id) {
            return true;
        }
        i += 1;
    }
    false
}

/// The ids that are those of no occurrence.
fn find_unknown(found: &Vec<Occurrence>, ids: &Vec<String>) -> (strays: Vec<String>)
    ensures
        text::string_views(strays@) == unknown(
            occurrence_views(found@),
            text::string_views(ids@),
        ),
{
    let ghost all = text::string_views(ids@);
    let mut strays: Vec<String> = Vec::new();
    assert(text::string_views(strays@) =~= Seq::empty());
    let mut i: usize = 0;
    while i < ids.len()
        invariant
            i <= ids@.len(),
            all == text::string_views(ids@),
            text::string_views(strays@) == unknown(
                occurrence_views(found@),
                all.take(i as int),
            ),
        decreases ids@.len() - i,
    {
        assert(all.take(i + 1).drop_last() =~= all.take(i as int));
        if !is_known(found, ids[i].as_str()) {
            let stray = ids[i].clone();
            assert(text::string_views(strays@.push(stray)) =~= text::string_views(strays@).push(
                stray@,
            ));
            strays.push(stray);
        }
        i += 1;
    }
    assert(all.take(i as int) =~= all);
    strays
}

/// Where the occurrences whose ids are wanted stand.
fn choose_wanted(found: &Vec<Occurrence>, ids: &Vec<String>) -> (places: Vec<usize>)
    ensures
        picked_views(found@, places@) == chosen(
            occurrence_views(found@),
            text::string_views(ids@),
        ),
        forall|i: int| 0 <= i < places@.len() ==> #[trigger] places@[i] < found@.len(),
{
    let ghost all = occurrence_views(found@);
    let ghost names = text::string_views(ids@);
    let mut places: Vec<usize> = Vec::new();
    assert(picked_views(found@, places@) =~= Seq::empty());
    let mut i: usize = 0;
    while i < found.len()
        invariant
            i <= found@.len(),
            all == occurrence_views(found@),
            names == text::string_views(ids@),
            picked_views(found@, places@) == chosen(all.take(i as int), names),
            forall|k: int| 0 <= k < places@.len() ==> #[trigger] places@[k] < found@.len(),
        decreases found@.len() - i,
    {
        assert(all.take(i + 1).drop_last() =~= all.take(i as int));
        if order::has(ids, found[i].id.as_str()) {
            assert(picked_views(found@, places@.push(i)) =~= picked_views(found@, places@).push(
                found@[i as int]@,
            ));
            places.push(i);
        }
        i += 1;
    }
    assert(all.take(i as int) =~= all);
    places
}

/// The occurrences at some places.
spec fn picked_views(found: Seq<Occurrence>, places: Seq<usize>) -> Seq<OccurrenceView> {
    Seq::new(places.len(), |i: int| found[places[i] as int].view())
}

/// Where every occurrence stands.
fn choose_all(found: &Vec<Occurrence>) -> (places: Vec<usize>)
    ensures
        picked_views(found@, places@) == occurrence_views(found@),
        forall|i: int| 0 <= i < places@.len() ==> #[trigger] places@[i] < found@.len(),
{
    let mut places: Vec<usize> = Vec::new();
    let mut i: usize = 0;
    while i < found.len()
        invariant
            i <= found@.len(),
            places@.len() == i,
            forall|k: int| 0 <= k < i ==> #[trigger] places@[k] == k,
        decreases found@.len() - i,
    {
        places.push(i);
        i += 1;
    }
    assert(picked_views(found@, places@) =~= occurrence_views(found@));
    places
}

/// The places of the occurrences that a call selects, or the refusal of the selection.
fn select(found: &Vec<Occurrence>, selection: Option<&Vec<Json>>, expected: Option<u64>) -> (picked:
    Result<Vec<usize>, Json>)
    ensures
        match (
            picked,
            selected(
                occurrence_views(found@),
                match selection {
                    Some(values) => Some(json::list_view(values@)),
                    None => None,
                },
                match expected {
                    Some(count) => Some(count as nat),
                    None => None,
                },
            ),
        ) {
            (Ok(places), Ok(occurrences)) => picked_views(found@, places@) == occurrences,
            (Err(refusal), Err(answer)) => refusal@ == answer,
            _ => false,
        },
        picked matches Ok(places) ==> forall|i: int|
            0 <= i < places@.len() ==> #[trigger] places@[i] < found@.len(),
{
    match selection {
        Some(values) => {
            let ids = read_selection(values);
            if ids.len() == 0 {
                return Err(
                    operations::answer(
                        "NO_SELECTION",
                        "occurrence_ids was empty; select at least one occurrence, or pass expected_count to plan them all",
                    ),
                );
            }
            let strays = find_unknown(found, &ids);
            if strays.len() > 0 {
                return Err(
                    Fields::new().with_text("status", "UNKNOWN_OCCURRENCES").with_text(
                        "reason",
                        "some occurrence_ids do not match the current scan; the files changed. Preview again and reselect.",
                    ).with_list("unknown", operations::string_items(&strays)).done(),
                );
            }
            Ok(choose_wanted(found, &ids))
        },
        None => {
            let count: u64 = match expected {
                Some(number) => number,
                None => 0,
            };
            if count != found.len() as u64 {
                let reason = "expected_count is ".to_owned().concat(
                    words::number(count).as_str(),
                ).concat(" but the scan found ").concat(
                    words::number(found.len() as u64).as_str(),
                ).concat("; the files changed since the preview. Nothing was planned.");
                return Err(
                    Fields::new().with_text("status", "COUNT_MISMATCH").with_text(
                        "reason",
                        reason.as_str(),
                    ).with_number("total", found.len() as u64).done(),
                );
            }
            Ok(choose_all(found))
        },
    }
}

/// Plans a selection.
fn plan_selection(
    repository: &Repository,
    found: &Vec<Occurrence>,
    selection: Option<&Vec<Json>>,
    expected: Option<u64>,
    scanned: usize,
) -> (value: Json)
    ensures
        value@ == plan_answer(
            *repository,
            occurrence_views(found@),
            match selection {
                Some(values) => Some(json::list_view(values@)),
                None => None,
            },
            match expected {
                Some(count) => Some(count as nat),
                None => None,
            },
            scanned as nat,
        ),
{
    let places = match select(found, selection, expected) {
        Ok(places) => places,
        Err(refusal) => {
            return refusal;
        },
    };
    let ghost picked = picked_views(found@, places@);
    let ghost start = BuilderView::start("bulk_replace"@);
    let mut builder = PlanBuilder::new("bulk_replace");
    let mut i: usize = 0;
    while i < places.len()
        invariant
            i <= places@.len(),
            picked == picked_views(found@, places@),
            start == BuilderView::start("bulk_replace"@),
            forall|k: int| 0 <= k < places@.len() ==> #[trigger] places@[k] < found@.len(),
            selected(
                occurrence_views(found@),
                match selection {
                    Some(values) => Some(json::list_view(values@)),
                    None => None,
                },
                match expected {
                    Some(count) => Some(count as nat),
                    None => None,
                },
            ) == Ok::<Seq<OccurrenceView>, JsonView>(picked),
            planned_from(*repository, start, picked, 0) == planned_from(
                *repository,
                builder@,
                picked,
                i as int,
            ),
        decreases places@.len() - i,
    {
        let one = &found[places[i]];
        assert(picked[i as int] == one@);
        let file = one.file.as_str();
        let source = match evidence::read_source(&repository.sources, file) {
            Some(source) => source,
            None => {
                let reason = file.to_owned().concat(": unreadable while planning");
                return operations::answer("SOURCE_UNAVAILABLE", reason.as_str());
            },
        };
        builder = builder.file(file, plan::sha256_of(source).as_str()).edit(
            one.line,
            one.start_char,
            one.line,
            one.end_char,
            one.before.as_str(),
            one.after.as_str(),
            "LEXICAL_EXACT",
        );
        i += 1;
    }
    let mut warnings = Items::new();
    warnings.push(json::string("INDEXED_FILES_ONLY"));
    Fields::new().with_text("status", "PLANNED").with_text("completeness", "PARTIAL").with_number(
        "total",
        places.len() as u64,
    ).with_number("scannedFiles", scanned as u64).with("plan", builder.build()).with_list(
        "warnings",
        warnings,
    ).with_text("next", "apply with apply_edit_plan (preview -> confirm)").done()
}

/// Answers a call once its pattern is compiled: a preview, or the plan of a selection.
///
/// The template is the replacement itself, or in literal mode the replacement with its dollars
/// doubled.
pub fn replace_compiled(
    repository: &Repository,
    arguments: &Json,
    regex: &regex::Regex,
    template: &str,
) -> (value: Json)
    ensures
        value@ == compiled_answer(
            *repository,
            arguments@,
            pattern::compiled_from(*regex),
            template@,
        ),
        fit::answer_fits(repository.sources@, value@),
{
    proof {
        lemma_no_plan();
    }
    let (found, scanned, capped) = match scan(
        repository,
        regex,
        template,
        arguments.text("path_prefix"),
    ) {
        Ok(scanned) => scanned,
        Err(refusal) => {
            return refusal;
        },
    };
    if found.len() == 0 {
        return Fields::new().with_text("status", "NO_MATCHES").with_text(
            "reason",
            "no occurrence of the pattern exists in the indexed files",
        ).with_number("scannedFiles", scanned as u64).done();
    }
    let selection = arguments.list("occurrence_ids");
    let expected = arguments.number("expected_count");
    if selection.is_none() && expected.is_none() {
        proof {
            law_a_preview_plans_nothing(
                ScanView {
                    found: occurrence_views(found@),
                    in_file: 0,
                    zero_width: 0,
                    capped,
                },
                scanned as nat,
            );
        }
        return preview(&found, scanned, capped);
    }
    proof {
        lemma_selection_fits(
            *repository,
            occurrence_views(found@),
            match selection {
                Some(values) => Some(json::list_view(values@)),
                None => None,
            },
            match expected {
                Some(count) => Some(count as nat),
                None => None,
            },
            scanned as nat,
        );
    }
    plan_selection(repository, &found, selection, expected, scanned)
}

/// `bulk_replace`: occurrences first, then a plan of the ones that were chosen.
///
/// Whether a pattern within the bounds compiles is the pattern compiler's to say, so the answer is
/// the one for some outcome of it; a pattern outside the bounds never reaches it, and a literal one
/// compiles where case matters. Whatever the outcome, every edit of a plan stands in the source it
/// was made from.
pub fn bulk_replace(repository: &Repository, arguments: &Json) -> (value: Json)
    ensures
        exists|refused: Option<Seq<char>>|
            value@ == #[trigger] bulk_replace_answer(*repository, arguments@, refused),
        fit::answer_fits(repository.sources@, value@),
{
    proof {
        reveal(bulk_replace_answer);
        lemma_no_plan();
    }
    let ghost none: Option<Seq<char>> = None;
    let pattern = match arguments.text("pattern") {
        Some(pattern) => pattern,
        None => {
            let value = operations::missing_one("bulk_replace", "pattern");
            assert(value@ == bulk_replace_answer(*repository, arguments@, none));
            return value;
        },
    };
    let replacement = match arguments.text("replacement") {
        Some(replacement) => replacement,
        None => {
            let value = operations::missing_one("bulk_replace", "replacement");
            assert(value@ == bulk_replace_answer(*repository, arguments@, none));
            return value;
        },
    };
    let literal = match arguments.flag("literal") {
        Some(literal) => literal,
        None => true,
    };
    proof {
        reveal_strlit("");
    }
    let flags = match arguments.text("flags") {
        Some(flags) => flags,
        None => "",
    };
    assert(flags@ =~= match arguments@.text("flags"@) {
        Some(given) => given,
        None => Seq::empty(),
    });
    let regex = match matcher(pattern, literal, flags) {
        Ok(regex) => regex,
        Err(refusal) => {
            proof {
                match pattern_for(pattern@, literal, flags@) {
                    Err(_) => {
                        assert(refusal@ == bulk_replace_answer(*repository, arguments@, none));
                    },
                    Ok(_) => {
                        let reason = choose|reason: Seq<char>|
                            refusal@ == #[trigger] invalid_pattern(reason);
                        assert(refusal@ == bulk_replace_answer(
                            *repository,
                            arguments@,
                            Some(reason),
                        ));
                    },
                }
            }
            return refusal;
        },
    };
    // In literal mode the replacement is text, not a template: `$1` in a name is a name.
    let template = if literal {
        pattern::double_dollars(replacement)
    } else {
        replacement.to_owned()
    };
    let value = replace_compiled(repository, arguments, &regex, template.as_str());
    assert(value@ == bulk_replace_answer(*repository, arguments@, none));
    value
}

/// The refusal of a plan keeps to the contract.
proof fn lemma_planned_conforms(
    repository: Repository,
    builder: BuilderView,
    found: Seq<OccurrenceView>,
    from: int,
)
    ensures
        planned_from(repository, builder, found, from) matches Err(refusal) ==> contract::conforms(
            refusal,
        ),
    decreases found.len() - from,
{
    broadcast use json::lemma_with_get;

    contract::lemma_keys();
    if 0 <= from < found.len() {
        let one = found[from];
        match evidence::source_of(repository.sources@, one.file) {
            None => {},
            Some(source) => {
                lemma_planned_conforms(
                    repository,
                    builder.file(one.file, plan::sha256_hex(source)).edit(occurrence_edit(one)),
                    found,
                    from + 1,
                );
            },
        }
    }
}

/// Every answer of this operation keeps to the contract.
pub proof fn law_answers_conform(
    repository: Repository,
    arguments: JsonView,
    refused: Option<Seq<char>>,
)
    ensures
        contract::conforms(bulk_replace_answer(repository, arguments, refused)),
{
    broadcast use json::lemma_with_get;

    reveal(bulk_replace_answer);
    contract::lemma_keys();
    match (arguments.text("pattern"@), arguments.text("replacement"@)) {
        (Some(pattern), Some(replacement)) => {
            let flags = match arguments.text("flags"@) {
                Some(flags) => flags,
                None => Seq::empty(),
            };
            match pattern_for(pattern, is_literal(arguments), flags) {
                Ok(compiled) => {
                    let template = template_for(replacement, is_literal(arguments));
                    let files = files_for(repository, arguments.text("path_prefix"@));
                    let found = scanned_files(repository, files, compiled, template).found;
                    match selected(
                        found,
                        arguments.list("occurrence_ids"@),
                        arguments.number("expected_count"@),
                    ) {
                        Ok(picked) => {
                            lemma_planned_conforms(
                                repository,
                                BuilderView::start("bulk_replace"@),
                                picked,
                                0,
                            );
                        },
                        Err(_) => {},
                    }
                },
                Err(_) => {},
            }
        },
        _ => {},
    }
}

/// A plan of occurrences stays sound, and has edits where it had some or there are occurrences.
proof fn lemma_planned_sound(
    repository: Repository,
    builder: BuilderView,
    found: Seq<OccurrenceView>,
    from: int,
)
    requires
        0 <= from <= found.len(),
        envelope::sound(builder),
    ensures
        planned_from(repository, builder, found, from) matches Ok(planned) ==> envelope::sound(
            planned,
        ) && (!builder.is_empty() || from < found.len() ==> !planned.is_empty()),
    decreases found.len() - from,
{
    broadcast use envelope::lemma_sound_file, envelope::lemma_sound_edit;

    if from < found.len() {
        let one = found[from];
        match evidence::source_of(repository.sources@, one.file) {
            None => {},
            Some(source) => {
                let opened = builder.file(one.file, plan::sha256_hex(source));
                let edit = occurrence_edit(one);
                let next = opened.edit(edit);
                assert(envelope::sound(opened));
                assert(next.files[opened.current->0].edits.len() > 0);
                lemma_planned_sound(repository, next, found, from + 1);
            },
        }
    }
}

/// The plan of a selection is one that the applier reads back.
pub proof fn law_the_plan_reads_back(repository: Repository, picked: Seq<OccurrenceView>)
    requires
        picked.len() > 0,
    ensures
        planned_from(repository, BuilderView::start("bulk_replace"@), picked, 0) matches Ok(
            planned,
        ) ==> envelope::plan_of(plan::plan_value(planned.plan())) == Ok::<PlanView, Seq<char>>(
            planned.plan(),
        ),
{
    broadcast use envelope::lemma_sound_start;

    let start = BuilderView::start("bulk_replace"@);
    lemma_planned_sound(repository, start, picked, 0);
    match planned_from(repository, start, picked, 0) {
        Ok(planned) => {
            envelope::law_a_sound_plan_reads_back(planned);
        },
        Err(_) => {},
    }
}

/// A plan of occurrences that stand fits the sources.
proof fn lemma_planned_fits(
    repository: Repository,
    builder: BuilderView,
    found: Seq<OccurrenceView>,
    from: int,
)
    requires
        0 <= from <= found.len(),
        fit::fits(repository.sources@, builder),
        all_stand(repository.sources@, found),
    ensures
        planned_from(repository, builder, found, from) matches Ok(planned) ==> fit::fits(
            repository.sources@,
            planned,
        ),
    decreases found.len() - from,
{
    let sources = repository.sources@;
    if from < found.len() {
        let one = found[from];
        assert(occurrence_stands(sources, one));
        let source = evidence::source_of(sources, one.file)->0;
        let opened = builder.file(one.file, plan::sha256_hex(source));
        fit::lemma_fits_file(sources, builder, one.file, source);
        fit::lemma_fits_edit(sources, opened, source, occurrence_edit(one));
        lemma_planned_fits(repository, opened.edit(occurrence_edit(one)), found, from + 1);
    }
}

/// The chosen of occurrences that stand, stand.
proof fn lemma_chosen_stand(
    sources: Seq<SourceFile>,
    found: Seq<OccurrenceView>,
    ids: Seq<Seq<char>>,
)
    requires
        all_stand(sources, found),
    ensures
        all_stand(sources, chosen(found, ids)),
{
    let all = chosen(found, ids);
    assert forall|i: int| 0 <= i < all.len() implies occurrence_stands(
        sources,
        #[trigger] all[i],
    ) by {
        assert(all.contains(all[i]));
        lemma_chosen(found, ids, all[i]);
        let k = choose|k: int| 0 <= k < found.len() && found[k] == all[i];
        assert(occurrence_stands(sources, found[k]));
    }
}

/// The refusals of this operation carry no plan.
proof fn lemma_no_plan()
    ensures
        forall|status: Seq<char>, reason: Seq<char>|
            (#[trigger] operations::plain_answer(status, reason)).get("plan"@) is None,
        forall|status: Seq<char>, reason: Seq<char>, scanned: nat|
            (#[trigger] operations::plain_answer(status, reason).with_number(
                "scannedFiles"@,
                scanned,
            )).get("plan"@) is None,
        forall|operation: Seq<char>, missing: Seq<Seq<char>>|
            (#[trigger] operations::invalid_args_value(operation, missing)).get("plan"@) is None,
{
    broadcast use json::lemma_with_get;

    fit::lemma_plan_key();
}

/// The answer to a selection of occurrences that stand fits the sources.
proof fn lemma_selection_fits(
    repository: Repository,
    found: Seq<OccurrenceView>,
    selection: Option<Seq<JsonView>>,
    expected: Option<nat>,
    scanned: nat,
)
    requires
        all_stand(repository.sources@, found),
    ensures
        fit::answer_fits(
            repository.sources@,
            plan_answer(repository, found, selection, expected, scanned),
        ),
{
    broadcast use json::lemma_with_get, envelope::lemma_sound_start;

    fit::lemma_plan_key();
    let sources = repository.sources@;
    let answer = plan_answer(repository, found, selection, expected, scanned);
    let start = BuilderView::start("bulk_replace"@);
    match selected(found, selection, expected) {
        Ok(picked) => {
            match selection {
                Some(values) => {
                    lemma_chosen_stand(sources, found, wanted(values));
                },
                None => {},
            }
            fit::lemma_fits_start(sources, "bulk_replace"@);
            lemma_planned_fits(repository, start, picked, 0);
            lemma_planned_sound(repository, start, picked, 0);
            lemma_refused_plan(repository, start, picked, 0);
            match planned_from(repository, start, picked, 0) {
                Ok(planned) => {
                    fit::lemma_answer_fits(sources, answer, planned);
                },
                Err(_) => {},
            }
        },
        Err(_) => {},
    }
}

/// The refusal of a plan carries none.
proof fn lemma_refused_plan(
    repository: Repository,
    builder: BuilderView,
    found: Seq<OccurrenceView>,
    from: int,
)
    ensures
        planned_from(repository, builder, found, from) matches Err(refusal) ==> refusal.get(
            "plan"@,
        ) is None,
    decreases found.len() - from,
{
    broadcast use json::lemma_with_get;

    fit::lemma_plan_key();
    if 0 <= from < found.len() {
        let one = found[from];
        match evidence::source_of(repository.sources@, one.file) {
            None => {},
            Some(source) => {
                lemma_refused_plan(
                    repository,
                    builder.file(one.file, plan::sha256_hex(source)).edit(occurrence_edit(one)),
                    found,
                    from + 1,
                );
            },
        }
    }
}

/// The wanted ids are the texts of the selection.
proof fn lemma_wanted(selection: Seq<JsonView>, id: Seq<char>)
    ensures
        order::ascending(wanted(selection)),
        wanted(selection).contains(id) <==> selection.contains(JsonView::Text(id)),
    decreases selection.len(),
{
    if selection.len() > 0 {
        let rest = selection.drop_last();
        lemma_wanted(rest, id);
        if rest.contains(JsonView::Text(id)) {
            let k = choose|k: int| 0 <= k < rest.len() && rest[k] == JsonView::Text(id);
            assert(selection[k] == JsonView::Text(id));
        }
        if selection.contains(JsonView::Text(id)) {
            let k = choose|k: int| 0 <= k < selection.len() && selection[k] == JsonView::Text(id);
            if k < rest.len() {
                assert(rest[k] == JsonView::Text(id));
            }
        }
        match selection.last() {
            JsonView::Text(own) => {
                order::lemma_inserted(wanted(rest), own);
                assert(selection[selection.len() - 1] == JsonView::Text(own));
            },
            _ => {},
        }
    }
}

/// The chosen occurrences are those whose ids are wanted.
proof fn lemma_chosen(found: Seq<OccurrenceView>, ids: Seq<Seq<char>>, one: OccurrenceView)
    ensures
        chosen(found, ids).contains(one) <==> found.contains(one) && ids.contains(one.id),
    decreases found.len(),
{
    if found.len() > 0 {
        let rest = found.drop_last();
        let before = chosen(rest, ids);
        let all = chosen(found, ids);
        lemma_chosen(rest, ids, one);
        if all.contains(one) {
            let k = choose|k: int| 0 <= k < all.len() && all[k] == one;
            if k < before.len() {
                assert(before[k] == one);
                let i = choose|i: int| 0 <= i < rest.len() && rest[i] == one;
                assert(found[i] == one);
            } else {
                assert(found[found.len() - 1] == one);
            }
        }
        if found.contains(one) && ids.contains(one.id) {
            let i = choose|i: int| 0 <= i < found.len() && found[i] == one;
            if i < rest.len() {
                assert(rest[i] == one);
                let k = choose|k: int| 0 <= k < before.len() && before[k] == one;
                assert(all[k] == one);
            } else {
                assert(all[before.len() as int] == one);
            }
        }
    }
}

/// Ids of which none is unknown are all known.
proof fn lemma_none_unknown(found: Seq<OccurrenceView>, ids: Seq<Seq<char>>, at: int)
    requires
        0 <= at < ids.len(),
        unknown(found, ids).len() == 0,
    ensures
        known(found, ids[at]),
    decreases ids.len(),
{
    if at < ids.len() - 1 {
        assert(ids.drop_last()[at] == ids[at]);
        lemma_none_unknown(found, ids.drop_last(), at);
    }
}

/// A selection plans only the chosen occurrences, and all of them: an occurrence is planned exactly
/// where its id was given, and every id that was given is one of the scan.
pub proof fn law_a_selection_plans_what_was_chosen(
    found: Seq<OccurrenceView>,
    selection: Seq<JsonView>,
    expected: Option<nat>,
    one: OccurrenceView,
    id: Seq<char>,
)
    requires
        selected(found, Some(selection), expected) is Ok,
    ensures
        selected(found, Some(selection), expected)->Ok_0.contains(one) <==> found.contains(one)
            && selection.contains(JsonView::Text(one.id)),
        selection.contains(JsonView::Text(id)) ==> known(found, id),
{
    let ids = wanted(selection);
    lemma_wanted(selection, one.id);
    lemma_wanted(selection, id);
    lemma_chosen(found, ids, one);
    if ids.contains(id) {
        let at = choose|at: int| 0 <= at < ids.len() && ids[at] == id;
        lemma_none_unknown(found, ids, at);
    }
}

/// Planning everything requires the count to match: without a selection every occurrence is
/// planned or none is.
pub proof fn law_planning_everything_takes_the_count(
    found: Seq<OccurrenceView>,
    expected: nat,
)
    ensures
        expected == found.len() ==> selected(found, None, Some(expected)) == Ok::<
            Seq<OccurrenceView>,
            JsonView,
        >(found),
        expected != found.len() ==> selected(found, None, Some(expected)) is Err,
{
}

/// The first stage lists occurrences and plans nothing.
pub proof fn law_a_preview_plans_nothing(scan: ScanView, scanned: nat)
    ensures
        preview_answer(scan, scanned).get("plan"@) is None,
        preview_answer(scan, scanned).list("occurrences"@) == Some(occurrence_values(scan.found)),
{
    broadcast use json::lemma_with_get;

    reveal_strlit("plan");
    reveal_strlit("status");
    reveal_strlit("total");
    reveal_strlit("scannedFiles");
    reveal_strlit("capped");
    reveal_strlit("occurrences");
    reveal_strlit("next");
    assert("plan"@.len() == 4 && "status"@.len() == 6 && "total"@.len() == 5
        && "scannedFiles"@.len() == 12 && "capped"@.len() == 6 && "occurrences"@.len() == 11
        && "next"@.len() == 4);
    assert("plan"@[0] == 'p' && "next"@[0] == 'n');
}

/// Matches of a line keep a scan within its bounds.
proof fn lemma_matches_bounded(
    scan: ScanView,
    file: Seq<char>,
    source: Seq<char>,
    line: u32,
    content: Seq<char>,
    matches: Seq<MatchView>,
    from: int,
)
    requires
        scan.found.len() <= MAX_TOTAL,
    ensures
        with_matches(scan, file, source, line, content, matches, from).found.len() <= MAX_TOTAL,
    decreases matches.len() - from,
{
    if 0 <= from < matches.len() {
        let found = matches[from];
        if found.start == found.end {
            lemma_matches_bounded(
                ScanView { zero_width: scan.zero_width + 1, ..scan },
                file,
                source,
                line,
                content,
                matches,
                from + 1,
            );
        } else if scan.in_file < MAX_PER_FILE && scan.found.len() < MAX_TOTAL {
            match (
                coordinates::converted(source, line, (found.start + 1) as u32),
                coordinates::converted(source, line, (found.end + 1) as u32),
            ) {
                (Ok(start_char), Ok(end_char)) => {
                    lemma_matches_bounded(
                        ScanView {
                            found: scan.found.push(
                                occurrence(file, line, content, found, start_char, end_char),
                            ),
                            in_file: scan.in_file + 1,
                            ..scan
                        },
                        file,
                        source,
                        line,
                        content,
                        matches,
                        from + 1,
                    );
                },
                _ => {
                    lemma_matches_bounded(scan, file, source, line, content, matches, from + 1);
                },
            }
        }
    }
}

/// Lines of a file keep a scan within its bounds.
proof fn lemma_lines_bounded(
    scan: ScanView,
    file: Seq<char>,
    source: Seq<char>,
    compiled: PatternView,
    template: Seq<char>,
    from: int,
)
    requires
        scan.found.len() <= MAX_TOTAL,
    ensures
        with_lines(scan, file, source, compiled, template, from).found.len() <= MAX_TOTAL,
    decreases coordinates::lines(source).len() - from,
{
    let all = coordinates::lines(source);
    if 0 <= from < all.len() {
        let content = coordinates::without_return(all[from]);
        let matches = pattern::captured(compiled, content, template);
        let next = with_matches(scan, file, source, (from + 1) as u32, content, matches, 0);
        lemma_matches_bounded(scan, file, source, (from + 1) as u32, content, matches, 0);
        if !next.capped {
            lemma_lines_bounded(next, file, source, compiled, template, from + 1);
        }
    }
}

/// A careless pattern cannot turn one call into a repository-sized answer: a scan is bounded,
/// whatever the pattern and the files.
pub proof fn law_a_scan_is_bounded(
    repository: Repository,
    files: Seq<Seq<char>>,
    compiled: PatternView,
    template: Seq<char>,
)
    ensures
        scanned_files(repository, files, compiled, template).found.len() <= MAX_TOTAL,
    decreases files.len(),
{
    if files.len() > 0 {
        law_a_scan_is_bounded(repository, files.drop_last(), compiled, template);
        let before = scanned_files(repository, files.drop_last(), compiled, template);
        match evidence::source_of(repository.sources@, files.last()) {
            Some(source) => {
                lemma_lines_bounded(
                    ScanView { in_file: 0, ..before },
                    files.last(),
                    source,
                    compiled,
                    template,
                    0,
                );
            },
            None => {},
        }
    }
}

} // verus!
