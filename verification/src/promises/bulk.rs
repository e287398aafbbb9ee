//! What replacing in bulk promises: every match of the pattern in the files asked for, and nothing
//! but matches, and of those exactly the ones that were chosen.

use crate::coordinates;
use crate::coordinates::PositionError;
use crate::evidence;
use crate::graph::{Node, Repository};
use crate::json;
use crate::json::JsonView;
use crate::operations::bulk_replace;
use crate::operations::bulk_replace::{OccurrenceView, ScanView};
use crate::operations::move_file;
use crate::operations::rename_plan;
use crate::order;
use crate::pattern;
use crate::pattern::PatternView;
use crate::plan;
use crate::plan::{BuilderView, EditView};
use crate::promises::moves;
use crate::promises::plans;
use crate::promises::signature::plan_read;
use crate::text;
use crate::words;
use vstd::prelude::*;
use vstd::string::*;

verus! {

/// Whether a path is that of an indexed file.
pub open spec fn is_indexed(nodes: Seq<Node>, path: Seq<char>) -> bool {
    path.len() > 0 && exists|n: int|
        0 <= n < nodes.len() && (#[trigger] nodes[n]).kind@ == "file"@ && nodes[n].label@ == path
}

/// Whether a file is one that a call asks for: it is indexed, and its path begins with the prefix
/// where one is given.
pub open spec fn in_scope(nodes: Seq<Node>, prefix: Option<Seq<char>>, path: Seq<char>) -> bool {
    is_indexed(nodes, path) && match prefix {
        Some(start) => start.len() <= path.len() && path.take(start.len() as int) == start,
        None => true,
    }
}

/// The paths under a prefix are those that begin with it, in their order.
proof fn lemma_under(files: Seq<Seq<char>>, prefix: Option<Seq<char>>)
    requires
        order::ascending(files),
    ensures
        order::ascending(bulk_replace::under(files, prefix)),
        forall|path: Seq<char>| #[trigger]
            bulk_replace::under(files, prefix).contains(path) <==> files.contains(path) && match prefix {
                Some(start) => start.len() <= path.len() && path.take(start.len() as int) == start,
                None => true,
            },
    decreases files.len(),
{
    if files.len() > 0 {
        let rest = files.drop_last();
        let last = files.last();
        let before = bulk_replace::under(rest, prefix);
        let all = bulk_replace::under(files, prefix);
        assert forall|i: int, j: int| 0 <= i < j < rest.len() implies order::before(
            #[trigger] rest[i],
            #[trigger] rest[j],
        ) by {
            assert(rest[i] == files[i] && rest[j] == files[j]);
        }
        lemma_under(rest, prefix);
        assert forall|i: int, j: int| 0 <= i < j < all.len() implies order::before(
            #[trigger] all[i],
            #[trigger] all[j],
        ) by {
            assert(all[i] == before[i]);
            if j < before.len() {
                assert(all[j] == before[j]);
            } else {
                assert(before.contains(before[i]));
                let k = choose|k: int| 0 <= k < rest.len() && rest[k] == before[i];
                assert(files[k] == before[i]);
                assert(order::before(files[k], files[files.len() - 1]));
            }
        }
        assert forall|path: Seq<char>| #[trigger] all.contains(path) <==> files.contains(path)
            && match prefix {
            Some(start) => start.len() <= path.len() && path.take(start.len() as int) == start,
            None => true,
        } by {
            assert(files[files.len() - 1] == last);
            if before.contains(path) {
                let i = choose|i: int| 0 <= i < before.len() && before[i] == path;
                assert(all[i] == path);
            }
            if rest.contains(path) {
                let i = choose|i: int| 0 <= i < rest.len() && rest[i] == path;
                assert(files[i] == path);
            }
            if files.contains(path) && path != last {
                let i = choose|i: int| 0 <= i < files.len() && files[i] == path;
                assert(rest[i] == path);
            }
            if all.contains(path) {
                let i = choose|i: int| 0 <= i < all.len() && all[i] == path;
                if i < before.len() {
                    assert(before[i] == path);
                    assert(before.contains(path));
                }
            }
            if all.len() > before.len() {
                assert(all[before.len() as int] == last);
            }
        }
    }
}

/// The files that a call scans are those it asks for and no others, in the order of their paths;
/// one that it asks for is left out only where five thousand come before it.
pub proof fn law_the_files_scanned_are_those_asked_for(
    repository: Repository,
    prefix: Option<Seq<char>>,
    path: Seq<char>,
)
    ensures
        ({
            let files = bulk_replace::files_for(repository, prefix);
            let nodes = repository.graph.nodes@;
            &&& order::ascending(files)
            &&& files.len() <= 5000
            &&& files.contains(path) ==> in_scope(nodes, prefix, path)
            &&& in_scope(nodes, prefix, path) && !files.contains(path) ==> files.len() == 5000
                && forall|i: int| 0 <= i < files.len() ==> order::before(#[trigger] files[i], path)
        }),
{
    let nodes = repository.graph.nodes@;
    let indexed = move_file::indexed(nodes);
    let all = bulk_replace::under(indexed, prefix);
    let files = bulk_replace::files_for(repository, prefix);
    moves::law_the_indexed_files_are_the_file_nodes(nodes);
    lemma_under(indexed, prefix);
    assert(indexed.contains(path) <==> is_indexed(nodes, path)) by {
        if is_indexed(nodes, path) {
            let n = choose|n: int|
                0 <= n < nodes.len() && (#[trigger] nodes[n]).kind@ == "file"@ && nodes[n].label@
                    == path;
            assert(nodes[n].label@ == path);
        }
        if indexed.contains(path) {
            let n = choose|n: int|
                0 <= n < nodes.len() && (#[trigger] nodes[n]).kind@ == "file"@ && nodes[n].label@
                    == path && path.len() > 0;
            assert(nodes[n].label@ == path);
        }
    }
    assert(all.contains(path) <==> in_scope(nodes, prefix, path));
    assert forall|i: int, j: int| 0 <= i < j < files.len() implies order::before(
        #[trigger] files[i],
        #[trigger] files[j],
    ) by {
        assert(files[i] == all[i] && files[j] == all[j]);
    }
    if files.contains(path) {
        let i = choose|i: int| 0 <= i < files.len() && files[i] == path;
        assert(all[i] == path);
    }
    if in_scope(nodes, prefix, path) && !files.contains(path) {
        let k = choose|k: int| 0 <= k < all.len() && all[k] == path;
        if k < files.len() {
            assert(files[k] == path);
        }
        assert forall|i: int| 0 <= i < files.len() implies order::before(
            #[trigger] files[i],
            path,
        ) by {
            assert(files[i] == all[i]);
        }
    }
}

/// Whether an occurrence is a match of a pattern on its line, with something in it, at the place it
/// says, and becomes what the template makes of it.
pub open spec fn is_match(
    repository: Repository,
    compiled: PatternView,
    template: Seq<char>,
    one: OccurrenceView,
    k: int,
) -> bool {
    evidence::source_of(repository.sources@, one.file) matches Some(source) && {
        let all = coordinates::lines(source);
        let content = coordinates::without_return(all[one.line - 1]);
        let matches = pattern::captured(compiled, content, template);
        &&& 1 <= one.line <= all.len()
        &&& 0 <= k < matches.len()
        &&& matches[k].start != matches[k].end
        &&& coordinates::converted(source, one.line, (matches[k].start + 1) as u32) == Ok::<
            u32,
            PositionError,
        >(one.start_char)
        &&& coordinates::converted(source, one.line, (matches[k].end + 1) as u32) == Ok::<
            u32,
            PositionError,
        >(one.end_char)
        &&& one.before == text::slice(content, matches[k].start, matches[k].end)
        &&& one.after == matches[k].after
        &&& one.id == one.file + "@"@ + words::decimal(one.line as nat) + ":"@ + words::decimal(
            one.start_char as nat,
        )
    }
}

/// Whether an occurrence is some match of a pattern.
pub open spec fn is_some_match(
    repository: Repository,
    compiled: PatternView,
    template: Seq<char>,
    one: OccurrenceView,
) -> bool {
    exists|k: int| is_match(repository, compiled, template, one, k)
}

/// Whether two occurrences are the same replacement.
pub open spec fn same_place(a: OccurrenceView, b: OccurrenceView) -> bool {
    a.file == b.file && a.line == b.line && a.start_char == b.start_char && a.end_char == b.end_char
        && a.before == b.before && a.after == b.after && a.id == b.id
}

/// Whether occurrences hold one.
pub open spec fn has_occurrence(found: Seq<OccurrenceView>, one: OccurrenceView) -> bool {
    exists|i: int| 0 <= i < found.len() && same_place(#[trigger] found[i], one)
}

/// Whether a scan has only matches of the pattern in some files.
spec fn sound(
    repository: Repository,
    files: Seq<Seq<char>>,
    compiled: PatternView,
    template: Seq<char>,
    found: Seq<OccurrenceView>,
) -> bool {
    forall|i: int|
        0 <= i < found.len() ==> files.contains((#[trigger] found[i]).file) && is_some_match(
            repository,
            compiled,
            template,
            found[i],
        )
}

/// Whether nothing that was found is lost, and the bound was reached only where a scan is capped.
spec fn grows(scan: ScanView, next: ScanView) -> bool {
    &&& next.found.len() >= scan.found.len()
    &&& forall|i: int| 0 <= i < scan.found.len() ==> next.found[i] == #[trigger] scan.found[i]
    &&& next.in_file <= next.found.len()
    &&& scan.capped ==> next.capped
    &&& next.capped && !scan.capped ==> next.found.len() >= 500
}

/// What the matches of a line add to a scan.
proof fn lemma_matches(
    repository: Repository,
    scan: ScanView,
    files: Seq<Seq<char>>,
    file: Seq<char>,
    source: Seq<char>,
    compiled: PatternView,
    template: Seq<char>,
    line: u32,
    from: int,
)
    requires
        evidence::source_of(repository.sources@, file) == Some(source),
        files.contains(file),
        1 <= line <= coordinates::lines(source).len(),
        sound(repository, files, compiled, template, scan.found),
        scan.in_file <= scan.found.len(),
        0 <= from,
    ensures
        ({
            let content = coordinates::without_return(coordinates::lines(source)[line - 1]);
            let matches = pattern::captured(compiled, content, template);
            let next = bulk_replace::with_matches(
                scan,
                file,
                source,
                line,
                content,
                matches,
                from,
            );
            &&& sound(repository, files, compiled, template, next.found)
            &&& grows(scan, next)
            &&& !next.capped ==> forall|one: OccurrenceView, k: int|
                one.file == file && one.line == line && from <= k && #[trigger] is_match(
                    repository,
                    compiled,
                    template,
                    one,
                    k,
                ) ==> has_occurrence(next.found, one)
        }),
    decreases
            pattern::captured(
                compiled,
                coordinates::without_return(coordinates::lines(source)[line - 1]),
                template,
            ).len() - from,
{
    let content = coordinates::without_return(coordinates::lines(source)[line - 1]);
    let matches = pattern::captured(compiled, content, template);
    let next = bulk_replace::with_matches(scan, file, source, line, content, matches, from);
    if from < matches.len() {
        let found = matches[from];
        let start = coordinates::converted(source, line, (found.start + 1) as u32);
        let end = coordinates::converted(source, line, (found.end + 1) as u32);
        if found.start == found.end {
            let passed = ScanView { zero_width: scan.zero_width + 1, ..scan };
            lemma_matches(
                repository,
                passed,
                files,
                file,
                source,
                compiled,
                template,
                line,
                from + 1,
            );
        } else if scan.in_file >= bulk_replace::MAX_PER_FILE || scan.found.len()
            >= bulk_replace::MAX_TOTAL {
        } else if start is Ok && end is Ok {
            let one = bulk_replace::occurrence(
                file,
                line,
                content,
                found,
                start->Ok_0,
                end->Ok_0,
            );
            let more = ScanView {
                found: scan.found.push(one),
                in_file: scan.in_file + 1,
                ..scan
            };
            assert(is_match(repository, compiled, template, one, from));
            assert forall|i: int| 0 <= i < more.found.len() implies files.contains(
                (#[trigger] more.found[i]).file,
            ) && is_some_match(repository, compiled, template, more.found[i]) by {
                if i < scan.found.len() {
                    assert(more.found[i] == scan.found[i]);
                }
            }
            lemma_matches(
                repository,
                more,
                files,
                file,
                source,
                compiled,
                template,
                line,
                from + 1,
            );
            assert(next.found[scan.found.len() as int] == more.found[scan.found.len() as int]);
            assert forall|i: int| 0 <= i < scan.found.len() implies next.found[i]
                == #[trigger] scan.found[i] by {
                assert(more.found[i] == scan.found[i]);
            }
            if !next.capped {
                assert forall|other: OccurrenceView, k: int|
                    other.file == file && other.line == line && from <= k && #[trigger] is_match(
                        repository,
                        compiled,
                        template,
                        other,
                        k,
                    ) implies has_occurrence(next.found, other) by {
                    if k == from {
                        assert(same_place(next.found[scan.found.len() as int], other));
                    }
                }
            }
        } else {
            lemma_matches(
                repository,
                scan,
                files,
                file,
                source,
                compiled,
                template,
                line,
                from + 1,
            );
        }
    }
}

/// What the lines of a file add to a scan.
proof fn lemma_lines(
    repository: Repository,
    scan: ScanView,
    files: Seq<Seq<char>>,
    file: Seq<char>,
    source: Seq<char>,
    compiled: PatternView,
    template: Seq<char>,
    from: int,
)
    requires
        evidence::source_of(repository.sources@, file) == Some(source),
        coordinates::lines(source).len() <= u32::MAX,
        files.contains(file),
        sound(repository, files, compiled, template, scan.found),
        scan.in_file <= scan.found.len(),
        0 <= from,
    ensures
        ({
            let next = bulk_replace::with_lines(scan, file, source, compiled, template, from);
            &&& sound(repository, files, compiled, template, next.found)
            &&& grows(scan, next)
            &&& !next.capped ==> forall|one: OccurrenceView, k: int|
                one.file == file && from < one.line && #[trigger] is_match(
                    repository,
                    compiled,
                    template,
                    one,
                    k,
                ) ==> has_occurrence(next.found, one)
        }),
    decreases coordinates::lines(source).len() - from,
{
    let all = coordinates::lines(source);
    let next = bulk_replace::with_lines(scan, file, source, compiled, template, from);
    if from < all.len() {
        let line = (from + 1) as u32;
        let content = coordinates::without_return(all[from]);
        let passed = bulk_replace::with_matches(
            scan,
            file,
            source,
            line,
            content,
            pattern::captured(compiled, content, template),
            0,
        );
        lemma_matches(repository, scan, files, file, source, compiled, template, line, 0);
        if !passed.capped {
            lemma_lines(repository, passed, files, file, source, compiled, template, from + 1);
            if !next.capped {
                assert forall|one: OccurrenceView, k: int|
                    one.file == file && from < one.line && #[trigger] is_match(
                        repository,
                        compiled,
                        template,
                        one,
                        k,
                    ) implies has_occurrence(next.found, one) by {
                    if one.line == line {
                        assert(has_occurrence(passed.found, one));
                        let i = choose|i: int|
                            0 <= i < passed.found.len() && same_place(
                                #[trigger] passed.found[i],
                                one,
                            );
                        assert(next.found[i] == passed.found[i]);
                    }
                }
            }
        }
    }
}

/// A scan finds the matches of the pattern in the files it scans, and nothing else: everything
/// found is such a match, and where the bounds did not cut it short, every such match is found. It
/// is cut short only with five hundred occurrences found.
pub proof fn law_a_scan_finds_every_match(
    repository: Repository,
    files: Seq<Seq<char>>,
    compiled: PatternView,
    template: Seq<char>,
)
    ensures
        ({
            let scan = bulk_replace::scanned_files(repository, files, compiled, template);
            &&& forall|i: int|
                0 <= i < scan.found.len() ==> files.contains((#[trigger] scan.found[i]).file)
                    && is_some_match(repository, compiled, template, scan.found[i])
            &&& !scan.capped ==> forall|one: OccurrenceView, k: int|
                files.contains(one.file) && #[trigger] is_match(
                    repository,
                    compiled,
                    template,
                    one,
                    k,
                ) ==> has_occurrence(scan.found, one)
            &&& scan.capped ==> scan.found.len() >= 500
            &&& scan.in_file <= scan.found.len()
        }),
    decreases files.len(),
{
    if files.len() > 0 {
        let rest = files.drop_last();
        let file = files.last();
        let before = bulk_replace::scanned_files(repository, rest, compiled, template);
        let next = bulk_replace::scanned_files(repository, files, compiled, template);
        law_a_scan_finds_every_match(repository, rest, compiled, template);
        assert(files[files.len() - 1] == file);
        assert forall|path: Seq<char>| rest.contains(path) implies #[trigger] files.contains(
            path,
        ) by {
            let i = choose|i: int| 0 <= i < rest.len() && rest[i] == path;
            assert(files[i] == path);
        }
        assert(sound(repository, files, compiled, template, before.found));
        match evidence::source_of(repository.sources@, file) {
            Some(source) => {
                crate::fit::lemma_source_bound(repository.sources@, file);
                coordinates::lemma_line_count(source);
                lemma_lines(
                    repository,
                    ScanView { in_file: 0, ..before },
                    files,
                    file,
                    source,
                    compiled,
                    template,
                    0,
                );
            },
            None => {},
        }
        if !next.capped {
            assert forall|one: OccurrenceView, k: int|
                files.contains(one.file) && #[trigger] is_match(
                    repository,
                    compiled,
                    template,
                    one,
                    k,
                ) implies has_occurrence(next.found, one) by {
                if one.file != file {
                    let f = choose|f: int| 0 <= f < files.len() && files[f] == one.file;
                    assert(rest[f] == one.file);
                    assert(has_occurrence(before.found, one));
                    let i = choose|i: int|
                        0 <= i < before.found.len() && same_place(#[trigger] before.found[i], one);
                    assert(next.found[i] == before.found[i]);
                }
            }
        }
    }
}

/// What a call asks to find: the pattern as text unless the call says that it is none, and its
/// flags.
pub open spec fn asked_pattern(arguments: JsonView, pattern: Seq<char>) -> PatternView {
    let flags = match arguments.text("flags"@) {
        Some(flags) => flags,
        None => Seq::empty(),
    };
    PatternView {
        source: if arguments.flag("literal"@) == Some(false) {
            pattern
        } else {
            pattern::escaped(pattern)
        },
        ignore_case: flags.contains('i'),
        multi_line: flags.contains('m'),
        dot_all: flags.contains('s'),
    }
}

/// What a call asks to write: the replacement as text unless the call says that it is none.
pub open spec fn asked_template(arguments: JsonView, replacement: Seq<char>) -> Seq<char> {
    if arguments.flag("literal"@) == Some(false) {
        replacement
    } else {
        pattern::doubled(replacement)
    }
}

/// Whether an occurrence is one of those that a call asks for: in a file that it asks for, and a
/// match of what it asks to find.
pub open spec fn asked_for(
    repository: Repository,
    arguments: JsonView,
    one: OccurrenceView,
) -> bool {
    arguments.text("pattern"@) matches Some(pattern) && arguments.text("replacement"@) matches Some(
        replacement,
    ) && in_scope(
        repository.graph.nodes@,
        arguments.text("path_prefix"@),
        one.file,
    ) && is_some_match(
        repository,
        asked_pattern(arguments, pattern),
        asked_template(arguments, replacement),
        one,
    )
}

/// Whether an entry of a preview tells of an occurrence.
pub open spec fn tells_of(entry: JsonView, one: OccurrenceView) -> bool {
    &&& entry.text("id"@) == Some(one.id)
    &&& entry.text("file"@) == Some(one.file)
    &&& entry.number("line"@) == Some(one.line as nat)
    &&& entry.text("before"@) == Some(one.before)
    &&& entry.text("after"@) == Some(one.after)
}

/// Whether one of the entries tells of an occurrence.
pub open spec fn some_tells_of(entries: Seq<JsonView>, one: OccurrenceView) -> bool {
    exists|i: int| 0 <= i < entries.len() && tells_of(#[trigger] entries[i], one)
}

/// Whether an entry tells of an occurrence that a call asks for.
pub open spec fn tells_of_asked(
    repository: Repository,
    arguments: JsonView,
    entry: JsonView,
) -> bool {
    exists|one: OccurrenceView| #[trigger]
        asked_for(repository, arguments, one) && tells_of(entry, one)
}

/// The keys that are asked for are no others.
proof fn lemma_keys_apart()
    ensures
        "id"@ != "file"@ && "id"@ != "line"@ && "id"@ != "before"@ && "id"@ != "after"@ && "file"@
            != "line"@ && "file"@ != "before"@ && "file"@ != "after"@ && "line"@ != "before"@
            && "line"@ != "after"@ && "before"@ != "after"@,
        "status"@ != "total"@ && "status"@ != "scannedFiles"@ && "status"@ != "capped"@ && "status"@
            != "occurrences"@ && "status"@ != "plan"@ && "total"@ != "scannedFiles"@ && "total"@
            != "capped"@ && "total"@ != "occurrences"@ && "total"@ != "plan"@ && "scannedFiles"@
            != "capped"@ && "scannedFiles"@ != "occurrences"@ && "scannedFiles"@ != "plan"@
            && "capped"@ != "occurrences"@ && "capped"@ != "plan"@ && "occurrences"@ != "plan"@
            && "next"@ != "plan"@ && "reason"@ != "plan"@ && "unknown"@ != "plan"@
            && "completeness"@ != "plan"@ && "completeness"@ != "total"@ && "warnings"@ != "plan"@,
        "PREVIEW"@ != "PLANNED"@ && "PREVIEW"@ != "NO_MATCHES"@ && "PREVIEW"@
            != "ZERO_WIDTH_UNSUPPORTED"@ && "PREVIEW"@ != "INVALID_PATTERN"@ && "PREVIEW"@
            != "INVALID_ARGS"@ && "PREVIEW"@ != "NO_SELECTION"@ && "PREVIEW"@
            != "UNKNOWN_OCCURRENCES"@ && "PREVIEW"@ != "COUNT_MISMATCH"@ && "PREVIEW"@
            != "SOURCE_UNAVAILABLE"@,
{
    reveal_strlit("id");
    reveal_strlit("file");
    reveal_strlit("line");
    reveal_strlit("before");
    reveal_strlit("after");
    reveal_strlit("status");
    reveal_strlit("total");
    reveal_strlit("scannedFiles");
    reveal_strlit("capped");
    reveal_strlit("occurrences");
    reveal_strlit("plan");
    reveal_strlit("next");
    reveal_strlit("reason");
    reveal_strlit("unknown");
    reveal_strlit("completeness");
    reveal_strlit("warnings");
    assert("file"@[0] == 'f' && "line"@[0] == 'l');
    assert("id"@.len() == 2 && "file"@.len() == 4 && "line"@.len() == 4 && "before"@.len() == 6
        && "after"@.len() == 5);
    assert("status"@[0] == 's' && "capped"@[0] == 'c' && "next"@[0] == 'n' && "plan"@[0] == 'p');
    assert("status"@.len() == 6 && "total"@.len() == 5 && "scannedFiles"@.len() == 12
        && "capped"@.len() == 6 && "occurrences"@.len() == 11 && "plan"@.len() == 4 && "next"@.len()
        == 4 && "reason"@.len() == 6 && "unknown"@.len() == 7 && "completeness"@.len() == 12
        && "warnings"@.len() == 8);
    reveal_strlit("PREVIEW");
    reveal_strlit("PLANNED");
    reveal_strlit("NO_MATCHES");
    reveal_strlit("ZERO_WIDTH_UNSUPPORTED");
    reveal_strlit("INVALID_PATTERN");
    reveal_strlit("INVALID_ARGS");
    reveal_strlit("NO_SELECTION");
    reveal_strlit("UNKNOWN_OCCURRENCES");
    reveal_strlit("COUNT_MISMATCH");
    reveal_strlit("SOURCE_UNAVAILABLE");
    assert("PREVIEW"@[1] == 'R' && "PLANNED"@[1] == 'L');
    assert("PREVIEW"@.len() == 7 && "NO_MATCHES"@.len() == 10 && "ZERO_WIDTH_UNSUPPORTED"@.len()
        == 22 && "INVALID_PATTERN"@.len() == 15 && "INVALID_ARGS"@.len() == 12
        && "NO_SELECTION"@.len() == 12 && "UNKNOWN_OCCURRENCES"@.len() == 19
        && "COUNT_MISMATCH"@.len() == 14 && "SOURCE_UNAVAILABLE"@.len() == 18);
}

/// What is asked for is what is compiled.
proof fn lemma_asked(arguments: JsonView, pattern: Seq<char>, replacement: Seq<char>)
    requires
        arguments.text("pattern"@) == Some(pattern),
        arguments.text("replacement"@) == Some(replacement),
    ensures
        ({
            let literal = bulk_replace::is_literal(arguments);
            let flags = match arguments.text("flags"@) {
                Some(flags) => flags,
                None => Seq::empty(),
            };
            &&& bulk_replace::pattern_for(pattern, literal, flags) matches Ok(compiled) ==> compiled
                == asked_pattern(arguments, pattern)
            &&& bulk_replace::template_for(replacement, literal) == asked_template(
                arguments,
                replacement,
            )
        }),
{
}

/// Everything that a call scans for is asked for.
proof fn lemma_found_is_asked_for(
    repository: Repository,
    arguments: JsonView,
    pattern: Seq<char>,
    replacement: Seq<char>,
    i: int,
)
    requires
        arguments.text("pattern"@) == Some(pattern),
        arguments.text("replacement"@) == Some(replacement),
        0 <= i < scan_of(repository, arguments, pattern, replacement).found.len(),
    ensures
        asked_for(
            repository,
            arguments,
            scan_of(repository, arguments, pattern, replacement).found[i],
        ),
{
    let files = bulk_replace::files_for(repository, arguments.text("path_prefix"@));
    let compiled = asked_pattern(arguments, pattern);
    let template = asked_template(arguments, replacement);
    let scan = scan_of(repository, arguments, pattern, replacement);
    law_a_scan_finds_every_match(repository, files, compiled, template);
    assert(files.contains(scan.found[i].file));
    law_the_files_scanned_are_those_asked_for(
        repository,
        arguments.text("path_prefix"@),
        scan.found[i].file,
    );
}

/// The scan that a call comes to.
spec fn scan_of(
    repository: Repository,
    arguments: JsonView,
    pattern: Seq<char>,
    replacement: Seq<char>,
) -> ScanView {
    bulk_replace::scanned_files(
        repository,
        bulk_replace::files_for(repository, arguments.text("path_prefix"@)),
        asked_pattern(arguments, pattern),
        asked_template(arguments, replacement),
    )
}

/// A preview lists what a call asks for: every entry tells of a match in a file that the call asks
/// for, and where the bounds did not cut it short, every match in a file that is scanned has its
/// entry. Nothing is planned.
pub proof fn law_a_preview_lists_what_is_asked_for(
    repository: Repository,
    arguments: JsonView,
    refused: Option<Seq<char>>,
)
    requires
        bulk_replace::bulk_replace_answer(repository, arguments, refused).text("status"@) == Some(
            "PREVIEW"@,
        ),
    ensures
        ({
            let answer = bulk_replace::bulk_replace_answer(repository, arguments, refused);
            &&& answer.get("plan"@) is None
            &&& answer.list("occurrences"@) matches Some(entries) && answer.number("total"@)
                == Some(entries.len()) && entries.len() > 0 && (forall|i: int|
                0 <= i < entries.len() ==> tells_of_asked(
                    repository,
                    arguments,
                    #[trigger] entries[i],
                )) && (answer.flag("capped"@) == Some(false) ==> forall|one: OccurrenceView|
                bulk_replace::files_for(repository, arguments.text("path_prefix"@)).contains(
                    one.file,
                ) && #[trigger] asked_for(repository, arguments, one) ==> some_tells_of(
                    entries,
                    one,
                ))
            &&& answer.flag("capped"@) == Some(true) ==> answer.number("total"@) is Some
                && answer.number("total"@)->0 >= 500
        }),
{
    broadcast use json::lemma_with_get;

    reveal(bulk_replace::bulk_replace_answer);
    lemma_keys_apart();
    let answer = bulk_replace::bulk_replace_answer(repository, arguments, refused);
    let pattern = arguments.text("pattern"@)->0;
    let replacement = arguments.text("replacement"@)->0;
    lemma_asked(arguments, pattern, replacement);
    let files = bulk_replace::files_for(repository, arguments.text("path_prefix"@));
    let compiled = asked_pattern(arguments, pattern);
    let template = asked_template(arguments, replacement);
    let scan = scan_of(repository, arguments, pattern, replacement);
    lemma_only_a_preview_says_so(repository, arguments, refused);
    assert(answer == bulk_replace::preview_answer(
        scan,
        bulk_replace::readable(repository, files),
    ));
    let entries = bulk_replace::occurrence_values(scan.found);
    assert(answer.list("occurrences"@) == Some(entries));
    law_a_scan_finds_every_match(repository, files, compiled, template);
    assert forall|i: int| 0 <= i < entries.len() implies tells_of_asked(
        repository,
        arguments,
        #[trigger] entries[i],
    ) by {
        lemma_found_is_asked_for(repository, arguments, pattern, replacement, i);
        lemma_entry(scan.found[i]);
        assert(tells_of(entries[i], scan.found[i]));
    }
    if answer.flag("capped"@) == Some(false) {
        assert forall|one: OccurrenceView|
            files.contains(one.file) && #[trigger] asked_for(repository, arguments, one) implies some_tells_of(
            entries,
            one,
        ) by {
            let k = choose|k: int| is_match(repository, compiled, template, one, k);
            assert(has_occurrence(scan.found, one));
            let i = choose|i: int|
                0 <= i < scan.found.len() && same_place(#[trigger] scan.found[i], one);
            lemma_entry(scan.found[i]);
            assert(tells_of(entries[i], one));
        }
    }
}

/// An entry tells of its occurrence.
proof fn lemma_entry(one: OccurrenceView)
    ensures
        tells_of(bulk_replace::occurrence_value(one), one),
{
    broadcast use json::lemma_with_get;

    lemma_keys_apart();
}

/// Only a preview says that it is one.
proof fn lemma_only_a_preview_says_so(
    repository: Repository,
    arguments: JsonView,
    refused: Option<Seq<char>>,
)
    requires
        bulk_replace::bulk_replace_answer(repository, arguments, refused).text("status"@) == Some(
            "PREVIEW"@,
        ),
    ensures
        arguments.text("pattern"@) is Some,
        arguments.text("replacement"@) is Some,
        ({
            let pattern = arguments.text("pattern"@)->0;
            let replacement = arguments.text("replacement"@)->0;
            let files = bulk_replace::files_for(repository, arguments.text("path_prefix"@));
            let scan = scan_of(repository, arguments, pattern, replacement);
            &&& scan.found.len() > 0
            &&& bulk_replace::bulk_replace_answer(repository, arguments, refused)
                == bulk_replace::preview_answer(
                scan,
                bulk_replace::readable(repository, files),
            )
        }),
{
    broadcast use json::lemma_with_get;

    reveal(bulk_replace::bulk_replace_answer);
    lemma_keys_apart();
    match (arguments.text("pattern"@), arguments.text("replacement"@)) {
        (Some(pattern), Some(replacement)) => {
            lemma_asked(arguments, pattern, replacement);
            let scan = scan_of(repository, arguments, pattern, replacement);
            if scan.found.len() > 0 && !(arguments.list("occurrence_ids"@) is None
                && arguments.number("expected_count"@) is None) {
                lemma_plan_status(
                    repository,
                    scan.found,
                    arguments.list("occurrence_ids"@),
                    arguments.number("expected_count"@),
                    0,
                );
                let files = bulk_replace::files_for(repository, arguments.text("path_prefix"@));
                lemma_plan_status(
                    repository,
                    scan.found,
                    arguments.list("occurrence_ids"@),
                    arguments.number("expected_count"@),
                    bulk_replace::readable(repository, files),
                );
            }
        },
        _ => {},
    }
}

/// The answer to a selection is no preview.
proof fn lemma_plan_status(
    repository: Repository,
    found: Seq<OccurrenceView>,
    selection: Option<Seq<JsonView>>,
    expected: Option<nat>,
    scanned: nat,
)
    ensures
        bulk_replace::plan_answer(repository, found, selection, expected, scanned).text("status"@)
            != Some("PREVIEW"@),
{
    broadcast use json::lemma_with_get;

    lemma_keys_apart();
    match bulk_replace::selected(found, selection, expected) {
        Ok(picked) => {
            lemma_planned_refusal(repository, BuilderView::start("bulk_replace"@), picked, 0);
        },
        Err(_) => {},
    }
}

/// A plan fails only for a source that cannot be read.
proof fn lemma_planned_refusal(
    repository: Repository,
    builder: BuilderView,
    found: Seq<OccurrenceView>,
    from: int,
)
    requires
        0 <= from,
    ensures
        bulk_replace::planned_from(repository, builder, found, from) matches Err(refusal)
            ==> refusal.text("status"@) == Some("SOURCE_UNAVAILABLE"@) && refusal.get("plan"@) is None
            && exists|i: int|
            from <= i < found.len() && evidence::source_of(
                repository.sources@,
                (#[trigger] found[i]).file,
            ) is None,
    decreases found.len() - from,
{
    broadcast use json::lemma_with_get;

    lemma_keys_apart();
    if from < found.len() {
        match evidence::source_of(repository.sources@, found[from].file) {
            None => {
                assert(evidence::source_of(repository.sources@, found[from].file) is None);
            },
            Some(source) => {
                lemma_planned_refusal(
                    repository,
                    builder.file(found[from].file, plan::sha256_hex(source)).edit(
                        bulk_replace::occurrence_edit(found[from]),
                    ),
                    found,
                    from + 1,
                );
            },
        }
    }
}

/// The edit that writes what an occurrence becomes over what it is.
pub open spec fn replacing(one: OccurrenceView) -> EditView {
    EditView {
        start_line: one.line,
        start_char: one.start_char,
        end_line: one.line,
        end_char: one.end_char,
        before: one.before,
        after: one.after,
        provenance: "LEXICAL_EXACT"@,
    }
}

/// A plan holds the edits of the occurrences it is made of, and those alone.
proof fn lemma_planned(
    repository: Repository,
    builder: BuilderView,
    found: Seq<OccurrenceView>,
    from: int,
)
    requires
        0 <= from,
    ensures
        bulk_replace::planned_from(repository, builder, found, from) matches Ok(planned) ==> {
            &&& plans::keeps_edits(builder.files, planned.files)
            &&& forall|i: int|
                from <= i < found.len() ==> rename_plan::files_hold(
                    planned.files,
                    (#[trigger] found[i]).file,
                    replacing(found[i]),
                )
            &&& forall|path: Seq<char>, edit: EditView| #[trigger]
                rename_plan::files_hold(planned.files, path, edit) ==> rename_plan::files_hold(
                    builder.files,
                    path,
                    edit,
                ) || is_one_of(found, from, path, edit)
        },
    decreases found.len() - from,
{
    if from < found.len() {
        let one = found[from];
        match evidence::source_of(repository.sources@, one.file) {
            None => {},
            Some(source) => {
                let next = builder.file(one.file, plan::sha256_hex(source)).edit(
                    bulk_replace::occurrence_edit(one),
                );
                plans::lemma_edit_added(
                    builder,
                    one.file,
                    plan::sha256_hex(source),
                    replacing(one),
                );
                lemma_planned(repository, next, found, from + 1);
                match bulk_replace::planned_from(repository, builder, found, from) {
                    Ok(planned) => {
                        assert forall|path: Seq<char>, edit: EditView|
                            rename_plan::files_hold(builder.files, path, edit) implies #[trigger] rename_plan::files_hold(
                            planned.files,
                            path,
                            edit,
                        ) by {
                            assert(rename_plan::files_hold(next.files, path, edit));
                        }
                        assert forall|i: int| from <= i < found.len() implies rename_plan::files_hold(
                            planned.files,
                            (#[trigger] found[i]).file,
                            replacing(found[i]),
                        ) by {
                            if i == from {
                                assert(rename_plan::files_hold(
                                    next.files,
                                    one.file,
                                    replacing(one),
                                ));
                            }
                        }
                        assert forall|path: Seq<char>, edit: EditView| #[trigger]
                            rename_plan::files_hold(planned.files, path, edit) implies rename_plan::files_hold(
                            builder.files,
                            path,
                            edit,
                        ) || is_one_of(found, from, path, edit) by {
                            if rename_plan::files_hold(next.files, path, edit) {
                                plans::lemma_edit_alone(
                                    builder,
                                    one.file,
                                    plan::sha256_hex(source),
                                    replacing(one),
                                    path,
                                    edit,
                                );
                                if !rename_plan::files_hold(builder.files, path, edit) {
                                    assert(found[from].file == path);
                                }
                            } else {
                                let i = choose|i: int|
                                    from + 1 <= i < found.len() && (#[trigger] found[i]).file == path
                                        && edit == replacing(found[i]);
                                assert(found[i].file == path);
                            }
                        }
                    },
                    Err(_) => {},
                }
            },
        }
    }
}

/// Whether an edit of a file is that of one of some occurrences.
spec fn is_one_of(found: Seq<OccurrenceView>, from: int, path: Seq<char>, edit: EditView) -> bool {
    exists|i: int|
        from <= i < found.len() && (#[trigger] found[i]).file == path && edit == replacing(found[i])
}

/// Whether an edit of a file is one that a call asks for and chooses.
pub open spec fn chosen_edit(
    repository: Repository,
    arguments: JsonView,
    path: Seq<char>,
    edit: EditView,
) -> bool {
    exists|one: OccurrenceView| #[trigger]
        asked_for(repository, arguments, one) && one.file == path && edit == replacing(one) && (
        arguments.list("occurrence_ids"@) matches Some(selection) ==> selection.contains(
            JsonView::Text(one.id),
        ))
}

/// Only the answer to a selection carries a plan.
proof fn lemma_only_a_selection_plans(
    repository: Repository,
    arguments: JsonView,
    refused: Option<Seq<char>>,
) -> (picked: Seq<OccurrenceView>)
    requires
        plan_read(bulk_replace::bulk_replace_answer(repository, arguments, refused)) is Some,
    ensures
        arguments.text("pattern"@) is Some,
        arguments.text("replacement"@) is Some,
        ({
            let pattern = arguments.text("pattern"@)->0;
            let replacement = arguments.text("replacement"@)->0;
            let scan = scan_of(repository, arguments, pattern, replacement);
            let plan = plan_read(
                bulk_replace::bulk_replace_answer(repository, arguments, refused),
            )->0;
            &&& bulk_replace::selected(
                scan.found,
                arguments.list("occurrence_ids"@),
                arguments.number("expected_count"@),
            ) == Ok::<Seq<OccurrenceView>, JsonView>(picked)
            &&& bulk_replace::planned_from(
                repository,
                BuilderView::start("bulk_replace"@),
                picked,
                0,
            ) matches Ok(built) && plan == built.plan()
        }),
{
    broadcast use json::lemma_with_get;

    reveal(bulk_replace::bulk_replace_answer);
    lemma_keys_apart();
    let answer = bulk_replace::bulk_replace_answer(repository, arguments, refused);
    let pattern = arguments.text("pattern"@)->0;
    let replacement = arguments.text("replacement"@)->0;
    match (arguments.text("pattern"@), arguments.text("replacement"@)) {
        (Some(pattern), Some(replacement)) => {
            lemma_asked(arguments, pattern, replacement);
        },
        _ => {},
    }
    let scan = scan_of(repository, arguments, pattern, replacement);
    let selection = arguments.list("occurrence_ids"@);
    let expected = arguments.number("expected_count"@);
    match bulk_replace::selected(scan.found, selection, expected) {
        Ok(picked) => {
            let start = BuilderView::start("bulk_replace"@);
            lemma_planned_refusal(repository, start, picked, 0);
            match bulk_replace::planned_from(repository, start, picked, 0) {
                Ok(built) => {
                    if picked.len() > 0 {
                        bulk_replace::law_the_plan_reads_back(repository, picked);
                    } else {
                        crate::envelope::lemma_empty_plan_is_refused(built);
                    }
                },
                Err(_) => {},
            }
            picked
        },
        Err(_) => Seq::empty(),
    }
}

/// A plan replaces nothing but what was asked for and chosen: every edit of it writes what a match
/// becomes over that match, in a file that the call asks for, and is among the ids where the call
/// gives ids. Where the call gives a count in place of ids, that many were found and all are
/// planned.
pub proof fn law_a_plan_replaces_nothing_else(
    repository: Repository,
    arguments: JsonView,
    refused: Option<Seq<char>>,
    path: Seq<char>,
    edit: EditView,
)
    requires
        plan_read(bulk_replace::bulk_replace_answer(repository, arguments, refused)) matches Some(
            plan,
        ) && rename_plan::files_hold(plan.files, path, edit),
    ensures
        chosen_edit(repository, arguments, path, edit),
{
    let picked = lemma_only_a_selection_plans(repository, arguments, refused);
    let pattern = arguments.text("pattern"@)->0;
    let replacement = arguments.text("replacement"@)->0;
    let scan = scan_of(repository, arguments, pattern, replacement);
    let start = BuilderView::start("bulk_replace"@);
    let built = bulk_replace::planned_from(repository, start, picked, 0)->Ok_0;
    lemma_planned(repository, start, picked, 0);
    plans::lemma_unfinished(built, path, edit);
    assert(is_one_of(picked, 0, path, edit));
    let i = choose|i: int|
        0 <= i < picked.len() && (#[trigger] picked[i]).file == path && edit == replacing(picked[i]);
    let one = picked[i];
    assert(picked.contains(one));
    match arguments.list("occurrence_ids"@) {
        Some(selection) => {
            bulk_replace::law_a_selection_plans_what_was_chosen(
                scan.found,
                selection,
                arguments.number("expected_count"@),
                one,
                one.id,
            );
        },
        None => {},
    }
    assert(scan.found.contains(one));
    let k = choose|k: int| 0 <= k < scan.found.len() && scan.found[k] == one;
    lemma_found_is_asked_for(repository, arguments, pattern, replacement, k);
}

/// Whether two calls ask for the same replacement in the same files.
pub open spec fn same_search(a: JsonView, b: JsonView) -> bool {
    &&& a.text("pattern"@) == b.text("pattern"@)
    &&& a.text("replacement"@) == b.text("replacement"@)
    &&& a.text("flags"@) == b.text("flags"@)
    &&& a.flag("literal"@) == b.flag("literal"@)
    &&& a.text("path_prefix"@) == b.text("path_prefix"@)
}

/// Whether every id of a selection is that of an entry, and it has one.
pub open spec fn selects_entries(selection: Seq<JsonView>, entries: Seq<JsonView>) -> bool {
    &&& exists|i: int| 0 <= i < selection.len() && (#[trigger] selection[i]) is Text
    &&& forall|i: int|
        0 <= i < selection.len() && (#[trigger] selection[i]) is Text ==> exists|k: int|
            0 <= k < entries.len() && (#[trigger] entries[k]).text("id"@) == Some(
                selection[i]->Text_0,
            )
}

/// Choosing from a preview plans what was chosen: a second call for the same replacement that gives
/// ids of entries of the preview plans exactly those, and one that gives the preview's total plans
/// every entry of it.
pub proof fn law_choosing_from_a_preview_plans_the_choice(
    repository: Repository,
    first: JsonView,
    second: JsonView,
    refused: Option<Seq<char>>,
    i: int,
)
    requires
        same_search(first, second),
        bulk_replace::bulk_replace_answer(repository, first, refused).text("status"@) == Some(
            "PREVIEW"@,
        ),
        bulk_replace::bulk_replace_answer(repository, first, refused).list("occurrences"@) matches Some(
            entries,
        ) && 0 <= i < entries.len() && (match second.list("occurrence_ids"@) {
            Some(selection) => selects_entries(selection, entries),
            None => second.number("expected_count"@) == Some(entries.len()),
        }),
    ensures
        ({
            let entries = bulk_replace::bulk_replace_answer(repository, first, refused).list(
                "occurrences"@,
            )->0;
            let answer = bulk_replace::bulk_replace_answer(repository, second, refused);
            let selected = second.list("occurrence_ids"@) matches Some(selection)
                ==> selection.contains(JsonView::Text(entries[i].text("id"@)->0));
            &&& answer.text("status"@) == Some("PLANNED"@)
            &&& plan_read(answer) matches Some(plan) && (selected ==> exists|one: OccurrenceView|
                #[trigger] asked_for(repository, first, one) && tells_of(entries[i], one)
                    && rename_plan::files_hold(plan.files, one.file, replacing(one)))
        }),
{
    broadcast use json::lemma_with_get;

    lemma_keys_apart();
    lemma_only_a_preview_says_so(repository, first, refused);
    law_a_preview_lists_what_is_asked_for(repository, first, refused);
    let pattern = first.text("pattern"@)->0;
    let replacement = first.text("replacement"@)->0;
    let scan = scan_of(repository, first, pattern, replacement);
    assert(scan == scan_of(repository, second, pattern, replacement));
    let files = bulk_replace::files_for(repository, first.text("path_prefix"@));
    let before = bulk_replace::bulk_replace_answer(repository, first, refused);
    let entries = bulk_replace::occurrence_values(scan.found);
    assert(before.list("occurrences"@) == Some(entries));
    let answer = bulk_replace::bulk_replace_answer(repository, second, refused);
    let selection = second.list("occurrence_ids"@);
    let expected = second.number("expected_count"@);
    lemma_selectable(scan.found, selection, expected);
    let picked = bulk_replace::selected(scan.found, selection, expected)->Ok_0;
    let start = BuilderView::start("bulk_replace"@);
    assert(answer == bulk_replace::plan_answer(
        repository,
        scan.found,
        selection,
        expected,
        bulk_replace::readable(repository, files),
    )) by {
        reveal(bulk_replace::bulk_replace_answer);
        lemma_asked(first, pattern, replacement);
        lemma_asked(second, pattern, replacement);
        assert(bulk_replace::is_literal(first) == bulk_replace::is_literal(second));
        assert(asked_pattern(first, pattern) == asked_pattern(second, pattern));
        assert(asked_template(first, replacement) == asked_template(second, replacement));
    }
    lemma_planned_refusal(repository, start, picked, 0);
    assert forall|k: int| 0 <= k < picked.len() implies evidence::source_of(
        repository.sources@,
        (#[trigger] picked[k]).file,
    ) is Some by {
        assert(picked.contains(picked[k]));
        if selection is Some {
            bulk_replace::law_a_selection_plans_what_was_chosen(
                scan.found,
                selection->0,
                expected,
                picked[k],
                picked[k].id,
            );
        }
        assert(scan.found.contains(picked[k]));
        let m = choose|m: int| 0 <= m < scan.found.len() && scan.found[m] == picked[k];
        lemma_found_is_asked_for(repository, first, pattern, replacement, m);
    }
    let built = bulk_replace::planned_from(repository, start, picked, 0)->Ok_0;
    lemma_planned(repository, start, picked, 0);
    bulk_replace::law_the_plan_reads_back(repository, picked);
    let plan = plan_read(answer)->0;
    assert(plan == built.plan());
    let one = scan.found[i];
    lemma_entry(one);
    lemma_found_is_asked_for(repository, first, pattern, replacement, i);
    assert(tells_of(entries[i], one));
    if selection is Some ==> selection->0.contains(JsonView::Text(one.id)) {
        assert(scan.found.contains(one));
        if selection is Some {
            bulk_replace::law_a_selection_plans_what_was_chosen(
                scan.found,
                selection->0,
                expected,
                one,
                one.id,
            );
        }
        assert(picked.contains(one));
        let k = choose|k: int| 0 <= k < picked.len() && picked[k] == one;
        assert(rename_plan::files_hold(built.files, picked[k].file, replacing(picked[k])));
        plans::lemma_finished(built, one.file, replacing(one));
    }
}

/// A selection of entries, or their number, is one that can be planned.
proof fn lemma_selectable(
    found: Seq<OccurrenceView>,
    selection: Option<Seq<JsonView>>,
    expected: Option<nat>,
)
    requires
        found.len() > 0,
        match selection {
            Some(values) => selects_entries(values, bulk_replace::occurrence_values(found)),
            None => expected == Some(found.len()),
        },
    ensures
        bulk_replace::selected(found, selection, expected) matches Ok(picked) && picked.len() > 0,
{
    match selection {
        None => {},
        Some(values) => {
            let entries = bulk_replace::occurrence_values(found);
            let ids = bulk_replace::wanted(values);
            let i = choose|i: int| 0 <= i < values.len() && (#[trigger] values[i]) is Text;
            let id = values[i]->Text_0;
            lemma_wanted(values);
            assert(values.contains(JsonView::Text(id)));
            assert(ids.contains(id));
            assert forall|id: Seq<char>| ids.contains(id) implies #[trigger] bulk_replace::known(
                found,
                id,
            ) by {
                assert(values.contains(JsonView::Text(id)));
                let v = choose|v: int| 0 <= v < values.len() && values[v] == JsonView::Text(id);
                assert(values[v] is Text);
                let k = choose|k: int|
                    0 <= k < entries.len() && (#[trigger] entries[k]).text("id"@) == Some(id);
                lemma_entry(found[k]);
                assert(found[k].id == id);
            }
            lemma_none_unknown(found, ids);
            assert(bulk_replace::known(found, id));
            let k = choose|k: int| 0 <= k < found.len() && (#[trigger] found[k]).id == id;
            let picked = bulk_replace::selected(found, selection, expected)->Ok_0;
            bulk_replace::law_a_selection_plans_what_was_chosen(
                found,
                values,
                expected,
                found[k],
                id,
            );
            assert(found.contains(found[k]));
            assert(picked.contains(found[k]));
        },
    }
}

/// The ids that are wanted are the texts of the selection.
proof fn lemma_wanted(selection: Seq<JsonView>)
    ensures
        order::ascending(bulk_replace::wanted(selection)),
        forall|id: Seq<char>| #[trigger]
            bulk_replace::wanted(selection).contains(id) <==> selection.contains(
                JsonView::Text(id),
            ),
    decreases selection.len(),
{
    if selection.len() > 0 {
        let rest = selection.drop_last();
        let last = selection.last();
        lemma_wanted(rest);
        if last is Text {
            order::lemma_inserted(bulk_replace::wanted(rest), last->Text_0);
        }
        assert forall|id: Seq<char>| #[trigger]
            bulk_replace::wanted(selection).contains(id) <==> selection.contains(
                JsonView::Text(id),
            ) by {
            assert(bulk_replace::wanted(rest).contains(id) <==> rest.contains(JsonView::Text(id)));
            assert(selection[selection.len() - 1] == last);
            if rest.contains(JsonView::Text(id)) {
                let k = choose|k: int| 0 <= k < rest.len() && rest[k] == JsonView::Text(id);
                assert(selection[k] == JsonView::Text(id));
            }
            if selection.contains(JsonView::Text(id)) && last != JsonView::Text(id) {
                let k = choose|k: int|
                    0 <= k < selection.len() && selection[k] == JsonView::Text(id);
                assert(rest[k] == JsonView::Text(id));
            }
        }
    }
}

/// Ids that are all known leave none unknown.
proof fn lemma_none_unknown(found: Seq<OccurrenceView>, ids: Seq<Seq<char>>)
    requires
        forall|id: Seq<char>| ids.contains(id) ==> #[trigger] bulk_replace::known(found, id),
    ensures
        bulk_replace::unknown(found, ids).len() == 0,
    decreases ids.len(),
{
    if ids.len() > 0 {
        let rest = ids.drop_last();
        assert(ids[ids.len() - 1] == ids.last());
        assert(ids.contains(ids.last()));
        assert forall|id: Seq<char>| rest.contains(id) implies #[trigger] bulk_replace::known(
            found,
            id,
        ) by {
            let k = choose|k: int| 0 <= k < rest.len() && rest[k] == id;
            assert(ids[k] == id);
            assert(ids.contains(id));
        }
        lemma_none_unknown(found, rest);
    }
}

/// A call that asks for something there is previews it: with a pattern that can be compiled and no
/// choice made, a match in a file that is scanned gives a preview.
pub proof fn law_what_is_there_is_previewed(
    repository: Repository,
    arguments: JsonView,
    pattern: Seq<char>,
    replacement: Seq<char>,
    one: OccurrenceView,
)
    requires
        arguments.text("pattern"@) == Some(pattern),
        arguments.text("replacement"@) == Some(replacement),
        0 < pattern.len(),
        text::bytes(pattern).len() <= 1000,
        arguments.text("flags"@) matches Some(flags) ==> forall|i: int|
            0 <= i < flags.len() ==> #[trigger] flags[i] == 'i' || flags[i] == 'm' || flags[i] == 's',
        arguments.list("occurrence_ids"@) is None,
        arguments.number("expected_count"@) is None,
        asked_for(repository, arguments, one),
        bulk_replace::files_for(repository, arguments.text("path_prefix"@)).contains(one.file),
    ensures
        bulk_replace::bulk_replace_answer(repository, arguments, None).text("status"@) == Some(
            "PREVIEW"@,
        ),
{
    broadcast use json::lemma_with_get;

    reveal(bulk_replace::bulk_replace_answer);
    lemma_keys_apart();
    lemma_asked(arguments, pattern, replacement);
    let files = bulk_replace::files_for(repository, arguments.text("path_prefix"@));
    let compiled = asked_pattern(arguments, pattern);
    let template = asked_template(arguments, replacement);
    let scan = scan_of(repository, arguments, pattern, replacement);
    law_a_scan_finds_every_match(repository, files, compiled, template);
    let k = choose|k: int| is_match(repository, compiled, template, one, k);
    if !scan.capped {
        assert(has_occurrence(scan.found, one));
    }
    assert(scan.found.len() > 0);
}

} // verus!
