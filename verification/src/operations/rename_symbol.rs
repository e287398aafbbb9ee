//! Renaming a symbol from graph evidence.
//!
//! Every edit here is anchored to a reference the graph proved: the declaration, and each site
//! that calls or references it. Within those lines the identifier is matched on word boundaries,
//! so `resolveTarget` never matches inside `resolveTargetPath`.
//!
//! What this backend cannot do is prove the *absence* of other references, so it never claims
//! `COMPLETE`. Occurrences of the same name that the graph does not vouch for are reported as
//! uncertain rather than renamed. That is the difference between renaming a symbol and
//! find-replacing a string.

use crate::contract;
use crate::coordinates;
use crate::evidence;
use crate::graph::Repository;
use crate::json;
use crate::json::{Fields, Items, Json, JsonView};
use crate::envelope;
use crate::operations;
use crate::operations::apply;
use crate::operations::apply::{DryRun, Preview, PreviewView, Purpose, PurposeView, Step, StepView};
use crate::operations::occurrences;
use crate::operations::references;
use crate::order;
use crate::order::FileLines;
use crate::plan;
use crate::plan::{BuilderView, EditView, FileView, PlanBuilder, PlanView};
use crate::resolve;
use crate::text;
use crate::token;
use crate::token::{IssuedView, TokenStore};
use crate::words;
use vstd::prelude::*;
use vstd::string::*;

verus! {

/// One identifier to rewrite: a line and the UTF-16 range holding the name on it.
#[derive(Debug, Clone, Copy, PartialEq, Eq, Structural)]
pub struct Site {
    pub line: u32,
    pub start: u32,
    pub end: u32,
}

/// The sites of one file, and the hash of the contents they were found in.
#[derive(Debug)]
pub struct RenamedFile {
    pub path: String,
    pub hash: String,
    pub sites: Vec<Site>,
}

/// The sites of one file as a mathematical value.
#[verifier::ext_equal]
pub struct RenamedView {
    pub path: Seq<char>,
    pub hash: Seq<char>,
    pub sites: Seq<Site>,
}

impl RenamedFile {
    /// The sites without their representation.
    pub open spec fn view(self) -> RenamedView {
        RenamedView { path: self.path@, hash: self.hash@, sites: self.sites@ }
    }
}

/// Everything one rename resolved to, before any of it becomes an envelope.
///
/// The sites are kept apart from the plan so a coordinated rename can merge several of these and
/// find the places where two renames collide, which is impossible once each has been flattened
/// into its own envelope.
pub struct Rename {
    pub old_name: String,
    pub new_name: String,
    /// The files with sites, by ascending path.
    pub files: Vec<RenamedFile>,
    pub uncertain: Items,
}

/// A rename as a mathematical value.
#[verifier::ext_equal]
pub struct RenameView {
    pub old_name: Seq<char>,
    pub new_name: Seq<char>,
    pub files: Seq<RenamedView>,
    pub uncertain: Seq<JsonView>,
}

/// Files without their representation.
pub open spec fn files_view(files: Seq<RenamedFile>) -> Seq<RenamedView> {
    Seq::new(files.len(), |i: int| files[i].view())
}

impl Rename {
    /// The rename without its representation.
    pub open spec fn view(self) -> RenameView {
        RenameView {
            old_name: self.old_name@,
            new_name: self.new_name@,
            files: files_view(self.files@),
            uncertain: self.uncertain@,
        }
    }
}

/// How many identifiers the sites of files are.
pub open spec fn edits_in(files: Seq<RenamedView>) -> nat
    decreases files.len(),
{
    if files.len() == 0 {
        0
    } else {
        edits_in(files.drop_last()) + files.last().sites.len()
    }
}

/// The columns on a line that may be renamed: those of identifiers, or of words where the language
/// is unknown.
pub open spec fn columns_for(
    source: Seq<char>,
    places: Option<Seq<(u32, u32, u32)>>,
    name: Seq<char>,
    line: u32,
) -> Seq<(u32, u32)> {
    match places {
        Some(found) => occurrences::columns_on(found, line),
        None => occurrences::on_line(source, line, name),
    }
}

/// Whether both columns of a range on a line can be converted.
pub open spec fn convertible(source: Seq<char>, line: u32, columns: (u32, u32)) -> bool {
    coordinates::converted(source, line, columns.0) is Ok && coordinates::converted(
        source,
        line,
        columns.1,
    ) is Ok
}

/// The places among columns of a line that become sites.
pub open spec fn accepted_on(source: Seq<char>, line: u32, columns: Seq<(u32, u32)>) -> Seq<
    (u32, u32, u32),
>
    decreases columns.len(),
{
    if columns.len() == 0 {
        Seq::empty()
    } else {
        let before = accepted_on(source, line, columns.drop_last());
        if convertible(source, line, columns.last()) {
            before.push((line, columns.last().0, columns.last().1))
        } else {
            before
        }
    }
}

/// The places on the proven lines of a file that become sites.
pub open spec fn accepted_in(
    source: Seq<char>,
    places: Option<Seq<(u32, u32, u32)>>,
    name: Seq<char>,
    proven: Seq<u32>,
) -> Seq<(u32, u32, u32)>
    decreases proven.len(),
{
    if proven.len() == 0 {
        Seq::empty()
    } else {
        accepted_in(source, places, name, proven.drop_last()) + accepted_on(
            source,
            proven.last(),
            columns_for(source, places, name, proven.last()),
        )
    }
}

/// The site of a place.
pub open spec fn site_at(source: Seq<char>, place: (u32, u32, u32)) -> Site {
    Site {
        line: place.0,
        start: coordinates::converted(source, place.0, place.1)->Ok_0,
        end: coordinates::converted(source, place.0, place.2)->Ok_0,
    }
}

/// The sites of places.
pub open spec fn sites_at(source: Seq<char>, places: Seq<(u32, u32, u32)>) -> Seq<Site> {
    Seq::new(places.len(), |i: int| site_at(source, places[i]))
}

/// Whether a word on a line is none of the accepted places.
pub open spec fn unplanned(
    columns: Seq<(u32, u32)>,
    line: u32,
    accepted: Seq<(u32, u32, u32)>,
) -> bool {
    exists|i: int|
        0 <= i < columns.len() && !accepted.contains(
            (line, (#[trigger] columns[i]).0, columns[i].1),
        )
}

/// An occurrence of the name that was not planned, as it is reported.
pub open spec fn unproven(path: Seq<char>, line: u32, content: Seq<char>) -> JsonView {
    JsonView::empty().with_text("file"@, path).with_number("line"@, line as nat).with_text(
        "kind"@,
        "UNPROVEN_OCCURRENCE"@,
    ).with_text("excerpt"@, words::trimmed(content))
}

/// What is reported of the first lines of a file: each with an occurrence that was not planned.
pub open spec fn reported(
    path: Seq<char>,
    source: Seq<char>,
    name: Seq<char>,
    accepted: Seq<(u32, u32, u32)>,
    count: int,
) -> Seq<JsonView>
    decreases count,
{
    if count <= 0 {
        Seq::empty()
    } else {
        let before = reported(path, source, name, accepted, count - 1);
        if unplanned(occurrences::on_line(source, count as u32, name), count as u32, accepted) {
            before.push(unproven(path, count as u32, coordinates::lines(source)[count - 1]))
        } else {
            before
        }
    }
}

/// A rename with the sites and the reports of one readable file.
pub open spec fn with_source(
    rename: RenameView,
    path: Seq<char>,
    source: Seq<char>,
    proven: Seq<u32>,
) -> RenameView {
    let name = rename.old_name;
    let accepted = accepted_in(
        source,
        occurrences::identifier_places(source, path, name),
        name,
        proven,
    );
    RenameView {
        old_name: rename.old_name,
        new_name: rename.new_name,
        files: if accepted.len() > 0 {
            rename.files.push(
                RenamedView {
                    path,
                    hash: plan::sha256_hex(source),
                    sites: sites_at(source, accepted),
                },
            )
        } else {
            rename.files
        },
        uncertain: rename.uncertain + reported(
            path,
            source,
            name,
            accepted,
            coordinates::lines(source).len() as int,
        ),
    }
}

/// A report of a file whose references were not planned.
pub open spec fn unread(path: Seq<char>) -> JsonView {
    JsonView::empty().with_text("file"@, path).with_text(
        "reason"@,
        "the file is unreadable, so its references were not planned"@,
    )
}

/// Ascending numbers with the first of more put among them.
pub open spec fn numbers_inserted(list: Seq<u32>, more: Seq<u32>) -> Seq<u32>
    decreases more.len(),
{
    if more.len() == 0 {
        list
    } else {
        order::number_inserted(numbers_inserted(list, more.drop_last()), more.last())
    }
}

/// A rename with the sites and the reports of the first files that reference its symbol.
pub open spec fn collected(
    repository: Repository,
    rename: RenameView,
    referencing: Seq<(Seq<char>, Seq<u32>)>,
    importing: Seq<Seq<char>>,
) -> RenameView
    decreases referencing.len(),
{
    if referencing.len() == 0 {
        rename
    } else {
        let before = collected(repository, rename, referencing.drop_last(), importing);
        let (path, lines) = referencing.last();
        match evidence::source_of(repository.sources@, path) {
            None => RenameView { uncertain: before.uncertain.push(unread(path)), ..before },
            Some(source) => with_source(
                before,
                path,
                source,
                if importing.contains(path) {
                    numbers_inserted(
                        lines,
                        references::import_lines_of(
                            source,
                            before.old_name,
                            coordinates::lines(source).len() as int,
                        ),
                    )
                } else {
                    lines
                },
            ),
        }
    }
}

/// Files with more of them opened.
pub open spec fn files_opened(files: Seq<(Seq<char>, Seq<u32>)>, more: Seq<Seq<char>>) -> Seq<
    (Seq<char>, Seq<u32>),
>
    decreases more.len(),
{
    if more.len() == 0 {
        files
    } else {
        order::file_opened(files_opened(files, more.drop_last()), more.last())
    }
}

/// The files and lines that reference a symbol: what the graph proves, the declaration, and every
/// file that imports the declaring one.
pub open spec fn referencing_files(
    repository: Repository,
    id: Seq<char>,
    file: Seq<char>,
    line: u32,
) -> Seq<(Seq<char>, Seq<u32>)> {
    files_opened(
        order::line_added(
            references::referenced(repository, repository.graph.edges@, id),
            file,
            line,
        ),
        references::importing(repository, file),
    )
}

/// Everything a rename touches, or the refusal that stops it.
pub open spec fn found_sites(repository: Repository, symbol: Seq<char>, new_name: Seq<char>) -> Result<
    RenameView,
    JsonView,
> {
    let nodes = repository.graph.nodes@;
    if !words::identifier(new_name) {
        Err(
            operations::plain_answer(
                "INVALID_NEW_NAME"@,
                words::quoted(new_name) + " is not a valid identifier"@,
            ),
        )
    } else {
        match resolve::resolved(nodes, symbol) {
            None => Err(operations::not_found_value(nodes, symbol)),
            Some(at) => {
                let node = nodes[at];
                let old_name = words::plain_name(node.label@);
                if !words::identifier(old_name) {
                    Err(
                        operations::plain_answer(
                            "NOT_SUPPORTED"@,
                            "the graph records this symbol as "@ + words::quoted(node.label@)
                                + ", which is not a plain identifier; rename needs one to anchor its edits"@,
                        ),
                    )
                } else if old_name == new_name {
                    Err(
                        operations::plain_answer(
                            "NO_CHANGE"@,
                            "the symbol already has that name"@,
                        ),
                    )
                } else {
                    match node.span {
                        None => Err(operations::not_found_value(nodes, symbol)),
                        Some(span) => {
                            let rename = collected(
                                repository,
                                RenameView {
                                    old_name,
                                    new_name,
                                    files: Seq::empty(),
                                    uncertain: Seq::empty(),
                                },
                                referencing_files(
                                    repository,
                                    node.id@,
                                    span.file@,
                                    span.start_line,
                                ),
                                references::importing(repository, span.file@),
                            );
                            if edits_in(rename.files) == 0 {
                                Err(
                                    operations::plain_answer(
                                        "NO_EDITS"@,
                                        old_name
                                            + " was not found on any line the graph attributes to this symbol; rebuild the graph if the file changed"@,
                                    ),
                                )
                            } else {
                                Ok(rename)
                            }
                        },
                    }
                }
            },
        }
    }
}

/// Splits one file's occurrences into the proven sites and the ones this must not touch.
///
/// A site needs two proofs: the graph attributes the line to this symbol, and the tokenizer says
/// the occurrence is an identifier rather than the same characters inside a string. Every textual
/// occurrence that did not become a site is reported, so nothing is silently dropped, which is
/// what makes the uncertain list trustworthy.
fn collect_file(found: &mut Rename, path: &str, source: &str, proven: &Vec<u32>)
    requires
        text::bytes(source@).len() < u32::MAX,
        old(found).old_name@.len() > 0,
    ensures
        final(found)@ == with_source(old(found)@, path@, source@, proven@),
{
    let ghost name = found.old_name@;
    let identifiers = occurrences::identifier_occurrences(source, path, found.old_name.as_str());
    let ghost places = occurrences::identifier_places(source@, path@, name);
    let mut sites: Vec<Site> = Vec::new();
    let mut accepted: Vec<(u32, u32, u32)> = Vec::new();
    assert(sites@ =~= sites_at(source@, accepted@));
    let mut i: usize = 0;
    while i < proven.len()
        invariant
            i <= proven@.len(),
            text::bytes(source@).len() < u32::MAX,
            *found == *old(found),
            name == found.old_name@,
            places == occurrences::identifier_places(source@, path@, name),
            match (identifiers, places) {
                (Some(found_places), Some(expected)) => found_places@ == expected,
                (None, None) => true,
                _ => false,
            },
            accepted@ == accepted_in(source@, places, name, proven@.take(i as int)),
            sites@ == sites_at(source@, accepted@),
        decreases proven@.len() - i,
    {
        assert(proven@.take(i + 1).drop_last() =~= proven@.take(i as int));
        let line: u32 = proven[i];
        let columns = match &identifiers {
            Some(by_line) => occurrences::on_one_line(by_line, line),
            None => occurrences::occurrences_on_line(source, line, found.old_name.as_str()),
        };
        accept(source, line, &columns, &mut sites, &mut accepted);
        i += 1;
    }
    assert(proven@.take(i as int) =~= proven@);
    // Everything textual that was not planned: occurrences on unproven lines may belong to a
    // different symbol sharing the name, and occurrences inside strings or comments on proven
    // lines are prose. Both would be renamed by a find-replace, and neither is here.
    let reports = report(path, source, found.old_name.as_str(), &accepted);
    if sites.len() > 0 {
        let file = RenamedFile { path: path.to_owned(), hash: plan::sha256_of(source), sites };
        assert(files_view(found.files@.push(file)) =~= files_view(found.files@).push(file@));
        found.files.push(file);
    }
    found.uncertain.extend(reports);
}

/// Turns the columns of a line into sites.
fn accept(
    source: &str,
    line: u32,
    columns: &Vec<(u32, u32)>,
    sites: &mut Vec<Site>,
    accepted: &mut Vec<(u32, u32, u32)>,
)
    requires
        text::bytes(source@).len() < u32::MAX,
        old(sites)@ == sites_at(source@, old(accepted)@),
    ensures
        final(accepted)@ == old(accepted)@ + accepted_on(source@, line, columns@),
        final(sites)@ == sites_at(source@, final(accepted)@),
{
    let ghost start = accepted@;
    let mut i: usize = 0;
    assert(start + accepted_on(source@, line, columns@.take(0)) =~= start);
    while i < columns.len()
        invariant
            i <= columns@.len(),
            text::bytes(source@).len() < u32::MAX,
            accepted@ == start + accepted_on(source@, line, columns@.take(i as int)),
            sites@ == sites_at(source@, accepted@),
        decreases columns@.len() - i,
    {
        assert(columns@.take(i + 1).drop_last() =~= columns@.take(i as int));
        let (from, to) = columns[i];
        match (
            coordinates::utf16_offset(source, line, from),
            coordinates::utf16_offset(source, line, to),
        ) {
            (Ok(first), Ok(past)) => {
                let place = (line, from, to);
                let site = Site { line, start: first, end: past };
                assert(sites@.push(site) =~= sites_at(source@, accepted@.push(place)));
                accepted.push(place);
                sites.push(site);
            },
            _ => {},
        }
        i += 1;
    }
    assert(columns@.take(i as int) =~= columns@);
}

/// Whether places hold one.
fn has_place(places: &Vec<(u32, u32, u32)>, line: u32, start: u32, end: u32) -> (found: bool)
    ensures
        found == places@.contains((line, start, end)),
{
    let mut i: usize = 0;
    while i < places.len()
        invariant
            i <= places@.len(),
            forall|k: int| 0 <= k < i ==> places@[k] != (line, start, end),
        decreases places@.len() - i,
    {
        let place = places[i];
        if place.0 == line && place.1 == start && place.2 == end {
            assert(places@[i as int] == (line, start, end));
            return true;
        }
        i += 1;
    }
    false
}

/// Reports each line with an occurrence that was not planned.
fn report(path: &str, source: &str, name: &str, accepted: &Vec<(u32, u32, u32)>) -> (reports: Items)
    requires
        text::bytes(source@).len() < u32::MAX,
    ensures
        reports@ == reported(
            path@,
            source@,
            name@,
            accepted@,
            coordinates::lines(source@).len() as int,
        ),
{
    let all = text::split_all(source, 10);
    let mut reports = Items::new();
    proof {
        coordinates::lemma_line_count(source@);
    }
    let mut i: usize = 0;
    while i < all.len()
        invariant
            i <= all@.len() <= u32::MAX,
            text::bytes(source@).len() < u32::MAX,
            text::views(all@) == coordinates::lines(source@),
            reports@ == reported(path@, source@, name@, accepted@, i as int),
        decreases all@.len() - i,
    {
        assert(text::views(all@)[i as int] == all@[i as int]@);
        let line: u32 = (i + 1) as u32;
        let columns = occurrences::occurrences_on_line(source, line, name);
        if has_unplanned(&columns, line, accepted) {
            reports.push(
                Fields::new().with_text("file", path).with_number("line", line as u64).with_text(
                    "kind",
                    "UNPROVEN_OCCURRENCE",
                ).with_text("excerpt", words::trim(all[i])).done(),
            );
        }
        i += 1;
    }
    reports
}

/// Whether a word on a line is none of the accepted places.
fn has_unplanned(columns: &Vec<(u32, u32)>, line: u32, accepted: &Vec<(u32, u32, u32)>) -> (found:
    bool)
    ensures
        found == unplanned(columns@, line, accepted@),
{
    let mut i: usize = 0;
    while i < columns.len()
        invariant
            i <= columns@.len(),
            forall|k: int|
                0 <= k < i ==> accepted@.contains((line, (#[trigger] columns@[k]).0, columns@[k].1)),
        decreases columns@.len() - i,
    {
        let (start, end) = columns[i];
        if !has_place(accepted, line, start, end) {
            assert(!accepted@.contains((line, columns@[i as int].0, columns@[i as int].1)));
            return true;
        }
        i += 1;
    }
    false
}

/// Puts more numbers into ascending ones.
fn insert_numbers(list: &mut Vec<u32>, more: &Vec<u32>)
    ensures
        final(list)@ == numbers_inserted(old(list)@, more@),
{
    let mut i: usize = 0;
    while i < more.len()
        invariant
            i <= more@.len(),
            list@ == numbers_inserted(old(list)@, more@.take(i as int)),
        decreases more@.len() - i,
    {
        assert(more@.take(i + 1).drop_last() =~= more@.take(i as int));
        order::insert_number(list, more[i]);
        i += 1;
    }
    assert(more@.take(i as int) =~= more@);
}

/// The same numbers again.
fn copy_numbers(list: &Vec<u32>) -> (copy: Vec<u32>)
    ensures
        copy@ == list@,
{
    let mut copy: Vec<u32> = Vec::new();
    let mut i: usize = 0;
    while i < list.len()
        invariant
            i <= list@.len(),
            copy@ == list@.take(i as int),
        decreases list@.len() - i,
    {
        assert(copy@.push(list@[i as int]) =~= list@.take(i + 1));
        copy.push(list[i]);
        i += 1;
    }
    assert(copy@ =~= list@);
    copy
}

/// The files and lines that reference a symbol.
fn collect_referencing(
    repository: &Repository,
    id: &str,
    file: &str,
    line: u32,
    importing: &Vec<String>,
) -> (files: Vec<FileLines>)
    requires
        text::string_views(importing@) == references::importing(*repository, file@),
    ensures
        order::lines_view(files@) == referencing_files(*repository, id@, file@, line),
{
    let mut files = references::referencing_lines(repository, id);
    // The declaration itself is always a site. Recursive calls arrive as their own exact edges.
    order::add_line(&mut files, file, line);
    let ghost start = order::lines_view(files@);
    let ghost more = text::string_views(importing@);
    let mut i: usize = 0;
    while i < importing.len()
        invariant
            i <= importing@.len(),
            more == text::string_views(importing@),
            order::lines_view(files@) == files_opened(start, more.take(i as int)),
        decreases importing@.len() - i,
    {
        assert(more.take(i + 1).drop_last() =~= more.take(i as int));
        order::open_file(&mut files, importing[i].as_str());
        i += 1;
    }
    assert(more.take(i as int) =~= more);
    files
}

/// Collects the sites and the reports of the files that reference a symbol.
fn collect(
    repository: &Repository,
    found: &mut Rename,
    referencing: &Vec<FileLines>,
    importing: &Vec<String>,
)
    requires
        old(found).old_name@.len() > 0,
    ensures
        final(found)@ == collected(
            *repository,
            old(found)@,
            order::lines_view(referencing@),
            text::string_views(importing@),
        ),
{
    let ghost all = order::lines_view(referencing@);
    let mut i: usize = 0;
    while i < referencing.len()
        invariant
            i <= referencing@.len(),
            all == order::lines_view(referencing@),
            found.old_name@ == old(found).old_name@,
            found.old_name@.len() > 0,
            found@ == collected(
                *repository,
                old(found)@,
                all.take(i as int),
                text::string_views(importing@),
            ),
        decreases referencing@.len() - i,
    {
        assert(all.take(i + 1).drop_last() =~= all.take(i as int));
        assert(all[i as int] == (referencing@[i as int].file@, referencing@[i as int].lines@));
        let path = referencing[i].file.as_str();
        match evidence::read_source(&repository.sources, path) {
            None => {
                found.uncertain.push(
                    Fields::new().with_text("file", path).with_text(
                        "reason",
                        "the file is unreadable, so its references were not planned",
                    ).done(),
                );
            },
            Some(source) => {
                let mut proven = copy_numbers(&referencing[i].lines);
                if order::has(importing, path) {
                    let more = references::import_lines(source, found.old_name.as_str());
                    insert_numbers(&mut proven, &more);
                }
                collect_file(found, path, source, &proven);
            },
        }
        i += 1;
    }
    assert(all.take(i as int) =~= all);
}

impl Rename {
    /// How many identifiers this rename rewrites, up to the largest number.
    pub fn edits(&self) -> (count: u64)
        ensures
            count == apply::counted(edits_in(self@.files)),
    {
        let ghost all = self@.files;
        let mut count: u64 = 0;
        let mut i: usize = 0;
        while i < self.files.len()
            invariant
                i <= self.files@.len(),
                all == files_view(self.files@),
                count == apply::counted(edits_in(all.take(i as int))),
            decreases self.files@.len() - i,
        {
            assert(all.take(i + 1).drop_last() =~= all.take(i as int));
            count = count.saturating_add(self.files[i].sites.len() as u64);
            i += 1;
        }
        assert(all.take(i as int) =~= all);
        count
    }
}

/// Finds every site one rename touches, or the refusal that stops it.
///
/// Both entry points come through here, so a symbol that `rename_symbol` refuses is refused
/// identically inside a batch. The alternative is a batch that quietly renames what the single
/// operation would not.
pub fn sites(repository: &Repository, symbol: &str, new_name: &str) -> (found: Result<Rename, Json>)
    ensures
        match (found, found_sites(*repository, symbol@, new_name@)) {
            (Ok(rename), Ok(expected)) => rename@ == expected,
            (Err(refusal), Err(expected)) => refusal@ == expected,
            _ => false,
        },
{
    if !words::is_identifier(new_name) {
        let reason = words::quote(new_name).concat(" is not a valid identifier");
        return Err(operations::answer("INVALID_NEW_NAME", reason.as_str()));
    }
    let at: usize = match resolve::resolve_symbol(&repository.graph, symbol) {
        Some(at) => at,
        None => {
            return Err(operations::not_found(&repository.graph, symbol));
        },
    };
    let node = &repository.graph.nodes[at];
    let old_name = words::trim_parentheses(node.label.as_str());
    if !words::is_identifier(old_name) {
        let reason = "the graph records this symbol as ".to_owned().concat(
            words::quote(node.label.as_str()).as_str(),
        ).concat(
            ", which is not a plain identifier; rename needs one to anchor its edits",
        );
        return Err(operations::answer("NOT_SUPPORTED", reason.as_str()));
    }
    if text::same(old_name, new_name) {
        return Err(operations::answer("NO_CHANGE", "the symbol already has that name"));
    }
    let span = match &node.span {
        Some(span) => span,
        None => {
            return Err(operations::not_found(&repository.graph, symbol));
        },
    };
    let file = span.file.as_str();
    let importing = references::importing_files(repository, file);
    let referencing = collect_referencing(
        repository,
        node.id.as_str(),
        file,
        span.start_line,
        &importing,
    );
    let mut found = Rename {
        old_name: old_name.to_owned(),
        new_name: new_name.to_owned(),
        files: Vec::new(),
        uncertain: Items::new(),
    };
    assert(found@.files =~= Seq::empty());
    collect(repository, &mut found, &referencing, &importing);
    if found.edits() == 0 {
        let reason = old_name.to_owned().concat(
            " was not found on any line the graph attributes to this symbol; rebuild the graph if the file changed",
        );
        return Err(operations::answer("NO_EDITS", reason.as_str()));
    }
    Ok(found)
}

/// One site with the names it rewrites, kept together while several renames are merged.
pub struct PlacedEdit {
    pub site: Site,
    pub before: String,
    pub after: String,
}

/// A placed edit as a mathematical value.
pub struct PlacedView {
    pub site: Site,
    pub before: Seq<char>,
    pub after: Seq<char>,
}

/// Placed edits without their representation.
pub open spec fn placed_views(edits: Seq<PlacedEdit>) -> Seq<PlacedView> {
    Seq::new(
        edits.len(),
        |i: int|
            PlacedView {
                site: edits[i].site,
                before: edits[i].before@,
                after: edits[i].after@,
            },
    )
}

/// Whether one site comes before another in its file.
pub open spec fn site_before(a: Site, b: Site) -> bool {
    a.line < b.line || (a.line == b.line && (a.start < b.start || (a.start == b.start && a.end
        < b.end)))
}

/// Ascending edits with one more in its place, after those of the same site.
pub open spec fn placed_inserted(list: Seq<PlacedView>, item: PlacedView) -> Seq<PlacedView>
    decreases list.len(),
{
    if list.len() == 0 {
        seq![item]
    } else if site_before(item.site, list[0].site) {
        seq![item] + list
    } else {
        seq![list[0]] + placed_inserted(list.drop_first(), item)
    }
}

/// Ascending edits with more put among them, all with the same names.
pub open spec fn sites_inserted(
    list: Seq<PlacedView>,
    sites: Seq<Site>,
    before: Seq<char>,
    after: Seq<char>,
) -> Seq<PlacedView>
    decreases sites.len(),
{
    if sites.len() == 0 {
        list
    } else {
        placed_inserted(
            sites_inserted(list, sites.drop_last(), before, after),
            PlacedView { site: sites.last(), before, after },
        )
    }
}

/// Where the sites of a path stand among files, from a place on.
pub open spec fn renamed_from(files: Seq<RenamedView>, path: Seq<char>, from: int) -> Option<int>
    decreases files.len() - from,
{
    if from < 0 || from >= files.len() {
        None
    } else if files[from].path == path {
        Some(from)
    } else {
        renamed_from(files, path, from + 1)
    }
}

/// The paths that renames touch, ascending.
pub open spec fn touched_by(files: Seq<RenamedView>, start: Seq<Seq<char>>) -> Seq<Seq<char>>
    decreases files.len(),
{
    if files.len() == 0 {
        start
    } else {
        order::inserted(touched_by(files.drop_last(), start), files.last().path)
    }
}

/// The paths that the first renames touch, ascending.
pub open spec fn touched(renames: Seq<RenameView>) -> Seq<Seq<char>>
    decreases renames.len(),
{
    if renames.len() == 0 {
        Seq::empty()
    } else {
        touched_by(renames.last().files, touched(renames.drop_last()))
    }
}

/// The edits that the first renames make in a file, by position.
pub open spec fn edits_for(renames: Seq<RenameView>, path: Seq<char>) -> Seq<PlacedView>
    decreases renames.len(),
{
    if renames.len() == 0 {
        Seq::empty()
    } else {
        let before = edits_for(renames.drop_last(), path);
        let rename = renames.last();
        match renamed_from(rename.files, path, 0) {
            Some(at) => sites_inserted(
                before,
                rename.files[at].sites,
                rename.old_name,
                rename.new_name,
            ),
            None => before,
        }
    }
}

/// The hash that renames carry for a file: the first of them that touches it decides.
pub open spec fn hash_for(renames: Seq<RenameView>, path: Seq<char>, from: int) -> Seq<char>
    decreases renames.len() - from,
{
    if from < 0 || from >= renames.len() {
        Seq::empty()
    } else {
        match renamed_from(renames[from].files, path, 0) {
            Some(at) => renames[from].files[at].hash,
            None => hash_for(renames, path, from + 1),
        }
    }
}

/// The edit that a placed one makes.
pub open spec fn placed_edit(placed: PlacedView) -> EditView {
    EditView {
        start_line: placed.site.line,
        start_char: placed.site.start,
        end_line: placed.site.line,
        end_char: placed.site.end,
        before: placed.before,
        after: placed.after,
        provenance: "RESOLVED"@,
    }
}

/// A plan with the first of some edits added to the open file.
pub open spec fn edits_planned(builder: BuilderView, edits: Seq<PlacedView>) -> BuilderView
    decreases edits.len(),
{
    if edits.len() == 0 {
        builder
    } else {
        let edit = edits.last();
        edits_planned(builder, edits.drop_last()).edit(placed_edit(edit))
    }
}

/// A plan of what renames do to the first of some paths.
pub open spec fn paths_planned(
    operation: Seq<char>,
    renames: Seq<RenameView>,
    paths: Seq<Seq<char>>,
) -> BuilderView
    decreases paths.len(),
{
    if paths.len() == 0 {
        BuilderView::start(operation)
    } else {
        edits_planned(
            paths_planned(operation, renames, paths.drop_last()).file(
                paths.last(),
                hash_for(renames, paths.last(), 0),
            ),
            edits_for(renames, paths.last()),
        )
    }
}

/// The one plan of several renames.
pub open spec fn renames_plan(operation: Seq<char>, renames: Seq<RenameView>) -> BuilderView {
    paths_planned(operation, renames, touched(renames))
}

/// Renames without their representation.
pub open spec fn renames_view(renames: Seq<Rename>) -> Seq<RenameView> {
    Seq::new(renames.len(), |i: int| renames[i].view())
}

/// Puts a placed edit among ascending ones.
fn insert_placed(list: &mut Vec<PlacedEdit>, site: Site, before: &str, after: &str)
    ensures
        placed_views(final(list)@) == placed_inserted(
            placed_views(old(list)@),
            PlacedView { site, before: before@, after: after@ },
        ),
{
    let ghost all = placed_views(list@);
    let ghost item = PlacedView { site, before: before@, after: after@ };
    let edit = PlacedEdit { site, before: before.to_owned(), after: after.to_owned() };
    let mut i: usize = 0;
    assert(all.skip(0) =~= all);
    assert(all.take(0) + placed_inserted(all.skip(0), item) =~= placed_inserted(all, item));
    while i < list.len()
        invariant
            list@ == old(list)@,
            i <= list@.len(),
            all == placed_views(list@),
            edit.site == site,
            edit.before@ == before@,
            edit.after@ == after@,
            item == (PlacedView { site, before: before@, after: after@ }),
            all.take(i as int) + placed_inserted(all.skip(i as int), item) == placed_inserted(
                all,
                item,
            ),
        decreases list@.len() - i,
    {
        let here = list[i].site;
        assert(all.skip(i as int)[0] == all[i as int]);
        if site.line < here.line || (site.line == here.line && (site.start < here.start || (
        site.start == here.start && site.end < here.end))) {
            assert(placed_views(list@.insert(i as int, edit)) =~= all.take(i as int) + (seq![item]
                + all.skip(i as int)));
            list.insert(i, edit);
            return ;
        }
        proof {
            assert(all.skip(i as int).drop_first() =~= all.skip(i + 1));
            assert(all.take(i as int) + (seq![all[i as int]] + placed_inserted(
                all.skip(i + 1),
                item,
            )) =~= all.take(i + 1) + placed_inserted(all.skip(i + 1), item));
        }
        i += 1;
    }
    assert(all.skip(i as int).len() == 0);
    assert(placed_views(list@.push(edit)) =~= all.take(i as int) + seq![item]);
    list.push(edit);
}

/// Where the sites of a path stand among files.
fn find_renamed(files: &Vec<RenamedFile>, path: &str) -> (found: Option<usize>)
    ensures
        match (found, renamed_from(files_view(files@), path@, 0)) {
            (Some(at), Some(expected)) => at == expected && at < files@.len(),
            (None, None) => true,
            _ => false,
        },
{
    let mut i: usize = 0;
    while i < files.len()
        invariant
            i <= files@.len(),
            renamed_from(files_view(files@), path@, 0) == renamed_from(
                files_view(files@),
                path@,
                i as int,
            ),
        decreases files@.len() - i,
    {
        if text::same(files[i].path.as_str(), path) {
            return Some(i);
        }
        i += 1;
    }
    None
}

/// The paths that renames touch, ascending.
fn touched_paths(renames: &Vec<Rename>) -> (paths: Vec<String>)
    ensures
        text::string_views(paths@) == touched(renames_view(renames@)),
{
    let ghost all = renames_view(renames@);
    let mut paths: Vec<String> = Vec::new();
    assert(text::string_views(paths@) =~= Seq::empty());
    let mut i: usize = 0;
    while i < renames.len()
        invariant
            i <= renames@.len(),
            all == renames_view(renames@),
            text::string_views(paths@) == touched(all.take(i as int)),
        decreases renames@.len() - i,
    {
        assert(all.take(i + 1).drop_last() =~= all.take(i as int));
        let ghost start = text::string_views(paths@);
        let files = &renames[i].files;
        let ghost within = files_view(files@);
        let mut j: usize = 0;
        while j < files.len()
            invariant
                j <= files@.len(),
                within == files_view(files@),
                text::string_views(paths@) == touched_by(within.take(j as int), start),
            decreases files@.len() - j,
        {
            assert(within.take(j + 1).drop_last() =~= within.take(j as int));
            order::insert(&mut paths, files[j].path.as_str());
            j += 1;
        }
        assert(within.take(j as int) =~= within);
        i += 1;
    }
    assert(all.take(i as int) =~= all);
    paths
}

/// The edits that renames make in a file, by position.
fn gather(renames: &Vec<Rename>, path: &str) -> (edits: Vec<PlacedEdit>)
    ensures
        placed_views(edits@) == edits_for(renames_view(renames@), path@),
{
    let ghost all = renames_view(renames@);
    let mut edits: Vec<PlacedEdit> = Vec::new();
    assert(placed_views(edits@) =~= Seq::empty());
    let mut i: usize = 0;
    while i < renames.len()
        invariant
            i <= renames@.len(),
            all == renames_view(renames@),
            placed_views(edits@) == edits_for(all.take(i as int), path@),
        decreases renames@.len() - i,
    {
        assert(all.take(i + 1).drop_last() =~= all.take(i as int));
        let rename = &renames[i];
        assert(all[i as int] == rename@);
        match find_renamed(&rename.files, path) {
            Some(at) => {
                let ghost start = placed_views(edits@);
                let sites = &rename.files[at].sites;
                let mut j: usize = 0;
                while j < sites.len()
                    invariant
                        j <= sites@.len(),
                        placed_views(edits@) == sites_inserted(
                            start,
                            sites@.take(j as int),
                            rename.old_name@,
                            rename.new_name@,
                        ),
                    decreases sites@.len() - j,
                {
                    assert(sites@.take(j + 1).drop_last() =~= sites@.take(j as int));
                    insert_placed(
                        &mut edits,
                        sites[j],
                        rename.old_name.as_str(),
                        rename.new_name.as_str(),
                    );
                    j += 1;
                }
                assert(sites@.take(j as int) =~= sites@);
            },
            None => {},
        }
        i += 1;
    }
    assert(all.take(i as int) =~= all);
    edits
}

/// The hash that renames carry for a file.
fn carried_hash<'a>(renames: &'a Vec<Rename>, path: &str) -> (hash: &'a str)
    ensures
        hash@ == hash_for(renames_view(renames@), path@, 0),
{
    let mut i: usize = 0;
    while i < renames.len()
        invariant
            i <= renames@.len(),
            hash_for(renames_view(renames@), path@, 0) == hash_for(
                renames_view(renames@),
                path@,
                i as int,
            ),
        decreases renames@.len() - i,
    {
        match find_renamed(&renames[i].files, path) {
            Some(at) => {
                return renames[i].files[at].hash.as_str();
            },
            None => {},
        }
        i += 1;
    }
    proof {
        reveal_strlit("");
    }
    ""
}

/// Folds one or more renames into a single plan, ordered by file and then by position.
pub fn build_plan(operation: &str, renames: &Vec<Rename>) -> (plan: PlanBuilder)
    ensures
        plan@ == renames_plan(operation@, renames_view(renames@)),
{
    let ghost all = renames_view(renames@);
    let paths = touched_paths(renames);
    let ghost within = text::string_views(paths@);
    let mut builder = PlanBuilder::new(operation);
    let mut i: usize = 0;
    while i < paths.len()
        invariant
            i <= paths@.len(),
            within == text::string_views(paths@),
            all == renames_view(renames@),
            builder@ == paths_planned(operation@, all, within.take(i as int)),
        decreases paths@.len() - i,
    {
        assert(within.take(i + 1).drop_last() =~= within.take(i as int));
        let path = paths[i].as_str();
        builder = builder.file(path, carried_hash(renames, path));
        let ghost opened = builder@;
        let edits = gather(renames, path);
        let ghost placed = placed_views(edits@);
        let mut j: usize = 0;
        while j < edits.len()
            invariant
                j <= edits@.len(),
                placed == placed_views(edits@),
                builder@ == edits_planned(opened, placed.take(j as int)),
            decreases edits@.len() - j,
        {
            assert(placed.take(j + 1).drop_last() =~= placed.take(j as int));
            let edit = &edits[j];
            builder = builder.edit(
                edit.site.line,
                edit.site.start,
                edit.site.line,
                edit.site.end,
                edit.before.as_str(),
                edit.after.as_str(),
                "RESOLVED",
            );
            j += 1;
        }
        assert(placed.take(j as int) =~= placed);
        i += 1;
    }
    assert(within.take(i as int) =~= within);
    builder
}

/// The answer to a rename that was planned, before its preview.
pub open spec fn planned_answer(rename: RenameView, plan: JsonView) -> JsonView {
    JsonView::empty().with_text("status"@, "PLANNED"@).with_text(
        "completeness"@,
        "PARTIAL"@,
    ).with_text("backend"@, "graph+lexical"@).with_text("oldName"@, rename.old_name).with_text(
        "newName"@,
        rename.new_name,
    ).with_number("renamedEdits"@, apply::counted(edits_in(rename.files))).with(
        "plan"@,
        plan,
    ).with_list("uncertainReferences"@, rename.uncertain).with_list(
        "warnings"@,
        Seq::empty().push(JsonView::Text("GRAPH_PROVEN_SITES_ONLY"@)),
    ).with_text(
        "next"@,
        "call rename_symbol again with the identical symbol and new_name, mode=\"apply\", and this confirm_token. Every uncertainReference is a same-named occurrence this backend refused to guess at; review them yourself."@,
    )
}

/// What applying a plan that was just made comes to, and the confirmations after it.
pub open spec fn generated_step(
    issued: Map<Seq<char>, IssuedView>,
    root: Seq<char>,
    plan: JsonView,
    presented: Option<Seq<char>>,
    purpose: PurposeView,
    write_allowed: bool,
    now: u64,
) -> (StepView, Map<Seq<char>, IssuedView>) {
    if !write_allowed {
        (StepView::Answer(apply::gate_closed()), issued)
    } else {
        match envelope::plan_of(plan) {
            Err(reason) => (
                StepView::Answer(operations::plain_answer("INVALID_PLAN"@, reason)),
                issued,
            ),
            Ok(read) => apply::gated_step(
                issued,
                root,
                read,
                presented,
                purpose,
                write_allowed,
                now,
            ),
        }
    }
}

/// Applies a plan that was just made.
///
/// The token is bound to the plan, and the plan was just recomputed from the current graph. A
/// rename whose sites moved therefore fails here rather than writing something else.
pub(crate) fn apply_generated_plan(
    tokens: &mut TokenStore,
    root: &str,
    plan: &Json,
    presented: Option<&str>,
    purpose: Purpose,
    write_allowed: bool,
    now: u64,
) -> (step: Step)
    ensures
        (step@, final(tokens)@) == generated_step(
            old(tokens)@,
            root@,
            plan@,
            token::optional(presented),
            purpose@,
            write_allowed,
            now,
        ),
{
    if !write_allowed {
        return Step::Answer(apply::closed_gate());
    }
    match envelope::read_envelope(plan) {
        Err(error) => Step::Answer(operations::answer(error.code, error.reason.as_str())),
        Ok(read) => apply::pass_gates(tokens, root, read, presented, purpose, write_allowed, now),
    }
}

/// What `rename_symbol` comes to, and the confirmations after it.
#[verifier::opaque]
pub open spec fn rename_symbol_step(
    issued: Map<Seq<char>, IssuedView>,
    repository: Repository,
    arguments: JsonView,
    write_allowed: bool,
    now: u64,
) -> (StepView, Map<Seq<char>, IssuedView>) {
    match (arguments.text("symbol"@), arguments.text("new_name"@)) {
        (Some(symbol), Some(new_name)) => match found_sites(repository, symbol, new_name) {
            Err(refusal) => (StepView::Answer(refusal), issued),
            Ok(rename) => {
                let plan = plan::plan_value(
                    renames_plan("rename_symbol"@, Seq::empty().push(rename)).plan(),
                );
                if apply::applies(arguments) {
                    generated_step(
                        issued,
                        repository.root@,
                        plan,
                        arguments.text("confirm_token"@),
                        PurposeView::Plan,
                        write_allowed,
                        now,
                    )
                } else {
                    let answer = planned_answer(rename, plan);
                    (
                        match envelope::plan_of(plan) {
                            Err(_) => StepView::Answer(answer),
                            Ok(read) => StepView::DryRun {
                                plan: read,
                                preview: PreviewView::Symbol(answer),
                            },
                        },
                        issued,
                    )
                }
            },
        },
        _ => (
            StepView::Answer(
                operations::invalid_args_value("rename_symbol"@, seq!["symbol"@, "new_name"@]),
            ),
            issued,
        ),
    }
}

/// `rename_symbol`: one call plans and previews, the next applies.
///
/// The plan is previewed here rather than by a second call, and the confirmation rides in the
/// answer. The agent then applies with the token alone: it never has to echo back the plan bytes
/// it just received.
pub fn rename_symbol(
    tokens: &mut TokenStore,
    repository: &Repository,
    arguments: &Json,
    write_allowed: bool,
    now: u64,
) -> (step: Step)
    ensures
        (step@, final(tokens)@) == rename_symbol_step(
            old(tokens)@,
            *repository,
            arguments@,
            write_allowed,
            now,
        ),
{
    proof {
        reveal(rename_symbol_step);
    }
    let (symbol, new_name) = match (arguments.text("symbol"), arguments.text("new_name")) {
        (Some(symbol), Some(new_name)) => (symbol, new_name),
        _ => {
            return Step::Answer(operations::missing_two("rename_symbol", "symbol", "new_name"));
        },
    };
    let found = match sites(repository, symbol, new_name) {
        Ok(found) => found,
        Err(refusal) => {
            return Step::Answer(refusal);
        },
    };
    let ghost rename = found@;
    let mut renames: Vec<Rename> = Vec::new();
    renames.push(found);
    assert(renames_view(renames@) =~= Seq::empty().push(rename));
    let plan = build_plan("rename_symbol", &renames).build();
    if apply::asks_to_apply(arguments) {
        return apply_generated_plan(
            tokens,
            repository.root.as_str(),
            &plan,
            arguments.text("confirm_token"),
            Purpose::Plan,
            write_allowed,
            now,
        );
    }
    let read = envelope::read_envelope(&plan);
    let edits: u64 = renames[0].edits();
    let uncertain = renames[0].uncertain.duplicate();
    let mut warnings = Items::new();
    warnings.push(json::string("GRAPH_PROVEN_SITES_ONLY"));
    assert(renames@[0]@ == rename);
    let answer = Fields::new().with_text("status", "PLANNED").with_text(
        "completeness",
        "PARTIAL",
    ).with_text("backend", "graph+lexical").with_text(
        "oldName",
        renames[0].old_name.as_str(),
    ).with_text("newName", renames[0].new_name.as_str()).with_number(
        "renamedEdits",
        edits,
    ).with("plan", plan).with_list("uncertainReferences", uncertain).with_list(
        "warnings",
        warnings,
    ).with_text(
        "next",
        "call rename_symbol again with the identical symbol and new_name, mode=\"apply\", and this confirm_token. Every uncertainReference is a same-named occurrence this backend refused to guess at; review them yourself.",
    );
    match read {
        Err(_) => Step::Answer(answer.done()),
        Ok(read) => Step::DryRun { plan: read, preview: Preview::Symbol(answer) },
    }
}

/// A refusal of a rename keeps to the contract.
pub proof fn law_refusals_conform(repository: Repository, symbol: Seq<char>, new_name: Seq<char>)
    ensures
        found_sites(repository, symbol, new_name) matches Err(refusal) ==> contract::conforms(
            refusal,
        ),
{
    broadcast use json::lemma_with_get;

    contract::lemma_keys();
}

/// What applying a plan that was just made comes to keeps to the contract, and it is written only
/// where every gate is passed.
pub proof fn law_generated_plans_take_every_gate(
    issued: Map<Seq<char>, IssuedView>,
    root: Seq<char>,
    plan: JsonView,
    presented: Option<Seq<char>>,
    purpose: PurposeView,
    write_allowed: bool,
    now: u64,
)
    ensures
        ({
            let (step, after) = generated_step(
                issued,
                root,
                plan,
                presented,
                purpose,
                write_allowed,
                now,
            );
            &&& apply::step_conforms(step)
            &&& step is Answer || step is Write
            &&& step matches StepView::Write { plan: written, .. } ==> write_allowed
                && apply::confirmed(issued, presented, written, root, now)
                && !after.dom().contains(presented->0)
        }),
{
    broadcast use json::lemma_with_get;

    contract::lemma_keys();
    match envelope::plan_of(plan) {
        Ok(read) => {
            apply::law_gates_conform(
                issued,
                root,
                read,
                presented,
                purpose,
                Ok(()),
                write_allowed,
                now,
            );
        },
        Err(_) => {},
    }
}

/// What `rename_symbol` comes to keeps to the contract, and it writes only where every gate is
/// passed.
pub proof fn law_renames_conform(
    issued: Map<Seq<char>, IssuedView>,
    repository: Repository,
    arguments: JsonView,
    write_allowed: bool,
    now: u64,
)
    ensures
        ({
            let (step, after) = rename_symbol_step(
                issued,
                repository,
                arguments,
                write_allowed,
                now,
            );
            let presented = arguments.text("confirm_token"@);
            &&& apply::step_conforms(step)
            &&& step is Answer || step is DryRun || step is Write
            &&& step matches StepView::Write { plan: written, .. } ==> write_allowed
                && apply::confirmed(issued, presented, written, repository.root@, now)
                && !after.dom().contains(presented->0)
        }),
{
    broadcast use json::lemma_with_get;

    reveal(rename_symbol_step);
    contract::lemma_keys();
    match (arguments.text("symbol"@), arguments.text("new_name"@)) {
        (Some(symbol), Some(new_name)) => {
            law_refusals_conform(repository, symbol, new_name);
            match found_sites(repository, symbol, new_name) {
                Ok(rename) => {
                    let plan = plan::plan_value(
                        renames_plan("rename_symbol"@, Seq::empty().push(rename)).plan(),
                    );
                    law_generated_plans_take_every_gate(
                        issued,
                        repository.root@,
                        plan,
                        arguments.text("confirm_token"@),
                        PurposeView::Plan,
                        write_allowed,
                        now,
                    );
                },
                Err(_) => {},
            }
        },
        _ => {},
    }
}

/// A rename that was previewed is applied by repeating it: with the same symbol and new name, the
/// mode and the confirmation of its preview, the same plan is written.
pub proof fn law_a_previewed_rename_applies(
    issued: Map<Seq<char>, IssuedView>,
    repository: Repository,
    arguments: JsonView,
    outcome: DryRun,
    write_allowed: bool,
    now: u64,
    again: JsonView,
    later: u64,
)
    requires
        now <= u64::MAX - token::TOKEN_TTL,
        later < now + token::TOKEN_TTL,
        outcome is Passed,
        rename_symbol_step(issued, repository, arguments, write_allowed, now).0 is DryRun,
        again.text("symbol"@) == arguments.text("symbol"@),
        again.text("new_name"@) == arguments.text("new_name"@),
        apply::applies(again),
        ({
            let plan = rename_symbol_step(
                issued,
                repository,
                arguments,
                write_allowed,
                now,
            ).0->DryRun_plan;
            again.text("confirm_token"@) == Some(token::token_value(plan, now))
        }),
    ensures
        ({
            let plan = rename_symbol_step(
                issued,
                repository,
                arguments,
                write_allowed,
                now,
            ).0->DryRun_plan;
            rename_symbol_step(
                apply::issued_after(issued, outcome, plan, repository.root@, now),
                repository,
                again,
                true,
                later,
            ).0 == (StepView::Write { plan, purpose: PurposeView::Plan })
        }),
{
    reveal(rename_symbol_step);
}

/// The columns on a line are those of the places on it.
proof fn lemma_columns_on(places: Seq<(u32, u32, u32)>, line: u32, columns: (u32, u32))
    ensures
        occurrences::columns_on(places, line).contains(columns) <==> places.contains(
            (line, columns.0, columns.1),
        ),
    decreases places.len(),
{
    let place = (line, columns.0, columns.1);
    if places.len() > 0 {
        let rest = places.drop_last();
        let before = occurrences::columns_on(rest, line);
        let all = occurrences::columns_on(places, line);
        lemma_columns_on(rest, line, columns);
        if all.contains(columns) {
            let i = choose|i: int| 0 <= i < all.len() && all[i] == columns;
            if i < before.len() {
                assert(before[i] == columns);
                let k = choose|k: int| 0 <= k < rest.len() && rest[k] == place;
                assert(places[k] == place);
            } else {
                assert(places[places.len() - 1] == place);
            }
        }
        if places.contains(place) {
            let k = choose|k: int| 0 <= k < places.len() && places[k] == place;
            if k < rest.len() {
                assert(rest[k] == place);
                let i = choose|i: int| 0 <= i < before.len() && before[i] == columns;
                assert(all[i] == columns);
            } else {
                assert(all[before.len() as int] == columns);
            }
        }
    }
}

/// The accepted places of a line are those of its columns that can be converted.
proof fn lemma_accepted_on(
    source: Seq<char>,
    line: u32,
    columns: Seq<(u32, u32)>,
    place: (u32, u32, u32),
)
    ensures
        accepted_on(source, line, columns).contains(place) <==> place.0 == line
            && columns.contains((place.1, place.2)) && convertible(
            source,
            line,
            (place.1, place.2),
        ),
    decreases columns.len(),
{
    let pair = (place.1, place.2);
    if columns.len() > 0 {
        let rest = columns.drop_last();
        let before = accepted_on(source, line, rest);
        let all = accepted_on(source, line, columns);
        lemma_accepted_on(source, line, rest, place);
        if all.contains(place) {
            let i = choose|i: int| 0 <= i < all.len() && all[i] == place;
            if i < before.len() {
                assert(before[i] == place);
                let k = choose|k: int| 0 <= k < rest.len() && rest[k] == pair;
                assert(columns[k] == pair);
            } else {
                assert(columns[columns.len() - 1] == pair);
            }
        }
        if place.0 == line && columns.contains(pair) && convertible(source, line, pair) {
            let k = choose|k: int| 0 <= k < columns.len() && columns[k] == pair;
            if k < rest.len() {
                assert(rest[k] == pair);
                let i = choose|i: int| 0 <= i < before.len() && before[i] == place;
                assert(all[i] == place);
            } else {
                assert(all[before.len() as int] == place);
            }
        }
    }
}

/// A site needs two proofs: the graph attributes its line to the symbol, and the occurrence is an
/// identifier there, or a word where the language is unknown. Every occurrence with both is a
/// site, as far as its columns can be converted.
pub proof fn law_a_site_needs_both_proofs(
    source: Seq<char>,
    places: Option<Seq<(u32, u32, u32)>>,
    name: Seq<char>,
    proven: Seq<u32>,
    place: (u32, u32, u32),
)
    ensures
        accepted_in(source, places, name, proven).contains(place) <==> proven.contains(place.0)
            && convertible(source, place.0, (place.1, place.2)) && match places {
            Some(identifiers) => identifiers.contains(place),
            None => occurrences::on_line(source, place.0, name).contains((place.1, place.2)),
        },
    decreases proven.len(),
{
    if proven.len() > 0 {
        let rest = proven.drop_last();
        let line = proven.last();
        let before = accepted_in(source, places, name, rest);
        let columns = columns_for(source, places, name, line);
        let own = accepted_on(source, line, columns);
        let all = accepted_in(source, places, name, proven);
        law_a_site_needs_both_proofs(source, places, name, rest, place);
        lemma_accepted_on(source, line, columns, place);
        match places {
            Some(identifiers) => {
                lemma_columns_on(identifiers, line, (place.1, place.2));
            },
            None => {},
        }
        if all.contains(place) {
            let i = choose|i: int| 0 <= i < all.len() && all[i] == place;
            if i < before.len() {
                assert(before[i] == place);
                let k = choose|k: int| 0 <= k < rest.len() && rest[k] == place.0;
                assert(proven[k] == place.0);
            } else {
                assert(own[i - before.len()] == place);
                assert(proven[proven.len() - 1] == line);
            }
        }
        if proven.contains(place.0) {
            let k = choose|k: int| 0 <= k < proven.len() && proven[k] == place.0;
            if k < rest.len() {
                assert(rest[k] == place.0);
                if before.contains(place) {
                    let i = choose|i: int| 0 <= i < before.len() && before[i] == place;
                    assert(all[i] == place);
                }
            } else if own.contains(place) {
                let i = choose|i: int| 0 <= i < own.len() && own[i] == place;
                assert(all[before.len() + i] == place);
            }
        }
    }
}

/// A line with an occurrence that was not planned is reported.
proof fn lemma_reported(
    path: Seq<char>,
    source: Seq<char>,
    name: Seq<char>,
    accepted: Seq<(u32, u32, u32)>,
    count: int,
    line: int,
)
    requires
        1 <= line <= count,
        unplanned(occurrences::on_line(source, line as u32, name), line as u32, accepted),
    ensures
        reported(path, source, name, accepted, count).contains(
            unproven(path, line as u32, coordinates::lines(source)[line - 1]),
        ),
    decreases count,
{
    let report = unproven(path, line as u32, coordinates::lines(source)[line - 1]);
    let before = reported(path, source, name, accepted, count - 1);
    let all = reported(path, source, name, accepted, count);
    if line == count {
        assert(all[before.len() as int] == report);
    } else {
        lemma_reported(path, source, name, accepted, count - 1, line);
        let i = choose|i: int| 0 <= i < before.len() && before[i] == report;
        assert(all[i] == report);
    }
}

/// Nothing is silently dropped: every occurrence of the name as a word, on any line of a file, is
/// one of the sites or its line is reported.
pub proof fn law_every_occurrence_is_planned_or_reported(
    path: Seq<char>,
    source: Seq<char>,
    name: Seq<char>,
    accepted: Seq<(u32, u32, u32)>,
    line: u32,
    columns: (u32, u32),
)
    requires
        1 <= line <= coordinates::lines(source).len(),
        occurrences::on_line(source, line, name).contains(columns),
    ensures
        accepted.contains((line, columns.0, columns.1)) || reported(
            path,
            source,
            name,
            accepted,
            coordinates::lines(source).len() as int,
        ).contains(unproven(path, line, coordinates::lines(source)[line - 1])),
{
    let found = occurrences::on_line(source, line, name);
    let i = choose|i: int| 0 <= i < found.len() && found[i] == columns;
    if !accepted.contains((line, columns.0, columns.1)) {
        assert(unplanned(found, line, accepted));
        lemma_reported(
            path,
            source,
            name,
            accepted,
            coordinates::lines(source).len() as int,
            line as int,
        );
    }
}

/// Whether an edit writes the new name of a rename over its old name.
pub open spec fn renames_something(renames: Seq<RenameView>, before: Seq<char>, after: Seq<char>) -> bool {
    exists|i: int|
        0 <= i < renames.len() && (#[trigger] renames[i]).old_name == before && renames[i].new_name
            == after
}

/// Whether every placed edit writes the new name of a rename over its old name.
spec fn placed_rename(renames: Seq<RenameView>, edits: Seq<PlacedView>) -> bool {
    forall|i: int|
        0 <= i < edits.len() ==> renames_something(
            renames,
            (#[trigger] edits[i]).before,
            edits[i].after,
        )
}

/// Putting one more among edits keeps what they write.
proof fn lemma_placed_inserted(
    renames: Seq<RenameView>,
    list: Seq<PlacedView>,
    item: PlacedView,
)
    requires
        placed_rename(renames, list),
        renames_something(renames, item.before, item.after),
    ensures
        placed_rename(renames, placed_inserted(list, item)),
    decreases list.len(),
{
    let all = placed_inserted(list, item);
    if list.len() > 0 && !site_before(item.site, list[0].site) {
        let rest = list.drop_first();
        assert(placed_rename(renames, rest)) by {
            assert forall|i: int| 0 <= i < rest.len() implies renames_something(
                renames,
                (#[trigger] rest[i]).before,
                rest[i].after,
            ) by {
                assert(rest[i] == list[i + 1]);
            }
        }
        lemma_placed_inserted(renames, rest, item);
        assert forall|i: int| 0 <= i < all.len() implies renames_something(
            renames,
            (#[trigger] all[i]).before,
            all[i].after,
        ) by {
            if i == 0 {
                assert(all[0] == list[0]);
            } else {
                assert(all[i] == placed_inserted(rest, item)[i - 1]);
            }
        }
    } else {
        assert forall|i: int| 0 <= i < all.len() implies renames_something(
            renames,
            (#[trigger] all[i]).before,
            all[i].after,
        ) by {
            if i == 0 {
                assert(all[0] == item);
            } else {
                assert(all[i] == list[i - 1]);
            }
        }
    }
}

/// Putting more sites among edits keeps what they write.
proof fn lemma_sites_inserted(
    renames: Seq<RenameView>,
    list: Seq<PlacedView>,
    sites: Seq<Site>,
    before: Seq<char>,
    after: Seq<char>,
)
    requires
        placed_rename(renames, list),
        renames_something(renames, before, after),
    ensures
        placed_rename(renames, sites_inserted(list, sites, before, after)),
    decreases sites.len(),
{
    if sites.len() > 0 {
        lemma_sites_inserted(renames, list, sites.drop_last(), before, after);
        lemma_placed_inserted(
            renames,
            sites_inserted(list, sites.drop_last(), before, after),
            PlacedView { site: sites.last(), before, after },
        );
    }
}

/// The edits of the first renames in a file write their names.
proof fn lemma_edits_for(renames: Seq<RenameView>, count: int, path: Seq<char>)
    requires
        0 <= count <= renames.len(),
    ensures
        placed_rename(renames, edits_for(renames.take(count), path)),
    decreases count,
{
    if count > 0 {
        let some = renames.take(count);
        assert(some.drop_last() =~= renames.take(count - 1));
        lemma_edits_for(renames, count - 1, path);
        let rename = some.last();
        assert(renames[count - 1] == rename);
        assert(renames_something(renames, rename.old_name, rename.new_name));
        match renamed_from(rename.files, path, 0) {
            Some(at) => {
                lemma_sites_inserted(
                    renames,
                    edits_for(renames.take(count - 1), path),
                    rename.files[at].sites,
                    rename.old_name,
                    rename.new_name,
                );
            },
            None => {},
        }
    }
}

/// Whether every edit of some files writes the new name of a rename over its old name.
pub open spec fn files_rename(renames: Seq<RenameView>, files: Seq<FileView>) -> bool {
    forall|i: int, j: int|
        0 <= i < files.len() && 0 <= j < files[i].edits.len() ==> renames_something(
            renames,
            (#[trigger] files[i].edits[j]).before,
            files[i].edits[j].after,
        )
}

/// Adding such edits to the open file keeps what a plan writes.
proof fn lemma_edits_planned(
    renames: Seq<RenameView>,
    builder: BuilderView,
    edits: Seq<PlacedView>,
)
    requires
        builder.current matches Some(at) && 0 <= at < builder.files.len(),
        files_rename(renames, builder.files),
        placed_rename(renames, edits),
    ensures
        files_rename(renames, edits_planned(builder, edits).files),
        edits_planned(builder, edits).current == builder.current,
        edits_planned(builder, edits).files.len() == builder.files.len(),
    decreases edits.len(),
{
    if edits.len() > 0 {
        let rest = edits.drop_last();
        assert(placed_rename(renames, rest)) by {
            assert forall|i: int| 0 <= i < rest.len() implies renames_something(
                renames,
                (#[trigger] rest[i]).before,
                rest[i].after,
            ) by {
                assert(rest[i] == edits[i]);
            }
        }
        lemma_edits_planned(renames, builder, rest);
        let before = edits_planned(builder, rest);
        let after = edits_planned(builder, edits);
        let at = builder.current->0;
        let last = edits.last();
        assert(edits[edits.len() - 1] == last);
        assert forall|i: int, j: int|
            0 <= i < after.files.len() && 0 <= j < after.files[i].edits.len() implies
            renames_something(
            renames,
            (#[trigger] after.files[i].edits[j]).before,
            after.files[i].edits[j].after,
        ) by {
            if i != at {
                assert(after.files[i] == before.files[i]);
                assert(before.files[i].edits[j].before == after.files[i].edits[j].before);
            } else if j < before.files[at].edits.len() {
                assert(after.files[at].edits[j] == before.files[at].edits[j]);
            }
        }
    }
}

/// A plan of the first paths writes the renames' names.
proof fn lemma_paths_planned(
    operation: Seq<char>,
    renames: Seq<RenameView>,
    paths: Seq<Seq<char>>,
)
    ensures
        files_rename(renames, paths_planned(operation, renames, paths).files),
    decreases paths.len(),
{
    if paths.len() > 0 {
        lemma_paths_planned(operation, renames, paths.drop_last());
        let before = paths_planned(operation, renames, paths.drop_last());
        let opened = before.file(paths.last(), hash_for(renames, paths.last(), 0));
        assert(files_rename(renames, opened.files)) by {
            assert forall|i: int, j: int|
                0 <= i < opened.files.len() && 0 <= j < opened.files[i].edits.len() implies
                renames_something(
                renames,
                (#[trigger] opened.files[i].edits[j]).before,
                opened.files[i].edits[j].after,
            ) by {
                if i < before.files.len() {
                    assert(opened.files[i] == before.files[i]);
                    assert(before.files[i].edits[j] == opened.files[i].edits[j]);
                }
            }
        }
        assert(renames.take(renames.len() as int) =~= renames);
        lemma_edits_for(renames, renames.len() as int, paths.last());
        lemma_edits_planned(renames, opened, edits_for(renames, paths.last()));
    }
}

/// The files with edits are among the files.
proof fn lemma_with_edits(renames: Seq<RenameView>, files: Seq<FileView>)
    requires
        files_rename(renames, files),
    ensures
        files_rename(renames, plan::with_edits(files)),
    decreases files.len(),
{
    if files.len() > 0 {
        let rest = files.drop_last();
        assert(files_rename(renames, rest)) by {
            assert forall|i: int, j: int|
                0 <= i < rest.len() && 0 <= j < rest[i].edits.len() implies renames_something(
                renames,
                (#[trigger] rest[i].edits[j]).before,
                rest[i].edits[j].after,
            ) by {
                assert(rest[i].edits[j] == files[i].edits[j]);
            }
        }
        lemma_with_edits(renames, rest);
        let kept = plan::with_edits(rest);
        let all = plan::with_edits(files);
        assert forall|i: int, j: int|
            0 <= i < all.len() && 0 <= j < all[i].edits.len() implies renames_something(
            renames,
            (#[trigger] all[i].edits[j]).before,
            all[i].edits[j].after,
        ) by {
            if i < kept.len() {
                assert(kept[i].edits[j] == all[i].edits[j]);
            } else {
                assert(all[i] == files.last());
                assert(files[files.len() - 1].edits[j] == all[i].edits[j]);
            }
        }
    }
}

/// A plan of renames does nothing else: every edit writes the new name of one of them over its old
/// name.
pub proof fn law_a_plan_only_renames(operation: Seq<char>, renames: Seq<RenameView>)
    ensures
        files_rename(renames, renames_plan(operation, renames).plan().files),
{
    lemma_paths_planned(operation, renames, touched(renames));
    lemma_with_edits(renames, renames_plan(operation, renames).files);
}

/// Every file of a rename that was collected has sites.
proof fn lemma_collected_files(
    repository: Repository,
    rename: RenameView,
    referencing: Seq<(Seq<char>, Seq<u32>)>,
    importing: Seq<Seq<char>>,
)
    requires
        rename.files.len() == 0,
    ensures
        forall|i: int|
            0 <= i < collected(repository, rename, referencing, importing).files.len() ==> (
            #[trigger] collected(
                repository,
                rename,
                referencing,
                importing,
            ).files[i]).sites.len() > 0,
    decreases referencing.len(),
{
    if referencing.len() > 0 {
        lemma_collected_files(repository, rename, referencing.drop_last(), importing);
        let before = collected(repository, rename, referencing.drop_last(), importing);
        let after = collected(repository, rename, referencing, importing);
        assert forall|i: int| 0 <= i < after.files.len() implies (
        #[trigger] after.files[i]).sites.len() > 0 by {
            if i < before.files.len() {
                assert(after.files[i] == before.files[i]);
            }
        }
    }
}

/// Putting one more among edits leaves one more of them.
proof fn lemma_placed_length(list: Seq<PlacedView>, item: PlacedView)
    ensures
        placed_inserted(list, item).len() == list.len() + 1,
    decreases list.len(),
{
    if list.len() > 0 && !site_before(item.site, list[0].site) {
        lemma_placed_length(list.drop_first(), item);
    }
}

/// Putting sites among edits leaves as many more of them.
proof fn lemma_sites_length(
    list: Seq<PlacedView>,
    sites: Seq<Site>,
    before: Seq<char>,
    after: Seq<char>,
)
    ensures
        sites_inserted(list, sites, before, after).len() == list.len() + sites.len(),
    decreases sites.len(),
{
    if sites.len() > 0 {
        lemma_sites_length(list, sites.drop_last(), before, after);
        lemma_placed_length(
            sites_inserted(list, sites.drop_last(), before, after),
            PlacedView { site: sites.last(), before, after },
        );
    }
}

/// A path is found among files that hold it.
pub proof fn lemma_renamed_from(files: Seq<RenamedView>, from: int, at: int)
    requires
        0 <= from <= at < files.len(),
    ensures
        renamed_from(files, files[at].path, from) matches Some(found) && from <= found
            < files.len(),
    decreases at - from,
{
    if files[from].path != files[at].path {
        lemma_renamed_from(files, from + 1, at);
    }
}

/// A file that a rename touches gets edits.
proof fn lemma_edits_for_touched(renames: Seq<RenameView>, at: int, file: int)
    requires
        0 <= at < renames.len(),
        0 <= file < renames[at].files.len(),
        forall|i: int, j: int|
            0 <= i < renames.len() && 0 <= j < renames[i].files.len() ==> (
            #[trigger] renames[i].files[j]).sites.len() > 0,
    ensures
        edits_for(renames, renames[at].files[file].path).len() > 0,
    decreases renames.len(),
{
    let path = renames[at].files[file].path;
    let rest = renames.drop_last();
    let rename = renames.last();
    match renamed_from(rename.files, path, 0) {
        Some(found) => {
            lemma_sites_length(
                edits_for(rest, path),
                rename.files[found].sites,
                rename.old_name,
                rename.new_name,
            );
            if at == renames.len() - 1 {
                lemma_renamed_from(rename.files, 0, file);
                assert(renames[renames.len() - 1].files[found].sites.len() > 0);
            }
        },
        None => {
            if at == renames.len() - 1 {
                lemma_renamed_from(rename.files, 0, file);
            }
        },
    }
    if at < renames.len() - 1 {
        assert(rest[at] == renames[at]);
        assert forall|i: int, j: int|
            0 <= i < rest.len() && 0 <= j < rest[i].files.len() implies (
        #[trigger] rest[i].files[j]).sites.len() > 0 by {
            assert(rest[i].files[j] == renames[i].files[j]);
        }
        lemma_edits_for_touched(rest, at, file);
    }
}

/// The paths of files are among those that are touched.
pub proof fn lemma_touched_by(files: Seq<RenamedView>, start: Seq<Seq<char>>)
    requires
        order::ascending(start),
    ensures
        order::ascending(touched_by(files, start)),
        forall|p: Seq<char>| start.contains(p) ==> #[trigger] touched_by(files, start).contains(p),
        forall|i: int|
            0 <= i < files.len() ==> touched_by(files, start).contains(
                (#[trigger] files[i]).path,
            ),
    decreases files.len(),
{
    if files.len() > 0 {
        let rest = files.drop_last();
        lemma_touched_by(rest, start);
        order::lemma_inserted(touched_by(rest, start), files.last().path);
        assert forall|i: int| 0 <= i < files.len() implies touched_by(files, start).contains(
            (#[trigger] files[i]).path,
        ) by {
            if i < rest.len() {
                assert(rest[i] == files[i]);
            }
        }
    }
}

/// The paths of renames are among those that are touched.
pub proof fn lemma_touched(renames: Seq<RenameView>, at: int, file: int)
    requires
        0 <= at < renames.len(),
        0 <= file < renames[at].files.len(),
    ensures
        order::ascending(touched(renames)),
        touched(renames).contains(renames[at].files[file].path),
    decreases renames.len(),
{
    let rest = renames.drop_last();
    lemma_touched_ascending(rest);
    lemma_touched_by(renames.last().files, touched(rest));
    if at < renames.len() - 1 {
        assert(rest[at] == renames[at]);
        lemma_touched(rest, at, file);
    }
}

/// Touched paths are ascending.
pub proof fn lemma_touched_ascending(renames: Seq<RenameView>)
    ensures
        order::ascending(touched(renames)),
    decreases renames.len(),
{
    if renames.len() > 0 {
        lemma_touched_ascending(renames.drop_last());
        lemma_touched_by(renames.last().files, touched(renames.drop_last()));
    }
}

/// Adding edits to the open file keeps a plan sound, and leaves it with edits where it had some or
/// there are some.
proof fn lemma_edits_sound(builder: BuilderView, edits: Seq<PlacedView>)
    requires
        envelope::sound(builder),
        builder.current is Some,
    ensures
        envelope::sound(edits_planned(builder, edits)),
        edits_planned(builder, edits).current == builder.current,
        !builder.is_empty() || edits.len() > 0 ==> !edits_planned(builder, edits).is_empty(),
    decreases edits.len(),
{
    broadcast use envelope::lemma_sound_edit;

    if edits.len() > 0 {
        lemma_edits_sound(builder, edits.drop_last());
        let after = edits_planned(builder, edits);
        assert(after.files[builder.current->0].edits.len() > 0);
    }
}

/// A plan of paths is sound, and has edits where a path among them has some.
pub proof fn lemma_paths_sound(
    operation: Seq<char>,
    renames: Seq<RenameView>,
    paths: Seq<Seq<char>>,
)
    ensures
        envelope::sound(paths_planned(operation, renames, paths)),
        (exists|i: int|
            0 <= i < paths.len() && edits_for(renames, #[trigger] paths[i]).len() > 0)
            ==> !paths_planned(operation, renames, paths).is_empty(),
    decreases paths.len(),
{
    broadcast use envelope::lemma_sound_start, envelope::lemma_sound_file;

    if paths.len() > 0 {
        let rest = paths.drop_last();
        lemma_paths_sound(operation, renames, rest);
        let before = paths_planned(operation, renames, rest);
        let opened = before.file(paths.last(), hash_for(renames, paths.last(), 0));
        if !before.is_empty() {
            let i = choose|i: int| 0 <= i < before.files.len() && before.files[i].edits.len() != 0;
            assert(opened.files[i] == before.files[i]);
            assert(!opened.is_empty());
        }
        lemma_edits_sound(opened, edits_for(renames, paths.last()));
        if exists|i: int|
            0 <= i < paths.len() && edits_for(renames, #[trigger] paths[i]).len() > 0 {
            let i = choose|i: int|
                0 <= i < paths.len() && edits_for(renames, #[trigger] paths[i]).len() > 0;
            if i < rest.len() {
                assert(edits_for(renames, rest[i]).len() > 0);
            }
        }
    }
}

/// The plan of renames that were found is one that the applier reads back.
pub proof fn law_the_plan_reads_back(
    repository: Repository,
    operation: Seq<char>,
    requests: Seq<(Seq<char>, Seq<char>)>,
    renames: Seq<RenameView>,
)
    requires
        0 < renames.len() == requests.len(),
        forall|i: int|
            0 <= i < renames.len() ==> found_sites(
                repository,
                (#[trigger] requests[i]).0,
                requests[i].1,
            ) == Ok::<RenameView, JsonView>(renames[i]),
    ensures
        ({
            let built = renames_plan(operation, renames);
            envelope::plan_of(plan::plan_value(built.plan())) == Ok::<PlanView, Seq<char>>(
                built.plan(),
            )
        }),
{
    assert forall|i: int, j: int|
        0 <= i < renames.len() && 0 <= j < renames[i].files.len() implies (
    #[trigger] renames[i].files[j]).sites.len() > 0 by {
        lemma_found_files(repository, requests[i].0, requests[i].1);
        assert(found_sites(repository, requests[i].0, requests[i].1) == Ok::<
            RenameView,
            JsonView,
        >(renames[i]));
    }
    assert(found_sites(repository, requests[0].0, requests[0].1) == Ok::<RenameView, JsonView>(
        renames[0],
    ));
    lemma_found_files(repository, requests[0].0, requests[0].1);
    let paths = touched(renames);
    lemma_touched(renames, 0, 0);
    lemma_edits_for_touched(renames, 0, 0);
    let path = renames[0].files[0].path;
    let at = choose|at: int| 0 <= at < paths.len() && paths[at] == path;
    assert(edits_for(renames, paths[at]).len() > 0);
    lemma_paths_sound(operation, renames, paths);
    envelope::law_a_sound_plan_reads_back(renames_plan(operation, renames));
}

/// A rename that was found has files, and every one of them has sites.
proof fn lemma_found_files(repository: Repository, symbol: Seq<char>, new_name: Seq<char>)
    ensures
        found_sites(repository, symbol, new_name) matches Ok(rename) ==> rename.files.len() > 0
            && forall|i: int|
            0 <= i < rename.files.len() ==> (#[trigger] rename.files[i]).sites.len() > 0,
{
    let nodes = repository.graph.nodes@;
    match resolve::resolved(nodes, symbol) {
        Some(at) => match nodes[at].span {
            Some(span) => {
                lemma_collected_files(
                    repository,
                    RenameView {
                        old_name: words::plain_name(nodes[at].label@),
                        new_name,
                        files: Seq::empty(),
                        uncertain: Seq::empty(),
                    },
                    referencing_files(repository, nodes[at].id@, span.file@, span.start_line),
                    references::importing(repository, span.file@),
                );
            },
            None => {},
        },
        None => {},
    }
}

} // verus!
