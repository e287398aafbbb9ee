//! What renaming several symbols at once promises of each of them.

use crate::evidence;
use crate::fit;
use crate::graph::Repository;
use crate::json;
use crate::json::JsonView;
use crate::operations::apply::{PreviewView, StepView};
use crate::operations::rename_plan;
use crate::operations::rename_related;
use crate::operations::rename_related::ClaimView;
use crate::operations::rename_symbol;
use crate::operations::rename_symbol::{PlacedView, RenameView, RenamedView};
use crate::promises::rename;
use crate::resolve;
use crate::text;
use crate::token::IssuedView;
use crate::words;
use vstd::prelude::*;
use vstd::string::*;

verus! {

/// Whether some file of a rename has the site of a claim.
spec fn made_by(files: Seq<RenamedView>, claim: ClaimView) -> bool {
    exists|f: int|
        0 <= f < files.len() && (#[trigger] files[f]).path == claim.path && files[f].sites.contains(
            claim.site,
        )
}

/// A claim of a rename is on one of its sites.
proof fn lemma_claim_made(files: Seq<RenamedView>, name: Seq<char>, at: int)
    requires
        0 <= at < rename_related::file_claims(files, name).len(),
    ensures
        rename_related::file_claims(files, name)[at].name == name,
        made_by(files, rename_related::file_claims(files, name)[at]),
    decreases files.len(),
{
    if files.len() > 0 {
        let rest = files.drop_last();
        let before = rename_related::file_claims(rest, name);
        let claim = rename_related::file_claims(files, name)[at];
        if at < before.len() {
            lemma_claim_made(rest, name, at);
            let f = choose|f: int|
                0 <= f < rest.len() && (#[trigger] rest[f]).path == claim.path
                    && rest[f].sites.contains(claim.site);
            assert(files[f] == rest[f]);
        } else {
            let end = files.len() - 1;
            assert(files[end].sites[at - before.len()] == claim.site);
            assert(files[end].path == claim.path);
        }
    }
}

/// Whether a rename makes a claim.
spec fn claims(rename: RenameView, claim: ClaimView) -> bool {
    rename.new_name == claim.name && made_by(rename.files, claim)
}

/// A claim of some renames is a claim of one of them.
proof fn lemma_claimed_by(renames: Seq<RenameView>, at: int)
    requires
        0 <= at < rename_related::claims_of(renames).len(),
    ensures
        exists|r: int|
            0 <= r < renames.len() && claims(
                #[trigger] renames[r],
                rename_related::claims_of(renames)[at],
            ),
    decreases renames.len(),
{
    if renames.len() > 0 {
        let rest = renames.drop_last();
        let before = rename_related::claims_of(rest);
        let claim = rename_related::claims_of(renames)[at];
        if at < before.len() {
            lemma_claimed_by(rest, at);
            let r = choose|r: int| 0 <= r < rest.len() && claims(#[trigger] rest[r], claim);
            assert(renames[r] == rest[r]);
        } else {
            let end = renames.len() - 1;
            lemma_claim_made(renames.last().files, renames.last().new_name, at - before.len());
            assert(claims(renames[end], claim));
        }
    }
}

/// Whether no two of some texts are the same.
pub open spec fn apart(texts: Seq<Seq<char>>) -> bool {
    forall|i: int, j: int| 0 <= i < j < texts.len() ==> #[trigger] texts[i] != #[trigger] texts[j]
}

/// The old names of renames.
spec fn old_names(renames: Seq<RenameView>) -> Seq<Seq<char>> {
    Seq::new(renames.len(), |i: int| renames[i].old_name)
}

/// A name that no rename has leads from none.
proof fn lemma_renamed_from_none(renames: Seq<RenameView>, name: Seq<char>)
    requires
        forall|i: int| 0 <= i < renames.len() ==> (#[trigger] renames[i]).new_name != name,
    ensures
        rename_related::renamed_to(renames, name).len() == 0,
    decreases renames.len(),
{
    if renames.len() > 0 {
        let rest = renames.drop_last();
        assert(renames[renames.len() - 1].new_name != name);
        assert forall|i: int| 0 <= i < rest.len() implies (#[trigger] rest[i]).new_name != name by {
            assert(rest[i] == renames[i]);
        }
        lemma_renamed_from_none(rest, name);
    }
}

/// With distinct new names, no name is taken twice.
proof fn lemma_renamed_once(renames: Seq<RenameView>, name: Seq<char>)
    requires
        apart(rename_related::new_names(renames)),
    ensures
        rename_related::renamed_to(renames, name).len() <= 1,
    decreases renames.len(),
{
    if renames.len() > 0 {
        let rest = renames.drop_last();
        let names = rename_related::new_names(renames);
        let shorter = rename_related::new_names(rest);
        assert(apart(shorter)) by {
            assert forall|i: int, j: int| 0 <= i < j < shorter.len() implies #[trigger] shorter[i]
                != #[trigger] shorter[j] by {
                assert(names[i] != names[j]);
            }
        }
        lemma_renamed_once(rest, name);
        if renames.last().new_name == name {
            let end = renames.len() - 1;
            assert forall|i: int| 0 <= i < rest.len() implies (#[trigger] rest[i]).new_name
                != name by {
                assert(names[i] != names[end]);
            }
            lemma_renamed_from_none(rest, name);
        }
    }
}

/// With distinct new names, none collides.
proof fn lemma_none_collide(renames: Seq<RenameView>, names: Seq<Seq<char>>)
    requires
        apart(rename_related::new_names(renames)),
    ensures
        rename_related::colliding(renames, names).len() == 0,
    decreases names.len(),
{
    if names.len() > 0 {
        lemma_none_collide(renames, names.drop_last());
        lemma_renamed_once(renames, names.last());
    }
}

/// One place reads as one name.
proof fn lemma_one_reading(
    repository: Repository,
    one: RenameView,
    other: RenameView,
    first: ClaimView,
    second: ClaimView,
)
    requires
        rename_plan::rename_fits(repository.sources@, one),
        rename_plan::rename_fits(repository.sources@, other),
        made_by(one.files, first),
        made_by(other.files, second),
        first.path == second.path,
        first.site == second.site,
    ensures
        one.old_name == other.old_name,
{
    let path = first.path;
    let site = first.site;
    let f = choose|f: int|
        0 <= f < one.files.len() && (#[trigger] one.files[f]).path == path
            && one.files[f].sites.contains(site);
    let g = choose|g: int|
        0 <= g < other.files.len() && (#[trigger] other.files[g]).path == path
            && other.files[g].sites.contains(site);
    assert(rename_plan::renamed_fits(
        repository.sources@,
        one.files[f],
        one.old_name,
        one.new_name,
    ));
    assert(rename_plan::renamed_fits(
        repository.sources@,
        other.files[g],
        other.old_name,
        other.new_name,
    ));
    let source = evidence::source_of(repository.sources@, path)->0;
    fit::lemma_source_bound(repository.sources@, path);
    let s = choose|s: int| 0 <= s < one.files[f].sites.len() && one.files[f].sites[s] == site;
    let t = choose|t: int| 0 <= t < other.files[g].sites.len() && other.files[g].sites[t] == site;
    assert(rename_plan::site_stands(
        source,
        one.files[f].sites[s],
        one.old_name,
        one.new_name,
    ));
    assert(rename_plan::site_stands(
        source,
        other.files[g].sites[t],
        other.old_name,
        other.new_name,
    ));
    let this = rename_symbol::placed_edit(
        PlacedView { site, before: one.old_name, after: one.new_name },
    );
    let that = rename_symbol::placed_edit(
        PlacedView { site, before: other.old_name, after: other.new_name },
    );
    let (from, to) = choose|from: int, to: int| fit::stands_at(source, this, from, to);
    let (start, end) = choose|start: int, end: int| fit::stands_at(source, that, start, end);
    fit::law_a_position_names_one_offset(source, site.line, site.start, from, start);
    fit::law_a_position_names_one_offset(source, site.line, site.end, to, end);
}

/// Renames with distinct old names and distinct new names do not conflict.
proof fn lemma_no_conflict(repository: Repository, renames: Seq<RenameView>)
    requires
        apart(rename_related::new_names(renames)),
        apart(old_names(renames)),
        rename_plan::renames_fit(repository.sources@, renames),
    ensures
        rename_related::conflicts_of(renames).len() == 0,
{
    let all = rename_related::claims_of(renames);
    rename_related::law_contradictions_are_caught(all);
    lemma_none_collide(renames, crate::order::sorted(rename_related::new_names(renames)));
    if rename_related::contested(all).len() > 0 {
        let (i, j) = choose|i: int, j: int|
            0 <= i < j < all.len() && (#[trigger] all[i]).path == (#[trigger] all[j]).path
                && all[i].site == all[j].site && all[i].name != all[j].name;
        lemma_claimed_by(renames, i);
        lemma_claimed_by(renames, j);
        let r = choose|r: int| 0 <= r < renames.len() && claims(#[trigger] renames[r], all[i]);
        let q = choose|q: int| 0 <= q < renames.len() && claims(#[trigger] renames[q], all[j]);
        assert(rename_plan::rename_fits(repository.sources@, renames[r]));
        assert(rename_plan::rename_fits(repository.sources@, renames[q]));
        lemma_one_reading(repository, renames[r], renames[q], all[i], all[j]);
        let olds = old_names(renames);
        if r < q {
            assert(olds[r] != olds[q]);
        } else if q < r {
            assert(olds[q] != olds[r]);
        }
        assert(false);
    }
}

/// Entries that all ask for a rename are all requested.
proof fn lemma_all_requested(
    entries: Seq<JsonView>,
    from: int,
    read: Seq<(Seq<char>, Seq<char>)>,
)
    requires
        0 <= from <= entries.len(),
        forall|i: int|
            0 <= i < entries.len() ==> (#[trigger] entries[i]).text("symbol"@) is Some
                && entries[i].text("new_name"@) is Some,
    ensures
        rename_related::requests_from(entries, from, read) is Ok,
    decreases entries.len() - from,
{
    if from < entries.len() {
        assert(entries[from].text("symbol"@) is Some);
        lemma_all_requested(
            entries,
            from + 1,
            read.push(rename_related::request(entries[from])->0),
        );
    }
}

/// Whether one entry, taken as a call of its own, is previewed.
pub open spec fn previewed_alone(
    issued: Map<Seq<char>, IssuedView>,
    repository: Repository,
    entry: JsonView,
    now: u64,
) -> bool {
    rename_symbol::rename_symbol_step(issued, repository, entry, false, now).0 is DryRun
}

/// The name that the symbol of an entry has.
pub open spec fn name_now(repository: Repository, entry: JsonView) -> Seq<char> {
    words::plain_name(
        repository.graph.nodes@[resolve::resolved(
            repository.graph.nodes@,
            entry.text("symbol"@)->0,
        )->0].label@,
    )
}

/// The names that entries ask for.
pub open spec fn names_asked(entries: Seq<JsonView>) -> Seq<Seq<char>> {
    Seq::new(entries.len(), |i: int| entries[i].text("new_name"@)->0)
}

/// The names that the symbols of entries have.
pub open spec fn names_held(repository: Repository, entries: Seq<JsonView>) -> Seq<Seq<char>> {
    Seq::new(entries.len(), |i: int| name_now(repository, entries[i]))
}

/// Renames that each work alone work together: up to fifty entries, each of which would be
/// previewed as a call of its own, with distinct old names and distinct new names, are previewed as
/// a batch. That holds where they form a chain or a swap as well.
pub proof fn law_renames_that_work_alone_work_together(
    issued: Map<Seq<char>, IssuedView>,
    repository: Repository,
    arguments: JsonView,
    write_allowed: bool,
    now: u64,
    entries: Seq<JsonView>,
)
    requires
        arguments.list("renames"@) == Some(entries),
        arguments.text("mode"@) != Some("apply"@),
        1 <= entries.len() <= 50,
        forall|i: int|
            0 <= i < entries.len() ==> previewed_alone(
                issued,
                repository,
                #[trigger] entries[i],
                now,
            ),
        apart(names_asked(entries)),
        apart(names_held(repository, entries)),
    ensures
        rename_related::rename_related_step(
            issued,
            repository,
            arguments,
            write_allowed,
            now,
        ).0 is DryRun,
{
    reveal(rename_symbol::rename_symbol_step);
    reveal(rename_related::rename_related_step);
    let nothing = Seq::<(Seq<char>, Seq<char>)>::empty();
    assert forall|i: int| 0 <= i < entries.len() implies (#[trigger] entries[i]).text("symbol"@)
        is Some && entries[i].text("new_name"@) is Some && rename_symbol::found_sites(
        repository,
        entries[i].text("symbol"@)->0,
        entries[i].text("new_name"@)->0,
    ) is Ok by {
        assert(previewed_alone(issued, repository, entries[i], now));
    }
    lemma_all_requested(entries, 0, nothing);
    rename::lemma_requests(entries, 0, nothing);
    let requests = rename_related::requests_from(entries, 0, nothing)->Ok_0;
    rename_related::law_a_batch_is_all_or_nothing(repository, requests);
    let outcome = rename_related::renames_from(repository, requests, 0, Seq::empty());
    if outcome is Err {
        let i = choose|i: int|
            0 <= i < requests.len() && rename_symbol::found_sites(
                repository,
                (#[trigger] requests[i]).0,
                requests[i].1,
            ) == Err::<RenameView, JsonView>(outcome->Err_0.get("cause"@)->0);
        assert(entries[i].text("symbol"@) == Some(requests[i].0));
        assert(false);
    }
    let renames = outcome->Ok_0;
    assert forall|i: int| 0 <= i < renames.len() implies rename_plan::rename_fits(
        repository.sources@,
        #[trigger] renames[i],
    ) && renames[i].old_name == name_now(repository, entries[i]) && renames[i].new_name
        == entries[i].text("new_name"@)->0 by {
        assert(entries[i].text("symbol"@) == Some(requests[i].0));
        rename_plan::lemma_found_fits(repository, requests[i].0, requests[i].1);
        rename::lemma_names_kept(repository, requests[i].0, requests[i].1);
    }
    let olds = old_names(renames);
    let news = rename_related::new_names(renames);
    assert(olds =~= names_held(repository, entries));
    assert(news =~= names_asked(entries));
    lemma_no_conflict(repository, renames);
    rename_symbol::law_the_plan_reads_back(
        repository,
        "rename_related_symbols"@,
        requests,
        renames,
    );
}

/// A batch is all or nothing: where one of its entries would be refused as a call of its own, the
/// batch is answered, and nothing of it is planned.
pub proof fn law_one_refusal_refuses_the_batch(
    issued: Map<Seq<char>, IssuedView>,
    repository: Repository,
    arguments: JsonView,
    write_allowed: bool,
    now: u64,
    entries: Seq<JsonView>,
    entry: int,
)
    requires
        arguments.list("renames"@) == Some(entries),
        0 <= entry < entries.len(),
        entries[entry].text("mode"@) != Some("apply"@),
        !previewed_alone(issued, repository, entries[entry], now),
    ensures
        rename_related::rename_related_step(
            issued,
            repository,
            arguments,
            write_allowed,
            now,
        ).0 is Answer,
{
    reveal(rename_symbol::rename_symbol_step);
    reveal(rename_related::rename_related_step);
    let nothing = Seq::<(Seq<char>, Seq<char>)>::empty();
    rename::lemma_requests(entries, 0, nothing);
    if rename_related::requested(arguments) is Ok {
        let requests = rename_related::requests_from(entries, 0, nothing)->Ok_0;
        rename_related::law_a_batch_is_all_or_nothing(repository, requests);
        assert(entries[entry].text("symbol"@) == Some(requests[entry].0));
        if rename_related::renames_from(repository, requests, 0, Seq::empty()) is Ok {
            let renames = rename_related::renames_from(
                repository,
                requests,
                0,
                Seq::empty(),
            )->Ok_0;
            let one = Seq::<RenameView>::empty().push(renames[entry]);
            let asked = Seq::<(Seq<char>, Seq<char>)>::empty().push(requests[entry]);
            assert(one[0] == renames[entry] && asked[0] == requests[entry]);
            assert(rename_symbol::found_sites(repository, requests[entry].0, requests[entry].1)
                == Ok::<RenameView, JsonView>(renames[entry]));
            rename_symbol::law_the_plan_reads_back(repository, "rename_symbol"@, asked, one);
            assert(false);
        }
    }
}

/// Two entries with one new name are never both planned: the batch is answered, and nothing of it
/// is planned.
pub proof fn law_two_symbols_get_no_one_name(
    issued: Map<Seq<char>, IssuedView>,
    repository: Repository,
    arguments: JsonView,
    write_allowed: bool,
    now: u64,
    entries: Seq<JsonView>,
    one: int,
    other: int,
)
    requires
        arguments.list("renames"@) == Some(entries),
        0 <= one < other < entries.len(),
        entries[one].text("new_name"@) == entries[other].text("new_name"@),
    ensures
        rename_related::rename_related_step(
            issued,
            repository,
            arguments,
            write_allowed,
            now,
        ).0 is Answer,
{
    reveal(rename_related::rename_related_step);
    let nothing = Seq::<(Seq<char>, Seq<char>)>::empty();
    rename::lemma_requests(entries, 0, nothing);
    if rename_related::requested(arguments) is Ok {
        let requests = rename_related::requests_from(entries, 0, nothing)->Ok_0;
        rename_related::law_a_batch_is_all_or_nothing(repository, requests);
        let outcome = rename_related::renames_from(repository, requests, 0, Seq::empty());
        if outcome is Ok {
            assert(entries[one].text("new_name"@) == Some(requests[one].1));
            assert(entries[other].text("new_name"@) == Some(requests[other].1));
            assert(rename_symbol::found_sites(repository, requests[one].0, requests[one].1) == Ok::<
                RenameView,
                JsonView,
            >(outcome->Ok_0[one]));
            assert(rename_symbol::found_sites(repository, requests[other].0, requests[other].1)
                == Ok::<RenameView, JsonView>(outcome->Ok_0[other]));
            rename::lemma_names_kept(repository, requests[one].0, requests[one].1);
            rename::lemma_names_kept(repository, requests[other].0, requests[other].1);
            rename_related::law_a_shared_name_is_a_conflict(outcome->Ok_0, one, other);
        }
    }
}

/// What a previewed batch is made of: one rename for each entry.
proof fn lemma_batched(
    issued: Map<Seq<char>, IssuedView>,
    repository: Repository,
    arguments: JsonView,
    write_allowed: bool,
    now: u64,
    entries: Seq<JsonView>,
) -> (renames: Seq<RenameView>)
    requires
        arguments.list("renames"@) == Some(entries),
        rename_related::rename_related_step(
            issued,
            repository,
            arguments,
            write_allowed,
            now,
        ).0 is DryRun,
    ensures
        rename_related::rename_related_step(
            issued,
            repository,
            arguments,
            write_allowed,
            now,
        ).0->preview == PreviewView::Batch(rename_related::batch_of(renames)),
        renames.len() == entries.len(),
        forall|i: int|
            0 <= i < entries.len() ==> made_of(repository, #[trigger] entries[i], renames[i]),
{
    reveal(rename_related::rename_related_step);
    let nothing = Seq::<(Seq<char>, Seq<char>)>::empty();
    rename::lemma_requests(entries, 0, nothing);
    let requests = rename_related::requests_from(entries, 0, nothing)->Ok_0;
    rename_related::law_a_batch_is_all_or_nothing(repository, requests);
    let renames = rename_related::renames_from(repository, requests, 0, Seq::empty())->Ok_0;
    assert forall|i: int| 0 <= i < entries.len() implies made_of(
        repository,
        #[trigger] entries[i],
        renames[i],
    ) by {
        assert(rename_symbol::found_sites(repository, requests[i].0, requests[i].1) == Ok::<
            RenameView,
            JsonView,
        >(renames[i]));
        rename::lemma_names_kept(repository, requests[i].0, requests[i].1);
    }
    renames
}

/// Whether a rename is what an entry asks for.
spec fn made_of(repository: Repository, entry: JsonView, rename: RenameView) -> bool {
    &&& entry.text("symbol"@) is Some
    &&& entry.text("new_name"@) == Some(rename.new_name)
    &&& rename.old_name == name_now(repository, entry)
    &&& rename_symbol::found_sites(
        repository,
        entry.text("symbol"@)->0,
        rename.new_name,
    ) == Ok::<RenameView, JsonView>(rename)
}

/// Whether an entry's new name is the old name of one of some entries.
pub open spec fn goes_on(repository: Repository, entries: Seq<JsonView>, entry: JsonView) -> bool {
    exists|j: int|
        0 <= j < entries.len() && Some(name_now(repository, #[trigger] entries[j])) == entry.text(
            "new_name"@,
        )
}

/// Whether one of some entries is the reverse of an entry.
pub open spec fn goes_back(repository: Repository, entries: Seq<JsonView>, entry: JsonView) -> bool {
    exists|j: int|
        0 <= j < entries.len() && Some(name_now(repository, #[trigger] entries[j])) == entry.text(
            "new_name"@,
        ) && entries[j].text("new_name"@) == Some(name_now(repository, entry))
}

/// Whether a value tells of the rename of an entry, and of what kind it is.
pub open spec fn tells(
    repository: Repository,
    entries: Seq<JsonView>,
    entry: JsonView,
    value: JsonView,
) -> bool {
    &&& value.text("from"@) == Some(name_now(repository, entry))
    &&& value.text("to"@) == entry.text("new_name"@)
    &&& value.text("kind"@) == Some(
        if goes_back(repository, entries, entry) {
            "SWAP"@
        } else {
            "CHAIN"@
        },
    )
}

/// Whether some value tells of the rename of an entry.
pub open spec fn told(
    repository: Repository,
    entries: Seq<JsonView>,
    entry: JsonView,
    values: Seq<JsonView>,
) -> bool {
    exists|i: int| 0 <= i < values.len() && tells(repository, entries, entry, #[trigger] values[i])
}

/// Whether a value tells of some entry whose new name is an old one.
pub open spec fn tells_of_some(
    repository: Repository,
    entries: Seq<JsonView>,
    value: JsonView,
) -> bool {
    exists|i: int|
        0 <= i < entries.len() && goes_on(repository, entries, #[trigger] entries[i]) && tells(
            repository,
            entries,
            entries[i],
            value,
        )
}

/// The fields of what is told are apart.
proof fn lemma_told_keys()
    ensures
        "kind"@ != "from"@ && "kind"@ != "to"@ && "kind"@ != "reason"@ && "from"@ != "to"@ && "from"@
            != "reason"@ && "to"@ != "reason"@,
{
    reveal_strlit("kind");
    reveal_strlit("from");
    reveal_strlit("to");
    reveal_strlit("reason");
    assert("kind"@[0] == 'k' && "from"@[0] == 'f');
    assert("kind"@.len() == 4 && "from"@.len() == 4 && "to"@.len() == 2 && "reason"@.len() == 6);
}

/// The first renames that go on are told of, and no others are.
proof fn lemma_told(
    repository: Repository,
    entries: Seq<JsonView>,
    renames: Seq<RenameView>,
    count: int,
)
    requires
        0 <= count <= renames.len() == entries.len(),
        forall|i: int|
            0 <= i < entries.len() ==> made_of(repository, #[trigger] entries[i], renames[i]),
    ensures
        ({
            let values = rename_related::chained(renames, count);
            &&& forall|i: int|
                0 <= i < count && goes_on(repository, entries, #[trigger] entries[i]) ==> told(
                    repository,
                    entries,
                    entries[i],
                    values,
                )
            &&& forall|i: int|
                0 <= i < values.len() ==> tells_of_some(repository, entries, #[trigger] values[i])
        }),
    decreases count,
{
    broadcast use json::lemma_with_get;

    if count > 0 {
        lemma_told_keys();
        lemma_told(repository, entries, renames, count - 1);
        let before = rename_related::chained(renames, count - 1);
        let values = rename_related::chained(renames, count);
        let last = renames[count - 1];
        let entry = entries[count - 1];
        assert(made_of(repository, entries[count - 1], renames[count - 1]));
        assert(rename_related::renamed_away(renames, last.new_name) == goes_on(
            repository,
            entries,
            entry,
        )) by {
            if rename_related::renamed_away(renames, last.new_name) {
                let j = choose|j: int|
                    0 <= j < renames.len() && (#[trigger] renames[j]).old_name == last.new_name;
                assert(made_of(repository, entries[j], renames[j]));
            }
            if goes_on(repository, entries, entry) {
                let j = choose|j: int|
                    0 <= j < entries.len() && Some(name_now(repository, #[trigger] entries[j]))
                        == entry.text("new_name"@);
                assert(made_of(repository, entries[j], renames[j]));
                assert(renames[j].old_name == last.new_name);
            }
        }
        assert(rename_related::swapped(renames, last) == goes_back(repository, entries, entry)) by {
            if rename_related::swapped(renames, last) {
                let j = choose|j: int|
                    0 <= j < renames.len() && (#[trigger] renames[j]).old_name == last.new_name
                        && renames[j].new_name == last.old_name;
                assert(made_of(repository, entries[j], renames[j]));
            }
            if goes_back(repository, entries, entry) {
                let j = choose|j: int|
                    0 <= j < entries.len() && Some(name_now(repository, #[trigger] entries[j]))
                        == entry.text("new_name"@) && entries[j].text("new_name"@) == Some(
                        name_now(repository, entry),
                    );
                assert(made_of(repository, entries[j], renames[j]));
                assert(renames[j].old_name == last.new_name);
            }
        }
        if goes_on(repository, entries, entry) {
            let end = before.len() as int;
            assert(tells(repository, entries, entry, values[end]));
            assert(goes_on(repository, entries, entries[count - 1]));
            assert(tells_of_some(repository, entries, values[end]));
        }
        assert forall|i: int| 0 <= i < count && goes_on(repository, entries, #[trigger] entries[i])
            implies told(repository, entries, entries[i], values) by {
            if i < count - 1 {
                assert(told(repository, entries, entries[i], before));
                let k = choose|k: int|
                    0 <= k < before.len() && tells(
                        repository,
                        entries,
                        entries[i],
                        #[trigger] before[k],
                    );
                assert(values[k] == before[k]);
            }
        }
        assert forall|i: int| 0 <= i < values.len() implies tells_of_some(
            repository,
            entries,
            #[trigger] values[i],
        ) by {
            if i < before.len() {
                assert(values[i] == before[i]);
            }
        }
    }
}

/// A previewed batch tells of its chains and swaps: of every rename to a name that is another's old
/// one, as a swap where that other goes the opposite way and as a chain where it does not, and of
/// no other rename.
pub proof fn law_chains_and_swaps_are_told(
    issued: Map<Seq<char>, IssuedView>,
    repository: Repository,
    arguments: JsonView,
    write_allowed: bool,
    now: u64,
    entries: Seq<JsonView>,
)
    requires
        arguments.list("renames"@) == Some(entries),
    ensures
        rename_related::rename_related_step(
            issued,
            repository,
            arguments,
            write_allowed,
            now,
        ).0 matches StepView::DryRun { plan: _, preview } ==> (preview matches PreviewView::Batch(
            batch,
        ) && (forall|i: int|
            0 <= i < entries.len() && goes_on(repository, entries, #[trigger] entries[i]) ==> told(
                repository,
                entries,
                entries[i],
                batch.ordering,
            )) && (forall|i: int|
            0 <= i < batch.ordering.len() ==> tells_of_some(
                repository,
                entries,
                #[trigger] batch.ordering[i],
            ))),
{
    if rename_related::rename_related_step(
        issued,
        repository,
        arguments,
        write_allowed,
        now,
    ).0 is DryRun {
        let renames = lemma_batched(issued, repository, arguments, write_allowed, now, entries);
        lemma_told(repository, entries, renames, renames.len() as int);
    }
}

/// What one rename reports, all of them report.
proof fn lemma_reports_kept(renames: Seq<RenameView>, at: int, value: JsonView)
    requires
        0 <= at < renames.len(),
        renames[at].uncertain.contains(value),
    ensures
        rename_related::uncertain_of(renames).contains(value),
    decreases renames.len(),
{
    let rest = renames.drop_last();
    let before = rename_related::uncertain_of(rest);
    let all = rename_related::uncertain_of(renames);
    if at < rest.len() {
        assert(rest[at] == renames[at]);
        lemma_reports_kept(rest, at, value);
        let i = choose|i: int| 0 <= i < before.len() && before[i] == value;
        assert(all[i] == value);
    } else {
        let own = renames[at].uncertain;
        let i = choose|i: int| 0 <= i < own.len() && own[i] == value;
        assert(all[before.len() + i] == value);
    }
}

/// A previewed batch lists for review whatever each of its renames would list alone.
pub proof fn law_a_batch_lists_what_each_would_list(
    issued: Map<Seq<char>, IssuedView>,
    repository: Repository,
    arguments: JsonView,
    write_allowed: bool,
    now: u64,
    entries: Seq<JsonView>,
    entry: int,
    alone: JsonView,
    listed: Seq<JsonView>,
    value: JsonView,
)
    requires
        arguments.list("renames"@) == Some(entries),
        0 <= entry < entries.len(),
        rename_symbol::rename_symbol_step(
            issued,
            repository,
            entries[entry],
            write_allowed,
            now,
        ).0 matches StepView::DryRun { plan: _, preview } && preview == PreviewView::Symbol(alone),
        alone.list("uncertainReferences"@) == Some(listed),
        listed.contains(value),
    ensures
        rename_related::rename_related_step(
            issued,
            repository,
            arguments,
            write_allowed,
            now,
        ).0 matches StepView::DryRun { plan: _, preview } ==> (preview matches PreviewView::Batch(
            batch,
        ) && batch.uncertain.contains(value)),
{
    broadcast use json::lemma_with_get;

    reveal(rename_symbol::rename_symbol_step);
    if rename_related::rename_related_step(
        issued,
        repository,
        arguments,
        write_allowed,
        now,
    ).0 is DryRun {
        let renames = lemma_batched(issued, repository, arguments, write_allowed, now, entries);
        assert(made_of(repository, entries[entry], renames[entry]));
        rename::lemma_report_keys();
        assert(listed == renames[entry].uncertain);
        lemma_reports_kept(renames, entry, value);
    }
}

} // verus!
