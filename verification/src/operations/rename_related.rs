//! Renaming several symbols as one transaction.
//!
//! The reason this is not a loop over `rename_symbol` is that the interesting cases only exist
//! between the renames. Two symbols given the same new name collide. Two renames landing on the
//! same identifier contradict each other. And a batch that half-applies leaves the tree in a
//! state no single rename would have produced, so any sub-rename that refuses stops all of them.
//!
//! Chains (`a -> b` while `b -> c`) and swaps (`a -> b` while `b -> a`) are *not* refused. Every
//! edit here is anchored to a position and carries its own `before`, so the whole batch is
//! applied simultaneously rather than in sequence: `b`'s sites become `c` and `a`'s become `b`,
//! with no cascade. That is almost certainly what was meant, but it is the opposite of what
//! running two renames back to back would do, so it is reported rather than left to be assumed.

use crate::contract;
use crate::envelope;
use crate::graph::Repository;
use crate::json;
use crate::json::{Fields, Items, Json, JsonView};
use crate::operations;
use crate::operations::apply;
use crate::operations::apply::{
    Batch, BatchView, DryRun, Preview, PreviewView, Purpose, PurposeView, Step, StepView,
};
use crate::operations::rename_symbol;
use crate::operations::rename_symbol::{Rename, RenameView, RenamedView, Site};
use crate::order;
use crate::plan;
use crate::text;
use crate::token;
use crate::token::{IssuedView, TokenStore};
use crate::words;
use vstd::prelude::*;
use vstd::string::*;

verus! {

/// The most renames a batch holds.
pub const MAX_RENAMES: usize = 50;

/// One requested rename, as the agent wrote it: the symbol and its new name.
pub open spec fn request(entry: JsonView) -> Option<(Seq<char>, Seq<char>)> {
    match (entry.text("symbol"@), entry.text("new_name"@)) {
        (Some(symbol), Some(new_name)) => Some((symbol, new_name)),
        _ => None,
    }
}

/// An invalid batch and what is wrong with it.
pub open spec fn invalid_batch(reason: Seq<char>) -> JsonView {
    JsonView::empty().with_text("status"@, "INVALID_ARGS"@).with_text(
        "operation"@,
        "rename_related_symbols"@,
    ).with_text("reason"@, reason)
}

/// The requests of the entries from a place on, after those already read, or the refusal of the
/// first entry that is none.
pub open spec fn requests_from(
    entries: Seq<JsonView>,
    from: int,
    read: Seq<(Seq<char>, Seq<char>)>,
) -> Result<Seq<(Seq<char>, Seq<char>)>, JsonView>
    decreases entries.len() - from,
{
    if from < 0 || from >= entries.len() {
        Ok(read)
    } else {
        match request(entries[from]) {
            Some(pair) => requests_from(entries, from + 1, read.push(pair)),
            None => Err(
                invalid_batch(
                    "renames["@ + words::decimal(from as nat)
                        + "] needs both symbol and new_name"@,
                ),
            ),
        }
    }
}

/// The renames that arguments request, or the refusal of them.
pub open spec fn requested(arguments: JsonView) -> Result<
    Seq<(Seq<char>, Seq<char>)>,
    JsonView,
> {
    match arguments.list("renames"@) {
        None => Err(
            operations::invalid_args_value("rename_related_symbols"@, seq!["renames"@]),
        ),
        Some(entries) => if entries.len() == 0 || entries.len() > MAX_RENAMES {
            Err(
                invalid_batch(
                    "renames must hold between 1 and 50 entries; "@ + words::decimal(
                        entries.len(),
                    ) + " were given"@,
                ),
            )
        } else {
            requests_from(entries, 0, Seq::empty())
        },
    }
}

/// A requested rename and what refused it.
pub open spec fn blocked(request: (Seq<char>, Seq<char>), total: nat, cause: JsonView) -> JsonView {
    JsonView::empty().with_text("status"@, "BLOCKED"@).with_text(
        "reason"@,
        request.0 + " could not be renamed, so none of the "@ + words::decimal(total)
            + " renames were planned"@,
    ).with(
        "failed"@,
        JsonView::empty().with_text("symbol"@, request.0).with_text("newName"@, request.1),
    ).with("cause"@, cause)
}

/// What the requests from a place on resolve to, after those already resolved, or the refusal of
/// the first that does not.
pub open spec fn renames_from(
    repository: Repository,
    requests: Seq<(Seq<char>, Seq<char>)>,
    from: int,
    resolved: Seq<RenameView>,
) -> Result<Seq<RenameView>, JsonView>
    decreases requests.len() - from,
{
    if from < 0 || from >= requests.len() {
        Ok(resolved)
    } else {
        match rename_symbol::found_sites(repository, requests[from].0, requests[from].1) {
            Ok(rename) => renames_from(repository, requests, from + 1, resolved.push(rename)),
            Err(cause) => Err(blocked(requests[from], requests.len(), cause)),
        }
    }
}

/// One identifier that a rename claims: its file, its place in it, and the name to be written.
#[verifier::ext_equal]
pub struct ClaimView {
    pub path: Seq<char>,
    pub site: Site,
    pub name: Seq<char>,
}

/// The claims on the first sites of a file.
pub open spec fn site_claims(path: Seq<char>, sites: Seq<Site>, name: Seq<char>) -> Seq<ClaimView> {
    Seq::new(sites.len(), |i: int| ClaimView { path, site: sites[i], name })
}

/// The claims of the first files of a rename.
pub open spec fn file_claims(files: Seq<RenamedView>, name: Seq<char>) -> Seq<ClaimView>
    decreases files.len(),
{
    if files.len() == 0 {
        Seq::empty()
    } else {
        file_claims(files.drop_last(), name) + site_claims(
            files.last().path,
            files.last().sites,
            name,
        )
    }
}

/// The claims of the first renames, in order.
pub open spec fn claims_of(renames: Seq<RenameView>) -> Seq<ClaimView>
    decreases renames.len(),
{
    if renames.len() == 0 {
        Seq::empty()
    } else {
        claims_of(renames.drop_last()) + file_claims(
            renames.last().files,
            renames.last().new_name,
        )
    }
}

/// The last of the first claims on an identifier.
pub open spec fn last_claim(claims: Seq<ClaimView>, path: Seq<char>, site: Site) -> Option<
    Seq<char>,
>
    decreases claims.len(),
{
    if claims.len() == 0 {
        None
    } else if claims.last().path == path && claims.last().site == site {
        Some(claims.last().name)
    } else {
        last_claim(claims.drop_last(), path, site)
    }
}

/// Two renames that would write different names over one identifier, as they are reported.
pub open spec fn contested_site(claim: ClaimView, previous: Seq<char>) -> JsonView {
    JsonView::empty().with_text("file"@, claim.path).with_number(
        "line"@,
        claim.site.line as nat,
    ).with_text("kind"@, "CONTESTED_SITE"@).with_text(
        "reason"@,
        "two renames claim this identifier, one writing "@ + words::quoted(previous)
            + " and one writing "@ + words::quoted(claim.name),
    )
}

/// The contested identifiers among the first claims.
pub open spec fn contested(claims: Seq<ClaimView>) -> Seq<JsonView>
    decreases claims.len(),
{
    if claims.len() == 0 {
        Seq::empty()
    } else {
        let before = contested(claims.drop_last());
        let claim = claims.last();
        match last_claim(claims.drop_last(), claim.path, claim.site) {
            Some(previous) => if previous != claim.name {
                before.push(contested_site(claim, previous))
            } else {
                before
            },
            None => before,
        }
    }
}

/// The new names of renames.
pub open spec fn new_names(renames: Seq<RenameView>) -> Seq<Seq<char>> {
    Seq::new(renames.len(), |i: int| renames[i].new_name)
}

/// The old names of the first renames that end up with a name.
pub open spec fn renamed_to(renames: Seq<RenameView>, name: Seq<char>) -> Seq<Seq<char>>
    decreases renames.len(),
{
    if renames.len() == 0 {
        Seq::empty()
    } else if renames.last().new_name == name {
        renamed_to(renames.drop_last(), name).push(renames.last().old_name)
    } else {
        renamed_to(renames.drop_last(), name)
    }
}

/// The names among the first of some that more than one symbol would end up with.
pub open spec fn colliding(renames: Seq<RenameView>, names: Seq<Seq<char>>) -> Seq<JsonView>
    decreases names.len(),
{
    if names.len() == 0 {
        Seq::empty()
    } else {
        let before = colliding(renames, names.drop_last());
        let sources = renamed_to(renames, names.last());
        if sources.len() > 1 {
            before.push(
                JsonView::empty().with_text("kind"@, "NAME_COLLISION"@).with_text(
                    "newName"@,
                    names.last(),
                ).with_list("from"@, operations::texts(sources)).with_text(
                    "reason"@,
                    "more than one symbol would end up with this name"@,
                ),
            )
        } else {
            before
        }
    }
}

/// The name collisions of renames, by name.
pub open spec fn collisions_of(renames: Seq<RenameView>) -> Seq<JsonView> {
    colliding(renames, order::sorted(new_names(renames)))
}

/// Whether a name is the old name of a rename.
pub open spec fn renamed_away(renames: Seq<RenameView>, name: Seq<char>) -> bool {
    exists|i: int| 0 <= i < renames.len() && (#[trigger] renames[i]).old_name == name
}

/// Whether a rename is the reverse of another.
pub open spec fn swapped(renames: Seq<RenameView>, rename: RenameView) -> bool {
    exists|i: int|
        0 <= i < renames.len() && (#[trigger] renames[i]).old_name == rename.new_name
            && renames[i].new_name == rename.old_name
}

/// The renames among the first whose target name is another rename's source.
pub open spec fn chained(renames: Seq<RenameView>, count: int) -> Seq<JsonView>
    decreases count,
{
    if count <= 0 {
        Seq::empty()
    } else {
        let before = chained(renames, count - 1);
        let rename = renames[count - 1];
        if renamed_away(renames, rename.new_name) {
            before.push(
                JsonView::empty().with_text(
                    "kind"@,
                    if swapped(renames, rename) {
                        "SWAP"@
                    } else {
                        "CHAIN"@
                    },
                ).with_text("from"@, rename.old_name).with_text("to"@, rename.new_name).with_text(
                    "reason"@,
                    "the target name is also being renamed; every edit is positional, so the batch applies simultaneously and this does not cascade"@,
                ),
            )
        } else {
            before
        }
    }
}

/// What the first renames report as uncertain.
pub open spec fn uncertain_of(renames: Seq<RenameView>) -> Seq<JsonView>
    decreases renames.len(),
{
    if renames.len() == 0 {
        Seq::empty()
    } else {
        uncertain_of(renames.drop_last()) + renames.last().uncertain
    }
}

/// The names of renames, as they are reported.
pub open spec fn names_of(renames: Seq<RenameView>) -> Seq<JsonView> {
    Seq::new(
        renames.len(),
        |i: int|
            JsonView::empty().with_text("from"@, renames[i].old_name).with_text(
                "to"@,
                renames[i].new_name,
            ),
    )
}

/// How many identifiers the first renames rewrite.
pub open spec fn total_of(renames: Seq<RenameView>) -> nat
    decreases renames.len(),
{
    if renames.len() == 0 {
        0
    } else {
        total_of(renames.drop_last()) + rename_symbol::edits_in(renames.last().files)
    }
}

/// The batch of renames.
pub open spec fn batch_of(renames: Seq<RenameView>) -> BatchView {
    BatchView {
        plan: plan::plan_value(
            rename_symbol::renames_plan("rename_related_symbols"@, renames).plan(),
        ),
        names: names_of(renames),
        ordering: chained(renames, renames.len() as int),
        uncertain: uncertain_of(renames),
        total: apply::counted(total_of(renames)),
    }
}

/// The answer to renames that contradict each other.
pub open spec fn conflict(conflicts: Seq<JsonView>) -> JsonView {
    JsonView::empty().with_text("status"@, "CONFLICT"@).with_text(
        "reason"@,
        "the requested renames contradict each other; nothing was planned"@,
    ).with_list("conflicts"@, conflicts)
}

/// The conflicts between renames.
pub open spec fn conflicts_of(renames: Seq<RenameView>) -> Seq<JsonView> {
    contested(claims_of(renames)) + collisions_of(renames)
}

/// What a batch comes to, and the confirmations after it.
pub open spec fn batch_step(
    issued: Map<Seq<char>, IssuedView>,
    root: Seq<char>,
    batch: BatchView,
    arguments: JsonView,
    write_allowed: bool,
    now: u64,
) -> (StepView, Map<Seq<char>, IssuedView>) {
    if apply::applies(arguments) {
        rename_symbol::generated_step(
            issued,
            root,
            batch.plan,
            arguments.text("confirm_token"@),
            PurposeView::Batch(batch),
            write_allowed,
            now,
        )
    } else {
        (
            match envelope::plan_of(batch.plan) {
                Err(reason) => StepView::Answer(
                    operations::plain_answer("INVALID_PLAN"@, reason),
                ),
                Ok(plan) => StepView::DryRun { plan, preview: PreviewView::Batch(batch) },
            },
            issued,
        )
    }
}

/// What `rename_related_symbols` comes to, and the confirmations after it.
#[verifier::opaque]
pub open spec fn rename_related_step(
    issued: Map<Seq<char>, IssuedView>,
    repository: Repository,
    arguments: JsonView,
    write_allowed: bool,
    now: u64,
) -> (StepView, Map<Seq<char>, IssuedView>) {
    match requested(arguments) {
        Err(refusal) => (StepView::Answer(refusal), issued),
        Ok(requests) => match renames_from(repository, requests, 0, Seq::empty()) {
            Err(refusal) => (StepView::Answer(refusal), issued),
            Ok(renames) => if conflicts_of(renames).len() > 0 {
                (StepView::Answer(conflict(conflicts_of(renames))), issued)
            } else {
                batch_step(
                    issued,
                    repository.root@,
                    batch_of(renames),
                    arguments,
                    write_allowed,
                    now,
                )
            },
        },
    }
}

/// One requested rename, as the agent wrote it.
struct Request {
    symbol: String,
    new_name: String,
}

/// Requests without their representation.
spec fn requests_view(requests: Seq<Request>) -> Seq<(Seq<char>, Seq<char>)> {
    Seq::new(requests.len(), |i: int| (requests[i].symbol@, requests[i].new_name@))
}

/// Reads and validates the `renames` array before any graph work happens.
fn requests(arguments: &Json) -> (read: Result<Vec<Request>, Json>)
    ensures
        match (read, requested(arguments@)) {
            (Ok(found), Ok(expected)) => requests_view(found@) == expected,
            (Err(refusal), Err(expected)) => refusal@ == expected,
            _ => false,
        },
{
    let entries = match arguments.list("renames") {
        Some(entries) => entries,
        None => {
            return Err(operations::missing_one("rename_related_symbols", "renames"));
        },
    };
    let ghost values = json::list_view(entries@);
    proof {
        json::lemma_list_view(entries@);
    }
    if entries.len() == 0 || entries.len() > MAX_RENAMES {
        let reason = "renames must hold between 1 and 50 entries; ".to_owned().concat(
            words::number(entries.len() as u64).as_str(),
        ).concat(" were given");
        return Err(refuse_batch(reason.as_str()));
    }
    let mut found: Vec<Request> = Vec::new();
    let mut i: usize = 0;
    assert(requests_view(found@) =~= Seq::empty());
    while i < entries.len()
        invariant
            i <= entries@.len(),
            values.len() == entries@.len(),
            forall|k: int| 0 <= k < entries@.len() ==> #[trigger] values[k] == entries@[k]@,
            requested(arguments@) == requests_from(values, i as int, requests_view(found@)),
        decreases entries@.len() - i,
    {
        let entry = &entries[i];
        assert(values[i as int] == entry@);
        match (entry.text("symbol"), entry.text("new_name")) {
            (Some(symbol), Some(new_name)) => {
                let request = Request {
                    symbol: symbol.to_owned(),
                    new_name: new_name.to_owned(),
                };
                assert(requests_view(found@.push(request)) =~= requests_view(found@).push(
                    (symbol@, new_name@),
                ));
                found.push(request);
            },
            _ => {
                let reason = "renames[".to_owned().concat(
                    words::number(i as u64).as_str(),
                ).concat("] needs both symbol and new_name");
                return Err(refuse_batch(reason.as_str()));
            },
        }
        i += 1;
    }
    Ok(found)
}

/// An invalid batch and what is wrong with it.
fn refuse_batch(reason: &str) -> (value: Json)
    ensures
        value@ == invalid_batch(reason@),
{
    Fields::new().with_text("status", "INVALID_ARGS").with_text(
        "operation",
        "rename_related_symbols",
    ).with_text("reason", reason).done()
}

/// Resolves every requested rename, or the refusal of the first that does not.
///
/// Any sub-rename that refuses stops the batch, and its own refusal is carried out unchanged: an
/// agent that knows how to read `NOT_FOUND` from `rename_symbol` reads it here too.
fn resolve_all(repository: &Repository, requests: &Vec<Request>) -> (resolved: Result<
    Vec<Rename>,
    Json,
>)
    ensures
        match (
            resolved,
            renames_from(*repository, requests_view(requests@), 0, Seq::empty()),
        ) {
            (Ok(renames), Ok(expected)) => rename_symbol::renames_view(renames@) == expected,
            (Err(refusal), Err(expected)) => refusal@ == expected,
            _ => false,
        },
{
    let ghost all = requests_view(requests@);
    let mut renames: Vec<Rename> = Vec::new();
    assert(rename_symbol::renames_view(renames@) =~= Seq::empty());
    let mut i: usize = 0;
    while i < requests.len()
        invariant
            i <= requests@.len(),
            all == requests_view(requests@),
            renames_from(*repository, all, 0, Seq::empty()) == renames_from(
                *repository,
                all,
                i as int,
                rename_symbol::renames_view(renames@),
            ),
        decreases requests@.len() - i,
    {
        let request = &requests[i];
        assert(all[i as int] == (request.symbol@, request.new_name@));
        let symbol = request.symbol.as_str();
        let new_name = request.new_name.as_str();
        match rename_symbol::sites(repository, symbol, new_name) {
            Ok(found) => {
                assert(rename_symbol::renames_view(renames@.push(found))
                    =~= rename_symbol::renames_view(renames@).push(found@));
                renames.push(found);
            },
            Err(cause) => {
                let reason = symbol.to_owned().concat(
                    " could not be renamed, so none of the ",
                ).concat(words::number(requests.len() as u64).as_str()).concat(
                    " renames were planned",
                );
                let named = Fields::new().with_text("symbol", symbol).with_text(
                    "newName",
                    new_name,
                ).done();
                return Err(
                    Fields::new().with_text("status", "BLOCKED").with_text(
                        "reason",
                        reason.as_str(),
                    ).with("failed", named).with("cause", cause).done(),
                );
            },
        }
        i += 1;
    }
    Ok(renames)
}

/// One identifier that a rename claims.
struct Claim {
    path: String,
    site: Site,
    name: String,
}

/// Claims without their representation.
spec fn claims_view(claims: Seq<Claim>) -> Seq<ClaimView> {
    Seq::new(
        claims.len(),
        |i: int|
            ClaimView { path: claims[i].path@, site: claims[i].site, name: claims[i].name@ },
    )
}

/// The claims of a rename, after those of others.
fn claim(claims: &mut Vec<Claim>, rename: &Rename)
    ensures
        claims_view(final(claims)@) == claims_view(old(claims)@) + file_claims(
            rename@.files,
            rename@.new_name,
        ),
{
    let ghost start = claims_view(claims@);
    let ghost all = rename@.files;
    let name = rename.new_name.as_str();
    let mut i: usize = 0;
    assert(start + file_claims(all.take(0), name@) =~= start);
    while i < rename.files.len()
        invariant
            i <= rename.files@.len(),
            all == rename_symbol::files_view(rename.files@),
            name@ == rename.new_name@,
            claims_view(claims@) == start + file_claims(all.take(i as int), name@),
        decreases rename.files@.len() - i,
    {
        assert(all.take(i + 1).drop_last() =~= all.take(i as int));
        let file = &rename.files[i];
        let ghost before = claims_view(claims@);
        let ghost more = site_claims(file.path@, file.sites@, name@);
        let mut j: usize = 0;
        assert(before + more.take(0) =~= before);
        while j < file.sites.len()
            invariant
                j <= file.sites@.len(),
                more == site_claims(file.path@, file.sites@, name@),
                claims_view(claims@) == before + more.take(j as int),
            decreases file.sites@.len() - j,
        {
            let claim = Claim {
                path: file.path.clone(),
                site: file.sites[j],
                name: name.to_owned(),
            };
            assert(claims_view(claims@.push(claim)) =~= claims_view(claims@).push(
                more[j as int],
            ));
            assert((before + more.take(j as int)).push(more[j as int]) =~= before + more.take(
                j + 1,
            ));
            claims.push(claim);
            j += 1;
        }
        assert(more.take(j as int) =~= more);
        assert(start + file_claims(all.take(i as int), name@) + more =~= start + (file_claims(
            all.take(i as int),
            name@,
        ) + more));
        i += 1;
    }
    assert(all.take(i as int) =~= all);
}

/// The last of the first claims on an identifier.
fn find_claim<'a>(claims: &'a Vec<Claim>, count: usize, path: &str, site: Site) -> (found: Option<
    &'a str,
>)
    requires
        count <= claims@.len(),
    ensures
        json::same_text(found, last_claim(claims_view(claims@).take(count as int), path@, site)),
{
    let ghost all = claims_view(claims@);
    let mut i: usize = count;
    while i > 0
        invariant
            i <= count <= claims@.len(),
            all == claims_view(claims@),
            last_claim(all.take(count as int), path@, site) == last_claim(
                all.take(i as int),
                path@,
                site,
            ),
        decreases i,
    {
        assert(all.take(i as int).drop_last() =~= all.take(i - 1));
        assert(all.take(i as int).last() == all[i - 1]);
        let claim = &claims[i - 1];
        if claim.site == site && text::same(claim.path.as_str(), path) {
            return Some(claim.name.as_str());
        }
        i -= 1;
    }
    None
}

/// Two renames that would write different names over the same identifier.
///
/// This is the failure a batch exists to catch. Each rename is individually correct; together
/// they disagree about one position, and whichever the applier ordered last would silently win.
fn overlaps(renames: &Vec<Rename>) -> (found: Items)
    ensures
        found@ == contested(claims_of(rename_symbol::renames_view(renames@))),
{
    let ghost all = rename_symbol::renames_view(renames@);
    let mut claims: Vec<Claim> = Vec::new();
    assert(claims_view(claims@) =~= Seq::empty());
    let mut i: usize = 0;
    while i < renames.len()
        invariant
            i <= renames@.len(),
            all == rename_symbol::renames_view(renames@),
            claims_view(claims@) == claims_of(all.take(i as int)),
        decreases renames@.len() - i,
    {
        assert(all.take(i + 1).drop_last() =~= all.take(i as int));
        claim(&mut claims, &renames[i]);
        i += 1;
    }
    assert(all.take(i as int) =~= all);
    let ghost made = claims_view(claims@);
    let mut found = Items::new();
    let mut k: usize = 0;
    while k < claims.len()
        invariant
            k <= claims@.len(),
            made == claims_view(claims@),
            found@ == contested(made.take(k as int)),
        decreases claims@.len() - k,
    {
        assert(made.take(k + 1).drop_last() =~= made.take(k as int));
        assert(made.take(k + 1).last() == made[k as int]);
        let claim = &claims[k];
        match find_claim(&claims, k, claim.path.as_str(), claim.site) {
            Some(previous) => {
                if !text::same(previous, claim.name.as_str()) {
                    let reason = "two renames claim this identifier, one writing ".to_owned().concat(
                    words::quote(previous).as_str()).concat(" and one writing ").concat(
                        words::quote(claim.name.as_str()).as_str(),
                    );
                    found.push(
                        Fields::new().with_text("file", claim.path.as_str()).with_number(
                            "line",
                            claim.site.line as u64,
                        ).with_text("kind", "CONTESTED_SITE").with_text(
                            "reason",
                            reason.as_str(),
                        ).done(),
                    );
                }
            },
            None => {},
        }
        k += 1;
    }
    assert(made.take(k as int) =~= made);
    found
}

/// The old names of the renames that end up with a name.
fn sources_of(renames: &Vec<Rename>, name: &str) -> (sources: Vec<String>)
    ensures
        text::string_views(sources@) == renamed_to(rename_symbol::renames_view(renames@), name@),
{
    let ghost all = rename_symbol::renames_view(renames@);
    let mut sources: Vec<String> = Vec::new();
    assert(text::string_views(sources@) =~= Seq::empty());
    let mut i: usize = 0;
    while i < renames.len()
        invariant
            i <= renames@.len(),
            all == rename_symbol::renames_view(renames@),
            text::string_views(sources@) == renamed_to(all.take(i as int), name@),
        decreases renames@.len() - i,
    {
        assert(all.take(i + 1).drop_last() =~= all.take(i as int));
        if text::same(renames[i].new_name.as_str(), name) {
            let source = renames[i].old_name.clone();
            assert(text::string_views(sources@.push(source)) =~= text::string_views(
                sources@,
            ).push(source@));
            sources.push(source);
        }
        i += 1;
    }
    assert(all.take(i as int) =~= all);
    sources
}

/// Renames that would leave two symbols sharing one name.
fn collisions(renames: &Vec<Rename>) -> (found: Items)
    ensures
        found@ == collisions_of(rename_symbol::renames_view(renames@)),
{
    let ghost all = rename_symbol::renames_view(renames@);
    let ghost targets = new_names(all);
    let mut names: Vec<String> = Vec::new();
    assert(text::string_views(names@) =~= Seq::empty());
    let mut i: usize = 0;
    while i < renames.len()
        invariant
            i <= renames@.len(),
            all == rename_symbol::renames_view(renames@),
            targets == new_names(all),
            text::string_views(names@) == order::sorted(targets.take(i as int)),
        decreases renames@.len() - i,
    {
        assert(targets.take(i + 1).drop_last() =~= targets.take(i as int));
        order::insert(&mut names, renames[i].new_name.as_str());
        i += 1;
    }
    assert(targets.take(i as int) =~= targets);
    let ghost within = text::string_views(names@);
    let mut found = Items::new();
    let mut k: usize = 0;
    while k < names.len()
        invariant
            k <= names@.len(),
            all == rename_symbol::renames_view(renames@),
            within == text::string_views(names@),
            found@ == colliding(all, within.take(k as int)),
        decreases names@.len() - k,
    {
        assert(within.take(k + 1).drop_last() =~= within.take(k as int));
        let name = names[k].as_str();
        let sources = sources_of(renames, name);
        if sources.len() > 1 {
            found.push(
                Fields::new().with_text("kind", "NAME_COLLISION").with_text(
                    "newName",
                    name,
                ).with_list("from", operations::string_items(&sources)).with_text(
                    "reason",
                    "more than one symbol would end up with this name",
                ).done(),
            );
        }
        k += 1;
    }
    assert(within.take(k as int) =~= within);
    found
}

/// Whether a name is the old name of a rename.
fn is_renamed_away(renames: &Vec<Rename>, name: &str) -> (found: bool)
    ensures
        found == renamed_away(rename_symbol::renames_view(renames@), name@),
{
    let ghost all = rename_symbol::renames_view(renames@);
    let mut i: usize = 0;
    while i < renames.len()
        invariant
            i <= renames@.len(),
            all == rename_symbol::renames_view(renames@),
            forall|k: int| 0 <= k < i ==> (#[trigger] all[k]).old_name != name@,
        decreases renames@.len() - i,
    {
        assert(all[i as int].old_name == renames@[i as int].old_name@);
        if text::same(renames[i].old_name.as_str(), name) {
            return true;
        }
        i += 1;
    }
    false
}

/// Whether a rename is the reverse of another.
fn is_swapped(renames: &Vec<Rename>, rename: &Rename) -> (found: bool)
    ensures
        found == swapped(rename_symbol::renames_view(renames@), rename@),
{
    let ghost all = rename_symbol::renames_view(renames@);
    let mut i: usize = 0;
    while i < renames.len()
        invariant
            i <= renames@.len(),
            all == rename_symbol::renames_view(renames@),
            forall|k: int|
                0 <= k < i ==> (#[trigger] all[k]).old_name != rename@.new_name || all[k].new_name
                    != rename@.old_name,
        decreases renames@.len() - i,
    {
        assert(all[i as int] == renames@[i as int]@);
        let other = &renames[i];
        if text::same(other.old_name.as_str(), rename.new_name.as_str()) && text::same(
            other.new_name.as_str(),
            rename.old_name.as_str(),
        ) {
            return true;
        }
        i += 1;
    }
    false
}

/// Renames whose target name is another rename's source, reported rather than refused.
fn chains(renames: &Vec<Rename>) -> (found: Items)
    ensures
        found@ == chained(rename_symbol::renames_view(renames@), renames@.len() as int),
{
    let ghost all = rename_symbol::renames_view(renames@);
    let mut found = Items::new();
    let mut i: usize = 0;
    while i < renames.len()
        invariant
            i <= renames@.len(),
            all == rename_symbol::renames_view(renames@),
            found@ == chained(all, i as int),
        decreases renames@.len() - i,
    {
        let rename = &renames[i];
        assert(all[i as int] == rename@);
        if is_renamed_away(renames, rename.new_name.as_str()) {
            let kind = if is_swapped(renames, rename) {
                "SWAP"
            } else {
                "CHAIN"
            };
            found.push(
                Fields::new().with_text("kind", kind).with_text(
                    "from",
                    rename.old_name.as_str(),
                ).with_text("to", rename.new_name.as_str()).with_text(
                    "reason",
                    "the target name is also being renamed; every edit is positional, so the batch applies simultaneously and this does not cascade",
                ).done(),
            );
        }
        i += 1;
    }
    found
}

/// The batch of renames.
fn gather(renames: &Vec<Rename>) -> (batch: Batch)
    ensures
        batch@ == batch_of(rename_symbol::renames_view(renames@)),
{
    let ghost all = rename_symbol::renames_view(renames@);
    let mut names = Items::new();
    let mut uncertain = Items::new();
    let mut total: u64 = 0;
    let mut i: usize = 0;
    while i < renames.len()
        invariant
            i <= renames@.len(),
            all == rename_symbol::renames_view(renames@),
            names@ =~= names_of(all).take(i as int),
            uncertain@ == uncertain_of(all.take(i as int)),
            total == apply::counted(total_of(all.take(i as int))),
        decreases renames@.len() - i,
    {
        assert(all.take(i + 1).drop_last() =~= all.take(i as int));
        let rename = &renames[i];
        assert(all[i as int] == rename@);
        names.push(
            Fields::new().with_text("from", rename.old_name.as_str()).with_text(
                "to",
                rename.new_name.as_str(),
            ).done(),
        );
        uncertain.extend(rename.uncertain.duplicate());
        total = total.saturating_add(rename.edits());
        i += 1;
    }
    assert(all.take(i as int) =~= all);
    assert(names@ =~= names_of(all));
    Batch {
        plan: rename_symbol::build_plan("rename_related_symbols", renames).build(),
        names,
        ordering: chains(renames),
        uncertain,
        total,
    }
}

/// `rename_related_symbols`: one plan, one token, all or nothing.
pub fn rename_related_symbols(
    tokens: &mut TokenStore,
    repository: &Repository,
    arguments: &Json,
    write_allowed: bool,
    now: u64,
) -> (step: Step)
    ensures
        (step@, final(tokens)@) == rename_related_step(
            old(tokens)@,
            *repository,
            arguments@,
            write_allowed,
            now,
        ),
{
    proof {
        reveal(rename_related_step);
    }
    let requested = match requests(arguments) {
        Ok(requested) => requested,
        Err(refusal) => {
            return Step::Answer(refusal);
        },
    };
    let renames = match resolve_all(repository, &requested) {
        Ok(renames) => renames,
        Err(refusal) => {
            return Step::Answer(refusal);
        },
    };
    let mut conflicts = overlaps(&renames);
    conflicts.extend(collisions(&renames));
    if !conflicts.is_empty() {
        return Step::Answer(
            Fields::new().with_text("status", "CONFLICT").with_text(
                "reason",
                "the requested renames contradict each other; nothing was planned",
            ).with_list("conflicts", conflicts).done(),
        );
    }
    let batch = gather(&renames);
    if apply::asks_to_apply(arguments) {
        let plan = batch.plan.duplicate();
        return rename_symbol::apply_generated_plan(
            tokens,
            repository.root.as_str(),
            &plan,
            arguments.text("confirm_token"),
            Purpose::Batch(batch),
            write_allowed,
            now,
        );
    }
    match envelope::read_envelope(&batch.plan) {
        Err(error) => Step::Answer(operations::answer(error.code, error.reason.as_str())),
        Ok(plan) => Step::DryRun { plan, preview: Preview::Batch(batch) },
    }
}

/// A refusal of requests keeps to the contract.
proof fn lemma_requests_conform(
    entries: Seq<JsonView>,
    from: int,
    read: Seq<(Seq<char>, Seq<char>)>,
)
    ensures
        requests_from(entries, from, read) matches Err(refusal) ==> contract::conforms(refusal),
    decreases entries.len() - from,
{
    broadcast use json::lemma_with_get;

    contract::lemma_keys();
    if 0 <= from < entries.len() {
        match request(entries[from]) {
            Some(pair) => {
                lemma_requests_conform(entries, from + 1, read.push(pair));
            },
            None => {},
        }
    }
}

/// Any rename from a place on that refuses stops the batch.
proof fn lemma_all_or_nothing(
    repository: Repository,
    requests: Seq<(Seq<char>, Seq<char>)>,
    from: int,
    resolved: Seq<RenameView>,
)
    requires
        0 <= from == resolved.len() <= requests.len(),
        forall|i: int|
            0 <= i < from ==> rename_symbol::found_sites(
                repository,
                (#[trigger] requests[i]).0,
                requests[i].1,
            ) == Ok::<RenameView, JsonView>(resolved[i]),
    ensures
        match renames_from(repository, requests, from, resolved) {
            Ok(renames) => renames.len() == requests.len() && (forall|i: int|
                0 <= i < requests.len() ==> rename_symbol::found_sites(
                    repository,
                    (#[trigger] requests[i]).0,
                    requests[i].1,
                ) == Ok::<RenameView, JsonView>(renames[i])),
            Err(refusal) => contract::conforms(refusal) && refusal.text("status"@) == Some(
                "BLOCKED"@,
            ) && exists|i: int|
                from <= i < requests.len() && rename_symbol::found_sites(
                    repository,
                    (#[trigger] requests[i]).0,
                    requests[i].1,
                ) == Err::<RenameView, JsonView>(refusal.get("cause"@)->0),
        },
    decreases requests.len() - from,
{
    broadcast use json::lemma_with_get;

    contract::lemma_keys();
    if from < requests.len() {
        match rename_symbol::found_sites(repository, requests[from].0, requests[from].1) {
            Ok(rename) => {
                let next = resolved.push(rename);
                assert forall|i: int| 0 <= i < from + 1 implies rename_symbol::found_sites(
                    repository,
                    (#[trigger] requests[i]).0,
                    requests[i].1,
                ) == Ok::<RenameView, JsonView>(next[i]) by {
                    if i < from {
                        assert(next[i] == resolved[i]);
                    }
                }
                lemma_all_or_nothing(repository, requests, from + 1, next);
            },
            Err(cause) => {
                reveal_strlit("status");
                reveal_strlit("reason");
                reveal_strlit("failed");
                reveal_strlit("cause");
                assert("status"@.len() == 6 && "reason"@.len() == 6 && "failed"@.len() == 6
                    && "cause"@.len() == 5);
                let refusal = blocked(requests[from], requests.len(), cause);
                assert(refusal.get("cause"@) == Some(cause));
                assert(requests[from] == requests[from]);
            },
        }
    }
}

/// Any rename that refuses stops the batch: the batch is then blocked, with that refusal as its
/// cause; otherwise every one of them was resolved.
pub proof fn law_a_batch_is_all_or_nothing(
    repository: Repository,
    requests: Seq<(Seq<char>, Seq<char>)>,
)
    ensures
        match renames_from(repository, requests, 0, Seq::empty()) {
            Ok(renames) => renames.len() == requests.len() && (forall|i: int|
                0 <= i < requests.len() ==> rename_symbol::found_sites(
                    repository,
                    (#[trigger] requests[i]).0,
                    requests[i].1,
                ) == Ok::<RenameView, JsonView>(renames[i])),
            Err(refusal) => contract::conforms(refusal) && refusal.text("status"@) == Some(
                "BLOCKED"@,
            ) && exists|i: int|
                0 <= i < requests.len() && rename_symbol::found_sites(
                    repository,
                    (#[trigger] requests[i]).0,
                    requests[i].1,
                ) == Err::<RenameView, JsonView>(refusal.get("cause"@)->0),
        },
{
    lemma_all_or_nothing(repository, requests, 0, Seq::empty());
}

/// What `rename_related_symbols` comes to keeps to the contract, and it writes only where every
/// gate is passed.
pub proof fn law_batches_conform(
    issued: Map<Seq<char>, IssuedView>,
    repository: Repository,
    arguments: JsonView,
    write_allowed: bool,
    now: u64,
)
    ensures
        ({
            let (step, after) = rename_related_step(
                issued,
                repository,
                arguments,
                write_allowed,
                now,
            );
            let presented = arguments.text("confirm_token"@);
            &&& apply::step_conforms(step)
            &&& step is Answer || step is DryRun || step is Write
            &&& step matches StepView::Write { plan: written, .. } ==> write_allowed
                && apply::confirmed(issued, presented, written, repository.root@, now)
                && !after.dom().contains(presented->0)
        }),
{
    broadcast use json::lemma_with_get;

    reveal(rename_related_step);
    contract::lemma_keys();
    match arguments.list("renames"@) {
        Some(entries) => {
            lemma_requests_conform(entries, 0, Seq::empty());
        },
        None => {},
    }
    match requested(arguments) {
        Ok(requests) => {
            law_a_batch_is_all_or_nothing(repository, requests);
            match renames_from(repository, requests, 0, Seq::empty()) {
                Ok(renames) => {
                    let batch = batch_of(renames);
                    rename_symbol::law_generated_plans_take_every_gate(
                        issued,
                        repository.root@,
                        batch.plan,
                        arguments.text("confirm_token"@),
                        PurposeView::Batch(batch),
                        write_allowed,
                        now,
                    );
                },
                Err(_) => {},
            }
        },
        Err(_) => {},
    }
}

/// A batch that was previewed is applied by repeating it: with the same renames, the mode and the
/// confirmation of its preview, the same plan is written.
pub proof fn law_a_previewed_batch_applies(
    issued: Map<Seq<char>, IssuedView>,
    repository: Repository,
    arguments: JsonView,
    outcome: DryRun,
    write_allowed: bool,
    now: u64,
    again: JsonView,
    later: u64,
)
    requires
        now <= u64::MAX - token::TOKEN_TTL,
        later < now + token::TOKEN_TTL,
        outcome is Passed,
        rename_related_step(issued, repository, arguments, write_allowed, now).0 is DryRun,
        again.list("renames"@) == arguments.list("renames"@),
        apply::applies(again),
        ({
            let plan = rename_related_step(
                issued,
                repository,
                arguments,
                write_allowed,
                now,
            ).0->DryRun_plan;
            again.text("confirm_token"@) == Some(token::token_value(plan, now))
        }),
    ensures
        ({
            let step = rename_related_step(
                issued,
                repository,
                arguments,
                write_allowed,
                now,
            ).0;
            let plan = step->DryRun_plan;
            rename_related_step(
                apply::issued_after(issued, outcome, plan, repository.root@, now),
                repository,
                again,
                true,
                later,
            ).0 matches StepView::Write { plan: written, purpose: PurposeView::Batch(batch) }
                && written == plan && step->preview == PreviewView::Batch(batch)
        }),
{
    reveal(rename_related_step);
}

/// An earlier claim on an identifier is the last one or is followed by another.
proof fn lemma_last_claim(claims: Seq<ClaimView>, at: int)
    requires
        0 <= at < claims.len(),
    ensures
        last_claim(claims, claims[at].path, claims[at].site) is Some,
    decreases claims.len(),
{
    let claim = claims[at];
    if !(claims.last().path == claim.path && claims.last().site == claim.site) {
        assert(claims.drop_last()[at] == claim);
        lemma_last_claim(claims.drop_last(), at);
    }
}

/// A claim that names the last claim on an identifier is among the claims.
proof fn lemma_last_claim_at(claims: Seq<ClaimView>, path: Seq<char>, site: Site) -> (at: int)
    requires
        last_claim(claims, path, site) is Some,
    ensures
        0 <= at < claims.len(),
        claims[at].path == path,
        claims[at].site == site,
        claims[at].name == last_claim(claims, path, site)->0,
        forall|k: int| at < k < claims.len() ==> (#[trigger] claims[k]).path != path
            || claims[k].site != site,
    decreases claims.len(),
{
    if claims.last().path == path && claims.last().site == site {
        claims.len() - 1
    } else {
        let at = lemma_last_claim_at(claims.drop_last(), path, site);
        assert(claims.drop_last()[at] == claims[at]);
        assert forall|k: int| at < k < claims.len() implies (#[trigger] claims[k]).path != path
            || claims[k].site != site by {
            if k < claims.len() - 1 {
                assert(claims.drop_last()[k] == claims[k]);
            }
        }
        at
    }
}

/// Two claims that would write different names over one identifier are always caught, and nothing
/// else is: with one name per identifier no claim is contested.
pub proof fn law_contradictions_are_caught(claims: Seq<ClaimView>)
    ensures
        contested(claims).len() > 0 <==> exists|i: int, j: int|
            0 <= i < j < claims.len() && (#[trigger] claims[i]).path == (
            #[trigger] claims[j]).path && claims[i].site == claims[j].site && claims[i].name
                != claims[j].name,
    decreases claims.len(),
{
    if claims.len() > 0 {
        let rest = claims.drop_last();
        let claim = claims.last();
        law_contradictions_are_caught(rest);
        if contested(claims).len() > 0 {
            if contested(rest).len() > 0 {
                let (i, j) = choose|i: int, j: int|
                    0 <= i < j < rest.len() && (#[trigger] rest[i]).path == (
                    #[trigger] rest[j]).path && rest[i].site == rest[j].site && rest[i].name
                        != rest[j].name;
                assert(claims[i] == rest[i] && claims[j] == rest[j]);
            } else {
                let i = lemma_last_claim_at(rest, claim.path, claim.site);
                assert(claims[i] == rest[i]);
                assert(claims[claims.len() - 1] == claim);
            }
        }
        if exists|i: int, j: int|
            0 <= i < j < claims.len() && (#[trigger] claims[i]).path == (
            #[trigger] claims[j]).path && claims[i].site == claims[j].site && claims[i].name
                != claims[j].name {
            let (i, j) = choose|i: int, j: int|
                0 <= i < j < claims.len() && (#[trigger] claims[i]).path == (
                #[trigger] claims[j]).path && claims[i].site == claims[j].site && claims[i].name
                    != claims[j].name;
            if j < rest.len() {
                assert(claims[i] == rest[i] && claims[j] == rest[j]);
            } else {
                assert(claims[i] == rest[i]);
                lemma_last_claim(rest, i);
                let last = lemma_last_claim_at(rest, claim.path, claim.site);
                if rest[last].name == claim.name {
                    // The last earlier claim agrees with this one, so an earlier pair disagrees.
                    assert(rest[i].name != rest[last].name);
                    assert(i < last);
                    assert(contested(rest).len() > 0);
                }
            }
        }
    }
}

/// The claims of a rename's files hold one on each of their sites.
proof fn lemma_file_claims(files: Seq<RenamedView>, name: Seq<char>, file: int, site: int)
    requires
        0 <= file < files.len(),
        0 <= site < files[file].sites.len(),
    ensures
        file_claims(files, name).contains(
            ClaimView { path: files[file].path, site: files[file].sites[site], name },
        ),
    decreases files.len(),
{
    let claim = ClaimView { path: files[file].path, site: files[file].sites[site], name };
    let rest = file_claims(files.drop_last(), name);
    let own = site_claims(files.last().path, files.last().sites, name);
    if file == files.len() - 1 {
        assert((rest + own)[rest.len() + site] == claim);
    } else {
        assert(files.drop_last()[file] == files[file]);
        lemma_file_claims(files.drop_last(), name, file, site);
        let at = choose|at: int| 0 <= at < rest.len() && rest[at] == claim;
        assert((rest + own)[at] == claim);
    }
}

/// The claims of renames hold one on each of their sites.
proof fn lemma_claims(renames: Seq<RenameView>, at: int, file: int, site: int)
    requires
        0 <= at < renames.len(),
        0 <= file < renames[at].files.len(),
        0 <= site < renames[at].files[file].sites.len(),
    ensures
        claims_of(renames).contains(
            ClaimView {
                path: renames[at].files[file].path,
                site: renames[at].files[file].sites[site],
                name: renames[at].new_name,
            },
        ),
    decreases renames.len(),
{
    let rename = renames[at];
    let claim = ClaimView {
        path: rename.files[file].path,
        site: rename.files[file].sites[site],
        name: rename.new_name,
    };
    let rest = claims_of(renames.drop_last());
    let own = file_claims(renames.last().files, renames.last().new_name);
    if at == renames.len() - 1 {
        lemma_file_claims(rename.files, rename.new_name, file, site);
        let k = choose|k: int| 0 <= k < own.len() && own[k] == claim;
        assert((rest + own)[rest.len() + k] == claim);
    } else {
        assert(renames.drop_last()[at] == rename);
        lemma_claims(renames.drop_last(), at, file, site);
        let k = choose|k: int| 0 <= k < rest.len() && rest[k] == claim;
        assert((rest + own)[k] == claim);
    }
}

/// Two renames that would write different names over the same identifier are a conflict, so
/// nothing is planned.
pub proof fn law_a_contested_identifier_is_a_conflict(
    renames: Seq<RenameView>,
    one: int,
    other: int,
    one_file: int,
    other_file: int,
    one_site: int,
    other_site: int,
)
    requires
        0 <= one < renames.len(),
        0 <= other < renames.len(),
        0 <= one_file < renames[one].files.len(),
        0 <= other_file < renames[other].files.len(),
        0 <= one_site < renames[one].files[one_file].sites.len(),
        0 <= other_site < renames[other].files[other_file].sites.len(),
        renames[one].files[one_file].path == renames[other].files[other_file].path,
        renames[one].files[one_file].sites[one_site]
            == renames[other].files[other_file].sites[other_site],
        renames[one].new_name != renames[other].new_name,
    ensures
        conflicts_of(renames).len() > 0,
{
    let claims = claims_of(renames);
    lemma_claims(renames, one, one_file, one_site);
    lemma_claims(renames, other, other_file, other_site);
    let a = ClaimView {
        path: renames[one].files[one_file].path,
        site: renames[one].files[one_file].sites[one_site],
        name: renames[one].new_name,
    };
    let b = ClaimView {
        path: renames[other].files[other_file].path,
        site: renames[other].files[other_file].sites[other_site],
        name: renames[other].new_name,
    };
    let i = choose|i: int| 0 <= i < claims.len() && claims[i] == a;
    let j = choose|j: int| 0 <= j < claims.len() && claims[j] == b;
    law_contradictions_are_caught(claims);
    if i < j {
        assert(claims[i].path == claims[j].path);
    } else {
        assert(claims[j].path == claims[i].path);
    }
}

/// How many renames end up with a name, where one of them does.
proof fn lemma_renamed_to(renames: Seq<RenameView>, name: Seq<char>, at: int)
    requires
        0 <= at < renames.len(),
        renames[at].new_name == name,
    ensures
        renamed_to(renames, name).len() >= 1,
    decreases renames.len(),
{
    if at < renames.len() - 1 {
        assert(renames.drop_last()[at] == renames[at]);
        lemma_renamed_to(renames.drop_last(), name, at);
    }
}

/// How many renames end up with a name, where two of them do.
proof fn lemma_renamed_twice(renames: Seq<RenameView>, name: Seq<char>, one: int, other: int)
    requires
        0 <= one < other < renames.len(),
        renames[one].new_name == name,
        renames[other].new_name == name,
    ensures
        renamed_to(renames, name).len() >= 2,
    decreases renames.len(),
{
    assert(renames.drop_last()[one] == renames[one]);
    if other == renames.len() - 1 {
        lemma_renamed_to(renames.drop_last(), name, one);
    } else {
        assert(renames.drop_last()[other] == renames[other]);
        lemma_renamed_twice(renames.drop_last(), name, one, other);
    }
}

/// A name that more than one symbol would end up with is found among the names.
proof fn lemma_colliding(renames: Seq<RenameView>, names: Seq<Seq<char>>, at: int)
    requires
        0 <= at < names.len(),
        renamed_to(renames, names[at]).len() > 1,
    ensures
        colliding(renames, names).len() > 0,
    decreases names.len(),
{
    if at < names.len() - 1 {
        assert(names.drop_last()[at] == names[at]);
        lemma_colliding(renames, names.drop_last(), at);
    }
}

/// Two renames to the same name are a conflict, so nothing is planned.
pub proof fn law_a_shared_name_is_a_conflict(renames: Seq<RenameView>, one: int, other: int)
    requires
        0 <= one < other < renames.len(),
        renames[one].new_name == renames[other].new_name,
    ensures
        conflicts_of(renames).len() > 0,
{
    let name = renames[one].new_name;
    let names = new_names(renames);
    lemma_renamed_twice(renames, name, one, other);
    order::law_sorted(names);
    assert(names[one] == name);
    assert(names.contains(name));
    assert(order::sorted(names).contains(name));
    let at = choose|at: int|
        0 <= at < order::sorted(names).len() && order::sorted(names)[at] == name;
    lemma_colliding(renames, order::sorted(names), at);
}

} // verus!
