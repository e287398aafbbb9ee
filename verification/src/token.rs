//! Gate three: a confirmation bound to one plan, one repository, and one use.
//!
//! The token is not a password: it is proof that the exact plan being applied is the one a
//! preview already checked against the working tree. So it carries a fingerprint of the plan
//! rather than a random value alone, the plan itself is kept beside it, and presenting it for a
//! different plan fails as loudly as presenting no token at all.

use crate::json::{Fields, Json, JsonView};
use crate::plan;
use crate::plan::{EditPlan, EditView, FileEdit, FileView, PlanView, TextEdit};
use crate::text;
use crate::words;
use vstd::prelude::*;
use vstd::string::*;

verus! {

/// How long a confirmation stays valid, in seconds. Long enough to read a preview, short enough
/// that a stale tree cannot hide behind it.
pub const TOKEN_TTL: u64 = 300;

/// A confirmation handed to the caller after a successful preview.
#[derive(Debug)]
pub struct ConfirmToken {
    pub value: String,
    pub expires_at: u64,
}

/// A confirmation that was issued and not presented yet.
struct Issued {
    value: String,
    plan: EditPlan,
    repository: String,
    expires_at: u64,
}

/// A confirmation that was issued, as a mathematical value.
#[verifier::ext_equal]
pub struct IssuedView {
    pub plan: PlanView,
    pub repository: Seq<char>,
    pub expires_at: u64,
}

/// A text behind its length in bytes, so that no text can be taken for a part of its neighbour.
pub open spec fn measured(t: Seq<char>) -> Seq<char> {
    words::decimal(text::bytes(t).len()) + ":"@ + t
}

/// What one edit contributes to a fingerprint.
pub open spec fn edit_material(edit: EditView) -> Seq<char> {
    "\u{3}"@ + words::decimal(edit.start_line as nat) + ":"@ + words::decimal(
        edit.start_char as nat,
    ) + ":"@ + words::decimal(edit.end_line as nat) + ":"@ + words::decimal(edit.end_char as nat)
        + ":"@ + measured(edit.before) + measured(edit.after) + measured(edit.provenance)
}

/// What the first edits of a file contribute to a fingerprint.
pub open spec fn edits_material(edits: Seq<EditView>) -> Seq<char>
    decreases edits.len(),
{
    if edits.len() == 0 {
        Seq::empty()
    } else {
        edits_material(edits.drop_last()) + edit_material(edits.last())
    }
}

/// What one file contributes to a fingerprint.
pub open spec fn file_material(file: FileView) -> Seq<char> {
    "\u{1}"@ + measured(file.path) + "\u{2}"@ + measured(file.sha256) + edits_material(file.edits)
}

/// What the first files of a plan contribute to a fingerprint.
pub open spec fn files_material(files: Seq<FileView>) -> Seq<char>
    decreases files.len(),
{
    if files.len() == 0 {
        Seq::empty()
    } else {
        files_material(files.drop_last()) + file_material(files.last())
    }
}

/// Everything in a plan that decides what gets written.
pub open spec fn material(plan: PlanView) -> Seq<char> {
    measured(plan.operation) + files_material(plan.files)
}

/// The 64-bit FNV-1a digest of bytes.
pub open spec fn digest(b: Seq<u8>) -> u64
    decreases b.len(),
{
    if b.len() == 0 {
        0xcbf2_9ce4_8422_2325
    } else {
        (digest(b.drop_last()) ^ (b.last() as u64)).wrapping_mul(0x0000_0100_0000_01b3)
    }
}

/// A stable fingerprint of everything in the plan that decides what gets written.
pub open spec fn fingerprint_of(plan: PlanView) -> Seq<char> {
    words::hexadecimal(digest(text::bytes(material(plan))) as nat, 16)
}

/// The value of the confirmation for a plan issued at a time.
pub open spec fn token_value(plan: PlanView, now: u64) -> Seq<char> {
    fingerprint_of(plan) + words::hexadecimal(now.wrapping_mul(0x9e37_79b9_7f4a_7c15) as nat, 16)
}

/// The confirmations that have not expired.
pub open spec fn unexpired(issued: Map<Seq<char>, IssuedView>, now: u64) -> Map<
    Seq<char>,
    IssuedView,
> {
    issued.restrict(Set::new(|value: Seq<char>| issued.dom().contains(value) && issued[value].expires_at > now))
}

/// The confirmations after one more was issued.
pub open spec fn after_issue(
    issued: Map<Seq<char>, IssuedView>,
    plan: PlanView,
    repository: Seq<char>,
    now: u64,
) -> Map<Seq<char>, IssuedView> {
    unexpired(issued, now).insert(
        token_value(plan, now),
        IssuedView {
            plan,
            repository,
            expires_at: (now + TOKEN_TTL) as u64,
        },
    )
}

/// The confirmations after one was presented: what was presented is spent, whatever it proved.
pub open spec fn after_consume(
    issued: Map<Seq<char>, IssuedView>,
    presented: Option<Seq<char>>,
) -> Map<Seq<char>, IssuedView> {
    match presented {
        Some(value) => issued.remove(value),
        None => issued,
    }
}

/// A refusal: a status and its reason.
pub open spec fn refusal(status: Seq<char>, reason: Seq<char>) -> JsonView {
    JsonView::empty().with_text("status"@, status).with_text("reason"@, reason)
}

/// The confirmation that a presented value names in a repository, or why it is refused.
pub open spec fn presented_token(
    issued: Map<Seq<char>, IssuedView>,
    presented: Option<Seq<char>>,
    repository: Seq<char>,
    now: u64,
) -> Result<IssuedView, JsonView> {
    match presented {
        None => Err(
            refusal(
                "TOKEN_UNKNOWN"@,
                "mode=\"apply\" requires the confirm_token issued by a preview of this exact plan. Nothing was written."@,
            ),
        ),
        Some(value) => if !issued.dom().contains(value) {
            Err(
                refusal(
                    "TOKEN_UNKNOWN"@,
                    "the confirmation is not one this server issued, or it was already used. Nothing was written."@,
                ),
            )
        } else if issued[value].expires_at <= now {
            Err(
                refusal(
                    "TOKEN_EXPIRED"@,
                    "the confirmation expired; preview again to get a fresh one. Nothing was written."@,
                ),
            )
        } else if issued[value].repository != repository {
            Err(
                refusal(
                    "TOKEN_REPOSITORY_MISMATCH"@,
                    "the confirmation belongs to a different repository. Nothing was written."@,
                ),
            )
        } else {
            Ok(issued[value])
        },
    }
}

/// Why a presented value does not confirm a plan in a repository, or nothing where it does.
pub open spec fn consume_refusal(
    issued: Map<Seq<char>, IssuedView>,
    presented: Option<Seq<char>>,
    plan: PlanView,
    repository: Seq<char>,
    now: u64,
) -> Option<JsonView> {
    match presented_token(issued, presented, repository, now) {
        Err(why) => Some(why),
        Ok(token) => if token.plan != plan {
            Some(
                refusal(
                    "TOKEN_PLAN_MISMATCH"@,
                    "the plan changed after it was previewed; the confirmation proves a different plan. Nothing was written."@,
                ),
            )
        } else {
            None
        },
    }
}

/// A refusal: a status and its reason.
pub fn refuse(status: &str, reason: &str) -> (value: Json)
    ensures
        value@ == refusal(status@, reason@),
{
    Fields::new().with_text("status", status).with_text("reason", reason).done()
}

/// A text behind its length in bytes.
fn measure(t: &str) -> (out: String)
    ensures
        out@ == measured(t@),
{
    words::number(t.as_bytes().len() as u64).concat(":").concat(t)
}

impl TextEdit {
    /// What this edit contributes to a fingerprint.
    fn material(&self) -> (out: String)
        ensures
            out@ == edit_material(self@),
    {
        "\u{3}".to_owned().concat(words::number(self.start_line as u64).as_str()).concat(
            ":",
        ).concat(words::number(self.start_char as u64).as_str()).concat(":").concat(
            words::number(self.end_line as u64).as_str(),
        ).concat(":").concat(words::number(self.end_char as u64).as_str()).concat(":").concat(
            measure(self.before.as_str()).as_str(),
        ).concat(measure(self.after.as_str()).as_str()).concat(
            measure(self.provenance.as_str()).as_str(),
        )
    }
}

impl FileEdit {
    /// What this file contributes to a fingerprint.
    fn material(&self) -> (out: String)
        ensures
            out@ == file_material(self@),
    {
        let mut edits = String::new();
        let ghost all = plan::edits_view(self.edits@);
        let mut i: usize = 0;
        while i < self.edits.len()
            invariant
                i <= self.edits@.len(),
                all == plan::edits_view(self.edits@),
                edits@ == edits_material(all.take(i as int)),
            decreases self.edits@.len() - i,
        {
            assert(all.take(i + 1).drop_last() =~= all.take(i as int));
            edits = edits.concat(self.edits[i].material().as_str());
            i += 1;
        }
        assert(all.take(i as int) =~= all);
        "\u{1}".to_owned().concat(measure(self.path.as_str()).as_str()).concat("\u{2}").concat(
            measure(self.sha256.as_str()).as_str(),
        ).concat(edits.as_str())
    }
}

/// A stable fingerprint of everything in the plan that decides what gets written.
///
/// Ordering, paths, hashes, ranges and both texts all take part, each text behind its length. A
/// digest that is not cryptographic is enough: the confirmation keeps the plan beside it, and that
/// is what a presented plan is held against.
pub fn fingerprint(plan: &EditPlan) -> (out: String)
    ensures
        out@ == fingerprint_of(plan@),
{
    let mut files = String::new();
    let ghost all = plan::files_view(plan.files@);
    let mut i: usize = 0;
    while i < plan.files.len()
        invariant
            i <= plan.files@.len(),
            all == plan::files_view(plan.files@),
            files@ == files_material(all.take(i as int)),
        decreases plan.files@.len() - i,
    {
        assert(all.take(i + 1).drop_last() =~= all.take(i as int));
        files = files.concat(plan.files[i].material().as_str());
        i += 1;
    }
    assert(all.take(i as int) =~= all);
    let whole = measure(plan.operation.as_str()).concat(files.as_str());
    assert(whole@ == material(plan@));
    let encoded = whole.as_str().as_bytes();
    let mut hash: u64 = 0xcbf2_9ce4_8422_2325;
    let mut k: usize = 0;
    while k < encoded.len()
        invariant
            k <= encoded@.len(),
            hash == digest(encoded@.take(k as int)),
        decreases encoded@.len() - k,
    {
        assert(encoded@.take(k + 1).drop_last() =~= encoded@.take(k as int));
        hash = (hash ^ (encoded[k] as u64)).wrapping_mul(0x0000_0100_0000_01b3);
        k += 1;
    }
    assert(encoded@.take(k as int) =~= encoded@);
    words::hex(hash, 16)
}

impl Issued {
    /// The confirmation without its representation.
    spec fn view(self) -> IssuedView {
        IssuedView {
            plan: self.plan@,
            repository: self.repository@,
            expires_at: self.expires_at,
        }
    }

    /// Another confirmation that is the same.
    fn duplicate(&self) -> (copy: Issued)
        ensures
            copy@ == self@,
            copy.value@ == self.value@,
    {
        Issued {
            value: self.value.clone(),
            plan: self.plan.duplicate(),
            repository: self.repository.clone(),
            expires_at: self.expires_at,
        }
    }
}

/// The confirmations of a list, each with its value.
spec fn pairs(issued: Seq<Issued>) -> Seq<(Seq<char>, IssuedView)> {
    Seq::new(issued.len(), |i: int| (issued[i].value@, issued[i].view()))
}

/// The confirmations of a list under their values.
spec fn map_of(all: Seq<(Seq<char>, IssuedView)>) -> Map<Seq<char>, IssuedView>
    decreases all.len(),
{
    if all.len() == 0 {
        Map::empty()
    } else {
        map_of(all.drop_last()).insert(all.last().0, all.last().1)
    }
}

/// Whether no value stands twice.
spec fn distinct(all: Seq<(Seq<char>, IssuedView)>) -> bool {
    forall|i: int, j: int| 0 <= i < j < all.len() ==> (#[trigger] all[i]).0 != (#[trigger] all[j]).0
}

/// Whether a confirmation outlives a time, where there is one.
spec fn outlives(token: IssuedView, now: Option<u64>) -> bool {
    now matches Some(time) ==> token.expires_at > time
}

/// The confirmations that have another value, and that outlive a time where there is one.
spec fn keep(
    all: Seq<(Seq<char>, IssuedView)>,
    value: Seq<char>,
    now: Option<u64>,
) -> Seq<(Seq<char>, IssuedView)>
    decreases all.len(),
{
    if all.len() == 0 {
        Seq::empty()
    } else {
        let rest = keep(all.drop_last(), value, now);
        if all.last().0 != value && outlives(all.last().1, now) {
            rest.push(all.last())
        } else {
            rest
        }
    }
}

/// A value is in the map exactly where it is in the list.
proof fn lemma_map_of(all: Seq<(Seq<char>, IssuedView)>)
    ensures
        forall|value: Seq<char>| #[trigger]
            map_of(all).dom().contains(value) <==> exists|i: int|
                0 <= i < all.len() && (#[trigger] all[i]).0 == value,
        distinct(all) ==> forall|i: int|
            0 <= i < all.len() ==> map_of(all)[(#[trigger] all[i]).0] == all[i].1,
    decreases all.len(),
{
    if all.len() > 0 {
        let rest = all.drop_last();
        lemma_map_of(rest);
        assert forall|value: Seq<char>| #[trigger]
            map_of(all).dom().contains(value) <==> exists|i: int|
            0 <= i < all.len() && (#[trigger] all[i]).0 == value by {
            if map_of(all).dom().contains(value) {
                if value == all.last().0 {
                    assert(all[all.len() - 1].0 == value);
                } else {
                    assert(map_of(rest).dom().contains(value));
                    let i = choose|i: int| 0 <= i < rest.len() && (#[trigger] rest[i]).0 == value;
                    assert(all[i].0 == value);
                }
            }
            if exists|i: int| 0 <= i < all.len() && (#[trigger] all[i]).0 == value {
                let i = choose|i: int| 0 <= i < all.len() && (#[trigger] all[i]).0 == value;
                if i < rest.len() {
                    assert(rest[i].0 == value);
                    assert(map_of(rest).dom().contains(value));
                }
            }
        }
        if distinct(all) {
            assert(distinct(rest)) by {
                assert forall|i: int, j: int| 0 <= i < j < rest.len() implies (
                #[trigger] rest[i]).0 != (#[trigger] rest[j]).0 by {
                    assert(all[i].0 != all[j].0);
                }
            }
            assert forall|i: int| 0 <= i < all.len() implies map_of(all)[(#[trigger] all[i]).0]
                == all[i].1 by {
                if i < rest.len() {
                    assert(rest[i] == all[i]);
                    assert(all[i].0 != all[all.len() - 1].0);
                }
            }
        }
    }
}

/// Keeping only takes from the list, and so keeps its values distinct.
proof fn lemma_keep_distinct(
    all: Seq<(Seq<char>, IssuedView)>,
    value: Seq<char>,
    now: Option<u64>,
)
    requires
        distinct(all),
    ensures
        distinct(keep(all, value, now)),
        forall|k: int|
            0 <= k < keep(all, value, now).len() ==> all.contains(
                #[trigger] keep(all, value, now)[k],
            ) && keep(all, value, now)[k].0 != value,
    decreases all.len(),
{
    if all.len() > 0 {
        let rest = all.drop_last();
        assert(distinct(rest)) by {
            assert forall|i: int, j: int| 0 <= i < j < rest.len() implies (#[trigger] rest[i]).0 != (
            #[trigger] rest[j]).0 by {
                assert(all[i].0 != all[j].0);
            }
        }
        lemma_keep_distinct(rest, value, now);
        let kept = keep(rest, value, now);
        let out = keep(all, value, now);
        assert forall|k: int| 0 <= k < out.len() implies all.contains(#[trigger] out[k]) && out[k].0
            != value by {
            if k < kept.len() {
                assert(out[k] == kept[k]);
                let i = choose|i: int| 0 <= i < rest.len() && rest[i] == kept[k];
                assert(all[i] == out[k]);
            } else {
                assert(all[all.len() - 1] == out[k]);
            }
        }
        assert forall|i: int, j: int| 0 <= i < j < out.len() implies (#[trigger] out[i]).0 != (
        #[trigger] out[j]).0 by {
            assert(out[i] == kept[i]);
            if j < kept.len() {
                assert(out[j] == kept[j]);
            } else {
                let k = choose|k: int| 0 <= k < rest.len() && rest[k] == kept[i];
                assert(all[k].0 != all[all.len() - 1].0);
            }
        }
    }
}

/// Keeping is taking the value out of the map, and the expired ones where a time is given.
proof fn lemma_keep(all: Seq<(Seq<char>, IssuedView)>, value: Seq<char>, now: Option<u64>)
    requires
        distinct(all),
    ensures
        map_of(keep(all, value, now)) == (match now {
            Some(time) => unexpired(map_of(all), time),
            None => map_of(all),
        }).remove(value),
    decreases all.len(),
{
    let target = (match now {
        Some(time) => unexpired(map_of(all), time),
        None => map_of(all),
    }).remove(value);
    if all.len() == 0 {
        assert(map_of(keep(all, value, now)) =~= target);
    } else {
        let rest = all.drop_last();
        let last = all.last();
        assert(distinct(rest)) by {
            assert forall|i: int, j: int| 0 <= i < j < rest.len() implies (#[trigger] rest[i]).0 != (
            #[trigger] rest[j]).0 by {
                assert(all[i].0 != all[j].0);
            }
        }
        lemma_keep(rest, value, now);
        lemma_map_of(rest);
        assert(!map_of(rest).dom().contains(last.0)) by {
            if map_of(rest).dom().contains(last.0) {
                let i = choose|i: int| 0 <= i < rest.len() && (#[trigger] rest[i]).0 == last.0;
                assert(all[i].0 != all[all.len() - 1].0);
            }
        }
        let kept = keep(rest, value, now);
        if last.0 != value && outlives(last.1, now) {
            assert(kept.push(last).drop_last() =~= kept);
        }
        assert(map_of(keep(all, value, now)) =~= target);
    }
}

/// The issued confirmations of one server process.
pub struct TokenStore {
    issued: Vec<Issued>,
}

/// The confirmations that have another value, and that outlive a time where there is one.
fn keep_others(issued: &Vec<Issued>, value: &str, now: Option<u64>) -> (kept: Vec<Issued>)
    ensures
        pairs(kept@) == keep(pairs(issued@), value@, now),
{
    let ghost all = pairs(issued@);
    let mut kept: Vec<Issued> = Vec::new();
    let mut i: usize = 0;
    assert(pairs(kept@) =~= Seq::empty());
    while i < issued.len()
        invariant
            i <= issued@.len(),
            all == pairs(issued@),
            pairs(kept@) == keep(all.take(i as int), value@, now),
        decreases issued@.len() - i,
    {
        assert(all.take(i + 1).drop_last() =~= all.take(i as int));
        assert(all[i as int] == (issued@[i as int].value@, issued@[i as int].view()));
        let alive = match now {
            Some(time) => issued[i].expires_at > time,
            None => true,
        };
        if !text::same(issued[i].value.as_str(), value) && alive {
            let copy = issued[i].duplicate();
            assert(pairs(kept@.push(copy)) =~= pairs(kept@).push((copy.value@, copy@)));
            kept.push(copy);
        }
        i += 1;
    }
    assert(all.take(i as int) =~= all);
    kept
}

/// Where a value stands among confirmations.
fn find_value(issued: &Vec<Issued>, value: &str) -> (found: Option<usize>)
    ensures
        match found {
            Some(at) => at < issued@.len() && issued@[at as int].value@ == value@,
            None => forall|i: int| 0 <= i < issued@.len() ==> (#[trigger] issued@[i]).value@ != value@,
        },
{
    let mut i: usize = 0;
    while i < issued.len()
        invariant
            i <= issued@.len(),
            forall|k: int| 0 <= k < i ==> (#[trigger] issued@[k]).value@ != value@,
        decreases issued@.len() - i,
    {
        if text::same(issued[i].value.as_str(), value) {
            return Some(i);
        }
        i += 1;
    }
    None
}

/// An optional text as a mathematical value.
pub open spec fn optional(t: Option<&str>) -> Option<Seq<char>> {
    match t {
        Some(found) => Some(found@),
        None => None,
    }
}

impl TokenStore {
    /// The confirmations that were issued and not presented, under their values.
    pub closed spec fn view(self) -> Map<Seq<char>, IssuedView> {
        map_of(pairs(self.issued@))
    }

    /// No value stands twice.
    #[verifier::type_invariant]
    spec fn values_are_distinct(self) -> bool {
        distinct(pairs(self.issued@))
    }

    /// A store that has issued nothing.
    pub fn new() -> (store: TokenStore)
        ensures
            store@ == Map::<Seq<char>, IssuedView>::empty(),
    {
        let store = TokenStore { issued: Vec::new() };
        assert(store@ =~= Map::empty());
        store
    }

    /// Issues a confirmation for a previewed plan.
    ///
    /// A clock so late that the confirmation's end could not be counted is left out.
    pub fn issue(&mut self, plan: &EditPlan, repository: &str, now: u64) -> (token: ConfirmToken)
        requires
            now <= u64::MAX - TOKEN_TTL,
        ensures
            final(self)@ == after_issue(old(self)@, plan@, repository@, now),
            token.value@ == token_value(plan@, now),
            token.expires_at == now + TOKEN_TTL,
    {
        proof {
            use_type_invariant(&*self);
        }
        let expires_at: u64 = now + TOKEN_TTL;
        let value = fingerprint(plan).concat(
            words::hex(now.wrapping_mul(0x9e37_79b9_7f4a_7c15), 16).as_str(),
        );
        let ghost all = pairs(self.issued@);
        let mut kept = keep_others(&self.issued, value.as_str(), Some(now));
        proof {
            lemma_keep(all, value@, Some(now));
            lemma_keep_distinct(all, value@, Some(now));
        }
        let entry = Issued {
            value: value.clone(),
            plan: plan.duplicate(),
            repository: repository.to_owned(),
            expires_at,
        };
        proof {
            let pair = (value@, entry.view());
            assert(pairs(kept@.push(entry)) =~= pairs(kept@).push(pair));
            assert(pairs(kept@).push(pair).drop_last() =~= pairs(kept@));
            assert(map_of(pairs(kept@).push(pair)) =~= after_issue(
                map_of(all),
                plan@,
                repository@,
                now,
            ));
        }
        kept.push(entry);
        self.issued = kept;
        ConfirmToken { value, expires_at }
    }

    /// The confirmation that a presented value names in a repository, taken out of the store, or
    /// the refusal that says why there is none.
    fn take(&mut self, presented: Option<&str>, repository: &str, now: u64) -> (found: Result<
        Issued,
        Json,
    >)
        ensures
            final(self)@ == after_consume(old(self)@, optional(presented)),
            match (
                found,
                presented_token(old(self)@, optional(presented), repository@, now),
            ) {
                (Ok(token), Ok(expected)) => token@ == expected,
                (Err(why), Err(expected)) => why@ == expected,
                _ => false,
            },
    {
        proof {
            use_type_invariant(&*self);
        }
        let value = match presented {
            Some(value) => value,
            None => {
                return Err(
                    refuse(
                        "TOKEN_UNKNOWN",
                        "mode=\"apply\" requires the confirm_token issued by a preview of this exact plan. Nothing was written.",
                    ),
                );
            },
        };
        let ghost all = pairs(self.issued@);
        proof {
            lemma_map_of(all);
            lemma_keep(all, value@, None);
            lemma_keep_distinct(all, value@, None);
        }
        let at: usize = match find_value(&self.issued, value) {
            Some(at) => at,
            None => {
                proof {
                    assert(!map_of(all).dom().contains(value@)) by {
                        if map_of(all).dom().contains(value@) {
                            let i = choose|i: int|
                                0 <= i < all.len() && (#[trigger] all[i]).0 == value@;
                            assert(self.issued@[i].value@ == value@);
                        }
                    }
                    assert(map_of(all).remove(value@) =~= map_of(all));
                }
                return Err(
                    refuse(
                        "TOKEN_UNKNOWN",
                        "the confirmation is not one this server issued, or it was already used. Nothing was written.",
                    ),
                );
            },
        };
        let token = self.issued[at].duplicate();
        proof {
            assert(all[at as int] == (value@, token@));
            assert(map_of(all).dom().contains(value@));
        }
        let kept = keep_others(&self.issued, value, None);
        self.issued = kept;
        if token.expires_at <= now {
            return Err(
                refuse(
                    "TOKEN_EXPIRED",
                    "the confirmation expired; preview again to get a fresh one. Nothing was written.",
                ),
            );
        }
        if !text::same(token.repository.as_str(), repository) {
            return Err(
                refuse(
                    "TOKEN_REPOSITORY_MISMATCH",
                    "the confirmation belongs to a different repository. Nothing was written.",
                ),
            );
        }
        Ok(token)
    }

    /// Consumes a confirmation, or returns the refusal that says why it could not be.
    ///
    /// Consuming happens whether or not the checks pass: a token that was presented is spent, so
    /// a caller cannot probe with the same value twice.
    pub fn consume(
        &mut self,
        presented: Option<&str>,
        plan: &EditPlan,
        repository: &str,
        now: u64,
    ) -> (refused: Option<Json>)
        ensures
            final(self)@ == after_consume(old(self)@, optional(presented)),
            match (
                refused,
                consume_refusal(old(self)@, optional(presented), plan@, repository@, now),
            ) {
                (Some(why), Some(expected)) => why@ == expected,
                (None, None) => true,
                _ => false,
            },
    {
        match self.take(presented, repository, now) {
            Err(why) => Some(why),
            Ok(token) => {
                if !token.plan.same(plan) {
                    return Some(
                        refuse(
                            "TOKEN_PLAN_MISMATCH",
                            "the plan changed after it was previewed; the confirmation proves a different plan. Nothing was written.",
                        ),
                    );
                }
                None
            },
        }
    }

    /// Consumes a confirmation for the plan it was issued for, or returns the refusal that says
    /// why it could not be.
    ///
    /// The confirmation names exactly one previewed plan, so a caller need not send that plan
    /// back.
    pub fn consume_for_plan(&mut self, presented: Option<&str>, repository: &str, now: u64) -> (
        found: Result<EditPlan, Json>)
        ensures
            final(self)@ == after_consume(old(self)@, optional(presented)),
            match (
                found,
                presented_token(old(self)@, optional(presented), repository@, now),
            ) {
                (Ok(plan), Ok(expected)) => plan@ == expected.plan,
                (Err(why), Err(expected)) => why@ == expected,
                _ => false,
            },
    {
        match self.take(presented, repository, now) {
            Ok(token) => Ok(token.plan),
            Err(why) => Err(why),
        }
    }
}

/// A previewed plan applies once: its confirmation is accepted for that plan in that repository
/// until it expires, and is unknown from then on.
pub proof fn law_a_previewed_plan_applies_once(
    issued: Map<Seq<char>, IssuedView>,
    plan: PlanView,
    repository: Seq<char>,
    now: u64,
    then: u64,
    later: u64,
)
    requires
        now <= u64::MAX - TOKEN_TTL,
        then < now + TOKEN_TTL,
    ensures
        ({
            let value = Some(token_value(plan, now));
            let store = after_issue(issued, plan, repository, now);
            let spent = after_consume(store, value);
            &&& consume_refusal(store, value, plan, repository, then) is None
            &&& presented_token(store, value, repository, then) matches Ok(token) && token.plan
                == plan
            &&& consume_refusal(spent, value, plan, repository, later) == Some(
                refusal(
                    "TOKEN_UNKNOWN"@,
                    "the confirmation is not one this server issued, or it was already used. Nothing was written."@,
                ),
            )
        }),
{
}

/// A confirmation does not travel: it is refused for any other plan, in another repository, and
/// from its expiry on.
pub proof fn law_a_confirmation_does_not_travel(
    issued: Map<Seq<char>, IssuedView>,
    plan: PlanView,
    repository: Seq<char>,
    now: u64,
    other_plan: PlanView,
    other_repository: Seq<char>,
    then: u64,
)
    requires
        now <= u64::MAX - TOKEN_TTL,
        other_plan != plan || other_repository != repository || then >= now + TOKEN_TTL,
    ensures
        consume_refusal(
            after_issue(issued, plan, repository, now),
            Some(token_value(plan, now)),
            other_plan,
            other_repository,
            then,
        ) == Some(
            if then >= now + TOKEN_TTL {
                refusal(
                    "TOKEN_EXPIRED"@,
                    "the confirmation expired; preview again to get a fresh one. Nothing was written."@,
                )
            } else if other_repository != repository {
                refusal(
                    "TOKEN_REPOSITORY_MISMATCH"@,
                    "the confirmation belongs to a different repository. Nothing was written."@,
                )
            } else {
                refusal(
                    "TOKEN_PLAN_MISMATCH"@,
                    "the plan changed after it was previewed; the confirmation proves a different plan. Nothing was written."@,
                )
            },
        ),
{
}

/// A value that was presented is spent whatever came of it, and no other confirmation is.
pub proof fn law_presenting_spends_one_confirmation(
    issued: Map<Seq<char>, IssuedView>,
    value: Seq<char>,
    other: Seq<char>,
)
    requires
        other != value,
    ensures
        !after_consume(issued, Some(value)).dom().contains(value),
        after_consume(issued, Some(value)).dom().contains(other) == issued.dom().contains(other),
        issued.dom().contains(other) ==> after_consume(issued, Some(value))[other] == issued[other],
        after_consume(issued, None) == issued,
{
}

} // verus!
