//! What a confirmation promises: that it lasts as long as it should, and that what it is made from
//! tells any two plans apart.

use crate::plan::{EditView, FileView, PlanView};
use crate::text;
use crate::token;
use crate::token::IssuedView;
use crate::words;
use vstd::prelude::*;
use vstd::string::*;

verus! {

/// A confirmation is good for five minutes: until then it confirms its plan, in its repository, and
/// from then on it does not.
pub proof fn law_a_confirmation_lasts_five_minutes(
    issued: Map<Seq<char>, IssuedView>,
    plan: PlanView,
    repository: Seq<char>,
    now: u64,
    then: u64,
)
    requires
        now + 300 <= u64::MAX,
    ensures
        token::consume_refusal(
            token::after_issue(issued, plan, repository, now),
            Some(token::token_value(plan, now)),
            plan,
            repository,
            then,
        ) is None <==> then < now + 300,
{
}

/// What stands before the first of a character, and what stands behind it, are each one thing.
proof fn lemma_cut_at(a: Seq<char>, b: Seq<char>, c: char, x: Seq<char>, y: Seq<char>)
    requires
        !a.contains(c),
        !b.contains(c),
        a + seq![c] + x == b + seq![c] + y,
    ensures
        a == b,
        x == y,
{
    text::lemma_index_of(a, c, x);
    text::lemma_index_of(b, c, y);
    let whole = a + seq![c] + x;
    let same = b + seq![c] + y;
    assert(a.len() == b.len());
    assert(a =~= whole.take(a.len() as int));
    assert(b =~= same.take(b.len() as int));
    assert(x =~= whole.skip(a.len() as int + 1));
    assert(y =~= same.skip(b.len() as int + 1));
}

/// A number and what follows it are each one thing.
proof fn lemma_number(n: nat, m: nat, x: Seq<char>, y: Seq<char>)
    requires
        words::decimal(n) + ":"@ + x == words::decimal(m) + ":"@ + y,
    ensures
        n == m,
        x == y,
{
    reveal_strlit(":");
    assert(":"@ =~= seq![':']);
    words::lemma_decimal(n, m);
    words::lemma_decimal(m, n);
    lemma_cut_at(words::decimal(n), words::decimal(m), ':', x, y);
}

/// Of two texts that begin one text, the one with as many bytes is the other.
proof fn lemma_same_bytes(a: Seq<char>, b: Seq<char>, x: Seq<char>, y: Seq<char>)
    requires
        a + x == b + y,
        text::bytes(a).len() == text::bytes(b).len(),
        a.len() <= b.len(),
    ensures
        a == b,
        x == y,
{
    let whole = a + x;
    let same = b + y;
    let more = b.skip(a.len() as int);
    assert forall|i: int| 0 <= i < a.len() implies a[i] == b[i] by {
        assert(whole[i] == same[i]);
    }
    assert(b =~= a + more);
    text::lemma_bytes_concat(a, more);
    if more.len() > 0 {
        crate::coordinates::lemma_utf16_length(more);
        assert(crate::coordinates::utf16_length(more) > 0);
        assert(false);
    }
    assert(a =~= b);
    assert(x =~= whole.skip(a.len() as int));
    assert(y =~= same.skip(b.len() as int));
}

/// A measured text and what follows it are each one thing.
proof fn lemma_measured(a: Seq<char>, b: Seq<char>, x: Seq<char>, y: Seq<char>)
    requires
        token::measured(a) + x == token::measured(b) + y,
    ensures
        a == b,
        x == y,
{
    let n = text::bytes(a).len();
    let m = text::bytes(b).len();
    assert(token::measured(a) + x =~= words::decimal(n) + ":"@ + (a + x));
    assert(token::measured(b) + y =~= words::decimal(m) + ":"@ + (b + y));
    lemma_number(n, m, a + x, b + y);
    if a.len() <= b.len() {
        lemma_same_bytes(a, b, x, y);
    } else {
        lemma_same_bytes(b, a, y, x);
    }
}

/// Three texts laid one after another, however they are grouped.
proof fn lemma_grouped(a: Seq<char>, b: Seq<char>, c: Seq<char>)
    ensures
        a + b + c == a + (b + c),
{
    assert(a + b + c =~= a + (b + c));
}

/// A number behind others, however they are grouped.
proof fn lemma_number_grouped(a: Seq<char>, b: Seq<char>, c: Seq<char>, d: Seq<char>)
    ensures
        a + b + c + d == a + (b + c + d),
{
    assert(a + b + c + d =~= a + (b + c + d));
}

/// What an edit contributes, read from its front.
proof fn lemma_edit_read(edit: EditView, x: Seq<char>)
    ensures
        token::edit_material(edit) + x == "\u{3}"@ + (words::decimal(edit.start_line as nat) + ":"@
            + (words::decimal(edit.start_char as nat) + ":"@ + (words::decimal(
            edit.end_line as nat,
        ) + ":"@ + (words::decimal(edit.end_char as nat) + ":"@ + (token::measured(edit.before) + (
        token::measured(edit.after) + (token::measured(edit.provenance) + x))))))),
{
    let s = "\u{3}"@;
    let n1 = words::decimal(edit.start_line as nat);
    let n2 = words::decimal(edit.start_char as nat);
    let n3 = words::decimal(edit.end_line as nat);
    let n4 = words::decimal(edit.end_char as nat);
    let t1 = token::measured(edit.before);
    let t2 = token::measured(edit.after);
    let t3 = token::measured(edit.provenance);
    let c = ":"@;
    let p1 = s + n1 + c;
    let p2 = p1 + n2 + c;
    let p3 = p2 + n3 + c;
    let p4 = p3 + n4 + c;
    assert(token::edit_material(edit) == p4 + t1 + t2 + t3);
    lemma_grouped(p4 + t1 + t2, t3, x);
    lemma_grouped(p4 + t1, t2, t3 + x);
    let r1 = t2 + (t3 + x);
    lemma_grouped(p4, t1, r1);
    let r2 = t1 + r1;
    lemma_number_grouped(p3, n4, c, r2);
    let r3 = n4 + c + r2;
    lemma_number_grouped(p2, n3, c, r3);
    let r4 = n3 + c + r3;
    lemma_number_grouped(p1, n2, c, r4);
    let r5 = n2 + c + r4;
    lemma_number_grouped(s, n1, c, r5);
}

/// What stands behind one text is one thing.
proof fn lemma_behind(head: Seq<char>, x: Seq<char>, y: Seq<char>)
    requires
        head + x == head + y,
    ensures
        x == y,
{
    let whole = head + x;
    let same = head + y;
    assert(x =~= whole.skip(head.len() as int));
    assert(y =~= same.skip(head.len() as int));
}

/// What an edit contributes, and what follows it, are each one thing.
proof fn lemma_edit(a: EditView, b: EditView, x: Seq<char>, y: Seq<char>)
    requires
        token::edit_material(a) + x == token::edit_material(b) + y,
    ensures
        a == b,
        x == y,
{
    let a3 = token::measured(a.provenance) + x;
    let b3 = token::measured(b.provenance) + y;
    let a2 = token::measured(a.after) + a3;
    let b2 = token::measured(b.after) + b3;
    let a1 = token::measured(a.before) + a2;
    let b1 = token::measured(b.before) + b2;
    let ad = words::decimal(a.end_char as nat) + ":"@ + a1;
    let bd = words::decimal(b.end_char as nat) + ":"@ + b1;
    let ac = words::decimal(a.end_line as nat) + ":"@ + ad;
    let bc = words::decimal(b.end_line as nat) + ":"@ + bd;
    let ab = words::decimal(a.start_char as nat) + ":"@ + ac;
    let bb = words::decimal(b.start_char as nat) + ":"@ + bc;
    let aa = words::decimal(a.start_line as nat) + ":"@ + ab;
    let ba = words::decimal(b.start_line as nat) + ":"@ + bb;
    lemma_edit_read(a, x);
    lemma_edit_read(b, y);
    lemma_behind("\u{3}"@, aa, ba);
    lemma_number(a.start_line as nat, b.start_line as nat, ab, bb);
    lemma_number(a.start_char as nat, b.start_char as nat, ac, bc);
    lemma_number(a.end_line as nat, b.end_line as nat, ad, bd);
    lemma_number(a.end_char as nat, b.end_char as nat, a1, b1);
    lemma_measured(a.before, b.before, a2, b2);
    lemma_measured(a.after, b.after, a3, b3);
    lemma_measured(a.provenance, b.provenance, x, y);
    assert(a =~= b);
}

/// What edits contribute begins with what the first of them does.
proof fn lemma_first_edit(edits: Seq<EditView>)
    requires
        edits.len() > 0,
    ensures
        token::edits_material(edits) == token::edit_material(edits[0]) + token::edits_material(
            edits.drop_first(),
        ),
    decreases edits.len(),
{
    let rest = edits.drop_last();
    if rest.len() > 0 {
        lemma_first_edit(rest);
        assert(rest.drop_first() =~= edits.drop_first().drop_last());
        assert(edits.drop_first().last() == edits.last());
        assert(token::edits_material(edits) =~= token::edit_material(edits[0])
            + token::edits_material(edits.drop_first()));
    } else {
        assert(token::edits_material(rest) =~= Seq::<char>::empty());
        assert(token::edits_material(edits.drop_first()) =~= Seq::<char>::empty());
        assert(token::edits_material(edits) =~= token::edit_material(edits[0])
            + token::edits_material(edits.drop_first()));
    }
}

/// Whether a text is no continuation of edits.
spec fn no_edit(t: Seq<char>) -> bool {
    t.len() == 0 || t[0] != '\u{3}'
}

/// What edits contribute, and what follows them, are each one thing.
proof fn lemma_edits(a: Seq<EditView>, b: Seq<EditView>, x: Seq<char>, y: Seq<char>)
    requires
        token::edits_material(a) + x == token::edits_material(b) + y,
        no_edit(x),
        no_edit(y),
    ensures
        a == b,
        x == y,
    decreases a.len(),
{
    reveal_strlit("\u{3}");
    let whole = token::edits_material(a) + x;
    let same = token::edits_material(b) + y;
    if a.len() > 0 {
        lemma_first_edit(a);
        assert(whole[0] == token::edit_material(a[0])[0]);
        assert(whole[0] == '\u{3}');
    } else {
        assert(whole =~= x);
    }
    if b.len() > 0 {
        lemma_first_edit(b);
        assert(same[0] == token::edit_material(b[0])[0]);
        assert(same[0] == '\u{3}');
    } else {
        assert(same =~= y);
    }
    if a.len() > 0 && b.len() > 0 {
        let p = token::edits_material(a.drop_first()) + x;
        let q = token::edits_material(b.drop_first()) + y;
        assert(whole =~= token::edit_material(a[0]) + p);
        assert(same =~= token::edit_material(b[0]) + q);
        lemma_edit(a[0], b[0], p, q);
        lemma_edits(a.drop_first(), b.drop_first(), x, y);
        assert(a =~= seq![a[0]] + a.drop_first());
        assert(b =~= seq![b[0]] + b.drop_first());
    } else {
        assert(a.len() == 0 && b.len() == 0);
        assert(a =~= b);
    }
}

/// Whether a text is no continuation of a file.
spec fn next_file(t: Seq<char>) -> bool {
    t.len() == 0 || t[0] == '\u{1}'
}

/// What a file contributes, read from its front.
proof fn lemma_file_read(file: FileView, x: Seq<char>)
    ensures
        token::file_material(file) + x == "\u{1}"@ + (token::measured(file.path) + ("\u{2}"@ + (
        token::measured(file.sha256) + (token::edits_material(file.edits) + x)))),
{
    let s = "\u{1}"@;
    let t1 = token::measured(file.path);
    let m = "\u{2}"@;
    let t2 = token::measured(file.sha256);
    let e = token::edits_material(file.edits);
    lemma_grouped(s + t1 + m + t2, e, x);
    lemma_grouped(s + t1 + m, t2, e + x);
    let r1 = t2 + (e + x);
    lemma_grouped(s + t1, m, r1);
    lemma_grouped(s, t1, m + r1);
}

/// What a file contributes, and what follows it, are each one thing.
proof fn lemma_file(a: FileView, b: FileView, x: Seq<char>, y: Seq<char>)
    requires
        token::file_material(a) + x == token::file_material(b) + y,
        next_file(x),
        next_file(y),
    ensures
        a == b,
        x == y,
{
    reveal_strlit("\u{1}");
    reveal_strlit("\u{3}");
    assert(no_edit(x) && no_edit(y));
    let a2 = token::edits_material(a.edits) + x;
    let b2 = token::edits_material(b.edits) + y;
    let a1 = token::measured(a.sha256) + a2;
    let b1 = token::measured(b.sha256) + b2;
    let a0 = token::measured(a.path) + ("\u{2}"@ + a1);
    let b0 = token::measured(b.path) + ("\u{2}"@ + b1);
    lemma_file_read(a, x);
    lemma_file_read(b, y);
    lemma_behind("\u{1}"@, a0, b0);
    lemma_measured(a.path, b.path, "\u{2}"@ + a1, "\u{2}"@ + b1);
    lemma_behind("\u{2}"@, a1, b1);
    lemma_measured(a.sha256, b.sha256, a2, b2);
    lemma_edits(a.edits, b.edits, x, y);
    assert(a =~= b);
}

/// What files contribute begins with what the first of them does.
proof fn lemma_first_file(files: Seq<FileView>)
    requires
        files.len() > 0,
    ensures
        token::files_material(files) == token::file_material(files[0]) + token::files_material(
            files.drop_first(),
        ),
    decreases files.len(),
{
    let rest = files.drop_last();
    if rest.len() > 0 {
        lemma_first_file(rest);
        assert(rest.drop_first() =~= files.drop_first().drop_last());
        assert(files.drop_first().last() == files.last());
        assert(token::files_material(files) =~= token::file_material(files[0])
            + token::files_material(files.drop_first()));
    } else {
        assert(token::files_material(rest) =~= Seq::<char>::empty());
        assert(token::files_material(files.drop_first()) =~= Seq::<char>::empty());
        assert(token::files_material(files) =~= token::file_material(files[0])
            + token::files_material(files.drop_first()));
    }
}

/// What files contribute is nothing, or begins with a file.
proof fn lemma_next_file(files: Seq<FileView>)
    ensures
        next_file(token::files_material(files)),
        files.len() == 0 <==> token::files_material(files).len() == 0,
{
    reveal_strlit("\u{1}");
    if files.len() > 0 {
        lemma_first_file(files);
        let first = token::file_material(files[0]);
        assert(first[0] == '\u{1}');
        assert(token::files_material(files)[0] == first[0]);
    }
}

/// What files contribute tells them apart.
proof fn lemma_files(a: Seq<FileView>, b: Seq<FileView>)
    requires
        token::files_material(a) == token::files_material(b),
    ensures
        a == b,
    decreases a.len(),
{
    lemma_next_file(a);
    lemma_next_file(b);
    if a.len() > 0 {
        lemma_first_file(a);
        lemma_first_file(b);
        lemma_next_file(a.drop_first());
        lemma_next_file(b.drop_first());
        lemma_file(
            a[0],
            b[0],
            token::files_material(a.drop_first()),
            token::files_material(b.drop_first()),
        );
        lemma_files(a.drop_first(), b.drop_first());
        assert(a =~= seq![a[0]] + a.drop_first());
        assert(b =~= seq![b[0]] + b.drop_first());
    } else {
        assert(a =~= b);
    }
}

/// Nothing of a plan is left out of what its fingerprint is made from: two plans with the same
/// material are the same plan, down to every position and every text of every edit.
pub proof fn law_the_material_tells_plans_apart(a: PlanView, b: PlanView)
    requires
        token::material(a) == token::material(b),
    ensures
        a == b,
{
    lemma_measured(
        a.operation,
        b.operation,
        token::files_material(a.files),
        token::files_material(b.files),
    );
    lemma_files(a.files, b.files);
    assert(a =~= b);
}

} // verus!
