//! Relative import specifiers, and what moving a file does to them.
//!
//! Only specifiers that denote a file take part. `./core.js` and `../lib/y` are paths; Rust's
//! `crate::core` and Java's `com.example.Core` are module names that a file move does not
//! rewrite, and treating them as paths would corrupt them. So everything here is gated on the
//! specifier starting with `./` or `../`.
//!
//! The arithmetic is done on segments rather than by string surgery, because `..` that escapes
//! the repository root and `.` segments in the middle both produce specifiers that look plausible
//! and resolve somewhere else.

use crate::text;
use crate::words;
use vstd::prelude::*;
use vstd::string::*;

verus! {

/// The segments of a path.
pub open spec fn segments(path: Seq<char>) -> Seq<Seq<char>> {
    text::split(path, '/')
}

/// The segments of the directory a path is in.
pub open spec fn directory(path: Seq<char>) -> Seq<Seq<char>> {
    segments(path).drop_last()
}

/// Whether a specifier names a file rather than a module.
pub open spec fn relative(specifier: Seq<char>) -> bool {
    text::begins(specifier, "./"@) || text::begins(specifier, "../"@)
}

/// Follows the parts of a specifier from a directory, unless they climb above the root.
pub open spec fn walk(from: Seq<Seq<char>>, parts: Seq<Seq<char>>) -> Option<Seq<Seq<char>>>
    decreases parts.len(),
{
    if parts.len() == 0 {
        Some(from)
    } else if parts[0] == "."@ || parts[0] == ""@ {
        walk(from, parts.drop_first())
    } else if parts[0] == ".."@ {
        if from.len() == 0 {
            None
        } else {
            walk(from.drop_last(), parts.drop_first())
        }
    } else {
        walk(from.push(parts[0]), parts.drop_first())
    }
}

/// The path a specifier denotes in a file, unless it is above the root.
pub open spec fn resolved(importer: Seq<char>, specifier: Seq<char>) -> Option<Seq<char>> {
    match walk(directory(importer), segments(specifier)) {
        Some(path) => Some(words::joined(path, "/"@)),
        None => None,
    }
}

/// How many leading segments two paths share.
pub open spec fn shared(left: Seq<Seq<char>>, right: Seq<Seq<char>>) -> nat
    decreases left.len(),
{
    if left.len() == 0 || right.len() == 0 || left[0] != right[0] {
        0
    } else {
        1 + shared(left.drop_first(), right.drop_first())
    }
}

/// The steps from the directory of a file to a target: the climbs, then what is left to enter.
pub open spec fn route(importer: Seq<char>, target: Seq<char>) -> Seq<Seq<char>> {
    let from = directory(importer);
    let to = segments(target);
    let common = shared(from, to);
    Seq::new((from.len() - common) as nat, |i: int| ".."@) + to.skip(common as int)
}

/// The specifier that reaches a target from a file: the steps of the route, behind `./` unless the
/// first of them climbs. A lone climb ends in the `/` that says it is a path.
pub open spec fn path_between(importer: Seq<char>, target: Seq<char>) -> Seq<char> {
    let steps = route(importer, target);
    if steps.len() > 0 && steps[0] == ".."@ {
        if steps.len() == 1 {
            "../"@
        } else {
            words::joined(steps, "/"@)
        }
    } else {
        "./"@ + words::joined(steps, "/"@)
    }
}

/// Whether a segment is a name, rather than empty or a step.
pub open spec fn plain(segment: Seq<char>) -> bool {
    segment != ""@ && segment != "."@ && segment != ".."@
}

/// Whether the last segment of a specifier names a file type.
pub open spec fn has_extension(specifier: Seq<char>) -> bool {
    let last = segments(specifier).last();
    last.contains('.') && last[0] != '.'
}

/// A path without the extension of its last segment, where it has one. A dot in a directory is
/// part of that directory's name, and so is the dot that a name starts with.
pub open spec fn bare(path: Seq<char>) -> Seq<char> {
    let all = segments(path);
    match text::rsplit(all.last(), '.') {
        Some((stem, _)) => if plain(stem) {
            words::joined(all.drop_last().push(stem), "/"@)
        } else {
            path
        },
        None => path,
    }
}

/// The path that a specifier names for a target: without an extension where the specifier names a
/// file and wrote none. A target that ends with the very name the specifier ends with has no
/// extension beyond it, so the dots in that name stay; and so do those of a directory that a
/// specifier reaches without naming it.
pub open spec fn written(original: Seq<char>, target: Seq<char>) -> Seq<char> {
    let name = segments(original).last();
    if !has_extension(original) && plain(name) && segments(target).last() != name {
        bare(target)
    } else {
        target
    }
}

/// The specifier for a target as written from where a file has moved to.
pub open spec fn rewritten(moved_to: Seq<char>, original: Seq<char>, target: Seq<char>) -> Seq<char> {
    path_between(moved_to, written(original, target))
}

/// Whether a specifier names a file rather than a module.
pub fn is_relative(specifier: &str) -> (found: bool)
    ensures
        found == relative(specifier@),
{
    text::starts_with(specifier, "./") || text::starts_with(specifier, "../")
}

/// A path has at least one segment.
pub proof fn lemma_segments(path: Seq<char>)
    ensures
        segments(path).len() >= 1,
{
}

/// Splits a repository-relative path into its directory segments.
fn directory_of<'a>(path: &'a str) -> (parts: Vec<&'a str>)
    ensures
        text::views(parts@) == directory(path@),
{
    let mut parts = text::split_all(path, 47);
    proof {
        lemma_segments(path@);
        assert(text::views(parts@.drop_last()) =~= text::views(parts@).drop_last());
    }
    let _ = parts.pop();
    parts
}

/// Resolves a relative specifier against the directory of the importing file.
///
/// Returns `None` when the specifier climbs above the repository root: a specifier that cannot be
/// resolved must not be rewritten into one that can.
pub fn resolve(importer: &str, specifier: &str) -> (path: Option<String>)
    ensures
        match (path, resolved(importer@, specifier@)) {
            (Some(found), Some(expected)) => found@ == expected,
            (None, None) => true,
            _ => false,
        },
{
    let mut kept = directory_of(importer);
    let parts = text::split_all(specifier, 47);
    let ghost all = text::views(parts@);
    let mut i: usize = 0;
    assert(all.skip(0) =~= all);
    while i < parts.len()
        invariant
            i <= parts.len(),
            all == text::views(parts@),
            all == segments(specifier@),
            walk(directory(importer@), all) == walk(text::views(kept@), all.skip(i as int)),
        decreases parts.len() - i,
    {
        let part = parts[i];
        proof {
            assert(all.skip(i as int)[0] == part@);
            assert(all.skip(i as int).drop_first() =~= all.skip(i + 1));
        }
        if text::same(part, ".") || text::same(part, "") {
        } else if text::same(part, "..") {
            let ghost before = kept@;
            if kept.len() == 0 {
                return None;
            }
            let _ = kept.pop();
            assert(text::views(before.drop_last()) =~= text::views(before).drop_last());
        } else {
            assert(text::views(kept@.push(part)) =~= text::views(kept@).push(part@));
            kept.push(part);
        }
        i += 1;
    }
    assert(all.skip(i as int).len() == 0);
    Some(words::join(&kept, "/"))
}

/// How many leading segments two paths share.
fn count_shared(left: &Vec<&str>, right: &Vec<&str>) -> (count: usize)
    ensures
        count == shared(text::views(left@), text::views(right@)),
        count <= left@.len(),
        count <= right@.len(),
{
    let ghost a = text::views(left@);
    let ghost b = text::views(right@);
    let mut i: usize = 0;
    proof {
        assert(a.skip(0) =~= a);
        assert(b.skip(0) =~= b);
    }
    while i < left.len() && i < right.len()
        invariant
            a == text::views(left@),
            b == text::views(right@),
            i <= left@.len(),
            i <= right@.len(),
            shared(a, b) == i + shared(a.skip(i as int), b.skip(i as int)),
        decreases left@.len() - i,
    {
        proof {
            assert(a.skip(i as int)[0] == left@[i as int]@);
            assert(b.skip(i as int)[0] == right@[i as int]@);
        }
        if !text::same(left[i], right[i]) {
            return i;
        }
        proof {
            assert(a.skip(i as int).drop_first() =~= a.skip(i + 1));
            assert(b.skip(i as int).drop_first() =~= b.skip(i + 1));
        }
        i += 1;
    }
    i
}

/// The specifier an importer needs to reach a target.
///
/// Always starts with `./` or `../`: a bare `core.js` is a package name in most ecosystems, so
/// emitting one would change what the import means.
pub fn between(importer: &str, target: &str) -> (specifier: String)
    ensures
        specifier@ == path_between(importer@, target@),
{
    let from = directory_of(importer);
    let to = text::split_all(target, 47);
    let common: usize = count_shared(&from, &to);
    let mut parts: Vec<&str> = Vec::new();
    let climbs: usize = from.len() - common;
    while parts.len() < climbs
        invariant
            parts@.len() <= climbs,
            forall|k: int| 0 <= k < parts@.len() ==> #[trigger] parts@[k]@ == ".."@,
        decreases climbs - parts@.len(),
    {
        parts.push("..");
    }
    let mut i: usize = common;
    let ghost steps = route(importer@, target@);
    while i < to.len()
        invariant
            common <= i <= to@.len(),
            text::views(to@) == segments(target@),
            text::views(from@) == directory(importer@),
            common == shared(directory(importer@), segments(target@)),
            common <= from@.len(),
            climbs == from@.len() - common,
            steps == route(importer@, target@),
            parts@.len() == climbs + (i - common),
            text::views(parts@) =~= steps.take(parts@.len() as int),
        decreases to@.len() - i,
    {
        proof {
            assert(text::views(to@)[i as int] == to@[i as int]@);
            assert(steps[parts@.len() as int] == to@[i as int]@);
        }
        parts.push(to[i]);
        i += 1;
    }
    assert(text::views(parts@) =~= steps);
    assert(parts@.len() > 0 ==> parts@[0]@ == steps[0]);
    let joined = words::join(&parts, "/");
    if parts.len() > 0 && text::same(parts[0], "..") {
        if parts.len() == 1 {
            "../".to_owned()
        } else {
            joined
        }
    } else {
        "./".to_owned().concat(joined.as_str())
    }
}

/// Whether the last segment of a specifier names a file type.
fn wrote_extension(specifier: &str) -> (found: bool)
    ensures
        found == has_extension(specifier@),
{
    let parts = text::split_all(specifier, 47);
    proof {
        lemma_segments(specifier@);
    }
    let last = parts[parts.len() - 1];
    assert(text::views(parts@).last() == last@);
    match text::split_once(last, 46) {
        Some((before, _)) => {
            proof {
                assert(last@[before@.len() as int] == '.');
                assert(last@.contains('.'));
                if before@.len() > 0 {
                    assert(before@.contains(before@[0]));
                }
            }
            !before.is_empty()
        },
        None => false,
    }
}

/// The last segment of a path.
fn last_segment<'a>(path: &'a str) -> (last: &'a str)
    ensures
        last@ == segments(path@).last(),
{
    let parts = text::split_all(path, 47);
    proof {
        lemma_segments(path@);
        assert(text::views(parts@).last() == parts@.last()@);
    }
    parts[parts.len() - 1]
}

/// A path without the extension of its last segment, where it has one.
pub fn without_extension(path: &str) -> (out: String)
    ensures
        out@ == bare(path@),
{
    let mut parts = text::split_all(path, 47);
    let ghost all = text::views(parts@);
    proof {
        lemma_segments(path@);
        assert(all.last() == parts@.last()@);
    }
    let last = parts[parts.len() - 1];
    match text::rsplit_once(last, 46) {
        Some((stem, _)) => {
            if !is_plain(stem) {
                return path.to_owned();
            }
            let _ = parts.pop();
            parts.push(stem);
            assert(text::views(parts@) =~= all.drop_last().push(stem@));
            words::join(&parts, "/")
        },
        None => path.to_owned(),
    }
}

/// Whether a segment is a name, rather than empty or a step.
fn is_plain(segment: &str) -> (found: bool)
    ensures
        found == plain(segment@),
{
    !text::same(segment, "") && !text::same(segment, ".") && !text::same(segment, "..")
}

/// The specifier for `resolved` as written from a file that has moved to `moved_to`.
///
/// Extensionless specifiers stay extensionless: a project that omits `.js` does so deliberately
/// and rewriting it to name one changes resolution. Whether the author wrote an extension is read
/// off the last segment: `../v1.2/core` has a dot in it without naming a file type.
pub fn rewrite(moved_to: &str, original: &str, resolved: &str) -> (specifier: String)
    ensures
        specifier@ == rewritten(moved_to@, original@, resolved@),
{
    let name = last_segment(original);
    if !wrote_extension(original) && is_plain(name) && !text::same(last_segment(resolved), name) {
        let stem = without_extension(resolved);
        between(moved_to, stem.as_str())
    } else {
        between(moved_to, resolved)
    }
}

/// Splitting what was joined gives the parts back.
pub proof fn lemma_split_joined(parts: Seq<Seq<char>>)
    requires
        parts.len() > 0,
        forall|i: int| 0 <= i < parts.len() ==> !(#[trigger] parts[i]).contains('/'),
    ensures
        segments(words::joined(parts, "/"@)) == parts,
    decreases parts.len(),
{
    reveal_strlit("/");
    let whole = words::joined(parts, "/"@);
    if parts.len() == 1 {
        text::lemma_index_of(parts[0], '/', Seq::empty());
        assert(segments(whole) =~= parts);
    } else {
        lemma_joined_first(parts);
        let rest = parts.drop_first();
        assert forall|i: int| 0 <= i < rest.len() implies !(#[trigger] rest[i]).contains('/') by {
            assert(rest[i] == parts[i + 1]);
        }
        lemma_split_joined(rest);
        let tail = words::joined(rest, "/"@);
        assert(!parts[0].contains('/'));
        text::lemma_index_of(parts[0], '/', tail);
        assert(whole =~= parts[0] + seq!['/'] + tail);
        assert(whole.take(parts[0].len() as int) =~= parts[0]);
        assert(whole.skip(parts[0].len() as int + 1) =~= tail);
        assert(segments(whole) =~= seq![parts[0]] + rest);
        assert(seq![parts[0]] + rest =~= parts);
    }
}

/// Joining may start from the first part as well as from the last.
proof fn lemma_joined_first(parts: Seq<Seq<char>>)
    requires
        parts.len() > 1,
    ensures
        words::joined(parts, "/"@) == parts[0] + "/"@ + words::joined(parts.drop_first(), "/"@),
    decreases parts.len(),
{
    let rest = parts.drop_first();
    if parts.len() == 2 {
        assert(parts.drop_last() =~= seq![parts[0]]);
        assert(rest =~= seq![parts[1]]);
        assert(words::joined(parts.drop_last(), "/"@) == parts[0]);
    } else {
        lemma_joined_first(parts.drop_last());
        assert(parts.drop_last().drop_first() =~= rest.drop_last());
        assert(words::joined(parts, "/"@) =~= parts[0] + "/"@ + (words::joined(
            rest.drop_last(),
            "/"@,
        ) + "/"@ + rest.last()));
    }
}

/// The pieces of a text hold no separator, and joining them gives the text back.
pub proof fn lemma_joined_split(path: Seq<char>)
    ensures
        segments(path).len() > 0,
        forall|i: int| 0 <= i < segments(path).len() ==> !(#[trigger] segments(path)[i]).contains('/'),
        words::joined(segments(path), "/"@) == path,
    decreases path.len(),
{
    reveal_strlit("/");
    let at = text::index_of(path, '/') as int;
    let parts = segments(path);
    lemma_before_first(path, '/');
    if at >= path.len() {
        assert(parts =~= seq![path]);
        assert(path.take(at) =~= path);
    } else {
        let head = path.take(at);
        let tail = path.skip(at + 1);
        lemma_joined_split(tail);
        assert(parts =~= seq![head] + segments(tail));
        assert(parts.drop_first() =~= segments(tail));
        assert forall|i: int| 0 <= i < parts.len() implies !(#[trigger] parts[i]).contains('/') by {
            if i > 0 {
                assert(parts[i] == segments(tail)[i - 1]);
            }
        }
        lemma_joined_first(parts);
        assert(path =~= head + "/"@ + tail);
    }
}

/// Nothing before the first occurrence of a character is that character.
proof fn lemma_before_first(t: Seq<char>, c: char)
    ensures
        text::index_of(t, c) <= t.len(),
        !t.take(text::index_of(t, c) as int).contains(c),
        text::index_of(t, c) < t.len() ==> t[text::index_of(t, c) as int] == c,
    decreases t.len(),
{
    if t.len() > 0 && t[0] != c {
        let rest = t.drop_first();
        lemma_before_first(rest, c);
        let at = text::index_of(t, c) as int;
        if t.take(at).contains(c) {
            let i = choose|i: int| 0 <= i < at && t.take(at)[i] == c;
            assert(i > 0);
            assert(rest.take(at - 1)[i - 1] == c);
        }
    }
}

/// Entering plain names appends them.
proof fn lemma_walk_names(from: Seq<Seq<char>>, names: Seq<Seq<char>>)
    requires
        forall|i: int| 0 <= i < names.len() ==> plain(#[trigger] names[i]),
    ensures
        walk(from, names) == Some(from + names),
    decreases names.len(),
{
    if names.len() == 0 {
        assert(from + names =~= from);
    } else {
        let rest = names.drop_first();
        assert(plain(names[0]));
        assert forall|i: int| 0 <= i < rest.len() implies plain(#[trigger] rest[i]) by {
            assert(rest[i] == names[i + 1]);
        }
        lemma_walk_names(from.push(names[0]), rest);
        assert(from.push(names[0]) + rest =~= from + names);
    }
}

/// Climbing as often as there are segments to leave keeps the ones before them.
proof fn lemma_walk_climbs(from: Seq<Seq<char>>, climbs: nat, rest: Seq<Seq<char>>)
    requires
        climbs <= from.len(),
    ensures
        walk(from, Seq::new(climbs, |i: int| ".."@) + rest) == walk(
            from.take(from.len() - climbs),
            rest,
        ),
    decreases climbs,
{
    reveal_strlit("..");
    reveal_strlit(".");
    reveal_strlit("");
    let parts = Seq::new(climbs, |i: int| ".."@) + rest;
    if climbs == 0 {
        assert(parts =~= rest);
        assert(from.take(from.len() as int) =~= from);
    } else {
        let fewer = (climbs - 1) as nat;
        assert(parts[0] == ".."@);
        assert(parts.drop_first() =~= Seq::new(fewer, |i: int| ".."@) + rest);
        lemma_walk_climbs(from.drop_last(), fewer, rest);
        assert(from.drop_last().take(from.len() - 1 - fewer) =~= from.take(from.len() - climbs));
        assert(".."@[1] == '.');
        assert(".."@.len() == 2);
        assert("."@.len() == 1);
        assert(""@.len() == 0);
    }
}

/// Shared segments are equal.
proof fn lemma_shared(left: Seq<Seq<char>>, right: Seq<Seq<char>>)
    ensures
        shared(left, right) <= left.len(),
        shared(left, right) <= right.len(),
        left.take(shared(left, right) as int) == right.take(shared(left, right) as int),
    decreases left.len(),
{
    let n = shared(left, right) as int;
    if n > 0 {
        lemma_shared(left.drop_first(), right.drop_first());
        assert forall|i: int| 0 <= i < n implies left[i] == right[i] by {
            if i > 0 {
                assert(left.drop_first().take(n - 1)[i - 1] == left[i]);
                assert(right.drop_first().take(n - 1)[i - 1] == right[i]);
            }
        }
        assert(left.take(n) =~= right.take(n));
    } else {
        assert(left.take(0) =~= right.take(0));
    }
}

/// Whether a path is normalised: it is the root, or every segment of it is a name.
pub open spec fn normal(path: Seq<char>) -> bool {
    path.len() == 0 || forall|i: int|
        0 <= i < segments(path).len() ==> plain(#[trigger] segments(path)[i])
}

/// The steps of a route lead from the importer's directory to the target.
proof fn lemma_route(importer: Seq<char>, target: Seq<char>)
    requires
        normal(target),
    ensures
        forall|i: int|
            0 <= i < route(importer, target).len() ==> !(#[trigger] route(
                importer,
                target,
            )[i]).contains('/'),
        walk(directory(importer), route(importer, target)) matches Some(end) && words::joined(
            end,
            "/"@,
        ) == target,
{
    reveal_strlit("..");
    reveal_strlit("");
    let from = directory(importer);
    let to = segments(target);
    let common = shared(from, to);
    lemma_shared(from, to);
    lemma_joined_split(target);
    let climbs = (from.len() - common) as nat;
    let left = to.skip(common as int);
    let steps = route(importer, target);
    assert forall|i: int| 0 <= i < steps.len() implies !(#[trigger] steps[i]).contains('/') by {
        if i >= climbs {
            assert(steps[i] == to[i - climbs + common]);
        } else {
            assert(steps[i] == ".."@);
        }
    }
    lemma_walk_climbs(from, climbs, left);
    let stayed = from.take(common as int);
    if target.len() == 0 {
        assert(to =~= seq![target]);
        assert(target =~= ""@);
        if common == 0 {
            assert(left =~= to);
            assert(left.drop_first() =~= Seq::<Seq<char>>::empty());
            assert(walk(stayed, left) == walk(stayed, left.drop_first()));
            assert(stayed =~= Seq::<Seq<char>>::empty());
        } else {
            assert(left =~= Seq::<Seq<char>>::empty());
            assert(stayed =~= to.take(common as int));
            assert(stayed =~= to);
        }
    } else {
        assert forall|i: int| 0 <= i < left.len() implies plain(#[trigger] left[i]) by {
            assert(left[i] == to[i + common]);
        }
        lemma_walk_names(stayed, left);
        assert(stayed + left =~= to);
    }
}

/// A `.` before the steps changes nothing.
proof fn lemma_dotted(from: Seq<Seq<char>>, steps: Seq<Seq<char>>)
    requires
        forall|i: int| 0 <= i < steps.len() ==> !(#[trigger] steps[i]).contains('/'),
    ensures
        walk(from, segments("./"@ + words::joined(steps, "/"@))) == walk(from, steps),
        steps.len() > 0 ==> segments("./"@ + words::joined(steps, "/"@)) == seq!["."@] + steps,
        steps.len() == 0 ==> segments("./"@ + words::joined(steps, "/"@)) == seq!["."@, ""@],
{
    reveal_strlit("./");
    reveal_strlit(".");
    reveal_strlit("/");
    reveal_strlit("");
    let path = "./"@ + words::joined(steps, "/"@);
    if steps.len() == 0 {
        assert(path =~= "./"@);
        let two = seq!["."@, ""@];
        lemma_split_joined(two);
        assert(two.drop_last() =~= seq!["."@]);
        assert(words::joined(two.drop_last(), "/"@) == "."@);
        assert(words::joined(two, "/"@) =~= "./"@);
        assert(walk(from, two) == walk(from, two.drop_first()));
        assert(two.drop_first()[0] == ""@);
        assert(walk(from, two.drop_first()) == walk(from, two.drop_first().drop_first()));
        assert(two.drop_first().drop_first() =~= steps);
    } else {
        let dotted = seq!["."@] + steps;
        assert forall|i: int| 0 <= i < dotted.len() implies !(#[trigger] dotted[i]).contains(
            '/',
        ) by {
            if i > 0 {
                assert(dotted[i] == steps[i - 1]);
            }
        }
        lemma_split_joined(dotted);
        lemma_joined_first(dotted);
        assert(dotted.drop_first() =~= steps);
        assert("./"@ =~= "."@ + "/"@);
        assert(path =~= words::joined(dotted, "/"@));
        assert(walk(from, dotted) == walk(from, dotted.drop_first()));
    }
}

/// A lone climb and the `/` behind it are one step.
proof fn lemma_lone_climb(from: Seq<Seq<char>>)
    ensures
        segments("../"@) == seq![".."@, ""@],
        walk(from, segments("../"@)) == walk(from, seq![".."@]),
{
    reveal_strlit("../");
    reveal_strlit("..");
    reveal_strlit(".");
    reveal_strlit("/");
    reveal_strlit("");
    let two = seq![".."@, ""@];
    lemma_split_joined(two);
    assert(two.drop_last() =~= seq![".."@]);
    assert(words::joined(two.drop_last(), "/"@) == ".."@);
    assert(words::joined(two, "/"@) =~= "../"@);
    assert(".."@.len() == 2 && "."@.len() == 1 && ""@.len() == 0);
    if from.len() > 0 {
        let up = from.drop_last();
        let rest = two.drop_first();
        assert(rest =~= seq![""@]);
        assert(walk(up, rest) == walk(up, rest.drop_first()));
        assert(rest.drop_first() =~= Seq::<Seq<char>>::empty());
        assert(seq![".."@].drop_first() =~= Seq::<Seq<char>>::empty());
    }
}

/// Following the specifier between two files is following the route between them.
proof fn lemma_path_between(importer: Seq<char>, target: Seq<char>)
    requires
        normal(target),
    ensures
        ({
            let steps = route(importer, target);
            let parts = segments(path_between(importer, target));
            &&& walk(directory(importer), parts) == walk(directory(importer), steps)
            &&& parts == steps || parts == seq!["."@] + steps || (steps.len() == 0 && parts == seq![
                "."@,
                ""@,
            ]) || (steps == seq![".."@] && parts == seq![".."@, ""@])
        }),
{
    let from = directory(importer);
    let steps = route(importer, target);
    lemma_route(importer, target);
    if steps.len() > 0 && steps[0] == ".."@ {
        if steps.len() == 1 {
            assert(steps =~= seq![".."@]);
            lemma_lone_climb(from);
        } else {
            lemma_split_joined(steps);
        }
    } else {
        lemma_dotted(from, steps);
    }
}

/// The specifier between two files leads back to the target, whatever directory the importer is
/// in, where the target is normalised.
pub proof fn law_between_resolves(importer: Seq<char>, target: Seq<char>)
    requires
        normal(target),
    ensures
        resolved(importer, path_between(importer, target)) == Some(target),
{
    lemma_route(importer, target);
    lemma_path_between(importer, target);
}

/// The specifier between two files always says that it is a path: it starts with `./` or `../`.
pub proof fn law_between_is_relative(importer: Seq<char>, target: Seq<char>)
    ensures
        relative(path_between(importer, target)),
{
    reveal_strlit("..");
    reveal_strlit("../");
    reveal_strlit("./");
    reveal_strlit("/");
    let steps = route(importer, target);
    let path = path_between(importer, target);
    if steps.len() > 0 && steps[0] == ".."@ {
        if steps.len() > 1 {
            lemma_joined_first(steps);
        }
        assert(path.take(3) =~= "../"@);
    } else {
        assert(path.take(2) =~= "./"@);
    }
}

/// What is left of a path without its extension is still normalised, and the extension is all that
/// is gone.
pub proof fn lemma_bare(path: Seq<char>)
    requires
        normal(path),
    ensures
        normal(bare(path)),
        bare(path) == path || exists|extension: Seq<char>|
            path == bare(path) + seq!['.'] + extension && segments(path).last() == #[trigger] (
            segments(bare(path)).last() + seq!['.'] + extension),
        bare(path) != path ==> plain(segments(bare(path)).last()) && segments(path).last()
            != segments(bare(path)).last(),
{
    let all = segments(path);
    lemma_joined_split(path);
    match text::rsplit(all.last(), '.') {
        Some((stem, extension)) => if plain(stem) {
            let last = all.last();
            let at = text::last_index_of(last, '.');
            lemma_last_index(last, '.');
            assert(last =~= stem + seq!['.'] + extension);
            assert(last =~= stem + (seq!['.'] + extension));
            let names = all.drop_last().push(stem);
            assert forall|i: int| 0 <= i < names.len() implies !(#[trigger] names[i]).contains(
                '/',
            ) by {
                if i < names.len() - 1 {
                    assert(names[i] == all[i]);
                } else if stem.contains('/') {
                    let k = choose|k: int| 0 <= k < stem.len() && stem[k] == '/';
                    assert(all[all.len() - 1][k] == '/');
                }
            }
            lemma_split_joined(names);
            lemma_joined_last(all.drop_last(), stem, seq!['.'] + extension);
            assert(all.drop_last().push(stem + (seq!['.'] + extension)) =~= all);
            assert(path =~= bare(path) + seq!['.'] + extension);
            assert(segments(bare(path)) == names);
            assert forall|i: int| 0 <= i < names.len() implies plain(#[trigger] names[i]) by {
                if i < names.len() - 1 {
                    assert(names[i] == all[i]);
                    if path.len() == 0 {
                        assert(all =~= seq![path]);
                    }
                }
            }
            assert(segments(path).last() == segments(bare(path)).last() + seq!['.'] + extension);
            assert(last.len() > stem.len());
        },
        None => {},
    }
}

/// A character stands where it last stands.
proof fn lemma_last_index(t: Seq<char>, c: char)
    ensures
        -1 <= text::last_index_of(t, c) < t.len(),
        text::last_index_of(t, c) >= 0 ==> t[text::last_index_of(t, c)] == c,
    decreases t.len(),
{
    if t.len() > 0 && t.last() != c {
        lemma_last_index(t.drop_last(), c);
    }
}

/// Joining parts ends with the end of the last one.
proof fn lemma_joined_last(front: Seq<Seq<char>>, head: Seq<char>, tail: Seq<char>)
    ensures
        words::joined(front.push(head + tail), "/"@) == words::joined(front.push(head), "/"@)
            + tail,
{
    assert(front.push(head + tail).drop_last() =~= front);
    assert(front.push(head).drop_last() =~= front);
    if front.len() > 0 {
        assert(words::joined(front, "/"@) + "/"@ + (head + tail) =~= words::joined(front, "/"@)
            + "/"@ + head + tail);
    }
}

/// Walking from names ends at names, none with a separator in it; and where the last part is a
/// name, the walk ends with it.
proof fn lemma_walk_ends(from: Seq<Seq<char>>, parts: Seq<Seq<char>>)
    requires
        forall|i: int|
            0 <= i < from.len() ==> plain(#[trigger] from[i]) && !from[i].contains('/'),
        forall|i: int| 0 <= i < parts.len() ==> !(#[trigger] parts[i]).contains('/'),
    ensures
        walk(from, parts) matches Some(end) ==> {
            &&& forall|i: int|
                0 <= i < end.len() ==> plain(#[trigger] end[i]) && !end[i].contains('/')
            &&& parts.len() > 0 && plain(parts.last()) ==> end.len() > 0 && end.last()
                == parts.last()
        },
    decreases parts.len(),
{
    if parts.len() > 0 {
        let rest = parts.drop_first();
        assert forall|i: int| 0 <= i < rest.len() implies !(#[trigger] rest[i]).contains('/') by {
            assert(rest[i] == parts[i + 1]);
        }
        assert(rest.len() > 0 ==> rest.last() == parts.last());
        if parts[0] == "."@ || parts[0] == ""@ {
            lemma_walk_ends(from, rest);
        } else if parts[0] == ".."@ {
            if from.len() > 0 {
                let up = from.drop_last();
                assert forall|i: int| 0 <= i < up.len() implies plain(#[trigger] up[i])
                    && !up[i].contains('/') by {
                    assert(up[i] == from[i]);
                }
                lemma_walk_ends(up, rest);
            }
        } else {
            let down = from.push(parts[0]);
            assert(!parts[0].contains('/'));
            assert forall|i: int| 0 <= i < down.len() implies plain(#[trigger] down[i])
                && !down[i].contains('/') by {
                if i < from.len() {
                    assert(down[i] == from[i]);
                }
            }
            lemma_walk_ends(down, rest);
        }
    }
}

/// What a specifier resolves to from a normalised file is normalised, and ends with the last part
/// of the specifier where that is a name.
proof fn lemma_resolved(importer: Seq<char>, specifier: Seq<char>)
    requires
        normal(importer),
    ensures
        resolved(importer, specifier) matches Some(target) ==> {
            &&& normal(target)
            &&& plain(segments(specifier).last()) ==> segments(target).last() == segments(
                specifier,
            ).last()
        },
{
    let from = directory(importer);
    let parts = segments(specifier);
    lemma_joined_split(importer);
    lemma_joined_split(specifier);
    assert forall|i: int| 0 <= i < from.len() implies plain(#[trigger] from[i])
        && !from[i].contains('/') by {
        assert(from[i] == segments(importer)[i]);
        if importer.len() == 0 {
            assert(segments(importer) =~= seq![importer]);
        }
    }
    lemma_walk_ends(from, parts);
    match walk(from, parts) {
        Some(end) => {
            if end.len() > 0 {
                lemma_split_joined(end);
            }
        },
        None => {},
    }
}

/// Rewriting for a moved file keeps what the specifier denotes: what it resolved to from where the
/// file was, it resolves to from where the file is.
pub proof fn law_rewrite_resolves(
    old_path: Seq<char>,
    moved_to: Seq<char>,
    original: Seq<char>,
    target: Seq<char>,
)
    requires
        normal(old_path),
        resolved(old_path, original) == Some(target),
    ensures
        resolved(moved_to, rewritten(moved_to, original, target)) == Some(target),
{
    lemma_resolved(old_path, original);
    lemma_bare(target);
    law_between_resolves(moved_to, target);
}

/// Rewriting keeps the style of a specifier: one that names a file and wrote no extension leads to
/// the target without the extension it has beyond that name, and any other to the target.
pub proof fn law_rewrite_keeps_the_style(
    moved_to: Seq<char>,
    original: Seq<char>,
    target: Seq<char>,
)
    requires
        normal(target),
    ensures
        resolved(moved_to, rewritten(moved_to, original, target)) == Some(
            written(original, target),
        ),
        has_extension(original) ==> written(original, target) == target,
        !has_extension(original) && plain(segments(original).last()) && segments(target).last()
            != segments(original).last() ==> written(original, target) == bare(target),
{
    lemma_bare(target);
    law_between_resolves(moved_to, written(original, target));
}

/// How many of some parts climb.
pub open spec fn climbs(parts: Seq<Seq<char>>) -> nat
    decreases parts.len(),
{
    if parts.len() == 0 {
        0
    } else {
        climbs(parts.drop_last()) + if parts.last() == ".."@ {
            1nat
        } else {
            0
        }
    }
}

/// How many of some parts go anywhere: those other than `.` and nothing.
pub open spec fn moves(parts: Seq<Seq<char>>) -> nat
    decreases parts.len(),
{
    if parts.len() == 0 {
        0
    } else {
        moves(parts.drop_last()) + if parts.last() == "."@ || parts.last() == ""@ {
            0nat
        } else {
            1
        }
    }
}

/// Counting parts may start from the first as well as from the last.
proof fn lemma_counts_first(parts: Seq<Seq<char>>)
    requires
        parts.len() > 0,
    ensures
        climbs(parts) == climbs(seq![parts[0]]) + climbs(parts.drop_first()),
        moves(parts) == moves(seq![parts[0]]) + moves(parts.drop_first()),
    decreases parts.len(),
{
    if parts.len() == 1 {
        assert(parts =~= seq![parts[0]]);
        assert(parts.drop_first() =~= Seq::<Seq<char>>::empty());
        assert(climbs(parts.drop_first()) == 0);
        assert(moves(parts.drop_first()) == 0);
    } else {
        lemma_counts_first(parts.drop_last());
        assert(parts.drop_last().drop_first() =~= parts.drop_first().drop_last());
    }
}

/// One part is counted as what it is.
proof fn lemma_counts_one(part: Seq<char>)
    ensures
        climbs(seq![part]) == (if part == ".."@ {
            1nat
        } else {
            0
        }),
        moves(seq![part]) == (if part == "."@ || part == ""@ {
            0nat
        } else {
            1
        }),
{
    assert(seq![part].last() == part);
    assert(seq![part].drop_last() =~= Seq::<Seq<char>>::empty());
    assert(climbs(seq![part].drop_last()) == 0);
    assert(moves(seq![part].drop_last()) == 0);
}

/// A walk leaves no more of where it started than it climbs, and ends as far down as its names
/// outnumber its climbs.
proof fn lemma_walk_keeps(from: Seq<Seq<char>>, parts: Seq<Seq<char>>)
    ensures
        walk(from, parts) matches Some(end) ==> {
            let kept = from.len() - climbs(parts);
            &&& end.len() == from.len() + moves(parts) - 2 * climbs(parts)
            &&& climbs(parts) <= moves(parts)
            &&& kept <= end.len()
            &&& kept >= 0 ==> from.take(kept) == end.take(kept)
        },
    decreases parts.len(),
{
    reveal_strlit("..");
    reveal_strlit(".");
    reveal_strlit("");
    if parts.len() > 0 {
        let rest = parts.drop_first();
        lemma_counts_first(parts);
        lemma_counts_one(parts[0]);
        assert(".."@.len() == 2 && "."@.len() == 1 && ""@.len() == 0);
        if parts[0] == "."@ || parts[0] == ""@ {
            lemma_walk_keeps(from, rest);
        } else if parts[0] == ".."@ {
            if from.len() > 0 {
                lemma_walk_keeps(from.drop_last(), rest);
                match walk(from, parts) {
                    Some(end) => {
                        let kept = from.len() - climbs(parts);
                        if kept >= 0 {
                            assert(from.drop_last().take(kept) =~= from.take(kept));
                        }
                    },
                    None => {},
                }
            }
        } else {
            let down = from.push(parts[0]);
            lemma_walk_keeps(down, rest);
            match walk(from, parts) {
                Some(end) => {
                    let kept = from.len() - climbs(parts);
                    if kept >= 0 {
                        assert(from.take(kept) =~= down.take(kept + 1).take(kept));
                        assert(end.take(kept) =~= end.take(kept + 1).take(kept));
                    }
                },
                None => {},
            }
        }
    } else {
        assert(climbs(parts) == 0);
        assert(moves(parts) == 0);
    }
}

/// Segments that are equal are shared.
proof fn lemma_shared_at_least(left: Seq<Seq<char>>, right: Seq<Seq<char>>, count: int)
    requires
        0 <= count <= left.len(),
        count <= right.len(),
        left.take(count) == right.take(count),
    ensures
        shared(left, right) >= count,
    decreases count,
{
    if count > 0 {
        assert(left[0] == left.take(count)[0]);
        assert(right[0] == right.take(count)[0]);
        assert(left.drop_first().take(count - 1) =~= left.take(count).drop_first());
        assert(right.drop_first().take(count - 1) =~= right.take(count).drop_first());
        lemma_shared_at_least(left.drop_first(), right.drop_first(), count - 1);
    }
}

/// Climbs are counted as climbs and names as names.
proof fn lemma_counts_route(count: nat, names: Seq<Seq<char>>)
    requires
        forall|i: int| 0 <= i < names.len() ==> plain(#[trigger] names[i]),
    ensures
        climbs(Seq::new(count, |i: int| ".."@) + names) == count,
        moves(Seq::new(count, |i: int| ".."@) + names) == count + names.len(),
    decreases count + names.len(),
{
    reveal_strlit("..");
    reveal_strlit(".");
    reveal_strlit("");
    assert(".."@.len() == 2 && "."@.len() == 1 && ""@.len() == 0);
    let parts = Seq::new(count, |i: int| ".."@) + names;
    if names.len() > 0 {
        let fewer = names.drop_last();
        assert forall|i: int| 0 <= i < fewer.len() implies plain(#[trigger] fewer[i]) by {
            assert(fewer[i] == names[i]);
        }
        lemma_counts_route(count, fewer);
        assert(parts.drop_last() =~= Seq::new(count, |i: int| ".."@) + fewer);
        assert(parts.last() == names[names.len() - 1]);
    } else if count > 0 {
        let less = (count - 1) as nat;
        lemma_counts_route(less, names);
        assert(parts.drop_last() =~= Seq::new(less, |i: int| ".."@) + names);
        assert(parts.last() == ".."@);
    } else {
        assert(parts.len() == 0);
    }
}

/// The specifier between two files climbs only to the deepest directory they share: no specifier
/// that reaches the target from the importer has fewer climbs, or fewer parts that go anywhere.
pub proof fn law_between_is_shortest(
    importer: Seq<char>,
    target: Seq<char>,
    specifier: Seq<char>,
)
    requires
        target.len() > 0,
        normal(target),
        resolved(importer, specifier) == Some(target),
    ensures
        climbs(segments(path_between(importer, target))) <= climbs(segments(specifier)),
        moves(segments(path_between(importer, target))) <= moves(segments(specifier)),
{
    reveal_strlit("..");
    reveal_strlit(".");
    reveal_strlit("");
    let from = directory(importer);
    let to = segments(target);
    let parts = segments(specifier);
    let end = walk(from, parts)->0;
    lemma_joined_split(importer);
    lemma_joined_split(specifier);
    lemma_walk_unbroken(from, parts);
    if end.len() > 0 {
        lemma_split_joined(end);
    }
    assert(end == to);
    lemma_walk_keeps(from, parts);
    let common = shared(from, to);
    lemma_shared(from, to);
    let kept = from.len() - climbs(parts);
    if kept >= 0 {
        lemma_shared_at_least(from, to, kept);
    }
    let count = (from.len() - common) as nat;
    assert(count <= climbs(parts));
    let left = to.skip(common as int);
    assert forall|i: int| 0 <= i < left.len() implies plain(#[trigger] left[i]) by {
        assert(left[i] == to[i + common]);
    }
    lemma_counts_route(count, left);
    let steps = route(importer, target);
    let path = segments(path_between(importer, target));
    lemma_path_between(importer, target);
    assert(".."@.len() == 2 && "."@.len() == 1 && ""@.len() == 0);
    if path == steps {
    } else if path == seq!["."@] + steps {
        lemma_counts_first(path);
        lemma_counts_one("."@);
        assert(path.drop_first() =~= steps);
    } else if steps.len() == 0 {
        lemma_counts_first(path);
        lemma_counts_one("."@);
        lemma_counts_one(""@);
        assert(path.drop_first() =~= seq![""@]);
    } else {
        lemma_counts_first(path);
        lemma_counts_one(".."@);
        lemma_counts_one(""@);
        assert(path.drop_first() =~= seq![""@]);
    }
}

/// A walk over parts without separators ends at segments without separators.
proof fn lemma_walk_unbroken(from: Seq<Seq<char>>, parts: Seq<Seq<char>>)
    requires
        forall|i: int| 0 <= i < from.len() ==> !(#[trigger] from[i]).contains('/'),
        forall|i: int| 0 <= i < parts.len() ==> !(#[trigger] parts[i]).contains('/'),
    ensures
        walk(from, parts) matches Some(end) ==> forall|i: int|
            0 <= i < end.len() ==> !(#[trigger] end[i]).contains('/'),
    decreases parts.len(),
{
    if parts.len() > 0 {
        let rest = parts.drop_first();
        assert forall|i: int| 0 <= i < rest.len() implies !(#[trigger] rest[i]).contains('/') by {
            assert(rest[i] == parts[i + 1]);
        }
        if parts[0] == "."@ || parts[0] == ""@ {
            lemma_walk_unbroken(from, rest);
        } else if parts[0] == ".."@ {
            if from.len() > 0 {
                lemma_walk_unbroken(from.drop_last(), rest);
            }
        } else {
            assert(!parts[0].contains('/'));
            lemma_walk_unbroken(from.push(parts[0]), rest);
        }
    }
}

/// How far the parts of a specifier go down, climbs counting against names.
pub open spec fn depth(parts: Seq<Seq<char>>) -> int
    decreases parts.len(),
{
    if parts.len() == 0 {
        0
    } else {
        let last = parts.last();
        depth(parts.drop_last()) + if last == ".."@ {
            -1int
        } else if plain(last) {
            1
        } else {
            0
        }
    }
}

/// The depth of a sequence of parts counts the first part once.
proof fn lemma_depth_first(parts: Seq<Seq<char>>)
    requires
        parts.len() > 0,
    ensures
        depth(parts) == depth(seq![parts[0]]) + depth(parts.drop_first()),
    decreases parts.len(),
{
    if parts.len() == 1 {
        assert(parts =~= seq![parts[0]]);
        assert(depth(parts.drop_first()) == 0);
    } else {
        lemma_depth_first(parts.drop_last());
        assert(parts.drop_last().drop_first() =~= parts.drop_first().drop_last());
    }
}

/// A specifier resolves to nothing exactly where some prefix of it has climbed above the root.
pub proof fn law_escape_is_refused(importer: Seq<char>, specifier: Seq<char>)
    ensures
        resolved(importer, specifier) is None <==> exists|k: int|
            0 <= k <= segments(specifier).len() && directory(importer).len() + depth(
                #[trigger] segments(specifier).take(k),
            ) < 0,
{
    lemma_walk_refused(directory(importer), segments(specifier));
}

/// Walking fails exactly where some prefix of the parts has climbed above the root.
proof fn lemma_walk_refused(from: Seq<Seq<char>>, parts: Seq<Seq<char>>)
    ensures
        walk(from, parts) is None <==> exists|k: int|
            0 <= k <= parts.len() && from.len() + depth(#[trigger] parts.take(k)) < 0,
    decreases parts.len(),
{
    reveal_strlit("..");
    reveal_strlit(".");
    reveal_strlit("");
    if parts.len() == 0 {
        assert forall|k: int| 0 <= k <= parts.len() implies from.len() + depth(
            #[trigger] parts.take(k),
        ) >= 0 by {}
    } else {
        let first = seq![parts[0]];
        let rest = parts.drop_first();
        assert(first.last() == parts[0]);
        assert(depth(first.drop_last()) == 0);
        assert forall|k: int| 1 <= k <= parts.len() implies depth(#[trigger] parts.take(k)) == depth(
            first,
        ) + depth(rest.take(k - 1)) by {
            lemma_depth_first(parts.take(k));
            assert(parts.take(k).drop_first() =~= rest.take(k - 1));
        }
        assert(depth(parts.take(0)) == 0);
        if parts[0] == ".."@ && from.len() == 0 {
            assert(parts.take(1) =~= first);
            assert(from.len() + depth(parts.take(1)) < 0);
        } else {
            let next = if parts[0] == "."@ || parts[0] == ""@ {
                from
            } else if parts[0] == ".."@ {
                from.drop_last()
            } else {
                from.push(parts[0])
            };
            lemma_walk_refused(next, rest);
            assert(".."@.len() == 2);
            assert("."@.len() == 1);
            assert(""@.len() == 0);
            assert(next.len() == from.len() + depth(first));
            if walk(from, parts) is None {
                let k = choose|k: int|
                    0 <= k <= rest.len() && next.len() + depth(#[trigger] rest.take(k)) < 0;
                assert(from.len() + depth(parts.take(k + 1)) < 0);
            }
            if exists|k: int|
                0 <= k <= parts.len() && from.len() + depth(#[trigger] parts.take(k)) < 0 {
                let k = choose|k: int|
                    0 <= k <= parts.len() && from.len() + depth(#[trigger] parts.take(k)) < 0;
                assert(k > 0);
                assert(next.len() + depth(rest.take(k - 1)) < 0);
            }
        }
    }
}

} // verus!
