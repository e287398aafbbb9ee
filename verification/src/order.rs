//! Ordered sets and maps, kept as ascending lists.
//!
//! Texts are ordered by their bytes, one after another. What is put in a second time changes
//! nothing, so an ascending list holds each of its members once.

use crate::text;
use vstd::prelude::*;
use vstd::string::*;

verus! {

/// Whether one byte sequence comes before another.
pub open spec fn bytes_before(a: Seq<u8>, b: Seq<u8>) -> bool
    decreases a.len(),
{
    if b.len() == 0 {
        false
    } else if a.len() == 0 {
        true
    } else if a[0] != b[0] {
        a[0] < b[0]
    } else {
        bytes_before(a.drop_first(), b.drop_first())
    }
}

/// Whether one text comes before another.
pub open spec fn before(a: Seq<char>, b: Seq<char>) -> bool {
    bytes_before(text::bytes(a), text::bytes(b))
}

/// An ascending list with one more text in its place, unless it is there already.
pub open spec fn inserted(list: Seq<Seq<char>>, item: Seq<char>) -> Seq<Seq<char>>
    decreases list.len(),
{
    if list.len() == 0 {
        seq![item]
    } else if list[0] == item {
        list
    } else if before(item, list[0]) {
        seq![item] + list
    } else {
        seq![list[0]] + inserted(list.drop_first(), item)
    }
}

/// The texts of a list in ascending order, each once.
pub open spec fn sorted(items: Seq<Seq<char>>) -> Seq<Seq<char>>
    decreases items.len(),
{
    if items.len() == 0 {
        Seq::empty()
    } else {
        inserted(sorted(items.drop_last()), items.last())
    }
}

/// Whether each text of a list comes before the next.
pub open spec fn ascending(list: Seq<Seq<char>>) -> bool {
    forall|i: int, j: int| 0 <= i < j < list.len() ==> before(#[trigger] list[i], #[trigger] list[j])
}

/// An ascending list of numbers with one more in its place, unless it is there already.
pub open spec fn number_inserted(list: Seq<u32>, item: u32) -> Seq<u32>
    decreases list.len(),
{
    if list.len() == 0 {
        seq![item]
    } else if list[0] == item {
        list
    } else if item < list[0] {
        seq![item] + list
    } else {
        seq![list[0]] + number_inserted(list.drop_first(), item)
    }
}

/// A file and the lines of it that matter, in ascending order.
pub struct FileLines {
    pub file: String,
    pub lines: Vec<u32>,
}

/// Files and their lines as mathematical values.
pub open spec fn lines_view(files: Seq<FileLines>) -> Seq<(Seq<char>, Seq<u32>)> {
    Seq::new(files.len(), |i: int| (files[i].file@, files[i].lines@))
}

/// The files with one more among them, with no line of its own yet, unless it is there already.
pub open spec fn file_opened(files: Seq<(Seq<char>, Seq<u32>)>, file: Seq<char>) -> Seq<
    (Seq<char>, Seq<u32>),
>
    decreases files.len(),
{
    if files.len() == 0 {
        seq![(file, Seq::empty())]
    } else if files[0].0 == file {
        files
    } else if before(file, files[0].0) {
        seq![(file, Seq::<u32>::empty())] + files
    } else {
        seq![files[0]] + file_opened(files.drop_first(), file)
    }
}

/// Where a file stands among files, or their number where it is not among them.
pub open spec fn file_at(files: Seq<(Seq<char>, Seq<u32>)>, file: Seq<char>) -> nat
    decreases files.len(),
{
    if files.len() == 0 || files[0].0 == file {
        0
    } else {
        1 + file_at(files.drop_first(), file)
    }
}

/// The files with one more line of one of them.
pub open spec fn line_added(files: Seq<(Seq<char>, Seq<u32>)>, file: Seq<char>, line: u32) -> Seq<
    (Seq<char>, Seq<u32>),
> {
    let opened = file_opened(files, file);
    let at = file_at(opened, file) as int;
    opened.update(at, (file, number_inserted(opened[at].1, line)))
}

/// The files with a run of lines of one of them, both ends in.
pub open spec fn lines_added(
    files: Seq<(Seq<char>, Seq<u32>)>,
    file: Seq<char>,
    from: u32,
    to: u32,
) -> Seq<(Seq<char>, Seq<u32>)>
    decreases to - from + 1,
{
    if from > to {
        files
    } else if from == to {
        line_added(files, file, from)
    } else {
        lines_added(line_added(files, file, from), file, (from + 1) as u32, to)
    }
}

/// Order is strict.
pub proof fn lemma_bytes_before_strict(a: Seq<u8>, b: Seq<u8>)
    ensures
        !(bytes_before(a, b) && bytes_before(b, a)),
        !bytes_before(a, a),
        a != b ==> bytes_before(a, b) || bytes_before(b, a),
    decreases a.len(),
{
    if a.len() > 0 {
        lemma_bytes_before_strict(a.drop_first(), a.drop_first());
        if b.len() > 0 {
            lemma_bytes_before_strict(a.drop_first(), b.drop_first());
            if a.drop_first() == b.drop_first() && a[0] == b[0] {
                assert(a =~= b) by {
                    assert forall|i: int| 0 <= i < a.len() implies a[i] == b[i] by {
                        if i > 0 {
                            assert(a.drop_first()[i - 1] == b.drop_first()[i - 1]);
                        }
                    }
                    assert(a.drop_first().len() == b.drop_first().len());
                }
            }
        }
    } else if b.len() == 0 {
        assert(a =~= b);
    }
}

/// Order carries over.
pub proof fn lemma_bytes_before_transitive(a: Seq<u8>, b: Seq<u8>, c: Seq<u8>)
    requires
        bytes_before(a, b),
        bytes_before(b, c),
    ensures
        bytes_before(a, c),
    decreases a.len(),
{
    if a.len() > 0 && a[0] == b[0] && b[0] == c[0] {
        lemma_bytes_before_transitive(a.drop_first(), b.drop_first(), c.drop_first());
    }
}

/// Two different texts are in one order or the other, never in both.
pub proof fn lemma_before(a: Seq<char>, b: Seq<char>)
    ensures
        !(before(a, b) && before(b, a)),
        !before(a, a),
        a != b ==> before(a, b) || before(b, a),
{
    lemma_bytes_before_strict(text::bytes(a), text::bytes(b));
    lemma_bytes_before_strict(text::bytes(a), text::bytes(a));
    if text::bytes(a) == text::bytes(b) {
        vstd::utf8::encode_utf8_decode_utf8(a);
        vstd::utf8::encode_utf8_decode_utf8(b);
    }
}

/// Putting a text into an ascending list keeps it ascending, and adds that text alone.
pub proof fn lemma_inserted(list: Seq<Seq<char>>, item: Seq<char>)
    requires
        ascending(list),
    ensures
        ascending(inserted(list, item)),
        forall|x: Seq<char>|
            #[trigger] inserted(list, item).contains(x) <==> list.contains(x) || x == item,
    decreases list.len(),
{
    let out = inserted(list, item);
    if list.len() == 0 {
        assert(out[0] == item);
    } else if list[0] == item {
        assert(out.contains(item));
    } else if before(item, list[0]) {
        assert forall|i: int, j: int| 0 <= i < j < out.len() implies before(
            #[trigger] out[i],
            #[trigger] out[j],
        ) by {
            if i == 0 {
                if j > 1 {
                    assert(before(list[0], list[j - 1]));
                    lemma_bytes_before_transitive(
                        text::bytes(item),
                        text::bytes(list[0]),
                        text::bytes(list[j - 1]),
                    );
                }
            } else {
                assert(before(list[i - 1], list[j - 1]));
            }
        }
        assert forall|x: Seq<char>| #[trigger] out.contains(x) <==> list.contains(x) || x == item by {
            if list.contains(x) {
                let i = choose|i: int| 0 <= i < list.len() && list[i] == x;
                assert(out[i + 1] == x);
            }
            if x == item {
                assert(out[0] == x);
            }
            if out.contains(x) {
                let i = choose|i: int| 0 <= i < out.len() && out[i] == x;
                if i > 0 {
                    assert(list[i - 1] == x);
                }
            }
        }
    } else {
        let rest = list.drop_first();
        assert forall|i: int, j: int| 0 <= i < j < rest.len() implies before(
            #[trigger] rest[i],
            #[trigger] rest[j],
        ) by {
            assert(before(list[i + 1], list[j + 1]));
        }
        lemma_inserted(rest, item);
        lemma_before(item, list[0]);
        let tail = inserted(rest, item);
        assert forall|i: int, j: int| 0 <= i < j < out.len() implies before(
            #[trigger] out[i],
            #[trigger] out[j],
        ) by {
            if i == 0 {
                let x = out[j];
                assert(tail[j - 1] == x);
                assert(tail.contains(x));
                if x != item {
                    let k = choose|k: int| 0 <= k < rest.len() && rest[k] == x;
                    assert(list[k + 1] == x);
                    assert(before(list[0], list[k + 1]));
                }
            } else {
                assert(before(tail[i - 1], tail[j - 1]));
            }
        }
        assert forall|x: Seq<char>| #[trigger] out.contains(x) <==> list.contains(x) || x == item by {
            if list.contains(x) {
                let i = choose|i: int| 0 <= i < list.len() && list[i] == x;
                if i == 0 {
                    assert(out[0] == x);
                } else {
                    assert(rest[i - 1] == x);
                    assert(tail.contains(x));
                    let k = choose|k: int| 0 <= k < tail.len() && tail[k] == x;
                    assert(out[k + 1] == x);
                }
            }
            if x == item {
                assert(tail.contains(x));
                let k = choose|k: int| 0 <= k < tail.len() && tail[k] == x;
                assert(out[k + 1] == x);
            }
            if out.contains(x) {
                let i = choose|i: int| 0 <= i < out.len() && out[i] == x;
                if i == 0 {
                    assert(list[0] == x);
                } else {
                    assert(tail[i - 1] == x);
                    assert(tail.contains(x));
                    if x != item {
                        let k = choose|k: int| 0 <= k < rest.len() && rest[k] == x;
                        assert(list[k + 1] == x);
                    }
                }
            }
        }
    }
}

/// Sorting leaves every text that was there, each once and in ascending order.
pub proof fn law_sorted(items: Seq<Seq<char>>)
    ensures
        ascending(sorted(items)),
        forall|x: Seq<char>| #[trigger] sorted(items).contains(x) <==> items.contains(x),
    decreases items.len(),
{
    if items.len() > 0 {
        let rest = items.drop_last();
        law_sorted(rest);
        lemma_inserted(sorted(rest), items.last());
        assert forall|x: Seq<char>| #[trigger] sorted(items).contains(x) <==> items.contains(x) by {
            if items.contains(x) {
                let i = choose|i: int| 0 <= i < items.len() && items[i] == x;
                if i < rest.len() {
                    assert(rest[i] == x);
                    assert(rest.contains(x));
                }
            }
            if rest.contains(x) {
                let i = choose|i: int| 0 <= i < rest.len() && rest[i] == x;
                assert(items[i] == x);
            }
            assert(items[items.len() - 1] == items.last());
        }
    }
}

/// Whether one text comes before another.
pub fn less(a: &str, b: &str) -> (found: bool)
    ensures
        found == before(a@, b@),
{
    let left = a.as_bytes();
    let right = b.as_bytes();
    let mut i: usize = 0;
    proof {
        assert(left@.skip(0) =~= left@);
        assert(right@.skip(0) =~= right@);
    }
    while i < left.len() && i < right.len()
        invariant
            i <= left@.len(),
            i <= right@.len(),
            left@ == text::bytes(a@),
            right@ == text::bytes(b@),
            bytes_before(left@, right@) == bytes_before(
                left@.skip(i as int),
                right@.skip(i as int),
            ),
        decreases left@.len() - i,
    {
        proof {
            assert(left@.skip(i as int)[0] == left@[i as int]);
            assert(right@.skip(i as int)[0] == right@[i as int]);
            assert(left@.skip(i as int).drop_first() =~= left@.skip(i + 1));
            assert(right@.skip(i as int).drop_first() =~= right@.skip(i + 1));
        }
        if left[i] != right[i] {
            return left[i] < right[i];
        }
        i += 1;
    }
    i < right.len()
}

/// Puts a text into an ascending list.
pub fn insert(list: &mut Vec<String>, item: &str)
    ensures
        text::string_views(final(list)@) == inserted(text::string_views(old(list)@), item@),
{
    let ghost all = text::string_views(list@);
    let mut i: usize = 0;
    assert(all.skip(0) =~= all);
    assert(all.take(0) + inserted(all.skip(0), item@) =~= inserted(all, item@));
    while i < list.len()
        invariant
            list@ == old(list)@,
            i <= list@.len(),
            all == text::string_views(list@),
            all.take(i as int) + inserted(all.skip(i as int), item@) == inserted(all, item@),
        decreases list@.len() - i,
    {
        proof {
            assert(all.skip(i as int)[0] == list@[i as int]@);
        }
        if text::same(list[i].as_str(), item) {
            assert(all.take(i as int) + all.skip(i as int) =~= all);
            return ;
        }
        if less(item, list[i].as_str()) {
            let owned = item.to_owned();
            proof {
                assert(text::string_views(list@.insert(i as int, owned)) =~= all.take(i as int) + (
                seq![item@] + all.skip(i as int)));
            }
            list.insert(i, owned);
            return ;
        }
        proof {
            assert(all.skip(i as int).drop_first() =~= all.skip(i + 1));
            assert(all.take(i as int) + (seq![all[i as int]] + inserted(all.skip(i + 1), item@))
                =~= all.take(i + 1) + inserted(all.skip(i + 1), item@));
        }
        i += 1;
    }
    let owned = item.to_owned();
    proof {
        assert(all.skip(i as int).len() == 0);
        assert(text::string_views(list@.push(owned)) =~= all.take(i as int) + seq![item@]);
    }
    list.push(owned);
}

/// Whether a list holds a text.
pub fn has(list: &Vec<String>, item: &str) -> (found: bool)
    ensures
        found == text::string_views(list@).contains(item@),
{
    let ghost all = text::string_views(list@);
    let mut i: usize = 0;
    while i < list.len()
        invariant
            i <= list@.len(),
            all == text::string_views(list@),
            forall|k: int| 0 <= k < i ==> #[trigger] all[k] != item@,
        decreases list@.len() - i,
    {
        if text::same(list[i].as_str(), item) {
            assert(all[i as int] == item@);
            return true;
        }
        assert(all[i as int] != item@);
        i += 1;
    }
    false
}

/// Puts a number into an ascending list.
pub fn insert_number(list: &mut Vec<u32>, item: u32)
    ensures
        final(list)@ == number_inserted(old(list)@, item),
{
    let ghost all = list@;
    let mut i: usize = 0;
    assert(all.skip(0) =~= all);
    assert(all.take(0) + number_inserted(all.skip(0), item) =~= number_inserted(all, item));
    while i < list.len()
        invariant
            list@ == all,
            all == old(list)@,
            i <= list@.len(),
            all.take(i as int) + number_inserted(all.skip(i as int), item) == number_inserted(
                all,
                item,
            ),
        decreases list@.len() - i,
    {
        proof {
            assert(all.skip(i as int)[0] == list@[i as int]);
        }
        if list[i] == item {
            assert(all.take(i as int) + all.skip(i as int) =~= all);
            return ;
        }
        if item < list[i] {
            proof {
                assert(list@.insert(i as int, item) =~= all.take(i as int) + (seq![item]
                    + all.skip(i as int)));
            }
            list.insert(i, item);
            return ;
        }
        proof {
            assert(all.skip(i as int).drop_first() =~= all.skip(i + 1));
            assert(all.take(i as int) + (seq![all[i as int]] + number_inserted(
                all.skip(i + 1),
                item,
            )) =~= all.take(i + 1) + number_inserted(all.skip(i + 1), item));
        }
        i += 1;
    }
    proof {
        assert(all.skip(i as int).len() == 0);
        assert(list@.push(item) =~= all.take(i as int) + seq![item]);
    }
    list.push(item);
}

/// A file that was opened is among the files.
pub proof fn lemma_file_opened(files: Seq<(Seq<char>, Seq<u32>)>, file: Seq<char>)
    ensures
        file_at(file_opened(files, file), file) < file_opened(files, file).len(),
    decreases files.len(),
{
    let opened = file_opened(files, file);
    if files.len() > 0 && files[0].0 != file && !before(file, files[0].0) {
        lemma_file_opened(files.drop_first(), file);
        assert(opened.drop_first() =~= file_opened(files.drop_first(), file));
    }
}

/// Opens a file among files, and says where it stands.
pub fn open_file(files: &mut Vec<FileLines>, file: &str) -> (at: usize)
    ensures
        lines_view(final(files)@) == file_opened(lines_view(old(files)@), file@),
        at < final(files)@.len(),
        at == file_at(lines_view(final(files)@), file@),
        lines_view(final(files)@)[at as int].0 == file@,
{
    let ghost all = lines_view(files@);
    let mut i: usize = 0;
    assert(all.skip(0) =~= all);
    assert(all.take(0) + file_opened(all.skip(0), file@) =~= file_opened(all, file@));
    proof {
        lemma_file_opened(all, file@);
    }
    while i < files.len()
        invariant
            files@ == old(files)@,
            i <= files@.len(),
            all == lines_view(files@),
            forall|k: int| 0 <= k < i ==> (#[trigger] all[k]).0 != file@,
            all.take(i as int) + file_opened(all.skip(i as int), file@) == file_opened(all, file@),
        decreases files@.len() - i,
    {
        proof {
            assert(all.skip(i as int)[0] == all[i as int]);
        }
        if text::same(files[i].file.as_str(), file) {
            proof {
                assert(all.take(i as int) + all.skip(i as int) =~= all);
                lemma_file_at(all, file@, i as int);
            }
            return i;
        }
        if less(file, files[i].file.as_str()) {
            let entry = FileLines { file: file.to_owned(), lines: Vec::new() };
            proof {
                let out = lines_view(files@.insert(i as int, entry));
                assert(out =~= all.take(i as int) + (seq![(file@, Seq::<u32>::empty())] + all.skip(
                    i as int,
                )));
                assert forall|k: int| 0 <= k < i implies (#[trigger] out[k]).0 != file@ by {
                    assert(out[k] == all[k]);
                }
                lemma_file_at(out, file@, i as int);
            }
            files.insert(i, entry);
            return i;
        }
        proof {
            assert(all.skip(i as int).drop_first() =~= all.skip(i + 1));
            assert(all.take(i as int) + (seq![all[i as int]] + file_opened(all.skip(i + 1), file@))
                =~= all.take(i + 1) + file_opened(all.skip(i + 1), file@));
        }
        i += 1;
    }
    let entry = FileLines { file: file.to_owned(), lines: Vec::new() };
    proof {
        assert(all.skip(i as int).len() == 0);
        let out = lines_view(files@.push(entry));
        assert(out =~= all.take(i as int) + seq![(file@, Seq::<u32>::empty())]);
        assert forall|k: int| 0 <= k < i implies (#[trigger] out[k]).0 != file@ by {
            assert(out[k] == all[k]);
        }
        lemma_file_at(out, file@, i as int);
    }
    files.push(entry);
    i
}

/// A file stands where it first occurs.
proof fn lemma_file_at(files: Seq<(Seq<char>, Seq<u32>)>, file: Seq<char>, at: int)
    requires
        0 <= at < files.len(),
        files[at].0 == file,
        forall|k: int| 0 <= k < at ==> (#[trigger] files[k]).0 != file,
    ensures
        file_at(files, file) == at,
    decreases at,
{
    if at > 0 {
        let rest = files.drop_first();
        assert(files[0].0 != file);
        assert forall|k: int| 0 <= k < at - 1 implies (#[trigger] rest[k]).0 != file by {
            assert(files[k + 1].0 != file);
        }
        lemma_file_at(rest, file, at - 1);
    }
}

/// Adds one line of a file.
pub fn add_line(files: &mut Vec<FileLines>, file: &str, line: u32)
    ensures
        lines_view(final(files)@) == line_added(lines_view(old(files)@), file@, line),
{
    let at: usize = open_file(files, file);
    let ghost opened = lines_view(files@);
    let ghost before_lines = files@;
    let mut entry = files.remove(at);
    assert(entry.lines@ == opened[at as int].1);
    insert_number(&mut entry.lines, line);
    files.insert(at, entry);
    assert(files@ =~= before_lines.update(at as int, entry));
    assert(lines_view(files@) =~= opened.update(at as int, (file@, entry.lines@)));
}

/// Adds a run of lines of a file, both ends in.
pub fn add_lines(files: &mut Vec<FileLines>, file: &str, from: u32, to: u32)
    ensures
        lines_view(final(files)@) == lines_added(lines_view(old(files)@), file@, from, to),
{
    if from > to {
        return ;
    }
    let mut line: u32 = from;
    while line < to
        invariant
            from <= line <= to,
            lines_added(lines_view(old(files)@), file@, from, to) == lines_added(
                lines_view(files@),
                file@,
                line,
                to,
            ),
        decreases to - line,
    {
        add_line(files, file, line);
        line += 1;
    }
    add_line(files, file, line);
}

/// Whether files stand in ascending order of their paths, each once.
pub open spec fn by_path(files: Seq<(Seq<char>, Seq<u32>)>) -> bool {
    forall|i: int, j: int|
        0 <= i < j < files.len() ==> before((#[trigger] files[i]).0, (#[trigger] files[j]).0)
}

/// Whether a file is among files.
pub open spec fn has_file(files: Seq<(Seq<char>, Seq<u32>)>, path: Seq<char>) -> bool {
    exists|i: int| 0 <= i < files.len() && (#[trigger] files[i]).0 == path
}

/// Whether a line of a file is among files and their lines.
pub open spec fn has_line(files: Seq<(Seq<char>, Seq<u32>)>, path: Seq<char>, line: u32) -> bool {
    exists|i: int|
        0 <= i < files.len() && (#[trigger] files[i]).0 == path && files[i].1.contains(line)
}

/// Putting a number into a list adds that number alone.
pub proof fn lemma_number_inserted(list: Seq<u32>, item: u32)
    ensures
        forall|x: u32|
            #[trigger] number_inserted(list, item).contains(x) <==> list.contains(x) || x == item,
    decreases list.len(),
{
    let out = number_inserted(list, item);
    if list.len() == 0 {
        assert(out[0] == item);
    } else if list[0] == item {
        assert(out.contains(item));
    } else if item < list[0] {
        assert forall|x: u32| #[trigger] out.contains(x) <==> list.contains(x) || x == item by {
            assert(out[0] == item);
            if list.contains(x) {
                let i = choose|i: int| 0 <= i < list.len() && list[i] == x;
                assert(out[i + 1] == x);
            }
            if out.contains(x) && x != item {
                let i = choose|i: int| 0 <= i < out.len() && out[i] == x;
                assert(list[i - 1] == x);
            }
        }
    } else {
        let rest = list.drop_first();
        let tail = number_inserted(rest, item);
        lemma_number_inserted(rest, item);
        assert forall|x: u32| #[trigger] out.contains(x) <==> list.contains(x) || x == item by {
            assert(out[0] == list[0]);
            if list.contains(x) && x != list[0] {
                let i = choose|i: int| 0 <= i < list.len() && list[i] == x;
                assert(rest[i - 1] == x);
            }
            if x != list[0] && (list.contains(x) || x == item) {
                assert(tail.contains(x));
                let k = choose|k: int| 0 <= k < tail.len() && tail[k] == x;
                assert(out[k + 1] == x);
            }
            if out.contains(x) && x != list[0] {
                let i = choose|i: int| 0 <= i < out.len() && out[i] == x;
                assert(tail[i - 1] == x);
                assert(tail.contains(x));
                if x != item {
                    let k = choose|k: int| 0 <= k < rest.len() && rest[k] == x;
                    assert(list[k + 1] == x);
                }
            }
        }
    }
}

/// A file that stands among files is found there.
pub proof fn lemma_file_found(files: Seq<(Seq<char>, Seq<u32>)>, file: Seq<char>)
    ensures
        file_at(files, file) <= files.len(),
        file_at(files, file) < files.len() ==> files[file_at(files, file) as int].0 == file,
        has_file(files, file) ==> file_at(files, file) < files.len(),
    decreases files.len(),
{
    if files.len() > 0 && files[0].0 != file {
        let rest = files.drop_first();
        lemma_file_found(rest, file);
        if has_file(files, file) {
            let i = choose|i: int| 0 <= i < files.len() && (#[trigger] files[i]).0 == file;
            assert(rest[i - 1].0 == file);
        }
    }
}

/// Opening a file keeps the order of files, adds that file, and changes no line.
pub proof fn lemma_opening(files: Seq<(Seq<char>, Seq<u32>)>, file: Seq<char>)
    requires
        by_path(files),
    ensures
        by_path(file_opened(files, file)),
        forall|path: Seq<char>|
            #[trigger] has_file(file_opened(files, file), path) <==> has_file(files, path) || path
                == file,
        forall|path: Seq<char>, line: u32|
            #[trigger] has_line(file_opened(files, file), path, line) <==> has_line(
                files,
                path,
                line,
            ),
    decreases files.len(),
{
    let out = file_opened(files, file);
    let fresh = (file, Seq::<u32>::empty());
    if files.len() == 0 {
        assert(out[0] == fresh);
        assert forall|path: Seq<char>| #[trigger] has_file(out, path) <==> has_file(files, path)
            || path == file by {
            if path == file {
                assert(out[0].0 == path);
            }
        }
    } else if files[0].0 == file {
        assert(has_file(files, file));
    } else if before(file, files[0].0) {
        assert forall|i: int, j: int| 0 <= i < j < out.len() implies before(
            (#[trigger] out[i]).0,
            (#[trigger] out[j]).0,
        ) by {
            assert(out[j] == files[j - 1]);
            if i == 0 {
                if j > 1 {
                    assert(before(files[0].0, files[j - 1].0));
                    lemma_bytes_before_transitive(
                        text::bytes(file),
                        text::bytes(files[0].0),
                        text::bytes(files[j - 1].0),
                    );
                }
            } else {
                assert(out[i] == files[i - 1]);
            }
        }
        assert forall|path: Seq<char>| #[trigger] has_file(out, path) <==> has_file(files, path)
            || path == file by {
            assert(out[0] == fresh);
            if has_file(files, path) {
                let i = choose|i: int| 0 <= i < files.len() && (#[trigger] files[i]).0 == path;
                assert(out[i + 1].0 == path);
            }
            if path == file {
                assert(out[0].0 == path);
            }
            if has_file(out, path) && path != file {
                let i = choose|i: int| 0 <= i < out.len() && (#[trigger] out[i]).0 == path;
                assert(files[i - 1].0 == path);
            }
        }
        assert forall|path: Seq<char>, line: u32| #[trigger] has_line(out, path, line) <==> has_line(
            files,
            path,
            line,
        ) by {
            assert(out[0] == fresh);
            if has_line(files, path, line) {
                let i = choose|i: int|
                    0 <= i < files.len() && (#[trigger] files[i]).0 == path && files[i].1.contains(
                        line,
                    );
                assert(out[i + 1] == files[i]);
            }
            if has_line(out, path, line) {
                let i = choose|i: int|
                    0 <= i < out.len() && (#[trigger] out[i]).0 == path && out[i].1.contains(line);
                assert(i > 0);
                assert(files[i - 1] == out[i]);
            }
        }
    } else {
        let rest = files.drop_first();
        let tail = file_opened(rest, file);
        assert forall|i: int, j: int| 0 <= i < j < rest.len() implies before(
            (#[trigger] rest[i]).0,
            (#[trigger] rest[j]).0,
        ) by {
            assert(rest[i] == files[i + 1] && rest[j] == files[j + 1]);
        }
        lemma_opening(rest, file);
        lemma_before(file, files[0].0);
        assert(out[0] == files[0]);
        assert forall|i: int, j: int| 0 <= i < j < out.len() implies before(
            (#[trigger] out[i]).0,
            (#[trigger] out[j]).0,
        ) by {
            assert(out[j] == tail[j - 1]);
            if i == 0 {
                let path = out[j].0;
                assert(tail[j - 1].0 == path);
                assert(has_file(tail, path));
                if path != file {
                    let k = choose|k: int| 0 <= k < rest.len() && (#[trigger] rest[k]).0 == path;
                    assert(rest[k] == files[k + 1]);
                    assert(before(files[0].0, files[k + 1].0));
                }
            } else {
                assert(out[i] == tail[i - 1]);
            }
        }
        assert forall|path: Seq<char>| #[trigger] has_file(out, path) <==> has_file(files, path)
            || path == file by {
            if files[0].0 == path {
                assert(out[0].0 == path);
            }
            if has_file(files, path) && files[0].0 != path {
                let i = choose|i: int| 0 <= i < files.len() && (#[trigger] files[i]).0 == path;
                assert(rest[i - 1] == files[i]);
                assert(has_file(rest, path));
            }
            if has_file(tail, path) {
                let i = choose|i: int| 0 <= i < tail.len() && (#[trigger] tail[i]).0 == path;
                assert(out[i + 1] == tail[i]);
            }
            if has_file(rest, path) {
                let i = choose|i: int| 0 <= i < rest.len() && (#[trigger] rest[i]).0 == path;
                assert(files[i + 1] == rest[i]);
            }
            if has_file(out, path) && files[0].0 != path {
                let i = choose|i: int| 0 <= i < out.len() && (#[trigger] out[i]).0 == path;
                assert(tail[i - 1] == out[i]);
            }
        }
        assert forall|path: Seq<char>, line: u32| #[trigger] has_line(out, path, line) <==> has_line(
            files,
            path,
            line,
        ) by {
            if has_line(files, path, line) {
                let i = choose|i: int|
                    0 <= i < files.len() && (#[trigger] files[i]).0 == path && files[i].1.contains(
                        line,
                    );
                if i == 0 {
                    assert(out[0] == files[0]);
                } else {
                    assert(rest[i - 1] == files[i]);
                    assert(has_line(tail, path, line));
                    let k = choose|k: int|
                        0 <= k < tail.len() && (#[trigger] tail[k]).0 == path
                            && tail[k].1.contains(line);
                    assert(out[k + 1] == tail[k]);
                }
            }
            if has_line(out, path, line) {
                let i = choose|i: int|
                    0 <= i < out.len() && (#[trigger] out[i]).0 == path && out[i].1.contains(line);
                if i == 0 {
                    assert(files[0] == out[0]);
                } else {
                    assert(tail[i - 1] == out[i]);
                    assert(has_line(tail, path, line));
                    assert(has_line(rest, path, line));
                    let k = choose|k: int|
                        0 <= k < rest.len() && (#[trigger] rest[k]).0 == path
                            && rest[k].1.contains(line);
                    assert(files[k + 1] == rest[k]);
                }
            }
        }
    }
}

/// Adding a line of a file keeps the order of files and adds that line alone.
pub proof fn lemma_adding(files: Seq<(Seq<char>, Seq<u32>)>, file: Seq<char>, added: u32)
    requires
        by_path(files),
    ensures
        by_path(line_added(files, file, added)),
        forall|path: Seq<char>|
            #[trigger] has_file(line_added(files, file, added), path) <==> has_file(files, path)
                || path == file,
        forall|path: Seq<char>, line: u32|
            #[trigger] has_line(line_added(files, file, added), path, line) <==> has_line(
                files,
                path,
                line,
            ) || (path == file && line == added),
{
    let opened = file_opened(files, file);
    let at = file_at(opened, file) as int;
    let out = line_added(files, file, added);
    lemma_opening(files, file);
    assert(has_file(opened, file));
    lemma_file_found(opened, file);
    lemma_number_inserted(opened[at].1, added);
    assert(out[at] == (file, number_inserted(opened[at].1, added)));
    assert forall|i: int| 0 <= i < out.len() implies (#[trigger] out[i]).0 == opened[i].0 by {}
    assert forall|i: int, j: int| 0 <= i < j < out.len() implies before(
        (#[trigger] out[i]).0,
        (#[trigger] out[j]).0,
    ) by {
        assert(before(opened[i].0, opened[j].0));
    }
    assert forall|path: Seq<char>| #[trigger] has_file(out, path) <==> has_file(opened, path) by {
        if has_file(opened, path) {
            let i = choose|i: int| 0 <= i < opened.len() && (#[trigger] opened[i]).0 == path;
            assert(out[i].0 == path);
        }
        if has_file(out, path) {
            let i = choose|i: int| 0 <= i < out.len() && (#[trigger] out[i]).0 == path;
            assert(opened[i].0 == path);
        }
    }
    assert forall|path: Seq<char>, line: u32| #[trigger] has_line(out, path, line) <==> has_line(
        opened,
        path,
        line,
    ) || (path == file && line == added) by {
        if has_line(opened, path, line) {
            let i = choose|i: int|
                0 <= i < opened.len() && (#[trigger] opened[i]).0 == path && opened[i].1.contains(
                    line,
                );
            assert(out[i].0 == path && out[i].1.contains(line));
        }
        if path == file && line == added {
            assert(out[at].0 == path && out[at].1.contains(line));
        }
        if has_line(out, path, line) {
            let i = choose|i: int|
                0 <= i < out.len() && (#[trigger] out[i]).0 == path && out[i].1.contains(line);
            if i != at {
                assert(opened[i] == out[i]);
            } else if line != added {
                assert(opened[at].1.contains(line));
            }
        }
    }
}

/// Adding a run of lines of a file keeps the order of files and adds those lines alone.
pub proof fn lemma_adding_run(files: Seq<(Seq<char>, Seq<u32>)>, file: Seq<char>, from: u32, to: u32)
    requires
        by_path(files),
        has_file(files, file),
    ensures
        by_path(lines_added(files, file, from, to)),
        forall|path: Seq<char>|
            #[trigger] has_file(lines_added(files, file, from, to), path) <==> has_file(
                files,
                path,
            ),
        forall|path: Seq<char>, line: u32|
            #[trigger] has_line(lines_added(files, file, from, to), path, line) <==> has_line(
                files,
                path,
                line,
            ) || (path == file && from <= line <= to),
    decreases to - from + 1,
{
    if from <= to {
        lemma_adding(files, file, from);
        if from < to {
            let next = line_added(files, file, from);
            assert(has_file(next, file));
            lemma_adding_run(next, file, (from + 1) as u32, to);
            let out = lines_added(files, file, from, to);
            assert forall|path: Seq<char>, line: u32| #[trigger] has_line(out, path, line)
                <==> has_line(files, path, line) || (path == file && from <= line <= to) by {
                assert(has_line(next, path, line) <==> has_line(files, path, line) || (path == file
                    && line == from));
            }
            assert forall|path: Seq<char>| #[trigger] has_file(out, path) <==> has_file(
                files,
                path,
            ) by {
                assert(has_file(next, path) <==> has_file(files, path) || path == file);
            }
        }
    }
}

/// Whether one pair of texts comes before another: by the first text, or else by the second.
pub open spec fn pair_before(a: (Seq<char>, Seq<char>), b: (Seq<char>, Seq<char>)) -> bool {
    before(a.0, b.0) || (a.0 == b.0 && before(a.1, b.1))
}

/// An ascending list of pairs with one more in its place, unless it is there already.
pub open spec fn pair_inserted(
    list: Seq<(Seq<char>, Seq<char>)>,
    item: (Seq<char>, Seq<char>),
) -> Seq<(Seq<char>, Seq<char>)>
    decreases list.len(),
{
    if list.len() == 0 {
        seq![item]
    } else if list[0] == item {
        list
    } else if pair_before(item, list[0]) {
        seq![item] + list
    } else {
        seq![list[0]] + pair_inserted(list.drop_first(), item)
    }
}

/// The pairs of a list as mathematical values.
pub open spec fn pair_views(list: Seq<(String, String)>) -> Seq<(Seq<char>, Seq<char>)> {
    Seq::new(list.len(), |i: int| (list[i].0@, list[i].1@))
}

/// Puts a pair of texts into an ascending list.
pub fn insert_pair(list: &mut Vec<(String, String)>, first: &str, second: &str)
    ensures
        pair_views(final(list)@) == pair_inserted(pair_views(old(list)@), (first@, second@)),
{
    let ghost all = pair_views(list@);
    let ghost item = (first@, second@);
    let mut i: usize = 0;
    assert(all.skip(0) =~= all);
    assert(all.take(0) + pair_inserted(all.skip(0), item) =~= pair_inserted(all, item));
    while i < list.len()
        invariant
            list@ == old(list)@,
            i <= list@.len(),
            all == pair_views(list@),
            item == (first@, second@),
            all.take(i as int) + pair_inserted(all.skip(i as int), item) == pair_inserted(
                all,
                item,
            ),
        decreases list@.len() - i,
    {
        proof {
            assert(all.skip(i as int)[0] == all[i as int]);
            assert(all[i as int] == (list@[i as int].0@, list@[i as int].1@));
        }
        let same_first = text::same(list[i].0.as_str(), first);
        if same_first && text::same(list[i].1.as_str(), second) {
            assert(all.take(i as int) + all.skip(i as int) =~= all);
            return ;
        }
        if less(first, list[i].0.as_str()) || (same_first && less(second, list[i].1.as_str())) {
            let owned = (first.to_owned(), second.to_owned());
            proof {
                assert(pair_views(list@.insert(i as int, owned)) =~= all.take(i as int) + (
                seq![item] + all.skip(i as int)));
            }
            list.insert(i, owned);
            return ;
        }
        proof {
            assert(all.skip(i as int).drop_first() =~= all.skip(i + 1));
            assert(all.take(i as int) + (seq![all[i as int]] + pair_inserted(
                all.skip(i + 1),
                item,
            )) =~= all.take(i + 1) + pair_inserted(all.skip(i + 1), item));
        }
        i += 1;
    }
    let owned = (first.to_owned(), second.to_owned());
    proof {
        assert(all.skip(i as int).len() == 0);
        assert(pair_views(list@.push(owned)) =~= all.take(i as int) + seq![item]);
    }
    list.push(owned);
}

/// Whether a list holds a pair of texts.
pub fn has_pair(list: &Vec<(String, String)>, first: &str, second: &str) -> (found: bool)
    ensures
        found == pair_views(list@).contains((first@, second@)),
{
    let ghost all = pair_views(list@);
    let mut i: usize = 0;
    while i < list.len()
        invariant
            i <= list@.len(),
            all == pair_views(list@),
            forall|k: int| 0 <= k < i ==> #[trigger] all[k] != (first@, second@),
        decreases list@.len() - i,
    {
        assert(all[i as int] == (list@[i as int].0@, list@[i as int].1@));
        if text::same(list[i].0.as_str(), first) && text::same(list[i].1.as_str(), second) {
            return true;
        }
        i += 1;
    }
    false
}

} // verus!
