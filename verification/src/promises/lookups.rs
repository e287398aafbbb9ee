//! What finding things promises: a symbol by what it was called, a source by its path, a name in a
//! label, a text in the white space around it.

use crate::evidence;
use crate::graph::{Node, SourceFile};
use crate::resolve;
use crate::text;
use crate::words;
use vstd::prelude::*;
use vstd::string::*;

verus! {

/// Whether a query is a node's label or the end of its id.
pub open spec fn fits(node: Node, query: Seq<char>) -> bool {
    node.label@ == query || exists|head: Seq<char>| node.id@ == #[trigger] (head + query)
}

/// What could be meant is what is labelled so or ends so.
proof fn lemma_fits(node: Node, query: Seq<char>)
    ensures
        resolve::could_mean(node, query) == fits(node, query),
{
    if text::ends(node.id@, query) {
        let head = node.id@.take(node.id@.len() - query.len());
        assert(node.id@ =~= head + query);
    }
    if exists|head: Seq<char>| node.id@ == #[trigger] (head + query) {
        let head = choose|head: Seq<char>| node.id@ == #[trigger] (head + query);
        assert(node.id@.skip(node.id@.len() - query.len()) =~= query);
    }
}

/// A query leads to a node exactly where it is the id of that node, and of none before it, or where
/// it is the id of none, and that node alone is labelled so or has an id that ends so.
pub proof fn law_a_query_leads_to_one_node(nodes: Seq<Node>, query: Seq<char>, at: int)
    ensures
        resolve::resolved(nodes, query) == Some(at) <==> 0 <= at < nodes.len() && (
        (nodes[at].id@ == query && forall|k: int| 0 <= k < at ==> (#[trigger] nodes[k]).id@ != query)
            || ((forall|k: int| 0 <= k < nodes.len() ==> (#[trigger] nodes[k]).id@ != query)
            && fits(nodes[at], query) && forall|k: int|
            0 <= k < nodes.len() && k != at ==> !fits(#[trigger] nodes[k], query))),
{
    resolve::lemma_id_from(nodes, query, 0);
    assert forall|k: int| 0 <= k < nodes.len() implies resolve::could_mean(
        #[trigger] nodes[k],
        query,
    ) == fits(nodes[k], query) by {
        lemma_fits(nodes[k], query);
    }
    if resolve::resolved(nodes, query) is Some {
        resolve::law_resolution_is_the_only_match(nodes, query);
    }
    if 0 <= at < nodes.len() && (forall|k: int|
        0 <= k < nodes.len() ==> (#[trigger] nodes[k]).id@ != query) && fits(nodes[at], query) && (
    forall|k: int| 0 <= k < nodes.len() && k != at ==> !fits(#[trigger] nodes[k], query)) {
        resolve::law_unique_match_resolves(nodes, query, at);
    }
}

/// The candidates for a query are the ids of the nodes that are labelled so or have an id that ends
/// so, and of no others.
pub proof fn law_the_candidates_are_all_that_fit(nodes: Seq<Node>, query: Seq<char>)
    ensures
        forall|id: Seq<char>| #[trigger]
            resolve::candidates(nodes, query).contains(id) <==> (exists|k: int|
                0 <= k < nodes.len() && (#[trigger] nodes[k]).id@ == id && fits(nodes[k], query)),
    decreases nodes.len(),
{
    let all = resolve::candidates(nodes, query);
    if nodes.len() > 0 {
        let rest = nodes.drop_last();
        let before = resolve::candidates(rest, query);
        let end = nodes.len() - 1;
        law_the_candidates_are_all_that_fit(rest, query);
        lemma_fits(nodes.last(), query);
        assert forall|id: Seq<char>| #[trigger] all.contains(id) <==> (exists|k: int|
            0 <= k < nodes.len() && (#[trigger] nodes[k]).id@ == id && fits(nodes[k], query)) by {
            if all.contains(id) {
                let i = choose|i: int| 0 <= i < all.len() && all[i] == id;
                if i < before.len() {
                    assert(before[i] == id);
                    assert(before.contains(id));
                    let k = choose|k: int|
                        0 <= k < rest.len() && (#[trigger] rest[k]).id@ == id && fits(
                            rest[k],
                            query,
                        );
                    assert(nodes[k].id@ == id && fits(nodes[k], query));
                } else {
                    assert(nodes[end].id@ == id && fits(nodes[end], query));
                }
            }
            if exists|k: int|
                0 <= k < nodes.len() && (#[trigger] nodes[k]).id@ == id && fits(nodes[k], query) {
                let k = choose|k: int|
                    0 <= k < nodes.len() && (#[trigger] nodes[k]).id@ == id && fits(
                        nodes[k],
                        query,
                    );
                if k < end {
                    assert(rest[k].id@ == id && fits(rest[k], query));
                    assert(before.contains(id));
                    let i = choose|i: int| 0 <= i < before.len() && before[i] == id;
                    assert(all[i] == id);
                } else {
                    assert(all[all.len() - 1] == id);
                }
            }
        }
    }
}

/// A source is read exactly where a file has its path: the first such file decides, with its own
/// text, unless that is over four mebibytes.
pub proof fn law_a_source_is_that_of_its_path(sources: Seq<SourceFile>, path: Seq<char>, at: int)
    requires
        0 <= at < sources.len(),
        sources[at].path@ == path,
        forall|k: int| 0 <= k < at ==> (#[trigger] sources[k]).path@ != path,
    ensures
        evidence::source_of(sources, path) == (if text::bytes(sources[at].text@).len() <= 4 * 1024
            * 1024 {
            Some(sources[at].text@)
        } else {
            None
        }),
    decreases sources.len(),
{
    if at > 0 {
        assert(sources[0].path@ != path);
        let rest = sources.drop_first();
        assert(rest[at - 1] == sources[at]);
        assert forall|k: int| 0 <= k < at - 1 implies (#[trigger] rest[k]).path@ != path by {
            assert(rest[k] == sources[k + 1]);
        }
        law_a_source_is_that_of_its_path(rest, path, at - 1);
    }
}

/// A path that no file has leads to no source.
pub proof fn law_an_unknown_path_has_no_source(sources: Seq<SourceFile>, path: Seq<char>)
    requires
        forall|k: int| 0 <= k < sources.len() ==> (#[trigger] sources[k]).path@ != path,
    ensures
        evidence::source_of(sources, path) is None,
    decreases sources.len(),
{
    if sources.len() > 0 {
        assert(sources[0].path@ != path);
        let rest = sources.drop_first();
        assert forall|k: int| 0 <= k < rest.len() implies (#[trigger] rest[k]).path@ != path by {
            assert(rest[k] == sources[k + 1]);
        }
        law_an_unknown_path_has_no_source(rest, path);
    }
}

/// A callable is called by its bare name: the parentheses behind it are no part of it, and a label
/// without them is a name as it stands.
pub proof fn law_a_name_is_its_label_without_parentheses(label: Seq<char>)
    ensures
        words::plain_name(label + "()"@) == words::plain_name(label),
        (forall|head: Seq<char>| label != #[trigger] (head + "()"@)) ==> words::plain_name(label)
            == label,
{
    reveal_strlit("()");
    let marked = label + "()"@;
    assert(marked.skip(marked.len() - 2) =~= "()"@);
    assert(marked.take(marked.len() - 2) =~= label);
    if text::ends(label, "()"@) {
        let head = label.take(label.len() - 2);
        assert(label =~= head + "()"@);
    }
}

/// Leading white space goes, all of it and nothing else.
proof fn lemma_trimmed_start(t: Seq<char>)
    ensures
        exists|head: Seq<char>|
            t == #[trigger] (head + words::trimmed_start(t)) && words::blank(head),
        words::trimmed_start(t).len() > 0 ==> !words::whitespace(words::trimmed_start(t)[0]),
    decreases t.len(),
{
    let kept = words::trimmed_start(t);
    if t.len() > 0 && words::whitespace(t[0]) {
        lemma_trimmed_start(t.drop_first());
        let head = choose|head: Seq<char>|
            t.drop_first() == #[trigger] (head + kept) && words::blank(head);
        let all = seq![t[0]] + head;
        assert forall|i: int| 0 <= i < t.len() implies t[i] == (all + kept)[i] by {
            if i > 0 {
                assert(t.drop_first()[i - 1] == (head + kept)[i - 1]);
            }
        }
        assert(t.drop_first().len() == (head + kept).len());
        assert(t =~= all + kept);
        assert(words::blank(all));
    } else {
        assert(t =~= Seq::<char>::empty() + kept);
        assert(words::blank(Seq::<char>::empty()));
    }
}

/// Trailing white space goes, all of it and nothing else.
proof fn lemma_trimmed_end(t: Seq<char>)
    ensures
        exists|tail: Seq<char>|
            t == #[trigger] (words::trimmed_end(t) + tail) && words::blank(tail),
        words::trimmed_end(t).len() > 0 ==> !words::whitespace(words::trimmed_end(t).last()),
    decreases t.len(),
{
    let kept = words::trimmed_end(t);
    if t.len() > 0 && words::whitespace(t.last()) {
        lemma_trimmed_end(t.drop_last());
        let tail = choose|tail: Seq<char>|
            t.drop_last() == #[trigger] (kept + tail) && words::blank(tail);
        let all = tail.push(t.last());
        assert forall|i: int| 0 <= i < t.len() implies t[i] == (kept + all)[i] by {
            if i < t.len() - 1 {
                assert(t.drop_last()[i] == (kept + tail)[i]);
            }
        }
        assert(t.drop_last().len() == (kept + tail).len());
        assert(t =~= kept + all);
        assert(words::blank(all));
    } else {
        assert(t =~= kept + Seq::<char>::empty());
        assert(words::blank(Seq::<char>::empty()));
    }
}

/// Trimming takes the white space around a text, all of it, and nothing else.
pub proof fn law_trimming_takes_the_space_around(t: Seq<char>)
    ensures
        exists|head: Seq<char>, tail: Seq<char>|
            t == #[trigger] (head + words::trimmed(t) + tail) && (forall|i: int|
                0 <= i < head.len() ==> words::whitespace(#[trigger] head[i])) && (forall|i: int|
                0 <= i < tail.len() ==> words::whitespace(#[trigger] tail[i])),
        words::trimmed(t).len() > 0 ==> !words::whitespace(words::trimmed(t)[0])
            && !words::whitespace(words::trimmed(t).last()),
{
    let first = words::trimmed_start(t);
    let kept = words::trimmed(t);
    lemma_trimmed_start(t);
    lemma_trimmed_end(first);
    let head = choose|head: Seq<char>| t == #[trigger] (head + first) && words::blank(head);
    let tail = choose|tail: Seq<char>| first == #[trigger] (kept + tail) && words::blank(tail);
    assert(t =~= head + kept + tail);
    if kept.len() > 0 {
        assert(kept[0] == first[0]);
    }
}

} // verus!
