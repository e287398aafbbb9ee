//! Dependency edges between files, and the cycles they form.

use crate::order;
use crate::text;
use vstd::prelude::*;
use vstd::string::*;

verus! {

/// A dependency of one file on another.
pub type Dependency = (Seq<char>, Seq<char>);

/// Whether a sequence of edges, by their places, leads from one file to another.
pub open spec fn leads(
    edges: Seq<Dependency>,
    start: Seq<char>,
    goal: Seq<char>,
    chain: Seq<int>,
) -> bool {
    &&& chain.len() > 0
    &&& forall|i: int| 0 <= i < chain.len() ==> 0 <= #[trigger] chain[i] < edges.len()
    &&& edges[chain[0]].0 == start
    &&& edges[chain.last()].1 == goal
    &&& forall|i: int|
        0 <= i < chain.len() - 1 ==> edges[#[trigger] chain[i]].1 == edges[chain[i + 1]].0
}

/// Whether some sequence of edges leads from one file to another.
pub open spec fn reachable(edges: Seq<Dependency>, start: Seq<char>, goal: Seq<char>) -> bool {
    exists|chain: Seq<int>| leads(edges, start, goal, chain)
}

/// Whether an edge lies on a cycle: its target leads back to its source.
pub open spec fn on_cycle(edges: Seq<Dependency>, edge: Dependency) -> bool {
    edge.0 != edge.1 && reachable(edges, edge.1, edge.0)
}

/// The first edges of a list that lie on a cycle of all edges.
pub open spec fn cyclic(edges: Seq<Dependency>, first: Seq<Dependency>) -> Seq<Dependency>
    decreases first.len(),
{
    if first.len() == 0 {
        Seq::empty()
    } else if on_cycle(edges, first.last()) {
        cyclic(edges, first.drop_last()).push(first.last())
    } else {
        cyclic(edges, first.drop_last())
    }
}

/// Every edge between two files that lies on a cycle, in order.
pub open spec fn cycles_of(edges: Seq<Dependency>) -> Seq<Dependency> {
    cyclic(edges, edges)
}

/// The edges by the places of their files in a list of files.
spec fn placed(edges: Seq<Dependency>, files: Seq<Seq<char>>, ends: Seq<(usize, usize)>) -> bool {
    &&& ends.len() == edges.len()
    &&& forall|i: int, j: int|
        0 <= i < j < files.len() ==> #[trigger] files[i] != #[trigger] files[j]
    &&& forall|k: int|
        0 <= k < ends.len() ==> (#[trigger] ends[k]).0 < files.len() && ends[k].1 < files.len()
            && edges[k] == (files[ends[k].0 as int], files[ends[k].1 as int])
}

/// Whether a sequence of edges, by their places, leads from one place to another.
spec fn place_leads(ends: Seq<(usize, usize)>, start: int, goal: int, chain: Seq<int>) -> bool {
    &&& chain.len() > 0
    &&& forall|i: int| 0 <= i < chain.len() ==> 0 <= #[trigger] chain[i] < ends.len()
    &&& ends[chain[0]].0 == start
    &&& ends[chain.last()].1 == goal
    &&& forall|i: int|
        0 <= i < chain.len() - 1 ==> ends[#[trigger] chain[i]].1 == ends[chain[i + 1]].0
}

/// Whether some sequence of edges leads from one place to another.
spec fn place_reachable(ends: Seq<(usize, usize)>, start: int, goal: int) -> bool {
    exists|chain: Seq<int>| place_leads(ends, start, goal, chain)
}

/// Edges lead from file to file exactly as they lead from place to place.
proof fn lemma_places(
    edges: Seq<Dependency>,
    files: Seq<Seq<char>>,
    ends: Seq<(usize, usize)>,
    start: int,
    goal: int,
)
    requires
        placed(edges, files, ends),
        0 <= start < files.len(),
        0 <= goal < files.len(),
    ensures
        place_reachable(ends, start, goal) <==> reachable(edges, files[start], files[goal]),
{
    assert forall|i: int, j: int|
        0 <= i < files.len() && 0 <= j < files.len() && #[trigger] files[i]
            == #[trigger] files[j] implies i == j by {
        if i < j {
        } else if j < i {
        }
    }
    if place_reachable(ends, start, goal) {
        let chain = choose|chain: Seq<int>| place_leads(ends, start, goal, chain);
        assert forall|i: int| 0 <= i < chain.len() - 1 implies edges[#[trigger] chain[i]].1
            == edges[chain[i + 1]].0 by {
            assert(0 <= chain[i + 1] < ends.len());
            assert(ends[chain[i]].1 == ends[chain[i + 1]].0);
        }
        assert(0 <= chain[0] < ends.len());
        assert(0 <= chain[chain.len() - 1] < ends.len());
        assert(leads(edges, files[start], files[goal], chain));
    }
    if reachable(edges, files[start], files[goal]) {
        let chain = choose|chain: Seq<int>| leads(edges, files[start], files[goal], chain);
        assert forall|i: int| 0 <= i < chain.len() - 1 implies ends[#[trigger] chain[i]].1
            == ends[chain[i + 1]].0 by {
            assert(0 <= chain[i + 1] < ends.len());
            assert(edges[chain[i]].1 == edges[chain[i + 1]].0);
            assert(files[ends[chain[i]].1 as int] == files[ends[chain[i + 1]].0 as int]);
        }
        assert(0 <= chain[0] < ends.len());
        assert(0 <= chain[chain.len() - 1] < ends.len());
        assert(files[ends[chain[0]].0 as int] == files[start]);
        assert(files[ends[chain.last()].1 as int] == files[goal]);
        assert(place_leads(ends, start, goal, chain));
    }
}

/// How many places have not been seen.
spec fn unseen(seen: Seq<bool>) -> nat
    decreases seen.len(),
{
    if seen.len() == 0 {
        0
    } else {
        unseen(seen.drop_last()) + if seen.last() {
            0nat
        } else {
            1
        }
    }
}

/// Seeing one more place leaves one fewer unseen.
proof fn lemma_unseen(seen: Seq<bool>, at: int)
    requires
        0 <= at < seen.len(),
        !seen[at],
    ensures
        unseen(seen.update(at, true)) + 1 == unseen(seen),
    decreases seen.len(),
{
    let after = seen.update(at, true);
    if at == seen.len() - 1 {
        assert(after.drop_last() =~= seen.drop_last());
    } else {
        lemma_unseen(seen.drop_last(), at);
        assert(after.drop_last() =~= seen.drop_last().update(at, true));
    }
}

/// The targets of each place's edges.
spec fn neighbours(ends: Seq<(usize, usize)>, next: Seq<Vec<usize>>, count: nat) -> bool {
    &&& next.len() == count
    &&& forall|k: int|
        0 <= k < ends.len() ==> (#[trigger] ends[k]).0 < count && ends[k].1 < count
            && next[ends[k].0 as int]@.contains(ends[k].1)
    &&& forall|v: int, i: int|
        0 <= v < count && 0 <= i < next[v]@.len() ==> has_edge(ends, v, #[trigger] next[v]@[i])
}

/// Whether an edge goes from one place to another.
spec fn has_edge(ends: Seq<(usize, usize)>, from: int, to: usize) -> bool {
    exists|k: int| 0 <= k < ends.len() && (#[trigger] ends[k]).0 == from && ends[k].1 == to
}

/// A chain may be carried one edge further.
proof fn lemma_extend(
    ends: Seq<(usize, usize)>,
    start: int,
    middle: int,
    k: int,
)
    requires
        0 <= k < ends.len(),
        ends[k].0 == middle,
        middle == start || place_reachable(ends, start, middle),
    ensures
        place_reachable(ends, start, ends[k].1 as int),
{
    if place_reachable(ends, start, middle) {
        let chain = choose|chain: Seq<int>| place_leads(ends, start, middle, chain);
        let longer = chain.push(k);
        assert forall|i: int| 0 <= i < longer.len() - 1 implies ends[#[trigger] longer[i]].1
            == ends[longer[i + 1]].0 by {
            assert(longer[i] == chain[i]);
            if i < chain.len() - 1 {
                assert(longer[i + 1] == chain[i + 1]);
                assert(ends[chain[i]].1 == ends[chain[i + 1]].0);
            }
        }
        assert forall|i: int| 0 <= i < longer.len() implies 0 <= #[trigger] longer[i]
            < ends.len() by {
            if i < chain.len() {
                assert(longer[i] == chain[i]);
            }
        }
        assert(longer[0] == chain[0]);
        assert(place_leads(ends, start, ends[k].1 as int, longer));
    } else {
        let chain = seq![k];
        assert(place_leads(ends, start, ends[k].1 as int, chain));
    }
}

/// Where every seen place has only seen neighbours, none of them the goal, nothing leads there.
proof fn lemma_closed(ends: Seq<(usize, usize)>, seen: Seq<bool>, start: int, goal: int)
    requires
        0 <= start < seen.len(),
        seen[start],
        forall|k: int|
            0 <= k < ends.len() && seen[(#[trigger] ends[k]).0 as int] ==> ends[k].1 < seen.len()
                && seen[ends[k].1 as int] && ends[k].1 != goal,
    ensures
        !place_reachable(ends, start, goal),
{
    if place_reachable(ends, start, goal) {
        let chain = choose|chain: Seq<int>| place_leads(ends, start, goal, chain);
        lemma_chain_seen(ends, seen, start, goal, chain, chain.len() - 1);
    }
}

/// Along a chain from a seen place, every edge starts at a seen place.
proof fn lemma_chain_seen(
    ends: Seq<(usize, usize)>,
    seen: Seq<bool>,
    start: int,
    goal: int,
    chain: Seq<int>,
    at: int,
)
    requires
        place_leads(ends, start, goal, chain),
        0 <= start < seen.len(),
        seen[start],
        0 <= at < chain.len(),
        forall|k: int|
            0 <= k < ends.len() && seen[(#[trigger] ends[k]).0 as int] ==> ends[k].1 < seen.len()
                && seen[ends[k].1 as int] && ends[k].1 != goal,
    ensures
        seen[ends[chain[at]].0 as int],
        ends[chain[at]].1 != goal,
    decreases at,
{
    assert(0 <= chain[at] < ends.len());
    if at > 0 {
        lemma_chain_seen(ends, seen, start, goal, chain, at - 1);
        assert(0 <= chain[at - 1] < ends.len());
        assert(ends[chain[at - 1]].1 == ends[chain[at - 1 + 1]].0);
        assert(seen[ends[chain[at - 1]].1 as int]);
    }
}

/// Whether some sequence of edges leads from one place to another.
fn leads_to(next: &Vec<Vec<usize>>, start: usize, goal: usize, Ghost(ends): Ghost<
    Seq<(usize, usize)>,
>) -> (found: bool)
    requires
        neighbours(ends, next@, next@.len()),
        start < next@.len(),
    ensures
        found == place_reachable(ends, start as int, goal as int),
{
    let count: usize = next.len();
    let mut seen: Vec<bool> = Vec::new();
    while seen.len() < count
        invariant
            seen@.len() <= count,
            forall|v: int| 0 <= v < seen@.len() ==> !#[trigger] seen@[v],
        decreases count - seen@.len(),
    {
        seen.push(false);
    }
    let mut queue: Vec<usize> = Vec::new();
    proof {
        lemma_unseen(seen@, start as int);
    }
    seen.set(start, true);
    queue.push(start);
    assert(queue@[0] == start);
    while queue.len() > 0
        invariant
            neighbours(ends, next@, count as nat),
            count == next@.len(),
            seen@.len() == count,
            start < count,
            seen@[start as int],
            forall|i: int| 0 <= i < queue@.len() ==> (#[trigger] queue@[i]) < count
                && seen@[queue@[i] as int],
            forall|v: int|
                0 <= v < count && #[trigger] seen@[v] ==> v == start || place_reachable(
                    ends,
                    start as int,
                    v,
                ),
            forall|k: int|
                0 <= k < ends.len() && seen@[(#[trigger] ends[k]).0 as int] && !queue@.contains(
                    ends[k].0,
                ) ==> seen@[ends[k].1 as int] && ends[k].1 != goal,
        decreases unseen(seen@) + queue@.len(),
    {
        let ghost waiting = queue@;
        let current: usize = match queue.pop() {
            Some(current) => current,
            None => {
                assert(false);
                0
            },
        };
        assert(waiting[waiting.len() - 1] == current);
        let ghost measure = unseen(seen@) + queue@.len();
        let targets = &next[current];
        let mut i: usize = 0;
        proof {
            assert forall|k: int|
                0 <= k < ends.len() && seen@[(#[trigger] ends[k]).0 as int] && !queue@.contains(
                    ends[k].0,
                ) && ends[k].0 != current implies seen@[ends[k].1 as int] && ends[k].1 != goal by {
                if waiting.contains(ends[k].0) {
                    let at = choose|at: int| 0 <= at < waiting.len() && waiting[at] == ends[k].0;
                    assert(queue@[at] == ends[k].0);
                }
            }
        }
        while i < targets.len()
            invariant
                neighbours(ends, next@, count as nat),
                count == next@.len(),
                seen@.len() == count,
                start < count,
                current < count,
                targets == next@[current as int],
                i <= targets@.len(),
                seen@[start as int],
                seen@[current as int],
                unseen(seen@) + queue@.len() == measure,
                current == start || place_reachable(ends, start as int, current as int),
                forall|j: int| 0 <= j < queue@.len() ==> (#[trigger] queue@[j]) < count
                    && seen@[queue@[j] as int],
                forall|v: int|
                    0 <= v < count && #[trigger] seen@[v] ==> v == start || place_reachable(
                        ends,
                        start as int,
                        v,
                    ),
                forall|j: int|
                    0 <= j < i ==> (#[trigger] targets@[j]) < count && seen@[targets@[j] as int]
                        && targets@[j] != goal,
                forall|k: int|
                    0 <= k < ends.len() && seen@[(#[trigger] ends[k]).0 as int]
                        && !queue@.contains(ends[k].0) && ends[k].0 != current
                        ==> seen@[ends[k].1 as int] && ends[k].1 != goal,
            decreases targets@.len() - i,
        {
            let target: usize = targets[i];
            proof {
                assert(next@[current as int]@[i as int] == target);
                assert(has_edge(ends, current as int, target));
                let k = choose|k: int|
                    0 <= k < ends.len() && (#[trigger] ends[k]).0 == current && ends[k].1 == target;
                lemma_extend(ends, start as int, current as int, k);
            }
            if target == goal {
                return true;
            }
            if !seen[target] {
                let ghost before = queue@;
                let ghost was = seen@;
                proof {
                    lemma_unseen(seen@, target as int);
                }
                seen.set(target, true);
                queue.push(target);
                proof {
                    assert forall|k: int|
                        0 <= k < ends.len() && seen@[(#[trigger] ends[k]).0 as int]
                            && !queue@.contains(ends[k].0) && ends[k].0
                            != current implies seen@[ends[k].1 as int] && ends[k].1 != goal by {
                        if ends[k].0 == target {
                            assert(queue@[before.len() as int] == target);
                            assert(queue@.contains(target));
                        } else {
                            if before.contains(ends[k].0) {
                                let at = choose|at: int|
                                    0 <= at < before.len() && before[at] == ends[k].0;
                                assert(queue@[at] == ends[k].0);
                            }
                            assert(was[ends[k].0 as int]);
                        }
                    }
                }
            }
            i += 1;
        }
        proof {
            assert forall|k: int|
                0 <= k < ends.len() && seen@[(#[trigger] ends[k]).0 as int] && !queue@.contains(
                    ends[k].0,
                ) implies seen@[ends[k].1 as int] && ends[k].1 != goal by {
                if ends[k].0 == current {
                    assert(next@[ends[k].0 as int]@.contains(ends[k].1));
                    let j = choose|j: int|
                        0 <= j < targets@.len() && targets@[j] == ends[k].1;
                    assert(seen@[targets@[j] as int]);
                }
            }
        }
    }
    proof {
        assert forall|k: int|
            0 <= k < ends.len() && seen@[(#[trigger] ends[k]).0 as int] implies ends[k].1
            < seen@.len() && seen@[ends[k].1 as int] && ends[k].1 != goal by {
            assert(!queue@.contains(ends[k].0));
        }
        lemma_closed(ends, seen@, start as int, goal as int);
    }
    false
}

/// The place of a file in a list, where it is put if it is not in it.
fn place(files: &mut Vec<String>, file: &str) -> (at: usize)
    requires
        forall|i: int, j: int|
            0 <= i < j < old(files)@.len() ==> (#[trigger] old(files)@[i])@ != (
            #[trigger] old(files)@[j])@,
    ensures
        at < final(files)@.len(),
        final(files)@[at as int]@ == file@,
        final(files)@.len() >= old(files)@.len(),
        forall|i: int| 0 <= i < old(files)@.len() ==> #[trigger] final(files)@[i] == old(files)@[i],
        forall|i: int, j: int|
            0 <= i < j < final(files)@.len() ==> (#[trigger] final(files)@[i])@ != (
            #[trigger] final(files)@[j])@,
{
    let mut i: usize = 0;
    while i < files.len()
        invariant
            files@ == old(files)@,
            i <= files@.len(),
            forall|k: int| 0 <= k < i ==> (#[trigger] files@[k])@ != file@,
            forall|a: int, b: int|
                0 <= a < b < files@.len() ==> (#[trigger] files@[a])@ != (#[trigger] files@[b])@,
        decreases files@.len() - i,
    {
        if text::same(files[i].as_str(), file) {
            return i;
        }
        i += 1;
    }
    files.push(file.to_owned());
    i
}

/// Every edge between two files that lies on a cycle, in order.
pub fn cycles(edges: &Vec<(String, String)>) -> (found: Vec<(String, String)>)
    ensures
        order::pair_views(found@) == cycles_of(order::pair_views(edges@)),
{
    let ghost all = order::pair_views(edges@);
    let mut files: Vec<String> = Vec::new();
    let mut ends: Vec<(usize, usize)> = Vec::new();
    let mut i: usize = 0;
    while i < edges.len()
        invariant
            i <= edges@.len(),
            all == order::pair_views(edges@),
            ends@.len() == i,
            forall|a: int, b: int|
                0 <= a < b < files@.len() ==> (#[trigger] files@[a])@ != (#[trigger] files@[b])@,
            forall|k: int|
                0 <= k < i ==> (#[trigger] ends@[k]).0 < files@.len() && ends@[k].1 < files@.len()
                    && all[k] == (files@[ends@[k].0 as int]@, files@[ends@[k].1 as int]@),
        decreases edges@.len() - i,
    {
        assert(all[i as int] == (edges@[i as int].0@, edges@[i as int].1@));
        let source: usize = place(&mut files, edges[i].0.as_str());
        let target: usize = place(&mut files, edges[i].1.as_str());
        ends.push((source, target));
        i += 1;
    }
    let ghost names = text::string_views(files@);
    assert(placed(all, names, ends@));
    let count: usize = files.len();
    let mut next: Vec<Vec<usize>> = Vec::new();
    while next.len() < count
        invariant
            next@.len() <= count,
            forall|v: int| 0 <= v < next@.len() ==> (#[trigger] next@[v])@.len() == 0,
        decreases count - next@.len(),
    {
        next.push(Vec::new());
    }
    let mut k: usize = 0;
    assert(ends@.take(0) =~= Seq::empty());
    while k < ends.len()
        invariant
            k <= ends@.len(),
            count == names.len(),
            placed(all, names, ends@),
            neighbours(ends@.take(k as int), next@, count as nat),
        decreases ends@.len() - k,
    {
        let (source, target) = ends[k];
        assert(ends@[k as int].0 < names.len() && ends@[k as int].1 < names.len());
        let ghost before = next@;
        let ghost part = ends@.take(k as int);
        let ghost more = ends@.take(k + 1);
        let mut targets: Vec<usize> = Vec::new();
        std::mem::swap(&mut targets, &mut next[source]);
        targets.push(target);
        next.set(source, targets);
        proof {
            assert(next@ =~= before.update(source as int, targets));
            assert(targets@ == before[source as int]@.push(target));
            assert forall|j: int| 0 <= j < more.len() implies (#[trigger] more[j]).0 < count
                && more[j].1 < count && next@[more[j].0 as int]@.contains(more[j].1) by {
                if j < k {
                    assert(part[j] == more[j]);
                    assert(before[part[j].0 as int]@.contains(part[j].1));
                    if more[j].0 == source {
                        let at = choose|at: int|
                            0 <= at < before[source as int]@.len() && before[source as int]@[at]
                                == more[j].1;
                        assert(targets@[at] == more[j].1);
                    }
                } else {
                    assert(targets@[before[source as int]@.len() as int] == target);
                }
            }
            assert forall|v: int, j: int|
                0 <= v < count && 0 <= j < next@[v]@.len() implies has_edge(
                more,
                v,
                #[trigger] next@[v]@[j],
            ) by {
                if v == source && j == before[v]@.len() {
                    assert(more[k as int].0 == v && more[k as int].1 == next@[v]@[j]);
                } else {
                    assert(next@[v]@[j] == before[v]@[j]);
                    assert(has_edge(part, v, before[v]@[j]));
                    let e = choose|e: int|
                        0 <= e < part.len() && (#[trigger] part[e]).0 == v && part[e].1
                            == before[v]@[j];
                    assert(more[e] == part[e]);
                }
            }
            assert(neighbours(more, next@, count as nat));
        }
        k += 1;
    }
    assert(ends@.take(k as int) =~= ends@);
    let mut found: Vec<(String, String)> = Vec::new();
    let mut e: usize = 0;
    assert(order::pair_views(found@) =~= Seq::empty());
    while e < edges.len()
        invariant
            e <= edges@.len(),
            all == order::pair_views(edges@),
            all.len() == ends@.len(),
            placed(all, names, ends@),
            next@.len() == names.len(),
            neighbours(ends@, next@, next@.len()),
            order::pair_views(found@) == cyclic(all, all.take(e as int)),
        decreases edges@.len() - e,
    {
        let (source, target) = ends[e];
        proof {
            assert(all.take(e + 1).drop_last() =~= all.take(e as int));
            assert(all[e as int] == (edges@[e as int].0@, edges@[e as int].1@));
            assert(ends@[e as int].0 < names.len());
            lemma_places(all, names, ends@, target as int, source as int);
            if source < target {
                assert(names[source as int] != names[target as int]);
            } else if target < source {
                assert(names[target as int] != names[source as int]);
            }
        }
        if source != target && leads_to(&next, target, source, Ghost(ends@)) {
            let pair = (edges[e].0.clone(), edges[e].1.clone());
            assert(order::pair_views(found@.push(pair)) =~= order::pair_views(found@).push(
                (pair.0@, pair.1@),
            ));
            found.push(pair);
        }
        e += 1;
    }
    assert(all.take(e as int) =~= all);
    found
}

} // verus!
