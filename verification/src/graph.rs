//! Undirected reachability over a set of walks.
//!
//! A walk is an ordered pair of vertices; it joins its two ends whichever way
//! round it is stored. The lemmas here are what a spanning tree is built from:
//! how reachability grows when one walk is added, and why a set of walks in
//! which every walk is the only way between its ends has no cycle.

use vstd::prelude::*;

verus! {

/// Whether a walk joins `x` and `y`, in either direction.
pub open spec fn linked<V>(walks: Set<(V, V)>, x: V, y: V) -> bool {
    walks.contains((x, y)) || walks.contains((y, x))
}

/// Whether a walk joins the vertex at position `k` of `path` to the next one.
pub open spec fn step_linked<V>(walks: Set<(V, V)>, path: Seq<V>, k: int) -> bool {
    linked(walks, path[k], path[k + 1])
}

/// Whether `path` is a non-empty sequence of vertices, each joined to the next.
pub open spec fn is_path<V>(walks: Set<(V, V)>, path: Seq<V>) -> bool {
    &&& path.len() > 0
    &&& forall|k: int| 0 <= k < path.len() - 1 ==> #[trigger] step_linked(walks, path, k)
}

/// Whether some path leads from `x` to `y`.
pub open spec fn reachable<V>(walks: Set<(V, V)>, x: V, y: V) -> bool {
    exists|path: Seq<V>| #[trigger] is_path(walks, path) && path[0] == x && path.last() == y
}

/// Whether `cycle` is a closed path of at least three distinct vertices.
pub open spec fn is_cycle<V>(walks: Set<(V, V)>, cycle: Seq<V>) -> bool {
    &&& cycle.len() >= 3
    &&& cycle.no_duplicates()
    &&& is_path(walks, cycle)
    &&& linked(walks, cycle.last(), cycle[0])
}

/// Whether the walks hold no cycle.
pub open spec fn acyclic<V>(walks: Set<(V, V)>) -> bool {
    forall|cycle: Seq<V>| !#[trigger] is_cycle(walks, cycle)
}

/// Whether every walk is the only way between its two ends.
pub open spec fn all_bridges<V>(walks: Set<(V, V)>) -> bool {
    forall|e: (V, V)| #[trigger] walks.contains(e) ==> !reachable(walks.remove(e), e.0, e.1)
}

/// Every vertex reaches itself.
pub proof fn lemma_reachable_reflexive<V>(walks: Set<(V, V)>, x: V)
    ensures
        reachable(walks, x, x),
{
    let path = seq![x];
    assert(is_path(walks, path));
}

/// The two ends of a walk reach each other.
pub proof fn lemma_reachable_linked<V>(walks: Set<(V, V)>, x: V, y: V)
    requires
        linked(walks, x, y),
    ensures
        reachable(walks, x, y),
{
    let path = seq![x, y];
    assert forall|k: int| 0 <= k < path.len() - 1 implies #[trigger] step_linked(
        walks,
        path,
        k,
    ) by {
        assert(path[0] == x && path[1] == y);
    }
    assert(is_path(walks, path));
}

/// Reachability does not depend on direction.
pub proof fn lemma_reachable_symmetric<V>(walks: Set<(V, V)>, x: V, y: V)
    requires
        reachable(walks, x, y),
    ensures
        reachable(walks, y, x),
{
    let path = choose|path: Seq<V>| #[trigger]
        is_path(walks, path) && path[0] == x && path.last() == y;
    let back = path.reverse();
    assert forall|k: int| 0 <= k < back.len() - 1 implies #[trigger] step_linked(
        walks,
        back,
        k,
    ) by {
        let j = path.len() - 2 - k;
        assert(step_linked(walks, path, j));
        assert(back[k] == path[j + 1]);
        assert(back[k + 1] == path[j]);
    }
    assert(is_path(walks, back));
    assert(back[0] == y && back.last() == x);
}

/// Paths can be joined end to end.
pub proof fn lemma_reachable_transitive<V>(walks: Set<(V, V)>, x: V, y: V, z: V)
    requires
        reachable(walks, x, y),
        reachable(walks, y, z),
    ensures
        reachable(walks, x, z),
{
    let first = choose|path: Seq<V>| #[trigger]
        is_path(walks, path) && path[0] == x && path.last() == y;
    let second = choose|path: Seq<V>| #[trigger]
        is_path(walks, path) && path[0] == y && path.last() == z;
    let head = first.drop_last();
    let joined = head + second;
    assert forall|k: int| 0 <= k < joined.len() - 1 implies #[trigger] step_linked(
        walks,
        joined,
        k,
    ) by {
        if k < head.len() - 1 {
            assert(step_linked(walks, first, k));
            assert(joined[k] == first[k] && joined[k + 1] == first[k + 1]);
        } else if k == head.len() - 1 {
            assert(step_linked(walks, first, k));
            assert(joined[k] == first[k]);
            assert(joined[k + 1] == second[0]);
        } else {
            let j = k - head.len();
            assert(step_linked(walks, second, j));
            assert(joined[k] == second[j] && joined[k + 1] == second[j + 1]);
        }
    }
    assert(is_path(walks, joined));
    assert(joined[0] == x);
    assert(joined.last() == z);
}

/// Adding walks takes no path away.
pub proof fn lemma_reachable_monotone<V>(small: Set<(V, V)>, large: Set<(V, V)>, x: V, y: V)
    requires
        small.subset_of(large),
        reachable(small, x, y),
    ensures
        reachable(large, x, y),
{
    let path = choose|path: Seq<V>| #[trigger]
        is_path(small, path) && path[0] == x && path.last() == y;
    assert forall|k: int| 0 <= k < path.len() - 1 implies #[trigger] step_linked(
        large,
        path,
        k,
    ) by {
        assert(step_linked(small, path, k));
    }
    assert(is_path(large, path));
}

/// What a walk from `a` to `b` adds to a set of walks, in terms of the old
/// set: old paths, and paths that cross the new walk one way or the other.
pub open spec fn reachable_across<V>(walks: Set<(V, V)>, a: V, b: V, x: V, y: V) -> bool {
    ||| reachable(walks, x, y)
    ||| reachable(walks, x, a) && reachable(walks, b, y)
    ||| reachable(walks, x, b) && reachable(walks, a, y)
}

/// A path that may use the new walk from `a` to `b` joins its ends in one of
/// the three ways of `reachable_across`.
pub proof fn lemma_path_across<V>(walks: Set<(V, V)>, a: V, b: V, path: Seq<V>)
    requires
        is_path(walks.insert((a, b)), path),
    ensures
        reachable_across(walks, a, b, path[0], path.last()),
    decreases path.len(),
{
    let x = path[0];
    let y = path.last();
    if path.len() == 1 {
        lemma_reachable_reflexive(walks, x);
    } else {
        let grown = walks.insert((a, b));
        let head = path.drop_last();
        let z = head.last();
        assert forall|k: int| 0 <= k < head.len() - 1 implies #[trigger] step_linked(
            grown,
            head,
            k,
        ) by {
            assert(step_linked(grown, path, k));
        }
        lemma_path_across(walks, a, b, head);
        assert(head[0] == x);
        assert(step_linked(grown, path, path.len() - 2));
        assert(linked(grown, z, y));
        lemma_reachable_reflexive(walks, a);
        lemma_reachable_reflexive(walks, b);
        if linked(walks, z, y) {
            lemma_reachable_linked(walks, z, y);
            if reachable(walks, x, z) {
                lemma_reachable_transitive(walks, x, z, y);
            } else if reachable(walks, x, a) && reachable(walks, b, z) {
                lemma_reachable_transitive(walks, b, z, y);
            } else {
                lemma_reachable_transitive(walks, a, z, y);
            }
        } else if z == a && y == b {
            if reachable(walks, x, z) {
            } else if reachable(walks, x, a) && reachable(walks, b, z) {
            } else {
            }
        } else {
            assert(z == b && y == a);
        }
    }
}

/// Reachability after adding the walk from `a` to `b` is exactly
/// `reachable_across` before.
pub proof fn lemma_reachable_insert<V>(walks: Set<(V, V)>, a: V, b: V, x: V, y: V)
    ensures
        reachable(walks.insert((a, b)), x, y) <==> reachable_across(walks, a, b, x, y),
{
    let grown = walks.insert((a, b));
    if reachable(grown, x, y) {
        let path = choose|path: Seq<V>| #[trigger]
            is_path(grown, path) && path[0] == x && path.last() == y;
        lemma_path_across(walks, a, b, path);
    }
    if reachable_across(walks, a, b, x, y) {
        assert(walks.subset_of(grown));
        assert(linked(grown, a, b));
        lemma_reachable_linked(grown, a, b);
        lemma_reachable_symmetric(grown, a, b);
        if reachable(walks, x, y) {
            lemma_reachable_monotone(walks, grown, x, y);
        } else if reachable(walks, x, a) && reachable(walks, b, y) {
            lemma_reachable_monotone(walks, grown, x, a);
            lemma_reachable_monotone(walks, grown, b, y);
            lemma_reachable_transitive(grown, x, a, b);
            lemma_reachable_transitive(grown, x, b, y);
        } else {
            lemma_reachable_monotone(walks, grown, x, b);
            lemma_reachable_monotone(walks, grown, a, y);
            lemma_reachable_transitive(grown, x, b, a);
            lemma_reachable_transitive(grown, x, a, y);
        }
    }
}

/// Joining two vertices that no path joined keeps every walk a bridge.
pub proof fn lemma_bridges_insert<V>(walks: Set<(V, V)>, a: V, b: V)
    requires
        all_bridges(walks),
        !reachable(walks, a, b),
    ensures
        all_bridges(walks.insert((a, b))),
        !walks.contains((a, b)),
{
    let grown = walks.insert((a, b));
    if walks.contains((a, b)) {
        lemma_reachable_linked(walks, a, b);
    }
    assert forall|e: (V, V)| #[trigger] grown.contains(e) implies !reachable(
        grown.remove(e),
        e.0,
        e.1,
    ) by {
        if e == (a, b) {
            assert(grown.remove(e) =~= walks);
        } else {
            let rest = walks.remove(e);
            let (c, d) = e;
            assert(walks.contains(e));
            assert(grown.remove(e) =~= rest.insert((a, b)));
            if reachable(rest.insert((a, b)), c, d) {
                lemma_reachable_insert(rest, a, b, c, d);
                assert(rest.subset_of(walks));
                assert(linked(walks, c, d));
                lemma_reachable_linked(walks, c, d);
                lemma_reachable_symmetric(walks, c, d);
                if reachable(rest, c, d) {
                } else if reachable(rest, c, a) && reachable(rest, b, d) {
                    lemma_reachable_monotone(rest, walks, c, a);
                    lemma_reachable_monotone(rest, walks, b, d);
                    lemma_reachable_symmetric(walks, c, a);
                    lemma_reachable_symmetric(walks, b, d);
                    lemma_reachable_transitive(walks, a, c, d);
                    lemma_reachable_transitive(walks, a, d, b);
                } else {
                    lemma_reachable_monotone(rest, walks, c, b);
                    lemma_reachable_monotone(rest, walks, a, d);
                    lemma_reachable_transitive(walks, a, d, c);
                    lemma_reachable_transitive(walks, a, c, b);
                }
            }
        }
    }
}

/// Where every walk is a bridge, no cycle exists: the rest of a cycle would
/// be a second way between the ends of its first walk.
pub proof fn lemma_bridges_acyclic<V>(walks: Set<(V, V)>)
    requires
        all_bridges(walks),
    ensures
        acyclic(walks),
{
    assert forall|cycle: Seq<V>| !#[trigger] is_cycle(walks, cycle) by {
        if is_cycle(walks, cycle) {
            let n = cycle.len() as int;
            let first = cycle[0];
            let second = cycle[1];
            assert(step_linked(walks, cycle, 0));
            let e = if walks.contains((first, second)) {
                (first, second)
            } else {
                (second, first)
            };
            let rest = walks.remove(e);
            let around = cycle.subrange(1, n).push(first);
            assert forall|k: int| 0 <= k < around.len() - 1 implies #[trigger] step_linked(
                rest,
                around,
                k,
            ) by {
                assert(around[k] == cycle[k + 1]);
                if k + 2 < n {
                    assert(around[k + 1] == cycle[k + 2]);
                    assert(step_linked(walks, cycle, k + 1));
                    assert(cycle[k + 2] != cycle[0] && cycle[k + 2] != cycle[1]);
                } else {
                    assert(around[k + 1] == first);
                    assert(cycle[k + 1] == cycle.last());
                    assert(cycle[n - 1] != cycle[0] && cycle[n - 1] != cycle[1]);
                }
            }
            assert(is_path(rest, around));
            assert(around[0] == second && around.last() == first);
            lemma_reachable_symmetric(rest, second, first);
        }
    }
}

} // verus!
