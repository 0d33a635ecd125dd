//! What a generated maze is: the walks that remain when every candidate edge
//! of the grid is tried in queue order and kept only if it joins two cells
//! that no kept walk joined before.

use crate::graph::{
    acyclic, all_bridges, is_path, lemma_bridges_acyclic, lemma_bridges_insert,
    lemma_reachable_insert, lemma_reachable_linked, lemma_reachable_monotone,
    lemma_reachable_reflexive, lemma_reachable_symmetric, lemma_reachable_transitive, reachable,
    step_linked,
};
use crate::grid::{
    cell_at, cell_count, coordinate, in_grid, index_of, is_forward_walk, is_step,
    lemma_cell_round_trip, lemma_index_round_trip, lemma_step_index, lemma_stride_positive,
    neighbor, stride,
};
use crate::queue::{lemma_queue_order_total, precedes, queue_order, Candidate};
use vstd::arithmetic::div_mod::{lemma_fundamental_div_mod_converse, lemma_mod_bound};
use vstd::multiset::*;
use vstd::prelude::*;
use vstd::relations::*;
use vstd::seq_lib::*;

verus! {

/// Whether a candidate starts at a cell of the grid and ends at one.
pub open spec fn candidate_in_grid(lengths: Seq<u8>, candidate: Candidate) -> bool {
    &&& candidate.cell < cell_count(lengths)
    &&& candidate.dim < lengths.len()
    &&& coordinate(lengths, candidate.cell as nat, candidate.dim as int) + 1
        < lengths[candidate.dim as int]
}

/// The walk that a candidate stands for: from its cell to the neighbor one
/// step further along its dimension.
pub open spec fn candidate_walk(lengths: Seq<u8>, candidate: Candidate) -> (Seq<u8>, Seq<u8>) {
    let from = cell_at(lengths, candidate.cell as nat);
    (from, neighbor(from, candidate.dim as int))
}

/// The walks kept after trying the candidates of `order` from first to last.
pub open spec fn accepted(lengths: Seq<u8>, order: Seq<Candidate>) -> Set<(Seq<u8>, Seq<u8>)>
    decreases order.len(),
{
    if order.len() == 0 {
        Set::empty()
    } else {
        let earlier = accepted(lengths, order.drop_last());
        let walk = candidate_walk(lengths, order.last());
        if candidate_in_grid(lengths, order.last()) && !reachable(earlier, walk.0, walk.1) {
            earlier.insert(walk)
        } else {
            earlier
        }
    }
}

/// One candidate per cell and dimension, cell by cell, each with the
/// priority drawn for it.
pub open spec fn candidates(lengths: Seq<u8>, priorities: Seq<u32>) -> Seq<Candidate> {
    Seq::new(
        priorities.len(),
        |k: int|
            Candidate {
                priority: priorities[k],
                cell: (k / (lengths.len() as int)) as usize,
                dim: (k % (lengths.len() as int)) as usize,
            },
    )
}

/// The candidates in the order in which the queue hands them out.
pub open spec fn pop_order(lengths: Seq<u8>, priorities: Seq<u32>) -> Seq<Candidate> {
    candidates(lengths, priorities).sort_by(queue_order())
}

/// The walks of the maze generated over `lengths` from `priorities`.
pub open spec fn generated_walks(lengths: Seq<u8>, priorities: Seq<u32>) -> Set<
    (Seq<u8>, Seq<u8>),
> {
    accepted(lengths, pop_order(lengths, priorities))
}

/// Whether every pair of cells of the grid is joined by some path.
pub open spec fn spans_grid(lengths: Seq<u8>, walks: Set<(Seq<u8>, Seq<u8>)>) -> bool {
    forall|x: Seq<u8>, y: Seq<u8>|
        in_grid(lengths, x) && in_grid(lengths, y) ==> #[trigger] reachable(walks, x, y)
}

/// Whether `walks` is a spanning tree of the grid: its walks are steps of
/// the grid, they join all cells, they hold no cycle, and where the grid has
/// cells there is one walk less than there are cells.
pub open spec fn is_spanning_tree(lengths: Seq<u8>, walks: Set<(Seq<u8>, Seq<u8>)>) -> bool {
    &&& forall|walk: (Seq<u8>, Seq<u8>)| #[trigger]
        walks.contains(walk) ==> is_forward_walk(lengths, walk)
    &&& spans_grid(lengths, walks)
    &&& acyclic(walks)
    &&& walks.finite()
    &&& cell_count(lengths) > 0 ==> walks.len() + 1 == cell_count(lengths)
}

/// Whether the two ends of every step of the grid are joined by some path.
pub open spec fn joins_steps(lengths: Seq<u8>, walks: Set<(Seq<u8>, Seq<u8>)>) -> bool {
    forall|a: Seq<u8>, b: Seq<u8>, dim: int| #[trigger]
        is_step(lengths, a, b, dim) ==> reachable(walks, a, b)
}

/// The walk of a candidate in the grid is a step of the grid.
pub proof fn lemma_candidate_step(lengths: Seq<u8>, candidate: Candidate)
    requires
        candidate_in_grid(lengths, candidate),
    ensures
        is_step(
            lengths,
            candidate_walk(lengths, candidate).0,
            candidate_walk(lengths, candidate).1,
            candidate.dim as int,
        ),
{
    lemma_index_round_trip(lengths, candidate.cell as nat);
}

/// The kept walks are finitely many steps of the grid, and each is the only
/// way between its ends.
pub proof fn lemma_accepted_walks(lengths: Seq<u8>, order: Seq<Candidate>)
    ensures
        accepted(lengths, order).finite(),
        forall|walk: (Seq<u8>, Seq<u8>)| #[trigger]
            accepted(lengths, order).contains(walk) ==> is_forward_walk(lengths, walk),
        all_bridges(accepted(lengths, order)),
    decreases order.len(),
{
    if order.len() > 0 {
        let earlier = accepted(lengths, order.drop_last());
        let walk = candidate_walk(lengths, order.last());
        lemma_accepted_walks(lengths, order.drop_last());
        if candidate_in_grid(lengths, order.last()) && !reachable(earlier, walk.0, walk.1) {
            lemma_candidate_step(lengths, order.last());
            lemma_bridges_insert(earlier, walk.0, walk.1);
        }
    }
}

/// Kept walks stay kept as more candidates are tried.
pub proof fn lemma_accepted_grows(lengths: Seq<u8>, order: Seq<Candidate>, k: int)
    requires
        0 <= k <= order.len(),
    ensures
        accepted(lengths, order.take(k)).subset_of(accepted(lengths, order)),
    decreases order.len() - k,
{
    if k == order.len() {
        assert(order.take(k) =~= order);
    } else {
        lemma_accepted_grows(lengths, order, k + 1);
        assert(order.take(k + 1).drop_last() =~= order.take(k));
    }
}

/// Once a candidate in the grid has been tried, its two ends are joined.
pub proof fn lemma_tried_joined(lengths: Seq<u8>, order: Seq<Candidate>, k: int)
    requires
        0 <= k < order.len(),
        candidate_in_grid(lengths, order[k]),
    ensures
        reachable(
            accepted(lengths, order),
            candidate_walk(lengths, order[k]).0,
            candidate_walk(lengths, order[k]).1,
        ),
{
    let upto = order.take(k + 1);
    let walk = candidate_walk(lengths, order[k]);
    assert(upto.last() == order[k]);
    let earlier = accepted(lengths, upto.drop_last());
    if !reachable(earlier, walk.0, walk.1) {
        assert(accepted(lengths, upto).contains(walk));
        lemma_reachable_linked(accepted(lengths, upto), walk.0, walk.1);
    } else {
        assert(earlier.subset_of(accepted(lengths, upto)));
        lemma_reachable_monotone(earlier, accepted(lengths, upto), walk.0, walk.1);
    }
    lemma_accepted_grows(lengths, order, k + 1);
    lemma_reachable_monotone(accepted(lengths, upto), accepted(lengths, order), walk.0, walk.1);
}

/// The cell whose coordinates are all zero.
pub open spec fn origin(lengths: Seq<u8>) -> Seq<u8> {
    Seq::new(lengths.len(), |d: int| 0u8)
}

/// Where the ends of every step are joined, every cell is joined to the
/// origin: walk back one step at a time.
pub proof fn lemma_joined_to_origin(lengths: Seq<u8>, walks: Set<(Seq<u8>, Seq<u8>)>, x: Seq<u8>)
    requires
        joins_steps(lengths, walks),
        in_grid(lengths, x),
    ensures
        reachable(walks, origin(lengths), x),
    decreases index_of(lengths, x),
{
    if x =~= origin(lengths) {
        lemma_reachable_reflexive(walks, x);
    } else {
        let d = choose|d: int| 0 <= d < lengths.len() && x[d] != 0;
        let back = x.update(d, (x[d] - 1) as u8);
        assert(in_grid(lengths, back));
        assert(neighbor(back, d) =~= x);
        assert(is_step(lengths, back, x, d));
        lemma_step_index(lengths, back, x, d);
        lemma_stride_positive(lengths, d);
        lemma_joined_to_origin(lengths, walks, back);
        lemma_reachable_transitive(walks, origin(lengths), back, x);
    }
}

/// Where the ends of every step are joined, all cells are joined.
pub proof fn lemma_steps_span(lengths: Seq<u8>, walks: Set<(Seq<u8>, Seq<u8>)>)
    requires
        joins_steps(lengths, walks),
    ensures
        spans_grid(lengths, walks),
{
    assert forall|x: Seq<u8>, y: Seq<u8>|
        in_grid(lengths, x) && in_grid(lengths, y) implies #[trigger] reachable(walks, x, y) by {
        lemma_joined_to_origin(lengths, walks, x);
        lemma_joined_to_origin(lengths, walks, y);
        lemma_reachable_symmetric(walks, origin(lengths), x);
        lemma_reachable_transitive(walks, x, origin(lengths), y);
    }
}

/// Whether `order` tries the step from the cell numbered `cell` along `dim`.
pub open spec fn tries_step(order: Seq<Candidate>, cell: int, dim: int) -> bool {
    exists|k: int|
        0 <= k < order.len() && (#[trigger] order[k]).cell == cell && order[k].dim == dim
}

/// Whether `order` tries the step from every cell along every dimension.
pub open spec fn tries_all_steps(lengths: Seq<u8>, order: Seq<Candidate>) -> bool {
    forall|cell: int, dim: int|
        0 <= cell < cell_count(lengths) && 0 <= dim < lengths.len() ==> #[trigger] tries_step(
            order,
            cell,
            dim,
        )
}

/// An order that tries every step leaves a maze in which all cells are
/// joined and no cycle exists.
pub proof fn lemma_accepted_spanning_tree(lengths: Seq<u8>, order: Seq<Candidate>)
    requires
        tries_all_steps(lengths, order),
    ensures
        spans_grid(lengths, accepted(lengths, order)),
        acyclic(accepted(lengths, order)),
{
    let walks = accepted(lengths, order);
    lemma_accepted_walks(lengths, order);
    lemma_bridges_acyclic(walks);
    assert forall|a: Seq<u8>, b: Seq<u8>, dim: int| #[trigger]
        is_step(lengths, a, b, dim) implies reachable(walks, a, b) by {
        let cell = index_of(lengths, a) as int;
        lemma_cell_round_trip(lengths, a);
        assert(tries_step(order, cell, dim));
        let k = choose|k: int|
            0 <= k < order.len() && (#[trigger] order[k]).cell == cell && order[k].dim == dim;
        lemma_stride_positive(lengths, dim);
        lemma_mod_bound(cell / (stride(lengths, dim) as int), lengths[dim] as int);
        assert(cell_at(lengths, cell as nat)[dim] == coordinate(lengths, cell as nat, dim));
        assert(candidate_in_grid(lengths, order[k]));
        lemma_tried_joined(lengths, order, k);
    }
    lemma_steps_span(lengths, walks);
}

/// Whether a path of `walks` joins the cells numbered `i` and `j`.
pub open spec fn joined(lengths: Seq<u8>, walks: Set<(Seq<u8>, Seq<u8>)>, i: int, j: int) -> bool {
    reachable(walks, cell_at(lengths, i as nat), cell_at(lengths, j as nat))
}

/// Whether `labels` gives two cells the same label exactly when a path of
/// `walks` joins them.
pub open spec fn labels_track(
    labels: Seq<int>,
    lengths: Seq<u8>,
    walks: Set<(Seq<u8>, Seq<u8>)>,
) -> bool {
    &&& labels.len() == cell_count(lengths)
    &&& forall|i: int, j: int|
        0 <= i < labels.len() && 0 <= j < labels.len() ==> (labels[i] == labels[j]
            <==> #[trigger] joined(lengths, walks, i, j))
}

/// Whether every label is the number of a cell that carries it.
pub open spec fn labels_by_member(labels: Seq<int>) -> bool {
    forall|i: int|
        0 <= i < labels.len() ==> 0 <= #[trigger] labels[i] < labels.len() && labels[labels[i]]
            == labels[i]
}

/// The labels after the cells labelled `from` have taken the label `to`.
pub open spec fn relabel(labels: Seq<int>, from: int, to: int) -> Seq<int> {
    Seq::new(
        labels.len(),
        |i: int|
            if labels[i] == from {
                to
            } else {
                labels[i]
            },
    )
}

/// Number of cells among the first `k` that are their own label.
pub open spec fn label_count(labels: Seq<int>, k: int) -> nat
    decreases k,
{
    if k <= 0 {
        0
    } else {
        label_count(labels, k - 1) + if labels[k - 1] == k - 1 {
            1nat
        } else {
            0nat
        }
    }
}

/// With no walks, a cell is joined to itself only.
pub proof fn lemma_trivial_paths(lengths: Seq<u8>, i: int, j: int)
    requires
        0 <= i < cell_count(lengths),
        0 <= j < cell_count(lengths),
    ensures
        i == j <==> joined(lengths, Set::<(Seq<u8>, Seq<u8>)>::empty(), i, j),
{
    let none = Set::<(Seq<u8>, Seq<u8>)>::empty();
    let x = cell_at(lengths, i as nat);
    let y = cell_at(lengths, j as nat);
    lemma_index_round_trip(lengths, i as nat);
    lemma_index_round_trip(lengths, j as nat);
    if i == j {
        lemma_reachable_reflexive(none, x);
    }
    if reachable(none, x, y) {
        let path = choose|path: Seq<(Seq<u8>)>| #[trigger]
            is_path(none, path) && path[0] == x && path.last() == y;
        if path.len() > 1 {
            assert(step_linked(none, path, 0));
        }
    }
}

/// Where every cell is its own label, the labels track the maze without
/// walks.
pub proof fn lemma_labels_at_start(labels: Seq<int>, lengths: Seq<u8>)
    requires
        labels.len() == cell_count(lengths),
        forall|i: int| 0 <= i < labels.len() ==> labels[i] == i,
    ensures
        labels_track(labels, lengths, Set::<(Seq<u8>, Seq<u8>)>::empty()),
{
    let none = Set::<(Seq<u8>, Seq<u8>)>::empty();
    assert forall|i: int, j: int| 0 <= i < labels.len() && 0 <= j < labels.len() implies (
    labels[i] == labels[j] <==> #[trigger] joined(lengths, none, i, j)) by {
        lemma_trivial_paths(lengths, i, j);
    }
}

/// A new walk between two cells of different labels is tracked by giving
/// the cells of the second label the first.
pub proof fn lemma_labels_after_insert(
    labels: Seq<int>,
    lengths: Seq<u8>,
    walks: Set<(Seq<u8>, Seq<u8>)>,
    ia: int,
    ib: int,
)
    requires
        labels_track(labels, lengths, walks),
        0 <= ia < labels.len(),
        0 <= ib < labels.len(),
        labels[ia] != labels[ib],
    ensures
        labels_track(
            relabel(labels, labels[ib], labels[ia]),
            lengths,
            walks.insert((cell_at(lengths, ia as nat), cell_at(lengths, ib as nat))),
        ),
{
    let a = cell_at(lengths, ia as nat);
    let b = cell_at(lengths, ib as nat);
    let grown = walks.insert((a, b));
    let after = relabel(labels, labels[ib], labels[ia]);
    assert forall|i: int, j: int| 0 <= i < after.len() && 0 <= j < after.len() implies (after[i]
        == after[j] <==> #[trigger] joined(lengths, grown, i, j)) by {
        lemma_reachable_insert(walks, a, b, cell_at(lengths, i as nat), cell_at(lengths, j as nat));
        assert(labels[i] == labels[j] <==> joined(lengths, walks, i, j));
        assert(labels[i] == labels[ia] <==> joined(lengths, walks, i, ia));
        assert(labels[ib] == labels[j] <==> joined(lengths, walks, ib, j));
        assert(labels[i] == labels[ib] <==> joined(lengths, walks, i, ib));
        assert(labels[ia] == labels[j] <==> joined(lengths, walks, ia, j));
    }
}

/// Where one cell stops being its own label and all others stay as they
/// were, the count of such cells falls by one.
pub proof fn lemma_label_count_falls(labels: Seq<int>, after: Seq<int>, lost: int, k: int)
    requires
        0 <= k <= labels.len(),
        after.len() == labels.len(),
        0 <= lost < labels.len(),
        labels[lost] == lost,
        forall|i: int| 0 <= i < k ==> (#[trigger] after[i] == i <==> labels[i] == i && i != lost),
    ensures
        label_count(after, k) + (if lost < k {
            1nat
        } else {
            0nat
        }) == label_count(labels, k),
    decreases k,
{
    if k > 0 {
        lemma_label_count_falls(labels, after, lost, k - 1);
        assert(after[k - 1] == k - 1 <==> labels[k - 1] == k - 1 && k - 1 != lost);
    }
}

/// Where each of the first `k` cells is its own label exactly if it is the
/// cell `only`, the count of such cells is one or none.
pub proof fn lemma_label_count_single(labels: Seq<int>, only: int, k: int)
    requires
        0 <= k <= labels.len(),
        forall|i: int| 0 <= i < k ==> (#[trigger] labels[i] == i <==> i == only),
    ensures
        label_count(labels, k) == (if 0 <= only < k {
            1nat
        } else {
            0nat
        }),
    decreases k,
{
    if k > 0 {
        lemma_label_count_single(labels, only, k - 1);
        assert(labels[k - 1] == k - 1 <==> k - 1 == only);
    }
}

/// Where each of the first `k` cells is its own label, all of them count.
pub proof fn lemma_label_count_all(labels: Seq<int>, k: int)
    requires
        0 <= k <= labels.len(),
        forall|i: int| 0 <= i < k ==> #[trigger] labels[i] == i,
    ensures
        label_count(labels, k) == k,
    decreases k,
{
    if k > 0 {
        lemma_label_count_all(labels, k - 1);
        assert(labels[k - 1] == k - 1);
    }
}

/// The kept walks and the groups of cells that they join add up to the
/// number of cells: each kept walk joins two groups into one.
pub proof fn lemma_accepted_labels(lengths: Seq<u8>, order: Seq<Candidate>) -> (labels: Seq<int>)
    ensures
        labels_by_member(labels),
        labels_track(labels, lengths, accepted(lengths, order)),
        accepted(lengths, order).finite(),
        accepted(lengths, order).len() + label_count(labels, labels.len() as int) == cell_count(
            lengths,
        ),
    decreases order.len(),
{
    let count = cell_count(lengths) as int;
    if order.len() == 0 {
        let labels = Seq::new(count as nat, |i: int| i);
        lemma_labels_at_start(labels, lengths);
        lemma_label_count_all(labels, count);
        labels
    } else {
        let before = lemma_accepted_labels(lengths, order.drop_last());
        let earlier = accepted(lengths, order.drop_last());
        let candidate = order.last();
        let walk = candidate_walk(lengths, candidate);
        if candidate_in_grid(lengths, candidate) && !reachable(earlier, walk.0, walk.1) {
            let ia = candidate.cell as int;
            let ib = index_of(lengths, walk.1) as int;
            lemma_candidate_step(lengths, candidate);
            lemma_step_index(lengths, walk.0, walk.1, candidate.dim as int);
            lemma_cell_round_trip(lengths, walk.1);
            assert(joined(lengths, earlier, ia, ib) == reachable(earlier, walk.0, walk.1));
            let keep = before[ia];
            let lost = before[ib];
            let after = relabel(before, lost, keep);
            lemma_labels_after_insert(before, lengths, earlier, ia, ib);
            assert(before[keep] == keep && before[lost] == lost);
            assert forall|i: int| 0 <= i < after.len() implies 0 <= #[trigger] after[i]
                < after.len() && after[after[i]] == after[i] by {
                assert(before[before[i]] == before[i]);
            }
            assert forall|i: int| 0 <= i < count implies (#[trigger] after[i] == i <==> before[i]
                == i && i != lost) by {
                assert(before[before[i]] == before[i]);
            }
            lemma_label_count_falls(before, after, lost, count);
            if earlier.contains(walk) {
                lemma_reachable_linked(earlier, walk.0, walk.1);
            }
            after
        } else {
            before
        }
    }
}

/// A maze that joins all cells of a grid that has cells holds one walk
/// less than there are cells.
pub proof fn lemma_accepted_count(lengths: Seq<u8>, order: Seq<Candidate>)
    requires
        cell_count(lengths) > 0,
        spans_grid(lengths, accepted(lengths, order)),
    ensures
        accepted(lengths, order).finite(),
        accepted(lengths, order).len() + 1 == cell_count(lengths),
{
    let walks = accepted(lengths, order);
    let labels = lemma_accepted_labels(lengths, order);
    let only = labels[0];
    assert forall|i: int| 0 <= i < labels.len() implies (#[trigger] labels[i] == i <==> i
        == only) by {
        lemma_index_round_trip(lengths, i as nat);
        lemma_index_round_trip(lengths, 0);
        assert(joined(lengths, walks, i, 0));
        assert(labels[labels[0]] == labels[0]);
    }
    lemma_label_count_single(labels, only, labels.len() as int);
}

/// The queue hands out every candidate that was put in: one for each cell
/// and dimension.
pub proof fn lemma_pop_order_complete(lengths: Seq<u8>, priorities: Seq<u32>)
    requires
        priorities.len() == cell_count(lengths) * lengths.len(),
        priorities.len() <= usize::MAX,
    ensures
        tries_all_steps(lengths, pop_order(lengths, priorities)),
{
    let all = candidates(lengths, priorities);
    let order = pop_order(lengths, priorities);
    let dims = lengths.len() as int;
    lemma_queue_order_total();
    all.lemma_sort_by_ensures(queue_order());
    assert forall|cell: int, dim: int|
        0 <= cell < cell_count(lengths) && 0 <= dim < lengths.len() implies #[trigger] tries_step(
        order,
        cell,
        dim,
    ) by {
        let at = cell * dims + dim;
        assert(0 <= at < priorities.len()) by (nonlinear_arith)
            requires
                0 <= cell < cell_count(lengths),
                0 <= dim < dims,
                priorities.len() == cell_count(lengths) * dims,
                at == cell * dims + dim,
        ;
        lemma_fundamental_div_mod_converse(at, dims, cell, dim);
        let wanted = all[at];
        assert(wanted.cell == cell && wanted.dim == dim);
        assert(all.contains(wanted));
        to_multiset_contains(all, wanted);
        to_multiset_contains(order, wanted);
        let k = choose|k: int| 0 <= k < order.len() && order[k] == wanted;
        assert(order[k].cell == cell && order[k].dim == dim);
    }
}

/// Every generated maze is a spanning tree of its grid, whatever the
/// priorities.
pub proof fn lemma_generated_spanning_tree(lengths: Seq<u8>, priorities: Seq<u32>)
    requires
        priorities.len() == cell_count(lengths) * lengths.len(),
        priorities.len() <= usize::MAX,
    ensures
        is_spanning_tree(lengths, generated_walks(lengths, priorities)),
{
    let order = pop_order(lengths, priorities);
    lemma_pop_order_complete(lengths, priorities);
    lemma_accepted_walks(lengths, order);
    lemma_accepted_spanning_tree(lengths, order);
    if cell_count(lengths) > 0 {
        lemma_accepted_count(lengths, order);
    }
}

/// A candidate taken from the queue is one of those that were put in: its
/// cell and its dimension exist.
pub proof fn lemma_candidate_listed(
    lengths: Seq<u8>,
    priorities: Seq<u32>,
    popped: Seq<Candidate>,
    waiting: Multiset<Candidate>,
    candidate: Candidate,
)
    requires
        priorities.len() == cell_count(lengths) * lengths.len(),
        priorities.len() <= usize::MAX,
        popped.to_multiset().add(waiting) == candidates(lengths, priorities).to_multiset(),
        waiting.contains(candidate),
    ensures
        candidate.cell < cell_count(lengths),
        candidate.dim < lengths.len(),
{
    let all = candidates(lengths, priorities);
    let dims = lengths.len() as int;
    assert(all.to_multiset().count(candidate) > 0);
    to_multiset_contains(all, candidate);
    let k = choose|k: int| 0 <= k < all.len() && all[k] == candidate;
    assert(dims > 0) by (nonlinear_arith)
        requires
            0 <= k < cell_count(lengths) * dims,
    ;
    vstd::arithmetic::div_mod::lemma_fundamental_div_mod(k, dims);
    lemma_mod_bound(k, dims);
    assert(k / dims < cell_count(lengths)) by (nonlinear_arith)
        requires
            0 <= k < cell_count(lengths) * dims,
            dims > 0,
            k == dims * (k / dims) + k % dims,
            0 <= k % dims < dims,
    ;
}

/// Whether `popped` lists, greatest first, the candidates of `all` that
/// have left a queue which still holds `waiting`.
pub open spec fn popped_so_far(
    popped: Seq<Candidate>,
    waiting: Multiset<Candidate>,
    all: Seq<Candidate>,
) -> bool {
    &&& popped.to_multiset().add(waiting) == all.to_multiset()
    &&& sorted_by(popped, queue_order())
    &&& forall|i: int, other: Candidate|
        0 <= i < popped.len() && waiting.contains(other) ==> #[trigger] precedes(popped[i], other)
}

/// Before anything has left the queue, nothing is listed.
pub proof fn lemma_popped_start(all: Seq<Candidate>)
    ensures
        popped_so_far(Seq::empty(), all.to_multiset(), all),
{
    let none = Seq::<Candidate>::empty();
    none.to_multiset_ensures();
    assert(none.to_multiset() =~= Multiset::<Candidate>::empty());
    assert(none.to_multiset().add(all.to_multiset()) =~= all.to_multiset());
}

/// The candidate that precedes all that wait is the next to be listed.
pub proof fn lemma_popped_next(
    popped: Seq<Candidate>,
    waiting: Multiset<Candidate>,
    all: Seq<Candidate>,
    top: Candidate,
)
    requires
        popped_so_far(popped, waiting, all),
        waiting.contains(top),
        forall|other: Candidate| #[trigger] waiting.contains(other) ==> precedes(top, other),
    ensures
        popped_so_far(popped.push(top), waiting.remove(top), all),
{
    let longer = popped.push(top);
    let rest = waiting.remove(top);
    to_multiset_build(popped, top);
    assert(longer.to_multiset().add(rest) =~= all.to_multiset());
    assert forall|i: int, j: int| 0 <= i < j < longer.len() implies (#[trigger] queue_order()(
        longer[i],
        longer[j],
    )) by {
        if j < popped.len() {
            assert(queue_order()(popped[i], popped[j]));
        } else {
            assert(precedes(popped[i], top));
        }
    }
    assert forall|i: int, other: Candidate|
        0 <= i < longer.len() && rest.contains(other) implies #[trigger] precedes(
        longer[i],
        other,
    ) by {
        assert(waiting.contains(other));
        if i < popped.len() {
            assert(precedes(popped[i], other));
        }
    }
}

/// Once the queue is empty, the candidates are listed in queue order.
pub proof fn lemma_popped_all(
    lengths: Seq<u8>,
    priorities: Seq<u32>,
    popped: Seq<Candidate>,
    waiting: Multiset<Candidate>,
)
    requires
        popped_so_far(popped, waiting, candidates(lengths, priorities)),
        waiting.len() == 0,
    ensures
        popped == pop_order(lengths, priorities),
{
    assert(waiting =~= Multiset::<Candidate>::empty());
    assert(popped.to_multiset() =~= candidates(lengths, priorities).to_multiset());
    lemma_pop_order_unique(lengths, priorities, popped);
}

/// The queue order is the only order that lists the candidates greatest
/// first: what the queue hands out does not depend on how it is built.
pub proof fn lemma_pop_order_unique(lengths: Seq<u8>, priorities: Seq<u32>, order: Seq<Candidate>)
    requires
        sorted_by(order, queue_order()),
        order.to_multiset() == candidates(lengths, priorities).to_multiset(),
    ensures
        order == pop_order(lengths, priorities),
{
    lemma_queue_order_total();
    candidates(lengths, priorities).lemma_sort_by_ensures(queue_order());
    lemma_sorted_unique(order, pop_order(lengths, priorities), queue_order());
}

} // verus!
