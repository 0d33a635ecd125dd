//! The maze: a grid, the walks that were opened in it, and the queries on
//! them.

use crate::forest::MazeGenForest;
use crate::generation::{
    accepted, candidates, generated_walks, is_spanning_tree, joined, labels_track,
    lemma_candidate_listed, lemma_generated_spanning_tree, lemma_labels_after_insert,
    lemma_labels_at_start, lemma_popped_all, lemma_popped_next, lemma_popped_start,
    popped_so_far, relabel,
};
use crate::graph::linked;
use crate::grid::{
    cell_at, cell_count, cell_index, checked_cell_count, coordinate, in_grid, is_forward_walk,
    is_step, lemma_cell_round_trip, lemma_cells_fit, lemma_coordinate_bound,
    lemma_index_round_trip, lemma_step_index, lemma_step_key, lemma_unit_grid, neighbor,
    step_key, step_walk, unwrap_index,
};
use crate::queue::{Candidate, CandidateQueue};
use crate::random::next_priority;
use rand::rngs::StdRng;
use std::collections::HashSet;
use vstd::multiset::*;
use vstd::pervasive::unreached;
use vstd::prelude::*;
use vstd::seq_lib::*;
use vstd::std_specs::hash::*;

verus! {

broadcast use group_hash_axioms;

/// Whether `keys` says of the step from `cell` along `dim` what `walks` says.
pub open spec fn key_recorded(
    keys: Set<usize>,
    lengths: Seq<u8>,
    walks: Set<(Seq<u8>, Seq<u8>)>,
    cell: int,
    dim: int,
) -> bool {
    keys.contains(step_key(lengths, cell, dim) as usize) <==> walks.contains(
        step_walk(lengths, cell, dim),
    )
}

/// Whether `keys` holds exactly the keys of the steps in `walks`.
pub open spec fn keys_track(keys: Set<usize>, lengths: Seq<u8>, walks: Set<(Seq<u8>, Seq<u8>)>) -> bool {
    forall|cell: int, dim: int|
        0 <= cell < cell_count(lengths) && 0 <= dim < lengths.len() ==> #[trigger] key_recorded(
            keys,
            lengths,
            walks,
            cell,
            dim,
        )
}

/// Recording the key of a new step keeps the keys in line with the walks.
pub proof fn lemma_keys_after_insert(
    keys: Set<usize>,
    lengths: Seq<u8>,
    walks: Set<(Seq<u8>, Seq<u8>)>,
    cell: int,
    dim: int,
)
    requires
        keys_track(keys, lengths, walks),
        cell_count(lengths) * lengths.len() <= usize::MAX,
        0 <= cell < cell_count(lengths),
        0 <= dim < lengths.len(),
        cell_at(lengths, cell as nat)[dim] < 255,
    ensures
        keys_track(
            keys.insert(step_key(lengths, cell, dim) as usize),
            lengths,
            walks.insert(step_walk(lengths, cell, dim)),
        ),
{
    let grown_keys = keys.insert(step_key(lengths, cell, dim) as usize);
    let grown = walks.insert(step_walk(lengths, cell, dim));
    lemma_step_key(lengths, cell, dim);
    assert forall|other: int, d: int|
        0 <= other < cell_count(lengths) && 0 <= d < lengths.len() implies #[trigger] key_recorded(
        grown_keys,
        lengths,
        grown,
        other,
        d,
    ) by {
        lemma_step_key(lengths, other, d);
        assert(key_recorded(keys, lengths, walks, other, d));
        lemma_index_round_trip(lengths, other as nat);
        lemma_index_round_trip(lengths, cell as nat);
        if step_walk(lengths, other, d) == step_walk(lengths, cell, dim) {
            assert(other == cell);
            let from = cell_at(lengths, cell as nat);
            assert(neighbor(from, d)[dim] == neighbor(from, dim)[dim]);
            assert(d == dim);
        }
    }
}

/// Puts one candidate for each cell and dimension into a new queue, each
/// with its priority.
fn queue_candidates<const DIMS: usize>(
    lengths: &[u8; DIMS],
    priorities: &[u32],
    cell_total: usize,
) -> (queue: CandidateQueue)
    requires
        cell_total == cell_count(lengths@),
        priorities@.len() == cell_total * DIMS,
    ensures
        queue.wf(),
        queue@ == candidates(lengths@, priorities@).to_multiset(),
{
    let ghost all = candidates(lengths@, priorities@);
    let mut queue = CandidateQueue::with_capacity(priorities.len());
    let mut index: usize = 0;
    proof {
        assert(all.take(0) =~= Seq::<Candidate>::empty());
        all.take(0).to_multiset_ensures();
        assert(all.take(0).to_multiset() =~= Multiset::<Candidate>::empty());
    }
    while index < cell_total
        invariant
            index <= cell_total,
            lengths@.len() == DIMS,
            cell_total == cell_count(lengths@),
            priorities@.len() == cell_total * DIMS,
            priorities@.len() <= usize::MAX,
            all == candidates(lengths@, priorities@),
            queue.wf(),
            queue@ == all.take(index * DIMS).to_multiset(),
        decreases cell_total - index,
    {
        let mut dim: usize = 0;
        while dim < DIMS
            invariant
                index < cell_total,
                dim <= DIMS,
                lengths@.len() == DIMS,
                cell_total == cell_count(lengths@),
                priorities@.len() == cell_total * DIMS,
                priorities@.len() <= usize::MAX,
                all == candidates(lengths@, priorities@),
                queue.wf(),
                queue@ == all.take(index * DIMS + dim).to_multiset(),
            decreases DIMS - dim,
        {
            proof {
                lemma_step_key(lengths@, index as int, dim as int);
                assert(step_key(lengths@, index as int, dim as int) == index * DIMS + dim);
                assert(0 <= index * DIMS) by (nonlinear_arith);
            }
            let at = index * DIMS + dim;
            let candidate = Candidate { priority: priorities[at], cell: index, dim };
            proof {
                assert(all[at as int] == candidate);
                assert(all.take(at + 1) =~= all.take(at as int).push(candidate));
                to_multiset_build(all.take(at as int), candidate);
            }
            queue.push(candidate);
            dim += 1;
        }
        proof {
            assert(index * DIMS + DIMS == (index + 1) * DIMS) by (nonlinear_arith);
        }
        index += 1;
    }
    proof {
        assert(all.take(cell_total * DIMS) =~= all);
    }
    queue
}

/// Gives back the room that the set holds beyond its keys, by
/// `HashSet::shrink_to_fit`. The keys stay as they are.
#[verifier::external_body]
fn shrink_walks(walks: &mut HashSet<usize>)
    ensures
        final(walks)@ == old(walks)@,
{
    walks.shrink_to_fit();
}

/// A maze over a grid of `DIMS` dimensions.
pub struct Maze<const DIMS: usize> {
    /// The keys of the steps that are open.
    walks: HashSet<usize>,
    lengths: [u8; DIMS],
    /// The open walks, each from a cell to the neighbor one step further.
    model: Ghost<Set<(Seq<u8>, Seq<u8>)>>,
}

impl<const DIMS: usize> View for Maze<DIMS> {
    type V = Set<(Seq<u8>, Seq<u8>)>;

    /// The open walks, each from a cell to the neighbor one step further
    /// along one dimension.
    closed spec fn view(&self) -> Set<(Seq<u8>, Seq<u8>)> {
        self.model@
    }
}

impl<const DIMS: usize> Default for Maze<DIMS> {
    /// The maze of one cell: every side has length one, and no walk is open.
    fn default() -> (maze: Self)
        ensures
            maze.wf(),
            maze@ == Set::<(Seq<u8>, Seq<u8>)>::empty(),
            maze.side_lengths() == Seq::new(DIMS as nat, |d: int| 1u8),
    {
        let maze = Self { walks: HashSet::new(), lengths: [1u8;DIMS], model: Ghost(Set::empty()) };
        proof {
            assert(maze.lengths@ =~= Seq::new(DIMS as nat, |d: int| 1u8));
            lemma_unit_grid(maze.lengths@, DIMS as int);
            assert(cell_count(maze.lengths@) == 1);
            assert(cell_count(maze.lengths@) * DIMS == DIMS);
            assert(maze.walks@ =~= Set::<usize>::empty());
            assert forall|cell: int, dim: int|
                0 <= cell < cell_count(maze.lengths@) && 0 <= dim < maze.lengths@.len()
                implies #[trigger] key_recorded(
                maze.walks@,
                maze.lengths@,
                maze.model@,
                cell,
                dim,
            ) by {}
        }
        maze
    }
}

impl<const DIMS: usize> Maze<DIMS> {
    /// The side lengths of the grid.
    pub closed spec fn side_lengths(self) -> Seq<u8> {
        self.lengths@
    }

    /// The grid is small enough to number its steps, every walk is a step of
    /// the grid, and the recorded keys are those of the walks.
    pub closed spec fn wf(self) -> bool {
        &&& cell_count(self.lengths@) * DIMS <= usize::MAX
        &&& forall|walk: (Seq<u8>, Seq<u8>)| #[trigger]
            self.model@.contains(walk) ==> is_forward_walk(self.lengths@, walk)
        &&& keys_track(self.walks@, self.lengths@, self.model@)
    }

    /// What a query answers: nothing if the dimension does not exist, if the
    /// coordinate cannot grow, or if the point or its neighbor lies outside
    /// the grid; otherwise whether a walk joins the point and its neighbor.
    pub open spec fn passage(self, point: Seq<u8>, dimension: int) -> Option<bool> {
        if 0 <= dimension < DIMS && point[dimension] < 255 && in_grid(self.side_lengths(), point)
            && in_grid(self.side_lengths(), neighbor(point, dimension)) {
            Some(linked(self@, point, neighbor(point, dimension)))
        } else {
            None
        }
    }

    /// The grid has one side length for each dimension.
    pub proof fn lemma_side_count(self)
        ensures
            self.side_lengths().len() == DIMS,
    {
    }

    /// Every walk of a well-formed maze is a step of its grid.
    pub proof fn lemma_walks_are_steps(self, walk: (Seq<u8>, Seq<u8>))
        requires
            self.wf(),
            self@.contains(walk),
        ensures
            is_forward_walk(self.side_lengths(), walk),
    {
    }

    /// A walk between a point and its neighbor along `dimension` lets the
    /// query from the point pass, whichever way round the walk is held.
    pub proof fn lemma_walk_allows_move(self, a: Seq<u8>, b: Seq<u8>, dimension: int)
        requires
            self.wf(),
            0 <= dimension < DIMS,
            a.len() == DIMS,
            a[dimension] < 255,
            b == neighbor(a, dimension),
            linked(self@, a, b),
        ensures
            self.passage(a, dimension) == Some(true),
    {
        if self.model@.contains((a, b)) {
            let dim = choose|dim: int| #[trigger] is_step(self.lengths@, a, b, dim);
            assert(b[dimension] == neighbor(a, dim)[dimension]);
            assert(dim == dimension);
            lemma_step_index(self.lengths@, a, b, dim);
        } else {
            let dim = choose|dim: int| #[trigger] is_step(self.lengths@, b, a, dim);
            assert(a[dim] == neighbor(b, dim)[dim]);
        }
    }

    /// A query has no answer at the far side of the grid, beyond it, or
    /// along a dimension that the grid does not have.
    pub proof fn lemma_no_move_at_boundary(self, point: Seq<u8>, dimension: int)
        requires
            dimension >= DIMS || (0 <= dimension && point[dimension] + 1
                >= self.side_lengths()[dimension]),
        ensures
            self.passage(point, dimension) is None,
    {
        if 0 <= dimension < DIMS && point[dimension] < 255 && point.len() == DIMS {
            assert(neighbor(point, dimension)[dimension] >= self.lengths@[dimension]);
        }
    }

    /// Two mazes generated over the same grid from the same draws hold the
    /// same walks and answer every query alike.
    pub proof fn lemma_generation_deterministic(
        self,
        other: Maze<DIMS>,
        lengths: Seq<u8>,
        priorities: Seq<u32>,
    )
        requires
            self.side_lengths() == lengths,
            other.side_lengths() == lengths,
            self@ == generated_walks(lengths, priorities),
            other@ == generated_walks(lengths, priorities),
        ensures
            self@ == other@,
            forall|point: Seq<u8>, dimension: int|
                self.passage(point, dimension) == other.passage(point, dimension),
    {
    }

    /// Generates a maze over the grid with the given side lengths, drawing
    /// one priority from `rng` for each cell and dimension, cell by cell.
    ///
    /// Whatever is drawn, the maze is one that `from_priorities` builds, and
    /// so a spanning tree of the grid.
    pub fn new(lengths: &[u8; DIMS], rng: &mut StdRng) -> (maze: Maze<DIMS>)
        requires
            cell_count(lengths@) * DIMS <= usize::MAX,
        ensures
            maze.wf(),
            maze.side_lengths() == lengths@,
            exists|priorities: Seq<u32>|
                priorities.len() == cell_count(lengths@) * DIMS && maze@ == #[trigger] generated_walks(
                    lengths@,
                    priorities,
                ),
            is_spanning_tree(lengths@, maze@),
    {
        proof {
            lemma_cells_fit(lengths@);
        }
        let cell_total = match checked_cell_count(lengths) {
            Some(count) => count,
            None => unreached(),
        };
        let total = cell_total * DIMS;
        let mut priorities: Vec<u32> = Vec::with_capacity(total);
        let mut drawn: usize = 0;
        while drawn < total
            invariant
                drawn <= total,
                priorities@.len() == drawn,
            decreases total - drawn,
        {
            priorities.push(next_priority(rng));
            drawn += 1;
        }
        Self::from_priorities(lengths, priorities.as_slice())
    }

    /// Generates a maze over the grid with the given side lengths, with
    /// `priorities` holding one draw for each cell and dimension, cell by
    /// cell.
    ///
    /// Every candidate edge is tried, highest priority first, and opened if
    /// its two ends were not joined yet.
    pub fn from_priorities(lengths: &[u8; DIMS], priorities: &[u32]) -> (maze: Maze<DIMS>)
        requires
            priorities@.len() == cell_count(lengths@) * DIMS,
        ensures
            maze.wf(),
            maze.side_lengths() == lengths@,
            maze@ == generated_walks(lengths@, priorities@),
            is_spanning_tree(lengths@, maze@),
    {
        let total = priorities.len();
        proof {
            lemma_cells_fit(lengths@);
        }
        let cell_total = match checked_cell_count(lengths) {
            Some(count) => count,
            None => unreached(),
        };
        let mut pending_edges = queue_candidates(lengths, priorities, cell_total);
        let mut cells = MazeGenForest::new(cell_total);
        let mut walks: HashSet<usize> = HashSet::with_capacity(cell_total);
        let ghost mut model: Set<(Seq<u8>, Seq<u8>)> = Set::empty();
        let ghost mut popped: Seq<Candidate> = Seq::empty();
        proof {
            lemma_popped_start(candidates(lengths@, priorities@));
            lemma_labels_at_start(cells.roots(), lengths@);
        }
        loop
            invariant
                lengths@.len() == DIMS,
                cell_total == cell_count(lengths@),
                priorities@.len() == cell_total * DIMS,
                priorities@.len() <= usize::MAX,
                pending_edges.wf(),
                cells.wf(),
                cells.len() == cell_total,
                popped_so_far(popped, pending_edges@, candidates(lengths@, priorities@)),
                model == accepted(lengths@, popped),
                keys_track(walks@, lengths@, model),
                labels_track(cells.roots(), lengths@, model),
            ensures
                pending_edges@.len() == 0,
            decreases pending_edges@.len(),
        {
            let ghost waiting = pending_edges@;
            let ghost before = cells;
            match pending_edges.pop() {
                None => {
                    break ;
                },
                Some(candidate) => {
                    let target_index = candidate.cell;
                    let dim = candidate.dim;
                    proof {
                        lemma_candidate_listed(lengths@, priorities@, popped, waiting, candidate);
                        lemma_popped_next(
                            popped,
                            waiting,
                            candidates(lengths@, priorities@),
                            candidate,
                        );
                        lemma_coordinate_bound(lengths@, target_index as nat, dim as int);
                    }
                    let a = match unwrap_index(lengths, target_index) {
                        Some(point) => point,
                        None => unreached(),
                    };
                    assert(a@[dim as int] == coordinate(lengths@, target_index as nat, dim as int));
                    if a[dim] < lengths[dim] - 1 {
                        let mut b = a;
                        b[dim] = a[dim] + 1;
                        proof {
                            assert(b@ =~= neighbor(a@, dim as int));
                            assert(is_step(lengths@, a@, b@, dim as int));
                            lemma_step_index(lengths@, a@, b@, dim as int);
                            lemma_cell_round_trip(lengths@, b@);
                        }
                        let neighbor_index = cell_index(lengths, &b);
                        assert(cells.same_tree(target_index as int, neighbor_index as int)
                            <==> joined(lengths@, model, target_index as int, neighbor_index as int));
                        if cells.try_merge(target_index, neighbor_index) {
                            proof {
                                lemma_step_key(lengths@, target_index as int, dim as int);
                                lemma_keys_after_insert(
                                    walks@,
                                    lengths@,
                                    model,
                                    target_index as int,
                                    dim as int,
                                );
                                lemma_labels_after_insert(
                                    before.roots(),
                                    lengths@,
                                    model,
                                    target_index as int,
                                    neighbor_index as int,
                                );
                                assert(cells.roots() =~= relabel(
                                    before.roots(),
                                    before.root_of(neighbor_index as int),
                                    before.root_of(target_index as int),
                                ));
                                model = model.insert((a@, b@));
                            }
                            walks.insert(target_index * DIMS + dim);
                        } else {
                            assert(cells.roots() =~= before.roots());
                        }
                    }
                    proof {
                        assert(popped.push(candidate).drop_last() =~= popped);
                        popped = popped.push(candidate);
                    }
                },
            }
        }
        proof {
            lemma_popped_all(lengths@, priorities@, popped, pending_edges@);
            lemma_generated_spanning_tree(lengths@, priorities@);
        }
        shrink_walks(&mut walks);
        Maze::<DIMS> { lengths: *lengths, walks, model: Ghost(model) }
    }

    /// The side lengths of the grid.
    #[inline]
    pub fn lengths(&self) -> (lengths: &[u8; DIMS])
        ensures
            lengths@ == self.side_lengths(),
    {
        &self.lengths
    }

    /// Whether the step from `from` along `dim` is open.
    fn is_open(&self, from: &[u8; DIMS], dim: usize) -> (open: bool)
        requires
            self.wf(),
            is_step(self.side_lengths(), from@, neighbor(from@, dim as int), dim as int),
        ensures
            open == self@.contains((from@, neighbor(from@, dim as int))),
    {
        proof {
            assert(cell_count(self.lengths@) <= cell_count(self.lengths@) * DIMS)
                by (nonlinear_arith)
                requires
                    DIMS >= 1,
            ;
            lemma_cell_round_trip(self.lengths@, from@);
        }
        let cell = cell_index(&self.lengths, from);
        proof {
            lemma_step_key(self.lengths@, cell as int, dim as int);
            assert(key_recorded(self.walks@, self.lengths@, self.model@, cell as int, dim as int));
        }
        let key = cell * DIMS + dim;
        self.walks.contains(&key)
    }

    /// Whether `a` and `b` are joined by a walk, in either direction, or
    /// nothing if one of them lies outside the grid.
    pub fn check_pair(&self, a: &[u8; DIMS], b: &[u8; DIMS]) -> (result: Option<bool>)
        requires
            self.wf(),
        ensures
            result is Some <==> in_grid(self.side_lengths(), a@) && in_grid(
                self.side_lengths(),
                b@,
            ),
            result matches Some(open) ==> open == linked(self@, a@, b@),
    {
        let mut index: usize = 0;
        while index < DIMS
            invariant
                index <= DIMS,
                forall|j: int|
                    0 <= j < index ==> a@[j] < self.lengths@[j] && b@[j] < self.lengths@[j],
            decreases DIMS - index,
        {
            let length = self.lengths[index];
            if a[index] >= length || b[index] >= length {
                return None;
            }
            index += 1;
        }
        let mut differing: Option<usize> = None;
        let mut d: usize = 0;
        while d < DIMS
            invariant
                d <= DIMS,
                self.wf(),
                in_grid(self.lengths@, a@),
                in_grid(self.lengths@, b@),
                differing is None ==> forall|j: int| 0 <= j < d ==> a@[j] == b@[j],
                differing matches Some(k) ==> k < d && a@[k as int] != b@[k as int] && forall|j: int|
                    0 <= j < d && j != k ==> a@[j] == b@[j],
            decreases DIMS - d,
        {
            if a[d] != b[d] {
                match differing {
                    Some(k) => {
                        proof {
                            self.lemma_two_apart(a@, b@, k as int, d as int);
                        }
                        return Some(false);
                    },
                    None => {
                        differing = Some(d);
                    },
                }
            }
            d += 1;
        }
        match differing {
            None => {
                proof {
                    assert(a@ =~= b@);
                    self.lemma_no_loop(a@);
                }
                Some(false)
            },
            Some(k) => {
                let from = a[k];
                let to = b[k];
                if from < to && to - from == 1 {
                    proof {
                        assert(neighbor(a@, k as int) =~= b@);
                        self.lemma_one_way(a@, b@, k as int);
                    }
                    Some(self.is_open(a, k))
                } else if to < from && from - to == 1 {
                    proof {
                        assert(neighbor(b@, k as int) =~= a@);
                        self.lemma_one_way(b@, a@, k as int);
                    }
                    Some(self.is_open(b, k))
                } else {
                    proof {
                        self.lemma_far_apart(a@, b@, k as int);
                    }
                    Some(false)
                }
            },
        }
    }

    /// Whether a move from `point` one step along `dimension` is possible.
    ///
    /// Answers nothing where the query makes no sense: the dimension does
    /// not exist, the coordinate cannot grow, or the point or its neighbor
    /// lies outside the grid.
    pub fn can_move(&self, point: &[u8; DIMS], dimension: usize) -> (result: Option<bool>)
        requires
            self.wf(),
        ensures
            result == self.passage(point@, dimension as int),
    {
        let mut target_point = *point;
        if dimension < DIMS {
            if let Some(new_shifted) = point[dimension].checked_add(1) {
                target_point[dimension] = new_shifted;
                assert(target_point@ =~= neighbor(point@, dimension as int));
                return self.check_pair(point, &target_point);
            }
        }
        None
    }

    /// No walk joins points that differ in two coordinates.
    proof fn lemma_two_apart(self, a: Seq<u8>, b: Seq<u8>, j: int, k: int)
        requires
            self.wf(),
            0 <= j < k < a.len(),
            a.len() == b.len(),
            a[j] != b[j],
            a[k] != b[k],
        ensures
            !linked(self@, a, b),
    {
        if self.model@.contains((a, b)) {
            let dim = choose|dim: int| #[trigger] is_step(self.lengths@, a, b, dim);
            assert(b[j] == neighbor(a, dim)[j] && b[k] == neighbor(a, dim)[k]);
        }
        if self.model@.contains((b, a)) {
            let dim = choose|dim: int| #[trigger] is_step(self.lengths@, b, a, dim);
            assert(a[j] == neighbor(b, dim)[j] && a[k] == neighbor(b, dim)[k]);
        }
    }

    /// No walk joins a point to itself.
    proof fn lemma_no_loop(self, a: Seq<u8>)
        requires
            self.wf(),
        ensures
            !linked(self@, a, a),
    {
        if self.model@.contains((a, a)) {
            let dim = choose|dim: int| #[trigger] is_step(self.lengths@, a, a, dim);
            assert(a[dim] == neighbor(a, dim)[dim]);
        }
    }

    /// A walk between a point and the neighbor one step further is stored
    /// from the point to the neighbor.
    proof fn lemma_one_way(self, a: Seq<u8>, b: Seq<u8>, k: int)
        requires
            self.wf(),
            0 <= k < a.len(),
            a[k] < 255,
            b == neighbor(a, k),
        ensures
            linked(self@, a, b) == self@.contains((a, b)),
    {
        if self.model@.contains((b, a)) {
            let dim = choose|dim: int| #[trigger] is_step(self.lengths@, b, a, dim);
            assert(a[dim] == neighbor(b, dim)[dim]);
        }
    }

    /// No walk joins points whose only differing coordinate is not one apart.
    proof fn lemma_far_apart(self, a: Seq<u8>, b: Seq<u8>, k: int)
        requires
            self.wf(),
            0 <= k < a.len(),
            a.len() == b.len(),
            a[k] + 1 != b[k],
            b[k] + 1 != a[k],
            forall|j: int| 0 <= j < a.len() && j != k ==> a[j] == b[j],
        ensures
            !linked(self@, a, b),
    {
        if self.model@.contains((a, b)) {
            let dim = choose|dim: int| #[trigger] is_step(self.lengths@, a, b, dim);
            assert(b[dim] == neighbor(a, dim)[dim]);
            assert(b[k] == neighbor(a, dim)[k]);
        }
        if self.model@.contains((b, a)) {
            let dim = choose|dim: int| #[trigger] is_step(self.lengths@, b, a, dim);
            assert(a[dim] == neighbor(b, dim)[dim]);
            assert(a[k] == neighbor(b, dim)[k]);
        }
    }
}

} // verus!
