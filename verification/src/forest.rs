//! A disjoint-set forest over the cells of a grid.
//!
//! Every cell starts as the root of its own tree. Merging two cells hangs the
//! root of the second under the root of the first, so that two cells share a
//! root exactly when a chain of merges joins them.

use vstd::prelude::*;

verus! {

/// One node of the forest: its own position and the position of its parent,
/// if it has one.
pub struct MazeGenCell {
    pub id: usize,
    pub parent: Option<usize>,
}

/// The forest itself: one node per cell, addressed by cell index.
pub struct MazeGenForest {
    pub cells: Vec<MazeGenCell>,
    /// A height for each node that grows along every parent link.
    pub rank: Ghost<Seq<nat>>,
    /// A height that no node exceeds.
    pub bound: Ghost<nat>,
}

/// Number of nodes among the first `k` that have no parent.
pub open spec fn root_count(cells: Seq<MazeGenCell>, k: int) -> nat
    decreases k,
{
    if k <= 0 {
        0
    } else {
        root_count(cells, k - 1) + if cells[k - 1].parent is None {
            1nat
        } else {
            0nat
        }
    }
}

/// Among nodes that are all roots, every node counts.
pub proof fn lemma_root_count_all(cells: Seq<MazeGenCell>, k: int)
    requires
        0 <= k <= cells.len(),
        forall|i: int| 0 <= i < k ==> (#[trigger] cells[i]).parent is None,
    ensures
        root_count(cells, k) == k,
    decreases k,
{
    if k > 0 {
        lemma_root_count_all(cells, k - 1);
    }
}

/// Giving one root a parent takes exactly one from the count of roots.
pub proof fn lemma_root_count_attach(cells: Seq<MazeGenCell>, r: int, cell: MazeGenCell, k: int)
    requires
        0 <= r < cells.len(),
        0 <= k <= cells.len(),
        cells[r].parent is None,
        cell.parent is Some,
    ensures
        root_count(cells.update(r, cell), k) + (if r < k {
            1nat
        } else {
            0nat
        }) == root_count(cells, k),
    decreases k,
{
    if k > 0 {
        lemma_root_count_attach(cells, r, cell, k - 1);
    }
}

impl MazeGenCell {
    /// A node with no parent.
    pub fn new(id: usize) -> (cell: MazeGenCell)
        ensures
            cell.id == id,
            cell.parent is None,
    {
        MazeGenCell { id, parent: None }
    }
}

impl MazeGenForest {
    /// Number of nodes.
    pub open spec fn len(self) -> nat {
        self.cells@.len()
    }

    /// Every node sits at the position it names, and every parent link leads
    /// to a node of greater height, so no chain of links returns to itself.
    pub open spec fn wf(self) -> bool {
        &&& self.rank@.len() == self.cells@.len()
        &&& forall|i: int|
            0 <= i < self.cells@.len() ==> {
                &&& (#[trigger] self.cells@[i]).id == i
                &&& self.rank@[i] <= self.bound@
                &&& (self.cells@[i].parent matches Some(p) ==> p < self.cells@.len()
                    && self.rank@[i] < self.rank@[p as int] <= self.bound@)
            }
    }

    /// The node without a parent that the parent links lead to from `i`.
    pub open spec fn root_of(self, i: int) -> int
        decreases self.bound@ - self.rank@[i],
        when self.wf() && 0 <= i < self.len()
    {
        match self.cells@[i].parent {
            Some(p) => self.root_of(p as int),
            None => i,
        }
    }

    /// The root of every node, node by node.
    pub open spec fn roots(self) -> Seq<int> {
        Seq::new(self.len(), |i: int| self.root_of(i))
    }

    /// Whether two nodes belong to the same tree.
    pub open spec fn same_tree(self, i: int, j: int) -> bool {
        self.root_of(i) == self.root_of(j)
    }

    /// Number of trees.
    pub open spec fn tree_count(self) -> nat {
        root_count(self.cells@, self.cells@.len() as int)
    }

    /// How roots change when the root `rb` is hung under another root `ra`:
    /// the nodes of the tree of `rb` move to `ra`, and all others stay.
    pub proof fn lemma_attach_roots(self, after: MazeGenForest, ra: int, rb: int, i: int)
        requires
            self.wf(),
            after.wf(),
            0 <= ra < self.len(),
            0 <= rb < self.len(),
            ra != rb,
            self.cells@[ra].parent is None,
            self.cells@[rb].parent is None,
            after.cells@ == self.cells@.update(
                rb,
                MazeGenCell { id: rb as usize, parent: Some(ra as usize) },
            ),
            0 <= i < self.len(),
        ensures
            after.root_of(i) == (if self.root_of(i) == rb {
                ra
            } else {
                self.root_of(i)
            }),
        decreases self.bound@ - self.rank@[i],
    {
        match self.cells@[i].parent {
            Some(p) => {
                assert(i != rb);
                assert(after.cells@[i] == self.cells@[i]);
                self.lemma_attach_roots(after, ra, rb, p as int);
            },
            None => {
                if i == rb {
                    assert(after.cells@[ra] == self.cells@[ra]);
                    assert(after.root_of(ra) == ra);
                    assert(after.cells@[rb].parent == Some(ra as usize));
                    assert(after.root_of(rb) == after.root_of(ra));
                } else {
                    assert(after.cells@[i] == self.cells@[i]);
                }
            },
        }
    }

    /// A forest of `count` nodes, each the root of its own tree.
    pub fn new(count: usize) -> (forest: MazeGenForest)
        ensures
            forest.wf(),
            forest.len() == count,
            forest.tree_count() == count,
            forall|i: int| 0 <= i < count ==> forest.root_of(i) == i,
    {
        let mut cells: Vec<MazeGenCell> = Vec::new();
        let mut index: usize = 0;
        while index < count
            invariant
                index <= count,
                cells@.len() == index,
                forall|i: int|
                    0 <= i < index ==> (#[trigger] cells@[i]).id == i && cells@[i].parent is None,
            decreases count - index,
        {
            cells.push(MazeGenCell::new(index));
            index += 1;
        }
        let forest = MazeGenForest {
            cells,
            rank: Ghost(Seq::new(count as nat, |i: int| 0nat)),
            bound: Ghost(0nat),
        };
        proof {
            lemma_root_count_all(forest.cells@, count as int);
        }
        forest
    }

    /// Follows parent links from `s` to the root of its tree.
    pub fn get_root(&self, s: usize) -> (root: usize)
        requires
            self.wf(),
            s < self.len(),
        ensures
            root == self.root_of(s as int),
            root < self.len(),
            self.cells@[root as int].parent is None,
    {
        let mut current: usize = s;
        loop
            invariant
                self.wf(),
                current < self.len(),
                self.root_of(current as int) == self.root_of(s as int),
            decreases self.bound@ - self.rank@[current as int],
        {
            match self.cells[current].parent {
                Some(p) => {
                    current = p;
                },
                None => {
                    return current;
                },
            }
        }
    }

    /// Joins the trees of `a` and `b`, unless they are one tree already.
    ///
    /// Returns whether the trees were distinct. If so, the root of `b` now
    /// hangs under the root of `a`; if not, nothing has changed.
    pub fn try_merge(&mut self, a: usize, b: usize) -> (merged: bool)
        requires
            old(self).wf(),
            a < old(self).len(),
            b < old(self).len(),
        ensures
            final(self).wf(),
            final(self).len() == old(self).len(),
            merged == !old(self).same_tree(a as int, b as int),
            !merged ==> final(self).cells@ == old(self).cells@,
            merged ==> final(self).cells@ == old(self).cells@.update(
                old(self).root_of(b as int),
                MazeGenCell {
                    id: old(self).root_of(b as int) as usize,
                    parent: Some(old(self).root_of(a as int) as usize),
                },
            ),
            merged ==> final(self).tree_count() + 1 == old(self).tree_count(),
            forall|i: int|
                0 <= i < old(self).len() ==> #[trigger] final(self).root_of(i) == (if merged
                    && old(self).root_of(i) == old(self).root_of(b as int) {
                    old(self).root_of(a as int)
                } else {
                    old(self).root_of(i)
                }),
    {
        let ra = self.get_root(a);
        let rb = self.get_root(b);
        if self.cells[ra].id != self.cells[rb].id {
            let ghost before = *self;
            let ghost lifted = if before.rank@[ra as int] > before.rank@[rb as int] {
                before.rank@[ra as int]
            } else {
                before.rank@[rb as int] + 1
            };
            self.cells.set(rb, MazeGenCell { id: rb, parent: Some(ra) });
            self.rank = Ghost(before.rank@.update(ra as int, lifted));
            self.bound = Ghost(before.bound@ + 1);
            proof {
                assert forall|i: int| 0 <= i < self.cells@.len() implies {
                    &&& (#[trigger] self.cells@[i]).id == i
                    &&& self.rank@[i] <= self.bound@
                    &&& (self.cells@[i].parent matches Some(p) ==> p < self.cells@.len()
                        && self.rank@[i] < self.rank@[p as int] <= self.bound@)
                } by {
                    assert(before.cells@[i].id == i);
                    if i != rb {
                        assert(self.cells@[i] == before.cells@[i]);
                    }
                }
                assert forall|i: int| 0 <= i < before.len() implies #[trigger] self.root_of(i) == (
                if before.root_of(i) == rb {
                    ra as int
                } else {
                    before.root_of(i)
                }) by {
                    before.lemma_attach_roots(*self, ra as int, rb as int, i);
                }
                lemma_root_count_attach(
                    before.cells@,
                    rb as int,
                    MazeGenCell { id: rb, parent: Some(ra) },
                    before.len() as int,
                );
            }
            true
        } else {
            proof {
                assert(self.cells@[ra as int].id == ra);
                assert(self.cells@[rb as int].id == rb);
            }
            false
        }
    }

    /// The root of a node is a node, has no parent, and is its own root.
    pub proof fn lemma_root_is_root(self, i: int)
        requires
            self.wf(),
            0 <= i < self.len(),
        ensures
            0 <= self.root_of(i) < self.len(),
            self.cells@[self.root_of(i)].parent is None,
            self.root_of(self.root_of(i)) == self.root_of(i),
        decreases self.bound@ - self.rank@[i],
    {
        match self.cells@[i].parent {
            Some(p) => {
                self.lemma_root_is_root(p as int);
            },
            None => {},
        }
    }
}

} // verus!
