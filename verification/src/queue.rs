//! Candidate edges and the queue that hands them out, highest priority first.

use vstd::multiset::*;
use vstd::prelude::*;
use vstd::seq_lib::*;

verus! {

/// A candidate edge: from the cell numbered `cell` to its neighbor one step
/// further along dimension `dim`, with the priority it was drawn.
#[derive(Clone, Copy, Debug)]
pub struct Candidate {
    pub priority: u32,
    pub cell: usize,
    pub dim: usize,
}

/// Whether `a` leaves the queue no later than `b`: candidates are ordered by
/// priority, then by cell, then by dimension, and the greatest leaves first.
pub open spec fn precedes(a: Candidate, b: Candidate) -> bool {
    ||| a.priority > b.priority
    ||| a.priority == b.priority && a.cell > b.cell
    ||| a.priority == b.priority && a.cell == b.cell && a.dim >= b.dim
}

/// The order of the queue as a relation: `precedes`.
pub open spec fn queue_order() -> spec_fn(Candidate, Candidate) -> bool {
    |a: Candidate, b: Candidate| precedes(a, b)
}

/// The order of the queue is total: any two candidates compare, and only
/// equal candidates precede each other.
pub proof fn lemma_queue_order_total()
    ensures
        vstd::relations::total_ordering(queue_order()),
{
    let order = queue_order();
    assert forall|x: Candidate, y: Candidate| #[trigger] order(x, y) && #[trigger] order(
        y,
        x,
    ) implies x == y by {
        assert(precedes(x, y) && precedes(y, x));
    }
    assert forall|x: Candidate, y: Candidate, z: Candidate| #[trigger] order(x, y)
        && #[trigger] order(y, z) implies order(x, z) by {
        assert(precedes(x, y) && precedes(y, z));
        assert(precedes(x, z));
    }
    assert forall|x: Candidate| #[trigger] order(x, x) by {
        assert(precedes(x, x));
    }
    assert forall|x: Candidate, y: Candidate| #[trigger] order(x, y) || #[trigger] order(y, x) by {
        assert(precedes(x, y) || precedes(y, x));
    }
}

/// Position of the parent of the heap slot `child`.
pub open spec fn parent_slot(child: int) -> int {
    (child - 1) / 2
}

/// Whether the slot `child` is in order with its parent.
pub open spec fn parent_first(items: Seq<Candidate>, child: int) -> bool {
    precedes(items[parent_slot(child)], items[child])
}

/// Whether the slot `child` is in order with the parent of its parent.
pub open spec fn grandparent_first(items: Seq<Candidate>, child: int) -> bool {
    precedes(items[parent_slot(parent_slot(child))], items[child])
}

/// Whether every slot is in order with its parent.
pub open spec fn is_heap(items: Seq<Candidate>) -> bool {
    forall|child: int| 1 <= child < items.len() ==> #[trigger] parent_first(items, child)
}

/// The heap order with one slot on its way up: every other slot is in order
/// with its parent, and the slots below the moving one are in order with the
/// parent above it.
pub open spec fn is_heap_rising(items: Seq<Candidate>, hole: int) -> bool {
    &&& forall|child: int|
        1 <= child < items.len() && child != hole ==> #[trigger] parent_first(items, child)
    &&& forall|child: int|
        1 <= child < items.len() && parent_slot(child) == hole && hole >= 1
            ==> #[trigger] grandparent_first(items, child)
}

/// The heap order with one slot on its way down: every slot whose parent is
/// not the moving one is in order with its parent, and the slots below the
/// moving one are in order with the parent above it.
pub open spec fn is_heap_sinking(items: Seq<Candidate>, hole: int) -> bool {
    &&& forall|child: int|
        1 <= child < items.len() && parent_slot(child) != hole ==> #[trigger] parent_first(
            items,
            child,
        )
    &&& forall|child: int|
        1 <= child < items.len() && parent_slot(child) == hole && hole >= 1
            ==> #[trigger] grandparent_first(items, child)
}

/// The first slot of a heap precedes every slot.
pub proof fn lemma_heap_top(items: Seq<Candidate>, slot: int)
    requires
        is_heap(items),
        0 <= slot < items.len(),
    ensures
        precedes(items[0], items[slot]),
    decreases slot,
{
    if slot > 0 {
        assert(parent_first(items, slot));
        lemma_heap_top(items, parent_slot(slot));
    }
}

/// Exchanging two slots keeps the items.
pub proof fn lemma_exchange_keeps_items(items: Seq<Candidate>, i: int, j: int)
    requires
        0 <= i < items.len(),
        0 <= j < items.len(),
    ensures
        items.update(i, items[j]).update(j, items[i]).to_multiset() == items.to_multiset(),
{
    broadcast use group_multiset_axioms;

    let half = items.update(i, items[j]);
    to_multiset_update(items, i, items[j]);
    to_multiset_update(half, j, items[i]);
    to_multiset_contains(items, items[i]);
    to_multiset_contains(items, items[j]);
    assert(items.contains(items[i]));
    assert(items.contains(items[j]));
    assert(half[j] == items[j]);
    assert(half.update(j, items[i]).to_multiset() =~= items.to_multiset());
}

/// Compares two candidates by priority, then cell, then dimension.
pub fn comes_first(a: &Candidate, b: &Candidate) -> (first: bool)
    ensures
        first == precedes(*a, *b),
{
    if a.priority != b.priority {
        a.priority > b.priority
    } else if a.cell != b.cell {
        a.cell > b.cell
    } else {
        a.dim >= b.dim
    }
}

/// A priority queue of candidates, kept as a binary heap in a vector.
pub struct CandidateQueue {
    items: Vec<Candidate>,
}

impl View for CandidateQueue {
    type V = Multiset<Candidate>;

    /// The candidates waiting in the queue.
    closed spec fn view(&self) -> Multiset<Candidate> {
        self.items@.to_multiset()
    }
}

impl CandidateQueue {
    /// Whether the vector is in heap order.
    pub closed spec fn wf(self) -> bool {
        is_heap(self.items@)
    }

    /// An empty queue with room for `capacity` candidates.
    pub fn with_capacity(capacity: usize) -> (queue: CandidateQueue)
        ensures
            queue.wf(),
            queue@ == Multiset::<Candidate>::empty(),
    {
        let queue = CandidateQueue { items: Vec::with_capacity(capacity) };
        proof {
            assert(queue.items@ =~= Seq::<Candidate>::empty());
            queue.items@.to_multiset_ensures();
            assert(queue@.len() == 0);
            assert(queue@ =~= Multiset::<Candidate>::empty());
        }
        queue
    }

    /// Number of candidates waiting.
    pub fn len(&self) -> (count: usize)
        ensures
            count == self@.len(),
    {
        proof {
            self.items@.to_multiset_ensures();
        }
        self.items.len()
    }

    /// Adds a candidate.
    pub fn push(&mut self, candidate: Candidate)
        requires
            old(self).wf(),
        ensures
            final(self).wf(),
            final(self)@ == old(self)@.insert(candidate),
    {
        proof {
            to_multiset_build(self.items@, candidate);
        }
        self.items.push(candidate);
        let mut slot: usize = self.items.len() - 1;
        proof {
            let grown = self.items@;
            assert forall|child: int|
                1 <= child < grown.len() && child != slot implies #[trigger] parent_first(
                grown,
                child,
            ) by {
                assert(parent_first(old(self).items@, child));
            }
        }
        while slot > 0
            invariant
                slot < self.items@.len(),
                is_heap_rising(self.items@, slot as int),
                self.items@.to_multiset() == old(self)@.insert(candidate),
            decreases slot,
        {
            let above: usize = (slot - 1) / 2;
            let lower = self.items[slot];
            let upper = self.items[above];
            if comes_first(&upper, &lower) {
                proof {
                    let now = self.items@;
                    assert(parent_first(now, slot as int));
                    assert forall|child: int| 1 <= child < now.len() implies #[trigger] parent_first(
                        now,
                        child,
                    ) by {}
                }
                return ;
            }
            proof {
                lemma_exchange_keeps_items(self.items@, above as int, slot as int);
            }
            let ghost before = self.items@;
            self.items.set(above, lower);
            self.items.set(slot, upper);
            proof {
                let after = self.items@;
                assert forall|child: int|
                    1 <= child < after.len() && child != above implies #[trigger] parent_first(
                    after,
                    child,
                ) by {
                    if child == slot {
                    } else if parent_slot(child) == above {
                        assert(parent_first(before, child));
                    } else if parent_slot(child) == slot {
                        assert(grandparent_first(before, child));
                    } else {
                        assert(parent_first(before, child));
                    }
                }
                assert forall|child: int|
                    1 <= child < after.len() && parent_slot(child) == above && above >= 1
                    implies #[trigger] grandparent_first(after, child) by {
                    assert(parent_first(before, above as int));
                    if child != slot {
                        assert(parent_first(before, child));
                    }
                }
            }
            slot = above;
        }
        proof {
            assert forall|child: int| 1 <= child < self.items@.len() implies #[trigger] parent_first(
                self.items@,
                child,
            ) by {}
        }
    }

    /// Takes out the candidate that precedes all others, if there is one.
    pub fn pop(&mut self) -> (taken: Option<Candidate>)
        requires
            old(self).wf(),
        ensures
            final(self).wf(),
            taken is None <==> old(self)@.len() == 0,
            taken is None ==> final(self)@ == old(self)@,
            taken matches Some(top) ==> {
                &&& old(self)@.contains(top)
                &&& final(self)@ == old(self)@.remove(top)
                &&& forall|other: Candidate| #[trigger]
                    old(self)@.contains(other) ==> precedes(top, other)
            },
    {
        let ghost before = self.items@;
        proof {
            before.to_multiset_ensures();
        }
        let count = self.items.len();
        if count == 0 {
            return None;
        }
        let top = self.items[0];
        let last = self.items[count - 1];
        proof {
            assert forall|other: Candidate| #[trigger]
                before.to_multiset().contains(other) implies precedes(top, other) by {
                to_multiset_contains(before, other);
                let slot = choose|slot: int| 0 <= slot < before.len() && before[slot] == other;
                lemma_heap_top(before, slot);
            }
            to_multiset_contains(before, top);
            assert(before.contains(top));
            lemma_exchange_keeps_items(before, 0, count - 1);
        }
        self.items.set(0, last);
        self.items.set(count - 1, top);
        let ghost exchanged = self.items@;
        let removed = self.items.pop();
        proof {
            assert(self.items@ =~= exchanged.remove(count - 1));
            to_multiset_remove(exchanged, count - 1);
            assert(exchanged[count - 1] == top);
            let rest = self.items@;
            assert forall|child: int|
                1 <= child < rest.len() && parent_slot(child) != 0 implies #[trigger] parent_first(
                rest,
                child,
            ) by {
                assert(parent_first(before, child));
            }
        }
        let size = self.items.len();
        let mut slot: usize = 0;
        while slot < size / 2
            invariant
                size == self.items@.len(),
                slot <= size,
                before == old(self).items@,
                before.len() > 0,
                before.to_multiset().contains(top),
                forall|other: Candidate| #[trigger]
                    before.to_multiset().contains(other) ==> precedes(top, other),
                is_heap_sinking(self.items@, slot as int),
                self.items@.to_multiset() == before.to_multiset().remove(top),
            decreases size - slot,
        {
            let left: usize = 2 * slot + 1;
            let right: usize = left + 1;
            let mut best: usize = left;
            if right < size {
                let l = self.items[left];
                let r = self.items[right];
                if !comes_first(&l, &r) {
                    best = right;
                }
            }
            let upper = self.items[slot];
            let lower = self.items[best];
            if comes_first(&upper, &lower) {
                proof {
                    let now = self.items@;
                    assert forall|child: int| 1 <= child < now.len() implies #[trigger] parent_first(
                        now,
                        child,
                    ) by {
                        if parent_slot(child) == slot {
                            assert(child == left || child == right);
                        }
                    }
                }
                return Some(top);
            }
            proof {
                lemma_exchange_keeps_items(self.items@, slot as int, best as int);
            }
            let ghost sinking = self.items@;
            self.items.set(slot, lower);
            self.items.set(best, upper);
            proof {
                let after = self.items@;
                assert forall|child: int|
                    1 <= child < after.len() && parent_slot(child) != best
                    implies #[trigger] parent_first(after, child) by {
                    if parent_slot(child) == slot {
                        assert(child == left || child == right);
                    } else if child == slot {
                        assert(grandparent_first(sinking, best as int));
                    } else {
                        assert(parent_first(sinking, child));
                    }
                }
                assert forall|child: int|
                    1 <= child < after.len() && parent_slot(child) == best && best >= 1
                    implies #[trigger] grandparent_first(after, child) by {
                    assert(parent_first(sinking, child));
                }
            }
            slot = best;
        }
        proof {
            let now = self.items@;
            assert forall|child: int| 1 <= child < now.len() implies #[trigger] parent_first(
                now,
                child,
            ) by {}
        }
        Some(top)
    }
}

} // verus!
