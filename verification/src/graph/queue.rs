//! The frontier of the shortest-distance search: a binary heap that always
//! yields one of its cheapest entries.

use super::NodeID;
use vstd::multiset::Multiset;
use vstd::prelude::*;
use vstd::seq_lib::{to_multiset_build, to_multiset_update};

verus! {

/// A node reached at some accumulated cost.
#[derive(Debug, Clone, Copy, PartialEq, Eq, Structural)]
pub struct State {
    pub cost: u64,
    pub position: NodeID,
}

/// The place above `child` in the heap.
pub open spec fn above(child: int) -> int {
    (child - 1) / 2
}

/// No entry is cheaper than the one that stands above it: the cheapest
/// entry stands first.
#[verifier::opaque]
pub open spec fn is_heap(entries: Seq<State>) -> bool {
    forall|child: int| 0 < child < entries.len() ==> entries[above(child)].cost <= (#[trigger] entries[child]).cost
}

/// `is_heap`, but for what stands at `hole`, which may be cheaper than what
/// stands above it; what stands below `hole` is still no cheaper than what
/// stands above it.
#[verifier::opaque]
pub open spec fn is_heap_but_above(entries: Seq<State>, hole: int) -> bool {
    &&& forall|child: int|
        0 < child < entries.len() && child != hole ==> entries[above(child)].cost <= (
        #[trigger] entries[child]).cost
    &&& forall|child: int|
        0 < child < entries.len() && above(child) == hole && hole > 0 ==> entries[above(hole)].cost <= (
        #[trigger] entries[child]).cost
}

/// `is_heap`, but for what stands at `hole`, which may be dearer than what
/// stands below it; what stands below `hole` is still no cheaper than what
/// stands above it.
#[verifier::opaque]
pub open spec fn is_heap_but_below(entries: Seq<State>, hole: int) -> bool {
    &&& forall|child: int|
        0 < child < entries.len() && above(child) != hole ==> entries[above(child)].cost <= (
        #[trigger] entries[child]).cost
    &&& forall|child: int|
        0 < child < entries.len() && above(child) == hole && hole > 0 ==> entries[above(hole)].cost <= (
        #[trigger] entries[child]).cost
}

/// `entries` with what stands at `i` and at `j` exchanged.
pub open spec fn swapped(entries: Seq<State>, i: int, j: int) -> Seq<State> {
    entries.update(i, entries[j]).update(j, entries[i])
}

/// Exchanging two entries changes their order, not what is there.
pub proof fn lemma_swapped(entries: Seq<State>, i: int, j: int)
    requires
        0 <= i < entries.len(),
        0 <= j < entries.len(),
    ensures
        swapped(entries, i, j).to_multiset() == entries.to_multiset(),
{
    to_multiset_update(entries, i, entries[j]);
    to_multiset_update(entries.update(i, entries[j]), j, entries[i]);
    entries.to_multiset_ensures();
    assert(swapped(entries, i, j).to_multiset() =~= entries.to_multiset());
}

/// In a heap the first entry is the cheapest.
pub proof fn lemma_first_is_least(entries: Seq<State>, other: int)
    requires
        is_heap(entries),
        0 <= other < entries.len(),
    ensures
        entries[0].cost <= entries[other].cost,
    decreases other,
{
    reveal(is_heap);
    if other > 0 {
        lemma_first_is_least(entries, above(other));
    }
}

/// An entry added at the end of a heap leaves a heap but for that entry,
/// which may be cheaper than what stands above it.
pub proof fn lemma_added(entries: Seq<State>, state: State)
    requires
        is_heap(entries),
    ensures
        is_heap_but_above(entries.push(state), entries.len() as int),
{
    reveal(is_heap);
    reveal(is_heap_but_above);
    let longer = entries.push(state);
    assert forall|child: int| 0 < child < longer.len() && child != entries.len() implies longer[above(
        child,
    )].cost <= (#[trigger] longer[child]).cost by {
        assert(longer[child] == entries[child]);
        assert(longer[above(child)] == entries[above(child)]);
    }
}

/// Letting the entry at `hole` change places with the one above it, where
/// it is cheaper than that one, moves the hole up.
pub proof fn lemma_rise(entries: Seq<State>, hole: int)
    requires
        is_heap_but_above(entries, hole),
        0 < hole < entries.len(),
        entries[hole].cost < entries[above(hole)].cost,
    ensures
        is_heap_but_above(swapped(entries, hole, above(hole)), above(hole)),
{
    reveal(is_heap_but_above);
    let up = above(hole);
    let after = swapped(entries, hole, up);
    assert forall|child: int| 0 < child < after.len() && child != up implies after[above(child)].cost <= (
    #[trigger] after[child]).cost by {
        if child == hole {
        } else if above(child) == hole {
            assert(entries[up].cost <= entries[child].cost);
        } else if above(child) == up {
            assert(entries[up].cost <= entries[child].cost);
        } else {
            assert(after[child] == entries[child]);
            assert(after[above(child)] == entries[above(child)]);
            assert(entries[above(child)].cost <= entries[child].cost);
        }
    }
    assert forall|child: int|
        0 < child < after.len() && above(child) == up && up > 0 implies after[above(up)].cost <= (
    #[trigger] after[child]).cost by {
        assert(entries[above(up)].cost <= entries[up].cost);
        if child != hole {
            assert(entries[up].cost <= entries[child].cost);
        }
    }
}

/// Where the entry at `hole` stands first or is no cheaper than the one
/// above it, the whole is a heap.
pub proof fn lemma_risen(entries: Seq<State>, hole: int)
    requires
        is_heap_but_above(entries, hole),
        0 <= hole < entries.len(),
        hole == 0 || entries[above(hole)].cost <= entries[hole].cost,
    ensures
        is_heap(entries),
{
    reveal(is_heap);
    reveal(is_heap_but_above);
}

/// A heap whose first entry is replaced is a heap but for that entry, which
/// may be dearer than what stands below it.
pub proof fn lemma_replaced(entries: Seq<State>, state: State)
    requires
        is_heap(entries),
        entries.len() > 0,
    ensures
        is_heap_but_below(entries.update(0, state), 0),
{
    reveal(is_heap);
    reveal(is_heap_but_below);
    let after = entries.update(0, state);
    assert forall|child: int| 0 < child < after.len() && above(child) != 0 implies after[above(child)].cost
        <= (#[trigger] after[child]).cost by {
        assert(after[child] == entries[child]);
        assert(after[above(child)] == entries[above(child)]);
    }
}

/// A heap without its last entry is a heap.
pub proof fn lemma_shortened(entries: Seq<State>)
    requires
        is_heap(entries),
        entries.len() > 0,
    ensures
        is_heap(entries.drop_last()),
{
    reveal(is_heap);
    let shorter = entries.drop_last();
    assert forall|child: int| 0 < child < shorter.len() implies shorter[above(child)].cost <= (
    #[trigger] shorter[child]).cost by {
        assert(shorter[child] == entries[child]);
        assert(shorter[above(child)] == entries[above(child)]);
    }
}

/// Letting the entry at `hole` change places with the cheaper of the entries
/// below it, where that one is cheaper than it, moves the hole down.
pub proof fn lemma_sink(entries: Seq<State>, hole: int, below: int)
    requires
        is_heap_but_below(entries, hole),
        0 <= hole,
        below < entries.len(),
        below == 2 * hole + 1 || below == 2 * hole + 2,
        entries[below].cost < entries[hole].cost,
        2 * hole + 1 < entries.len() ==> entries[below].cost <= entries[2 * hole + 1].cost,
        2 * hole + 2 < entries.len() ==> entries[below].cost <= entries[2 * hole + 2].cost,
    ensures
        is_heap_but_below(swapped(entries, hole, below), below),
{
    reveal(is_heap_but_below);
    let after = swapped(entries, hole, below);
    assert forall|child: int| 0 < child < after.len() && above(child) != below implies after[above(
        child,
    )].cost <= (#[trigger] after[child]).cost by {
        let parent = above(child);
        if parent == hole {
            assert(child == 2 * hole + 1 || child == 2 * hole + 2);
        } else if child == hole {
            assert(above(below) == hole);
            assert(entries[above(hole)].cost <= entries[below].cost);
        } else {
            assert(child != below);
            assert(after[child] == entries[child]);
            assert(after[parent] == entries[parent]);
            assert(entries[parent].cost <= entries[child].cost);
        }
    }
    assert forall|child: int|
        0 < child < after.len() && above(child) == below && below > 0 implies after[above(below)].cost <= (
    #[trigger] after[child]).cost by {
        assert(above(below) == hole);
        assert(after[child] == entries[child]);
        assert(entries[below].cost <= entries[child].cost);
    }
}

/// Where the entry at `hole` is no dearer than the entries below it, the
/// whole is a heap.
pub proof fn lemma_sunk(entries: Seq<State>, hole: int)
    requires
        is_heap_but_below(entries, hole),
        0 <= hole,
        2 * hole + 1 < entries.len() ==> entries[hole].cost <= entries[2 * hole + 1].cost,
        2 * hole + 2 < entries.len() ==> entries[hole].cost <= entries[2 * hole + 2].cost,
    ensures
        is_heap(entries),
{
    reveal(is_heap);
    reveal(is_heap_but_below);
    assert forall|child: int| 0 < child < entries.len() implies entries[above(child)].cost <= (
    #[trigger] entries[child]).cost by {
        if above(child) == hole {
            assert(child == 2 * hole + 1 || child == 2 * hole + 2);
        }
    }
}

/// A min-priority queue of states, keyed by cost. Entries of equal cost leave
/// in no particular order.
pub struct MinQueue {
    entries: Vec<State>,
}

impl View for MinQueue {
    type V = Multiset<State>;

    closed spec fn view(&self) -> Multiset<State> {
        self.entries@.to_multiset()
    }
}

impl MinQueue {
    /// The entries are laid out as a heap.
    pub closed spec fn well_formed(&self) -> bool {
        is_heap(self.entries@)
    }

    /// The empty queue.
    pub fn new() -> (queue: Self)
        ensures
            queue.well_formed(),
            queue@ == Multiset::<State>::empty(),
    {
        let queue = MinQueue { entries: Vec::new() };
        proof {
            reveal(is_heap);
            queue.entries@.to_multiset_ensures();
            assert(queue@.len() == 0);
            assert(queue@ =~= Multiset::<State>::empty());
        }
        queue
    }

    /// How many entries wait in the queue.
    pub fn len(&self) -> (n: usize)
        ensures
            n == self@.len(),
    {
        proof {
            self.entries@.to_multiset_ensures();
        }
        self.entries.len()
    }

    /// Exchanges what stands at `i` and at `j`.
    fn swap(&mut self, i: usize, j: usize)
        requires
            i < old(self).entries.len(),
            j < old(self).entries.len(),
        ensures
            final(self).entries@ == swapped(old(self).entries@, i as int, j as int),
            final(self).entries@.len() == old(self).entries@.len(),
            final(self)@ == old(self)@,
    {
        let first = self.entries[i];
        let second = self.entries[j];
        self.entries.set(i, second);
        self.entries.set(j, first);
        proof {
            lemma_swapped(old(self).entries@, i as int, j as int);
        }
    }

    /// Adds one entry.
    pub fn push(&mut self, state: State)
        requires
            old(self).well_formed(),
        ensures
            final(self).well_formed(),
            final(self)@ == old(self)@.insert(state),
    {
        proof {
            to_multiset_build(old(self).entries@, state);
            lemma_added(old(self).entries@, state);
        }
        self.entries.push(state);
        let mut hole: usize = self.entries.len() - 1;
        let mut risen = false;
        while !risen && hole > 0
            invariant
                hole < self.entries.len(),
                self@ == old(self)@.insert(state),
                is_heap_but_above(self.entries@, hole as int),
                risen ==> is_heap(self.entries@),
            decreases hole, (if risen { 0int } else { 1int }),
        {
            let up = (hole - 1) / 2;
            if self.entries[up].cost <= self.entries[hole].cost {
                proof {
                    lemma_risen(self.entries@, hole as int);
                }
                risen = true;
            } else {
                proof {
                    lemma_rise(self.entries@, hole as int);
                }
                self.swap(hole, up);
                hole = up;
            }
        }
        proof {
            if !risen {
                lemma_risen(self.entries@, hole as int);
            }
        }
    }

    /// Removes and returns an entry of least cost, or `None` from an empty
    /// queue.
    pub fn pop(&mut self) -> (least: Option<State>)
        requires
            old(self).well_formed(),
        ensures
            final(self).well_formed(),
            match least {
                Some(state) => {
                    &&& old(self)@.count(state) > 0
                    &&& final(self)@ == old(self)@.remove(state)
                    &&& forall|other: State| old(self)@.count(other) > 0 ==> state.cost <= other.cost
                },
                None => old(self)@.len() == 0 && final(self)@ == old(self)@,
            },
    {
        proof {
            old(self).entries@.to_multiset_ensures();
        }
        if self.entries.len() == 0 {
            return None;
        }
        let least = self.entries[0];
        proof {
            assert forall|other: State| old(self)@.count(other) > 0 implies least.cost <= other.cost by {
                let at = choose|at: int| 0 <= at < old(self).entries@.len() && old(self).entries@[at] == other;
                lemma_first_is_least(old(self).entries@, at);
            }
            lemma_shortened(old(self).entries@);
        }
        let last = self.entries.pop().unwrap();
        proof {
            assert(self.entries@ == old(self).entries@.drop_last());
            assert(old(self).entries@ =~= self.entries@.push(last));
            to_multiset_build(self.entries@, last);
        }
        if self.entries.len() == 0 {
            proof {
                self.entries@.to_multiset_ensures();
                assert(self@ =~= old(self)@.remove(least));
            }
            return Some(least);
        }
        proof {
            to_multiset_update(self.entries@, 0, last);
            lemma_replaced(self.entries@, last);
        }
        self.entries.set(0, last);
        proof {
            assert(self@ =~= old(self)@.remove(least));
        }
        self.sink();
        Some(least)
    }

    /// Lets the first entry sink to its place.
    fn sink(&mut self)
        requires
            old(self).entries@.len() > 0,
            is_heap_but_below(old(self).entries@, 0),
        ensures
            final(self).well_formed(),
            final(self)@ == old(self)@,
    {
        let n = self.entries.len();
        let mut hole: usize = 0;
        let mut sunk = false;
        while !sunk && hole < n / 2
            invariant
                n == self.entries.len(),
                hole < n,
                self@ == old(self)@,
                is_heap_but_below(self.entries@, hole as int),
                sunk ==> is_heap(self.entries@),
            decreases n - hole, (if sunk { 0int } else { 1int }),
        {
            let left = 2 * hole + 1;
            let right = left + 1;
            let below = if right < n && self.entries[right].cost < self.entries[left].cost {
                right
            } else {
                left
            };
            if self.entries[hole].cost <= self.entries[below].cost {
                proof {
                    lemma_sunk(self.entries@, hole as int);
                }
                sunk = true;
            } else {
                proof {
                    lemma_sink(self.entries@, hole as int, below as int);
                }
                self.swap(hole, below);
                hole = below;
            }
        }
        proof {
            if !sunk {
                lemma_sunk(self.entries@, hole as int);
            }
        }
    }
}

} // verus!
