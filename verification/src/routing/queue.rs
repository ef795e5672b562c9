//! The priority queue of the router: nodes waiting to be expanded, cheapest
//! first, and among equally cheap ones the one that has waited longest.

use vstd::prelude::*;
use std::collections::HashSet;

verus! {

broadcast use vstd::std_specs::hash::group_hash_axioms;

/// A node waiting in the queue, with its priority and the number of the push
/// that put it there.
#[derive(Debug, Clone, Copy, PartialEq, Eq, Structural)]
pub struct PriorityQueueEntry {
    pub priority: u128,
    pub sequence: usize,
    pub node: usize,
}

impl PriorityQueueEntry {
    /// Whether this entry leaves the queue no later than `other`: it has the
    /// lower priority, or the same priority and no later a push.
    pub open spec fn spec_precedes(&self, other: &Self) -> bool {
        self.priority < other.priority || (self.priority == other.priority && self.sequence
            <= other.sequence)
    }

    /// Whether this entry leaves the queue no later than `other`.
    #[verifier::when_used_as_spec(spec_precedes)]
    pub fn precedes(&self, other: &Self) -> (r: bool)
        ensures
            r == self.spec_precedes(other),
    {
        self.priority < other.priority || (self.priority == other.priority && self.sequence
            <= other.sequence)
    }
}

/// Whether `first` is the entry of `entries` that leaves the queue next.
pub open spec fn is_first(entries: Set<PriorityQueueEntry>, first: PriorityQueueEntry) -> bool {
    entries.contains(first) && forall|other: PriorityQueueEntry| #[trigger]
        entries.contains(other) ==> first.spec_precedes(&other)
}

/// Whether every entry of `heap` but the first leaves no earlier than the
/// entry at the place of its parent: the place before it, halved.
pub open spec fn heap_ordered(heap: Seq<PriorityQueueEntry>) -> bool {
    forall|i: int| 0 < i < heap.len() ==> #[trigger] rises(heap, i)
}

/// Whether the entry at place `below` leaves no earlier than the entry at
/// the place of its parent.
pub open spec fn rises(heap: Seq<PriorityQueueEntry>, below: int) -> bool {
    heap[(below - 1) / 2].spec_precedes(&heap[below])
}

/// Whether the entry at place `above` leaves no later than the entry at
/// place `below`.
pub open spec fn in_order(heap: Seq<PriorityQueueEntry>, above: int, below: int) -> bool {
    heap[above].spec_precedes(&heap[below])
}

/// Whether the heap is ordered but for the entry at place `hole`, which may
/// leave before its parent; what its parent precedes, it lets through to the
/// entries below the hole.
pub open spec fn ordered_above(heap: Seq<PriorityQueueEntry>, hole: int) -> bool {
    &&& forall|k: int| 0 < k < heap.len() && k != hole ==> #[trigger] rises(heap, k)
    &&& hole > 0 ==> forall|k: int|
        0 < k < heap.len() && (k - 1) / 2 == hole ==> #[trigger] in_order(heap, (hole - 1) / 2, k)
}

/// Whether the heap is ordered but for the entry at place `hole`, which may
/// leave after the entries below it; its parent precedes them.
pub open spec fn ordered_below(heap: Seq<PriorityQueueEntry>, hole: int) -> bool {
    &&& forall|k: int| 0 < k < heap.len() && (k - 1) / 2 != hole ==> #[trigger] rises(heap, k)
    &&& hole > 0 ==> forall|k: int|
        0 < k < heap.len() && (k - 1) / 2 == hole ==> #[trigger] in_order(heap, (hole - 1) / 2, k)
}

/// An entry that leaves before its parent rises to the place of its parent.
pub proof fn lemma_rise(heap: Seq<PriorityQueueEntry>, hole: int)
    requires
        0 < hole < heap.len(),
        ordered_above(heap, hole),
        !rises(heap, hole),
    ensures
        ordered_above(exchanged(heap, (hole - 1) / 2, hole), (hole - 1) / 2),
{
    let parent = (hole - 1) / 2;
    let after = exchanged(heap, parent, hole);
    assert forall|k: int| 0 < k < after.len() && k != parent implies #[trigger] rises(after, k) by {
        if k == hole {
        } else if (k - 1) / 2 == parent {
            assert(rises(heap, k));
        } else if (k - 1) / 2 == hole {
            assert(in_order(heap, parent, k));
        } else {
            assert(rises(heap, k));
        }
    }
    if parent > 0 {
        assert(rises(heap, parent));
        assert forall|k: int| 0 < k < after.len() && (k - 1) / 2 == parent implies #[trigger] in_order(
            after,
            (parent - 1) / 2,
            k,
        ) by {
            if k != hole {
                assert(rises(heap, k));
            }
        }
    }
}

/// A heap that is ordered above an entry which does not leave before its
/// parent is ordered.
pub proof fn lemma_risen(heap: Seq<PriorityQueueEntry>, hole: int)
    requires
        0 <= hole < heap.len(),
        ordered_above(heap, hole),
        hole > 0 ==> rises(heap, hole),
    ensures
        heap_ordered(heap),
{
}

/// An entry that leaves after an entry below it sinks to the place of the
/// one of them that leaves first.
pub proof fn lemma_sink(heap: Seq<PriorityQueueEntry>, hole: int, least: int)
    requires
        0 <= hole < heap.len(),
        0 < least < heap.len(),
        (least - 1) / 2 == hole,
        ordered_below(heap, hole),
        !in_order(heap, hole, least),
        forall|k: int|
            0 < k < heap.len() && (k - 1) / 2 == hole ==> #[trigger] in_order(heap, least, k),
    ensures
        ordered_below(exchanged(heap, hole, least), least),
{
    let after = exchanged(heap, hole, least);
    assert forall|k: int| 0 < k < after.len() && (k - 1) / 2 != least implies #[trigger] rises(
        after,
        k,
    ) by {
        if k == least {
        } else if (k - 1) / 2 == hole {
            assert(in_order(heap, least, k));
        } else if k == hole {
            assert(in_order(heap, (hole - 1) / 2, least));
        } else {
            assert(rises(heap, k));
        }
    }
    assert forall|k: int| 0 < k < after.len() && (k - 1) / 2 == least implies #[trigger] in_order(
        after,
        (least - 1) / 2,
        k,
    ) by {
        assert(rises(heap, k));
    }
}

/// A heap that is ordered below an entry which leaves before the entries
/// below it is ordered.
pub proof fn lemma_sunk(heap: Seq<PriorityQueueEntry>, hole: int)
    requires
        0 <= hole,
        ordered_below(heap, hole),
        forall|k: int| 0 < k < heap.len() && (k - 1) / 2 == hole ==> #[trigger] rises(heap, k),
    ensures
        heap_ordered(heap),
{
}

/// Whether no two entries of `heap` have the same number, and all numbers
/// are below `counter`.
pub open spec fn numbered(heap: Seq<PriorityQueueEntry>, counter: usize) -> bool {
    &&& forall|i: int| 0 <= i < heap.len() ==> (#[trigger] heap[i]).sequence < counter
    &&& forall|i: int, j: int|
        0 <= i < j < heap.len() ==> (#[trigger] heap[i]).sequence != (#[trigger] heap[j]).sequence
}

/// `heap` with the entries at places `i` and `j` exchanged.
pub open spec fn exchanged(heap: Seq<PriorityQueueEntry>, i: int, j: int) -> Seq<PriorityQueueEntry> {
    heap.update(i, heap[j]).update(j, heap[i])
}

/// Exchanging two entries keeps the entries and their numbers.
pub proof fn lemma_exchanged(heap: Seq<PriorityQueueEntry>, i: int, j: int, counter: usize)
    requires
        0 <= i < heap.len(),
        0 <= j < heap.len(),
    ensures
        exchanged(heap, i, j).to_set() == heap.to_set(),
        numbered(heap, counter) ==> numbered(exchanged(heap, i, j), counter),
{
    let after = exchanged(heap, i, j);
    let from = |k: int|
        if k == i {
            j
        } else if k == j {
            i
        } else {
            k
        };
    assert forall|e: PriorityQueueEntry| after.to_set().contains(e) <==> heap.to_set().contains(
        e,
    ) by {
        if after.contains(e) {
            let k = choose|k: int| 0 <= k < after.len() && after[k] == e;
            assert(heap[from(k)] == e);
        }
        if heap.contains(e) {
            let k = choose|k: int| 0 <= k < heap.len() && heap[k] == e;
            assert(after[from(k)] == e);
        }
    }
    assert(after.to_set() =~= heap.to_set());
    if numbered(heap, counter) {
        assert forall|a: int, b: int| 0 <= a < b < after.len() implies (#[trigger] after[a]).sequence
            != (#[trigger] after[b]).sequence by {
            let (p, q) = (from(a), from(b));
            assert(after[a] == heap[p] && after[b] == heap[q]);
            if p < q {
                assert(heap[p].sequence != heap[q].sequence);
            } else {
                assert(heap[q].sequence != heap[p].sequence);
            }
        }
        assert forall|a: int| 0 <= a < after.len() implies (#[trigger] after[a]).sequence
            < counter by {
            assert(after[a] == heap[from(a)]);
        }
    }
}

/// The first entry of an ordered heap leaves before every other.
pub proof fn lemma_root_is_first(heap: Seq<PriorityQueueEntry>, i: int)
    requires
        heap_ordered(heap),
        0 <= i < heap.len(),
    ensures
        heap[0].spec_precedes(&heap[i]),
    decreases i,
{
    if i > 0 {
        lemma_root_is_first(heap, (i - 1) / 2);
        assert(rises(heap, i));
    }
}

/// A queue of nodes ordered by priority, lowest first, and by the order of
/// pushing where priorities are equal. Beside the entries it keeps the set of
/// nodes that are present: a push adds its node to the set, and a pop takes
/// the popped node out of it.
#[derive(Debug)]
pub struct PriorityQueue {
    heap: Vec<PriorityQueueEntry>,
    counter: usize,
    items: HashSet<usize>,
}

impl PriorityQueue {
    /// The entries that wait in the queue.
    pub closed spec fn entries(&self) -> Set<PriorityQueueEntry> {
        self.heap@.to_set()
    }

    /// The nodes that `contains` reports.
    pub closed spec fn present(&self) -> Set<usize> {
        self.items@
    }

    /// The number of pushes so far.
    pub closed spec fn counter(&self) -> usize {
        self.counter
    }

    /// Every entry was numbered by an earlier push, no two entries have the
    /// same number, and the entry that leaves next stands first.
    pub closed spec fn well_formed(&self) -> bool {
        &&& self.items@.finite()
        &&& numbered(self.heap@, self.counter)
        &&& heap_ordered(self.heap@)
    }

    /// The entries of a well-formed queue are numbered below its counter.
    pub proof fn lemma_entries_numbered(&self)
        requires
            self.well_formed(),
        ensures
            self.entries().finite(),
            self.present().finite(),
            forall|e: PriorityQueueEntry| #[trigger]
                self.entries().contains(e) ==> e.sequence < self.counter(),
            forall|e: PriorityQueueEntry, f: PriorityQueueEntry|
                #![trigger self.entries().contains(e), self.entries().contains(f)]
                self.entries().contains(e) && self.entries().contains(f) && e.sequence
                    == f.sequence ==> e == f,
    {
    }

    /// A queue without entries, before the first push.
    pub fn new() -> (queue: Self)
        ensures
            queue.well_formed(),
            queue.entries() == Set::<PriorityQueueEntry>::empty(),
            queue.present() == Set::<usize>::empty(),
            queue.counter() == 0,
    {
        let queue = PriorityQueue { heap: Vec::new(), counter: 0, items: HashSet::new() };
        assert(queue.heap@.to_set() =~= Set::<PriorityQueueEntry>::empty());
        queue
    }

    /// Puts `node` into the queue at `priority`, behind every entry of the
    /// same priority that waits there, and marks the node as present.
    pub fn push(&mut self, node: usize, priority: u128)
        requires
            old(self).well_formed(),
            old(self).counter() < usize::MAX,
        ensures
            final(self).well_formed(),
            final(self).counter() == old(self).counter() + 1,
            final(self).entries() == old(self).entries().insert(
                PriorityQueueEntry { priority, sequence: old(self).counter(), node },
            ),
            final(self).present() == old(self).present().insert(node),
    {
        let entry = PriorityQueueEntry { priority, sequence: self.counter, node };
        let ghost before = self.heap@;
        self.heap.push(entry);
        self.counter += 1;
        self.items.insert(node);
        proof {
            before.lemma_push_to_set_commute(entry);
        }
        // The new entry rises towards the front for as long as it leaves
        // before the entry at the place of its parent.
        let ghost pushed = self.heap@;
        let mut i: usize = self.heap.len() - 1;
        proof {
            assert forall|k: int| 0 < k < pushed.len() && k != i implies #[trigger] rises(
                pushed,
                k,
            ) by {
                assert(rises(before, k));
            }
        }
        while i > 0
            invariant_except_break
                ordered_above(self.heap@, i as int),
            invariant
                i < self.heap@.len() == pushed.len(),
                self.heap@.to_set() == pushed.to_set(),
                numbered(self.heap@, self.counter),
                self.counter == old(self).counter + 1,
                self.items@ == old(self).items@.insert(node),
            ensures
                heap_ordered(self.heap@),
            decreases i,
        {
            let parent = (i - 1) / 2;
            if self.heap[parent].precedes(&self.heap[i]) {
                proof {
                    lemma_risen(self.heap@, i as int);
                }
                break ;
            }
            let ghost unswapped = self.heap@;
            let above = self.heap[parent];
            let below = self.heap[i];
            self.heap.set(parent, below);
            self.heap.set(i, above);
            proof {
                assert(self.heap@ == exchanged(unswapped, parent as int, i as int));
                lemma_exchanged(unswapped, parent as int, i as int, self.counter);
                lemma_rise(unswapped, i as int);
                if parent == 0 {
                    lemma_risen(self.heap@, 0);
                }
            }
            i = parent;
        }
    }

    /// Takes out the entry that leaves next and returns its node; `None` if
    /// the queue holds no entry.
    pub fn pop(&mut self) -> (popped: Option<usize>)
        requires
            old(self).well_formed(),
        ensures
            final(self).well_formed(),
            final(self).counter() == old(self).counter(),
            match popped {
                Some(node) => exists|first: PriorityQueueEntry|
                    #![trigger is_first(old(self).entries(), first)]
                    is_first(old(self).entries(), first) && first.node == node && final(self).entries()
                        == old(self).entries().remove(first) && final(self).present() == old(
                        self,
                    ).present().remove(node),
                None => old(self).entries() == Set::<PriorityQueueEntry>::empty() && final(self).entries()
                    == old(self).entries() && final(self).present() == old(self).present(),
            },
    {
        let ghost before = self.heap@;
        let last = match self.heap.pop() {
            None => {
                assert(before.to_set() =~= Set::<PriorityQueueEntry>::empty());
                return None;
            },
            Some(last) => last,
        };
        let first = if self.heap.len() == 0 {
            last
        } else {
            let first = self.heap[0];
            self.heap.set(0, last);
            first
        };
        self.items.remove(&first.node);
        let ghost moved = self.heap@;
        proof {
            assert(first == before[0]);
            assert(is_first(before.to_set(), first)) by {
                assert forall|other: PriorityQueueEntry| #[trigger]
                    before.to_set().contains(other) implies first.spec_precedes(&other) by {
                    let k = choose|k: int| 0 <= k < before.len() && before[k] == other;
                    lemma_root_is_first(before, k);
                }
            }
            assert(moved.to_set() =~= before.to_set().remove(first)) by {
                assert forall|e: PriorityQueueEntry| #[trigger]
                    moved.to_set().contains(e) <==> before.to_set().remove(first).contains(e) by {
                    if moved.contains(e) {
                        let k = choose|k: int| 0 <= k < moved.len() && moved[k] == e;
                        if k == 0 {
                            assert(before[before.len() - 1] == e);
                            assert(before[0].sequence != before[before.len() - 1].sequence);
                        } else {
                            assert(before[k] == e);
                            assert(before[0].sequence != before[k].sequence);
                        }
                    }
                    if before.contains(e) && e != first {
                        let k = choose|k: int| 0 <= k < before.len() && before[k] == e;
                        if k == before.len() - 1 {
                            assert(moved[0] == e);
                        } else {
                            assert(moved[k] == e);
                        }
                    }
                }
            }
            assert(numbered(moved, self.counter)) by {
                assert forall|a: int, b: int| 0 <= a < b < moved.len() implies (
                #[trigger] moved[a]).sequence != (#[trigger] moved[b]).sequence by {
                    if a == 0 {
                        assert(before[b].sequence != before[before.len() - 1].sequence);
                    } else {
                        assert(before[a].sequence != before[b].sequence);
                    }
                }
                assert forall|a: int| 0 <= a < moved.len() implies (#[trigger] moved[a]).sequence
                    < self.counter by {
                    if a == 0 {
                        assert(before[before.len() - 1].sequence < self.counter);
                    } else {
                        assert(before[a].sequence < self.counter);
                    }
                }
            }
            assert forall|k: int| 0 < k < moved.len() && (k - 1) / 2 != 0 implies #[trigger] rises(
                moved,
                k,
            ) by {
                assert(rises(before, k));
            }
        }
        // The entry at the front sinks for as long as one of the two entries
        // whose parent it is leaves before it.
        let length = self.heap.len();
        let mut i: usize = 0;
        loop
            invariant_except_break
                ordered_below(self.heap@, i as int),
            invariant
                i <= length,
                length == self.heap@.len() == moved.len(),
                self.heap@.to_set() == moved.to_set(),
                numbered(self.heap@, self.counter),
                self.counter == old(self).counter,
                self.items@ == old(self).items@.remove(first.node),
            ensures
                heap_ordered(self.heap@),
            decreases length - i,
        {
            if i >= length / 2 {
                proof {
                    lemma_sunk(self.heap@, i as int);
                }
                break ;
            }
            let left = 2 * i + 1;
            let right = left + 1;
            let mut least = i;
            if !self.heap[least].precedes(&self.heap[left]) {
                least = left;
            }
            if right < length && !self.heap[least].precedes(&self.heap[right]) {
                least = right;
            }
            if least == i {
                proof {
                    assert forall|k: int|
                        0 < k < self.heap@.len() && (k - 1) / 2 == i implies #[trigger] rises(
                        self.heap@,
                        k,
                    ) by {
                        assert(k == left || k == right);
                    }
                    lemma_sunk(self.heap@, i as int);
                }
                break ;
            }
            let ghost unswapped = self.heap@;
            let above = self.heap[i];
            let below = self.heap[least];
            proof {
                assert forall|k: int|
                    0 < k < unswapped.len() && (k - 1) / 2 == i implies #[trigger] in_order(
                    unswapped,
                    least as int,
                    k,
                ) by {
                    assert(k == left || k == right);
                }
            }
            self.heap.set(i, below);
            self.heap.set(least, above);
            proof {
                assert(self.heap@ == exchanged(unswapped, i as int, least as int));
                lemma_exchanged(unswapped, i as int, least as int, self.counter);
                lemma_sink(unswapped, i as int, least as int);
            }
            i = least;
        }
        assert(is_first(old(self).entries(), first));
        Some(first.node)
    }

    /// Whether `node` is marked as present: it was pushed, and was not
    /// popped since.
    pub fn contains(&self, node: usize) -> (r: bool)
        ensures
            r == self.present().contains(node),
    {
        self.items.contains(&node)
    }

    /// A queue that holds `nodes`, each at priority 0, in their order.
    pub fn from_nodes(nodes: &Vec<usize>) -> (queue: Self)
        ensures
            queue.well_formed(),
            queue.counter() == nodes@.len(),
            queue.present() == nodes@.to_set(),
            queue.entries() == Set::new(
                |e: PriorityQueueEntry|
                    e.priority == 0 && e.sequence < nodes@.len() && e.node == nodes@[e.sequence as int],
            ),
    {
        let mut queue = PriorityQueue::new();
        let mut i: usize = 0;
        while i < nodes.len()
            invariant
                i <= nodes@.len(),
                queue.well_formed(),
                queue.counter() == i,
                queue.present() == nodes@.take(i as int).to_set(),
                queue.entries() == Set::new(
                    |e: PriorityQueueEntry|
                        e.priority == 0 && e.sequence < i && e.node == nodes@[e.sequence as int],
                ),
            decreases nodes@.len() - i,
        {
            let ghost entries = queue.entries();
            queue.push(nodes[i], 0);
            proof {
                assert(nodes@.take(i + 1) == nodes@.take(i as int).push(nodes@[i as int]));
                nodes@.take(i as int).lemma_push_to_set_commute(nodes@[i as int]);
                assert(queue.entries() =~= Set::new(
                    |e: PriorityQueueEntry|
                        e.priority == 0 && e.sequence < i + 1 && e.node
                            == nodes@[e.sequence as int],
                ));
            }
            i += 1;
        }
        proof {
            assert(nodes@.take(i as int) == nodes@);
        }
        queue
    }
}

} // verus!
