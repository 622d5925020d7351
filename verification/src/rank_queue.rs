//! A priority queue of scored identities: the best entry leaves first.

use crate::order::ExtendedPointId;
use vstd::multiset::Multiset;
use vstd::prelude::*;

verus! {

/// One entry of the queue.
#[derive(Clone, Copy, Debug, PartialEq, Eq, Structural)]
pub struct RankEntry {
    /// The key of the entry's score.
    pub score: i64,
    /// The identity that breaks equal scores.
    pub id: ExtendedPointId,
    /// What the entry stands for; it breaks equal scores of one identity.
    pub slot: usize,
}

impl RankEntry {
    /// Whether this entry leaves the queue before the other.
    pub open spec fn precedes(self, other: RankEntry) -> bool {
        ||| self.score > other.score
        ||| self.score == other.score && self.id.rank() < other.id.rank()
        ||| self.score == other.score && self.id.rank() == other.id.rank() && self.slot
            < other.slot
    }

    /// Whether this entry leaves the queue before the other.
    pub fn leaves_before(&self, other: &RankEntry) -> (result: bool)
        ensures
            result == self.precedes(*other),
    {
        if self.score > other.score {
            true
        } else if self.score < other.score {
            false
        } else if self.id.before(other.id) {
            true
        } else if other.id.before(self.id) {
            false
        } else {
            self.slot < other.slot
        }
    }
}

/// Whether no entry of the sequence precedes one that stands in front of it.
pub open spec fn is_ordered(entries: Seq<RankEntry>) -> bool {
    forall|i: int, j: int|
        0 <= i < j < entries.len() ==> !(#[trigger] entries[j].precedes(#[trigger] entries[i]))
}

/// The order of entries has no two different entries on one place.
pub proof fn lemma_entries_are_totally_ordered(left: RankEntry, right: RankEntry)
    requires
        !left.precedes(right),
        !right.precedes(left),
    ensures
        left == right,
{
    crate::order::lemma_rank_is_injective(left.id, right.id);
}

/// Whether the first entry may stand in front of the second.
pub open spec fn may_precede() -> spec_fn(RankEntry, RankEntry) -> bool {
    |left: RankEntry, right: RankEntry| !right.precedes(left)
}

/// The entries of a sequence, the best first.
pub open spec fn ordered(entries: Seq<RankEntry>) -> Seq<RankEntry> {
    entries.sort_by(may_precede())
}

/// Ordering keeps the entries and puts none in front of a better one.
pub proof fn lemma_ordered(entries: Seq<RankEntry>)
    ensures
        is_ordered(ordered(entries)),
        ordered(entries).to_multiset() == entries.to_multiset(),
        ordered(entries).len() == entries.len(),
        forall|entry: RankEntry| ordered(entries).contains(entry) <==> entries.contains(entry),
{
    broadcast use vstd::seq_lib::group_to_multiset_ensures;

    let leq = may_precede();
    assert(vstd::relations::total_ordering(leq)) by {
        assert forall|x: RankEntry, y: RankEntry| #[trigger] leq(x, y) && #[trigger] leq(y, x) implies x == y by {
            lemma_entries_are_totally_ordered(x, y);
        }
    }
    entries.lemma_sort_by_ensures(leq);
    let result = ordered(entries);
    assert forall|i: int, j: int| 0 <= i < j < result.len() implies !(
    #[trigger] result[j].precedes(#[trigger] result[i])) by {
        assert(leq(result[i], result[j]));
    }
    assert(result.len() == result.to_multiset().len());
    assert forall|entry: RankEntry| result.contains(entry) <==> entries.contains(entry) by {
        assert(result.to_multiset().count(entry) == entries.to_multiset().count(entry));
    }
}

/// Two ordered sequences of the same entries are the same sequence.
pub proof fn lemma_order_is_unique(left: Seq<RankEntry>, right: Seq<RankEntry>)
    requires
        is_ordered(left),
        is_ordered(right),
        left.to_multiset() == right.to_multiset(),
    ensures
        left == right,
    decreases left.len(),
{
    broadcast use vstd::seq_lib::group_to_multiset_ensures;

    assert(left.len() == left.to_multiset().len());
    assert(right.len() == right.to_multiset().len());
    if left.len() == 0 {
        assert(left =~= right);
    } else {
        assert(left.contains(left[0]));
        assert(right.contains(right[0]));
        assert(right.to_multiset().count(left[0]) > 0);
        assert(left.to_multiset().count(right[0]) > 0);
        assert(right.contains(left[0]));
        assert(left.contains(right[0]));
        let i = choose|i: int| 0 <= i < right.len() && right[i] == left[0];
        let j = choose|j: int| 0 <= j < left.len() && left[j] == right[0];
        assert(!right[i].precedes(right[0]));
        assert(!left[j].precedes(left[0]));
        lemma_entries_are_totally_ordered(left[0], right[0]);
        assert(left.remove(0) =~= left.drop_first());
        assert(right.remove(0) =~= right.drop_first());
        lemma_order_is_unique(left.drop_first(), right.drop_first());
        assert(left =~= seq![left[0]] + left.drop_first());
        assert(right =~= seq![right[0]] + right.drop_first());
    }
}

/// The entries of a vector, the best first.
pub fn order_entries(entries: Vec<RankEntry>) -> (result: Vec<RankEntry>)
    ensures
        result@ == ordered(entries@),
{
    broadcast use vstd::seq_lib::group_to_multiset_ensures;

    let mut queue = RankQueue::new();
    let mut i: usize = 0;
    assert(entries@.take(0).to_multiset() =~= Multiset::<RankEntry>::empty()) by {
        assert(entries@.take(0).to_multiset().len() == 0);
    }
    while i < entries.len()
        invariant
            i <= entries@.len(),
            queue.wf(),
            queue@ == entries@.take(i as int).to_multiset(),
        decreases entries@.len() - i,
    {
        proof {
            assert(entries@.take(i + 1) =~= entries@.take(i as int).push(entries@[i as int]));
            vstd::seq_lib::to_multiset_build(entries@.take(i as int), entries@[i as int]);
        }
        queue.push(entries[i]);
        i += 1;
    }
    assert(entries@.take(i as int) =~= entries@);
    let result = queue.into_ordered();
    proof {
        lemma_ordered(entries@);
        lemma_order_is_unique(result@, ordered(entries@));
    }
    result
}

/// Replacing one element of a sequence replaces it in the multiset.
proof fn lemma_update_multiset(s: Seq<RankEntry>, i: int, entry: RankEntry)
    requires
        0 <= i < s.len(),
    ensures
        s.update(i, entry).to_multiset() == s.to_multiset().remove(s[i]).insert(entry),
{
    broadcast use vstd::seq_lib::group_to_multiset_ensures;

    assert(s.update(i, entry) =~= s.remove(i).insert(i, entry));
}

/// Exchanging two elements leaves the multiset unchanged.
proof fn lemma_swap_multiset(s: Seq<RankEntry>, i: int, j: int)
    requires
        0 <= i < s.len(),
        0 <= j < s.len(),
        i != j,
    ensures
        s.update(i, s[j]).update(j, s[i]).to_multiset() == s.to_multiset(),
{
    broadcast use vstd::seq_lib::group_to_multiset_ensures;

    let first = s.update(i, s[j]);
    lemma_update_multiset(s, i, s[j]);
    lemma_update_multiset(first, j, s[i]);
    assert(s.to_multiset().count(s[i]) > 0);
    assert(first.update(j, s[i]).to_multiset() =~= s.to_multiset());
}

/// A binary heap of entries.
#[derive(Debug)]
pub struct RankQueue {
    heap: Vec<RankEntry>,
}

impl View for RankQueue {
    type V = Multiset<RankEntry>;

    closed spec fn view(&self) -> Multiset<RankEntry> {
        self.heap@.to_multiset()
    }
}

/// Whether no child precedes its parent, but perhaps the entry at `hole`.
spec fn heap_but(heap: Seq<RankEntry>, hole: int) -> bool {
    forall|i: int|
        0 < i < heap.len() && i != hole ==> !(#[trigger] heap[i].precedes(heap[(i - 1) / 2]))
}

/// The root of a heap is preceded by none of its entries.
proof fn lemma_root_is_first(heap: Seq<RankEntry>, i: int)
    requires
        heap_but(heap, 0),
        0 <= i < heap.len(),
    ensures
        !heap[i].precedes(heap[0]),
    decreases i,
{
    if i > 0 {
        lemma_root_is_first(heap, (i - 1) / 2);
        assert(!heap[i].precedes(heap[(i - 1) / 2]));
    }
}

/// The root of a heap is one of its entries, and none precedes it.
proof fn lemma_root_dominates(heap: Seq<RankEntry>)
    requires
        heap_but(heap, 0),
        heap.len() > 0,
    ensures
        heap.to_multiset().contains(heap[0]),
        forall|other: RankEntry|
            heap.to_multiset().contains(other) ==> !(#[trigger] other.precedes(heap[0])),
{
    broadcast use vstd::seq_lib::group_to_multiset_ensures;

    assert(heap.contains(heap[0]));
    assert forall|other: RankEntry| heap.to_multiset().contains(other) implies !(
    #[trigger] other.precedes(heap[0])) by {
        assert(heap.contains(other));
        let i = choose|i: int| 0 <= i < heap.len() && heap[i] == other;
        lemma_root_is_first(heap, i);
    }
}

impl RankQueue {
    /// Whether the entries are laid out as a heap.
    pub closed spec fn wf(&self) -> bool {
        heap_but(self.heap@, 0)
    }

    /// A queue without entries.
    pub fn new() -> (queue: RankQueue)
        ensures
            queue.wf(),
            queue@ == Multiset::<RankEntry>::empty(),
    {
        let queue = RankQueue { heap: Vec::new() };
        proof {
            assert(queue.heap@.to_multiset() =~= Multiset::<RankEntry>::empty()) by {
                broadcast use vstd::seq_lib::group_to_multiset_ensures;

                assert(queue.heap@.to_multiset().len() == 0);
            }
        }
        queue
    }

    /// The number of entries.
    pub fn len(&self) -> (len: usize)
        ensures
            len == self@.len(),
    {
        proof {
            broadcast use vstd::seq_lib::group_to_multiset_ensures;

        }
        self.heap.len()
    }

    /// Whether there are no entries.
    pub fn is_empty(&self) -> (empty: bool)
        ensures
            empty == (self@.len() == 0),
            empty == (self@ == Multiset::<RankEntry>::empty()),
    {
        proof {
            broadcast use vstd::seq_lib::group_to_multiset_ensures;

            if self@.len() == 0 {
                assert(self@ =~= Multiset::<RankEntry>::empty());
            }
        }
        self.heap.is_empty()
    }

    /// The entry that leaves next.
    pub fn peek(&self) -> (entry: Option<RankEntry>)
        requires
            self.wf(),
        ensures
            entry is None <==> self@.len() == 0,
            entry matches Some(first) ==> self@.contains(first) && forall|other: RankEntry|
                self@.contains(other) ==> !(#[trigger] other.precedes(first)),
    {
        proof {
            broadcast use vstd::seq_lib::group_to_multiset_ensures;

        }
        if self.heap.len() == 0 {
            None
        } else {
            proof {
                lemma_root_dominates(self.heap@);
            }
            Some(self.heap[0])
        }
    }

    /// Adds an entry.
    pub fn push(&mut self, entry: RankEntry)
        requires
            old(self).wf(),
        ensures
            final(self).wf(),
            final(self)@ == old(self)@.insert(entry),
    {
        broadcast use vstd::seq_lib::group_to_multiset_ensures;

        let mut i: usize = self.heap.len();
        self.heap.push(entry);
        let ghost contents = self.heap@.to_multiset();
        let mut settled = i == 0;
        while !settled
            invariant
                i < self.heap@.len(),
                heap_but(self.heap@, i as int),
                settled ==> heap_but(self.heap@, 0),
                !settled ==> i > 0,
                i > 0 ==> forall|child: int|
                    0 < child < self.heap@.len() && (child - 1) / 2 == i ==> !(
                    #[trigger] self.heap@[child].precedes(self.heap@[(i - 1) / 2])),
                self.heap@.to_multiset() == contents,
            decreases i, (if settled { 0int } else { 1int }),
        {
            let parent: usize = (i - 1) / 2;
            let child_entry = self.heap[i];
            let parent_entry = self.heap[parent];
            if child_entry.leaves_before(&parent_entry) {
                proof {
                    lemma_swap_multiset(self.heap@, i as int, parent as int);
                }
                let ghost before = self.heap@;
                self.heap.set(i, parent_entry);
                self.heap.set(parent, child_entry);
                i = parent;
                settled = i == 0;
                proof {
                    assert forall|k: int| 0 < k < self.heap@.len() && k != i implies !(
                    #[trigger] self.heap@[k].precedes(self.heap@[(k - 1) / 2])) by {
                        assert(!before[k].precedes(before[(k - 1) / 2]) || before[k] == child_entry);
                    }
                    if i > 0 {
                        assert(!before[i as int].precedes(before[(i - 1) / 2]));
                        assert forall|child: int|
                            0 < child < self.heap@.len() && (child - 1) / 2 == i implies !(
                        #[trigger] self.heap@[child].precedes(self.heap@[(i - 1) / 2])) by {
                            assert(!before[child].precedes(before[(child - 1) / 2])
                                || before[child] == child_entry);
                        }
                    }
                }
            } else {
                settled = true;
            }
        }
    }

    /// Takes the entry that leaves next.
    pub fn pop(&mut self) -> (entry: Option<RankEntry>)
        requires
            old(self).wf(),
        ensures
            final(self).wf(),
            entry is None <==> old(self)@.len() == 0,
            entry is None ==> *final(self) == *old(self),
            entry matches Some(first) ==> {
                &&& old(self)@.contains(first)
                &&& final(self)@ == old(self)@.remove(first)
                &&& forall|other: RankEntry|
                    old(self)@.contains(other) ==> !(#[trigger] other.precedes(first))
            },
    {
        broadcast use vstd::seq_lib::group_to_multiset_ensures;

        if self.heap.len() == 0 {
            return None;
        }
        let ghost original = self.heap@;
        let ghost first = self.heap@[0];
        proof {
            lemma_root_dominates(self.heap@);
        }
        let removed = self.heap.swap_remove(0);
        let ghost contents = self.heap@.to_multiset();
        proof {
            lemma_update_multiset(original, 0, original.last());
            let moved = original.update(0, original.last());
            assert(moved.drop_last() =~= moved.remove(moved.len() - 1));
            let last = original.last();
            assert(contents == original.to_multiset().remove(first).insert(last).remove(last));
            assert(contents =~= original.to_multiset().remove(first));
        }
        let len: usize = self.heap.len();
        let mut i: usize = 0;
        let mut settled = false;
        proof {
            assert forall|k: int| 0 < k < self.heap@.len() && (k - 1) / 2 != 0 implies !(
            #[trigger] self.heap@[k].precedes(self.heap@[(k - 1) / 2])) by {
                assert(!original[k].precedes(original[(k - 1) / 2]));
            }
        }
        while !settled
            invariant
                len == self.heap@.len(),
                i < len || len == 0,
                len == 0 ==> i == 0,
                forall|k: int|
                    0 < k < len && (k - 1) / 2 != i ==> !(#[trigger] self.heap@[k].precedes(
                        self.heap@[(k - 1) / 2],
                    )),
                i > 0 ==> forall|k: int|
                    0 < k < len && (k - 1) / 2 == i ==> !(#[trigger] self.heap@[k].precedes(
                        self.heap@[(i - 1) / 2],
                    )),
                settled ==> heap_but(self.heap@, 0),
                self.heap@.to_multiset() == contents,
            decreases len - i, (if settled { 0int } else { 1int }),
        {
            if len == 0 || i > (len - 1) / 2 || 2 * i + 1 >= len {
                settled = true;
            } else {
                let left: usize = 2 * i + 1;
                let mut best: usize = left;
                if left + 1 < len && self.heap[left + 1].leaves_before(&self.heap[left]) {
                    best = left + 1;
                }
                let parent_entry = self.heap[i];
                let child_entry = self.heap[best];
                if child_entry.leaves_before(&parent_entry) {
                    proof {
                        lemma_swap_multiset(self.heap@, i as int, best as int);
                    }
                    let ghost before = self.heap@;
                    self.heap.set(i, child_entry);
                    self.heap.set(best, parent_entry);
                    proof {
                        assert forall|k: int| 0 < k < len && (k - 1) / 2 != best implies !(
                        #[trigger] self.heap@[k].precedes(self.heap@[(k - 1) / 2])) by {
                            assert(k == left || k == left + 1 || (k - 1) / 2 != i);
                            if k != left && k != left + 1 {
                                assert(!before[k].precedes(before[(k - 1) / 2]));
                                if k == i {
                                    assert(!before[best as int].precedes(before[(i - 1) / 2]));
                                }
                            }
                        }
                        assert forall|k: int| 0 < k < len && (k - 1) / 2 == best implies !(
                        #[trigger] self.heap@[k].precedes(self.heap@[(best - 1) / 2])) by {
                            assert(!before[k].precedes(before[(k - 1) / 2]));
                        }
                    }
                    i = best;
                } else {
                    settled = true;
                    proof {
                        assert forall|k: int| 0 < k < self.heap@.len() implies !(
                        #[trigger] self.heap@[k].precedes(self.heap@[(k - 1) / 2])) by {
                            assert(k == left || k == left + 1 || (k - 1) / 2 != i);
                        }
                    }
                }
            }
        }
        Some(removed)
    }

    /// Takes every entry, the best first.
    pub fn into_ordered(self) -> (entries: Vec<RankEntry>)
        requires
            self.wf(),
        ensures
            entries@.to_multiset() == self@,
            is_ordered(entries@),
    {
        broadcast use vstd::seq_lib::group_to_multiset_ensures;

        let mut queue = self;
        let ghost contents = queue@;
        let mut entries: Vec<RankEntry> = Vec::new();
        assert(entries@.to_multiset().add(queue@) =~= contents) by {
            assert(entries@.to_multiset().len() == 0);
        }
        loop
            invariant
                queue.wf(),
                contents == self@,
                entries@.to_multiset().add(queue@) == contents,
                is_ordered(entries@),
                forall|i: int, rest: RankEntry|
                    0 <= i < entries@.len() && queue@.contains(rest) ==> !(
                    #[trigger] rest.precedes(#[trigger] entries@[i])),
            decreases queue@.len(),
        {
            let ghost before = entries@;
            let ghost queued = queue@;
            match queue.pop() {
                Some(entry) => {
                    entries.push(entry);
                    proof {
                        vstd::seq_lib::to_multiset_build(before, entry);
                    }
                    assert(queued.count(entry) > 0);
                    assert(entries@.to_multiset().add(queue@) =~= contents);
                },
                None => {
                    assert(entries@.to_multiset() =~= contents);
                    return entries;
                },
            }
        }
    }
}

} // verus!
