//! Exact dense ranking under certified score intervals.
//!
//! Every eligible point has an interval that holds its exact score. Points are
//! scored exactly only while their upper bound can still decide the next rank.

use crate::operation_error::{inconsistency, inconsistent, Fault, OperationResult};
use crate::order::{finite_key, is_finite_key, ranks_before, scored_before, ExtendedPointId};
use crate::rank_queue::{RankEntry, RankQueue};
use crate::tables::repeated;
use vstd::multiset::Multiset;
use vstd::prelude::*;

verus! {

/// The number of a point within its segment.
pub type PointOffsetType = u32;

/// A point with its exact score.
#[derive(Clone, Copy, Debug, PartialEq, Eq, Structural)]
pub struct ScoredPointOffset {
    pub idx: PointOffsetType,
    /// The key of the score.
    pub score: i64,
}

/// The interval that was certified for the score of a point.
#[derive(Clone, Copy, Debug, PartialEq, Eq, Structural)]
pub struct PendingBound {
    pub id: PointOffsetType,
    pub lower: i64,
    pub value: i64,
}

/// Where a point stands between its bound and its rank.
#[derive(Clone, Copy, Debug, PartialEq, Eq, Structural)]
pub enum Phase {
    /// Only its interval is in use.
    Pending,
    /// Its bound was taken and its exact score is being checked.
    Taken,
    /// Its exact score competes for the next rank.
    Refined,
    /// It has been emitted.
    Emitted,
}

/// The identity by which equal scores of points are ordered.
pub open spec fn offset_id(id: PointOffsetType) -> ExtendedPointId {
    ExtendedPointId::NumId(id as u64)
}

/// The identity by which equal scores of points are ordered.
pub fn offset_identity(id: PointOffsetType) -> (identity: ExtendedPointId)
    ensures
        identity == offset_id(id),
{
    ExtendedPointId::NumId(id as u64)
}

/// Whether an interval is finite and not empty.
pub open spec fn is_interval(bound: PendingBound) -> bool {
    finite_key(bound.lower) && finite_key(bound.value) && bound.lower <= bound.value
}

/// Whether the bounds are intervals of different points, in ascending order.
pub open spec fn valid_bounds(bounds: Seq<PendingBound>) -> bool {
    &&& bounds.len() <= usize::MAX
    &&& forall|slot: int| 0 <= slot < bounds.len() ==> is_interval(#[trigger] bounds[slot])
    &&& forall|left: int, right: int|
        0 <= left < right < bounds.len() ==> (#[trigger] bounds[left]).id < (
        #[trigger] bounds[right]).id
}

/// What a certificate knows.
pub struct CertificateView {
    /// The intervals, by ascending point.
    pub bounds: Seq<PendingBound>,
    /// The exact scores that are known.
    pub scores: Seq<Option<i64>>,
    /// Where every point stands.
    pub phases: Seq<Phase>,
    /// What was emitted, in its order.
    pub emitted: Seq<ScoredPointOffset>,
    /// How many points are refined at once.
    pub batch: usize,
    /// Whether lower bounds and finiteness are checked too.
    pub strict: bool,
    /// How often an exact score was computed.
    pub computed: usize,
}

impl CertificateView {
    /// The number of eligible points.
    pub open spec fn len(self) -> int {
        self.bounds.len() as int
    }

    /// The entry of a pending point.
    pub open spec fn bound_entry(self, slot: int) -> RankEntry {
        RankEntry {
            score: self.bounds[slot].value,
            id: offset_id(self.bounds[slot].id),
            slot: slot as usize,
        }
    }

    /// The entry of a refined point.
    pub open spec fn exact_entry(self, slot: int) -> RankEntry {
        RankEntry {
            score: self.scores[slot]->0,
            id: offset_id(self.bounds[slot].id),
            slot: slot as usize,
        }
    }

    /// Whether an entry is that of a pending point.
    pub open spec fn is_pending(self, entry: RankEntry) -> bool {
        &&& entry.slot < self.len()
        &&& self.phases[entry.slot as int] == Phase::Pending
        &&& entry == self.bound_entry(entry.slot as int)
    }

    /// Whether an entry is that of a refined point.
    pub open spec fn is_refined(self, entry: RankEntry) -> bool {
        &&& entry.slot < self.len()
        &&& self.phases[entry.slot as int] == Phase::Refined
        &&& entry == self.exact_entry(entry.slot as int)
    }

    /// Whether the parts belong together.
    pub open spec fn valid(self) -> bool {
        &&& valid_bounds(self.bounds)
        &&& self.scores.len() == self.bounds.len()
        &&& self.phases.len() == self.bounds.len()
        &&& self.batch > 0
        &&& forall|slot: int|
            0 <= slot < self.len() && (#[trigger] self.phases[slot] == Phase::Refined
                || self.phases[slot] == Phase::Emitted) ==> self.scores[slot] is Some
    }

    /// Whether a point is certain to be the next: no refined point precedes it,
    /// and no bound of a pending point reaches it.
    pub open spec fn certifies(self, slot: int) -> bool {
        &&& 0 <= slot < self.len()
        &&& self.scores[slot] is Some
        &&& forall|other: int|
            0 <= other < self.len() && #[trigger] self.phases[other] == Phase::Refined
                ==> !self.exact_entry(other).precedes(self.exact_entry(slot))
        &&& forall|other: int|
            0 <= other < self.len() && #[trigger] self.phases[other] == Phase::Pending
                ==> ranks_before(
                self.scores[slot]->0,
                offset_id(self.bounds[slot].id),
                self.bounds[other].value,
                offset_id(self.bounds[other].id),
            )
    }

    /// Whether nothing that was known is lost: intervals and known scores stay.
    pub open spec fn extends(self, after: CertificateView) -> bool {
        &&& after.bounds == self.bounds
        &&& after.batch == self.batch
        &&& after.strict == self.strict
        &&& after.scores.len() == self.scores.len()
        &&& forall|slot: int|
            0 <= slot < self.len() && (#[trigger] self.scores[slot]) is Some ==> after.scores[slot]
                == self.scores[slot]
    }

    /// Whether every exact score lies in the interval that was certified for it.
    pub open spec fn sound(self, score: spec_fn(PointOffsetType) -> i64) -> bool {
        forall|slot: int|
            0 <= slot < self.len() ==> {
                &&& (#[trigger] self.bounds[slot]).lower <= score(self.bounds[slot].id)
                &&& score(self.bounds[slot].id) <= self.bounds[slot].value
            }
    }

    /// Whether everything known and emitted so far is right under the exact
    /// scores: known scores are exact, what was emitted is in exact order, and
    /// everything else stands behind it.
    pub open spec fn consistent(self, score: spec_fn(PointOffsetType) -> i64) -> bool {
        &&& self.sound(score)
        &&& forall|slot: int|
            0 <= slot < self.len() && (#[trigger] self.scores[slot]) is Some
                ==> self.scores[slot] == Some(score(self.bounds[slot].id))
        &&& forall|slot: int| 0 <= slot < self.len() ==> #[trigger] self.phases[slot] != Phase::Taken
        &&& forall|place: int|
            0 <= place < self.emitted.len() ==> {
                let point = #[trigger] self.emitted[place];
                &&& point.score == score(point.idx)
                &&& self.has_emitted(point.idx)
            }
        &&& forall|slot: int|
            0 <= slot < self.len() && #[trigger] self.phases[slot] == Phase::Emitted ==> exists|
                place: int,
            |
                0 <= place < self.emitted.len() && (#[trigger] self.emitted[place]).idx
                    == self.bounds[slot].id
        &&& forall|left: int, right: int|
            0 <= left < right < self.emitted.len() ==> exactly_before(
                score,
                (#[trigger] self.emitted[left]).idx,
                (#[trigger] self.emitted[right]).idx,
            )
        &&& forall|place: int, slot: int|
            0 <= place < self.emitted.len() && 0 <= slot < self.len() && #[trigger] self.phases[slot]
                != Phase::Emitted ==> exactly_before(
                score,
                (#[trigger] self.emitted[place]).idx,
                self.bounds[slot].id,
            )
    }

    /// Whether a point is one of the emitted ones.
    pub open spec fn has_emitted(self, id: PointOffsetType) -> bool {
        exists|slot: int|
            0 <= slot < self.len() && (#[trigger] self.bounds[slot]).id == id && self.phases[slot]
                == Phase::Emitted
    }
}

/// Whether one point stands before another by its exact score.
pub open spec fn exactly_before(
    score: spec_fn(PointOffsetType) -> i64,
    left: PointOffsetType,
    right: PointOffsetType,
) -> bool {
    ranks_before(score(left), offset_id(left), score(right), offset_id(right))
}

/// Whether an exact scorer can be called on every point.
pub open spec fn scores_all<S: Fn(PointOffsetType) -> i64>(scorer: S) -> bool {
    forall|id: PointOffsetType| call_requires(scorer, (id,))
}

/// Whether an exact scorer returns the exact scores.
pub open spec fn scores_exactly<S: Fn(PointOffsetType) -> i64>(
    scorer: S,
    score: spec_fn(PointOffsetType) -> i64,
) -> bool {
    forall|id: PointOffsetType, result: i64|
        #[trigger] call_ensures(scorer, (id,), result) ==> result == score(id)
}

/// The eligible points with their intervals, and the exact scores known so far.
pub struct CertificateState {
    bounds: Vec<PendingBound>,
    scores: Vec<Option<i64>>,
    pending: RankQueue,
    exact: RankQueue,
    refine_batch: usize,
    strict: bool,
    computed: usize,
    phases: Ghost<Seq<Phase>>,
    emitted: Ghost<Seq<ScoredPointOffset>>,
}

impl View for CertificateState {
    type V = CertificateView;

    closed spec fn view(&self) -> CertificateView {
        CertificateView {
            bounds: self.bounds@,
            scores: self.scores@,
            phases: self.phases@,
            emitted: self.emitted@,
            batch: self.refine_batch,
            strict: self.strict,
            computed: self.computed,
        }
    }
}

/// A certificate that has scored nothing.
pub open spec fn fresh_certificate(
    bounds: Seq<PendingBound>,
    batch: usize,
    strict: bool,
) -> CertificateView {
    CertificateView {
        bounds,
        scores: Seq::new(bounds.len(), |slot: int| None),
        phases: Seq::new(bounds.len(), |slot: int| Phase::Pending),
        emitted: Seq::empty(),
        batch,
        strict,
        computed: 0,
    }
}

impl CertificateState {
    /// Whether the queues hold the pending and the refined points.
    pub closed spec fn wf(&self) -> bool {
        &&& self@.valid()
        &&& self.pending.wf()
        &&& self.exact.wf()
        &&& forall|entry: RankEntry| #[trigger]
            self.pending@.count(entry) == (if self@.is_pending(entry) {
                1nat
            } else {
                0nat
            })
        &&& forall|entry: RankEntry| #[trigger]
            self.exact@.count(entry) == (if self@.is_refined(entry) {
                1nat
            } else {
                0nat
            })
    }

    /// The parts of a certificate belong together.
    pub proof fn lemma_valid(&self)
        requires
            self.wf(),
        ensures
            self@.valid(),
    {
    }

    /// A certificate that has scored nothing.
    pub fn new(bounds: Vec<PendingBound>, refine_batch: usize, strict: bool) -> (state:
        CertificateState)
        requires
            valid_bounds(bounds@),
            refine_batch > 0,
        ensures
            state.wf(),
            state@ == fresh_certificate(bounds@, refine_batch, strict),
    {
        let count: usize = bounds.len();
        let mut pending = RankQueue::new();
        let ghost view = fresh_certificate(bounds@, refine_batch, strict);
        let mut slot: usize = 0;
        while slot < count
            invariant
                count == bounds@.len(),
                slot <= count,
                pending.wf(),
                view == fresh_certificate(bounds@, refine_batch, strict),
                forall|entry: RankEntry| #[trigger]
                    pending@.count(entry) == (if entry.slot < slot && view.is_pending(entry) {
                        1nat
                    } else {
                        0nat
                    }),
            decreases count - slot,
        {
            let entry = RankEntry {
                score: bounds[slot].value,
                id: offset_identity(bounds[slot].id),
                slot,
            };
            pending.push(entry);
            assert(view.is_pending(entry));
            slot += 1;
        }
        let state = CertificateState {
            bounds,
            scores: repeated(None, count),
            pending,
            exact: RankQueue::new(),
            refine_batch,
            strict,
            computed: 0,
            phases: Ghost(Seq::new(count as nat, |slot: int| Phase::Pending)),
            emitted: Ghost(Seq::empty()),
        };
        state
    }

    /// The number of eligible points.
    pub fn len(&self) -> (count: usize)
        ensures
            count == self@.len(),
    {
        self.bounds.len()
    }

    /// The point at a slot.
    pub fn point_at(&self, slot: usize) -> (id: PointOffsetType)
        requires
            slot < self@.len(),
        ensures
            id == self@.bounds[slot as int].id,
    {
        self.bounds[slot].id
    }

    /// How often an exact score was computed.
    pub fn computed(&self) -> (count: usize)
        ensures
            count == self@.computed,
    {
        self.computed
    }

    /// The slot of a point.
    pub fn find(&self, id: PointOffsetType) -> (slot: Option<usize>)
        requires
            self.wf(),
        ensures
            slot matches Some(found) ==> found < self@.len() && self@.bounds[found as int].id == id,
            slot is None ==> forall|other: int|
                0 <= other < self@.len() ==> (#[trigger] self@.bounds[other]).id != id,
    {
        let mut low: usize = 0;
        let mut high: usize = self.bounds.len();
        while low < high
            invariant
                self.wf(),
                low <= high <= self@.len(),
                forall|other: int| 0 <= other < low ==> (#[trigger] self@.bounds[other]).id < id,
                forall|other: int|
                    high <= other < self@.len() ==> (#[trigger] self@.bounds[other]).id > id,
            decreases high - low,
        {
            let middle: usize = low + (high - low) / 2;
            let found: u32 = self.bounds[middle].id;
            if found == id {
                return Some(middle);
            }
            if found < id {
                low = middle + 1;
            } else {
                high = middle;
            }
        }
        None
    }

    /// The exact score of a point, computed at most once.
    pub fn score_once<S: Fn(PointOffsetType) -> i64>(&mut self, slot: usize, scorer: &S) -> (score:
        i64)
        requires
            old(self).wf(),
            scores_all(*scorer),
            slot < old(self)@.len(),
        ensures
            final(self).wf(),
            old(self)@.scores[slot as int] matches Some(known) ==> score == known
                && final(self)@ == old(self)@,
            old(self)@.scores[slot as int] is None ==> {
                &&& call_ensures(*scorer, (old(self)@.bounds[slot as int].id,), score)
                &&& final(self)@ == (CertificateView {
                    scores: old(self)@.scores.update(slot as int, Some(score)),
                    computed: old(self)@.computed.saturating_add(1),
                    ..old(self)@
                })
            },
            counts_new_scores(old(self)@, final(self)@),
    {
        match self.scores[slot] {
            Some(score) => score,
            None => {
                let score: i64 = scorer(self.bounds[slot].id);
                self.scores.set(slot, Some(score));
                self.computed = self.computed.saturating_add(1);
                proof {
                    lemma_one_more_known(
                        old(self)@.scores,
                        slot as int,
                        score,
                        old(self)@.scores.len() as int,
                    );
                    assert forall|entry: RankEntry| self@.is_refined(entry) == old(self)@.is_refined(entry) by {
                        if entry.slot == slot {
                            assert(old(self)@.phases[slot as int] != Phase::Refined);
                        }
                    }
                    assert forall|entry: RankEntry| self@.is_pending(entry) == old(self)@.is_pending(entry) by {
                    }
                }
                score
            },
        }
    }

    /// Takes over an exact score that was computed elsewhere, and returns whether
    /// it is new.
    pub fn seed(&mut self, slot: usize, score: i64) -> (result: OperationResult<bool>)
        requires
            old(self).wf(),
            slot < old(self)@.len(),
        ensures
            final(self).wf(),
            match crate::dense_ranking::seed_violation(old(self)@, slot as int, score) {
                Some(fault) => result == inconsistent::<bool>(fault) && final(self)@ == old(self)@,
                None => {
                    &&& result == Ok::<bool, crate::operation_error::OperationError>(
                        old(self)@.scores[slot as int] is None,
                    )
                    &&& final(self)@ == (CertificateView {
                        scores: old(self)@.scores.update(slot as int, Some(score)),
                        ..old(self)@
                    })
                },
            },
    {
        let bound = self.bounds[slot];
        match self.scores[slot] {
            Some(known) => {
                if known != score {
                    return inconsistency(Fault::SeedChanged { id: bound.id });
                }
                assert(self@.scores =~= self@.scores.update(slot as int, Some(score)));
                Ok(false)
            },
            None => {
                if score < bound.lower || score > bound.value {
                    return inconsistency(Fault::SeedViolatesBound { id: bound.id });
                }
                self.scores.set(slot, Some(score));
                proof {
                    assert forall|entry: RankEntry| self@.is_refined(entry) == old(self)@.is_refined(entry) by {
                        if entry.slot == slot {
                            assert(old(self)@.phases[slot as int] != Phase::Refined);
                        }
                    }
                    assert forall|entry: RankEntry| self@.is_pending(entry) == old(self)@.is_pending(entry) by {
                    }
                }
                Ok(true)
            },
        }
    }

    /// Takes the next bounds, the highest first.
    fn take_bounds(&mut self) -> (slots: Vec<usize>)
        requires
            old(self).wf(),
        ensures
            final(self).wf(),
            final(self)@ == (CertificateView { phases: final(self)@.phases, ..old(self)@ }),
            slots@.no_duplicates(),
            forall|i: int|
                0 <= i < slots@.len() ==> {
                    &&& #[trigger] slots@[i] < old(self)@.len()
                    &&& old(self)@.phases[slots@[i] as int] == Phase::Pending
                    &&& final(self)@.phases[slots@[i] as int] == Phase::Taken
                },
            forall|slot: int|
                0 <= slot < old(self)@.len() && !slots@.contains(slot as usize)
                    ==> #[trigger] final(self)@.phases[slot] == old(self)@.phases[slot],
            final(self).pending_count() + slots@.len() == old(self).pending_count(),
            old(self).pending_count() > 0 ==> slots@.len() > 0,
    {
        let mut slots: Vec<usize> = Vec::new();
        let mut open = true;
        while open && slots.len() < self.refine_batch
            invariant
                self.wf(),
                old(self).wf(),
                self@ == (CertificateView { phases: self@.phases, ..old(self)@ }),
                slots@.no_duplicates(),
                slots@.len() <= self.refine_batch,
                forall|i: int|
                    0 <= i < slots@.len() ==> {
                        &&& #[trigger] slots@[i] < old(self)@.len()
                        &&& old(self)@.phases[slots@[i] as int] == Phase::Pending
                        &&& self@.phases[slots@[i] as int] == Phase::Taken
                    },
                forall|slot: int|
                    0 <= slot < old(self)@.len() && !slots@.contains(slot as usize)
                        ==> #[trigger] self@.phases[slot] == old(self)@.phases[slot],
                self.pending_count() + slots@.len() == old(self).pending_count(),
                !open ==> self.pending_count() == 0,
            decreases self.refine_batch - slots@.len(), (if open { 1int } else { 0int }),
        {
            let ghost before = self@;
            let ghost queue = self.pending@;
            let ghost taken = slots@;
            match self.pending.pop() {
                Some(entry) => {
                    let slot: usize = entry.slot;
                    self.phases = Ghost(self.phases@.update(slot as int, Phase::Taken));
                    slots.push(slot);
                    proof {
                        assert(queue.count(entry) > 0);
                        assert(before.is_pending(entry));
                        assert forall|other: RankEntry| #[trigger]
                            self.pending@.count(other) == (if self@.is_pending(other) {
                                1nat
                            } else {
                                0nat
                            }) by {
                            assert(queue.count(other) == (if before.is_pending(other) {
                                1nat
                            } else {
                                0nat
                            }));
                            if other.slot == slot && other != entry {
                                assert(!before.is_pending(other));
                            }
                        }
                        assert forall|other: RankEntry| #[trigger]
                            self.exact@.count(other) == (if self@.is_refined(other) {
                                1nat
                            } else {
                                0nat
                            }) by {
                            assert(self@.is_refined(other) == before.is_refined(other));
                        }
                        assert forall|i: int| 0 <= i < taken.len() implies taken[i] != slot by {
                            assert(before.phases[taken[i] as int] == Phase::Taken);
                        }
                        assert(slots@ =~= taken.push(slot));
                        assert forall|other: int|
                            0 <= other < old(self)@.len() && !slots@.contains(
                                other as usize,
                            ) implies #[trigger] self@.phases[other] == old(self)@.phases[other] by {
                            if taken.contains(other as usize) {
                                let k = choose|k: int|
                                    0 <= k < taken.len() && taken[k] == other as usize;
                                assert(slots@[k] == other as usize);
                            }
                            if other == slot {
                                assert(slots@[taken.len() as int] == other as usize);
                            }
                        }
                        assert(!taken.contains(slot)) by {
                            if taken.contains(slot) {
                                let k = choose|k: int| 0 <= k < taken.len() && taken[k] == slot;
                                assert(taken[k] != slot);
                            }
                        }
                    }
                },
                None => {
                    open = false;
                },
            }
        }
        slots
    }

    /// The number of pending points.
    pub closed spec fn pending_count(&self) -> nat {
        self.pending@.len()
    }

    /// Scores the points whose bounds were taken.
    fn score_taken<S: Fn(PointOffsetType) -> i64>(&mut self, slots: &Vec<usize>, scorer: &S) -> (
        result: OperationResult<()>)
        requires
            old(self).wf(),
            scores_all(*scorer),
            forall|i: int|
                0 <= i < slots@.len() ==> #[trigger] slots@[i] < old(self)@.len()
                    && old(self)@.phases[slots@[i] as int] == Phase::Taken,
        ensures
            final(self).wf(),
            learns_from(old(self)@, *scorer, final(self)@),
            final(self)@.phases == old(self)@.phases,
            final(self)@.emitted == old(self)@.emitted,
            final(self).pending_count() == old(self).pending_count(),
            forall|score: spec_fn(PointOffsetType) -> i64|
                #![trigger scores_exactly(*scorer, score)]
                scores_exactly(*scorer, score) && knows_exactly(old(self)@, score) ==> knows_exactly(
                    final(self)@,
                    score,
                ),
            match result {
                Ok(_) => forall|i: int|
                    0 <= i < slots@.len() ==> final(self)@.scores[#[trigger] slots@[i] as int]
                        is Some,
                Err(error) => old(self)@.strict && exists|slot: int, score: i64|
                    {
                        &&& 0 <= slot < old(self)@.len()
                        &&& !finite_key(score)
                        &&& #[trigger] call_ensures(
                            *scorer,
                            ((#[trigger] old(self)@.bounds[slot]).id,),
                            score,
                        )
                        &&& error == crate::operation_error::OperationError::InconsistentStorage(
                            Fault::NonFiniteScore { id: old(self)@.bounds[slot].id },
                        )
                    },
            },
    {
        let mut i: usize = 0;
        while i < slots.len()
            invariant
                self.wf(),
                old(self).wf(),
                scores_all(*scorer),
                i <= slots@.len(),
                learns_from(old(self)@, *scorer, self@),
                self@.phases == old(self)@.phases,
                self@.emitted == old(self)@.emitted,
                self.pending_count() == old(self).pending_count(),
                forall|k: int|
                    0 <= k < slots@.len() ==> #[trigger] slots@[k] < old(self)@.len()
                        && old(self)@.phases[slots@[k] as int] == Phase::Taken,
                forall|k: int|
                    0 <= k < i ==> self@.scores[#[trigger] slots@[k] as int] is Some,
                forall|score: spec_fn(PointOffsetType) -> i64|
                    #![trigger scores_exactly(*scorer, score)]
                    scores_exactly(*scorer, score) && knows_exactly(old(self)@, score)
                        ==> knows_exactly(self@, score),
            decreases slots@.len() - i,
        {
            let slot: usize = slots[i];
            let ghost before = self@;
            if self.scores[slot].is_none() {
                let id: u32 = self.bounds[slot].id;
                let score: i64 = scorer(id);
                if self.strict && !is_finite_key(score) {
                    proof {
                        assert(old(self)@.bounds[slot as int].id == id);
                        assert(call_ensures(*scorer, (id,), score));
                    }
                    return inconsistency(Fault::NonFiniteScore { id });
                }
                self.scores.set(slot, Some(score));
                self.computed = self.computed.saturating_add(1);
                proof {
                    assert(self@.scores =~= before.scores.update(slot as int, Some(score)));
                    lemma_one_more_known(
                        before.scores,
                        slot as int,
                        score,
                        before.scores.len() as int,
                    );
                    assert forall|entry: RankEntry| self@.is_refined(entry) == before.is_refined(
                        entry,
                    ) by {
                        if entry.slot == slot {
                            assert(before.phases[slot as int] != Phase::Refined);
                        }
                    }
                    assert forall|entry: RankEntry| self@.is_pending(entry) == before.is_pending(
                        entry,
                    ) by {
                    }
                }
            }
            i += 1;
        }
        Ok(())
    }

    /// Refines the points with the highest bounds: scores them exactly, checks
    /// the scores against the intervals, and lets them compete.
    fn refine<S: Fn(PointOffsetType) -> i64>(&mut self, scorer: &S) -> (result: OperationResult<()>)
        requires
            old(self).wf(),
            scores_all(*scorer),
        ensures
            final(self).wf(),
            learns_from(old(self)@, *scorer, final(self)@),
            final(self)@.emitted == old(self)@.emitted,
            result is Ok && old(self).pending_count() > 0 ==> final(self).pending_count()
                < old(self).pending_count(),
            result matches Err(error) ==> reports_violation(old(self)@, *scorer, error),
            forall|score: spec_fn(PointOffsetType) -> i64|
                #![trigger scores_exactly(*scorer, score)]
                scores_exactly(*scorer, score) && old(self)@.consistent(score) ==> result is Ok
                    && final(self)@.consistent(score),
            forall|slot: int|
                0 <= slot < old(self)@.len() ==> (#[trigger] final(self)@.phases[slot]
                    == Phase::Emitted <==> old(self)@.phases[slot] == Phase::Emitted),
    {
        let slots = self.take_bounds();
        let ghost taken = self@;
        let scored = self.score_taken(&slots, scorer);
        let ghost known = self@;
        proof {
            assert forall|score: spec_fn(PointOffsetType) -> i64|
                #![trigger scores_exactly(*scorer, score)]
                scores_exactly(*scorer, score) && old(self)@.consistent(score) implies
                knows_exactly(known, score) && scored is Ok by {
                assert(knows_exactly(taken, score));
            }
        }
        match scored {
            Ok(_) => {},
            Err(error) => {
                return Err(error);
            },
        }
        let mut i: usize = 0;
        while i < slots.len()
            invariant
                self.wf(),
                old(self).wf(),
                i <= slots@.len(),
                self@ == (CertificateView { phases: self@.phases, ..known }),
                learns_from(old(self)@, *scorer, known),
                known.emitted == old(self)@.emitted,
                slots@.no_duplicates(),
                known.bounds == old(self)@.bounds,
                known.strict == old(self)@.strict,
                self@.phases.len() == old(self)@.phases.len(),
                refines_within(old(self)@, self@),
                forall|k: int|
                    0 <= k < slots@.len() ==> {
                        &&& #[trigger] slots@[k] < old(self)@.len()
                        &&& old(self)@.phases[slots@[k] as int] == Phase::Pending
                        &&& known.scores[slots@[k] as int] is Some
                        &&& self@.phases[slots@[k] as int] == (if k < i {
                            Phase::Refined
                        } else {
                            Phase::Taken
                        })
                    },
                forall|slot: int|
                    0 <= slot < old(self)@.len() && !slots@.contains(slot as usize)
                        ==> #[trigger] self@.phases[slot] == old(self)@.phases[slot],
                self.pending_count() + slots@.len() == old(self).pending_count(),
                forall|score: spec_fn(PointOffsetType) -> i64|
                    #![trigger scores_exactly(*scorer, score)]
                    scores_exactly(*scorer, score) && old(self)@.consistent(score)
                        ==> knows_exactly(known, score),
            decreases slots@.len() - i,
        {
            let slot: usize = slots[i];
            let ghost before = self@;
            let ghost queue = self.exact@;
            proof {
                assert(known.scores[slots@[i as int] as int] is Some);
            }
            let score: i64 = match self.scores[slot] {
                Some(score) => score,
                None => 0,
            };
            let bound = self.bounds[slot];
            if score > bound.value || self.strict && score < bound.lower {
                proof {
                    assert(old(self)@.bounds[slot as int] == bound);
                    assert(violates(old(self)@, *scorer, slot as int, score));
                    assert forall|exact: spec_fn(PointOffsetType) -> i64|
                        #![trigger scores_exactly(*scorer, exact)]
                        scores_exactly(*scorer, exact) && old(self)@.consistent(exact) implies
                        false by {
                        assert(knows_exactly(known, exact));
                        assert(known.scores[slot as int] == Some(exact(bound.id)));
                    }
                }
                return inconsistency(Fault::BoundViolated { id: bound.id });
            }
            let entry = RankEntry { score, id: offset_identity(bound.id), slot };
            self.exact.push(entry);
            self.phases = Ghost(self.phases@.update(slot as int, Phase::Refined));
            proof {
                assert(refines_within(old(self)@, self@)) by {
                    assert(in_interval(self@, slot as int));
                    assert forall|other: int|
                        0 <= other < old(self)@.len() && !competes(old(self)@, other) && competes(
                            self@,
                            other,
                        ) implies #[trigger] in_interval(self@, other) by {
                        if other != slot {
                            assert(competes(before, other));
                            assert(in_interval(before, other));
                        }
                    }
                }
                assert(self@.is_refined(entry));
                assert forall|other: RankEntry| #[trigger]
                    self.exact@.count(other) == (if self@.is_refined(other) {
                        1nat
                    } else {
                        0nat
                    }) by {
                    assert(queue.count(other) == (if before.is_refined(other) {
                        1nat
                    } else {
                        0nat
                    }));
                    if other.slot == slot && other != entry {
                        assert(!self@.is_refined(other));
                    }
                }
                assert forall|other: RankEntry| #[trigger]
                    self.pending@.count(other) == (if self@.is_pending(other) {
                        1nat
                    } else {
                        0nat
                    }) by {
                    assert(self@.is_pending(other) == before.is_pending(other));
                }
                assert forall|other: int|
                    0 <= other < old(self)@.len() && !slots@.contains(other as usize) implies
                    #[trigger] self@.phases[other] == old(self)@.phases[other] by {
                    assert(slots@.contains(slot));
                    assert(before.phases[other] == old(self)@.phases[other]);
                }
            }
            i += 1;
        }
        proof {
            assert forall|slot: int| 0 <= slot < old(self)@.len() implies (
            #[trigger] self@.phases[slot] == Phase::Emitted <==> old(self)@.phases[slot]
                == Phase::Emitted) by {
                if slots@.contains(slot as usize) {
                    let k = choose|k: int| 0 <= k < slots@.len() && slots@[k] == slot as usize;
                    assert(slots@[k] == slot as usize);
                }
            }
            assert forall|score: spec_fn(PointOffsetType) -> i64|
                #![trigger scores_exactly(*scorer, score)]
                scores_exactly(*scorer, score) && old(self)@.consistent(score) implies
                self@.consistent(score) by {
                assert(knows_exactly(known, score));
                lemma_refining_is_consistent(old(self)@, self@, score);
            }
        }
        Ok(())
    }

    /// The next point in exact order, once it is certain; `None` when all points
    /// were emitted.
    pub fn next<S: Fn(PointOffsetType) -> i64>(&mut self, scorer: &S) -> (result: OperationResult<
        Option<ScoredPointOffset>,
    >)
        requires
            old(self).wf(),
            scores_all(*scorer),
        ensures
            final(self).wf(),
            advances(old(self)@, *scorer, result, final(self)@),
    {
        loop
            invariant
                keeps_emitted(old(self)@.phases, self@.phases),
                self.wf(),
                old(self).wf(),
                scores_all(*scorer),
                learns_from(old(self)@, *scorer, self@),
                self@.emitted == old(self)@.emitted,
                forall|slot: int|
                    0 <= slot < old(self)@.len() ==> (#[trigger] self@.phases[slot]
                        == Phase::Emitted <==> old(self)@.phases[slot] == Phase::Emitted),
                forall|score: spec_fn(PointOffsetType) -> i64|
                    #![trigger scores_exactly(*scorer, score)]
                    scores_exactly(*scorer, score) && old(self)@.consistent(score)
                        ==> self@.consistent(score),
            decreases self.pending_count(),
        {
            let ghost view = self@;
            let best = self.exact.peek();
            let bound = self.pending.peek();
            let certain = match (best, bound) {
                (Some(best), Some(bound)) => scored_before(
                    best.score,
                    best.id,
                    bound.score,
                    bound.id,
                ),
                (Some(_), None) => true,
                (None, _) => false,
            };
            if certain {
                let ghost queue = self.exact@;
                match self.exact.pop() {
                    Some(entry) => {
                        let slot: usize = entry.slot;
                        proof {
                            assert(queue.count(entry) > 0);
                            assert(view.is_refined(entry));
                            assert(best is Some);
                            assert(queue.contains(best->0));
                            assert(!best->0.precedes(entry));
                            assert(!entry.precedes(best->0));
                            crate::rank_queue::lemma_entries_are_totally_ordered(best->0, entry);
                        }
                        let point = ScoredPointOffset {
                            idx: self.bounds[slot].id,
                            score: entry.score,
                        };
                        self.phases = Ghost(self.phases@.update(slot as int, Phase::Emitted));
                        self.emitted = Ghost(self.emitted@.push(point));
                        proof {
                            assert(refines_within(view, self@)) by {
                                assert(competes(view, slot as int));
                                assert forall|other: int|
                                    0 <= other < view.len() && !competes(view, other) && competes(
                                        self@,
                                        other,
                                    ) implies #[trigger] in_interval(self@, other) by {
                                    assert(other != slot);
                                }
                            }
                            lemma_refines_within(old(self)@, view, self@);
                            assert forall|other: RankEntry| #[trigger]
                                self.exact@.count(other) == (if self@.is_refined(other) {
                                    1nat
                                } else {
                                    0nat
                                }) by {
                                assert(queue.count(other) == (if view.is_refined(other) {
                                    1nat
                                } else {
                                    0nat
                                }));
                                if other.slot == slot && other != entry {
                                    assert(!view.is_refined(other));
                                }
                            }
                            assert forall|other: RankEntry| #[trigger]
                                self.pending@.count(other) == (if self@.is_pending(other) {
                                    1nat
                                } else {
                                    0nat
                                }) by {
                                assert(self@.is_pending(other) == view.is_pending(other));
                            }
                            assert(self@.certifies(slot as int)) by {
                                assert forall|other: int|
                                    0 <= other < self@.len() && #[trigger] self@.phases[other]
                                        == Phase::Refined implies !self@.exact_entry(
                                    other,
                                ).precedes(self@.exact_entry(slot as int)) by {
                                    let rival = view.exact_entry(other);
                                    assert(view.phases[other] == Phase::Refined);
                                    assert(view.is_refined(rival));
                                    assert(queue.count(rival) == 1);
                                    assert(queue.contains(rival));
                                }
                                assert forall|other: int|
                                    0 <= other < self@.len() && #[trigger] self@.phases[other]
                                        == Phase::Pending implies ranks_before(
                                    self@.scores[slot as int]->0,
                                    offset_id(self@.bounds[slot as int].id),
                                    self@.bounds[other].value,
                                    offset_id(self@.bounds[other].id),
                                ) by {
                                    let rival = view.bound_entry(other);
                                    assert(view.phases[other] == Phase::Pending);
                                    assert(view.is_pending(rival));
                                    assert(self.pending@.count(rival) == 1);
                                    assert(self.pending@.contains(rival));
                                    assert(bound is Some);
                                    assert(!rival.precedes(bound->0));
                                }
                            }
                            assert forall|score: spec_fn(PointOffsetType) -> i64|
                                #![trigger scores_exactly(*scorer, score)]
                                scores_exactly(*scorer, score) && old(self)@.consistent(
                                    score,
                                ) implies self@.consistent(score) by {
                                lemma_emitting_is_consistent(
                                    view,
                                    self@,
                                    slot as int,
                                    point,
                                    score,
                                );
                            }
                        }
                        return Ok(Some(point));
                    },
                    None => {
                        return Ok(None);
                    },
                }
            }
            if bound.is_none() {
                proof {
                    assert forall|slot: int| 0 <= slot < self@.len() implies
                        #[trigger] self@.phases[slot] != Phase::Pending && self@.phases[slot]
                        != Phase::Refined by {
                        if self@.phases[slot] == Phase::Pending {
                            let entry = self@.bound_entry(slot);
                            assert(self@.is_pending(entry));
                            assert(self.pending@.count(entry) == 1);
                            lemma_counted_is_not_empty(self.pending@, entry);
                        }
                        if self@.phases[slot] == Phase::Refined {
                            let entry = self@.exact_entry(slot);
                            assert(self@.is_refined(entry));
                            assert(self.exact@.count(entry) == 1);
                            lemma_counted_is_not_empty(self.exact@, entry);
                        }
                    }
                }
                return Ok(None);
            }
            let refined = self.refine(scorer);
            proof {
                lemma_refines_within(old(self)@, view, self@);
            }
            match refined {
                Ok(_) => {},
                Err(error) => {
                    proof {
                        lemma_violation_carries_over(old(self)@, view, *scorer, error);
                    }
                    return Err(error);
                },
            }
        }
    }
}

/// What one step of a certificate does: it emits a point that is certain to be
/// next, or has none left, or reports a contradiction. Where the scorer is exact
/// and everything known so far is right, it never fails and stays right.
pub open spec fn advances<S: Fn(PointOffsetType) -> i64>(
    before: CertificateView,
    scorer: S,
    result: OperationResult<Option<ScoredPointOffset>>,
    after: CertificateView,
) -> bool {
    &&& learns_from(before, scorer, after)
    &&& keeps_emitted(before.phases, after.phases)
    &&& match result {
        Ok(Some(point)) => exists|slot: int|
            {
                &&& #[trigger] after.certifies(slot)
                &&& before.phases[slot] != Phase::Emitted
                &&& after.phases[slot] == Phase::Emitted
                &&& point.idx == after.bounds[slot].id
                &&& after.scores[slot] == Some(point.score)
                &&& after.emitted == before.emitted.push(point)
            },
        Ok(None) => {
            &&& after.emitted == before.emitted
            &&& forall|slot: int|
                0 <= slot < after.len() ==> #[trigger] after.phases[slot] != Phase::Pending
                    && after.phases[slot] != Phase::Refined
        },
        Err(error) => {
            &&& after.emitted == before.emitted
            &&& reports_violation(before, scorer, error)
        },
    }
    &&& forall|score: spec_fn(PointOffsetType) -> i64|
        #![trigger scores_exactly(scorer, score)]
        scores_exactly(scorer, score) && before.consistent(score) ==> {
            &&& result is Ok
            &&& after.consistent(score)
        }
}

/// Whether every point that was emitted stays so.
pub open spec fn keeps_emitted(before: Seq<Phase>, after: Seq<Phase>) -> bool {
    &&& after.len() == before.len()
    &&& forall|slot: int|
        0 <= slot < before.len() && #[trigger] before[slot] == Phase::Emitted ==> after[slot]
            == Phase::Emitted
}

/// How many of the leading points were not emitted.
pub open spec fn held_count(phases: Seq<Phase>, upto: int) -> nat
    decreases upto,
{
    if upto <= 0 {
        0
    } else {
        held_count(phases, upto - 1) + (if phases[upto - 1] == Phase::Emitted {
            0nat
        } else {
            1
        })
    }
}

/// Points that are emitted are not held any more.
pub proof fn lemma_fewer_held(before: Seq<Phase>, after: Seq<Phase>, upto: int)
    requires
        keeps_emitted(before, after),
        0 <= upto <= before.len(),
    ensures
        held_count(after, upto) <= held_count(before, upto),
        (exists|slot: int|
            0 <= slot < upto && #[trigger] before[slot] != Phase::Emitted && after[slot]
                == Phase::Emitted) ==> held_count(after, upto) < held_count(before, upto),
    decreases upto,
{
    if upto > 0 {
        lemma_fewer_held(before, after, upto - 1);
        let last = before[upto - 1];
        if exists|slot: int|
            0 <= slot < upto && #[trigger] before[slot] != Phase::Emitted && after[slot]
                == Phase::Emitted {
            let slot = choose|slot: int|
                0 <= slot < upto && #[trigger] before[slot] != Phase::Emitted && after[slot]
                    == Phase::Emitted;
            if slot < upto - 1 {
                assert(before[slot] != Phase::Emitted && after[slot] == Phase::Emitted);
            }
        }
    }
}

proof fn lemma_counted_is_not_empty(entries: Multiset<RankEntry>, entry: RankEntry)
    requires
        entries.count(entry) > 0,
    ensures
        entries.len() > 0,
{
    if entries.len() == 0 {
        assert(entries =~= Multiset::<RankEntry>::empty());
    }
}

/// Whether all known scores are exact and the intervals hold the exact scores.
pub open spec fn knows_exactly(
    view: CertificateView,
    score: spec_fn(PointOffsetType) -> i64,
) -> bool {
    &&& view.sound(score)
    &&& forall|slot: int|
        0 <= slot < view.len() && (#[trigger] view.scores[slot]) is Some ==> view.scores[slot]
            == Some(score(view.bounds[slot].id))
}

/// How many of the leading scores are known.
pub open spec fn known_count(scores: Seq<Option<i64>>, upto: int) -> nat
    decreases upto,
{
    if upto <= 0 {
        0
    } else {
        known_count(scores, upto - 1) + (if scores[upto - 1] is Some {
            1nat
        } else {
            0
        })
    }
}

/// A counter after a number of further events; it stays at its largest value.
pub open spec fn raised(counter: usize, by: int) -> usize {
    if counter + by <= usize::MAX {
        (counter + by) as usize
    } else {
        usize::MAX
    }
}

/// How many scores are known after but not before.
pub open spec fn newly_known(before: CertificateView, after: CertificateView) -> int {
    known_count(after.scores, after.scores.len() as int) - known_count(
        before.scores,
        before.scores.len() as int,
    )
}

/// Whether every score that is new was counted once.
pub open spec fn counts_new_scores(before: CertificateView, after: CertificateView) -> bool {
    &&& newly_known(before, after) >= 0
    &&& after.computed == raised(before.computed, newly_known(before, after))
}

/// A score that becomes known is one more.
pub proof fn lemma_one_more_known(scores: Seq<Option<i64>>, slot: int, score: i64, upto: int)
    requires
        0 <= slot < scores.len(),
        scores[slot] is None,
        0 <= upto <= scores.len(),
    ensures
        known_count(scores.update(slot, Some(score)), upto) == known_count(scores, upto) + (if slot
            < upto {
            1int
        } else {
            0
        }),
    decreases upto,
{
    if upto > 0 {
        lemma_one_more_known(scores, slot, score, upto - 1);
    }
}

/// Whether the exact score of a point lies in its interval. Only a strict certificate holds
/// it to the lower end.
pub open spec fn in_interval(view: CertificateView, slot: int) -> bool {
    &&& view.scores[slot] matches Some(score)
    &&& score <= view.bounds[slot].value
    &&& view.strict ==> view.bounds[slot].lower <= score
}

/// Whether a point competes with its exact score or has been emitted.
pub open spec fn competes(view: CertificateView, slot: int) -> bool {
    view.phases[slot] == Phase::Refined || view.phases[slot] == Phase::Emitted
}

/// Whether every point that has begun to compete lies in its interval.
pub open spec fn refines_within(before: CertificateView, after: CertificateView) -> bool {
    forall|slot: int|
        0 <= slot < before.len() && !competes(before, slot) && competes(after, slot)
            ==> #[trigger] in_interval(after, slot)
}

/// What competes within its interval after one step still does so after the next.
pub proof fn lemma_refines_within(
    first: CertificateView,
    middle: CertificateView,
    last: CertificateView,
)
    requires
        refines_within(first, middle),
        refines_within(middle, last),
        first.bounds == middle.bounds,
        middle.extends(last),
        middle.scores.len() == middle.bounds.len(),
    ensures
        refines_within(first, last),
{
    assert forall|slot: int|
        0 <= slot < first.len() && !competes(first, slot) && competes(
            last,
            slot,
        ) implies #[trigger] in_interval(last, slot) by {
        if competes(middle, slot) {
            assert(in_interval(middle, slot));
            let _ = middle.scores[slot];
        }
    }
}

/// Whether every point that was scored, but for the targets of a probe, lies between both
/// ends of its interval.
pub open spec fn scores_within(
    before: CertificateView,
    targets: Seq<usize>,
    after: CertificateView,
) -> bool {
    forall|slot: int|
        0 <= slot < before.len() && before.scores[slot] is None && !targets.contains(
            slot as usize,
        ) ==> ((#[trigger] after.scores[slot]) matches Some(score) ==> before.bounds[slot].lower
            <= score <= before.bounds[slot].value)
}

/// Whether a certificate has only learned exact scores: nothing known is lost, what is new
/// came from the scorer, and it was counted. No point competes with a score outside its
/// interval.
pub open spec fn learns_from<S: Fn(PointOffsetType) -> i64>(
    before: CertificateView,
    scorer: S,
    after: CertificateView,
) -> bool {
    &&& before.extends(after)
    &&& counts_new_scores(before, after)
    &&& refines_within(before, after)
    &&& forall|slot: int|
        0 <= slot < before.len() ==> ((#[trigger] after.scores[slot]) matches Some(score)
            ==> is_score_of(before, scorer, slot, score))
}

/// Whether a score of a point was known or came from the scorer.
pub open spec fn is_score_of<S: Fn(PointOffsetType) -> i64>(
    view: CertificateView,
    scorer: S,
    slot: int,
    score: i64,
) -> bool {
    ||| view.scores[slot] == Some(score)
    ||| call_ensures(scorer, (view.bounds[slot].id,), score)
}

/// Whether the score of a point contradicts its interval.
pub open spec fn violates<S: Fn(PointOffsetType) -> i64>(
    view: CertificateView,
    scorer: S,
    slot: int,
    score: i64,
) -> bool {
    &&& 0 <= slot < view.len()
    &&& is_score_of(view, scorer, slot, score)
    &&& score > view.bounds[slot].value || view.strict && score < view.bounds[slot].lower
}

/// Whether an error names a point whose exact score contradicts its interval, or
/// is not finite where that is checked.
pub open spec fn reports_violation<S: Fn(PointOffsetType) -> i64>(
    view: CertificateView,
    scorer: S,
    error: crate::operation_error::OperationError,
) -> bool {
    ||| exists|slot: int, score: i64|
        {
            &&& #[trigger] violates(view, scorer, slot, score)
            &&& error == crate::operation_error::OperationError::InconsistentStorage(
                Fault::BoundViolated { id: view.bounds[slot].id },
            )
        }
    ||| view.strict && exists|slot: int, score: i64|
        {
            &&& 0 <= slot < view.len()
            &&& !finite_key(score)
            &&& #[trigger] call_ensures(scorer, ((#[trigger] view.bounds[slot]).id,), score)
            &&& error == crate::operation_error::OperationError::InconsistentStorage(
                Fault::NonFiniteScore { id: view.bounds[slot].id },
            )
        }
}

/// What is reported of a later state holds of the earlier one.
pub proof fn lemma_violation_carries_over<S: Fn(PointOffsetType) -> i64>(
    before: CertificateView,
    after: CertificateView,
    scorer: S,
    error: crate::operation_error::OperationError,
)
    requires
        before.scores.len() == before.bounds.len(),
        learns_from(before, scorer, after),
        reports_violation(after, scorer, error),
    ensures
        reports_violation(before, scorer, error),
{
    if exists|slot: int, score: i64|
        {
            &&& #[trigger] violates(after, scorer, slot, score)
            &&& error == crate::operation_error::OperationError::InconsistentStorage(
                Fault::BoundViolated { id: after.bounds[slot].id },
            )
        } {
        let (slot, score) = choose|slot: int, score: i64|
            {
                &&& #[trigger] violates(after, scorer, slot, score)
                &&& error == crate::operation_error::OperationError::InconsistentStorage(
                    Fault::BoundViolated { id: after.bounds[slot].id },
                )
            };
        assert(is_score_of(before, scorer, slot, score)) by {
            let _ = after.scores[slot];
        }
        assert(violates(before, scorer, slot, score));
    } else {
        let (slot, score) = choose|slot: int, score: i64|
            {
                &&& 0 <= slot < after.len()
                &&& !finite_key(score)
                &&& #[trigger] call_ensures(scorer, ((#[trigger] after.bounds[slot]).id,), score)
                &&& error == crate::operation_error::OperationError::InconsistentStorage(
                    Fault::NonFiniteScore { id: after.bounds[slot].id },
                )
            };
        assert(call_ensures(scorer, (before.bounds[slot].id,), score));
    }
}

/// Refining points keeps what is known right.
pub proof fn lemma_refining_is_consistent(
    before: CertificateView,
    after: CertificateView,
    score: spec_fn(PointOffsetType) -> i64,
)
    requires
        before.consistent(score),
        before.valid(),
        before.extends(after),
        knows_exactly(after, score),
        after.emitted == before.emitted,
        after.phases.len() == before.phases.len(),
        forall|slot: int|
            0 <= slot < before.len() ==> (#[trigger] after.phases[slot] == Phase::Emitted
                <==> before.phases[slot] == Phase::Emitted),
        forall|slot: int| 0 <= slot < before.len() ==> #[trigger] after.phases[slot] != Phase::Taken,
    ensures
        after.consistent(score),
{
    assert forall|place: int| 0 <= place < after.emitted.len() implies {
        let point = #[trigger] after.emitted[place];
        &&& point.score == score(point.idx)
        &&& after.has_emitted(point.idx)
    } by {
        let point = before.emitted[place];
        assert(before.has_emitted(point.idx));
        let slot = choose|slot: int|
            0 <= slot < before.len() && (#[trigger] before.bounds[slot]).id == point.idx
                && before.phases[slot] == Phase::Emitted;
        assert(after.bounds[slot].id == point.idx);
        assert(after.phases[slot] == Phase::Emitted);
    }
    assert forall|slot: int| 0 <= slot < after.len() && #[trigger] after.phases[slot]
        == Phase::Emitted implies exists|place: int|
        0 <= place < after.emitted.len() && (#[trigger] after.emitted[place]).idx
            == after.bounds[slot].id by {
        assert(before.phases[slot] == Phase::Emitted);
        let place = choose|place: int|
            0 <= place < before.emitted.len() && (#[trigger] before.emitted[place]).idx
                == before.bounds[slot].id;
        assert(after.emitted[place].idx == after.bounds[slot].id);
    }
    assert forall|place: int, slot: int|
        0 <= place < after.emitted.len() && 0 <= slot < after.len() && #[trigger] after.phases[slot]
            != Phase::Emitted implies exactly_before(
        score,
        (#[trigger] after.emitted[place]).idx,
        after.bounds[slot].id,
    ) by {
        assert(before.phases[slot] != Phase::Emitted);
        assert(exactly_before(score, before.emitted[place].idx, before.bounds[slot].id));
    }
}

/// Emitting a certain point keeps what is known right.
proof fn lemma_emitting_is_consistent(
    before: CertificateView,
    after: CertificateView,
    slot: int,
    point: ScoredPointOffset,
    score: spec_fn(PointOffsetType) -> i64,
)
    requires
        before.consistent(score),
        before.valid(),
        after == (CertificateView {
            phases: before.phases.update(slot, Phase::Emitted),
            emitted: before.emitted.push(point),
            ..before
        }),
        0 <= slot < before.len(),
        before.phases[slot] == Phase::Refined,
        after.certifies(slot),
        point.idx == before.bounds[slot].id,
        before.scores[slot] == Some(point.score),
    ensures
        after.consistent(score),
{
    assert(point.score == score(point.idx));
    assert(after.phases[slot] == Phase::Emitted);
    assert forall|place: int| 0 <= place < after.emitted.len() implies {
        let other = #[trigger] after.emitted[place];
        &&& other.score == score(other.idx)
        &&& after.has_emitted(other.idx)
    } by {
        if place < before.emitted.len() {
            let other = before.emitted[place];
            assert(before.has_emitted(other.idx));
            let at = choose|at: int|
                0 <= at < before.len() && (#[trigger] before.bounds[at]).id == other.idx
                    && before.phases[at] == Phase::Emitted;
            assert(after.bounds[at].id == other.idx);
            assert(after.phases[at] == Phase::Emitted);
        } else {
            assert(after.bounds[slot].id == point.idx);
        }
    }
    assert forall|at: int| 0 <= at < after.len() && #[trigger] after.phases[at]
        == Phase::Emitted implies exists|place: int|
        0 <= place < after.emitted.len() && (#[trigger] after.emitted[place]).idx
            == after.bounds[at].id by {
        if at == slot {
            assert(after.emitted[before.emitted.len() as int].idx == after.bounds[at].id);
        } else {
            assert(before.phases[at] == Phase::Emitted);
            let place = choose|place: int|
                0 <= place < before.emitted.len() && (#[trigger] before.emitted[place]).idx
                    == before.bounds[at].id;
            assert(after.emitted[place].idx == after.bounds[at].id);
        }
    }
    assert forall|left: int, right: int| 0 <= left < right < after.emitted.len() implies
        exactly_before(
        score,
        (#[trigger] after.emitted[left]).idx,
        (#[trigger] after.emitted[right]).idx,
    ) by {
        if right == before.emitted.len() {
            assert(before.phases[slot] != Phase::Emitted);
            assert(exactly_before(score, before.emitted[left].idx, before.bounds[slot].id));
        } else {
            assert(exactly_before(score, before.emitted[left].idx, before.emitted[right].idx));
        }
    }
    assert forall|place: int, at: int|
        0 <= place < after.emitted.len() && 0 <= at < after.len() && #[trigger] after.phases[at]
            != Phase::Emitted implies exactly_before(
        score,
        (#[trigger] after.emitted[place]).idx,
        after.bounds[at].id,
    ) by {
        assert(at != slot);
        assert(before.phases[at] == after.phases[at]);
        if place < before.emitted.len() {
            assert(exactly_before(score, before.emitted[place].idx, before.bounds[at].id));
        } else {
            let id = before.bounds[at].id;
            assert(score(id) <= before.bounds[at].value);
            if after.phases[at] == Phase::Refined {
                assert(after.scores[at] == Some(score(id)));
                assert(!after.exact_entry(at).precedes(after.exact_entry(slot)));
                assert(before.bounds[at].id != before.bounds[slot].id) by {
                    if at < slot {
                        assert(before.bounds[at].id < before.bounds[slot].id);
                    } else {
                        assert(before.bounds[slot].id < before.bounds[at].id);
                    }
                }
            } else {
                assert(after.phases[at] == Phase::Pending);
            }
        }
    }
}

/// A certificate that has scored nothing is right where its intervals hold.
pub proof fn lemma_fresh_is_consistent(
    bounds: Seq<PendingBound>,
    batch: usize,
    strict: bool,
    score: spec_fn(PointOffsetType) -> i64,
)
    requires
        fresh_certificate(bounds, batch, strict).sound(score),
    ensures
        fresh_certificate(bounds, batch, strict).consistent(score),
{
}

/// What a certificate emits is the exact order: each emitted point stands before
/// all that were emitted later and before all that were not emitted, and it
/// carries its exact score.
pub proof fn law_emission_is_exact_order(
    view: CertificateView,
    score: spec_fn(PointOffsetType) -> i64,
    place: int,
)
    requires
        view.valid(),
        view.consistent(score),
        0 <= place < view.emitted.len(),
    ensures
        view.emitted[place].score == score(view.emitted[place].idx),
        forall|slot: int|
            0 <= slot < view.len() ==> {
                let id = (#[trigger] view.bounds[slot]).id;
                ||| exactly_before(score, view.emitted[place].idx, id)
                ||| exists|earlier: int|
                    0 <= earlier <= place && (#[trigger] view.emitted[earlier]).idx == id
            },
{
    assert forall|slot: int| 0 <= slot < view.len() implies ({
        let id = (#[trigger] view.bounds[slot]).id;
        ||| exactly_before(score, view.emitted[place].idx, id)
        ||| exists|earlier: int|
            0 <= earlier <= place && (#[trigger] view.emitted[earlier]).idx == id
    }) by {
        if view.phases[slot] == Phase::Emitted {
            let at = choose|at: int|
                0 <= at < view.emitted.len() && (#[trigger] view.emitted[at]).idx
                    == view.bounds[slot].id;
            if at > place {
                assert(exactly_before(score, view.emitted[place].idx, view.emitted[at].idx));
            }
        } else {
            assert(exactly_before(score, view.emitted[place].idx, view.bounds[slot].id));
        }
    }
}


/// Whether a point is ahead of a target: by its exact score where that is known,
/// else by its lower bound.
pub open spec fn is_ahead(
    view: CertificateView,
    keys: Seq<ExtendedPointId>,
    slot: int,
    score: i64,
    key: ExtendedPointId,
) -> bool {
    match view.scores[slot] {
        Some(known) => ranks_before(known, keys[slot], score, key),
        None => ranks_before(view.bounds[slot].lower, keys[slot], score, key),
    }
}

/// How many of the leading points are ahead of a target.
pub open spec fn count_ahead(
    view: CertificateView,
    keys: Seq<ExtendedPointId>,
    score: i64,
    key: ExtendedPointId,
    upto: int,
) -> nat
    decreases upto,
{
    if upto <= 0 {
        0
    } else {
        count_ahead(view, keys, score, key, upto - 1) + if is_ahead(
            view,
            keys,
            upto - 1,
            score,
            key,
        ) {
            1nat
        } else {
            0nat
        }
    }
}

/// The exact rank of a point: how many points stand before it by their exact
/// scores, equal scores by their keys.
pub open spec fn exact_rank(
    bounds: Seq<PendingBound>,
    score: spec_fn(PointOffsetType) -> i64,
    keys: Seq<ExtendedPointId>,
    target: int,
    upto: int,
) -> nat
    decreases upto,
{
    if upto <= 0 {
        0
    } else {
        exact_rank(bounds, score, keys, target, upto - 1) + if ranks_before(
            score(bounds[upto - 1].id),
            keys[upto - 1],
            score(bounds[target].id),
            keys[target],
        ) {
            1nat
        } else {
            0nat
        }
    }
}

/// Whether only the exact score of a point can tell if it is ahead of a target.
pub open spec fn is_ambiguous(
    view: CertificateView,
    keys: Seq<ExtendedPointId>,
    slot: int,
    score: i64,
    key: ExtendedPointId,
) -> bool {
    &&& view.scores[slot] is None
    &&& ranks_before(view.bounds[slot].value, keys[slot], score, key)
    &&& !ranks_before(view.bounds[slot].lower, keys[slot], score, key)
}

/// Whether only the exact score of a point can tell if it is ahead of one of the targets,
/// which have the given scores.
pub open spec fn is_open_point(
    view: CertificateView,
    keys: Seq<ExtendedPointId>,
    targets: Seq<usize>,
    scores: Seq<Option<i64>>,
    slot: int,
) -> bool {
    exists|i: int|
        0 <= i < targets.len() && is_ambiguous(
            view,
            keys,
            slot,
            scores[#[trigger] targets[i] as int]->0,
            keys[targets[i] as int],
        )
}

/// Whether no point was scored but the targets and those that only their exact score can
/// tell from a target.
pub open spec fn scores_no_more(
    before: CertificateView,
    keys: Seq<ExtendedPointId>,
    targets: Seq<usize>,
    after: CertificateView,
) -> bool {
    forall|slot: int|
        0 <= slot < before.len() && before.scores[slot] is None && (
        #[trigger] after.scores[slot]) is Some ==> targets.contains(slot as usize)
            || is_open_point(before, keys, targets, after.scores, slot)
}

/// Whether a point was scored.
pub open spec fn scores_some(before: CertificateView, after: CertificateView) -> bool {
    exists|slot: int|
        0 <= slot < before.len() && before.scores[slot] is None && (
        #[trigger] after.scores[slot]) is Some
}

/// Whether every target is scored and no point is left that only its exact score can tell
/// from one.
pub open spec fn tells_all(
    view: CertificateView,
    keys: Seq<ExtendedPointId>,
    targets: Seq<usize>,
) -> bool {
    &&& forall|i: int|
        0 <= i < targets.len() ==> view.scores[#[trigger] targets[i] as int] is Some
    &&& forall|slot: int|
        0 <= slot < view.len() ==> !#[trigger] is_open_point(
            view,
            keys,
            targets,
            view.scores,
            slot,
        )
}

/// A probe of targets that were told from all points before scores no point.
pub proof fn lemma_told_points_stay(
    before: CertificateView,
    keys: Seq<ExtendedPointId>,
    targets: Seq<usize>,
    after: CertificateView,
)
    requires
        before.scores.len() == before.bounds.len(),
        before.len() <= usize::MAX,
        before.extends(after),
        forall|i: int| 0 <= i < targets.len() ==> #[trigger] targets[i] < before.len(),
        tells_all(before, keys, targets),
        scores_no_more(before, keys, targets, after),
    ensures
        after.scores == before.scores,
        newly_known(before, after) == 0,
{
    assert forall|slot: int| 0 <= slot < before.len() implies after.scores[slot]
        == before.scores[slot] by {
        if before.scores[slot] is None && after.scores[slot] is Some {
            if targets.contains(slot as usize) {
                let i = choose|i: int| 0 <= i < targets.len() && targets[i] == slot as usize;
                assert(before.scores[targets[i] as int] is Some);
            } else {
                let i = choose|i: int|
                    0 <= i < targets.len() && is_ambiguous(
                        before,
                        keys,
                        slot,
                        after.scores[#[trigger] targets[i] as int]->0,
                        keys[targets[i] as int],
                    );
                assert(before.scores[targets[i] as int] is Some);
                assert(is_open_point(before, keys, targets, before.scores, slot));
            }
        }
    }
    assert(after.scores =~= before.scores);
}

/// Where every point is told from a target, the count of those ahead is exact.
proof fn lemma_count_is_exact(
    view: CertificateView,
    keys: Seq<ExtendedPointId>,
    score: spec_fn(PointOffsetType) -> i64,
    target: int,
    upto: int,
)
    requires
        view.scores.len() == view.bounds.len(),
        knows_exactly(view, score),
        0 <= target < view.len(),
        0 <= upto <= view.len(),
        forall|slot: int|
            0 <= slot < view.len() ==> !#[trigger] is_ambiguous(
                view,
                keys,
                slot,
                score(view.bounds[target].id),
                keys[target],
            ),
    ensures
        count_ahead(view, keys, score(view.bounds[target].id), keys[target], upto) == exact_rank(
            view.bounds,
            score,
            keys,
            target,
            upto,
        ),
        count_ahead(view, keys, score(view.bounds[target].id), keys[target], upto) <= upto,
    decreases upto,
{
    if upto > 0 {
        lemma_count_is_exact(view, keys, score, target, upto - 1);
        let slot = upto - 1;
        assert(!is_ambiguous(view, keys, slot, score(view.bounds[target].id), keys[target]));
        let _ = view.scores[slot];
        assert(view.bounds[slot].lower <= score(view.bounds[slot].id));
    }
}

/// The exact score and the exact rank of a probed point.
#[derive(Clone, Copy, Debug, PartialEq, Eq, Structural)]
pub struct ProbedRank {
    pub score: i64,
    pub rank: usize,
}

impl CertificateState {
    /// How many points are ahead of a target.
    fn count_points_ahead(
        &self,
        keys: &Vec<ExtendedPointId>,
        score: i64,
        key: ExtendedPointId,
    ) -> (count: usize)
        requires
            self.wf(),
            keys@.len() == self@.len(),
        ensures
            count == count_ahead(self@, keys@, score, key, self@.len()),
    {
        let mut count: usize = 0;
        let mut slot: usize = 0;
        while slot < self.bounds.len()
            invariant
                self.wf(),
                keys@.len() == self@.len(),
                slot <= self@.len(),
                count <= slot,
                count == count_ahead(self@, keys@, score, key, slot as int),
            decreases self@.len() - slot,
        {
            let compared: i64 = match self.scores[slot] {
                Some(known) => known,
                None => self.bounds[slot].lower,
            };
            if scored_before(compared, keys[slot], score, key) {
                count += 1;
            }
            slot += 1;
        }
        count
    }

    /// The points of which only the exact score can tell if they are ahead of
    /// some target.
    fn ambiguous_points(&self, keys: &Vec<ExtendedPointId>, targets: &Vec<usize>) -> (slots: Vec<
        usize,
    >)
        requires
            self.wf(),
            keys@.len() == self@.len(),
            forall|i: int|
                0 <= i < targets@.len() ==> #[trigger] targets@[i] < self@.len()
                    && self@.scores[targets@[i] as int] is Some,
        ensures
            forall|i: int|
                0 <= i < slots@.len() ==> #[trigger] slots@[i] < self@.len() && is_open_point(
                    self@,
                    keys@,
                    targets@,
                    self@.scores,
                    slots@[i] as int,
                ),
            forall|slot: int, i: int|
                0 <= slot < self@.len() && 0 <= i < targets@.len() && #[trigger] is_ambiguous(
                    self@,
                    keys@,
                    slot,
                    self@.scores[#[trigger] targets@[i] as int]->0,
                    keys@[targets@[i] as int],
                ) ==> slots@.contains(slot as usize),
    {
        let mut slots: Vec<usize> = Vec::new();
        let mut slot: usize = 0;
        while slot < self.bounds.len()
            invariant
                self.wf(),
                keys@.len() == self@.len(),
                slot <= self@.len(),
                forall|i: int|
                    0 <= i < targets@.len() ==> #[trigger] targets@[i] < self@.len()
                        && self@.scores[targets@[i] as int] is Some,
                forall|i: int|
                    0 <= i < slots@.len() ==> #[trigger] slots@[i] < self@.len() && is_open_point(
                        self@,
                        keys@,
                        targets@,
                        self@.scores,
                        slots@[i] as int,
                    ),
                forall|other: int, i: int|
                    0 <= other < slot && 0 <= i < targets@.len() && #[trigger] is_ambiguous(
                        self@,
                        keys@,
                        other,
                        self@.scores[#[trigger] targets@[i] as int]->0,
                        keys@[targets@[i] as int],
                    ) ==> slots@.contains(other as usize),
            decreases self@.len() - slot,
        {
            let mut ambiguous = false;
            if self.scores[slot].is_none() {
                let bound = self.bounds[slot];
                let mut i: usize = 0;
                while i < targets.len()
                    invariant
                        self.wf(),
                        keys@.len() == self@.len(),
                        slot < self@.len(),
                        i <= targets@.len(),
                        bound == self@.bounds[slot as int],
                        self@.scores[slot as int] is None,
                        forall|k: int|
                            0 <= k < targets@.len() ==> #[trigger] targets@[k] < self@.len()
                                && self@.scores[targets@[k] as int] is Some,
                        ambiguous == exists|k: int|
                            0 <= k < i && is_ambiguous(
                                self@,
                                keys@,
                                slot as int,
                                self@.scores[#[trigger] targets@[k] as int]->0,
                                keys@[targets@[k] as int],
                            ),
                    decreases targets@.len() - i,
                {
                    let target: usize = targets[i];
                    assert(self@.scores[targets@[i as int] as int] is Some);
                    let score: i64 = match self.scores[target] {
                        Some(score) => score,
                        None => 0,
                    };
                    if scored_before(bound.value, keys[slot], score, keys[target])
                        && !scored_before(bound.lower, keys[slot], score, keys[target]) {
                        assert(is_ambiguous(
                            self@,
                            keys@,
                            slot as int,
                            self@.scores[targets@[i as int] as int]->0,
                            keys@[targets@[i as int] as int],
                        ));
                        ambiguous = true;
                    }
                    i += 1;
                }
            }
            let ghost before = slots@;
            if ambiguous {
                assert(is_open_point(self@, keys@, targets@, self@.scores, slot as int));
                slots.push(slot);
            }
            proof {
                assert forall|other: int, i: int|
                    0 <= other < slot + 1 && 0 <= i < targets@.len() && #[trigger] is_ambiguous(
                        self@,
                        keys@,
                        other,
                        self@.scores[#[trigger] targets@[i] as int]->0,
                        keys@[targets@[i] as int],
                    ) implies slots@.contains(other as usize) by {
                    if other < slot {
                        assert(before.contains(other as usize));
                        let k = choose|k: int| 0 <= k < before.len() && before[k] == other as usize;
                        assert(slots@[k] == other as usize);
                    } else {
                        assert(ambiguous);
                        assert(slots@[before.len() as int] == other as usize);
                    }
                }
            }
            slot += 1;
        }
        slots
    }

    /// The exact scores and ranks of some points. Only points that can stand
    /// before a target without being certain to are scored, and every score is
    /// kept for later.
    pub fn probe<S: Fn(PointOffsetType) -> i64>(
        &mut self,
        targets: &Vec<usize>,
        keys: &Vec<ExtendedPointId>,
        scorer: &S,
    ) -> (result: OperationResult<Vec<ProbedRank>>)
        requires
            old(self).wf(),
            scores_all(*scorer),
            keys@.len() == old(self)@.len(),
            forall|i: int| 0 <= i < targets@.len() ==> #[trigger] targets@[i] < old(self)@.len(),
        ensures
            final(self).wf(),
            learns_from(old(self)@, *scorer, final(self)@),
            final(self)@.phases == old(self)@.phases,
            final(self)@.emitted == old(self)@.emitted,
            scores_no_more(old(self)@, keys@, targets@, final(self)@),
            result is Err ==> scores_some(old(self)@, final(self)@),
            result is Ok ==> tells_all(final(self)@, keys@, targets@),
            result is Ok ==> scores_within(old(self)@, targets@, final(self)@),
            match result {
                Ok(probes) => {
                    &&& probes@.len() == targets@.len()
                    &&& forall|i: int|
                        0 <= i < targets@.len() ==> {
                            let target = targets@[i] as int;
                            &&& final(self)@.scores[target] == Some((#[trigger] probes@[i]).score)
                            &&& probes@[i].rank == count_ahead(
                                final(self)@,
                                keys@,
                                probes@[i].score,
                                keys@[target],
                                final(self)@.len(),
                            )
                        }
                },
                Err(error) => exists|slot: int, score: i64|
                    {
                        &&& 0 <= slot < old(self)@.len()
                        &&& #[trigger] is_score_of(old(self)@, *scorer, slot, score)
                        &&& score < old(self)@.bounds[slot].lower || score > old(self)@.bounds[slot].value
                        &&& error == crate::operation_error::OperationError::InconsistentStorage(
                            Fault::BoundViolated { id: old(self)@.bounds[slot].id },
                        )
                    },
            },
            forall|score: spec_fn(PointOffsetType) -> i64|
                #![trigger scores_exactly(*scorer, score)]
                scores_exactly(*scorer, score) && knows_exactly(old(self)@, score) ==> {
                    &&& knows_exactly(final(self)@, score)
                    &&& old(self)@.consistent(score) ==> final(self)@.consistent(score)
                    &&& result matches Ok(probes)
                    &&& forall|i: int|
                        0 <= i < targets@.len() ==> {
                            let target = targets@[i] as int;
                            &&& (#[trigger] probes@[i]).score == score(
                                old(self)@.bounds[target].id,
                            )
                            &&& probes@[i].rank == exact_rank(
                                old(self)@.bounds,
                                score,
                                keys@,
                                target,
                                old(self)@.len(),
                            )
                        }
                },
    {
        let mut i: usize = 0;
        while i < targets.len()
            invariant
                self.wf(),
                old(self).wf(),
                scores_all(*scorer),
                i <= targets@.len(),
                learns_from(old(self)@, *scorer, self@),
                self@.phases == old(self)@.phases,
                self@.emitted == old(self)@.emitted,
                forall|k: int|
                    0 <= k < targets@.len() ==> #[trigger] targets@[k] < old(self)@.len(),
                forall|k: int|
                    0 <= k < i ==> self@.scores[#[trigger] targets@[k] as int] is Some,
                forall|other: int|
                    0 <= other < old(self)@.len() && old(self)@.scores[other] is None && (
                    #[trigger] self@.scores[other]) is Some ==> targets@.contains(other as usize),
                forall|score: spec_fn(PointOffsetType) -> i64|
                    #![trigger scores_exactly(*scorer, score)]
                    scores_exactly(*scorer, score) && knows_exactly(old(self)@, score)
                        ==> knows_exactly(self@, score),
            decreases targets@.len() - i,
        {
            let ghost before = self@;
            let slot: usize = targets[i];
            let _ = self.score_once(slot, scorer);
            proof {
                assert forall|other: int| 0 <= other < before.len() implies ((
                #[trigger] self@.scores[other]) matches Some(score) ==> is_score_of(
                    old(self)@,
                    *scorer,
                    other,
                    score,
                )) by {
                    let _ = before.scores[other];
                }
            }
            i += 1;
        }
        let ghost scored = self@;
        let ambiguous = self.ambiguous_points(keys, targets);
        let mut j: usize = 0;
        while j < ambiguous.len()
            invariant
                self.wf(),
                old(self).wf(),
                scores_all(*scorer),
                j <= ambiguous@.len(),
                learns_from(old(self)@, *scorer, self@),
                scored.extends(self@),
                scored.bounds == old(self)@.bounds,
                scored.scores.len() == scored.bounds.len(),
                self@.phases == old(self)@.phases,
                self@.emitted == old(self)@.emitted,
                forall|k: int|
                    0 <= k < ambiguous@.len() ==> #[trigger] ambiguous@[k] < old(self)@.len(),
                forall|k: int|
                    0 <= k < j ==> self@.scores[#[trigger] ambiguous@[k] as int] is Some,
                keys@.len() == old(self)@.len(),
                forall|k: int|
                    0 <= k < targets@.len() ==> #[trigger] targets@[k] < old(self)@.len()
                        && scored.scores[targets@[k] as int] is Some,
                forall|k: int|
                    0 <= k < ambiguous@.len() ==> is_open_point(
                        scored,
                        keys@,
                        targets@,
                        scored.scores,
                        #[trigger] ambiguous@[k] as int,
                    ),
                learns_from(old(self)@, *scorer, scored),
                scores_no_more(old(self)@, keys@, targets@, self@),
                scores_within(old(self)@, targets@, self@),
                forall|score: spec_fn(PointOffsetType) -> i64|
                    #![trigger scores_exactly(*scorer, score)]
                    scores_exactly(*scorer, score) && knows_exactly(old(self)@, score)
                        ==> knows_exactly(self@, score),
            decreases ambiguous@.len() - j,
        {
            let ghost before = self@;
            let slot: usize = ambiguous[j];
            let score: i64 = self.score_once(slot, scorer);
            proof {
                assert forall|other: int| 0 <= other < before.len() implies ((
                #[trigger] self@.scores[other]) matches Some(score) ==> is_score_of(
                    old(self)@,
                    *scorer,
                    other,
                    score,
                )) by {
                    let _ = before.scores[other];
                }
                assert(self@.scores[slot as int] == Some(score));
                assert forall|other: int|
                    0 <= other < before.len() && old(self)@.scores[other] is None && (
                    #[trigger] self@.scores[other]) is Some implies targets@.contains(
                    other as usize,
                ) || is_open_point(old(self)@, keys@, targets@, self@.scores, other) by {
                    let view = if other == slot {
                        scored
                    } else {
                        before
                    };
                    let _ = before.scores[other];
                    if !targets@.contains(other as usize) {
                        let base = if other == slot {
                            scored
                        } else {
                            old(self)@
                        };
                        let i = choose|i: int|
                            0 <= i < targets@.len() && is_ambiguous(
                                base,
                                keys@,
                                other,
                                view.scores[#[trigger] targets@[i] as int]->0,
                                keys@[targets@[i] as int],
                            );
                        assert(scored.scores[targets@[i] as int] is Some);
                        assert(is_ambiguous(
                            old(self)@,
                            keys@,
                            other,
                            self@.scores[targets@[i] as int]->0,
                            keys@[targets@[i] as int],
                        ));
                    }
                }
            }
            let bound = self.bounds[slot];
            if score < bound.lower || score > bound.value {
                proof {
                    assert(is_score_of(old(self)@, *scorer, slot as int, score));
                    assert(is_open_point(scored, keys@, targets@, scored.scores, slot as int));
                    assert(scored.scores[slot as int] is None);
                    assert(old(self)@.scores[slot as int] is None);
                    assert(scores_some(old(self)@, self@));
                    assert forall|exact: spec_fn(PointOffsetType) -> i64|
                        #![trigger scores_exactly(*scorer, exact)]
                        scores_exactly(*scorer, exact) && knows_exactly(
                            old(self)@,
                            exact,
                        ) implies false by {
                        assert(knows_exactly(self@, exact));
                        assert(self@.scores[slot as int] == Some(exact(bound.id)));
                        assert(self@.bounds[slot as int].lower <= exact(bound.id));
                    }
                }
                return inconsistency(Fault::BoundViolated { id: bound.id });
            }
            j += 1;
        }
        let mut probes: Vec<ProbedRank> = Vec::new();
        let mut k: usize = 0;
        proof {
            assert forall|i: int| 0 <= i < targets@.len() implies
                self@.scores[#[trigger] targets@[i] as int] is Some && self@.scores[targets@[i] as int]
                == scored.scores[targets@[i] as int] by {
                assert(scored.scores[targets@[i] as int] is Some);
            }
            assert forall|slot: int| 0 <= slot < self@.len() implies !#[trigger] is_open_point(
                self@,
                keys@,
                targets@,
                self@.scores,
                slot,
            ) by {
                if is_open_point(self@, keys@, targets@, self@.scores, slot) {
                    let i = choose|i: int|
                        0 <= i < targets@.len() && is_ambiguous(
                            self@,
                            keys@,
                            slot,
                            self@.scores[#[trigger] targets@[i] as int]->0,
                            keys@[targets@[i] as int],
                        );
                    assert(scored.scores[slot] is None);
                    assert(is_ambiguous(
                        scored,
                        keys@,
                        slot,
                        scored.scores[targets@[i] as int]->0,
                        keys@[targets@[i] as int],
                    ));
                    assert(ambiguous@.contains(slot as usize));
                    let at = choose|at: int|
                        0 <= at < ambiguous@.len() && ambiguous@[at] == slot as usize;
                    assert(self@.scores[ambiguous@[at] as int] is Some);
                }
            }
        }
        while k < targets.len()
            invariant
                self.wf(),
                keys@.len() == self@.len(),
                k <= targets@.len(),
                probes@.len() == k,
                forall|i: int|
                    0 <= i < targets@.len() ==> #[trigger] targets@[i] < self@.len()
                        && self@.scores[targets@[i] as int] is Some,
                forall|i: int|
                    0 <= i < k ==> {
                        let target = targets@[i] as int;
                        &&& self@.scores[target] == Some((#[trigger] probes@[i]).score)
                        &&& probes@[i].rank == count_ahead(
                            self@,
                            keys@,
                            probes@[i].score,
                            keys@[target],
                            self@.len(),
                        )
                    },
            decreases targets@.len() - k,
        {
            let target: usize = targets[k];
            assert(self@.scores[targets@[k as int] as int] is Some);
            let score: i64 = match self.scores[target] {
                Some(score) => score,
                None => 0,
            };
            let rank: usize = self.count_points_ahead(keys, score, keys[target]);
            probes.push(ProbedRank { score, rank });
            k += 1;
        }
        proof {
            assert forall|score: spec_fn(PointOffsetType) -> i64|
                #![trigger scores_exactly(*scorer, score)]
                scores_exactly(*scorer, score) && knows_exactly(old(self)@, score) implies {
                &&& old(self)@.consistent(score) ==> self@.consistent(score)
                &&& forall|i: int|
                    0 <= i < targets@.len() ==> {
                        let target = targets@[i] as int;
                        &&& (#[trigger] probes@[i]).score == score(old(self)@.bounds[target].id)
                        &&& probes@[i].rank == exact_rank(
                            old(self)@.bounds,
                            score,
                            keys@,
                            target,
                            old(self)@.len(),
                        )
                    }
            } by {
                assert(knows_exactly(self@, score));
                if old(self)@.consistent(score) {
                    lemma_refining_is_consistent(old(self)@, self@, score);
                }
                assert forall|i: int| 0 <= i < targets@.len() implies {
                    let target = targets@[i] as int;
                    &&& (#[trigger] probes@[i]).score == score(old(self)@.bounds[target].id)
                    &&& probes@[i].rank == exact_rank(
                        old(self)@.bounds,
                        score,
                        keys@,
                        target,
                        old(self)@.len(),
                    )
                } by {
                    let target = targets@[i] as int;
                    assert(self@.scores[target] == Some(probes@[i].score));
                    assert forall|slot: int| 0 <= slot < self@.len() implies
                        !#[trigger] is_ambiguous(
                        self@,
                        keys@,
                        slot,
                        score(self@.bounds[target].id),
                        keys@[target],
                    ) by {
                        if is_ambiguous(
                            self@,
                            keys@,
                            slot,
                            score(self@.bounds[target].id),
                            keys@[target],
                        ) {
                            assert(scored.scores[slot] is None);
                            assert(is_ambiguous(
                                scored,
                                keys@,
                                slot,
                                scored.scores[targets@[i] as int]->0,
                                keys@[targets@[i] as int],
                            ));
                            assert(ambiguous@.contains(slot as usize));
                            let at = choose|at: int|
                                0 <= at < ambiguous@.len() && ambiguous@[at] == slot as usize;
                            assert(self@.scores[ambiguous@[at] as int] is Some);
                        }
                    }
                    lemma_count_is_exact(self@, keys@, score, target, self@.len());
                }
            }
        }
        Ok(probes)
    }
}

/// The slots that stand before a target by exact score: a higher score, or the same score and
/// a smaller key.
pub open spec fn slots_before(
    bounds: Seq<PendingBound>,
    score: spec_fn(PointOffsetType) -> i64,
    keys: Seq<ExtendedPointId>,
    target: int,
    upto: int,
) -> Set<int> {
    Set::new(
        |slot: int|
            0 <= slot < upto && (score(bounds[slot].id) > score(bounds[target].id) || score(
                bounds[slot].id,
            ) == score(bounds[target].id) && keys[slot].rank() < keys[target].rank()),
    )
}

/// The exact rank of a point is the number of points with a higher score, or with the same
/// score and a smaller key.
pub proof fn law_exact_rank_counts_points_before(
    bounds: Seq<PendingBound>,
    score: spec_fn(PointOffsetType) -> i64,
    keys: Seq<ExtendedPointId>,
    target: int,
    upto: int,
)
    requires
        0 <= upto,
    ensures
        slots_before(bounds, score, keys, target, upto).finite(),
        exact_rank(bounds, score, keys, target, upto) == slots_before(
            bounds,
            score,
            keys,
            target,
            upto,
        ).len(),
    decreases upto,
{
    let before = slots_before(bounds, score, keys, target, upto);
    if upto == 0 {
        assert(before =~= Set::<int>::empty());
    } else {
        law_exact_rank_counts_points_before(bounds, score, keys, target, upto - 1);
        let fewer = slots_before(bounds, score, keys, target, upto - 1);
        let slot = upto - 1;
        if score(bounds[slot].id) > score(bounds[target].id) || score(bounds[slot].id) == score(
            bounds[target].id,
        ) && keys[slot].rank() < keys[target].rank() {
            assert(before =~= fewer.insert(slot));
        } else {
            assert(before =~= fewer);
        }
    }
}

/// Of two points the one that stands before the other by exact score has the smaller rank.
pub proof fn law_exact_ranks_follow_the_order(
    bounds: Seq<PendingBound>,
    score: spec_fn(PointOffsetType) -> i64,
    keys: Seq<ExtendedPointId>,
    first: int,
    second: int,
)
    requires
        keys.len() == bounds.len(),
        0 <= first < bounds.len(),
        0 <= second < bounds.len(),
        score(bounds[first].id) > score(bounds[second].id) || score(bounds[first].id) == score(
            bounds[second].id,
        ) && keys[first].rank() < keys[second].rank(),
    ensures
        exact_rank(bounds, score, keys, first, bounds.len() as int) < exact_rank(
            bounds,
            score,
            keys,
            second,
            bounds.len() as int,
        ),
{
    let upto = bounds.len() as int;
    let fewer = slots_before(bounds, score, keys, first, upto);
    let more = slots_before(bounds, score, keys, second, upto);
    law_exact_rank_counts_points_before(bounds, score, keys, first, upto);
    law_exact_rank_counts_points_before(bounds, score, keys, second, upto);
    assert(!fewer.contains(first));
    assert(fewer.insert(first).subset_of(more));
    vstd::set_lib::lemma_len_subset(fewer.insert(first), more);
}

} // verus!
