//! One exact dense ranking, certified or scanned, over its eligible points.

use crate::dense_certificate::{
    advances, fresh_certificate, learns_from, newly_known, reports_violation, scores_all, scores_exactly,
    valid_bounds, CertificateState, CertificateView, PendingBound, PointOffsetType,
    ScoredPointOffset,
};
use crate::dense_cursor::{
    are_keys, certificate_ids, certificate_keys, keys_all, lemma_probe_is_eligible, offset_keys,
    probe_certificate, probe_fault, probes_certificate, scan_ahead, scan_order,
    DenseExactRankProbe, EligibleUniverse, ExactScan,
};
use crate::offsets::{
    bound_ids, check_universe, sorted_unique, sorts_bounds, strictly_ascending, universe_fault,
};
use crate::operation_error::{
    inconsistency, inconsistent, refuse, refused, Fault, OperationError, OperationResult,
};
use crate::order::{finite_key, is_finite_key, ExtendedPointId};
use std::collections::HashSet;
use vstd::prelude::*;

verus! {

/// How a ranking is obtained.
pub enum RankingInner {
    /// From certified intervals.
    Certificate(CertificateState),
    /// From a finished scan.
    Scan(ExactScan),
    /// From a scan that was not made yet.
    Unscanned,
}

/// What a ranking has come to.
pub enum RankingView {
    /// The certificate.
    Certificate(CertificateView),
    /// The points in exact order, and how many of them were emitted.
    Scan(Seq<ScoredPointOffset>, int),
    /// Nothing yet.
    Unscanned,
}

/// An exact ranking of eligible points.
pub struct DenseRanking {
    inner: RankingInner,
    eligible: EligibleUniverse,
}

impl View for DenseRanking {
    type V = RankingView;

    closed spec fn view(&self) -> RankingView {
        match self.inner {
            RankingInner::Certificate(certificate) => RankingView::Certificate(certificate@),
            RankingInner::Scan(scan) => RankingView::Scan(scan.points(), scan.position()),
            RankingInner::Unscanned => RankingView::Unscanned,
        }
    }
}

/// What one step of a ranking does.
pub open spec fn ranks_next<S: Fn(PointOffsetType) -> i64>(
    before: RankingView,
    scorer: S,
    result: OperationResult<Option<ScoredPointOffset>>,
    after: RankingView,
) -> bool {
    match (before, after) {
        (RankingView::Certificate(before), RankingView::Certificate(after)) => advances(
            before,
            scorer,
            result,
            after,
        ),
        (RankingView::Scan(points, position), RankingView::Scan(same, next)) => {
            &&& same == points
            &&& if position < points.len() {
                &&& result == Ok::<Option<ScoredPointOffset>, OperationError>(
                    Some(points[position]),
                )
                &&& next == position + 1
            } else {
                &&& result == Ok::<Option<ScoredPointOffset>, OperationError>(None)
                &&& next == position
            }
        },
        _ => false,
    }
}

/// Whether a ranking is right so far under the exact scores.
pub open spec fn ranks_exactly(
    view: RankingView,
    score: spec_fn(PointOffsetType) -> i64,
) -> bool {
    match view {
        RankingView::Certificate(certificate) => certificate.consistent(score),
        RankingView::Scan(points, _) => forall|place: int|
            0 <= place < points.len() ==> (#[trigger] points[place]).score == score(
                points[place].idx,
            ),
        RankingView::Unscanned => true,
    }
}

/// What a ranking has emitted.
pub open spec fn emitted(view: RankingView) -> Seq<ScoredPointOffset> {
    match view {
        RankingView::Certificate(certificate) => certificate.emitted,
        RankingView::Scan(points, position) => points.take(position),
        RankingView::Unscanned => Seq::empty(),
    }
}

/// Whether every point was emitted.
pub open spec fn is_exhausted(view: RankingView) -> bool {
    match view {
        RankingView::Certificate(certificate) => forall|slot: int|
            0 <= slot < certificate.len() ==> #[trigger] certificate.phases[slot]
                != crate::dense_certificate::Phase::Pending && certificate.phases[slot]
                != crate::dense_certificate::Phase::Refined,
        RankingView::Scan(points, position) => position >= points.len(),
        RankingView::Unscanned => false,
    }
}

/// Whether a view is that of a ranking of the given points: a certificate with an interval
/// for each of them, or a scan that has not gone beyond its points, which are these.
pub open spec fn is_about(
    view: RankingView,
    universe: spec_fn(PointOffsetType) -> bool,
) -> bool {
    match view {
        RankingView::Certificate(certificate) => {
            &&& certificate.valid()
            &&& forall|id: u32| #[trigger]
                universe(id) <==> bound_ids(certificate.bounds).contains(id)
        },
        RankingView::Scan(points, position) => {
            &&& 0 <= position <= points.len()
            &&& distinct_scan(points)
            &&& forall|id: u32| #[trigger] universe(id) <==> scan_holds(points, id)
        },
        RankingView::Unscanned => true,
    }
}

impl DenseRanking {
    /// Every ranking is about its points.
    pub proof fn lemma_is_about(&self)
        requires
            self.wf(),
        ensures
            is_about(self@, self.universe()),
    {
        self.lemma_valid();
        let universe = self.universe();
        assert forall|id: u32| #[trigger] universe(id) == self.eligible.has(id) by {
            assert(self.ranks(id) == self.eligible.has(id));
        }
    }

    /// Whether the parts belong together.
    pub closed spec fn wf(&self) -> bool {
        &&& self.eligible.wf()
        &&& match self.inner {
            RankingInner::Certificate(certificate) => {
                &&& certificate.wf()
                &&& forall|id: u32|
                    bound_ids(certificate@.bounds).contains(id) <==> #[trigger] self.eligible.has(
                        id,
                    )
            },
            RankingInner::Scan(scan) => {
                &&& 0 <= scan.position() <= scan.points().len()
                &&& distinct_scan(scan.points())
                &&& forall|id: u32|
                    scan_holds(scan.points(), id) <==> #[trigger] self.eligible.has(id)
            },
            RankingInner::Unscanned => true,
        }
    }

    /// What holds of every ranking.
    pub proof fn lemma_valid(&self)
        requires
            self.wf(),
        ensures
            match self@ {
                RankingView::Certificate(certificate) => certificate.valid() && certificate.len()
                    <= usize::MAX,
                RankingView::Scan(points, position) => 0 <= position <= points.len(),
                RankingView::Unscanned => true,
            },
    {
        match &self.inner {
            RankingInner::Certificate(certificate) => {
                certificate.lemma_valid();
            },
            _ => {},
        }
    }

    /// Whether a point is ranked.
    pub closed spec fn ranks(&self, id: PointOffsetType) -> bool {
        self.eligible.has(id)
    }

    /// The points that are ranked.
    pub open spec fn universe(&self) -> spec_fn(PointOffsetType) -> bool {
        |id: PointOffsetType| self.ranks(id)
    }

    /// The number of ranked points.
    pub closed spec fn size(&self) -> int {
        self.eligible.size()
    }

    /// A ranking from certified intervals.
    pub fn certified(
        eligible: Vec<PointOffsetType>,
        bounds: Vec<PendingBound>,
        refine_batch: usize,
        strict: bool,
    ) -> (result: OperationResult<DenseRanking>)
        ensures
            if refine_batch == 0 {
                result == refused::<DenseRanking>(Fault::ZeroRefineBatch)
            } else {
                match universe_fault(eligible@, bounds@) {
                    Some(fault) => result == inconsistent::<DenseRanking>(fault),
                    None => {
                        &&& result matches Ok(ranking)
                        &&& ranking.wf()
                        &&& ranking.size() == eligible@.len()
                        &&& forall|id: u32| #[trigger]
                            ranking.ranks(id) <==> eligible@.contains(id)
                        &&& ranking@ matches RankingView::Certificate(certificate)
                        &&& sorts_bounds(bounds@, certificate.bounds)
                        &&& certificate == fresh_certificate(
                            certificate.bounds,
                            refine_batch,
                            strict,
                        )
                    },
                }
            },
    {
        if refine_batch == 0 {
            return refuse(Fault::ZeroRefineBatch);
        }
        let sorted = match check_universe(&eligible, &bounds) {
            Ok(sorted) => sorted,
            Err(error) => {
                return Err(error);
            },
        };
        let universe = match sorted_unique(&eligible) {
            Some(universe) => universe,
            None => {
                return inconsistency(Fault::DuplicateEligible);
            },
        };
        let certificate = CertificateState::new(sorted, refine_batch, strict);
        let ranking = DenseRanking {
            inner: RankingInner::Certificate(certificate),
            eligible: EligibleUniverse::Explicit(universe),
        };
        proof {
            assert forall|id: u32|
                bound_ids(certificate@.bounds).contains(id) <==> #[trigger] ranking.eligible.has(
                    id,
                ) by {
                assert(universe@.contains(id) <==> eligible@.contains(id));
            }
        }
        Ok(ranking)
    }

    /// A ranking from certified intervals of all points below a count.
    pub fn contiguous(
        point_count: usize,
        bounds: Vec<PendingBound>,
        refine_batch: usize,
        strict: bool,
    ) -> (result: OperationResult<DenseRanking>)
        ensures
            if refine_batch == 0 {
                result == refused::<DenseRanking>(Fault::ZeroRefineBatch)
            } else if point_count > 0x1_0000_0000 {
                result == inconsistent::<DenseRanking>(Fault::UniverseTooLarge)
            } else if !is_contiguous(bounds@, point_count as int) {
                result == inconsistent::<DenseRanking>(Fault::ContiguousBoundsMismatch)
            } else {
                &&& result matches Ok(ranking)
                &&& ranking.wf()
                &&& ranking.size() == point_count
                &&& forall|id: u32| #[trigger] ranking.ranks(id) <==> id < point_count
                &&& ranking@ == RankingView::Certificate(
                    fresh_certificate(bounds@, refine_batch, strict),
                )
            },
    {
        if refine_batch == 0 {
            return refuse(Fault::ZeroRefineBatch);
        }
        if point_count as u64 > 0x1_0000_0000u64 {
            return inconsistency(Fault::UniverseTooLarge);
        }
        if bounds.len() != point_count {
            return inconsistency(Fault::ContiguousBoundsMismatch);
        }
        let mut i: usize = 0;
        while i < bounds.len()
            invariant
                i <= bounds@.len(),
                bounds@.len() == point_count,
                point_count <= 0x1_0000_0000,
                refine_batch > 0,
                forall|k: int| 0 <= k < i ==> is_ordinal_bound(#[trigger] bounds@[k], k),
            decreases bounds@.len() - i,
        {
            let bound = bounds[i];
            if bound.id as usize != i || !is_finite_key(bound.lower) || !is_finite_key(bound.value)
                || bound.lower > bound.value {
                assert(!is_ordinal_bound(bounds@[i as int], i as int));
                return inconsistency(Fault::ContiguousBoundsMismatch);
            }
            i += 1;
        }
        proof {
            assert(valid_bounds(bounds@)) by {
                assert forall|left: int, right: int| 0 <= left < right < bounds@.len() implies (
                #[trigger] bounds@[left]).id < (#[trigger] bounds@[right]).id by {
                    assert(is_ordinal_bound(bounds@[left], left));
                    assert(is_ordinal_bound(bounds@[right], right));
                }
                assert forall|slot: int| 0 <= slot < bounds@.len() implies
                    crate::dense_certificate::is_interval(#[trigger] bounds@[slot]) by {
                    assert(is_ordinal_bound(bounds@[slot], slot));
                }
            }
        }
        let ghost given = bounds@;
        let certificate = CertificateState::new(bounds, refine_batch, strict);
        let ranking = DenseRanking {
            inner: RankingInner::Certificate(certificate),
            eligible: EligibleUniverse::Contiguous { count: point_count },
        };
        proof {
            assert forall|id: u32|
                bound_ids(given).contains(id) <==> #[trigger] ranking.eligible.has(id) by {
                if bound_ids(given).contains(id) {
                    let k = choose|k: int|
                        0 <= k < bound_ids(given).len() && bound_ids(given)[k] == id;
                    assert(is_ordinal_bound(given[k], k));
                }
                if id < point_count {
                    assert(is_ordinal_bound(given[id as int], id as int));
                    assert(bound_ids(given)[id as int] == id);
                }
            }
        }
        Ok(ranking)
    }

    /// A ranking from the exact scores of all eligible points.
    pub fn scanned(eligible: Vec<PointOffsetType>, scores: &Vec<i64>) -> (result: OperationResult<
        DenseRanking,
    >)
        requires
            eligible@.len() == scores@.len(),
        ensures
            if !eligible@.no_duplicates() {
                result == inconsistent::<DenseRanking>(Fault::DuplicateEligible)
            } else {
                &&& result matches Ok(ranking)
                &&& ranking.wf()
                &&& ranking.size() == eligible@.len()
                &&& forall|id: u32| #[trigger] ranking.ranks(id) <==> eligible@.contains(id)
                &&& ranking@ == RankingView::Scan(scan_order(eligible@, scores@), 0)
            },
    {
        let universe = match sorted_unique(&eligible) {
            Some(universe) => universe,
            None => {
                return inconsistency(Fault::DuplicateEligible);
            },
        };
        let scan = ExactScan::new(&eligible, scores);
        let ranking = DenseRanking {
            inner: RankingInner::Scan(scan),
            eligible: EligibleUniverse::Explicit(universe),
        };
        proof {
            assert(eligible.len() <= usize::MAX);
            lemma_scan_holds(eligible@, scores@);
            assert forall|id: u32|
                scan_holds(scan.points(), id) <==> #[trigger] ranking.eligible.has(id) by {
                assert(universe@.contains(id) <==> eligible@.contains(id));
            }
        }
        Ok(ranking)
    }

    /// A ranking by a scan that is made when it is first needed.
    pub fn unscanned(eligible: Vec<PointOffsetType>) -> (result: OperationResult<DenseRanking>)
        ensures
            if !eligible@.no_duplicates() {
                result == inconsistent::<DenseRanking>(Fault::DuplicateEligible)
            } else {
                &&& result matches Ok(ranking)
                &&& ranking.wf()
                &&& ranking.size() == eligible@.len()
                &&& forall|id: u32| #[trigger] ranking.ranks(id) <==> eligible@.contains(id)
                &&& ranking@ == RankingView::Unscanned
            },
    {
        match sorted_unique(&eligible) {
            Some(universe) => {
                let ranking = DenseRanking {
                    inner: RankingInner::Unscanned,
                    eligible: EligibleUniverse::Explicit(universe),
                };
                proof {
                    assert forall|id: u32| #[trigger]
                        ranking.ranks(id) <==> eligible@.contains(id) by {
                        assert(universe@.contains(id) <==> eligible@.contains(id));
                    }
                }
                Ok(ranking)
            },
            None => inconsistency(Fault::DuplicateEligible),
        }
    }

    /// The number of ranked points.
    pub fn len(&self) -> (count: usize)
        ensures
            count == self.size(),
    {
        self.eligible.len()
    }

    /// Whether the scan is still to be made.
    pub fn is_unscanned(&self) -> (result: bool)
        ensures
            result == (self@ is Unscanned),
    {
        match &self.inner {
            RankingInner::Unscanned => true,
            _ => false,
        }
    }

    /// How often an exact score was computed for a certificate.
    pub fn computed(&self) -> (count: usize)
        ensures
            count == (match self@ {
                RankingView::Certificate(certificate) => certificate.computed,
                _ => 0usize,
            }),
    {
        match &self.inner {
            RankingInner::Certificate(certificate) => certificate.computed(),
            _ => 0,
        }
    }

    /// The next point in exact order, once it is certain.
    pub fn next<S: Fn(PointOffsetType) -> i64>(&mut self, scorer: &S) -> (result: OperationResult<
        Option<ScoredPointOffset>,
    >)
        requires
            old(self).wf(),
            scores_all(*scorer),
            old(self)@ !is Unscanned,
        ensures
            final(self).wf(),
            final(self).size() == old(self).size(),
            final(self).universe() == old(self).universe(),
            ranks_next(old(self)@, *scorer, result, final(self)@),
            result matches Ok(Some(point)) ==> emitted(final(self)@) == emitted(old(self)@).push(
                point,
            ),
            result is Ok && result->Ok_0 is None ==> emitted(final(self)@) == emitted(old(self)@)
                && is_exhausted(final(self)@),
    {
        let ghost before = self@;
        let result = match &mut self.inner {
            RankingInner::Certificate(certificate) => certificate.next(scorer),
            RankingInner::Scan(scan) => Ok(scan.next()),
            RankingInner::Unscanned => Ok(None),
        };
        proof {
            assert(self.universe() =~= old(self).universe());
            if before is Scan {
                let points = before->Scan_0;
                let position = before->Scan_1;
                if position < points.len() {
                    assert(points.take(position + 1) =~= points.take(position).push(
                        points[position],
                    ));
                }
            }
        }
        result
    }

    /// Makes the scan of a ranking that has not made it.
    pub fn scan_now<S: Fn(PointOffsetType) -> i64>(&mut self, scorer: &S) -> (result:
        OperationResult<()>)
        requires
            old(self).wf(),
            scores_all(*scorer),
        ensures
            final(self).wf(),
            final(self).size() == old(self).size(),
            final(self).universe() == old(self).universe(),
            old(self)@ !is Unscanned ==> result == Ok::<(), OperationError>(()) && final(self)@
                == old(self)@,
            old(self)@ is Unscanned ==> match result {
                Ok(_) => exists|ids: Seq<PointOffsetType>, scores: Seq<i64>|
                    #[trigger] are_exact_scores(*scorer, old(self).universe(), ids, scores)
                        && all_finite(scores) && final(self)@ == RankingView::Scan(
                        scan_order(ids, scores),
                        0,
                    ),
                Err(error) => {
                    &&& error == OperationError::InconsistentStorage(Fault::NonFiniteScores)
                    &&& final(self)@ == old(self)@
                    &&& exists|ids: Seq<PointOffsetType>, scores: Seq<i64>|
                        #[trigger] are_exact_scores(*scorer, old(self).universe(), ids, scores)
                            && !all_finite(scores)
                },
            },
    {
        proof {
            assert(self.universe() =~= old(self).universe());
        }
        match &self.inner {
            RankingInner::Unscanned => {},
            _ => {
                return Ok(());
            },
        }
        let ids = self.listed();
        let mut scores: Vec<i64> = Vec::new();
        let mut finite = true;
        let mut i: usize = 0;
        while i < ids.len()
            invariant
                scores_all(*scorer),
                i <= ids@.len(),
                scores@.len() == i,
                forall|k: int|
                    0 <= k < i ==> call_ensures(*scorer, (ids@[k],), #[trigger] scores@[k]),
                finite == all_finite(scores@),
            decreases ids@.len() - i,
        {
            let ghost before = scores@;
            let score: i64 = scorer(ids[i]);
            scores.push(score);
            if !is_finite_key(score) {
                assert(!finite_key(scores@[i as int]));
                finite = false;
            } else {
                proof {
                    if all_finite(before) {
                        assert forall|k: int| 0 <= k < scores@.len() implies finite_key(
                            #[trigger] scores@[k],
                        ) by {
                            if k < before.len() {
                                assert(finite_key(before[k]));
                            }
                        }
                    } else {
                        let k = choose|k: int|
                            0 <= k < before.len() && !finite_key(#[trigger] before[k]);
                        assert(!finite_key(scores@[k]));
                    }
                }
            }
            i += 1;
        }
        assert(are_exact_scores(*scorer, self.universe(), ids@, scores@));
        if !finite {
            return inconsistency(Fault::NonFiniteScores);
        }
        let scan = ExactScan::new(&ids, &scores);
        proof {
            lemma_scan_holds(ids@, scores@);
        }
        self.inner = RankingInner::Scan(scan);
        proof {
            assert(self.universe() =~= old(self).universe());
            assert forall|id: u32|
                scan_holds(scan.points(), id) <==> #[trigger] self.eligible.has(id) by {
            }
        }
        Ok(())
    }

    /// The ranked points, in ascending order.
    pub fn listed(&self) -> (ids: Vec<PointOffsetType>)
        requires
            self.wf(),
        ensures
            strictly_ascending(ids@),
            forall|id: u32| #[trigger] ids@.contains(id) <==> self.ranks(id),
    {
        match &self.eligible {
            EligibleUniverse::Explicit(points) => crate::tables::copied(points),
            EligibleUniverse::Contiguous { count } => {
                let mut ids: Vec<PointOffsetType> = Vec::new();
                let limit: u64 = if *count as u64 > 0x1_0000_0000u64 {
                    0x1_0000_0000u64
                } else {
                    *count as u64
                };
                let mut id: u64 = 0;
                while id < limit
                    invariant
                        limit <= 0x1_0000_0000,
                        id <= limit,
                        ids@ =~= Seq::new(id as nat, |i: int| i as u32),
                    decreases limit - id,
                {
                    ids.push(id as u32);
                    id += 1;
                }
                proof {
                    assert forall|id: u32| #[trigger] ids@.contains(id) <==> self.ranks(id) by {
                        if self.ranks(id) {
                            assert(ids@[id as int] == id);
                        }
                    }
                }
                ids
            },
        }
    }
}

/// Whether a point is among scanned points.
pub open spec fn scan_holds(points: Seq<ScoredPointOffset>, id: PointOffsetType) -> bool {
    exists|place: int| 0 <= place < points.len() && (#[trigger] points[place]).idx == id
}

/// Whether scanned points are different points.
pub open spec fn distinct_scan(points: Seq<ScoredPointOffset>) -> bool {
    forall|left: int, right: int|
        0 <= left < right < points.len() ==> (#[trigger] points[left]).idx != (
        #[trigger] points[right]).idx
}

/// Whether every score is finite.
pub open spec fn all_finite(scores: Seq<i64>) -> bool {
    forall|i: int| 0 <= i < scores.len() ==> finite_key(#[trigger] scores[i])
}

/// Whether `scores` are what the scorer returned for the points of a universe, in
/// ascending order.
pub open spec fn are_exact_scores<S: Fn(PointOffsetType) -> i64>(
    scorer: S,
    universe: spec_fn(PointOffsetType) -> bool,
    ids: Seq<PointOffsetType>,
    scores: Seq<i64>,
) -> bool {
    &&& strictly_ascending(ids)
    &&& forall|id: u32| #[trigger] ids.contains(id) <==> universe(id)
    &&& scores.len() == ids.len()
    &&& forall|i: int|
        0 <= i < ids.len() ==> call_ensures(scorer, (ids[i],), #[trigger] scores[i])
}

/// Whether a bound is the interval of the point with the given number.
pub open spec fn is_ordinal_bound(bound: PendingBound, ordinal: int) -> bool {
    bound.id == ordinal && crate::dense_certificate::is_interval(bound)
}

/// Whether bounds are those of all points below a count, in order.
pub open spec fn is_contiguous(bounds: Seq<PendingBound>, count: int) -> bool {
    &&& bounds.len() == count
    &&& forall|k: int| 0 <= k < bounds.len() ==> is_ordinal_bound(#[trigger] bounds[k], k)
}

/// A scan holds the points that were scanned.
pub proof fn lemma_scan_holds(ids: Seq<PointOffsetType>, scores: Seq<i64>)
    requires
        ids.len() == scores.len(),
        ids.len() <= usize::MAX,
    ensures
        scan_order(ids, scores).len() == ids.len(),
        forall|id: u32| #[trigger] scan_holds(scan_order(ids, scores), id) <==> ids.contains(id),
        ids.no_duplicates() ==> distinct_scan(scan_order(ids, scores)),
{
    crate::dense_cursor::law_scan_order_is_exact(ids, scores);
    let points = scan_order(ids, scores);
    if ids.no_duplicates() {
        let entries = crate::dense_cursor::scan_entries(ids, scores);
        let order = crate::rank_queue::ordered(entries);
        crate::rank_queue::lemma_ordered(entries);
        assert(entries.no_duplicates()) by {
            assert forall|i: int, j: int| 0 <= i < entries.len() && 0 <= j < entries.len() && i != j implies entries[i]
                != entries[j] by {
                assert(entries[i].slot == i && entries[j].slot == j);
            }
        }
        crate::reciprocal_rank_fusion::certificate::lemma_order_no_duplicates(entries);
        assert forall|left: int, right: int| 0 <= left < right < points.len() implies (
        #[trigger] points[left]).idx != (#[trigger] points[right]).idx by {
            assert(order.contains(order[left]) && order.contains(order[right]));
            assert(entries.contains(order[left]) && entries.contains(order[right]));
            assert(order[left] != order[right]);
            assert(order[left].slot != order[right].slot);
        }
    }
    assert forall|id: u32| #[trigger] scan_holds(points, id) <==> ids.contains(id) by {
        if scan_holds(points, id) {
            let place = choose|place: int|
                0 <= place < points.len() && (#[trigger] points[place]).idx == id;
            assert(crate::dense_cursor::is_scored(ids, scores, points[place]));
        }
        if ids.contains(id) {
            let i = choose|i: int| 0 <= i < ids.len() && ids[i] == id;
            let point = ScoredPointOffset { idx: ids[i], score: scores[i] };
            assert(points.contains(point));
            let place = choose|place: int| 0 <= place < points.len() && points[place] == point;
            assert(points[place].idx == id);
        }
    }
}


/// What advancing a ranking by a batch does: it emits further points, fewer than
/// asked for only at its end, or reports a contradiction. Where the scorer is exact
/// and the ranking is right so far, it never fails and stays right.
pub open spec fn ranks_batch<S: Fn(PointOffsetType) -> i64>(
    before: RankingView,
    max_results: usize,
    scorer: S,
    result: OperationResult<Vec<ScoredPointOffset>>,
    after: RankingView,
) -> bool {
    &&& match result {
        Ok(points) => {
            &&& emitted(after) == emitted(before) + points@
            &&& points@.len() <= max_results
            &&& points@.len() < max_results ==> is_exhausted(after)
        },
        Err(error) => before matches RankingView::Certificate(certificate) && reports_violation(
            certificate,
            scorer,
            error,
        ),
    }
    &&& match (before, after) {
        (RankingView::Certificate(before), RankingView::Certificate(after)) => learns_from(
            before,
            scorer,
            after,
        ),
        (RankingView::Scan(points, _), RankingView::Scan(same, _)) => points == same,
        _ => false,
    }
    &&& forall|score: spec_fn(PointOffsetType) -> i64|
        #![trigger scores_exactly(scorer, score)]
        scores_exactly(scorer, score) && ranks_exactly(before, score) ==> result is Ok
            && ranks_exactly(after, score)
}

/// Why seeds are refused: the first that comes twice, is not finite or is not
/// eligible.
pub open spec fn seed_fault(
    seeds: Seq<(PointOffsetType, i64)>,
    eligible: spec_fn(PointOffsetType) -> bool,
) -> Option<Fault>
    decreases seeds.len(),
{
    if seeds.len() == 0 {
        None
    } else {
        let (id, score) = seeds.last();
        match seed_fault(seeds.drop_last(), eligible) {
            Some(fault) => Some(fault),
            None => if seeds_point(seeds.drop_last(), id) {
                Some(Fault::DuplicateSeed { id })
            } else if !finite_key(score) {
                Some(Fault::NonFiniteSeed { id })
            } else if !eligible(id) {
                Some(Fault::IneligibleSeed { id })
            } else {
                None
            },
        }
    }
}

/// Whether a point has a seed.
pub open spec fn seeds_point(seeds: Seq<(PointOffsetType, i64)>, id: PointOffsetType) -> bool {
    exists|i: int| 0 <= i < seeds.len() && (#[trigger] seeds[i]).0 == id
}

proof fn lemma_seed_fault_persists(
    seeds: Seq<(PointOffsetType, i64)>,
    eligible: spec_fn(PointOffsetType) -> bool,
    count: int,
)
    requires
        0 <= count <= seeds.len(),
        seed_fault(seeds.take(count), eligible) is Some,
    ensures
        seed_fault(seeds, eligible) == seed_fault(seeds.take(count), eligible),
    decreases seeds.len() - count,
{
    if count == seeds.len() {
        assert(seeds.take(count) =~= seeds);
    } else {
        assert(seeds.take(count + 1).drop_last() =~= seeds.take(count));
        lemma_seed_fault_persists(seeds, eligible, count + 1);
    }
}

/// Seeds without a fault are of eligible points.
proof fn lemma_seeds_are_eligible(
    seeds: Seq<(PointOffsetType, i64)>,
    eligible: spec_fn(PointOffsetType) -> bool,
)
    requires
        seed_fault(seeds, eligible) is None,
    ensures
        forall|i: int| 0 <= i < seeds.len() ==> eligible((#[trigger] seeds[i]).0),
    decreases seeds.len(),
{
    if seeds.len() > 0 {
        lemma_seeds_are_eligible(seeds.drop_last(), eligible);
        assert forall|i: int| 0 <= i < seeds.len() implies eligible((#[trigger] seeds[i]).0) by {
            if i < seeds.len() - 1 {
                assert(seeds.drop_last()[i] == seeds[i]);
            }
        }
    }
}

impl DenseRanking {
    /// Advances by up to `max_results` points.
    pub fn next_batch<S: Fn(PointOffsetType) -> i64>(&mut self, max_results: usize, scorer: &S) -> (
        result: OperationResult<Vec<ScoredPointOffset>>)
        requires
            old(self).wf(),
            scores_all(*scorer),
            old(self)@ !is Unscanned,
        ensures
            final(self).wf(),
            final(self).size() == old(self).size(),
            final(self).universe() == old(self).universe(),
            ranks_batch(old(self)@, max_results, *scorer, result, final(self)@),
    {
        let mut points: Vec<ScoredPointOffset> = Vec::new();
        let mut open = true;
        proof {
            assert(emitted(old(self)@) + points@ =~= emitted(old(self)@));
            if old(self)@ is Certificate {
                self.lemma_certificate_is_valid();
                lemma_learns_nothing(old(self)@->Certificate_0, *scorer);
            }
        }
        while open && points.len() < max_results
            invariant
                self.wf(),
                old(self).wf(),
                scores_all(*scorer),
                self@ !is Unscanned,
                self.size() == old(self).size(),
                self.universe() == old(self).universe(),
                points@.len() <= max_results,
                emitted(self@) == emitted(old(self)@) + points@,
                !open ==> is_exhausted(self@),
                batch_goes_on(old(self)@, *scorer, self@),
            decreases max_results - points@.len(), (if open { 1int } else { 0int }),
        {
            let ghost before = self@;
            let ghost listed = points@;
            let step = self.next(scorer);
            proof {
                lemma_batch_goes_on(old(self)@, before, *scorer, step, self@);
            }
            match step {
                Ok(Some(point)) => {
                    points.push(point);
                    assert(emitted(old(self)@) + listed.push(point) =~= (emitted(old(self)@)
                        + listed).push(point));
                },
                Ok(None) => {
                    open = false;
                },
                Err(error) => {
                    return Err(error);
                },
            }
        }
        Ok(points)
    }

    /// A certificate in use is sound.
    proof fn lemma_certificate_is_valid(&self)
        requires
            self.wf(),
        ensures
            self@ matches RankingView::Certificate(certificate) ==> certificate.valid(),
    {
        if let RankingInner::Certificate(certificate) = self.inner {
            certificate.lemma_valid();
        }
    }

    /// The exact scores and ranks of eligible points, equal scores by ascending
    /// point.
    pub fn probe_exact_ranks<S: Fn(PointOffsetType) -> i64>(
        &mut self,
        ids: &Vec<PointOffsetType>,
        scorer: &S,
    ) -> (result: OperationResult<Vec<DenseExactRankProbe>>)
        requires
            old(self).wf(),
            scores_all(*scorer),
            old(self)@ !is Unscanned,
        ensures
            final(self).wf(),
            final(self).size() == old(self).size(),
            final(self).universe() == old(self).universe(),
            match probe_fault(ids@, old(self).universe()) {
                Some(fault) => result == refused::<Vec<DenseExactRankProbe>>(fault)
                    && final(self)@ == old(self)@,
                None => match (old(self)@, final(self)@) {
                    (
                        RankingView::Certificate(before),
                        RankingView::Certificate(after),
                    ) => probes_certificate(
                        before,
                        ids@,
                        offset_keys(before.bounds),
                        *scorer,
                        result,
                        after,
                    ),
                    (RankingView::Scan(points, _), _) => {
                        &&& final(self)@ == old(self)@
                        &&& result matches Ok(probes)
                        &&& probes@.len() == ids@.len()
                        &&& forall|i: int|
                            0 <= i < ids@.len() ==> is_scan_probe(
                                points,
                                ids@[i],
                                #[trigger] probes@[i],
                            )
                    },
                    _ => false,
                },
            },
    {
        proof {
            assert(self.universe() =~= self.eligible.members());
        }
        match self.eligible.check_probe(ids) {
            Ok(_) => {},
            Err(error) => {
                return Err(error);
            },
        }
        proof {
            lemma_probe_is_eligible(ids@, self.universe());
        }
        let result = match &mut self.inner {
            RankingInner::Certificate(certificate) => {
                let keys = certificate_ids(certificate);
                proof {
                    assert forall|i: int| 0 <= i < ids@.len() implies bound_ids(
                        certificate@.bounds,
                    ).contains(#[trigger] ids@[i]) by {
                        assert(old(self).universe()(ids@[i]));
                        assert(old(self).eligible.has(ids@[i]));
                    }
                }
                probe_certificate(certificate, ids, &keys, scorer)
            },
            RankingInner::Scan(scan) => {
                proof {
                    assert forall|i: int| 0 <= i < ids@.len() implies scan_holds(
                        scan.points(),
                        #[trigger] ids@[i],
                    ) by {
                        assert(old(self).universe()(ids@[i]));
                        assert(old(self).eligible.has(ids@[i]));
                    }
                }
                Ok(probe_scan(scan, ids))
            },
            RankingInner::Unscanned => Ok(Vec::new()),
        };
        proof {
            assert(self.universe() =~= old(self).universe());
        }
        result
    }

    /// The exact scores and ranks of eligible points, equal scores by the given
    /// keys.
    pub fn probe_exact_ranks_by_key<
        K: Fn(PointOffsetType) -> ExtendedPointId,
        S: Fn(PointOffsetType) -> i64,
    >(&mut self, ids: &Vec<PointOffsetType>, tie_key: &K, scorer: &S) -> (result: OperationResult<
        Vec<DenseExactRankProbe>,
    >)
        requires
            old(self).wf(),
            keys_all(*tie_key),
            scores_all(*scorer),
            old(self)@ !is Unscanned,
        ensures
            final(self).wf(),
            final(self).size() == old(self).size(),
            final(self).universe() == old(self).universe(),
            match probe_fault(ids@, old(self).universe()) {
                Some(fault) => result == refused::<Vec<DenseExactRankProbe>>(fault)
                    && final(self)@ == old(self)@,
                None => match (old(self)@, final(self)@) {
                    (
                        RankingView::Certificate(before),
                        RankingView::Certificate(after),
                    ) => exists|keys: Seq<ExtendedPointId>|
                        #[trigger] are_keys(*tie_key, before.bounds, keys) && probes_certificate(
                            before,
                            ids@,
                            keys,
                            *scorer,
                            result,
                            after,
                        ),
                    (RankingView::Scan(points, _), _) => {
                        &&& final(self)@ == old(self)@
                        &&& exists|keys: Seq<ExtendedPointId>|
                            #[trigger] are_scan_keys(*tie_key, points, keys)
                                && probes_scan_by_key(points, keys, ids@, result)
                    },
                    _ => false,
                },
            },
    {
        proof {
            assert(self.universe() =~= self.eligible.members());
        }
        match self.eligible.check_probe(ids) {
            Ok(_) => {},
            Err(error) => {
                return Err(error);
            },
        }
        proof {
            lemma_probe_is_eligible(ids@, self.universe());
        }
        let result = match &mut self.inner {
            RankingInner::Certificate(certificate) => {
                let keys = certificate_keys(certificate, tie_key);
                proof {
                    assert forall|i: int| 0 <= i < ids@.len() implies bound_ids(
                        certificate@.bounds,
                    ).contains(#[trigger] ids@[i]) by {
                        assert(old(self).universe()(ids@[i]));
                        assert(old(self).eligible.has(ids@[i]));
                    }
                }
                let ghost bounds = certificate@.bounds;
                let answer = probe_certificate(certificate, ids, &keys, scorer);
                proof {
                    assert(old(self)@->Certificate_0.bounds == bounds);
                    assert(are_keys(*tie_key, old(self)@->Certificate_0.bounds, keys@));
                }
                answer
            },
            RankingInner::Scan(scan) => {
                proof {
                    assert forall|i: int| 0 <= i < ids@.len() implies scan_holds(
                        scan.points(),
                        #[trigger] ids@[i],
                    ) by {
                        assert(old(self).universe()(ids@[i]));
                        assert(old(self).eligible.has(ids@[i]));
                    }
                }
                let probes = probe_scan_by_key(scan, ids, tie_key);
                let answer: OperationResult<Vec<DenseExactRankProbe>> = Ok(probes);
                proof {
                    let points = scan.points();
                    let keys = choose|keys: Seq<ExtendedPointId>|
                        #[trigger] are_scan_keys(*tie_key, points, keys) && probes_scan_by_key(
                            points,
                            keys,
                            ids@,
                            Ok::<Vec<DenseExactRankProbe>, OperationError>(probes),
                        );
                    assert(old(self)@->Scan_0 == points);
                    assert(are_scan_keys(*tie_key, old(self)@->Scan_0, keys));
                    assert(probes_scan_by_key(old(self)@->Scan_0, keys, ids@, answer));
                }
                answer
            },
            RankingInner::Unscanned => Ok(Vec::new()),
        };
        proof {
            assert(self.universe() =~= old(self).universe());
        }
        result
    }
}

/// Whether a probe gives the score and the place of a scanned point.
pub open spec fn is_scan_probe(
    points: Seq<ScoredPointOffset>,
    id: PointOffsetType,
    probe: DenseExactRankProbe,
) -> bool {
    &&& probe.id == id
    &&& probe.rank < points.len()
    &&& points[probe.rank as int].idx == id
    &&& points[probe.rank as int].score == probe.score
    &&& forall|earlier: int|
        0 <= earlier < probe.rank ==> (#[trigger] points[earlier]).idx != id
}

/// The places of scanned points.
fn probe_scan(scan: &ExactScan, ids: &Vec<PointOffsetType>) -> (probes: Vec<DenseExactRankProbe>)
    requires
        forall|i: int| 0 <= i < ids@.len() ==> scan_holds(scan.points(), #[trigger] ids@[i]),
    ensures
        probes@.len() == ids@.len(),
        forall|i: int|
            0 <= i < ids@.len() ==> is_scan_probe(scan.points(), ids@[i], #[trigger] probes@[i]),
{
    let mut probes: Vec<DenseExactRankProbe> = Vec::new();
    let mut i: usize = 0;
    while i < ids.len()
        invariant
            i <= ids@.len(),
            probes@.len() == i,
            forall|k: int| 0 <= k < ids@.len() ==> scan_holds(scan.points(), #[trigger] ids@[k]),
            forall|k: int|
                0 <= k < i ==> is_scan_probe(scan.points(), ids@[k], #[trigger] probes@[k]),
        decreases ids@.len() - i,
    {
        let id: u32 = ids[i];
        assert(scan_holds(scan.points(), ids@[i as int]));
        let rank: usize = match scan.place_of(id) {
            Some(place) => place,
            None => vstd::pervasive::unreached(),
        };
        let point = scan.point(rank);
        probes.push(DenseExactRankProbe { id, score: point.score, rank });
        i += 1;
    }
    probes
}

/// Whether `keys` are the tie keys of scanned points.
pub open spec fn are_scan_keys<K: Fn(PointOffsetType) -> ExtendedPointId>(
    tie_key: K,
    points: Seq<ScoredPointOffset>,
    keys: Seq<ExtendedPointId>,
) -> bool {
    &&& keys.len() == points.len()
    &&& forall|place: int|
        0 <= place < points.len() ==> call_ensures(
            tie_key,
            (points[place].idx,),
            #[trigger] keys[place],
        )
}

/// Whether probes give the scores of scanned points and how many points are ahead
/// of them by the given keys.
pub open spec fn probes_scan_by_key(
    points: Seq<ScoredPointOffset>,
    keys: Seq<ExtendedPointId>,
    ids: Seq<PointOffsetType>,
    result: OperationResult<Vec<DenseExactRankProbe>>,
) -> bool {
    &&& result matches Ok(probes)
    &&& probes@.len() == ids.len()
    &&& forall|i: int|
        0 <= i < ids.len() ==> is_keyed_probe(points, keys, ids[i], #[trigger] probes@[i])
}

/// Whether a probe gives the score of a scanned point and how many points are
/// ahead of it by the given keys.
pub open spec fn is_keyed_probe(
    points: Seq<ScoredPointOffset>,
    keys: Seq<ExtendedPointId>,
    id: PointOffsetType,
    probe: DenseExactRankProbe,
) -> bool {
    &&& probe.id == id
    &&& exists|place: int|
        {
            &&& 0 <= place < points.len()
            &&& (#[trigger] points[place]).idx == id
            &&& probe.score == points[place].score
            &&& probe.rank == scan_ahead(
                points,
                keys,
                probe.score,
                keys[place],
                points.len() as int,
            )
        }
}

/// The ranks of scanned points by the given keys.
fn probe_scan_by_key<K: Fn(PointOffsetType) -> ExtendedPointId>(
    scan: &ExactScan,
    ids: &Vec<PointOffsetType>,
    tie_key: &K,
) -> (probes: Vec<DenseExactRankProbe>)
    requires
        keys_all(*tie_key),
        forall|i: int| 0 <= i < ids@.len() ==> scan_holds(scan.points(), #[trigger] ids@[i]),
    ensures
        exists|keys: Seq<ExtendedPointId>|
            #[trigger] are_scan_keys(*tie_key, scan.points(), keys) && probes_scan_by_key(
                scan.points(),
                keys,
                ids@,
                Ok::<Vec<DenseExactRankProbe>, OperationError>(probes),
            ),
{
    let mut keys: Vec<ExtendedPointId> = Vec::new();
    let mut place: usize = 0;
    while place < scan.len()
        invariant
            keys_all(*tie_key),
            place <= scan.points().len(),
            keys@.len() == place,
            forall|k: int|
                0 <= k < place ==> call_ensures(
                    *tie_key,
                    (scan.points()[k].idx,),
                    #[trigger] keys@[k],
                ),
        decreases scan.points().len() - place,
    {
        keys.push(tie_key(scan.point(place).idx));
        place += 1;
    }
    let mut probes: Vec<DenseExactRankProbe> = Vec::new();
    let mut i: usize = 0;
    while i < ids.len()
        invariant
            i <= ids@.len(),
            probes@.len() == i,
            are_scan_keys(*tie_key, scan.points(), keys@),
            forall|k: int| 0 <= k < ids@.len() ==> scan_holds(scan.points(), #[trigger] ids@[k]),
            forall|k: int|
                0 <= k < i ==> is_keyed_probe(scan.points(), keys@, ids@[k], #[trigger] probes@[k]),
        decreases ids@.len() - i,
    {
        let id: u32 = ids[i];
        assert(scan_holds(scan.points(), ids@[i as int]));
        let place: usize = match scan.place_of(id) {
            Some(place) => place,
            None => vstd::pervasive::unreached(),
        };
        let point = scan.point(place);
        let rank: usize = scan.count_ahead(&keys, point.score, keys[place]);
        probes.push(DenseExactRankProbe { id, score: point.score, rank });
        assert(scan.points()[place as int].idx == id);
        i += 1;
    }
    proof {
        assert(are_scan_keys(*tie_key, scan.points(), keys@));
        assert(probes_scan_by_key(
            scan.points(),
            keys@,
            ids@,
            Ok::<Vec<DenseExactRankProbe>, OperationError>(probes),
        ));
    }
    probes
}

/// How many exact scores a ranking has learned.
pub open spec fn scores_learned(before: RankingView, after: RankingView) -> int {
    match (before, after) {
        (RankingView::Certificate(before), RankingView::Certificate(after)) => newly_known(
            before,
            after,
        ),
        _ => 0,
    }
}

/// Whether what was done so far in a batch keeps what is known.
pub open spec fn batch_goes_on<S: Fn(PointOffsetType) -> i64>(
    before: RankingView,
    scorer: S,
    after: RankingView,
) -> bool {
    &&& match (before, after) {
        (RankingView::Certificate(before), RankingView::Certificate(after)) => {
            &&& before.scores.len() == before.bounds.len()
            &&& learns_from(before, scorer, after)
        },
        (RankingView::Scan(points, _), RankingView::Scan(same, _)) => points == same,
        _ => false,
    }
    &&& forall|score: spec_fn(PointOffsetType) -> i64|
        #![trigger scores_exactly(scorer, score)]
        scores_exactly(scorer, score) && ranks_exactly(before, score) ==> ranks_exactly(
            after,
            score,
        )
}

proof fn lemma_learns_nothing<S: Fn(PointOffsetType) -> i64>(view: CertificateView, scorer: S)
    ensures
        learns_from(view, scorer, view),
{
}

/// One more step of a batch keeps what is known, and what it reports holds of the
/// ranking as the batch found it.
proof fn lemma_batch_goes_on<S: Fn(PointOffsetType) -> i64>(
    first: RankingView,
    before: RankingView,
    scorer: S,
    step: OperationResult<Option<ScoredPointOffset>>,
    after: RankingView,
)
    requires
        batch_goes_on(first, scorer, before),
        ranks_next(before, scorer, step, after),
    ensures
        batch_goes_on(first, scorer, after),
        step matches Err(error) ==> first matches RankingView::Certificate(certificate)
            && reports_violation(certificate, scorer, error),
        forall|score: spec_fn(PointOffsetType) -> i64|
            #![trigger scores_exactly(scorer, score)]
            scores_exactly(scorer, score) && ranks_exactly(first, score) ==> step is Ok,
{
    match (first, before, after) {
        (
            RankingView::Certificate(first),
            RankingView::Certificate(before),
            RankingView::Certificate(after),
        ) => {
            assert(learns_from(first, scorer, after)) by {
                crate::dense_certificate::lemma_refines_within(first, before, after);
                assert forall|slot: int| 0 <= slot < first.len() implies ((
                #[trigger] after.scores[slot]) matches Some(score)
                    ==> crate::dense_certificate::is_score_of(first, scorer, slot, score)) by {
                    let _ = before.scores[slot];
                }
            }
            if let Err(error) = step {
                crate::dense_certificate::lemma_violation_carries_over(
                    first,
                    before,
                    scorer,
                    error,
                );
            }
        },
        _ => {},
    }
}


/// What is wrong with an exact score that comes from elsewhere, given what a
/// certificate knows of its point.
pub open spec fn seed_violation(view: CertificateView, slot: int, score: i64) -> Option<Fault> {
    let id = view.bounds[slot].id;
    match view.scores[slot] {
        Some(known) => if known == score {
            None
        } else {
            Some(Fault::SeedChanged { id })
        },
        None => if score < view.bounds[slot].lower || score > view.bounds[slot].value {
            Some(Fault::SeedViolatesBound { id })
        } else {
            None
        },
    }
}

/// Whether a certificate has taken over the leading seeds: their points have the
/// seeded scores, all other points what they had, and `inserted` counts the new.
pub open spec fn takes_seeds(
    before: CertificateView,
    seeds: Seq<(PointOffsetType, i64)>,
    upto: int,
    inserted: nat,
    after: CertificateView,
) -> bool {
    &&& after == (CertificateView { scores: after.scores, ..before })
    &&& after.scores.len() == before.scores.len()
    &&& forall|slot: int|
        0 <= slot < before.len() ==> #[trigger] after.scores[slot] == (if seeds_point(
            seeds.take(upto),
            before.bounds[slot].id,
        ) {
            Some(seed_of(seeds.take(upto), before.bounds[slot].id))
        } else {
            before.scores[slot]
        })
    &&& inserted == new_seeds(before, seeds, upto)
}

/// How many of the leading seeds are of points without a known score.
pub open spec fn new_seeds(
    view: CertificateView,
    seeds: Seq<(PointOffsetType, i64)>,
    upto: int,
) -> nat
    decreases upto,
{
    if upto <= 0 {
        0
    } else {
        new_seeds(view, seeds, upto - 1) + if lacks_score(view, seeds[upto - 1].0) {
            1nat
        } else {
            0nat
        }
    }
}

/// Whether a certificate does not know the exact score of a point.
pub open spec fn lacks_score(view: CertificateView, id: PointOffsetType) -> bool {
    exists|slot: int|
        0 <= slot < view.len() && (#[trigger] view.bounds[slot]).id == id && view.scores[slot]
            is None
}

/// The seed of a point.
pub open spec fn seed_of(seeds: Seq<(PointOffsetType, i64)>, id: PointOffsetType) -> i64 {
    seeds[choose|i: int| 0 <= i < seeds.len() && (#[trigger] seeds[i]).0 == id].1
}

/// Whether every seed agrees with what a certificate knows.
pub open spec fn seeds_agree(view: CertificateView, seeds: Seq<(PointOffsetType, i64)>) -> bool {
    forall|i: int, slot: int|
        0 <= i < seeds.len() && 0 <= slot < view.len() && (#[trigger] view.bounds[slot]).id == (
        #[trigger] seeds[i]).0 ==> seed_violation(view, slot, seeds[i].1) is None
}

/// Whether every seed is the score that a scan has found.
pub open spec fn seeds_match(
    points: Seq<ScoredPointOffset>,
    seeds: Seq<(PointOffsetType, i64)>,
) -> bool {
    forall|i: int, place: int|
        0 <= i < seeds.len() && 0 <= place < points.len() && (#[trigger] points[place]).idx == (
        #[trigger] seeds[i]).0 ==> points[place].score == seeds[i].1
}

/// Seeds of which none names a point twice.
proof fn lemma_seeds_differ(
    seeds: Seq<(PointOffsetType, i64)>,
    eligible: spec_fn(PointOffsetType) -> bool,
    left: int,
    right: int,
)
    requires
        seed_fault(seeds, eligible) is None,
        0 <= left < right < seeds.len(),
    ensures
        seeds[left].0 != seeds[right].0,
    decreases seeds.len(),
{
    let shorter = seeds.drop_last();
    if right < shorter.len() {
        lemma_seeds_differ(shorter, eligible, left, right);
        assert(shorter[left] == seeds[left] && shorter[right] == seeds[right]);
    } else {
        assert(shorter[left] == seeds[left]);
        if seeds[left].0 == seeds[right].0 {
            assert(seeds_point(shorter, seeds.last().0));
        }
    }
}

impl DenseRanking {
    /// Checks seeds.
    fn check_seeds(&self, seeds: &Vec<(PointOffsetType, i64)>) -> (result: OperationResult<()>)
        requires
            self.wf(),
        ensures
            match seed_fault(seeds@, self.universe()) {
                Some(fault) => result == refused::<()>(fault),
                None => result == Ok::<(), OperationError>(()),
            },
    {
        broadcast use vstd::std_specs::hash::group_hash_axioms;

        let ghost eligible = self.universe();
        let mut unique: HashSet<u32> = HashSet::new();
        let mut i: usize = 0;
        assert(seeds@.take(0).len() == 0);
        while i < seeds.len()
            invariant
                self.wf(),
                eligible == self.universe(),
                i <= seeds@.len(),
                forall|id: u32| unique@.contains(id) <==> seeds_point(seeds@.take(i as int), id),
                seed_fault(seeds@.take(i as int), eligible) is None,
            decreases seeds@.len() - i,
        {
            broadcast use vstd::std_specs::hash::group_hash_axioms;

            let (id, score) = seeds[i];
            let ghost shorter = seeds@.take(i as int);
            let ghost longer = seeds@.take(i + 1);
            proof {
                assert(longer.drop_last() =~= shorter);
                assert(longer.last() == seeds@[i as int]);
            }
            if !unique.insert(id) {
                proof {
                    lemma_seed_fault_persists(seeds@, eligible, i + 1);
                }
                return refuse(Fault::DuplicateSeed { id });
            }
            if !is_finite_key(score) {
                proof {
                    lemma_seed_fault_persists(seeds@, eligible, i + 1);
                }
                return refuse(Fault::NonFiniteSeed { id });
            }
            if !self.eligible.contains(id) {
                proof {
                    assert(!eligible(id));
                    lemma_seed_fault_persists(seeds@, eligible, i + 1);
                }
                return refuse(Fault::IneligibleSeed { id });
            }
            proof {
                assert(eligible(id));
                assert(longer =~= shorter.push(seeds@[i as int]));
                assert forall|other: u32| unique@.contains(other) <==> seeds_point(
                    longer,
                    other,
                ) by {
                    if seeds_point(shorter, other) {
                        let k = choose|k: int|
                            0 <= k < shorter.len() && (#[trigger] shorter[k]).0 == other;
                        assert(longer[k].0 == other);
                    }
                    if other == id {
                        assert(longer[i as int].0 == other);
                    }
                    if seeds_point(longer, other) && other != id {
                        let k = choose|k: int|
                            0 <= k < longer.len() && (#[trigger] longer[k]).0 == other;
                        assert(shorter[k].0 == other);
                    }
                }
            }
            i += 1;
        }
        assert(seeds@.take(i as int) =~= seeds@);
        Ok(())
    }

    /// Takes over exact scores that were computed earlier for the same query.
    /// Every seed is held against what is known of its point before it counts. Scores
    /// are compared by their keys, which tell all numbers apart but not the sign of zero.
    pub fn seed_exact_scores(&mut self, seeds: &Vec<(PointOffsetType, i64)>) -> (result:
        OperationResult<usize>)
        requires
            old(self).wf(),
            old(self)@ !is Unscanned,
        ensures
            final(self).wf(),
            final(self).size() == old(self).size(),
            final(self).universe() == old(self).universe(),
            match seed_fault(seeds@, old(self).universe()) {
                Some(fault) => result == refused::<usize>(fault) && final(self)@ == old(self)@,
                None => match (old(self)@, final(self)@) {
                    (RankingView::Certificate(before), RankingView::Certificate(after)) => {
                        &&& result is Ok <==> seeds_agree(before, seeds@)
                        &&& result matches Ok(inserted) ==> takes_seeds(
                            before,
                            seeds@,
                            seeds@.len() as int,
                            inserted as nat,
                            after,
                        )
                        &&& result matches Err(error) ==> is_seed_violation(before, seeds@, error)
                        &&& forall|score: spec_fn(PointOffsetType) -> i64| #[trigger]
                            before.consistent(score) && are_seeds_exact(seeds@, score)
                                ==> after.consistent(score)
                    },
                    (RankingView::Scan(points, _), _) => {
                        &&& final(self)@ == old(self)@
                        &&& result is Ok <==> seeds_match(points, seeds@)
                        &&& result matches Ok(inserted) ==> inserted == 0
                        &&& result matches Err(error) ==> is_scan_violation(points, seeds@, error)
                    },
                    _ => false,
                },
            },
    {
        match self.check_seeds(seeds) {
            Ok(_) => {},
            Err(error) => {
                return Err(error);
            },
        }
        proof {
            lemma_seeds_are_eligible(seeds@, self.universe());
        }
        let ghost universe = self.universe();
        let result = match &mut self.inner {
            RankingInner::Certificate(certificate) => {
                proof {
                    assert forall|i: int| 0 <= i < seeds@.len() implies bound_ids(
                        certificate@.bounds,
                    ).contains((#[trigger] seeds@[i]).0) by {
                        assert(universe(seeds@[i].0));
                        assert(old(self).eligible.has(seeds@[i].0));
                    }
                    assert forall|left: int, right: int| 0 <= left < right < seeds@.len() implies (
                    #[trigger] seeds@[left]).0 != (#[trigger] seeds@[right]).0 by {
                        lemma_seeds_differ(seeds@, universe, left, right);
                    }
                }
                seed_certificate(certificate, seeds)
            },
            RankingInner::Scan(scan) => {
                proof {
                    assert forall|i: int| 0 <= i < seeds@.len() implies scan_holds(
                        scan.points(),
                        (#[trigger] seeds@[i]).0,
                    ) by {
                        assert(universe(seeds@[i].0));
                        assert(old(self).eligible.has(seeds@[i].0));
                    }
                }
                seed_scan(scan, seeds)
            },
            RankingInner::Unscanned => Ok(0),
        };
        proof {
            assert(self.universe() =~= old(self).universe());
        }
        result
    }
}

/// Whether seeds are exact scores.
pub open spec fn are_seeds_exact(
    seeds: Seq<(PointOffsetType, i64)>,
    score: spec_fn(PointOffsetType) -> i64,
) -> bool {
    forall|i: int| 0 <= i < seeds.len() ==> (#[trigger] seeds[i]).1 == score(seeds[i].0)
}

/// Whether an error names the first seed that is not the score that a scan has found.
pub open spec fn is_scan_violation(
    points: Seq<ScoredPointOffset>,
    seeds: Seq<(PointOffsetType, i64)>,
    error: OperationError,
) -> bool {
    exists|i: int|
        {
            &&& 0 <= i < seeds.len()
            &&& seeds_match(points, seeds.take(i))
            &&& !seeds_match(points, seeds.take(i + 1))
            &&& error == OperationError::InconsistentStorage(
                Fault::SeedChanged { id: (#[trigger] seeds[i]).0 },
            )
        }
}

/// Whether an error names the first seed that disagrees with what a certificate knows.
pub open spec fn is_seed_violation(
    view: CertificateView,
    seeds: Seq<(PointOffsetType, i64)>,
    error: OperationError,
) -> bool {
    exists|i: int, slot: int|
        {
            &&& 0 <= i < seeds.len()
            &&& seeds_agree(view, seeds.take(i))
            &&& 0 <= slot < view.len()
            &&& (#[trigger] view.bounds[slot]).id == (#[trigger] seeds[i]).0
            &&& seed_violation(view, slot, seeds[i].1) matches Some(fault)
            &&& error == OperationError::InconsistentStorage(fault)
        }
}

/// Holds seeds against a scan.
fn seed_scan(scan: &ExactScan, seeds: &Vec<(PointOffsetType, i64)>) -> (result: OperationResult<
    usize,
>)
    requires
        forall|i: int| 0 <= i < seeds@.len() ==> scan_holds(scan.points(), (#[trigger] seeds@[i]).0),
        distinct_scan(scan.points()),
    ensures
        result is Ok <==> seeds_match(scan.points(), seeds@),
        result matches Ok(inserted) ==> inserted == 0,
        result matches Err(error) ==> is_scan_violation(scan.points(), seeds@, error),
{
    let mut i: usize = 0;
    while i < seeds.len()
        invariant
            i <= seeds@.len(),
            forall|k: int|
                0 <= k < seeds@.len() ==> scan_holds(scan.points(), (#[trigger] seeds@[k]).0),
            distinct_scan(scan.points()),
            forall|k: int, place: int|
                0 <= k < i && 0 <= place < scan.points().len() && (
                #[trigger] scan.points()[place]).idx == (#[trigger] seeds@[k]).0
                    ==> scan.points()[place].score == seeds@[k].1,
        decreases seeds@.len() - i,
    {
        let (id, score) = seeds[i];
        assert(scan_holds(scan.points(), seeds@[i as int].0));
        let place: usize = match scan.place_of(id) {
            Some(place) => place,
            None => vstd::pervasive::unreached(),
        };
        if scan.point(place).score != score {
            proof {
                let longer = seeds@.take(i + 1);
                assert(longer[i as int] == seeds@[i as int]);
                assert(scan.points()[place as int].idx == longer[i as int].0);
                assert(!seeds_match(scan.points(), longer));
                assert(seeds_match(scan.points(), seeds@.take(i as int)));
                assert(scan.points()[place as int].idx == seeds@[i as int].0);
            }
            return inconsistency(Fault::SeedChanged { id });
        }
        proof {
            assert forall|k: int, other: int|
                0 <= k < i + 1 && 0 <= other < scan.points().len() && (
                #[trigger] scan.points()[other]).idx == (#[trigger] seeds@[k]).0 implies
                scan.points()[other].score == seeds@[k].1 by {
                if k == i {
                    if other < place {
                        assert(scan.points()[other].idx != scan.points()[place as int].idx);
                    } else if place < other {
                        assert(scan.points()[place as int].idx != scan.points()[other].idx);
                    }
                }
            }
        }
        i += 1;
    }
    Ok(0)
}

/// Holds seeds against a certificate and takes them over.
fn seed_certificate(
    certificate: &mut CertificateState,
    seeds: &Vec<(PointOffsetType, i64)>,
) -> (result: OperationResult<usize>)
    requires
        old(certificate).wf(),
        forall|i: int|
            0 <= i < seeds@.len() ==> bound_ids(old(certificate)@.bounds).contains(
                (#[trigger] seeds@[i]).0,
            ),
        forall|left: int, right: int|
            0 <= left < right < seeds@.len() ==> (#[trigger] seeds@[left]).0 != (
            #[trigger] seeds@[right]).0,
    ensures
        final(certificate).wf(),
        final(certificate)@.bounds == old(certificate)@.bounds,
        result is Ok <==> seeds_agree(old(certificate)@, seeds@),
        result matches Ok(inserted) ==> takes_seeds(
            old(certificate)@,
            seeds@,
            seeds@.len() as int,
            inserted as nat,
            final(certificate)@,
        ),
        result matches Err(error) ==> is_seed_violation(old(certificate)@, seeds@, error),
        forall|score: spec_fn(PointOffsetType) -> i64| #[trigger]
            old(certificate)@.consistent(score) && are_seeds_exact(seeds@, score) ==> final(certificate)@.consistent(score),
{
    let ghost before = certificate@;
    let mut inserted: usize = 0;
    let mut i: usize = 0;
    proof {
        certificate.lemma_valid();
        assert forall|slot: int| 0 <= slot < before.len() implies !seeds_point(
            seeds@.take(0),
            before.bounds[slot].id,
        ) by {
        }
    }
    while i < seeds.len()
        invariant
            certificate.wf(),
            before == old(certificate)@,
            before.valid(),
            i <= seeds@.len(),
            inserted <= i,
            forall|k: int|
                0 <= k < seeds@.len() ==> bound_ids(before.bounds).contains(
                    (#[trigger] seeds@[k]).0,
                ),
            forall|left: int, right: int|
                0 <= left < right < seeds@.len() ==> (#[trigger] seeds@[left]).0 != (
                #[trigger] seeds@[right]).0,
            takes_seeds(before, seeds@, i as int, inserted as nat, certificate@),
            seeds_agree(before, seeds@.take(i as int)),
        decreases seeds@.len() - i,
    {
        let (id, score) = seeds[i];
        let ghost now = certificate@;
        let ghost shorter = seeds@.take(i as int);
        let ghost longer = seeds@.take(i + 1);
        let slot: usize = match certificate.find(id) {
            Some(slot) => slot,
            None => {
                proof {
                    let ids = bound_ids(before.bounds);
                    assert(ids.contains(seeds@[i as int].0));
                    let k = choose|k: int| 0 <= k < ids.len() && ids[k] == seeds@[i as int].0;
                    assert(certificate@.bounds[k].id == id);
                }
                vstd::pervasive::unreached()
            },
        };
        proof {
            assert(!seeds_point(shorter, id)) by {
                if seeds_point(shorter, id) {
                    let k = choose|k: int|
                        0 <= k < shorter.len() && (#[trigger] shorter[k]).0 == id;
                    assert(seeds@[k].0 != seeds@[i as int].0);
                }
            }
            assert(now.scores[slot as int] == before.scores[slot as int]);
            assert(before.bounds[slot as int].id == seeds@[i as int].0);
        }
        proof {
            if lacks_score(before, id) {
                let other = choose|other: int|
                    0 <= other < before.len() && (#[trigger] before.bounds[other]).id == id
                        && before.scores[other] is None;
                if other < slot {
                    assert(before.bounds[other].id < before.bounds[slot as int].id);
                } else if slot < other {
                    assert(before.bounds[slot as int].id < before.bounds[other].id);
                }
            }
        }
        match certificate.seed(slot, score) {
            Ok(added) => {
                assert(added == lacks_score(before, id));
                if added {
                    inserted += 1;
                }
            },
            Err(error) => {
                proof {
                    lemma_seeding_is_consistent(before, seeds@, i as int, certificate@);
                }
                return Err(error);
            },
        }
        proof {
            assert forall|other: int| 0 <= other < before.len() implies
                #[trigger] certificate@.scores[other] == (if seeds_point(
                longer,
                before.bounds[other].id,
            ) {
                Some(seed_of(longer, before.bounds[other].id))
            } else {
                before.scores[other]
            }) by {
                let point = before.bounds[other].id;
                assert(longer =~= shorter.push(seeds@[i as int]));
                if other == slot {
                    assert(longer[i as int].0 == point);
                    assert(seeds_point(longer, point));
                    let k = choose|k: int| 0 <= k < longer.len() && (#[trigger] longer[k]).0 == point;
                    assert(k == i) by {
                        if k < i {
                            assert(seeds@[k].0 != seeds@[i as int].0);
                        }
                    }
                } else {
                    assert(point != id) by {
                        if other < slot {
                            assert(before.bounds[other].id < before.bounds[slot as int].id);
                        } else {
                            assert(before.bounds[slot as int].id < before.bounds[other].id);
                        }
                    }
                    assert(now.scores[other] == certificate@.scores[other]);
                    if seeds_point(longer, point) {
                        let k = choose|k: int|
                            0 <= k < longer.len() && (#[trigger] longer[k]).0 == point;
                        assert(k < i);
                        assert(shorter[k].0 == point);
                        assert(seeds_point(shorter, point));
                        let m = choose|m: int|
                            0 <= m < shorter.len() && (#[trigger] shorter[m]).0 == point;
                        assert(m == k) by {
                            if m < k {
                                assert(seeds@[m].0 != seeds@[k].0);
                            } else if k < m {
                                assert(seeds@[k].0 != seeds@[m].0);
                            }
                        }
                    } else {
                        assert(!seeds_point(shorter, point)) by {
                            if seeds_point(shorter, point) {
                                let m = choose|m: int|
                                    0 <= m < shorter.len() && (#[trigger] shorter[m]).0 == point;
                                assert(longer[m].0 == point);
                            }
                        }
                    }
                }
            }
            assert forall|k: int, other: int|
                0 <= k < longer.len() && 0 <= other < before.len() && (
                #[trigger] before.bounds[other]).id == (#[trigger] longer[k]).0 implies
                seed_violation(before, other, longer[k].1) is None by {
                if k < i {
                    assert(shorter[k] == longer[k]);
                } else {
                    assert(other == slot) by {
                        if other < slot {
                            assert(before.bounds[other].id < before.bounds[slot as int].id);
                        } else if slot < other {
                            assert(before.bounds[slot as int].id < before.bounds[other].id);
                        }
                    }
                }
            }
        }
        i += 1;
    }
    proof {
        assert(seeds@.take(i as int) =~= seeds@);
        lemma_seeding_is_consistent(before, seeds@, i as int, certificate@);
    }
    Ok(inserted)
}

/// Taking over exact seeds keeps what is known right.
proof fn lemma_seeding_is_consistent(
    before: CertificateView,
    seeds: Seq<(PointOffsetType, i64)>,
    upto: int,
    after: CertificateView,
)
    requires
        before.valid(),
        0 <= upto <= seeds.len(),
        exists|inserted: nat| takes_seeds(before, seeds, upto, inserted, after),
        seeds_agree(before, seeds.take(upto)),
    ensures
        forall|score: spec_fn(PointOffsetType) -> i64| #[trigger]
            before.consistent(score) && are_seeds_exact(seeds, score) ==> after.consistent(score),
{
    let leading = seeds.take(upto);
    assert forall|score: spec_fn(PointOffsetType) -> i64| #[trigger]
        before.consistent(score) && are_seeds_exact(seeds, score) implies after.consistent(
        score,
    ) by {
        assert forall|slot: int| 0 <= slot < after.len() && (#[trigger] after.scores[slot])
            is Some implies after.scores[slot] == Some(score(after.bounds[slot].id)) by {
            let id = before.bounds[slot].id;
            if seeds_point(leading, id) {
                let i = choose|i: int| 0 <= i < leading.len() && (#[trigger] leading[i]).0 == id;
                assert(seeds[i] == leading[i]);
            } else {
                assert(before.scores[slot] is Some);
            }
        }
        assert(before.extends(after)) by {
            assert forall|slot: int| 0 <= slot < before.len() && (#[trigger] before.scores[slot])
                is Some implies after.scores[slot] == before.scores[slot] by {
                let id = before.bounds[slot].id;
                let _ = after.scores[slot];
                if seeds_point(leading, id) {
                    let i = choose|i: int|
                        0 <= i < leading.len() && (#[trigger] leading[i]).0 == id;
                    assert(before.bounds[slot].id == leading[i].0);
                    assert(seed_violation(before, slot, leading[i].1) is None);
                }
            }
        }
        crate::dense_certificate::lemma_refining_is_consistent(before, after, score);
    }
}

} // verus!
