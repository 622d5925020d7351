//! Dense cursors yield exact rankings.

use crate::dense_certificate::{
    exactly_before, held_count, law_emission_is_exact_order, lemma_fewer_held, scores_all,
    scores_exactly, CertificateView, Phase, PointOffsetType, ScoredPointOffset,
};
use crate::dense_cursor::{law_scan_order_is_exact, scan_order};
use crate::dense_ranking::{
    distinct_scan, emitted, lemma_scan_holds, ranks_exactly, ranks_next, RankingView,
};
use crate::native_dense_stream::NativeDenseIndexCursor;
use crate::offsets::bound_ids;
use crate::operation_error::{OperationError, OperationResult};
use crate::order::ranks_before;
use crate::segment_search::PointCursor;
use vstd::prelude::*;

verus! {

/// The scores of points.
pub open spec fn scores_of(
    ids: Seq<PointOffsetType>,
    score: spec_fn(PointOffsetType) -> i64,
) -> Seq<i64> {
    Seq::new(ids.len(), |i: int| score(ids[i]))
}

/// The points of a list by their exact scores: the highest first, equal scores by
/// ascending point.
pub open spec fn exact_ranking(
    ids: Seq<PointOffsetType>,
    score: spec_fn(PointOffsetType) -> i64,
) -> Seq<ScoredPointOffset> {
    scan_order(ids, scores_of(ids, score))
}

/// What a certificate has emitted is the beginning of the exact ranking of its points;
/// once none is left, it is the whole of it.
pub proof fn law_emission_is_the_exact_ranking(
    view: CertificateView,
    score: spec_fn(PointOffsetType) -> i64,
)
    requires
        view.valid(),
        view.len() <= usize::MAX,
        view.consistent(score),
    ensures
        view.emitted.len() <= view.len(),
        exact_ranking(bound_ids(view.bounds), score).len() == view.len(),
        view.emitted == exact_ranking(bound_ids(view.bounds), score).take(
            view.emitted.len() as int,
        ),
        (forall|slot: int|
            0 <= slot < view.len() ==> #[trigger] view.phases[slot] != Phase::Pending
                && view.phases[slot] != Phase::Refined) ==> view.emitted.len() == view.len(),
{
    let ids = bound_ids(view.bounds);
    let scores = scores_of(ids, score);
    let order = exact_ranking(ids, score);
    law_scan_order_is_exact(ids, scores);
    assert(ids.no_duplicates()) by {
        assert forall|left: int, right: int|
            0 <= left < ids.len() && 0 <= right < ids.len() && left != right implies ids[left]
            != ids[right] by {
            if left < right {
                assert(view.bounds[left].id < view.bounds[right].id);
            } else {
                assert(view.bounds[right].id < view.bounds[left].id);
            }
        }
    }
    lemma_scan_holds(ids, scores);
    assert forall|place: int| 0 <= place < order.len() implies (#[trigger] order[place]).score
        == score(order[place].idx) by {
        assert(crate::dense_cursor::is_scored(ids, scores, order[place]));
    }
    lemma_leading_emissions(view, score, view.emitted.len() as int);
    assert(view.emitted =~= order.take(view.emitted.len() as int));
    if view.emitted.len() < view.len() {
        let next = order[view.emitted.len() as int];
        assert(crate::dense_cursor::is_scored(ids, scores, next));
        let slot = choose|slot: int| 0 <= slot < ids.len() && ids[slot] == next.idx;
        if forall|slot: int|
            0 <= slot < view.len() ==> #[trigger] view.phases[slot] != Phase::Pending
                && view.phases[slot] != Phase::Refined {
            assert(view.phases[slot] == Phase::Emitted);
            let place = choose|place: int|
                0 <= place < view.emitted.len() && (#[trigger] view.emitted[place]).idx
                    == view.bounds[slot].id;
            assert(order[place].idx == next.idx);
        }
    }
}

/// The leading emissions are the leading points of the exact ranking.
proof fn lemma_leading_emissions(
    view: CertificateView,
    score: spec_fn(PointOffsetType) -> i64,
    upto: int,
)
    requires
        view.valid(),
        view.len() <= usize::MAX,
        view.consistent(score),
        0 <= upto <= view.emitted.len(),
        ({
            let ids = bound_ids(view.bounds);
            let order = exact_ranking(ids, score);
            &&& distinct_scan(order)
            &&& crate::dense_cursor::is_exact_order(order)
            &&& order.len() == ids.len()
            &&& forall|place: int|
                0 <= place < order.len() ==> (#[trigger] order[place]).score == score(
                    order[place].idx,
                )
        }),
    ensures
        upto <= view.len(),
        forall|place: int|
            0 <= place < upto ==> #[trigger] view.emitted[place] == exact_ranking(
                bound_ids(view.bounds),
                score,
            )[place],
    decreases upto,
{
    if upto > 0 {
        lemma_leading_emissions(view, score, upto - 1);
        let ids = bound_ids(view.bounds);
        let scores = scores_of(ids, score);
        let order = exact_ranking(ids, score);
        law_scan_order_is_exact(ids, scores);
        let last = upto - 1;
        let point = view.emitted[last];
        assert(view.has_emitted(point.idx));
        let slot = choose|slot: int|
            0 <= slot < view.len() && (#[trigger] view.bounds[slot]).id == point.idx
                && view.phases[slot] == Phase::Emitted;
        assert(ids[slot] == point.idx);
        assert(order.contains(ScoredPointOffset { idx: ids[slot], score: scores[slot] }));
        let at = choose|at: int| 0 <= at < order.len() && order[at] == point;
        assert forall|earlier: int| 0 <= earlier < last implies (#[trigger] view.emitted[earlier]).idx
            != point.idx by {
            assert(exactly_before(score, view.emitted[earlier].idx, view.emitted[last].idx));
        }
        if at < last {
            assert(view.emitted[at] == order[at]);
        }
        if at > last {
            let other = order[last];
            assert(crate::dense_cursor::is_scored(ids, scores, other));
            let place = choose|place: int| 0 <= place < ids.len() && ids[place] == other.idx;
            law_emission_is_exact_order(view, score, last);
            assert(view.bounds[place].id == other.idx);
            if exists|earlier: int|
                0 <= earlier <= last && (#[trigger] view.emitted[earlier]).idx == other.idx {
                let earlier = choose|earlier: int|
                    0 <= earlier <= last && (#[trigger] view.emitted[earlier]).idx == other.idx;
                if earlier < last {
                    assert(order[earlier].idx == order[last].idx);
                } else {
                    assert(order[at].idx == order[last].idx);
                }
            } else {
                assert(exactly_before(score, point.idx, other.idx));
                assert(!ranks_before(
                    order[at].score,
                    crate::dense_certificate::offset_id(order[at].idx),
                    order[last].score,
                    crate::dense_certificate::offset_id(order[last].idx),
                ));
            }
        }
    }
}

/// The ranking that a view is about.
pub open spec fn ranking_of(
    view: RankingView,
    score: spec_fn(PointOffsetType) -> i64,
) -> Seq<ScoredPointOffset> {
    match view {
        RankingView::Certificate(certificate) => exact_ranking(
            bound_ids(certificate.bounds),
            score,
        ),
        RankingView::Scan(points, _) => points,
        RankingView::Unscanned => Seq::empty(),
    }
}

/// What is left of the ranking that a view is about.
pub open spec fn ranking_left(
    view: RankingView,
    score: spec_fn(PointOffsetType) -> i64,
) -> Seq<ScoredPointOffset> {
    ranking_of(view, score).skip(emitted(view).len() as int)
}

/// A dense cursor with the scorer that refines it.
pub struct ScoredCursor<S: Fn(PointOffsetType) -> i64> {
    cursor: Option<NativeDenseIndexCursor>,
    scorer: S,
}

impl<S: Fn(PointOffsetType) -> i64> ScoredCursor<S> {
    #[verifier::type_invariant]
    closed spec fn sound(&self) -> bool {
        &&& scores_all(self.scorer)
        &&& self.cursor matches Some(cursor) ==> cursor.wf()
    }

    /// Whether the cursor will yield the given points: what is left of the ranking by exact
    /// scores that its scorer returns and its evidence agrees with.
    pub closed spec fn yields(&self, points: Seq<ScoredPointOffset>) -> bool {
        self.cursor matches Some(cursor) && exists|score: spec_fn(PointOffsetType) -> i64|
            is_truth(cursor, self.scorer, score) && points == #[trigger] ranking_left(
                cursor@,
                score,
            )
    }

    /// The cursor that is refined.
    pub closed spec fn cursor(&self) -> Option<NativeDenseIndexCursor> {
        self.cursor
    }

    /// A cursor with its scorer. Where the scorer returns exact scores and the evidence
    /// of the cursor agrees with them, it yields the rest of the exact ranking.
    pub fn new(cursor: NativeDenseIndexCursor, scorer: S) -> (scored: ScoredCursor<S>)
        requires
            cursor.wf(),
            scores_all(scorer),
        ensures
            scored.cursor() == Some(cursor),
            forall|score: spec_fn(PointOffsetType) -> i64|
                #![trigger ranking_left(cursor@, score)]
                is_truth(cursor, scorer, score) ==> scored.yields(ranking_left(cursor@, score)),
    {
        ScoredCursor { cursor: Some(cursor), scorer }
    }
}

/// Whether a scorer returns no other scores than the given ones, and the evidence of a
/// cursor agrees with them.
pub open spec fn is_truth<S: Fn(PointOffsetType) -> i64>(
    cursor: NativeDenseIndexCursor,
    scorer: S,
    score: spec_fn(PointOffsetType) -> i64,
) -> bool {
    scores_exactly(scorer, score) && ranks_exactly(cursor@, score)
}

/// How many points a ranking holds that were not emitted.
pub open spec fn points_left(view: RankingView) -> nat {
    match view {
        RankingView::Certificate(certificate) => held_count(
            certificate.phases,
            certificate.phases.len() as int,
        ),
        RankingView::Scan(points, position) => (points.len() - position) as nat,
        RankingView::Unscanned => 0,
    }
}

/// One step of a ranking leaves no more points, and fewer where it yields one.
proof fn lemma_step_leaves_less<S: Fn(PointOffsetType) -> i64>(
    before: NativeDenseIndexCursor,
    after: NativeDenseIndexCursor,
    scorer: S,
    result: OperationResult<Option<ScoredPointOffset>>,
)
    requires
        before.wf(),
        after.wf(),
        ranks_next(before@, scorer, result, after@),
    ensures
        points_left(after@) <= points_left(before@),
        result matches Ok(Some(_)) ==> points_left(after@) < points_left(before@),
{
    before.lemma_valid();
    after.lemma_valid();
    match (before@, after@) {
        (RankingView::Certificate(earlier), RankingView::Certificate(later)) => {
            lemma_fewer_held(earlier.phases, later.phases, earlier.phases.len() as int);
            if result matches Ok(Some(_)) {
                let slot = choose|slot: int|
                    #[trigger] later.certifies(slot) && earlier.phases[slot] != Phase::Emitted
                        && later.phases[slot] == Phase::Emitted;
                assert(earlier.phases[slot] != Phase::Emitted);
            }
        },
        _ => {},
    }
}

/// One step of a right ranking yields the next point of what is left, or ends where
/// nothing is left.
proof fn lemma_step_is_exact<S: Fn(PointOffsetType) -> i64>(
    before: NativeDenseIndexCursor,
    after: NativeDenseIndexCursor,
    scorer: S,
    score: spec_fn(PointOffsetType) -> i64,
    result: OperationResult<Option<ScoredPointOffset>>,
)
    requires
        before.wf(),
        after.wf(),
        scores_exactly(scorer, score),
        ranks_exactly(before@, score),
        ranks_next(before@, scorer, result, after@),
        result matches Ok(Some(point)) ==> emitted(after@) == emitted(before@).push(point),
    ensures
        ranks_exactly(after@, score),
        ({
            let left = ranking_left(before@, score);
            if left.len() == 0 {
                result == Ok::<Option<ScoredPointOffset>, OperationError>(None) && ranking_left(
                    after@,
                    score,
                ) == left
            } else {
                result == Ok::<Option<ScoredPointOffset>, OperationError>(Some(left[0]))
                    && ranking_left(after@, score) == left.drop_first()
            }
        }),
{
    before.lemma_valid();
    after.lemma_valid();
    let left = ranking_left(before@, score);
    match (before@, after@) {
        (RankingView::Certificate(earlier), RankingView::Certificate(later)) => {
            law_emission_is_the_exact_ranking(earlier, score);
            law_emission_is_the_exact_ranking(later, score);
            assert(later.bounds == earlier.bounds);
            let order = exact_ranking(bound_ids(earlier.bounds), score);
            match result {
                Ok(Some(point)) => {
                    let count = earlier.emitted.len() as int;
                    assert(later.emitted[count] == point);
                    assert(order[count] == point);
                    assert(left[0] == point);
                    assert(ranking_left(after@, score) =~= left.drop_first());
                },
                _ => {
                    assert(ranking_left(after@, score) =~= left);
                },
            }
        },
        (RankingView::Scan(points, position), _) => {
            if position < points.len() {
                assert(left[0] == points[position]);
                assert(ranking_left(after@, score) =~= left.drop_first());
            } else {
                assert(ranking_left(after@, score) =~= left);
            }
        },
        _ => {},
    }
}

impl<S: Fn(PointOffsetType) -> i64> PointCursor for ScoredCursor<S> {
    open spec fn leads(
        &self,
        points: Seq<ScoredPointOffset>,
        failure: Option<OperationError>,
    ) -> bool {
        failure is None && self.yields(points)
    }

    closed spec fn remains(&self) -> nat {
        match self.cursor {
            Some(cursor) => points_left(cursor@),
            None => 0,
        }
    }

    fn next(&mut self) -> (result: OperationResult<Option<ScoredPointOffset>>) {
        proof {
            use_type_invariant(&*self);
        }
        let mut taken: Option<NativeDenseIndexCursor> = None;
        std::mem::swap(&mut self.cursor, &mut taken);
        match taken {
            Some(cursor) => {
                let mut cursor = cursor;
                let ghost before = cursor;
                let result = cursor.next_result(&self.scorer);
                let ghost later = cursor;
                self.cursor = Some(cursor);
                proof {
                    lemma_step_leaves_less(before, later, self.scorer, result);
                    assert forall|points: Seq<ScoredPointOffset>| #[trigger]
                        old(self).yields(points) implies (if points.len() > 0 {
                        &&& result == Ok::<Option<ScoredPointOffset>, OperationError>(
                            Some(points[0]),
                        )
                        &&& self.yields(points.drop_first())
                    } else {
                        &&& result == Ok::<Option<ScoredPointOffset>, OperationError>(None)
                        &&& self.yields(points)
                    }) by {
                        let score = choose|score: spec_fn(PointOffsetType) -> i64|
                            is_truth(before, self.scorer, score) && points
                                == #[trigger] ranking_left(before@, score);
                        lemma_step_is_exact(before, later, self.scorer, score, result);
                        assert(is_truth(later, self.scorer, score));
                        let _ = ranking_left(later@, score);
                    }
                }
                result
            },
            None => Ok(None),
        }
    }
}

} // verus!
