//! The dense stream of one segment.

use crate::dense_certificate::{
    fresh_certificate, raised, scores_all, PendingBound, PointOffsetType, ScoredPointOffset,
};
use crate::dense_cursor::{
    offset_keys, probe_fault, probes_certificate, scan_order, DenseExactRankProbe,
};
use crate::dense_plan::{Distance, QuantizedDescription, VectorStorageDatatype};
use crate::dense_ranking::{
    emitted, is_about, is_scan_probe, ranks_next, scores_learned, DenseRanking, RankingView,
};
use crate::exact_dense_stream::{
    dense_plan, one_more, prepare_dense, request_error, DenseExecutionPolicy, DensePhysicalPlan,
    DEFAULT_DENSE_SCALAR_MIN_POINTS,
};
use crate::offsets::{sorts_bounds, strictly_ascending, universe_fault};
use crate::operation_error::{
    inconsistent, refused, Fault, OperationError, OperationResult,
};
use vstd::prelude::*;

verus! {

/// A probed point with its exact score and its zero-based exact rank.
pub type NativeDenseExactRankProbe = DenseExactRankProbe;

/// How the dense stream of a segment is computed.
#[derive(Clone, Copy, Debug, Eq, PartialEq, Structural)]
pub enum NativeDensePlan {
    CompactCertificate,
    PerVectorScalarCertificate,
    ScalarCertificate,
    ExactScan,
}

/// What bounds the choice of a plan.
#[derive(Clone, Copy, Debug, Eq, PartialEq, Structural)]
pub struct NativeDensePolicy {
    pub scalar_min_points: usize,
    pub compact_max_points: usize,
    pub force_exact_scan: bool,
    /// A switch for comparisons; off in regular use.
    pub disable_per_vector_scalar_certificate: bool,
    /// A switch for comparisons; on in regular use.
    pub disable_compact_certificate: bool,
}

impl NativeDensePolicy {
    /// The regular policy, with the largest size of a compact certificate.
    pub fn with_compact_limit(compact_max_points: usize) -> (policy: NativeDensePolicy)
        ensures
            policy == (NativeDensePolicy {
                scalar_min_points: DEFAULT_DENSE_SCALAR_MIN_POINTS,
                compact_max_points,
                force_exact_scan: false,
                disable_per_vector_scalar_certificate: false,
                disable_compact_certificate: true,
            }),
    {
        NativeDensePolicy {
            scalar_min_points: DEFAULT_DENSE_SCALAR_MIN_POINTS,
            compact_max_points,
            force_exact_scan: false,
            disable_per_vector_scalar_certificate: false,
            disable_compact_certificate: true,
        }
    }

    /// The policy in the terms of the plans that it bounds.
    pub open spec fn bounds_plan(self) -> DenseExecutionPolicy {
        DenseExecutionPolicy {
            scalar_min_points: self.scalar_min_points,
            compact_max_points: self.compact_max_points,
            exact_prefix_max_dimension: 0,
            force_exact_scan: self.force_exact_scan,
            disable_per_vector_scalar_certificate: self.disable_per_vector_scalar_certificate,
            disable_compact_certificate: self.disable_compact_certificate,
        }
    }
}

/// The work of the dense stream of a segment.
#[derive(Clone, Copy, Debug, Eq, PartialEq, Structural)]
pub struct NativeDenseTelemetry {
    pub plan: Option<NativeDensePlan>,
    pub eligible_points: usize,
    pub native_quantized_scores: usize,
    pub exact_scores: usize,
    pub points_emitted: usize,
}

impl Default for NativeDenseTelemetry {
    fn default() -> (telemetry: NativeDenseTelemetry)
        ensures
            telemetry == no_native_work(),
    {
        NativeDenseTelemetry {
            plan: None,
            eligible_points: 0,
            native_quantized_scores: 0,
            exact_scores: 0,
            points_emitted: 0,
        }
    }
}

/// The telemetry of a stream that has done nothing.
pub open spec fn no_native_work() -> NativeDenseTelemetry {
    NativeDenseTelemetry {
        plan: None,
        eligible_points: 0,
        native_quantized_scores: 0,
        exact_scores: 0,
        points_emitted: 0,
    }
}

/// The plan of a segment's stream.
pub open spec fn native_plan(plan: DensePhysicalPlan) -> NativeDensePlan {
    match plan {
        DensePhysicalPlan::PerVectorScalarCertificate => NativeDensePlan::PerVectorScalarCertificate,
        DensePhysicalPlan::CompactCertificate => NativeDensePlan::CompactCertificate,
        DensePhysicalPlan::ScalarCertificate => NativeDensePlan::ScalarCertificate,
        _ => NativeDensePlan::ExactScan,
    }
}

/// The checked request of a segment's dense stream.
#[derive(Debug)]
pub struct NativeDenseRequest {
    pub eligible: Vec<PointOffsetType>,
    pub plan: NativeDensePlan,
}

/// Checks the request of a segment's dense stream and chooses its plan.
pub fn prepare_native(
    distance: Distance,
    datatype: VectorStorageDatatype,
    quantized: Option<QuantizedDescription>,
    eligible: &Vec<PointOffsetType>,
    query: &Vec<u32>,
    policy: NativeDensePolicy,
    stopped: bool,
) -> (result: OperationResult<NativeDenseRequest>)
    ensures
        match request_error(stopped, 1, query@, eligible@) {
            Some(error) => result == Err::<NativeDenseRequest, OperationError>(error),
            None => {
                &&& result matches Ok(request)
                &&& strictly_ascending(request.eligible@)
                &&& request.eligible@.len() == eligible@.len()
                &&& forall|id: u32| #[trigger]
                    request.eligible@.contains(id) <==> eligible@.contains(id)
                &&& request.plan == native_plan(
                    dense_plan(
                        distance,
                        datatype,
                        quantized,
                        request.eligible@,
                        query@.len() as usize,
                        policy.bounds_plan(),
                    ),
                )
            },
        },
{
    let bounds_plan = DenseExecutionPolicy {
        scalar_min_points: policy.scalar_min_points,
        compact_max_points: policy.compact_max_points,
        exact_prefix_max_dimension: 0,
        force_exact_scan: policy.force_exact_scan,
        disable_per_vector_scalar_certificate: policy.disable_per_vector_scalar_certificate,
        disable_compact_certificate: policy.disable_compact_certificate,
    };
    match prepare_dense(
        distance,
        datatype,
        quantized,
        eligible,
        query,
        bounds_plan,
        1,
        stopped,
    ) {
        Ok(request) => {
            let plan = match request.plan {
                DensePhysicalPlan::PerVectorScalarCertificate => {
                    NativeDensePlan::PerVectorScalarCertificate
                },
                DensePhysicalPlan::CompactCertificate => NativeDensePlan::CompactCertificate,
                DensePhysicalPlan::ScalarCertificate => NativeDensePlan::ScalarCertificate,
                _ => NativeDensePlan::ExactScan,
            };
            Ok(NativeDenseRequest { eligible: request.eligible, plan })
        },
        Err(error) => Err(error),
    }
}

/// A cursor over the dense ranking of a segment.
pub struct NativeDenseIndexCursor {
    ranking: DenseRanking,
    plan: NativeDensePlan,
    native_quantized_scores: usize,
    scanned_scores: usize,
    points_emitted: usize,
}

impl View for NativeDenseIndexCursor {
    type V = RankingView;

    closed spec fn view(&self) -> RankingView {
        self.ranking@
    }
}

/// Whether a result is the cursor under intervals, or what is wrong with them.
pub open spec fn is_native_certified(
    eligible: Seq<PointOffsetType>,
    bounds: Seq<PendingBound>,
    plan: NativeDensePlan,
    native_quantized_scores: usize,
    result: OperationResult<NativeDenseIndexCursor>,
) -> bool {
    match universe_fault(eligible, bounds) {
        Some(fault) => result == inconsistent::<NativeDenseIndexCursor>(fault),
        None => {
            &&& result matches Ok(cursor)
            &&& cursor.wf()
            &&& forall|id: u32| #[trigger] cursor.universe()(id) <==> eligible.contains(id)
            &&& cursor@ matches RankingView::Certificate(certificate)
            &&& sorts_bounds(bounds, certificate.bounds)
            &&& certificate == fresh_certificate(certificate.bounds, 1, false)
            &&& cursor.report() == (NativeDenseTelemetry {
                plan: Some(plan),
                eligible_points: eligible.len() as usize,
                native_quantized_scores,
                ..no_native_work()
            })
        },
    }
}

/// Whether a result is the cursor over exact scores, or what is wrong with its points.
pub open spec fn is_native_scan(
    eligible: Seq<PointOffsetType>,
    scores: Seq<i64>,
    result: OperationResult<NativeDenseIndexCursor>,
) -> bool {
    if !eligible.no_duplicates() {
        result == inconsistent::<NativeDenseIndexCursor>(Fault::DuplicateEligible)
    } else {
        &&& result matches Ok(cursor)
        &&& cursor.wf()
        &&& cursor@ == RankingView::Scan(scan_order(eligible, scores), 0)
        &&& forall|id: u32| #[trigger] cursor.universe()(id) <==> eligible.contains(id)
        &&& cursor.report() == (NativeDenseTelemetry {
            plan: Some(NativeDensePlan::ExactScan),
            eligible_points: eligible.len() as usize,
            exact_scores: eligible.len() as usize,
            ..no_native_work()
        })
    }
}

impl NativeDenseIndexCursor {
    /// Whether the parts belong together.
    pub closed spec fn wf(&self) -> bool {
        self.ranking.wf() && self.ranking@ !is Unscanned
    }

    /// What holds of every cursor.
    pub proof fn lemma_valid(&self)
        requires
            self.wf(),
        ensures
            match self@ {
                RankingView::Certificate(certificate) => certificate.valid() && certificate.len()
                    <= usize::MAX,
                RankingView::Scan(points, position) => 0 <= position <= points.len(),
                RankingView::Unscanned => false,
            },
    {
        self.ranking.lemma_valid();
    }

    /// The points that are ranked.
    pub closed spec fn universe(&self) -> spec_fn(PointOffsetType) -> bool {
        self.ranking.universe()
    }

    /// What holds of every cursor: what it knows is about the points that it ranks.
    pub proof fn lemma_is_about(&self)
        requires
            self.wf(),
        ensures
            is_about(self@, self.universe()),
    {
        self.ranking.lemma_is_about();
    }

    /// What the cursor reports.
    pub closed spec fn report(&self) -> NativeDenseTelemetry {
        NativeDenseTelemetry {
            plan: Some(self.plan),
            eligible_points: self.ranking.size() as usize,
            native_quantized_scores: self.native_quantized_scores,
            exact_scores: self.scanned_scores.saturating_add(
                match self.ranking@ {
                    RankingView::Certificate(certificate) => certificate.computed,
                    _ => 0usize,
                },
            ),
            points_emitted: self.points_emitted,
        }
    }

    /// A cursor under certified intervals.
    pub fn from_certificate_bounds(
        eligible: Vec<PointOffsetType>,
        bounds: Vec<PendingBound>,
        plan: NativeDensePlan,
        native_quantized_scores: usize,
    ) -> (result: OperationResult<NativeDenseIndexCursor>)
        ensures
            is_native_certified(eligible@, bounds@, plan, native_quantized_scores, result),
    {
        let ranking = match DenseRanking::certified(eligible, bounds, 1, false) {
            Ok(ranking) => ranking,
            Err(error) => {
                return Err(error);
            },
        };
        let cursor = NativeDenseIndexCursor {
            ranking,
            plan,
            native_quantized_scores,
            scanned_scores: 0,
            points_emitted: 0,
        };
        proof {
            assert forall|id: u32| #[trigger] cursor.universe()(id) <==> eligible@.contains(id) by {
                assert(ranking.ranks(id) <==> eligible@.contains(id));
            }
        }
        Ok(cursor)
    }

    /// A cursor over the exact scores of all eligible points.
    pub fn from_exact_scores(eligible: Vec<PointOffsetType>, scores: &Vec<i64>) -> (result:
        OperationResult<NativeDenseIndexCursor>)
        requires
            eligible@.len() == scores@.len(),
        ensures
            is_native_scan(eligible@, scores@, result),
    {
        let count: usize = eligible.len();
        let ranking = match DenseRanking::scanned(eligible, scores) {
            Ok(ranking) => ranking,
            Err(error) => {
                return Err(error);
            },
        };
        let cursor = NativeDenseIndexCursor {
            ranking,
            plan: NativeDensePlan::ExactScan,
            native_quantized_scores: 0,
            scanned_scores: count,
            points_emitted: 0,
        };
        proof {
            assert forall|id: u32| #[trigger] cursor.universe()(id) <==> eligible@.contains(id) by {
                assert(ranking.ranks(id) <==> eligible@.contains(id));
            }
        }
        Ok(cursor)
    }

    /// The next point in exact order, once it is certain.
    pub fn next_result<S: Fn(PointOffsetType) -> i64>(&mut self, scorer: &S) -> (result:
        OperationResult<Option<ScoredPointOffset>>)
        requires
            old(self).wf(),
            scores_all(*scorer),
        ensures
            final(self).wf(),
            final(self).universe() == old(self).universe(),
            ranks_next(old(self)@, *scorer, result, final(self)@),
            result matches Ok(Some(point)) ==> emitted(final(self)@) == emitted(old(self)@).push(
                point,
            ),
            final(self).report() == (NativeDenseTelemetry {
                exact_scores: raised(
                    old(self).report().exact_scores,
                    scores_learned(old(self)@, final(self)@),
                ),
                points_emitted: if result is Ok && result->Ok_0 is Some {
                    one_more(old(self).report().points_emitted)
                } else {
                    old(self).report().points_emitted
                },
                ..old(self).report()
            }),
    {
        let result = self.ranking.next(scorer);
        match &result {
            Ok(Some(_)) => {
                self.points_emitted = self.points_emitted.saturating_add(1);
            },
            _ => {},
        }
        result
    }

    /// The exact scores and ranks of eligible points. Intervals were computed
    /// once; a probe scores only points that can stand before a target without
    /// being certain to, and every score is kept for the stream.
    pub fn probe_exact_ranks<S: Fn(PointOffsetType) -> i64>(
        &mut self,
        ids: &Vec<PointOffsetType>,
        scorer: &S,
    ) -> (result: OperationResult<Vec<NativeDenseExactRankProbe>>)
        requires
            old(self).wf(),
            scores_all(*scorer),
        ensures
            final(self).wf(),
            final(self).universe() == old(self).universe(),
            final(self).report() == (NativeDenseTelemetry {
                exact_scores: raised(
                    old(self).report().exact_scores,
                    scores_learned(old(self)@, final(self)@),
                ),
                ..old(self).report()
            }),
            match probe_fault(ids@, old(self).universe()) {
                Some(fault) => result == refused::<Vec<NativeDenseExactRankProbe>>(fault)
                    && final(self)@ == old(self)@,
                None => match (old(self)@, final(self)@) {
                    (
                        RankingView::Certificate(before),
                        RankingView::Certificate(after),
                    ) => probes_certificate(
                        before,
                        ids@,
                        offset_keys(before.bounds),
                        *scorer,
                        result,
                        after,
                    ),
                    (RankingView::Scan(points, _), _) => {
                        &&& final(self)@ == old(self)@
                        &&& result matches Ok(probes)
                        &&& probes@.len() == ids@.len()
                        &&& forall|i: int|
                            0 <= i < ids@.len() ==> is_scan_probe(
                                points,
                                ids@[i],
                                #[trigger] probes@[i],
                            )
                    },
                    _ => false,
                },
            },
    {
        self.ranking.probe_exact_ranks(ids, scorer)
    }

    /// What the cursor has done.
    pub fn telemetry(&self) -> (telemetry: NativeDenseTelemetry)
        ensures
            telemetry == self.report(),
    {
        NativeDenseTelemetry {
            plan: Some(self.plan),
            eligible_points: self.ranking.len(),
            native_quantized_scores: self.native_quantized_scores,
            exact_scores: self.scanned_scores.saturating_add(self.ranking.computed()),
            points_emitted: self.points_emitted,
        }
    }
}

} // verus!
