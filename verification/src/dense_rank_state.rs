//! The state of an exact dense ranking that outlives the readers that advance it.

use crate::dense_certificate::{
    fresh_certificate, raised, scores_all, PendingBound, PointOffsetType, ScoredPointOffset,
};
use crate::dense_cursor::scan_order;
use crate::dense_plan::{
    all_below, are_below, has_inner_product, is_finite_vector, is_inner_product, Distance,
    QuantizedDescription, VectorStorageDatatype,
};
use crate::dense_ranking::{
    all_finite, are_exact_scores, is_about, is_contiguous, ranks_batch, scores_learned,
    DenseRanking, RankingView,
};
use crate::offsets::{sorted_unique, sorts_bounds, strictly_ascending, universe_fault};
use crate::operation_error::{
    inconsistency, inconsistent, refuse, refused, Fault, OperationError, OperationResult,
};
use vstd::prelude::*;

verus! {

/// The fewest eligible points for which a certificate is worth its cost.
pub const DEFAULT_DENSE_SCALAR_MIN_POINTS: usize = 4_096;

/// How a dense ranking is computed.
#[derive(Clone, Copy, Debug, Eq, PartialEq, Structural)]
pub enum DensePhysicalPlan {
    ScalarCertificate,
    PerVectorScalarCertificate,
    ExactScan,
}

/// What bounds the choice of a plan.
#[derive(Clone, Copy, Debug, Eq, PartialEq, Structural)]
pub struct DenseExecutionPolicy {
    pub scalar_min_points: usize,
    pub force_exact_scan: bool,
}

impl Default for DenseExecutionPolicy {
    fn default() -> (policy: DenseExecutionPolicy)
        ensures
            policy == (DenseExecutionPolicy {
                scalar_min_points: DEFAULT_DENSE_SCALAR_MIN_POINTS,
                force_exact_scan: false,
            }),
    {
        DenseExecutionPolicy {
            scalar_min_points: DEFAULT_DENSE_SCALAR_MIN_POINTS,
            force_exact_scan: false,
        }
    }
}

/// The work of a dense ranking.
#[derive(Clone, Copy, Debug, Eq, PartialEq, Structural)]
pub struct DenseExecutionTelemetry {
    pub plan: Option<DensePhysicalPlan>,
    pub eligible_points: usize,
    pub accepted_prefix_points: usize,
    pub quantized_scores: usize,
    pub exact_scores: usize,
    pub points_emitted: usize,
}

impl Default for DenseExecutionTelemetry {
    fn default() -> (telemetry: DenseExecutionTelemetry)
        ensures
            telemetry == no_rank_work(),
    {
        DenseExecutionTelemetry {
            plan: None,
            eligible_points: 0,
            accepted_prefix_points: 0,
            quantized_scores: 0,
            exact_scores: 0,
            points_emitted: 0,
        }
    }
}

/// The telemetry of a ranking that has done nothing.
pub open spec fn no_rank_work() -> DenseExecutionTelemetry {
    DenseExecutionTelemetry {
        plan: None,
        eligible_points: 0,
        accepted_prefix_points: 0,
        quantized_scores: 0,
        exact_scores: 0,
        points_emitted: 0,
    }
}

/// The plan for a dense ranking.
pub open spec fn rank_plan(
    distance: Distance,
    datatype: VectorStorageDatatype,
    quantized: Option<QuantizedDescription>,
    eligible: Seq<u32>,
    policy: DenseExecutionPolicy,
) -> DensePhysicalPlan {
    if policy.force_exact_scan || eligible.len() < policy.scalar_min_points || !is_inner_product(
        distance,
    ) {
        DensePhysicalPlan::ExactScan
    } else {
        match quantized {
            None => DensePhysicalPlan::ExactScan,
            Some(quantized) => if datatype == VectorStorageDatatype::Float32
                && quantized.per_vector_scalar {
                DensePhysicalPlan::PerVectorScalarCertificate
            } else if is_inner_product(quantized.distance) && quantized.datatype
                == VectorStorageDatatype::Float32 && (quantized.reconstruction_rows matches Some(
                rows,
            ) && all_below(eligible, rows)) {
                DensePhysicalPlan::ScalarCertificate
            } else {
                DensePhysicalPlan::ExactScan
            },
        }
    }
}

/// Chooses the plan for a dense ranking.
pub fn select_dense_plan(
    distance: Distance,
    datatype: VectorStorageDatatype,
    quantized: Option<QuantizedDescription>,
    eligible: &Vec<u32>,
    policy: DenseExecutionPolicy,
) -> (plan: DensePhysicalPlan)
    ensures
        plan == rank_plan(distance, datatype, quantized, eligible@, policy),
{
    if policy.force_exact_scan || eligible.len() < policy.scalar_min_points || !has_inner_product(
        distance,
    ) {
        return DensePhysicalPlan::ExactScan;
    }
    match quantized {
        None => DensePhysicalPlan::ExactScan,
        Some(quantized) => {
            if datatype == VectorStorageDatatype::Float32 && quantized.per_vector_scalar {
                return DensePhysicalPlan::PerVectorScalarCertificate;
            }
            if has_inner_product(quantized.distance) && quantized.datatype
                == VectorStorageDatatype::Float32 {
                match quantized.reconstruction_rows {
                    Some(rows) => {
                        if are_below(eligible, rows) {
                            return DensePhysicalPlan::ScalarCertificate;
                        }
                    },
                    None => {},
                }
            }
            DensePhysicalPlan::ExactScan
        },
    }
}

/// The state of an exact dense ranking.
///
/// It owns the certificate and every exact score, so that it can be moved between
/// workers; a scorer is needed only while a batch is advanced.
pub struct DenseRankState {
    ranking: DenseRanking,
    plan: DensePhysicalPlan,
    quantized_scores: usize,
    scanned_scores: usize,
    points_emitted: usize,
}

impl View for DenseRankState {
    type V = RankingView;

    closed spec fn view(&self) -> RankingView {
        self.ranking@
    }
}

impl DenseRankState {
    /// Whether the parts belong together.
    pub closed spec fn wf(&self) -> bool {
        self.ranking.wf()
    }

    /// The points that are ranked.
    pub closed spec fn universe(&self) -> spec_fn(PointOffsetType) -> bool {
        self.ranking.universe()
    }

    /// What holds of every state: what it knows is about the points that it ranks.
    pub proof fn lemma_is_about(&self)
        requires
            self.wf(),
        ensures
            is_about(self@, self.universe()),
    {
        self.ranking.lemma_is_about();
    }

    /// What the state reports.
    pub closed spec fn report(&self) -> DenseExecutionTelemetry {
        DenseExecutionTelemetry {
            plan: Some(self.plan),
            eligible_points: self.ranking.size() as usize,
            accepted_prefix_points: 0,
            quantized_scores: self.quantized_scores,
            exact_scores: self.scanned_scores.saturating_add(
                match self.ranking@ {
                    RankingView::Certificate(certificate) => certificate.computed,
                    _ => 0usize,
                },
            ),
            points_emitted: self.points_emitted,
        }
    }

    /// A state under certified intervals.
    pub fn from_certificate_bounds_batched(
        eligible: Vec<PointOffsetType>,
        bounds: Vec<PendingBound>,
        exact_refine_batch: usize,
        plan: DensePhysicalPlan,
        quantized_scores: usize,
    ) -> (result: OperationResult<DenseRankState>)
        ensures
            is_certified_state(
                eligible@,
                bounds@,
                exact_refine_batch,
                plan,
                quantized_scores,
                result,
            ),
    {
        let ranking = match DenseRanking::certified(eligible, bounds, exact_refine_batch, true) {
            Ok(ranking) => ranking,
            Err(error) => {
                return Err(error);
            },
        };
        let state = DenseRankState {
            ranking,
            plan,
            quantized_scores,
            scanned_scores: 0,
            points_emitted: 0,
        };
        proof {
            assert forall|id: u32| #[trigger] state.universe()(id) <==> eligible@.contains(id) by {
                assert(ranking.ranks(id) <==> eligible@.contains(id));
            }
        }
        Ok(state)
    }

    /// A state under certified intervals of all points below a count.
    pub fn from_contiguous_pending_batched(
        point_count: usize,
        pending: Vec<PendingBound>,
        exact_refine_batch: usize,
        plan: DensePhysicalPlan,
        quantized_scores: usize,
    ) -> (result: OperationResult<DenseRankState>)
        ensures
            if exact_refine_batch == 0 {
                result == refused::<DenseRankState>(Fault::ZeroRefineBatch)
            } else if point_count > 0x1_0000_0000 {
                result == inconsistent::<DenseRankState>(Fault::UniverseTooLarge)
            } else if !is_contiguous(pending@, point_count as int) {
                result == inconsistent::<DenseRankState>(Fault::ContiguousBoundsMismatch)
            } else {
                &&& result matches Ok(state)
                &&& state.wf()
                &&& forall|id: u32| #[trigger] state.universe()(id) <==> id < point_count
                &&& state@ == RankingView::Certificate(
                    fresh_certificate(pending@, exact_refine_batch, true),
                )
                &&& state.report() == (DenseExecutionTelemetry {
                    plan: Some(plan),
                    eligible_points: point_count,
                    quantized_scores,
                    ..no_rank_work()
                })
            },
    {
        let ranking = match DenseRanking::contiguous(
            point_count,
            pending,
            exact_refine_batch,
            true,
        ) {
            Ok(ranking) => ranking,
            Err(error) => {
                return Err(error);
            },
        };
        let state = DenseRankState {
            ranking,
            plan,
            quantized_scores,
            scanned_scores: 0,
            points_emitted: 0,
        };
        proof {
            assert forall|id: u32| #[trigger] state.universe()(id) <==> id < point_count by {
                assert(ranking.ranks(id) <==> id < point_count);
            }
        }
        Ok(state)
    }

    /// A state that scans its points when it is first advanced.
    pub fn build_exact_scan_state(eligible: Vec<PointOffsetType>) -> (result: OperationResult<
        DenseRankState,
    >)
        ensures
            if !eligible@.no_duplicates() {
                result == inconsistent::<DenseRankState>(Fault::DuplicateEligible)
            } else {
                &&& result matches Ok(state)
                &&& state.wf()
                &&& state@ == RankingView::Unscanned
                &&& forall|id: u32| #[trigger] state.universe()(id) <==> eligible@.contains(id)
                &&& state.report() == (DenseExecutionTelemetry {
                    plan: Some(DensePhysicalPlan::ExactScan),
                    eligible_points: eligible@.len() as usize,
                    ..no_rank_work()
                })
            },
    {
        let ranking = match DenseRanking::unscanned(eligible) {
            Ok(ranking) => ranking,
            Err(error) => {
                return Err(error);
            },
        };
        let state = DenseRankState {
            ranking,
            plan: DensePhysicalPlan::ExactScan,
            quantized_scores: 0,
            scanned_scores: 0,
            points_emitted: 0,
        };
        proof {
            assert forall|id: u32| #[trigger] state.universe()(id) <==> eligible@.contains(id) by {
                assert(ranking.ranks(id) <==> eligible@.contains(id));
            }
        }
        Ok(state)
    }

    /// Advances by up to `max_results` points, with a scorer that is needed only
    /// for this call.
    pub fn next_batch_with<S: Fn(PointOffsetType) -> i64>(
        &mut self,
        max_results: usize,
        exact_scorer: &S,
    ) -> (result: OperationResult<Vec<ScoredPointOffset>>)
        requires
            old(self).wf(),
            scores_all(*exact_scorer),
        ensures
            final(self).wf(),
            final(self).universe() == old(self).universe(),
            max_results == 0 ==> {
                &&& result == refused::<Vec<ScoredPointOffset>>(Fault::ZeroRankBatch)
                &&& *final(self) == *old(self)
            },
            max_results > 0 ==> final(self).report() == (DenseExecutionTelemetry {
                exact_scores: if old(self)@ is Unscanned && final(self)@ !is Unscanned {
                    old(self).report().eligible_points
                } else {
                    raised(
                        old(self).report().exact_scores,
                        scores_learned(old(self)@, final(self)@),
                    )
                },
                points_emitted: match result {
                    Ok(points) => old(self).report().points_emitted.saturating_add(
                        points@.len() as usize,
                    ),
                    Err(_) => old(self).report().points_emitted,
                },
                ..old(self).report()
            }),
            max_results > 0 && old(self)@ !is Unscanned ==> ranks_batch(
                old(self)@,
                max_results,
                *exact_scorer,
                result,
                final(self)@,
            ),
            max_results > 0 && old(self)@ is Unscanned ==> exists|
                ids: Seq<PointOffsetType>,
                scores: Seq<i64>,
            |
                {
                    &&& #[trigger] are_exact_scores(
                        *exact_scorer,
                        old(self).universe(),
                        ids,
                        scores,
                    )
                    &&& if all_finite(scores) {
                        ranks_batch(
                            RankingView::Scan(scan_order(ids, scores), 0),
                            max_results,
                            *exact_scorer,
                            result,
                            final(self)@,
                        )
                    } else {
                        &&& result == inconsistent::<Vec<ScoredPointOffset>>(
                            Fault::NonFiniteScores,
                        )
                        &&& final(self)@ == old(self)@
                    }
                },
    {
        if max_results == 0 {
            return refuse(Fault::ZeroRankBatch);
        }
        let ghost fresh = self@ is Unscanned;
        if self.ranking.is_unscanned() {
            match self.ranking.scan_now(exact_scorer) {
                Ok(_) => {},
                Err(error) => {
                    return Err(error);
                },
            }
            self.scanned_scores = self.ranking.len();
        }
        let ghost ready = self.ranking@;
        let result = self.ranking.next_batch(max_results, exact_scorer);
        match &result {
            Ok(points) => {
                self.points_emitted = self.points_emitted.saturating_add(points.len());
            },
            Err(_) => {},
        }
        proof {
            if fresh {
                let (ids, scores) = choose|ids: Seq<PointOffsetType>, scores: Seq<i64>|
                    #[trigger] are_exact_scores(
                        *exact_scorer,
                        old(self).universe(),
                        ids,
                        scores,
                    ) && all_finite(scores) && ready == RankingView::Scan(
                        scan_order(ids, scores),
                        0,
                    );
                assert(are_exact_scores(*exact_scorer, old(self).universe(), ids, scores));
            }
        }
        result
    }

    /// What the state has done.
    pub fn telemetry(&self) -> (telemetry: DenseExecutionTelemetry)
        ensures
            telemetry == self.report(),
    {
        DenseExecutionTelemetry {
            plan: Some(self.plan),
            eligible_points: self.ranking.len(),
            accepted_prefix_points: 0,
            quantized_scores: self.quantized_scores,
            exact_scores: self.scanned_scores.saturating_add(self.ranking.computed()),
            points_emitted: self.points_emitted,
        }
    }

    /// The number of ranked points.
    pub fn eligible_len(&self) -> (count: usize)
        ensures
            count == self.report().eligible_points,
    {
        self.ranking.len()
    }
}

/// What is returned for a state under certified intervals.
pub open spec fn is_certified_state(
    eligible: Seq<u32>,
    bounds: Seq<PendingBound>,
    exact_refine_batch: usize,
    plan: DensePhysicalPlan,
    quantized_scores: usize,
    result: OperationResult<DenseRankState>,
) -> bool {
    if exact_refine_batch == 0 {
        result == refused::<DenseRankState>(Fault::ZeroRefineBatch)
    } else {
        match universe_fault(eligible, bounds) {
            Some(fault) => result == inconsistent::<DenseRankState>(fault),
            None => {
                &&& result matches Ok(state)
                &&& state.wf()
                &&& forall|id: u32| #[trigger] state.universe()(id) <==> eligible.contains(id)
                &&& state@ matches RankingView::Certificate(certificate)
                &&& sorts_bounds(bounds, certificate.bounds)
                &&& certificate == fresh_certificate(
                    certificate.bounds,
                    exact_refine_batch,
                    true,
                )
                &&& state.report() == (DenseExecutionTelemetry {
                    plan: Some(plan),
                    eligible_points: eligible.len() as usize,
                    quantized_scores,
                    ..no_rank_work()
                })
            },
        }
    }
}

/// The checked request of a dense ranking: its points in ascending order and the
/// plan for them.
#[derive(Debug)]
pub struct RankRequest {
    pub eligible: Vec<PointOffsetType>,
    pub plan: DensePhysicalPlan,
}

/// Checks the request of a dense ranking and chooses its plan. The query is given
/// by the bit patterns of its coordinates.
pub fn prepare_ranking(
    distance: Distance,
    datatype: VectorStorageDatatype,
    quantized: Option<QuantizedDescription>,
    eligible: &Vec<PointOffsetType>,
    query: &Vec<u32>,
    policy: DenseExecutionPolicy,
    exact_refine_batch: usize,
    stopped: bool,
) -> (result: OperationResult<RankRequest>)
    ensures
        match crate::exact_dense_stream::request_error(
            stopped,
            exact_refine_batch,
            query@,
            eligible@,
        ) {
            Some(error) => result == Err::<RankRequest, OperationError>(error),
            None => {
                &&& result matches Ok(request)
                &&& strictly_ascending(request.eligible@)
                &&& request.eligible@.len() == eligible@.len()
                &&& forall|id: u32| #[trigger]
                    request.eligible@.contains(id) <==> eligible@.contains(id)
                &&& request.plan == rank_plan(
                    distance,
                    datatype,
                    quantized,
                    request.eligible@,
                    policy,
                )
            },
        },
{
    if stopped {
        return Err(OperationError::Cancelled);
    }
    if exact_refine_batch == 0 {
        return refuse(Fault::ZeroRefineBatch);
    }
    if query.len() == 0 || !is_finite_vector(query) {
        return refuse(Fault::InvalidDenseQuery);
    }
    match sorted_unique(eligible) {
        Some(eligible) => {
            let plan = select_dense_plan(distance, datatype, quantized, &eligible, policy);
            Ok(RankRequest { eligible, plan })
        },
        None => inconsistency(Fault::DuplicateEligible),
    }
}

} // verus!
