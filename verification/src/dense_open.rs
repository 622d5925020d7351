//! Opening dense cursors: a checked request, the plan for it, and what the plan
//! computes from.

use crate::dense_certificate::{lemma_fresh_is_consistent, PointOffsetType};
use crate::dense_cursor::{is_scored, law_scan_order_is_exact, scan_order};
use crate::dense_evidence::{DenseAccess, DenseEvidence};
use crate::dense_plan::{Distance, QuantizedDescription, VectorStorageDatatype};
use crate::dense_quantized::{QuantizedVector, QuantizedVectorMetadata};
use crate::dense_rank_state::{
    is_certified_state, no_rank_work, prepare_ranking, rank_plan, DenseExecutionPolicy as RankPolicy,
    DenseExecutionTelemetry as RankTelemetry, DensePhysicalPlan as RankPlan, DenseRankState,
};
use crate::dense_ranking::{ranks_exactly, RankingView};
use crate::dense_scalar_certified::ScalarReconstructionStats;
use crate::exact_dense_stream::{
    dense_plan, is_certified_cursor, no_dense_work, prepare_dense, refine_batch_for,
    request_error, DenseExecutionPolicy, DenseExecutionTelemetry, DensePhysicalPlan,
    ExactDenseCursor, PRODUCTION_PVS_EXACT_REFINE_BATCH,
};
use crate::exact_ranking::{exact_ranking, ranking_left, scores_of};
use crate::native_dense_stream::{
    is_native_certified, is_native_scan, native_plan, prepare_native, NativeDenseIndexCursor,
    NativeDensePlan, NativeDensePolicy,
};
use crate::offsets::{bound_ids, strictly_ascending};
use crate::operation_error::{OperationError, OperationResult};
use vstd::prelude::*;

verus! {

/// Whether a list holds given points in ascending order.
pub open spec fn lists_ascending(ids: Seq<PointOffsetType>, eligible: Seq<PointOffsetType>) -> bool {
    &&& strictly_ascending(ids)
    &&& ids.len() == eligible.len()
    &&& forall|id: u32| #[trigger] ids.contains(id) <==> eligible.contains(id)
}

/// How many points a plan refines at once.
pub open spec fn refined_at_once(plan: DensePhysicalPlan, exact_refine_batch: usize) -> usize {
    if plan == DensePhysicalPlan::PerVectorScalarCertificate && exact_refine_batch
        < PRODUCTION_PVS_EXACT_REFINE_BATCH {
        PRODUCTION_PVS_EXACT_REFINE_BATCH
    } else {
        exact_refine_batch
    }
}

/// Whether a result is the cursor over evidence, or what is wrong with the evidence.
pub open spec fn ranks_evidence(
    ids: Seq<PointOffsetType>,
    plan: DensePhysicalPlan,
    exact_refine_batch: usize,
    evidence: DenseEvidence,
    result: OperationResult<ExactDenseCursor>,
) -> bool {
    match evidence {
        DenseEvidence::Bounds(bounds) => is_certified_cursor(
            ids,
            bounds@,
            refined_at_once(plan, exact_refine_batch),
            plan,
            ids.len() as usize,
            result,
        ),
        DenseEvidence::Scores(scores) => {
            &&& result matches Ok(cursor)
            &&& cursor.wf()
            &&& cursor@ == RankingView::Scan(scan_order(ids, scores@), 0)
            &&& forall|id: u32| #[trigger] cursor.universe()(id) <==> ids.contains(id)
            &&& cursor.report() == (DenseExecutionTelemetry {
                plan: Some(DensePhysicalPlan::ExactScan),
                eligible_points: ids.len() as usize,
                exact_scores: ids.len() as usize,
                ..no_dense_work()
            })
        },
    }
}

/// Whether a result is what the evidence gathered for points leads to.
pub open spec fn opens_gathered<
    W: Fn(PointOffsetType) -> QuantizedVector,
    C: Fn(i64, &QuantizedVectorMetadata, &QuantizedVectorMetadata, usize) -> (i64, i64),
    A: Fn(PointOffsetType) -> u32,
    R: Fn(PointOffsetType) -> ScalarReconstructionStats,
    E: Fn(u32, &ScalarReconstructionStats, &ScalarReconstructionStats, usize) -> (i64, i64),
    V: Fn(PointOffsetType) -> Option<(i64, i64)>,
    S: Fn(PointOffsetType) -> i64,
    T: Fn(usize) -> bool,
>(
    ids: Seq<PointOffsetType>,
    query: Seq<u32>,
    plan: DensePhysicalPlan,
    exact_refine_batch: usize,
    access: DenseAccess<W, C, A, R, E, V, S, T>,
    gathered: OperationResult<DenseEvidence>,
    result: OperationResult<ExactDenseCursor>,
) -> bool {
    &&& access.gathers(plan, ids, query, gathered)
    &&& match gathered {
        Ok(evidence) => ranks_evidence(ids, plan, exact_refine_batch, evidence, result),
        Err(error) => result == Err::<ExactDenseCursor, OperationError>(error),
    }
}

/// Whether a result is what opening a cursor leads to, after the stop signal was read
/// once: the fault of the request, or what comes of the evidence for its points.
pub open spec fn opens_cursor<
    W: Fn(PointOffsetType) -> QuantizedVector,
    C: Fn(i64, &QuantizedVectorMetadata, &QuantizedVectorMetadata, usize) -> (i64, i64),
    A: Fn(PointOffsetType) -> u32,
    R: Fn(PointOffsetType) -> ScalarReconstructionStats,
    E: Fn(u32, &ScalarReconstructionStats, &ScalarReconstructionStats, usize) -> (i64, i64),
    V: Fn(PointOffsetType) -> Option<(i64, i64)>,
    S: Fn(PointOffsetType) -> i64,
    T: Fn(usize) -> bool,
>(
    distance: Distance,
    datatype: VectorStorageDatatype,
    quantized: Option<QuantizedDescription>,
    eligible: Seq<PointOffsetType>,
    query: Seq<u32>,
    policy: DenseExecutionPolicy,
    exact_refine_batch: usize,
    access: DenseAccess<W, C, A, R, E, V, S, T>,
    stopped: bool,
    result: OperationResult<ExactDenseCursor>,
) -> bool {
    match request_error(stopped, exact_refine_batch, query, eligible) {
        Some(error) => result == Err::<ExactDenseCursor, OperationError>(error),
        None => exists|ids: Seq<PointOffsetType>, gathered: OperationResult<DenseEvidence>|
            {
                &&& lists_ascending(ids, eligible)
                &&& #[trigger] opens_gathered(
                    ids,
                    query,
                    dense_plan(distance, datatype, quantized, ids, query.len() as usize, policy),
                    exact_refine_batch,
                    access,
                    gathered,
                    result,
                )
            },
    }
}

impl ExactDenseCursor {
    /// Opens a cursor over the given points that refines one point at a time.
    pub fn new<
        W: Fn(PointOffsetType) -> QuantizedVector,
        C: Fn(i64, &QuantizedVectorMetadata, &QuantizedVectorMetadata, usize) -> (i64, i64),
        A: Fn(PointOffsetType) -> u32,
        R: Fn(PointOffsetType) -> ScalarReconstructionStats,
        E: Fn(u32, &ScalarReconstructionStats, &ScalarReconstructionStats, usize) -> (i64, i64),
        V: Fn(PointOffsetType) -> Option<(i64, i64)>,
        S: Fn(PointOffsetType) -> i64,
        T: Fn(usize) -> bool,
    >(
        distance: Distance,
        datatype: VectorStorageDatatype,
        quantized: Option<QuantizedDescription>,
        eligible: &Vec<PointOffsetType>,
        query: &Vec<u32>,
        policy: DenseExecutionPolicy,
        access: &DenseAccess<W, C, A, R, E, V, S, T>,
    ) -> (result: OperationResult<ExactDenseCursor>)
        requires
            access.answers(),
            access.serves(quantized),
        ensures
            exists|stopped: bool| #[trigger]
                access.stopped.ensures((0usize,), stopped) && opens_cursor(
                    distance,
                    datatype,
                    quantized,
                    eligible@,
                    query@,
                    policy,
                    1,
                    *access,
                    stopped,
                    result,
                ),
    {
        Self::new_with_exact_refine_batch(
            distance,
            datatype,
            quantized,
            eligible,
            query,
            policy,
            1,
            access,
        )
    }

    /// Opens a cursor over the given points.
    pub fn new_with_exact_refine_batch<
        W: Fn(PointOffsetType) -> QuantizedVector,
        C: Fn(i64, &QuantizedVectorMetadata, &QuantizedVectorMetadata, usize) -> (i64, i64),
        A: Fn(PointOffsetType) -> u32,
        R: Fn(PointOffsetType) -> ScalarReconstructionStats,
        E: Fn(u32, &ScalarReconstructionStats, &ScalarReconstructionStats, usize) -> (i64, i64),
        V: Fn(PointOffsetType) -> Option<(i64, i64)>,
        S: Fn(PointOffsetType) -> i64,
        T: Fn(usize) -> bool,
    >(
        distance: Distance,
        datatype: VectorStorageDatatype,
        quantized: Option<QuantizedDescription>,
        eligible: &Vec<PointOffsetType>,
        query: &Vec<u32>,
        policy: DenseExecutionPolicy,
        exact_refine_batch: usize,
        access: &DenseAccess<W, C, A, R, E, V, S, T>,
    ) -> (result: OperationResult<ExactDenseCursor>)
        requires
            access.answers(),
            access.serves(quantized),
        ensures
            exists|stopped: bool| #[trigger]
                access.stopped.ensures((0usize,), stopped) && opens_cursor(
                    distance,
                    datatype,
                    quantized,
                    eligible@,
                    query@,
                    policy,
                    exact_refine_batch,
                    *access,
                    stopped,
                    result,
                ),
    {
        let signal = &access.stopped;
        let stopped: bool = signal(0);
        assert(access.stopped.ensures((0usize,), stopped));
        let request = match prepare_dense(
            distance,
            datatype,
            quantized,
            eligible,
            query,
            policy,
            exact_refine_batch,
            stopped,
        ) {
            Ok(request) => request,
            Err(error) => {
                return Err(error);
            },
        };
        let plan = request.plan;
        let ids = request.eligible;
        let ghost listed = ids@;
        let gathered = access.gather(plan, &ids, query);
        let ghost outcome = gathered;
        let count: usize = ids.len();
        let result = match gathered {
            Ok(DenseEvidence::Bounds(bounds)) => ExactDenseCursor::from_certificate_bounds_batched(
                ids,
                bounds,
                refine_batch_for(plan, exact_refine_batch),
                plan,
                count,
            ),
            Ok(DenseEvidence::Scores(scores)) => {
                proof {
                    lemma_ascending_is_distinct(listed);
                }
                ExactDenseCursor::from_exact_scores(ids, &scores)
            },
            Err(error) => Err(error),
        };
        assert(lists_ascending(listed, eligible@));
        assert(opens_gathered(
            listed,
            query@,
            plan,
            exact_refine_batch,
            *access,
            outcome,
            result,
        ));
        result
    }
}

/// Whether a result is the native cursor over evidence, or what is wrong with it.
pub open spec fn ranks_native(
    ids: Seq<PointOffsetType>,
    plan: NativeDensePlan,
    evidence: DenseEvidence,
    result: OperationResult<NativeDenseIndexCursor>,
) -> bool {
    match evidence {
        DenseEvidence::Bounds(bounds) => is_native_certified(
            ids,
            bounds@,
            plan,
            ids.len() as usize,
            result,
        ),
        DenseEvidence::Scores(scores) => is_native_scan(ids, scores@, result),
    }
}

/// Whether a result is what the evidence gathered for points leads to.
pub open spec fn opens_native_gathered<
    W: Fn(PointOffsetType) -> QuantizedVector,
    C: Fn(i64, &QuantizedVectorMetadata, &QuantizedVectorMetadata, usize) -> (i64, i64),
    A: Fn(PointOffsetType) -> u32,
    R: Fn(PointOffsetType) -> ScalarReconstructionStats,
    E: Fn(u32, &ScalarReconstructionStats, &ScalarReconstructionStats, usize) -> (i64, i64),
    V: Fn(PointOffsetType) -> Option<(i64, i64)>,
    S: Fn(PointOffsetType) -> i64,
    T: Fn(usize) -> bool,
>(
    ids: Seq<PointOffsetType>,
    query: Seq<u32>,
    plan: DensePhysicalPlan,
    access: DenseAccess<W, C, A, R, E, V, S, T>,
    gathered: OperationResult<DenseEvidence>,
    result: OperationResult<NativeDenseIndexCursor>,
) -> bool {
    &&& access.gathers(plan, ids, query, gathered)
    &&& match gathered {
        Ok(evidence) => ranks_native(ids, native_plan(plan), evidence, result),
        Err(error) => result == Err::<NativeDenseIndexCursor, OperationError>(error),
    }
}

/// Whether a result is what opening a native cursor leads to, after the stop signal was
/// read once.
pub open spec fn opens_native<
    W: Fn(PointOffsetType) -> QuantizedVector,
    C: Fn(i64, &QuantizedVectorMetadata, &QuantizedVectorMetadata, usize) -> (i64, i64),
    A: Fn(PointOffsetType) -> u32,
    R: Fn(PointOffsetType) -> ScalarReconstructionStats,
    E: Fn(u32, &ScalarReconstructionStats, &ScalarReconstructionStats, usize) -> (i64, i64),
    V: Fn(PointOffsetType) -> Option<(i64, i64)>,
    S: Fn(PointOffsetType) -> i64,
    T: Fn(usize) -> bool,
>(
    distance: Distance,
    datatype: VectorStorageDatatype,
    quantized: Option<QuantizedDescription>,
    eligible: Seq<PointOffsetType>,
    query: Seq<u32>,
    policy: NativeDensePolicy,
    access: DenseAccess<W, C, A, R, E, V, S, T>,
    stopped: bool,
    result: OperationResult<NativeDenseIndexCursor>,
) -> bool {
    match request_error(stopped, 1, query, eligible) {
        Some(error) => result == Err::<NativeDenseIndexCursor, OperationError>(error),
        None => exists|ids: Seq<PointOffsetType>, gathered: OperationResult<DenseEvidence>|
            {
                &&& lists_ascending(ids, eligible)
                &&& #[trigger] opens_native_gathered(
                    ids,
                    query,
                    dense_plan(
                        distance,
                        datatype,
                        quantized,
                        ids,
                        query.len() as usize,
                        policy.bounds_plan(),
                    ),
                    access,
                    gathered,
                    result,
                )
            },
    }
}

impl NativeDenseIndexCursor {
    /// Opens a cursor over the given points.
    pub fn new<
        W: Fn(PointOffsetType) -> QuantizedVector,
        C: Fn(i64, &QuantizedVectorMetadata, &QuantizedVectorMetadata, usize) -> (i64, i64),
        A: Fn(PointOffsetType) -> u32,
        R: Fn(PointOffsetType) -> ScalarReconstructionStats,
        E: Fn(u32, &ScalarReconstructionStats, &ScalarReconstructionStats, usize) -> (i64, i64),
        V: Fn(PointOffsetType) -> Option<(i64, i64)>,
        S: Fn(PointOffsetType) -> i64,
        T: Fn(usize) -> bool,
    >(
        distance: Distance,
        datatype: VectorStorageDatatype,
        quantized: Option<QuantizedDescription>,
        eligible: &Vec<PointOffsetType>,
        query: &Vec<u32>,
        policy: NativeDensePolicy,
        access: &DenseAccess<W, C, A, R, E, V, S, T>,
    ) -> (result: OperationResult<NativeDenseIndexCursor>)
        requires
            access.answers(),
            access.serves(quantized),
        ensures
            exists|stopped: bool| #[trigger]
                access.stopped.ensures((0usize,), stopped) && opens_native(
                    distance,
                    datatype,
                    quantized,
                    eligible@,
                    query@,
                    policy,
                    *access,
                    stopped,
                    result,
                ),
    {
        let signal = &access.stopped;
        let stopped: bool = signal(0);
        assert(access.stopped.ensures((0usize,), stopped));
        let request = match prepare_native(
            distance,
            datatype,
            quantized,
            eligible,
            query,
            policy,
            stopped,
        ) {
            Ok(request) => request,
            Err(error) => {
                return Err(error);
            },
        };
        let plan = request.plan;
        let ids = request.eligible;
        let ghost listed = ids@;
        let physical = match plan {
            NativeDensePlan::CompactCertificate => DensePhysicalPlan::CompactCertificate,
            NativeDensePlan::PerVectorScalarCertificate => {
                DensePhysicalPlan::PerVectorScalarCertificate
            },
            NativeDensePlan::ScalarCertificate => DensePhysicalPlan::ScalarCertificate,
            NativeDensePlan::ExactScan => DensePhysicalPlan::ExactScan,
        };
        let gathered = access.gather(physical, &ids, query);
        let ghost outcome = gathered;
        let count: usize = ids.len();
        let result = match gathered {
            Ok(DenseEvidence::Bounds(bounds)) => NativeDenseIndexCursor::from_certificate_bounds(
                ids,
                bounds,
                plan,
                count,
            ),
            Ok(DenseEvidence::Scores(scores)) => {
                NativeDenseIndexCursor::from_exact_scores(ids, &scores)
            },
            Err(error) => Err(error),
        };
        assert(lists_ascending(listed, eligible@));
        assert(opens_native_gathered(listed, query@, physical, *access, outcome, result));
        result
    }
}

/// The plan of a rank state in the terms of the plans of cursors.
pub open spec fn physical_plan(plan: RankPlan) -> DensePhysicalPlan {
    match plan {
        RankPlan::ScalarCertificate => DensePhysicalPlan::ScalarCertificate,
        RankPlan::PerVectorScalarCertificate => DensePhysicalPlan::PerVectorScalarCertificate,
        RankPlan::ExactScan => DensePhysicalPlan::ExactScan,
    }
}

/// Whether a result is what the plan for points leads to: a scan that is made later, or
/// the state under the intervals gathered for them.
pub open spec fn opens_planned<
    W: Fn(PointOffsetType) -> QuantizedVector,
    C: Fn(i64, &QuantizedVectorMetadata, &QuantizedVectorMetadata, usize) -> (i64, i64),
    A: Fn(PointOffsetType) -> u32,
    R: Fn(PointOffsetType) -> ScalarReconstructionStats,
    E: Fn(u32, &ScalarReconstructionStats, &ScalarReconstructionStats, usize) -> (i64, i64),
    V: Fn(PointOffsetType) -> Option<(i64, i64)>,
    S: Fn(PointOffsetType) -> i64,
    T: Fn(usize) -> bool,
>(
    ids: Seq<PointOffsetType>,
    query: Seq<u32>,
    plan: RankPlan,
    exact_refine_batch: usize,
    access: DenseAccess<W, C, A, R, E, V, S, T>,
    gathered: OperationResult<DenseEvidence>,
    result: OperationResult<DenseRankState>,
) -> bool {
    if plan is ExactScan {
        &&& result matches Ok(state)
        &&& state.wf()
        &&& state@ == RankingView::Unscanned
        &&& forall|id: u32| #[trigger] state.universe()(id) <==> ids.contains(id)
        &&& state.report() == (RankTelemetry {
            plan: Some(RankPlan::ExactScan),
            eligible_points: ids.len() as usize,
            ..no_rank_work()
        })
    } else {
        &&& access.gathers(physical_plan(plan), ids, query, gathered)
        &&& match gathered {
            Ok(DenseEvidence::Bounds(bounds)) => is_certified_state(
                ids,
                bounds@,
                refined_at_once(physical_plan(plan), exact_refine_batch),
                plan,
                ids.len() as usize,
                result,
            ),
            Ok(DenseEvidence::Scores(_)) => false,
            Err(error) => result == Err::<DenseRankState, OperationError>(error),
        }
    }
}

/// Whether a result is what opening a rank state leads to, after the stop signal was
/// read once.
pub open spec fn opens_state<
    W: Fn(PointOffsetType) -> QuantizedVector,
    C: Fn(i64, &QuantizedVectorMetadata, &QuantizedVectorMetadata, usize) -> (i64, i64),
    A: Fn(PointOffsetType) -> u32,
    R: Fn(PointOffsetType) -> ScalarReconstructionStats,
    E: Fn(u32, &ScalarReconstructionStats, &ScalarReconstructionStats, usize) -> (i64, i64),
    V: Fn(PointOffsetType) -> Option<(i64, i64)>,
    S: Fn(PointOffsetType) -> i64,
    T: Fn(usize) -> bool,
>(
    distance: Distance,
    datatype: VectorStorageDatatype,
    quantized: Option<QuantizedDescription>,
    eligible: Seq<PointOffsetType>,
    query: Seq<u32>,
    policy: RankPolicy,
    exact_refine_batch: usize,
    access: DenseAccess<W, C, A, R, E, V, S, T>,
    stopped: bool,
    result: OperationResult<DenseRankState>,
) -> bool {
    match request_error(stopped, exact_refine_batch, query, eligible) {
        Some(error) => result == Err::<DenseRankState, OperationError>(error),
        None => exists|ids: Seq<PointOffsetType>, gathered: OperationResult<DenseEvidence>|
            {
                &&& lists_ascending(ids, eligible)
                &&& #[trigger] opens_planned(
                    ids,
                    query,
                    rank_plan(distance, datatype, quantized, ids, policy),
                    exact_refine_batch,
                    access,
                    gathered,
                    result,
                )
            },
    }
}

impl DenseRankState {
    /// Opens the rank state of the given points that refines one point at a time.
    pub fn new<
        W: Fn(PointOffsetType) -> QuantizedVector,
        C: Fn(i64, &QuantizedVectorMetadata, &QuantizedVectorMetadata, usize) -> (i64, i64),
        A: Fn(PointOffsetType) -> u32,
        R: Fn(PointOffsetType) -> ScalarReconstructionStats,
        E: Fn(u32, &ScalarReconstructionStats, &ScalarReconstructionStats, usize) -> (i64, i64),
        V: Fn(PointOffsetType) -> Option<(i64, i64)>,
        S: Fn(PointOffsetType) -> i64,
        T: Fn(usize) -> bool,
    >(
        distance: Distance,
        datatype: VectorStorageDatatype,
        quantized: Option<QuantizedDescription>,
        eligible: &Vec<PointOffsetType>,
        query: &Vec<u32>,
        policy: RankPolicy,
        access: &DenseAccess<W, C, A, R, E, V, S, T>,
    ) -> (result: OperationResult<DenseRankState>)
        requires
            access.answers(),
            access.serves(quantized),
        ensures
            exists|stopped: bool| #[trigger]
                access.stopped.ensures((0usize,), stopped) && opens_state(
                    distance,
                    datatype,
                    quantized,
                    eligible@,
                    query@,
                    policy,
                    1,
                    *access,
                    stopped,
                    result,
                ),
    {
        Self::new_with_exact_refine_batch(
            distance,
            datatype,
            quantized,
            eligible,
            query,
            policy,
            1,
            access,
        )
    }

    /// Opens the rank state of the given points.
    pub fn new_with_exact_refine_batch<
        W: Fn(PointOffsetType) -> QuantizedVector,
        C: Fn(i64, &QuantizedVectorMetadata, &QuantizedVectorMetadata, usize) -> (i64, i64),
        A: Fn(PointOffsetType) -> u32,
        R: Fn(PointOffsetType) -> ScalarReconstructionStats,
        E: Fn(u32, &ScalarReconstructionStats, &ScalarReconstructionStats, usize) -> (i64, i64),
        V: Fn(PointOffsetType) -> Option<(i64, i64)>,
        S: Fn(PointOffsetType) -> i64,
        T: Fn(usize) -> bool,
    >(
        distance: Distance,
        datatype: VectorStorageDatatype,
        quantized: Option<QuantizedDescription>,
        eligible: &Vec<PointOffsetType>,
        query: &Vec<u32>,
        policy: RankPolicy,
        exact_refine_batch: usize,
        access: &DenseAccess<W, C, A, R, E, V, S, T>,
    ) -> (result: OperationResult<DenseRankState>)
        requires
            access.answers(),
            access.serves(quantized),
        ensures
            exists|stopped: bool| #[trigger]
                access.stopped.ensures((0usize,), stopped) && opens_state(
                    distance,
                    datatype,
                    quantized,
                    eligible@,
                    query@,
                    policy,
                    exact_refine_batch,
                    *access,
                    stopped,
                    result,
                ),
    {
        let signal = &access.stopped;
        let stopped: bool = signal(0);
        assert(access.stopped.ensures((0usize,), stopped));
        let request = match prepare_ranking(
            distance,
            datatype,
            quantized,
            eligible,
            query,
            policy,
            exact_refine_batch,
            stopped,
        ) {
            Ok(request) => request,
            Err(error) => {
                return Err(error);
            },
        };
        let plan = request.plan;
        let ids = request.eligible;
        let ghost listed = ids@;
        assert(lists_ascending(listed, eligible@));
        let physical = match plan {
            RankPlan::ScalarCertificate => DensePhysicalPlan::ScalarCertificate,
            RankPlan::PerVectorScalarCertificate => DensePhysicalPlan::PerVectorScalarCertificate,
            RankPlan::ExactScan => {
                proof {
                    lemma_ascending_is_distinct(listed);
                }
                let result = DenseRankState::build_exact_scan_state(ids);
                let ghost gathered = Err::<DenseEvidence, OperationError>(
                    OperationError::Cancelled,
                );
                assert(opens_planned(
                    listed,
                    query@,
                    plan,
                    exact_refine_batch,
                    *access,
                    gathered,
                    result,
                ));
                return result;
            },
        };
        let gathered = access.gather(physical, &ids, query);
        let ghost outcome = gathered;
        let count: usize = ids.len();
        let result = match gathered {
            Ok(DenseEvidence::Bounds(bounds)) => DenseRankState::from_certificate_bounds_batched(
                ids,
                bounds,
                refine_batch_for(physical, exact_refine_batch),
                plan,
                count,
            ),
            Ok(DenseEvidence::Scores(_)) => DenseRankState::build_exact_scan_state(ids),
            Err(error) => Err(error),
        };
        assert(opens_planned(
            listed,
            query@,
            plan,
            exact_refine_batch,
            *access,
            outcome,
            result,
        ));
        result
    }
}

/// Whether evidence agrees with the exact scores of points: every interval holds the
/// score of its point, and every score is exact.
pub open spec fn agrees(
    ids: Seq<PointOffsetType>,
    evidence: DenseEvidence,
    score: spec_fn(PointOffsetType) -> i64,
) -> bool {
    match evidence {
        DenseEvidence::Bounds(bounds) => forall|i: int|
            0 <= i < bounds@.len() ==> {
                &&& (#[trigger] bounds@[i]).lower <= score(bounds@[i].id)
                &&& score(bounds@[i].id) <= bounds@[i].value
            },
        DenseEvidence::Scores(scores) => scores@ == scores_of(ids, score),
    }
}

/// A cursor over evidence that agrees with the exact scores ranks exactly: what it
/// yields is the exact ranking of its points.
pub proof fn law_opened_cursor_ranks_exactly(
    ids: Seq<PointOffsetType>,
    plan: NativeDensePlan,
    evidence: DenseEvidence,
    score: spec_fn(PointOffsetType) -> i64,
    cursor: NativeDenseIndexCursor,
)
    requires
        strictly_ascending(ids),
        ids.len() <= usize::MAX,
        agrees(ids, evidence, score),
        ranks_native(ids, plan, evidence, Ok(cursor)),
    ensures
        ranks_exactly(cursor@, score),
        ranking_left(cursor@, score) == exact_ranking(ids, score),
{
    match evidence {
        DenseEvidence::Bounds(bounds) => {
            let certificate = cursor@->Certificate_0;
            assert forall|slot: int| 0 <= slot < certificate.len() implies {
                &&& (#[trigger] certificate.bounds[slot]).lower <= score(certificate.bounds[slot].id)
                &&& score(certificate.bounds[slot].id) <= certificate.bounds[slot].value
            } by {
                assert(bounds@.contains(certificate.bounds[slot]));
            }
            lemma_fresh_is_consistent(certificate.bounds, 1, false, score);
            let sorted = bound_ids(certificate.bounds);
            assert(strictly_ascending(sorted)) by {
                assert forall|left: int, right: int| 0 <= left < right < sorted.len() implies
                    #[trigger] sorted[left] < #[trigger] sorted[right] by {
                    assert(certificate.bounds[left].id < certificate.bounds[right].id);
                }
            }
            assert forall|i: int| 0 <= i < ids.len() implies sorted.contains(#[trigger] ids[i]) by {
                assert(bound_ids(bounds@).contains(ids[i]));
                let at = choose|at: int| 0 <= at < bounds@.len() && bound_ids(bounds@)[at] == ids[i];
                assert(certificate.bounds.contains(bounds@[at]));
                let place = choose|place: int|
                    0 <= place < certificate.len() && certificate.bounds[place] == bounds@[at];
                assert(sorted[place] == ids[i]);
            }
            lemma_ascending_agree(ids, sorted);
            assert(ranking_left(cursor@, score) =~= exact_ranking(ids, score));
        },
        DenseEvidence::Scores(scores) => {
            lemma_ascending_is_distinct(ids);
            law_scan_order_is_exact(ids, scores@);
            let points = scan_order(ids, scores@);
            assert forall|place: int| 0 <= place < points.len() implies (
            #[trigger] points[place]).score == score(points[place].idx) by {
                assert(is_scored(ids, scores@, points[place]));
            }
            assert(ranking_left(cursor@, score) =~= exact_ranking(ids, score));
        },
    }
}

proof fn lemma_ascending_is_distinct(ids: Seq<PointOffsetType>)
    requires
        strictly_ascending(ids),
    ensures
        ids.no_duplicates(),
{
    assert forall|left: int, right: int|
        0 <= left < ids.len() && 0 <= right < ids.len() && left != right implies ids[left]
        != ids[right] by {
        if left < right {
            assert(ids[left] < ids[right]);
        } else {
            assert(ids[right] < ids[left]);
        }
    }
}

/// A place in an ascending list is not in front of the place in a list whose points it
/// holds.
proof fn lemma_place_at_least(
    left: Seq<PointOffsetType>,
    right: Seq<PointOffsetType>,
    i: int,
    place: int,
)
    requires
        strictly_ascending(left),
        strictly_ascending(right),
        forall|k: int| 0 <= k < left.len() ==> right.contains(#[trigger] left[k]),
        0 <= i < left.len(),
        0 <= place < right.len(),
        right[place] == left[i],
    ensures
        place >= i,
    decreases i,
{
    if i > 0 {
        assert(right.contains(left[i - 1]));
        let before = choose|before: int| 0 <= before < right.len() && right[before] == left[i - 1];
        lemma_place_at_least(left, right, i - 1, before);
        assert(left[i - 1] < left[i]);
        if before >= place {
            assert(right[place] <= right[before]);
        }
    }
}

/// Ascending lists of the same length agree where one holds the points of the other.
proof fn lemma_ascending_agree(left: Seq<PointOffsetType>, right: Seq<PointOffsetType>)
    requires
        strictly_ascending(left),
        strictly_ascending(right),
        left.len() == right.len(),
        forall|k: int| 0 <= k < left.len() ==> right.contains(#[trigger] left[k]),
    ensures
        left == right,
    decreases left.len(),
{
    if left.len() > 0 {
        let last = left.len() - 1;
        assert(right.contains(left[last]));
        let place = choose|place: int| 0 <= place < right.len() && right[place] == left[last];
        lemma_place_at_least(left, right, last, place);
        let shorter = left.drop_last();
        let other = right.drop_last();
        assert forall|k: int| 0 <= k < shorter.len() implies other.contains(#[trigger] shorter[k]) by {
            assert(right.contains(left[k]));
            let at = choose|at: int| 0 <= at < right.len() && right[at] == left[k];
            assert(left[k] < left[last]);
            assert(other[at] == shorter[k]);
        }
        lemma_ascending_agree(shorter, other);
        assert(left =~= shorter.push(left[last]));
        assert(right =~= other.push(right[last]));
    }
}

} // verus!
