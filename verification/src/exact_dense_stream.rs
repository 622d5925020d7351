//! Exact dense streams with a safe choice of the physical plan.

use crate::dense_certificate::{
    fresh_certificate, raised, scores_all, PendingBound, PointOffsetType, ScoredPointOffset,
};
use crate::dense_cursor::{
    are_keys, keys_all, offset_keys, probe_fault, probes_certificate, scan_order,
    DenseExactRankProbe,
};
use crate::dense_plan::{
    all_below, are_below, finite_vector, has_inner_product, is_finite_vector, is_inner_product,
    Distance, QuantizedDescription, VectorStorageDatatype,
};
use crate::dense_ranking::{
    are_scan_keys, are_seeds_exact, emitted, is_about, is_scan_probe, is_scan_violation, is_seed_violation,
    probes_scan_by_key, ranks_batch, ranks_next, scores_learned, seed_fault, seeds_agree,
    seeds_match, takes_seeds, DenseRanking, RankingView,
};
use crate::offsets::{sorted_unique, sorts_bounds, strictly_ascending, universe_fault};
use crate::operation_error::{
    inconsistency, inconsistent, refuse, refused, Fault, OperationError, OperationResult,
};
use crate::order::ExtendedPointId;
use vstd::prelude::*;

verus! {

/// The fewest eligible points for which a certificate is worth its cost.
pub const DEFAULT_DENSE_SCALAR_MIN_POINTS: usize = 4_096;

/// The largest dimension for which an exact prefix is tried first.
pub const DEFAULT_DENSE_EXACT_PREFIX_MAX_DIMENSION: usize = 192;

/// The fewest points that a per-vector scalar plan refines at once.
pub const PRODUCTION_PVS_EXACT_REFINE_BATCH: usize = 16;

/// How a dense ranking is computed.
#[derive(Clone, Copy, Debug, Eq, PartialEq, Structural)]
pub enum DensePhysicalPlan {
    ExactPrefix,
    CompactCertificate,
    ScalarCertificate,
    PerVectorScalarCertificate,
    ExactScan,
}

/// What bounds the choice of a plan.
#[derive(Clone, Copy, Debug, Eq, PartialEq, Structural)]
pub struct DenseExecutionPolicy {
    pub scalar_min_points: usize,
    pub compact_max_points: usize,
    pub exact_prefix_max_dimension: usize,
    pub force_exact_scan: bool,
    /// A switch for comparisons; off in regular use.
    pub disable_per_vector_scalar_certificate: bool,
    /// A switch for comparisons; on in regular use.
    pub disable_compact_certificate: bool,
}

impl DenseExecutionPolicy {
    /// The regular policy, with the largest size of a compact certificate.
    pub fn with_compact_limit(compact_max_points: usize) -> (policy: DenseExecutionPolicy)
        ensures
            policy == (DenseExecutionPolicy {
                scalar_min_points: DEFAULT_DENSE_SCALAR_MIN_POINTS,
                compact_max_points,
                exact_prefix_max_dimension: DEFAULT_DENSE_EXACT_PREFIX_MAX_DIMENSION,
                force_exact_scan: false,
                disable_per_vector_scalar_certificate: false,
                disable_compact_certificate: true,
            }),
    {
        DenseExecutionPolicy {
            scalar_min_points: DEFAULT_DENSE_SCALAR_MIN_POINTS,
            compact_max_points,
            exact_prefix_max_dimension: DEFAULT_DENSE_EXACT_PREFIX_MAX_DIMENSION,
            force_exact_scan: false,
            disable_per_vector_scalar_certificate: false,
            disable_compact_certificate: true,
        }
    }
}

/// The work of a dense stream.
#[derive(Clone, Copy, Debug, Eq, PartialEq, Structural)]
pub struct DenseExecutionTelemetry {
    pub plan: Option<DensePhysicalPlan>,
    pub eligible_points: usize,
    pub accepted_prefix_points: usize,
    pub exact_prefix_fallbacks: usize,
    pub quantized_scores: usize,
    pub exact_scores: usize,
    /// Exact scores that were taken over from an earlier phase.
    pub seeded_exact_scores: usize,
    pub points_emitted: usize,
    pub exact_refine_ns: u128,
    pub exact_refine_batches: usize,
}

impl Default for DenseExecutionTelemetry {
    fn default() -> (telemetry: DenseExecutionTelemetry)
        ensures
            telemetry == no_dense_work(),
    {
        DenseExecutionTelemetry {
            plan: None,
            eligible_points: 0,
            accepted_prefix_points: 0,
            exact_prefix_fallbacks: 0,
            quantized_scores: 0,
            exact_scores: 0,
            seeded_exact_scores: 0,
            points_emitted: 0,
            exact_refine_ns: 0,
            exact_refine_batches: 0,
        }
    }
}

/// The telemetry of a stream that has done nothing.
pub open spec fn no_dense_work() -> DenseExecutionTelemetry {
    DenseExecutionTelemetry {
        plan: None,
        eligible_points: 0,
        accepted_prefix_points: 0,
        exact_prefix_fallbacks: 0,
        quantized_scores: 0,
        exact_scores: 0,
        seeded_exact_scores: 0,
        points_emitted: 0,
        exact_refine_ns: 0,
        exact_refine_batches: 0,
    }
}

/// Whether a per-vector scalar index serves the points.
pub open spec fn scalar_index_serves(
    distance: Distance,
    datatype: VectorStorageDatatype,
    quantized: Option<QuantizedDescription>,
    eligible: Seq<u32>,
    policy: DenseExecutionPolicy,
) -> bool {
    &&& !policy.force_exact_scan
    &&& !policy.disable_per_vector_scalar_certificate
    &&& eligible.len() >= policy.scalar_min_points
    &&& is_inner_product(distance)
    &&& datatype == VectorStorageDatatype::Float32
    &&& quantized matches Some(quantized)
    &&& quantized.per_vector_scalar
}

/// Whether a compact certificate serves the points.
pub open spec fn compact_serves(
    distance: Distance,
    datatype: VectorStorageDatatype,
    quantized: Option<QuantizedDescription>,
    eligible: Seq<u32>,
    dimension: usize,
    policy: DenseExecutionPolicy,
) -> bool {
    &&& !policy.force_exact_scan
    &&& !policy.disable_compact_certificate
    &&& eligible.len() >= policy.scalar_min_points
    &&& eligible.len() <= policy.compact_max_points
    &&& is_inner_product(distance)
    &&& datatype == VectorStorageDatatype::Float32
    &&& quantized matches Some(quantized)
    &&& quantized.compact matches Some(compact)
    &&& compact.dimension == dimension
    &&& all_below(eligible, compact.rows)
}

/// Whether scalar reconstructions serve the points.
pub open spec fn scalar_serves(
    distance: Distance,
    quantized: Option<QuantizedDescription>,
    eligible: Seq<u32>,
    policy: DenseExecutionPolicy,
) -> bool {
    &&& !policy.force_exact_scan
    &&& eligible.len() >= policy.scalar_min_points
    &&& is_inner_product(distance)
    &&& quantized matches Some(quantized)
    &&& is_inner_product(quantized.distance)
    &&& quantized.datatype == VectorStorageDatatype::Float32
    &&& quantized.reconstruction_rows matches Some(rows)
    &&& all_below(eligible, rows)
}

/// The plan for a dense stream.
pub open spec fn dense_plan(
    distance: Distance,
    datatype: VectorStorageDatatype,
    quantized: Option<QuantizedDescription>,
    eligible: Seq<u32>,
    dimension: usize,
    policy: DenseExecutionPolicy,
) -> DensePhysicalPlan {
    if scalar_index_serves(distance, datatype, quantized, eligible, policy) {
        DensePhysicalPlan::PerVectorScalarCertificate
    } else if compact_serves(distance, datatype, quantized, eligible, dimension, policy) {
        DensePhysicalPlan::CompactCertificate
    } else if scalar_serves(distance, quantized, eligible, policy) {
        DensePhysicalPlan::ScalarCertificate
    } else {
        DensePhysicalPlan::ExactScan
    }
}

/// Chooses the plan for a dense stream.
pub fn select_dense_plan(
    distance: Distance,
    datatype: VectorStorageDatatype,
    quantized: Option<QuantizedDescription>,
    eligible: &Vec<u32>,
    dimension: usize,
    policy: DenseExecutionPolicy,
) -> (plan: DensePhysicalPlan)
    ensures
        plan == dense_plan(distance, datatype, quantized, eligible@, dimension, policy),
{
    let usable = !policy.force_exact_scan && eligible.len() >= policy.scalar_min_points
        && has_inner_product(distance);
    if !usable {
        return DensePhysicalPlan::ExactScan;
    }
    let quantized = match quantized {
        Some(quantized) => quantized,
        None => {
            return DensePhysicalPlan::ExactScan;
        },
    };
    let float = datatype == VectorStorageDatatype::Float32;
    if float && !policy.disable_per_vector_scalar_certificate && quantized.per_vector_scalar {
        return DensePhysicalPlan::PerVectorScalarCertificate;
    }
    if float && !policy.disable_compact_certificate && eligible.len() <= policy.compact_max_points {
        match quantized.compact {
            Some(compact) => {
                if compact.dimension == dimension && are_below(eligible, compact.rows) {
                    return DensePhysicalPlan::CompactCertificate;
                }
            },
            None => {},
        }
    }
    if has_inner_product(quantized.distance) && quantized.datatype
        == VectorStorageDatatype::Float32 {
        match quantized.reconstruction_rows {
            Some(rows) => {
                if are_below(eligible, rows) {
                    return DensePhysicalPlan::ScalarCertificate;
                }
            },
            None => {},
        }
    }
    DensePhysicalPlan::ExactScan
}

/// How many points a plan refines at once.
pub fn refine_batch_for(plan: DensePhysicalPlan, exact_refine_batch: usize) -> (batch: usize)
    ensures
        batch == (if plan == DensePhysicalPlan::PerVectorScalarCertificate && exact_refine_batch
            < PRODUCTION_PVS_EXACT_REFINE_BATCH {
            PRODUCTION_PVS_EXACT_REFINE_BATCH
        } else {
            exact_refine_batch
        }),
{
    if plan == DensePhysicalPlan::PerVectorScalarCertificate && exact_refine_batch
        < PRODUCTION_PVS_EXACT_REFINE_BATCH {
        PRODUCTION_PVS_EXACT_REFINE_BATCH
    } else {
        exact_refine_batch
    }
}

/// The checked request of a dense stream: its points in ascending order and the
/// plan for them.
#[derive(Debug)]
pub struct DenseRequest {
    pub eligible: Vec<PointOffsetType>,
    pub plan: DensePhysicalPlan,
}

/// Why the request of a dense stream fails, apart from its points.
pub open spec fn request_error(
    stopped: bool,
    exact_refine_batch: usize,
    query: Seq<u32>,
    eligible: Seq<u32>,
) -> Option<OperationError> {
    if stopped {
        Some(OperationError::Cancelled)
    } else if exact_refine_batch == 0 {
        Some(OperationError::ValidationError(Fault::ZeroRefineBatch))
    } else if query.len() == 0 || !finite_vector(query) {
        Some(OperationError::ValidationError(Fault::InvalidDenseQuery))
    } else if !eligible.no_duplicates() {
        Some(OperationError::InconsistentStorage(Fault::DuplicateEligible))
    } else {
        None
    }
}

/// Checks the request of a dense stream and chooses its plan. The query is given
/// by the bit patterns of its coordinates.
pub fn prepare_dense(
    distance: Distance,
    datatype: VectorStorageDatatype,
    quantized: Option<QuantizedDescription>,
    eligible: &Vec<PointOffsetType>,
    query: &Vec<u32>,
    policy: DenseExecutionPolicy,
    exact_refine_batch: usize,
    stopped: bool,
) -> (result: OperationResult<DenseRequest>)
    ensures
        match request_error(stopped, exact_refine_batch, query@, eligible@) {
            Some(error) => result == Err::<DenseRequest, OperationError>(error),
            None => {
                &&& result matches Ok(request)
                &&& strictly_ascending(request.eligible@)
                &&& request.eligible@.len() == eligible@.len()
                &&& forall|id: u32| #[trigger]
                    request.eligible@.contains(id) <==> eligible@.contains(id)
                &&& request.plan == dense_plan(
                    distance,
                    datatype,
                    quantized,
                    request.eligible@,
                    query@.len() as usize,
                    policy,
                )
            },
        },
{
    if stopped {
        return Err(OperationError::Cancelled);
    }
    if exact_refine_batch == 0 {
        return refuse(Fault::ZeroRefineBatch);
    }
    if query.len() == 0 || !is_finite_vector(query) {
        return refuse(Fault::InvalidDenseQuery);
    }
    match sorted_unique(eligible) {
        Some(eligible) => {
            let plan = select_dense_plan(
                distance,
                datatype,
                quantized,
                &eligible,
                query.len(),
                policy,
            );
            Ok(DenseRequest { eligible, plan })
        },
        None => inconsistency(Fault::DuplicateEligible),
    }
}

/// A cursor over an exact dense ranking.
pub struct ExactDenseCursor {
    ranking: DenseRanking,
    plan: DensePhysicalPlan,
    quantized_scores: usize,
    scanned_scores: usize,
    seeded_exact_scores: usize,
    points_emitted: usize,
}

/// The state of an exact dense ranking between the batches that advance it.
pub struct DenseRankState {
    cursor: ExactDenseCursor,
}

impl View for ExactDenseCursor {
    type V = RankingView;

    closed spec fn view(&self) -> RankingView {
        self.ranking@
    }
}

impl View for DenseRankState {
    type V = RankingView;

    closed spec fn view(&self) -> RankingView {
        self.cursor@
    }
}

/// A number that grows by one but for the largest.
pub open spec fn one_more(count: usize) -> usize {
    count.saturating_add(1)
}

impl ExactDenseCursor {
    /// Whether the parts belong together.
    pub closed spec fn wf(&self) -> bool {
        self.ranking.wf() && self.ranking@ !is Unscanned
    }

    /// The points that are ranked.
    pub closed spec fn universe(&self) -> spec_fn(PointOffsetType) -> bool {
        self.ranking.universe()
    }

    /// What holds of every cursor: what it knows is about the points that it ranks.
    pub proof fn lemma_is_about(&self)
        requires
            self.wf(),
        ensures
            is_about(self@, self.universe()),
    {
        self.ranking.lemma_is_about();
    }

    /// What the cursor reports.
    pub closed spec fn report(&self) -> DenseExecutionTelemetry {
        DenseExecutionTelemetry {
            plan: Some(self.plan),
            eligible_points: self.ranking.size() as usize,
            quantized_scores: self.quantized_scores,
            exact_scores: self.scanned_scores.saturating_add(
                match self.ranking@ {
                    RankingView::Certificate(certificate) => certificate.computed,
                    _ => 0usize,
                },
            ),
            seeded_exact_scores: self.seeded_exact_scores,
            points_emitted: self.points_emitted,
            ..no_dense_work()
        }
    }

    /// A cursor under certified intervals that refines one point at a time.
    pub fn from_certificate_bounds(
        eligible: Vec<PointOffsetType>,
        bounds: Vec<PendingBound>,
        plan: DensePhysicalPlan,
        quantized_scores: usize,
    ) -> (result: OperationResult<ExactDenseCursor>)
        ensures
            is_certified_cursor(eligible@, bounds@, 1, plan, quantized_scores, result),
    {
        Self::from_certificate_bounds_batched(eligible, bounds, 1, plan, quantized_scores)
    }

    /// A cursor under certified intervals.
    pub fn from_certificate_bounds_batched(
        eligible: Vec<PointOffsetType>,
        bounds: Vec<PendingBound>,
        exact_refine_batch: usize,
        plan: DensePhysicalPlan,
        quantized_scores: usize,
    ) -> (result: OperationResult<ExactDenseCursor>)
        ensures
            is_certified_cursor(
                eligible@,
                bounds@,
                exact_refine_batch,
                plan,
                quantized_scores,
                result,
            ),
    {
        let ranking = match DenseRanking::certified(eligible, bounds, exact_refine_batch, true) {
            Ok(ranking) => ranking,
            Err(error) => {
                return Err(error);
            },
        };
        let cursor = ExactDenseCursor {
            ranking,
            plan,
            quantized_scores,
            scanned_scores: 0,
            seeded_exact_scores: 0,
            points_emitted: 0,
        };
        proof {
            assert forall|id: u32| #[trigger] cursor.universe()(id) <==> eligible@.contains(id) by {
                assert(ranking.ranks(id) <==> eligible@.contains(id));
            }
        }
        Ok(cursor)
    }

    /// A cursor over the exact scores of all eligible points.
    pub fn from_exact_scores(eligible: Vec<PointOffsetType>, scores: &Vec<i64>) -> (result:
        OperationResult<ExactDenseCursor>)
        requires
            eligible@.len() == scores@.len(),
        ensures
            if !eligible@.no_duplicates() {
                result == inconsistent::<ExactDenseCursor>(Fault::DuplicateEligible)
            } else {
                &&& result matches Ok(cursor)
                &&& cursor.wf()
                &&& cursor@ == RankingView::Scan(scan_order(eligible@, scores@), 0)
                &&& forall|id: u32| #[trigger] cursor.universe()(id) <==> eligible@.contains(id)
                &&& cursor.report() == (DenseExecutionTelemetry {
                    plan: Some(DensePhysicalPlan::ExactScan),
                    eligible_points: eligible@.len() as usize,
                    exact_scores: eligible@.len() as usize,
                    ..no_dense_work()
                })
            },
    {
        let count: usize = eligible.len();
        let ranking = match DenseRanking::scanned(eligible, scores) {
            Ok(ranking) => ranking,
            Err(error) => {
                return Err(error);
            },
        };
        let cursor = ExactDenseCursor {
            ranking,
            plan: DensePhysicalPlan::ExactScan,
            quantized_scores: 0,
            scanned_scores: count,
            seeded_exact_scores: 0,
            points_emitted: 0,
        };
        proof {
            assert forall|id: u32| #[trigger] cursor.universe()(id) <==> eligible@.contains(id) by {
                assert(ranking.ranks(id) <==> eligible@.contains(id));
            }
        }
        Ok(cursor)
    }

    /// The ranked points, in ascending order.
    pub fn eligible_points(&self) -> (ids: Vec<PointOffsetType>)
        requires
            self.wf(),
        ensures
            strictly_ascending(ids@),
            forall|id: u32| #[trigger] ids@.contains(id) <==> self.universe()(id),
    {
        let ids = self.ranking.listed();
        proof {
            assert forall|id: u32| #[trigger] ids@.contains(id) <==> self.universe()(id) by {
                assert(ids@.contains(id) <==> self.ranking.ranks(id));
            }
        }
        ids
    }

    /// The next point in exact order, once it is certain.
    pub fn next_result<S: Fn(PointOffsetType) -> i64>(&mut self, scorer: &S) -> (result:
        OperationResult<Option<ScoredPointOffset>>)
        requires
            old(self).wf(),
            scores_all(*scorer),
        ensures
            final(self).wf(),
            final(self).universe() == old(self).universe(),
            ranks_next(old(self)@, *scorer, result, final(self)@),
            result matches Ok(Some(point)) ==> emitted(final(self)@) == emitted(old(self)@).push(
                point,
            ),
            final(self).report() == (DenseExecutionTelemetry {
                exact_scores: raised(
                    old(self).report().exact_scores,
                    scores_learned(old(self)@, final(self)@),
                ),
                points_emitted: if result is Ok && result->Ok_0 is Some {
                    one_more(old(self).report().points_emitted)
                } else {
                    old(self).report().points_emitted
                },
                ..old(self).report()
            }),
    {
        let result = self.ranking.next(scorer);
        match &result {
            Ok(Some(_)) => {
                self.points_emitted = self.points_emitted.saturating_add(1);
            },
            _ => {},
        }
        result
    }

    /// Advances by up to `max_results` points.
    fn advance<S: Fn(PointOffsetType) -> i64>(&mut self, max_results: usize, scorer: &S) -> (result:
        OperationResult<Vec<ScoredPointOffset>>)
        requires
            old(self).wf(),
            scores_all(*scorer),
        ensures
            final(self).wf(),
            final(self).universe() == old(self).universe(),
            ranks_batch(old(self)@, max_results, *scorer, result, final(self)@),
            final(self).size() == old(self).size(),
            final(self).report() == (DenseExecutionTelemetry {
                exact_scores: raised(
                    old(self).report().exact_scores,
                    scores_learned(old(self)@, final(self)@),
                ),
                points_emitted: match result {
                    Ok(points) => old(self).report().points_emitted.saturating_add(
                        points@.len() as usize,
                    ),
                    Err(_) => old(self).report().points_emitted,
                },
                ..old(self).report()
            }),
    {
        let result = self.ranking.next_batch(max_results, scorer);
        match &result {
            Ok(points) => {
                self.points_emitted = self.points_emitted.saturating_add(points.len());
            },
            Err(_) => {},
        }
        result
    }

    /// The number of ranked points.
    closed spec fn size(&self) -> int {
        self.ranking.size()
    }

    /// Turns the cursor into a state that is advanced in batches.
    pub fn into_rank_state(self) -> (state: DenseRankState)
        requires
            self.wf(),
        ensures
            state.wf(),
            state@ == self@,
            state.universe() == self.universe(),
            state.report() == self.report(),
    {
        DenseRankState { cursor: self }
    }

    /// Takes the ranking out of the cursor, which is left without points.
    pub fn take_rank_state(&mut self) -> (state: DenseRankState)
        requires
            old(self).wf(),
        ensures
            state.wf(),
            state@ == old(self)@,
            state.universe() == old(self).universe(),
            state.report() == old(self).report(),
            final(self).wf(),
            final(self)@ matches RankingView::Scan(points, _) && points.len() == 0,
            final(self).report().points_emitted == old(self).report().points_emitted,
    {
        let none: Vec<PointOffsetType> = Vec::new();
        let no_scores: Vec<i64> = Vec::new();
        let empty = match DenseRanking::scanned(none, &no_scores) {
            Ok(empty) => empty,
            Err(_) => vstd::pervasive::unreached(),
        };
        proof {
            crate::dense_cursor::law_scan_order_is_exact(none@, no_scores@);
        }
        let mut ranking = empty;
        std::mem::swap(&mut self.ranking, &mut ranking);
        DenseRankState {
            cursor: ExactDenseCursor {
                ranking,
                plan: self.plan,
                quantized_scores: self.quantized_scores,
                scanned_scores: self.scanned_scores,
                seeded_exact_scores: self.seeded_exact_scores,
                points_emitted: self.points_emitted,
            },
        }
    }

    /// Takes over exact scores that were computed earlier for the same query.
    pub fn seed_exact_scores(&mut self, seeds: &Vec<(PointOffsetType, i64)>) -> (result:
        OperationResult<usize>)
        requires
            old(self).wf(),
        ensures
            final(self).wf(),
            final(self).universe() == old(self).universe(),
            match seed_fault(seeds@, old(self).universe()) {
                Some(fault) => result == refused::<usize>(fault) && final(self)@ == old(self)@,
                None => match (old(self)@, final(self)@) {
                    (RankingView::Certificate(before), RankingView::Certificate(after)) => {
                        &&& result is Ok <==> seeds_agree(before, seeds@)
                        &&& result matches Ok(inserted) ==> takes_seeds(
                            before,
                            seeds@,
                            seeds@.len() as int,
                            inserted as nat,
                            after,
                        )
                        &&& result matches Err(error) ==> is_seed_violation(before, seeds@, error)
                        &&& forall|score: spec_fn(PointOffsetType) -> i64| #[trigger]
                            before.consistent(score) && are_seeds_exact(seeds@, score)
                                ==> after.consistent(score)
                    },
                    (RankingView::Scan(points, _), _) => {
                        &&& final(self)@ == old(self)@
                        &&& result is Ok <==> seeds_match(points, seeds@)
                        &&& result matches Ok(inserted) ==> inserted == 0
                        &&& result matches Err(error) ==> is_scan_violation(points, seeds@, error)
                    },
                    _ => false,
                },
            },
            final(self).report().seeded_exact_scores == (match result {
                Ok(inserted) => old(self).report().seeded_exact_scores.saturating_add(inserted),
                Err(_) => old(self).report().seeded_exact_scores,
            }),
    {
        let result = self.ranking.seed_exact_scores(seeds);
        match &result {
            Ok(inserted) => {
                self.seeded_exact_scores = self.seeded_exact_scores.saturating_add(*inserted);
            },
            Err(_) => {},
        }
        result
    }

    /// The exact scores and ranks of eligible points, equal scores by ascending
    /// point. Every score is kept for the stream and for later probes.
    pub fn probe_exact_ranks<S: Fn(PointOffsetType) -> i64>(
        &mut self,
        ids: &Vec<PointOffsetType>,
        scorer: &S,
    ) -> (result: OperationResult<Vec<DenseExactRankProbe>>)
        requires
            old(self).wf(),
            scores_all(*scorer),
        ensures
            final(self).wf(),
            final(self).universe() == old(self).universe(),
            final(self).report() == (DenseExecutionTelemetry {
                exact_scores: raised(
                    old(self).report().exact_scores,
                    scores_learned(old(self)@, final(self)@),
                ),
                ..old(self).report()
            }),
            match probe_fault(ids@, old(self).universe()) {
                Some(fault) => result == refused::<Vec<DenseExactRankProbe>>(fault)
                    && final(self)@ == old(self)@,
                None => match (old(self)@, final(self)@) {
                    (
                        RankingView::Certificate(before),
                        RankingView::Certificate(after),
                    ) => probes_certificate(
                        before,
                        ids@,
                        offset_keys(before.bounds),
                        *scorer,
                        result,
                        after,
                    ),
                    (RankingView::Scan(points, _), _) => {
                        &&& final(self)@ == old(self)@
                        &&& result matches Ok(probes)
                        &&& probes@.len() == ids@.len()
                        &&& forall|i: int|
                            0 <= i < ids@.len() ==> is_scan_probe(
                                points,
                                ids@[i],
                                #[trigger] probes@[i],
                            )
                    },
                    _ => false,
                },
            },
    {
        self.ranking.probe_exact_ranks(ids, scorer)
    }

    /// The exact scores and ranks of eligible points, equal scores by the given
    /// keys: offsets are physical and need not follow the order of identities.
    pub fn probe_exact_ranks_by_key<
        K: Fn(PointOffsetType) -> ExtendedPointId,
        S: Fn(PointOffsetType) -> i64,
    >(&mut self, ids: &Vec<PointOffsetType>, tie_key: &K, scorer: &S) -> (result: OperationResult<
        Vec<DenseExactRankProbe>,
    >)
        requires
            old(self).wf(),
            keys_all(*tie_key),
            scores_all(*scorer),
        ensures
            final(self).wf(),
            final(self).universe() == old(self).universe(),
            final(self).report() == (DenseExecutionTelemetry {
                exact_scores: raised(
                    old(self).report().exact_scores,
                    scores_learned(old(self)@, final(self)@),
                ),
                ..old(self).report()
            }),
            match probe_fault(ids@, old(self).universe()) {
                Some(fault) => result == refused::<Vec<DenseExactRankProbe>>(fault)
                    && final(self)@ == old(self)@,
                None => match (old(self)@, final(self)@) {
                    (
                        RankingView::Certificate(before),
                        RankingView::Certificate(after),
                    ) => exists|keys: Seq<ExtendedPointId>|
                        #[trigger] are_keys(*tie_key, before.bounds, keys) && probes_certificate(
                            before,
                            ids@,
                            keys,
                            *scorer,
                            result,
                            after,
                        ),
                    (RankingView::Scan(points, _), _) => {
                        &&& final(self)@ == old(self)@
                        &&& exists|keys: Seq<ExtendedPointId>|
                            #[trigger] are_scan_keys(*tie_key, points, keys)
                                && probes_scan_by_key(points, keys, ids@, result)
                    },
                    _ => false,
                },
            },
    {
        self.ranking.probe_exact_ranks_by_key(ids, tie_key, scorer)
    }

    /// What the cursor has done.
    pub fn telemetry(&self) -> (telemetry: DenseExecutionTelemetry)
        ensures
            telemetry == self.report(),
    {
        let mut telemetry = DenseExecutionTelemetry::default();
        telemetry.plan = Some(self.plan);
        telemetry.eligible_points = self.ranking.len();
        telemetry.quantized_scores = self.quantized_scores;
        telemetry.exact_scores = self.scanned_scores.saturating_add(self.ranking.computed());
        telemetry.seeded_exact_scores = self.seeded_exact_scores;
        telemetry.points_emitted = self.points_emitted;
        telemetry
    }
}

/// What is returned for a cursor under certified intervals.
pub open spec fn is_certified_cursor(
    eligible: Seq<u32>,
    bounds: Seq<PendingBound>,
    exact_refine_batch: usize,
    plan: DensePhysicalPlan,
    quantized_scores: usize,
    result: OperationResult<ExactDenseCursor>,
) -> bool {
    if exact_refine_batch == 0 {
        result == refused::<ExactDenseCursor>(Fault::ZeroRefineBatch)
    } else {
        match universe_fault(eligible, bounds) {
            Some(fault) => result == inconsistent::<ExactDenseCursor>(fault),
            None => {
                &&& result matches Ok(cursor)
                &&& cursor.wf()
                &&& forall|id: u32| #[trigger] cursor.universe()(id) <==> eligible.contains(id)
                &&& cursor@ matches RankingView::Certificate(certificate)
                &&& sorts_bounds(bounds, certificate.bounds)
                &&& certificate == fresh_certificate(
                    certificate.bounds,
                    exact_refine_batch,
                    true,
                )
                &&& cursor.report() == (DenseExecutionTelemetry {
                    plan: Some(plan),
                    eligible_points: eligible.len() as usize,
                    quantized_scores,
                    ..no_dense_work()
                })
            },
        }
    }
}

impl DenseRankState {
    /// Whether the parts belong together.
    pub closed spec fn wf(&self) -> bool {
        self.cursor.wf()
    }

    /// The points that are ranked.
    pub closed spec fn universe(&self) -> spec_fn(PointOffsetType) -> bool {
        self.cursor.universe()
    }

    /// The number of ranked points.
    pub closed spec fn size(&self) -> int {
        self.cursor.size()
    }

    /// What holds of every state: what it knows is about the points that it ranks.
    pub proof fn lemma_is_about(&self)
        requires
            self.wf(),
        ensures
            is_about(self@, self.universe()),
    {
        self.cursor.lemma_is_about();
    }

    /// What the state reports.
    pub closed spec fn report(&self) -> DenseExecutionTelemetry {
        self.cursor.report()
    }

    /// Advances by up to `max_results` points, with a scorer that is needed only
    /// for this call.
    pub fn next_batch_with<S: Fn(PointOffsetType) -> i64>(
        &mut self,
        max_results: usize,
        exact_scorer: &S,
    ) -> (result: OperationResult<Vec<ScoredPointOffset>>)
        requires
            old(self).wf(),
            scores_all(*exact_scorer),
        ensures
            final(self).wf(),
            final(self).universe() == old(self).universe(),
            final(self).size() == old(self).size(),
            max_results == 0 ==> {
                &&& result == refused::<Vec<ScoredPointOffset>>(Fault::ZeroRankBatch)
                &&& *final(self) == *old(self)
            },
            max_results > 0 ==> {
                &&& ranks_batch(old(self)@, max_results, *exact_scorer, result, final(self)@)
                &&& final(self).report() == (DenseExecutionTelemetry {
                    exact_scores: raised(
                        old(self).report().exact_scores,
                        scores_learned(old(self)@, final(self)@),
                    ),
                    points_emitted: match result {
                        Ok(points) => old(self).report().points_emitted.saturating_add(
                            points@.len() as usize,
                        ),
                        Err(_) => old(self).report().points_emitted,
                    },
                    ..old(self).report()
                })
            },
    {
        if max_results == 0 {
            return refuse(Fault::ZeroRankBatch);
        }
        self.cursor.advance(max_results, exact_scorer)
    }

    /// What the state has done.
    pub fn telemetry(&self) -> (telemetry: DenseExecutionTelemetry)
        ensures
            telemetry == self.report(),
    {
        self.cursor.telemetry()
    }

    /// The number of ranked points.
    pub fn eligible_len(&self) -> (count: usize)
        ensures
            count == self.size(),
    {
        self.cursor.ranking.len()
    }
}

} // verus!
