//! Rankings under the certificate of a per-vector scalar index.

use crate::dense_certificate::{PendingBound, PointOffsetType};
use crate::dense_plan::{
    all_below, finite_vector, has_inner_product, is_finite_vector, is_inner_product, Distance,
    VectorStorageDatatype,
};
use crate::dense_rank_state::{
    is_certified_state, no_rank_work, prepare_ranking, DenseExecutionPolicy,
    DenseExecutionTelemetry, DensePhysicalPlan, DenseRankState, DEFAULT_DENSE_SCALAR_MIN_POINTS,
};
use crate::dense_ranking::{is_contiguous, RankingView};
use crate::offsets::{bound_ids, sorted_unique, strictly_ascending};
use crate::operation_error::{
    inconsistency, inconsistent, refuse, refused, Fault, OperationError, OperationResult,
};
use vstd::prelude::*;

verus! {

/// How many points are certified between two looks at the stop signal.
pub const SCORE_CHUNK_SIZE: usize = 4_096;

/// The number of rounding steps from which on no guard is defined.
pub const GUARD_LIMIT: usize = 8_388_608;

/// What a per-vector scalar index says of itself.
#[derive(Clone, Copy, Debug, PartialEq, Eq, Structural)]
pub struct PerVectorScalarMetadata {
    pub dimension: usize,
    pub vector_count: usize,
    pub row_bytes: usize,
    pub source_generation: u64,
}

/// A storage of original vectors.
#[derive(Clone, Copy, Debug, PartialEq, Eq, Structural)]
pub struct VectorStorageDescription {
    pub distance: Distance,
    pub datatype: VectorStorageDatatype,
    /// The bytes of one vector, where the storage has one layout.
    pub layout_bytes: Option<usize>,
    /// The number of vectors.
    pub vector_count: usize,
}

/// The distances that scalar rows can stand for.
#[derive(Clone, Copy, Debug, PartialEq, Eq, Structural)]
pub enum DistanceType {
    Cosine,
    Dot,
}

/// The times and sizes of building a rank state.
#[derive(Clone, Copy, Debug, Default, Eq, PartialEq, Structural)]
pub struct PerVectorScalarBuildProfile {
    pub total_build_ns: u128,
    pub validation_ns: u128,
    pub query_preprocess_ns: u128,
    pub query_quantization_ns: u128,
    pub scan_and_bound_ns: u128,
    pub eligible_validation_ns: u128,
    pub bound_validation_ns: u128,
    pub pending_construction_ns: u128,
    pub heapify_ns: u128,
    pub scanned_points: usize,
    pub int8_dot_products: usize,
    pub encoded_bytes: usize,
    pub bound_count: usize,
    pub initial_heap_items: usize,
    pub eligible_reserved_bytes: usize,
    pub bounds_reserved_bytes: usize,
    pub bound_id_reserved_bytes: usize,
    pub pending_reserved_bytes: usize,
    pub total_temporary_reserved_bytes: usize,
}

impl PerVectorScalarBuildProfile {
    /// The profile with the sizes that follow from a scan of all points.
    pub fn after_scan(self, metadata: &PerVectorScalarMetadata, points: usize) -> (profile:
        PerVectorScalarBuildProfile)
        ensures
            profile == (PerVectorScalarBuildProfile {
                scanned_points: points,
                int8_dot_products: points,
                encoded_bytes: crate::reciprocal_rank_fusion::progress::product(
                    metadata.row_bytes,
                    points,
                ),
                bound_count: points,
                initial_heap_items: points,
                ..self
            }),
    {
        let mut profile = self;
        profile.scanned_points = points;
        profile.int8_dot_products = points;
        profile.encoded_bytes =
        crate::reciprocal_rank_fusion::progress::saturating_product(metadata.row_bytes, points);
        profile.bound_count = points;
        profile.initial_heap_items = points;
        profile
    }

    /// The profile with the sum of its temporary sizes.
    pub fn with_total(self) -> (profile: PerVectorScalarBuildProfile)
        ensures
            profile == (PerVectorScalarBuildProfile {
                total_temporary_reserved_bytes: self.eligible_reserved_bytes.saturating_add(
                    self.bounds_reserved_bytes,
                ).saturating_add(self.bound_id_reserved_bytes).saturating_add(
                    self.pending_reserved_bytes,
                ),
                ..self
            }),
    {
        let mut profile = self;
        profile.total_temporary_reserved_bytes = self.eligible_reserved_bytes.saturating_add(
            self.bounds_reserved_bytes,
        ).saturating_add(self.bound_id_reserved_bytes).saturating_add(self.pending_reserved_bytes);
        profile
    }
}

/// Whether scalar rows can stand for the vectors of a storage.
pub open spec fn supports_rows(storage: VectorStorageDescription, dimension: usize) -> bool {
    &&& dimension > 0
    &&& storage.datatype == VectorStorageDatatype::Float32
    &&& is_inner_product(storage.distance)
    &&& storage.layout_bytes matches Some(bytes)
    &&& bytes == dimension * 4
}

/// Checks that scalar rows can stand for the vectors of a storage.
pub fn validate_storage(storage: &VectorStorageDescription, dimension: usize) -> (result:
    OperationResult<()>)
    ensures
        if supports_rows(*storage, dimension) {
            result == Ok::<(), OperationError>(())
        } else {
            result == refused::<()>(Fault::UnsupportedScalarStorage)
        },
{
    let expected: Option<usize> = dimension.checked_mul(4);
    let has_layout = match (storage.layout_bytes, expected) {
        (Some(bytes), Some(expected)) => bytes == expected,
        _ => false,
    };
    if dimension == 0 || storage.datatype != VectorStorageDatatype::Float32 || !has_inner_product(
        storage.distance,
    ) || !has_layout {
        return refuse(Fault::UnsupportedScalarStorage);
    }
    Ok(())
}

/// Checks that an index was made from the expected generation of its source.
pub fn validate_source_generation(
    metadata: &PerVectorScalarMetadata,
    expected_source_generation: u64,
) -> (result: OperationResult<()>)
    ensures
        if metadata.source_generation == expected_source_generation {
            result == Ok::<(), OperationError>(())
        } else {
            result == inconsistent::<()>(
                Fault::SourceGeneration {
                    index: metadata.source_generation,
                    segment: expected_source_generation,
                },
            )
        },
{
    if metadata.source_generation != expected_source_generation {
        return inconsistency(
            Fault::SourceGeneration {
                index: metadata.source_generation,
                segment: expected_source_generation,
            },
        );
    }
    Ok(())
}

/// The distance as scalar rows know it.
pub fn distance_type(distance: Distance) -> (result: DistanceType)
    requires
        is_inner_product(distance),
    ensures
        result == (if distance == Distance::Cosine {
            DistanceType::Cosine
        } else {
            DistanceType::Dot
        }),
{
    match distance {
        Distance::Cosine => DistanceType::Cosine,
        _ => DistanceType::Dot,
    }
}

/// Whether an index fits a segment.
pub fn valid_for(metadata: &PerVectorScalarMetadata, vector_count: usize, dimension: usize) -> (
    result: bool)
    ensures
        result == (metadata.vector_count == vector_count && metadata.dimension == dimension),
{
    metadata.vector_count == vector_count && metadata.dimension == dimension
}

/// Whether the guard against rounding is defined for a dimension.
pub open spec fn guard_is_defined(dimension: usize) -> bool {
    dimension * 8 + 64 < GUARD_LIMIT
}

/// The rounding steps of one score, where a guard is defined for them.
pub fn guard_operations(dimension: usize) -> (operations: Option<usize>)
    ensures
        operations == (if guard_is_defined(dimension) {
            Some((dimension * 8 + 64) as usize)
        } else {
            None
        }),
{
    let scaled: usize = match dimension.checked_mul(8) {
        Some(scaled) => scaled,
        None => {
            return None;
        },
    };
    let operations: usize = match scaled.checked_add(64) {
        Some(operations) => operations,
        None => {
            return None;
        },
    };
    if operations >= GUARD_LIMIT {
        return None;
    }
    Some(operations)
}

/// Why the request of a rank state fails before anything is certified.
pub open spec fn request_fault(
    metadata: PerVectorScalarMetadata,
    storage: VectorStorageDescription,
    eligible: Seq<u32>,
    query: Seq<u32>,
    encodes: bool,
) -> Option<OperationError> {
    if !supports_rows(storage, metadata.dimension) {
        Some(OperationError::ValidationError(Fault::UnsupportedScalarStorage))
    } else if storage.vector_count != metadata.vector_count {
        Some(OperationError::InconsistentStorage(Fault::ScalarVectorCount))
    } else if query.len() != metadata.dimension || !finite_vector(query) {
        Some(OperationError::ValidationError(Fault::InvalidScalarQuery))
    } else if !eligible.no_duplicates() || !all_below(eligible, metadata.vector_count) {
        Some(OperationError::InconsistentStorage(Fault::InvalidScalarUniverse))
    } else if !encodes {
        Some(OperationError::ValidationError(Fault::ScalarQueryEncoding))
    } else if !guard_is_defined(query.len() as usize) {
        Some(OperationError::ValidationError(Fault::UnsupportedGuard))
    } else {
        None
    }
}

/// Checks the request of a rank state and sorts its points. The index says whether it can
/// encode the query.
pub fn check_request(
    metadata: &PerVectorScalarMetadata,
    storage: &VectorStorageDescription,
    eligible: &Vec<PointOffsetType>,
    query: &Vec<u32>,
    encodes: bool,
) -> (result: OperationResult<Vec<PointOffsetType>>)
    ensures
        match request_fault(*metadata, *storage, eligible@, query@, encodes) {
            Some(error) => result == Err::<Vec<PointOffsetType>, OperationError>(error),
            None => {
                &&& result matches Ok(sorted)
                &&& strictly_ascending(sorted@)
                &&& sorted@.len() == eligible@.len()
                &&& forall|id: u32| #[trigger] sorted@.contains(id) <==> eligible@.contains(id)
            },
        },
{
    match validate_storage(storage, metadata.dimension) {
        Ok(_) => {},
        Err(error) => {
            return Err(error);
        },
    }
    if storage.vector_count != metadata.vector_count {
        return inconsistency(Fault::ScalarVectorCount);
    }
    if query.len() != metadata.dimension || !is_finite_vector(query) {
        return refuse(Fault::InvalidScalarQuery);
    }
    let sorted = match sorted_unique(eligible) {
        Some(sorted) => sorted,
        None => {
            return inconsistency(Fault::InvalidScalarUniverse);
        },
    };
    if !crate::dense_plan::are_below(eligible, metadata.vector_count) {
        return inconsistency(Fault::InvalidScalarUniverse);
    }
    if !encodes {
        return refuse(Fault::ScalarQueryEncoding);
    }
    if guard_operations(query.len()).is_none() {
        return refuse(Fault::UnsupportedGuard);
    }
    Ok(sorted)
}

/// Whether a certifier can be called on every point.
pub open spec fn certifies_all<C: Fn(PointOffsetType) -> Option<(i64, i64)>>(certifier: C) -> bool {
    forall|id: PointOffsetType| call_requires(certifier, (id,))
}

/// Whether a bound is what the certifier returned for its point.
pub open spec fn is_certified<C: Fn(PointOffsetType) -> Option<(i64, i64)>>(
    certifier: C,
    bound: PendingBound,
) -> bool {
    call_ensures(certifier, (bound.id,), Some((bound.lower, bound.value)))
}

/// Whether bounds are what the certifier returned for the given points, in their
/// order.
pub open spec fn are_certified<C: Fn(PointOffsetType) -> Option<(i64, i64)>>(
    certifier: C,
    ids: Seq<PointOffsetType>,
    bounds: Seq<PendingBound>,
) -> bool {
    &&& bound_ids(bounds) == ids
    &&& forall|i: int| 0 <= i < bounds.len() ==> is_certified(certifier, #[trigger] bounds[i])
}

/// Whether the certifier failed on one of the points.
pub open spec fn fails_on<C: Fn(PointOffsetType) -> Option<(i64, i64)>>(
    certifier: C,
    ids: Seq<PointOffsetType>,
) -> bool {
    exists|i: int|
        0 <= i < ids.len() && call_ensures(
            certifier,
            (#[trigger] ids[i],),
            None::<(i64, i64)>,
        )
}

/// Whether the stop signal was down before every chunk of a number of points.
pub open spec fn goes_on<T: Fn(usize) -> bool>(stopped: T, count: nat) -> bool {
    forall|start: usize|
        start < count && start % SCORE_CHUNK_SIZE == 0 ==> #[trigger] call_ensures(
            stopped,
            (start,),
            false,
        )
}

/// Whether the stop signal was seen: a request that it does not end found it down at its
/// beginning, and one that succeeds before every chunk of its points.
pub open spec fn heeds_stop<T: Fn(usize) -> bool, A>(
    stopped: T,
    count: nat,
    result: OperationResult<A>,
) -> bool {
    &&& match result {
        Err(OperationError::Cancelled) => exists|start: usize| #[trigger]
            call_ensures(stopped, (start,), true),
        _ => call_ensures(stopped, (0usize,), false),
    }
    &&& result is Ok ==> goes_on(stopped, count)
}

/// The certified intervals of points. The stop signal is looked at before every
/// chunk.
pub fn certify_points<
    C: Fn(PointOffsetType) -> Option<(i64, i64)>,
    T: Fn(usize) -> bool,
>(ids: &Vec<PointOffsetType>, certifier: &C, stopped: &T) -> (result: OperationResult<
    Vec<PendingBound>,
>)
    requires
        certifies_all(*certifier),
        forall|start: usize| call_requires(*stopped, (start,)),
    ensures
        match result {
            Ok(bounds) => are_certified(*certifier, ids@, bounds@),
            Err(OperationError::Cancelled) => exists|start: usize|
                start < ids@.len() && start % SCORE_CHUNK_SIZE == 0 && #[trigger] call_ensures(
                    *stopped,
                    (start,),
                    true,
                ),
            Err(error) => error == OperationError::InconsistentStorage(
                Fault::ScalarCertificateFailed,
            ) && fails_on(*certifier, ids@),
        },
        result is Ok ==> goes_on(*stopped, ids@.len()),
{
    let mut bounds: Vec<PendingBound> = Vec::new();
    let mut i: usize = 0;
    while i < ids.len()
        invariant
            certifies_all(*certifier),
            forall|start: usize| call_requires(*stopped, (start,)),
            i <= ids@.len(),
            bound_ids(bounds@) =~= ids@.take(i as int),
            forall|k: int|
                0 <= k < bounds@.len() ==> is_certified(*certifier, #[trigger] bounds@[k]),
            forall|start: usize|
                start < i && start % SCORE_CHUNK_SIZE == 0 ==> #[trigger] call_ensures(
                    *stopped,
                    (start,),
                    false,
                ),
        decreases ids@.len() - i,
    {
        if i % SCORE_CHUNK_SIZE == 0 {
            let stop: bool = stopped(i);
            if stop {
                assert(call_ensures(*stopped, (i,), true));
                return Err(OperationError::Cancelled);
            }
        }
        let id: u32 = ids[i];
        match certifier(id) {
            Some((lower, value)) => {
                let ghost before = bounds@;
                bounds.push(PendingBound { id, lower, value });
                assert(bound_ids(bounds@) =~= bound_ids(before).push(id));
                assert(ids@.take(i + 1) =~= ids@.take(i as int).push(id));
            },
            None => {
                assert(call_ensures(*certifier, (ids@[i as int],), None::<(i64, i64)>));
                return inconsistency(Fault::ScalarCertificateFailed);
            },
        }
        i += 1;
    }
    assert(bound_ids(bounds@) =~= ids@);
    Ok(bounds)
}

/// Whether a result is what a request for a rank state leads to: its fault, what
/// stopped the certification, or the state under the certified intervals.
pub open spec fn is_rank_state<C: Fn(PointOffsetType) -> Option<(i64, i64)>>(
    metadata: PerVectorScalarMetadata,
    storage: VectorStorageDescription,
    eligible: Seq<PointOffsetType>,
    query: Seq<u32>,
    encodes: bool,
    exact_refine_batch: usize,
    certifier: C,
    result: OperationResult<DenseRankState>,
) -> bool {
    match request_fault(metadata, storage, eligible, query, encodes) {
        Some(error) => result == Err::<DenseRankState, OperationError>(error) || result == Err::<
            DenseRankState,
            OperationError,
        >(OperationError::Cancelled),
        None => {
            ||| result == Err::<DenseRankState, OperationError>(OperationError::Cancelled)
            ||| result == inconsistent::<DenseRankState>(Fault::ScalarCertificateFailed)
                && fails_on(certifier, eligible)
            ||| exists|ids: Seq<PointOffsetType>, bounds: Seq<PendingBound>|
                {
                    &&& strictly_ascending(ids)
                    &&& forall|id: u32| ids.contains(id) <==> eligible.contains(id)
                    &&& #[trigger] are_certified(certifier, ids, bounds)
                    &&& is_certified_state(
                        ids,
                        bounds,
                        exact_refine_batch,
                        DensePhysicalPlan::PerVectorScalarCertificate,
                        ids.len() as usize,
                        result,
                    )
                }
        },
    }
}

/// The rank state of listed points that refines one point at a time.
pub fn rank_state<C: Fn(PointOffsetType) -> Option<(i64, i64)>, T: Fn(usize) -> bool>(
    metadata: &PerVectorScalarMetadata,
    storage: &VectorStorageDescription,
    eligible: &Vec<PointOffsetType>,
    query: &Vec<u32>,
    encodes: bool,
    certifier: &C,
    stopped: &T,
) -> (result: OperationResult<DenseRankState>)
    requires
        certifies_all(*certifier),
        forall|start: usize| call_requires(*stopped, (start,)),
    ensures
        is_rank_state(*metadata, *storage, eligible@, query@, encodes, 1, *certifier, result),
        heeds_stop(*stopped, eligible@.to_set().len(), result),
{
    rank_state_with_refine_batch(metadata, storage, eligible, query, encodes, 1, certifier, stopped)
}

/// The rank state of listed points.
pub fn rank_state_with_refine_batch<
    C: Fn(PointOffsetType) -> Option<(i64, i64)>,
    T: Fn(usize) -> bool,
>(
    metadata: &PerVectorScalarMetadata,
    storage: &VectorStorageDescription,
    eligible: &Vec<PointOffsetType>,
    query: &Vec<u32>,
    encodes: bool,
    exact_refine_batch: usize,
    certifier: &C,
    stopped: &T,
) -> (result: OperationResult<DenseRankState>)
    requires
        certifies_all(*certifier),
        forall|start: usize| call_requires(*stopped, (start,)),
    ensures
        is_rank_state(
            *metadata,
            *storage,
            eligible@,
            query@,
            encodes,
            exact_refine_batch,
            *certifier,
            result,
        ),
        heeds_stop(*stopped, eligible@.to_set().len(), result),
{
    let stop: bool = stopped(0);
    if stop {
        assert(call_ensures(*stopped, (0usize,), true));
        return Err(OperationError::Cancelled);
    }
    let sorted = match check_request(metadata, storage, eligible, query, encodes) {
        Ok(sorted) => sorted,
        Err(error) => {
            return Err(error);
        },
    };
    let bounds = match certify_points(&sorted, certifier, stopped) {
        Ok(bounds) => bounds,
        Err(error) => {
            proof {
                if fails_on(*certifier, sorted@) {
                    let i = choose|i: int|
                        0 <= i < sorted@.len() && call_ensures(
                            *certifier,
                            (#[trigger] sorted@[i],),
                            None::<(i64, i64)>,
                        );
                    assert(sorted@.contains(sorted@[i]));
                    assert(eligible@.contains(sorted@[i]));
                    let k = choose|k: int| 0 <= k < eligible@.len() && eligible@[k] == sorted@[i];
                    assert(call_ensures(*certifier, (eligible@[k],), None::<(i64, i64)>));
                }
            }
            return Err(error);
        },
    };
    let count: usize = sorted.len();
    proof {
        assert(are_certified(*certifier, sorted@, bounds@));
        assert(sorted@.to_set() =~= eligible@.to_set()) by {
            assert forall|id: u32| sorted@.contains(id) <==> eligible@.contains(id) by {}
        }
        assert(sorted@.no_duplicates()) by {
            assert forall|left: int, right: int|
                0 <= left < sorted@.len() && 0 <= right < sorted@.len() && left
                    != right implies sorted@[left] != sorted@[right] by {
                if left < right {
                    assert(sorted@[left] < sorted@[right]);
                } else {
                    assert(sorted@[right] < sorted@[left]);
                }
            }
        }
        sorted@.unique_seq_to_set();
    }
    DenseRankState::from_certificate_bounds_batched(
        sorted,
        bounds,
        exact_refine_batch,
        DensePhysicalPlan::PerVectorScalarCertificate,
        count,
    )
}

/// The rank state of all points of a segment.
pub fn rank_state_contiguous_with_refine_batch<
    C: Fn(PointOffsetType) -> Option<(i64, i64)>,
    T: Fn(usize) -> bool,
>(
    metadata: &PerVectorScalarMetadata,
    storage: &VectorStorageDescription,
    query: &Vec<u32>,
    encodes: bool,
    exact_refine_batch: usize,
    certifier: &C,
    stopped: &T,
) -> (result: OperationResult<DenseRankState>)
    requires
        certifies_all(*certifier),
        forall|start: usize| call_requires(*stopped, (start,)),
    ensures
        match contiguous_fault(*metadata, *storage, query@, encodes) {
            Some(error) => result == Err::<DenseRankState, OperationError>(error) || result
                == Err::<DenseRankState, OperationError>(OperationError::Cancelled),
            None => {
                let ids = Seq::new(metadata.vector_count as nat, |i: int| i as u32);
                ||| result == Err::<DenseRankState, OperationError>(OperationError::Cancelled)
                ||| result == inconsistent::<DenseRankState>(Fault::ScalarCertificateFailed)
                    && fails_on(*certifier, ids)
                ||| exists|bounds: Seq<PendingBound>|
                    {
                        &&& #[trigger] are_certified(*certifier, ids, bounds)
                        &&& is_contiguous_state(
                            metadata.vector_count,
                            bounds,
                            exact_refine_batch,
                            result,
                        )
                    }
            },
        },
        heeds_stop(*stopped, metadata.vector_count as nat, result),
{
    let stop: bool = stopped(0);
    if stop {
        assert(call_ensures(*stopped, (0usize,), true));
        return Err(OperationError::Cancelled);
    }
    match validate_storage(storage, metadata.dimension) {
        Ok(_) => {},
        Err(error) => {
            return Err(error);
        },
    }
    let point_count: usize = metadata.vector_count;
    if storage.vector_count != point_count {
        return inconsistency(Fault::ScalarVectorCount);
    }
    if point_count as u64 > 0x1_0000_0000u64 {
        return inconsistency(Fault::UniverseTooLarge);
    }
    if query.len() != metadata.dimension || !is_finite_vector(query) {
        return refuse(Fault::InvalidScalarQuery);
    }
    if !encodes {
        return refuse(Fault::ScalarQueryEncoding);
    }
    if guard_operations(query.len()).is_none() {
        return refuse(Fault::UnsupportedGuard);
    }
    let mut ids: Vec<PointOffsetType> = Vec::new();
    while ids.len() < point_count
        invariant
            point_count <= 0x1_0000_0000,
            ids@.len() <= point_count,
            ids@ =~= Seq::new(ids@.len(), |i: int| i as u32),
        decreases point_count - ids@.len(),
    {
        let id: u32 = ids.len() as u32;
        ids.push(id);
    }
    assert(ids@ =~= Seq::new(metadata.vector_count as nat, |i: int| i as u32));
    let pending = match certify_points(&ids, certifier, stopped) {
        Ok(pending) => pending,
        Err(error) => {
            return Err(error);
        },
    };
    proof {
        assert(are_certified(*certifier, ids@, pending@));
    }
    DenseRankState::from_contiguous_pending_batched(
        point_count,
        pending,
        exact_refine_batch,
        DensePhysicalPlan::PerVectorScalarCertificate,
        point_count,
    )
}

/// Why the request of a contiguous rank state fails before anything is certified.
pub open spec fn contiguous_fault(
    metadata: PerVectorScalarMetadata,
    storage: VectorStorageDescription,
    query: Seq<u32>,
    encodes: bool,
) -> Option<OperationError> {
    if !supports_rows(storage, metadata.dimension) {
        Some(OperationError::ValidationError(Fault::UnsupportedScalarStorage))
    } else if storage.vector_count != metadata.vector_count {
        Some(OperationError::InconsistentStorage(Fault::ScalarVectorCount))
    } else if metadata.vector_count > 0x1_0000_0000 {
        Some(OperationError::InconsistentStorage(Fault::UniverseTooLarge))
    } else if query.len() != metadata.dimension || !finite_vector(query) {
        Some(OperationError::ValidationError(Fault::InvalidScalarQuery))
    } else if !encodes {
        Some(OperationError::ValidationError(Fault::ScalarQueryEncoding))
    } else if !guard_is_defined(query.len() as usize) {
        Some(OperationError::ValidationError(Fault::UnsupportedGuard))
    } else {
        None
    }
}

/// What is returned for the contiguous state under certified intervals.
pub open spec fn is_contiguous_state(
    point_count: usize,
    bounds: Seq<PendingBound>,
    exact_refine_batch: usize,
    result: OperationResult<DenseRankState>,
) -> bool {
    if exact_refine_batch == 0 {
        result == refused::<DenseRankState>(Fault::ZeroRefineBatch)
    } else if !is_contiguous(bounds, point_count as int) {
        result == inconsistent::<DenseRankState>(Fault::ContiguousBoundsMismatch)
    } else {
        &&& result matches Ok(state)
        &&& state.wf()
        &&& forall|id: u32| #[trigger] state.universe()(id) <==> id < point_count
        &&& state@ == crate::dense_ranking::RankingView::Certificate(
            crate::dense_certificate::fresh_certificate(bounds, exact_refine_batch, true),
        )
        &&& state.report() == (DenseExecutionTelemetry {
            plan: Some(DensePhysicalPlan::PerVectorScalarCertificate),
            eligible_points: point_count,
            quantized_scores: point_count,
            ..no_rank_work()
        })
    }
}

/// The rank state of points that are scanned exactly, without any index.
pub fn exact_fallback(
    distance: Distance,
    datatype: VectorStorageDatatype,
    eligible: &Vec<PointOffsetType>,
    query: &Vec<u32>,
    stopped: bool,
) -> (result: OperationResult<DenseRankState>)
    ensures
        match crate::exact_dense_stream::request_error(stopped, 1, query@, eligible@) {
            Some(error) => result == Err::<DenseRankState, OperationError>(error),
            None => {
                &&& result matches Ok(state)
                &&& state.wf()
                &&& state@ == RankingView::Unscanned
                &&& forall|id: u32| #[trigger] state.universe()(id) <==> eligible@.contains(id)
                &&& state.report() == (DenseExecutionTelemetry {
                    plan: Some(DensePhysicalPlan::ExactScan),
                    eligible_points: eligible@.len() as usize,
                    ..no_rank_work()
                })
            },
        },
{
    let policy = DenseExecutionPolicy {
        scalar_min_points: DEFAULT_DENSE_SCALAR_MIN_POINTS,
        force_exact_scan: true,
    };
    match prepare_ranking(distance, datatype, None, eligible, query, policy, 1, stopped) {
        Ok(request) => {
            let ghost listed = request.eligible@;
            proof {
                assert(listed.no_duplicates()) by {
                    assert forall|left: int, right: int|
                        0 <= left < listed.len() && 0 <= right < listed.len() && left
                            != right implies listed[left] != listed[right] by {
                        if left < right {
                            assert(listed[left] < listed[right]);
                        } else {
                            assert(listed[right] < listed[left]);
                        }
                    }
                }
            }
            let result = DenseRankState::build_exact_scan_state(request.eligible);
            assert(result matches Ok(state) && forall|id: u32| #[trigger]
                state.universe()(id) <==> eligible@.contains(id)) by {
                let state = result->Ok_0;
                assert forall|id: u32| #[trigger] state.universe()(id) <==> eligible@.contains(
                    id,
                ) by {
                    assert(listed.contains(id) <==> eligible@.contains(id));
                }
            }
            result
        },
        Err(error) => Err(error),
    }
}

} // verus!
