//! What a dense ranking is computed from: certified intervals or exact scores.

use crate::dense_certificate::{scores_all, PendingBound, PointOffsetType};
use crate::dense_plan::{dot_product, integer_dot, symmetric_codes, QuantizedDescription};
use crate::dense_quantized::{QuantizedVector, QuantizedVectorMetadata};
use crate::dense_scalar_certified::ScalarReconstructionStats;
use crate::exact_dense_stream::DensePhysicalPlan;
use crate::offsets::{bound_ids, strictly_ascending};
use crate::operation_error::{
    inconsistency, inconsistent, Fault, OperationError, OperationResult,
};
use crate::per_vector_scalar_index::{
    are_certified, certifies_all, certify_points, check_request, fails_on, goes_on, request_fault,
    PerVectorScalarMetadata, VectorStorageDescription, SCORE_CHUNK_SIZE,
};
use vstd::prelude::*;

verus! {

/// The compact codes of a segment: those of the query, those of every point, and what
/// turns an inner product of codes into an interval.
pub struct CompactAccess<W, C> {
    pub query: QuantizedVector,
    pub row: W,
    pub enclose: C,
}

/// The scalar quantization of a segment: the statistics of the query, where there are
/// any, the quantized score and the statistics of every point, and what turns them
/// into an interval.
pub struct ScalarAccess<A, R, E> {
    pub query: Option<ScalarReconstructionStats>,
    pub approximate: A,
    pub reconstruct: R,
    pub enclose: E,
}

/// The scalar index of a segment and what certifies the interval of a point.
pub struct ScalarIndexAccess<V> {
    pub metadata: PerVectorScalarMetadata,
    pub storage: VectorStorageDescription,
    /// Whether the index can encode the query.
    pub encodes: bool,
    pub certifier: V,
}

/// What a ranking is computed from.
#[derive(Debug)]
pub enum DenseEvidence {
    Bounds(Vec<PendingBound>),
    Scores(Vec<i64>),
}

/// Whether the codes of a point can be multiplied with those of a query.
pub open spec fn fits_codes(query: QuantizedVector, row: QuantizedVector) -> bool {
    &&& row.codes@.len() == query.codes@.len()
    &&& symmetric_codes(row.codes@)
}

impl<
    W: Fn(PointOffsetType) -> QuantizedVector,
    C: Fn(i64, &QuantizedVectorMetadata, &QuantizedVectorMetadata, usize) -> (i64, i64),
> CompactAccess<W, C> {
    /// Whether everything can be asked, and the codes of every point fit the query.
    pub open spec fn answers(self) -> bool {
        &&& symmetric_codes(self.query.codes@)
        &&& self.query.codes@.len() * 16129 <= i64::MAX
        &&& forall|id: PointOffsetType| #[trigger] self.row.requires((id,))
        &&& forall|id: PointOffsetType, row: QuantizedVector| #[trigger]
            self.row.ensures((id,), row) ==> fits_codes(self.query, row)
        &&& forall|
            product: i64,
            query: &QuantizedVectorMetadata,
            document: &QuantizedVectorMetadata,
            dimension: usize,
        | #[trigger]
            self.enclose.requires((product, query, document, dimension))
    }

    /// Whether an interval is that of a point: the one around the product of its codes
    /// with those of the query.
    pub open spec fn encloses(self, id: PointOffsetType, interval: (i64, i64)) -> bool {
        exists|row: QuantizedVector|
            {
                &&& #[trigger] self.row.ensures((id,), row)
                &&& self.enclose.ensures(
                    (
                        dot_product(
                            self.query.codes@,
                            row.codes@,
                            self.query.codes@.len() as int,
                        ) as i64,
                        &self.query.metadata,
                        &row.metadata,
                        self.query.codes@.len() as usize,
                    ),
                    interval,
                )
            }
    }

    /// The interval of a point.
    pub fn interval(&self, id: PointOffsetType) -> (interval: (i64, i64))
        requires
            self.answers(),
        ensures
            self.encloses(id, interval),
    {
        let fetch = &self.row;
        let row = fetch(id);
        assert(self.row.ensures((id,), row));
        let product: i64 = integer_dot(&self.query.codes, &row.codes);
        let enclose = &self.enclose;
        enclose(product, &self.query.metadata, &row.metadata, self.query.codes.len())
    }
}

impl<
    A: Fn(PointOffsetType) -> u32,
    R: Fn(PointOffsetType) -> ScalarReconstructionStats,
    E: Fn(u32, &ScalarReconstructionStats, &ScalarReconstructionStats, usize) -> (i64, i64),
> ScalarAccess<A, R, E> {
    /// Whether everything can be asked.
    pub open spec fn answers(self) -> bool {
        &&& forall|id: PointOffsetType| #[trigger] self.approximate.requires((id,))
        &&& forall|id: PointOffsetType| #[trigger] self.reconstruct.requires((id,))
        &&& forall|
            approximate: u32,
            query: &ScalarReconstructionStats,
            document: &ScalarReconstructionStats,
            dimension: usize,
        | #[trigger]
            self.enclose.requires((approximate, query, document, dimension))
    }

    /// Whether an interval is that of a point: the one around its quantized score.
    pub open spec fn encloses(
        self,
        query: ScalarReconstructionStats,
        dimension: usize,
        id: PointOffsetType,
        interval: (i64, i64),
    ) -> bool {
        exists|approximate: u32, document: ScalarReconstructionStats|
            {
                &&& #[trigger] self.approximate.ensures((id,), approximate)
                &&& #[trigger] self.reconstruct.ensures((id,), document)
                &&& self.enclose.ensures((approximate, &query, &document, dimension), interval)
            }
    }

    /// The interval of a point.
    pub fn interval(
        &self,
        query: &ScalarReconstructionStats,
        dimension: usize,
        id: PointOffsetType,
    ) -> (interval: (i64, i64))
        requires
            self.answers(),
        ensures
            self.encloses(*query, dimension, id, interval),
    {
        let score = &self.approximate;
        let approximate: u32 = score(id);
        assert(self.approximate.ensures((id,), approximate));
        let rebuild = &self.reconstruct;
        let document = rebuild(id);
        assert(self.reconstruct.ensures((id,), document));
        let enclose = &self.enclose;
        enclose(approximate, query, &document, dimension)
    }
}

/// Whether the stop signal can be looked at before every chunk.
pub open spec fn can_be_stopped<T: Fn(usize) -> bool>(stopped: T) -> bool {
    forall|start: usize| #[trigger] stopped.requires((start,))
}

/// Whether the stop signal was up before one of the chunks of a number of points.
pub open spec fn stops_within<T: Fn(usize) -> bool>(stopped: T, count: nat) -> bool {
    exists|start: usize|
        start < count && start % SCORE_CHUNK_SIZE == 0 && #[trigger] stopped.ensures((start,), true)
}

/// Whether bounds are those of points in their order, each an interval of its point.
pub open spec fn are_intervals(
    ids: Seq<PointOffsetType>,
    bounds: Seq<PendingBound>,
    encloses: spec_fn(PointOffsetType, (i64, i64)) -> bool,
) -> bool {
    &&& bound_ids(bounds) == ids
    &&& forall|i: int|
        0 <= i < bounds.len() ==> encloses(
            (#[trigger] bounds[i]).id,
            (bounds[i].lower, bounds[i].value),
        )
}

/// The intervals of points around the products of their compact codes.
pub fn compact_bounds<
    W: Fn(PointOffsetType) -> QuantizedVector,
    C: Fn(i64, &QuantizedVectorMetadata, &QuantizedVectorMetadata, usize) -> (i64, i64),
    T: Fn(usize) -> bool,
>(ids: &Vec<PointOffsetType>, access: &CompactAccess<W, C>, stopped: &T) -> (result:
    OperationResult<Vec<PendingBound>>)
    requires
        access.answers(),
        can_be_stopped(*stopped),
    ensures
        match result {
            Ok(bounds) => are_intervals(
                ids@,
                bounds@,
                |id: PointOffsetType, interval: (i64, i64)| access.encloses(id, interval),
            ) && goes_on(*stopped, ids@.len()),
            Err(error) => error == OperationError::Cancelled && stops_within(*stopped, ids@.len()),
        },
{
    let certifier = |id: PointOffsetType| -> (interval: Option<(i64, i64)>)
        ensures
            interval matches Some(found) && access.encloses(id, found),
        { Some(access.interval(id)) };
    match certify_points(ids, &certifier, stopped) {
        Ok(bounds) => {
            assert forall|i: int| 0 <= i < bounds@.len() implies access.encloses(
                (#[trigger] bounds@[i]).id,
                (bounds@[i].lower, bounds@[i].value),
            ) by {
                assert(crate::per_vector_scalar_index::is_certified(certifier, bounds@[i]));
            }
            Ok(bounds)
        },
        Err(error) => Err(error),
    }
}

/// The intervals of points around their quantized scores.
pub fn scalar_bounds<
    A: Fn(PointOffsetType) -> u32,
    R: Fn(PointOffsetType) -> ScalarReconstructionStats,
    E: Fn(u32, &ScalarReconstructionStats, &ScalarReconstructionStats, usize) -> (i64, i64),
    T: Fn(usize) -> bool,
>(
    ids: &Vec<PointOffsetType>,
    dimension: usize,
    access: &ScalarAccess<A, R, E>,
    stopped: &T,
) -> (result: OperationResult<Vec<PendingBound>>)
    requires
        access.answers(),
        can_be_stopped(*stopped),
    ensures
        match (access.query, result) {
            (None, _) => result == Err::<Vec<PendingBound>, OperationError>(
                OperationError::InconsistentStorage(Fault::MissingQueryStatistics),
            ),
            (Some(query), Ok(bounds)) => are_intervals(
                ids@,
                bounds@,
                |id: PointOffsetType, interval: (i64, i64)|
                    access.encloses(query, dimension, id, interval),
            ) && goes_on(*stopped, ids@.len()),
            (Some(query), Err(error)) => error == OperationError::Cancelled && stops_within(
                *stopped,
                ids@.len(),
            ),
        },
{
    let query = match &access.query {
        Some(query) => query,
        None => {
            return inconsistency(Fault::MissingQueryStatistics);
        },
    };
    let certifier = |id: PointOffsetType| -> (interval: Option<(i64, i64)>)
        ensures
            interval matches Some(found) && access.encloses(*query, dimension, id, found),
        { Some(access.interval(query, dimension, id)) };
    match certify_points(ids, &certifier, stopped) {
        Ok(bounds) => {
            assert forall|i: int| 0 <= i < bounds@.len() implies access.encloses(
                *query,
                dimension,
                (#[trigger] bounds@[i]).id,
                (bounds@[i].lower, bounds@[i].value),
            ) by {
                assert(crate::per_vector_scalar_index::is_certified(certifier, bounds@[i]));
            }
            Ok(bounds)
        },
        Err(error) => Err(error),
    }
}

/// The exact scores of points.
pub fn scan_scores<S: Fn(PointOffsetType) -> i64, T: Fn(usize) -> bool>(
    ids: &Vec<PointOffsetType>,
    scorer: &S,
    stopped: &T,
) -> (result: OperationResult<Vec<i64>>)
    requires
        scores_all(*scorer),
        can_be_stopped(*stopped),
    ensures
        match result {
            Ok(scores) => are_scores(ids@, *scorer, scores@) && goes_on(*stopped, ids@.len()),
            Err(error) => error == OperationError::Cancelled && stops_within(*stopped, ids@.len()),
        },
{
    let mut scores: Vec<i64> = Vec::new();
    while scores.len() < ids.len()
        invariant
            scores_all(*scorer),
            can_be_stopped(*stopped),
            scores@.len() <= ids@.len(),
            forall|i: int|
                0 <= i < scores@.len() ==> scorer.ensures((ids@[i],), #[trigger] scores@[i]),
            goes_on(*stopped, scores@.len()),
        decreases ids@.len() - scores@.len(),
    {
        let place: usize = scores.len();
        if place % SCORE_CHUNK_SIZE == 0 {
            let stop: bool = stopped(place);
            if stop {
                assert(stopped.ensures((place,), true));
                return Err(OperationError::Cancelled);
            }
        }
        let score: i64 = scorer(ids[place]);
        scores.push(score);
    }
    Ok(scores)
}

/// Whether scores are what the scorer returned for points, in their order.
pub open spec fn are_scores<S: Fn(PointOffsetType) -> i64>(
    ids: Seq<PointOffsetType>,
    scorer: S,
    scores: Seq<i64>,
) -> bool {
    &&& scores.len() == ids.len()
    &&& forall|i: int| 0 <= i < scores.len() ==> scorer.ensures((ids[i],), #[trigger] scores[i])
}

/// Whether the stop signal was up.
pub open spec fn was_stopped<T: Fn(usize) -> bool>(stopped: T) -> bool {
    exists|start: usize| #[trigger] stopped.ensures((start,), true)
}

/// What a dense ranking reaches: the quantized forms of the vectors that there are, the
/// exact scores, and the stop signal.
pub struct DenseAccess<W, C, A, R, E, V, S, T> {
    pub compact: Option<CompactAccess<W, C>>,
    pub scalar: Option<ScalarAccess<A, R, E>>,
    pub index: Option<ScalarIndexAccess<V>>,
    pub scorer: S,
    pub stopped: T,
}

impl<
    W: Fn(PointOffsetType) -> QuantizedVector,
    C: Fn(i64, &QuantizedVectorMetadata, &QuantizedVectorMetadata, usize) -> (i64, i64),
    A: Fn(PointOffsetType) -> u32,
    R: Fn(PointOffsetType) -> ScalarReconstructionStats,
    E: Fn(u32, &ScalarReconstructionStats, &ScalarReconstructionStats, usize) -> (i64, i64),
    V: Fn(PointOffsetType) -> Option<(i64, i64)>,
    S: Fn(PointOffsetType) -> i64,
    T: Fn(usize) -> bool,
> DenseAccess<W, C, A, R, E, V, S, T> {
    /// Whether everything that there is can be asked.
    pub open spec fn answers(self) -> bool {
        &&& self.compact matches Some(compact) ==> compact.answers()
        &&& self.scalar matches Some(scalar) ==> scalar.answers()
        &&& self.index matches Some(index) ==> certifies_all(index.certifier)
        &&& scores_all(self.scorer)
        &&& can_be_stopped(self.stopped)
    }

    /// Whether what a description says to be quantized is there.
    pub open spec fn serves(self, quantized: Option<QuantizedDescription>) -> bool {
        quantized matches Some(quantized) ==> {
            &&& quantized.compact is Some ==> self.compact is Some
            &&& quantized.reconstruction_rows is Some ==> self.scalar is Some
        }
    }

    /// Whether gathering ended because of the stop signal.
    pub open spec fn cancels(self, result: OperationResult<DenseEvidence>) -> bool {
        &&& result == Err::<DenseEvidence, OperationError>(OperationError::Cancelled)
        &&& was_stopped(self.stopped)
    }

    /// Whether a result is what gathering the evidence of points under a plan leads to.
    pub open spec fn gathers(
        self,
        plan: DensePhysicalPlan,
        ids: Seq<PointOffsetType>,
        query: Seq<u32>,
        result: OperationResult<DenseEvidence>,
    ) -> bool {
        &&& result is Ok ==> goes_on(self.stopped, ids.len())
        &&& match plan {
            DensePhysicalPlan::CompactCertificate => {
                ||| self.cancels(result)
                ||| self.gathers_compact(ids, result)
            },
            DensePhysicalPlan::ScalarCertificate => match self.scalar.unwrap().query {
                None => result == inconsistent::<DenseEvidence>(Fault::MissingQueryStatistics),
                Some(statistics) => {
                    ||| self.cancels(result)
                    ||| self.gathers_scalar(ids, statistics, query.len() as usize, result)
                },
            },
            DensePhysicalPlan::PerVectorScalarCertificate => match self.index {
                None => result == inconsistent::<DenseEvidence>(Fault::MissingScalarIndex),
                Some(index) => {
                    ||| self.cancels(result)
                    ||| match request_fault(
                        index.metadata,
                        index.storage,
                        ids,
                        query,
                        index.encodes,
                    ) {
                        Some(error) => result == Err::<DenseEvidence, OperationError>(error),
                        None => if result is Err {
                            result == inconsistent::<DenseEvidence>(Fault::ScalarCertificateFailed)
                                && fails_on(index.certifier, ids)
                        } else {
                            result matches Ok(DenseEvidence::Bounds(bounds)) && are_certified(
                                index.certifier,
                                ids,
                                bounds@,
                            )
                        },
                    }
                },
            },
            _ => {
                ||| self.cancels(result)
                ||| result matches Ok(DenseEvidence::Scores(scores)) && are_scores(
                    ids,
                    self.scorer,
                    scores@,
                )
            },
        }
    }

    /// Whether a result holds the intervals of compact codes.
    pub open spec fn gathers_compact(
        self,
        ids: Seq<PointOffsetType>,
        result: OperationResult<DenseEvidence>,
    ) -> bool {
        result matches Ok(DenseEvidence::Bounds(bounds)) && are_intervals(
            ids,
            bounds@,
            |id: PointOffsetType, interval: (i64, i64)|
                self.compact.unwrap().encloses(id, interval),
        )
    }

    /// Whether a result holds the intervals of quantized scores.
    pub open spec fn gathers_scalar(
        self,
        ids: Seq<PointOffsetType>,
        statistics: ScalarReconstructionStats,
        dimension: usize,
        result: OperationResult<DenseEvidence>,
    ) -> bool {
        result matches Ok(DenseEvidence::Bounds(bounds)) && are_intervals(
            ids,
            bounds@,
            |id: PointOffsetType, interval: (i64, i64)|
                self.scalar.unwrap().encloses(statistics, dimension, id, interval),
        )
    }

    /// Gathers what the ranking of points under a plan is computed from.
    pub fn gather(
        &self,
        plan: DensePhysicalPlan,
        ids: &Vec<PointOffsetType>,
        query: &Vec<u32>,
    ) -> (result: OperationResult<DenseEvidence>)
        requires
            self.answers(),
            strictly_ascending(ids@),
            plan is CompactCertificate ==> self.compact is Some,
            plan is ScalarCertificate ==> self.scalar is Some,
        ensures
            self.gathers(plan, ids@, query@, result),
    {
        match plan {
            DensePhysicalPlan::CompactCertificate => match compact_bounds(
                ids,
                self.compact.as_ref().unwrap(),
                &self.stopped,
            ) {
                Ok(bounds) => Ok(DenseEvidence::Bounds(bounds)),
                Err(error) => Err(error),
            },
            DensePhysicalPlan::ScalarCertificate => match scalar_bounds(
                ids,
                query.len(),
                self.scalar.as_ref().unwrap(),
                &self.stopped,
            ) {
                Ok(bounds) => Ok(DenseEvidence::Bounds(bounds)),
                Err(error) => Err(error),
            },
            DensePhysicalPlan::PerVectorScalarCertificate => {
                match &self.index {
                    Some(index) => self.gather_indexed(index, ids, query),
                    None => inconsistency(Fault::MissingScalarIndex),
                }
            },
            _ => match scan_scores(ids, &self.scorer, &self.stopped) {
                Ok(scores) => Ok(DenseEvidence::Scores(scores)),
                Err(error) => Err(error),
            },
        }
    }

    /// Gathers the intervals that a scalar index certifies.
    fn gather_indexed(
        &self,
        index: &ScalarIndexAccess<V>,
        ids: &Vec<PointOffsetType>,
        query: &Vec<u32>,
    ) -> (result: OperationResult<DenseEvidence>)
        requires
            self.answers(),
            self.index == Some(*index),
            strictly_ascending(ids@),
        ensures
            self.gathers(DensePhysicalPlan::PerVectorScalarCertificate, ids@, query@, result),
    {
        let stopped = &self.stopped;
        let stop: bool = stopped(0);
        if stop {
            assert(self.stopped.ensures((0usize,), true));
            return Err(OperationError::Cancelled);
        }
        match check_request(&index.metadata, &index.storage, ids, query, index.encodes) {
            Ok(_) => {},
            Err(error) => {
                return Err(error);
            },
        }
        match certify_points(ids, &index.certifier, stopped) {
            Ok(bounds) => Ok(DenseEvidence::Bounds(bounds)),
            Err(error) => Err(error),
        }
    }
}

} // verus!
