//! What can go wrong.

use crate::order::ExtendedPointId;
use vstd::prelude::*;

verus! {

/// A request or a stream that the library refuses.
#[derive(Clone, Copy, Debug, PartialEq, Eq, Structural)]
pub enum Fault {
    /// A fusion has no sources.
    NoSources,
    /// The rank constant of a fusion is zero.
    ZeroRankConstant,
    /// The number of weights is not that of the sources.
    WeightCount { got: usize, expected: usize },
    /// The number of weights is not that of the fused responses.
    ResponseWeightCount { got: usize, expected: usize },
    /// A weight is negative or not finite.
    InvalidWeight,
    /// There is no such source.
    SourceOutOfRange { source: usize },
    /// The source has already ended.
    SourceExhausted { source: usize },
    /// A batch does not continue the observed prefix.
    BatchStart { source: usize, start_rank: usize, expected: usize },
    /// A batch holds nothing and does not end its source.
    EmptyBatch { source: usize },
    /// A batch holds an identity twice.
    DuplicateInBatch { source: usize, id: ExtendedPointId },
    /// A source yields an identity twice.
    DuplicateInSource { source: usize, id: ExtendedPointId },
    /// A batch is larger than was asked for.
    BatchTooLarge { source: usize, len: usize, max: usize },
    /// The batch size of a session is zero.
    ZeroBatchSize,
    /// The check interval of a policy is zero.
    ZeroWarmupInterval,
    /// The pull budget of a policy is zero.
    ZeroExhaustiveBudget,
    /// The fairness interval of a policy is zero.
    ZeroFairnessInterval,
    /// The number of source costs is not that of the sources.
    CostCount { got: usize, expected: usize },
    /// A source cost is not positive or not finite.
    InvalidCost,
    /// A prefix target is smaller than the one before.
    PrefixDecrease { from: usize, to: usize },
    /// The source to replace does not exist.
    ReplacementOutOfRange { source: usize },
    /// The source to replace has already ended.
    ReplacementExhausted { source: usize },
    /// A replacement ends before the observed prefix does.
    ReplacementEnded { source: usize, rank: usize },
    /// A replacement disagrees with the observed prefix.
    ReplacementDisagrees {
        source: usize,
        rank: usize,
        observed: ExtendedPointId,
        replacement: ExtendedPointId,
    },
    /// A stream has yielded more identities than can be counted.
    TooManyRanks,
    /// A batch of exact ranks is asked to be empty.
    ZeroRankBatch,
    /// A batch of exact refinements is asked to be empty.
    ZeroRefineBatch,
    /// A dense query is empty or not finite.
    InvalidDenseQuery,
    /// A point is eligible twice.
    DuplicateEligible,
    /// The bounds are not those of the eligible points, or no intervals.
    BoundsMismatch,
    /// The bounds are not those of a contiguous universe, or no intervals.
    ContiguousBoundsMismatch,
    /// Some exact score is not finite.
    NonFiniteScores,
    /// A universe holds more points than offsets can number.
    UniverseTooLarge,
    /// An exact score is not finite.
    NonFiniteScore { id: u32 },
    /// An exact score lies outside the interval that was certified for it.
    BoundViolated { id: u32 },
    /// A merge has no sources.
    NoScoreSources,
    /// The refill size of a merge is zero.
    ZeroRefillBatch,
    /// The batch size of a merge is zero.
    ZeroMergeBatch,
    /// A source returned more points than were asked for.
    ScoreBatchTooLarge { source: usize, len: usize, max: usize },
    /// A source returned no points and did not end.
    EmptyScoreBatch { source: usize },
    /// A source yields a score that is not finite.
    NonFiniteSourceScore { source: usize },
    /// A source yields a point that belongs before the one it yielded last.
    SourceOrder { source: usize },
    /// A source yields a point of a batch that was already seen.
    RepeatedInBatch { source: usize, id: ExtendedPointId },
    /// A merge comes to a point that was already seen.
    RepeatedIdentity { id: ExtendedPointId },
    /// A storage is not one of single dense vectors that scalar rows can stand for.
    UnsupportedScalarStorage,
    /// A scalar index was made for another number of vectors.
    ScalarVectorCount,
    /// A query does not fit a scalar index.
    InvalidScalarQuery,
    /// A point of a scalar ranking occurs twice or has no row.
    InvalidScalarUniverse,
    /// A scalar index could not encode a query.
    ScalarQueryEncoding,
    /// The guard against rounding is not defined for a dimension.
    UnsupportedGuard,
    /// A scalar certificate could not be computed.
    ScalarCertificateFailed,
    /// A query does not fit a scalar-certified stream.
    ScalarStreamQuery,
    /// The vectors of a scalar-certified stream are not scalar quantized.
    ScalarStreamQuantization,
    /// The quantized form of a query has no statistics.
    MissingQueryStatistics,
    /// A plan needs a scalar index that is not there.
    MissingScalarIndex,
    /// The depth of a probe is zero.
    ZeroProbeDepth,
    /// A channel over shared blocks has failed.
    ChannelFailed,
    /// A scalar index was made from another generation of its source.
    SourceGeneration { index: u64, segment: u64 },
    /// A row would be too large.
    RowTooLarge,
    /// A probe names a point twice.
    DuplicateProbe { id: u32 },
    /// A probe names a point that is not eligible.
    IneligibleProbe { id: u32 },
    /// A batch of seeds names a point twice.
    DuplicateSeed { id: u32 },
    /// A seed is not finite.
    NonFiniteSeed { id: u32 },
    /// A seed names a point that is not eligible.
    IneligibleSeed { id: u32 },
    /// A seed differs from the score that is known.
    SeedChanged { id: u32 },
    /// A seed lies outside the interval that was certified for its point.
    SeedViolatesBound { id: u32 },
    /// A dense session has a query that is empty or not finite.
    DenseSessionQuery,
    /// A dense stream has a query that is empty or not finite.
    DenseStreamQuery,
    /// The posting batches of a sparse stream are asked to be empty.
    ZeroPostingBatch,
    /// A dense cursor returned a point without an identity.
    UnmappedDensePoint { offset: u32 },
    /// A dense cursor returned a point without a version.
    UnversionedDensePoint { id: ExtendedPointId },
    /// A sparse cursor returned a point without an identity.
    UnmappedSparsePoint { offset: u32 },
    /// A sparse cursor returned a point without a version.
    UnversionedSparsePoint { id: ExtendedPointId },
    /// A point of a search result has no version.
    MissingVersion { id: ExtendedPointId },
    /// The number of pause targets is not that of the sources.
    PauseTargetCount { got: usize, expected: usize },
}

/// Why an operation did not succeed.
#[derive(Clone, Debug, PartialEq, Eq)]
pub enum OperationError {
    /// A request or a stream was refused.
    ValidationError(Fault),
    /// Stored data contradict each other.
    InconsistentStorage(Fault),
    /// The operation was cancelled.
    Cancelled,
    /// The index of a vector is not a sparse one.
    WrongSparse,
    /// There is no vector of that name.
    VectorNameNotExists { name: String },
    /// Stored data could not be read as they were certified.
    CorruptStorage { description: String },
    /// The service is at fault, for the given reason.
    ServiceFault(Fault),
    /// An outside service failed.
    ServiceError { description: String },
}

/// Whether two errors say the same.
pub open spec fn same_error(left: OperationError, right: OperationError) -> bool {
    match (left, right) {
        (
            OperationError::ServiceError { description: left },
            OperationError::ServiceError { description: right },
        ) => left@ == right@,
        (
            OperationError::VectorNameNotExists { name: left },
            OperationError::VectorNameNotExists { name: right },
        ) => left@ == right@,
        (
            OperationError::CorruptStorage { description: left },
            OperationError::CorruptStorage { description: right },
        ) => left@ == right@,
        _ => left == right,
    }
}

impl OperationError {
    /// The same error again.
    pub fn again(&self) -> (error: OperationError)
        ensures
            same_error(*self, error),
    {
        match self {
            OperationError::ValidationError(fault) => OperationError::ValidationError(*fault),
            OperationError::InconsistentStorage(fault) => OperationError::InconsistentStorage(
                *fault,
            ),
            OperationError::Cancelled => OperationError::Cancelled,
            OperationError::WrongSparse => OperationError::WrongSparse,
            OperationError::VectorNameNotExists { name } => OperationError::VectorNameNotExists {
                name: name.clone(),
            },
            OperationError::CorruptStorage { description } => OperationError::CorruptStorage {
                description: description.clone(),
            },
            OperationError::ServiceFault(fault) => OperationError::ServiceFault(*fault),
            OperationError::ServiceError { description } => OperationError::ServiceError {
                description: description.clone(),
            },
        }
    }
}

/// What an operation returns.
pub type OperationResult<T> = Result<T, OperationError>;

/// The result of an operation that was refused.
pub open spec fn refused<T>(fault: Fault) -> OperationResult<T> {
    Err(OperationError::ValidationError(fault))
}

/// Refuses an operation.
pub fn refuse<T>(fault: Fault) -> (result: OperationResult<T>)
    ensures
        result == refused::<T>(fault),
{
    Err(OperationError::ValidationError(fault))
}

/// The result of an operation on data that contradict each other.
pub open spec fn inconsistent<T>(fault: Fault) -> OperationResult<T> {
    Err(OperationError::InconsistentStorage(fault))
}

/// Reports data that contradict each other.
pub fn inconsistency<T>(fault: Fault) -> (result: OperationResult<T>)
    ensures
        result == inconsistent::<T>(fault),
{
    Err(OperationError::InconsistentStorage(fault))
}

} // verus!
