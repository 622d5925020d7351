//! The native streams of one segment: its visible points in exact order, with their
//! identities.

use crate::dense_certificate::{PointOffsetType, ScoredPointOffset};
use crate::dense_evidence::DenseAccess;
use crate::dense_open::opens_native;
use crate::dense_plan::{finite_vector, Distance, QuantizedDescription, VectorStorageDatatype};
use crate::dense_quantized::{QuantizedVector, QuantizedVectorMetadata};
use crate::dense_scalar_certified::ScalarReconstructionStats;
use crate::exact_ranking::{is_truth, ranking_left, ScoredCursor};
use crate::n_channel_exact::{can_stop, never_stops};
use crate::native_dense_stream::{NativeDenseIndexCursor, NativeDensePolicy};
use crate::operation_error::{refused, Fault, OperationError, OperationResult};
use crate::order::ExtendedPointId;
use crate::segment_search::{
    arranged, asks, check_dense_query, check_sparse_request, cursor_leads, eligible,
    eligible_points, ending_of, law_eligible_points_pass_every_test, law_visible_list_is_complete,
    resolved_points, tells, tells_visible, visible_before,
    NativeStream, PointCursor, PointFacts, StreamKind, Visibility, VisiblePoints,
};
use crate::segment_view::SegmentReadView;
use vstd::prelude::*;

verus! {

/// The dense vectors of one name in a segment: how many there are, which of them are
/// left and chosen, and how they are stored.
pub struct DenseVectors<N, M> {
    pub name: String,
    /// Whether the segment has vectors of that name.
    pub exists: bool,
    pub total: u32,
    pub not_deleted: N,
    pub deferred_from: Option<u32>,
    pub chosen: M,
    pub distance: Distance,
    pub datatype: VectorStorageDatatype,
    pub quantized: Option<QuantizedDescription>,
}

impl<N: Fn(u32) -> bool, M: Fn(u32) -> bool> DenseVectors<N, M> {
    /// Whether a list holds the eligible points in ascending order, where it is known
    /// which are left and which are chosen.
    pub open spec fn lists_eligible(self, points: Seq<u32>) -> bool {
        forall|kept: spec_fn(u32) -> bool, picks: spec_fn(u32) -> bool|
            #![trigger eligible(kept, self.deferred_from, picks)]
            tells(self.not_deleted, kept) && tells(self.chosen, picks) ==> points
                == visible_before(eligible(kept, self.deferred_from, picks), self.total as int)
    }
}

/// Whether a result is what asking for the cursor of a query leads to: the fault of the
/// query, the missing vector, or what opening a cursor over the eligible points leads to.
pub open spec fn opens_session<
    N: Fn(u32) -> bool,
    M: Fn(u32) -> bool,
    W: Fn(PointOffsetType) -> QuantizedVector,
    C: Fn(i64, &QuantizedVectorMetadata, &QuantizedVectorMetadata, usize) -> (i64, i64),
    A: Fn(PointOffsetType) -> u32,
    D: Fn(PointOffsetType) -> ScalarReconstructionStats,
    E: Fn(u32, &ScalarReconstructionStats, &ScalarReconstructionStats, usize) -> (i64, i64),
    V: Fn(PointOffsetType) -> Option<(i64, i64)>,
    S: Fn(PointOffsetType) -> i64,
    B: Fn(usize) -> bool,
>(
    vectors: DenseVectors<N, M>,
    query: Seq<u32>,
    session: bool,
    policy: NativeDensePolicy,
    access: DenseAccess<W, C, A, D, E, V, S, B>,
    result: OperationResult<NativeDenseIndexCursor>,
) -> bool {
    if query.len() == 0 || !finite_vector(query) {
        result == refused::<NativeDenseIndexCursor>(
            if session {
                Fault::DenseSessionQuery
            } else {
                Fault::DenseStreamQuery
            },
        )
    } else if !vectors.exists {
        result matches Err(OperationError::VectorNameNotExists { name }) && name@
            == vectors.name@
    } else {
        exists|points: Seq<u32>, stopped: bool|
            {
                &&& vectors.lists_eligible(points)
                &&& access.stopped.ensures((0usize,), stopped)
                &&& #[trigger] opens_native(
                    vectors.distance,
                    vectors.datatype,
                    vectors.quantized,
                    points,
                    query,
                    policy,
                    access,
                    stopped,
                    result,
                )
            }
    }
}

/// Opens the cursor of a query over the eligible points of a segment.
fn open_cursor<
    N: Fn(u32) -> bool,
    M: Fn(u32) -> bool,
    W: Fn(PointOffsetType) -> QuantizedVector,
    C: Fn(i64, &QuantizedVectorMetadata, &QuantizedVectorMetadata, usize) -> (i64, i64),
    A: Fn(PointOffsetType) -> u32,
    D: Fn(PointOffsetType) -> ScalarReconstructionStats,
    E: Fn(u32, &ScalarReconstructionStats, &ScalarReconstructionStats, usize) -> (i64, i64),
    V: Fn(PointOffsetType) -> Option<(i64, i64)>,
    S: Fn(PointOffsetType) -> i64,
    B: Fn(usize) -> bool,
>(
    vectors: &DenseVectors<N, M>,
    query: &Vec<u32>,
    session: bool,
    policy: NativeDensePolicy,
    access: &DenseAccess<W, C, A, D, E, V, S, B>,
) -> (result: OperationResult<NativeDenseIndexCursor>)
    requires
        asks(vectors.not_deleted),
        asks(vectors.chosen),
        access.answers(),
        access.serves(vectors.quantized),
    ensures
        opens_session(*vectors, query@, session, policy, *access, result),
{
    match check_dense_query(query, session) {
        Ok(_) => {},
        Err(error) => {
            return Err(error);
        },
    }
    if !vectors.exists {
        return Err(OperationError::VectorNameNotExists { name: vectors.name.clone() });
    }
    let points = eligible_points(
        vectors.total,
        &vectors.not_deleted,
        vectors.deferred_from,
        &vectors.chosen,
    );
    assert(vectors.lists_eligible(points@));
    NativeDenseIndexCursor::new(
        vectors.distance,
        vectors.datatype,
        vectors.quantized,
        &points,
        query,
        policy,
        access,
    )
}

/// Whether a stream hands out the exact ranking that a cursor is about, with identities
/// and versions, points of one score by identity, up to the first that cannot be resolved:
/// wherever the evidence of the cursor agrees with the scores that its scorer returns.
pub open spec fn streams_exactly<
    S: Fn(PointOffsetType) -> i64,
    N: Fn(u32) -> bool,
    M: Fn(u32) -> bool,
    X: Fn(u32) -> Option<ExtendedPointId>,
    Y: Fn(u32) -> Option<u64>,
    T: Fn() -> bool,
>(
    stream: NativeStream<ScoredCursor<S>, N, M, X, Y, T>,
    cursor: NativeDenseIndexCursor,
    scorer: S,
    external: X,
    version: Y,
    stopped: T,
) -> bool {
    forall|score: spec_fn(PointOffsetType) -> i64, facts: PointFacts|
        #![trigger ranking_left(cursor@, score), tells(external, facts.external)]
        {
            &&& is_truth(cursor, scorer, score)
            &&& forall|point: u32| #[trigger] (facts.visible)(point)
            &&& tells(external, facts.external)
            &&& tells(version, facts.version)
            &&& never_stops(stopped)
        } ==> gives_points(
            stream,
            facts,
            StreamKind::Dense,
            ranking_left(cursor@, score),
            None,
        )
}

impl<
    X: Fn(u32) -> Option<ExtendedPointId> + Copy,
    Y: Fn(u32) -> Option<u64> + Copy,
    R,
    F,
    P,
    T: Fn() -> bool + Copy,
> SegmentReadView<X, Y, R, F, P, T> {
    /// Opens an exact dense session over the eligible points of the segment.
    pub fn with_native_dense_session<
        N: Fn(u32) -> bool,
        M: Fn(u32) -> bool,
        W: Fn(PointOffsetType) -> QuantizedVector,
        C: Fn(i64, &QuantizedVectorMetadata, &QuantizedVectorMetadata, usize) -> (i64, i64),
        A: Fn(PointOffsetType) -> u32,
        D: Fn(PointOffsetType) -> ScalarReconstructionStats,
        E: Fn(u32, &ScalarReconstructionStats, &ScalarReconstructionStats, usize) -> (i64, i64),
        V: Fn(PointOffsetType) -> Option<(i64, i64)>,
        S: Fn(PointOffsetType) -> i64,
        B: Fn(usize) -> bool,
    >(
        &self,
        vectors: &DenseVectors<N, M>,
        query: &Vec<u32>,
        policy: NativeDensePolicy,
        access: &DenseAccess<W, C, A, D, E, V, S, B>,
    ) -> (result: OperationResult<NativeDenseIndexCursor>)
        requires
            asks(vectors.not_deleted),
            asks(vectors.chosen),
            access.answers(),
            access.serves(vectors.quantized),
        ensures
            opens_session(*vectors, query@, true, policy, *access, result),
    {
        open_cursor(vectors, query, true, policy, access)
    }

    /// Opens the exact dense stream over the eligible points of the segment.
    pub fn with_native_dense_stream<
        N: Fn(u32) -> bool,
        M: Fn(u32) -> bool,
        W: Fn(PointOffsetType) -> QuantizedVector,
        C: Fn(i64, &QuantizedVectorMetadata, &QuantizedVectorMetadata, usize) -> (i64, i64),
        A: Fn(PointOffsetType) -> u32,
        D: Fn(PointOffsetType) -> ScalarReconstructionStats,
        E: Fn(u32, &ScalarReconstructionStats, &ScalarReconstructionStats, usize) -> (i64, i64),
        V: Fn(PointOffsetType) -> Option<(i64, i64)>,
        S: Fn(PointOffsetType) -> i64 + Copy,
        B: Fn(usize) -> bool,
    >(
        &self,
        vectors: &DenseVectors<N, M>,
        query: &Vec<u32>,
        policy: NativeDensePolicy,
        access: &DenseAccess<W, C, A, D, E, V, S, B>,
    ) -> (result: OperationResult<NativeStream<ScoredCursor<S>, N, M, X, Y, T>>)
        requires
            asks(vectors.not_deleted),
            asks(vectors.chosen),
            asks(self.external),
            asks(self.version),
            can_stop(self.stopped),
            access.answers(),
            access.serves(vectors.quantized),
        ensures
            exists|opened: OperationResult<NativeDenseIndexCursor>|
                {
                    &&& #[trigger] opens_session(
                        *vectors,
                        query@,
                        false,
                        policy,
                        *access,
                        opened,
                    )
                    &&& match opened {
                        Err(error) => result == Err::<
                            NativeStream<ScoredCursor<S>, N, M, X, Y, T>,
                            OperationError,
                        >(error),
                        Ok(cursor) => {
                            &&& result matches Ok(stream)
                            &&& stream.wf()
                            &&& stream.is_drained()
                            &&& stream.stop_signal() == self.stopped
                            &&& stream.visibility() is None
                            &&& stream.identities() == self.external
                            &&& stream.versions() == self.version
                            &&& streams_exactly(
                                stream,
                                cursor,
                                access.scorer,
                                self.external,
                                self.version,
                                self.stopped,
                            )
                        },
                    }
                },
    {
        let opened = open_cursor(vectors, query, false, policy, access);
        let ghost outcome = opened;
        assert(opens_session(*vectors, query@, false, policy, *access, outcome));
        match opened {
            Err(error) => Err(error),
            Ok(cursor) => {
                let ghost given = cursor;
                proof {
                    lemma_opened_is_sound(*vectors, query@, policy, *access, cursor);
                }
                let scored = ScoredCursor::new(cursor, access.scorer);
                let source: VisiblePoints<ScoredCursor<S>, N, M, X, Y, T> = VisiblePoints::new(
                    scored,
                    None,
                    self.external,
                    self.version,
                    self.stopped,
                    StreamKind::Dense,
                );
                let stream = NativeStream::new(source);
                proof {
                    assert forall|score: spec_fn(PointOffsetType) -> i64, facts: PointFacts|
                        #![trigger ranking_left(given@, score), tells(self.external, facts.external)]
                        {
                            &&& is_truth(given, access.scorer, score)
                            &&& forall|point: u32| #[trigger] (facts.visible)(point)
                            &&& tells(self.external, facts.external)
                            &&& tells(self.version, facts.version)
                            &&& never_stops(self.stopped)
                        } implies gives_points(
                        stream,
                        facts,
                        StreamKind::Dense,
                        ranking_left(given@, score),
                        None,
                    ) by {
                        let points = ranking_left(given@, score);
                        assert(scored.yields(points));
                        assert(source.leads(facts, points, None));
                    }
                }
                Ok(stream)
            },
        }
    }

    /// Opens the exact sparse stream over the visible points of the segment.
    pub fn with_native_sparse_stream<
        C: PointCursor,
        N: Fn(u32) -> bool,
        M: Fn(u32) -> bool,
    >(
        &self,
        vector_name: &String,
        vector_exists: bool,
        configured_idf: bool,
        requires_idf: bool,
        posting_batch_size: usize,
        cursor: C,
        visible: Visibility<N, M>,
    ) -> (result: OperationResult<NativeStream<C, N, M, X, Y, T>>)
        requires
            asks(visible.not_deleted),
            asks(visible.chosen),
            asks(self.external),
            asks(self.version),
            can_stop(self.stopped),
        ensures
            if posting_batch_size == 0 {
                result == refused::<NativeStream<C, N, M, X, Y, T>>(Fault::ZeroPostingBatch)
            } else if !vector_exists {
                result matches Err(OperationError::VectorNameNotExists { name }) && name@
                    == vector_name@
            } else if configured_idf || requires_idf {
                result == Err::<NativeStream<C, N, M, X, Y, T>, OperationError>(
                    OperationError::WrongSparse,
                )
            } else {
                &&& result matches Ok(stream)
                &&& stream.wf()
                &&& stream.is_drained()
                &&& stream.stop_signal() == self.stopped
                &&& stream.visibility() == Some(visible)
                &&& stream.identities() == self.external
                &&& stream.versions() == self.version
                &&& forall|
                    facts: PointFacts,
                    points: Seq<ScoredPointOffset>,
                    failure: Option<OperationError>,
                |
                    {
                        &&& #[trigger] tells_visible(Some(visible), facts.visible)
                        &&& tells(self.external, facts.external)
                        &&& tells(self.version, facts.version)
                        &&& never_stops(self.stopped)
                        &&& #[trigger] cursor_leads(cursor, points, failure)
                    } ==> gives_points(stream, facts, StreamKind::Sparse, points, failure)
            },
    {
        match check_sparse_request(
            posting_batch_size,
            vector_exists,
            vector_name,
            configured_idf,
            requires_idf,
        ) {
            Ok(_) => {},
            Err(error) => {
                return Err(error);
            },
        }
        let source = VisiblePoints::new(
            cursor,
            Some(visible),
            self.external,
            self.version,
            self.stopped,
            StreamKind::Sparse,
        );
        let stream = NativeStream::new(source);
        proof {
            assert forall|
                facts: PointFacts,
                points: Seq<ScoredPointOffset>,
                failure: Option<OperationError>,
            |
                {
                    &&& #[trigger] tells_visible(Some(visible), facts.visible)
                    &&& tells(self.external, facts.external)
                    &&& tells(self.version, facts.version)
                    &&& never_stops(self.stopped)
                    &&& #[trigger] cursor_leads(cursor, points, failure)
                } implies gives_points(stream, facts, StreamKind::Sparse, points, failure) by {
                assert(source.leads(facts, points, failure));
            }
        }
        Ok(stream)
    }
}

/// Whether a stream hands out the visible ones of points in the order of scores and, within
/// one score, of identities, and then ends or fails: where a point cannot be resolved, or as
/// the cursor does. A run that a failure cuts short is not handed out.
pub open spec fn gives_points<
    C: PointCursor,
    N: Fn(u32) -> bool,
    M: Fn(u32) -> bool,
    X: Fn(u32) -> Option<ExtendedPointId>,
    Y: Fn(u32) -> Option<u64>,
    T: Fn() -> bool,
>(
    stream: NativeStream<C, N, M, X, Y, T>,
    facts: PointFacts,
    kind: StreamKind,
    points: Seq<ScoredPointOffset>,
    failure: Option<OperationError>,
) -> bool {
    let (list, fault) = resolved_points(facts, kind, points);
    let ending = ending_of(fault, failure);
    stream.gives(facts, arranged(list, ending is Some), ending)
}

/// A cursor that was opened is well formed.
proof fn lemma_opened_is_sound<
    N: Fn(u32) -> bool,
    M: Fn(u32) -> bool,
    W: Fn(PointOffsetType) -> QuantizedVector,
    C: Fn(i64, &QuantizedVectorMetadata, &QuantizedVectorMetadata, usize) -> (i64, i64),
    A: Fn(PointOffsetType) -> u32,
    D: Fn(PointOffsetType) -> ScalarReconstructionStats,
    E: Fn(u32, &ScalarReconstructionStats, &ScalarReconstructionStats, usize) -> (i64, i64),
    V: Fn(PointOffsetType) -> Option<(i64, i64)>,
    S: Fn(PointOffsetType) -> i64,
    B: Fn(usize) -> bool,
>(
    vectors: DenseVectors<N, M>,
    query: Seq<u32>,
    policy: NativeDensePolicy,
    access: DenseAccess<W, C, A, D, E, V, S, B>,
    cursor: NativeDenseIndexCursor,
)
    requires
        opens_session(vectors, query, false, policy, access, Ok(cursor)),
    ensures
        cursor.wf(),
{
}

/// A dense session or stream is refused for a query that is empty or not finite, each by its
/// own fault, and for a vector that does not exist, by its name, in this order.
pub proof fn law_refused_dense_sessions<
    N: Fn(u32) -> bool,
    M: Fn(u32) -> bool,
    W: Fn(PointOffsetType) -> QuantizedVector,
    C: Fn(i64, &QuantizedVectorMetadata, &QuantizedVectorMetadata, usize) -> (i64, i64),
    A: Fn(PointOffsetType) -> u32,
    D: Fn(PointOffsetType) -> ScalarReconstructionStats,
    E: Fn(u32, &ScalarReconstructionStats, &ScalarReconstructionStats, usize) -> (i64, i64),
    V: Fn(PointOffsetType) -> Option<(i64, i64)>,
    S: Fn(PointOffsetType) -> i64,
    B: Fn(usize) -> bool,
>(
    vectors: DenseVectors<N, M>,
    query: Seq<u32>,
    session: bool,
    policy: NativeDensePolicy,
    access: DenseAccess<W, C, A, D, E, V, S, B>,
    result: OperationResult<NativeDenseIndexCursor>,
)
    requires
        opens_session(vectors, query, session, policy, access, result),
    ensures
        (query.len() == 0 || !finite_vector(query)) && session ==> result == Err::<
            NativeDenseIndexCursor,
            OperationError,
        >(OperationError::ValidationError(Fault::DenseSessionQuery)),
        (query.len() == 0 || !finite_vector(query)) && !session ==> result == Err::<
            NativeDenseIndexCursor,
            OperationError,
        >(OperationError::ValidationError(Fault::DenseStreamQuery)),
        query.len() > 0 && finite_vector(query) && !vectors.exists ==> (
        result matches Err(OperationError::VectorNameNotExists { name }) && name@
            == vectors.name@),
        result is Ok ==> query.len() > 0 && finite_vector(query) && vectors.exists,
{
}

/// The points that a dense search ranks are those below the total that are not deleted, not
/// deferred, and chosen, in ascending order.
pub proof fn law_ranked_points<N: Fn(u32) -> bool, M: Fn(u32) -> bool>(
    vectors: DenseVectors<N, M>,
    points: Seq<u32>,
    kept: spec_fn(u32) -> bool,
    picks: spec_fn(u32) -> bool,
    point: u32,
)
    requires
        vectors.lists_eligible(points),
        tells(vectors.not_deleted, kept),
        tells(vectors.chosen, picks),
    ensures
        points.contains(point) <==> point < vectors.total && kept(point) && picks(point) && (
        vectors.deferred_from is None || point < vectors.deferred_from->0),
{
    let tests = eligible(kept, vectors.deferred_from, picks);
    law_visible_list_is_complete(tests, vectors.total as int);
    law_eligible_points_pass_every_test(kept, vectors.deferred_from, picks, point);
    assert(points == visible_before(tests, vectors.total as int));
}

} // verus!
