//! Exact fusion of one sparse and one dense channel.

use crate::dense_ball::{
    can_index, is_documents_error, leaf_count, lists_clusters, same_documents, BallGeometry,
    DenseBallError, DenseBallIndex, DenseBallTelemetry, DenseDocument,
};
use crate::dense_documents::{document_ids, ids_of_documents, is_sorted_copy};
use crate::frontier::{
    certifies, exact_order, ids_of, in_blocks, lemma_order_is_ranking, opened_leaves,
    CertifiedStream, KeySource,
};
use crate::n_channel_exact::{hold_same_identities, same_identities};
use crate::operation_error::{OperationError, OperationResult};
use crate::order::ExtendedPointId;
use crate::reciprocal_rank_fusion::executor::leads_from_start;
use crate::reciprocal_rank_fusion::progress::{accepts_priority, fresh_session, session_fault};
use crate::reciprocal_rank_fusion::scoring::accepts;
use crate::reciprocal_rank_fusion::session::{
    completed, descends, is_exhaustive_prefix, no_targets, reaches, DynamicRrfSession,
    DynamicRrfSource, SessionState,
};
use crate::reciprocal_rank_fusion::state::{effective_weights, weights_view, UNIT_WEIGHT};
use crate::reciprocal_rank_fusion::types::{
    default_policy, DynamicRrfExecution, DynamicRrfPolicy, ExactRrfStream, IdStream,
};
use vstd::prelude::*;

verus! {

/// Why an index or a search is refused.
#[derive(Clone, Debug, PartialEq, Eq)]
pub enum HybridExactError {
    IdentityUniverseMismatch,
    Sparse(String),
    Dense(DenseBallError),
    Fusion(OperationError),
}

/// The outcome of a search.
#[derive(Clone, Debug)]
pub struct HybridExactSearchResult {
    pub execution: DynamicRrfExecution,
    pub dense: DenseBallTelemetry,
}

/// The stream of a sparse or of a dense channel.
pub enum HybridSource<'a, S: ExactRrfStream, G: KeySource, F: KeySource> {
    Sparse(S),
    Dense(CertifiedStream<'a, G, F>),
}

impl<'a, S: ExactRrfStream, G: KeySource, F: KeySource> ExactRrfStream for HybridSource<
    'a,
    S,
    G,
    F,
> {
    open spec fn rest(&self) -> Option<Seq<ExtendedPointId>> {
        match self {
            HybridSource::Sparse(stream) => stream.rest(),
            HybridSource::Dense(stream) => ExactRrfStream::rest(stream),
        }
    }

    open spec fn failing(&self) -> Option<(Seq<ExtendedPointId>, OperationError)> {
        match self {
            HybridSource::Sparse(stream) => stream.failing(),
            HybridSource::Dense(stream) => ExactRrfStream::failing(stream),
        }
    }

    open spec fn replies(
        &self,
        result: OperationResult<Option<ExtendedPointId>>,
        later: &Self,
    ) -> bool {
        match (self, later) {
            (HybridSource::Sparse(stream), HybridSource::Sparse(next)) => stream.replies(
                result,
                next,
            ),
            (HybridSource::Dense(stream), HybridSource::Dense(next)) => ExactRrfStream::replies(
                stream,
                result,
                next,
            ),
            _ => false,
        }
    }

    fn next(&mut self) -> (result: OperationResult<Option<ExtendedPointId>>) {
        match self {
            HybridSource::Sparse(stream) => stream.next(),
            HybridSource::Dense(stream) => ExactRrfStream::next(stream),
        }
    }
}

/// The dense documents of a hybrid index.
#[derive(Debug)]
pub struct HybridExactIndex {
    dense: DenseBallIndex,
}

/// What building the dense part with the same identities returns.
pub open spec fn builds_hybrid(
    sparse_ids: Seq<u32>,
    dense_documents: Seq<DenseDocument>,
    block_size: usize,
    result: Result<HybridExactIndex, HybridExactError>,
) -> bool {
    if !same_identities(sparse_ids, document_ids(dense_documents)) {
        result == Err::<HybridExactIndex, HybridExactError>(
            HybridExactError::IdentityUniverseMismatch,
        )
    } else {
        match result {
            Ok(index) => {
                &&& can_index(dense_documents, block_size)
                &&& same_documents(index.dense().documents(), dense_documents)
                &&& index.dense().tree().ids@ == document_ids(index.dense().documents())
                &&& index.dense().dims() == dense_documents[0].vector@.len()
                &&& index.dense().size() == block_size
            },
            Err(error) => error matches HybridExactError::Dense(reason) && !can_index(
                dense_documents,
                block_size,
            ) && is_documents_error(dense_documents, block_size, reason),
        }
    }
}

impl HybridExactIndex {
    /// The dense documents.
    pub closed spec fn dense(&self) -> DenseBallIndex {
        self.dense
    }

    /// An index whose dense blocks are in ascending order of identity.
    pub fn build(
        sparse_ids: &Vec<u32>,
        dense_documents: Vec<DenseDocument>,
        dense_block_size: usize,
    ) -> (result: Result<HybridExactIndex, HybridExactError>)
        ensures
            builds_hybrid(sparse_ids@, dense_documents@, dense_block_size, result),
            result matches Ok(index) ==> {
                &&& is_sorted_copy(index.dense().documents(), dense_documents@)
                &&& in_blocks(
                    index.dense().tree(),
                    document_ids(index.dense().documents()),
                    dense_block_size,
                )
            },
    {
        let dense_ids = ids_of_documents(&dense_documents);
        if !hold_same_identities(sparse_ids, &dense_ids) {
            return Err(HybridExactError::IdentityUniverseMismatch);
        }
        match DenseBallIndex::build(dense_documents, dense_block_size) {
            Ok(dense) => Ok(HybridExactIndex { dense }),
            Err(error) => Err(HybridExactError::Dense(error)),
        }
    }

    /// An index whose dense blocks are clusters.
    pub fn build_dense_clustered<
        M: Fn(&Vec<u32>, &Vec<u64>) -> i64,
        Z: Fn(&Vec<DenseDocument>, &Vec<usize>) -> Vec<u64>,
        H: Fn(&Vec<u32>) -> Vec<u64>,
        U: Fn(i64, i64) -> i64,
    >(
        sparse_ids: &Vec<u32>,
        dense_documents: Vec<DenseDocument>,
        dense_block_size: usize,
        dense_clustering_iterations: usize,
        geometry: &BallGeometry<M, Z, H, U>,
    ) -> (result: Result<HybridExactIndex, HybridExactError>)
        requires
            geometry.answers(),
        ensures
            dense_clustering_iterations > 0 ==> builds_hybrid(
                sparse_ids@,
                dense_documents@,
                dense_block_size,
                result,
            ),
            dense_clustering_iterations == 0 ==> result == Err::<
                HybridExactIndex,
                HybridExactError,
            >(
                if same_identities(sparse_ids@, document_ids(dense_documents@)) {
                    HybridExactError::Dense(DenseBallError::ZeroClusteringIterations)
                } else {
                    HybridExactError::IdentityUniverseMismatch
                },
            ),
            result matches Ok(index) ==> {
                &&& in_blocks(
                    index.dense().tree(),
                    document_ids(index.dense().documents()),
                    dense_block_size,
                )
                &&& if dense_documents@.len() <= dense_block_size {
                    is_sorted_copy(index.dense().documents(), dense_documents@)
                } else {
                    lists_clusters(
                        *geometry,
                        dense_documents@,
                        dense_block_size,
                        dense_clustering_iterations,
                        index.dense().documents(),
                    )
                }
            },
    {
        let dense_ids = ids_of_documents(&dense_documents);
        if !hold_same_identities(sparse_ids, &dense_ids) {
            return Err(HybridExactError::IdentityUniverseMismatch);
        }
        match DenseBallIndex::build_clustered(
            dense_documents,
            dense_block_size,
            dense_clustering_iterations,
            geometry,
        ) {
            Ok(dense) => Ok(HybridExactIndex { dense }),
            Err(error) => Err(HybridExactError::Dense(error)),
        }
    }

    /// An index whose dense blocks are clusters within clusters.
    pub fn build_dense_hierarchical<
        M: Fn(&Vec<u32>, &Vec<u64>) -> i64,
        Z: Fn(&Vec<DenseDocument>, &Vec<usize>) -> Vec<u64>,
        H: Fn(&Vec<u32>) -> Vec<u64>,
        U: Fn(i64, i64) -> i64,
    >(
        sparse_ids: &Vec<u32>,
        dense_documents: Vec<DenseDocument>,
        dense_leaf_size: usize,
        dense_branch_factor: usize,
        dense_clustering_iterations: usize,
        geometry: &BallGeometry<M, Z, H, U>,
    ) -> (result: Result<HybridExactIndex, HybridExactError>)
        requires
            geometry.answers(),
        ensures
            dense_clustering_iterations > 0 && dense_branch_factor >= 2 ==> builds_hybrid(
                sparse_ids@,
                dense_documents@,
                dense_leaf_size,
                result,
            ),
            dense_clustering_iterations == 0 ==> result == Err::<
                HybridExactIndex,
                HybridExactError,
            >(
                if same_identities(sparse_ids@, document_ids(dense_documents@)) {
                    HybridExactError::Dense(DenseBallError::ZeroClusteringIterations)
                } else {
                    HybridExactError::IdentityUniverseMismatch
                },
            ),
            dense_clustering_iterations > 0 && dense_branch_factor < 2 ==> match result {
                Ok(_) => false,
                Err(error) => if !same_identities(sparse_ids@, document_ids(dense_documents@)) {
                    error == HybridExactError::IdentityUniverseMismatch
                } else if can_index(dense_documents@, dense_leaf_size) {
                    error == HybridExactError::Dense(DenseBallError::InvalidBranchFactor)
                } else {
                    error matches HybridExactError::Dense(reason) && is_documents_error(
                        dense_documents@,
                        dense_leaf_size,
                        reason,
                    )
                },
            },
            result matches Ok(index) ==> index.dense().tree().roots@.len() == 1,
    {
        let dense_ids = ids_of_documents(&dense_documents);
        if !hold_same_identities(sparse_ids, &dense_ids) {
            return Err(HybridExactError::IdentityUniverseMismatch);
        }
        match DenseBallIndex::build_hierarchical_clustered(
            dense_documents,
            dense_leaf_size,
            dense_branch_factor,
            dense_clustering_iterations,
            geometry,
        ) {
            Ok(dense) => Ok(HybridExactIndex { dense }),
            Err(error) => Err(HybridExactError::Dense(error)),
        }
    }

    /// The number of documents.
    pub fn document_count(&self) -> (count: usize)
        ensures
            count == self.dense().documents().len(),
    {
        self.dense.document_count()
    }

    /// The dense documents.
    pub fn dense_index(&self) -> (dense: &DenseBallIndex)
        ensures
            *dense == self.dense(),
    {
        &self.dense
    }

    /// Fuses the stream of the sparse channel with the dense channel of a query.
    pub fn search<
        S: ExactRrfStream,
        G: KeySource,
        F: KeySource,
        A: Fn(i64, usize, usize, i64) -> i64,
        P: Fn(usize, usize, i64, usize, i64) -> i64,
    >(
        &self,
        sparse: S,
        dense_query: &Vec<u32>,
        bound: G,
        scorer: F,
        top_k: usize,
        rrf_k: usize,
        weights: Option<&Vec<i64>>,
        accumulate: &A,
        priority: &P,
    ) -> (result: Result<HybridExactSearchResult, HybridExactError>)
        requires
            accepts(*accumulate),
            accepts_priority(*priority),
            forall|node: int|
                0 <= node < self.dense().tree().nodes@.len() ==> #[trigger] bound.defined(node),
            forall|point: int|
                0 <= point < self.dense().documents().len() ==> #[trigger] scorer.defined(point),
        ensures
            !self.dense().accepts_query(dense_query@) ==> result == Err::<
                HybridExactSearchResult,
                HybridExactError,
            >(HybridExactError::Dense(DenseBallError::InvalidQuery)),
            self.dense().accepts_query(dense_query@) ==> match session_fault(
                2,
                1,
                rrf_k,
                weights_view(weights),
                Seq::new(2, |i: int| UNIT_WEIGHT),
                default_policy(),
            ) {
                Some(fault) => result == Err::<HybridExactSearchResult, HybridExactError>(
                    HybridExactError::Fusion(OperationError::ValidationError(fault)),
                ),
                None => forall|
                    ranking: Seq<ExtendedPointId>,
                    failure: Option<OperationError>,
                    bounds: spec_fn(int) -> Option<i64>,
                    scores: spec_fn(int) -> Option<i64>,
                |
                    is_ranking(Some(ranking)) && #[trigger] leads_from_start(
                        sparse.rest(),
                        sparse.failing(),
                        ranking,
                        failure,
                    ) && #[trigger] certifies(
                        &bound,
                        &scorer,
                        self.dense().tree(),
                        bounds,
                        scores,
                    ) ==> match result {
                        Ok(found) => is_exhaustive_prefix(
                            *accumulate,
                            seq![ranking, dense_ranking(self.dense(), scores)],
                            rrf_k,
                            effective_weights(2, weights_view(weights)),
                            top_k,
                            found.execution.point_ids@,
                        ),
                        Err(error) => failure matches Some(reason) && error
                            == HybridExactError::Fusion(reason),
                    },
            },
            self.dense().accepts_query(dense_query@) && session_fault(
                2,
                1,
                rrf_k,
                weights_view(weights),
                Seq::new(2, |i: int| UNIT_WEIGHT),
                default_policy(),
            ) is None ==> fuses_hybrid(
                self.dense(),
                sparse,
                bound,
                scorer,
                top_k,
                rrf_k,
                weights_view(weights),
                *accumulate,
                *priority,
                result,
            ),
    {
        let dense = match self.dense.stream(dense_query, bound, scorer) {
            Ok(stream) => stream,
            Err(error) => {
                return Err(HybridExactError::Dense(error));
            },
        };
        let ghost opened = dense;
        let ghost started = dense.inner();
        let blocks: usize = dense.telemetry().blocks;
        let nodes: usize = self.dense.node_count();
        let mut sources: Vec<HybridSource<'_, S, G, F>> = Vec::new();
        sources.push(HybridSource::Sparse(sparse));
        sources.push(HybridSource::Dense(dense.into_identities()));
        let ghost streams = sources@;
        let mut session = match DynamicRrfSession::<HybridSource<'_, S, G, F>, IdStream>::new(
            sources,
            top_k,
            rrf_k,
            weights,
            DynamicRrfPolicy::default(),
        ) {
            Ok(session) => session,
            Err(error) => {
                return Err(HybridExactError::Fusion(error));
            },
        };
        let blocks_of_index = self.dense.tree_ref();
        proof {
            let tree = *blocks_of_index;
            assert forall|
                ranking: Seq<ExtendedPointId>,
                failure: Option<OperationError>,
                bounds: spec_fn(int) -> Option<i64>,
                scores: spec_fn(int) -> Option<i64>,
            |
                is_ranking(Some(ranking)) && #[trigger] leads_from_start(
                    sparse.rest(),
                    sparse.failing(),
                    ranking,
                    failure,
                ) && #[trigger] certifies(
                    &bound,
                    &scorer,
                    tree,
                    bounds,
                    scores,
                ) implies session.leads(
                seq![ranking, dense_ranking(self.dense(), scores)],
                seq![failure, None],
            ) by {
                let rankings = seq![ranking, dense_ranking(self.dense(), scores)];
                let failures = seq![failure, None];
                let held = opened.inner().held();
                assert(held =~= all_points(tree.ids@.len()));
                crate::n_channel_exact::lemma_points_finite(tree.ids@.len(), held);
                lemma_order_is_ranking(tree, scores, held);
                assert forall|source: int| 0 <= source < rankings.len() implies {
                    let history = session@.fusion.histories[source];
                    &&& (#[trigger] rankings[source]).no_duplicates()
                    &&& rankings[source].len() <= usize::MAX
                    &&& history == rankings[source].take(history.len() as int)
                } by {
                    assert(rankings[source].take(0) =~= Seq::<ExtendedPointId>::empty());
                }
                assert forall|source: int| 0 <= source < rankings.len() implies (
                #[trigger] session.streams()[source]).leads(
                    session@.fusion.histories[source],
                    rankings[source],
                    failures[source],
                ) by {
                    let start = Seq::<ExtendedPointId>::empty();
                    assert(start + rankings[source] =~= rankings[source]);
                    assert(session.streams()[source] == DynamicRrfSource::<
                        HybridSource<'_, S, G, F>,
                        IdStream,
                    >::Point(streams[source]));
                    if failures[source] is Some {
                        let (ids, _) = sparse.failing().unwrap();
                        assert(start + ids =~= ids);
                    } else {
                        assert(streams[source].rest() == Some(rankings[source]));
                    }
                }
            }
        }
        let ghost start = session.state();
        let outcome = session.run_to_completion(accumulate, priority);
        let ghost executed = outcome;
        proof {
            assert(is_fresh_stream(self.dense(), bound, scorer, started));
            assert(start == first_hybrid(
                sparse,
                started,
                top_k,
                rrf_k,
                weights_view(weights),
            )) by {
                assert(start.streams =~= first_hybrid::<S, G, F>(
                    sparse,
                    started,
                    top_k,
                    rrf_k,
                    weights_view(weights),
                ).streams);
            }
            assert(start.runs(
                no_targets(2),
                *accumulate,
                *priority,
                completed(executed),
                session.state(),
            ));
        }
        let execution = match outcome {
            Ok(execution) => execution,
            Err(error) => {
                proof {
                    assert forall|
                        ranking: Seq<ExtendedPointId>,
                        failure: Option<OperationError>,
                        bounds: spec_fn(int) -> Option<i64>,
                        scores: spec_fn(int) -> Option<i64>,
                    |
                        is_ranking(Some(ranking)) && #[trigger] leads_from_start(
                            sparse.rest(),
                            sparse.failing(),
                            ranking,
                            failure,
                        ) && #[trigger] certifies(
                            &bound,
                            &scorer,
                            self.dense().tree(),
                            bounds,
                            scores,
                        ) implies failure == Some(error) by {
                        let failures = seq![failure, None];
                        assert(failures.contains(Some(error)));
                        let at = choose|at: int|
                            0 <= at < failures.len() && failures[at] == Some(error);
                        assert(at == 0);
                    }
                }
                return Err(HybridExactError::Fusion(error));
            },
        };
        let ghost end = session.state();
        let finished = session.into_sources();
        proof {
            let first = DynamicRrfSource::<HybridSource<'_, S, G, F>, IdStream>::Point(streams[1]);
            assert(descends(start.streams[1], end.streams[1]));
            match end.streams[1] {
                DynamicRrfSource::Point(later) => {
                    let pulls = choose|pulls: nat| #[trigger] reaches(streams[1], later, pulls);
                    lemma_dense_stays_dense(streams[1], later, pulls);
                },
                _ => {},
            }
        }
        let telemetry = match &finished[1] {
            DynamicRrfSource::Point(HybridSource::Dense(stream)) => {
                let work = stream.work();
                DenseBallTelemetry {
                    blocks,
                    nodes,
                    bound_evaluations: work.bounds_evaluated,
                    internal_nodes_expanded: work.nodes_opened - work.leaves_opened,
                    blocks_expanded: work.leaves_opened,
                    documents_evaluated: work.points_scored,
                    points_emitted: stream.points_emitted(),
                    max_pending_blocks: work.most_nodes,
                    max_pending_points: work.most_points,
                }
            },
            _ => vstd::pervasive::unreached(),
        };
        proof {
            assert(is_fresh_stream(self.dense(), bound, scorer, started));
            assert(reports_dense(
                self.dense(),
                end.streams[1]->Point_0->Dense_0,
                telemetry,
            ));
        }
        Ok(HybridExactSearchResult { execution, dense: telemetry })
    }
}

/// Whether a stream stands before the first document of an index: it holds all of them, and
/// will yield them in exact order where its bounds and scores are right.
pub open spec fn is_fresh_stream<'a, G: KeySource, F: KeySource>(
    index: DenseBallIndex,
    bound: G,
    scorer: F,
    stream: CertifiedStream<'a, G, F>,
) -> bool {
    &&& stream.tree() == index.tree()
    &&& stream.emitted() == 0
    &&& forall|point: int| #[trigger]
        stream.held().contains(point) <==> 0 <= point < index.tree().ids@.len()
    &&& forall|bounds: spec_fn(int) -> Option<i64>, scores: spec_fn(int) -> Option<i64>|
        #[trigger] certifies(&bound, &scorer, index.tree(), bounds, scores) ==> stream.order()
            == Some(exact_order(index.tree(), scores, stream.held()))
}

/// A session over a sparse and a dense channel before its first step.
pub open spec fn first_hybrid<'a, S: ExactRrfStream, G: KeySource, F: KeySource>(
    sparse: S,
    dense: CertifiedStream<'a, G, F>,
    top_k: usize,
    rrf_k: usize,
    weights: Option<Seq<i64>>,
) -> SessionState<HybridSource<'a, S, G, F>, IdStream> {
    SessionState {
        view: fresh_session(
            2,
            1,
            top_k,
            rrf_k,
            weights,
            Seq::new(2, |i: int| UNIT_WEIGHT),
            default_policy(),
        ),
        streams: seq![
            DynamicRrfSource::Point(HybridSource::Sparse(sparse)),
            DynamicRrfSource::Point(HybridSource::Dense(dense)),
        ],
    }
}

/// Whether figures are those of a dense stream over the blocks of an index.
pub open spec fn reports_dense<'a, G: KeySource, F: KeySource>(
    index: DenseBallIndex,
    stream: CertifiedStream<'a, G, F>,
    telemetry: DenseBallTelemetry,
) -> bool {
    let nodes = index.tree().nodes@;
    &&& stream.tree() == index.tree()
    &&& telemetry.blocks == leaf_count(nodes, nodes.len() as int)
    &&& telemetry.nodes == nodes.len()
    &&& telemetry.bound_evaluations == stream.opened().len() + stream.unopened().len()
    &&& telemetry.internal_nodes_expanded + telemetry.blocks_expanded == stream.opened().len()
    &&& telemetry.blocks_expanded == opened_leaves(stream.tree(), stream.opened()).len()
    &&& telemetry.documents_evaluated == stream.scored().len()
    &&& telemetry.points_emitted == stream.emitted()
    &&& telemetry.max_pending_blocks >= stream.unopened().len()
}

/// What fusing the two channels does: it is a session over them, from its first step on, and
/// reports what the session has pulled and what the dense stream has done.
pub open spec fn fuses_hybrid<
    'a,
    S: ExactRrfStream,
    G: KeySource,
    F: KeySource,
    A: Fn(i64, usize, usize, i64) -> i64,
    P: Fn(usize, usize, i64, usize, i64) -> i64,
>(
    index: DenseBallIndex,
    sparse: S,
    bound: G,
    scorer: F,
    top_k: usize,
    rrf_k: usize,
    weights: Option<Seq<i64>>,
    accumulate: A,
    priority: P,
    result: Result<HybridExactSearchResult, HybridExactError>,
) -> bool {
    exists|
        dense: CertifiedStream<'a, G, F>,
        executed: OperationResult<DynamicRrfExecution>,
        end: SessionState<HybridSource<'a, S, G, F>, IdStream>,
    |
        {
            &&& is_fresh_stream(index, bound, scorer, dense)
            &&& #[trigger] first_hybrid(sparse, dense, top_k, rrf_k, weights).runs(
                no_targets(2),
                accumulate,
                priority,
                completed(executed),
                end,
            )
            &&& match executed {
                Err(error) => result == Err::<HybridExactSearchResult, HybridExactError>(
                    HybridExactError::Fusion(error),
                ),
                Ok(execution) => {
                    &&& result matches Ok(found)
                    &&& found.execution == execution
                    &&& end.view.reported(execution)
                    &&& end.streams[1] matches DynamicRrfSource::Point(HybridSource::Dense(stream))
                    &&& reports_dense(index, stream, found.dense)
                },
            }
        }
}

/// A dense stream stays one, over the same blocks.
proof fn lemma_dense_stays_dense<'a, S: ExactRrfStream, G: KeySource, F: KeySource>(
    before: HybridSource<'a, S, G, F>,
    after: HybridSource<'a, S, G, F>,
    pulls: nat,
)
    requires
        before is Dense,
        reaches(before, after, pulls),
    ensures
        after is Dense,
        after->Dense_0.tree() == before->Dense_0.tree(),
    decreases pulls,
{
    if pulls > 0 {
        let (middle, result) = choose|
            middle: HybridSource<'a, S, G, F>,
            result: OperationResult<Option<ExtendedPointId>>,
        |
            reaches(before, middle, (pulls - 1) as nat) && #[trigger] middle.replies(
                result,
                &after,
            );
        lemma_dense_stays_dense(before, middle, (pulls - 1) as nat);
    }
}

/// Whether a stream is known to yield a ranking: no identity twice.
pub open spec fn is_ranking(rest: Option<Seq<ExtendedPointId>>) -> bool {
    rest matches Some(ranking) && ranking.no_duplicates() && ranking.len() <= usize::MAX
}

/// All places.
pub open spec fn all_points(count: nat) -> Set<int> {
    Set::new(|point: int| 0 <= point < count)
}

/// The exhaustive ranking of the dense channel.
pub open spec fn dense_ranking(
    index: DenseBallIndex,
    scores: spec_fn(int) -> Option<i64>,
) -> Seq<ExtendedPointId> {
    ids_of(index.tree(), exact_order(index.tree(), scores, all_points(index.tree().ids@.len())))
}

} // verus!
