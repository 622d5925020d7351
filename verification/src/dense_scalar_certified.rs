//! Exact dense streams proposed by native scalar-quantized scores.

use crate::dense_documents::{document_ids, ids_of_documents, is_valid, valid_document, DenseDocument};
use crate::dense_plan::is_finite_vector;
use crate::dense_quantized::{is_query, lemma_one_block_each, within, DenseQuantizedError};
use crate::frontier::{
    certifies, exact_order, in_blocks, scores_exactly, steps_exactly, CertifiedStream,
    DenseScoredPoint, KeySource, KeyTable, NodeTree,
};
use crate::operation_error::{refuse, refused, Fault, OperationResult};
use vstd::prelude::*;

verus! {

/// The norms of a vector and of its reconstruction, as double-precision bit patterns.
#[derive(Clone, Copy, Debug, PartialEq, Eq, Structural)]
pub struct ScalarReconstructionStats {
    pub reconstructed_norm: u64,
    pub residual_norm: u64,
    pub original_norm: u64,
}

/// Whether a function gives an answer for every document.
pub open spec fn measures<R: Fn(u32, &Vec<u32>) -> Option<ScalarReconstructionStats>>(
    reconstruct: R,
) -> bool {
    forall|id: u32, vector: &Vec<u32>| #[trigger] reconstruct.requires((id, vector))
}

/// Whether the document at a place is numbered by it and has the dimension of the
/// first.
pub open spec fn is_numbered(documents: Seq<DenseDocument>, at: int) -> bool {
    documents[at].id == at && is_valid(documents[at], documents[0].vector@.len())
}

/// Documents with the norms of their reconstruction.
#[derive(Debug)]
pub struct DenseScalarCertifiedIndex {
    documents: Vec<DenseDocument>,
    reconstruction: Vec<ScalarReconstructionStats>,
    dimension: usize,
    tree: NodeTree,
}

impl DenseScalarCertifiedIndex {
    /// The documents.
    pub closed spec fn documents(&self) -> Seq<DenseDocument> {
        self.documents@
    }

    /// The norms of the documents.
    pub closed spec fn reconstruction(&self) -> Seq<ScalarReconstructionStats> {
        self.reconstruction@
    }

    /// The dimension of the documents.
    pub closed spec fn dims(&self) -> nat {
        self.dimension as nat
    }

    /// One block for every document.
    pub closed spec fn tree(&self) -> NodeTree {
        self.tree
    }

    /// Whether documents, norms and blocks belong together.
    #[verifier::type_invariant]
    pub closed spec fn wf(&self) -> bool {
        &&& self.documents@.len() > 0
        &&& self.documents@[0].vector@.len() == self.dimension
        &&& self.reconstruction@.len() == self.documents@.len()
        &&& forall|i: int| 0 <= i < self.documents@.len() ==> is_numbered(self.documents@, i)
        &&& self.tree.wf()
        &&& in_blocks(self.tree, document_ids(self.documents@), 1)
    }

    /// An index of documents that are numbered in their order. The first document
    /// that is not, that does not fit, or that has no reconstruction is refused.
    pub fn build<R: Fn(u32, &Vec<u32>) -> Option<ScalarReconstructionStats>>(
        documents: Vec<DenseDocument>,
        reconstruct: &R,
    ) -> (result: Result<DenseScalarCertifiedIndex, DenseQuantizedError>)
        requires
            measures(*reconstruct),
        ensures
            documents@.len() == 0 ==> result == Err::<
                DenseScalarCertifiedIndex,
                DenseQuantizedError,
            >(DenseQuantizedError::EmptyDocuments),
            documents@.len() > 0 ==> match result {
                Ok(index) => {
                    &&& index.documents() == documents@
                    &&& index.dims() == documents@[0].vector@.len()
                    &&& index.reconstruction().len() == documents@.len()
                    &&& forall|i: int|
                        0 <= i < documents@.len() ==> is_numbered(documents@, i)
                            && reconstruct.ensures(
                            (documents@[i].id, &documents@[i].vector),
                            Some(#[trigger] index.reconstruction()[i]),
                        )
                },
                Err(error) => exists|at: int|
                    {
                        &&& 0 <= at < documents@.len()
                        &&& error == DenseQuantizedError::InvalidDocument(documents@[at].id)
                        &&& forall|i: int| 0 <= i < at ==> #[trigger] is_numbered(documents@, i)
                        &&& (#[trigger] is_numbered(documents@, at)) ==> reconstruct.ensures(
                            (documents@[at].id, &documents@[at].vector),
                            None::<ScalarReconstructionStats>,
                        )
                    },
            },
    {
        if documents.len() == 0 {
            return Err(DenseQuantizedError::EmptyDocuments);
        }
        let dimension: usize = documents[0].vector.len();
        let mut reconstruction: Vec<ScalarReconstructionStats> = Vec::new();
        let mut ordinal: usize = 0;
        while ordinal < documents.len()
            invariant
                measures(*reconstruct),
                ordinal <= documents@.len(),
                documents@.len() > 0,
                dimension == documents@[0].vector@.len(),
                reconstruction@.len() == ordinal,
                forall|i: int| 0 <= i < ordinal ==> #[trigger] is_numbered(documents@, i),
                forall|i: int|
                    0 <= i < ordinal ==> reconstruct.ensures(
                        (documents@[i].id, &documents@[i].vector),
                        Some(#[trigger] reconstruction@[i]),
                    ),
            decreases documents@.len() - ordinal,
        {
            let document = &documents[ordinal];
            if document.id as usize != ordinal || !valid_document(document, dimension) {
                assert(!is_numbered(documents@, ordinal as int));
                return Err(DenseQuantizedError::InvalidDocument(document.id));
            }
            assert(is_numbered(documents@, ordinal as int));
            match reconstruct(document.id, &document.vector) {
                Some(stats) => {
                    reconstruction.push(stats);
                },
                None => {
                    return Err(DenseQuantizedError::InvalidDocument(document.id));
                },
            }
            ordinal += 1;
        }
        proof {
            let ids = document_ids(documents@);
            assert forall|i: int, j: int| 0 <= i < j < ids.len() implies ids[i] != ids[j] by {
                assert(is_numbered(documents@, i));
                assert(is_numbered(documents@, j));
            }
        }
        let ids = ids_of_documents(&documents);
        let tree = NodeTree::blocks(ids, 1);
        Ok(DenseScalarCertifiedIndex { documents, reconstruction, dimension, tree })
    }

    /// A lazy exact stream for a query. `query_stats` are the norms of the query,
    /// where the vectors are scalar quantized; `approximate` are the quantized
    /// scores of the documents, as single-precision bit patterns.
    pub fn stream<
        C: Fn(u32, &ScalarReconstructionStats, &ScalarReconstructionStats, usize) -> i64,
        F: KeySource,
    >(
        &self,
        query: &Vec<u32>,
        query_stats: Option<ScalarReconstructionStats>,
        approximate: &Vec<u32>,
        combine: &C,
        scorer: F,
    ) -> (result: OperationResult<DenseScalarCertifiedStream<'_, F>>)
        requires
            approximate@.len() == self.documents().len(),
            combines_scalar(*combine),
            forall|point: int|
                0 <= point < self.documents().len() ==> #[trigger] scorer.defined(point),
        ensures
            !is_query(query@, self.dims()) ==> result == refused::<
                DenseScalarCertifiedStream<'_, F>,
            >(Fault::ScalarStreamQuery),
            is_query(query@, self.dims()) && query_stats is None ==> result == refused::<
                DenseScalarCertifiedStream<'_, F>,
            >(Fault::ScalarStreamQuantization),
            is_query(query@, self.dims()) && query_stats is Some ==> {
                &&& result matches Ok(stream)
                &&& stream.is_fresh(*self)
                &&& stream.is_exact(scorer)
                &&& stream.bounds().len() == self.documents().len()
                &&& forall|i: int|
                    0 <= i < self.documents().len() ==> combine.ensures(
                        (
                            approximate@[i],
                            &query_stats->0,
                            &self.reconstruction()[i],
                            self.dims() as usize,
                        ),
                        #[trigger] stream.bounds()[i],
                    )
            },
    {
        proof {
            use_type_invariant(self);
        }
        if query.len() != self.dimension || !is_finite_vector(query) {
            return refuse(Fault::ScalarStreamQuery);
        }
        let stats = match query_stats {
            Some(stats) => stats,
            None => {
                return refuse(Fault::ScalarStreamQuantization);
            },
        };
        let mut keys: Vec<i64> = Vec::new();
        let mut ordinal: usize = 0;
        while ordinal < self.documents.len()
            invariant
                self.wf(),
                ordinal <= self.documents@.len(),
                approximate@.len() == self.documents@.len(),
                combines_scalar(*combine),
                keys@.len() == ordinal,
                forall|i: int|
                    0 <= i < ordinal ==> combine.ensures(
                        (
                            approximate@[i],
                            &stats,
                            &self.reconstruction@[i],
                            self.dimension,
                        ),
                        #[trigger] keys@[i],
                    ),
            decreases self.documents@.len() - ordinal,
        {
            let bound: i64 = combine(
                approximate[ordinal],
                &stats,
                &self.reconstruction[ordinal],
                self.dimension,
            );
            keys.push(bound);
            ordinal += 1;
        }
        Ok(DenseScalarCertifiedStream::open(self, keys, scorer))
    }
}

/// Whether a function accepts all approximate scores.
pub open spec fn combines_scalar<
    C: Fn(u32, &ScalarReconstructionStats, &ScalarReconstructionStats, usize) -> i64,
>(combine: C) -> bool {
    forall|
        approximate: u32,
        query: &ScalarReconstructionStats,
        document: &ScalarReconstructionStats,
        dimension: usize,
    | #[trigger]
        combine.requires((approximate, query, document, dimension))
}

/// What a stream has done.
#[derive(Clone, Copy, Debug, Default, PartialEq, Eq, Structural)]
pub struct DenseScalarCertifiedTelemetry {
    pub native_quantized_scores: usize,
    pub exact_scores: usize,
    pub points_emitted: usize,
}

/// The documents of an index in the exact order of a query, one at a time.
pub struct DenseScalarCertifiedStream<'a, F: KeySource> {
    inner: CertifiedStream<'a, KeyTable, F>,
    native_quantized_scores: usize,
    bounds: Ghost<Seq<i64>>,
}

impl<'a, F: KeySource> DenseScalarCertifiedStream<'a, F> {
    /// The bounds of the documents.
    pub closed spec fn bounds(&self) -> Seq<i64> {
        self.bounds@
    }

    /// The search beneath the stream.
    pub closed spec fn inner(&self) -> CertifiedStream<'a, KeyTable, F> {
        self.inner
    }

    /// How many documents have a quantized score.
    pub closed spec fn compared(&self) -> usize {
        self.native_quantized_scores
    }

    /// Whether the stream stands before the first document of an index.
    pub open spec fn is_fresh(&self, index: DenseScalarCertifiedIndex) -> bool {
        &&& self.inner().tree() == index.tree()
        &&& self.inner().emitted() == 0
        &&& self.inner().scored() == Set::<int>::empty()
        &&& self.is_bounded()
        &&& self.compared() == index.documents().len()
        &&& forall|point: int| #[trigger]
            self.inner().held().contains(point) <==> 0 <= point < index.tree().ids@.len()
    }

    /// Whether every document is a block of its own with its own bound.
    pub open spec fn is_bounded(&self) -> bool {
        let tree = self.inner().tree();
        &&& self.inner().order() is Some ==> forall|point: int|
            0 <= point < tree.ids@.len() ==> #[trigger] self.inner().bound_of(point)
                == self.bounds()[point]
        &&& forall|node: int, point: int|
            0 <= node < tree.nodes@.len() && #[trigger] tree.covers(node, point) ==> node == point
                && 0 <= point < tree.ids@.len()
    }

    /// Whether the stream yields the exact order of the scores that the scorer
    /// computes, where no score exceeds its bound.
    pub open spec fn is_exact(&self, scorer: F) -> bool {
        forall|scores: spec_fn(int) -> Option<i64>| #[trigger]
            scores_exactly(scorer, self.inner().tree().ids@.len(), scores) && within(
                scores,
                self.bounds(),
            ) ==> {
                &&& self.inner().order() == Some(
                    exact_order(self.inner().tree(), scores, self.inner().held()),
                )
                &&& forall|point: int|
                    0 <= point < self.inner().tree().ids@.len() ==> Some(
                        #[trigger] self.inner().score_of(point),
                    ) == scores(point)
            }
    }

    /// A stream with the given bounds.
    fn open(index: &'a DenseScalarCertifiedIndex, keys: Vec<i64>, scorer: F) -> (stream:
        DenseScalarCertifiedStream<'a, F>)
        requires
            index.wf(),
            keys@.len() == index.documents().len(),
            forall|point: int|
                0 <= point < index.documents().len() ==> #[trigger] scorer.defined(point),
        ensures
            stream.bounds() == keys@,
            stream.is_fresh(*index),
            stream.is_exact(scorer),
    {
        let ghost bounds = keys@;
        let ghost tree = index.tree;
        let table = KeyTable { keys };
        proof {
            lemma_one_block_each(tree, document_ids(index.documents@));
        }
        let inner = CertifiedStream::new(&index.tree, table, scorer);
        let stream = DenseScalarCertifiedStream {
            inner,
            native_quantized_scores: index.documents.len(),
            bounds: Ghost(bounds),
        };
        proof {
            assert(stream.is_bounded()) by {
                assert forall|point: int| 0 <= point < tree.ids@.len() && stream.inner().order()
                    is Some implies #[trigger] stream.inner().bound_of(point) == bounds[point] by {
                    assert(table.gives(point, bounds[point]));
                }
            }
            assert forall|scores: spec_fn(int) -> Option<i64>| #[trigger]
                scores_exactly(scorer, tree.ids@.len(), scores) && within(
                    scores,
                    bounds,
                ) implies {
                &&& stream.inner().order() == Some(
                    exact_order(tree, scores, stream.inner().held()),
                )
                &&& forall|point: int|
                    0 <= point < tree.ids@.len() ==> Some(
                        #[trigger] stream.inner().score_of(point),
                    ) == scores(point)
            } by {
                let known = |node: int| Some(bounds[node]);
                assert(certifies(&table, &scorer, tree, known, scores)) by {
                    assert forall|node: int, point: int|
                        0 <= node < tree.nodes@.len() && tree.covers(node, point)
                            && #[trigger] scores(point) is Some implies #[trigger] known(node)
                        is Some && scores(point)->0 <= known(node)->0 by {
                        assert(tree.nodes@[node].start == node);
                        assert(point == node);
                    }
                }
            }
        }
        stream
    }

    /// The next document of the exact order; `None` at the end. A document is scored only
    /// where its bound is not below the score of the one that comes next.
    pub fn next(&mut self) -> (result: Option<DenseScoredPoint>)
        ensures
            final(self).bounds() == old(self).bounds(),
            final(self).compared() == old(self).compared(),
            steps_exactly(old(self).inner(), result, final(self).inner()),
            old(self).is_bounded() ==> final(self).is_bounded(),
            old(self).is_bounded() && old(self).inner().order() is Some ==> (result matches Some(
                found,
            ) ==> forall|point: int| #[trigger]
                final(self).inner().scored().contains(point) && !old(
                    self,
                ).inner().scored().contains(point) ==> found.score <= old(self).bounds()[point]),
    {
        self.inner.next_point()
    }

    /// What the stream has done.
    pub fn telemetry(&self) -> (telemetry: DenseScalarCertifiedTelemetry)
        ensures
            telemetry == (DenseScalarCertifiedTelemetry {
                native_quantized_scores: self.compared(),
                exact_scores: self.inner().scored().len() as usize,
                points_emitted: self.inner().emitted(),
            }),
    {
        let work = self.inner.work();
        DenseScalarCertifiedTelemetry {
            native_quantized_scores: self.native_quantized_scores,
            exact_scores: work.points_scored,
            points_emitted: self.inner.points_emitted(),
        }
    }
}

} // verus!
