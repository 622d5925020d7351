//! Exact dense streams proposed by low-bit scores with residual certificates.

pub use crate::dense_documents::DenseDocument;
pub use crate::frontier::DenseScoredPoint;

use crate::dense_documents::{
    are_documents, check_documents, document_ids, documents_fault, ids_of_documents,
    is_sorted_copy, lemma_sorted_documents, sorted_documents, DocumentFault,
};
use crate::dense_plan::{
    dot_product, finite_vector, integer_dot, is_finite_vector, symmetric_codes,
};
use crate::frontier::{
    certifies, exact_order, in_blocks, scores_exactly, steps_exactly, CertifiedStream, KeySource,
    KeyTable, NodeTree,
};
use crate::tables::copied;
use vstd::prelude::*;

verus! {

/// Why an index or a stream is refused.
#[derive(Clone, Copy, Debug, PartialEq, Eq, Structural)]
pub enum DenseQuantizedError {
    EmptyDocuments,
    DuplicateDocument(u32),
    InvalidDocument(u32),
    InvalidQuery,
}

/// The error for a fault of documents.
pub open spec fn quantized_error(fault: DocumentFault) -> DenseQuantizedError {
    match fault {
        DocumentFault::Empty => DenseQuantizedError::EmptyDocuments,
        DocumentFault::Duplicate(id) => DenseQuantizedError::DuplicateDocument(id),
        DocumentFault::Invalid(id) => DenseQuantizedError::InvalidDocument(id),
    }
}

/// What is known of a vector and of its codes, as double-precision bit patterns.
#[derive(Clone, Copy, Debug, PartialEq, Eq, Structural)]
pub struct QuantizedVectorMetadata {
    pub scale: u64,
    pub reconstructed_norm: u64,
    pub residual_norm: u64,
    pub original_norm: u64,
}

/// The codes of a vector.
#[derive(Clone, Debug)]
pub struct QuantizedVector {
    pub codes: Vec<i8>,
    pub metadata: QuantizedVectorMetadata,
}

/// Whether a function gives every coordinate a code, none of them the lowest number.
pub open spec fn quantizes<Q: Fn(&Vec<u32>) -> QuantizedVector>(quantize: Q) -> bool {
    &&& forall|vector: &Vec<u32>| #[trigger] quantize.requires((vector,))
    &&& forall|vector: &Vec<u32>, quantized: QuantizedVector| #[trigger]
        quantize.ensures((vector,), quantized) ==> quantized.codes@.len() == vector@.len()
            && symmetric_codes(quantized.codes@)
}

/// The most coordinates whose product of codes fits a 64-bit number.
pub open spec fn fits_products(dimension: int) -> bool {
    dimension * 16129 <= i64::MAX
}

/// Documents with their codes.
#[derive(Debug)]
pub struct DenseQuantizedIndex {
    documents: Vec<DenseDocument>,
    quantized: Vec<QuantizedVector>,
    dimension: usize,
    tree: NodeTree,
}

impl DenseQuantizedIndex {
    /// The documents in ascending order of identity.
    pub closed spec fn documents(&self) -> Seq<DenseDocument> {
        self.documents@
    }

    /// The codes of the documents.
    pub closed spec fn quantized(&self) -> Seq<QuantizedVector> {
        self.quantized@
    }

    /// The dimension of the documents.
    pub closed spec fn dims(&self) -> nat {
        self.dimension as nat
    }

    /// One block for every document.
    pub closed spec fn tree(&self) -> NodeTree {
        self.tree
    }

    /// Whether documents, codes and blocks belong together.
    #[verifier::type_invariant]
    pub closed spec fn wf(&self) -> bool {
        &&& are_documents(self.documents@)
        &&& self.documents@[0].vector@.len() == self.dimension
        &&& self.quantized@.len() == self.documents@.len()
        &&& forall|i: int|
            0 <= i < self.quantized@.len() ==> (#[trigger] self.quantized@[i]).codes@.len()
                == self.dimension && symmetric_codes(self.quantized@[i].codes@)
        &&& self.tree.wf()
        &&& in_blocks(self.tree, document_ids(self.documents@), 1)
    }

    /// An index of documents.
    pub fn build<Q: Fn(&Vec<u32>) -> QuantizedVector>(
        documents: Vec<DenseDocument>,
        quantize: &Q,
    ) -> (result: Result<DenseQuantizedIndex, DenseQuantizedError>)
        requires
            quantizes(*quantize),
        ensures
            match documents_fault(documents@) {
                Some(fault) => result == Err::<DenseQuantizedIndex, DenseQuantizedError>(
                    quantized_error(fault),
                ),
                None => {
                    &&& result matches Ok(index)
                    &&& is_sorted_copy(index.documents(), documents@)
                    &&& index.dims() == documents@[0].vector@.len()
                    &&& index.quantized().len() == documents@.len()
                    &&& forall|i: int|
                        0 <= i < documents@.len() ==> quantize.ensures(
                            (&index.documents()[i].vector,),
                            #[trigger] index.quantized()[i],
                        )
                },
            },
    {
        match check_documents(&documents) {
            Some(DocumentFault::Empty) => {
                return Err(DenseQuantizedError::EmptyDocuments);
            },
            Some(DocumentFault::Duplicate(id)) => {
                return Err(DenseQuantizedError::DuplicateDocument(id));
            },
            Some(DocumentFault::Invalid(id)) => {
                return Err(DenseQuantizedError::InvalidDocument(id));
            },
            None => {},
        }
        let dimension: usize = documents[0].vector.len();
        let sorted = sorted_documents(&documents);
        proof {
            assert(documents.len() <= usize::MAX);
            lemma_sorted_documents(sorted@, documents@);
        }
        let mut quantized: Vec<QuantizedVector> = Vec::new();
        let mut i: usize = 0;
        while i < sorted.len()
            invariant
                i <= sorted@.len(),
                quantizes(*quantize),
                quantized@.len() == i,
                are_documents(sorted@),
                sorted@[0].vector@.len() == dimension,
                forall|k: int|
                    0 <= k < i ==> {
                        &&& quantize.ensures((&sorted@[k].vector,), #[trigger] quantized@[k])
                        &&& quantized@[k].codes@.len() == dimension
                        &&& symmetric_codes(quantized@[k].codes@)
                    },
            decreases sorted@.len() - i,
        {
            let row = quantize(&sorted[i].vector);
            quantized.push(row);
            i += 1;
        }
        let ids = ids_of_documents(&sorted);
        let tree = NodeTree::blocks(ids, 1);
        Ok(DenseQuantizedIndex { documents: sorted, quantized, dimension, tree })
    }

    /// The number of documents.
    pub fn document_count(&self) -> (count: usize)
        ensures
            count == self.documents().len(),
    {
        self.documents.len()
    }

    /// The dimension of the documents.
    pub fn dimension(&self) -> (dimension: usize)
        ensures
            dimension == self.dims(),
    {
        self.dimension
    }

    /// The size of the codes and of what is kept beside them: four doubles for every
    /// document.
    pub fn encoded_bytes(&self) -> (bytes: usize)
        requires
            self.documents().len() * (self.dims() + 32) <= usize::MAX,
        ensures
            bytes == self.documents().len() * self.dims() + self.documents().len() * 4 * 8,
    {
        proof {
            let count = self.documents@.len() as int;
            let size = self.dimension as int;
            assert(count * (size + 32) == count * size + count * 32) by (nonlinear_arith);
            assert(count * size >= 0) by (nonlinear_arith)
                requires
                    count >= 0,
                    size >= 0,
            ;
        }
        self.documents.len() * self.dimension + self.documents.len() * 4 * 8
    }

    /// A document.
    pub fn document(&self, ordinal: usize) -> (document: &DenseDocument)
        requires
            ordinal < self.documents().len(),
        ensures
            *document == self.documents()[ordinal as int],
    {
        &self.documents[ordinal]
    }

    /// A lazy exact stream for a query.
    pub fn stream<
        Q: Fn(&Vec<u32>) -> QuantizedVector,
        C: Fn(i64, &QuantizedVectorMetadata, &QuantizedVectorMetadata, usize) -> i64,
        F: KeySource,
    >(&self, query: &Vec<u32>, quantize: &Q, combine: &C, scorer: F) -> (result: Result<
        DenseQuantizedStream<'_, F>,
        DenseQuantizedError,
    >)
        requires
            quantizes(*quantize),
            combines(*combine),
            fits_products(self.dims() as int),
            forall|point: int|
                0 <= point < self.documents().len() ==> #[trigger] scorer.defined(point),
        ensures
            result is Err <==> !is_query(query@, self.dims()),
            result matches Err(error) ==> error == DenseQuantizedError::InvalidQuery,
            result matches Ok(stream) ==> {
                &&& stream.is_fresh(*self)
                &&& exists|prepared: QuantizedVector|
                    quantize.ensures((query,), prepared) && #[trigger] bounds_by(
                        *self,
                        *combine,
                        prepared,
                        stream.bounds(),
                    )
                &&& stream.is_exact(scorer)
            },
    {
        let prepared = match PreparedQuery::new(self, query, quantize) {
            Ok(prepared) => prepared,
            Err(error) => {
                return Err(error);
            },
        };
        let mut keys: Vec<i64> = Vec::new();
        let mut ordinal: usize = 0;
        proof {
            use_type_invariant(self);
        }
        while ordinal < self.documents.len()
            invariant
                self.wf(),
                ordinal <= self.documents@.len(),
                keys@.len() == ordinal,
                prepared.fits(*self),
                combines(*combine),
                fits_products(self.dims() as int),
                forall|i: int|
                    0 <= i < ordinal ==> bound_by(
                        *self,
                        *combine,
                        prepared.quantized,
                        i,
                        #[trigger] keys@[i],
                    ),
            decreases self.documents@.len() - ordinal,
        {
            let bound: i64 = prepared.upper_bound(self, ordinal, combine);
            keys.push(bound);
            ordinal += 1;
        }
        assert(bounds_by(*self, *combine, prepared.quantized, keys@));
        Ok(DenseQuantizedStream::open(self, keys, scorer))
    }

    /// Independent exact streams whose bounds are computed document by document for
    /// the whole batch of queries.
    pub fn streams_document_major<
        Q: Fn(&Vec<u32>) -> QuantizedVector,
        C: Fn(i64, &QuantizedVectorMetadata, &QuantizedVectorMetadata, usize) -> i64,
        F: KeySource,
    >(&self, queries: &Vec<Vec<u32>>, quantize: &Q, combine: &C, scorers: Vec<F>) -> (result:
        Result<Vec<DenseQuantizedStream<'_, F>>, DenseQuantizedError>)
        requires
            quantizes(*quantize),
            combines(*combine),
            fits_products(self.dims() as int),
            scorers@.len() == queries@.len(),
            forall|query: int, point: int|
                0 <= query < scorers@.len() && 0 <= point < self.documents().len()
                    ==> #[trigger] scorers@[query].defined(point),
        ensures
            result is Err <==> exists|i: int|
                0 <= i < queries@.len() && !is_query((#[trigger] queries@[i])@, self.dims()),
            result matches Err(error) ==> error == DenseQuantizedError::InvalidQuery,
            result matches Ok(streams) ==> {
                &&& streams@.len() == queries@.len()
                &&& forall|i: int|
                    0 <= i < queries@.len() ==> {
                        &&& (#[trigger] streams@[i]).is_fresh(*self)
                        &&& exists|prepared: QuantizedVector|
                            quantize.ensures((&queries@[i],), prepared) && #[trigger] bounds_by(
                                *self,
                                *combine,
                                prepared,
                                streams@[i].bounds(),
                            )
                        &&& streams@[i].is_exact(scorers@[i])
                    }
            },
    {
        proof {
            use_type_invariant(self);
        }
        let mut prepared: Vec<PreparedQuery> = Vec::new();
        let mut tables: Vec<Vec<i64>> = Vec::new();
        let mut i: usize = 0;
        while i < queries.len()
            invariant
                i <= queries@.len(),
                quantizes(*quantize),
                prepared@.len() == i,
                tables@.len() == i,
                forall|k: int|
                    0 <= k < i ==> is_prepared(
                        *self,
                        *quantize,
                        queries@[k],
                        #[trigger] prepared@[k],
                    ),
                forall|k: int| 0 <= k < i ==> (#[trigger] tables@[k])@.len() == 0,
            decreases queries@.len() - i,
        {
            match PreparedQuery::new(self, &queries[i], quantize) {
                Ok(query) => {
                    assert(is_prepared(*self, *quantize, queries@[i as int], query));
                    prepared.push(query);
                    tables.push(Vec::new());
                },
                Err(error) => {
                    assert(!is_query(queries@[i as int]@, self.dims()));
                    return Err(error);
                },
            }
            i += 1;
        }
        let mut ordinal: usize = 0;
        while ordinal < self.documents.len()
            invariant
                self.wf(),
                ordinal <= self.documents@.len(),
                combines(*combine),
                fits_products(self.dims() as int),
                prepared@.len() == queries@.len(),
                tables@.len() == queries@.len(),
                forall|k: int|
                    0 <= k < prepared@.len() ==> is_prepared(
                        *self,
                        *quantize,
                        queries@[k],
                        #[trigger] prepared@[k],
                    ),
                forall|k: int|
                    0 <= k < tables@.len() ==> bounds_upto(
                        *self,
                        *combine,
                        prepared@[k].quantized,
                        (#[trigger] tables@[k])@,
                        ordinal as int,
                    ),
            decreases self.documents@.len() - ordinal,
        {
            let mut query: usize = 0;
            while query < prepared.len()
                invariant
                    self.wf(),
                    ordinal < self.documents@.len(),
                    combines(*combine),
                    fits_products(self.dims() as int),
                    query <= prepared@.len(),
                    prepared@.len() == queries@.len(),
                    tables@.len() == queries@.len(),
                    forall|k: int|
                        0 <= k < prepared@.len() ==> is_prepared(
                            *self,
                            *quantize,
                            queries@[k],
                            #[trigger] prepared@[k],
                        ),
                    forall|k: int|
                        0 <= k < query ==> bounds_upto(
                            *self,
                            *combine,
                            prepared@[k].quantized,
                            (#[trigger] tables@[k])@,
                            ordinal + 1,
                        ),
                    forall|k: int|
                        query <= k < tables@.len() ==> bounds_upto(
                            *self,
                            *combine,
                            prepared@[k].quantized,
                            (#[trigger] tables@[k])@,
                            ordinal as int,
                        ),
                decreases prepared@.len() - query,
            {
                let bound: i64 = prepared[query].upper_bound(self, ordinal, combine);
                let ghost before = tables@;
                let table = &mut tables[query];
                table.push(bound);
                assert(tables@[query as int]@ == before[query as int]@.push(bound));
                query += 1;
            }
            ordinal += 1;
        }
        proof {
            assert forall|k: int| 0 <= k < queries@.len() implies is_query(
                (#[trigger] queries@[k])@,
                self.dims(),
            ) by {
                assert(is_prepared(*self, *quantize, queries@[k], prepared@[k]));
            }
        }
        let ghost bounds = tables@;
        let ghost given = scorers@;
        let mut streams: Vec<DenseQuantizedStream<'_, F>> = Vec::new();
        let mut waiting_tables = tables;
        let mut waiting = scorers;
        assert(given.skip(0) =~= given);
        assert(bounds.skip(0) =~= bounds);
        while waiting.len() > 0
            invariant
                self.wf(),
                given.len() == queries@.len(),
                bounds.len() == queries@.len(),
                streams@.len() + waiting@.len() == given.len(),
                waiting_tables@.len() == waiting@.len(),
                waiting@ == given.skip(streams@.len() as int),
                waiting_tables@ == bounds.skip(streams@.len() as int),
                forall|query: int, point: int|
                    0 <= query < given.len() && 0 <= point < self.documents().len()
                        ==> #[trigger] given[query].defined(point),
                forall|k: int|
                    0 <= k < bounds.len() ==> (#[trigger] bounds[k])@.len()
                        == self.documents@.len(),
                forall|k: int|
                    0 <= k < streams@.len() ==> {
                        &&& (#[trigger] streams@[k]).is_fresh(*self)
                        &&& streams@[k].bounds() == bounds[k]@
                        &&& streams@[k].is_exact(given[k])
                    },
            decreases waiting@.len(),
        {
            let ghost done = streams@.len() as int;
            let ghost before = waiting@;
            let ghost before_tables = waiting_tables@;
            let keys = waiting_tables.remove(0);
            let scorer = waiting.remove(0);
            assert(scorer == given[done]);
            assert(keys == bounds[done]);
            streams.push(DenseQuantizedStream::open(self, keys, scorer));
            assert(before.remove(0) =~= given.skip(done + 1));
            assert(before_tables.remove(0) =~= bounds.skip(done + 1));
        }
        proof {
            assert forall|k: int| 0 <= k < queries@.len() implies exists|prepared: QuantizedVector|
                quantize.ensures((&queries@[k],), prepared) && #[trigger] bounds_by(
                    *self,
                    *combine,
                    prepared,
                    (#[trigger] streams@[k]).bounds(),
                ) by {
                let query = prepared@[k].quantized;
                assert(bounds_upto(
                    *self,
                    *combine,
                    query,
                    bounds[k]@,
                    self.documents@.len() as int,
                ));
                assert(bounds_by(*self, *combine, query, streams@[k].bounds()));
            }
        }
        Ok(streams)
    }
}

/// Whether a query has the given dimension and finite coordinates.
pub open spec fn is_query(query: Seq<u32>, dimension: nat) -> bool {
    query.len() == dimension && finite_vector(query)
}

/// Whether a function accepts all products of codes.
pub open spec fn combines<
    C: Fn(i64, &QuantizedVectorMetadata, &QuantizedVectorMetadata, usize) -> i64,
>(combine: C) -> bool {
    forall|
        product: i64,
        query: &QuantizedVectorMetadata,
        document: &QuantizedVectorMetadata,
        dimension: usize,
    | #[trigger]
        combine.requires((product, query, document, dimension))
}

/// Whether a bound is the one that a function gives for the product of the codes of
/// a query and of a document.
pub open spec fn bound_by<
    C: Fn(i64, &QuantizedVectorMetadata, &QuantizedVectorMetadata, usize) -> i64,
>(
    index: DenseQuantizedIndex,
    combine: C,
    query: QuantizedVector,
    ordinal: int,
    bound: i64,
) -> bool {
    let row = index.quantized()[ordinal];
    combine.ensures(
        (
            dot_product(query.codes@, row.codes@, index.dims() as int) as i64,
            &query.metadata,
            &row.metadata,
            index.dims() as usize,
        ),
        bound,
    )
}

/// Whether a table starts with the bounds of the leading documents.
pub open spec fn bounds_upto<
    C: Fn(i64, &QuantizedVectorMetadata, &QuantizedVectorMetadata, usize) -> i64,
>(
    index: DenseQuantizedIndex,
    combine: C,
    query: QuantizedVector,
    bounds: Seq<i64>,
    count: int,
) -> bool {
    &&& bounds.len() == count
    &&& forall|i: int|
        0 <= i < count ==> bound_by(index, combine, query, i, #[trigger] bounds[i])
}

/// Whether a table holds the bounds of all documents.
pub open spec fn bounds_by<
    C: Fn(i64, &QuantizedVectorMetadata, &QuantizedVectorMetadata, usize) -> i64,
>(
    index: DenseQuantizedIndex,
    combine: C,
    query: QuantizedVector,
    bounds: Seq<i64>,
) -> bool {
    bounds_upto(index, combine, query, bounds, index.documents().len() as int)
}

/// A query with its codes.
#[derive(Debug)]
pub struct PreparedQuery {
    pub exact: Vec<u32>,
    pub quantized: QuantizedVector,
}

impl PreparedQuery {
    /// Whether the codes of the query can be multiplied with those of the documents.
    pub open spec fn fits(&self, index: DenseQuantizedIndex) -> bool {
        &&& self.quantized.codes@.len() == index.dims()
        &&& symmetric_codes(self.quantized.codes@)
    }

    /// Checks and encodes a query.
    pub fn new<Q: Fn(&Vec<u32>) -> QuantizedVector>(
        index: &DenseQuantizedIndex,
        query: &Vec<u32>,
        quantize: &Q,
    ) -> (result: Result<PreparedQuery, DenseQuantizedError>)
        requires
            quantizes(*quantize),
        ensures
            !is_query(query@, index.dims()) ==> result == Err::<PreparedQuery, DenseQuantizedError>(
                DenseQuantizedError::InvalidQuery,
            ),
            is_query(query@, index.dims()) ==> {
                &&& result matches Ok(prepared)
                &&& prepared.exact@ == query@
                &&& prepared.fits(*index)
                &&& quantize.ensures((query,), prepared.quantized)
            },
    {
        if query.len() != index.dimension || !is_finite_vector(query) {
            return Err(DenseQuantizedError::InvalidQuery);
        }
        let quantized = quantize(query);
        Ok(PreparedQuery { exact: copied(query), quantized })
    }

    /// The upper bound of the score of a document.
    pub fn upper_bound<
        C: Fn(i64, &QuantizedVectorMetadata, &QuantizedVectorMetadata, usize) -> i64,
    >(&self, index: &DenseQuantizedIndex, ordinal: usize, combine: &C) -> (bound: i64)
        requires
            self.fits(*index),
            ordinal < index.documents().len(),
            fits_products(index.dims() as int),
            combines(*combine),
        ensures
            bound_by(*index, *combine, self.quantized, ordinal as int, bound),
    {
        proof {
            use_type_invariant(index);
        }
        let row = &index.quantized[ordinal];
        let product: i64 = integer_dot(&self.quantized.codes, &row.codes);
        combine(product, &self.quantized.metadata, &row.metadata, index.dimension)
    }
}

/// Whether a valid query was encoded.
pub open spec fn is_prepared<Q: Fn(&Vec<u32>) -> QuantizedVector>(
    index: DenseQuantizedIndex,
    quantize: Q,
    query: Vec<u32>,
    prepared: PreparedQuery,
) -> bool {
    &&& is_query(query@, index.dims())
    &&& prepared.fits(index)
    &&& quantize.ensures((&query,), prepared.quantized)
}

/// What a stream has done.
#[derive(Clone, Copy, Debug, PartialEq, Eq, Structural)]
pub struct DenseQuantizedTelemetry {
    pub quantized_scores: usize,
    pub exact_scores: usize,
    pub points_emitted: usize,
}

impl Default for DenseQuantizedTelemetry {
    fn default() -> (telemetry: DenseQuantizedTelemetry)
        ensures
            telemetry == (DenseQuantizedTelemetry {
                quantized_scores: 0,
                exact_scores: 0,
                points_emitted: 0,
            }),
    {
        DenseQuantizedTelemetry { quantized_scores: 0, exact_scores: 0, points_emitted: 0 }
    }
}

/// The documents of an index in the exact order of a query, one at a time. A
/// document is scored only when its bound does not exclude that it comes next.
pub struct DenseQuantizedStream<'a, F: KeySource> {
    inner: CertifiedStream<'a, KeyTable, F>,
    quantized_scores: usize,
    bounds: Ghost<Seq<i64>>,
}

impl<'a, F: KeySource> DenseQuantizedStream<'a, F> {
    /// The bounds of the documents.
    pub closed spec fn bounds(&self) -> Seq<i64> {
        self.bounds@
    }

    /// The search beneath the stream.
    pub closed spec fn inner(&self) -> CertifiedStream<'a, KeyTable, F> {
        self.inner
    }

    /// How many documents were compared by their codes.
    pub closed spec fn compared(&self) -> usize {
        self.quantized_scores
    }

    /// Whether the stream stands before the first document of an index.
    pub open spec fn is_fresh(&self, index: DenseQuantizedIndex) -> bool {
        &&& self.inner().tree() == index.tree()
        &&& self.inner().emitted() == 0
        &&& self.inner().scored() == Set::<int>::empty()
        &&& self.is_bounded()
        &&& self.compared() == index.documents().len()
        &&& forall|point: int| #[trigger]
            self.inner().held().contains(point) <==> 0 <= point < index.tree().ids@.len()
    }

    /// Whether every document is a block of its own with its own bound.
    pub open spec fn is_bounded(&self) -> bool {
        let tree = self.inner().tree();
        &&& self.inner().order() is Some ==> forall|point: int|
            0 <= point < tree.ids@.len() ==> #[trigger] self.inner().bound_of(point)
                == self.bounds()[point]
        &&& forall|node: int, point: int|
            0 <= node < tree.nodes@.len() && #[trigger] tree.covers(node, point) ==> node == point
                && 0 <= point < tree.ids@.len()
    }

    /// Whether the stream yields the exact order of the scores that the scorer
    /// computes, where no score exceeds its bound.
    pub open spec fn is_exact(&self, scorer: F) -> bool {
        forall|scores: spec_fn(int) -> Option<i64>| #[trigger]
            scores_exactly(scorer, self.inner().tree().ids@.len(), scores) && within(
                scores,
                self.bounds(),
            ) ==> {
                &&& self.inner().order() == Some(
                    exact_order(self.inner().tree(), scores, self.inner().held()),
                )
                &&& forall|point: int|
                    0 <= point < self.inner().tree().ids@.len() ==> Some(
                        #[trigger] self.inner().score_of(point),
                    ) == scores(point)
            }
    }

    /// A stream with the given bounds.
    fn open(index: &'a DenseQuantizedIndex, keys: Vec<i64>, scorer: F) -> (stream:
        DenseQuantizedStream<'a, F>)
        requires
            index.wf(),
            keys@.len() == index.documents().len(),
            forall|point: int|
                0 <= point < index.documents().len() ==> #[trigger] scorer.defined(point),
        ensures
            stream.bounds() == keys@,
            stream.is_fresh(*index),
            stream.is_exact(scorer),
    {
        let ghost bounds = keys@;
        let ghost tree = index.tree;
        let table = KeyTable { keys };
        proof {
            lemma_one_block_each(tree, document_ids(index.documents@));
        }
        let inner = CertifiedStream::new(&index.tree, table, scorer);
        let stream = DenseQuantizedStream {
            inner,
            quantized_scores: index.documents.len(),
            bounds: Ghost(bounds),
        };
        proof {
            assert(stream.is_bounded()) by {
                assert forall|point: int| 0 <= point < tree.ids@.len() && stream.inner().order()
                    is Some implies #[trigger] stream.inner().bound_of(point) == bounds[point] by {
                    assert(table.gives(point, bounds[point]));
                }
            }
            assert forall|scores: spec_fn(int) -> Option<i64>| #[trigger]
                scores_exactly(scorer, tree.ids@.len(), scores) && within(
                    scores,
                    bounds,
                ) implies {
                &&& stream.inner().order() == Some(
                    exact_order(tree, scores, stream.inner().held()),
                )
                &&& forall|point: int|
                    0 <= point < tree.ids@.len() ==> Some(
                        #[trigger] stream.inner().score_of(point),
                    ) == scores(point)
            } by {
                let known = |node: int| Some(bounds[node]);
                assert(certifies(&table, &scorer, tree, known, scores)) by {
                    assert forall|node: int, point: int|
                        0 <= node < tree.nodes@.len() && tree.covers(node, point)
                            && #[trigger] scores(point) is Some implies #[trigger] known(node)
                        is Some && scores(point)->0 <= known(node)->0 by {
                        assert(tree.nodes@[node].start == node);
                        assert(point == node);
                    }
                }
            }
        }
        stream
    }

    /// The next document of the exact order; `None` at the end. A document is scored only
    /// where its bound is not below the score of the one that comes next.
    pub fn next(&mut self) -> (result: Option<DenseScoredPoint>)
        ensures
            final(self).bounds() == old(self).bounds(),
            final(self).compared() == old(self).compared(),
            steps_exactly(old(self).inner(), result, final(self).inner()),
            old(self).is_bounded() ==> final(self).is_bounded(),
            old(self).is_bounded() && old(self).inner().order() is Some ==> (result matches Some(
                found,
            ) ==> forall|point: int| #[trigger]
                final(self).inner().scored().contains(point) && !old(
                    self,
                ).inner().scored().contains(point) ==> found.score <= old(self).bounds()[point]),
    {
        self.inner.next_point()
    }

    /// The stream of identities, for fusion.
    pub fn into_identities(self) -> (stream: CertifiedStream<'a, KeyTable, F>)
        ensures
            stream == self.inner(),
    {
        self.inner
    }

    /// What the stream has done.
    pub fn telemetry(&self) -> (telemetry: DenseQuantizedTelemetry)
        ensures
            telemetry == (DenseQuantizedTelemetry {
                quantized_scores: self.compared(),
                exact_scores: self.inner().scored().len() as usize,
                points_emitted: self.inner().emitted(),
            }),
    {
        let work = self.inner.work();
        DenseQuantizedTelemetry {
            quantized_scores: self.quantized_scores,
            exact_scores: work.points_scored,
            points_emitted: self.inner.points_emitted(),
        }
    }
}

/// Whether no score exceeds the bound at its place.
pub open spec fn within(scores: spec_fn(int) -> Option<i64>, bounds: Seq<i64>) -> bool {
    forall|point: int|
        0 <= point < bounds.len() && #[trigger] scores(point) is Some ==> scores(point)->0
            <= bounds[point]
}

/// Blocks of one document each are numbered as the documents are.
pub proof fn lemma_one_block_each(tree: NodeTree, ids: Seq<u32>)
    requires
        tree.wf(),
        in_blocks(tree, ids, 1),
    ensures
        tree.nodes@.len() == ids.len(),
        forall|node: int|
            0 <= node < ids.len() ==> (#[trigger] tree.nodes@[node]).start == node
                && tree.nodes@[node].end == node + 1,
{
    assert forall|node: int| 0 <= node < tree.nodes@.len() implies (
    #[trigger] tree.nodes@[node]).start == node && tree.nodes@[node].end == node + 1 by {
        assert(tree.node_wf(node));
    }
    let count = tree.nodes@.len() as int;
    if count > 0 {
        assert(tree.roots@[count - 1] == count - 1);
        assert(tree.nodes@[count - 1].end == count);
    }
}

} // verus!
