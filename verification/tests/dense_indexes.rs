use exact_rank_fusion::dense_ball::{DenseBallError, DenseBallIndex, DenseBallNodeContents};
use exact_rank_fusion::dense_clustering::{capacity_bounded_assignments, BallGeometry};
use exact_rank_fusion::dense_documents::DenseDocument;
use exact_rank_fusion::dense_proposal_certified::{
    DenseProposalCertifiedError, DenseProposalCertifiedStream,
};
use exact_rank_fusion::dense_quantized::{
    DenseQuantizedError, DenseQuantizedIndex, QuantizedVector, QuantizedVectorMetadata,
};
use exact_rank_fusion::dense_scalar_certified::{
    DenseScalarCertifiedIndex, ScalarReconstructionStats,
};
use exact_rank_fusion::dense_threshold::{
    order_by_places, DenseThresholdError, DenseThresholdIndex, ThresholdArithmetic,
};
use exact_rank_fusion::frontier::{DenseScoredPoint, KeyTable};
use exact_rank_fusion::operation_error::{Fault, OperationError};
use exact_rank_fusion::order::{score_bits, score_key};

fn key(value: f64) -> i64 {
    score_key(value.to_bits())
}

fn number(key: i64) -> f64 {
    f64::from_bits(score_bits(key))
}

fn bits(vector: &[f32]) -> Vec<u32> {
    vector.iter().map(|value| value.to_bits()).collect()
}

fn values(vector: &[u32]) -> Vec<f64> {
    vector.iter().map(|bits| f64::from(f32::from_bits(*bits))).collect()
}

fn document(id: u32, vector: &[f32]) -> DenseDocument {
    DenseDocument { id, vector: bits(vector) }
}

fn copies(documents: &[DenseDocument]) -> Vec<DenseDocument> {
    documents
        .iter()
        .map(|document| DenseDocument { id: document.id, vector: document.vector.clone() })
        .collect()
}

fn dot(left: &[f64], right: &[f64]) -> f64 {
    left.iter().zip(right).map(|(left, right)| left * right).sum()
}

fn score(document: &DenseDocument, query: &[f32]) -> i64 {
    key(dot(&values(&document.vector), &values(&bits(query))))
}

fn exhaustive(documents: &[DenseDocument], query: &[f32]) -> Vec<DenseScoredPoint> {
    let mut points: Vec<_> = documents
        .iter()
        .map(|document| DenseScoredPoint { id: document.id, score: score(document, query) })
        .collect();
    points.sort_unstable_by(|left, right| {
        right.score.cmp(&left.score).then_with(|| left.id.cmp(&right.id))
    });
    points
}

fn id_list(points: &[DenseScoredPoint]) -> Vec<u32> {
    points.iter().map(|point| point.id).collect()
}

struct Numbers {
    state: u64,
}

impl Numbers {
    fn next(&mut self, below: u64) -> u64 {
        self.state = self
            .state
            .wrapping_mul(6_364_136_223_846_793_005)
            .wrapping_add(1_442_695_040_888_963_407);
        (self.state >> 33) % below
    }

    fn unit(&mut self) -> f32 {
        self.next(2_000_001) as f32 / 1_000_000.0 - 1.0
    }

    fn small(&mut self) -> f32 {
        self.next(11) as f32 - 5.0
    }
}

fn generated_case(numbers: &mut Numbers) -> (Vec<DenseDocument>, Vec<f32>, usize) {
    let document_count = 1 + numbers.next(47);
    let dimension = 1 + numbers.next(8);
    let documents = (0..document_count)
        .map(|id| {
            let vector: Vec<f32> = (0..dimension).map(|_| numbers.small()).collect();
            document(id as u32, &vector)
        })
        .collect();
    let mut query: Vec<f32> = (0..dimension).map(|_| numbers.small()).collect();
    if query.iter().all(|value| *value == 0.0) {
        query[0] = 1.0;
    }
    let block_size = 1 + numbers.next(document_count) as usize;
    (documents, query, block_size)
}

fn quantize(vector: &Vec<u32>) -> QuantizedVector {
    let vector = values(vector);
    let largest = vector.iter().fold(0.0_f64, |largest, value| largest.max(value.abs()));
    let scale = if largest == 0.0 { 1.0 } else { largest / 127.0 };
    let codes: Vec<i8> =
        vector.iter().map(|value| (value / scale).round().clamp(-127.0, 127.0) as i8).collect();
    let rebuilt: Vec<f64> = codes.iter().map(|code| f64::from(*code) * scale).collect();
    let residual: Vec<f64> =
        vector.iter().zip(&rebuilt).map(|(value, rebuilt)| value - rebuilt).collect();
    let metadata = QuantizedVectorMetadata {
        scale: scale.to_bits(),
        reconstructed_norm: dot(&rebuilt, &rebuilt).sqrt().to_bits(),
        residual_norm: dot(&residual, &residual).sqrt().next_up().to_bits(),
        original_norm: dot(&vector, &vector).sqrt().to_bits(),
    };
    QuantizedVector { codes, metadata }
}

fn combine(
    product: i64,
    query: &QuantizedVectorMetadata,
    document: &QuantizedVectorMetadata,
    dimension: usize,
) -> i64 {
    let value = f64::from_bits;
    let approximate = product as f64 * value(query.scale) * value(document.scale);
    let error = value(query.residual_norm) * value(document.original_norm)
        + value(query.reconstructed_norm) * value(document.residual_norm);
    let guard = (approximate.abs()
        + error
        + value(query.original_norm) * value(document.original_norm))
        * f64::EPSILON
        * (8.0 * dimension as f64 + 32.0);
    key((approximate + error + guard).next_up())
}

fn quantized_scores(index: &DenseQuantizedIndex, query: &[f32]) -> KeyTable {
    KeyTable {
        keys: (0..index.document_count())
            .map(|ordinal| score(index.document(ordinal), query))
            .collect(),
    }
}

fn quantized_order(index: &DenseQuantizedIndex, query: &[f32]) -> Vec<DenseScoredPoint> {
    let mut stream =
        index.stream(&bits(query), &quantize, &combine, quantized_scores(index, query)).unwrap();
    std::iter::from_fn(|| stream.next()).collect()
}

#[test]
fn dense_quantized_exact_stream_matches_exhaustive_for_mixed_sign_vectors() {
    for dimension in [1, 3, 17, 64] {
        let documents: Vec<_> = (0..97_u32)
            .map(|id| {
                let vector: Vec<f32> = (0..dimension)
                    .map(|coordinate| {
                        let value = ((id as usize * 31 + coordinate * 17) % 101) as f32;
                        (value - 50.0) / 37.0
                    })
                    .collect();
                document(id, &vector)
            })
            .collect();
        let query: Vec<f32> = (0..dimension)
            .map(|coordinate| ((coordinate * 23 % 47) as f32 - 21.0) / 19.0)
            .collect();
        let index = DenseQuantizedIndex::build(copies(&documents), &quantize).unwrap();

        assert_eq!(quantized_order(&index, &query), exhaustive(&documents, &query));
    }
}

#[test]
fn only_rescores_overlapping_intervals_for_separated_vectors() {
    let documents = (0..1_000_u32).map(|id| document(id, &[id as f32, 1.0])).collect();
    let index = DenseQuantizedIndex::build(documents, &quantize).unwrap();
    let query = [1.0, 0.0];
    let mut stream = index
        .stream(&bits(&query), &quantize, &combine, quantized_scores(&index, &query))
        .unwrap();

    let top: Vec<_> = (0..20).map(|_| stream.next().unwrap()).collect();

    assert_eq!(top[0].id, 999);
    assert!(stream.telemetry().exact_scores < index.document_count());
    assert_eq!(stream.telemetry().quantized_scores, 1_000);
    assert_eq!(stream.telemetry().points_emitted, 20);
}

#[test]
fn preserves_identity_order_for_ties() {
    let documents = vec![document(7, &[1.0, 2.0]), document(3, &[1.0, 2.0])];
    let index = DenseQuantizedIndex::build(documents, &quantize).unwrap();
    let points = quantized_order(&index, &[1.0, 1.0]);

    assert_eq!(points[0].id, 3);
    assert_eq!(points[1].id, 7);
}

#[test]
fn document_major_batch_matches_independent_streams() {
    let documents = (0..257_u32)
        .map(|id| {
            let vector: Vec<f32> = (0..31)
                .map(|coordinate| ((id as usize * 19 + coordinate * 43) % 127) as f32 / 63.0 - 1.0)
                .collect();
            document(id, &vector)
        })
        .collect();
    let index = DenseQuantizedIndex::build(documents, &quantize).unwrap();
    let queries: Vec<Vec<f32>> = (0..4)
        .map(|query| {
            (0..31)
                .map(|coordinate| ((query * 29 + coordinate * 17) % 101) as f32 / 50.0 - 1.0)
                .collect()
        })
        .collect();

    let actual: Vec<Vec<DenseScoredPoint>> = index
        .streams_document_major(
            &queries.iter().map(|query| bits(query)).collect(),
            &quantize,
            &combine,
            queries.iter().map(|query| quantized_scores(&index, query)).collect(),
        )
        .unwrap()
        .into_iter()
        .map(|mut stream| std::iter::from_fn(|| stream.next()).collect())
        .collect();
    let expected: Vec<Vec<DenseScoredPoint>> =
        queries.iter().map(|query| quantized_order(&index, query)).collect();

    assert_eq!(actual, expected);
}

#[test]
fn quantized_index_names_each_fault() {
    let refused = |documents: Vec<DenseDocument>| DenseQuantizedIndex::build(documents, &quantize).err();
    assert_eq!(refused(vec![]), Some(DenseQuantizedError::EmptyDocuments));
    assert_eq!(
        refused(vec![document(4, &[1.0]), document(4, &[1.0])]),
        Some(DenseQuantizedError::DuplicateDocument(4))
    );
    assert_eq!(
        refused(vec![document(4, &[1.0]), document(5, &[1.0, 2.0])]),
        Some(DenseQuantizedError::InvalidDocument(5))
    );
    assert_eq!(
        refused(vec![document(4, &[f32::NAN])]),
        Some(DenseQuantizedError::InvalidDocument(4))
    );
    let index =
        DenseQuantizedIndex::build(vec![document(9, &[1.0, 2.0]), document(2, &[0.0, 1.0])], &quantize)
            .unwrap();
    assert_eq!(index.encoded_bytes(), 4 + 2 * 32);
    assert_eq!(index.dimension(), 2);
    assert_eq!(index.document(0).id, 2);
    let table = || KeyTable { keys: vec![0, 0] };
    assert_eq!(
        index.stream(&bits(&[1.0]), &quantize, &combine, table()).err(),
        Some(DenseQuantizedError::InvalidQuery)
    );
    assert_eq!(
        index.stream(&bits(&[1.0, f32::INFINITY]), &quantize, &combine, table()).err(),
        Some(DenseQuantizedError::InvalidQuery)
    );
}

#[test]
fn scalar_certified_stream_matches_exhaustive_order() {
    let documents: Vec<_> = (0..61_u32)
        .map(|id| document(id, &[((id * 17) % 23) as f32 - 11.0, ((id * 5) % 13) as f32 - 6.0]))
        .collect();
    let stats = |vector: &Vec<u32>| {
        let quantized = quantize(vector);
        ScalarReconstructionStats {
            reconstructed_norm: quantized.metadata.reconstructed_norm,
            residual_norm: quantized.metadata.residual_norm,
            original_norm: quantized.metadata.original_norm,
        }
    };
    let index = DenseScalarCertifiedIndex::build(copies(&documents), &|_id: u32, vector: &Vec<u32>| {
        Some(stats(vector))
    })
    .unwrap();
    let query = [0.75_f32, -1.5];
    let rebuilt = |vector: &Vec<u32>| {
        let quantized = quantize(vector);
        let scale = f64::from_bits(quantized.metadata.scale);
        quantized.codes.iter().map(|code| f64::from(*code) * scale).collect::<Vec<_>>()
    };
    let approximate: Vec<u32> = documents
        .iter()
        .map(|document| {
            (dot(&rebuilt(&document.vector), &rebuilt(&bits(&query))) as f32).to_bits()
        })
        .collect();
    let bound = |approximate: u32,
                 query: &ScalarReconstructionStats,
                 document: &ScalarReconstructionStats,
                 _dimension: usize| {
        let value = f64::from_bits;
        let error = value(query.residual_norm) * value(document.original_norm)
            + value(query.reconstructed_norm) * value(document.residual_norm);
        key(f64::from(f32::from_bits(approximate)) + error + 1e-3)
    };
    let scores =
        KeyTable { keys: documents.iter().map(|document| score(document, &query)).collect() };
    let mut stream = index
        .stream(&bits(&query), Some(stats(&bits(&query))), &approximate, &bound, scores)
        .unwrap();
    let actual: Vec<_> = std::iter::from_fn(|| stream.next()).collect();
    assert_eq!(actual, exhaustive(&documents, &query));
    assert_eq!(stream.telemetry().native_quantized_scores, 61);
    assert_eq!(
        index
            .stream(&bits(&query), None, &approximate, &bound, KeyTable { keys: vec![0; 61] })
            .err(),
        Some(OperationError::ValidationError(Fault::ScalarStreamQuantization))
    );
    assert_eq!(
        index
            .stream(
                &bits(&[1.0]),
                Some(stats(&bits(&query))),
                &approximate,
                &bound,
                KeyTable { keys: vec![0; 61] }
            )
            .err(),
        Some(OperationError::ValidationError(Fault::ScalarStreamQuery))
    );
}

fn squared_distance(vector: &Vec<u32>, center: &Vec<u64>) -> i64 {
    key(values(vector)
        .iter()
        .zip(center)
        .map(|(value, center)| (value - f64::from_bits(*center)).powi(2))
        .sum())
}

fn centroid(documents: &Vec<DenseDocument>, places: &Vec<usize>) -> Vec<u64> {
    let members: Vec<Vec<f64>> =
        places.iter().map(|place| values(&documents[*place].vector)).collect();
    mean(&members).into_iter().map(f64::to_bits).collect()
}

fn as_center(vector: &Vec<u32>) -> Vec<u64> {
    values(vector).into_iter().map(f64::to_bits).collect()
}

fn gap(first: i64, second: i64) -> i64 {
    key(number(second) - number(first))
}

fn build_clustered(
    documents: Vec<DenseDocument>,
    block_size: usize,
    iterations: usize,
) -> Result<DenseBallIndex, DenseBallError> {
    let geometry = BallGeometry { squared_distance, centroid, as_center, gap };
    DenseBallIndex::build_clustered(documents, block_size, iterations, &geometry)
}

fn build_hierarchical(
    documents: Vec<DenseDocument>,
    leaf_size: usize,
    branch_factor: usize,
    iterations: usize,
) -> Result<DenseBallIndex, DenseBallError> {
    let geometry = BallGeometry { squared_distance, centroid, as_center, gap };
    DenseBallIndex::build_hierarchical_clustered(
        documents,
        leaf_size,
        branch_factor,
        iterations,
        &geometry,
    )
}

fn mean(members: &[Vec<f64>]) -> Vec<f64> {
    let mut center = vec![0.0; members[0].len()];
    for member in members {
        for (sum, value) in center.iter_mut().zip(member) {
            *sum += value;
        }
    }
    center.into_iter().map(|sum| sum / members.len() as f64).collect()
}

fn ball_bounds(index: &DenseBallIndex, query: &[f32]) -> KeyTable {
    let query = values(&bits(query));
    let query_norm = dot(&query, &query).sqrt();
    let keys = (0..index.node_count())
        .map(|node| {
            let (start, end) = index.node_range(node);
            let members: Vec<Vec<f64>> =
                (start..end).map(|place| values(&index.document_at(place).vector)).collect();
            let center = mean(&members);
            let radius = members
                .iter()
                .map(|member| {
                    member
                        .iter()
                        .zip(&center)
                        .map(|(value, center)| (value - center).powi(2))
                        .sum::<f64>()
                        .sqrt()
                })
                .fold(0.0, f64::max);
            let center_score = dot(&query, &center);
            if radius == 0.0 {
                return key(center_score);
            }
            let reach = query_norm * radius.next_up();
            let margin = f64::EPSILON
                * (center_score.abs() + reach.abs() + 1.0)
                * (query.len() as f64 + 4.0);
            key((center_score + reach + margin).next_up())
        })
        .collect();
    KeyTable { keys }
}

fn ball_scores(index: &DenseBallIndex, query: &[f32]) -> KeyTable {
    KeyTable {
        keys: (0..index.document_count())
            .map(|place| score(index.document_at(place), query))
            .collect(),
    }
}

fn ball_order(index: &DenseBallIndex, query: &[f32]) -> Vec<DenseScoredPoint> {
    let mut stream = index
        .stream(&bits(query), ball_bounds(index, query), ball_scores(index, query))
        .unwrap();
    std::iter::from_fn(|| stream.next()).collect()
}

#[test]
fn rejects_zero_query() {
    let index = DenseBallIndex::build(vec![document(0, &[1.0, 2.0])], 1).unwrap();

    let query = [0.0, -0.0];
    assert!(matches!(
        index.stream(&bits(&query), KeyTable { keys: vec![0] }, KeyTable { keys: vec![0] }),
        Err(DenseBallError::InvalidQuery)
    ));
}

#[test]
fn ball_index_names_each_fault() {
    let one = || vec![document(1, &[1.0])];
    assert_eq!(DenseBallIndex::build(one(), 0).err(), Some(DenseBallError::ZeroBlockSize));
    assert_eq!(DenseBallIndex::build(vec![], 1).err(), Some(DenseBallError::EmptyDocuments));
    assert_eq!(
        DenseBallIndex::build(vec![document(1, &[1.0]), document(1, &[2.0])], 1).err(),
        Some(DenseBallError::DuplicateDocument(1))
    );
    assert_eq!(
        DenseBallIndex::build(vec![document(1, &[])], 1).err(),
        Some(DenseBallError::InvalidDocument(1))
    );
    assert_eq!(
        build_clustered(one(), 1, 0).err(),
        Some(DenseBallError::ZeroClusteringIterations)
    );
    assert_eq!(
        build_hierarchical(one(), 1, 1, 1).err(),
        Some(DenseBallError::InvalidBranchFactor)
    );
}

#[test]
fn preserves_identity_order_for_equal_scores() {
    let documents = (0..16_u32).rev().map(|id| document(id, &[1.0, 1.0])).collect();
    let index = DenseBallIndex::build(documents, 3).unwrap();
    let query = [1.0, -1.0];

    let mut prefix_stream = index
        .stream(&bits(&query), ball_bounds(&index, &query), ball_scores(&index, &query))
        .unwrap();
    let prefix: Vec<_> = (0..3).map(|_| prefix_stream.next().unwrap()).collect();
    assert_eq!(prefix_stream.telemetry().blocks_expanded, 1);
    assert_eq!(id_list(&prefix), vec![0, 1, 2]);

    let actual = ball_order(&index, &query);

    assert_eq!(id_list(&actual), (0..16).collect::<Vec<_>>());
}

#[test]
fn clustered_build_preserves_exact_order_and_capacity() {
    let documents: Vec<_> = (0..37_u32)
        .map(|id| {
            document(id, &[(id % 5) as f32, ((id * 7) % 11) as f32, ((id * 13) % 17) as f32])
        })
        .collect();
    let query = vec![0.75, -0.5, 1.25];
    let expected = exhaustive(&documents, &query);

    let index = build_clustered(documents, 8, 4).unwrap();
    let actual = ball_order(&index, &query);

    assert_eq!(index.block_count(), 5);
    assert_eq!(actual, expected);
}

#[test]
fn hierarchical_build_refines_internal_nodes_before_leaves() {
    let documents: Vec<_> =
        (0..64_u32).map(|id| document(id, &[(id / 16) as f32, (id % 16) as f32])).collect();
    let query = vec![1.0, -0.25];
    let expected = exhaustive(&documents, &query);
    let index =
        build_hierarchical(documents, 4, 4, 3).unwrap();

    let mut stream = index
        .stream(&bits(&query), ball_bounds(&index, &query), ball_scores(&index, &query))
        .unwrap();
    let actual: Vec<_> = std::iter::from_fn(|| stream.next()).collect();

    assert!(index.node_count() > index.block_count());
    assert!(stream.telemetry().internal_nodes_expanded > 0);
    assert_eq!(actual, expected);
    for node in 0..index.node_count() {
        match index.node_contents(node) {
            DenseBallNodeContents::Internal(children) => assert!(!children.is_empty()),
            DenseBallNodeContents::Leaf(start, end) => assert!(end - start <= 4),
        }
    }
}

#[test]
fn a_clustered_index_keeps_every_document() {
    let documents: Vec<_> = (0..23_u32)
        .map(|id| document(id * 3, &[(id % 4) as f32, (id % 7) as f32]))
        .collect();
    let index =
        build_hierarchical(copies(&documents), 3, 2, 2)
            .unwrap();
    assert_eq!(index.document_count(), 23);
    for expected in &documents {
        assert_eq!(index.document(expected.id).unwrap().vector, expected.vector);
        assert_eq!(index.document_at(index.position(expected.id).unwrap()).id, expected.id);
    }
    assert!(index.document(1).is_none());
    assert_eq!(index.position(100), None);
}

#[test]
fn dense_ball_stream_matches_exhaustive_order() {
    let mut numbers = Numbers { state: 11 };
    for _ in 0..1_000 {
        let (documents, query, block_size) = generated_case(&mut numbers);
        let expected = exhaustive(&documents, &query);
        let index = DenseBallIndex::build(documents, block_size).unwrap();
        assert_eq!(ball_order(&index, &query), expected);
    }
}

#[test]
fn clustered_dense_ball_stream_matches_exhaustive_order() {
    let mut numbers = Numbers { state: 12 };
    for _ in 0..1_000 {
        let (documents, query, block_size) = generated_case(&mut numbers);
        let expected = exhaustive(&documents, &query);
        let index = build_clustered(documents, block_size, 3).unwrap();
        assert_eq!(ball_order(&index, &query), expected);
    }
}

#[test]
fn hierarchical_dense_ball_stream_matches_exhaustive_order() {
    let mut numbers = Numbers { state: 13 };
    for _ in 0..1_000 {
        let (documents, query, block_size) = generated_case(&mut numbers);
        let expected = exhaustive(&documents, &query);
        let index =
            build_hierarchical(documents, block_size, 4, 3)
                .unwrap();
        assert_eq!(ball_order(&index, &query), expected);
    }
}

fn proposal_documents() -> Vec<DenseDocument> {
    vec![
        document(7, &[1.0, 0.0]),
        document(3, &[0.9, 0.1]),
        document(11, &[0.0, 1.0]),
        document(5, &[-1.0, 0.0]),
        document(13, &[0.5, 0.5]),
    ]
}

fn proposed<'a>(
    index: &'a DenseBallIndex,
    query: &[f32],
    proposals: &[u32],
    batch_size: usize,
) -> Result<DenseProposalCertifiedStream<'a, KeyTable, KeyTable>, DenseProposalCertifiedError> {
    DenseProposalCertifiedStream::new(
        index,
        &bits(query),
        &proposals.to_vec(),
        batch_size,
        ball_bounds(index, query),
        ball_scores(index, query),
    )
}

#[test]
fn empty_and_imperfect_proposals_preserve_exhaustive_order() {
    let documents = proposal_documents();
    let index =
        build_hierarchical(copies(&documents), 2, 2, 3)
            .unwrap();
    let query = [1.0, 0.25];
    let expected = exhaustive(&documents, &query);

    for proposals in [&[][..], &[11, 5][..], &[7, 3, 13][..]] {
        let mut stream = proposed(&index, &query, proposals, 2).unwrap();
        let actual: Vec<_> = std::iter::from_fn(|| stream.next()).collect();
        assert_eq!(actual, expected);
    }
}

#[test]
fn duplicate_proposals_are_scored_once_and_reused_at_leaf_expansion() {
    let index = DenseBallIndex::build(proposal_documents(), 2).unwrap();
    let mut stream = proposed(&index, &[1.0, 0.25], &[7, 7], 2).unwrap();
    let actual: Vec<_> = std::iter::from_fn(|| stream.next()).collect();
    assert_eq!(actual.len(), 5);
    let telemetry = stream.telemetry();
    assert_eq!(telemetry.proposal_identities_requested, 2);
    assert_eq!(telemetry.proposal_identities_scored, 1);
    assert_eq!(telemetry.proposal_identities_reused, 1);
    assert_eq!(telemetry.exact_scores, 5);
}

#[test]
fn rejects_unknown_proposal_and_zero_batch() {
    let index = DenseBallIndex::build(proposal_documents(), 2).unwrap();
    assert_eq!(
        proposed(&index, &[1.0, 0.25], &[99], 2).err().unwrap(),
        DenseProposalCertifiedError::UnknownProposal(99)
    );
    assert_eq!(
        proposed(&index, &[1.0, 0.25], &[], 0).err().unwrap(),
        DenseProposalCertifiedError::ZeroBatchSize
    );
    assert_eq!(
        DenseProposalCertifiedStream::new(
            &index,
            &bits(&[0.0, 0.0]),
            &vec![],
            1,
            KeyTable { keys: vec![0; 3] },
            KeyTable { keys: vec![0; 5] },
        )
        .err()
        .unwrap(),
        DenseProposalCertifiedError::DenseBall(DenseBallError::InvalidQuery)
    );
}

#[test]
fn randomized_proposals_and_batches_match_exhaustive_order() {
    let mut numbers = Numbers { state: 0x5052_4f50_4f53_414c };
    for case in 0..200 {
        let dimension = 2 + numbers.next(9);
        let document_count = 4 + numbers.next(45);
        let documents: Vec<_> = (0..document_count)
            .map(|id| {
                let vector: Vec<f32> = (0..dimension).map(|_| numbers.unit()).collect();
                document(id as u32, &vector)
            })
            .collect();
        let mut query: Vec<f32> = (0..dimension).map(|_| numbers.unit()).collect();
        if query.iter().all(|value| *value == 0.0) {
            query[0] = 1.0;
        }
        let proposal_count = numbers.next(document_count + 1);
        let proposals: Vec<u32> =
            (0..proposal_count).map(|_| numbers.next(document_count) as u32).collect();
        let batch_size = 1 + numbers.next(10) as usize;
        let expected = exhaustive(&documents, &query);
        let index = build_hierarchical(
            documents,
            1 + numbers.next(8) as usize,
            2 + numbers.next(3) as usize,
            2)
        .unwrap();
        let mut stream = proposed(&index, &query, &proposals, batch_size).unwrap();
        let actual: Vec<_> = std::iter::from_fn(|| stream.next()).collect();
        assert_eq!(actual, expected, "case {case}");
    }
}

fn extend(bound: i64, contribution: i64) -> i64 {
    key((number(bound) + number(contribution)).next_up())
}

fn replace(bound: i64, before: i64, after: i64) -> i64 {
    key(((number(bound) - number(before)).next_up() + number(after)).next_up())
}

fn reduction(before: i64, after: i64) -> i64 {
    key((number(before) - number(after)).max(0.0))
}

fn contribution(
    index: &DenseThresholdIndex,
    query: &[f32],
    coordinate: usize,
    ordinal: usize,
) -> i64 {
    key(f64::from(query[coordinate]) * values(&index.document(ordinal).vector)[coordinate])
}

fn threshold_scores(index: &DenseThresholdIndex, query: &[f32]) -> KeyTable {
    KeyTable {
        keys: (0..index.document_count())
            .map(|ordinal| score(index.document(ordinal), query))
            .collect(),
    }
}

fn threshold_order(index: &DenseThresholdIndex, query: &[f32]) -> Vec<DenseScoredPoint> {
    let sums = ThresholdArithmetic {
        contribution: |coordinate: usize, ordinal: usize| {
            contribution(index, query, coordinate, ordinal)
        },
        extend,
        replace,
        reduction,
    };
    let mut stream = index.stream(&bits(query), &sums, threshold_scores(index, query)).unwrap();
    std::iter::from_fn(|| stream.next()).collect()
}

#[test]
fn dense_threshold_exact_stream_matches_exhaustive_for_mixed_sign_vectors() {
    for dimension in [1, 3, 17, 64] {
        let documents: Vec<_> = (0..97_u32)
            .map(|id| {
                let vector: Vec<f32> = (0..dimension)
                    .map(|coordinate| {
                        let value = ((id as usize * 31 + coordinate * 17) % 101) as f32;
                        (value - 50.0) / 37.0
                    })
                    .collect();
                document(id, &vector)
            })
            .collect();
        let query: Vec<f32> = (0..dimension)
            .map(|coordinate| ((coordinate * 23 % 47) as f32 - 21.0) / 19.0)
            .collect();
        let index = DenseThresholdIndex::build(copies(&documents)).unwrap();

        assert_eq!(threshold_order(&index, &query), exhaustive(&documents, &query));
    }
}

#[test]
fn separated_coordinate_emits_without_scoring_the_corpus() {
    let documents = (0..1_000_u32).map(|id| document(id, &[id as f32, 1.0])).collect();
    let index = DenseThresholdIndex::build(documents).unwrap();
    let query = [1.0, 0.0];
    let sums = ThresholdArithmetic {
        contribution: |coordinate: usize, ordinal: usize| {
            contribution(&index, &query, coordinate, ordinal)
        },
        extend,
        replace,
        reduction,
    };
    let mut stream = index.stream(&bits(&query), &sums, threshold_scores(&index, &query)).unwrap();

    let top: Vec<_> = (0..20).map(|_| stream.next().unwrap()).collect();

    assert_eq!(top[0].id, 999);
    assert_eq!(stream.telemetry().exact_scores, 20);
    assert_eq!(stream.telemetry().sequential_accesses, 20);
}

#[test]
fn ties_fall_back_to_identity_order() {
    let documents = [7, 3, 11, 2].into_iter().map(|id| document(id, &[1.0, -2.0])).collect();
    let index = DenseThresholdIndex::build(documents).unwrap();

    let points = threshold_order(&index, &[1.0, 1.0]);

    assert_eq!(id_list(&points), vec![2, 3, 7, 11]);
}

#[test]
fn zero_query_uses_frozen_identity_order_without_coordinate_access() {
    let documents = [7, 3, 11, 2].into_iter().map(|id| document(id, &[id as f32, 1.0])).collect();
    let index = DenseThresholdIndex::build(documents).unwrap();
    let query = [0.0, -0.0];
    let sums = ThresholdArithmetic {
        contribution: |coordinate: usize, ordinal: usize| {
            contribution(&index, &query, coordinate, ordinal)
        },
        extend,
        replace,
        reduction,
    };
    let mut stream = index.stream(&bits(&query), &sums, threshold_scores(&index, &query)).unwrap();

    let points: Vec<_> = std::iter::from_fn(|| stream.next()).collect();

    assert_eq!(id_list(&points), vec![2, 3, 7, 11]);
    assert!(points.iter().all(|point| point.score == 0));
    assert_eq!(stream.telemetry().sequential_accesses, 0);
    assert_eq!(stream.telemetry().exact_scores, 0);
}

#[test]
fn threshold_stream_matches_exhaustive_order() {
    let mut numbers = Numbers { state: 14 };
    for _ in 0..1_000 {
        let document_count = 1 + numbers.next(47);
        let dimension = 1 + numbers.next(8);
        let documents: Vec<_> = (0..document_count)
            .map(|id| {
                let vector: Vec<f32> =
                    (0..dimension).map(|_| numbers.unit() * 1_000.0).collect();
                document(id as u32, &vector)
            })
            .collect();
        let query: Vec<f32> = (0..dimension).map(|_| numbers.unit() * 1_000.0).collect();
        let expected = exhaustive(&documents, &query);
        let index = DenseThresholdIndex::build(documents).unwrap();
        assert_eq!(threshold_order(&index, &query), expected);
    }
}

#[test]
fn threshold_index_names_each_fault() {
    assert_eq!(DenseThresholdIndex::build(vec![]).err(), Some(DenseThresholdError::EmptyDocuments));
    assert_eq!(
        DenseThresholdIndex::build(vec![document(2, &[1.0]), document(2, &[1.0])]).err(),
        Some(DenseThresholdError::DuplicateDocument(2))
    );
    assert_eq!(
        DenseThresholdIndex::build(vec![document(2, &[f32::NEG_INFINITY])]).err(),
        Some(DenseThresholdError::InvalidDocument(2))
    );
    let index = DenseThresholdIndex::build(vec![document(2, &[1.0])]).unwrap();
    let sums = ThresholdArithmetic {
        contribution: |_coordinate: usize, _ordinal: usize| 0,
        extend,
        replace,
        reduction,
    };
    assert_eq!(
        index.stream(&bits(&[1.0, 2.0]), &sums, KeyTable { keys: vec![0] }).err(),
        Some(DenseThresholdError::InvalidQuery)
    );
}

#[test]
fn clusters_hold_near_documents() {
    let documents: Vec<_> = (0..8_u32)
        .map(|id| document(id, &[if id % 2 == 0 { 0.0 } else { 100.0 }, (id / 2) as f32]))
        .collect();
    let index = build_clustered(documents, 4, 3).unwrap();
    let blocks: Vec<Vec<u32>> = (0..index.node_count())
        .map(|node| {
            let (start, end) = index.node_range(node);
            (start..end).map(|place| index.document_at(place).id).collect()
        })
        .collect();
    assert_eq!(blocks.len(), 2);
    assert!(blocks.contains(&vec![0, 2, 4, 6]));
    assert!(blocks.contains(&vec![1, 3, 5, 7]));
}

#[test]
fn assignments_respect_gaps_capacity_and_empty_clusters() {
    let rows = vec![vec![1, 5], vec![2, 9], vec![3, 4]];
    assert_eq!(
        capacity_bounded_assignments(&rows, &vec![4, 7, 1], &vec![10, 11, 12], 2, 2),
        vec![0, 0, 1]
    );
    let rows = vec![vec![1, 50], vec![8, 60]];
    assert_eq!(
        capacity_bounded_assignments(&rows, &vec![49, 52], &vec![10, 11], 2, 2),
        vec![0, 1]
    );
}

#[test]
fn scores_by_places_are_ordered_exactly() {
    let documents = vec![
        DenseDocument { id: 0, vector: vec![5, 2] },
        DenseDocument { id: 1, vector: vec![1, 0x8000_0004] },
        DenseDocument { id: 2, vector: vec![3, 0] },
    ];
    let index = DenseThresholdIndex::build(documents).unwrap();

    let points = order_by_places(&index, &bits(&[1.0, -1.0])).unwrap();
    let ranked: Vec<(u32, i64)> = points.iter().map(|point| (point.id, point.score)).collect();
    assert_eq!(ranked, vec![(1, 5), (0, 3), (2, 3)]);

    assert!(matches!(
        order_by_places(&index, &bits(&[1.0])),
        Err(DenseThresholdError::InvalidQuery)
    ));
}
