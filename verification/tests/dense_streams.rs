use exact_rank_fusion::dense_certificate::{PendingBound, ScoredPointOffset};
use exact_rank_fusion::dense_evidence::{
    CompactAccess, DenseAccess, ScalarAccess, ScalarIndexAccess,
};
use exact_rank_fusion::dense_plan::{
    CompactDescription, Distance, QuantizedDescription, VectorStorageDatatype,
};
use exact_rank_fusion::dense_quantized::{QuantizedVector, QuantizedVectorMetadata};
use exact_rank_fusion::dense_rank_state::{DensePhysicalPlan, DenseRankState};
use exact_rank_fusion::dense_scalar_certified::ScalarReconstructionStats;
use exact_rank_fusion::native_dense_stream::{
    prepare_native, NativeDenseIndexCursor, NativeDensePlan, NativeDensePolicy,
};
use exact_rank_fusion::operation_error::{Fault, OperationError, OperationResult};
use exact_rank_fusion::order::{score_key, ExtendedPointId};
use exact_rank_fusion::per_vector_scalar_index::{
    distance_type, exact_fallback, rank_state_contiguous_with_refine_batch,
    rank_state_with_refine_batch, DistanceType, PerVectorScalarBuildProfile,
    PerVectorScalarMetadata, VectorStorageDescription,
};
use exact_rank_fusion::reciprocal_rank_fusion::responses::ScoredPoint;
use exact_rank_fusion::segment_streams::DenseVectors;
use exact_rank_fusion::segment_view::SegmentReadView;

fn key(value: f64) -> i64 {
    score_key(value.to_bits())
}

fn bits(vector: &[f32]) -> Vec<u32> {
    vector.iter().map(|value| value.to_bits()).collect()
}

fn dot(left: &[f32], right: &[f32]) -> f32 {
    left.iter().zip(right).map(|(left, right)| left * right).sum()
}

fn norm(vector: &[f64]) -> f64 {
    vector.iter().map(|value| value * value).sum::<f64>().sqrt()
}

fn normalized(vector: Vec<f32>) -> Vec<f32> {
    let length = dot(&vector, &vector).sqrt();
    vector.into_iter().map(|value| value / length).collect()
}

/// An interval around the exact score, from eight-bit codes of the vector.
fn interval(query: &[f32], vector: &[f32]) -> (f64, f64) {
    let largest = vector.iter().fold(0.0_f64, |largest, value| largest.max(f64::from(value.abs())));
    let scale = if largest == 0.0 { 1.0 } else { largest / 127.0 };
    let rebuilt: Vec<f64> =
        vector.iter().map(|value| (f64::from(*value) / scale).round() * scale).collect();
    let residual: Vec<f64> =
        vector.iter().zip(&rebuilt).map(|(value, rebuilt)| f64::from(*value) - rebuilt).collect();
    let query: Vec<f64> = query.iter().map(|value| f64::from(*value)).collect();
    let center: f64 = query.iter().zip(&rebuilt).map(|(query, rebuilt)| query * rebuilt).sum();
    let slack = norm(&query) * (norm(&residual) + (norm(&rebuilt) + 1.0) * 1e-5);
    (center - slack, center + slack)
}

fn bound(id: u32, lower: f64, upper: f64) -> PendingBound {
    PendingBound { id, lower: key(lower), value: key(upper) }
}

fn described(points: usize, dimension: usize, distance: Distance) -> QuantizedDescription {
    QuantizedDescription {
        distance,
        datatype: VectorStorageDatatype::Float32,
        per_vector_scalar: false,
        compact: Some(CompactDescription { dimension, rows: points }),
        reconstruction_rows: Some(points),
    }
}

fn exact_policy(disable_compact_certificate: bool) -> NativeDensePolicy {
    NativeDensePolicy {
        scalar_min_points: 0,
        compact_max_points: usize::MAX,
        disable_compact_certificate,
        ..NativeDensePolicy::with_compact_limit(usize::MAX)
    }
}

fn best_first(mut points: Vec<ScoredPoint>) -> Vec<ScoredPoint> {
    points.sort_unstable_by(|left, right| {
        right.score.cmp(&left.score).then_with(|| left.id.cmp(&right.id))
    });
    points
}

fn codes(vector: &[f32]) -> QuantizedVector {
    let largest = vector.iter().fold(0.0_f64, |largest, value| largest.max(f64::from(value.abs())));
    let scale = if largest == 0.0 { 1.0 } else { largest / 127.0 };
    let codes: Vec<i8> = vector
        .iter()
        .map(|value| (f64::from(*value) / scale).round().clamp(-127.0, 127.0) as i8)
        .collect();
    let original: Vec<f64> = vector.iter().map(|value| f64::from(*value)).collect();
    let rebuilt: Vec<f64> = codes.iter().map(|code| f64::from(*code) * scale).collect();
    let residual: Vec<f64> =
        original.iter().zip(&rebuilt).map(|(value, rebuilt)| value - rebuilt).collect();
    QuantizedVector {
        codes,
        metadata: QuantizedVectorMetadata {
            scale: scale.to_bits(),
            reconstructed_norm: norm(&rebuilt).to_bits(),
            residual_norm: norm(&residual).next_up().to_bits(),
            original_norm: norm(&original).to_bits(),
        },
    }
}

fn statistics(vector: &[f32]) -> ScalarReconstructionStats {
    let metadata = codes(vector).metadata;
    ScalarReconstructionStats {
        reconstructed_norm: metadata.reconstructed_norm,
        residual_norm: metadata.residual_norm,
        original_norm: metadata.original_norm,
    }
}

fn floating_guard(scale: f64, dimension: usize) -> f64 {
    let gamma = f64::from(f32::EPSILON) * (8.0 * dimension as f64 + 64.0);
    scale * gamma / (1.0 - gamma)
}

fn enclosed(
    approximate: f64,
    query: [u64; 3],
    document: [u64; 3],
    dimension: usize,
) -> (i64, i64) {
    let [reconstructed, residual, original] = query.map(f64::from_bits);
    let [_, document_residual, document_original] = document.map(f64::from_bits);
    let error = residual * document_original + reconstructed * document_residual;
    let guard = floating_guard(
        approximate.abs() + error + original * document_original,
        dimension,
    );
    (
        key((approximate - error - guard).next_down()),
        key((approximate + error + guard).next_up()),
    )
}

fn enclose_codes(
    product: i64,
    query: &QuantizedVectorMetadata,
    document: &QuantizedVectorMetadata,
    dimension: usize,
) -> (i64, i64) {
    let scales = f64::from_bits(query.scale) * f64::from_bits(document.scale);
    enclosed(
        product as f64 * scales,
        [query.reconstructed_norm, query.residual_norm, query.original_norm],
        [document.reconstructed_norm, document.residual_norm, document.original_norm],
        dimension,
    )
}

fn enclose_score(
    approximate: u32,
    query: &ScalarReconstructionStats,
    document: &ScalarReconstructionStats,
    dimension: usize,
) -> (i64, i64) {
    enclosed(
        f64::from(f32::from_bits(approximate)),
        [query.reconstructed_norm, query.residual_norm, query.original_norm],
        [document.reconstructed_norm, document.residual_norm, document.original_norm],
        dimension,
    )
}

fn approximate(query: &[f32], vector: &[f32]) -> f32 {
    let query = codes(query);
    let vector = codes(vector);
    let product: i64 = query
        .codes
        .iter()
        .zip(&vector.codes)
        .map(|(left, right)| i64::from(*left) * i64::from(*right))
        .sum();
    let scales = f64::from_bits(query.metadata.scale) * f64::from_bits(vector.metadata.scale);
    (product as f64 * scales) as f32
}

/// The rest of a dense stream or session, under the plan that a description leads to.
fn opened_points(
    distance: Distance,
    quantized: Option<QuantizedDescription>,
    policy: NativeDensePolicy,
    vectors: &[Vec<f32>],
    query: &[f32],
    external: &dyn Fn(u32) -> Option<ExtendedPointId>,
    chosen: &dyn Fn(u32) -> bool,
    top_k: usize,
    stopped: bool,
) -> OperationResult<(Vec<ScoredPoint>, Option<NativeDensePlan>)> {
    let scorer = |point: u32| key(f64::from(dot(query, &vectors[point as usize])));
    let access = DenseAccess {
        compact: Some(CompactAccess {
            query: codes(query),
            row: |point: u32| codes(&vectors[point as usize]),
            enclose: enclose_codes,
        }),
        scalar: Some(ScalarAccess {
            query: Some(statistics(query)),
            approximate: |point: u32| approximate(query, &vectors[point as usize]).to_bits(),
            reconstruct: |point: u32| statistics(&vectors[point as usize]),
            enclose: enclose_score,
        }),
        index: Some(ScalarIndexAccess {
            metadata: PerVectorScalarMetadata {
                dimension: query.len(),
                vector_count: vectors.len(),
                row_bytes: 64,
                source_generation: 1,
            },
            storage: VectorStorageDescription {
                distance,
                datatype: VectorStorageDatatype::Float32,
                layout_bytes: Some(query.len() * 4),
                vector_count: vectors.len(),
            },
            encodes: true,
            certifier: |point: u32| {
                let (lower, upper) = interval(query, &vectors[point as usize]);
                Some((key(lower), key(upper)))
            },
        }),
        scorer,
        stopped: |_place: usize| stopped,
    };
    let view = SegmentReadView {
        external: |point: u32| external(point),
        version: |point: u32| Some(u64::from(point)),
        resolve: (),
        fetch_vector: (),
        fetch_payload: (),
        stopped: || false,
    };
    let described = DenseVectors {
        name: "dense".to_string(),
        exists: true,
        total: vectors.len() as u32,
        not_deleted: |_point: u32| true,
        deferred_from: None,
        chosen: |point: u32| chosen(point),
        distance,
        datatype: VectorStorageDatatype::Float32,
        quantized,
    };
    let session = view.with_native_dense_session(&described, &bits(query), policy, &access)?;
    let plan = session.telemetry().plan;
    let mut stream = view.with_native_dense_stream(&described, &bits(query), policy, &access)?;
    let points = (0..top_k).map(|_| stream.next().unwrap().unwrap()).collect();
    Ok((points, plan))
}

fn first_points(
    distance: Distance,
    vectors: &[Vec<f32>],
    query: &[f32],
    external: &dyn Fn(u32) -> Option<ExtendedPointId>,
    top_k: usize,
) -> (Vec<ScoredPoint>, Option<NativeDensePlan>) {
    opened_points(
        distance,
        Some(described(vectors.len(), query.len(), distance)),
        exact_policy(false),
        vectors,
        query,
        external,
        &|_point: u32| true,
        top_k,
        false,
    )
    .unwrap()
}

fn check_mixed_sign_certificate(distance: Distance) {
    const DIMENSION: usize = 16;
    const POINTS: usize = 1_024;
    const QUERIES: usize = 12;
    const TOP_K: usize = 32;

    let prepared = |vector: Vec<f32>| match distance {
        Distance::Cosine => normalized(vector),
        _ => vector,
    };
    let vectors: Vec<Vec<f32>> = (0..POINTS)
        .map(|id| {
            prepared(
                (0..DIMENSION)
                    .map(|coordinate| {
                        let mixed = (id * 131 + coordinate * 47 + id * coordinate * 3) % 257;
                        (mixed as f32 - 128.0) / 37.0
                            + id as f32 * 0.000_001
                            + coordinate as f32 * 0.000_01
                    })
                    .collect(),
            )
        })
        .collect();
    let external = |point: u32| Some(ExtendedPointId::NumId(50_000 - u64::from(point)));
    for query_id in 0..QUERIES {
        let query = prepared(
            (0..DIMENSION)
                .map(|coordinate| {
                    let mixed = (query_id * 73 + coordinate * 29 + query_id * coordinate * 11) % 193;
                    (mixed as f32 - 96.0) / 31.0 + coordinate as f32 * 0.000_03
                })
                .collect(),
        );
        let mut expected = best_first(
            (0..POINTS as u32)
                .map(|point| ScoredPoint {
                    id: external(point).unwrap(),
                    version: u64::from(point),
                    score: key(f64::from(dot(&query, &vectors[point as usize]))),
                    attached: None,
                })
                .collect(),
        );
        expected.truncate(TOP_K);

        let (actual, plan) = first_points(distance, &vectors, &query, &external, TOP_K);

        assert_eq!(actual, expected, "distance={distance:?}, query={query_id}");
        assert_eq!(plan, Some(NativeDensePlan::CompactCertificate));
    }
}

#[test]
fn persisted_compact_certificate_is_exact_for_mixed_sign_dot() {
    check_mixed_sign_certificate(Distance::Dot);
}

#[test]
fn persisted_compact_certificate_is_exact_for_mixed_sign_cosine() {
    check_mixed_sign_certificate(Distance::Cosine);
}

#[test]
fn persisted_compact_certificate_matches_segment_exact_top_k() {
    let vectors: Vec<Vec<f32>> = (0..8_192u64).map(|id| vec![id as f32, 1.0]).collect();
    let query = vec![1.0_f32, 0.0];
    let scorer = |point: u32| key(f64::from(dot(&query, &vectors[point as usize])));
    let eligible: Vec<u32> = (0..8_192).collect();
    let request = prepare_native(
        Distance::Dot,
        VectorStorageDatatype::Float32,
        Some(described(8_192, 2, Distance::Dot)),
        &eligible,
        &bits(&query),
        exact_policy(false),
        false,
    )
    .unwrap();
    assert_eq!(request.plan, NativeDensePlan::CompactCertificate);
    let bounds = eligible
        .iter()
        .map(|&point| {
            let (lower, upper) = interval(&query, &vectors[point as usize]);
            bound(point, lower, upper)
        })
        .collect();
    let mut cursor = NativeDenseIndexCursor::from_certificate_bounds(
        request.eligible,
        bounds,
        request.plan,
        8_192,
    )
    .unwrap();
    let actual: Vec<ScoredPointOffset> =
        (0..20).map(|_| cursor.next_result(&scorer).unwrap().unwrap()).collect();
    let expected: Vec<ScoredPointOffset> = (0..20)
        .map(|rank| ScoredPointOffset { idx: 8_191 - rank, score: scorer(8_191 - rank) })
        .collect();

    assert_eq!(actual, expected);
    let telemetry = cursor.telemetry();
    assert_eq!(telemetry.plan, Some(NativeDensePlan::CompactCertificate));
    assert_eq!(telemetry.native_quantized_scores, 8_192);
    assert!(telemetry.exact_scores < telemetry.eligible_points);
    assert_eq!(telemetry.points_emitted, 20);
}

#[test]
fn scalar_exact_rank_probes_share_the_native_scan_and_exact_score_cache() {
    const DIMENSION: usize = 16;
    const POINTS: usize = 512;

    let vectors: Vec<Vec<f32>> = (0..POINTS)
        .map(|id| {
            (0..DIMENSION)
                .map(|coordinate| {
                    let mixed = (id * 97 + coordinate * 43 + id * coordinate * 5) % 251;
                    (mixed as f32 - 125.0) / 41.0
                        + id as f32 * 0.000_001
                        + coordinate as f32 * 0.000_01
                })
                .collect()
        })
        .collect();
    let query: Vec<f32> =
        (0..DIMENSION).map(|coordinate| (coordinate as f32 - 7.0) / 13.0).collect();
    let eligible: Vec<u32> = (0..POINTS as u32).collect();
    let scorer = |point: u32| key(f64::from(dot(&query, &vectors[point as usize])));
    let mut expected: Vec<ScoredPointOffset> =
        eligible.iter().map(|&idx| ScoredPointOffset { idx, score: scorer(idx) }).collect();
    expected.sort_unstable_by(|left, right| {
        right.score.cmp(&left.score).then_with(|| left.idx.cmp(&right.idx))
    });

    let target_ranks = [3usize, 29, 173];
    let target_ids: Vec<u32> = target_ranks.iter().map(|&rank| expected[rank].idx).collect();
    let request = prepare_native(
        Distance::Dot,
        VectorStorageDatatype::Float32,
        Some(described(POINTS, DIMENSION, Distance::Dot)),
        &eligible,
        &bits(&query),
        exact_policy(true),
        false,
    )
    .unwrap();
    assert_eq!(request.plan, NativeDensePlan::ScalarCertificate);
    let bounds = eligible
        .iter()
        .map(|&point| {
            let (lower, upper) = interval(&query, &vectors[point as usize]);
            bound(point, lower, upper)
        })
        .collect();
    let mut cursor =
        NativeDenseIndexCursor::from_certificate_bounds(eligible, bounds, request.plan, POINTS)
            .unwrap();
    let probes = cursor.probe_exact_ranks(&target_ids, &scorer).unwrap();
    let exact_scores_after_first_probe = cursor.telemetry().exact_scores;
    let repeated = cursor.probe_exact_ranks(&target_ids, &scorer).unwrap();
    assert_eq!(cursor.telemetry().exact_scores, exact_scores_after_first_probe);
    let actual: Vec<ScoredPointOffset> =
        (0..POINTS).map(|_| cursor.next_result(&scorer).unwrap().unwrap()).collect();
    assert_eq!(cursor.next_result(&scorer).unwrap(), None);

    assert_eq!(cursor.telemetry().plan, Some(NativeDensePlan::ScalarCertificate));
    for (probe, &rank) in probes.iter().zip(&target_ranks) {
        assert_eq!(probe.id, expected[rank].idx);
        assert_eq!(probe.score, expected[rank].score);
        assert_eq!(probe.rank, rank);
    }
    assert_eq!(repeated, probes);
    assert!(exact_scores_after_first_probe <= POINTS);
    assert_eq!(actual, expected);
}

#[test]
fn scalar_index_preserves_exact_order_for_all_and_for_filtered_points() {
    const DIMENSION: usize = 17;
    const POINTS: usize = 257;

    let vectors: Vec<Vec<f32>> = (0..POINTS)
        .map(|id| {
            (0..DIMENSION)
                .map(|coordinate| (((id * 131 + coordinate * 37) % 2003) as f32 - 1001.0) / 1009.0)
                .collect()
        })
        .collect();
    let query: Vec<f32> = (0..DIMENSION)
        .map(|coordinate| ((coordinate * 53 % 997) as f32 - 498.0) / 503.0)
        .collect();
    let metadata = PerVectorScalarMetadata {
        dimension: DIMENSION,
        vector_count: POINTS,
        row_bytes: 64,
        source_generation: 1,
    };
    let storage = VectorStorageDescription {
        distance: Distance::Dot,
        datatype: VectorStorageDatatype::Float32,
        layout_bytes: Some(DIMENSION * 4),
        vector_count: POINTS,
    };
    let scorer = |point: u32| key(f64::from(dot(&query, &vectors[point as usize])));
    let certifier = |point: u32| {
        let (lower, upper) = interval(&query, &vectors[point as usize]);
        Some((key(lower), key(upper)))
    };
    let all: Vec<u32> = (0..POINTS as u32).collect();
    let filtered: Vec<u32> = (0..POINTS as u32).filter(|id| id % 3 != 0).collect();
    for eligible in [all, filtered] {
        let mut expected: Vec<ScoredPointOffset> =
            eligible.iter().map(|&idx| ScoredPointOffset { idx, score: scorer(idx) }).collect();
        expected.sort_unstable_by(|left, right| {
            right.score.cmp(&left.score).then_with(|| left.idx.cmp(&right.idx))
        });
        let mut state = rank_state_with_refine_batch(
            &metadata,
            &storage,
            &eligible,
            &bits(&query),
            true,
            8,
            &certifier,
            &|_point: usize| false,
        )
        .unwrap();
        assert_eq!(state.next_batch_with(POINTS, &scorer).unwrap(), expected);
        assert_eq!(state.telemetry().plan, Some(DensePhysicalPlan::PerVectorScalarCertificate));
        let cancelled = rank_state_with_refine_batch(
            &metadata,
            &storage,
            &eligible,
            &bits(&query),
            true,
            8,
            &certifier,
            &|_point: usize| true,
        );
        assert_eq!(cancelled.err(), Some(OperationError::Cancelled));
    }
}

#[test]
fn reader_independent_state_resumes_on_different_workers() {
    let scorer = |point: u32| key(5.0 - f64::from(point));
    let mut state = DenseRankState::from_certificate_bounds_batched(
        vec![0, 1, 2, 3, 4],
        (0..5).map(|point| bound(point, 5.0 - f64::from(point), 5.0 - f64::from(point))).collect(),
        2,
        DensePhysicalPlan::ScalarCertificate,
        5,
    )
    .unwrap();

    let mut points = state.next_batch_with(2, &scorer).unwrap();
    let mut moved = state;
    points.extend(moved.next_batch_with(7, &scorer).unwrap());

    assert_eq!(points.iter().map(|point| point.idx).collect::<Vec<_>>(), vec![0, 1, 2, 3, 4]);
    assert_eq!(moved.eligible_len(), 5);
    let telemetry = moved.telemetry();
    assert_eq!(telemetry.plan, Some(DensePhysicalPlan::ScalarCertificate));
    assert_eq!(telemetry.quantized_scores, 5);
    assert_eq!(telemetry.exact_scores, 5);
    assert_eq!(telemetry.points_emitted, 5);
}

#[test]
fn exact_scan_is_lazy_and_stably_ordered() {
    let mut state = DenseRankState::build_exact_scan_state(vec![0, 1, 2]).unwrap();
    assert_eq!(state.telemetry().exact_scores, 0);

    let scores = [key(1.0), key(2.0), key(2.0)];
    let points = state.next_batch_with(3, &|point: u32| scores[point as usize]).unwrap();

    assert_eq!(points.iter().map(|point| point.idx).collect::<Vec<_>>(), vec![1, 2, 0]);
    assert_eq!(state.telemetry().exact_scores, 3);
}

#[test]
fn a_score_outside_its_interval_is_reported() {
    let mut state = DenseRankState::from_certificate_bounds_batched(
        vec![0, 1],
        vec![bound(0, 1.0, 2.0), bound(1, 0.0, 1.0)],
        1,
        DensePhysicalPlan::ScalarCertificate,
        2,
    )
    .unwrap();
    let error = state.next_batch_with(1, &|_point: u32| key(3.0)).unwrap_err();
    assert_eq!(error, OperationError::InconsistentStorage(Fault::BoundViolated { id: 0 }));
}

#[test]
fn bounds_must_cover_the_eligible_points() {
    let refused = |eligible: Vec<u32>, bounds: Vec<PendingBound>, batch: usize| {
        DenseRankState::from_certificate_bounds_batched(
            eligible,
            bounds,
            batch,
            DensePhysicalPlan::ScalarCertificate,
            0,
        )
        .err()
    };
    assert_eq!(
        refused(vec![0, 0], vec![bound(0, 0.0, 1.0)], 1),
        Some(OperationError::InconsistentStorage(Fault::DuplicateEligible))
    );
    assert!(refused(vec![0, 1], vec![bound(0, 0.0, 1.0)], 1).is_some());
    assert!(refused(vec![0], vec![bound(0, 0.0, 1.0)], 0).is_some());
    assert!(refused(vec![0], vec![bound(0, 0.0, 1.0)], 1).is_none());
}

#[test]
fn every_dense_plan_yields_the_exact_ranking() {
    let vectors: Vec<Vec<f32>> = (0..200_usize)
        .map(|id| {
            (0..6).map(|coordinate| ((id * 37 + coordinate * 11) % 53) as f32 / 7.0 - 3.0).collect()
        })
        .collect();
    let query: Vec<f32> = (0..6).map(|coordinate| coordinate as f32 - 2.5).collect();
    let external = |point: u32| Some(ExtendedPointId::NumId(u64::from(point)));
    let expected = best_first(
        (0..200)
            .map(|point: u32| ScoredPoint {
                id: external(point).unwrap(),
                version: u64::from(point),
                score: key(f64::from(dot(&query, &vectors[point as usize]))),
                attached: None,
            })
            .collect(),
    );
    let full = described(200, 6, Distance::Dot);
    let cases = [
        (
            Some(QuantizedDescription { per_vector_scalar: true, ..full }),
            NativeDensePlan::PerVectorScalarCertificate,
        ),
        (Some(full), NativeDensePlan::CompactCertificate),
        (
            Some(QuantizedDescription { compact: None, ..full }),
            NativeDensePlan::ScalarCertificate,
        ),
        (None, NativeDensePlan::ExactScan),
    ];
    for (quantized, plan) in cases {
        let (points, chosen) = opened_points(
            Distance::Dot,
            quantized,
            exact_policy(false),
            &vectors,
            &query,
            &external,
            &|_point: u32| true,
            200,
            false,
        )
        .unwrap();
        assert_eq!(chosen, Some(plan));
        assert_eq!(points, expected, "{plan:?}");
        let cancelled = opened_points(
            Distance::Dot,
            quantized,
            exact_policy(false),
            &vectors,
            &query,
            &external,
            &|_point: u32| true,
            1,
            true,
        );
        assert_eq!(cancelled.err(), Some(OperationError::Cancelled));
    }
}

#[test]
fn production_auto_loads_pvs_and_preserves_exact_order() {
    const DIMENSION: usize = 17;
    const POINTS: usize = 257;

    let vectors: Vec<Vec<f32>> = (0..POINTS)
        .map(|id| {
            (0..DIMENSION)
                .map(|coordinate| (((id * 131 + coordinate * 37) % 2003) as f32 - 1001.0) / 1009.0)
                .collect()
        })
        .collect();
    let query: Vec<f32> = (0..DIMENSION)
        .map(|coordinate| ((coordinate * 53 % 997) as f32 - 498.0) / 503.0)
        .collect();
    let external = |point: u32| Some(ExtendedPointId::NumId(u64::from(point)));
    let quantized = QuantizedDescription {
        per_vector_scalar: true,
        ..described(POINTS, DIMENSION, Distance::Dot)
    };
    let every = |_point: u32| true;
    let filter = |point: u32| point % 3 != 0;
    let tests: [&dyn Fn(u32) -> bool; 2] = [&every, &filter];
    for chosen in tests {
        let expected = best_first(
            (0..POINTS as u32)
                .filter(|point| chosen(*point))
                .map(|point| ScoredPoint {
                    id: external(point).unwrap(),
                    version: u64::from(point),
                    score: key(f64::from(dot(&query, &vectors[point as usize]))),
                    attached: None,
                })
                .collect(),
        );
        let (actual, plan) = opened_points(
            Distance::Dot,
            Some(quantized),
            exact_policy(true),
            &vectors,
            &query,
            &external,
            chosen,
            expected.len(),
            false,
        )
        .unwrap();
        assert_eq!(actual, expected);
        assert_eq!(plan, Some(NativeDensePlan::PerVectorScalarCertificate));
    }
}

#[test]
fn a_contiguous_rank_state_covers_every_point() {
    let metadata = PerVectorScalarMetadata {
        dimension: 1,
        vector_count: 4,
        row_bytes: 8,
        source_generation: 1,
    };
    let storage = VectorStorageDescription {
        distance: Distance::Cosine,
        datatype: VectorStorageDatatype::Float32,
        layout_bytes: Some(4),
        vector_count: 4,
    };
    let scorer = |point: u32| key(f64::from((point * 3) % 4));
    let certifier = |point: u32| Some((scorer(point), key(9.0)));
    let never = |_place: usize| false;
    let mut state = rank_state_contiguous_with_refine_batch(
        &metadata,
        &storage,
        &bits(&[1.0]),
        true,
        2,
        &certifier,
        &never,
    )
    .unwrap();
    let ids: Vec<u32> =
        state.next_batch_with(9, &scorer).unwrap().iter().map(|point| point.idx).collect();
    assert_eq!(ids, vec![1, 2, 3, 0]);
    let failing = |point: u32| if point == 2 { None } else { Some((0, 0)) };
    assert_eq!(
        rank_state_contiguous_with_refine_batch(
            &metadata,
            &storage,
            &bits(&[1.0]),
            true,
            2,
            &failing,
            &never,
        )
        .err(),
        Some(OperationError::InconsistentStorage(Fault::ScalarCertificateFailed))
    );
    assert_eq!(
        rank_state_contiguous_with_refine_batch(
            &metadata,
            &storage,
            &bits(&[1.0]),
            false,
            2,
            &certifier,
            &never,
        )
        .err(),
        Some(OperationError::ValidationError(Fault::ScalarQueryEncoding))
    );
    assert_eq!(distance_type(Distance::Cosine), DistanceType::Cosine);
    assert_eq!(distance_type(Distance::Dot), DistanceType::Dot);
}

#[test]
fn a_fallback_scans_exactly() {
    let mut state = exact_fallback(
        Distance::Euclid,
        VectorStorageDatatype::Float16,
        &vec![5, 2],
        &bits(&[1.0]),
        false,
    )
    .unwrap();
    assert_eq!(state.telemetry().plan, Some(DensePhysicalPlan::ExactScan));
    let points = state.next_batch_with(5, &|point: u32| key(f64::from(point))).unwrap();
    assert_eq!(points.iter().map(|point| point.idx).collect::<Vec<_>>(), vec![5, 2]);
    assert_eq!(
        exact_fallback(
            Distance::Dot,
            VectorStorageDatatype::Float32,
            &vec![1],
            &bits(&[1.0]),
            true,
        )
        .err(),
        Some(OperationError::Cancelled)
    );
}

#[test]
fn a_build_profile_counts_what_a_scan_reads() {
    let metadata = PerVectorScalarMetadata {
        dimension: 4,
        vector_count: 10,
        row_bytes: 12,
        source_generation: 1,
    };
    let profile = PerVectorScalarBuildProfile { heapify_ns: 5, ..Default::default() };

    let scanned = profile.after_scan(&metadata, 7);
    assert_eq!(scanned.scanned_points, 7);
    assert_eq!(scanned.int8_dot_products, 7);
    assert_eq!(scanned.encoded_bytes, 84);
    assert_eq!(scanned.bound_count, 7);
    assert_eq!(scanned.initial_heap_items, 7);
    assert_eq!(scanned.heapify_ns, 5);
}
