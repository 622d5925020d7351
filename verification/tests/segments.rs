use exact_rank_fusion::dense_certificate::{PendingBound, ScoredPointOffset};
use exact_rank_fusion::dense_plan::{
    integer_dot, is_finite_vector, CompactDescription, Distance, QuantizedDescription,
    VectorStorageDatatype,
};
use exact_rank_fusion::exact_dense_stream::{
    prepare_dense, select_dense_plan, DenseExecutionPolicy, DensePhysicalPlan, ExactDenseCursor,
};
use exact_rank_fusion::native_dense_stream::{prepare_native, NativeDensePlan, NativeDensePolicy};
use exact_rank_fusion::operation_error::{Fault, OperationError, OperationResult};
use exact_rank_fusion::order::{is_finite_key, score_bits, score_key, ExtendedPointId};
use exact_rank_fusion::per_vector_scalar_index::{
    rank_state, validate_source_generation, PerVectorScalarMetadata, VectorStorageDescription,
};
use exact_rank_fusion::reciprocal_rank_fusion::responses::ScoredPoint;
use exact_rank_fusion::segment_records::retrieve;
use exact_rank_fusion::segment_search::{
    check_dense_query, check_sparse_request, eligible_points, NativeStream, OffsetList,
    StreamKind, Visibility, VisiblePoints,
};
use exact_rank_fusion::segment_view::{QueryContext, SegmentReadView};
use exact_rank_fusion::sparse_dispatch::{
    check_sparse_index, cursor_result, ExactSparseIndexCursor, NativeSparseCursorError,
    VectorIndexKind,
};

fn key(value: f64) -> i64 {
    score_key(value.to_bits())
}

fn id(value: u64) -> ExtendedPointId {
    ExtendedPointId::NumId(value)
}

fn offset(idx: u32, score: f64) -> ScoredPointOffset {
    ScoredPointOffset { idx, score: key(score) }
}

fn bits(vector: &[f32]) -> Vec<u32> {
    vector.iter().map(|value| value.to_bits()).collect()
}

#[test]
fn score_keys_keep_the_order_of_numbers() {
    let ordered = [
        f64::NEG_INFINITY,
        f64::MIN,
        -1.0,
        -f64::MIN_POSITIVE,
        0.0,
        5e-324,
        1.0,
        f64::MAX,
        f64::INFINITY,
    ];
    for pair in ordered.windows(2) {
        assert!(key(pair[0]) < key(pair[1]));
    }
    for value in ordered {
        assert_eq!(f64::from_bits(score_bits(key(value))), value);
        assert_eq!(is_finite_key(key(value)), value.is_finite());
    }
    assert_eq!(key(-0.0), key(0.0));
    assert!(!is_finite_key(key(f64::NAN)));
}

#[test]
fn integer_products_are_exact() {
    assert_eq!(integer_dot(&vec![127, -127, 3], &vec![127, 127, -5]), -15);
    assert_eq!(integer_dot(&vec![-127; 200_000], &vec![127; 200_000]), -16_129 * 200_000);
    assert!(is_finite_vector(&bits(&[0.0, -1.5])));
    assert!(!is_finite_vector(&bits(&[0.0, f32::NAN])));
}

fn described(per_vector_scalar: bool, compact: bool) -> Option<QuantizedDescription> {
    Some(QuantizedDescription {
        distance: Distance::Dot,
        datatype: VectorStorageDatatype::Float32,
        per_vector_scalar,
        compact: if compact { Some(CompactDescription { dimension: 2, rows: 4 }) } else { None },
        reconstruction_rows: Some(4),
    })
}

#[test]
fn the_dense_plan_follows_what_is_quantized() {
    let eligible = vec![0, 1, 2, 3];
    let policy = DenseExecutionPolicy {
        scalar_min_points: 0,
        disable_compact_certificate: false,
        ..DenseExecutionPolicy::with_compact_limit(100)
    };
    let plan = |quantized: Option<QuantizedDescription>, policy: DenseExecutionPolicy| {
        select_dense_plan(
            Distance::Dot,
            VectorStorageDatatype::Float32,
            quantized,
            &eligible,
            2,
            policy,
        )
    };
    assert_eq!(
        plan(described(true, true), policy),
        DensePhysicalPlan::PerVectorScalarCertificate
    );
    assert_eq!(plan(described(false, true), policy), DensePhysicalPlan::CompactCertificate);
    assert_eq!(plan(described(false, false), policy), DensePhysicalPlan::ScalarCertificate);
    assert_eq!(plan(None, policy), DensePhysicalPlan::ExactScan);
    assert_eq!(
        plan(
            described(true, true),
            DenseExecutionPolicy { force_exact_scan: true, ..policy }
        ),
        DensePhysicalPlan::ExactScan
    );
    assert_eq!(
        plan(
            described(true, true),
            DenseExecutionPolicy { scalar_min_points: 5, ..policy }
        ),
        DensePhysicalPlan::ExactScan
    );
    assert_eq!(
        plan(
            described(false, true),
            DenseExecutionPolicy { compact_max_points: 3, ..policy }
        ),
        DensePhysicalPlan::ScalarCertificate
    );
    assert_eq!(
        select_dense_plan(
            Distance::Euclid,
            VectorStorageDatatype::Float32,
            described(true, true),
            &eligible,
            2,
            policy
        ),
        DensePhysicalPlan::ExactScan
    );
}

#[test]
fn a_dense_request_is_checked_and_sorted() {
    let policy = DenseExecutionPolicy::with_compact_limit(100);
    let request = |eligible: Vec<u32>, query: &[f32], batch: usize, stopped: bool| {
        prepare_dense(
            Distance::Dot,
            VectorStorageDatatype::Float32,
            None,
            &eligible,
            &bits(query),
            policy,
            batch,
            stopped,
        )
    };
    assert_eq!(request(vec![3, 1, 2], &[1.0], 1, false).unwrap().eligible, vec![1, 2, 3]);
    assert_eq!(
        request(vec![3], &[1.0], 1, true).err(),
        Some(OperationError::Cancelled)
    );
    assert_eq!(
        request(vec![3], &[1.0], 0, false).err(),
        Some(OperationError::ValidationError(Fault::ZeroRefineBatch))
    );
    assert_eq!(
        request(vec![3], &[f32::NAN], 1, false).err(),
        Some(OperationError::ValidationError(Fault::InvalidDenseQuery))
    );
    assert_eq!(
        request(vec![3, 3], &[1.0], 1, false).err(),
        Some(OperationError::InconsistentStorage(Fault::DuplicateEligible))
    );
    let native = prepare_native(
        Distance::Dot,
        VectorStorageDatatype::Float32,
        None,
        &vec![2, 0],
        &bits(&[1.0]),
        NativeDensePolicy::with_compact_limit(10),
        false,
    )
    .unwrap();
    assert_eq!(native.plan, NativeDensePlan::ExactScan);
    assert_eq!(native.eligible, vec![0, 2]);
}

#[test]
fn a_dense_cursor_can_be_seeded_probed_and_suspended() {
    let scores = [3.0, 5.0, 1.0, 4.0];
    let scorer = |point: u32| key(scores[point as usize]);
    let bounds: Vec<PendingBound> = (0..4)
        .map(|point: u32| PendingBound {
            id: point,
            lower: key(scores[point as usize] - 0.75),
            value: key(scores[point as usize] + 0.75),
        })
        .collect();
    let mut cursor = ExactDenseCursor::from_certificate_bounds_batched(
        vec![3, 2, 1, 0],
        bounds,
        2,
        DensePhysicalPlan::ScalarCertificate,
        4,
    )
    .unwrap();
    assert_eq!(cursor.eligible_points(), vec![0, 1, 2, 3]);
    assert_eq!(cursor.seed_exact_scores(&vec![(0, key(3.0))]), Ok(1));
    assert_eq!(cursor.telemetry().seeded_exact_scores, 1);
    assert!(cursor.seed_exact_scores(&vec![(2, key(9.0))]).is_err());
    assert!(cursor.seed_exact_scores(&vec![(9, key(1.0))]).is_err());
    let probes = cursor.probe_exact_ranks(&vec![2, 1], &scorer).unwrap();
    assert_eq!(probes.iter().map(|probe| (probe.id, probe.rank)).collect::<Vec<_>>(), vec![
        (2, 3),
        (1, 0)
    ]);
    assert!(cursor.probe_exact_ranks(&vec![2, 2], &scorer).is_err());
    assert_eq!(cursor.next_result(&scorer), Ok(Some(offset(1, 5.0))));
    let mut state = cursor.into_rank_state();
    assert_eq!(
        state.next_batch_with(9, &scorer).unwrap(),
        vec![offset(3, 4.0), offset(0, 3.0), offset(2, 1.0)]
    );
    assert_eq!(state.telemetry().points_emitted, 4);
    assert_eq!(state.eligible_len(), 4);
}

#[test]
fn the_first_seed_that_differs_is_named() {
    let mut cursor =
        ExactDenseCursor::from_exact_scores(vec![0, 1, 2], &vec![key(3.0), key(2.0), key(1.0)])
            .unwrap();
    assert_eq!(cursor.seed_exact_scores(&vec![(2, key(1.0)), (0, key(3.0))]), Ok(0));
    assert_eq!(
        cursor.seed_exact_scores(&vec![(2, key(1.0)), (1, key(9.0)), (0, key(9.0))]),
        Err(OperationError::InconsistentStorage(Fault::SeedChanged { id: 1 }))
    );
}

#[test]
fn a_score_outside_its_interval_is_an_error() {
    let cursor = || {
        let bounds: Vec<PendingBound> = (0..2)
            .map(|point: u32| PendingBound { id: point, lower: key(0.0), value: key(2.0) })
            .collect();
        ExactDenseCursor::from_certificate_bounds_batched(
            vec![0, 1],
            bounds,
            2,
            DensePhysicalPlan::ScalarCertificate,
            2,
        )
        .unwrap()
    };
    let violated = OperationError::InconsistentStorage(Fault::BoundViolated { id: 1 });
    let above = |point: u32| key(if point == 1 { 3.0 } else { 1.0 });
    assert_eq!(cursor().next_result(&above), Err(violated.clone()));
    assert_eq!(cursor().probe_exact_ranks(&vec![0], &above).err(), Some(violated));
}

#[test]
fn a_probe_by_key_breaks_ties_by_the_key() {
    let scorer = |_point: u32| key(1.0);
    let mut cursor =
        ExactDenseCursor::from_exact_scores(vec![0, 1], &vec![key(1.0), key(1.0)]).unwrap();
    let probes = cursor
        .probe_exact_ranks_by_key(&vec![0, 1], &|point: u32| id(10 - u64::from(point)), &scorer)
        .unwrap();
    assert_eq!(probes[0].rank, 1);
    assert_eq!(probes[1].rank, 0);
}

#[test]
fn a_scalar_index_checks_what_it_serves() {
    let metadata = PerVectorScalarMetadata {
        dimension: 2,
        vector_count: 3,
        row_bytes: 8,
        source_generation: 7,
    };
    let storage = VectorStorageDescription {
        distance: Distance::Dot,
        datatype: VectorStorageDatatype::Float32,
        layout_bytes: Some(8),
        vector_count: 3,
    };
    assert_eq!(validate_source_generation(&metadata, 7), Ok(()));
    assert!(validate_source_generation(&metadata, 8).is_err());
    let certifier = |point: u32| Some((key(f64::from(point)), key(f64::from(point))));
    let never = |_point: usize| false;
    let mut state =
        rank_state(&metadata, &storage, &vec![2, 0], &bits(&[1.0, 1.0]), true, &certifier, &never)
            .unwrap();
    assert_eq!(
        state.next_batch_with(2, &|point: u32| key(f64::from(point))).unwrap(),
        vec![offset(2, 2.0), offset(0, 0.0)]
    );
    assert!(rank_state(&metadata, &storage, &vec![3], &bits(&[1.0, 1.0]), true, &certifier, &never)
        .is_err());
    let refused =
        rank_state(&metadata, &storage, &vec![0], &bits(&[1.0]), true, &certifier, &never);
    assert!(refused.is_err());
}

#[test]
fn eligible_points_are_alive_chosen_and_not_deferred() {
    assert_eq!(
        eligible_points(6, &|point: u32| point != 1, Some(5), &|point: u32| point != 2),
        vec![0, 3, 4]
    );
    assert_eq!(eligible_points(2, &|_point: u32| true, None, &|_point: u32| true), vec![0, 1]);
}

fn native_points(
    points: Vec<ScoredPointOffset>,
    external: &dyn Fn(u32) -> Option<ExtendedPointId>,
    version: &dyn Fn(u32) -> Option<u64>,
    stopped: bool,
) -> OperationResult<Vec<ScoredPoint>> {
    let mut stream = NativeStream::new(VisiblePoints::new(
        OffsetList::new(points),
        Some(Visibility {
            not_deleted: |point: u32| point != 4,
            deferred_from: None,
            chosen: |_: u32| true,
        }),
        |point: u32| external(point),
        |point: u32| version(point),
        || stopped,
        StreamKind::Dense,
    ));
    let mut found = Vec::new();
    while let Some(point) = stream.next()? {
        found.push(point);
    }
    Ok(found)
}

#[test]
fn scores_that_are_not_numbers_are_not_regrouped() {
    let found = native_points(
        vec![offset(0, f64::NAN), offset(1, f64::NAN), offset(2, 1.0), offset(3, 1.0)],
        &|point: u32| Some(id(10 - u64::from(point))),
        &|_point: u32| Some(1),
        false,
    )
    .unwrap();
    assert_eq!(
        found.iter().map(|point| point.id).collect::<Vec<_>>(),
        vec![id(10), id(9), id(7), id(8)]
    );
}

#[test]
fn a_native_stream_orders_equal_scores_by_identity_and_hides_points() {
    let points = vec![offset(0, 2.0), offset(1, 2.0), offset(4, 2.0), offset(2, 1.0)];
    let found = native_points(
        points.clone(),
        &|point: u32| Some(id(10 - u64::from(point))),
        &|point: u32| Some(u64::from(point) + 100),
        false,
    )
    .unwrap();
    assert_eq!(
        found,
        vec![
            ScoredPoint { id: id(9), version: 101, score: key(2.0), attached: None },
            ScoredPoint { id: id(10), version: 100, score: key(2.0), attached: None },
            ScoredPoint { id: id(8), version: 102, score: key(1.0), attached: None },
        ]
    );
    let some = |point: u32| Some(id(u64::from(point)));
    let unmapped = |_point: u32| None;
    let versioned = |_point: u32| Some(1);
    let unversioned = |_point: u32| None;
    assert_eq!(
        native_points(points.clone(), &some, &versioned, true).err(),
        Some(OperationError::Cancelled)
    );
    assert!(native_points(points.clone(), &unmapped, &versioned, false).is_err());
    assert!(native_points(points, &some, &unversioned, false).is_err());
}

#[test]
fn stream_requests_are_checked() {
    assert_eq!(check_dense_query(&bits(&[1.0]), true), Ok(()));
    assert_eq!(
        check_dense_query(&vec![], true),
        Err(OperationError::ValidationError(Fault::DenseSessionQuery))
    );
    assert_eq!(
        check_dense_query(&bits(&[f32::INFINITY]), false),
        Err(OperationError::ValidationError(Fault::DenseStreamQuery))
    );
    let name = "text".to_string();
    assert_eq!(check_sparse_request(1, true, &name, false, false), Ok(()));
    assert_eq!(
        check_sparse_request(0, true, &name, false, false),
        Err(OperationError::ValidationError(Fault::ZeroPostingBatch))
    );
    assert_eq!(
        check_sparse_request(1, false, &name, false, false),
        Err(OperationError::VectorNameNotExists { name: "text".to_string() })
    );
    assert_eq!(
        check_sparse_request(1, true, &name, true, false),
        Err(OperationError::WrongSparse)
    );
    assert_eq!(check_sparse_index(VectorIndexKind::SparseRam), Ok(()));
    assert_eq!(check_sparse_index(VectorIndexKind::Hnsw), Err(OperationError::WrongSparse));
    assert_eq!(cursor_result(Ok(None)), Ok(None));
    assert_eq!(
        cursor_result(Err(NativeSparseCursorError::Cancelled)),
        Err(OperationError::Cancelled)
    );
    assert_eq!(
        cursor_result(Err(NativeSparseCursorError::ReaderFailure("bad".to_string()))),
        Err(OperationError::CorruptStorage { description: "bad".to_string() })
    );
}

#[test]
fn records_hold_the_vectors_and_payloads_that_were_asked_for() {
    let fetch_vector = |name: usize, point: u32| {
        let found: OperationResult<Option<(usize, u32)>> =
            Ok(if point == 8 { None } else { Some((name, point)) });
        found
    };
    let fetch_payload = |point: u32| {
        let found: OperationResult<u32> = Ok(point * 2);
        found
    };
    let mut records = retrieve(
        &vec![id(1), id(2)],
        &vec![7, 8],
        Some(&vec![0, 3]),
        &fetch_vector,
        Some(&fetch_payload),
        &|| false,
    )
    .unwrap();
    let first = records.remove(id(1)).unwrap();
    assert_eq!(first.vectors, Some(vec![(0, (0, 7)), (3, (3, 7))]));
    assert_eq!(first.payload, Some(14));
    let second = records.remove(id(2)).unwrap();
    assert_eq!(second.vectors, Some(vec![]));
    assert_eq!(second.payload, Some(16));
    assert!(records.remove(id(2)).is_none());
    assert!(records.remove(id(5)).is_none());
}

#[test]
fn search_results_keep_their_order_and_carry_their_records() {
    let view = SegmentReadView {
        external: |point: u32| if point == 9 { None } else { Some(id(u64::from(point))) },
        version: |point: u32| if point == 5 { None } else { Some(u64::from(point) + 100) },
        resolve: |ids: &Vec<ExtendedPointId>| {
            let mut known = Vec::new();
            let mut offsets = Vec::new();
            for identity in ids {
                if let ExtendedPointId::NumId(number) = identity {
                    if *number != 3 && !known.contains(identity) {
                        known.push(*identity);
                        offsets.push(*number as u32);
                    }
                }
            }
            (known, offsets)
        },
        fetch_vector: |name: usize, point: u32| {
            let found: OperationResult<Option<u32>> = Ok(Some(point + name as u32));
            found
        },
        fetch_payload: |point: u32| {
            let found: OperationResult<u32> = Ok(point);
            found
        },
        stopped: || false,
    };
    let raw = vec![
        offset(2, 9.0),
        offset(9, 8.0),
        offset(3, 7.0),
        offset(2, 6.0),
        offset(1, 5.0),
    ];
    let found = view.process_search_result(&raw, Some(&vec![40]), true).unwrap();
    assert_eq!(found.len(), 2);
    assert_eq!((found[0].id, found[0].version, found[0].score), (id(2), 102, key(9.0)));
    assert_eq!(found[0].vectors, Some(vec![(40, 42)]));
    assert_eq!(found[0].payload, Some(2));
    assert_eq!((found[1].id, found[1].version, found[1].score), (id(1), 101, key(5.0)));
    let text = "text".to_string();
    let lists = || {
        let found: OperationResult<Vec<Vec<ScoredPointOffset>>> = Ok(vec![raw.clone(), vec![]]);
        found
    };
    let bare = view.search_batch(&text, Ok(()), true, &lists, None, false).unwrap();
    assert_eq!(bare.len(), 2);
    assert!(bare[0][0].vectors.is_none() && bare[0][0].payload.is_none());
    assert!(bare[1].is_empty());
    let misfit = OperationError::ValidationError(Fault::ScalarQueryEncoding);
    assert_eq!(
        view.search_batch(&text, Err(misfit.clone()), false, &lists, None, false).err(),
        Some(misfit)
    );
    assert_eq!(
        view.search_batch(&text, Ok(()), false, &lists, None, false).err(),
        Some(OperationError::VectorNameNotExists { name: "text".to_string() })
    );
    let broken = || {
        let found: OperationResult<Vec<Vec<ScoredPointOffset>>> = Err(OperationError::WrongSparse);
        found
    };
    assert_eq!(
        view.search_batch(&text, Ok(()), true, &broken, None, false).err(),
        Some(OperationError::WrongSparse)
    );
    assert_eq!(
        view.process_search_result(&vec![offset(5, 1.0)], None, false).err(),
        Some(OperationError::ServiceFault(Fault::MissingVersion { id: id(5) }))
    );
    let mut context =
        QueryContext { available_point_count: 5, indexed_vectors: vec![Some(2), None, Some(1)] };
    let filled = |_vector: usize| {
        let filled: OperationResult<()> = Ok(());
        filled
    };
    view.fill_query_context(&mut context, 10, &vec![Some(3), Some(4), None], &filled).unwrap();
    assert_eq!(context.available_point_count, 15);
    assert_eq!(context.indexed_vectors, vec![Some(5), Some(4), Some(1)]);
    let broken = |vector: usize| {
        if vector == 1 { Err(OperationError::WrongSparse) } else { Ok(()) }
    };
    let mut context =
        QueryContext { available_point_count: 0, indexed_vectors: vec![None, None, None] };
    assert_eq!(
        view.fill_query_context(&mut context, 2, &vec![Some(1), Some(2), Some(3)], &broken).err(),
        Some(OperationError::WrongSparse)
    );
    assert_eq!(context.indexed_vectors, vec![Some(1), Some(2), None]);
}

#[test]
fn a_sparse_stream_checks_its_request_and_orders_ties_by_identity() {
    let view = SegmentReadView {
        external: |point: u32| Some(id(10 - u64::from(point))),
        version: |point: u32| Some(u64::from(point)),
        resolve: (),
        fetch_vector: (),
        fetch_payload: (),
        stopped: || false,
    };
    let name = "text".to_string();
    let cursor = || {
        ExactSparseIndexCursor::open(VectorIndexKind::SparseRam, &|| {
            let made: OperationResult<OffsetList> = Ok(OffsetList::new(vec![
                offset(0, 2.0),
                offset(1, 2.0),
                offset(2, 2.0),
                offset(3, 1.0),
            ]));
            made
        })
        .unwrap()
    };
    let open = |exists: bool, idf: bool, batch: usize| {
        view.with_native_sparse_stream(
            &name,
            exists,
            idf,
            false,
            batch,
            cursor(),
            Visibility {
                not_deleted: |point: u32| point != 1,
                deferred_from: None,
                chosen: |_: u32| true,
            },
        )
    };
    let mut stream = open(true, false, 1).unwrap();
    let mut ids = Vec::new();
    while let Some(point) = stream.next().unwrap() {
        ids.push(point.id);
    }
    assert_eq!(ids, vec![id(8), id(10), id(7)]);
    assert_eq!(
        open(true, false, 0).err(),
        Some(OperationError::ValidationError(Fault::ZeroPostingBatch))
    );
    assert_eq!(
        open(false, false, 1).err(),
        Some(OperationError::VectorNameNotExists { name: "text".to_string() })
    );
    assert_eq!(open(true, true, 1).err(), Some(OperationError::WrongSparse));
}

#[test]
fn a_sparse_cursor_opens_on_sparse_indexes_only_and_pulls_batches() {
    let make = || {
        let made: OperationResult<OffsetList> =
            Ok(OffsetList::new(vec![offset(4, 3.0), offset(1, 2.0), offset(7, 1.0)]));
        made
    };
    assert_eq!(
        ExactSparseIndexCursor::open(VectorIndexKind::Plain, &make).err(),
        Some(OperationError::WrongSparse)
    );
    let mut cursor =
        ExactSparseIndexCursor::open(VectorIndexKind::SparseCompressedMmapU8, &make).unwrap();
    assert_eq!(cursor.next_result(), Ok(Some(offset(4, 3.0))));
    assert_eq!(cursor.next_batch(1), Ok(vec![offset(1, 2.0)]));
    assert_eq!(cursor.next_batch(5), Ok(vec![offset(7, 1.0)]));
    assert_eq!(cursor.next_batch(5), Ok(vec![]));
}

#[test]
fn a_rank_state_can_be_taken_out_of_its_cursor() {
    let scores = [1.0, 3.0, 2.0];
    let scorer = |point: u32| key(scores[point as usize]);
    let keys: Vec<i64> = scores.iter().map(|score| key(*score)).collect();
    let mut cursor = ExactDenseCursor::from_exact_scores(vec![0, 1, 2], &keys).unwrap();
    assert_eq!(cursor.next_result(&scorer), Ok(Some(offset(1, 3.0))));
    let mut state = cursor.take_rank_state();
    assert_eq!(cursor.next_result(&scorer), Ok(None));
    assert_eq!(
        state.next_batch_with(5, &scorer).unwrap(),
        vec![offset(2, 2.0), offset(0, 1.0)]
    );
}

#[test]
fn a_record_that_cannot_be_read_ends_the_search_with_the_reason() {
    let unreadable = || OperationError::CorruptStorage { description: "torn page".to_string() };
    let view = SegmentReadView {
        external: |point: u32| Some(id(u64::from(point))),
        version: |point: u32| Some(u64::from(point)),
        resolve: |ids: &Vec<ExtendedPointId>| {
            let offsets = (0..ids.len() as u32).collect();
            (ids.clone(), offsets)
        },
        fetch_vector: |_name: usize, point: u32| {
            let found: OperationResult<Option<u32>> = Ok(Some(point));
            found
        },
        fetch_payload: |point: u32| {
            let found: OperationResult<u32> = if point == 1 { Err(unreadable()) } else { Ok(point) };
            found
        },
        stopped: || false,
    };
    let raw = vec![offset(4, 2.0), offset(5, 1.0)];
    assert_eq!(
        view.process_search_result(&raw, Some(&vec![0]), true).err(),
        Some(unreadable())
    );
    assert_eq!(
        view.process_search_results(&vec![vec![], raw.clone()], None, true).err(),
        Some(unreadable())
    );
    assert!(view.process_search_results(&vec![vec![], raw], None, false).is_ok());
}
