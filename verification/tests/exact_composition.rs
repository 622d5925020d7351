use exact_rank_fusion::dense_documents::DenseDocument;
use exact_rank_fusion::dense_quantized::{
    DenseQuantizedIndex, QuantizedVector, QuantizedVectorMetadata,
};
use exact_rank_fusion::exact_composition::plan::ExactCompositionPlan;
use exact_rank_fusion::exact_composition::types::{
    ExactCompositionError, ExactCompositionExecutionPolicy, ExactCompositionNode,
    ExactCompositionStreamFailure, FallibleExactCompositionStream,
};
use exact_rank_fusion::frontier::KeyFunction;
use exact_rank_fusion::operation_error::{Fault, OperationError, OperationResult};
use exact_rank_fusion::order::{score_bits, score_key, ExtendedPointId};
use exact_rank_fusion::reciprocal_rank_fusion::types::{
    infallible_exact_rrf_stream, DynamicRrfPolicy, ExactRrfStream,
};

fn key(value: f64) -> i64 {
    score_key(value.to_bits())
}

fn number(key: i64) -> f64 {
    f64::from_bits(score_bits(key))
}

fn position_score(position: usize, k: usize, weight: f32) -> f32 {
    if weight <= 0.0 {
        return 0.0;
    }
    1.0 / ((position + 1) as f32 / weight + k as f32 - 1.0)
}

fn accumulate(sum: i64, position: usize, rrf_k: usize, weight: i64) -> i64 {
    let contribution = position_score(position, rrf_k, number(weight) as f32);
    key(f64::from(number(sum) as f32 + contribution))
}

fn priority(position: usize, rrf_k: usize, weight: i64, live: usize, cost: i64) -> i64 {
    let weight = number(weight) as f32;
    let bound = position_score(position, rrf_k, weight);
    let next = position_score(position.saturating_add(1), rrf_k, weight);
    let reduction = f64::from((bound - next).max(0.0));
    key(reduction * live.max(1) as f64 / number(cost))
}

fn describe(error: &OperationError) -> String {
    format!("{error:?}")
}

fn id(value: u64) -> ExtendedPointId {
    ExtendedPointId::NumId(value)
}

fn ids(values: impl IntoIterator<Item = u64>) -> Vec<ExtendedPointId> {
    values.into_iter().map(id).collect()
}

fn leaf(order: Vec<ExtendedPointId>) -> ExactCompositionNode {
    ExactCompositionNode::Leaf { order }
}

fn fusion(
    inputs: &[usize],
    weights: &[f32],
    rrf_k: usize,
    output_limit: Option<usize>,
) -> ExactCompositionNode {
    ExactCompositionNode::Fusion {
        inputs: inputs.to_vec(),
        weights: weights.iter().map(|weight| key(f64::from(*weight))).collect(),
        rrf_k,
        output_limit,
    }
}

struct Scripted {
    items: Vec<Result<ExtendedPointId, ExactCompositionStreamFailure>>,
}

impl FallibleExactCompositionStream for Scripted {
    fn next(&mut self) -> Result<Option<ExtendedPointId>, ExactCompositionStreamFailure> {
        if self.items.is_empty() {
            return Ok(None);
        }
        self.items.remove(0).map(Some)
    }
}

fn scripted(
    items: Vec<Result<ExtendedPointId, ExactCompositionStreamFailure>>,
) -> Option<Scripted> {
    Some(Scripted { items })
}

struct Pulled<'a> {
    pull: Box<dyn FnMut() -> OperationResult<Option<ExtendedPointId>> + 'a>,
}

impl ExactRrfStream for Pulled<'_> {
    fn next(&mut self) -> OperationResult<Option<ExtendedPointId>> {
        (self.pull)()
    }
}

fn quantize(vector: &Vec<u32>) -> QuantizedVector {
    let values: Vec<f64> = vector.iter().map(|bits| f64::from(f32::from_bits(*bits))).collect();
    let largest = values.iter().fold(0.0_f64, |largest, value| largest.max(value.abs()));
    let scale = if largest == 0.0 { 1.0 } else { largest / 127.0 };
    let codes: Vec<i8> =
        values.iter().map(|value| (value / scale).round().clamp(-127.0, 127.0) as i8).collect();
    let length = |values: &mut dyn Iterator<Item = f64>| {
        values.map(|value| value * value).sum::<f64>().sqrt()
    };
    let metadata = QuantizedVectorMetadata {
        scale: scale.to_bits(),
        reconstructed_norm: length(&mut codes.iter().map(|code| f64::from(*code) * scale))
            .to_bits(),
        residual_norm: length(
            &mut values.iter().zip(&codes).map(|(value, code)| value - f64::from(*code) * scale),
        )
        .next_up()
        .to_bits(),
        original_norm: length(&mut values.iter().copied()).to_bits(),
    };
    QuantizedVector { codes, metadata }
}

fn combine(
    product: i64,
    query: &QuantizedVectorMetadata,
    document: &QuantizedVectorMetadata,
    dimension: usize,
) -> i64 {
    let value = f64::from_bits;
    let approximate = product as f64 * value(query.scale) * value(document.scale);
    let error = value(query.residual_norm) * value(document.original_norm)
        + value(query.reconstructed_norm) * value(document.residual_norm);
    let guard = (approximate.abs()
        + error
        + value(query.original_norm) * value(document.original_norm))
        * f64::EPSILON
        * (8.0 * dimension as f64 + 32.0);
    key((approximate + error + guard).next_up())
}

#[test]
fn adversarial_chain_matches_full_materialization_and_safely_exhausts() {
    let plan = ExactCompositionPlan::new(
        vec![
            leaf(ids(0..100)),
            leaf(ids((0..100).rev())),
            fusion(&[0, 1], &[1.0, 1.0], 60, Some(40)),
            leaf(ids((50..150).rev())),
            fusion(&[2, 3], &[2.0, 1.0], 60, Some(20)),
        ],
        4,
    )
    .unwrap();

    let exhaustive = plan.exhaustive_execute(20, &accumulate).unwrap();
    let actual = plan.execute(20, &accumulate, &priority).unwrap();
    let degraded = plan
        .execute_with_policy(
            20,
            ExactCompositionExecutionPolicy {
                fusion_policy: DynamicRrfPolicy {
                    exhaustive_after_pulls_per_source: Some(16),
                    ..DynamicRrfPolicy::default()
                },
            },
            &accumulate,
            &priority,
        )
        .unwrap();

    assert_eq!(actual.point_ids, exhaustive.point_ids);
    assert_eq!(degraded.point_ids, exhaustive.point_ids);
    assert_eq!(actual.leaf_physical_pulls, 300);
    assert_eq!(exhaustive.leaf_identities_materialized, 300);
    assert_eq!(exhaustive.intermediate_identities_materialized, 60);
    assert_eq!(exhaustive.total_identities_materialized, 360);
}

#[test]
fn diamond_shares_one_physical_child_stream_between_two_consumers() {
    let plan = ExactCompositionPlan::new(
        vec![
            leaf(ids(0..1_000)),
            leaf(ids(1_000..2_000)),
            leaf(ids(2_000..3_000)),
            fusion(&[0, 1], &[1.0, 1.0], 60, Some(100)),
            fusion(&[0, 2], &[1.0, 1.0], 60, Some(100)),
            fusion(&[3, 4], &[1.0, 1.0], 60, Some(20)),
        ],
        5,
    )
    .unwrap();

    let expected = plan.exhaustive_root(20, &accumulate).unwrap();
    let actual = plan.execute(20, &accumulate, &priority).unwrap();

    assert_eq!(actual.point_ids, expected);
    let shared_leaf = &actual.nodes[0];
    let logical_pulls =
        actual.nodes[3].logical_input_pulls[0] + actual.nodes[4].logical_input_pulls[0];
    assert!(shared_leaf.physical_output_pulls < logical_pulls);
    assert!(shared_leaf.peak_replay_buffered_identities > 0);
    assert!(actual.peak_replay_buffered_identities > 0);
    assert!(
        actual.peak_replay_buffered_identities <= actual.sum_node_peak_replay_buffered_identities
    );
}

#[test]
fn real_dense_and_sparse_leaf_streams_compose_without_adapter_semantics() {
    let documents: Vec<DenseDocument> = (0..257_u32)
        .map(|id| DenseDocument {
            id,
            vector: vec![
                (((id * 17) % 31) as f32 / 31.0).to_bits(),
                (((id * 29 + 7) % 37) as f32 / 37.0).to_bits(),
                (((id * 11 + 3) % 41) as f32 / 41.0).to_bits(),
            ],
        })
        .collect();
    let dense_query: Vec<u32> =
        [1.0_f32, -0.25, 0.5].iter().map(|value| value.to_bits()).collect();
    let dense = DenseQuantizedIndex::build(documents, &quantize).unwrap();
    let score = |place: usize| {
        key(dense
            .document(place)
            .vector
            .iter()
            .zip(&dense_query)
            .map(|(left, right)| {
                f64::from(f32::from_bits(*left)) * f64::from(f32::from_bits(*right))
            })
            .sum())
    };
    let open =
        || dense.stream(&dense_query, &quantize, &combine, KeyFunction { function: score }).unwrap();
    let mut dense_order = Vec::new();
    let mut stream = open();
    while let Some(point) = stream.next() {
        dense_order.push(id(u64::from(point.id)));
    }
    assert_eq!(dense_order.len(), 257);
    let mut ranked: Vec<u64> = (0..257).collect();
    ranked.sort_by_key(|document| (std::cmp::Reverse(1 + 3 * ((document * 7) % 17)), *document));
    let sparse_order = ids(ranked);
    let plan = ExactCompositionPlan::new(
        vec![
            leaf(dense_order),
            leaf(sparse_order.clone()),
            fusion(&[0, 1], &[1.0, 1.0], 60, Some(20)),
        ],
        2,
    )
    .unwrap();
    let mut dense_stream = open();
    let mut sparse_stream = sparse_order.into_iter();
    let leaf_streams = vec![
        Some(Pulled {
            pull: Box::new(move || {
                Ok(dense_stream.next().map(|point| id(u64::from(point.id))))
            }),
        }),
        Some(Pulled { pull: Box::new(move || Ok(sparse_stream.next())) }),
        None,
    ];

    let actual = plan
        .execute_with_leaf_streams(20, leaf_streams, &describe, &accumulate, &priority)
        .unwrap();

    assert_eq!(actual.point_ids, plan.exhaustive_root(20, &accumulate).unwrap());
    assert!(actual.leaf_physical_pulls > 0);
}

#[test]
fn finite_child_limit_is_semantics_not_an_execution_hint() {
    let plan = |child_limit: Option<usize>| {
        ExactCompositionPlan::new(
            vec![
                leaf(ids(0..20)),
                leaf(ids((0..20).rev())),
                fusion(&[0, 1], &[1.0, 1.0], 2, child_limit),
                leaf(ids(10..30)),
                fusion(&[2, 3], &[1.0, 1.0], 2, Some(10)),
            ],
            4,
        )
        .unwrap()
    };
    let limited = plan(Some(3));
    let open = plan(None);

    assert_ne!(
        limited.exhaustive_root(10, &accumulate).unwrap(),
        open.exhaustive_root(10, &accumulate).unwrap()
    );
    assert_eq!(
        limited.execute(10, &accumulate, &priority).unwrap().point_ids,
        limited.exhaustive_root(10, &accumulate).unwrap()
    );
    assert_eq!(
        open.execute(10, &accumulate, &priority).unwrap().point_ids,
        open.exhaustive_root(10, &accumulate).unwrap()
    );
}

#[test]
fn fusion_topology_is_not_associative() {
    let leaves =
        || [leaf(ids([0, 1, 2, 3, 4])), leaf(ids([1, 2, 0, 3, 4])), leaf(ids([2, 3, 1, 0, 4]))];
    let nested = |inner: &[usize], outer: &[usize]| {
        let mut nodes = leaves().to_vec();
        nodes.push(fusion(inner, &[1.0, 1.0], 2, Some(3)));
        nodes.push(fusion(outer, &[1.0, 1.0], 2, Some(5)));
        ExactCompositionPlan::new(nodes, 4).unwrap()
    };
    let left_nested = nested(&[0, 1], &[3, 2]);
    let right_nested = nested(&[1, 2], &[0, 3]);

    let left = left_nested.execute(5, &accumulate, &priority).unwrap().point_ids;
    let right = right_nested.execute(5, &accumulate, &priority).unwrap().point_ids;

    assert_eq!(left, left_nested.exhaustive_root(5, &accumulate).unwrap());
    assert_eq!(right, right_nested.exhaustive_root(5, &accumulate).unwrap());
    assert_eq!(left, ids([1, 2, 0, 3, 4]));
    assert_eq!(right, ids([2, 1, 0, 3, 4]));
    assert_ne!(left, right);
}

#[test]
fn deterministic_random_dags_match_full_materialization() {
    for case in 0_u64..250 {
        let shuffled = |leaf_number: u64| {
            let mut order: Vec<_> = (0_u64..32).collect();
            order.sort_unstable_by_key(|identity| {
                identity
                    .wrapping_mul(0x9E37_79B9_7F4A_7C15)
                    .wrapping_add(case.wrapping_mul(0xBF58_476D_1CE4_E5B9))
                    .wrapping_add(leaf_number.wrapping_mul(0x94D0_49BB_1331_11EB))
                    .rotate_left(((identity + leaf_number + case) % 64) as u32)
            });
            ids(order)
        };
        let small_limit = 4 + case as usize % 13;
        let plan = ExactCompositionPlan::new(
            vec![
                leaf(shuffled(0)),
                leaf(shuffled(1)),
                leaf(shuffled(2)),
                fusion(
                    &[0, 1],
                    &[1.0, 0.5 + (case % 3) as f32],
                    2 + case as usize % 9,
                    Some(small_limit),
                ),
                fusion(&[0, 2], &[1.5, 1.0], 3 + case as usize % 7, None),
                fusion(&[3, 4, 1], &[1.0, 2.0, 0.25], 2 + case as usize % 5, Some(12)),
            ],
            5,
        )
        .unwrap();

        assert_eq!(
            plan.execute(12, &accumulate, &priority).unwrap().point_ids,
            plan.exhaustive_root(12, &accumulate).unwrap(),
            "case={case}",
        );
    }
}

#[test]
fn root_early_stop_cancels_unneeded_descendants() {
    let plan = ExactCompositionPlan::new(
        vec![
            leaf(ids(0..10_000)),
            leaf(ids(0..10_000)),
            fusion(&[0, 1], &[1.0, 1.0], 60, Some(1_000)),
        ],
        2,
    )
    .unwrap();

    let execution = plan.execute(5, &accumulate, &priority).unwrap();

    assert_eq!(execution.point_ids, ids(0..5));
    assert_eq!(execution.leaf_physical_pulls, 10);
    assert!(execution.cancelled_nodes >= 1);
    assert!(execution.nodes.iter().all(|node| node.physical_output_pulls <= 5));
}

#[test]
fn a_report_tells_what_every_node_has_done() {
    let plan = ExactCompositionPlan::new(
        vec![
            leaf(ids(0..3)),
            leaf(ids(0..10_000)),
            fusion(&[0, 1], &[1.0, 1.0], 60, Some(1_000)),
        ],
        2,
    )
    .unwrap();

    let execution = plan.execute(2, &accumulate, &priority).unwrap();

    assert_eq!(execution.nodes[2].outputs_produced, 2);
    assert_eq!(execution.nodes[2].logical_input_pulls, vec![2, 2]);
    assert!(execution.nodes[2].certification_checks >= 2);
    assert_eq!(execution.intermediate_outputs_produced, 2);
    assert_eq!(execution.cancelled_nodes, 3);
    assert!(execution.nodes.iter().all(|node| node.cancelled));
}

#[test]
fn observed_leaf_failure_is_not_treated_as_exact_exhaustion() {
    let plan = ExactCompositionPlan::new(
        vec![leaf(ids(0..2)), leaf(ids(0..2)), fusion(&[0, 1], &[1.0, 1.0], 60, Some(2))],
        2,
    )
    .unwrap();
    let streams = |failure: ExactCompositionStreamFailure| {
        vec![scripted(vec![Err(failure)]), scripted(vec![Ok(id(0)), Ok(id(1))]), None]
    };

    let error = plan
        .execute_with_fallible_leaf_streams(
            2,
            streams(ExactCompositionStreamFailure::Cancelled),
            &accumulate,
            &priority,
        )
        .unwrap_err();

    assert_eq!(
        error,
        ExactCompositionError::Leaf {
            node: 0,
            failure: ExactCompositionStreamFailure::Cancelled,
        }
    );
    let exhaustive_error = plan
        .exhaustive_with_fallible_leaf_streams(
            2,
            streams(ExactCompositionStreamFailure::SnapshotChanged),
            &accumulate,
        )
        .unwrap_err();
    assert_eq!(
        exhaustive_error,
        ExactCompositionError::Leaf {
            node: 0,
            failure: ExactCompositionStreamFailure::SnapshotChanged,
        }
    );
}

#[test]
fn an_operation_error_of_a_leaf_is_put_into_words() {
    let plan = ExactCompositionPlan::new(vec![ExactCompositionNode::ExternalLeaf], 0).unwrap();
    let failing =
        || vec![Some(Pulled { pull: Box::new(|| Err(OperationError::Cancelled)) })];
    let expected = ExactCompositionError::Leaf {
        node: 0,
        failure: ExactCompositionStreamFailure::Source("Cancelled".to_string()),
    };
    assert_eq!(
        plan.execute_with_leaf_streams(1, failing(), &describe, &accumulate, &priority)
            .unwrap_err(),
        expected
    );
    assert_eq!(
        plan.exhaustive_with_leaf_streams(1, failing(), &describe, &accumulate).unwrap_err(),
        expected
    );
}

#[test]
fn unobserved_leaf_tail_failure_does_not_invalidate_a_certified_prefix() {
    let plan = ExactCompositionPlan::new(
        vec![leaf(ids(0..2)), leaf(ids(0..2)), fusion(&[0, 1], &[1.0, 1.0], 60, Some(1))],
        2,
    )
    .unwrap();
    let source =
        || scripted(vec![Ok(id(0)), Err(ExactCompositionStreamFailure::SnapshotChanged)]);

    let actual = plan
        .execute_with_fallible_leaf_streams(
            1,
            vec![source(), source(), None],
            &accumulate,
            &priority,
        )
        .unwrap();

    assert_eq!(actual.point_ids, ids([0]));
}

#[test]
fn cycle_and_duplicate_leaf_identity_are_rejected() {
    let cycle = ExactCompositionPlan::new(
        vec![fusion(&[1], &[1.0], 60, Some(1)), fusion(&[0], &[1.0], 60, Some(1))],
        0,
    );
    assert!(matches!(cycle, Err(ExactCompositionError::Cycle)));

    let duplicate = ExactCompositionPlan::new(vec![leaf(ids([1, 2, 1]))], 0);
    assert!(matches!(duplicate, Err(ExactCompositionError::DuplicateLeafIdentity { .. })));
}

#[test]
fn every_fault_of_a_network_is_named() {
    let refused =
        |nodes: Vec<ExactCompositionNode>, root: usize| ExactCompositionPlan::new(nodes, root).err();
    assert_eq!(refused(vec![], 0), Some(ExactCompositionError::EmptyNetwork));
    assert_eq!(refused(vec![leaf(ids([1]))], 1), Some(ExactCompositionError::InvalidRoot(1)));
    assert_eq!(
        refused(vec![fusion(&[], &[], 60, None)], 0),
        Some(ExactCompositionError::EmptyFusion(0))
    );
    assert_eq!(
        refused(vec![fusion(&[4], &[1.0], 60, None)], 0),
        Some(ExactCompositionError::InvalidInput { node: 0, input: 4 })
    );
    let over_leaf = |weights: &[f32], rrf_k: usize, limit: Option<usize>| {
        refused(vec![leaf(ids([1])), fusion(&[0], weights, rrf_k, limit)], 1)
    };
    assert_eq!(over_leaf(&[0.0], 60, None), Some(ExactCompositionError::InvalidWeights(1)));
    assert_eq!(over_leaf(&[1.0], 0, None), Some(ExactCompositionError::InvalidRrfK(1)));
    assert_eq!(over_leaf(&[1.0], 60, Some(0)), Some(ExactCompositionError::InvalidOutputLimit(1)));
    assert_eq!(over_leaf(&[1.0], 60, Some(1)), None);
}

#[test]
fn every_fault_of_a_request_is_named() {
    let plan =
        ExactCompositionPlan::new(vec![leaf(ids([1])), fusion(&[0], &[1.0], 60, None)], 1).unwrap();
    assert_eq!(
        plan.execute(0, &accumulate, &priority).unwrap_err(),
        ExactCompositionError::InvalidRequestedTopK
    );
    assert_eq!(
        plan.exhaustive_root(0, &accumulate).unwrap_err(),
        ExactCompositionError::InvalidRequestedTopK
    );
    let on_fusion = vec![None, Some(infallible_exact_rrf_stream(ids([1])))];
    assert_eq!(
        plan.execute_with_fallible_leaf_streams(1, on_fusion, &accumulate, &priority).unwrap_err(),
        ExactCompositionError::InvalidLeafStreams
    );
    let policy = ExactCompositionExecutionPolicy {
        fusion_policy: DynamicRrfPolicy {
            warmup_check_interval: Some(0),
            ..DynamicRrfPolicy::default()
        },
    };
    assert_eq!(
        plan.execute_with_policy(1, policy, &accumulate, &priority).unwrap_err(),
        ExactCompositionError::Fusion {
            node: 1,
            error: OperationError::ValidationError(Fault::ZeroWarmupInterval),
        }
    );
}

#[test]
fn external_leaf_requires_a_stream_without_retaining_an_oracle_order() {
    let plan = ExactCompositionPlan::new(vec![ExactCompositionNode::ExternalLeaf], 0).unwrap();

    assert_eq!(
        plan.execute(1, &accumulate, &priority).unwrap_err(),
        ExactCompositionError::MissingLeafStream(0)
    );
    let stream = || vec![Some(infallible_exact_rrf_stream(ids([3, 1])))];
    let actual = plan
        .execute_with_leaf_streams(2, stream(), &describe, &accumulate, &priority)
        .unwrap();
    let exhaustive =
        plan.exhaustive_with_leaf_streams(2, stream(), &describe, &accumulate).unwrap();

    assert_eq!(actual.point_ids, ids([3, 1]));
    assert_eq!(actual.point_ids, exhaustive.point_ids);
}

#[test]
fn external_leaf_rejects_duplicate_identities_in_both_executors() {
    let plan = ExactCompositionPlan::new(vec![ExactCompositionNode::ExternalLeaf], 0).unwrap();
    let stream = || scripted(vec![Ok(id(3)), Ok(id(3))]);

    let lazy_error = plan
        .execute_with_fallible_leaf_streams(2, vec![stream()], &accumulate, &priority)
        .unwrap_err();
    let exhaustive_error = plan
        .exhaustive_with_fallible_leaf_streams(2, vec![stream()], &accumulate)
        .unwrap_err();

    assert_eq!(
        lazy_error,
        ExactCompositionError::DuplicateLeafIdentity { node: 0, identity: id(3) }
    );
    assert_eq!(exhaustive_error, lazy_error);
}
