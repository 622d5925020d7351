use exact_rank_fusion::operation_error::{Fault, OperationError, OperationResult};
use exact_rank_fusion::order::{score_bits, score_key, ExtendedPointId};
use exact_rank_fusion::reciprocal_rank_fusion::executor::{
    execute_dynamic_rrf, execute_dynamic_rrf_batches_with_policy, execute_dynamic_rrf_with_policy,
};
use exact_rank_fusion::reciprocal_rank_fusion::responses::{
    exact_rrf_scoring, rrf_scoring, ScoredPoint,
};
use exact_rank_fusion::reciprocal_rank_fusion::session::DynamicRrfSession;
use exact_rank_fusion::reciprocal_rank_fusion::state::DynamicRrfState;
use exact_rank_fusion::reciprocal_rank_fusion::types::{
    infallible_exact_rrf_stream, ChannelRankBatch, DynamicRrfAdvance, DynamicRrfPolicy,
    DynamicRrfScheduler, DynamicRrfStopReason, ExactRrfStream, IdStream,
};
use exact_rank_fusion::reciprocal_rank_fusion::DEFAULT_RRF_K;

type Session = DynamicRrfSession<IdStream, IdStream>;

fn key(value: f64) -> i64 {
    score_key(value.to_bits())
}

fn number(key: i64) -> f64 {
    f64::from_bits(score_bits(key))
}

fn keys(values: &[f32]) -> Vec<i64> {
    values.iter().map(|value| key(f64::from(*value))).collect()
}

fn position_score(position: usize, k: usize, weight: f32) -> f32 {
    if weight <= 0.0 {
        return 0.0;
    }
    1.0 / ((position + 1) as f32 / weight + k as f32 - 1.0)
}

fn accumulate(sum: i64, position: usize, rrf_k: usize, weight: i64) -> i64 {
    let contribution = position_score(position, rrf_k, number(weight) as f32);
    key(f64::from(number(sum) as f32 + contribution))
}

fn priority(position: usize, rrf_k: usize, weight: i64, live: usize, cost: i64) -> i64 {
    let weight = number(weight) as f32;
    let bound = position_score(position, rrf_k, weight);
    let next = position_score(position.saturating_add(1), rrf_k, weight);
    let reduction = f64::from((bound - next).max(0.0));
    key(reduction * live.max(1) as f64 / number(cost))
}

fn id(value: u64) -> ExtendedPointId {
    ExtendedPointId::NumId(value)
}

fn ids(values: impl IntoIterator<Item = u64>) -> Vec<ExtendedPointId> {
    values.into_iter().map(id).collect()
}

fn make_scored_point(value: u64, score: f32) -> ScoredPoint {
    ScoredPoint { id: id(value), version: 0, score: key(f64::from(score)), attached: None }
}

fn streams(sources: &[Vec<ExtendedPointId>]) -> Vec<IdStream> {
    sources.iter().map(|source| infallible_exact_rrf_stream(source.clone())).collect()
}

fn exhaustive_top_k(
    sources: &[Vec<ExtendedPointId>],
    top_k: usize,
    rrf_k: usize,
    weights: Option<&Vec<i64>>,
) -> Vec<ExtendedPointId> {
    let responses = sources
        .iter()
        .map(|source| {
            source
                .iter()
                .map(|id| ScoredPoint { id: *id, version: 0, score: 0, attached: None })
                .collect()
        })
        .collect();
    exact_rrf_scoring(responses, rrf_k, weights, &accumulate)
        .unwrap()
        .into_iter()
        .take(top_k)
        .map(|point| point.id)
        .collect()
}

fn run_dynamic(
    sources: &[Vec<ExtendedPointId>],
    top_k: usize,
    rrf_k: usize,
    weights: Option<&Vec<i64>>,
) -> (Vec<ExtendedPointId>, Vec<usize>) {
    let mut state = DynamicRrfState::new(sources.len(), top_k, rrf_k, weights).unwrap();
    let mut observed = vec![0; sources.len()];
    loop {
        for (source, points) in sources.iter().enumerate() {
            if observed[source] == points.len() && state.source_exhausted(source) == Some(false) {
                state.finish_source(source).unwrap();
            }
        }
        if let Some(fixed) = state.fixed_top_k(&accumulate) {
            return (fixed, observed);
        }
        let source = (0..sources.len())
            .filter(|source| state.source_exhausted(*source) == Some(false))
            .max_by(|left, right| {
                let left_bound = state.next_possible_contribution(*left, &accumulate).unwrap();
                let right_bound = state.next_possible_contribution(*right, &accumulate).unwrap();
                left_bound.cmp(&right_bound).then_with(|| right.cmp(left))
            })
            .expect("unfinished fusion must have a source to advance");
        state.observe(source, sources[source][observed[source]]).unwrap();
        observed[source] += 1;
    }
}

struct Numbers {
    state: u64,
}

impl Numbers {
    fn next(&mut self, below: u64) -> u64 {
        self.state = self
            .state
            .wrapping_mul(6_364_136_223_846_793_005)
            .wrapping_add(1_442_695_040_888_963_407);
        (self.state >> 33) % below
    }
}

fn random_rankings(
    numbers: &mut Numbers,
    allow_missing_points: bool,
) -> (Vec<Vec<ExtendedPointId>>, Vec<i64>, usize, usize) {
    let point_count = 1 + numbers.next(47);
    let source_count = 1 + numbers.next(4);
    let mut sources = Vec::new();
    let mut weights = Vec::new();
    for _ in 0..source_count {
        let mut listed: Vec<(u64, u64)> = Vec::new();
        for point in 0..point_count {
            let place = numbers.next(65_536);
            if !allow_missing_points || numbers.next(2) == 0 {
                listed.push((place, point));
            }
        }
        listed.sort_unstable();
        sources.push(ids(listed.into_iter().map(|(_, point)| point)));
        weights.push(key([0.0, 0.5, 1.0, 2.0, 4.0][numbers.next(5) as usize]));
    }
    let top_k = 1 + numbers.next(point_count) as usize;
    let rrf_k = 1 + numbers.next(100) as usize;
    (sources, weights, top_k, rrf_k)
}

struct Scripted {
    items: Vec<OperationResult<ExtendedPointId>>,
}

impl ExactRrfStream for Scripted {
    fn next(&mut self) -> OperationResult<Option<ExtendedPointId>> {
        if self.items.is_empty() {
            return Ok(None);
        }
        self.items.remove(0).map(Some)
    }
}

#[test]
fn batch_observation_is_atomic_and_rejects_invalid_envelopes() {
    let mut state = DynamicRrfState::new(1, 1, 60, None).unwrap();
    let invalid =
        ChannelRankBatch { start_rank: 0, point_ids: ids([1, 1]), exhausted: false };
    assert!(state.observe_batch(0, &invalid).is_err());

    let valid = ChannelRankBatch { start_rank: 0, point_ids: ids([1, 2]), exhausted: true };
    state.observe_batch(0, &valid).unwrap();
    assert_eq!(state.next_positions(), vec![2]);
    assert!(state.all_sources_exhausted());
    assert_eq!(state.complete_order(&accumulate), ids([1, 2]));
}

#[test]
fn batch_faults_are_told_apart() {
    let mut state = DynamicRrfState::new(1, 1, 60, None).unwrap();
    state.observe(0, id(7)).unwrap();
    let batch = |start_rank: usize, point_ids: Vec<ExtendedPointId>, exhausted: bool| {
        ChannelRankBatch { start_rank, point_ids, exhausted }
    };
    assert_eq!(
        state.observe_batch(3, &batch(0, ids([1]), false)),
        Err(OperationError::ValidationError(Fault::SourceOutOfRange { source: 3 }))
    );
    assert_eq!(
        state.observe_batch(0, &batch(0, ids([1]), false)),
        Err(OperationError::ValidationError(Fault::BatchStart {
            source: 0,
            start_rank: 0,
            expected: 1
        }))
    );
    assert_eq!(
        state.observe_batch(0, &batch(1, ids([]), false)),
        Err(OperationError::ValidationError(Fault::EmptyBatch { source: 0 }))
    );
    assert_eq!(
        state.observe_batch(0, &batch(1, ids([4, 4]), false)),
        Err(OperationError::ValidationError(Fault::DuplicateInBatch { source: 0, id: id(4) }))
    );
    assert_eq!(
        state.observe_batch(0, &batch(1, ids([4, 7]), false)),
        Err(OperationError::ValidationError(Fault::DuplicateInSource { source: 0, id: id(7) }))
    );
    assert_eq!(state.next_positions(), vec![1]);
    state.observe_batch(0, &batch(1, ids([]), true)).unwrap();
    assert_eq!(
        state.observe(0, id(9)),
        Err(OperationError::ValidationError(Fault::SourceExhausted { source: 0 }))
    );
}

#[test]
fn batch_partition_does_not_change_exact_wrrf_order() {
    let sources = vec![ids(0..47), ids((0..47).rev())];
    let weights = keys(&[0.7, 1.3]);
    let expected = exhaustive_top_k(&sources, 20, 60, Some(&weights));

    for batch_size in [1, 2, 7, 16, 20, 32, 64, 127] {
        let execution = execute_dynamic_rrf_batches_with_policy(
            streams(&sources),
            batch_size,
            20,
            60,
            Some(&weights),
            DynamicRrfPolicy {
                scheduler: DynamicRrfScheduler::MaxNextContribution,
                ..DynamicRrfPolicy::default()
            },
            &accumulate,
            &priority,
        )
        .unwrap();
        assert_eq!(execution.point_ids, expected, "batch size {batch_size}");
    }
}

#[test]
fn test_rrf_scoring_empty() {
    let scored_points = rrf_scoring(vec![], DEFAULT_RRF_K, None, &accumulate).unwrap();
    assert_eq!(scored_points.len(), 0);
}

#[test]
fn test_rrf_scoring_one() {
    let responses = vec![vec![make_scored_point(1, 0.9)]];
    let scored_points = rrf_scoring(responses, DEFAULT_RRF_K, None, &accumulate).unwrap();
    assert_eq!(scored_points.len(), 1);
    assert_eq!(scored_points[0].id, id(1));
    assert_eq!(number(scored_points[0].score), 0.5);
}

#[test]
fn test_rrf_scoring() {
    let responses = vec![
        vec![make_scored_point(2, 0.9), make_scored_point(1, 0.8)],
        vec![make_scored_point(1, 0.7), make_scored_point(2, 0.6), make_scored_point(3, 0.5)],
        vec![make_scored_point(5, 0.9), make_scored_point(3, 0.5), make_scored_point(1, 0.4)],
    ];

    let scored_points = rrf_scoring(responses, DEFAULT_RRF_K, None, &accumulate).unwrap();
    assert_eq!(scored_points.len(), 4);
    assert!(scored_points.windows(2).all(|pair| pair[0].score >= pair[1].score));

    assert_eq!(scored_points[0].id, id(1));
    assert_eq!(number(scored_points[0].score) as f32, 1.0833334_f32);

    assert_eq!(scored_points[1].id, id(2));
    assert_eq!(number(scored_points[1].score) as f32, 0.8333334_f32);

    assert_eq!(scored_points[2].id, id(3));
    assert_eq!(number(scored_points[2].score) as f32, 0.5833334_f32);

    assert_eq!(scored_points[3].id, id(5));
    assert_eq!(number(scored_points[3].score) as f32, 0.5_f32);
}

#[test]
fn test_rrf_scoring_weighted() {
    let responses = vec![
        vec![make_scored_point(1, 0.9), make_scored_point(2, 0.8)],
        vec![make_scored_point(2, 0.9), make_scored_point(1, 0.8)],
    ];

    let scored_points = rrf_scoring(responses.clone(), DEFAULT_RRF_K, None, &accumulate).unwrap();
    assert_eq!(scored_points[0].score, scored_points[1].score);

    let weights = keys(&[3.0, 1.0]);
    let scored_points =
        rrf_scoring(responses, DEFAULT_RRF_K, Some(&weights), &accumulate).unwrap();
    assert!(scored_points[0].id == id(2));
    assert!(scored_points[0].score > scored_points[1].score);
}

#[test]
fn test_rrf_scoring_weighted_ratio() {
    let k = 60;
    let responses = vec![
        (11..19).map(|value| make_scored_point(value, 0.0)).collect::<Vec<_>>(),
        (21..29).map(|value| make_scored_point(value, 0.0)).collect::<Vec<_>>(),
    ];

    let weights = keys(&[3.0, 1.0]);
    let scored_points = rrf_scoring(responses, k, Some(&weights), &accumulate).unwrap();

    let top_10 = &scored_points[..10];
    let count_source_1 =
        top_10.iter().filter(|point| id(10) <= point.id && point.id < id(20)).count();
    let count_source_2 =
        top_10.iter().filter(|point| id(20) <= point.id && point.id < id(30)).count();
    assert!(count_source_1 >= 2 * count_source_2);
}

#[test]
fn test_rrf_scoring_weights_length_mismatch() {
    let responses = vec![vec![make_scored_point(1, 0.9)], vec![make_scored_point(2, 0.9)]];

    let weights = keys(&[1.0, 2.0, 3.0]);
    let result = rrf_scoring(responses.clone(), DEFAULT_RRF_K, Some(&weights), &accumulate);
    assert!(result.is_err());

    let weights = keys(&[1.0]);
    let result = rrf_scoring(responses, DEFAULT_RRF_K, Some(&weights), &accumulate);
    assert_eq!(
        result.err(),
        Some(OperationError::ValidationError(Fault::ResponseWeightCount { got: 1, expected: 2 }))
    );
}

#[test]
fn test_rrf_scoring_zero_weight() {
    let responses = vec![vec![make_scored_point(1, 0.9)], vec![make_scored_point(2, 0.9)]];

    let weights = keys(&[1.0, 0.0]);
    let scored_points =
        rrf_scoring(responses, DEFAULT_RRF_K, Some(&weights), &accumulate).unwrap();

    let first = scored_points.iter().find(|point| point.id == id(1)).unwrap();
    let second = scored_points.iter().find(|point| point.id == id(2)).unwrap();
    assert_eq!(number(first.score), 0.5);
    assert_eq!(number(second.score), 0.0);
}

#[test]
fn incoming_scores_do_not_change_fused_scores() {
    let fused = |scores: [f32; 4]| {
        rrf_scoring(
            vec![
                vec![make_scored_point(1, scores[0]), make_scored_point(2, scores[1])],
                vec![make_scored_point(2, scores[2]), make_scored_point(3, scores[3])],
            ],
            DEFAULT_RRF_K,
            None,
            &accumulate,
        )
        .unwrap()
    };
    assert_eq!(fused([0.9, 0.8, 0.7, 0.6]), fused([-5.0, 3.0, 3.0, 100.0]));
}

#[test]
fn exact_rrf_identity_breaks_score_ties() {
    let responses = vec![vec![make_scored_point(2, 0.0)], vec![make_scored_point(1, 0.0)]];

    let scored_points = exact_rrf_scoring(responses, DEFAULT_RRF_K, None, &accumulate).unwrap();

    assert_eq!(scored_points[0].id, id(1));
    assert_eq!(scored_points[1].id, id(2));
}

#[test]
fn exact_rrf_excludes_zero_score_identities() {
    let responses = vec![vec![make_scored_point(1, 0.0)], vec![make_scored_point(2, 0.0)]];

    let weights = keys(&[1.0, 0.0]);
    let scored_points =
        exact_rrf_scoring(responses, DEFAULT_RRF_K, Some(&weights), &accumulate).unwrap();

    assert_eq!(scored_points.len(), 1);
    assert_eq!(scored_points[0].id, id(1));
}

#[test]
fn numbers_stand_in_front_of_uuids_among_equal_scores() {
    let uuid = ExtendedPointId::Uuid(0);
    let responses = vec![
        vec![ScoredPoint { id: uuid, version: 0, score: 0, attached: None }],
        vec![make_scored_point(u64::MAX, 0.0)],
    ];
    let scored_points = exact_rrf_scoring(responses, DEFAULT_RRF_K, None, &accumulate).unwrap();
    assert_eq!(scored_points[0].id, id(u64::MAX));
    assert_eq!(scored_points[1].id, uuid);
}

#[test]
fn test_dynamic_rrf_stops_early_for_identical_sources() {
    let sources = vec![ids(0..100), ids(0..100)];

    let expected = exhaustive_top_k(&sources, 3, DEFAULT_RRF_K, None);
    let (actual, observed) = run_dynamic(&sources, 3, DEFAULT_RRF_K, None);

    assert_eq!(actual, expected);
    assert_eq!(observed, vec![3, 3]);
}

#[test]
fn executor_stops_early_for_identical_sources() {
    let source = ids(0..100);
    let sources = streams(&[source.clone(), source.clone()]);

    let execution =
        execute_dynamic_rrf(sources, 3, DEFAULT_RRF_K, None, &accumulate, &priority).unwrap();

    assert_eq!(execution.point_ids, source[..3]);
    assert_eq!(execution.source_pulls, vec![3, 3]);
    assert_eq!(execution.source_exhausted, vec![false, false]);
    assert_eq!(execution.stop_reason, DynamicRrfStopReason::TopKFixed);
}

#[test]
fn pause_target_does_not_turn_an_incomplete_prefix_into_exact_eof() {
    let sources = streams(&[ids([1]), ids([2, 3, 4])]);
    let mut session =
        Session::new(sources, 10, DEFAULT_RRF_K, None, DynamicRrfPolicy::default()).unwrap();

    let advance =
        session.advance_until_each(&vec![Some(1), Some(3)], &accumulate, &priority).unwrap();

    assert!(matches!(advance, DynamicRrfAdvance::Paused));
    assert_eq!(session.source_pulls(), &[1, 3]);
    assert_eq!(session.source_is_exhausted(0), Some(false));
    assert_eq!(session.source_is_exhausted(1), Some(false));
}

#[test]
fn recoverable_session_extends_an_exact_prefix_without_restarting_sources() {
    let sources = [ids(0..100), ids((0..100).rev())];
    let expected = exhaustive_top_k(&sources, 12, DEFAULT_RRF_K, None);
    let mut session =
        Session::new(streams(&sources), 1, DEFAULT_RRF_K, None, DynamicRrfPolicy::default())
            .unwrap();
    let mut previous_pulls = vec![0; 2];

    for prefix in 1..=12 {
        let execution = session.run_to_prefix(prefix, &accumulate, &priority).unwrap();
        assert_eq!(execution.point_ids, expected[..prefix]);
        assert!(execution
            .source_pulls
            .iter()
            .zip(&previous_pulls)
            .all(|(current, previous)| current >= previous));
        previous_pulls = execution.source_pulls;
    }
    assert_eq!(
        session.run_to_prefix(11, &accumulate, &priority).err(),
        Some(OperationError::ValidationError(Fault::PrefixDecrease { from: 12, to: 11 }))
    );
}

#[test]
fn exhausted_session_reuses_one_complete_order_for_later_prefixes() {
    let sources = [ids([1]), ids([1])];
    let expected = exhaustive_top_k(&sources, 3, DEFAULT_RRF_K, None);
    let mut session =
        Session::new(streams(&sources), 1, DEFAULT_RRF_K, None, DynamicRrfPolicy::default())
            .unwrap();

    let first = session.run_to_prefix(2, &accumulate, &priority).unwrap();
    assert_eq!(first.stop_reason, DynamicRrfStopReason::AllSourcesExhausted);
    let extended = session.run_to_prefix(3, &accumulate, &priority).unwrap();

    assert_eq!(extended.point_ids, expected);
    assert_eq!(extended.source_pulls, first.source_pulls);
    assert_eq!(extended.certification_checks, first.certification_checks);
}

#[test]
fn resumable_session_replays_prefix_before_replacing_streams() {
    let sources = [ids(0..100), ids(0..100)];
    let expected = exhaustive_top_k(&sources, 5, DEFAULT_RRF_K, None);
    let mut session =
        Session::new(streams(&sources), 5, DEFAULT_RRF_K, None, DynamicRrfPolicy::default())
            .unwrap();

    let progress =
        session.advance_until_each(&vec![Some(2), Some(2)], &accumulate, &priority).unwrap();

    assert_eq!(progress, DynamicRrfAdvance::Paused);
    assert_eq!(session.source_pulls(), &[2, 2]);
    session.replace_source(0, infallible_exact_rrf_stream(ids(0..100))).unwrap();
    session.replace_source(1, infallible_exact_rrf_stream(ids(0..100))).unwrap();
    assert_eq!(session.run_to_completion(&accumulate, &priority).unwrap().point_ids, expected);
}

#[test]
fn resumable_session_rejects_replacement_prefix_mismatch() {
    let mut session =
        Session::new(streams(&[ids(0..100)]), 5, DEFAULT_RRF_K, None, DynamicRrfPolicy::default())
            .unwrap();
    assert_eq!(
        session.advance_until_each(&vec![Some(2)], &accumulate, &priority).unwrap(),
        DynamicRrfAdvance::Paused
    );

    let error = session
        .replace_source(0, infallible_exact_rrf_stream(ids([0, 999, 2, 3, 4])))
        .unwrap_err();

    assert_eq!(
        error,
        OperationError::ValidationError(Fault::ReplacementDisagrees {
            source: 0,
            rank: 1,
            observed: id(1),
            replacement: id(999),
        })
    );
    assert_eq!(
        session.replace_source(0, infallible_exact_rrf_stream(ids([0]))).unwrap_err(),
        OperationError::ValidationError(Fault::ReplacementEnded { source: 0, rank: 1 })
    );
    assert_eq!(
        session.replace_source(4, infallible_exact_rrf_stream(ids([0]))).unwrap_err(),
        OperationError::ValidationError(Fault::ReplacementOutOfRange { source: 4 })
    );
}

#[test]
fn producer_failure_is_not_treated_as_exact_exhaustion() {
    let source = Scripted { items: vec![Ok(id(1)), Err(OperationError::Cancelled)] };
    let mut session = DynamicRrfSession::<Scripted, IdStream>::new(
        vec![source],
        2,
        DEFAULT_RRF_K,
        None,
        DynamicRrfPolicy::default(),
    )
    .unwrap();

    let error = session.run_to_completion(&accumulate, &priority).unwrap_err();

    assert!(matches!(error, OperationError::Cancelled { .. }));
    assert_eq!(session.source_pulls(), &[1]);
    assert_eq!(session.source_is_exhausted(0), Some(false));
}

#[test]
fn competitor_scheduler_prefers_equal_progress_at_lower_cost() {
    let source = ids(0..100);
    let mut session = Session::new_with_source_costs(
        streams(&[source.clone(), source.clone()]),
        3,
        DEFAULT_RRF_K,
        None,
        &vec![key(100.0), key(1.0)],
        DynamicRrfPolicy::default(),
    )
    .unwrap();

    let execution = session.run_to_completion(&accumulate, &priority).unwrap();

    assert_eq!(execution.point_ids, source[..3]);
    assert_eq!(session.source_schedule().first(), Some(&1));
}

#[test]
fn source_costs_are_validated_at_the_exact_boundary() {
    let refused = |costs: Vec<i64>| {
        Session::new_with_source_costs(
            streams(&[ids([1])]),
            1,
            DEFAULT_RRF_K,
            None,
            &costs,
            DynamicRrfPolicy::default(),
        )
        .err()
    };
    assert_eq!(
        refused(vec![]),
        Some(OperationError::ValidationError(Fault::CostCount { got: 0, expected: 1 }))
    );
    assert_eq!(refused(vec![key(0.0)]), Some(OperationError::ValidationError(Fault::InvalidCost)));
    assert_eq!(
        refused(vec![key(f64::INFINITY)]),
        Some(OperationError::ValidationError(Fault::InvalidCost))
    );
    assert!(refused(vec![key(f64::MIN_POSITIVE)]).is_none());
}

#[test]
fn executor_fuses_exact_rank_streams_exactly() {
    let sources = vec![ids(0..64), ids((0..64).rev())];
    let expected = exhaustive_top_k(&sources, 7, DEFAULT_RRF_K, None);

    let actual =
        execute_dynamic_rrf(streams(&sources), 7, DEFAULT_RRF_K, None, &accumulate, &priority)
            .unwrap();

    assert_eq!(actual.point_ids, expected);
    assert_eq!(
        actual.source_pulls.iter().sum::<usize>(),
        sources.iter().map(Vec::len).sum::<usize>()
    );
}

#[test]
fn test_dynamic_rrf_handles_opposite_sources() {
    let sources = vec![ids(0..20), ids((0..20).rev())];

    let expected = exhaustive_top_k(&sources, 5, DEFAULT_RRF_K, None);
    let (actual, _) = run_dynamic(&sources, 5, DEFAULT_RRF_K, None);

    assert_eq!(actual, expected);
}

#[test]
fn test_dynamic_rrf_zero_weights_produce_no_positive_fusion_result() {
    let sources = vec![ids([3, 2, 1]), ids([2, 3, 1])];
    let weights = keys(&[0.0, 0.0]);

    let expected = exhaustive_top_k(&sources, 3, DEFAULT_RRF_K, Some(&weights));
    let (actual, observed) = run_dynamic(&sources, 3, DEFAULT_RRF_K, Some(&weights));

    assert_eq!(actual, expected);
    assert!(actual.is_empty());
    assert_eq!(observed, vec![3, 3]);
}

#[test]
fn test_dynamic_rrf_rejects_duplicate_point_in_source() {
    let mut state = DynamicRrfState::new(1, 1, DEFAULT_RRF_K, None).unwrap();
    state.observe(0, id(1)).unwrap();

    let duplicate = state.observe(0, id(1));

    assert!(duplicate.is_err());
}

#[test]
fn a_fusion_without_sources_or_with_bad_parameters_is_refused() {
    let refused = |count: usize, rrf_k: usize, weights: Option<Vec<i64>>| {
        DynamicRrfState::new(count, 1, rrf_k, weights.as_ref()).err()
    };
    assert_eq!(refused(0, 2, None), Some(OperationError::ValidationError(Fault::NoSources)));
    assert_eq!(
        refused(1, 0, None),
        Some(OperationError::ValidationError(Fault::ZeroRankConstant))
    );
    assert_eq!(
        refused(1, 2, Some(keys(&[1.0, 1.0]))),
        Some(OperationError::ValidationError(Fault::WeightCount { got: 2, expected: 1 }))
    );
    assert_eq!(
        refused(1, 2, Some(keys(&[-1.0]))),
        Some(OperationError::ValidationError(Fault::InvalidWeight))
    );
    assert!(refused(1, 2, Some(keys(&[0.0]))).is_none());
    let policy = DynamicRrfPolicy {
        fairness_after_actions_per_source: Some(0),
        ..DynamicRrfPolicy::default()
    };
    assert_eq!(
        execute_dynamic_rrf_with_policy(
            streams(&[ids([1])]),
            1,
            2,
            None,
            policy,
            &accumulate,
            &priority
        )
        .err(),
        Some(OperationError::ValidationError(Fault::ZeroFairnessInterval))
    );
}

#[test]
fn dynamic_rrf_matches_exhaustive_rrf() {
    let mut numbers = Numbers { state: 1 };
    for _ in 0..1_000 {
        let (sources, weights, top_k, rrf_k) = random_rankings(&mut numbers, false);
        let expected = exhaustive_top_k(&sources, top_k, rrf_k, Some(&weights));
        let (actual, _) = run_dynamic(&sources, top_k, rrf_k, Some(&weights));
        assert_eq!(actual, expected);
    }
}

#[test]
fn dynamic_rrf_matches_exhaustive_rrf_with_partial_sources() {
    let mut numbers = Numbers { state: 2 };
    for _ in 0..1_000 {
        let (sources, weights, top_k, rrf_k) = random_rankings(&mut numbers, true);
        let expected = exhaustive_top_k(&sources, top_k, rrf_k, Some(&weights));
        let (actual, _) = run_dynamic(&sources, top_k, rrf_k, Some(&weights));
        assert_eq!(actual, expected);
    }
}

#[test]
fn batched_dynamic_rrf_executor_matches_exhaustive_rrf() {
    let mut numbers = Numbers { state: 3 };
    for _ in 0..1_000 {
        let (sources, weights, top_k, rrf_k) = random_rankings(&mut numbers, true);
        let expected = exhaustive_top_k(&sources, top_k, rrf_k, Some(&weights));
        let actual = execute_dynamic_rrf(
            streams(&sources),
            top_k,
            rrf_k,
            Some(&weights),
            &accumulate,
            &priority,
        )
        .unwrap();
        assert_eq!(actual.point_ids, expected);
    }
}

#[test]
fn cost_aware_dynamic_rrf_matches_exhaustive_for_varied_costs() {
    let mut numbers = Numbers { state: 4 };
    for _ in 0..1_000 {
        let (sources, weights, top_k, rrf_k) = random_rankings(&mut numbers, true);
        let expected = exhaustive_top_k(&sources, top_k, rrf_k, Some(&weights));
        let costs: Vec<i64> = (0..sources.len())
            .map(|source| key(1.0 + ((source * 7_919 + top_k * 97 + rrf_k * 53) % 999) as f64))
            .collect();
        let actual = Session::new_with_source_costs(
            streams(&sources),
            top_k,
            rrf_k,
            Some(&weights),
            &costs,
            DynamicRrfPolicy::default(),
        )
        .unwrap()
        .run_to_completion(&accumulate, &priority)
        .unwrap();
        assert_eq!(actual.point_ids, expected);
    }
}

struct FailingAfter {
    ids: Vec<ExtendedPointId>,
    position: usize,
    error: OperationError,
}

impl ExactRrfStream for FailingAfter {
    fn next(&mut self) -> OperationResult<Option<ExtendedPointId>> {
        match self.ids.get(self.position) {
            Some(id) => {
                self.position += 1;
                Ok(Some(*id))
            }
            None => Err(self.error.clone()),
        }
    }
}

#[test]
fn the_failure_of_a_source_is_returned_unless_the_prefix_is_fixed_before() {
    let sources = || {
        vec![
            FailingAfter { ids: ids([7]), position: 0, error: OperationError::Cancelled },
            FailingAfter { ids: ids([7]), position: 0, error: OperationError::Cancelled },
        ]
    };
    let fixed = execute_dynamic_rrf(sources(), 1, 60, None, &accumulate, &priority).unwrap();
    assert_eq!(fixed.point_ids, ids([7]));
    assert_eq!(
        execute_dynamic_rrf(sources(), 2, 60, None, &accumulate, &priority).unwrap_err(),
        OperationError::Cancelled
    );
}

#[test]
fn a_fused_point_keeps_what_was_attached_to_it_first() {
    let point = |value: u64, attached: u64| ScoredPoint {
        id: id(value),
        version: attached,
        score: 0,
        attached: Some(attached),
    };
    let responses = vec![vec![point(1, 10), point(2, 20)], vec![point(2, 21), point(3, 30)]];

    let fused = exact_rrf_scoring(responses, DEFAULT_RRF_K, None, &accumulate).unwrap();
    let kept: Vec<_> = fused.iter().map(|point| (point.id, point.attached)).collect();
    assert_eq!(kept, vec![(id(2), Some(20)), (id(1), Some(10)), (id(3), Some(30))]);
}
