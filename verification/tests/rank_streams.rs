use exact_rank_fusion::exact_rank_stream::{
    ExactScoreBatch, ExactScoreBatchStream, ExactScoreStream, ExactScoredIdentity,
    KWayExactScoreStream, ScoreList,
};
use exact_rank_fusion::exact_score_stream;
use exact_rank_fusion::operation_error::{Fault, OperationError, OperationResult};
use exact_rank_fusion::order::{score_bits, score_key, ExtendedPointId};
use exact_rank_fusion::rank_stream::{ReplayBufferTracker, SharedRankStream};
use exact_rank_fusion::reciprocal_rank_fusion::responses::{exact_rrf_scoring, ScoredPoint};
use exact_rank_fusion::reciprocal_rank_fusion::types::{
    infallible_exact_rrf_stream, ChannelRankBatch, IdStream,
};
use exact_rank_fusion::reciprocal_rank_fusion::DEFAULT_RRF_K;
use exact_rank_fusion::shared_node::{
    execute_shared_dynamic_rrf, SharedAccessState, SharedChannelPlan, SharedNodeCatalog,
    SharedNodeError,
};

type Merge = KWayExactScoreStream<Scripted, ScoreList>;
type SimpleMerge = exact_score_stream::KWayExactScoreStream<Scripted>;

fn key(value: f64) -> i64 {
    score_key(value.to_bits())
}

fn number(key: i64) -> f64 {
    f64::from_bits(score_bits(key))
}

fn position_score(position: usize, k: usize, weight: f32) -> f32 {
    if weight <= 0.0 {
        return 0.0;
    }
    1.0 / ((position + 1) as f32 / weight + k as f32 - 1.0)
}

fn accumulate(sum: i64, position: usize, rrf_k: usize, weight: i64) -> i64 {
    let contribution = position_score(position, rrf_k, number(weight) as f32);
    key(f64::from(number(sum) as f32 + contribution))
}

fn priority(position: usize, rrf_k: usize, weight: i64, live: usize, cost: i64) -> i64 {
    let weight = number(weight) as f32;
    let bound = position_score(position, rrf_k, weight);
    let next = position_score(position.saturating_add(1), rrf_k, weight);
    let reduction = f64::from((bound - next).max(0.0));
    key(reduction * live.max(1) as f64 / number(cost))
}

fn id(value: u64) -> ExtendedPointId {
    ExtendedPointId::NumId(value)
}

fn ids(values: impl IntoIterator<Item = u64>) -> Vec<ExtendedPointId> {
    values.into_iter().map(id).collect()
}

fn point(value: u64, score: f32) -> ExactScoredIdentity {
    ExactScoredIdentity { id: id(value), score: key(f64::from(score)) }
}

struct Scripted {
    items: Vec<OperationResult<ExactScoredIdentity>>,
}

impl ExactScoreStream for Scripted {
    fn next(&mut self) -> OperationResult<Option<ExactScoredIdentity>> {
        if self.items.is_empty() {
            return Ok(None);
        }
        self.items.remove(0).map(Some)
    }
}

fn stream(points: Vec<ExactScoredIdentity>) -> Scripted {
    Scripted { items: points.into_iter().map(Ok).collect() }
}

fn failing() -> Scripted {
    Scripted { items: vec![Ok(point(1, 9.0)), Err(OperationError::Cancelled)] }
}

struct ScriptedBatches {
    batches: Vec<OperationResult<ExactScoreBatch>>,
}

impl ExactScoreBatchStream for ScriptedBatches {
    fn pull(&mut self, _max_results: usize) -> OperationResult<ExactScoreBatch> {
        self.batches.remove(0)
    }
}

fn batch_fault(batches: Vec<ExactScoreBatch>) -> OperationError {
    let source = ScriptedBatches { batches: batches.into_iter().map(Ok).collect() };
    let mut merged =
        match KWayExactScoreStream::<Scripted, ScriptedBatches>::new_batched(vec![source], 2) {
            Ok(merged) => merged,
            Err(error) => return error,
        };
    loop {
        match merged.next() {
            Some(Ok(_)) => {}
            Some(Err(error)) => return error,
            None => panic!("the merge ended without a fault"),
        }
    }
}

fn collected(mut merged: Merge) -> OperationResult<Vec<ExactScoredIdentity>> {
    std::iter::from_fn(|| merged.next()).collect()
}

fn two_sources() -> Vec<Scripted> {
    vec![
        stream(vec![point(2, 9.0), point(3, 7.0)]),
        stream(vec![point(1, 9.0), point(4, 8.0)]),
    ]
}

#[test]
fn exact_rank_stream_merges_local_exact_orders_into_one_global_channel_order() {
    let merged = collected(Merge::new(two_sources()).unwrap()).unwrap();

    assert_eq!(merged.iter().map(|point| point.id).collect::<Vec<_>>(), ids([1, 2, 4, 3]));
}

#[test]
fn emits_contiguous_channel_rank_batches_and_explicit_eof() {
    let mut merged = Merge::new(two_sources()).unwrap();

    assert_eq!(
        merged.next_rank_batch(3).unwrap(),
        ChannelRankBatch { start_rank: 0, point_ids: ids([1, 2, 4]), exhausted: false }
    );
    assert_eq!(
        merged.next_rank_batch(3).unwrap(),
        ChannelRankBatch { start_rank: 3, point_ids: ids([3]), exhausted: true }
    );
    assert!(merged.next_rank_batch(0).is_err());
}

#[test]
fn batched_sources_preserve_global_score_order() {
    let mut merged = Merge::new_batched(
        vec![
            ScoreList::new(vec![point(2, 9.0), point(3, 7.0)]),
            ScoreList::new(vec![point(1, 9.0), point(4, 8.0)]),
        ],
        2,
    )
    .unwrap();

    assert_eq!(
        merged.next_rank_batch(8).unwrap(),
        ChannelRankBatch { start_rank: 0, point_ids: ids([1, 2, 4, 3]), exhausted: true }
    );
    let telemetry = merged.telemetry();
    assert_eq!(telemetry.points_emitted, 4);
    assert_eq!(telemetry.source_exhausted, vec![true, true]);
}

#[test]
fn batch_failure_is_sticky_and_commits_no_partial_reply() {
    let mut merged = Merge::new(vec![failing()]).unwrap();

    assert!(matches!(merged.next_rank_batch(8), Err(OperationError::Cancelled { .. })));
    assert!(matches!(merged.next_rank_batch(8), Err(OperationError::Cancelled { .. })));
}

#[test]
fn exact_rank_stream_source_failure_is_not_treated_as_global_eof() {
    let mut merged =
        Merge::new(vec![failing(), stream(vec![point(2, 8.0), point(3, 7.0)])]).unwrap();

    assert_eq!(merged.next().transpose().unwrap(), Some(point(1, 9.0)));
    assert!(matches!(merged.next(), Some(Err(OperationError::Cancelled { .. }))));
    assert_eq!(merged.next(), None);
}

#[test]
fn exact_rank_stream_duplicate_visible_identity_fails_closed() {
    let mut merged =
        Merge::new(vec![stream(vec![point(1, 9.0)]), stream(vec![point(1, 8.0)])]).unwrap();

    assert_eq!(merged.next().transpose().unwrap(), Some(point(1, 9.0)));
    assert!(merged.next().unwrap().is_err());
}

#[test]
fn an_identity_at_two_heads_is_emitted_once_and_then_refused() {
    let mut merged =
        Merge::new(vec![stream(vec![point(1, 9.0)]), stream(vec![point(1, 9.0)])]).unwrap();

    assert_eq!(merged.next(), Some(Ok(point(1, 9.0))));
    assert!(matches!(merged.next(), Some(Err(_))));
    assert_eq!(merged.next(), None);
    assert_eq!(merged.telemetry().source_pulls, vec![1, 1]);
}

#[test]
fn exact_rank_stream_local_order_violation_fails_closed() {
    let mut merged = Merge::new(vec![stream(vec![point(1, 8.0), point(2, 9.0)])]).unwrap();

    assert_eq!(merged.next().transpose().unwrap(), Some(point(1, 8.0)));
    assert!(merged.next().unwrap().is_err());
}

#[test]
fn faulty_score_batches_are_told_apart() {
    let batch = |points: Vec<ExactScoredIdentity>, exhausted: bool| ExactScoreBatch { points, exhausted };
    assert_eq!(
        batch_fault(vec![batch(vec![point(1, 3.0), point(2, 2.0), point(3, 1.0)], true)]),
        OperationError::ValidationError(Fault::ScoreBatchTooLarge { source: 0, len: 3, max: 2 })
    );
    assert_eq!(
        batch_fault(vec![batch(vec![], false)]),
        OperationError::ValidationError(Fault::EmptyScoreBatch { source: 0 })
    );
    assert!(matches!(
        batch_fault(vec![batch(vec![point(1, f32::NAN)], true)]),
        OperationError::ValidationError(Fault::NonFiniteSourceScore { .. })
    ));
    assert!(matches!(
        Merge::new_batched(vec![ScoreList::new(vec![])], 0).err(),
        Some(OperationError::ValidationError(Fault::ZeroRefillBatch))
    ));
    assert!(matches!(
        Merge::new(vec![]).err(),
        Some(OperationError::ValidationError(Fault::NoScoreSources))
    ));
}

#[test]
fn a_merge_can_be_read_as_ranks() {
    let mut ranks = Merge::new(two_sources()).unwrap().into_rank_stream();
    let mut listed = Vec::new();
    while let Some(next) = ranks.next_id().unwrap() {
        listed.push(next);
    }
    assert_eq!(listed, ids([1, 2, 4, 3]));
    let mut ranks = SimpleMerge::new(two_sources()).unwrap().into_rank_stream();
    let mut listed = Vec::new();
    while let Some(next) = ranks.next_id() {
        listed.push(next.unwrap());
    }
    assert_eq!(listed, ids([1, 2, 4, 3]));
}

#[test]
fn exact_score_stream_merges_local_exact_orders_into_one_global_channel_order() {
    let mut merged = SimpleMerge::new(two_sources()).unwrap();
    let listed: OperationResult<Vec<ExactScoredIdentity>> =
        std::iter::from_fn(|| merged.next()).collect();

    assert_eq!(
        listed.unwrap().iter().map(|point| point.id).collect::<Vec<_>>(),
        ids([1, 2, 4, 3])
    );
}

#[test]
fn exact_score_stream_source_failure_is_not_treated_as_global_eof() {
    let mut merged =
        SimpleMerge::new(vec![failing(), stream(vec![point(2, 8.0), point(3, 7.0)])]).unwrap();

    assert_eq!(merged.next().transpose().unwrap(), Some(point(1, 9.0)));
    assert!(matches!(merged.next(), Some(Err(OperationError::Cancelled { .. }))));
    assert_eq!(merged.next(), None);
}

#[test]
fn exact_score_stream_duplicate_visible_identity_fails_closed() {
    let mut merged =
        SimpleMerge::new(vec![stream(vec![point(1, 9.0)]), stream(vec![point(1, 8.0)])]).unwrap();

    assert_eq!(merged.next().transpose().unwrap(), Some(point(1, 9.0)));
    assert!(merged.next().unwrap().is_err());
}

#[test]
fn a_merge_counts_what_every_source_has_yielded() {
    let mut merged = SimpleMerge::new(two_sources()).unwrap();
    assert_eq!(merged.telemetry().source_pulls, vec![0, 0]);
    assert_eq!(merged.next(), Some(Ok(point(1, 9.0))));
    assert_eq!(merged.telemetry().source_pulls, vec![1, 1]);
    assert_eq!(merged.next(), Some(Ok(point(2, 9.0))));
    assert_eq!(merged.telemetry().source_pulls, vec![1, 2]);
    assert_eq!(merged.telemetry().source_exhausted, vec![false, false]);
    while merged.next().is_some() {}
    assert_eq!(merged.telemetry().source_pulls, vec![2, 2]);
    assert_eq!(merged.telemetry().source_exhausted, vec![true, true]);
}

#[test]
fn exact_score_stream_local_order_violation_fails_closed() {
    let mut merged = SimpleMerge::new(vec![stream(vec![point(1, 8.0), point(2, 9.0)])]).unwrap();

    assert_eq!(merged.next().transpose().unwrap(), Some(point(1, 8.0)));
    assert!(merged.next().unwrap().is_err());
}

fn shared(values: impl IntoIterator<Item = u64>) -> SharedRankStream<IdStream> {
    SharedRankStream::new(infallible_exact_rrf_stream(ids(values)))
}

#[test]
fn readers_share_physical_pulls_and_keep_independent_positions() {
    let mut shared = shared([1, 2, 3]);
    let first = shared.subscribe();
    let second = shared.subscribe();

    assert_eq!(shared.next(first), Ok(Some(id(1))));
    assert_eq!(shared.next(first), Ok(Some(id(2))));
    assert_eq!(shared.next(second), Ok(Some(id(1))));
    assert_eq!(shared.next(second), Ok(Some(id(2))));
    assert_eq!(shared.next(second), Ok(Some(id(3))));
    assert_eq!(shared.next(first), Ok(Some(id(3))));

    let telemetry = shared.telemetry();
    assert_eq!(telemetry.physical_pulls, 3);
    assert_eq!(telemetry.buffered_identities, 0);
    assert_eq!(telemetry.peak_buffered_identities, 2);
}

#[test]
fn readers_that_take_turns_get_the_same_order() {
    let mut shared = shared([4, 8, 6]);
    let readers = [shared.subscribe(), shared.subscribe(), shared.subscribe()];
    let mut given = vec![Vec::new(), Vec::new(), Vec::new()];
    for turn in [2, 0, 2, 2, 0, 1, 2] {
        if let Some(next) = shared.next(readers[turn]).unwrap() {
            given[turn].push(next);
        }
    }

    assert_eq!(given[0], ids([4, 8]));
    assert_eq!(given[1], ids([4]));
    assert_eq!(given[2], ids([4, 8, 6]));
    let telemetry = shared.telemetry();
    assert_eq!(telemetry.physical_pulls, 3);
    assert_eq!(telemetry.buffered_identities, 2);
    assert_eq!(telemetry.peak_buffered_identities, 3);

    shared.close(readers[1]);
    assert_eq!(shared.telemetry().buffered_identities, 1);
}

#[test]
fn dropping_the_last_reader_cancels_the_producer() {
    let mut shared = shared(0..100);
    let reader = shared.subscribe();
    assert_eq!(shared.next(reader), Ok(Some(id(0))));

    shared.close(reader);

    let telemetry = shared.telemetry();
    assert!(telemetry.cancelled);
    assert!(telemetry.exhausted);
    assert_eq!(telemetry.active_readers, 0);
}

#[test]
fn the_last_reader_to_leave_releases_the_producer() {
    let mut shared = shared(0..3);
    let first = shared.subscribe();
    let second = shared.subscribe();
    assert_eq!(shared.next(first), Ok(Some(id(0))));

    shared.close(first);
    assert!(shared.source().is_some());
    assert_eq!(shared.next(second), Ok(Some(id(0))));

    shared.close(second);
    assert!(shared.source().is_none());
}

type Score = Box<dyn Fn(usize, u32) -> Result<Option<i64>, SharedNodeError>>;

fn plan(catalog: &SharedNodeCatalog, scores: &[f64]) -> SharedChannelPlan<Score> {
    let node_upper_bounds = (0..catalog.node_count())
        .map(|node| {
            let (start, end) = catalog.node_range(node).unwrap();
            Some(key(scores[start..end].iter().copied().fold(f64::NEG_INFINITY, f64::max)))
        })
        .collect();
    let keys: Vec<i64> = scores.iter().map(|score| key(*score)).collect();
    SharedChannelPlan {
        node_upper_bounds,
        score: Box::new(move |ordinal, _| Ok(Some(keys[ordinal]))),
    }
}

fn exhaustive(scores: &[Vec<f64>], top_k: usize) -> Vec<ExtendedPointId> {
    let rankings = scores
        .iter()
        .map(|channel| {
            let mut ranking: Vec<(u64, i64)> = channel
                .iter()
                .enumerate()
                .map(|(point, score)| (point as u64, key(*score)))
                .collect();
            ranking.sort_unstable_by(|left, right| {
                right.1.cmp(&left.1).then_with(|| left.0.cmp(&right.0))
            });
            ranking
                .into_iter()
                .map(|(point, _)| ScoredPoint {
                    id: id(point),
                    version: 0,
                    score: 0,
                    attached: None,
                })
                .collect()
        })
        .collect();
    exact_rrf_scoring(rankings, DEFAULT_RRF_K, None, &accumulate)
        .unwrap()
        .into_iter()
        .take(top_k)
        .map(|point| point.id)
        .collect()
}

#[test]
fn n_channel_streams_match_exhaustive_rrf() {
    for channel_count in 1..=8 {
        let catalog = SharedNodeCatalog::build((0..97).collect(), 11).unwrap();
        let scores: Vec<Vec<f64>> = (0..channel_count)
            .map(|channel| {
                (0..catalog.document_count())
                    .map(|point| {
                        let mixed = point * (channel * 14 + 17) + channel * 31;
                        ((mixed % 101) as f64) + (point as f64 / 10_000.0)
                    })
                    .collect()
            })
            .collect();
        let plans = scores.iter().map(|channel| plan(&catalog, channel)).collect();

        let actual = execute_shared_dynamic_rrf(
            &catalog,
            plans,
            20,
            DEFAULT_RRF_K,
            None,
            &accumulate,
            &priority,
        )
        .unwrap();

        assert_eq!(actual.fusion.point_ids, exhaustive(&scores, 20));
    }
}

#[test]
fn physical_node_materialization_is_shared_across_channels() {
    let catalog = SharedNodeCatalog::build((0..32).collect(), 8).unwrap();
    let scores = [
        (0..32).map(f64::from).collect::<Vec<_>>(),
        (0..32).map(|point| f64::from(31 - point)).collect::<Vec<_>>(),
        (0..32).map(|point| f64::from((point * 7) % 32)).collect::<Vec<_>>(),
    ];
    let plans = scores.iter().map(|channel| plan(&catalog, channel)).collect();

    let execution = execute_shared_dynamic_rrf(
        &catalog,
        plans,
        32,
        DEFAULT_RRF_K,
        None,
        &accumulate,
        &priority,
    )
    .unwrap();

    assert_eq!(execution.physical.unique_node_materializations, 4);
    assert_eq!(execution.physical.node_open_requests, 12);
    assert_eq!(execution.physical.reused_node_materializations, 8);
    assert_eq!(execution.physical.unique_identity_materializations, 32);
}

fn refused_plans(plans: Vec<SharedChannelPlan<Score>>) -> Option<SharedNodeError> {
    let catalog = SharedNodeCatalog::build(vec![0, 1], 2).unwrap();
    execute_shared_dynamic_rrf(&catalog, plans, 1, DEFAULT_RRF_K, None, &accumulate, &priority)
        .err()
}

fn bounded(bounds: Vec<Option<i64>>, scores: Vec<f64>) -> Vec<SharedChannelPlan<Score>> {
    vec![SharedChannelPlan {
        node_upper_bounds: bounds,
        score: Box::new(move |ordinal, _| Ok(Some(key(scores[ordinal])))),
    }]
}

#[test]
fn rejects_a_non_admissible_node_value() {
    assert!(matches!(
        refused_plans(bounded(vec![Some(key(1.5))], vec![2.0, 1.0])),
        Some(SharedNodeError::BoundViolation { .. })
    ));
}

#[test]
fn shared_nodes_name_each_fault() {
    assert!(matches!(
        SharedNodeCatalog::build(vec![], 1).err(),
        Some(SharedNodeError::EmptyIdentityUniverse)
    ));
    assert!(matches!(
        SharedNodeCatalog::build(vec![1], 0).err(),
        Some(SharedNodeError::ZeroBlockSize)
    ));
    assert!(matches!(
        SharedNodeCatalog::build(vec![1, 2, 1], 1).err(),
        Some(SharedNodeError::DuplicateIdentity(1))
    ));
    assert!(matches!(refused_plans(vec![]), Some(SharedNodeError::EmptyChannels)));
    assert!(matches!(
        refused_plans(bounded(vec![], vec![1.0, 2.0])),
        Some(SharedNodeError::BoundCountMismatch { expected: 1, actual: 0 })
    ));
    assert!(matches!(
        refused_plans(bounded(vec![Some(key(f64::NAN))], vec![1.0, 2.0])),
        Some(SharedNodeError::InvalidBound { node: 0 })
    ));
    assert!(matches!(
        refused_plans(bounded(vec![Some(key(9.0))], vec![1.0, f64::INFINITY])),
        Some(SharedNodeError::InvalidScore { point: 1 })
    ));
}

#[test]
fn only_a_block_that_is_opened_can_fail_a_channel() {
    let catalog = SharedNodeCatalog::build(vec![0, 1, 2, 3], 2).unwrap();
    let run = |scores: [f64; 4], top_k: usize| {
        execute_shared_dynamic_rrf(
            &catalog,
            bounded(vec![Some(key(9.0)), Some(key(4.0))], scores.to_vec()),
            top_k,
            DEFAULT_RRF_K,
            None,
            &accumulate,
            &priority,
        )
    };

    let execution = run([9.0, 8.0, 5.0, f64::NAN], 2).unwrap();
    assert_eq!(execution.fusion.point_ids, ids([0, 1]));
    assert_eq!(execution.channels[0].nodes_expanded, 1);
    assert_eq!(execution.channels[0].documents_scored, 2);
    assert_eq!(execution.channels[0].points_emitted, 2);
    assert_eq!(
        run([9.0, 8.0, 5.0, f64::NAN], 3).err(),
        Some(SharedNodeError::BoundViolation { node: 1, point: 2 })
    );
    assert_eq!(
        run([9.0, 8.0, f64::NAN, 5.0], 3).err(),
        Some(SharedNodeError::InvalidScore { point: 2 })
    );
}

#[test]
fn a_refused_score_fails_the_fusion() {
    let catalog = SharedNodeCatalog::build(vec![0, 1], 1).unwrap();
    let channel = |fails: bool| -> SharedChannelPlan<Score> {
        SharedChannelPlan {
            node_upper_bounds: vec![Some(key(2.0)), Some(key(1.0))],
            score: Box::new(move |ordinal, id| {
                if fails && ordinal == 1 {
                    Err(SharedNodeError::InvalidScore { point: id + 7 })
                } else {
                    Ok(Some(key(1.0)))
                }
            }),
        }
    };

    let execute = |plans: Vec<SharedChannelPlan<Score>>| {
        execute_shared_dynamic_rrf(
            &catalog,
            plans,
            2,
            DEFAULT_RRF_K,
            None,
            &accumulate,
            &priority,
        )
    };
    assert!(execute(vec![channel(false), channel(false)]).is_ok());
    assert_eq!(
        execute(vec![channel(false), channel(true)]).err(),
        Some(SharedNodeError::InvalidScore { point: 8 })
    );
}

#[test]
fn a_block_is_materialized_once_however_often_it_is_opened() {
    let mut access = SharedAccessState::new(3);
    for (node, identities) in [(0, 4), (2, 3), (0, 4), (0, 4)] {
        access.open(node, identities);
    }

    let counted = access.telemetry();
    assert_eq!(counted.node_open_requests, 4);
    assert_eq!(counted.unique_node_materializations, 2);
    assert_eq!(counted.reused_node_materializations, 2);
    assert_eq!(counted.unique_identity_materializations, 7);
}

#[test]
fn a_tracker_remembers_the_most_identities_that_were_kept() {
    let mut tracker = ReplayBufferTracker::new();
    tracker.grow(3);
    tracker.shrink(2);
    tracker.grow(1);
    assert_eq!(tracker.peak_identities(), 3);

    tracker.grow(4);
    tracker.shrink(6);
    assert_eq!(tracker.peak_identities(), 6);
}
