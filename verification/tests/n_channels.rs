use std::cell::Cell;

use exact_rank_fusion::dense_ball::{DenseBallError, DenseBallIndex};
use exact_rank_fusion::dense_documents::DenseDocument;
use exact_rank_fusion::dense_quantized::{
    DenseQuantizedError, DenseQuantizedTelemetry, QuantizedVector, QuantizedVectorMetadata,
};
use exact_rank_fusion::frontier::KeyTable;
use exact_rank_fusion::hybrid_exact::{HybridExactError, HybridExactIndex};
use exact_rank_fusion::n_channel_exact::{
    ChannelAccess, DenseStreamStrategy, ExactChannelTelemetry, NChannelExactError,
    NChannelExactIndex, NChannelExactSearchResult, SparseCostEstimate, SparseStreamStrategy,
};
use exact_rank_fusion::n_channel_rank_sharing::{
    dense_representatives, share_identical_rank_streams, unique_sparse_queries, ExactChannelQuery,
    RankBank, RemappedSparseVector,
};
use exact_rank_fusion::n_channel_router::{
    average_pairwise_overlap, minimum_pairwise_overlap, ExactSparseDecodePlan,
    PrefixAgreementRouter, PrefixExecutionChoice, SafeExactRouter,
};
use exact_rank_fusion::n_channel_sources::{DenseChannels, ScoreTables};
use exact_rank_fusion::n_channel_streams::CancellableIdentityStream;
use exact_rank_fusion::operation_error::{OperationError, OperationResult};
use exact_rank_fusion::order::{score_bits, score_key, ExtendedPointId};
use exact_rank_fusion::reciprocal_rank_fusion::responses::{exact_rrf_scoring, ScoredPoint};
use exact_rank_fusion::reciprocal_rank_fusion::types::{
    infallible_exact_rrf_stream, DynamicRrfPolicy, DynamicRrfScheduler, ExactRrfStream, IdStream,
};
use exact_rank_fusion::reciprocal_rank_fusion::DEFAULT_RRF_K;

fn key(value: f64) -> i64 {
    score_key(value.to_bits())
}

fn number(key: i64) -> f64 {
    f64::from_bits(score_bits(key))
}

fn bits(vector: &[f32]) -> Vec<u32> {
    vector.iter().map(|value| value.to_bits()).collect()
}

fn values(vector: &[u32]) -> Vec<f64> {
    vector.iter().map(|bits| f64::from(f32::from_bits(*bits))).collect()
}

fn dot(left: &[f64], right: &[f64]) -> f64 {
    left.iter().zip(right).map(|(left, right)| left * right).sum()
}

fn position_score(position: usize, k: usize, weight: f32) -> f32 {
    if weight <= 0.0 {
        return 0.0;
    }
    1.0 / ((position + 1) as f32 / weight + k as f32 - 1.0)
}

fn accumulate(sum: i64, position: usize, rrf_k: usize, weight: i64) -> i64 {
    let contribution = position_score(position, rrf_k, number(weight) as f32);
    key(f64::from(number(sum) as f32 + contribution))
}

fn priority(position: usize, rrf_k: usize, weight: i64, live: usize, cost: i64) -> i64 {
    let weight = number(weight) as f32;
    let bound = position_score(position, rrf_k, weight);
    let next = position_score(position.saturating_add(1), rrf_k, weight);
    let reduction = f64::from((bound - next).max(0.0));
    key(reduction * live.max(1) as f64 / number(cost))
}

fn id(value: u64) -> ExtendedPointId {
    ExtendedPointId::NumId(value)
}

fn ids(values: impl IntoIterator<Item = u64>) -> Vec<ExtendedPointId> {
    values.into_iter().map(id).collect()
}

fn ranked(mut scores: Vec<(u32, i64)>) -> Vec<u32> {
    scores.sort_unstable_by(|left, right| right.1.cmp(&left.1).then_with(|| left.0.cmp(&right.0)));
    scores.into_iter().map(|(point, _)| point).collect()
}

fn exhaustive(rankings: &[Vec<u32>], top_k: usize) -> Vec<ExtendedPointId> {
    let responses = rankings
        .iter()
        .map(|ranking| {
            ranking
                .iter()
                .map(|point| ScoredPoint {
                    id: id(u64::from(*point)),
                    version: 0,
                    score: 0,
                    attached: None,
                })
                .collect()
        })
        .collect();
    exact_rrf_scoring(responses, DEFAULT_RRF_K, None, &accumulate)
        .unwrap()
        .into_iter()
        .take(top_k)
        .map(|point| point.id)
        .collect()
}

fn quantize(vector: &Vec<u32>) -> QuantizedVector {
    let vector = values(vector);
    let largest = vector.iter().fold(0.0_f64, |largest, value| largest.max(value.abs()));
    let scale = if largest == 0.0 { 1.0 } else { largest / 127.0 };
    let codes: Vec<i8> =
        vector.iter().map(|value| (value / scale).round().clamp(-127.0, 127.0) as i8).collect();
    let rebuilt: Vec<f64> = codes.iter().map(|code| f64::from(*code) * scale).collect();
    let residual: Vec<f64> =
        vector.iter().zip(&rebuilt).map(|(value, rebuilt)| value - rebuilt).collect();
    let metadata = QuantizedVectorMetadata {
        scale: scale.to_bits(),
        reconstructed_norm: dot(&rebuilt, &rebuilt).sqrt().to_bits(),
        residual_norm: dot(&residual, &residual).sqrt().next_up().to_bits(),
        original_norm: dot(&vector, &vector).sqrt().to_bits(),
    };
    QuantizedVector { codes, metadata }
}

fn combine(
    product: i64,
    query: &QuantizedVectorMetadata,
    document: &QuantizedVectorMetadata,
    dimension: usize,
) -> i64 {
    let value = f64::from_bits;
    let approximate = product as f64 * value(query.scale) * value(document.scale);
    let error = value(query.residual_norm) * value(document.original_norm)
        + value(query.reconstructed_norm) * value(document.residual_norm);
    let guard = (approximate.abs()
        + error
        + value(query.original_norm) * value(document.original_norm))
        * f64::EPSILON
        * (8.0 * dimension as f64 + 32.0);
    key((approximate + error + guard).next_up())
}

fn sparse(indices: &[u32], values: &[f32]) -> RemappedSparseVector {
    RemappedSparseVector { indices: indices.to_vec(), values: bits(values) }
}

fn sparse_query(indices: &[u32], values: &[f32]) -> ExactChannelQuery {
    ExactChannelQuery::Sparse(sparse(indices, values))
}

fn drained(bank: &mut RankBank<IdStream>, source: usize) -> Vec<ExtendedPointId> {
    std::iter::from_fn(|| bank.next(source).unwrap()).collect()
}

fn rank_streams(sources: &[&[u64]]) -> Vec<IdStream> {
    sources
        .iter()
        .map(|source| infallible_exact_rrf_stream(ids(source.iter().copied())))
        .collect()
}

#[test]
fn identical_sources_share_physical_pulls_without_changing_logical_order() {
    let queries = vec![sparse_query(&[1], &[2.0]), sparse_query(&[1], &[2.0])];
    let sources = rank_streams(&[&[1, 2, 3], &[1, 2, 3]]);
    let mut bank = share_identical_rank_streams(&queries, sources, None, false, true);
    let first = drained(&mut bank, 0);
    let second = drained(&mut bank, 1);
    assert_eq!(first, ids([1, 2, 3]));
    assert_eq!(first, second);
    let telemetry = bank.observer().telemetry(&vec![3, 3]);
    assert_eq!(telemetry.logical_pulls, 6);
    assert_eq!(telemetry.physical_pulls, 3);
    assert_eq!(telemetry.physical_streams, 1);
    assert_eq!(telemetry.buffered_identities, 3);
}

#[test]
fn identical_queries_with_different_weights_remain_independent() {
    let queries = vec![sparse_query(&[1], &[2.0]), sparse_query(&[1], &[2.0])];
    let sources = rank_streams(&[&[1], &[1]]);
    let weights = bits(&[1.0, 2.0]);
    let mut bank = share_identical_rank_streams(&queries, sources, Some(&weights), false, true);
    assert!(bank.next(0).unwrap().is_some());
    assert!(bank.next(1).unwrap().is_some());
    let telemetry = bank.observer().telemetry(&vec![1, 1]);
    assert_eq!(telemetry.physical_streams, 2);
    assert_eq!(telemetry.physical_pulls, 2);
    assert_eq!(telemetry.shared_groups, 0);
    assert_eq!(unique_sparse_queries(&queries, Some(&weights)).len(), 2);
    assert_eq!(unique_sparse_queries(&queries, None).len(), 1);
}

#[test]
fn identical_dense_queries_share_when_enabled() {
    let query = bits(&[1.0, -0.5]);
    let queries =
        vec![ExactChannelQuery::Dense(query.clone()), ExactChannelQuery::Dense(query)];
    assert_eq!(dense_representatives(&queries, None), vec![true, false]);
    let sources = rank_streams(&[&[1, 3], &[]]);
    let mut bank = share_identical_rank_streams(&queries, sources, None, true, false);
    assert_eq!(drained(&mut bank, 0), ids([1, 3]));
    assert_eq!(drained(&mut bank, 1), ids([1, 3]));
    let telemetry = bank.observer().telemetry(&vec![2, 2]);
    assert_eq!(telemetry.physical_streams, 1);
    assert_eq!(telemetry.physical_pulls, 2);
}

#[test]
fn replay_buffer_reclaims_the_prefix_consumed_by_every_reader() {
    let queries = vec![sparse_query(&[1], &[2.0]), sparse_query(&[1], &[2.0])];
    let sources = rank_streams(&[&[1, 2, 3], &[]]);
    let mut bank = share_identical_rank_streams(&queries, sources, None, false, true);

    for expected in [1, 2, 3] {
        assert_eq!(bank.next(0), Ok(Some(id(expected))));
        assert_eq!(bank.next(1), Ok(Some(id(expected))));
    }

    let telemetry = bank.observer().telemetry(&vec![3, 3]);
    assert_eq!(telemetry.physical_pulls, 3);
    assert_eq!(telemetry.buffered_identities, 1);
}

fn ratio(common: usize, total: usize) -> i64 {
    key(common as f64 / total as f64)
}

fn mean(overlaps: &Vec<i64>) -> i64 {
    let sum: f64 = overlaps.iter().map(|overlap| number(*overlap)).sum();
    key(sum / overlaps.len() as f64)
}

fn divide(left: i64, right: i64) -> i64 {
    key(number(left) / number(right))
}

#[test]
fn routes_identical_prefixes_to_dynamic() {
    let router = PrefixAgreementRouter::new(key(0.25));
    let decision = router.decide(&vec![ids([1, 2, 3]), ids([1, 2, 3])], &ratio, &mean);
    assert_eq!(decision.choice, PrefixExecutionChoice::Dynamic);
    assert_eq!(number(decision.average_pairwise_overlap), 1.0);
    assert_eq!(number(decision.minimum_pairwise_overlap), 1.0);
}

#[test]
fn routes_disjoint_prefixes_to_exhaustive() {
    let router = PrefixAgreementRouter::new(key(0.25));
    let decision = router.decide(&vec![ids([1, 2, 3]), ids([4, 5, 6])], &ratio, &mean);
    assert_eq!(decision.choice, PrefixExecutionChoice::Exhaustive);
    assert_eq!(number(decision.average_pairwise_overlap), 0.0);
    assert_eq!(number(decision.minimum_pairwise_overlap), 0.0);
}

#[test]
fn averages_all_channel_pairs() {
    let prefixes = vec![ids([1, 2, 3, 4]), ids([1, 2, 5, 6]), ids([1, 7, 8, 9])];
    let overlap = number(average_pairwise_overlap(&prefixes, &ratio, &mean));
    assert!((overlap - 1.0 / 3.0).abs() < f64::EPSILON);
    assert_eq!(number(minimum_pairwise_overlap(&prefixes, &ratio)), 0.25);
    assert_eq!(number(average_pairwise_overlap(&vec![ids([1])], &ratio, &mean)), 1.0);
    assert_eq!(number(minimum_pairwise_overlap(&vec![ids([1]), ids([])], &ratio)), 0.0);
}

#[test]
fn safe_router_uses_cost_aware_schedule_for_heterogeneous_channels() {
    let costs = vec![key(768.0), key(3.0)];
    let plan = SafeExactRouter::default().decide(&costs, true, 100, 100, &divide);

    assert_eq!(plan.scheduler, DynamicRrfScheduler::CompetitorCostAware);
    assert_eq!(plan.sparse_decode, ExactSparseDecodePlan::IndependentNative);
}

#[test]
fn safe_router_does_not_treat_eager_preparation_as_marginal_pull_cost() {
    let costs = vec![key(768.0), key(3.0)];
    let plan = SafeExactRouter::default().decide(&costs, false, 100, 100, &divide);

    assert_eq!(plan.scheduler, DynamicRrfScheduler::MaxNextContribution);
}

#[test]
fn safe_router_selects_shared_native_decode_only_for_material_savings() {
    let router = SafeExactRouter::default();
    let costs = vec![key(1.0), key(1.0)];

    assert_eq!(
        router.decide(&costs, true, 90, 100, &divide).sparse_decode,
        ExactSparseDecodePlan::SharedNative
    );
    assert_eq!(
        router.decide(&costs, true, 99, 100, &divide).sparse_decode,
        ExactSparseDecodePlan::IndependentNative
    );
}

#[test]
fn cancellation_stops_identity_stream_before_the_next_pull() {
    let stopped = Cell::new(false);
    let mut stream = CancellableIdentityStream::new(
        infallible_exact_rrf_stream(ids([7])),
        || stopped.get(),
    );

    stopped.set(true);

    assert!(matches!(
        ExactRrfStream::next(&mut stream),
        Err(OperationError::Cancelled { .. })
    ));
}

#[test]
fn a_stream_that_is_not_cancelled_yields_everything() {
    let mut stream =
        CancellableIdentityStream::new(infallible_exact_rrf_stream(ids([7])), || false);
    assert_eq!(ExactRrfStream::next(&mut stream), Ok(Some(id(7))));
    assert_eq!(ExactRrfStream::next(&mut stream), Ok(None));
}

struct Pulled<'a> {
    pull: Box<dyn FnMut() -> OperationResult<Option<ExtendedPointId>> + 'a>,
}

impl ExactRrfStream for Pulled<'_> {
    fn next(&mut self) -> OperationResult<Option<ExtendedPointId>> {
        (self.pull)()
    }
}

fn dense_documents() -> Vec<DenseDocument> {
    (0..97_u32)
        .map(|id| DenseDocument {
            id,
            vector: bits(&[
                ((id * 17) % 31) as f32 / 31.0,
                ((id * 29 + 7) % 37) as f32 / 37.0,
                ((id * 11 + 3) % 41) as f32 / 41.0,
            ]),
        })
        .collect()
}

fn dense_scores(index: &NChannelExactIndex, query: &[u32]) -> Vec<i64> {
    (0..index.document_count())
        .map(|ordinal| {
            key(dot(&values(&index.dense_index().document(ordinal).vector), &values(query)))
        })
        .collect()
}

fn dense_ranking(index: &NChannelExactIndex, query: &[u32]) -> Vec<u32> {
    ranked((0..).zip(dense_scores(index, query)).collect())
}

fn sparse_ranking(query: &RemappedSparseVector) -> Vec<u32> {
    let scores = (0..97_u32).filter_map(|document| {
        let vector = [1.0, (document % 13) as f32, ((document * 7) % 17) as f32];
        let score: f32 = query
            .indices
            .iter()
            .zip(&query.values)
            .map(|(index, value)| vector[*index as usize] * f32::from_bits(*value))
            .sum();
        if score == 0.0 {
            None
        } else {
            Some((document, key(f64::from(score))))
        }
    });
    ranked(scores.collect())
}

fn estimate(queries: &Vec<RemappedSparseVector>) -> Result<SparseCostEstimate, String> {
    let mut indices: Vec<u32> = queries.iter().flat_map(|query| query.indices.clone()).collect();
    let logical_posting_elements = indices.len() * 97;
    indices.sort_unstable();
    indices.dedup();
    Ok(SparseCostEstimate {
        unique_posting_elements: indices.len() * 97,
        logical_posting_elements,
    })
}

#[derive(Clone, Copy, PartialEq)]
enum Broken {
    Nothing,
    Opening,
    Stream,
    Evaluation,
}

fn run(
    index: &NChannelExactIndex,
    queries: &Vec<ExactChannelQuery>,
    weights: Option<&[f32]>,
    dense_strategy: DenseStreamStrategy,
    sparse_strategy: SparseStreamStrategy,
    stopped: bool,
) -> Result<NChannelExactSearchResult, NChannelExactError> {
    run_broken(
        index,
        queries,
        weights,
        dense_strategy,
        sparse_strategy,
        stopped,
        Broken::Nothing,
    )
}

fn run_broken(
    index: &NChannelExactIndex,
    queries: &Vec<ExactChannelQuery>,
    weights: Option<&[f32]>,
    dense_strategy: DenseStreamStrategy,
    sparse_strategy: SparseStreamStrategy,
    stopped: bool,
    broken: Broken,
) -> Result<NChannelExactSearchResult, NChannelExactError> {
    let scores: Vec<Vec<i64>> = queries
        .iter()
        .map(|query| match query {
            ExactChannelQuery::Dense(query) => dense_scores(index, query),
            ExactChannelQuery::Sparse(_) => vec![],
        })
        .collect();
    let access = ChannelAccess {
        open: |channel: usize, _strategy: SparseStreamStrategy| {
            let ranking = match &queries[channel] {
                ExactChannelQuery::Dense(_) => unreachable!("dense channels are not opened"),
                ExactChannelQuery::Sparse(query) => sparse_ranking(query),
            };
            if broken == Broken::Opening {
                return Err(NChannelExactError::Sparse("closed".to_string()));
            }
            let mut left = ranking.into_iter();
            Ok(Pulled {
                pull: Box::new(move || {
                    if broken == Broken::Stream {
                        return Err(OperationError::WrongSparse);
                    }
                    Ok(left.next().map(|point| id(u64::from(point))))
                }),
            })
        },
        estimate,
        estimate_pair: |queries: &Vec<RemappedSparseVector>, unique: &Vec<RemappedSparseVector>| {
            Ok((estimate(queries)?, estimate(unique)?))
        },
        shared_rankings: |queries: &Vec<RemappedSparseVector>| {
            if broken == Broken::Evaluation {
                return Err("lost".to_string());
            }
            Ok(queries.iter().map(sparse_ranking).collect::<Vec<Vec<u32>>>())
        },
        dense: DenseChannels {
            quantize,
            combine,
            score: |channel: usize, ordinal: usize| scores[channel][ordinal],
        },
        stopped: || stopped,
    };
    let weight_keys: Option<Vec<i64>> =
        weights.map(|weights| weights.iter().map(|weight| key(f64::from(*weight))).collect());
    let weight_bits: Option<Vec<u32>> = weights.map(bits);
    index.search_with_strategies_and_cancellation(
        queries,
        20,
        DEFAULT_RRF_K,
        weight_keys.as_ref(),
        weight_bits.as_ref(),
        DynamicRrfPolicy::default(),
        dense_strategy,
        sparse_strategy,
        &access,
        &accumulate,
        &priority,
    )
}

fn n_channel_index() -> NChannelExactIndex {
    NChannelExactIndex::build(dense_documents(), &(0..97).collect(), &quantize).unwrap()
}

#[test]
fn pre_cancelled_search_does_not_return_a_partial_result() {
    let index = n_channel_index();
    let queries = vec![ExactChannelQuery::Dense(bits(&[1.0, 0.25, -0.5]))];

    let error = run(
        &index,
        &queries,
        None,
        DenseStreamStrategy::ReplayIdentical,
        SparseStreamStrategy::default(),
        true,
    )
    .err()
    .unwrap();

    assert!(matches!(error, NChannelExactError::Cancelled));
}

#[test]
fn one_to_eight_real_channel_streams_match_exhaustive_wrrf() {
    let index = n_channel_index();
    let dense_queries = [
        bits(&[1.0, 0.25, -0.5]),
        bits(&[-0.25, 1.0, 0.5]),
        bits(&[0.5, -0.75, 1.0]),
        bits(&[1.0, 1.0, 1.0]),
    ];
    let sparse_queries = [
        (vec![0, 1], vec![1.0, 2.0]),
        (vec![0, 2], vec![1.0, 3.0]),
        (vec![1, 2], vec![2.0, 1.0]),
        (vec![0, 1, 2], vec![1.0, 1.0, 1.0]),
    ];
    let strategies = [
        SparseStreamStrategy::default(),
        SparseStreamStrategy::DocumentBlock,
        SparseStreamStrategy::PostingBlock { batch_size: 17 },
        SparseStreamStrategy::AdaptiveNative {
            initial_limit: 5,
            growth_factor: 2,
            batch_size: 17,
            endpoint_trend_router: false,
        },
        SparseStreamStrategy::SharedFull,
        SparseStreamStrategy::AutoShared { batch_size: 17, max_unique_to_logical_milli: 1_000 },
        SparseStreamStrategy::ProbeThenShared { batch_size: 17, probe_depth: 2 },
        SparseStreamStrategy::SharedLazy { batch_size: 17 },
        SparseStreamStrategy::AutoSharedLazy { batch_size: 17 },
    ];

    for channel_count in 1usize..=8 {
        let mut queries = Vec::new();
        let mut rankings = Vec::new();
        for channel in 0..channel_count {
            if channel % 2 == 0 {
                let query = &dense_queries[(channel / 2) % dense_queries.len()];
                rankings.push(dense_ranking(&index, query));
                queries.push(ExactChannelQuery::Dense(query.clone()));
            } else {
                let (indices, weights) = &sparse_queries[(channel / 2) % sparse_queries.len()];
                let query = sparse(indices, weights);
                rankings.push(sparse_ranking(&query));
                queries.push(ExactChannelQuery::Sparse(query));
            }
        }
        let expected = exhaustive(&rankings, 20);
        for strategy in strategies {
            let actual = run(
                &index,
                &queries,
                None,
                DenseStreamStrategy::ReplayIdentical,
                strategy,
                false,
            )
            .unwrap_or_else(|error| panic!("channels={channel_count}: {error:?}"));
            assert_eq!(
                actual.execution.point_ids, expected,
                "channels={channel_count}, {strategy:?}"
            );
            assert_eq!(
                actual.physical.sparse_probe_then_shared_requested,
                matches!(strategy, SparseStreamStrategy::ProbeThenShared { .. })
            );
            assert_eq!(actual.channels.len(), channel_count);
        }
    }
}

#[test]
fn identical_dense_queries_share_only_with_identical_wrrf_weights() {
    let index = n_channel_index();
    let query = bits(&[1.0, 0.25, -0.5]);
    let mut expected = ids(dense_ranking(&index, &query).into_iter().map(u64::from));
    expected.truncate(20);
    let queries =
        vec![ExactChannelQuery::Dense(query.clone()), ExactChannelQuery::Dense(query)];
    let posting = SparseStreamStrategy::PostingBlock { batch_size: 17 };

    let shared =
        run(&index, &queries, None, DenseStreamStrategy::ReplayIdentical, posting, false).unwrap();
    assert_eq!(shared.execution.point_ids, expected);
    assert_eq!(shared.physical.dense_channels, 2);
    assert_eq!(shared.physical.dense_physical_channels, 1);
    assert_eq!(shared.physical.dense_physical_dot_products, 97);

    let document_major =
        run(&index, &queries, None, DenseStreamStrategy::SharedDocumentMajor, posting, false)
            .unwrap();
    assert_eq!(document_major.execution.point_ids, expected);
    assert_eq!(document_major.physical.dense_physical_channels, 2);
    assert_eq!(document_major.physical.physical_rank_streams, 2);
    assert_eq!(document_major.physical.shared_rank_stream_groups, 0);

    let distinct_weights = run(
        &index,
        &queries,
        Some(&[1.0, 2.0]),
        DenseStreamStrategy::ReplayIdentical,
        posting,
        false,
    )
    .unwrap();
    assert_eq!(distinct_weights.execution.point_ids, expected);
    assert_eq!(distinct_weights.physical.dense_channels, 2);
    assert_eq!(distinct_weights.physical.dense_physical_channels, 2);
    assert_eq!(distinct_weights.physical.dense_physical_dot_products, 194);
}

#[test]
fn an_n_channel_search_needs_channels_and_one_universe() {
    let index = n_channel_index();
    assert!(matches!(
        run(
            &index,
            &vec![],
            None,
            DenseStreamStrategy::Independent,
            SparseStreamStrategy::DocumentBlock,
            false
        ),
        Err(NChannelExactError::EmptyChannels)
    ));
    assert!(matches!(
        NChannelExactIndex::build(dense_documents(), &(0..96).collect(), &quantize),
        Err(NChannelExactError::IdentityUniverseMismatch)
    ));
}

fn mixed_queries() -> Vec<ExactChannelQuery> {
    vec![
        ExactChannelQuery::Dense(bits(&[1.0, 0.25, -0.5])),
        sparse_query(&[0, 1], &[1.0, 2.0]),
        sparse_query(&[1, 2], &[2.0, 1.0]),
    ]
}

#[test]
fn a_search_returns_the_failure_of_its_channels() {
    let index = n_channel_index();
    let queries = mixed_queries();
    let search = |strategy, broken| {
        run_broken(
            &index,
            &queries,
            None,
            DenseStreamStrategy::ReplayIdentical,
            strategy,
            false,
            broken,
        )
    };
    let probe = SparseStreamStrategy::ProbeThenShared { batch_size: 17, probe_depth: 1 };

    assert!(search(probe, Broken::Nothing).unwrap().physical.sparse_probe_selected_shared);
    assert!(matches!(
        search(SparseStreamStrategy::DocumentBlock, Broken::Opening),
        Err(NChannelExactError::Sparse(text)) if text == "closed"
    ));
    assert!(matches!(
        search(SparseStreamStrategy::DocumentBlock, Broken::Stream),
        Err(NChannelExactError::Fusion(OperationError::WrongSparse))
    ));
    assert!(matches!(
        search(probe, Broken::Evaluation),
        Err(NChannelExactError::SparsePosting(text)) if text == "lost"
    ));
    assert!(search(SparseStreamStrategy::DocumentBlock, Broken::Evaluation).is_ok());
}

#[test]
fn a_dense_query_that_does_not_fit_is_refused_before_a_stream_opens() {
    let index = n_channel_index();
    let queries = vec![
        ExactChannelQuery::Dense(bits(&[1.0, 0.25])),
        sparse_query(&[0, 1], &[1.0, 2.0]),
    ];
    let result = run_broken(
        &index,
        &queries,
        None,
        DenseStreamStrategy::Independent,
        SparseStreamStrategy::DocumentBlock,
        false,
        Broken::Opening,
    );
    assert!(matches!(
        result,
        Err(NChannelExactError::Dense(DenseQuantizedError::InvalidQuery))
    ));
}

#[test]
fn a_shared_group_pulls_as_far_as_its_furthest_channel() {
    let index = n_channel_index();
    let query = ExactChannelQuery::Dense(bits(&[1.0, 0.25, -0.5]));
    let queries = vec![query.clone(), query, sparse_query(&[0, 1], &[1.0, 2.0])];
    let found = run(
        &index,
        &queries,
        None,
        DenseStreamStrategy::ReplayIdentical,
        SparseStreamStrategy::DocumentBlock,
        false,
    )
    .unwrap();

    let pulls = &found.execution.source_pulls;
    let asked = match found.channels[0] {
        ExactChannelTelemetry::Dense(asked) => asked,
        other => panic!("{other:?}"),
    };
    assert_eq!(asked.quantized_scores, 97);
    assert_eq!(asked.points_emitted, pulls[0].max(pulls[1]));
    assert!(asked.points_emitted <= asked.exact_scores && asked.exact_scores <= 97);
    assert_eq!(
        found.channels[1..],
        [
            ExactChannelTelemetry::Dense(DenseQuantizedTelemetry::default()),
            ExactChannelTelemetry::Sparse,
        ]
    );
    assert_eq!(found.physical.logical_rank_streams, 3);
    assert_eq!(found.physical.physical_rank_streams, 2);
    assert_eq!(found.physical.shared_rank_stream_groups, 1);
    assert_eq!(found.physical.logical_rank_pulls, pulls.iter().sum::<usize>());
    assert_eq!(found.physical.physical_rank_pulls, pulls[0].max(pulls[1]) + pulls[2]);
}

#[test]
fn tables_can_score_the_dense_channels() {
    let index = n_channel_index();
    let query = bits(&[1.0, 0.25, -0.5]);
    let access = ChannelAccess {
        open: |_channel: usize, _strategy: SparseStreamStrategy| {
            let opened: Result<IdStream, NChannelExactError> = Err(NChannelExactError::Cancelled);
            opened
        },
        estimate,
        estimate_pair: |queries: &Vec<RemappedSparseVector>, unique: &Vec<RemappedSparseVector>| {
            Ok((estimate(queries)?, estimate(unique)?))
        },
        shared_rankings: |_queries: &Vec<RemappedSparseVector>| {
            let lists: Result<Vec<Vec<u32>>, String> = Ok(Vec::new());
            lists
        },
        dense: DenseChannels {
            quantize,
            combine,
            score: ScoreTables { keys: vec![dense_scores(&index, &query)] },
        },
        stopped: || false,
    };
    let found = index
        .search_with_strategies_and_cancellation(
            &vec![ExactChannelQuery::Dense(query.clone())],
            20,
            DEFAULT_RRF_K,
            None,
            None,
            DynamicRrfPolicy::default(),
            DenseStreamStrategy::Independent,
            SparseStreamStrategy::DocumentBlock,
            &access,
            &accumulate,
            &priority,
        )
        .unwrap();

    let mut expected = ids(dense_ranking(&index, &query).into_iter().map(u64::from));
    expected.truncate(20);
    assert_eq!(found.execution.point_ids, expected);
}

#[test]
fn channels_over_a_shared_evaluation_count_what_they_yield() {
    let index = n_channel_index();
    let query = sparse_query(&[0, 1], &[1.0, 2.0]);
    let queries = vec![query.clone(), query, sparse_query(&[1, 2], &[2.0, 1.0])];
    let found = run(
        &index,
        &queries,
        None,
        DenseStreamStrategy::Independent,
        SparseStreamStrategy::SharedFull,
        false,
    )
    .unwrap();

    let yielded: Vec<usize> = found
        .channels
        .iter()
        .map(|channel| match channel {
            ExactChannelTelemetry::SparseShared(done) => done.points_emitted,
            other => panic!("{other:?}"),
        })
        .collect();
    let pulls = &found.execution.source_pulls;
    assert_eq!(yielded.iter().sum::<usize>(), found.physical.physical_rank_pulls);
    assert_eq!(yielded[0], pulls[0].max(pulls[1]));
    assert_eq!(yielded[2], pulls[2]);
}

#[test]
fn a_probe_that_hands_over_counts_the_prefixes_it_replays() {
    let index = n_channel_index();
    let search = |probe_depth: usize| {
        run(
            &index,
            &mixed_queries(),
            None,
            DenseStreamStrategy::ReplayIdentical,
            SparseStreamStrategy::ProbeThenShared { batch_size: 17, probe_depth },
            false,
        )
        .unwrap()
    };
    for probe_depth in [1, 2, 3] {
        let found = search(probe_depth);
        let pulls = &found.execution.source_pulls;
        let replayed = found.physical.sparse_prefix_identities_replayed;
        assert!(found.physical.sparse_probe_selected_shared);
        assert_eq!(found.physical.sparse_probe_depth, probe_depth);
        assert!(2 * probe_depth <= replayed && replayed <= pulls[1] + pulls[2]);
    }
}

fn hybrid_documents() -> Vec<DenseDocument> {
    (0..64_u32)
        .map(|id| DenseDocument { id, vector: bits(&[(id % 7) as f32, (63 - id) as f32]) })
        .collect()
}

#[test]
fn rejects_mismatched_identity_universes() {
    let mut dense = hybrid_documents();
    dense.pop();

    let result = HybridExactIndex::build(&(0..64).collect(), dense, 8);

    assert!(matches!(result, Err(HybridExactError::IdentityUniverseMismatch)));
}

fn ball_bounds(index: &DenseBallIndex, query: &[f64]) -> KeyTable {
    let query_norm = dot(query, query).sqrt();
    let keys = (0..index.node_count())
        .map(|node| {
            let (start, end) = index.node_range(node);
            let longest = (start..end)
                .map(|place| {
                    let vector = values(&index.document_at(place).vector);
                    dot(&vector, &vector).sqrt()
                })
                .fold(0.0, f64::max);
            key(query_norm * longest * 1.001 + 1.0)
        })
        .collect();
    KeyTable { keys }
}

#[test]
fn single_request_matches_exhaustive_hybrid_rrf() {
    let index = HybridExactIndex::build(&(0..64).collect(), hybrid_documents(), 8).unwrap();
    let dense_query = bits(&[1.0, -0.25]);
    let sparse_order =
        ranked((0..64_u32).map(|id| (id, key(f64::from(1.0 + 2.0 * (id % 9) as f32)))).collect());
    let scores: Vec<i64> = (0..64)
        .map(|place| {
            key(dot(
                &values(&index.dense_index().document_at(place).vector),
                &values(&dense_query),
            ))
        })
        .collect();
    let dense_order = ranked(
        (0..64).map(|place| index.dense_index().document_at(place).id).zip(scores.clone()).collect(),
    );
    let expected = exhaustive(&[sparse_order.clone(), dense_order], 10);

    let actual = index
        .search(
            infallible_exact_rrf_stream(ids(sparse_order.into_iter().map(u64::from))),
            &dense_query,
            ball_bounds(index.dense_index(), &values(&dense_query)),
            KeyTable { keys: scores },
            10,
            DEFAULT_RRF_K,
            None,
            &accumulate,
            &priority,
        )
        .unwrap();

    assert_eq!(actual.execution.point_ids, expected);
    assert_eq!(actual.execution.point_ids.len(), 10);
    assert!(actual.dense.documents_evaluated > 0);

    let refused = index.search(
        infallible_exact_rrf_stream(ids([])),
        &bits(&[0.0, 0.0]),
        KeyTable { keys: vec![0; index.dense_index().node_count()] },
        KeyTable { keys: vec![0; 64] },
        10,
        DEFAULT_RRF_K,
        None,
        &accumulate,
        &priority,
    );
    assert!(matches!(refused, Err(HybridExactError::Dense(DenseBallError::InvalidQuery))));
}
