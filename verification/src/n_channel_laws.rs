//! What holds of searches over many channels, whatever they are asked.

use crate::dense_laws::{counted_places, law_exact_order_falls_by_score, lemma_counted};
use crate::dense_plan::finite_vector;
use crate::dense_quantized::{
    DenseQuantizedError, DenseQuantizedIndex, DenseQuantizedTelemetry, QuantizedVector,
    QuantizedVectorMetadata,
};
use crate::frontier::{exact_order, law_exact_order_is_exhaustive};
use crate::hybrid_exact::all_points;
use crate::n_channel_exact::{
    are_dense_flags, are_rankings_at, are_sparse_queries, channel_report, decision,
    default_sparse_strategy, describes, describes_streams, doubled, ends_group, ends_run,
    flagged_dense, follows_estimate, fresh_channels, fuses_sources, has_open_sparse, is_cancelled,
    is_capacity, is_empty_probe, keyed, leads_group, list_count, never_stops, offset_ids,
    passes_for, probe_depth_of, probe_targets, probes_to, replacement_fault, replayed_count,
    replays_sparse, resolves, respects_queries, same_identities, saves_enough, sources_lead,
    sparse_places, sparse_report, ChannelRun, DenseStreamStrategy, ExactChannelTelemetry,
    NChannelExactError, NChannelExactSearchResult, SparseCostEstimate, SparseDecision,
    SparseStreamStrategy,
};
use crate::n_channel_rank_sharing::{
    are_unique_sparse, group_members, holds_sparse, is_dense, is_sparse_copy, members_of_group,
    query_content, sparse_representatives, sum_of, tally, unread, weight_of, ExactChannelQuery,
    RemappedSparseVector, Sharing,
};
use crate::n_channel_sources::{
    dense_places, dense_query, document_ranking, misfits, opens_channels, ChannelKeys,
    ChannelSource, DenseChannels, ScoreTables,
};
use crate::n_channel_trace::ChannelState;
use crate::operation_error::{Fault, OperationError};
use crate::order::ExtendedPointId;
use crate::rank_queue::RankEntry;
use crate::rank_stream::ReplayView;
use crate::reciprocal_rank_fusion::certificate::is_exhaustive_fusion;
use crate::reciprocal_rank_fusion::executor::leads_from_start;
use crate::reciprocal_rank_fusion::progress::{session_fault, ProgressView};
use crate::reciprocal_rank_fusion::scoring::{computes, is_rank_arithmetic};
use crate::reciprocal_rank_fusion::state::UNIT_WEIGHT;
use crate::reciprocal_rank_fusion::types::{DynamicRrfExecution, DynamicRrfPolicy, ExactRrfStream};
use vstd::multiset::Multiset;
use vstd::prelude::*;

verus! {

/// The sum of a row, whatever its size.
pub open spec fn total(row: Seq<usize>) -> int {
    row.fold_left(0int, |sum: int, next: usize| sum + next)
}

proof fn lemma_total_grows(row: Seq<usize>, upto: int)
    requires
        0 < upto <= row.len(),
    ensures
        total(row.take(upto)) == total(row.take(upto - 1)) + row[upto - 1],
{
    assert(row.take(upto).drop_last() =~= row.take(upto - 1));
}

proof fn lemma_sum(row: Seq<usize>, upto: int)
    requires
        0 <= upto <= row.len(),
    ensures
        total(row.take(upto)) >= 0,
        sum_of(row, upto) == (if total(row.take(upto)) <= usize::MAX {
            total(row.take(upto))
        } else {
            usize::MAX as int
        }),
    decreases upto,
{
    if upto > 0 {
        lemma_sum(row, upto - 1);
        lemma_total_grows(row, upto);
    } else {
        assert(row.take(0) =~= Seq::<usize>::empty());
    }
}

/// The pulls of channels add up to their sum, or to the largest count where the sum is
/// larger.
pub proof fn law_pulls_add_up(pulls: Seq<usize>)
    ensures
        sum_of(pulls, pulls.len() as int) == (if total(pulls) <= usize::MAX {
            total(pulls)
        } else {
            usize::MAX as int
        }),
{
    lemma_sum(pulls, pulls.len() as int);
    assert(pulls.take(pulls.len() as int) =~= pulls);
}

/// The pulls that a group has made: its channel's own, or those of the shared stream.
pub open spec fn made_by(
    members: Seq<Seq<usize>>,
    pulls: Seq<usize>,
    source_pulls: Seq<usize>,
) -> Seq<usize> {
    Seq::new(
        members.len(),
        |group: int|
            if members[group].len() == 1 {
                source_pulls[members[group][0] as int]
            } else {
                pulls[group]
            },
    )
}

/// One for every group that is shared, and nothing for the others.
pub open spec fn shared_ones(members: Seq<Seq<usize>>) -> Seq<usize> {
    Seq::new(
        members.len(),
        |group: int|
            if members[group].len() == 1 {
                0usize
            } else {
                1usize
            },
    )
}

/// The buffers of the groups that are shared.
pub open spec fn shared_buffers(members: Seq<Seq<usize>>, peaks: Seq<usize>) -> Seq<usize> {
    Seq::new(
        members.len(),
        |group: int|
            if members[group].len() == 1 {
                0usize
            } else {
                peaks[group]
            },
    )
}

proof fn lemma_tally(
    members: Seq<Seq<usize>>,
    pulls: Seq<usize>,
    peaks: Seq<usize>,
    source_pulls: Seq<usize>,
    upto: int,
)
    requires
        0 <= upto <= members.len(),
    ensures
        tally(members, pulls, peaks, source_pulls, upto) == (
            sum_of(shared_ones(members), upto),
            sum_of(made_by(members, pulls, source_pulls), upto),
            sum_of(shared_buffers(members, peaks), upto),
        ),
    decreases upto,
{
    if upto > 0 {
        lemma_tally(members, pulls, peaks, source_pulls, upto - 1);
    }
}

/// Of the groups of channels, those with one channel pull for it alone and buffer
/// nothing; the others count as shared, pull through their stream and buffer what the
/// slowest channel has not read.
pub proof fn law_groups_add_up(
    members: Seq<Seq<usize>>,
    pulls: Seq<usize>,
    peaks: Seq<usize>,
    source_pulls: Seq<usize>,
)
    requires
        total(shared_ones(members)) <= usize::MAX,
        total(made_by(members, pulls, source_pulls)) <= usize::MAX,
        total(shared_buffers(members, peaks)) <= usize::MAX,
    ensures
        ({
            let (shared, physical, buffered) = tally(
                members,
                pulls,
                peaks,
                source_pulls,
                members.len() as int,
            );
            &&& shared == total(shared_ones(members))
            &&& physical == total(made_by(members, pulls, source_pulls))
            &&& buffered == total(shared_buffers(members, peaks))
        }),
{
    lemma_tally(members, pulls, peaks, source_pulls, members.len() as int);
    law_pulls_add_up(shared_ones(members));
    law_pulls_add_up(made_by(members, pulls, source_pulls));
    law_pulls_add_up(shared_buffers(members, peaks));
}

/// Whether places ascend.
pub open spec fn ascending(places: Seq<usize>) -> bool {
    forall|i: int, j: int| 0 <= i < j < places.len() ==> #[trigger] places[i] < #[trigger] places[j]
}

/// Whether places hold, in ascending order, exactly the leading ones that are meant.
pub open spec fn are_places(
    places: Seq<usize>,
    upto: int,
    meant: spec_fn(int) -> bool,
) -> bool {
    &&& ascending(places)
    &&& forall|at: usize| #[trigger] places.contains(at) <==> at < upto && meant(at as int)
}

proof fn lemma_place_added(places: Seq<usize>, upto: int, meant: spec_fn(int) -> bool)
    requires
        0 < upto <= usize::MAX,
        are_places(places, upto - 1, meant),
    ensures
        meant(upto - 1) ==> are_places(places.push((upto - 1) as usize), upto, meant),
        !meant(upto - 1) ==> are_places(places, upto, meant),
{
    if meant(upto - 1) {
        let longer = places.push((upto - 1) as usize);
        assert forall|at: usize| #[trigger] longer.contains(at) <==> at < upto && meant(
            at as int,
        ) by {
            if longer.contains(at) {
                let i = choose|i: int| 0 <= i < longer.len() && longer[i] == at;
                if i < places.len() {
                    assert(places[i] == at);
                    assert(places.contains(at));
                }
            }
            if at < upto && meant(at as int) {
                if at == upto - 1 {
                    assert(longer[places.len() as int] == at);
                } else {
                    assert(places.contains(at));
                    let i = choose|i: int| 0 <= i < places.len() && places[i] == at;
                    assert(longer[i] == at);
                }
            }
        }
        assert forall|i: int, j: int| 0 <= i < j < longer.len() implies #[trigger] longer[i]
            < #[trigger] longer[j] by {
            if j == places.len() {
                assert(places[i] == longer[i]);
                assert(places.contains(places[i]));
            } else {
                assert(places[i] < places[j]);
            }
        }
    }
}

/// The places of the sparse channels are those of the channels with a sparse query, all
/// of them, in the order of the channels.
pub proof fn law_sparse_places(queries: Seq<ExactChannelQuery>)
    requires
        queries.len() <= usize::MAX,
    ensures
        are_places(
            sparse_places(queries, queries.len() as int),
            queries.len() as int,
            |at: int| queries[at] is Sparse,
        ),
{
    lemma_sparse_places(queries, queries.len() as int);
}

proof fn lemma_sparse_places(queries: Seq<ExactChannelQuery>, upto: int)
    requires
        0 <= upto <= queries.len() <= usize::MAX,
    ensures
        are_places(sparse_places(queries, upto), upto, |at: int| queries[at] is Sparse),
    decreases upto,
{
    if upto > 0 {
        lemma_sparse_places(queries, upto - 1);
        lemma_place_added(
            sparse_places(queries, upto - 1),
            upto,
            |at: int| queries[at] is Sparse,
        );
    }
}

/// The members of a group are the channels that name it, all of them, in the order of
/// the channels.
pub proof fn law_members_name_their_group(groups: Seq<usize>, group: int)
    requires
        groups.len() <= usize::MAX,
    ensures
        are_places(
            members_of_group(groups, group, groups.len() as int),
            groups.len() as int,
            |at: int| groups[at] == group,
        ),
{
    lemma_members(groups, group, groups.len() as int);
}

proof fn lemma_members(groups: Seq<usize>, group: int, upto: int)
    requires
        0 <= upto <= groups.len() <= usize::MAX,
    ensures
        are_places(members_of_group(groups, group, upto), upto, |at: int| groups[at] == group),
    decreases upto,
{
    if upto > 0 {
        lemma_members(groups, group, upto - 1);
        lemma_place_added(
            members_of_group(groups, group, upto - 1),
            upto,
            |at: int| groups[at] == group,
        );
    }
}

/// The dense channels that are searched are those with a dense query and a flag, all of
/// them, in the order of the channels; they are as many as are counted.
pub proof fn law_searched_dense_channels(
    queries: Seq<ExactChannelQuery>,
    flags: Seq<bool>,
    channel: int,
)
    ensures
        dense_places(queries, flags, queries.len() as int).contains(channel) <==> 0 <= channel
            < queries.len() && queries[channel] is Dense && flags[channel],
        forall|i: int, j: int|
            0 <= i < j < dense_places(queries, flags, queries.len() as int).len()
                ==> #[trigger] dense_places(queries, flags, queries.len() as int)[i]
                < #[trigger] dense_places(queries, flags, queries.len() as int)[j],
        flagged_dense(queries, flags, queries.len() as int) == dense_places(
            queries,
            flags,
            queries.len() as int,
        ).len(),
{
    lemma_dense_places(queries, flags, queries.len() as int);
}

proof fn lemma_dense_places(queries: Seq<ExactChannelQuery>, flags: Seq<bool>, upto: int)
    requires
        0 <= upto <= queries.len(),
    ensures
        forall|channel: int| #[trigger]
            dense_places(queries, flags, upto).contains(channel) <==> 0 <= channel < upto
                && queries[channel] is Dense && flags[channel],
        forall|i: int, j: int|
            0 <= i < j < dense_places(queries, flags, upto).len() ==> #[trigger] dense_places(
                queries,
                flags,
                upto,
            )[i] < #[trigger] dense_places(queries, flags, upto)[j],
        flagged_dense(queries, flags, upto) == dense_places(queries, flags, upto).len(),
    decreases upto,
{
    let longer = dense_places(queries, flags, upto);
    if upto > 0 {
        lemma_dense_places(queries, flags, upto - 1);
        let shorter = dense_places(queries, flags, upto - 1);
        if is_dense(queries[upto - 1]) && flags[upto - 1] {
            assert forall|channel: int| #[trigger] longer.contains(channel) <==> 0 <= channel < upto
                && queries[channel] is Dense && flags[channel] by {
                if longer.contains(channel) {
                    let i = choose|i: int| 0 <= i < longer.len() && longer[i] == channel;
                    if i < shorter.len() {
                        assert(shorter[i] == channel);
                        assert(shorter.contains(channel));
                    }
                }
                if shorter.contains(channel) {
                    let i = choose|i: int| 0 <= i < shorter.len() && shorter[i] == channel;
                    assert(longer[i] == channel);
                }
                assert(longer[shorter.len() as int] == upto - 1);
            }
            assert forall|i: int, j: int| 0 <= i < j < longer.len() implies #[trigger] longer[i]
                < #[trigger] longer[j] by {
                if j == shorter.len() {
                    assert(shorter.contains(shorter[i]));
                } else {
                    assert(shorter[i] < shorter[j]);
                }
            }
        }
    }
}

/// The sparse queries that are told apart are those of the sparse channels that stand for
/// their group.
pub proof fn law_sparse_representatives(
    queries: Seq<ExactChannelQuery>,
    groups: Seq<usize>,
    representatives: Seq<usize>,
    channel: int,
)
    ensures
        sparse_representatives(
            queries,
            groups,
            representatives,
            queries.len() as int,
        ).contains(channel) <==> 0 <= channel < queries.len() && queries[channel] is Sparse
            && representatives[groups[channel] as int] == channel,
{
    lemma_sparse_representatives(
        queries,
        groups,
        representatives,
        queries.len() as int,
        channel,
    );
}

proof fn lemma_sparse_representatives(
    queries: Seq<ExactChannelQuery>,
    groups: Seq<usize>,
    representatives: Seq<usize>,
    upto: int,
    channel: int,
)
    requires
        0 <= upto <= queries.len(),
    ensures
        sparse_representatives(queries, groups, representatives, upto).contains(channel) <==> 0
            <= channel < upto && queries[channel] is Sparse
            && representatives[groups[channel] as int] == channel,
    decreases upto,
{
    if upto > 0 {
        lemma_sparse_representatives(queries, groups, representatives, upto - 1, channel);
        let shorter = sparse_representatives(queries, groups, representatives, upto - 1);
        let longer = sparse_representatives(queries, groups, representatives, upto);
        if longer != shorter {
            assert(longer == shorter.push(upto - 1));
            if longer.contains(channel) {
                let i = choose|i: int| 0 <= i < longer.len() && longer[i] == channel;
                if i < shorter.len() {
                    assert(shorter[i] == channel);
                    assert(shorter.contains(channel));
                }
            }
            if shorter.contains(channel) {
                let i = choose|i: int| 0 <= i < shorter.len() && shorter[i] == channel;
                assert(longer[i] == channel);
            }
            assert(longer[shorter.len() as int] == upto - 1);
        }
    }
}

/// Sharing is chosen where the unique elements are at most the given part of all, and
/// stays chosen where fewer are unique or more is allowed.
pub proof fn law_sharing_is_chosen_where_it_saves(
    estimate: SparseCostEstimate,
    fewer: SparseCostEstimate,
    milli: u16,
    more: u16,
)
    requires
        estimate.unique_posting_elements * 1000 <= usize::MAX,
        estimate.logical_posting_elements * 65535 <= usize::MAX,
        fewer.unique_posting_elements <= estimate.unique_posting_elements,
        fewer.logical_posting_elements == estimate.logical_posting_elements,
        milli <= more,
    ensures
        saves_enough(estimate, milli) <==> estimate.logical_posting_elements > 0
            && estimate.unique_posting_elements * 1000 <= estimate.logical_posting_elements * milli,
        saves_enough(estimate, milli) ==> saves_enough(fewer, milli),
        saves_enough(estimate, milli) ==> saves_enough(estimate, more),
{
    let all = estimate.logical_posting_elements as int;
    assert(all * milli <= all * more <= all * 65535) by (nonlinear_arith)
        requires
            all >= 0,
            milli <= more <= 65535,
    ;
}

/// What is decided for sparse channels: a strategy that leaves nothing open stays, the
/// others become shared or independent streams of the same batch size, and the decision
/// says which.
pub proof fn law_sparse_decisions(
    strategy: SparseStreamStrategy,
    estimate: SparseCostEstimate,
    deduplicated: SparseCostEstimate,
)
    ensures
        ({
            let decided = decision(strategy, estimate, deduplicated);
            &&& !(strategy is AutoShared) && !(strategy is AutoSharedLazy) ==> decided.strategy
                == strategy && !decided.auto_requested
            &&& strategy is AutoShared ==> {
                &&& decided.auto_requested
                &&& decided.auto_selected_shared <==> saves_enough(
                    estimate,
                    strategy->max_unique_to_logical_milli,
                )
                &&& decided.auto_selected_shared ==> decided.strategy
                    == SparseStreamStrategy::SharedFull
                &&& !decided.auto_selected_shared ==> decided.strategy == (
                SparseStreamStrategy::PostingBlock { batch_size: strategy->AutoShared_batch_size })
            }
            &&& strategy is AutoSharedLazy ==> {
                &&& decided.auto_requested
                &&& decided.auto_selected_shared <==> estimate.unique_posting_elements
                    < deduplicated.logical_posting_elements
                &&& decided.auto_selected_shared ==> decided.strategy == (
                SparseStreamStrategy::SharedLazy {
                    batch_size: strategy->AutoSharedLazy_batch_size,
                })
                &&& !decided.auto_selected_shared ==> decided.strategy == (
                SparseStreamStrategy::PostingBlock {
                    batch_size: strategy->AutoSharedLazy_batch_size,
                })
            }
            &&& decided.probe_then_shared_requested <==> strategy is ProbeThenShared
            &&& strategy is SharedFull ==> decided.auto_selected_shared
            &&& strategy is AutoShared || strategy is AutoSharedLazy || strategy is ProbeThenShared
                ==> decided.estimate == estimate
            &&& decided.estimated_deduplicated_posting_elements == (if strategy is AutoSharedLazy {
                deduplicated.logical_posting_elements
            } else {
                0
            })
        }),
{
}

/// Sparse channels share the streams of equal queries exactly where every channel would
/// have a stream of its own.
pub proof fn law_replayed_strategies(strategy: SparseStreamStrategy)
    ensures
        replays_sparse(strategy) <==> !(strategy is SharedFull) && !(strategy is AutoShared) && !(
        strategy is SharedLazy) && !(strategy is AutoSharedLazy),
{
}

/// The strategy of searches that give none is adaptive, in batches of 4096.
pub proof fn law_default_sparse_strategy()
    ensures
        default_sparse_strategy() == (SparseStreamStrategy::AdaptiveNative {
            initial_limit: 4096,
            growth_factor: 2,
            batch_size: 4096,
            endpoint_trend_router: false,
        }),
{
}

/// What is said of a sparse channel tells how its stream was obtained.
pub proof fn law_sparse_reports(strategy: SparseStreamStrategy, yielded: usize)
    ensures
        sparse_report(strategy, yielded) is Sparse <==> strategy is DocumentBlock,
        sparse_report(strategy, yielded) is SparseAdaptive <==> strategy is AdaptiveNative,
        sparse_report(strategy, yielded) is SparsePosting <==> strategy is PostingBlock
            || strategy is ProbeThenShared,
        sparse_report(strategy, yielded) is SparseSharedPosting <==> strategy is SharedLazy
            || strategy is AutoSharedLazy,
        sparse_report(strategy, yielded) matches ExactChannelTelemetry::SparseShared(shared)
            ==> shared.points_emitted == yielded,
        !(sparse_report(strategy, yielded) is Dense),
{
}

/// Independent dense channels traverse the documents once each, document-major ones once
/// together, and none not at all.
pub proof fn law_dense_passes(channels: usize)
    ensures
        passes_for(channels, DenseStreamStrategy::Independent) == channels,
        passes_for(channels, DenseStreamStrategy::ReplayIdentical) == channels,
        channels > 0 ==> passes_for(channels, DenseStreamStrategy::SharedDocumentMajor) == 1,
        passes_for(0, DenseStreamStrategy::SharedDocumentMajor) == 0,
{
}

proof fn lemma_keyed_count(ids: Seq<u32>, id: u32)
    ensures
        keyed(ids).to_multiset().count(
            RankEntry { score: 0, id: ExtendedPointId::NumId(id as u64), slot: 0 },
        ) == ids.to_multiset().count(id),
    decreases ids.len(),
{
    broadcast use vstd::seq_lib::group_to_multiset_ensures;

    if ids.len() == 0 {
        assert(keyed(ids).to_multiset() =~= Multiset::empty());
        assert(ids.to_multiset() =~= Multiset::empty());
    } else {
        let shorter = ids.drop_last();
        lemma_keyed_count(shorter, id);
        assert(ids =~= shorter.push(ids.last()));
        assert(keyed(ids) =~= keyed(shorter).push(
            RankEntry { score: 0, id: ExtendedPointId::NumId(ids.last() as u64), slot: 0 },
        ));
    }
}

/// Two lists hold the same identities where each occurs equally often in both.
pub proof fn law_same_identities(left: Seq<u32>, right: Seq<u32>)
    ensures
        same_identities(left, right) <==> left.to_multiset() == right.to_multiset(),
{
    broadcast use vstd::seq_lib::group_to_multiset_ensures;

    if same_identities(left, right) {
        assert forall|id: u32| left.to_multiset().count(id) == right.to_multiset().count(id) by {
            lemma_keyed_count(left, id);
            lemma_keyed_count(right, id);
        }
        assert(left.to_multiset() =~= right.to_multiset());
    }
    if left.to_multiset() == right.to_multiset() {
        assert forall|entry: RankEntry|
            keyed(left).to_multiset().count(entry) == keyed(right).to_multiset().count(entry) by {
            if keyed(left).contains(entry) {
                let i = choose|i: int| 0 <= i < keyed(left).len() && keyed(left)[i] == entry;
                lemma_keyed_count(left, left[i]);
                lemma_keyed_count(right, left[i]);
            } else if keyed(right).contains(entry) {
                let i = choose|i: int| 0 <= i < keyed(right).len() && keyed(right)[i] == entry;
                lemma_keyed_count(left, right[i]);
                lemma_keyed_count(right, right[i]);
            } else {
                assert(keyed(left).to_multiset().count(entry) == 0);
                assert(keyed(right).to_multiset().count(entry) == 0);
            }
        }
        assert(keyed(left).to_multiset() =~= keyed(right).to_multiset());
    }
}

/// A ranking of offsets ranks each offset under its own number, in the same order.
pub proof fn law_offsets_are_identities(ranking: Seq<u32>, at: int)
    requires
        0 <= at < ranking.len(),
    ensures
        offset_ids(ranking).len() == ranking.len(),
        offset_ids(ranking)[at] == ExtendedPointId::NumId(ranking[at] as u64),
{
}

/// A probe reads every sparse channel to its depth and no dense one; one of depth zero
/// is empty.
pub proof fn law_probes(
    queries: Seq<ExactChannelQuery>,
    depth: usize,
    batch_size: usize,
    source: int,
)
    requires
        0 <= source < queries.len(),
    ensures
        probe_targets(queries, depth).len() == queries.len(),
        queries[source] is Sparse ==> probe_targets(queries, depth)[source] == Some(depth),
        queries[source] is Dense ==> probe_targets(queries, depth)[source] is None,
        is_empty_probe(
            SparseStreamStrategy::ProbeThenShared { batch_size, probe_depth: depth },
        ) <==> depth == 0,
        probe_depth_of(
            SparseStreamStrategy::ProbeThenShared { batch_size, probe_depth: depth },
        ) == depth,
{
}

/// What a handover repeats is what the channels that have not ended have yielded.
pub proof fn law_repeated_identities_add_up(view: ProgressView, places: Seq<usize>, next: usize)
    ensures
        replayed_count(view, Seq::<usize>::empty(), 0) == 0,
        replayed_count(view, places.push(next), places.len() as int + 1) == replayed_count(
            view,
            places,
            places.len() as int,
        ) + (if view.fusion.exhausted[next as int] {
            0
        } else {
            view.fusion.histories[next as int].len() as int
        }),
{
    lemma_repeated_agrees(view, places.push(next), places, places.len() as int);
}

proof fn lemma_repeated_agrees(
    view: ProgressView,
    left: Seq<usize>,
    right: Seq<usize>,
    upto: int,
)
    requires
        upto <= left.len(),
        upto <= right.len(),
        forall|i: int| 0 <= i < upto ==> #[trigger] left[i] == right[i],
    ensures
        replayed_count(view, left, upto) == replayed_count(view, right, upto),
    decreases upto,
{
    if upto > 0 {
        lemma_repeated_agrees(view, left, right, upto - 1);
    }
}

/// A channel gets a ranking where there is one for its place and a place for it.
pub proof fn law_lists_for_places(places: Seq<usize>, lists: Seq<Vec<u32>>)
    ensures
        list_count(places, lists) <= places.len(),
        list_count(places, lists) <= lists.len(),
        list_count(places, lists) == places.len() || list_count(places, lists) == lists.len(),
{
}

/// A channel that has ended keeps its stream, whatever the ranking says.
pub proof fn law_ended_channels_keep_their_stream(
    view: ProgressView,
    places: Seq<usize>,
    lists: Seq<Vec<u32>>,
    at: int,
)
    requires
        view.fusion.exhausted[places[at] as int],
    ensures
        replacement_fault(view, places, lists, at) is None,
{
}

/// Tables give the score that stands at a document's place under its channel, and zero
/// outside of them.
pub proof fn law_tables_give_their_scores(tables: ScoreTables, channel: usize, place: usize)
    ensures
        channel < tables.keys@.len() && place < tables.keys@[channel as int]@.len() ==> tables.at(
            channel,
            place,
        ) == tables.keys@[channel as int]@[place as int],
        channel >= tables.keys@.len() ==> tables.at(channel, place) == 0,
        channel < tables.keys@.len() && place >= tables.keys@[channel as int]@.len()
            ==> tables.at(channel, place) == 0,
{
}

/// Channels of a kind share streams only where sharing is on for that kind, and a channel
/// uses the stream of another only where it asks the same with the same weight.
pub proof fn law_channels_that_share(sharing: Sharing, source: int, other: int)
    ensures
        sharing.queries[source] is Dense ==> (sharing.enabled(source) <==> sharing.dense),
        sharing.queries[source] is Sparse ==> (sharing.enabled(source) <==> sharing.sparse),
        sharing.can_use(source, other) ==> sharing.enabled(source) && query_content(
            sharing.queries[source],
        ) == query_content(sharing.queries[other]) && weight_of(sharing.weights, source)
            == weight_of(sharing.weights, other),
{
}

/// A stream that was not read has yielded and kept nothing, and all of its readers stand at
/// the beginning.
pub proof fn law_unread_streams(readers: nat, reader: int)
    requires
        0 <= reader < readers,
    ensures
        unread(readers).produced.len() == 0,
        unread(readers).base == 0,
        unread(readers).peak == 0,
        unread(readers).readers.len() == readers,
        unread(readers).readers[reader] == Some(0usize),
        !unread(readers).exhausted,
        !unread(readers).cancelled,
{
}

/// The capacity for points is one more than the largest identity, and nothing where there
/// is no point.
pub proof fn law_point_capacity(ids: Seq<u32>, capacity: u64, other: u64)
    requires
        is_capacity(ids, capacity),
    ensures
        ids.len() == 0 <==> capacity == 0,
        forall|i: int| 0 <= i < ids.len() ==> #[trigger] ids[i] < capacity,
        capacity > 0 ==> ids.contains((capacity - 1) as u32),
        is_capacity(ids, other) ==> other == capacity,
{
    if ids.len() > 0 {
        let i = choose|i: int| 0 <= i < ids.len() && #[trigger] ids[i] + 1 == capacity;
        assert(ids.contains(ids[i]));
        if is_capacity(ids, other) {
            let j = choose|j: int| 0 <= j < ids.len() && #[trigger] ids[j] + 1 == other;
            assert(ids[i] < other && ids[j] < capacity);
        }
    }
}

/// A channel is reported by its kind; one that another stands for, or that was not asked,
/// has done nothing.
pub proof fn law_channel_reports<'a, S, K: ChannelKeys>(
    query: ExactChannelQuery,
    strategy: SparseStreamStrategy,
    documents: usize,
    first: bool,
    replay: ReplayView,
    producer: Option<ChannelSource<'a, S, K>>,
)
    ensures
        ({
            let report = channel_report(query, strategy, documents, first, replay, producer);
            &&& report is Dense <==> query is Dense
            &&& query is Dense && (!first || replay.produced.len() == 0 && !replay.exhausted)
                ==> report == ExactChannelTelemetry::Dense(
                DenseQuantizedTelemetry {
                    quantized_scores: 0,
                    exact_scores: 0,
                    points_emitted: 0,
                },
            )
            &&& query is Sparse && first ==> report == sparse_report(
                strategy,
                replay.produced.len() as usize,
            )
            &&& query is Sparse && !first ==> report == sparse_report(strategy, 0)
            &&& query is Dense && first && replay.exhausted ==> (producer matches Some(
                ChannelSource::Dense(stream),
            ) ==> report == ExactChannelTelemetry::Dense(
                DenseQuantizedTelemetry {
                    quantized_scores: documents,
                    exact_scores: stream.scored().len() as usize,
                    points_emitted: stream.emitted(),
                },
            ))
        }),
{
}

/// What is decided about sparse channels follows the estimate that was answered; an
/// estimate that fails fails the search.
pub proof fn law_decisions_follow_estimates(
    strategy: SparseStreamStrategy,
    estimate: SparseCostEstimate,
    deduplicated: SparseCostEstimate,
    message: String,
    decided: SparseDecision,
)
    ensures
        follows_estimate(strategy, Ok((estimate, deduplicated)), Ok(decided)) <==> decided
            == decision(strategy, estimate, deduplicated),
        follows_estimate(
            strategy,
            Err(message),
            Err(NChannelExactError::SparsePosting(message)),
        ),
        !follows_estimate(strategy, Err(message), Ok(decided)),
        doubled(Ok(estimate)) == Ok::<(SparseCostEstimate, SparseCostEstimate), String>(
            (estimate, estimate),
        ),
        doubled(Err(message)) == Err::<(SparseCostEstimate, SparseCostEstimate), String>(message),
{
}

/// A ranking that takes the place of a stream goes on behind what the channel has yielded;
/// nothing else of the session changes.
pub proof fn law_replaced_streams(
    state: ChannelState,
    source: int,
    ranking: Seq<ExtendedPointId>,
    other: int,
)
    requires
        0 <= source < state.rests.len(),
        0 <= other < state.rests.len(),
        other != source,
    ensures
        state.replaced_by(source, ranking).rests[source] == Some(
            ranking.skip(state.view.fusion.histories[source].len() as int),
        ),
        state.replaced_by(source, ranking).rests[other] == state.rests[other],
        state.replaced_by(source, ranking).view == state.view,
        state.replaced_by(source, ranking).replays == state.replays,
        state.replaced_by(source, ranking).groups == state.groups,
        state.replaced_by(source, ranking).readers == state.readers,
{
}

/// A search begins with streams that were not read; each has a reader for every channel of
/// its group, and a channel reads behind the earlier ones of its group.
pub proof fn law_fresh_channels(
    groups: Seq<usize>,
    streams: nat,
    top_k: usize,
    rrf_k: usize,
    weights: Option<Seq<i64>>,
    policy: DynamicRrfPolicy,
    group: int,
    source: int,
)
    requires
        groups.len() <= usize::MAX,
        0 <= group < streams,
        0 <= source < groups.len(),
    ensures
        ({
            let state = fresh_channels(groups, streams, top_k, rrf_k, weights, policy);
            &&& state.groups == groups
            &&& state.replays.len() == streams
            &&& state.replays[group] == unread(
                members_of_group(groups, group, groups.len() as int).len(),
            )
            &&& state.rests[source] is None
            &&& state.readers[source] == members_of_group(groups, groups[source] as int, source).len()
            &&& state.view.fusion.histories.len() == groups.len()
            &&& state.view.fusion.histories[source].len() == 0
            &&& state.view.fusion.top_k == top_k
            &&& state.view.fusion.rrf_k == rrf_k
        }),
{
    lemma_members(groups, groups[source] as int, source);
    lemma_few_members(groups, groups[source] as int, source);
}

proof fn lemma_few_members(groups: Seq<usize>, group: int, upto: int)
    requires
        0 <= upto <= groups.len(),
    ensures
        members_of_group(groups, group, upto).len() <= upto,
    decreases upto,
{
    if upto > 0 {
        lemma_few_members(groups, group, upto - 1);
    }
}

/// A run returns what its fusion has come to, with what its probe did, or its failure.
pub proof fn law_ended_runs(
    execution: DynamicRrfExecution,
    error: OperationError,
    selected: bool,
    depth: usize,
    replayed: usize,
    result: Result<ChannelRun, NChannelExactError>,
)
    ensures
        ends_run(Ok(execution), selected, depth, replayed, result) ==> (result matches Ok(run)
            && run.execution == execution && run.probe_selected_shared == selected
            && run.probe_depth == depth && run.prefix_replayed == replayed),
        ends_run(Err(error), selected, depth, replayed, result) ==> result == Err::<
            ChannelRun,
            NChannelExactError,
        >(NChannelExactError::Fusion(error)),
{
}

/// A dense query does not fit where its channel is searched and it has another dimension or
/// a coordinate that is not finite.
pub proof fn law_misfitting_queries(
    index: DenseQuantizedIndex,
    queries: Seq<ExactChannelQuery>,
    flags: Seq<bool>,
    channel: int,
    query: Vec<u32>,
)
    requires
        0 <= channel < queries.len(),
        queries[channel] == ExactChannelQuery::Dense(query),
    ensures
        misfits(index, queries, flags, channel) <==> flags[channel] && (query@.len() != index.dims()
            || !finite_vector(query@)),
        dense_query(queries[channel]) == query@,
{
}

/// A ranking of documents holds the identity of each, from the highest score, and equal
/// scores from the smallest identity.
pub proof fn law_document_ranking_falls_by_score(
    index: DenseQuantizedIndex,
    scores: spec_fn(int) -> Option<i64>,
    point: int,
    i: int,
    j: int,
)
    requires
        index.tree().wf(),
        forall|at: int| 0 <= at < index.tree().ids@.len() ==> #[trigger] scores(at) is Some,
        0 <= point < index.tree().ids@.len(),
        0 <= i < j < document_ranking(index, scores).len(),
    ensures
        document_ranking(index, scores).len() == index.tree().ids@.len(),
        document_ranking(index, scores).contains(
            ExtendedPointId::NumId(index.tree().ids@[point] as u64),
        ),
        exists|left: int, right: int|
            {
                &&& 0 <= left < index.tree().ids@.len()
                &&& 0 <= right < index.tree().ids@.len()
                &&& document_ranking(index, scores)[i] == ExtendedPointId::NumId(
                    (#[trigger] index.tree().ids@[left]) as u64,
                )
                &&& document_ranking(index, scores)[j] == ExtendedPointId::NumId(
                    (#[trigger] index.tree().ids@[right]) as u64,
                )
                &&& scores(left)->0 > scores(right)->0 || scores(left)->0 == scores(right)->0
                    && index.tree().ids@[left] < index.tree().ids@[right]
            },
{
    let tree = index.tree();
    let held = all_points(tree.ids@.len());
    lemma_counted(tree.ids@.len() as int, |at: int| true);
    assert(held =~= counted_places(tree.ids@.len() as int, |at: int| true));
    lemma_all_counted(tree.ids@.len() as int);
    law_exact_order_is_exhaustive(tree, scores, held);
    law_exact_order_falls_by_score(tree, scores, held, i, j);
    let order = exact_order(tree, scores, held);
    let left = order[i];
    let right = order[j];
    assert(tree.ids@[left] == tree.ids@[left] && tree.ids@[right] == tree.ids@[right]);
    assert(order.contains(point));
    let at = choose|at: int| 0 <= at < order.len() && order[at] == point;
    assert(document_ranking(index, scores)[at] == ExtendedPointId::NumId(
        tree.ids@[point] as u64,
    ));
}

proof fn lemma_all_counted(upto: int)
    requires
        0 <= upto,
    ensures
        counted_places(upto, |at: int| true).len() == upto,
    decreases upto,
{
    lemma_counted(upto, |at: int| true);
    if upto > 0 {
        lemma_all_counted(upto - 1);
    }
}

proof fn lemma_flagged(queries: Seq<ExactChannelQuery>, flags: Seq<bool>, upto: int)
    requires
        0 <= upto <= queries.len(),
    ensures
        flagged_dense(queries, flags, upto) == counted_places(
            upto,
            |at: int| queries[at] is Dense && flags[at],
        ).len(),
    decreases upto,
{
    lemma_counted(upto, |at: int| queries[at] is Dense && flags[at]);
    if upto > 0 {
        lemma_flagged(queries, flags, upto - 1);
    }
}

/// What a search says of its channels: how many there are, how often they were pulled, how
/// many are dense, how often the documents were traversed and compared for them, and what
/// was decided about the sparse ones.
pub proof fn law_search_figures(
    queries: Seq<ExactChannelQuery>,
    weight_bits: Option<Seq<u32>>,
    dense_strategy: DenseStreamStrategy,
    decided: SparseDecision,
    document_count: usize,
    found: NChannelExactSearchResult,
)
    requires
        describes(queries, weight_bits, dense_strategy, decided, document_count, found),
        total(found.execution.source_pulls@) <= usize::MAX,
        document_count * queries.len() <= usize::MAX,
    ensures
        ({
            let physical = found.physical;
            let dense = counted_places(
                queries.len() as int,
                |at: int| queries[at] is Dense,
            ).len();
            &&& physical.logical_rank_streams == queries.len()
            &&& found.execution.source_pulls@.len() == queries.len()
            &&& physical.logical_rank_pulls == total(found.execution.source_pulls@)
            &&& physical.dense_channels == dense
            &&& physical.dense_physical_channels <= dense
            &&& !(dense_strategy is ReplayIdentical) ==> physical.dense_physical_channels == dense
            &&& !(dense_strategy is SharedDocumentMajor) ==> physical.dense_document_major_passes
                == physical.dense_physical_channels
            &&& dense_strategy is SharedDocumentMajor ==> physical.dense_document_major_passes == (
            if physical.dense_physical_channels == 0 {
                0usize
            } else {
                1
            })
            &&& physical.dense_document_rows_traversed == document_count
                * physical.dense_document_major_passes
            &&& physical.dense_logical_dot_products == document_count * physical.dense_channels
            &&& physical.dense_physical_dot_products == document_count
                * physical.dense_physical_channels
            &&& physical.sparse_auto_requested == decided.auto_requested
            &&& physical.sparse_auto_selected_shared == decided.auto_selected_shared
            &&& physical.sparse_probe_then_shared_requested == decided.probe_then_shared_requested
            &&& physical.sparse_estimated_unique_posting_elements
                == decided.estimate.unique_posting_elements
            &&& physical.sparse_estimated_logical_posting_elements
                == decided.estimate.logical_posting_elements
            &&& physical.sparse_estimated_deduplicated_posting_elements
                == decided.estimated_deduplicated_posting_elements
            &&& physical.sparse_probe_selected_shared ==> decided.strategy is ProbeThenShared
            &&& !physical.sparse_probe_selected_shared
                ==> physical.sparse_prefix_identities_replayed == 0
        }),
{
    let physical = found.physical;
    let pulls = found.execution.source_pulls@;
    let count = queries.len() as int;
    law_pulls_add_up(pulls);
    let all = Seq::new(queries.len(), |i: int| true);
    lemma_flagged(queries, all, count);
    assert(counted_places(count, |at: int| queries[at] is Dense && all[at]) =~= counted_places(
        count,
        |at: int| queries[at] is Dense,
    ));
    let flags = choose|flags: Seq<bool>|
        {
            &&& #[trigger] are_dense_flags(queries, weight_bits, dense_strategy, flags)
            &&& physical.dense_physical_channels == flagged_dense(queries, flags, count)
        };
    lemma_flagged(queries, flags, count);
    let searched = counted_places(count, |at: int| queries[at] is Dense && flags[at]);
    let dense = counted_places(count, |at: int| queries[at] is Dense);
    lemma_counted(count, |at: int| queries[at] is Dense);
    lemma_counted(count, |at: int| queries[at] is Dense && flags[at]);
    assert(searched.subset_of(dense));
    vstd::set_lib::lemma_len_subset(searched, dense);
    if !(dense_strategy is ReplayIdentical) {
        assert(searched =~= dense);
    }
    lemma_few_dense(count, |at: int| queries[at] is Dense);
    assert(document_count * physical.dense_channels <= document_count * queries.len())
        by (nonlinear_arith)
        requires
            physical.dense_channels <= queries.len(),
            document_count >= 0,
    ;
    assert(document_count * physical.dense_physical_channels <= document_count * queries.len())
        by (nonlinear_arith)
        requires
            physical.dense_physical_channels <= queries.len(),
            document_count >= 0,
    ;
    assert(document_count * physical.dense_document_major_passes <= document_count * queries.len())
        by (nonlinear_arith)
        requires
            physical.dense_document_major_passes <= queries.len(),
            document_count >= 0,
    ;
}

proof fn lemma_few_dense(upto: int, meant: spec_fn(int) -> bool)
    requires
        0 <= upto,
    ensures
        counted_places(upto, meant).len() <= upto,
    decreases upto,
{
    lemma_counted(upto, meant);
    if upto > 0 {
        lemma_few_dense(upto - 1, meant);
    }
}

/// A search has a stream for every group of channels; a group has pulled what one of its
/// channels has at least read, and, unless the shared evaluation took over, no channel has
/// read more than its group has pulled.
pub proof fn law_stream_figures(
    groups: Seq<usize>,
    representatives: Seq<usize>,
    pulls: Seq<usize>,
    peaks: Seq<usize>,
    found: NChannelExactSearchResult,
    group: int,
    source: int,
)
    requires
        describes_streams(groups, representatives, pulls, peaks, found),
        groups.len() == found.execution.source_pulls@.len(),
        0 <= group < representatives.len(),
        0 <= source < groups.len(),
        groups[source] == group,
    ensures
        found.physical.physical_rank_streams == representatives.len(),
        pulls.len() == representatives.len(),
        !found.physical.sparse_probe_selected_shared ==> found.execution.source_pulls@[source]
            <= pulls[group],
        pulls[group] > 0 ==> exists|reader: int|
            0 <= reader < groups.len() && #[trigger] groups[reader] == group && pulls[group]
                <= found.execution.source_pulls@[reader],
        found.physical.shared_rank_stream_groups == tally(
            group_members(groups, representatives.len()),
            pulls,
            peaks,
            found.execution.source_pulls@,
            representatives.len() as int,
        ).0,
        found.physical.physical_rank_pulls == tally(
            group_members(groups, representatives.len()),
            pulls,
            peaks,
            found.execution.source_pulls@,
            representatives.len() as int,
        ).1,
        found.physical.rank_replay_buffered_identities == tally(
            group_members(groups, representatives.len()),
            pulls,
            peaks,
            found.execution.source_pulls@,
            representatives.len() as int,
        ).2,
{
    let source_pulls = found.execution.source_pulls@;
    let lengths = Seq::new(source_pulls.len(), |at: int| source_pulls[at] as nat);
    let pulled = pulls[group];
    assert(leads_group(groups, pulled as nat, lengths, group));
    if pulled > 0 {
        let reader = choose|reader: int|
            0 <= reader < groups.len() && #[trigger] groups[reader] == group && pulled
                <= lengths[reader];
        assert(lengths[reader] == source_pulls[reader]);
    }
    if !found.physical.sparse_probe_selected_shared {
        assert(ends_group(groups, pulled as nat, lengths, group));
        assert(lengths[source] <= pulled);
    }
}

/// A channel that reads what another reads is searched once, by the first; where dense
/// channels are not shared every one is searched.
pub proof fn law_searched_channels(
    queries: Seq<ExactChannelQuery>,
    weight_bits: Option<Seq<u32>>,
    dense_strategy: DenseStreamStrategy,
    flags: Seq<bool>,
    source: int,
)
    requires
        are_dense_flags(queries, weight_bits, dense_strategy, flags),
        0 <= source < queries.len(),
    ensures
        flags.len() == queries.len(),
        !(dense_strategy is ReplayIdentical) ==> flags[source],
{
}

/// Channels that yield rankings are fused into the first identities of the exhaustive order
/// of the rankings, as many as were asked for, however the sparse ones are obtained.
pub proof fn law_channels_are_fused_exactly<
    S: ExactRrfStream,
    R: Fn(&Vec<RemappedSparseVector>) -> Result<Vec<Vec<u32>>, String>,
    T: Fn() -> bool,
    A: Fn(i64, usize, usize, i64) -> i64,
>(
    queries: Seq<ExactChannelQuery>,
    sources: Seq<S>,
    rankings: Seq<Seq<ExtendedPointId>>,
    top_k: usize,
    rrf_k: usize,
    weights: Seq<i64>,
    policy: DynamicRrfPolicy,
    strategy: SparseStreamStrategy,
    shared_rankings: R,
    stopped: T,
    accumulate: A,
    arithmetic: spec_fn(i64, usize, usize, i64) -> i64,
    order: Seq<ExtendedPointId>,
    result: Result<NChannelExactSearchResult, NChannelExactError>,
)
    requires
        fuses_sources(
            queries,
            Seq::new(queries.len(), |i: int| true),
            sources,
            top_k,
            rrf_k,
            Some(weights),
            policy,
            strategy,
            shared_rankings,
            stopped,
            accumulate,
            result,
        ),
        session_fault(
            queries.len() as usize,
            1,
            rrf_k,
            Some(weights),
            Seq::new(queries.len(), |i: int| UNIT_WEIGHT),
            policy,
        ) is None,
        sources.len() == queries.len(),
        respects_queries(queries, rankings),
        forall|source: int|
            0 <= source < rankings.len() ==> (#[trigger] rankings[source]).no_duplicates()
                && rankings[source].len() <= usize::MAX && sources[source].rest() == Some(
                rankings[source],
            ),
        !(strategy is ProbeThenShared),
        never_stops(stopped),
        computes(accumulate, arithmetic),
        is_rank_arithmetic(arithmetic),
        is_exhaustive_fusion(arithmetic, rankings, rrf_k, weights, order),
    ensures
        result is Ok,
        top_k <= order.len() ==> result->Ok_0.execution.point_ids@ == order.take(top_k as int),
        top_k > order.len() ==> result->Ok_0.execution.point_ids@ == order,
{
    let failures = Seq::new(queries.len(), |i: int| None::<OperationError>);
    let flags = Seq::new(queries.len(), |i: int| true);
    assert(sources_lead(flags, sources, rankings, failures)) by {
        assert forall|source: int| 0 <= source < sources.len() && #[trigger] flags[source] implies
            leads_from_start(
            sources[source].rest(),
            sources[source].failing(),
            rankings[source],
            failures[source],
        ) by {
            let ranking = rankings[source];
        }
    }
    assert(crate::n_channel_exact::are_counted(rankings));
    assert(crate::n_channel_exact::respects_failures(queries, failures));
    if result is Err {
        let error = result->Err_0;
        assert(!failures.contains(Some(error->Fusion_0)));
    }
}

/// A search that is stopped from the beginning is cancelled, one without channels is refused,
/// and one that returns something was asked to go on.
pub proof fn law_stopped_searches<T: Fn() -> bool, A>(
    stopped: T,
    result: Result<A, NChannelExactError>,
)
    ensures
        is_cancelled(stopped, result) ==> result == Err::<A, NChannelExactError>(
            NChannelExactError::Cancelled,
        ) && stopped.ensures((), true),
        never_stops(stopped) ==> !is_cancelled(stopped, result),
{
}

/// The sparse queries of a search are those of its sparse channels, bit by bit and in the
/// order of the channels.
pub proof fn law_sparse_rows(
    row: Seq<RemappedSparseVector>,
    queries: Seq<ExactChannelQuery>,
    at: int,
)
    requires
        are_sparse_queries(row, queries),
        queries.len() <= usize::MAX,
        0 <= at < row.len(),
    ensures
        row.len() == sparse_places(queries, queries.len() as int).len(),
        ({
            let place = sparse_places(queries, queries.len() as int)[at] as int;
            &&& 0 <= place < queries.len()
            &&& queries[place] matches ExactChannelQuery::Sparse(query)
            &&& row[at].indices@ == query.indices@
            &&& row[at].values@ == query.values@
        }),
{
    law_sparse_places(queries);
    let places = sparse_places(queries, queries.len() as int);
    assert(places.contains(places[at]));
    let copy = row[at];
}

/// The queries without repetition are queries of sparse channels, and every sparse channel
/// asks what one of them asks.
pub proof fn law_unique_sparse_queries(
    unique: Seq<RemappedSparseVector>,
    queries: Seq<ExactChannelQuery>,
    weights: Option<Seq<u32>>,
    channel: int,
)
    requires
        are_unique_sparse(unique, queries, weights),
        0 <= channel < queries.len(),
        queries[channel] is Sparse,
    ensures
        exists|at: int|
            0 <= at < unique.len() && (#[trigger] unique[at]).indices@
                == queries[channel]->Sparse_0.indices@ && unique[at].values@
                == queries[channel]->Sparse_0.values@,
{
    let (groups, representatives) = choose|groups: Seq<usize>, representatives: Seq<usize>|
        {
            &&& groups.len() == queries.len()
            &&& #[trigger] (Sharing { queries, weights, dense: false, sparse: true }).is_grouping(
                groups,
                representatives,
            )
            &&& holds_sparse(
                unique,
                queries,
                sparse_representatives(queries, groups, representatives, queries.len() as int),
            )
        };
    let sharing = Sharing { queries, weights, dense: false, sparse: true };
    let group = groups[channel];
    let first = representatives[group as int] as int;
    assert(first == channel || sharing.can_use(channel, first));
    law_channels_that_share(sharing, channel, first);
    assert(groups[first] == group);
    law_sparse_representatives(queries, groups, representatives, first);
    let places = sparse_representatives(queries, groups, representatives, queries.len() as int);
    assert(places.contains(first));
    let at = choose|at: int| 0 <= at < places.len() && places[at] == first;
    assert(is_sparse_copy(unique[at], queries[places[at]]));
}

/// A probe has been read deep enough where every sparse channel was read to the depth or has
/// ended; what is left of one is open where it has not ended.
pub proof fn law_probed_channels(
    queries: Seq<ExactChannelQuery>,
    depth: usize,
    view: ProgressView,
    source: int,
)
    requires
        0 <= source < queries.len(),
        queries[source] is Sparse,
    ensures
        probes_to(queries, depth, view) ==> view.fusion.exhausted[source]
            || view.fusion.histories[source].len() >= depth,
        !view.fusion.exhausted[source] ==> has_open_sparse(queries, view),
{
    let query = queries[source];
    assert(!is_dense(query));
}

/// The rankings of the shared evaluation belong to the sparse channels, each to its own.
pub proof fn law_rankings_of_channels(
    lists: Seq<Vec<u32>>,
    places: Seq<usize>,
    rankings: Seq<Seq<ExtendedPointId>>,
    at: int,
    rank: int,
)
    requires
        are_rankings_at(lists, places, rankings),
        0 <= at < lists.len(),
        0 <= rank < lists[at]@.len(),
    ensures
        lists.len() == places.len(),
        rankings[places[at] as int].len() == lists[at]@.len(),
        rankings[places[at] as int][rank] == ExtendedPointId::NumId(lists[at]@[rank] as u64),
{
    let list = lists[at];
    assert(offset_ids(list@)[rank] == ExtendedPointId::NumId(list@[rank] as u64));
}

/// How sparse channels are obtained is settled without an estimate where the strategy leaves
/// nothing open; a probe of no depth is refused.
pub proof fn law_resolved_strategies<
    E: Fn(&Vec<RemappedSparseVector>) -> Result<SparseCostEstimate, String>,
    D: Fn(&Vec<RemappedSparseVector>, &Vec<RemappedSparseVector>) -> Result<
        (SparseCostEstimate, SparseCostEstimate),
        String,
    >,
>(
    queries: Seq<ExactChannelQuery>,
    weight_bits: Option<Seq<u32>>,
    strategy: SparseStreamStrategy,
    estimate: E,
    estimate_pair: D,
    result: Result<SparseDecision, NChannelExactError>,
)
    requires
        resolves(queries, weight_bits, strategy, estimate, estimate_pair, result),
    ensures
        strategy matches SparseStreamStrategy::ProbeThenShared { batch_size, probe_depth } ==> (
        probe_depth == 0 ==> result == Err::<SparseDecision, NChannelExactError>(
            NChannelExactError::Fusion(OperationError::ValidationError(Fault::ZeroProbeDepth)),
        )),
        !(strategy is AutoShared) && !(strategy is AutoSharedLazy) && !(strategy
            is ProbeThenShared) ==> result is Ok && result->Ok_0.strategy == strategy
            && !result->Ok_0.auto_requested && result->Ok_0.estimate.logical_posting_elements == 0,
        result is Ok && strategy is AutoShared ==> result->Ok_0.strategy
            == SparseStreamStrategy::SharedFull || result->Ok_0.strategy == (
        SparseStreamStrategy::PostingBlock { batch_size: strategy->AutoShared_batch_size }),
        result is Ok && strategy is ProbeThenShared ==> result->Ok_0.strategy == strategy
            && result->Ok_0.probe_then_shared_requested,
        result matches Err(error) ==> error is SparsePosting || error is Fusion,
{
}

/// Channels are opened where every dense query that is searched fits: a dense channel that is
/// searched has a dense stream, one that is not has none, and a sparse one has what opening
/// it gave. Else opening is refused for the query.
pub proof fn law_opened_channels<
    'a,
    S,
    O: Fn(usize, SparseStreamStrategy) -> Result<S, NChannelExactError>,
    Q: Fn(&Vec<u32>) -> QuantizedVector,
    C: Fn(i64, &QuantizedVectorMetadata, &QuantizedVectorMetadata, usize) -> i64,
    K: ChannelKeys,
    T: Fn() -> bool,
>(
    index: DenseQuantizedIndex,
    dense: DenseChannels<Q, C, K>,
    open: O,
    stopped: T,
    strategy: SparseStreamStrategy,
    queries: Seq<ExactChannelQuery>,
    flags: Seq<bool>,
    opened: Result<Seq<ChannelSource<'a, S, K>>, NChannelExactError>,
    channel: usize,
)
    requires
        opens_channels(index, dense, open, stopped, strategy, queries, flags, opened),
        channel < queries.len(),
    ensures
        queries[channel as int] matches ExactChannelQuery::Dense(query) ==> (flags[channel as int]
            && (query@.len() != index.dims() || !finite_vector(query@)) ==> opened == Err::<
            Seq<ChannelSource<'a, S, K>>,
            NChannelExactError,
        >(NChannelExactError::Dense(DenseQuantizedError::InvalidQuery))),
        opened is Ok ==> opened->Ok_0.len() == queries.len(),
        opened is Ok && queries[channel as int] is Dense && flags[channel as int]
            ==> opened->Ok_0[channel as int] is Dense,
        opened is Ok && queries[channel as int] is Dense && !flags[channel as int]
            ==> opened->Ok_0[channel as int] is Idle,
        opened is Ok && queries[channel as int] is Sparse ==> (
        opened->Ok_0[channel as int] matches ChannelSource::Sparse(stream) && open.ensures(
            (channel, strategy),
            Ok(stream),
        )),
{
    if queries[channel as int] is Dense && flags[channel as int] {
        let query = queries[channel as int]->Dense_0;
        law_misfitting_queries(index, queries, flags, channel as int, query);
        if query@.len() != index.dims() || !finite_vector(query@) {
            assert(misfits(index, queries, flags, channel as int));
        }
    }
    if opened is Ok {
        let source = opened->Ok_0[channel as int];
    }
}

} // verus!
