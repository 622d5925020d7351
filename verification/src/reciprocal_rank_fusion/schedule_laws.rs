//! Which source a fusion pulls, when it checks, and what it says of itself.

use super::certificate::is_exhaustive_fusion;
use super::executor::{batches_yield, fuses_batches, fuses_streams, streams_yield};
use super::progress::{session_fault, ProgressView};
use super::responses::{counts_one, ScoredPoint};
use super::scoring::{computes, is_rank_arithmetic};
use super::session::{
    completed, continues_session, is_new_session, is_single_batch, no_targets, replay_fault,
    DynamicRrfSession, DynamicRrfSource,
};
use super::state::{
    all_ended, first_of, fixed_ids, lower_entries, missing_counts, missing_from, FusionView,
    PointBounds, UNIT_WEIGHT,
};
use super::types::{
    ChannelRankBatch, DynamicRrfAdvance, DynamicRrfExecution, DynamicRrfPolicy, DynamicRrfScheduler,
    DynamicRrfStopReason, ExactRrfBatchStream, ExactRrfStream,
};
use crate::operation_error::{Fault, OperationError, OperationResult};
use crate::order::ExtendedPointId;
use crate::rank_queue::ordered;
use vstd::prelude::*;

verus! {

/// A fusion drains its sources once they were pulled as often as its budget allows for all
/// of them, and never without a budget.
pub proof fn law_draining(view: ProgressView, budget: usize)
    requires
        budget * view.count() <= usize::MAX,
    ensures
        view.policy.exhaustive_after_pulls_per_source == Some(budget) ==> (view.draining()
            <==> view.total_pulls >= budget * view.count()),
        view.policy.exhaustive_after_pulls_per_source is None ==> !view.draining(),
{
}

/// While it warms up a fusion checks after every pull of all sources, or as often as its
/// policy says; later after an eighth of its pulls, but at least 64 and at most 1024.
pub proof fn law_check_intervals(view: ProgressView)
    ensures
        view.total_pulls <= view.warmup_pulls && view.policy.warmup_check_interval is None
            ==> view.check_interval() == view.count(),
        view.total_pulls <= view.warmup_pulls && view.policy.warmup_check_interval is Some
            ==> view.check_interval() == view.policy.warmup_check_interval->0,
        view.total_pulls > view.warmup_pulls ==> {
            &&& 64 <= view.check_interval() <= 1024
            &&& 512 <= view.total_pulls <= 8192 ==> view.check_interval() == view.total_pulls / 8
            &&& view.total_pulls < 512 ==> view.check_interval() == 64
            &&& view.total_pulls > 8192 ==> view.check_interval() == 1024
        },
{
}

/// A check is due once every source has ended; before that, unless sources are drained,
/// where it was asked for or enough was pulled since the last one.
pub proof fn law_due_checks(view: ProgressView)
    ensures
        (forall|source: int|
            0 <= source < view.fusion.exhausted.len() ==> #[trigger] view.fusion.exhausted[source])
            ==> view.check_due(),
        (exists|source: int|
            0 <= source < view.fusion.exhausted.len() && !(
            #[trigger] view.fusion.exhausted[source])) ==> (view.check_due() <==> !view.draining()
            && (view.force_check || view.pulls_since_check >= view.check_interval())),
{
}

/// A check counts once, and the counts of missing points are renewed at the first four
/// checks and then at every power of two, by the scheduler that minds them alone.
pub proof fn law_checks_are_counted(view: ProgressView, rows: Seq<PointBounds>, unseen: i64)
    ensures
        view.checks < usize::MAX ==> view.checked().checks == view.checks + 1,
        view.checked().fusion == view.fusion,
        view.checked().schedule == view.schedule,
        view.policy.scheduler == DynamicRrfScheduler::MaxNextContribution ==> !view.refreshes(),
        view.policy.scheduler == DynamicRrfScheduler::CompetitorCostAware && view.checks <= 4
            ==> view.refreshes(),
        view.policy.scheduler == DynamicRrfScheduler::CompetitorCostAware && view.checks > 4 ==> (
        view.refreshes() <==> super::progress::power_of_two(view.checks as nat)),
        view.unfixed(rows, unseen).missing == (if view.checked().refreshes() {
            missing_counts(view.fusion, rows, unseen)
        } else {
            view.missing
        }),
        view.after_due_check(rows, unseen).pulls_since_check == 0,
        !view.after_due_check(rows, unseen).force_check,
        view.after_due_check(rows, unseen).checks == view.checked().checks,
        view.after_due_check(rows, unseen).fusion == view.fusion,
{
}

/// A pause is reached where some source has a target and every one that has is read to it
/// or has ended.
pub proof fn law_pauses(view: ProgressView, targets: Seq<Option<usize>>)
    ensures
        view.pause_reached(targets) <==> (exists|source: int|
            0 <= source < targets.len() && (#[trigger] targets[source]) is Some) && (forall|
            source: int,
        |
            0 <= source < targets.len() && (#[trigger] targets[source]) is Some
                ==> view.fusion.histories[source].len() >= targets[source]->0
                || view.fusion.exhausted[source]),
{
    if view.pause_reached(targets) {
        assert forall|source: int|
            0 <= source < targets.len() && (#[trigger] targets[source]) is Some implies
            view.fusion.histories[source].len() >= targets[source]->0
            || view.fusion.exhausted[source] by {
            assert(view.target_reached(targets, source));
        }
    }
}

/// A source can be pulled where it has not ended and was not read to its target.
pub proof fn law_pullable_sources(view: ProgressView, targets: Seq<Option<usize>>, source: int)
    requires
        0 <= source < view.fusion.weights.len(),
    ensures
        view.eligible(targets, source) <==> !view.fusion.exhausted[source] && (targets[source]
            is None || view.fusion.histories[source].len() < targets[source]->0),
{
}

/// A source starves where it can be pulled and was not for as many actions of every source
/// as the policy allows.
pub proof fn law_starving_sources(
    view: ProgressView,
    targets: Seq<Option<usize>>,
    source: int,
    fairness: usize,
)
    requires
        view.policy.fairness_after_actions_per_source == Some(fairness),
        fairness * view.count() <= usize::MAX,
    ensures
        view.starving(targets, source) <==> view.eligible(targets, source) && view.schedule.len()
            - view.last_advanced[source] >= fairness * view.count(),
{
}

/// What is pulled can be pulled. Where a source starves, it is one that has waited longest;
/// else it is one whose offer no other beats.
pub proof fn law_pulled_sources<
    F: Fn(i64, usize, usize, i64) -> i64,
    P: Fn(usize, usize, i64, usize, i64) -> i64,
>(
    view: ProgressView,
    targets: Seq<Option<usize>>,
    accumulate: F,
    priority: P,
    source: int,
    other: int,
)
    requires
        view.selects(targets, accumulate, priority, source),
    ensures
        view.eligible(targets, source),
        view.starving(targets, other) ==> view.starving(targets, source)
            && view.last_advanced[source] <= view.last_advanced[other],
        view.starving(targets, other) && view.last_advanced[source] == view.last_advanced[other]
            ==> source <= other,
        !(exists|starved: int| #[trigger] view.starving(targets, starved)) && view.eligible(
            targets,
            other,
        ) ==> exists|mine: (i64, i64), its: (i64, i64)|
            {
                &&& #[trigger] view.is_offer(accumulate, priority, source, mine.1, mine.0)
                &&& #[trigger] view.is_offer(accumulate, priority, other, its.1, its.0)
                &&& mine.0 > its.0 || mine.0 == its.0 && mine.1 >= its.1
            },
{
    if view.starving(targets, other) {
        assert(view.has_starving(targets));
    }
    if !(exists|starved: int| #[trigger] view.starving(targets, starved)) && view.eligible(
        targets,
        other,
    ) {
        assert(!view.has_starving(targets));
        let offers = choose|offers: Seq<(i64, i64)>| #[trigger]
            view.best_offer(targets, accumulate, priority, offers, source);
        let mine = offers[source];
        let its = offers[other];
        assert(view.eligible(targets, source) && view.eligible(targets, other));
        assert(view.is_offer(accumulate, priority, source, mine.1, mine.0));
        assert(view.is_offer(accumulate, priority, other, its.1, its.0));
    }
}

/// An offer is what a point at the next rank of the source would gain; the scheduler that
/// minds costs ranks it by the points that miss the source and by its cost, the other by
/// the gain.
pub proof fn law_offers<
    F: Fn(i64, usize, usize, i64) -> i64,
    P: Fn(usize, usize, i64, usize, i64) -> i64,
>(
    view: ProgressView,
    accumulate: F,
    priority: P,
    source: int,
    bound: i64,
    rank: i64,
)
    requires
        view.is_offer(accumulate, priority, source, bound, rank),
    ensures
        call_ensures(
            accumulate,
            (
                0i64,
                view.fusion.histories[source].len() as usize,
                view.fusion.rrf_k,
                view.fusion.weights[source],
            ),
            bound,
        ),
        view.policy.scheduler == DynamicRrfScheduler::MaxNextContribution ==> rank == bound,
        view.policy.scheduler == DynamicRrfScheduler::CompetitorCostAware && view.missing[source]
            > 0 ==> call_ensures(
            priority,
            (
                view.fusion.histories[source].len() as usize,
                view.fusion.rrf_k,
                view.fusion.weights[source],
                view.missing[source],
                view.costs[source],
            ),
            rank,
        ),
{
}

/// A pull is the last action; its source has waited for nothing then, and the others wait
/// for one action more.
pub proof fn law_pulls_are_scheduled(view: ProgressView, source: int, other: int)
    requires
        0 <= source < view.last_advanced.len() <= usize::MAX,
        0 <= other < view.last_advanced.len(),
        view.schedule.len() < usize::MAX,
        other != source,
    ensures
        view.advanced(source).schedule == view.schedule.push(source as usize),
        view.advanced(source).waited(source) == 0,
        view.advanced(source).waited(other) == view.waited(other) + 1,
        view.advanced(source).fusion == view.fusion,
        view.advanced(source).checks == view.checks,
{
}

/// A larger request keeps what was pulled, asks for a check, and warms up for two pulls of
/// every source and requested identity, but never for less than before.
pub proof fn law_raised_requests(view: ProgressView, top_k: usize)
    requires
        top_k * view.count() * 2 <= usize::MAX,
    ensures
        view.raised(top_k).fusion.top_k == top_k,
        view.raised(top_k).fusion.histories == view.fusion.histories,
        view.raised(top_k).fusion.exhausted == view.fusion.exhausted,
        view.raised(top_k).fusion.weights == view.fusion.weights,
        view.raised(top_k).force_check,
        view.raised(top_k).warmup_pulls >= view.warmup_pulls,
        view.raised(top_k).warmup_pulls >= top_k * view.count() * 2,
        view.raised(top_k).warmup_pulls == view.warmup_pulls || view.raised(top_k).warmup_pulls
            == top_k * view.count() * 2,
        view.raised(top_k).checks == view.checks,
        view.raised(top_k).schedule == view.schedule,
{
    assert(top_k * view.count() <= top_k * view.count() * 2) by (nonlinear_arith)
        requires
            top_k * view.count() >= 0,
    ;
}

/// A report counts the identities of every source, says which have ended and how often was
/// checked, and why the fusion stopped.
pub proof fn law_reports(view: ProgressView, execution: DynamicRrfExecution, source: int)
    requires
        view.reported(execution),
        0 <= source < view.fusion.histories.len(),
        view.fusion.histories[source].len() <= usize::MAX,
    ensures
        execution.source_pulls@.len() == view.fusion.histories.len(),
        execution.source_pulls@[source] == view.fusion.histories[source].len(),
        execution.source_exhausted@ == view.fusion.exhausted,
        execution.certification_checks == view.checks,
        execution.stop_reason == DynamicRrfStopReason::AllSourcesExhausted <==> forall|ended: int|
            0 <= ended < view.fusion.exhausted.len() ==> #[trigger] view.fusion.exhausted[ended],
        execution.stop_reason == DynamicRrfStopReason::TopKFixed <==> exists|going: int|
            0 <= going < view.fusion.exhausted.len() && !(#[trigger] view.fusion.exhausted[going]),
{
    assert(all_ended(view.fusion.exhausted) <==> forall|ended: int|
        0 <= ended < view.fusion.exhausted.len() ==> #[trigger] view.fusion.exhausted[ended]);
}

/// A source that has ended misses nothing. Before there are as many points as were asked
/// for, every other source misses those that lack; then it misses the points that can reach
/// the last place and that it has not yielded, and one more where an unseen point can.
pub proof fn law_missing_points(
    view: FusionView,
    rows: Seq<PointBounds>,
    unseen: i64,
    source: int,
)
    requires
        0 <= source < view.weights.len(),
        rows.len() < usize::MAX,
    ensures
        missing_counts(view, rows, unseen).len() == view.weights.len(),
        view.exhausted[source] ==> missing_counts(view, rows, unseen)[source] == 0,
        !view.exhausted[source] && rows.len() < view.top_k ==> missing_counts(
            view,
            rows,
            unseen,
        )[source] == view.top_k - rows.len(),
        !view.exhausted[source] && rows.len() >= view.top_k ==> ({
            let last = ordered(lower_entries(rows))[view.top_k - 1].score;
            missing_counts(view, rows, unseen)[source] == rows.filter(
                missing_from(view.histories[source], last),
            ).len() + (if unseen >= last {
                1int
            } else {
                0
            })
        }),
{
    if !view.exhausted[source] && rows.len() >= view.top_k {
        let last = ordered(lower_entries(rows))[view.top_k - 1].score;
        lemma_filter_is_no_longer(rows, missing_from(view.histories[source], last));
    }
}

proof fn lemma_filter_is_no_longer(rows: Seq<PointBounds>, kept: spec_fn(PointBounds) -> bool)
    ensures
        rows.filter(kept).len() <= rows.len(),
    decreases rows.len(),
{
    reveal(Seq::filter);
    if rows.len() > 0 {
        lemma_filter_is_no_longer(rows.drop_last(), kept);
    }
}

/// Nothing is asked for where no identity is: the answer is empty and needs no check.
pub proof fn law_empty_request(
    rows: Seq<PointBounds>,
    unseen: i64,
    exhausted: Seq<bool>,
    top_k: usize,
    order: Seq<ExtendedPointId>,
)
    ensures
        fixed_ids(rows, unseen, exhausted, 0) == Some(Seq::<ExtendedPointId>::empty()),
        fixed_ids(rows, unseen, exhausted, top_k) is Some ==> fixed_ids(
            rows,
            unseen,
            exhausted,
            top_k,
        )->0.len() <= top_k,
        first_of(order, top_k).len() <= top_k,
{
}

/// An identity is refused where its source does not exist, has ended, or has yielded it.
pub proof fn law_refused_identities(view: FusionView, source: usize, id: ExtendedPointId)
    ensures
        view.observe_fault(source, id) == Some(Fault::SourceOutOfRange { source }) <==> source
            >= view.weights.len(),
        view.observe_fault(source, id) == Some(Fault::SourceExhausted { source }) <==> source
            < view.weights.len() && view.exhausted[source as int],
        view.observe_fault(source, id) == Some(Fault::DuplicateInSource { source, id })
            <==> source < view.weights.len() && !view.exhausted[source as int]
            && view.histories[source as int].contains(id),
        view.observe_fault(source, id) is None <==> source < view.weights.len()
            && !view.exhausted[source as int] && !view.histories[source as int].contains(id),
{
}

/// Whether a ranking holds what a source has yielded at a rank.
pub open spec fn holds_at(
    history: Seq<ExtendedPointId>,
    replacement: Seq<ExtendedPointId>,
    rank: int,
) -> bool {
    rank < replacement.len() && replacement[rank] == history[rank]
}

/// Whether a ranking holds what a source has yielded, between two ranks.
pub open spec fn goes_along(
    history: Seq<ExtendedPointId>,
    replacement: Seq<ExtendedPointId>,
    from: int,
    upto: int,
) -> bool {
    forall|rank: int| from <= rank < upto ==> #[trigger] holds_at(history, replacement, rank)
}

/// Whether a rank is the first from a given one at which a ranking ends or holds another
/// identity than a source has yielded.
pub open spec fn parts_at(
    history: Seq<ExtendedPointId>,
    replacement: Seq<ExtendedPointId>,
    from: int,
    rank: int,
) -> bool {
    &&& from <= rank < history.len()
    &&& !holds_at(history, replacement, rank)
    &&& goes_along(history, replacement, from, rank)
}

/// A ranking can take the place of a source where it begins with all that the source has
/// yielded; else the first rank at which it ends or disagrees is named.
pub proof fn law_replacements(
    history: Seq<ExtendedPointId>,
    replacement: Seq<ExtendedPointId>,
    source: usize,
    from: int,
)
    requires
        0 <= from,
        history.len() <= usize::MAX,
    ensures
        replay_fault(history, replacement, source, from) is None <==> goes_along(
            history,
            replacement,
            from,
            history.len() as int,
        ),
        replay_fault(history, replacement, source, from) is Some ==> exists|rank: int|
            {
                &&& #[trigger] parts_at(history, replacement, from, rank)
                &&& rank >= replacement.len() ==> replay_fault(history, replacement, source, from)
                    == Some(Fault::ReplacementEnded { source, rank: rank as usize })
                &&& rank < replacement.len() ==> replay_fault(history, replacement, source, from)
                    == Some(
                    Fault::ReplacementDisagrees {
                        source,
                        rank: rank as usize,
                        observed: history[rank],
                        replacement: replacement[rank],
                    },
                )
            },
    decreases history.len() - from,
{
    if from < history.len() {
        let first = history[from];
        if from < replacement.len() && replacement[from] == first {
            law_replacements(history, replacement, source, from + 1);
            if replay_fault(history, replacement, source, from) is Some {
                let rank = choose|rank: int|
                    {
                        &&& #[trigger] parts_at(history, replacement, from + 1, rank)
                        &&& rank >= replacement.len() ==> replay_fault(
                            history,
                            replacement,
                            source,
                            from + 1,
                        ) == Some(Fault::ReplacementEnded { source, rank: rank as usize })
                        &&& rank < replacement.len() ==> replay_fault(
                            history,
                            replacement,
                            source,
                            from + 1,
                        ) == Some(
                            Fault::ReplacementDisagrees {
                                source,
                                rank: rank as usize,
                                observed: history[rank],
                                replacement: replacement[rank],
                            },
                        )
                    };
                assert(holds_at(history, replacement, from));
                assert(parts_at(history, replacement, from, rank));
            } else {
                assert(holds_at(history, replacement, from));
            }
        } else {
            assert(parts_at(history, replacement, from, from));
        }
    }
}

/// A point that is counted adds its rank to the score of its row and changes nothing else:
/// a row keeps what it was first seen with, and a new identity gets a row of its own.
pub proof fn law_counted_points<F: Fn(i64, usize, usize, i64) -> i64>(
    accumulate: F,
    before: Seq<ScoredPoint>,
    point: ScoredPoint,
    position: usize,
    rrf_k: usize,
    weight: i64,
    after: Seq<ScoredPoint>,
    row: int,
)
    requires
        counts_one(accumulate, before, point, position, rrf_k, weight, after),
        0 <= row < before.len(),
    ensures
        before.len() <= after.len() <= before.len() + 1,
        after[row].id == before[row].id,
        after[row].version == before[row].version,
        after[row].attached == before[row].attached,
        before[row].id != point.id ==> after[row] == before[row],
        (forall|other: int|
            0 <= other < before.len() ==> (#[trigger] before[other]).id != point.id) ==> after.len()
            == before.len() + 1 && after[before.len() as int].id == point.id
            && after[before.len() as int].version == point.version
            && after[before.len() as int].attached == point.attached && call_ensures(
            accumulate,
            (0i64, position, rrf_k, weight),
            after[before.len() as int].score,
        ),
{
}

/// Streams that yield rankings are fused into the first identities of the exhaustive order,
/// as many as were asked for, whatever the policy; a request with a fault is refused for it.
pub proof fn law_streams_are_fused_exactly<
    S: ExactRrfStream,
    F: Fn(i64, usize, usize, i64) -> i64,
    P: Fn(usize, usize, i64, usize, i64) -> i64,
>(
    sources: Seq<S>,
    rankings: Seq<Seq<ExtendedPointId>>,
    top_k: usize,
    rrf_k: usize,
    weights: Seq<i64>,
    policy: DynamicRrfPolicy,
    accumulate: F,
    priority: P,
    arithmetic: spec_fn(i64, usize, usize, i64) -> i64,
    order: Seq<ExtendedPointId>,
    result: OperationResult<DynamicRrfExecution>,
)
    requires
        fuses_streams(
            sources,
            top_k,
            rrf_k,
            Some(weights),
            policy,
            accumulate,
            priority,
            result,
        ),
        session_fault(
            sources.len() as usize,
            1,
            rrf_k,
            Some(weights),
            Seq::new(sources.len(), |i: int| UNIT_WEIGHT),
            policy,
        ) is None,
        rankings.len() == sources.len(),
        forall|source: int|
            0 <= source < sources.len() ==> (#[trigger] sources[source]).rest() == Some(
                rankings[source],
            ) && rankings[source].no_duplicates() && rankings[source].len() <= usize::MAX,
        computes(accumulate, arithmetic),
        is_rank_arithmetic(arithmetic),
        is_exhaustive_fusion(arithmetic, rankings, rrf_k, weights, order),
    ensures
        result is Ok,
        top_k <= order.len() ==> result->Ok_0.point_ids@ == order.take(top_k as int),
        top_k > order.len() ==> result->Ok_0.point_ids@ == order,
{
    assert forall|source: int| 0 <= source < rankings.len() implies (
    #[trigger] rankings[source]).no_duplicates() && rankings[source].len() <= usize::MAX by {
        let stream = sources[source];
    }
    assert(streams_yield(sources, rankings));
}

/// The same holds of streams that yield batches, whatever their size.
pub proof fn law_batches_are_fused_exactly<
    B: ExactRrfBatchStream,
    F: Fn(i64, usize, usize, i64) -> i64,
    P: Fn(usize, usize, i64, usize, i64) -> i64,
>(
    sources: Seq<B>,
    source_batch_size: usize,
    rankings: Seq<Seq<ExtendedPointId>>,
    top_k: usize,
    rrf_k: usize,
    weights: Seq<i64>,
    policy: DynamicRrfPolicy,
    accumulate: F,
    priority: P,
    arithmetic: spec_fn(i64, usize, usize, i64) -> i64,
    order: Seq<ExtendedPointId>,
    result: OperationResult<DynamicRrfExecution>,
)
    requires
        fuses_batches(
            sources,
            source_batch_size,
            top_k,
            rrf_k,
            Some(weights),
            policy,
            accumulate,
            priority,
            result,
        ),
        session_fault(
            sources.len() as usize,
            source_batch_size,
            rrf_k,
            Some(weights),
            Seq::new(sources.len(), |i: int| UNIT_WEIGHT),
            policy,
        ) is None,
        rankings.len() == sources.len(),
        forall|source: int|
            0 <= source < sources.len() ==> (#[trigger] sources[source]).rest() == Some(
                rankings[source],
            ) && sources[source].taken() == 0 && rankings[source].no_duplicates()
                && rankings[source].len() <= usize::MAX,
        computes(accumulate, arithmetic),
        is_rank_arithmetic(arithmetic),
        is_exhaustive_fusion(arithmetic, rankings, rrf_k, weights, order),
    ensures
        result is Ok,
        top_k <= order.len() ==> result->Ok_0.point_ids@ == order.take(top_k as int),
        top_k > order.len() ==> result->Ok_0.point_ids@ == order,
{
    assert forall|source: int| 0 <= source < rankings.len() implies (
    #[trigger] rankings[source]).no_duplicates() && rankings[source].len() <= usize::MAX by {
        let stream = sources[source];
    }
    assert(batches_yield(sources, rankings));
}

/// A single reply is a batch of one identity, or an empty last batch, at the rank at which
/// it was asked for; a failure stays one.
pub proof fn law_single_batches(
    start_rank: usize,
    id: ExtendedPointId,
    error: OperationError,
    batch: ChannelRankBatch,
)
    ensures
        is_single_batch(start_rank, Ok(Some(id)), Ok(batch)) <==> batch.start_rank == start_rank
            && batch.point_ids@ == seq![id] && !batch.exhausted,
        is_single_batch(start_rank, Ok(None), Ok(batch)) <==> batch.start_rank == start_rank
            && batch.point_ids@.len() == 0 && batch.exhausted,
        is_single_batch(start_rank, Err(error), Err(error)),
        !is_single_batch(start_rank, Err(error), Ok(batch)),
{
    if batch.point_ids@.len() == 0 {
        assert(batch.point_ids@ =~= Seq::<ExtendedPointId>::empty());
    }
}

/// A new session has the given sources, in their order, and has pulled nothing; it is refused
/// for what is wrong with the request.
pub proof fn law_new_sessions<S: ExactRrfStream, B: ExactRrfBatchStream>(
    sources: Seq<DynamicRrfSource<S, B>>,
    source_batch_size: usize,
    top_k: usize,
    rrf_k: usize,
    weights: Option<Seq<i64>>,
    costs: Seq<i64>,
    policy: DynamicRrfPolicy,
    result: OperationResult<DynamicRrfSession<S, B>>,
    source: int,
)
    requires
        is_new_session(
            sources,
            source_batch_size,
            top_k,
            rrf_k,
            weights,
            costs,
            policy,
            result,
        ),
        sources.len() <= usize::MAX,
    ensures
        ({
            let fault = session_fault(
                sources.len() as usize,
                source_batch_size,
                rrf_k,
                weights,
                costs,
                policy,
            );
            &&& fault is Some ==> result == Err::<DynamicRrfSession<S, B>, OperationError>(
                OperationError::ValidationError(fault->0),
            )
            &&& fault is None ==> result is Ok && result->Ok_0.streams() == sources
                && result->Ok_0@.fusion.top_k == top_k && result->Ok_0@.fusion.rrf_k == rrf_k
                && result->Ok_0@.costs == costs && result->Ok_0@.policy == policy
                && result->Ok_0@.batch_size == source_batch_size && (0 <= source < sources.len()
                ==> result->Ok_0@.fusion.histories[source].len() == 0
                && !result->Ok_0@.fusion.exhausted[source])
        }),
{
}

/// A session that goes on forgets nothing: its actions and what its sources have yielded are
/// the first of what they are later, a source that has ended yields nothing more, and what
/// was asked for stays.
pub proof fn law_sessions_go_on(before: ProgressView, after: ProgressView, source: int, rank: int)
    requires
        continues_session(before, after),
        0 <= source < before.fusion.histories.len(),
        0 <= rank < before.fusion.histories[source].len(),
    ensures
        after.fusion.histories[source].len() >= before.fusion.histories[source].len(),
        after.fusion.histories[source][rank] == before.fusion.histories[source][rank],
        before.fusion.exhausted[source] ==> after.fusion.exhausted[source]
            && after.fusion.histories[source] == before.fusion.histories[source],
        after.fusion.top_k == before.fusion.top_k,
        after.fusion.rrf_k == before.fusion.rrf_k,
        after.fusion.weights == before.fusion.weights,
        after.costs == before.costs,
        after.policy == before.policy,
        after.schedule.take(before.schedule.len() as int) == before.schedule,
{
    let history = before.fusion.histories[source];
    assert(after.fusion.histories[source].take(history.len() as int)[rank] == history[rank]);
}

/// A run to the end has no pause, and comes to its fixed identities or its failure.
pub proof fn law_runs_without_pause(
    count: nat,
    source: int,
    execution: DynamicRrfExecution,
    error: OperationError,
)
    requires
        0 <= source < count,
    ensures
        no_targets(count).len() == count,
        no_targets(count)[source] is None,
        completed(Ok(execution)) == Ok::<DynamicRrfAdvance, OperationError>(
            DynamicRrfAdvance::Fixed(execution),
        ),
        completed(Err(error)) == Err::<DynamicRrfAdvance, OperationError>(error),
{
}

} // verus!
