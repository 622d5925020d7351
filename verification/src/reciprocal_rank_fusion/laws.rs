//! What a fusion comes to, stated of the rankings themselves.

use super::certificate::{is_exhaustive_fusion, law_score_order_is_unique, ranked, scores_under};
use super::progress::{
    better_offer, fresh_session, power_of_two, product, session_fault, valid_cost, ProgressView,
};
use super::responses::{ordered_points, point_entries, response_weight, ScoredPoint};
use super::scoring::{
    computes, fused_score, is_fused, is_rank_arithmetic, lemma_fused_is_computed, outranks,
    valid_weight,
};
use super::session::is_exhaustive_prefix;
use super::state::{
    best_ranks, effective_weights, first_of, missing_from, next_ranks, observed, rank_in, ranks_of,
    setup_fault, PointBounds, UNIT_WEIGHT,
};
use super::types::{default_policy, DynamicRrfPolicy, DynamicRrfScheduler};
use crate::order::ExtendedPointId;
use crate::rank_queue::{lemma_ordered, ordered};
use vstd::prelude::*;

verus! {

/// One more source adds the contribution of its rank to what the sources before it have come
/// to; a source that does not rank the point adds nothing, and no source gives 0.
pub proof fn law_every_source_contributes(
    arithmetic: spec_fn(i64, usize, usize, i64) -> i64,
    ranks: Seq<Option<usize>>,
    rank: usize,
    rrf_k: usize,
    weights: Seq<i64>,
)
    ensures
        fused_score(arithmetic, Seq::empty(), rrf_k, weights) == 0,
        fused_score(arithmetic, ranks.push(None), rrf_k, weights) == fused_score(
            arithmetic,
            ranks,
            rrf_k,
            weights,
        ),
        fused_score(arithmetic, ranks.push(Some(rank)), rrf_k, weights) == arithmetic(
            fused_score(arithmetic, ranks, rrf_k, weights),
            rank,
            rrf_k,
            weights[ranks.len() as int],
        ),
{
    assert(ranks.push(None).drop_last() =~= ranks);
    assert(ranks.push(Some(rank)).drop_last() =~= ranks);
}

/// A fused score comes from calls of the arithmetic alone: one for every source that ranks the
/// point, with its rank and its weight.
pub proof fn law_every_source_is_called<F: Fn(i64, usize, usize, i64) -> i64>(
    accumulate: F,
    ranks: Seq<Option<usize>>,
    rank: usize,
    rrf_k: usize,
    weights: Seq<i64>,
    score: i64,
)
    ensures
        is_fused(accumulate, Seq::empty(), rrf_k, weights, score) <==> score == 0,
        is_fused(accumulate, ranks.push(None), rrf_k, weights, score) <==> is_fused(
            accumulate,
            ranks,
            rrf_k,
            weights,
            score,
        ),
        is_fused(accumulate, ranks.push(Some(rank)), rrf_k, weights, score) <==> exists|sum: i64|
            is_fused(accumulate, ranks, rrf_k, weights, sum) && #[trigger] call_ensures(
                accumulate,
                (sum, rank, rrf_k, weights[ranks.len() as int]),
                score,
            ),
{
    let none = ranks.push(None);
    let some = ranks.push(Some(rank));
    assert(none.drop_last() =~= ranks);
    assert(some.drop_last() =~= ranks);
}

/// A point that a single source ranks has the contribution of that rank, and one that no
/// source ranks has none.
pub proof fn law_single_rank_is_the_score(
    arithmetic: spec_fn(i64, usize, usize, i64) -> i64,
    ranks: Seq<Option<usize>>,
    source: int,
    rrf_k: usize,
    weights: Seq<i64>,
)
    requires
        0 <= source < ranks.len(),
        forall|other: int|
            0 <= other < ranks.len() && other != source ==> (#[trigger] ranks[other]) is None,
    ensures
        fused_score(arithmetic, ranks, rrf_k, weights) == (match ranks[source] {
            Some(rank) => arithmetic(0, rank, rrf_k, weights[source]),
            None => 0,
        }),
    decreases ranks.len(),
{
    let shorter = ranks.drop_last();
    if source < shorter.len() {
        assert(ranks.last() is None);
        law_single_rank_is_the_score(arithmetic, shorter, source, rrf_k, weights);
    } else {
        lemma_no_rank_is_no_score(arithmetic, shorter, rrf_k, weights);
    }
}

proof fn lemma_no_rank_is_no_score(
    arithmetic: spec_fn(i64, usize, usize, i64) -> i64,
    ranks: Seq<Option<usize>>,
    rrf_k: usize,
    weights: Seq<i64>,
)
    requires
        forall|other: int| 0 <= other < ranks.len() ==> (#[trigger] ranks[other]) is None,
    ensures
        fused_score(arithmetic, ranks, rrf_k, weights) == 0,
    decreases ranks.len(),
{
    if ranks.len() > 0 {
        assert(ranks.last() is None);
        lemma_no_rank_is_no_score(arithmetic, ranks.drop_last(), rrf_k, weights);
    }
}

/// The rank of a point in a ranking is where it stands, counted from 0.
pub proof fn law_rank_is_the_place(ranking: Seq<ExtendedPointId>, place: int)
    requires
        ranking.no_duplicates(),
        ranking.len() <= usize::MAX,
        0 <= place < ranking.len(),
    ensures
        rank_in(ranking, ranking[place]) == Some(place as usize),
{
    assert(ranking.contains(ranking[place]));
    let found = ranking.index_of(ranking[place]);
    assert(0 <= found < ranking.len() && ranking[found] == ranking[place]);
}

/// A point that a ranking does not hold has no rank in it.
pub proof fn law_absent_point_has_no_rank(ranking: Seq<ExtendedPointId>, id: ExtendedPointId)
    requires
        forall|place: int| 0 <= place < ranking.len() ==> #[trigger] ranking[place] != id,
    ensures
        rank_in(ranking, id) is None,
{
}

/// The ranks of a point, source by source; with the next rank of every source that can still
/// yield it, they are the best that it can come to.
pub proof fn law_ranks_of_every_source(
    histories: Seq<Seq<ExtendedPointId>>,
    exhausted: Seq<bool>,
    id: ExtendedPointId,
    source: int,
)
    requires
        0 <= source < histories.len(),
        histories[source].len() <= usize::MAX,
    ensures
        ranks_of(histories, id).len() == histories.len(),
        best_ranks(histories, exhausted, id).len() == histories.len(),
        next_ranks(histories, exhausted).len() == histories.len(),
        ranks_of(histories, id)[source] is Some <==> exists|place: int|
            0 <= place < histories[source].len() && histories[source][place] == id,
        ranks_of(histories, id)[source] matches Some(rank) ==> rank < histories[source].len()
            && histories[source][rank as int] == id,
        best_ranks(histories, exhausted, id)[source] == (if ranks_of(histories, id)[source]
            is Some {
            ranks_of(histories, id)[source]
        } else if exhausted[source] {
            None
        } else {
            Some(histories[source].len() as usize)
        }),
        next_ranks(histories, exhausted)[source] == (if exhausted[source] {
            None
        } else {
            Some(histories[source].len() as usize)
        }),
{
    let history = histories[source];
    if history.contains(id) {
        let found = history.index_of(id);
        assert(0 <= found < history.len() && history[found] == id);
    }
    if exists|place: int| 0 <= place < history.len() && history[place] == id {
        assert(history.contains(id));
    }
}

/// The exhaustive fusion of rankings: every point of a ranking with a positive score, none
/// twice, the higher score first and equal scores by identity.
pub proof fn law_exhaustive_fusion_ranks_all_points(
    arithmetic: spec_fn(i64, usize, usize, i64) -> i64,
    rankings: Seq<Seq<ExtendedPointId>>,
    rrf_k: usize,
    weights: Seq<i64>,
    order: Seq<ExtendedPointId>,
    source: int,
    place: int,
    first: int,
    second: int,
)
    requires
        is_exhaustive_fusion(arithmetic, rankings, rrf_k, weights, order),
        0 <= source < rankings.len(),
        0 <= place < rankings[source].len(),
        0 <= first < second < order.len(),
    ensures
        fused_score(
            arithmetic,
            ranks_of(rankings, rankings[source][place]),
            rrf_k,
            weights,
        ) > 0 ==> order.contains(rankings[source][place]),
        order[first] != order[second],
        exists|other: int, at: int|
            0 <= other < rankings.len() && 0 <= at < rankings[other].len()
                && #[trigger] rankings[other][at] == order[first],
        ({
            let higher = fused_score(
                arithmetic,
                ranks_of(rankings, order[first]),
                rrf_k,
                weights,
            );
            let lower = fused_score(
                arithmetic,
                ranks_of(rankings, order[second]),
                rrf_k,
                weights,
            );
            &&& higher > 0
            &&& higher > lower || higher == lower && order[first].rank() < order[second].rank()
        }),
{
    let id = rankings[source][place];
    assert(rankings[source].contains(id));
    assert(observed(rankings, id));
    assert(ranked(rankings)(id));
    assert(order.contains(order[first]));
    assert(ranked(rankings)(order[first]));
    let other = choose|other: int|
        0 <= other < rankings.len() && (#[trigger] rankings[other]).contains(order[first]);
    let at = choose|at: int| 0 <= at < rankings[other].len() && rankings[other][at] == order[first];
    assert(rankings[other][at] == order[first]);
}

/// Whether an arithmetic gives every rank of a source a positive contribution that is smaller
/// the further the rank.
pub open spec fn falls_with_rank(
    arithmetic: spec_fn(i64, usize, usize, i64) -> i64,
    rrf_k: usize,
    weight: i64,
) -> bool {
    &&& forall|near: usize, far: usize|
        near < far ==> #[trigger] arithmetic(0, near, rrf_k, weight) > #[trigger] arithmetic(
            0,
            far,
            rrf_k,
            weight,
        )
    &&& forall|rank: usize| #[trigger] arithmetic(0, rank, rrf_k, weight) > 0
}

/// Fusing a single ranking gives the ranking back.
pub proof fn law_fusion_of_one_ranking_is_the_ranking(
    arithmetic: spec_fn(i64, usize, usize, i64) -> i64,
    ranking: Seq<ExtendedPointId>,
    rrf_k: usize,
    weight: i64,
    order: Seq<ExtendedPointId>,
)
    requires
        falls_with_rank(arithmetic, rrf_k, weight),
        ranking.no_duplicates(),
        ranking.len() <= usize::MAX,
        is_exhaustive_fusion(arithmetic, seq![ranking], rrf_k, seq![weight], order),
    ensures
        order == ranking,
{
    let rankings = seq![ranking];
    let weights = seq![weight];
    let present = ranked(rankings);
    let score = scores_under(arithmetic, rankings, rrf_k, weights);
    assert forall|place: int| 0 <= place < ranking.len() implies score(#[trigger] ranking[place])
        == arithmetic(0, place as usize, rrf_k, weight) by {
        law_rank_is_the_place(ranking, place);
        let ranks = ranks_of(rankings, ranking[place]);
        assert(ranks[0] == Some(place as usize));
        law_single_rank_is_the_score(arithmetic, ranks, 0, rrf_k, weights);
    }
    assert(super::certificate::is_score_order(present, score, ranking)) by {
        assert forall|id: ExtendedPointId| #[trigger] ranking.contains(id) <==> present(id)
            && score(id) > 0 by {
            if ranking.contains(id) {
                let place = choose|place: int| 0 <= place < ranking.len() && ranking[place] == id;
                assert(rankings[0].contains(id));
                assert(score(ranking[place]) == arithmetic(0, place as usize, rrf_k, weight));
            }
            if present(id) {
                let source = choose|source: int|
                    0 <= source < rankings.len() && (#[trigger] rankings[source]).contains(id);
                assert(source == 0);
            }
        }
    }
    law_score_order_is_unique(present, score, order, ranking);
}

/// What a fusion of one ranking returns is the beginning of the ranking.
pub proof fn law_one_ranking_is_returned_in_its_order<F: Fn(i64, usize, usize, i64) -> i64>(
    accumulate: F,
    arithmetic: spec_fn(i64, usize, usize, i64) -> i64,
    ranking: Seq<ExtendedPointId>,
    rrf_k: usize,
    weight: i64,
    top_k: usize,
    ids: Seq<ExtendedPointId>,
)
    requires
        computes(accumulate, arithmetic),
        is_rank_arithmetic(arithmetic),
        falls_with_rank(arithmetic, rrf_k, weight),
        ranking.no_duplicates(),
        ranking.len() <= usize::MAX,
        is_exhaustive_prefix(accumulate, seq![ranking], rrf_k, seq![weight], top_k, ids),
    ensures
        ids.len() == (if top_k <= ranking.len() {
            top_k as nat
        } else {
            ranking.len()
        }),
        forall|i: int| 0 <= i < ids.len() ==> #[trigger] ids[i] == ranking[i],
{
    super::exhaustive::law_exhaustive_fusion_exists(
        arithmetic,
        seq![ranking],
        rrf_k,
        seq![weight],
    );
    let order = super::exhaustive::fusion_order(arithmetic, seq![ranking], rrf_k, seq![weight]);
    law_fusion_of_one_ranking_is_the_ranking(arithmetic, ranking, rrf_k, weight, order);
    assert(ids == first_of(order, top_k));
}

/// A point that ranks at least as well as another in every source, and has a score, is not put
/// behind it but by identity.
pub proof fn law_dominating_point_is_not_behind(
    arithmetic: spec_fn(i64, usize, usize, i64) -> i64,
    rankings: Seq<Seq<ExtendedPointId>>,
    rrf_k: usize,
    weights: Seq<i64>,
    order: Seq<ExtendedPointId>,
    better: int,
    worse: int,
)
    requires
        is_rank_arithmetic(arithmetic),
        rrf_k > 0,
        super::scoring::valid_weights(weights),
        rankings.len() == weights.len(),
        is_exhaustive_fusion(arithmetic, rankings, rrf_k, weights, order),
        0 <= better < order.len(),
        0 <= worse < order.len(),
        forall|source: int|
            0 <= source < rankings.len() ==> match (
                rank_in(#[trigger] rankings[source], order[better]),
                rank_in(rankings[source], order[worse]),
            ) {
                (_, None) => true,
                (Some(near), Some(far)) => near <= far,
                (None, Some(_)) => false,
            },
        order[better].rank() < order[worse].rank(),
    ensures
        better < worse,
{
    let near = ranks_of(rankings, order[better]);
    let far = ranks_of(rankings, order[worse]);
    assert forall|source: int| 0 <= source < near.len() implies match (
        #[trigger] near[source],
        far[source],
    ) {
        (_, None) => true,
        (Some(near), Some(far)) => near <= far,
        (None, Some(_)) => false,
    } by {
        let _ = rankings[source];
    }
    super::scoring::law_fused_score_is_monotone(arithmetic, near, far, rrf_k, weights);
    let score = scores_under(arithmetic, rankings, rrf_k, weights);
    if worse < better {
        assert(crate::order::ranks_before(
            score(order[worse]),
            order[worse],
            score(order[better]),
            order[better],
        ));
    } else if worse == better {
        assert(false);
    }
}

/// The first of an order are as many as asked for, or all, in their places.
pub proof fn law_first_of_an_order(order: Seq<ExtendedPointId>, count: usize)
    ensures
        count <= order.len() ==> first_of(order, count).len() == count,
        count > order.len() ==> first_of(order, count).len() == order.len(),
        forall|i: int|
            0 <= i < first_of(order, count).len() ==> #[trigger] first_of(order, count)[i]
                == order[i],
{
}

/// Given weights are used as they are; without weights every source weighs 1.
pub proof fn law_weights_of_sources(source_count: usize, weights: Seq<i64>, source: int)
    requires
        0 <= source,
    ensures
        effective_weights(source_count, Some(weights)) == weights,
        effective_weights(source_count, None).len() == source_count,
        source < source_count ==> effective_weights(source_count, None)[source]
            == 0x3ff0_0000_0000_0000,
        response_weight(Some(weights), source) == weights[source],
        response_weight(None, source) == 0x3ff0_0000_0000_0000,
        UNIT_WEIGHT == 0x3ff0_0000_0000_0000,
{
}

/// A weight is valid where it is finite and not negative, a cost where it is finite and
/// positive.
pub proof fn law_valid_weights_and_costs(key: i64)
    ensures
        valid_weight(key) <==> 0 <= key < 0x7ff0_0000_0000_0000,
        valid_cost(key) <==> 0 < key < 0x7ff0_0000_0000_0000,
{
}

/// A fusion can be set up exactly where there is a source, the rank constant is positive, and
/// there is a valid weight for every source where weights are given.
pub proof fn law_fusion_can_be_set_up(
    source_count: usize,
    rrf_k: usize,
    weights: Seq<i64>,
)
    ensures
        setup_fault(source_count, rrf_k, None) is None <==> source_count > 0 && rrf_k > 0,
        setup_fault(source_count, rrf_k, Some(weights)) is None <==> source_count > 0 && rrf_k > 0
            && weights.len() == source_count && forall|source: int|
            0 <= source < weights.len() ==> 0 <= #[trigger] weights[source]
                < 0x7ff0_0000_0000_0000,
{
    if setup_fault(source_count, rrf_k, Some(weights)) is None {
        assert forall|source: int| 0 <= source < weights.len() implies 0
            <= #[trigger] weights[source] < 0x7ff0_0000_0000_0000 by {
            assert(valid_weight(weights[source]));
        }
    }
}

/// A session can be set up exactly where its fusion can, no interval of its policy is 0, pulls
/// ask for something, and every source has a finite positive cost.
pub proof fn law_session_can_be_set_up(
    source_count: usize,
    source_batch_size: usize,
    rrf_k: usize,
    weights: Option<Seq<i64>>,
    costs: Seq<i64>,
    policy: DynamicRrfPolicy,
)
    ensures
        session_fault(source_count, source_batch_size, rrf_k, weights, costs, policy) is None <==> {
            &&& source_batch_size > 0
            &&& policy.warmup_check_interval matches Some(interval) ==> interval > 0
            &&& policy.exhaustive_after_pulls_per_source matches Some(budget) ==> budget > 0
            &&& policy.fairness_after_actions_per_source matches Some(actions) ==> actions > 0
            &&& costs.len() == source_count
            &&& forall|source: int|
                0 <= source < costs.len() ==> 0 < #[trigger] costs[source]
                    < 0x7ff0_0000_0000_0000
            &&& setup_fault(source_count, rrf_k, weights) is None
        },
{
    let fits = forall|source: int|
        0 <= source < costs.len() ==> 0 < #[trigger] costs[source] < 0x7ff0_0000_0000_0000;
    assert(fits <==> super::progress::valid_costs(costs)) by {
        if super::progress::valid_costs(costs) {
            assert forall|source: int| 0 <= source < costs.len() implies 0
                < #[trigger] costs[source] < 0x7ff0_0000_0000_0000 by {
                assert(valid_cost(costs[source]));
            }
        }
    }
}

/// A session begins with nothing pulled, under the given weights, and asks for the given
/// number of identities.
pub proof fn law_session_begins_with_nothing(
    source_count: usize,
    source_batch_size: usize,
    top_k: usize,
    rrf_k: usize,
    weights: Option<Seq<i64>>,
    costs: Seq<i64>,
    policy: DynamicRrfPolicy,
    source: int,
)
    requires
        0 <= source < source_count,
    ensures
        ({
            let view = fresh_session(
                source_count,
                source_batch_size,
                top_k,
                rrf_k,
                weights,
                costs,
                policy,
            );
            &&& view.fusion.histories.len() == source_count
            &&& view.fusion.histories[source].len() == 0
            &&& view.fusion.exhausted.len() == source_count
            &&& !view.fusion.exhausted[source]
            &&& view.fusion.top_k == top_k
            &&& view.fusion.rrf_k == rrf_k
            &&& view.fusion.weights == (match weights {
                Some(weights) => weights,
                None => Seq::new(source_count as nat, |i: int| 0x3ff0_0000_0000_0000i64),
            })
            &&& view.batch_size == source_batch_size
            &&& view.costs == costs
            &&& view.schedule.len() == 0
            &&& view.total_pulls == 0
            &&& view.checks == 0
            &&& view.policy == policy
        }),
{
    assert(Seq::new(source_count as nat, |i: int| 0x3ff0_0000_0000_0000i64) =~= Seq::new(
        source_count as nat,
        |i: int| UNIT_WEIGHT,
    ));
}

/// The policy of sessions that give none: the scheduler weighs competitors against costs, a
/// source waits for at most eight actions of every source, and nothing is drained.
pub proof fn law_default_policy()
    ensures
        default_policy().scheduler == DynamicRrfScheduler::CompetitorCostAware,
        default_policy().fairness_after_actions_per_source == Some(8usize),
        default_policy().warmup_check_interval is None,
        default_policy().exhaustive_after_pulls_per_source is None,
        super::DEFAULT_RRF_K == 2,
{
}

/// A pull that is accepted adds its identities to what its source has yielded, and changes
/// nothing of the other sources.
pub proof fn law_accepted_batch_extends_its_source(
    view: ProgressView,
    source: usize,
    ids: Seq<ExtendedPointId>,
    ends: bool,
    other: int,
)
    requires
        source < view.fusion.histories.len(),
        view.fusion.exhausted.len() == view.fusion.histories.len(),
        0 <= other < view.fusion.histories.len(),
        other != source,
    ensures
        ({
            let after = view.supplied(source, ids, ends);
            &&& after.fusion.histories[source as int] == view.fusion.histories[source as int] + ids
            &&& after.fusion.exhausted[source as int] == (view.fusion.exhausted[source as int]
                || ends)
            &&& after.fusion.histories[other] == view.fusion.histories[other]
            &&& after.fusion.exhausted[other] == view.fusion.exhausted[other]
            &&& after.fusion.weights == view.fusion.weights
            &&& after.fusion.top_k == view.fusion.top_k
            &&& view.total_pulls + ids.len() <= usize::MAX ==> after.total_pulls
                == view.total_pulls + ids.len()
        }),
{
}

/// A batch is accepted exactly where its source exists and has not ended, it begins where the
/// source stopped, is no larger than asked for, says something, and repeats nothing.
pub proof fn law_batch_is_accepted(
    view: ProgressView,
    source: usize,
    start_rank: usize,
    ids: Seq<ExtendedPointId>,
    ends: bool,
)
    ensures
        view.supply_fault(source, start_rank, ids, ends) is None <==> {
            &&& ids.len() <= view.batch_size
            &&& source < view.fusion.weights.len()
            &&& !view.fusion.exhausted[source as int]
            &&& start_rank == view.fusion.histories[source as int].len()
            &&& ids.len() > 0 || ends
            &&& ids.no_duplicates()
            &&& forall|i: int|
                0 <= i < ids.len() ==> !view.fusion.histories[source as int].contains(
                    #[trigger] ids[i],
                )
        },
{
    if source < view.fusion.weights.len() {
        lemma_no_duplicate(view.fusion.histories[source as int], ids, source);
    }
}

proof fn lemma_no_duplicate(
    history: Seq<ExtendedPointId>,
    ids: Seq<ExtendedPointId>,
    source: usize,
)
    ensures
        super::state::duplicate_fault(history, ids, source) is None <==> ids.no_duplicates()
            && forall|i: int| 0 <= i < ids.len() ==> !history.contains(#[trigger] ids[i]),
    decreases ids.len(),
{
    if ids.len() > 0 {
        let shorter = ids.drop_last();
        lemma_no_duplicate(history, shorter, source);
        let fits = ids.no_duplicates() && forall|i: int|
            0 <= i < ids.len() ==> !history.contains(#[trigger] ids[i]);
        if fits {
            assert(shorter.no_duplicates());
            assert forall|i: int| 0 <= i < shorter.len() implies !history.contains(
                #[trigger] shorter[i],
            ) by {
                assert(shorter[i] == ids[i]);
            }
            assert(!shorter.contains(ids.last())) by {
                if shorter.contains(ids.last()) {
                    let k = choose|k: int| 0 <= k < shorter.len() && shorter[k] == ids.last();
                    assert(ids[k] == ids[ids.len() - 1]);
                }
            }
            assert(!history.contains(ids[ids.len() - 1]));
        }
        if super::state::duplicate_fault(history, ids, source) is None {
            assert forall|i: int, j: int|
                0 <= i < ids.len() && 0 <= j < ids.len() && i != j implies ids[i] != ids[j] by {
                if i == ids.len() - 1 {
                    assert(shorter.contains(shorter[j]));
                } else if j == ids.len() - 1 {
                    assert(shorter.contains(shorter[i]));
                } else {
                    assert(shorter[i] != shorter[j]);
                }
            }
            assert forall|i: int| 0 <= i < ids.len() implies !history.contains(
                #[trigger] ids[i],
            ) by {
                if i < shorter.len() {
                    assert(shorter[i] == ids[i]);
                }
            }
        }
    }
}

/// A point stays before another for certain where its lowest score beats the other's highest,
/// or equals it and its identity is smaller.
pub proof fn law_certain_order(
    winner: ExtendedPointId,
    lower: i64,
    challenger: ExtendedPointId,
    upper: i64,
)
    ensures
        outranks(winner, lower, challenger, upper) <==> lower > upper || lower == upper
            && winner.rank() < challenger.rank(),
{
}

/// Ordered points are the given points, the higher score first and equal scores by identity.
pub proof fn law_points_are_ordered_by_score(rows: Seq<ScoredPoint>, first: int, second: int)
    requires
        rows.len() <= usize::MAX,
        0 <= first < second < rows.len(),
    ensures
        ordered_points(rows).len() == rows.len(),
        ordered_points(rows)[first].score >= ordered_points(rows)[second].score,
        ordered_points(rows)[first].score == ordered_points(rows)[second].score
            ==> ordered_points(rows)[first].id.rank() <= ordered_points(rows)[second].id.rank(),
        rows.contains(ordered_points(rows)[first]),
        ordered_points(rows).contains(rows[first]),
{
    let entries = point_entries(rows);
    let order = ordered(entries);
    let points = ordered_points(rows);
    lemma_ordered(entries);
    assert forall|place: int| 0 <= place < order.len() implies {
        &&& (#[trigger] order[place]).slot < rows.len()
        &&& rows[order[place].slot as int].score == order[place].score
        &&& rows[order[place].slot as int].id == order[place].id
    } by {
        assert(order.contains(order[place]));
        assert(entries.contains(order[place]));
        let at = choose|at: int| 0 <= at < entries.len() && entries[at] == order[place];
    }
    assert(!order[second].precedes(order[first]));
    assert(points[first] == rows[order[first].slot as int]);
    assert(entries.contains(entries[first]));
    assert(order.contains(entries[first]));
    let place = choose|place: int| 0 <= place < order.len() && order[place] == entries[first];
    assert(points[place] == rows[first]);
}

/// A product that fits is exact, and stops at the largest number where it does not.
pub proof fn law_products_are_exact(left: usize, right: usize)
    ensures
        left * right <= usize::MAX ==> product(left, right) == left * right,
        left * right > usize::MAX ==> product(left, right) == usize::MAX,
{
}

/// The powers of two are 1 and the doubles of powers of two.
pub proof fn law_powers_of_two(number: nat)
    ensures
        power_of_two(1),
        !power_of_two(0),
        number > 0 ==> power_of_two(2 * number) == power_of_two(number),
        number > 0 ==> !power_of_two(2 * number + 1),
{
    if number > 0 {
        assert((2 * number) / 2 == number);
        assert((2 * number) % 2 == 0);
        assert((2 * number + 1) % 2 == 1);
    }
}

/// Of two offers the one with the higher priority is better; of equal priorities the one with
/// the higher bound, and of equals the first.
pub proof fn law_better_offers(offers: Seq<(i64, i64)>, left: int, right: int)
    requires
        0 <= left < offers.len(),
        0 <= right < offers.len(),
        left != right,
    ensures
        offers[left].0 > offers[right].0 ==> better_offer(offers, left, right),
        better_offer(offers, left, right) <==> !better_offer(offers, right, left),
        offers[left].0 == offers[right].0 && offers[left].1 > offers[right].1 ==> better_offer(
            offers,
            left,
            right,
        ),
        offers[left] == offers[right] ==> (better_offer(offers, left, right) <==> left < right),
{
}

/// A point is a live competitor that misses a source where it can still reach the threshold and
/// the source has not yielded it.
pub proof fn law_live_competitors(
    history: Seq<ExtendedPointId>,
    threshold: i64,
    row: PointBounds,
)
    ensures
        missing_from(history, threshold)(row) <==> row.upper >= threshold && forall|place: int|
            0 <= place < history.len() ==> history[place] != row.id,
{
    if history.contains(row.id) {
        let place = choose|place: int| 0 <= place < history.len() && history[place] == row.id;
        assert(history[place] == row.id);
    }
}

/// Two fusions of the same ranks by one arithmetic give one score.
pub proof fn law_fused_scores_are_determined<F: Fn(i64, usize, usize, i64) -> i64>(
    accumulate: F,
    arithmetic: spec_fn(i64, usize, usize, i64) -> i64,
    ranks: Seq<Option<usize>>,
    rrf_k: usize,
    weights: Seq<i64>,
    first: i64,
    second: i64,
)
    requires
        computes(accumulate, arithmetic),
        is_fused(accumulate, ranks, rrf_k, weights, first),
        is_fused(accumulate, ranks, rrf_k, weights, second),
    ensures
        first == second,
{
    lemma_fused_is_computed(accumulate, arithmetic, ranks, rrf_k, weights, first);
    lemma_fused_is_computed(accumulate, arithmetic, ranks, rrf_k, weights, second);
}

} // verus!
