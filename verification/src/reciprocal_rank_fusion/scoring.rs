//! Fused scores and the order that they give.
//!
//! The contribution of one rank is floating-point arithmetic. A fusion takes it
//! as a function that adds to a running sum the contribution of one position:
//! `accumulate(sum, position, rrf_k, weight)`, with sum and weight as score keys.

use crate::order::{finite_key, ranks_before, scored_before, ExtendedPointId};
use vstd::prelude::*;

verus! {

/// Whether a weight is finite and not negative.
pub open spec fn valid_weight(weight: i64) -> bool {
    finite_key(weight) && weight >= 0
}

/// Whether the arithmetic can be called on every argument.
pub open spec fn accepts<F: Fn(i64, usize, usize, i64) -> i64>(accumulate: F) -> bool {
    forall|sum: i64, position: usize, rrf_k: usize, weight: i64|
        call_requires(accumulate, (sum, position, rrf_k, weight))
}

/// Whether `score` is what the arithmetic made of the given ranks: starting from
/// zero, the contribution of every rank is added in the order of the sources.
pub open spec fn is_fused<F: Fn(i64, usize, usize, i64) -> i64>(
    accumulate: F,
    ranks: Seq<Option<usize>>,
    rrf_k: usize,
    weights: Seq<i64>,
    score: i64,
) -> bool
    decreases ranks.len(),
{
    if ranks.len() == 0 {
        score == 0
    } else {
        match ranks.last() {
            None => is_fused(accumulate, ranks.drop_last(), rrf_k, weights, score),
            Some(rank) => exists|sum: i64|
                is_fused(accumulate, ranks.drop_last(), rrf_k, weights, sum) && #[trigger] call_ensures(
                    accumulate,
                    (sum, rank, rrf_k, weights[ranks.len() - 1]),
                    score,
                ),
        }
    }
}

/// The fused score of the given ranks under a known arithmetic.
pub open spec fn fused_score(
    arithmetic: spec_fn(i64, usize, usize, i64) -> i64,
    ranks: Seq<Option<usize>>,
    rrf_k: usize,
    weights: Seq<i64>,
) -> i64
    decreases ranks.len(),
{
    if ranks.len() == 0 {
        0
    } else {
        let sum = fused_score(arithmetic, ranks.drop_last(), rrf_k, weights);
        match ranks.last() {
            None => sum,
            Some(rank) => arithmetic(sum, rank, rrf_k, weights[ranks.len() - 1]),
        }
    }
}

/// Whether calls of `accumulate` return what the arithmetic says.
pub open spec fn computes<F: Fn(i64, usize, usize, i64) -> i64>(
    accumulate: F,
    arithmetic: spec_fn(i64, usize, usize, i64) -> i64,
) -> bool {
    forall|sum: i64, position: usize, rrf_k: usize, weight: i64, result: i64|
        #[trigger] call_ensures(accumulate, (sum, position, rrf_k, weight), result) ==> result
            == arithmetic(sum, position, rrf_k, weight)
}

/// Whether a sum is one that an arithmetic produces, starting from 0, for some ranks under
/// valid weights.
pub open spec fn is_sum(
    arithmetic: spec_fn(i64, usize, usize, i64) -> i64,
    rrf_k: usize,
    sum: i64,
) -> bool {
    exists|ranks: Seq<Option<usize>>, weights: Seq<i64>|
        ranks.len() <= weights.len() && valid_weights(weights) && sum == #[trigger] fused_score(
            arithmetic,
            ranks,
            rrf_k,
            weights,
        )
}

/// Whether an arithmetic ranks as reciprocal-rank fusion does, on the sums that it
/// produces: contributions are never negative, never grow with the position, and sums keep
/// their order.
pub open spec fn is_rank_arithmetic(arithmetic: spec_fn(i64, usize, usize, i64) -> i64) -> bool {
    &&& forall|sum: i64, position: usize, rrf_k: usize, weight: i64|
        rrf_k > 0 && valid_weight(weight) && is_sum(arithmetic, rrf_k, sum)
            ==> #[trigger] arithmetic(sum, position, rrf_k, weight) >= sum
    &&& forall|low: i64, high: i64, near: usize, far: usize, rrf_k: usize, weight: i64|
        rrf_k > 0 && valid_weight(weight) && low <= high && near <= far && is_sum(
            arithmetic,
            rrf_k,
            low,
        ) && is_sum(arithmetic, rrf_k, high) ==> #[trigger] arithmetic(low, far, rrf_k, weight)
            <= #[trigger] arithmetic(high, near, rrf_k, weight)
}

/// Whether the second ranks are nowhere better than the first.
pub open spec fn no_better(ranks: Seq<Option<usize>>, worse: Seq<Option<usize>>) -> bool {
    &&& ranks.len() == worse.len()
    &&& forall|source: int|
        0 <= source < ranks.len() ==> match (#[trigger] ranks[source], worse[source]) {
            (_, None) => true,
            (Some(near), Some(far)) => near <= far,
            (None, Some(_)) => false,
        }
}

/// Whether every source has a valid weight.
pub open spec fn valid_weights(weights: Seq<i64>) -> bool {
    forall|source: int| 0 <= source < weights.len() ==> valid_weight(#[trigger] weights[source])
}

/// A fused score under a known arithmetic is the one that the arithmetic gives.
pub proof fn lemma_fused_is_computed<F: Fn(i64, usize, usize, i64) -> i64>(
    accumulate: F,
    arithmetic: spec_fn(i64, usize, usize, i64) -> i64,
    ranks: Seq<Option<usize>>,
    rrf_k: usize,
    weights: Seq<i64>,
    score: i64,
)
    requires
        computes(accumulate, arithmetic),
        is_fused(accumulate, ranks, rrf_k, weights, score),
    ensures
        score == fused_score(arithmetic, ranks, rrf_k, weights),
    decreases ranks.len(),
{
    if ranks.len() > 0 {
        match ranks.last() {
            None => {
                lemma_fused_is_computed(
                    accumulate,
                    arithmetic,
                    ranks.drop_last(),
                    rrf_k,
                    weights,
                    score,
                );
            },
            Some(rank) => {
                let sum = choose|sum: i64|
                    is_fused(accumulate, ranks.drop_last(), rrf_k, weights, sum)
                        && #[trigger] call_ensures(
                        accumulate,
                        (sum, rank, rrf_k, weights[ranks.len() - 1]),
                        score,
                    );
                lemma_fused_is_computed(
                    accumulate,
                    arithmetic,
                    ranks.drop_last(),
                    rrf_k,
                    weights,
                    sum,
                );
            },
        }
    }
}

/// Better ranks never give a lower fused score, and no fused score is negative.
pub proof fn law_fused_score_is_monotone(
    arithmetic: spec_fn(i64, usize, usize, i64) -> i64,
    ranks: Seq<Option<usize>>,
    worse: Seq<Option<usize>>,
    rrf_k: usize,
    weights: Seq<i64>,
)
    requires
        is_rank_arithmetic(arithmetic),
        rrf_k > 0,
        valid_weights(weights),
        ranks.len() == weights.len(),
        no_better(ranks, worse),
    ensures
        0 <= fused_score(arithmetic, worse, rrf_k, weights) <= fused_score(
            arithmetic,
            ranks,
            rrf_k,
            weights,
        ),
{
    lemma_fused_score_is_monotone(arithmetic, ranks, worse, rrf_k, weights);
}

proof fn lemma_fused_score_is_monotone(
    arithmetic: spec_fn(i64, usize, usize, i64) -> i64,
    ranks: Seq<Option<usize>>,
    worse: Seq<Option<usize>>,
    rrf_k: usize,
    weights: Seq<i64>,
)
    requires
        is_rank_arithmetic(arithmetic),
        rrf_k > 0,
        valid_weights(weights),
        ranks.len() <= weights.len(),
        no_better(ranks, worse),
    ensures
        0 <= fused_score(arithmetic, worse, rrf_k, weights) <= fused_score(
            arithmetic,
            ranks,
            rrf_k,
            weights,
        ),
    decreases ranks.len(),
{
    if ranks.len() > 0 {
        let n = ranks.len() - 1;
        assert forall|source: int| 0 <= source < n implies match (
            #[trigger] ranks.drop_last()[source],
            worse.drop_last()[source],
        ) {
            (_, None) => true,
            (Some(near), Some(far)) => near <= far,
            (None, Some(_)) => false,
        } by {
            assert(ranks.drop_last()[source] == ranks[source]);
        }
        lemma_fused_score_is_monotone(
            arithmetic,
            ranks.drop_last(),
            worse.drop_last(),
            rrf_k,
            weights,
        );
        let low = fused_score(arithmetic, worse.drop_last(), rrf_k, weights);
        let high = fused_score(arithmetic, ranks.drop_last(), rrf_k, weights);
        let weight = weights[n];
        assert(valid_weight(weight));
        match (ranks[n], worse[n]) {
            (Some(near), Some(far)) => {
                assert(arithmetic(low, far, rrf_k, weight) <= arithmetic(
                    high,
                    near,
                    rrf_k,
                    weight,
                ));
                assert(arithmetic(low, far, rrf_k, weight) >= low);
            },
            (Some(near), None) => {
                assert(arithmetic(high, near, rrf_k, weight) >= high);
            },
            _ => {},
        }
    }
}

/// The fused score of the given ranks.
pub fn fuse<F: Fn(i64, usize, usize, i64) -> i64>(
    accumulate: &F,
    ranks: &Vec<Option<usize>>,
    rrf_k: usize,
    weights: &Vec<i64>,
) -> (score: i64)
    requires
        accepts(*accumulate),
        ranks@.len() == weights@.len(),
    ensures
        is_fused(*accumulate, ranks@, rrf_k, weights@, score),
{
    let mut sum: i64 = 0;
    let mut source: usize = 0;
    assert(ranks@.take(0).len() == 0);
    while source < ranks.len()
        invariant
            accepts(*accumulate),
            ranks@.len() == weights@.len(),
            source <= ranks@.len(),
            is_fused(*accumulate, ranks@.take(source as int), rrf_k, weights@, sum),
        decreases ranks@.len() - source,
    {
        let ghost longer = ranks@.take(source + 1);
        assert(longer.drop_last() =~= ranks@.take(source as int));
        assert(longer.last() == ranks@[source as int]);
        match ranks[source] {
            Some(rank) => {
                let previous: i64 = sum;
                sum = accumulate(previous, rank, rrf_k, weights[source]);
                assert(call_ensures(*accumulate, (previous, rank, rrf_k, weights@[longer.len() - 1]), sum));
            },
            None => {},
        }
        source += 1;
    }
    assert(ranks@.take(source as int) =~= ranks@);
    sum
}

/// Whether a point with at least the winner's bound stands before every point
/// with at most the challenger's.
pub open spec fn outranks(
    winner: ExtendedPointId,
    winner_lower_bound: i64,
    challenger: ExtendedPointId,
    challenger_upper_bound: i64,
) -> bool {
    ranks_before(winner_lower_bound, winner, challenger_upper_bound, challenger)
}

/// Whether a point with at least the winner's bound stands before every point
/// with at most the challenger's.
pub fn guaranteed_before(
    winner: ExtendedPointId,
    winner_lower_bound: i64,
    challenger: ExtendedPointId,
    challenger_upper_bound: i64,
) -> (result: bool)
    ensures
        result == outranks(winner, winner_lower_bound, challenger, challenger_upper_bound),
{
    scored_before(winner_lower_bound, winner, challenger_upper_bound, challenger)
}

} // verus!
