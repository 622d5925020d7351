//! Exhaustive fusion: that it exists, and that the fusion of complete responses
//! is it.

use super::certificate::{is_exhaustive_fusion, is_score_order, ranked, scores_under};
use super::responses::{
    counts_one, counts_response, counts_responses, ordered_points, point_entries,
    response_weight, ScoredPoint,
};
use super::scoring::{computes, fused_score, is_rank_arithmetic};
use super::executor::{are_rankings, batches_yield, fuses_batches};
use super::progress::session_fault;
use super::session::{
    extends_prefix, is_exhaustive_prefix, law_longer_prefix_extends, order_is_kept,
    DynamicRrfSession,
};
use super::state::{
    effective_weights, first_of, lemma_rank_in, observed, rank_in, ranks_of, UNIT_WEIGHT,
};
use super::types::{
    DynamicRrfExecution, DynamicRrfPolicy, DynamicRrfStopReason, ExactRrfBatchStream,
    ExactRrfStream,
};
use crate::operation_error::{refused, Fault, OperationError, OperationResult};
use crate::order::{lemma_rank_is_injective, ranks_before, ExtendedPointId};
use crate::rank_queue::{lemma_ordered, ordered};
use vstd::prelude::*;

verus! {

/// The order of points under a score: whether the first may stand in front.
pub open spec fn scored_order(score: spec_fn(ExtendedPointId) -> i64) -> spec_fn(
    ExtendedPointId,
    ExtendedPointId,
) -> bool {
    |left: ExtendedPointId, right: ExtendedPointId|
        !ranks_before(score(right), right, score(left), left)
}

/// The identities of a sequence, each once.
pub open spec fn distinct(ids: Seq<ExtendedPointId>) -> Seq<ExtendedPointId>
    decreases ids.len(),
{
    if ids.len() == 0 {
        ids
    } else {
        let before = distinct(ids.drop_last());
        if before.contains(ids.last()) {
            before
        } else {
            before.push(ids.last())
        }
    }
}

proof fn lemma_distinct(ids: Seq<ExtendedPointId>)
    ensures
        distinct(ids).no_duplicates(),
        forall|id: ExtendedPointId| #[trigger] distinct(ids).contains(id) <==> ids.contains(id),
    decreases ids.len(),
{
    if ids.len() > 0 {
        let shorter = ids.drop_last();
        let before = distinct(shorter);
        lemma_distinct(shorter);
        assert(ids =~= shorter.push(ids.last()));
        assert forall|id: ExtendedPointId| #[trigger] distinct(ids).contains(id) <==> ids.contains(
            id,
        ) by {
            if ids.contains(id) {
                let i = choose|i: int| 0 <= i < ids.len() && ids[i] == id;
                if i < shorter.len() {
                    assert(shorter[i] == id);
                    assert(before.contains(id));
                    let k = choose|k: int| 0 <= k < before.len() && before[k] == id;
                    assert(distinct(ids)[k] == id);
                } else if !before.contains(ids.last()) {
                    assert(distinct(ids)[before.len() as int] == id);
                }
            }
            if distinct(ids).contains(id) {
                let k = choose|k: int| 0 <= k < distinct(ids).len() && distinct(ids)[k] == id;
                if k < before.len() {
                    assert(before[k] == id);
                    assert(before.contains(id));
                    assert(shorter.contains(id));
                    let i = choose|i: int| 0 <= i < shorter.len() && shorter[i] == id;
                    assert(ids[i] == id);
                } else {
                    assert(ids[ids.len() - 1] == id);
                }
            }
        }
    }
}

/// Filtering keeps what a sequence without duplicates has.
proof fn lemma_filtered(
    ids: Seq<ExtendedPointId>,
    keep: spec_fn(ExtendedPointId) -> bool,
)
    requires
        ids.no_duplicates(),
    ensures
        ids.filter(keep).no_duplicates(),
        forall|id: ExtendedPointId| #[trigger]
            ids.filter(keep).contains(id) <==> ids.contains(id) && keep(id),
    decreases ids.len(),
{
    reveal(Seq::filter);
    if ids.len() > 0 {
        let shorter = ids.drop_last();
        let last = ids.last();
        lemma_filtered(shorter, keep);
        assert(ids =~= shorter.push(last));
        assert(!shorter.contains(last)) by {
            if shorter.contains(last) {
                let k = choose|k: int| 0 <= k < shorter.len() && shorter[k] == last;
                assert(ids[k] == ids[ids.len() - 1]);
            }
        }
        let kept = shorter.filter(keep);
        assert forall|id: ExtendedPointId| #[trigger]
            ids.filter(keep).contains(id) <==> ids.contains(id) && keep(id) by {
            if ids.contains(id) && keep(id) {
                let i = choose|i: int| 0 <= i < ids.len() && ids[i] == id;
                if i < shorter.len() {
                    assert(shorter[i] == id);
                    assert(kept.contains(id));
                    let k = choose|k: int| 0 <= k < kept.len() && kept[k] == id;
                    assert(ids.filter(keep)[k] == id);
                } else {
                    assert(ids.filter(keep)[kept.len() as int] == id);
                }
            }
            if ids.filter(keep).contains(id) {
                let k = choose|k: int|
                    0 <= k < ids.filter(keep).len() && ids.filter(keep)[k] == id;
                if k < kept.len() {
                    assert(kept[k] == id);
                    assert(kept.contains(id));
                    let i = choose|i: int| 0 <= i < shorter.len() && shorter[i] == id;
                    assert(ids[i] == id);
                } else {
                    assert(ids[ids.len() - 1] == id);
                }
            }
        }
        if keep(last) {
            assert(!kept.contains(last));
            assert forall|i: int| 0 <= i < kept.len() implies kept[i] != last by {
                assert(kept.contains(kept[i]));
            }
        }
    }
}

/// Points that are listed can be put in score order.
pub proof fn lemma_score_order_exists(
    ids: Seq<ExtendedPointId>,
    present: spec_fn(ExtendedPointId) -> bool,
    score: spec_fn(ExtendedPointId) -> i64,
)
    requires
        forall|id: ExtendedPointId| #[trigger] ids.contains(id) <==> present(id),
    ensures
        exists|order: Seq<ExtendedPointId>| is_score_order(present, score, order),
{
    broadcast use vstd::seq_lib::group_to_multiset_ensures;

    let keep = |id: ExtendedPointId| score(id) > 0;
    let once = distinct(ids);
    lemma_distinct(ids);
    lemma_filtered(once, keep);
    let kept = once.filter(keep);
    let leq = scored_order(score);
    assert(vstd::relations::total_ordering(leq)) by {
        assert forall|x: ExtendedPointId, y: ExtendedPointId| #[trigger] leq(x, y)
            && #[trigger] leq(y, x) implies x == y by {
            lemma_rank_is_injective(x, y);
        }
    }
    kept.lemma_sort_by_ensures(leq);
    let order = kept.sort_by(leq);
    kept.lemma_multiset_has_no_duplicates();
    assert forall|id: ExtendedPointId| order.to_multiset().contains(id) implies order.to_multiset().count(
        id,
    ) == 1 by {
        assert(kept.to_multiset().contains(id));
    }
    order.lemma_multiset_has_no_duplicates_conv();
    assert forall|id: ExtendedPointId| #[trigger] order.contains(id) <==> present(id) && score(id)
        > 0 by {
        assert(order.to_multiset().count(id) == kept.to_multiset().count(id));
        assert(order.contains(id) <==> kept.contains(id));
        assert(kept.contains(id) <==> once.contains(id) && keep(id));
        assert(once.contains(id) <==> ids.contains(id));
    }
    assert forall|i: int, j: int| 0 <= i < j < order.len() implies ranks_before(
        score(#[trigger] order[i]),
        order[i],
        score(#[trigger] order[j]),
        order[j],
    ) by {
        assert(leq(order[i], order[j]));
        assert(order[i] != order[j]);
        if order[i].rank() == order[j].rank() {
            lemma_rank_is_injective(order[i], order[j]);
        }
    }
    assert(is_score_order(present, score, order));
}

/// All identities of the rankings, one ranking after the other.
pub open spec fn concatenated(rankings: Seq<Seq<ExtendedPointId>>) -> Seq<ExtendedPointId>
    decreases rankings.len(),
{
    if rankings.len() == 0 {
        Seq::empty()
    } else {
        concatenated(rankings.drop_last()) + rankings.last()
    }
}

proof fn lemma_concatenated(rankings: Seq<Seq<ExtendedPointId>>)
    ensures
        forall|id: ExtendedPointId| #[trigger]
            concatenated(rankings).contains(id) <==> observed(rankings, id),
    decreases rankings.len(),
{
    if rankings.len() > 0 {
        let shorter = rankings.drop_last();
        let head = concatenated(shorter);
        let last = rankings.last();
        lemma_concatenated(shorter);
        assert forall|id: ExtendedPointId| #[trigger]
            concatenated(rankings).contains(id) <==> observed(rankings, id) by {
            let all = concatenated(rankings);
            if all.contains(id) {
                let i = choose|i: int| 0 <= i < all.len() && all[i] == id;
                if i < head.len() {
                    assert(head[i] == id);
                    assert(head.contains(id));
                    let source = choose|source: int|
                        0 <= source < shorter.len() && (#[trigger] shorter[source]).contains(id);
                    assert(rankings[source].contains(id));
                } else {
                    assert(last[i - head.len()] == id);
                    assert(rankings[rankings.len() - 1].contains(id));
                }
            }
            if observed(rankings, id) {
                let source = choose|source: int|
                    0 <= source < rankings.len() && (#[trigger] rankings[source]).contains(id);
                if source < shorter.len() {
                    assert(shorter[source].contains(id));
                    assert(observed(shorter, id));
                    assert(head.contains(id));
                    let i = choose|i: int| 0 <= i < head.len() && head[i] == id;
                    assert(all[i] == id);
                } else {
                    let i = choose|i: int| 0 <= i < last.len() && last[i] == id;
                    assert(all[head.len() + i] == id);
                }
            }
        }
    } else {
        assert forall|id: ExtendedPointId| #[trigger]
            concatenated(rankings).contains(id) <==> observed(rankings, id) by {
        }
    }
}

/// The exhaustive fusion of rankings.
pub open spec fn fusion_order(
    arithmetic: spec_fn(i64, usize, usize, i64) -> i64,
    rankings: Seq<Seq<ExtendedPointId>>,
    rrf_k: usize,
    weights: Seq<i64>,
) -> Seq<ExtendedPointId> {
    choose|order: Seq<ExtendedPointId>|
        is_exhaustive_fusion(arithmetic, rankings, rrf_k, weights, order)
}

/// Rankings always have an exhaustive fusion.
pub proof fn law_exhaustive_fusion_exists(
    arithmetic: spec_fn(i64, usize, usize, i64) -> i64,
    rankings: Seq<Seq<ExtendedPointId>>,
    rrf_k: usize,
    weights: Seq<i64>,
)
    ensures
        is_exhaustive_fusion(
            arithmetic,
            rankings,
            rrf_k,
            weights,
            fusion_order(arithmetic, rankings, rrf_k, weights),
        ),
{
    let present = ranked(rankings);
    let score = scores_under(arithmetic, rankings, rrf_k, weights);
    lemma_concatenated(rankings);
    lemma_score_order_exists(concatenated(rankings), present, score);
    let order = choose|order: Seq<ExtendedPointId>| is_score_order(present, score, order);
    assert(is_exhaustive_fusion(arithmetic, rankings, rrf_k, weights, order));
}

/// The identities of a response.
pub open spec fn ids_of(points: Seq<ScoredPoint>) -> Seq<ExtendedPointId> {
    Seq::new(points.len(), |i: int| points[i].id)
}

/// The rankings that responses hold.
pub open spec fn rankings_of(responses: Seq<Vec<ScoredPoint>>) -> Seq<Seq<ExtendedPointId>> {
    Seq::new(responses.len(), |i: int| ids_of(responses[i]@))
}

/// Whether a point is among the fused points.
pub open spec fn has_point(rows: Seq<ScoredPoint>, id: ExtendedPointId) -> bool {
    exists|row: int| 0 <= row < rows.len() && (#[trigger] rows[row]).id == id
}

/// Whether the fused points are different points.
pub open spec fn distinct_points(rows: Seq<ScoredPoint>) -> bool {
    forall|i: int, j: int|
        0 <= i < j < rows.len() ==> (#[trigger] rows[i]).id != (#[trigger] rows[j]).id
}

/// The score of a fused point; zero where it is none.
pub open spec fn score_of(rows: Seq<ScoredPoint>, id: ExtendedPointId) -> i64 {
    if has_point(rows, id) {
        rows[choose|row: int| 0 <= row < rows.len() && (#[trigger] rows[row]).id == id].score
    } else {
        0
    }
}

proof fn lemma_score_of(rows: Seq<ScoredPoint>, row: int)
    requires
        distinct_points(rows),
        0 <= row < rows.len(),
    ensures
        score_of(rows, rows[row].id) == rows[row].score,
{
    let id = rows[row].id;
    let found = choose|found: int| 0 <= found < rows.len() && (#[trigger] rows[found]).id == id;
    assert(rows[row].id == id);
    assert(found == row) by {
        if found < row {
            assert(rows[found].id != rows[row].id);
        } else if row < found {
            assert(rows[row].id != rows[found].id);
        }
    }
}

/// One more occurrence changes the score of one point and of no other.
proof fn lemma_counts_one<F: Fn(i64, usize, usize, i64) -> i64>(
    accumulate: F,
    arithmetic: spec_fn(i64, usize, usize, i64) -> i64,
    before: Seq<ScoredPoint>,
    point: ScoredPoint,
    position: usize,
    rrf_k: usize,
    weight: i64,
    after: Seq<ScoredPoint>,
)
    requires
        computes(accumulate, arithmetic),
        distinct_points(before),
        counts_one(accumulate, before, point, position, rrf_k, weight, after),
    ensures
        distinct_points(after),
        forall|id: ExtendedPointId| #[trigger]
            has_point(after, id) <==> has_point(before, id) || id == point.id,
        forall|id: ExtendedPointId| #[trigger]
            score_of(after, id) == (if id == point.id {
                arithmetic(score_of(before, id), position, rrf_k, weight)
            } else {
                score_of(before, id)
            }),
{
    if has_point(before, point.id) {
        let row = choose|row: int|
            {
                &&& 0 <= row < before.len()
                &&& (#[trigger] before[row]).id == point.id
                &&& after == before.update(
                    row,
                    ScoredPoint { score: after[row].score, ..before[row] },
                )
                &&& call_ensures(
                    accumulate,
                    (before[row].score, position, rrf_k, weight),
                    after[row].score,
                )
            };
        assert forall|i: int| 0 <= i < after.len() implies (#[trigger] after[i]).id == before[i].id by {
        }
        lemma_score_of(before, row);
        assert(distinct_points(after));
        assert forall|id: ExtendedPointId| #[trigger]
            has_point(after, id) <==> has_point(before, id) || id == point.id by {
            if has_point(before, id) {
                let i = choose|i: int| 0 <= i < before.len() && (#[trigger] before[i]).id == id;
                assert(after[i].id == id);
            }
            if has_point(after, id) {
                let i = choose|i: int| 0 <= i < after.len() && (#[trigger] after[i]).id == id;
                assert(before[i].id == id);
            }
        }
        assert forall|id: ExtendedPointId| #[trigger] score_of(after, id) == (if id == point.id {
            arithmetic(score_of(before, id), position, rrf_k, weight)
        } else {
            score_of(before, id)
        }) by {
            if has_point(after, id) {
                let i = choose|i: int| 0 <= i < after.len() && (#[trigger] after[i]).id == id;
                lemma_score_of(after, i);
                lemma_score_of(before, i);
                if id == point.id {
                    lemma_score_of(after, row);
                }
            } else {
                assert(!has_point(before, id));
            }
        }
    } else {
        assert forall|row: int| 0 <= row < before.len() implies (#[trigger] before[row]).id
            != point.id by {
        }
        let last = after.len() - 1;
        assert forall|i: int| 0 <= i < before.len() implies #[trigger] after[i] == before[i] by {
        }
        assert(distinct_points(after)) by {
            assert forall|i: int, j: int| 0 <= i < j < after.len() implies (#[trigger] after[i]).id
                != (#[trigger] after[j]).id by {
                assert(before[i].id == after[i].id);
                if j < last {
                    assert(before[j].id == after[j].id);
                }
            }
        }
        assert forall|id: ExtendedPointId| #[trigger]
            has_point(after, id) <==> has_point(before, id) || id == point.id by {
            if has_point(before, id) {
                let i = choose|i: int| 0 <= i < before.len() && (#[trigger] before[i]).id == id;
                assert(after[i].id == id);
            }
            if id == point.id {
                assert(after[last].id == id);
            }
            if has_point(after, id) {
                let i = choose|i: int| 0 <= i < after.len() && (#[trigger] after[i]).id == id;
                if i < last {
                    assert(before[i].id == id);
                }
            }
        }
        assert forall|id: ExtendedPointId| #[trigger] score_of(after, id) == (if id == point.id {
            arithmetic(score_of(before, id), position, rrf_k, weight)
        } else {
            score_of(before, id)
        }) by {
            if id == point.id {
                lemma_score_of(after, last);
            } else if has_point(after, id) {
                let i = choose|i: int| 0 <= i < after.len() && (#[trigger] after[i]).id == id;
                lemma_score_of(after, i);
                lemma_score_of(before, i);
            } else {
                assert(!has_point(before, id));
            }
        }
    }
}

/// A response without repetitions adds the contribution of each of its ranks.
proof fn lemma_counts_response<F: Fn(i64, usize, usize, i64) -> i64>(
    accumulate: F,
    arithmetic: spec_fn(i64, usize, usize, i64) -> i64,
    before: Seq<ScoredPoint>,
    response: Seq<ScoredPoint>,
    rrf_k: usize,
    weight: i64,
    rows: Seq<ScoredPoint>,
)
    requires
        computes(accumulate, arithmetic),
        distinct_points(before),
        ids_of(response).no_duplicates(),
        response.len() <= usize::MAX,
        counts_response(accumulate, before, response, rrf_k, weight, rows),
    ensures
        distinct_points(rows),
        forall|id: ExtendedPointId| #[trigger]
            has_point(rows, id) <==> has_point(before, id) || ids_of(response).contains(id),
        forall|id: ExtendedPointId| #[trigger]
            score_of(rows, id) == (match rank_in(ids_of(response), id) {
                Some(rank) => arithmetic(score_of(before, id), rank, rrf_k, weight),
                None => score_of(before, id),
            }),
    decreases response.len(),
{
    let ids = ids_of(response);
    if response.len() == 0 {
        assert forall|id: ExtendedPointId| !ids.contains(id) by {
        }
    } else {
        let shorter = response.drop_last();
        let short_ids = ids_of(shorter);
        let point = response.last();
        let place = response.len() - 1;
        let middle = choose|middle: Seq<ScoredPoint>|
            {
                &&& counts_response(accumulate, before, shorter, rrf_k, weight, middle)
                &&& #[trigger] counts_one(
                    accumulate,
                    middle,
                    point,
                    place as usize,
                    rrf_k,
                    weight,
                    rows,
                )
            };
        assert(short_ids =~= ids.drop_last());
        assert(short_ids.no_duplicates());
        lemma_counts_response(accumulate, arithmetic, before, shorter, rrf_k, weight, middle);
        lemma_counts_one(
            accumulate,
            arithmetic,
            middle,
            point,
            place as usize,
            rrf_k,
            weight,
            rows,
        );
        assert(ids[place] == point.id);
        assert(!short_ids.contains(point.id)) by {
            if short_ids.contains(point.id) {
                let k = choose|k: int| 0 <= k < short_ids.len() && short_ids[k] == point.id;
                assert(ids[k] == ids[place]);
            }
        }
        assert forall|id: ExtendedPointId| ids.contains(id) <==> short_ids.contains(id) || id
            == point.id by {
            if ids.contains(id) {
                let k = choose|k: int| 0 <= k < ids.len() && ids[k] == id;
                if k < place {
                    assert(short_ids[k] == id);
                }
            }
            if short_ids.contains(id) {
                let k = choose|k: int| 0 <= k < short_ids.len() && short_ids[k] == id;
                assert(ids[k] == id);
            }
        }
        assert forall|id: ExtendedPointId| #[trigger] score_of(rows, id) == (match rank_in(ids, id) {
            Some(rank) => arithmetic(score_of(before, id), rank, rrf_k, weight),
            None => score_of(before, id),
        }) by {
            if id == point.id {
                lemma_rank_in(ids, place);
                assert(score_of(middle, id) == score_of(before, id));
            } else if short_ids.contains(id) {
                let k = choose|k: int| 0 <= k < short_ids.len() && short_ids[k] == id;
                lemma_rank_in(ids, k);
                lemma_rank_in(short_ids, k);
                assert(ids[k] == id);
            }
            assert(score_of(middle, id) == (match rank_in(short_ids, id) {
                Some(rank) => arithmetic(score_of(before, id), rank, rrf_k, weight),
                None => score_of(before, id),
            }));
        }
    }
}

/// Fusing responses gives every point its fused score.
pub proof fn lemma_counts_responses<F: Fn(i64, usize, usize, i64) -> i64>(
    accumulate: F,
    arithmetic: spec_fn(i64, usize, usize, i64) -> i64,
    responses: Seq<Vec<ScoredPoint>>,
    rrf_k: usize,
    weights: Seq<i64>,
    rows: Seq<ScoredPoint>,
)
    requires
        computes(accumulate, arithmetic),
        responses.len() <= weights.len(),
        forall|i: int|
            0 <= i < responses.len() ==> ids_of((#[trigger] responses[i])@).no_duplicates()
                && responses[i]@.len() <= usize::MAX,
        counts_responses(accumulate, responses, rrf_k, Some(weights), rows),
    ensures
        distinct_points(rows),
        forall|id: ExtendedPointId| #[trigger]
            has_point(rows, id) <==> observed(rankings_of(responses), id),
        forall|id: ExtendedPointId| #[trigger]
            score_of(rows, id) == fused_score(
                arithmetic,
                ranks_of(rankings_of(responses), id),
                rrf_k,
                weights,
            ),
    decreases responses.len(),
{
    let rankings = rankings_of(responses);
    if responses.len() == 0 {
        assert forall|id: ExtendedPointId| #[trigger]
            has_point(rows, id) <==> observed(rankings, id) by {
        }
    } else {
        let shorter = responses.drop_last();
        let place = responses.len() - 1;
        let response = responses.last()@;
        let weight = response_weight(Some(weights), place);
        let middle = choose|middle: Seq<ScoredPoint>|
            {
                &&& counts_responses(accumulate, shorter, rrf_k, Some(weights), middle)
                &&& #[trigger] counts_response(
                    accumulate,
                    middle,
                    responses.last()@,
                    rrf_k,
                    response_weight(Some(weights), responses.len() - 1),
                    rows,
                )
            };
        assert forall|i: int| 0 <= i < shorter.len() implies ids_of(
            (#[trigger] shorter[i])@,
        ).no_duplicates() && shorter[i]@.len() <= usize::MAX by {
            assert(shorter[i] == responses[i]);
        }
        lemma_counts_responses(accumulate, arithmetic, shorter, rrf_k, weights, middle);
        assert(ids_of(responses[place]@).no_duplicates());
        lemma_counts_response(accumulate, arithmetic, middle, response, rrf_k, weight, rows);
        let fewer = rankings_of(shorter);
        assert(fewer =~= rankings.drop_last());
        assert(rankings[place] == ids_of(response));
        assert forall|id: ExtendedPointId| #[trigger]
            has_point(rows, id) <==> observed(rankings, id) by {
            if observed(fewer, id) {
                let source = choose|source: int|
                    0 <= source < fewer.len() && (#[trigger] fewer[source]).contains(id);
                assert(rankings[source].contains(id));
            }
            if ids_of(response).contains(id) {
                assert(rankings[place].contains(id));
            }
            if observed(rankings, id) {
                let source = choose|source: int|
                    0 <= source < rankings.len() && (#[trigger] rankings[source]).contains(id);
                if source < place {
                    assert(fewer[source].contains(id));
                }
            }
            assert(has_point(middle, id) <==> observed(fewer, id));
        }
        assert forall|id: ExtendedPointId| #[trigger] score_of(rows, id) == fused_score(
            arithmetic,
            ranks_of(rankings, id),
            rrf_k,
            weights,
        ) by {
            let ranks = ranks_of(rankings, id);
            assert(ranks.drop_last() =~= ranks_of(fewer, id));
            assert(ranks.last() == rank_in(ids_of(response), id));
            assert(score_of(middle, id) == fused_score(
                arithmetic,
                ranks_of(fewer, id),
                rrf_k,
                weights,
            ));
        }
    }
}

/// Filtering keeps the order of entries.
proof fn lemma_filter_keeps_order(points: Seq<ScoredPoint>, keep: spec_fn(ScoredPoint) -> bool)
    requires
        forall|i: int, j: int|
            0 <= i < j < points.len() ==> ranks_before(
                (#[trigger] points[i]).score,
                points[i].id,
                (#[trigger] points[j]).score,
                points[j].id,
            ),
    ensures
        ({
            let kept = points.filter(keep);
            &&& forall|i: int, j: int|
                0 <= i < j < kept.len() ==> ranks_before(
                    (#[trigger] kept[i]).score,
                    kept[i].id,
                    (#[trigger] kept[j]).score,
                    kept[j].id,
                )
            &&& forall|i: int|
                0 <= i < kept.len() ==> keep(#[trigger] kept[i]) && points.contains(kept[i])
            &&& forall|i: int|
                0 <= i < points.len() && keep(#[trigger] points[i]) ==> kept.contains(points[i])
        }),
    decreases points.len(),
{
    broadcast use vstd::seq_lib::group_filter_ensures;

    reveal(Seq::filter);
    let kept = points.filter(keep);
    assert forall|i: int| 0 <= i < kept.len() implies keep(#[trigger] kept[i]) && points.contains(
        kept[i],
    ) by {
        points.lemma_filter_contains_rev(keep, kept[i]);
    }
    if points.len() > 0 {
        let shorter = points.drop_last();
        lemma_filter_keeps_order(shorter, keep);
        assert forall|i: int, j: int| 0 <= i < j < kept.len() implies ranks_before(
            (#[trigger] kept[i]).score,
            kept[i].id,
            (#[trigger] kept[j]).score,
            kept[j].id,
        ) by {
            let before = shorter.filter(keep);
            if j >= before.len() {
                assert(kept[j] == points[points.len() - 1]);
                assert(before[i] == kept[i]);
                assert(shorter.contains(before[i]));
                let k = choose|k: int| 0 <= k < shorter.len() && shorter[k] == before[i];
                assert(points[k] == kept[i]);
            } else {
                assert(before[i] == kept[i] && before[j] == kept[j]);
            }
        }
    }
}

/// The fused responses with a positive score, in their order, are the exhaustive
/// fusion of the rankings that the responses hold.
pub proof fn law_exact_scoring_is_exhaustive<F: Fn(i64, usize, usize, i64) -> i64>(
    accumulate: F,
    arithmetic: spec_fn(i64, usize, usize, i64) -> i64,
    responses: Seq<Vec<ScoredPoint>>,
    rrf_k: usize,
    weights: Seq<i64>,
    rows: Seq<ScoredPoint>,
)
    requires
        computes(accumulate, arithmetic),
        responses.len() == weights.len(),
        forall|i: int|
            0 <= i < responses.len() ==> ids_of((#[trigger] responses[i])@).no_duplicates()
                && responses[i]@.len() <= usize::MAX,
        rows.len() <= usize::MAX,
        counts_responses(accumulate, responses, rrf_k, Some(weights), rows),
    ensures
        is_exhaustive_fusion(
            arithmetic,
            rankings_of(responses),
            rrf_k,
            weights,
            ids_of(ordered_points(rows).filter(|point: ScoredPoint| point.score > 0)),
        ),
{
    let rankings = rankings_of(responses);
    let present = ranked(rankings);
    let score = scores_under(arithmetic, rankings, rrf_k, weights);
    lemma_counts_responses(accumulate, arithmetic, responses, rrf_k, weights, rows);
    let entries = point_entries(rows);
    let order = ordered(entries);
    let points = ordered_points(rows);
    let keep = |point: ScoredPoint| point.score > 0;
    let kept = points.filter(keep);
    let ids = ids_of(kept);
    lemma_ordered(entries);
    assert(entries.no_duplicates()) by {
        assert forall|i: int, j: int| 0 <= i < entries.len() && 0 <= j < entries.len() && i != j implies entries[i]
            != entries[j] by {
            assert(entries[i].slot == i && entries[j].slot == j);
        }
    }
    super::certificate::lemma_order_no_duplicates(entries);
    assert forall|place: int| 0 <= place < order.len() implies {
        let entry = #[trigger] order[place];
        &&& entry.slot < rows.len()
        &&& entry.id == rows[entry.slot as int].id
        &&& entry.score == rows[entry.slot as int].score
        &&& points[place] == rows[entry.slot as int]
    } by {
        assert(order.contains(order[place]));
        assert(entries.contains(order[place]));
    }
    assert forall|i: int, j: int| 0 <= i < j < points.len() implies ranks_before(
        (#[trigger] points[i]).score,
        points[i].id,
        (#[trigger] points[j]).score,
        points[j].id,
    ) by {
        assert(order[i] != order[j]);
        assert(!order[j].precedes(order[i]));
        let a = order[i].slot as int;
        let b = order[j].slot as int;
        if order[i].score == order[j].score && order[i].id.rank() == order[j].id.rank() {
            lemma_rank_is_injective(order[i].id, order[j].id);
            assert(a != b);
            assert(rows[a].id != rows[b].id);
        }
    }
    lemma_filter_keeps_order(points, keep);
    assert forall|i: int| 0 <= i < kept.len() implies {
        &&& present(#[trigger] ids[i])
        &&& score(ids[i]) == kept[i].score
        &&& kept[i].score > 0
    } by {
        assert(keep(kept[i]) && points.contains(kept[i]));
        let place = choose|place: int| 0 <= place < points.len() && points[place] == kept[i];
        let row = order[place].slot as int;
        assert(points[place] == rows[row]);
        lemma_score_of(rows, row);
        assert(has_point(rows, ids[i]));
        assert(score_of(rows, ids[i]) == score(ids[i]));
    }
    assert forall|i: int, j: int| 0 <= i < j < ids.len() implies ranks_before(
        score(#[trigger] ids[i]),
        ids[i],
        score(#[trigger] ids[j]),
        ids[j],
    ) by {
        assert(ranks_before(kept[i].score, kept[i].id, kept[j].score, kept[j].id));
    }
    assert forall|i: int, j: int| 0 <= i < ids.len() && 0 <= j < ids.len() && i != j implies ids[i]
        != ids[j] by {
        if i < j {
            assert(ranks_before(score(ids[i]), ids[i], score(ids[j]), ids[j]));
        } else {
            assert(ranks_before(score(ids[j]), ids[j], score(ids[i]), ids[i]));
        }
    }
    assert forall|id: ExtendedPointId| #[trigger] ids.contains(id) <==> present(id) && score(id)
        > 0 by {
        if ids.contains(id) {
            let i = choose|i: int| 0 <= i < ids.len() && ids[i] == id;
            assert(present(ids[i]));
        }
        if present(id) && score(id) > 0 {
            assert(has_point(rows, id));
            let row = choose|row: int| 0 <= row < rows.len() && (#[trigger] rows[row]).id == id;
            lemma_score_of(rows, row);
            assert(score_of(rows, id) == score(id));
            assert(entries.contains(entries[row]));
            assert(order.contains(entries[row]));
            let place = choose|place: int| 0 <= place < order.len() && order[place] == entries[row];
            assert(points[place] == rows[row]);
            assert(keep(points[place]));
            assert(kept.contains(points[place]));
            let i = choose|i: int| 0 <= i < kept.len() && kept[i] == points[place];
            assert(ids[i] == id);
        }
    }
}

/// What a fusion returns does not depend on its policy, its scheduler, its batches or
/// the order of its pulls: any two fusions of the same rankings return the same
/// identities.
pub proof fn law_fusion_is_independent_of_scheduling<A: Fn(i64, usize, usize, i64) -> i64>(
    accumulate: A,
    arithmetic: spec_fn(i64, usize, usize, i64) -> i64,
    rankings: Seq<Seq<ExtendedPointId>>,
    rrf_k: usize,
    weights: Seq<i64>,
    top_k: usize,
    left: Seq<ExtendedPointId>,
    right: Seq<ExtendedPointId>,
)
    requires
        computes(accumulate, arithmetic),
        is_rank_arithmetic(arithmetic),
        is_exhaustive_prefix(accumulate, rankings, rrf_k, weights, top_k, left),
        is_exhaustive_prefix(accumulate, rankings, rrf_k, weights, top_k, right),
    ensures
        left == right,
{
    let order = fusion_order(arithmetic, rankings, rrf_k, weights);
    law_exhaustive_fusion_exists(arithmetic, rankings, rrf_k, weights);
    assert(is_exhaustive_fusion(arithmetic, rankings, rrf_k, weights, order));
}

/// Streams of batches that yield the same rankings fuse to the same identities under every
/// two batch sizes and policies.
pub proof fn law_batch_size_does_not_matter<
    B: ExactRrfBatchStream,
    F: Fn(i64, usize, usize, i64) -> i64,
    P: Fn(usize, usize, i64, usize, i64) -> i64,
>(
    arithmetic: spec_fn(i64, usize, usize, i64) -> i64,
    rankings: Seq<Seq<ExtendedPointId>>,
    left: Seq<B>,
    left_size: usize,
    left_policy: DynamicRrfPolicy,
    left_result: OperationResult<DynamicRrfExecution>,
    right: Seq<B>,
    right_size: usize,
    right_policy: DynamicRrfPolicy,
    right_result: OperationResult<DynamicRrfExecution>,
    top_k: usize,
    rrf_k: usize,
    weights: Option<Seq<i64>>,
    accumulate: F,
    priority: P,
)
    requires
        computes(accumulate, arithmetic),
        is_rank_arithmetic(arithmetic),
        are_rankings(rankings),
        batches_yield(left, rankings),
        batches_yield(right, rankings),
        left.len() <= usize::MAX,
        session_fault(
            left.len() as usize,
            left_size,
            rrf_k,
            weights,
            Seq::new(left.len(), |i: int| UNIT_WEIGHT),
            left_policy,
        ) is None,
        session_fault(
            right.len() as usize,
            right_size,
            rrf_k,
            weights,
            Seq::new(right.len(), |i: int| UNIT_WEIGHT),
            right_policy,
        ) is None,
        fuses_batches(
            left,
            left_size,
            top_k,
            rrf_k,
            weights,
            left_policy,
            accumulate,
            priority,
            left_result,
        ),
        fuses_batches(
            right,
            right_size,
            top_k,
            rrf_k,
            weights,
            right_policy,
            accumulate,
            priority,
            right_result,
        ),
    ensures
        left_result is Ok,
        right_result is Ok,
        left_result->Ok_0.point_ids@ == right_result->Ok_0.point_ids@,
{
    law_fusion_is_independent_of_scheduling(
        accumulate,
        arithmetic,
        rankings,
        rrf_k,
        effective_weights(left.len() as usize, weights),
        top_k,
        left_result->Ok_0.point_ids@,
        right_result->Ok_0.point_ids@,
    );
}

/// A session that was run to a prefix and is then run to another: a shorter one is refused
/// and changes nothing; a longer one pulls on from where the sources stand, and not at all
/// where they have ended; and it begins with the identities that were returned before.
pub proof fn law_second_prefix_extends_the_first<
    S: ExactRrfStream,
    B: ExactRrfBatchStream,
    F: Fn(i64, usize, usize, i64) -> i64,
    P: Fn(usize, usize, i64, usize, i64) -> i64,
>(
    first: DynamicRrfSession<S, B>,
    fewer: usize,
    shorter: DynamicRrfExecution,
    second: DynamicRrfSession<S, B>,
    more: usize,
    result: OperationResult<DynamicRrfExecution>,
    third: DynamicRrfSession<S, B>,
    accumulate: F,
    priority: P,
)
    requires
        first.wf(),
        second.wf(),
        third.wf(),
        extends_prefix(first, fewer, accumulate, priority, Ok(shorter), second),
        extends_prefix(second, more, accumulate, priority, result, third),
    ensures
        more < fewer ==> {
            &&& result == refused::<DynamicRrfExecution>(
                Fault::PrefixDecrease { from: fewer, to: more },
            )
            &&& third@ == second@
            &&& third.streams() == second.streams()
        },
        more >= fewer ==> (result matches Ok(longer) ==> {
            &&& longer.source_pulls@.len() == shorter.source_pulls@.len()
            &&& forall|source: int|
                0 <= source < shorter.source_pulls@.len()
                    ==> #[trigger] longer.source_pulls@[source] >= shorter.source_pulls@[source]
            &&& shorter.stop_reason == DynamicRrfStopReason::AllSourcesExhausted ==> {
                &&& longer.source_pulls@ == shorter.source_pulls@
                &&& longer.certification_checks == shorter.certification_checks
            }
            &&& shorter.stop_reason == DynamicRrfStopReason::AllSourcesExhausted ==> {
                &&& shorter.point_ids@.len() <= longer.point_ids@.len()
                &&& shorter.point_ids@ == longer.point_ids@.take(shorter.point_ids@.len() as int)
            }
            &&& forall|
                rankings: Seq<Seq<ExtendedPointId>>,
                failures: Seq<Option<OperationError>>,
                arithmetic: spec_fn(i64, usize, usize, i64) -> i64,
            |
                #![trigger first.leads(rankings, failures), is_rank_arithmetic(arithmetic)]
                {
                    &&& first.leads(rankings, failures)
                    &&& order_is_kept(first@, accumulate)
                    &&& computes(accumulate, arithmetic)
                    &&& is_rank_arithmetic(arithmetic)
                } ==> {
                    &&& shorter.point_ids@.len() <= longer.point_ids@.len()
                    &&& shorter.point_ids@ == longer.point_ids@.take(
                        shorter.point_ids@.len() as int,
                    )
                }
        }),
{
    first.lemma_valid();
    second.lemma_valid();
    third.lemma_valid();
    assert(first@.fusion.top_k <= fewer);
    assert(second@.fusion.top_k == fewer);
    if more >= fewer {
        if let Ok(longer) = result {
            assert forall|source: int| 0 <= source < shorter.source_pulls@.len() implies
                #[trigger] longer.source_pulls@[source] >= shorter.source_pulls@[source] by {
                let _ = second@.raised(more).fusion.histories[source];
                let _ = third@.fusion.histories[source];
            }
            if shorter.stop_reason == DynamicRrfStopReason::AllSourcesExhausted {
                assert(second@.order is Some);
                let order = second@.order->0;
                assert(shorter.point_ids@ == first_of(order, fewer));
                assert(longer.point_ids@ == first_of(order, more));
                assert(shorter.point_ids@ =~= longer.point_ids@.take(
                    shorter.point_ids@.len() as int,
                ));
                assert(longer.source_pulls@ =~= shorter.source_pulls@);
            }
            assert forall|
                rankings: Seq<Seq<ExtendedPointId>>,
                failures: Seq<Option<OperationError>>,
                arithmetic: spec_fn(i64, usize, usize, i64) -> i64,
            |
                #![trigger first.leads(rankings, failures), is_rank_arithmetic(arithmetic)]
                {
                    &&& first.leads(rankings, failures)
                    &&& order_is_kept(first@, accumulate)
                    &&& computes(accumulate, arithmetic)
                    &&& is_rank_arithmetic(arithmetic)
                } implies {
                &&& shorter.point_ids@.len() <= longer.point_ids@.len()
                &&& shorter.point_ids@ == longer.point_ids@.take(shorter.point_ids@.len() as int)
            } by {
                let rrf_k = first@.fusion.rrf_k;
                let weights = first@.fusion.weights;
                assert(second.leads(rankings, failures));
                law_exhaustive_fusion_exists(arithmetic, rankings, rrf_k, weights);
                law_longer_prefix_extends(
                    accumulate,
                    rankings,
                    rrf_k,
                    weights,
                    fewer,
                    shorter.point_ids@,
                    more,
                    longer.point_ids@,
                    arithmetic,
                    fusion_order(arithmetic, rankings, rrf_k, weights),
                );
            }
        }
    }
}

} // verus!
