//! Why a certified Top-K is final.

use super::scoring::{
    computes, fused_score, is_rank_arithmetic, law_fused_score_is_monotone,
    lemma_fused_is_computed, no_better, outranks,
};
use super::state::{
    all_ended, best_ranks, complete_ids, first_of, fixed_ids, is_certified, leading_ids,
    lemma_rank_persists, lower_entries, next_ranks, observed, positive_entries, ranks_of,
    FusionView, PointBounds,
};
use crate::order::{ranks_before, ExtendedPointId};
use crate::rank_queue::{lemma_ordered, ordered, RankEntry};
use vstd::prelude::*;

verus! {

/// Whether `order` lists the present points with a positive score, the higher
/// score first and equal scores by identity.
pub open spec fn is_score_order(
    present: spec_fn(ExtendedPointId) -> bool,
    score: spec_fn(ExtendedPointId) -> i64,
    order: Seq<ExtendedPointId>,
) -> bool {
    &&& order.no_duplicates()
    &&& forall|id: ExtendedPointId|
        #[trigger] order.contains(id) <==> present(id) && score(id) > 0
    &&& forall|i: int, j: int|
        0 <= i < j < order.len() ==> ranks_before(
            score(#[trigger] order[i]),
            order[i],
            score(#[trigger] order[j]),
            order[j],
        )
}

/// Whether every winner stands before every point that is not among the winners
/// up to it.
pub open spec fn lead(
    present: spec_fn(ExtendedPointId) -> bool,
    score: spec_fn(ExtendedPointId) -> i64,
    winners: Seq<ExtendedPointId>,
) -> bool {
    &&& winners.no_duplicates()
    &&& forall|place: int|
        0 <= place < winners.len() ==> present(#[trigger] winners[place]) && score(winners[place])
            > 0
    &&& forall|place: int, id: ExtendedPointId|
        0 <= place < winners.len() && present(id) && score(id) > 0 && !winners.take(
            place + 1,
        ).contains(id) ==> #[trigger] ranks_before(
            score(winners[place]),
            winners[place],
            score(id),
            id,
        )
}

/// Points that lead all others are the first of the score order.
pub proof fn lemma_leaders_come_first(
    present: spec_fn(ExtendedPointId) -> bool,
    score: spec_fn(ExtendedPointId) -> i64,
    order: Seq<ExtendedPointId>,
    winners: Seq<ExtendedPointId>,
)
    requires
        is_score_order(present, score, order),
        lead(present, score, winners),
    ensures
        winners.len() <= order.len(),
        winners == order.take(winners.len() as int),
    decreases winners.len(),
{
    if winners.len() == 0 {
        assert(winners =~= order.take(0));
    } else {
        let shorter = winners.drop_last();
        let place = winners.len() - 1;
        assert(lead(present, score, shorter)) by {
            assert forall|p: int, id: ExtendedPointId|
                0 <= p < shorter.len() && present(id) && score(id) > 0 && !shorter.take(
                    p + 1,
                ).contains(id) implies #[trigger] ranks_before(
                score(shorter[p]),
                shorter[p],
                score(id),
                id,
            ) by {
                assert(shorter.take(p + 1) =~= winners.take(p + 1));
                assert(shorter[p] == winners[p]);
            }
        }
        lemma_leaders_come_first(present, score, order, shorter);
        let winner = winners[place];
        assert(order.contains(winner));
        let found = choose|i: int| 0 <= i < order.len() && order[i] == winner;
        assert(found >= place) by {
            if found < place {
                assert(order.take(place)[found] == winner);
                assert(shorter[found] == winner);
                assert(winners[found] == winner);
            }
        }
        if found > place {
            let head = order[place];
            assert(order.contains(head));
            assert(!winners.take(place + 1).contains(head)) by {
                if winners.take(place + 1).contains(head) {
                    let leading = winners.take(place + 1);
                    let k = choose|k: int| 0 <= k < leading.len() && leading[k] == head;
                    if k < place {
                        assert(shorter[k] == order.take(place)[k]);
                        assert(order[k] == head);
                    } else {
                        assert(head == winner);
                    }
                }
            }
            assert(ranks_before(score(winner), winner, score(head), head));
            assert(ranks_before(score(order[place]), order[place], score(order[found]), order[found]));
        }
        assert(winners =~= order.take(winners.len() as int));
    }
}

/// A score order is determined by the points and their scores.
pub proof fn law_score_order_is_unique(
    present: spec_fn(ExtendedPointId) -> bool,
    score: spec_fn(ExtendedPointId) -> i64,
    left: Seq<ExtendedPointId>,
    right: Seq<ExtendedPointId>,
)
    requires
        is_score_order(present, score, left),
        is_score_order(present, score, right),
    ensures
        left == right,
{
    assert(lead(present, score, right)) by {
        assert forall|place: int| 0 <= place < right.len() implies present(
            #[trigger] right[place],
        ) && score(right[place]) > 0 by {
            assert(right.contains(right[place]));
        }
        assert forall|place: int, id: ExtendedPointId|
            0 <= place < right.len() && present(id) && score(id) > 0 && !right.take(
                place + 1,
            ).contains(id) implies #[trigger] ranks_before(
            score(right[place]),
            right[place],
            score(id),
            id,
        ) by {
            assert(right.contains(id));
            let k = choose|k: int| 0 <= k < right.len() && right[k] == id;
            if k <= place {
                assert(right.take(place + 1)[k] == id);
            }
        }
    }
    lemma_leaders_come_first(present, score, left, right);
    assert(left.len() == right.len()) by {
        if left.len() > right.len() {
            let extra = left[right.len() as int];
            assert(left.contains(extra));
            assert(right.contains(extra));
            let k = choose|k: int| 0 <= k < right.len() && right[k] == extra;
            assert(left.take(right.len() as int)[k] == extra);
            assert(left[k] == extra);
        }
    }
    assert(left =~= right);
}

/// Whether the rows are of different points.
pub open spec fn distinct_rows(rows: Seq<PointBounds>) -> bool {
    forall|i: int, j: int|
        0 <= i < j < rows.len() ==> (#[trigger] rows[i]).id != (#[trigger] rows[j]).id
}

/// Whether a point has a row.
pub open spec fn has_row(rows: Seq<PointBounds>, id: ExtendedPointId) -> bool {
    exists|row: int| 0 <= row < rows.len() && (#[trigger] rows[row]).id == id
}

/// The ordered entries of rows are the rows, each in one place.
proof fn lemma_lower_order(rows: Seq<PointBounds>)
    requires
        distinct_rows(rows),
        rows.len() <= usize::MAX,
    ensures
        ({
            let order = ordered(lower_entries(rows));
            &&& order.len() == rows.len()
            &&& forall|place: int|
                0 <= place < order.len() ==> {
                    let entry = #[trigger] order[place];
                    &&& entry.slot < rows.len()
                    &&& entry.id == rows[entry.slot as int].id
                    &&& entry.score == rows[entry.slot as int].lower
                }
            &&& forall|i: int, j: int|
                0 <= i < j < order.len() ==> (#[trigger] order[i]).id != (#[trigger] order[j]).id
            &&& forall|row: int|
                0 <= row < rows.len() ==> exists|place: int|
                    0 <= place < order.len() && (#[trigger] order[place]).slot == row && (
                    #[trigger] rows[row]).id == order[place].id
        }),
{
    broadcast use vstd::seq_lib::group_to_multiset_ensures;

    let entries = lower_entries(rows);
    let order = ordered(entries);
    lemma_ordered(entries);
    assert forall|place: int| 0 <= place < order.len() implies {
        let entry = #[trigger] order[place];
        &&& entry.slot < rows.len()
        &&& entry.id == rows[entry.slot as int].id
        &&& entry.score == rows[entry.slot as int].lower
    } by {
        assert(order.contains(order[place]));
        assert(entries.contains(order[place]));
    }
    assert(entries.no_duplicates()) by {
        assert forall|i: int, j: int| 0 <= i < entries.len() && 0 <= j < entries.len() && i != j implies entries[i]
            != entries[j] by {
            assert(entries[i].slot == i && entries[j].slot == j);
        }
    }
    lemma_order_no_duplicates(entries);
    assert forall|i: int, j: int| 0 <= i < j < order.len() implies (#[trigger] order[i]).id != (
    #[trigger] order[j]).id by {
        assert(order[i] != order[j]);
        let a = order[i].slot as int;
        let b = order[j].slot as int;
        if a != b {
            assert(rows[a].id != rows[b].id);
        }
    }
    assert forall|row: int| 0 <= row < rows.len() implies exists|place: int|
        0 <= place < order.len() && (#[trigger] order[place]).slot == row && (
        #[trigger] rows[row]).id == order[place].id by {
        assert(entries.contains(entries[row]));
        assert(order.contains(entries[row]));
        let place = choose|place: int| 0 <= place < order.len() && order[place] == entries[row];
        assert(order[place].slot == row);
    }
}

/// A certified Top-K is final. Take rows whose final scores lie within their
/// bounds, while every present point without a row scores at most `unseen`:
/// the certified identities are then the first of the final score order.
pub proof fn law_certified_prefix_is_final(
    rows: Seq<PointBounds>,
    unseen: i64,
    top_k: int,
    present: spec_fn(ExtendedPointId) -> bool,
    score: spec_fn(ExtendedPointId) -> i64,
    order: Seq<ExtendedPointId>,
)
    requires
        0 <= top_k,
        rows.len() <= usize::MAX,
        distinct_rows(rows),
        unseen >= 0,
        forall|row: int|
            0 <= row < rows.len() ==> {
                &&& present((#[trigger] rows[row]).id)
                &&& rows[row].lower <= score(rows[row].id) <= rows[row].upper
            },
        forall|id: ExtendedPointId|
            #[trigger] present(id) && !has_row(rows, id) ==> score(id) <= unseen,
        is_certified(rows, unseen, top_k),
        is_score_order(present, score, order),
    ensures
        top_k <= order.len(),
        leading_ids(ordered(lower_entries(rows)), top_k) == order.take(top_k),
{
    let lower = ordered(lower_entries(rows));
    let winners = leading_ids(lower, top_k);
    lemma_lower_order(rows);
    assert(lead(present, score, winners)) by {
        assert forall|place: int| 0 <= place < winners.len() implies present(
            #[trigger] winners[place],
        ) && score(winners[place]) > 0 by {
            let entry = lower[place];
            assert(entry.score > unseen);
            assert(present(rows[entry.slot as int].id));
        }
        assert forall|i: int, j: int| 0 <= i < winners.len() && 0 <= j < winners.len() && i != j implies winners[i]
            != winners[j] by {
            if i < j {
                assert(lower[i].id != lower[j].id);
            } else {
                assert(lower[j].id != lower[i].id);
            }
        }
        assert forall|place: int, id: ExtendedPointId|
            0 <= place < winners.len() && present(id) && score(id) > 0 && !winners.take(
                place + 1,
            ).contains(id) implies #[trigger] ranks_before(
            score(winners[place]),
            winners[place],
            score(id),
            id,
        ) by {
            let entry = lower[place];
            assert(entry.score > unseen);
            assert(rows[entry.slot as int].lower <= score(rows[entry.slot as int].id));
            if has_row(rows, id) {
                let row = choose|row: int| 0 <= row < rows.len() && (#[trigger] rows[row]).id == id;
                let behind = choose|behind: int|
                    0 <= behind < lower.len() && (#[trigger] lower[behind]).slot == row
                        && rows[row].id == lower[behind].id;
                assert(behind > place) by {
                    if behind <= place {
                        assert(winners.take(place + 1)[behind] == id);
                    }
                }
                assert(outranks(lower[place].id, lower[place].score, lower[behind].id, rows[lower[behind].slot as int].upper));
                assert(score(id) <= rows[row].upper);
            } else {
                assert(score(id) <= unseen);
            }
        }
    }
    lemma_leaders_come_first(present, score, order, winners);
}

/// Once every source has ended, the rows with a positive score in their order
/// are the final score order.
pub proof fn law_complete_order_is_final(
    rows: Seq<PointBounds>,
    present: spec_fn(ExtendedPointId) -> bool,
    score: spec_fn(ExtendedPointId) -> i64,
)
    requires
        rows.len() <= usize::MAX,
        distinct_rows(rows),
        forall|row: int|
            0 <= row < rows.len() ==> (#[trigger] rows[row]).lower == score(rows[row].id),
        forall|id: ExtendedPointId| #[trigger] present(id) <==> has_row(rows, id),
    ensures
        is_score_order(present, score, complete_ids(rows)),
{
    broadcast use vstd::seq_lib::group_to_multiset_ensures;

    let all = lower_entries(rows);
    let positive = |entry: RankEntry| entry.score > 0;
    let entries = positive_entries(rows);
    let order = ordered(entries);
    let ids = complete_ids(rows);
    lemma_ordered(entries);
    broadcast use vstd::seq_lib::group_filter_ensures;

    assert(all.no_duplicates()) by {
        assert forall|i: int, j: int| 0 <= i < all.len() && 0 <= j < all.len() && i != j implies all[i]
            != all[j] by {
            assert(all[i].slot == i && all[j].slot == j);
        }
    }
    lemma_filter_no_duplicates(all, positive);
    lemma_order_no_duplicates(entries);
    assert forall|place: int| 0 <= place < order.len() implies {
        let entry = #[trigger] order[place];
        &&& entry.slot < rows.len()
        &&& entry.id == rows[entry.slot as int].id
        &&& entry.score == score(entry.id)
        &&& entry.score > 0
    } by {
        assert(order.contains(order[place]));
        assert(entries.contains(order[place]));
        let i = choose|i: int| 0 <= i < entries.len() && entries[i] == order[place];
        assert(positive(entries[i]));
        all.lemma_filter_contains_rev(positive, entries[i]);
    }
    assert forall|i: int, j: int| 0 <= i < j < ids.len() implies ranks_before(
        score(#[trigger] ids[i]),
        ids[i],
        score(#[trigger] ids[j]),
        ids[j],
    ) by {
        assert(order[i] != order[j]);
        assert(!order[j].precedes(order[i]));
        let a = order[i].slot as int;
        let b = order[j].slot as int;
        if order[i].score == order[j].score && order[i].id.rank() == order[j].id.rank() {
            crate::order::lemma_rank_is_injective(order[i].id, order[j].id);
            assert(a != b);
            assert(rows[a].id != rows[b].id);
        }
    }
    assert forall|i: int, j: int| 0 <= i < ids.len() && 0 <= j < ids.len() && i != j implies ids[i] != ids[j] by {
        if i < j {
            assert(ranks_before(score(ids[i]), ids[i], score(ids[j]), ids[j]));
        } else {
            assert(ranks_before(score(ids[j]), ids[j], score(ids[i]), ids[i]));
        }
    }
    assert forall|id: ExtendedPointId| #[trigger] ids.contains(id) <==> present(id) && score(id)
        > 0 by {
        if ids.contains(id) {
            let place = choose|place: int| 0 <= place < ids.len() && ids[place] == id;
            assert(order[place].id == id);
            assert(rows[order[place].slot as int].id == id);
            assert(has_row(rows, id));
        }
        if present(id) && score(id) > 0 {
            let row = choose|row: int| 0 <= row < rows.len() && (#[trigger] rows[row]).id == id;
            assert(positive(all[row]));
            assert(entries.contains(all[row]));
            assert(order.contains(all[row]));
            let place = choose|place: int| 0 <= place < order.len() && order[place] == all[row];
            assert(ids[place] == id);
        }
    }
}

/// Filtering adds no duplicates.
proof fn lemma_filter_no_duplicates(entries: Seq<RankEntry>, keep: spec_fn(RankEntry) -> bool)
    requires
        entries.no_duplicates(),
    ensures
        entries.filter(keep).no_duplicates(),
    decreases entries.len(),
{
    reveal(Seq::filter);
    if entries.len() > 0 {
        let shorter = entries.drop_last();
        lemma_filter_no_duplicates(shorter, keep);
        broadcast use vstd::seq_lib::group_filter_ensures;

        assert forall|i: int| 0 <= i < shorter.filter(keep).len() implies shorter.filter(keep)[i]
            != entries.last() by {
            shorter.lemma_filter_contains_rev(keep, shorter.filter(keep)[i]);
            let k = choose|k: int| 0 <= k < shorter.len() && shorter[k] == shorter.filter(keep)[i];
            assert(entries[k] != entries[entries.len() - 1]);
        }
    }
}

/// Ordering adds no duplicates.
pub proof fn lemma_order_no_duplicates(entries: Seq<RankEntry>)
    requires
        entries.no_duplicates(),
    ensures
        ordered(entries).no_duplicates(),
{
    let order = ordered(entries);
    lemma_ordered(entries);
    entries.lemma_multiset_has_no_duplicates();
    assert forall|entry: RankEntry| order.to_multiset().contains(entry) implies order.to_multiset().count(
        entry,
    ) == 1 by {
        assert(entries.to_multiset().contains(entry));
    }
    order.lemma_multiset_has_no_duplicates_conv();
}


/// Whether the sources can turn out to be the given complete rankings: each
/// observed prefix is the beginning of its ranking, and all of it once ended.
pub open spec fn can_become(view: FusionView, rankings: Seq<Seq<ExtendedPointId>>) -> bool {
    &&& rankings.len() == view.histories.len()
    &&& forall|source: int|
        0 <= source < rankings.len() ==> {
            let history = view.histories[source];
            &&& (#[trigger] rankings[source]).no_duplicates()
            &&& rankings[source].len() <= usize::MAX
            &&& history.len() <= rankings[source].len()
            &&& history == rankings[source].take(history.len() as int)
            &&& view.exhausted[source] ==> history == rankings[source]
        }
}

/// The points of the given rankings.
pub open spec fn ranked(rankings: Seq<Seq<ExtendedPointId>>) -> spec_fn(ExtendedPointId) -> bool {
    |id: ExtendedPointId| observed(rankings, id)
}

/// The fused score of every point of the given rankings.
pub open spec fn scores_under(
    arithmetic: spec_fn(i64, usize, usize, i64) -> i64,
    rankings: Seq<Seq<ExtendedPointId>>,
    rrf_k: usize,
    weights: Seq<i64>,
) -> spec_fn(ExtendedPointId) -> i64 {
    |id: ExtendedPointId| fused_score(arithmetic, ranks_of(rankings, id), rrf_k, weights)
}

/// Whether `order` is the exhaustive fusion of the given rankings: every point
/// with a positive fused score, the best first.
pub open spec fn is_exhaustive_fusion(
    arithmetic: spec_fn(i64, usize, usize, i64) -> i64,
    rankings: Seq<Seq<ExtendedPointId>>,
    rrf_k: usize,
    weights: Seq<i64>,
    order: Seq<ExtendedPointId>,
) -> bool {
    is_score_order(
        ranked(rankings),
        scores_under(arithmetic, rankings, rrf_k, weights),
        order,
    )
}

/// What the prefixes say of a point bounds what the complete rankings will say.
proof fn lemma_ranks_are_bounded(
    view: FusionView,
    rankings: Seq<Seq<ExtendedPointId>>,
    id: ExtendedPointId,
)
    requires
        view.valid(),
        can_become(view, rankings),
    ensures
        no_better(ranks_of(rankings, id), ranks_of(view.histories, id)),
        no_better(best_ranks(view.histories, view.exhausted, id), ranks_of(rankings, id)),
        !observed(view.histories, id) ==> no_better(
            next_ranks(view.histories, view.exhausted),
            ranks_of(rankings, id),
        ),
        observed(view.histories, id) ==> observed(rankings, id),
        all_ended(view.exhausted) ==> rankings =~= view.histories,
{
    let now = ranks_of(view.histories, id);
    let later = ranks_of(rankings, id);
    let best = best_ranks(view.histories, view.exhausted, id);
    let next = next_ranks(view.histories, view.exhausted);
    assert forall|source: int| 0 <= source < rankings.len() implies ({
        &&& match (#[trigger] later[source], now[source]) {
            (_, None) => true,
            (Some(near), Some(far)) => near <= far,
            (None, Some(_)) => false,
        }
        &&& match (best[source], later[source]) {
            (_, None) => true,
            (Some(near), Some(far)) => near <= far,
            (None, Some(_)) => false,
        }
        &&& !view.histories[source].contains(id) ==> match (next[source], later[source]) {
            (_, None) => true,
            (Some(near), Some(far)) => near <= far,
            (None, Some(_)) => false,
        }
    }) by {
        let history = view.histories[source];
        let ranking = rankings[source];
        assert(history == ranking.take(history.len() as int));
        lemma_rank_persists(history, ranking, id);
        if history.contains(id) {
            let place = choose|place: int| 0 <= place < history.len() && history[place] == id;
            assert(ranking[place] == id);
        }
    }
    assert forall|source: int| 0 <= source < best.len() implies match (
        #[trigger] best[source],
        later[source],
    ) {
        (_, None) => true,
        (Some(near), Some(far)) => near <= far,
        (None, Some(_)) => false,
    } by {
        let _ = later[source];
    }
    if observed(view.histories, id) {
        let source = choose|source: int|
            0 <= source < view.histories.len() && (#[trigger] view.histories[source]).contains(id);
        let history = view.histories[source];
        assert(history == rankings[source].take(history.len() as int));
        let place = choose|place: int| 0 <= place < history.len() && history[place] == id;
        assert(rankings[source][place] == id);
        assert(rankings[source].contains(id));
    } else {
        assert forall|source: int| 0 <= source < next.len() implies match (
            #[trigger] next[source],
            later[source],
        ) {
            (_, None) => true,
            (Some(near), Some(far)) => near <= far,
            (None, Some(_)) => false,
        } by {
            assert(!view.histories[source].contains(id));
            let _ = later[source];
        }
    }
    if all_ended(view.exhausted) {
        assert forall|source: int| 0 <= source < rankings.len() implies rankings[source]
            == view.histories[source] by {
            assert(view.exhausted[source]);
        }
    }
}

/// What a state fixes is what exhaustive fusion gives. Whatever complete
/// rankings the sources turn out to be, the identities that a state has fixed
/// are the first of the exhaustive fusion of those rankings.
pub proof fn law_fixed_top_k_is_exhaustive<F: Fn(i64, usize, usize, i64) -> i64>(
    accumulate: F,
    arithmetic: spec_fn(i64, usize, usize, i64) -> i64,
    view: FusionView,
    rows: Seq<PointBounds>,
    unseen: i64,
    rankings: Seq<Seq<ExtendedPointId>>,
    order: Seq<ExtendedPointId>,
)
    requires
        computes(accumulate, arithmetic),
        is_rank_arithmetic(arithmetic),
        view.valid(),
        view.bounded_by(accumulate, rows),
        view.unseen_by(accumulate, unseen),
        can_become(view, rankings),
        is_exhaustive_fusion(arithmetic, rankings, view.rrf_k, view.weights, order),
    ensures
        fixed_ids(rows, unseen, view.exhausted, view.top_k) matches Some(ids) ==> ids == first_of(
            order,
            view.top_k,
        ),
{
    let present = ranked(rankings);
    let score = scores_under(arithmetic, rankings, view.rrf_k, view.weights);
    let next = next_ranks(view.histories, view.exhausted);
    if view.top_k == 0 {
        assert(first_of(order, view.top_k) =~= Seq::<ExtendedPointId>::empty());
    } else if all_ended(view.exhausted) {
        lemma_complete_rows(accumulate, arithmetic, view, rows, rankings);
        law_score_order_is_unique(present, score, order, complete_ids(rows));
    } else if is_certified(rows, unseen, view.top_k as int) {
        lemma_fused_is_computed(accumulate, arithmetic, next, view.rrf_k, view.weights, unseen);
        law_fused_score_is_monotone(arithmetic, next, next, view.rrf_k, view.weights);
        assert forall|row: int| 0 <= row < rows.len() implies {
            &&& present((#[trigger] rows[row]).id)
            &&& rows[row].lower <= score(rows[row].id) <= rows[row].upper
        } by {
            let id = rows[row].id;
            assert(has_row(rows, id));
            assert(observed(view.histories, id));
            lemma_ranks_are_bounded(view, rankings, id);
            let now = ranks_of(view.histories, id);
            let later = ranks_of(rankings, id);
            let best = best_ranks(view.histories, view.exhausted, id);
            lemma_fused_is_computed(
                accumulate,
                arithmetic,
                now,
                view.rrf_k,
                view.weights,
                rows[row].lower,
            );
            lemma_fused_is_computed(
                accumulate,
                arithmetic,
                best,
                view.rrf_k,
                view.weights,
                rows[row].upper,
            );
            law_fused_score_is_monotone(arithmetic, later, now, view.rrf_k, view.weights);
            law_fused_score_is_monotone(arithmetic, best, later, view.rrf_k, view.weights);
        }
        assert forall|id: ExtendedPointId| #[trigger] present(id) && !has_row(rows, id) implies score(
            id,
        ) <= unseen by {
            assert(!observed(view.histories, id));
            lemma_ranks_are_bounded(view, rankings, id);
            law_fused_score_is_monotone(
                arithmetic,
                next,
                ranks_of(rankings, id),
                view.rrf_k,
                view.weights,
            );
        }
        law_certified_prefix_is_final(rows, unseen, view.top_k as int, present, score, order);
    }
}

/// Once every source has ended, the complete order of the rows is the
/// exhaustive fusion of the observed rankings.
pub proof fn lemma_complete_rows<F: Fn(i64, usize, usize, i64) -> i64>(
    accumulate: F,
    arithmetic: spec_fn(i64, usize, usize, i64) -> i64,
    view: FusionView,
    rows: Seq<PointBounds>,
    rankings: Seq<Seq<ExtendedPointId>>,
)
    requires
        computes(accumulate, arithmetic),
        view.valid(),
        view.bounded_by(accumulate, rows),
        can_become(view, rankings),
        all_ended(view.exhausted),
    ensures
        is_exhaustive_fusion(
            arithmetic,
            rankings,
            view.rrf_k,
            view.weights,
            complete_ids(rows),
        ),
{
    let present = ranked(rankings);
    let score = scores_under(arithmetic, rankings, view.rrf_k, view.weights);
    assert(rankings =~= view.histories) by {
        lemma_ranks_are_bounded(view, rankings, ExtendedPointId::NumId(0));
    }
    assert forall|row: int| 0 <= row < rows.len() implies (#[trigger] rows[row]).lower == score(
        rows[row].id,
    ) by {
        lemma_fused_is_computed(
            accumulate,
            arithmetic,
            ranks_of(view.histories, rows[row].id),
            view.rrf_k,
            view.weights,
            rows[row].lower,
        );
    }
    assert forall|id: ExtendedPointId| #[trigger] present(id) <==> has_row(rows, id) by {
        assert(observed(view.histories, id) <==> has_row(rows, id));
    }
    law_complete_order_is_final(rows, present, score);
}

} // verus!
