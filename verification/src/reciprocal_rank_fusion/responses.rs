//! Fusion of complete responses.

use super::scoring::{accepts, computes};
use super::state::UNIT_WEIGHT;
use crate::id_index::IdIndex;
use crate::operation_error::{refuse, refused, Fault, OperationResult};
use crate::order::ExtendedPointId;
use crate::rank_queue::{lemma_ordered, order_entries, ordered, RankEntry};
use vstd::prelude::*;

verus! {

/// A point with its score.
#[derive(Clone, Copy, Debug, PartialEq, Eq, Structural)]
pub struct ScoredPoint {
    pub id: ExtendedPointId,
    /// The version of the point that was scored.
    pub version: u64,
    /// The key of the score.
    pub score: i64,
    /// By what the rest of the point, such as its payload, is found again.
    pub attached: Option<u64>,
}

/// The weight of a response.
pub open spec fn response_weight(weights: Option<Seq<i64>>, response: int) -> i64 {
    match weights {
        Some(weights) => weights[response],
        None => UNIT_WEIGHT,
    }
}

/// What one more occurrence of a point makes of the fused points: the score of a
/// known point grows, an unknown point is added with the score of its position.
pub open spec fn counts_one<F: Fn(i64, usize, usize, i64) -> i64>(
    accumulate: F,
    before: Seq<ScoredPoint>,
    point: ScoredPoint,
    position: usize,
    rrf_k: usize,
    weight: i64,
    after: Seq<ScoredPoint>,
) -> bool {
    ||| exists|row: int|
        {
            &&& 0 <= row < before.len()
            &&& (#[trigger] before[row]).id == point.id
            &&& after == before.update(row, ScoredPoint { score: after[row].score, ..before[row] })
            &&& call_ensures(
                accumulate,
                (before[row].score, position, rrf_k, weight),
                after[row].score,
            )
        }
    ||| {
        &&& forall|row: int| 0 <= row < before.len() ==> (#[trigger] before[row]).id != point.id
        &&& after == before.push(ScoredPoint { score: after.last().score, ..point })
        &&& call_ensures(accumulate, (0i64, position, rrf_k, weight), after.last().score)
    }
}

/// Whether `rows` are the fused points of the first positions of a response,
/// starting from the points of the responses before it.
pub open spec fn counts_response<F: Fn(i64, usize, usize, i64) -> i64>(
    accumulate: F,
    before: Seq<ScoredPoint>,
    response: Seq<ScoredPoint>,
    rrf_k: usize,
    weight: i64,
    rows: Seq<ScoredPoint>,
) -> bool
    decreases response.len(),
{
    if response.len() == 0 {
        rows == before
    } else {
        exists|middle: Seq<ScoredPoint>|
            {
                &&& counts_response(
                    accumulate,
                    before,
                    response.drop_last(),
                    rrf_k,
                    weight,
                    middle,
                )
                &&& #[trigger] counts_one(
                    accumulate,
                    middle,
                    response.last(),
                    (response.len() - 1) as usize,
                    rrf_k,
                    weight,
                    rows,
                )
            }
    }
}

/// Whether `rows` are the fused points of the responses, in the order in which
/// the points first occur.
pub open spec fn counts_responses<F: Fn(i64, usize, usize, i64) -> i64>(
    accumulate: F,
    responses: Seq<Vec<ScoredPoint>>,
    rrf_k: usize,
    weights: Option<Seq<i64>>,
    rows: Seq<ScoredPoint>,
) -> bool
    decreases responses.len(),
{
    if responses.len() == 0 {
        rows == Seq::<ScoredPoint>::empty()
    } else {
        exists|middle: Seq<ScoredPoint>|
            {
                &&& counts_responses(
                    accumulate,
                    responses.drop_last(),
                    rrf_k,
                    weights,
                    middle,
                )
                &&& #[trigger] counts_response(
                    accumulate,
                    middle,
                    responses.last()@,
                    rrf_k,
                    response_weight(weights, responses.len() - 1),
                    rows,
                )
            }
    }
}

/// The fused points as entries to be ordered.
pub open spec fn point_entries(rows: Seq<ScoredPoint>) -> Seq<RankEntry> {
    Seq::new(
        rows.len(),
        |row: int| RankEntry { score: rows[row].score, id: rows[row].id, slot: row as usize },
    )
}

/// The fused points, the best first.
pub open spec fn ordered_points(rows: Seq<ScoredPoint>) -> Seq<ScoredPoint> {
    let order = ordered(point_entries(rows));
    Seq::new(order.len(), |place: int| rows[order[place].slot as int])
}

/// The view of optional weights.
pub open spec fn weights_of(weights: Option<&Vec<i64>>) -> Option<Seq<i64>> {
    match weights {
        Some(weights) => Some(weights@),
        None => None,
    }
}

/// The fused points and where each of them stands.
struct FusedPoints {
    rows: Vec<ScoredPoint>,
    slots: IdIndex,
}

impl FusedPoints {
    spec fn wf(&self) -> bool {
        &&& forall|row: int|
            0 <= row < self.rows@.len() ==> self.slots@.dom().contains((#[trigger] self.rows@[row]).id)
                && self.slots@[self.rows@[row].id] == row
        &&& forall|id: ExtendedPointId| #[trigger]
            self.slots@.dom().contains(id) ==> self.slots@[id] < self.rows@.len()
                && self.rows@[self.slots@[id] as int].id == id
    }

    fn count<F: Fn(i64, usize, usize, i64) -> i64>(
        &mut self,
        accumulate: &F,
        point: ScoredPoint,
        position: usize,
        rrf_k: usize,
        weight: i64,
    )
        requires
            old(self).wf(),
            accepts(*accumulate),
        ensures
            final(self).wf(),
            counts_one(
                *accumulate,
                old(self).rows@,
                point,
                position,
                rrf_k,
                weight,
                final(self).rows@,
            ),
    {
        match self.slots.get(point.id) {
            Some(row) => {
                let known = self.rows[row];
                let score: i64 = accumulate(known.score, position, rrf_k, weight);
                self.rows.set(row, ScoredPoint { score, ..known });
                assert(old(self).rows@[row as int].id == point.id);
                assert(self.rows@[row as int].score == score);
            },
            None => {
                let score: i64 = accumulate(0, position, rrf_k, weight);
                self.slots.insert(point.id, self.rows.len());
                self.rows.push(ScoredPoint { score, ..point });
                assert(self.rows@.last().score == score);
                assert forall|row: int| 0 <= row < old(self).rows@.len() implies (
                #[trigger] old(self).rows@[row]).id != point.id by {
                    assert(old(self).slots@.dom().contains(old(self).rows@[row].id));
                }
            },
        }
    }
}

/// The fused points of the responses, in the order in which they first occur.
fn fuse_responses<F: Fn(i64, usize, usize, i64) -> i64>(
    responses: &Vec<Vec<ScoredPoint>>,
    rrf_k: usize,
    weights: Option<&Vec<i64>>,
    accumulate: &F,
) -> (rows: Vec<ScoredPoint>)
    requires
        accepts(*accumulate),
        weights_of(weights) matches Some(given) ==> given.len() == responses@.len(),
    ensures
        counts_responses(*accumulate, responses@, rrf_k, weights_of(weights), rows@),
{
    let mut fused = FusedPoints { rows: Vec::new(), slots: IdIndex::new() };
    let mut i: usize = 0;
    assert(responses@.take(0).len() == 0);
    while i < responses.len()
        invariant
            accepts(*accumulate),
            weights_of(weights) matches Some(given) ==> given.len() == responses@.len(),
            i <= responses@.len(),
            fused.wf(),
            counts_responses(
                *accumulate,
                responses@.take(i as int),
                rrf_k,
                weights_of(weights),
                fused.rows@,
            ),
        decreases responses@.len() - i,
    {
        let ghost before = fused.rows@;
        let weight: i64 = match weights {
            Some(weights) => weights[i],
            None => UNIT_WEIGHT,
        };
        let response = &responses[i];
        let mut position: usize = 0;
        assert(response@.take(0).len() == 0);
        while position < response.len()
            invariant
                accepts(*accumulate),
                position <= response@.len(),
                fused.wf(),
                counts_response(
                    *accumulate,
                    before,
                    response@.take(position as int),
                    rrf_k,
                    weight,
                    fused.rows@,
                ),
            decreases response@.len() - position,
        {
            let ghost middle = fused.rows@;
            fused.count(accumulate, response[position], position, rrf_k, weight);
            proof {
                let longer = response@.take(position + 1);
                assert(longer.drop_last() =~= response@.take(position as int));
                assert(longer.last() == response@[position as int]);
                assert(counts_response(
                    *accumulate,
                    before,
                    longer.drop_last(),
                    rrf_k,
                    weight,
                    middle,
                ));
                assert(counts_one(
                    *accumulate,
                    middle,
                    longer.last(),
                    (longer.len() - 1) as usize,
                    rrf_k,
                    weight,
                    fused.rows@,
                ));
                assert(counts_response(
                    *accumulate,
                    before,
                    longer,
                    rrf_k,
                    weight,
                    fused.rows@,
                ));
            }
            position += 1;
        }
        proof {
            assert(response@.take(position as int) =~= response@);
            let longer = responses@.take(i + 1);
            assert(longer.drop_last() =~= responses@.take(i as int));
            assert(longer.last() == responses@[i as int]);
            assert(counts_responses(
                *accumulate,
                longer.drop_last(),
                rrf_k,
                weights_of(weights),
                before,
            ));
            assert(counts_response(
                *accumulate,
                before,
                longer.last()@,
                rrf_k,
                response_weight(weights_of(weights), longer.len() - 1),
                fused.rows@,
            ));
            assert(counts_responses(
                *accumulate,
                longer,
                rrf_k,
                weights_of(weights),
                fused.rows@,
            ));
        }
        i += 1;
    }
    assert(responses@.take(i as int) =~= responses@);
    fused.rows
}

/// The points, the best first.
fn order_points(rows: &Vec<ScoredPoint>) -> (result: Vec<ScoredPoint>)
    ensures
        result@ == ordered_points(rows@),
{
    let mut entries: Vec<RankEntry> = Vec::new();
    let mut row: usize = 0;
    while row < rows.len()
        invariant
            row <= rows@.len(),
            entries@ =~= point_entries(rows@).take(row as int),
        decreases rows@.len() - row,
    {
        entries.push(RankEntry { score: rows[row].score, id: rows[row].id, slot: row });
        row += 1;
    }
    assert(entries@ =~= point_entries(rows@));
    let order = order_entries(entries);
    proof {
        lemma_ordered(point_entries(rows@));
    }
    let mut result: Vec<ScoredPoint> = Vec::new();
    let mut place: usize = 0;
    while place < order.len()
        invariant
            place <= order@.len(),
            order@ == ordered(point_entries(rows@)),
            forall|entry: RankEntry|
                order@.contains(entry) <==> point_entries(rows@).contains(entry),
            result@ =~= ordered_points(rows@).take(place as int),
        decreases order@.len() - place,
    {
        assert(order@.contains(order@[place as int]));
        assert(point_entries(rows@).contains(order@[place as int]));
        result.push(rows[order[place].slot]);
        place += 1;
    }
    assert(result@ =~= ordered_points(rows@));
    result
}

/// The fused score of every point of the responses, the higher score first. The
/// scores that come in do not matter, only the order within a response does.
/// Points of equal score stand in the order of their identities.
pub fn rrf_scoring<F: Fn(i64, usize, usize, i64) -> i64>(
    responses: Vec<Vec<ScoredPoint>>,
    k: usize,
    weights: Option<&Vec<i64>>,
    accumulate: &F,
) -> (result: OperationResult<Vec<ScoredPoint>>)
    requires
        accepts(*accumulate),
    ensures
        match weights_of(weights) {
            Some(given) if given.len() != responses@.len() => result == refused::<
                Vec<ScoredPoint>,
            >(
                Fault::ResponseWeightCount {
                    got: given.len() as usize,
                    expected: responses@.len() as usize,
                },
            ),
            _ => result matches Ok(points) && exists|rows: Seq<ScoredPoint>|
                #[trigger] counts_responses(
                    *accumulate,
                    responses@,
                    k,
                    weights_of(weights),
                    rows,
                ) && rows.len() <= usize::MAX && points@ == ordered_points(rows),
        },
{
    match weights {
        Some(given) => {
            if given.len() != responses.len() {
                return refuse(
                    Fault::ResponseWeightCount { got: given.len(), expected: responses.len() },
                );
            }
        },
        None => {},
    }
    let rows = fuse_responses(&responses, k, weights, accumulate);
    let points = order_points(&rows);
    assert(counts_responses(*accumulate, responses@, k, weights_of(weights), rows@));
    assert(rows.len() <= usize::MAX);
    Ok(points)
}

/// The deterministic order of the points with a positive score, as exact streams
/// need it.
pub fn exact_rrf_scoring<F: Fn(i64, usize, usize, i64) -> i64>(
    responses: Vec<Vec<ScoredPoint>>,
    k: usize,
    weights: Option<&Vec<i64>>,
    accumulate: &F,
) -> (result: OperationResult<Vec<ScoredPoint>>)
    requires
        accepts(*accumulate),
    ensures
        match weights_of(weights) {
            Some(given) if given.len() != responses@.len() => result == refused::<
                Vec<ScoredPoint>,
            >(
                Fault::ResponseWeightCount {
                    got: given.len() as usize,
                    expected: responses@.len() as usize,
                },
            ),
            _ => result matches Ok(points) && exists|rows: Seq<ScoredPoint>|
                #[trigger] counts_responses(
                    *accumulate,
                    responses@,
                    k,
                    weights_of(weights),
                    rows,
                ) && rows.len() <= usize::MAX && points@ == ordered_points(rows).filter(|point: ScoredPoint| point.score > 0),
        },
{
    let points = match rrf_scoring(responses, k, weights, accumulate) {
        Ok(points) => points,
        Err(error) => {
            return Err(error);
        },
    };
    let ghost positive = |point: ScoredPoint| point.score > 0;
    let mut kept: Vec<ScoredPoint> = Vec::new();
    let mut i: usize = 0;
    proof {
        reveal(Seq::filter);
    }
    while i < points.len()
        invariant
            i <= points@.len(),
            positive == (|point: ScoredPoint| point.score > 0),
            kept@ == points@.take(i as int).filter(positive),
        decreases points@.len() - i,
    {
        proof {
            reveal(Seq::filter);
            assert(points@.take(i + 1).drop_last() =~= points@.take(i as int));
            assert(points@.take(i + 1).last() == points@[i as int]);
        }
        if points[i].score > 0 {
            kept.push(points[i]);
        }
        i += 1;
    }
    assert(points@.take(i as int) =~= points@);
    Ok(kept)
}

/// Whether responses hold the same points, with whatever scores.
pub open spec fn same_points(left: Seq<ScoredPoint>, right: Seq<ScoredPoint>) -> bool {
    &&& left.len() == right.len()
    &&& forall|i: int|
        0 <= i < left.len() ==> #[trigger] left[i] == (ScoredPoint {
            score: left[i].score,
            ..right[i]
        })
}

/// Fused scores come from positions alone: responses with the same points in the same
/// order fuse to the same points and scores, whatever scores came in.
pub proof fn law_incoming_scores_do_not_matter<F: Fn(i64, usize, usize, i64) -> i64>(
    accumulate: F,
    left: Seq<Vec<ScoredPoint>>,
    right: Seq<Vec<ScoredPoint>>,
    rrf_k: usize,
    weights: Option<Seq<i64>>,
    rows: Seq<ScoredPoint>,
)
    requires
        left.len() == right.len(),
        forall|response: int|
            0 <= response < left.len() ==> same_points(
                (#[trigger] left[response])@,
                right[response]@,
            ),
        counts_responses(accumulate, left, rrf_k, weights, rows),
    ensures
        counts_responses(accumulate, right, rrf_k, weights, rows),
    decreases left.len(),
{
    if left.len() > 0 {
        let weight = response_weight(weights, left.len() - 1);
        let middle = choose|middle: Seq<ScoredPoint>|
            {
                &&& counts_responses(accumulate, left.drop_last(), rrf_k, weights, middle)
                &&& #[trigger] counts_response(
                    accumulate,
                    middle,
                    left.last()@,
                    rrf_k,
                    weight,
                    rows,
                )
            };
        law_incoming_scores_do_not_matter(
            accumulate,
            left.drop_last(),
            right.drop_last(),
            rrf_k,
            weights,
            middle,
        );
        assert(same_points(left[left.len() - 1]@, right[left.len() - 1]@));
        lemma_incoming_response(
            accumulate,
            middle,
            left.last()@,
            right.last()@,
            rrf_k,
            weight,
            rows,
        );
    }
}

proof fn lemma_incoming_response<F: Fn(i64, usize, usize, i64) -> i64>(
    accumulate: F,
    before: Seq<ScoredPoint>,
    left: Seq<ScoredPoint>,
    right: Seq<ScoredPoint>,
    rrf_k: usize,
    weight: i64,
    rows: Seq<ScoredPoint>,
)
    requires
        same_points(left, right),
        counts_response(accumulate, before, left, rrf_k, weight, rows),
    ensures
        counts_response(accumulate, before, right, rrf_k, weight, rows),
    decreases left.len(),
{
    if left.len() > 0 {
        let position = (left.len() - 1) as usize;
        let middle = choose|middle: Seq<ScoredPoint>|
            {
                &&& counts_response(accumulate, before, left.drop_last(), rrf_k, weight, middle)
                &&& #[trigger] counts_one(
                    accumulate,
                    middle,
                    left.last(),
                    position,
                    rrf_k,
                    weight,
                    rows,
                )
            };
        assert(left[left.len() - 1].id == right[left.len() - 1].id);
        lemma_incoming_response(
            accumulate,
            before,
            left.drop_last(),
            right.drop_last(),
            rrf_k,
            weight,
            middle,
        );
        assert(counts_one(accumulate, middle, right.last(), position, rrf_k, weight, rows));
    }
}

/// Under an arithmetic that is a function, responses with the same points in the same order
/// fuse to the same points and scores, whatever scores came in: two fusions agree.
pub proof fn law_fused_scores_come_from_positions<F: Fn(i64, usize, usize, i64) -> i64>(
    accumulate: F,
    arithmetic: spec_fn(i64, usize, usize, i64) -> i64,
    left: Seq<Vec<ScoredPoint>>,
    right: Seq<Vec<ScoredPoint>>,
    rrf_k: usize,
    weights: Option<Seq<i64>>,
    left_rows: Seq<ScoredPoint>,
    right_rows: Seq<ScoredPoint>,
)
    requires
        computes(accumulate, arithmetic),
        left.len() == right.len(),
        forall|response: int|
            0 <= response < left.len() ==> same_points(
                (#[trigger] left[response])@,
                right[response]@,
            ),
        counts_responses(accumulate, left, rrf_k, weights, left_rows),
        counts_responses(accumulate, right, rrf_k, weights, right_rows),
    ensures
        left_rows == right_rows,
        ordered_points(left_rows) == ordered_points(right_rows),
{
    law_incoming_scores_do_not_matter(accumulate, left, right, rrf_k, weights, left_rows);
    lemma_rows_are_unique(accumulate, arithmetic, right, rrf_k, weights, left_rows, right_rows);
}

proof fn lemma_rows_are_unique<F: Fn(i64, usize, usize, i64) -> i64>(
    accumulate: F,
    arithmetic: spec_fn(i64, usize, usize, i64) -> i64,
    responses: Seq<Vec<ScoredPoint>>,
    rrf_k: usize,
    weights: Option<Seq<i64>>,
    left: Seq<ScoredPoint>,
    right: Seq<ScoredPoint>,
)
    requires
        computes(accumulate, arithmetic),
        counts_responses(accumulate, responses, rrf_k, weights, left),
        counts_responses(accumulate, responses, rrf_k, weights, right),
    ensures
        left == right,
        distinct_rows(left),
    decreases responses.len(),
{
    if responses.len() > 0 {
        let shorter = responses.drop_last();
        let weight = response_weight(weights, responses.len() - 1);
        let last = responses.last()@;
        let first = choose|first: Seq<ScoredPoint>|
            counts_responses(accumulate, shorter, rrf_k, weights, first)
                && #[trigger] counts_response(accumulate, first, last, rrf_k, weight, left);
        let second = choose|second: Seq<ScoredPoint>|
            counts_responses(accumulate, shorter, rrf_k, weights, second)
                && #[trigger] counts_response(accumulate, second, last, rrf_k, weight, right);
        lemma_rows_are_unique(accumulate, arithmetic, shorter, rrf_k, weights, first, second);
        lemma_response_is_unique(
            accumulate,
            arithmetic,
            first,
            last,
            rrf_k,
            weight,
            left,
            right,
        );
    }
}

/// Whether no point stands in two rows.
pub open spec fn distinct_rows(rows: Seq<ScoredPoint>) -> bool {
    forall|i: int, j: int|
        0 <= i < j < rows.len() ==> (#[trigger] rows[i]).id != (#[trigger] rows[j]).id
}

proof fn lemma_response_is_unique<F: Fn(i64, usize, usize, i64) -> i64>(
    accumulate: F,
    arithmetic: spec_fn(i64, usize, usize, i64) -> i64,
    before: Seq<ScoredPoint>,
    response: Seq<ScoredPoint>,
    rrf_k: usize,
    weight: i64,
    left: Seq<ScoredPoint>,
    right: Seq<ScoredPoint>,
)
    requires
        computes(accumulate, arithmetic),
        distinct_rows(before),
        counts_response(accumulate, before, response, rrf_k, weight, left),
        counts_response(accumulate, before, response, rrf_k, weight, right),
    ensures
        left == right,
        distinct_rows(left),
    decreases response.len(),
{
    if response.len() > 0 {
        let shorter = response.drop_last();
        let point = response.last();
        let position = (response.len() - 1) as usize;
        let first = choose|first: Seq<ScoredPoint>|
            counts_response(accumulate, before, shorter, rrf_k, weight, first)
                && #[trigger] counts_one(
                accumulate,
                first,
                point,
                position,
                rrf_k,
                weight,
                left,
            );
        let second = choose|second: Seq<ScoredPoint>|
            counts_response(accumulate, before, shorter, rrf_k, weight, second)
                && #[trigger] counts_one(
                accumulate,
                second,
                point,
                position,
                rrf_k,
                weight,
                right,
            );
        lemma_response_is_unique(
            accumulate,
            arithmetic,
            before,
            shorter,
            rrf_k,
            weight,
            first,
            second,
        );
        if exists|row: int| 0 <= row < first.len() && (#[trigger] first[row]).id == point.id {
            let row = choose|row: int|
                {
                    &&& 0 <= row < first.len()
                    &&& (#[trigger] first[row]).id == point.id
                    &&& left == first.update(
                        row,
                        ScoredPoint { score: left[row].score, ..first[row] },
                    )
                    &&& call_ensures(
                        accumulate,
                        (first[row].score, position, rrf_k, weight),
                        left[row].score,
                    )
                };
            let other = choose|other: int|
                {
                    &&& 0 <= other < first.len()
                    &&& (#[trigger] first[other]).id == point.id
                    &&& right == first.update(
                        other,
                        ScoredPoint { score: right[other].score, ..first[other] },
                    )
                    &&& call_ensures(
                        accumulate,
                        (first[other].score, position, rrf_k, weight),
                        right[other].score,
                    )
                };
            if row < other {
                assert(first[row].id != first[other].id);
            } else if other < row {
                assert(first[other].id != first[row].id);
            }
            assert(left =~= right);
        } else {
            assert(left =~= right);
        }
    }
}

} // verus!
