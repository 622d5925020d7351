//! Fail-closed k-way merge of exact score streams of one channel.
//!
//! Scores of different channels are never compared here: one merge combines the
//! sources of one channel. Only the merged order of a channel may be turned into
//! a stream of identities for fusion.

use crate::id_index::IdSet;
use crate::operation_error::{
    refuse, refused, same_error, Fault, OperationError, OperationResult,
};
use crate::order::{finite_key, is_finite_key, ranks_before, scored_before, ExtendedPointId};
use crate::rank_queue::{RankEntry, RankQueue};
use crate::reciprocal_rank_fusion::types::ChannelRankBatch;
use crate::tables::repeated;
use std::collections::VecDeque;
use vstd::prelude::*;

verus! {

/// A point with its exact score in one channel.
#[derive(Clone, Copy, Debug, PartialEq, Eq, Structural)]
pub struct ExactScoredIdentity {
    pub id: ExtendedPointId,
    /// The key of the score.
    pub score: i64,
}

/// Whether one point stands before another in a channel.
pub open spec fn point_before(left: ExactScoredIdentity, right: ExactScoredIdentity) -> bool {
    ranks_before(left.score, left.id, right.score, right.id)
}

/// Exact, locally ordered results of one channel.
pub trait ExactScoreStream {
    /// What the stream will still yield, where that is known and never fails.
    open spec fn rest(&self) -> Option<Seq<ExactScoredIdentity>> {
        None
    }

    /// What the stream will still yield before it fails, and how it fails, where that is
    /// known.
    open spec fn failing(&self) -> Option<(Seq<ExactScoredIdentity>, OperationError)> {
        None
    }

    /// The next point; `None` at the end.
    fn next(&mut self) -> (result: OperationResult<Option<ExactScoredIdentity>>)
        ensures
            old(self).rest() is None ==> (old(self).failing() matches Some((points, error))
                ==> if points.len() == 0 {
                result == Err::<Option<ExactScoredIdentity>, OperationError>(error)
            } else {
                &&& result == Ok::<Option<ExactScoredIdentity>, OperationError>(Some(points[0]))
                &&& final(self).rest() is None
                &&& final(self).failing() == Some((points.drop_first(), error))
            }),
            old(self).rest() matches Some(points) ==> if points.len() == 0 {
                result == Ok::<Option<ExactScoredIdentity>, OperationError>(None)
                    && final(self).rest() == Some(points)
            } else {
                result == Ok::<Option<ExactScoredIdentity>, OperationError>(Some(points[0]))
                    && final(self).rest() == Some(points.drop_first())
            },
    ;
}

/// One pull of exact results.
#[derive(Clone, Debug, PartialEq)]
pub struct ExactScoreBatch {
    pub points: Vec<ExactScoredIdentity>,
    pub exhausted: bool,
}

/// Exact, locally ordered results of one channel, pulled in batches.
pub trait ExactScoreBatchStream {
    /// What the stream will still yield, where that is known and never fails.
    open spec fn rest(&self) -> Option<Seq<ExactScoredIdentity>> {
        None
    }

    /// What the stream will still yield before it fails, and how it fails, where that is
    /// known.
    open spec fn failing(&self) -> Option<(Seq<ExactScoredIdentity>, OperationError)> {
        None
    }

    /// The next batch, of at most the given number of points.
    fn pull(&mut self, max_results: usize) -> (result: OperationResult<ExactScoreBatch>)
        ensures
            max_results > 0 && old(self).rest() is None ==> (old(self).failing() matches Some(
                (points, error),
            ) ==> if points.len() == 0 {
                result == Err::<ExactScoreBatch, OperationError>(error)
            } else {
                &&& result matches Ok(batch)
                &&& continues_scores(points, max_results, batch)
                &&& !batch.exhausted
                &&& final(self).rest() is None
                &&& final(self).failing() == Some(
                    (points.skip(batch.points@.len() as int), error),
                )
            }),
            max_results > 0 ==> (old(self).rest() matches Some(points) ==> {
                &&& result matches Ok(batch)
                &&& continues_scores(points, max_results, batch)
                &&& final(self).rest() == Some(points.skip(batch.points@.len() as int))
            }),
    ;
}

/// What a stream will still yield, and the failure that ends it, where there is one.
pub open spec fn course_of(
    rest: Option<Seq<ExactScoredIdentity>>,
    failing: Option<(Seq<ExactScoredIdentity>, OperationError)>,
) -> Option<(Seq<ExactScoredIdentity>, Option<OperationError>)> {
    match (rest, failing) {
        (Some(points), _) => Some((points, None)),
        (None, Some((points, error))) => Some((points, Some(error))),
        (None, None) => None,
    }
}

/// Whether a batch is a proper continuation of a stream: the next points, not too
/// many, and none only at the end.
pub open spec fn continues_scores(
    rest: Seq<ExactScoredIdentity>,
    max_results: usize,
    batch: ExactScoreBatch,
) -> bool {
    let count = batch.points@.len();
    &&& count <= max_results
    &&& count <= rest.len()
    &&& batch.points@ == rest.take(count as int)
    &&& batch.exhausted ==> count == rest.len()
    &&& count == 0 ==> batch.exhausted
}

/// Scored points in memory as a stream.
#[derive(Debug)]
pub struct ScoreList {
    points: Vec<ExactScoredIdentity>,
    position: usize,
}

impl ScoreList {
    /// The points of the list.
    pub closed spec fn points(&self) -> Seq<ExactScoredIdentity> {
        self.points@
    }

    /// How many of them it has yielded.
    pub closed spec fn position(&self) -> nat {
        self.position as nat
    }

    /// A stream of the given points.
    pub fn new(points: Vec<ExactScoredIdentity>) -> (list: ScoreList)
        ensures
            list.points() == points@,
            list.position() == 0,
            ExactScoreStream::rest(&list) == Some(points@),
            ExactScoreBatchStream::rest(&list) == Some(points@),
    {
        let list = ScoreList { points, position: 0 };
        assert(list.points().skip(0) =~= points@);
        list
    }
}

impl ExactScoreStream for ScoreList {
    open spec fn rest(&self) -> Option<Seq<ExactScoredIdentity>> {
        if self.position() <= self.points().len() {
            Some(self.points().skip(self.position() as int))
        } else {
            None
        }
    }

    fn next(&mut self) -> (result: OperationResult<Option<ExactScoredIdentity>>)
        ensures
            final(self).points() == old(self).points(),
    {
        if self.position < self.points.len() {
            let point = self.points[self.position];
            self.position += 1;
            assert(self.points().skip(self.position() as int) =~= old(self).points().skip(
                old(self).position() as int,
            ).drop_first());
            Ok(Some(point))
        } else {
            Ok(None)
        }
    }
}

impl ExactScoreBatchStream for ScoreList {
    open spec fn rest(&self) -> Option<Seq<ExactScoredIdentity>> {
        if self.position() <= self.points().len() {
            Some(self.points().skip(self.position() as int))
        } else {
            None
        }
    }

    fn pull(&mut self, max_results: usize) -> (result: OperationResult<ExactScoreBatch>)
        ensures
            final(self).points() == old(self).points(),
    {
        let start: usize = self.position;
        let ghost rest = self.points@.skip(start as int);
        let mut points: Vec<ExactScoredIdentity> = Vec::new();
        while self.position < self.points.len() && points.len() < max_results
            invariant
                self.points@ == old(self).points@,
                start == old(self).position,
                rest == self.points@.skip(start as int),
                self.position == start + points@.len(),
                start <= self.points@.len() ==> self.position <= self.points@.len(),
                points@.len() <= max_results,
                start <= self.points@.len() ==> points@ =~= rest.take(points@.len() as int),
            decreases self.points@.len() - self.position,
        {
            let point = self.points[self.position];
            points.push(point);
            self.position += 1;
        }
        let exhausted = self.position >= self.points.len();
        proof {
            if start <= self.points@.len() {
                assert(self.points@.skip(self.position as int) =~= rest.skip(
                    points@.len() as int,
                ));
            }
        }
        Ok(ExactScoreBatch { points, exhausted })
    }
}

/// Whether lists can be merged: each is in order, scores are finite, and no point
/// occurs twice.
pub open spec fn mergeable(lists: Seq<Seq<ExactScoredIdentity>>) -> bool {
    &&& forall|list: int, i: int, j: int|
        0 <= list < lists.len() && 0 <= i < j < lists[list].len() ==> point_before(
            #[trigger] lists[list][i],
            #[trigger] lists[list][j],
        )
    &&& forall|list: int, i: int|
        0 <= list < lists.len() && 0 <= i < lists[list].len() ==> finite_key(
            (#[trigger] lists[list][i]).score,
        )
    &&& forall|left: int, i: int, right: int, j: int|
        0 <= left < lists.len() && 0 <= i < lists[left].len() && 0 <= right < lists.len() && 0 <= j
            < lists[right].len() && (#[trigger] lists[left][i]).id == (
        #[trigger] lists[right][j]).id ==> left == right && i == j
}

/// Whether the head of a list stands before everything else.
pub open spec fn leads_all(lists: Seq<Seq<ExactScoredIdentity>>, list: int) -> bool {
    &&& 0 <= list < lists.len()
    &&& lists[list].len() > 0
    &&& forall|other: int, i: int|
        0 <= other < lists.len() && 0 <= i < lists[other].len() && !(other == list && i == 0)
            ==> point_before(lists[list][0], #[trigger] lists[other][i])
}

/// Whether all lists are empty.
pub open spec fn all_empty(lists: Seq<Seq<ExactScoredIdentity>>) -> bool {
    forall|list: int| 0 <= list < lists.len() ==> (#[trigger] lists[list]).len() == 0
}

/// The lists after the head of one was taken.
pub open spec fn taken_from(
    lists: Seq<Seq<ExactScoredIdentity>>,
    list: int,
) -> Seq<Seq<ExactScoredIdentity>> {
    lists.update(list, lists[list].drop_first())
}

/// Whether `order` is the merge of lists: the leading head first, then the merge
/// of what is left.
pub open spec fn is_merge(
    lists: Seq<Seq<ExactScoredIdentity>>,
    order: Seq<ExactScoredIdentity>,
) -> bool
    decreases order.len(),
{
    if order.len() == 0 {
        all_empty(lists)
    } else {
        exists|list: int|
            #[trigger] leads_all(lists, list) && order[0] == lists[list][0] && is_merge(
                taken_from(lists, list),
                order.drop_first(),
            )
    }
}

/// Taking a head keeps lists mergeable.
pub proof fn lemma_taking_keeps_mergeable(lists: Seq<Seq<ExactScoredIdentity>>, list: int)
    requires
        mergeable(lists),
        0 <= list < lists.len(),
        lists[list].len() > 0,
    ensures
        mergeable(taken_from(lists, list)),
{
    let after = taken_from(lists, list);
    assert forall|other: int, i: int| 0 <= other < after.len() && 0 <= i < after[other].len() implies
        #[trigger] after[other][i] == lists[other][if other == list {
        i + 1
    } else {
        i
    }] by {
    }
    assert forall|other: int, i: int, j: int|
        0 <= other < after.len() && 0 <= i < j < after[other].len() implies point_before(
        #[trigger] after[other][i],
        #[trigger] after[other][j],
    ) by {
        if other == list {
            assert(point_before(lists[other][i + 1], lists[other][j + 1]));
        } else {
            assert(point_before(lists[other][i], lists[other][j]));
        }
    }
    assert forall|left: int, i: int, right: int, j: int|
        0 <= left < after.len() && 0 <= i < after[left].len() && 0 <= right < after.len() && 0 <= j
            < after[right].len() && (#[trigger] after[left][i]).id == (
        #[trigger] after[right][j]).id implies left == right && i == j by {
        let a = if left == list {
            i + 1
        } else {
            i
        };
        let b = if right == list {
            j + 1
        } else {
            j
        };
        assert(lists[left][a].id == lists[right][b].id);
    }
    assert forall|other: int, i: int| 0 <= other < after.len() && 0 <= i < after[other].len() implies
        finite_key((#[trigger] after[other][i]).score) by {
        let a = if other == list {
            i + 1
        } else {
            i
        };
        assert(finite_key(lists[other][a].score));
    }
}

/// A merge of mergeable lists is in order, and every point of it stands in some
/// list.
pub proof fn law_merge_is_ordered(
    lists: Seq<Seq<ExactScoredIdentity>>,
    order: Seq<ExactScoredIdentity>,
)
    requires
        mergeable(lists),
        is_merge(lists, order),
    ensures
        forall|i: int, j: int|
            0 <= i < j < order.len() ==> point_before(#[trigger] order[i], #[trigger] order[j]),
        forall|i: int| 0 <= i < order.len() ==> in_lists(lists, #[trigger] order[i]),
        forall|point: ExactScoredIdentity| in_lists(lists, point) ==> #[trigger] order.contains(
            point,
        ),
    decreases order.len(),
{
    if order.len() == 0 {
        assert forall|point: ExactScoredIdentity| in_lists(lists, point) implies
            #[trigger] order.contains(point) by {
            let (list, i) = choose|list: int, i: int|
                0 <= list < lists.len() && 0 <= i < lists[list].len()
                    && #[trigger] lists[list][i] == point;
            assert(lists[list].len() == 0);
        }
    } else {
        let list = choose|list: int|
            #[trigger] leads_all(lists, list) && order[0] == lists[list][0] && is_merge(
                taken_from(lists, list),
                order.drop_first(),
            );
        let after = taken_from(lists, list);
        let rest = order.drop_first();
        lemma_taking_keeps_mergeable(lists, list);
        law_merge_is_ordered(after, rest);
        assert forall|i: int| 0 <= i < order.len() implies in_lists(lists, #[trigger] order[i]) by {
            if i == 0 {
                assert(lists[list][0] == order[0]);
            } else {
                assert(rest[i - 1] == order[i]);
                lemma_left_lists(lists, list, rest[i - 1]);
            }
        }
        assert forall|i: int, j: int| 0 <= i < j < order.len() implies point_before(
            #[trigger] order[i],
            #[trigger] order[j],
        ) by {
            assert(rest[j - 1] == order[j]);
            if i == 0 {
                assert(in_lists(after, rest[j - 1]));
                let (other, k) = choose|other: int, k: int|
                    0 <= other < after.len() && 0 <= k < after[other].len()
                        && #[trigger] after[other][k] == order[j];
                let at = if other == list {
                    k + 1
                } else {
                    k
                };
                assert(lists[other][at] == order[j]);
            } else {
                assert(rest[i - 1] == order[i]);
            }
        }
        assert forall|point: ExactScoredIdentity| in_lists(lists, point) implies
            #[trigger] order.contains(point) by {
            let (other, k) = choose|other: int, k: int|
                0 <= other < lists.len() && 0 <= k < lists[other].len()
                    && #[trigger] lists[other][k] == point;
            if other == list && k == 0 {
                assert(order[0] == point);
            } else {
                let at = if other == list {
                    k - 1
                } else {
                    k
                };
                assert(after[other][at] == point);
                assert(in_lists(after, point));
                assert(rest.contains(point));
                let i = choose|i: int| 0 <= i < rest.len() && rest[i] == point;
                assert(order[i + 1] == point);
            }
        }
    }
}

/// Whether a point stands in one of the lists.
pub open spec fn in_lists(
    lists: Seq<Seq<ExactScoredIdentity>>,
    point: ExactScoredIdentity,
) -> bool {
    exists|list: int, i: int|
        0 <= list < lists.len() && 0 <= i < lists[list].len() && #[trigger] lists[list][i] == point
}

proof fn lemma_left_lists(
    lists: Seq<Seq<ExactScoredIdentity>>,
    list: int,
    point: ExactScoredIdentity,
)
    requires
        0 <= list < lists.len(),
        lists[list].len() > 0,
        in_lists(taken_from(lists, list), point),
    ensures
        in_lists(lists, point),
{
    let after = taken_from(lists, list);
    let (other, k) = choose|other: int, k: int|
        0 <= other < after.len() && 0 <= k < after[other].len() && #[trigger] after[other][k]
            == point;
    let at = if other == list {
        k + 1
    } else {
        k
    };
    assert(lists[other][at] == point);
}


/// The work of a merge.
#[derive(Clone, Debug, Default, Eq, PartialEq)]
pub struct ExactScoreMergeTelemetry {
    pub source_pulls: Vec<usize>,
    pub source_exhausted: Vec<bool>,
    pub points_emitted: usize,
}

/// What is wrong with the leading points of a batch: a score that is not finite, a
/// point that belongs before the previous one, or one that was seen already.
pub open spec fn batch_points_fault(
    points: Seq<ExactScoredIdentity>,
    source: usize,
    previous: Option<ExactScoredIdentity>,
    seen: Set<ExtendedPointId>,
) -> Option<Fault>
    decreases points.len(),
{
    if points.len() == 0 {
        None
    } else {
        let shorter = points.drop_last();
        let point = points.last();
        let before = if shorter.len() == 0 {
            previous
        } else {
            Some(shorter.last())
        };
        match batch_points_fault(shorter, source, previous, seen) {
            Some(fault) => Some(fault),
            None => if !finite_key(point.score) {
                Some(Fault::NonFiniteSourceScore { source })
            } else if before is Some && point_before(point, before->0) {
                Some(Fault::SourceOrder { source })
            } else if seen.contains(point.id) || lists_id(shorter, point.id) {
                Some(Fault::RepeatedInBatch { source, id: point.id })
            } else {
                None
            },
        }
    }
}

/// Whether points hold an identity.
pub open spec fn lists_id(points: Seq<ExactScoredIdentity>, id: ExtendedPointId) -> bool {
    exists|i: int| 0 <= i < points.len() && (#[trigger] points[i]).id == id
}

proof fn lemma_points_fault_persists(
    points: Seq<ExactScoredIdentity>,
    source: usize,
    previous: Option<ExactScoredIdentity>,
    seen: Set<ExtendedPointId>,
    count: int,
)
    requires
        0 <= count <= points.len(),
        batch_points_fault(points.take(count), source, previous, seen) is Some,
    ensures
        batch_points_fault(points, source, previous, seen) == batch_points_fault(
            points.take(count),
            source,
            previous,
            seen,
        ),
    decreases points.len() - count,
{
    if count == points.len() {
        assert(points.take(count) =~= points);
    } else {
        assert(points.take(count + 1).drop_last() =~= points.take(count));
        lemma_points_fault_persists(points, source, previous, seen, count + 1);
    }
}

/// Why a pulled batch is refused.
pub open spec fn score_batch_fault(
    points: Seq<ExactScoredIdentity>,
    exhausted: bool,
    source: usize,
    max: usize,
    previous: Option<ExactScoredIdentity>,
    seen: Set<ExtendedPointId>,
) -> Option<Fault> {
    if points.len() > max {
        Some(Fault::ScoreBatchTooLarge { source, len: points.len() as usize, max })
    } else if points.len() == 0 && !exhausted {
        Some(Fault::EmptyScoreBatch { source })
    } else {
        batch_points_fault(points, source, previous, seen)
    }
}

/// Checks a pulled batch.
fn check_batch(
    batch: &ExactScoreBatch,
    source: usize,
    max: usize,
    previous: Option<ExactScoredIdentity>,
    seen: &IdSet,
) -> (fault: Option<Fault>)
    ensures
        fault == score_batch_fault(
            batch.points@,
            batch.exhausted,
            source,
            max,
            previous,
            seen@,
        ),
{
    if batch.points.len() > max {
        return Some(Fault::ScoreBatchTooLarge { source, len: batch.points.len(), max });
    }
    if batch.points.len() == 0 && !batch.exhausted {
        return Some(Fault::EmptyScoreBatch { source });
    }
    let ghost points = batch.points@;
    let mut batch_ids = IdSet::new();
    let mut before = previous;
    let mut i: usize = 0;
    assert(points.take(0).len() == 0);
    while i < batch.points.len()
        invariant
            i <= points.len(),
            points == batch.points@,
            points.len() <= max,
            points.len() > 0 || batch.exhausted,
            forall|id: ExtendedPointId| #[trigger]
                batch_ids@.contains(id) <==> lists_id(points.take(i as int), id),
            before == (if i == 0 {
                previous
            } else {
                Some(points[i - 1])
            }),
            batch_points_fault(points.take(i as int), source, previous, seen@) is None,
        decreases points.len() - i,
    {
        let point = batch.points[i];
        let ghost shorter = points.take(i as int);
        let ghost longer = points.take(i + 1);
        proof {
            assert(longer.drop_last() =~= shorter);
            assert(longer.last() == point);
            if i > 0 {
                assert(shorter.last() == points[i - 1]);
            }
        }
        if !is_finite_key(point.score) {
            proof {
                lemma_points_fault_persists(points, source, previous, seen@, i + 1);
            }
            return Some(Fault::NonFiniteSourceScore { source });
        }
        match before {
            Some(earlier) => {
                if scored_before(point.score, point.id, earlier.score, earlier.id) {
                    proof {
                        lemma_points_fault_persists(points, source, previous, seen@, i + 1);
                    }
                    return Some(Fault::SourceOrder { source });
                }
            },
            None => {},
        }
        if seen.contains(point.id) || !batch_ids.insert(point.id) {
            proof {
                lemma_points_fault_persists(points, source, previous, seen@, i + 1);
            }
            return Some(Fault::RepeatedInBatch { source, id: point.id });
        }
        proof {
            assert(longer =~= shorter.push(point));
            assert forall|id: ExtendedPointId| #[trigger]
                batch_ids@.contains(id) <==> lists_id(longer, id) by {
                if lists_id(shorter, id) {
                    let k = choose|k: int| 0 <= k < shorter.len() && (#[trigger] shorter[k]).id == id;
                    assert(longer[k].id == id);
                }
                if id == point.id {
                    assert(longer[i as int].id == id);
                }
                if lists_id(longer, id) && id != point.id {
                    let k = choose|k: int| 0 <= k < longer.len() && (#[trigger] longer[k]).id == id;
                    assert(shorter[k].id == id);
                }
            }
        }
        before = Some(point);
        i += 1;
    }
    assert(points.take(i as int) =~= points);
    None
}

/// One source of a merge.
pub enum ExactScoreSource<S, B> {
    /// A stream that yields one point at a time.
    Point(S),
    /// A stream that yields batches, and what is left of the last one.
    Batch { pull: B, buffer: VecDeque<ExactScoredIdentity>, exhausted: bool },
}

/// Whether a list can follow a point: all of it stands behind.
pub open spec fn follows_point(
    previous: Option<ExactScoredIdentity>,
    list: Seq<ExactScoredIdentity>,
) -> bool {
    previous matches Some(point) ==> forall|i: int|
        0 <= i < list.len() ==> point_before(point, #[trigger] list[i])
}

/// Whether a list is in order, finite, without repetitions and unseen.
pub open spec fn is_proper_list(
    list: Seq<ExactScoredIdentity>,
    seen: Set<ExtendedPointId>,
) -> bool {
    &&& forall|i: int, j: int|
        0 <= i < j < list.len() ==> point_before(#[trigger] list[i], #[trigger] list[j])
    &&& forall|i: int| 0 <= i < list.len() ==> finite_key((#[trigger] list[i]).score)
    &&& forall|i: int, j: int|
        0 <= i < list.len() && 0 <= j < list.len() && (#[trigger] list[i]).id == (
        #[trigger] list[j]).id ==> i == j
    &&& forall|i: int| 0 <= i < list.len() ==> !seen.contains((#[trigger] list[i]).id)
}

/// A proper list passes the checks of a batch.
proof fn lemma_proper_list_has_no_fault(
    list: Seq<ExactScoredIdentity>,
    count: int,
    source: usize,
    previous: Option<ExactScoredIdentity>,
    seen: Set<ExtendedPointId>,
)
    requires
        is_proper_list(list, seen),
        follows_point(previous, list),
        0 <= count <= list.len(),
    ensures
        batch_points_fault(list.take(count), source, previous, seen) is None,
    decreases count,
{
    if count > 0 {
        let longer = list.take(count);
        let shorter = list.take(count - 1);
        lemma_proper_list_has_no_fault(list, count - 1, source, previous, seen);
        assert(longer.drop_last() =~= shorter);
        assert(longer.last() == list[count - 1]);
        assert(finite_key(list[count - 1].score));
        if count > 1 {
            assert(shorter.last() == list[count - 2]);
            assert(point_before(list[count - 2], list[count - 1]));
        } else if previous is Some {
            assert(point_before(previous->0, list[0]));
        }
        if lists_id(shorter, list[count - 1].id) {
            let k = choose|k: int|
                0 <= k < shorter.len() && (#[trigger] shorter[k]).id == list[count - 1].id;
            assert(list[k].id == list[count - 1].id);
        }
    }
}

impl<S: ExactScoreStream, B: ExactScoreBatchStream> ExactScoreSource<S, B> {
    /// What the source will still yield, where that is known and never fails.
    pub open spec fn upcoming(&self) -> Option<Seq<ExactScoredIdentity>> {
        match self {
            ExactScoreSource::Point(stream) => stream.rest(),
            ExactScoreSource::Batch { pull, buffer, exhausted } => batch_list(
                *pull,
                buffer@,
                *exhausted,
            ),
        }
    }

    /// What the source will still yield, and the failure that ends it, where there is one.
    pub open spec fn course(&self) -> Option<(Seq<ExactScoredIdentity>, Option<OperationError>)> {
        match self {
            ExactScoreSource::Point(stream) => course_of(stream.rest(), stream.failing()),
            ExactScoreSource::Batch { pull, buffer, exhausted } => batch_course(
                *pull,
                buffer@,
                *exhausted,
            ),
        }
    }

    /// Whether the source has to pull a batch before it can yield a point.
    pub open spec fn pulls_batch(&self) -> bool {
        self matches ExactScoreSource::Batch { pull, buffer, exhausted } && buffer@.len() == 0
            && !*exhausted
    }

    /// The next point of the source; a batch is checked as a whole when it comes.
    fn next_point(
        &mut self,
        source: usize,
        max: usize,
        previous: Option<ExactScoredIdentity>,
        seen: &IdSet,
    ) -> (result: OperationResult<Option<ExactScoredIdentity>>)
        requires
            max > 0,
        ensures
            pulls_along(old(self).course(), result, final(self).course()),
            old(self).upcoming() matches Some(list) ==> (is_proper_list(list, seen@)
                && follows_point(previous, list) ==> if list.len() == 0 {
                &&& result == Ok::<Option<ExactScoredIdentity>, OperationError>(None)
                &&& final(self).upcoming() == Some(list)
            } else {
                &&& result == Ok::<Option<ExactScoredIdentity>, OperationError>(Some(list[0]))
                &&& final(self).upcoming() == Some(list.drop_first())
            }),
            exists|fetched: OperationResult<ExactScoreBatch>| #[trigger]
                source_replies(
                    *old(self),
                    source,
                    max,
                    previous,
                    seen@,
                    fetched,
                    result,
                    *final(self),
                ),
    {
        let ghost before = *self;
        let result = match self {
            ExactScoreSource::Point(stream) => stream.next(),
            ExactScoreSource::Batch { pull, buffer, exhausted } => {
                next_of_batch(pull, buffer, exhausted, source, max, previous, seen)
            },
        };
        let ghost after = *self;
        proof {
            match (before, after) {
                (
                    ExactScoreSource::Batch { pull, buffer, exhausted },
                    ExactScoreSource::Batch { pull: later, buffer: left, exhausted: ended },
                ) => {
                    let fetched = choose|fetched: OperationResult<ExactScoreBatch>| #[trigger]
                        batch_replies(
                            (pull, buffer@, exhausted),
                            source,
                            max,
                            previous,
                            seen@,
                            fetched,
                            result,
                            (later, left@, ended),
                        );
                    assert(source_replies(
                        before,
                        source,
                        max,
                        previous,
                        seen@,
                        fetched,
                        result,
                        *self,
                    ));
                },
                _ => {
                    let fetched = Err::<ExactScoreBatch, OperationError>(OperationError::Cancelled);
                    assert(source_replies(
                        before,
                        source,
                        max,
                        previous,
                        seen@,
                        fetched,
                        result,
                        *self,
                    ));
                },
            }
        }
        result
    }
}

/// What a stream replies, where it is known what it will yield.
pub open spec fn replies_along(
    before: Option<(Seq<ExactScoredIdentity>, Option<OperationError>)>,
    result: OperationResult<Option<ExactScoredIdentity>>,
    after: Option<(Seq<ExactScoredIdentity>, Option<OperationError>)>,
) -> bool {
    before matches Some((points, failure)) ==> if points.len() > 0 {
        &&& result == Ok::<Option<ExactScoredIdentity>, OperationError>(Some(points[0]))
        &&& after == Some((points.drop_first(), failure))
    } else {
        result == (match failure {
            Some(error) => Err::<Option<ExactScoredIdentity>, OperationError>(error),
            None => Ok(None),
        })
    }
}

/// What a stream of batches replies, where it is known what it will yield.
pub open spec fn fetches_along(
    before: Option<(Seq<ExactScoredIdentity>, Option<OperationError>)>,
    max: usize,
    fetched: OperationResult<ExactScoreBatch>,
    after: Option<(Seq<ExactScoredIdentity>, Option<OperationError>)>,
) -> bool {
    before matches Some((points, failure)) ==> if points.len() == 0 && failure is Some {
        fetched == Err::<ExactScoreBatch, OperationError>(failure->0)
    } else {
        &&& fetched matches Ok(batch)
        &&& continues_scores(points, max, batch)
        &&& failure is Some ==> !batch.exhausted
        &&& after == Some((points.skip(batch.points@.len() as int), failure))
    }
}

/// What a source of batches replies: the next point of its buffer; where that is empty and
/// the stream has not ended, a batch is pulled, refused if it has a fault, and otherwise
/// its first point comes and the others are kept.
pub open spec fn batch_replies<B: ExactScoreBatchStream>(
    before: (B, Seq<ExactScoredIdentity>, bool),
    source: usize,
    max: usize,
    previous: Option<ExactScoredIdentity>,
    seen: Set<ExtendedPointId>,
    fetched: OperationResult<ExactScoreBatch>,
    result: OperationResult<Option<ExactScoredIdentity>>,
    after: (B, Seq<ExactScoredIdentity>, bool),
) -> bool {
    if before.1.len() > 0 {
        &&& result == Ok::<Option<ExactScoredIdentity>, OperationError>(Some(before.1[0]))
        &&& after == (before.0, before.1.drop_first(), before.2)
    } else if before.2 {
        &&& result == Ok::<Option<ExactScoredIdentity>, OperationError>(None)
        &&& after == before
    } else {
        &&& fetches_along(
            course_of(before.0.rest(), before.0.failing()),
            max,
            fetched,
            course_of(after.0.rest(), after.0.failing()),
        )
        &&& match fetched {
            Err(error) => result == Err::<Option<ExactScoredIdentity>, OperationError>(error),
            Ok(batch) => match score_batch_fault(
                batch.points@,
                batch.exhausted,
                source,
                max,
                previous,
                seen,
            ) {
                Some(fault) => result == refused::<Option<ExactScoredIdentity>>(fault),
                None => if batch.points@.len() > 0 {
                    &&& result == Ok::<Option<ExactScoredIdentity>, OperationError>(
                        Some(batch.points@[0]),
                    )
                    &&& after.1 == batch.points@.drop_first()
                    &&& after.2 == batch.exhausted
                } else {
                    &&& result == Ok::<Option<ExactScoredIdentity>, OperationError>(None)
                    &&& after.1 == batch.points@
                    &&& after.2 == batch.exhausted
                },
            },
        }
    }
}

/// What a source replies when it is pulled, where `fetched` is the batch that it pulls if it
/// has to.
pub open spec fn source_replies<S: ExactScoreStream, B: ExactScoreBatchStream>(
    before: ExactScoreSource<S, B>,
    source: usize,
    max: usize,
    previous: Option<ExactScoredIdentity>,
    seen: Set<ExtendedPointId>,
    fetched: OperationResult<ExactScoreBatch>,
    result: OperationResult<Option<ExactScoredIdentity>>,
    after: ExactScoreSource<S, B>,
) -> bool {
    match (before, after) {
        (ExactScoreSource::Point(stream), ExactScoreSource::Point(later)) => replies_along(
            course_of(stream.rest(), stream.failing()),
            result,
            course_of(later.rest(), later.failing()),
        ),
        (
            ExactScoreSource::Batch { pull, buffer, exhausted },
            ExactScoreSource::Batch { pull: later, buffer: left, exhausted: ended },
        ) => batch_replies(
            (pull, buffer@, exhausted),
            source,
            max,
            previous,
            seen,
            fetched,
            result,
            (later, left@, ended),
        ),
        _ => false,
    }
}

/// The next point of a source of batches.
fn next_of_batch<B: ExactScoreBatchStream>(
    pull: &mut B,
    buffer: &mut VecDeque<ExactScoredIdentity>,
    exhausted: &mut bool,
    source: usize,
    max: usize,
    previous: Option<ExactScoredIdentity>,
    seen: &IdSet,
) -> (result: OperationResult<Option<ExactScoredIdentity>>)
    requires
        max > 0,
    ensures
        pulls_along(
            batch_course(*old(pull), old(buffer)@, *old(exhausted)),
            result,
            batch_course(*final(pull), final(buffer)@, *final(exhausted)),
        ),
        batch_list(*old(pull), old(buffer)@, *old(exhausted)) matches Some(list) ==> (
        is_proper_list(list, seen@) && follows_point(previous, list) ==> if list.len() == 0 {
            &&& result == Ok::<Option<ExactScoredIdentity>, OperationError>(None)
            &&& batch_list(*final(pull), final(buffer)@, *final(exhausted)) == Some(list)
        } else {
            &&& result == Ok::<Option<ExactScoredIdentity>, OperationError>(Some(list[0]))
            &&& batch_list(*final(pull), final(buffer)@, *final(exhausted)) == Some(
                list.drop_first(),
            )
        }),
        exists|fetched: OperationResult<ExactScoreBatch>| #[trigger]
            batch_replies(
                (*old(pull), old(buffer)@, *old(exhausted)),
                source,
                max,
                previous,
                seen@,
                fetched,
                result,
                (*final(pull), final(buffer)@, *final(exhausted)),
            ),
{
    let ghost begun = (*pull, buffer@, *exhausted);
    let ghost mut asked = Err::<ExactScoreBatch, OperationError>(OperationError::Cancelled);
    let ghost held = buffer@;
    let ghost known = pull.rest();
    let ghost whole = course_of(pull.rest(), pull.failing());
    if buffer.len() == 0 && !*exhausted {
        proof {
            if whole is Some {
                let (points, _) = whole.unwrap();
                assert(held + points =~= points);
            }
        }
        let reply = pull.pull(max);
        let ghost fetched = reply;
        let batch = match reply {
            Ok(batch) => batch,
            Err(error) => {
                proof {
                    assert(batch_replies(
                        begun,
                        source,
                        max,
                        previous,
                        seen@,
                        fetched,
                        Err(error),
                        (*pull, buffer@, *exhausted),
                    ));
                }
                return Err(error);
            },
        };
        let fault = check_batch(&batch, source, max, previous, seen);
        proof {
            if known is Some {
                let list = known->0;
                assert(held + list =~= list);
                if is_proper_list(list, seen@) && follows_point(previous, list) {
                    lemma_proper_list_has_no_fault(
                        list,
                        batch.points@.len() as int,
                        source,
                        previous,
                        seen@,
                    );
                }
            }
        }
        match fault {
            Some(fault) => {
                proof {
                    assert(batch_replies(
                        begun,
                        source,
                        max,
                        previous,
                        seen@,
                        fetched,
                        refused(fault),
                        (*pull, buffer@, *exhausted),
                    ));
                }
                return refuse(fault);
            },
            None => {},
        }
        let ghost points = batch.points@;
        proof {
            asked = fetched;
        }
        *exhausted = batch.exhausted;
        let mut i: usize = 0;
        while i < batch.points.len()
            invariant
                i <= batch.points@.len(),
                buffer@ =~= batch.points@.take(i as int),
            decreases batch.points@.len() - i,
        {
            buffer.push_back(batch.points[i]);
            i += 1;
        }
        proof {
            assert(buffer@ =~= points);
            if whole is Some {
                let (list, _) = whole.unwrap();
                assert(points + list.skip(points.len() as int) =~= list);
                if points.len() == list.len() {
                    assert(points =~= list);
                }
            }
            if known is Some {
                let list = known->0;
                if points == list.take(points.len() as int) {
                    assert(points + list.skip(points.len() as int) =~= list);
                    if points.len() == list.len() {
                        assert(points =~= list);
                    }
                }
            }
        }
    }
    let ghost filled = buffer@;
    let point = buffer.pop_front();
    assert(filled.len() > 0 ==> buffer@ =~= filled.drop_first());
    proof {
        if filled.len() > 0 {
            assert(filled.subrange(1, filled.len() as int) =~= filled.drop_first());
            assert forall|rest: Seq<ExactScoredIdentity>|
                #![trigger filled + rest]
                (filled + rest).drop_first() == filled.drop_first() + rest && (filled
                    + rest)[0] == filled[0] by {
                assert((filled + rest).drop_first() =~= filled.drop_first() + rest);
            }
        } else {
            assert forall|rest: Seq<ExactScoredIdentity>|
                #![trigger filled + rest]
                filled + rest == rest by {
                assert(filled + rest =~= rest);
            }
        }
    }
    proof {
        assert(batch_replies(
            begun,
            source,
            max,
            previous,
            seen@,
            asked,
            Ok(point),
            (*pull, buffer@, *exhausted),
        ));
    }
    Ok(point)
}

/// What a source of batches will still yield, and the failure that ends it.
pub open spec fn batch_course<B: ExactScoreBatchStream>(
    pull: B,
    buffer: Seq<ExactScoredIdentity>,
    exhausted: bool,
) -> Option<(Seq<ExactScoredIdentity>, Option<OperationError>)> {
    if exhausted {
        Some((buffer, None))
    } else {
        match course_of(pull.rest(), pull.failing()) {
            Some((points, failure)) => Some((buffer + points, failure)),
            None => None,
        }
    }
}

/// What a source of batches will still yield, where that is known and never fails.
pub open spec fn batch_list<B: ExactScoreBatchStream>(
    pull: B,
    buffer: Seq<ExactScoredIdentity>,
    exhausted: bool,
) -> Option<Seq<ExactScoredIdentity>> {
    if exhausted {
        Some(buffer)
    } else {
        match pull.rest() {
            Some(rest) => Some(buffer + rest),
            None => None,
        }
    }
}


/// What one pull does to what a source will still yield: the next point comes, or the end
/// where nothing is left and nothing fails, or the failure where nothing is left before
/// it. A point that is refused gives another failure, never an end.
pub open spec fn pulls_along(
    before: Option<(Seq<ExactScoredIdentity>, Option<OperationError>)>,
    result: OperationResult<Option<ExactScoredIdentity>>,
    after: Option<(Seq<ExactScoredIdentity>, Option<OperationError>)>,
) -> bool {
    before matches Some((points, failure)) ==> match result {
        Ok(Some(point)) => {
            &&& points.len() > 0
            &&& point == points[0]
            &&& after == Some((points.drop_first(), failure))
        },
        Ok(None) => points.len() == 0 && failure is None,
        Err(error) => points.len() > 0 || failure == Some(error),
    }
}

/// Lazily restores the order of a channel from exact local streams.
///
/// Every source is primed before the first point and refilled before the next
/// winner is selected, so that no unobserved head can overtake a returned point.
/// Violations of a local order, repeated identities, scores that are not finite
/// and failures all fail closed: none is mistaken for an end.
pub struct KWayExactScoreStream<S, B> {
    sources: Vec<ExactScoreSource<S, B>>,
    source_refill_batch_size: usize,
    pending: RankQueue,
    previous: Vec<Option<ExactScoredIdentity>>,
    refill_source: Option<usize>,
    seen: IdSet,
    source_pulls: Vec<usize>,
    source_exhausted: Vec<bool>,
    points_emitted: usize,
    terminal_error: Option<OperationError>,
    error_delivered: bool,
    heads: Ghost<Seq<Option<ExactScoredIdentity>>>,
    last: Ghost<Option<ExactScoredIdentity>>,
}

/// The queue entry of a head.
pub open spec fn head_entry(point: ExactScoredIdentity, source: int) -> RankEntry {
    RankEntry { score: point.score, id: point.id, slot: source as usize }
}

/// A head as the beginning of a list.
pub open spec fn head_list(head: Option<ExactScoredIdentity>) -> Seq<ExactScoredIdentity> {
    match head {
        Some(point) => seq![point],
        None => Seq::empty(),
    }
}

impl<S: ExactScoreStream, B: ExactScoreBatchStream> KWayExactScoreStream<S, B> {
    /// Whether the queue holds the heads of the sources, every source has a head
    /// unless it has ended or is to be refilled, and no head belongs before what
    /// was emitted.
    pub closed spec fn wf(&self) -> bool {
        &&& self.formed()
        &&& self.terminal_error is None ==> self.in_order()
    }

    /// Whether what comes next cannot belong before what was emitted.
    closed spec fn in_order(&self) -> bool {
        &&& forall|source: int|
            0 <= source < self.sources@.len() ==> {
                ||| #[trigger] self.heads@[source] is Some
                ||| self.source_exhausted@[source]
                ||| self.refill_source == Some(source as usize)
            }
        &&& forall|source: int|
            0 <= source < self.sources@.len() && (#[trigger] self.heads@[source]) is Some ==> {
                &&& self.previous@[source] == self.heads@[source]
                &&& finite_key(self.heads@[source]->0.score)
                &&& self.last@ matches Some(last) ==> !point_before(
                    self.heads@[source]->0,
                    last,
                )
            }
        &&& self.refill_source matches Some(source) ==> self.last@ is Some
            && self.previous@[source as int] == self.last@
        &&& self.last@ matches Some(last) ==> self.seen@.contains(last.id)
    }

    /// Whether nothing was emitted and nothing has failed.
    pub open spec fn is_fresh(&self) -> bool {
        &&& self.emitted() == 0
        &&& self.emitted_ids() == Set::<ExtendedPointId>::empty()
        &&& self.last() is None
        &&& !self.has_failed()
        &&& !self.failure_was_delivered()
    }

    /// The identities that were emitted.
    pub closed spec fn emitted_ids(&self) -> Set<ExtendedPointId> {
        self.seen@
    }

    /// The point that was emitted last.
    pub closed spec fn last(&self) -> Option<ExactScoredIdentity> {
        self.last@
    }

    /// Whether the queue holds the heads of the sources.
    closed spec fn formed(&self) -> bool {
        let count = self.sources@.len();
        &&& 0 < count <= usize::MAX
        &&& self.source_refill_batch_size > 0
        &&& self.previous@.len() == count
        &&& self.source_pulls@.len() == count
        &&& self.source_exhausted@.len() == count
        &&& self.heads@.len() == count
        &&& self.pending.wf()
        &&& self.refill_source matches Some(source) ==> source < count
            && self.heads@[source as int] is None
        &&& forall|entry: RankEntry| #[trigger]
            self.pending@.count(entry) == (if self.is_head(entry) {
                1nat
            } else {
                0nat
            })
    }

    /// Whether an entry is that of a head.
    closed spec fn is_head(&self, entry: RankEntry) -> bool {
        &&& entry.slot < self.heads@.len()
        &&& self.heads@[entry.slot as int] == Some(
            ExactScoredIdentity { id: entry.id, score: entry.score },
        )
    }

    /// What every source has still to give, its head included; `None` where some
    /// source is not known.
    pub closed spec fn remaining(&self) -> Option<Seq<Seq<ExactScoredIdentity>>> {
        if forall|source: int|
            0 <= source < self.sources@.len() && !self.source_exhausted@[source]
                ==> (#[trigger] self.sources@[source]).upcoming() is Some {
            Some(Seq::new(self.sources@.len(), |source: int| self.list_of(source)))
        } else {
            None
        }
    }

    /// What a source has still to give.
    closed spec fn list_of(&self, source: int) -> Seq<ExactScoredIdentity> {
        if self.source_exhausted@[source] {
            head_list(self.heads@[source])
        } else {
            head_list(self.heads@[source]) + self.sources@[source].upcoming()->0
        }
    }

    /// Whether the merge can go on with the given lists: they are mergeable, and
    /// nothing in them was seen or belongs before what was pulled.
    pub closed spec fn merges(&self, lists: Seq<Seq<ExactScoredIdentity>>) -> bool {
        &&& self.remaining() == Some(lists)
        &&& self.terminal_error is None
        &&& mergeable(lists)
        &&& forall|source: int, i: int|
            0 <= source < lists.len() && 0 <= i < lists[source].len() ==> !self.seen@.contains(
                (#[trigger] lists[source][i]).id,
            )
        &&& forall|source: int|
            0 <= source < lists.len() ==> follows_point(
                #[trigger] self.previous@[source],
                self.behind_head(source),
            )
        &&& forall|source: int|
            0 <= source < lists.len() ==> (self.heads@[source] is Some
                || #[trigger] self.source_exhausted@[source] || self.refill_source == Some(
                source as usize,
            ))
    }

    /// What a source has still to give behind its head.
    closed spec fn behind_head(&self, source: int) -> Seq<ExactScoredIdentity> {
        if self.source_exhausted@[source] {
            Seq::empty()
        } else {
            self.sources@[source].upcoming()->0
        }
    }

    /// The number of sources.
    pub closed spec fn source_count(&self) -> nat {
        self.sources@.len()
    }

    /// The point of a source that waits to be emitted.
    pub closed spec fn head(&self, source: int) -> Option<ExactScoredIdentity> {
        self.heads@[source]
    }

    /// What a source will still yield behind its head, and the failure that ends it, where
    /// there is one.
    pub closed spec fn course(&self, source: int) -> Option<
        (Seq<ExactScoredIdentity>, Option<OperationError>),
    > {
        if self.source_exhausted@[source] {
            Some((Seq::empty(), None))
        } else {
            self.sources@[source].course()
        }
    }

    /// A source.
    pub closed spec fn source(&self, source: int) -> ExactScoreSource<S, B> {
        self.sources@[source]
    }

    /// The point that a source has yielded last.
    pub closed spec fn previous(&self, source: int) -> Option<ExactScoredIdentity> {
        self.previous@[source]
    }

    /// How many points a source may yield at a time.
    pub closed spec fn refill_size(&self) -> usize {
        self.source_refill_batch_size
    }

    /// The source that is pulled before the next point is chosen.
    pub closed spec fn refilling(&self) -> Option<usize> {
        self.refill_source
    }

    /// Whether a source has not ended and is known to fail.
    pub open spec fn is_failing(&self, source: int) -> bool {
        self.course(source) matches Some((_, Some(_)))
    }

    /// Whether a failure has ended the merge.
    pub closed spec fn has_failed(&self) -> bool {
        self.terminal_error is Some
    }

    /// The failure that has ended the merge.
    pub closed spec fn failure(&self) -> OperationError {
        self.terminal_error->0
    }

    /// Whether the failure has been handed out by `next`.
    pub closed spec fn failure_was_delivered(&self) -> bool {
        self.error_delivered
    }

    /// How many points were emitted.
    pub closed spec fn emitted(&self) -> usize {
        self.points_emitted
    }

    /// Pulls the next point of a source, and queues it.
    fn refill(&mut self, source: usize) -> (result: OperationResult<()>)
        requires
            old(self).formed(),
            source < old(self).sources@.len(),
            old(self).heads@[source as int] is None,
            old(self).refill_source is None,
        ensures
            final(self).formed(),
            final(self).sources@.len() == old(self).sources@.len(),
            final(self).refill_source is None,
            final(self).terminal_error == old(self).terminal_error,
            final(self).error_delivered == old(self).error_delivered,
            final(self).points_emitted == old(self).points_emitted,
            final(self).seen@ == old(self).seen@,
            final(self).last@ == old(self).last@,
            result is Ok ==> match final(self).heads@[source as int] {
                Some(point) => {
                    &&& final(self).previous@[source as int] == Some(point)
                    &&& finite_key(point.score)
                    &&& old(self).previous@[source as int] matches Some(earlier) ==> !point_before(
                        point,
                        earlier,
                    )
                },
                None => final(self).source_exhausted@[source as int],
            },
            forall|other: int|
                0 <= other < old(self).sources@.len() && other != source ==> {
                    &&& #[trigger] final(self).heads@[other] == old(self).heads@[other]
                    &&& final(self).sources@[other] == old(self).sources@[other]
                    &&& final(self).source_exhausted@[other] == old(self).source_exhausted@[other]
                    &&& final(self).previous@[other] == old(self).previous@[other]
                },
            !old(self).source_exhausted@[source as int] ==> (old(self).sources@[source as int].upcoming() matches Some(list) ==> (is_proper_list(
                list,
                old(self).seen@,
            ) && follows_point(old(self).previous@[source as int], list) ==> {
                &&& result == Ok::<(), OperationError>(())
                &&& if list.len() == 0 {
                    &&& final(self).source_exhausted@[source as int]
                    &&& final(self).heads@[source as int] is None
                } else {
                    &&& !final(self).source_exhausted@[source as int]
                    &&& final(self).heads@[source as int] == Some(list[0])
                    &&& final(self).previous@[source as int] == Some(list[0])
                    &&& final(self).sources@[source as int].upcoming() == Some(list.drop_first())
                }
            })),
            old(self).source_exhausted@[source as int] ==> {
                &&& result == Ok::<(), OperationError>(())
                &&& *final(self) == *old(self)
            },
            refills(*old(self), source as int, result, *final(self)),
            refills_exactly(*old(self), source as int, result, *final(self)),
    {
        let ghost begun = *self;
        proof {
            reveal(pulls_once);
        }
        if self.source_exhausted[source] {
            assert(self.exhausted() =~= begun.exhausted().update(source as int, true));
            assert(pulls_once(
                begun,
                source as int,
                Err(OperationError::Cancelled),
                Ok(None),
                Ok(()),
                *self,
            ));
            return Ok(());
        }
        let previous = self.previous[source];
        let ghost known = self.sources@[source as int].upcoming();
        let ghost whole = self.sources@[source as int].course();
        let next = self.sources[source].next_point(
            source,
            self.source_refill_batch_size,
            previous,
            &self.seen,
        );
        let ghost pulled = next;
        let ghost fetched = choose|fetched: OperationResult<ExactScoreBatch>| #[trigger]
            source_replies(
                begun.source(source as int),
                source,
                begun.refill_size(),
                begun.previous(source as int),
                begun.emitted_ids(),
                fetched,
                pulled,
                self.source(source as int),
            );
        let point = match next {
            Ok(Some(point)) => point,
            Ok(None) => {
                self.source_exhausted.set(source, true);
                proof {
                    if whole is Some {
                        let (points, _) = whole.unwrap();
                        assert(points =~= Seq::<ExactScoredIdentity>::empty());
                    }
                }
                assert(pulls_once(begun, source as int, fetched, pulled, Ok(()), *self));
                return Ok(());
            },
            Err(error) => {
                assert(pulls_once(begun, source as int, fetched, pulled, Err(error), *self));
                return Err(error);
            },
        };
        if !is_finite_key(point.score) {
            proof {
                let refusal = refused::<()>(Fault::NonFiniteSourceScore { source });
                assert(pulls_once(begun, source as int, fetched, pulled, refusal, *self));
            }
            return refuse(Fault::NonFiniteSourceScore { source });
        }
        match previous {
            Some(earlier) => {
                if scored_before(point.score, point.id, earlier.score, earlier.id) {
                    proof {
                        let refusal = refused::<()>(Fault::SourceOrder { source });
                        assert(pulls_once(begun, source as int, fetched, pulled, refusal, *self));
                    }
                    return refuse(Fault::SourceOrder { source });
                }
            },
            None => {},
        }
        let ghost queue = self.pending@;
        let ghost before = *self;
        self.source_pulls.set(source, self.source_pulls[source].saturating_add(1));
        self.previous.set(source, Some(point));
        self.pending.push(RankEntry { score: point.score, id: point.id, slot: source });
        self.heads = Ghost(self.heads@.update(source as int, Some(point)));
        proof {
            assert forall|entry: RankEntry| #[trigger]
                self.pending@.count(entry) == (if self.is_head(entry) {
                    1nat
                } else {
                    0nat
                }) by {
                assert(queue.count(entry) == (if before.is_head(entry) {
                    1nat
                } else {
                    0nat
                }));
            }
            assert(pulls_once(begun, source as int, fetched, pulled, Ok(()), *self));
        }
        Ok(())
    }

    /// Refilling a source changes nothing of what the sources have still to give.
    proof fn lemma_refill_keeps(
        before: &KWayExactScoreStream<S, B>,
        after: &KWayExactScoreStream<S, B>,
        source: usize,
        lists: Seq<Seq<ExactScoredIdentity>>,
    )
        requires
            before.formed(),
            after.formed(),
            source < before.sources@.len(),
            before.heads@[source as int] is None,
            before.merges(lists),
            after.sources@.len() == before.sources@.len(),
            after.terminal_error is None,
            after.refill_source is None,
            before.refill_source == Some(source),
            after.seen@ == before.seen@,
            forall|other: int|
                0 <= other < before.sources@.len() && other != source ==> {
                    &&& #[trigger] after.heads@[other] == before.heads@[other]
                    &&& after.sources@[other] == before.sources@[other]
                    &&& after.source_exhausted@[other] == before.source_exhausted@[other]
                    &&& after.previous@[other] == before.previous@[other]
                },
            before.source_exhausted@[source as int] ==> {
                &&& after.source_exhausted@[source as int]
                &&& after.heads@[source as int] is None
                &&& after.previous@[source as int] == before.previous@[source as int]
            },
            !before.source_exhausted@[source as int] ==> {
                let list = before.sources@[source as int].upcoming()->0;
                if list.len() == 0 {
                    &&& after.source_exhausted@[source as int]
                    &&& after.heads@[source as int] is None
                } else {
                    &&& !after.source_exhausted@[source as int]
                    &&& after.heads@[source as int] == Some(list[0])
                    &&& after.previous@[source as int] == Some(list[0])
                    &&& after.sources@[source as int].upcoming() == Some(list.drop_first())
                }
            },
        ensures
            after.merges(lists),
            forall|other: int|
                0 <= other < lists.len() ==> (#[trigger] after.heads@[other] is Some
                    || after.source_exhausted@[other]),
    {
        let count = before.sources@.len();
        assert forall|other: int| 0 <= other < count && !after.source_exhausted@[other] implies (
        #[trigger] after.sources@[other]).upcoming() is Some by {
            if other != source {
                let _ = after.heads@[other];
                assert(before.sources@[other].upcoming() is Some);
            }
        }
        assert forall|other: int| 0 <= other < count implies after.list_of(other)
            == #[trigger] lists[other] by {
            assert(lists[other] == before.list_of(other));
            if other != source {
                let _ = after.heads@[other];
            } else if !before.source_exhausted@[other] {
                let list = before.sources@[other].upcoming()->0;
                assert(Seq::<ExactScoredIdentity>::empty() + list =~= list);
                if list.len() > 0 {
                    assert(seq![list[0]] + list.drop_first() =~= list);
                } else {
                    assert(list =~= Seq::<ExactScoredIdentity>::empty());
                }
            }
        }
        assert(Seq::new(count, |other: int| after.list_of(other)) =~= lists);
        assert forall|other: int| 0 <= other < lists.len() implies follows_point(
            #[trigger] after.previous@[other],
            after.behind_head(other),
        ) by {
            let _ = after.heads@[other];
            let _ = before.previous@[other];
            if other == source && !before.source_exhausted@[other] {
                let list = before.sources@[other].upcoming()->0;
                assert(lists[other] == before.list_of(other));
                assert(Seq::<ExactScoredIdentity>::empty() + list =~= list);
                if list.len() > 0 {
                    assert forall|i: int| 0 <= i < list.drop_first().len() implies point_before(
                        list[0],
                        #[trigger] list.drop_first()[i],
                    ) by {
                        assert(point_before(lists[other][0], lists[other][i + 1]));
                    }
                }
            }
        }
        assert forall|other: int| 0 <= other < lists.len() implies (
        #[trigger] after.heads@[other] is Some || after.source_exhausted@[other]) by {
            let _ = before.source_exhausted@[other];
        }
    }

    /// The next point of the merge.
    #[verifier::rlimit(40)]
    fn next_inner(&mut self) -> (result: OperationResult<Option<ExactScoredIdentity>>)
        requires
            old(self).wf(),
        ensures
            final(self).formed(),
            old(self).terminal_error is None && result is Ok ==> final(self).wf() && emits(
                *old(self),
                result->Ok_0,
                *final(self),
            ),
            final(self).sources@.len() == old(self).sources@.len(),
            steps_once(*old(self), result, *final(self)),
            final(self).terminal_error == old(self).terminal_error,
            final(self).error_delivered == old(self).error_delivered,
            final(self).points_emitted == (if result is Ok && result->Ok_0 is Some {
                old(self).points_emitted.saturating_add(1)
            } else {
                old(self).points_emitted
            }),
            forall|lists: Seq<Seq<ExactScoredIdentity>>| #[trigger]
                old(self).merges(lists) ==> merge_step(
                    lists,
                    result,
                    *final(self),
                ),
    {
        let ghost first = *self;
        match self.refill_source.take() {
            Some(source) => {
                let ghost before = *self;
                let refilled = self.refill(source);
                proof {
                    assert(refills(first, source as int, refilled, *self)) by {
                        assert(before.course(source as int) == first.course(source as int));
                    }
                    assert(refills_exactly(first, source as int, refilled, *self)) by {
                        let (fetched, pulled) = choose|
                            fetched: OperationResult<ExactScoreBatch>,
                            pulled: OperationResult<Option<ExactScoredIdentity>>,
                        | #[trigger]
                            pulls_once(before, source as int, fetched, pulled, refilled, *self);
                        lemma_pull_of_same(
                            before,
                            first,
                            source as int,
                            fetched,
                            pulled,
                            refilled,
                            *self,
                        );
                    }
                    assert(readies(first, refilled, *self));
                    assert forall|other: int|
                        0 <= other < first.sources@.len() && first.is_failing(other) implies
                        !#[trigger] self.exhausted()[other] by {
                        if other != source {
                            let _ = self.heads@[other];
                        }
                    }
                    assert forall|lists: Seq<Seq<ExactScoredIdentity>>| #[trigger]
                        first.merges(lists) implies refilled is Ok && self.merges(lists)
                        && forall|other: int|
                        0 <= other < lists.len() ==> (#[trigger] self.heads@[other] is Some
                            || self.source_exhausted@[other]) by {
                        if !first.source_exhausted@[source as int] {
                            let list = first.sources@[source as int].upcoming()->0;
                            assert(first.sources@[source as int].upcoming() is Some);
                            assert(lists[source as int] == first.list_of(source as int));
                            assert(Seq::<ExactScoredIdentity>::empty() + list =~= list);
                            assert(lists[source as int] == list);
                            assert(is_proper_list(list, first.seen@)) by {
                                assert forall|i: int, j: int| 0 <= i < j < list.len() implies
                                    point_before(#[trigger] list[i], #[trigger] list[j]) by {
                                    assert(point_before(
                                        lists[source as int][i],
                                        lists[source as int][j],
                                    ));
                                }
                                assert forall|i: int| 0 <= i < list.len() implies finite_key(
                                    (#[trigger] list[i]).score,
                                ) by {
                                    assert(finite_key(lists[source as int][i].score));
                                }
                                assert forall|i: int, j: int|
                                    0 <= i < list.len() && 0 <= j < list.len() && (
                                    #[trigger] list[i]).id == (#[trigger] list[j]).id implies i
                                    == j by {
                                    assert(lists[source as int][i].id
                                        == lists[source as int][j].id);
                                }
                                assert forall|i: int| 0 <= i < list.len() implies
                                    !first.seen@.contains((#[trigger] list[i]).id) by {
                                    assert(!first.seen@.contains(lists[source as int][i].id));
                                }
                            }
                            assert(follows_point(
                                first.previous@[source as int],
                                first.behind_head(source as int),
                            ));
                        }
                        Self::lemma_refill_keeps(&first, self, source, lists);
                    }
                }
                match refilled {
                    Ok(unit) => {
                        assert(unit == ());
                        assert(readies(first, Ok(unit), *self));
                    },
                    Err(error) => {
                        return Err(error);
                    },
                }
            },
            None => {
                proof {
                    assert(readies(first, Ok(()), *self));
                    assert forall|lists: Seq<Seq<ExactScoredIdentity>>| #[trigger]
                        first.merges(lists) implies forall|other: int|
                        0 <= other < lists.len() ==> (#[trigger] self.heads@[other] is Some
                            || self.source_exhausted@[other]) by {
                        assert forall|other: int| 0 <= other < lists.len() implies (
                        #[trigger] self.heads@[other] is Some
                            || self.source_exhausted@[other]) by {
                            let _ = first.source_exhausted@[other];
                        }
                    }
                }
            },
        }
        let ghost ready = *self;
        proof {
            assert forall|other: int|
                0 <= other < first.sources@.len() && first.is_failing(other) implies
                !#[trigger] ready.exhausted()[other] by {}
            assert(first.refill_source is Some ==> refills(
                first,
                first.refill_source->0 as int,
                Ok::<(), OperationError>(()),
                ready,
            ));
            assert forall|other: int| 0 <= other < ready.sources@.len() && first.refill_source
                != Some(other as usize) implies #[trigger] ready.head(other) == first.head(other)
                && ready.course(other) == first.course(other) by {
                let _ = ready.heads@[other];
            }
            if first.terminal_error is None {
                assert forall|source: int| 0 <= source < ready.sources@.len() implies (
                #[trigger] ready.heads@[source] is Some || ready.source_exhausted@[source]) by {
                    let _ = first.heads@[source];
                }
                assert forall|source: int|
                    0 <= source < ready.sources@.len() && (#[trigger] ready.heads@[source])
                        is Some implies {
                    &&& ready.previous@[source] == ready.heads@[source]
                    &&& finite_key(ready.heads@[source]->0.score)
                    &&& ready.last@ matches Some(last) ==> !point_before(
                        ready.heads@[source]->0,
                        last,
                    )
                } by {
                    let _ = first.heads@[source];
                }
            }
        }
        let ghost queue = self.pending@;
        let entry = match self.pending.pop() {
            Some(entry) => entry,
            None => {
                proof {
                    assert forall|lists: Seq<Seq<ExactScoredIdentity>>| #[trigger]
                        first.merges(lists) implies all_empty(lists) && self.merges(lists) by {
                        assert forall|other: int| 0 <= other < lists.len() implies (
                        #[trigger] lists[other]).len() == 0 by {
                            assert(lists[other] == ready.list_of(other));
                            if ready.heads@[other] is Some {
                                let rival = head_entry(ready.heads@[other]->0, other);
                                assert(ready.is_head(rival));
                                assert(queue.count(rival) == 1);
                            }
                        }
                        Self::lemma_same_merges(&ready, self, lists);
                    }
                    if first.terminal_error is None {
                        assert forall|source: int| 0 <= source < ready.sources@.len() implies
                            #[trigger] self.source_exhausted@[source] by {
                            if ready.heads@[source] is Some {
                                let rival = head_entry(ready.heads@[source]->0, source);
                                assert(ready.is_head(rival));
                                assert(queue.count(rival) == 1);
                            }
                        }
                        assert forall|source: int| 0 <= source < self.sources@.len() implies (
                        #[trigger] self.heads@[source] is Some
                            || self.source_exhausted@[source]) by {
                            let _ = ready.heads@[source];
                        }
                    }
                    assert forall|source: int| 0 <= source < ready.source_count() implies
                        #[trigger] ready.head(source) is None by {
                        if ready.heads@[source] is Some {
                            let rival = head_entry(ready.heads@[source]->0, source);
                            assert(ready.is_head(rival));
                            assert(queue.count(rival) == 1);
                        }
                    }
                    assert(readies(first, Ok(()), ready));
                    assert(picks(ready, Ok(None), *self)) by {
                        reveal(picks);
                    }
                    assert forall|source: int| 0 <= source < first.source_count() implies
                        #[trigger] first.head(source) is None by {
                        assert(ready.head(source) is None);
                    }
                }
                return Ok(None);
            },
        };
        let source: usize = entry.slot;
        let point = ExactScoredIdentity { id: entry.id, score: entry.score };
        proof {
            assert(queue.count(entry) > 0);
            assert(ready.is_head(entry));
            assert(leads_heads(ready, source as int)) by {
                assert forall|other: int|
                    0 <= other < ready.source_count() && other != source implies (
                #[trigger] ready.head(other) matches Some(rival) ==> head_entry(
                    point,
                    source as int,
                ).precedes(head_entry(rival, other))) by {
                    if ready.heads@[other] is Some {
                        let rival = head_entry(ready.heads@[other]->0, other);
                        assert(ready.is_head(rival));
                        assert(queue.count(rival) == 1);
                        assert(queue.contains(rival));
                        assert(!rival.precedes(entry));
                    }
                }
            }
        }
        self.refill_source = Some(source);
        self.heads = Ghost(self.heads@.update(source as int, None));
        proof {
            assert forall|other: RankEntry| #[trigger]
                self.pending@.count(other) == (if self.is_head(other) {
                    1nat
                } else {
                    0nat
                }) by {
                assert(queue.count(other) == (if ready.is_head(other) {
                    1nat
                } else {
                    0nat
                }));
                if other.slot == source && other != entry {
                    assert(!ready.is_head(other));
                }
            }
        }
        let added = self.seen.insert(point.id);
        proof {
            assert forall|lists: Seq<Seq<ExactScoredIdentity>>| #[trigger]
                first.merges(lists) implies {
                &&& added
                &&& leads_all(lists, source as int)
                &&& point == lists[source as int][0]
                &&& self.merges(taken_from(lists, source as int))
            } by {
                Self::lemma_pop_merges(&ready, self, entry, lists);
                assert(lists[source as int][0] == point);
                assert(!ready.seen@.contains(lists[source as int][0].id));
            }
        }
        proof {
            assert forall|other: int|
                0 <= other < first.sources@.len() && first.is_failing(other) implies
                !#[trigger] self.exhausted()[other] by {
                assert(!ready.exhausted()[other]);
            }
        }
        if !added {
            proof {
                assert(readies(first, Ok(()), ready));
                let refusal = refused::<Option<ExactScoredIdentity>>(
                    Fault::RepeatedIdentity { id: point.id },
                );
                assert(picks(ready, refusal, *self)) by {
                    reveal(picks);
                }
            }
            return refuse(Fault::RepeatedIdentity { id: point.id });
        }
        let ghost popped = *self;
        self.last = Ghost(Some(point));
        self.points_emitted = self.points_emitted.saturating_add(1);
        proof {
            let counted = *self;
            assert(readies(first, Ok(()), ready));
            assert(picks(ready, Ok(Some(point)), counted)) by {
                reveal(picks);
                assert forall|other: int| 0 <= other < ready.source_count() implies
                    #[trigger] counted.head(other) == (if other == source {
                    None
                } else {
                    ready.head(other)
                }) && counted.source(other) == ready.source(other) && counted.previous(other)
                    == ready.previous(other) by {}
            }
            assert forall|other: int|
                0 <= other < first.sources@.len() && first.is_failing(other) implies
                !#[trigger] counted.exhausted()[other] by {
                assert(!ready.exhausted()[other]);
            }
            assert(chooses(first, source as int, point, counted)) by {
                assert forall|other: int| 0 <= other < counted.sources@.len() implies
                    counted.course(other) == #[trigger] ready.course(other) by {}
                assert forall|other: int|
                    0 <= other < counted.sources@.len() && other != source implies (
                #[trigger] counted.head(other) matches Some(rival) ==> !point_before(
                    rival,
                    point,
                )) by {
                    if ready.heads@[other] is Some {
                        let rival = head_entry(ready.heads@[other]->0, other);
                        assert(ready.is_head(rival));
                        assert(queue.count(rival) == 1);
                        assert(queue.contains(rival));
                        assert(!rival.precedes(entry));
                    }
                }
            }
            assert forall|lists: Seq<Seq<ExactScoredIdentity>>| #[trigger]
                first.merges(lists) implies merge_step(
                lists,
                Ok::<Option<ExactScoredIdentity>, OperationError>(Some(point)),
                counted,
            ) by {
                assert(leads_all(lists, source as int));
                Self::lemma_same_merges(
                    &popped,
                    &counted,
                    taken_from(lists, source as int),
                );
                assert(counted.merges(taken_from(lists, source as int)));
            }
            if first.terminal_error is None {
                assert(ready.heads@[source as int] == Some(point));
                assert forall|other: int|
                    0 <= other < self.sources@.len() && (#[trigger] self.heads@[other])
                        is Some implies {
                    &&& self.previous@[other] == self.heads@[other]
                    &&& finite_key(self.heads@[other]->0.score)
                    &&& !point_before(self.heads@[other]->0, point)
                } by {
                    let _ = ready.heads@[other];
                    let rival = head_entry(ready.heads@[other]->0, other);
                    assert(ready.is_head(rival));
                    assert(queue.count(rival) == 1);
                    assert(queue.contains(rival));
                    assert(!rival.precedes(entry));
                }
                assert forall|other: int| 0 <= other < self.sources@.len() implies ({
                    ||| #[trigger] self.heads@[other] is Some
                    ||| self.source_exhausted@[other]
                    ||| self.refill_source == Some(other as usize)
                }) by {
                    let _ = ready.heads@[other];
                }
                assert(self.in_order());
                if first.last@ is Some {
                    let last = first.last@->0;
                    if last.id.rank() == point.id.rank() {
                        crate::order::lemma_rank_is_injective(last.id, point.id);
                    }
                }
            }
        }
        Ok(Some(point))
    }

    /// Merges with the same parts go on in the same way.
    proof fn lemma_same_merges(
        left: &KWayExactScoreStream<S, B>,
        right: &KWayExactScoreStream<S, B>,
        lists: Seq<Seq<ExactScoredIdentity>>,
    )
        requires
            left.merges(lists),
            left.sources@ == right.sources@,
            left.source_exhausted@ == right.source_exhausted@,
            left.previous@ == right.previous@,
            left.heads@ == right.heads@,
            left.seen@ == right.seen@,
            left.refill_source == right.refill_source,
            right.terminal_error is None,
        ensures
            right.merges(lists),
    {
        let count = left.sources@.len();
        assert forall|other: int| 0 <= other < count implies left.list_of(other)
            == #[trigger] right.list_of(other) by {
        }
        assert(Seq::new(count, |other: int| right.list_of(other)) =~= lists) by {
            assert(Seq::new(count, |other: int| left.list_of(other)) == lists);
            assert forall|other: int| 0 <= other < count implies right.list_of(other)
                == #[trigger] lists[other] by {
                assert(left.list_of(other) == lists[other]);
            }
        }
        assert forall|other: int| 0 <= other < count && !right.source_exhausted@[other] implies (
        #[trigger] right.sources@[other]).upcoming() is Some by {
            assert(left.sources@[other].upcoming() is Some);
        }
        assert forall|other: int| 0 <= other < lists.len() implies follows_point(
            #[trigger] right.previous@[other],
            right.behind_head(other),
        ) by {
            assert(follows_point(left.previous@[other], left.behind_head(other)));
        }
    }

    /// The best head leads all lists, and without it the merge goes on.
    proof fn lemma_pop_merges(
        before: &KWayExactScoreStream<S, B>,
        after: &KWayExactScoreStream<S, B>,
        entry: RankEntry,
        lists: Seq<Seq<ExactScoredIdentity>>,
    )
        requires
            before.formed(),
            before.merges(lists),
            before.is_head(entry),
            forall|other: RankEntry|
                before.pending@.contains(other) ==> !(#[trigger] other.precedes(entry)),
            forall|other: int|
                0 <= other < lists.len() ==> (#[trigger] before.heads@[other] is Some
                    || before.source_exhausted@[other]),
            after.sources@ == before.sources@,
            after.source_exhausted@ == before.source_exhausted@,
            after.previous@ == before.previous@,
            after.heads@ == before.heads@.update(entry.slot as int, None),
            after.seen@ == before.seen@.insert(entry.id),
            after.refill_source == Some(entry.slot),
            after.terminal_error is None,
        ensures
            leads_all(lists, entry.slot as int),
            lists[entry.slot as int][0] == (ExactScoredIdentity {
                id: entry.id,
                score: entry.score,
            }),
            after.merges(taken_from(lists, entry.slot as int)),
    {
        let source = entry.slot as int;
        let point = ExactScoredIdentity { id: entry.id, score: entry.score };
        let count = before.sources@.len();
        let taken = taken_from(lists, source);
        assert forall|other: int| 0 <= other < count implies #[trigger] lists[other]
            == before.list_of(other) by {
        }
        assert(lists[source][0] == point);
        assert(leads_all(lists, source)) by {
            assert forall|other: int, i: int|
                0 <= other < lists.len() && 0 <= i < lists[other].len() && !(other == source && i
                    == 0) implies point_before(lists[source][0], #[trigger] lists[other][i]) by {
                if other == source {
                    assert(point_before(lists[source][0], lists[source][i]));
                } else {
                    let head = before.heads@[other];
                    assert(head is Some);
                    assert(lists[other][0] == head->0);
                    let rival = head_entry(head->0, other);
                    assert(before.is_head(rival));
                    assert(before.pending@.count(rival) == 1);
                    assert(before.pending@.contains(rival));
                    assert(!rival.precedes(entry));
                    assert(lists[other][0].id != lists[source][0].id) by {
                        if lists[other][0].id == lists[source][0].id {
                            assert(other == source);
                        }
                    }
                    if rival.id.rank() == entry.id.rank() {
                        crate::order::lemma_rank_is_injective(rival.id, entry.id);
                    }
                    assert(point_before(lists[source][0], lists[other][0]));
                    if i > 0 {
                        assert(point_before(lists[other][0], lists[other][i]));
                    }
                }
            }
        }
        lemma_taking_keeps_mergeable(lists, source);
        assert forall|other: int| 0 <= other < count && !after.source_exhausted@[other] implies (
        #[trigger] after.sources@[other]).upcoming() is Some by {
            assert(before.sources@[other].upcoming() is Some);
        }
        assert forall|other: int| 0 <= other < count implies after.list_of(other)
            == #[trigger] taken[other] by {
            assert(lists[other] == before.list_of(other));
            if other == source {
                assert(lists[source].drop_first() =~= after.list_of(source));
            }
        }
        assert(Seq::new(count, |other: int| after.list_of(other)) =~= taken);
        assert forall|other: int, i: int|
            0 <= other < taken.len() && 0 <= i < taken[other].len() implies !after.seen@.contains(
            (#[trigger] taken[other][i]).id,
        ) by {
            let at = if other == source {
                i + 1
            } else {
                i
            };
            assert(taken[other][i] == lists[other][at]);
            assert(!before.seen@.contains(lists[other][at].id));
            if lists[other][at].id == lists[source][0].id {
                assert(other == source && at == 0);
            }
        }
        assert forall|other: int| 0 <= other < taken.len() implies follows_point(
            #[trigger] after.previous@[other],
            after.behind_head(other),
        ) by {
            assert(follows_point(before.previous@[other], before.behind_head(other)));
        }
        assert forall|other: int| 0 <= other < taken.len() implies (after.heads@[other] is Some
            || #[trigger] after.source_exhausted@[other] || after.refill_source == Some(
            other as usize,
        )) by {
            let _ = before.heads@[other];
        }
    }

    /// A merge over sources that yield one point at a time.
    pub fn new(sources: Vec<S>) -> (result: OperationResult<KWayExactScoreStream<S, B>>)
        ensures
            sources@.len() == 0 ==> result == refused::<KWayExactScoreStream<S, B>>(
                Fault::NoScoreSources,
            ),
            sources@.len() > 0 ==> (result matches Ok(stream) ==> stream.wf() && stream.is_fresh()),
            sources@.len() > 0 ==> primes(point_sources::<S, B>(sources@), 1, result),
            sources@.len() > 0 ==> forall|lists: Seq<Seq<ExactScoredIdentity>>|
                mergeable(lists) && #[trigger] score_streams_yield(sources@, lists) ==> {
                    &&& result matches Ok(stream)
                    &&& stream.merges(lists)
                },
    {
        let ghost given = sources@;
        let mut waiting = sources;
        let mut inputs: Vec<ExactScoreSource<S, B>> = Vec::new();
        let ghost expected = Seq::new(
            given.len(),
            |i: int| ExactScoreSource::<S, B>::Point(given[i]),
        );
        assert(given.skip(0) =~= given);
        while waiting.len() > 0
            invariant
                inputs@.len() + waiting@.len() == given.len(),
                waiting@ == given.skip(inputs@.len() as int),
                expected == Seq::new(
                    given.len(),
                    |i: int| ExactScoreSource::<S, B>::Point(given[i]),
                ),
                inputs@ =~= expected.take(inputs@.len() as int),
            decreases waiting@.len(),
        {
            let ghost before = waiting@;
            let stream = waiting.remove(0);
            inputs.push(ExactScoreSource::Point(stream));
            assert(before.remove(0) =~= given.skip(inputs@.len() as int));
        }
        assert(inputs@ =~= expected);
        let result = Self::new_with_sources(inputs, 1);
        proof {
            assert(expected =~= point_sources::<S, B>(given));
            assert forall|lists: Seq<Seq<ExactScoredIdentity>>|
                mergeable(lists) && #[trigger] score_streams_yield(given, lists) implies
                sources_yield(expected, lists) by {
                assert forall|source: int| 0 <= source < lists.len() implies (
                #[trigger] expected[source]).upcoming() == Some(lists[source]) by {
                    assert(given[source].rest() == Some(lists[source]));
                }
            }
        }
        result
    }

    /// A merge over sources that yield batches.
    pub fn new_batched(sources: Vec<B>, source_refill_batch_size: usize) -> (result:
        OperationResult<KWayExactScoreStream<S, B>>)
        ensures
            sources@.len() == 0 ==> result == refused::<KWayExactScoreStream<S, B>>(
                Fault::NoScoreSources,
            ),
            sources@.len() > 0 && source_refill_batch_size == 0 ==> result == refused::<
                KWayExactScoreStream<S, B>,
            >(Fault::ZeroRefillBatch),
            sources@.len() > 0 && source_refill_batch_size > 0 ==> {
                &&& result matches Ok(stream) ==> stream.wf() && stream.is_fresh()
                &&& exists|inputs: Seq<ExactScoreSource<S, B>>|
                    are_fresh_batches(inputs, sources@) && #[trigger] primes(
                        inputs,
                        source_refill_batch_size,
                        result,
                    )
                &&& forall|lists: Seq<Seq<ExactScoredIdentity>>|
                    mergeable(lists) && #[trigger] score_batches_yield(sources@, lists) ==> {
                        &&& result matches Ok(stream)
                        &&& stream.merges(lists)
                    }
            },
    {
        let ghost given = sources@;
        let mut waiting = sources;
        let mut inputs: Vec<ExactScoreSource<S, B>> = Vec::new();
        assert(given.skip(0) =~= given);
        while waiting.len() > 0
            invariant
                inputs@.len() + waiting@.len() == given.len(),
                waiting@ == given.skip(inputs@.len() as int),
                forall|i: int|
                    0 <= i < inputs@.len() ==> is_fresh_batch(#[trigger] inputs@[i], given[i]),
            decreases waiting@.len(),
        {
            let ghost before = waiting@;
            let pull = waiting.remove(0);
            inputs.push(
                ExactScoreSource::Batch { pull, buffer: VecDeque::new(), exhausted: false },
            );
            assert(before.remove(0) =~= given.skip(inputs@.len() as int));
        }
        let ghost all = inputs@;
        let result = Self::new_with_sources(inputs, source_refill_batch_size);
        proof {
            assert(are_fresh_batches(all, given));
            assert forall|lists: Seq<Seq<ExactScoredIdentity>>|
                mergeable(lists) && #[trigger] score_batches_yield(given, lists) implies
                sources_yield(all, lists) by {
                assert forall|source: int| 0 <= source < lists.len() implies (
                #[trigger] all[source]).upcoming() == Some(lists[source]) by {
                    assert(given[source].rest() == Some(lists[source]));
                    assert(is_fresh_batch(all[source], given[source]));
                    assert(Seq::<ExactScoredIdentity>::empty() + lists[source] =~= lists[source]);
                }
            }
        }
        result
    }

    /// A merge over any sources; every source is primed.
    pub fn new_with_sources(
        sources: Vec<ExactScoreSource<S, B>>,
        source_refill_batch_size: usize,
    ) -> (result: OperationResult<KWayExactScoreStream<S, B>>)
        ensures
            sources@.len() == 0 ==> result == refused::<KWayExactScoreStream<S, B>>(
                Fault::NoScoreSources,
            ),
            sources@.len() > 0 && source_refill_batch_size == 0 ==> result == refused::<
                KWayExactScoreStream<S, B>,
            >(Fault::ZeroRefillBatch),
            sources@.len() > 0 && source_refill_batch_size > 0 ==> {
                &&& result matches Ok(stream) ==> stream.wf() && stream.is_fresh()
                &&& primes(sources@, source_refill_batch_size, result)
                &&& forall|lists: Seq<Seq<ExactScoredIdentity>>|
                    mergeable(lists) && #[trigger] sources_yield(sources@, lists) ==> {
                        &&& result matches Ok(stream)
                        &&& stream.merges(lists)
                    }
            },
    {
        if sources.len() == 0 {
            return refuse(Fault::NoScoreSources);
        }
        if source_refill_batch_size == 0 {
            return refuse(Fault::ZeroRefillBatch);
        }
        let count: usize = sources.len();
        let ghost given = sources@;
        let mut stream = KWayExactScoreStream {
            sources,
            source_refill_batch_size,
            pending: RankQueue::new(),
            previous: repeated(None, count),
            refill_source: None,
            seen: IdSet::new(),
            source_pulls: repeated(0, count),
            source_exhausted: repeated(false, count),
            points_emitted: 0,
            terminal_error: None,
            error_delivered: false,
            heads: Ghost(Seq::new(count as nat, |source: int| None)),
            last: Ghost(None),
        };
        let mut source: usize = 0;
        while source < count
            invariant
                stream.formed(),
                count == given.len(),
                count > 0,
                source_refill_batch_size > 0,
                sources@ == given,
                count == stream.sources@.len(),
                source <= count,
                stream.refill_source is None,
                stream.terminal_error is None,
                !stream.error_delivered,
                stream.points_emitted == 0,
                stream.seen@ == Set::<ExtendedPointId>::empty(),
                stream.last@ is None,
                forall|other: int|
                    0 <= other < source ==> {
                        &&& (#[trigger] stream.heads@[other] is Some
                            || stream.source_exhausted@[other])
                        &&& stream.heads@[other] is Some ==> stream.previous@[other]
                            == stream.heads@[other] && finite_key(stream.heads@[other]->0.score)
                    },
                forall|other: int|
                    source <= other < count ==> {
                        &&& #[trigger] stream.heads@[other] is None
                        &&& stream.sources@[other] == given[other]
                        &&& !stream.source_exhausted@[other]
                        &&& stream.previous@[other] is None
                    },
                forall|other: int|
                    0 <= other < source ==> is_primed(
                        (#[trigger] given[other]).course(),
                        stream.head(other),
                        stream.course(other),
                    ),
                stream.source_refill_batch_size == source_refill_batch_size,
                forall|other: int|
                    0 <= other < source ==> starts(
                        #[trigger] given[other],
                        other,
                        source_refill_batch_size,
                        stream,
                    ),
                forall|other: int|
                    source <= other < count ==> #[trigger] stream.source_pulls@[other] == 0,
                forall|lists: Seq<Seq<ExactScoredIdentity>>|
                    mergeable(lists) && #[trigger] sources_yield(given, lists) ==> stream.primed(
                        lists,
                        source as int,
                    ),
            decreases count - source,
        {
            let ghost before = stream;
            assert(stream.heads@[source as int] is None);
            let refilled = stream.refill(source);
            proof {
                assert(Self::keeps_others(&before, &stream, source));
                assert forall|lists: Seq<Seq<ExactScoredIdentity>>|
                    mergeable(lists) && #[trigger] sources_yield(given, lists) implies refilled
                    is Ok && stream.primed(lists, source + 1) by {
                    Self::lemma_primes_one(&before, &stream, lists, source, refilled);
                }
            }
            assert(before.course(source as int) == given[source as int].course());
            let ghost (fetched, pulled) = choose|
                fetched: OperationResult<ExactScoreBatch>,
                pulled: OperationResult<Option<ExactScoredIdentity>>,
            | #[trigger]
                pulls_once(before, source as int, fetched, pulled, refilled, stream);
            proof {
                reveal(pulls_once);
                assert(before.source(source as int) == given[source as int]);
                assert(replies_first(
                    given[source as int],
                    source as int,
                    source_refill_batch_size,
                    pulled,
                    stream.source(source as int),
                ));
            }
            match refilled {
                Ok(_) => {},
                Err(error) => {
                    proof {
                        assert(fails_first(
                            given[source as int],
                            source as int,
                            source_refill_batch_size,
                            error,
                        ));
                        assert forall|other: int| 0 <= other < source implies starts_well(
                            #[trigger] given[other],
                            other,
                            source_refill_batch_size,
                        ) by {
                            assert(starts(given[other], other, source_refill_batch_size, before));
                        }
                    }
                    return Err(error);
                },
            }
            proof {
                assert forall|other: int| 0 <= other < source + 1 implies starts(
                    #[trigger] given[other],
                    other,
                    source_refill_batch_size,
                    stream,
                ) by {
                    if other < source {
                        assert(starts(given[other], other, source_refill_batch_size, before));
                        let held = choose|held: OperationResult<Option<ExactScoredIdentity>>|
                            {
                                &&& #[trigger] replies_first(
                                    given[other],
                                    other,
                                    source_refill_batch_size,
                                    held,
                                    before.source(other),
                                )
                                &&& pull_error(other, None, held) is None
                                &&& before.head(other) == held->Ok_0
                                &&& before.previous(other) == held->Ok_0
                                &&& before.pulls()[other] == (if held->Ok_0 is Some {
                                    1usize
                                } else {
                                    0usize
                                })
                                &&& before.exhausted()[other] == (held->Ok_0 is None)
                            };
                        let _ = stream.head(other);
                        assert(replies_first(
                            given[other],
                            other,
                            source_refill_batch_size,
                            held,
                            stream.source(other),
                        ));
                    } else {
                        assert(before.source_pulls@[other] == 0);
                    }
                }
                assert forall|other: int| source + 1 <= other < count implies
                    #[trigger] stream.source_pulls@[other] == 0 by {
                    assert(before.source_pulls@[other] == 0);
                }
                assert forall|other: int| 0 <= other < source + 1 implies is_primed(
                    (#[trigger] given[other]).course(),
                    stream.head(other),
                    stream.course(other),
                ) by {
                    if other < source {
                        let _ = stream.heads@[other];
                    }
                }
                assert forall|other: int| source + 1 <= other < count implies {
                    &&& #[trigger] stream.heads@[other] is None
                    &&& stream.sources@[other] == given[other]
                    &&& !stream.source_exhausted@[other]
                    &&& stream.previous@[other] is None
                } by {
                    assert(before.heads@[other] is None);
                }
                assert forall|other: int| 0 <= other < source + 1 implies {
                    &&& (#[trigger] stream.heads@[other] is Some
                        || stream.source_exhausted@[other])
                    &&& stream.heads@[other] is Some ==> stream.previous@[other]
                        == stream.heads@[other] && finite_key(stream.heads@[other]->0.score)
                } by {
                    if other < source {
                        let _ = before.heads@[other];
                    }
                }
            }
            source += 1;
        }
        proof {
            assert forall|lists: Seq<Seq<ExactScoredIdentity>>|
                mergeable(lists) && #[trigger] sources_yield(given, lists) implies stream.merges(
                lists,
            ) by {
                Self::lemma_primed_merges(&stream, lists);
            }
        }
        Ok(stream)
    }

    /// Whether the leading sources hold their first point.
    closed spec fn primed(&self, lists: Seq<Seq<ExactScoredIdentity>>, upto: int) -> bool {
        &&& lists.len() == self.sources@.len()
        &&& forall|source: int|
            0 <= source < upto ==> if (#[trigger] lists[source]).len() == 0 {
                &&& self.source_exhausted@[source]
                &&& self.heads@[source] is None
            } else {
                &&& !self.source_exhausted@[source]
                &&& self.heads@[source] == Some(lists[source][0])
                &&& self.previous@[source] == Some(lists[source][0])
                &&& self.sources@[source].upcoming() == Some(lists[source].drop_first())
            }
        &&& forall|source: int|
            upto <= source < lists.len() ==> (#[trigger] self.sources@[source]).upcoming() == Some(
                lists[source],
            )
    }

    /// Whether two states agree on all sources but one.
    closed spec fn keeps_others(
        before: &KWayExactScoreStream<S, B>,
        after: &KWayExactScoreStream<S, B>,
        source: usize,
    ) -> bool {
        forall|other: int|
            0 <= other < before.sources@.len() && other != source ==> {
                &&& #[trigger] after.heads@[other] == before.heads@[other]
                &&& after.sources@[other] == before.sources@[other]
                &&& after.source_exhausted@[other] == before.source_exhausted@[other]
                &&& after.previous@[other] == before.previous@[other]
            }
    }

    proof fn lemma_primes_one(
        before: &KWayExactScoreStream<S, B>,
        after: &KWayExactScoreStream<S, B>,
        lists: Seq<Seq<ExactScoredIdentity>>,
        source: usize,
        refilled: OperationResult<()>,
    )
        requires
            before.formed(),
            mergeable(lists),
            before.primed(lists, source as int),
            source < before.sources@.len(),
            before.seen@ == Set::<ExtendedPointId>::empty(),
            !before.source_exhausted@[source as int],
            before.previous@[source as int] is None,
            after.sources@.len() == before.sources@.len(),
            Self::keeps_others(before, after, source),
            before.sources@[source as int].upcoming() matches Some(list) ==> (is_proper_list(
                list,
                before.seen@,
            ) && follows_point(before.previous@[source as int], list) ==> {
                &&& refilled == Ok::<(), OperationError>(())
                &&& if list.len() == 0 {
                    &&& after.source_exhausted@[source as int]
                    &&& after.heads@[source as int] is None
                } else {
                    &&& !after.source_exhausted@[source as int]
                    &&& after.heads@[source as int] == Some(list[0])
                    &&& after.previous@[source as int] == Some(list[0])
                    &&& after.sources@[source as int].upcoming() == Some(list.drop_first())
                }
            }),
        ensures
            refilled is Ok,
            after.primed(lists, source + 1),
    {
        let list = lists[source as int];
        assert(before.sources@[source as int].upcoming() == Some(list));
        assert(is_proper_list(list, before.seen@)) by {
            assert forall|i: int, j: int| 0 <= i < j < list.len() implies point_before(
                #[trigger] list[i],
                #[trigger] list[j],
            ) by {
                assert(point_before(lists[source as int][i], lists[source as int][j]));
            }
            assert forall|i: int| 0 <= i < list.len() implies finite_key(
                (#[trigger] list[i]).score,
            ) by {
                assert(finite_key(lists[source as int][i].score));
            }
            assert forall|i: int, j: int|
                0 <= i < list.len() && 0 <= j < list.len() && (#[trigger] list[i]).id == (
                #[trigger] list[j]).id implies i == j by {
                assert(lists[source as int][i].id == lists[source as int][j].id);
            }
        }
        assert forall|other: int| 0 <= other < source + 1 implies if (
        #[trigger] lists[other]).len() == 0 {
            &&& after.source_exhausted@[other]
            &&& after.heads@[other] is None
        } else {
            &&& !after.source_exhausted@[other]
            &&& after.heads@[other] == Some(lists[other][0])
            &&& after.previous@[other] == Some(lists[other][0])
            &&& after.sources@[other].upcoming() == Some(lists[other].drop_first())
        } by {
            if other < source {
                let _ = after.heads@[other];
            }
        }
        assert forall|other: int| source + 1 <= other < lists.len() implies (
        #[trigger] after.sources@[other]).upcoming() == Some(lists[other]) by {
            let _ = after.heads@[other];
            assert(before.sources@[other].upcoming() == Some(lists[other]));
        }
    }

    proof fn lemma_primed_merges(
        stream: &KWayExactScoreStream<S, B>,
        lists: Seq<Seq<ExactScoredIdentity>>,
    )
        requires
            stream.formed(),
            mergeable(lists),
            stream.primed(lists, stream.sources@.len() as int),
            stream.seen@ == Set::<ExtendedPointId>::empty(),
            stream.terminal_error is None,
        ensures
            stream.merges(lists),
    {
        let count = stream.sources@.len();
        assert forall|other: int| 0 <= other < count && !stream.source_exhausted@[other] implies (
        #[trigger] stream.sources@[other]).upcoming() is Some by {
            let _ = lists[other];
        }
        assert forall|other: int| 0 <= other < count implies stream.list_of(other)
            == #[trigger] lists[other] by {
            if lists[other].len() > 0 {
                assert(seq![lists[other][0]] + lists[other].drop_first() =~= lists[other]);
            } else {
                assert(lists[other] =~= Seq::<ExactScoredIdentity>::empty());
            }
        }
        assert(Seq::new(count, |other: int| stream.list_of(other)) =~= lists);
        assert forall|other: int| 0 <= other < lists.len() implies follows_point(
            #[trigger] stream.previous@[other],
            stream.behind_head(other),
        ) by {
            let list = lists[other];
            if list.len() > 0 {
                assert forall|i: int| 0 <= i < list.drop_first().len() implies point_before(
                    list[0],
                    #[trigger] list.drop_first()[i],
                ) by {
                    assert(point_before(lists[other][0], lists[other][i + 1]));
                }
            }
        }
        assert forall|other: int| 0 <= other < lists.len() implies (stream.heads@[other] is Some
            || #[trigger] stream.source_exhausted@[other] || stream.refill_source == Some(
            other as usize,
        )) by {
            let _ = lists[other];
        }
    }

    /// Ends the merge with a failure.
    fn fail(&mut self, error: OperationError)
        requires
            old(self).formed(),
        ensures
            final(self).wf(),
            final(self).has_failed(),
            final(self).failure() == error,
            final(self).failure_was_delivered() == old(self).failure_was_delivered(),
            final(self).emitted() == old(self).emitted(),
            final(self).emitted_ids() == old(self).emitted_ids(),
            final(self).exhausted() == old(self).exhausted(),
            final(self).pulls() == old(self).pulls(),
            final(self).source_count() == old(self).source_count(),
            forall|source: int| #[trigger] final(self).source(source) == old(self).source(source),
    {
        self.terminal_error = Some(error);
        self.pending = RankQueue::new();
        self.refill_source = None;
        self.heads = Ghost(Seq::new(self.heads@.len(), |source: int| None));
    }

    /// The next point; `None` at the end, or once a failure was handed out.
    pub fn next(&mut self) -> (result: Option<OperationResult<ExactScoredIdentity>>)
        requires
            old(self).wf(),
        ensures
            final(self).wf(),
            old(self).has_failed() && old(self).failure_was_delivered() ==> {
                &&& result is None
                &&& final(self).has_failed()
                &&& final(self).failure_was_delivered()
            },
            old(self).has_failed() && !old(self).failure_was_delivered() ==> {
                &&& result matches Some(Err(error))
                &&& same_error(old(self).failure(), error)
                &&& final(self).has_failed()
                &&& final(self).failure_was_delivered()
            },
            !old(self).has_failed() ==> steps_once(
                *old(self),
                match result {
                    Some(Ok(point)) => Ok(Some(point)),
                    Some(Err(error)) => Err(error),
                    None => Ok(None),
                },
                *final(self),
            ),
            !old(self).has_failed() ==> {
                &&& result matches Some(Err(error)) ==> {
                    &&& final(self).has_failed()
                    &&& same_error(error, final(self).failure())
                    &&& final(self).failure_was_delivered()
                }
                &&& !(result matches Some(Err(_))) ==> {
                    &&& !final(self).has_failed()
                    &&& emits(
                        *old(self),
                        (if result is Some {
                            Some(result->0->Ok_0)
                        } else {
                            None
                        }),
                        *final(self),
                    )
                }
            },
            !old(self).has_failed() && knows_pull(*old(self)) ==> is_expected(
                *old(self),
                match result {
                    Some(Ok(point)) => Ok(Some(point)),
                    Some(Err(error)) => Err(error),
                    None => Ok(None),
                },
            ),
            final(self).emitted() == (if result is Some && result->0 is Ok {
                old(self).emitted().saturating_add(1)
            } else {
                old(self).emitted()
            }),
            forall|lists: Seq<Seq<ExactScoredIdentity>>| #[trigger]
                old(self).merges(lists) ==> if all_empty(lists) {
                    &&& result is None
                    &&& final(self).merges(lists)
                } else {
                    exists|list: int|
                        {
                            &&& #[trigger] leads_all(lists, list)
                            &&& result == Some(
                                Ok::<ExactScoredIdentity, OperationError>(lists[list][0]),
                            )
                            &&& final(self).merges(taken_from(lists, list))
                        }
                },
    {
        let known = match &self.terminal_error {
            Some(error) => Some(error.again()),
            None => None,
        };
        match known {
            Some(error) => {
                if self.error_delivered {
                    return None;
                }
                self.error_delivered = true;
                return Some(Err(error));
            },
            None => {},
        }
        let ghost before = *self;
        let stepped = self.next_inner();
        proof {
            if knows_pull(before) {
                lemma_step_is_expected(before, stepped, *self);
            }
        }
        match stepped {
            Ok(Some(point)) => Some(Ok(point)),
            Ok(None) => None,
            Err(error) => {
                let ghost failed = *self;
                let kept = error.again();
                self.fail(kept);
                self.error_delivered = true;
                proof {
                    lemma_failed_step(before, error, failed, *self);
                }
                Some(Err(error))
            },
        }
    }

    /// Pulls one contiguous batch of ranks of the channel. A failure hands out no
    /// identities; it is final, and later calls return it again.
    pub fn next_rank_batch(&mut self, max_results: usize) -> (result: OperationResult<
        ChannelRankBatch,
    >)
        requires
            old(self).wf(),
        ensures
            final(self).wf(),
            max_results == 0 ==> {
                &&& result == refused::<ChannelRankBatch>(Fault::ZeroMergeBatch)
                &&& *final(self) == *old(self)
            },
            max_results > 0 && old(self).has_failed() ==> {
                &&& result matches Err(error)
                &&& same_error(old(self).failure(), error)
                &&& *final(self) == *old(self)
            },
            max_results > 0 && !old(self).has_failed() ==> match result {
                Ok(batch) => {
                    &&& batch.start_rank == old(self).emitted()
                    &&& final(self).emitted() == counted_on(
                        old(self).emitted(),
                        batch.point_ids@.len(),
                    )
                    &&& batch.point_ids@.len() <= max_results
                    &&& batch.exhausted <==> batch.point_ids@.len() < max_results
                    &&& batch.exhausted ==> forall|source: int|
                        0 <= source < final(self).exhausted().len()
                            ==> #[trigger] final(self).exhausted()[source]
                    &&& batch.point_ids@.no_duplicates()
                    &&& forall|i: int|
                        0 <= i < batch.point_ids@.len() ==> !old(self).emitted_ids().contains(
                            #[trigger] batch.point_ids@[i],
                        )
                    &&& final(self).emitted_ids() =~= old(self).emitted_ids().union(
                        batch.point_ids@.to_set(),
                    )
                    &&& !final(self).has_failed()
                },
                Err(error) => final(self).has_failed() && same_error(
                    error,
                    final(self).failure(),
                ),
            },
            forall|source: int|
                0 <= source < old(self).source_count() && #[trigger] old(self).is_failing(source)
                    ==> !final(self).exhausted()[source] || old(self).has_failed(),
            max_results > 0 && !old(self).has_failed() ==> exists|
                points: Seq<ExactScoredIdentity>,
                last: Self,
            |
                {
                    &&& #[trigger] merges_on(*old(self), points, last)
                    &&& match result {
                        Ok(batch) => {
                            &&& batch.point_ids@ == ids_of_points(points)
                            &&& if batch.exhausted {
                                &&& steps_once(last, Ok(None), *final(self))
                                &&& knows_pull(last) ==> is_expected(last, Ok(None))
                            } else {
                                last == *final(self)
                            }
                        },
                        Err(error) => {
                            &&& points.len() < max_results
                            &&& ends_with(last, error, final(self).exhausted())
                            &&& knows_pull(last) ==> is_expected(last, Err(error))
                        },
                    }
                },
            max_results > 0 ==> forall|lists: Seq<Seq<ExactScoredIdentity>>| #[trigger]
                old(self).merges(lists) ==> {
                    &&& result matches Ok(batch)
                    &&& exists|left: Seq<Seq<ExactScoredIdentity>>|
                        {
                            &&& #[trigger] final(self).merges(left)
                            &&& merges_to(lists, batch.point_ids@, left)
                            &&& batch.exhausted ==> all_empty(left)
                        }
                },
    {
        if max_results == 0 {
            return refuse(Fault::ZeroMergeBatch);
        }
        match &self.terminal_error {
            Some(error) => {
                return Err(error.again());
            },
            None => {},
        }
        let start_rank: usize = self.points_emitted;
        let mut point_ids: Vec<ExtendedPointId> = Vec::new();
        let mut exhausted = false;
        let ghost mut points: Seq<ExactScoredIdentity> = Seq::empty();
        proof {
            assert(point_ids@ =~= ids_of_points(points));
            assert forall|lists: Seq<Seq<ExactScoredIdentity>>| #[trigger]
                old(self).merges(lists) implies exists|left: Seq<Seq<ExactScoredIdentity>>|
                {
                    &&& #[trigger] self.merges(left)
                    &&& merges_to(lists, point_ids@, left)
                    &&& exhausted ==> all_empty(left)
                } by {
                assert(self.merges(lists));
                assert(merges_to(lists, point_ids@, lists));
            }
        }
        while !exhausted && point_ids.len() < max_results
            invariant
                self.wf(),
                !old(self).has_failed(),
                max_results > 0,
                !self.has_failed(),
                start_rank == old(self).emitted(),
                self.emitted() == counted_on(old(self).emitted(), point_ids@.len()),
                self.source_count() == old(self).source_count(),
                point_ids@ == ids_of_points(points),
                !exhausted ==> merges_on(*old(self), points, *self),
                exhausted ==> exists|last: Self| #[trigger]
                    merges_on(*old(self), points, last) && steps_once(last, Ok(None), *self) && (
                    knows_pull(last) ==> is_expected(last, Ok(None))),
                forall|source: int|
                    0 <= source < old(self).source_count() && #[trigger] old(self).is_failing(
                        source,
                    ) ==> !self.exhausted()[source] && (!exhausted ==> self.is_failing(source)),
                point_ids@.len() <= max_results,
                exhausted ==> point_ids@.len() < max_results,
                exhausted ==> forall|source: int|
                    0 <= source < self.exhausted().len() ==> #[trigger] self.exhausted()[source],
                point_ids@.no_duplicates(),
                forall|i: int|
                    0 <= i < point_ids@.len() ==> !old(self).emitted_ids().contains(
                        #[trigger] point_ids@[i],
                    ),
                forall|id: ExtendedPointId| #[trigger]
                    self.emitted_ids().contains(id) <==> old(self).emitted_ids().contains(id)
                        || point_ids@.contains(id),
                forall|lists: Seq<Seq<ExactScoredIdentity>>| #[trigger]
                    old(self).merges(lists) ==> exists|left: Seq<Seq<ExactScoredIdentity>>|
                        {
                            &&& #[trigger] self.merges(left)
                            &&& merges_to(lists, point_ids@, left)
                            &&& exhausted ==> all_empty(left)
                        },
            decreases max_results - point_ids@.len(), (if exhausted { 0int } else { 1int }),
        {
            let ghost before = *self;
            let ghost listed = point_ids@;
            let stepped = self.next_inner();
            proof {
                if knows_pull(before) {
                    lemma_step_is_expected(before, stepped, *self);
                }
            }
            match stepped {
                Ok(Some(point)) => {
                    point_ids.push(point.id);
                    proof {
                        let longer = points.push(point);
                        assert(longer.drop_last() =~= points);
                        lemma_merges_one_more(*old(self), points, before, point, *self);
                        assert(ids_of_points(longer) =~= point_ids@);
                        assert forall|source: int|
                            0 <= source < old(self).source_count() && #[trigger] old(self).is_failing(source) implies !self.exhausted()[source]
                            && self.is_failing(source) by {
                            assert(before.is_failing(source));
                            let _ = self.exhausted()[source];
                            let chosen = choose|chosen: int| #[trigger]
                                chooses(before, chosen, point, *self);
                            let _ = self.head(source);
                        }
                        points = longer;
                        assert forall|id: ExtendedPointId| #[trigger]
                            self.emitted_ids().contains(id) <==> old(self).emitted_ids().contains(
                                id,
                            ) || point_ids@.contains(id) by {
                            if listed.contains(id) {
                                let i = choose|i: int| 0 <= i < listed.len() && listed[i] == id;
                                assert(point_ids@[i] == id);
                            }
                            if point_ids@.contains(id) && id != point.id {
                                let i = choose|i: int|
                                    0 <= i < point_ids@.len() && point_ids@[i] == id;
                                assert(listed[i] == id);
                            }
                            assert(point_ids@[listed.len() as int] == point.id);
                        }
                        assert(!before.emitted_ids().contains(point.id));
                        assert(!listed.contains(point.id));
                        assert forall|lists: Seq<Seq<ExactScoredIdentity>>| #[trigger]
                            old(self).merges(lists) implies exists|
                            left: Seq<Seq<ExactScoredIdentity>>,
                        |
                            {
                                &&& #[trigger] self.merges(left)
                                &&& merges_to(lists, point_ids@, left)
                                &&& exhausted ==> all_empty(left)
                            } by {
                            let held = choose|held: Seq<Seq<ExactScoredIdentity>>|
                                {
                                    &&& #[trigger] before.merges(held)
                                    &&& merges_to(lists, listed, held)
                                    &&& exhausted ==> all_empty(held)
                                };
                            assert(before.merges(held));
                            assert(merge_step(
                                held,
                                Ok::<Option<ExactScoredIdentity>, OperationError>(Some(point)),
                                *self,
                            ));
                            let list = choose|list: int|
                                {
                                    &&& #[trigger] leads_all(held, list)
                                    &&& Ok::<Option<ExactScoredIdentity>, OperationError>(
                                        Some(point),
                                    ) == Ok::<Option<ExactScoredIdentity>, OperationError>(
                                        Some(held[list][0]),
                                    )
                                    &&& self.merges(taken_from(held, list))
                                };
                            lemma_merges_on(lists, listed, held, list);
                            assert(point_ids@ =~= listed.push(held[list][0].id));
                            assert(self.merges(taken_from(held, list)));
                        }
                    }
                },
                Ok(None) => {
                    exhausted = true;
                    proof {
                        assert(merges_on(*old(self), points, before) && steps_once(
                            before,
                            Ok(None),
                            *self,
                        ));
                        assert forall|source: int|
                            0 <= source < old(self).source_count() && #[trigger] old(self).is_failing(source) implies !self.exhausted()[source] by {
                            assert(before.is_failing(source));
                        }
                        assert forall|lists: Seq<Seq<ExactScoredIdentity>>| #[trigger]
                            old(self).merges(lists) implies exists|
                            left: Seq<Seq<ExactScoredIdentity>>,
                        |
                            {
                                &&& #[trigger] self.merges(left)
                                &&& merges_to(lists, point_ids@, left)
                                &&& all_empty(left)
                            } by {
                            let held = choose|held: Seq<Seq<ExactScoredIdentity>>|
                                {
                                    &&& #[trigger] before.merges(held)
                                    &&& merges_to(lists, listed, held)
                                    &&& false ==> all_empty(held)
                                };
                            assert(before.merges(held));
                            assert(merge_step(
                                held,
                                Ok::<Option<ExactScoredIdentity>, OperationError>(None),
                                *self,
                            ));
                            assert(all_empty(held));
                            assert(self.merges(held));
                        }
                    }
                },
                Err(error) => {
                    proof {
                        assert forall|lists: Seq<Seq<ExactScoredIdentity>>| #[trigger]
                            old(self).merges(lists) implies false by {
                            let held = choose|held: Seq<Seq<ExactScoredIdentity>>|
                                {
                                    &&& #[trigger] before.merges(held)
                                    &&& merges_to(lists, listed, held)
                                    &&& false ==> all_empty(held)
                                };
                            assert(before.merges(held));
                        }
                    }
                    let ghost failed = *self;
                    let kept = error.again();
                    self.fail(kept);
                    proof {
                        assert(merges_on(*old(self), points, before) && ends_with(
                            before,
                            error,
                            failed.exhausted(),
                        ));
                        assert forall|source: int|
                            0 <= source < old(self).source_count() && #[trigger] old(self).is_failing(source) implies !self.exhausted()[source] by {
                            assert(before.is_failing(source));
                            let _ = failed.exhausted()[source];
                        }
                    }
                    return Err(error);
                },
            }
        }
        Ok(ChannelRankBatch { start_rank, point_ids, exhausted })
    }

    /// What the merge has done.
    pub fn telemetry(&self) -> (telemetry: ExactScoreMergeTelemetry)
        ensures
            telemetry.points_emitted == self.emitted(),
            telemetry.source_pulls@ == self.pulls(),
            telemetry.source_exhausted@ == self.exhausted(),
    {
        ExactScoreMergeTelemetry {
            source_pulls: crate::tables::copied(&self.source_pulls),
            source_exhausted: crate::tables::copied(&self.source_exhausted),
            points_emitted: self.points_emitted,
        }
    }

    /// How many points every source has yielded.
    pub closed spec fn pulls(&self) -> Seq<usize> {
        self.source_pulls@
    }

    /// Which sources have ended.
    pub closed spec fn exhausted(&self) -> Seq<bool> {
        self.source_exhausted@
    }

    /// Turns the merge into a stream of identities, for fusion. Only a merge of all
    /// visible sources of a channel may be turned into one.
    pub fn into_rank_stream(self) -> (stream: MergedRankStream<S, B>)
        requires
            self.wf(),
        ensures
            stream.merge() == self,
    {
        MergedRankStream { merge: self }
    }
}

/// What pulling a source does: its next point becomes its head, or it ends where it has
/// nothing left, and a failure is returned as it is. A source that fails has not ended.
pub open spec fn refills<S: ExactScoreStream, B: ExactScoreBatchStream>(
    before: KWayExactScoreStream<S, B>,
    source: int,
    result: OperationResult<()>,
    after: KWayExactScoreStream<S, B>,
) -> bool {
    &&& before.course(source) matches Some((points, failure)) ==> match result {
        Ok(_) => {
            &&& after.course(source) == Some(
                (
                    if points.len() > 0 {
                        points.drop_first()
                    } else {
                        points
                    },
                    failure,
                ),
            )
            &&& after.head(source) == (if points.len() > 0 {
                Some(points[0])
            } else {
                None
            })
            &&& points.len() == 0 ==> failure is None
        },
        Err(error) => points.len() > 0 || failure == Some(error),
    }
    &&& before.is_failing(source) ==> !after.exhausted()[source]
}

/// Why what a source has yielded is refused: the source has failed, the score is not finite,
/// or the point belongs before the previous one.
pub open spec fn pull_error(
    source: int,
    previous: Option<ExactScoredIdentity>,
    pulled: OperationResult<Option<ExactScoredIdentity>>,
) -> Option<OperationError> {
    match pulled {
        Err(error) => Some(error),
        Ok(None) => None,
        Ok(Some(point)) => if !finite_key(point.score) {
            Some(
                OperationError::ValidationError(
                    Fault::NonFiniteSourceScore { source: source as usize },
                ),
            )
        } else if previous is Some && point_before(point, previous->0) {
            Some(OperationError::ValidationError(Fault::SourceOrder { source: source as usize }))
        } else {
            None
        },
    }
}

/// The counts of pulls after a source has yielded a point.
pub open spec fn counts_pull(pulls: Seq<usize>, source: int) -> Seq<usize> {
    pulls.update(source, pulls[source].saturating_add(1))
}

/// What pulling a source once does, where it yields `pulled` and `fetched` is the batch that
/// it pulls if it has to: what is refused changes nothing of the merge, a point becomes the
/// head of the source and is counted, and the end is noted.
#[verifier::opaque]
pub open spec fn pulls_once<S: ExactScoreStream, B: ExactScoreBatchStream>(
    before: KWayExactScoreStream<S, B>,
    source: int,
    fetched: OperationResult<ExactScoreBatch>,
    pulled: OperationResult<Option<ExactScoredIdentity>>,
    result: OperationResult<()>,
    after: KWayExactScoreStream<S, B>,
) -> bool {
    &&& after.source_count() == before.source_count()
    &&& after.refill_size() == before.refill_size()
    &&& after.emitted_ids() == before.emitted_ids()
    &&& after.emitted() == before.emitted()
    &&& after.last() == before.last()
    &&& after.refilling() is None
    &&& forall|other: int|
        0 <= other < before.source_count() && other != source ==> {
            &&& #[trigger] after.head(other) == before.head(other)
            &&& after.source(other) == before.source(other)
            &&& after.previous(other) == before.previous(other)
        }
    &&& if before.exhausted()[source] {
        &&& pulled == Ok::<Option<ExactScoredIdentity>, OperationError>(None)
        &&& after.source(source) == before.source(source)
    } else {
        source_replies(
            before.source(source),
            source as usize,
            before.refill_size(),
            before.previous(source),
            before.emitted_ids(),
            fetched,
            pulled,
            after.source(source),
        )
    }
    &&& match pull_error(source, before.previous(source), pulled) {
        Some(error) => {
            &&& result == Err::<(), OperationError>(error)
            &&& after.head(source) == before.head(source)
            &&& after.previous(source) == before.previous(source)
            &&& after.pulls() == before.pulls()
            &&& after.exhausted() == before.exhausted()
        },
        None => {
            &&& result == Ok::<(), OperationError>(())
            &&& match pulled->Ok_0 {
                Some(point) => {
                    &&& after.head(source) == Some(point)
                    &&& after.previous(source) == Some(point)
                    &&& after.pulls() == counts_pull(before.pulls(), source)
                    &&& after.exhausted() == before.exhausted()
                },
                None => {
                    &&& after.head(source) == before.head(source)
                    &&& after.previous(source) == before.previous(source)
                    &&& after.pulls() == before.pulls()
                    &&& after.exhausted() == before.exhausted().update(source, true)
                },
            }
        },
    }
}

/// Whether a source is pulled once.
pub open spec fn refills_exactly<S: ExactScoreStream, B: ExactScoreBatchStream>(
    before: KWayExactScoreStream<S, B>,
    source: int,
    result: OperationResult<()>,
    after: KWayExactScoreStream<S, B>,
) -> bool {
    exists|
        fetched: OperationResult<ExactScoreBatch>,
        pulled: OperationResult<Option<ExactScoredIdentity>>,
    | #[trigger]
        pulls_once(before, source, fetched, pulled, result, after)
}

/// What is done before a point is chosen: the source of the last point is pulled.
pub open spec fn readies<S: ExactScoreStream, B: ExactScoreBatchStream>(
    before: KWayExactScoreStream<S, B>,
    result: OperationResult<()>,
    after: KWayExactScoreStream<S, B>,
) -> bool {
    match before.refilling() {
        Some(source) => refills_exactly(before, source as int, result, after),
        None => result == Ok::<(), OperationError>(()) && after == before,
    }
}

/// Whether the head of a source leaves before all others: the highest score first, then the
/// smallest identity, then the first source.
pub open spec fn leads_heads<S: ExactScoreStream, B: ExactScoreBatchStream>(
    ready: KWayExactScoreStream<S, B>,
    source: int,
) -> bool {
    &&& 0 <= source < ready.source_count()
    &&& ready.head(source) matches Some(point)
    &&& forall|other: int|
        0 <= other < ready.source_count() && other != source ==> (
        #[trigger] ready.head(other) matches Some(rival) ==> head_entry(point, source).precedes(
            head_entry(rival, other),
        ))
}

/// Whether no source has a head.
pub open spec fn has_no_head<S: ExactScoreStream, B: ExactScoreBatchStream>(
    ready: KWayExactScoreStream<S, B>,
) -> bool {
    forall|source: int|
        0 <= source < ready.source_count() ==> #[trigger] ready.head(source) is None
}

/// What choosing the next point does: the leading head is emitted, or refused where its
/// identity was emitted before; without a head the merge is at its end.
#[verifier::opaque]
pub open spec fn picks<S: ExactScoreStream, B: ExactScoreBatchStream>(
    ready: KWayExactScoreStream<S, B>,
    result: OperationResult<Option<ExactScoredIdentity>>,
    after: KWayExactScoreStream<S, B>,
) -> bool {
    &&& keeps_figures(ready, after)
    &&& if has_no_head(ready) {
        &&& result == Ok::<Option<ExactScoredIdentity>, OperationError>(None)
        &&& after == ready
    } else {
        exists|source: int|
            {
                &&& #[trigger] leads_heads(ready, source)
                &&& if ready.emitted_ids().contains(ready.head(source)->0.id) {
                    result == refused::<Option<ExactScoredIdentity>>(
                        Fault::RepeatedIdentity { id: ready.head(source)->0.id },
                    )
                } else {
                    &&& result == Ok::<Option<ExactScoredIdentity>, OperationError>(
                        ready.head(source),
                    )
                    &&& after.refilling() == Some(source as usize)
                    &&& after.emitted_ids() == ready.emitted_ids().insert(
                        ready.head(source)->0.id,
                    )
                    &&& after.last() == ready.head(source)
                    &&& after.refill_size() == ready.refill_size()
                    &&& forall|other: int|
                        0 <= other < ready.source_count() ==> {
                            &&& #[trigger] after.head(other) == (if other == source {
                                None
                            } else {
                                ready.head(other)
                            })
                            &&& after.source(other) == ready.source(other)
                            &&& after.previous(other) == ready.previous(other)
                        }
                }
            }
    }
}

/// Whether two states have the same counts of pulls and the same sources that have ended.
pub open spec fn keeps_figures<S: ExactScoreStream, B: ExactScoreBatchStream>(
    before: KWayExactScoreStream<S, B>,
    after: KWayExactScoreStream<S, B>,
) -> bool {
    &&& after.source_count() == before.source_count()
    &&& after.pulls() == before.pulls()
    &&& after.exhausted() == before.exhausted()
}

/// What one step of a merge does: the source of the last point is pulled, and unless that
/// fails the next point is chosen.
pub open spec fn steps_exactly<S: ExactScoreStream, B: ExactScoreBatchStream>(
    before: KWayExactScoreStream<S, B>,
    result: OperationResult<Option<ExactScoredIdentity>>,
    after: KWayExactScoreStream<S, B>,
) -> bool {
    exists|refilled: OperationResult<()>, ready: KWayExactScoreStream<S, B>|
        {
            &&& #[trigger] readies(before, refilled, ready)
            &&& match refilled {
                Err(error) => {
                    &&& result == Err::<Option<ExactScoredIdentity>, OperationError>(error)
                    &&& keeps_figures(ready, after)
                },
                Ok(_) => picks(ready, result, after),
            }
        }
}

/// Whether it is known what the source yields that is pulled next.
pub open spec fn knows_pull<S: ExactScoreStream, B: ExactScoreBatchStream>(
    before: KWayExactScoreStream<S, B>,
) -> bool {
    before.refilling() matches Some(source) ==> before.course(source as int) is Some
}

/// What the source that is pulled next yields.
pub open spec fn expected_pull<S: ExactScoreStream, B: ExactScoreBatchStream>(
    before: KWayExactScoreStream<S, B>,
) -> OperationResult<Option<ExactScoredIdentity>> {
    match before.refilling() {
        None => Ok(None),
        Some(source) => {
            let (points, failure) = before.course(source as int)->0;
            if points.len() > 0 {
                Ok(Some(points[0]))
            } else {
                match failure {
                    Some(error) => Err(error),
                    None => Ok(None),
                }
            }
        },
    }
}

/// The point of a source that waits when the next point is chosen.
pub open spec fn expected_head<S: ExactScoreStream, B: ExactScoreBatchStream>(
    before: KWayExactScoreStream<S, B>,
    source: int,
) -> Option<ExactScoredIdentity> {
    if before.refilling() == Some(source as usize) {
        match expected_pull(before) {
            Ok(head) => head,
            Err(_) => None,
        }
    } else {
        before.head(source)
    }
}

/// Whether the point of a source leaves before all others when the next point is chosen.
pub open spec fn leads_next<S: ExactScoreStream, B: ExactScoreBatchStream>(
    before: KWayExactScoreStream<S, B>,
    source: int,
) -> bool {
    &&& 0 <= source < before.source_count()
    &&& expected_head(before, source) matches Some(point)
    &&& forall|other: int|
        0 <= other < before.source_count() && other != source ==> (
        #[trigger] expected_head(before, other) matches Some(rival) ==> head_entry(
            point,
            source,
        ).precedes(head_entry(rival, other)))
}

/// Whether the point of a source leaves next and was emitted before.
pub open spec fn leads_again<S: ExactScoreStream, B: ExactScoreBatchStream>(
    before: KWayExactScoreStream<S, B>,
    source: int,
) -> bool {
    leads_next(before, source) && before.emitted_ids().contains(
        expected_head(before, source)->0.id,
    )
}

/// Why the merge cannot go on: the source that is pulled fails, its score is not finite, its
/// point belongs before the previous one or begins a batch though it was emitted, or the
/// leading point was emitted before.
pub open spec fn next_fault<S: ExactScoreStream, B: ExactScoreBatchStream>(
    before: KWayExactScoreStream<S, B>,
) -> Option<OperationError> {
    let refused = refill_fault(before);
    if refused is Some {
        refused
    } else if exists|source: int| #[trigger] leads_again(before, source) {
        let source = choose|source: int| #[trigger] leads_again(before, source);
        Some(
            OperationError::ValidationError(
                Fault::RepeatedIdentity { id: expected_head(before, source)->0.id },
            ),
        )
    } else {
        None
    }
}

/// Why what the source yields that is pulled next is refused.
pub open spec fn refill_fault<S: ExactScoreStream, B: ExactScoreBatchStream>(
    before: KWayExactScoreStream<S, B>,
) -> Option<OperationError> {
    match before.refilling() {
        None => None,
        Some(source) => {
            let pulled = expected_pull(before);
            let refused = pull_error(source as int, before.previous(source as int), pulled);
            if refused is Some {
                refused
            } else if pulled->Ok_0 is Some && fetches_batch(before)
                && before.emitted_ids().contains(pulled->Ok_0->0.id) {
                Some(
                    OperationError::ValidationError(
                        Fault::RepeatedInBatch { source, id: pulled->Ok_0->0.id },
                    ),
                )
            } else {
                None
            }
        },
    }
}

/// Whether a batch is pulled before the next point is chosen.
pub open spec fn fetches_batch<S: ExactScoreStream, B: ExactScoreBatchStream>(
    before: KWayExactScoreStream<S, B>,
) -> bool {
    before.refilling() matches Some(source) && !before.exhausted()[source as int]
        && before.source(source as int).pulls_batch()
}

/// Whether a batch that is pulled can be refused for a point behind its first: how many
/// points a batch has is up to its stream.
pub open spec fn breaks_batch<S: ExactScoreStream, B: ExactScoreBatchStream>(
    before: KWayExactScoreStream<S, B>,
    error: OperationError,
) -> bool {
    &&& fetches_batch(before)
    &&& before.refilling() matches Some(source)
    &&& before.course(source as int) matches Some((points, _))
    &&& exists|count: int|
        {
            &&& 1 < count <= points.len()
            &&& count <= before.refill_size()
            &&& #[trigger] batch_points_fault(
                points.take(count),
                source,
                before.previous(source as int),
                before.emitted_ids(),
            ) matches Some(fault)
            &&& error == OperationError::ValidationError(fault)
        }
}

/// Whether a step of a merge has the outcome that its sources lead to: the fault, where there
/// is one; the leading point, or the end where no point waits; or the fault of a batch behind
/// its first point.
pub open spec fn is_expected<S: ExactScoreStream, B: ExactScoreBatchStream>(
    before: KWayExactScoreStream<S, B>,
    result: OperationResult<Option<ExactScoredIdentity>>,
) -> bool {
    ||| result matches Err(error) && breaks_batch(before, error)
    ||| match next_fault(before) {
        Some(error) => result == Err::<Option<ExactScoredIdentity>, OperationError>(error),
        None => match result {
            Ok(Some(point)) => exists|source: int| #[trigger]
                leads_next(before, source) && expected_head(before, source) == Some(point),
            Ok(None) => forall|source: int|
                0 <= source < before.source_count() ==> #[trigger] expected_head(before, source)
                    is None,
            Err(_) => false,
        },
    }
}

/// The source that is pulled yields what is expected of it, or its batch is refused.
proof fn lemma_pull_is_expected<S: ExactScoreStream, B: ExactScoreBatchStream>(
    before: KWayExactScoreStream<S, B>,
    fetched: OperationResult<ExactScoreBatch>,
    pulled: OperationResult<Option<ExactScoredIdentity>>,
    result: OperationResult<()>,
    after: KWayExactScoreStream<S, B>,
)
    requires
        before.refilling() is Some,
        knows_pull(before),
        pulls_once(before, before.refilling()->0 as int, fetched, pulled, result, after),
    ensures
        match refill_fault(before) {
            Some(error) => result == Err::<(), OperationError>(error) || (result matches Err(other)
                && breaks_batch(before, other)),
            None => pulled == expected_pull(before) && result is Ok || (result matches Err(other)
                && breaks_batch(before, other)),
        },
{
    reveal(pulls_once);
    let source = before.refilling()->0;
    let at = before.source(source as int);
    let previous = before.previous(source as int);
    let seen = before.emitted_ids();
    let (points, failure) = before.course(source as int)->0;
    if !before.exhausted()[source as int] {
        match (at, after.source(source as int)) {
            (
                ExactScoreSource::Batch { pull, buffer, exhausted },
                ExactScoreSource::Batch { pull: later, buffer: left, exhausted: ended },
            ) => {
                if buffer@.len() > 0 {
                    assert(pulled == expected_pull(before));
                } else if exhausted {
                    assert(pulled == expected_pull(before));
                } else {
                    assert(fetches_batch(before));
                    let (list, _) = course_of(pull.rest(), pull.failing())->0;
                    assert(buffer@ + list =~= list);
                    if let Ok(batch) = fetched {
                        let count = batch.points@.len();
                        if count > 0 {
                            let first = points.take(1);
                            assert(first.drop_last() =~= Seq::<ExactScoredIdentity>::empty());
                            assert(first.last() == points[0]);
                            reveal_with_fuel(batch_points_fault, 2);
                            assert(!lists_id(first.drop_last(), points[0].id));
                            assert(batch.points@.take(1) =~= first);
                            if batch_points_fault(first, source, previous, seen) is Some {
                                lemma_points_fault_persists(
                                    batch.points@,
                                    source,
                                    previous,
                                    seen,
                                    1,
                                );
                            } else if count == 1 {
                                assert(batch.points@ =~= first);
                                assert(pulled == expected_pull(before));
                            } else {
                                assert(batch.points@ == points.take(count as int));
                                if let Some(fault) = batch_points_fault(
                                    points.take(count as int),
                                    source,
                                    previous,
                                    seen,
                                ) {
                                    assert(breaks_batch(
                                        before,
                                        OperationError::ValidationError(fault),
                                    ));
                                } else {
                                    assert(pulled == expected_pull(before));
                                }
                            }
                        } else {
                            assert(pulled == expected_pull(before));
                        }
                    } else {
                        assert(pulled == expected_pull(before));
                    }
                }
            },
            _ => {
                assert(pulled == expected_pull(before));
            },
        }
    } else {
        assert(pulled == expected_pull(before));
    }
}

/// A step of a merge has the outcome that its sources lead to.
pub proof fn lemma_step_is_expected<S: ExactScoreStream, B: ExactScoreBatchStream>(
    before: KWayExactScoreStream<S, B>,
    result: OperationResult<Option<ExactScoredIdentity>>,
    after: KWayExactScoreStream<S, B>,
)
    requires
        before.wf(),
        knows_pull(before),
        steps_exactly(before, result, after),
    ensures
        is_expected(before, result),
{
    let (refilled, ready) = choose|
        refilled: OperationResult<()>,
        ready: KWayExactScoreStream<S, B>,
    |
        {
            &&& #[trigger] readies(before, refilled, ready)
            &&& match refilled {
                Err(error) => {
                    &&& result == Err::<Option<ExactScoredIdentity>, OperationError>(error)
                    &&& keeps_figures(ready, after)
                },
                Ok(_) => picks(ready, result, after),
            }
        };
    if let Some(source) = before.refilling() {
        let (fetched, pulled) = choose|
            fetched: OperationResult<ExactScoreBatch>,
            pulled: OperationResult<Option<ExactScoredIdentity>>,
        | #[trigger]
            pulls_once(before, source as int, fetched, pulled, refilled, ready);
        lemma_pull_is_expected(before, fetched, pulled, refilled, ready);
        reveal(pulls_once);
    }
    if refilled is Ok {
        reveal(picks);
        assert forall|other: int| 0 <= other < before.source_count() implies
            #[trigger] expected_head(before, other) == ready.head(other) by {}
        assert forall|other: int| 0 <= other < before.source_count() implies
            #[trigger] leads_next(before, other) == leads_heads(ready, other) by {
            assert(expected_head(before, other) == ready.head(other));
            if leads_heads(ready, other) {
                assert forall|rival: int| 0 <= rival < before.source_count() && rival
                    != other implies (#[trigger] expected_head(before, rival) matches Some(
                    point,
                ) ==> head_entry(ready.head(other)->0, other).precedes(
                    head_entry(point, rival),
                )) by {
                    let _ = ready.head(rival);
                }
            }
            if leads_next(before, other) {
                assert forall|rival: int| 0 <= rival < before.source_count() && rival
                    != other implies (#[trigger] ready.head(rival) matches Some(point)
                    ==> head_entry(ready.head(other)->0, other).precedes(
                    head_entry(point, rival),
                )) by {
                    let _ = expected_head(before, rival);
                }
            }
        }
        if has_no_head(ready) {
            assert forall|other: int| 0 <= other < before.source_count() implies
                #[trigger] expected_head(before, other) is None by {
                assert(ready.head(other) is None);
            }
            assert forall|other: int| !#[trigger] leads_again(before, other) by {
                let _ = expected_head(before, other);
            }
        } else {
            let source = choose|source: int|
                {
                    &&& #[trigger] leads_heads(ready, source)
                    &&& if ready.emitted_ids().contains(ready.head(source)->0.id) {
                        result == refused::<Option<ExactScoredIdentity>>(
                            Fault::RepeatedIdentity { id: ready.head(source)->0.id },
                        )
                    } else {
                        result == Ok::<Option<ExactScoredIdentity>, OperationError>(
                            ready.head(source),
                        )
                    }
                };
            assert(leads_next(before, source));
            assert forall|other: int| #[trigger] leads_again(before, other) implies other
                == source by {
                if other != source {
                    assert(leads_next(before, other));
                    let _ = expected_head(before, other);
                    let _ = expected_head(before, source);
                }
            }
            if ready.emitted_ids().contains(ready.head(source)->0.id) {
                assert(leads_again(before, source));
            }
        }
    }
}

/// What choosing the point of a source does: no head of another source belongs before it,
/// the source is pulled next, and every other source keeps its head.
pub open spec fn chooses<S: ExactScoreStream, B: ExactScoreBatchStream>(
    before: KWayExactScoreStream<S, B>,
    source: int,
    point: ExactScoredIdentity,
    after: KWayExactScoreStream<S, B>,
) -> bool {
    &&& 0 <= source < before.source_count()
    &&& after.refilling() == Some(source as usize)
    &&& after.head(source) is None
    &&& if before.refilling() == Some(source as usize) {
        before.course(source) matches Some((points, failure)) ==> points.len() > 0 && points[0]
            == point && after.course(source) == Some((points.drop_first(), failure))
    } else {
        before.head(source) == Some(point) && after.course(source) == before.course(source)
    }
    &&& forall|other: int|
        0 <= other < before.source_count() && other != source ==> keeps_source(
            before,
            #[trigger] after.head(other),
            after.course(other),
            other,
        ) && (after.head(other) matches Some(rival) ==> !point_before(rival, point))
}

/// Whether a source that was not chosen has the given head and course: those that it had,
/// or those that it has once it was pulled.
pub open spec fn keeps_source<S: ExactScoreStream, B: ExactScoreBatchStream>(
    before: KWayExactScoreStream<S, B>,
    head: Option<ExactScoredIdentity>,
    course: Option<(Seq<ExactScoredIdentity>, Option<OperationError>)>,
    source: int,
) -> bool {
    if before.refilling() == Some(source as usize) {
        before.course(source) matches Some((points, failure)) ==> if points.len() > 0 {
            head == Some(points[0]) && course == Some((points.drop_first(), failure))
        } else {
            head is None && failure is None && course == Some((points, failure))
        }
    } else {
        head == before.head(source) && course == before.course(source)
    }
}

/// What one step of a merge does to its sources: the source of the last point is pulled,
/// and the point of one source is chosen or refused. A source that is known to fail does not
/// end, and where it has nothing left its failure is the result.
pub open spec fn steps_once<S: ExactScoreStream, B: ExactScoreBatchStream>(
    before: KWayExactScoreStream<S, B>,
    result: OperationResult<Option<ExactScoredIdentity>>,
    after: KWayExactScoreStream<S, B>,
) -> bool {
    &&& steps_exactly(before, result, after)
    &&& forall|source: int|
        0 <= source < before.source_count() && before.is_failing(source)
            ==> !#[trigger] after.exhausted()[source]
    &&& result matches Ok(Some(point)) ==> exists|source: int| #[trigger]
        chooses(before, source, point, after)
    &&& before.refilling() matches Some(source) ==> (before.course(source as int) matches Some(
        (points, Some(error)),
    ) ==> (points.len() == 0 ==> result == Err::<Option<ExactScoredIdentity>, OperationError>(
        error,
    )))
}

/// Pulling a source does the same whether or not the source is to be refilled.
proof fn lemma_pull_of_same<S: ExactScoreStream, B: ExactScoreBatchStream>(
    taken: KWayExactScoreStream<S, B>,
    before: KWayExactScoreStream<S, B>,
    source: int,
    fetched: OperationResult<ExactScoreBatch>,
    pulled: OperationResult<Option<ExactScoredIdentity>>,
    result: OperationResult<()>,
    after: KWayExactScoreStream<S, B>,
)
    requires
        pulls_once(taken, source, fetched, pulled, result, after),
        taken.source_count() == before.source_count(),
        taken.refill_size() == before.refill_size(),
        taken.emitted_ids() == before.emitted_ids(),
        taken.emitted() == before.emitted(),
        taken.last() == before.last(),
        taken.pulls() == before.pulls(),
        taken.exhausted() == before.exhausted(),
        forall|other: int|
            #![trigger taken.head(other)]
            taken.head(other) == before.head(other) && taken.source(other) == before.source(other)
                && taken.previous(other) == before.previous(other),
    ensures
        pulls_once(before, source, fetched, pulled, result, after),
{
    reveal(pulls_once);
    let _ = taken.head(source);
    assert forall|other: int| 0 <= other < before.source_count() && other != source implies {
        &&& #[trigger] after.head(other) == before.head(other)
        &&& after.source(other) == before.source(other)
        &&& after.previous(other) == before.previous(other)
    } by {
        let _ = taken.head(other);
    }
}

/// A step that fails does so whatever is left of the merge.
proof fn lemma_failed_step<S: ExactScoreStream, B: ExactScoreBatchStream>(
    before: KWayExactScoreStream<S, B>,
    error: OperationError,
    middle: KWayExactScoreStream<S, B>,
    after: KWayExactScoreStream<S, B>,
)
    requires
        steps_once(before, Err(error), middle),
        keeps_figures(middle, after),
    ensures
        steps_once(before, Err(error), after),
{
    let result = Err::<Option<ExactScoredIdentity>, OperationError>(error);
    let (refilled, ready) = choose|
        refilled: OperationResult<()>,
        ready: KWayExactScoreStream<S, B>,
    |
        {
            &&& #[trigger] readies(before, refilled, ready)
            &&& match refilled {
                Err(error) => {
                    &&& result == Err::<Option<ExactScoredIdentity>, OperationError>(error)
                    &&& keeps_figures(ready, middle)
                },
                Ok(_) => picks(ready, result, middle),
            }
        };
    if refilled is Ok {
        reveal(picks);
        let source = choose|source: int|
            {
                &&& #[trigger] leads_heads(ready, source)
                &&& ready.emitted_ids().contains(ready.head(source)->0.id)
                &&& result == refused::<Option<ExactScoredIdentity>>(
                    Fault::RepeatedIdentity { id: ready.head(source)->0.id },
                )
            };
        assert(leads_heads(ready, source));
        assert(picks(ready, result, after));
    }
    assert(readies(before, refilled, ready));
}

/// The identities of points.
pub open spec fn ids_of_points(points: Seq<ExactScoredIdentity>) -> Seq<ExtendedPointId> {
    Seq::new(points.len(), |i: int| points[i].id)
}

/// A count after further points, as far as a number can hold it.
pub open spec fn counted_on(count: usize, points: nat) -> usize {
    if count + points <= usize::MAX {
        (count + points) as usize
    } else {
        usize::MAX
    }
}

/// Whether a merge yields the given points one after the other.
pub open spec fn merges_on<S: ExactScoreStream, B: ExactScoreBatchStream>(
    before: KWayExactScoreStream<S, B>,
    points: Seq<ExactScoredIdentity>,
    after: KWayExactScoreStream<S, B>,
) -> bool
    decreases points.len(),
{
    if points.len() == 0 {
        after == before
    } else {
        exists|middle: KWayExactScoreStream<S, B>|
            merges_on(before, points.drop_last(), middle) && #[trigger] steps_once(
                middle,
                Ok(Some(points.last())),
                after,
            )
    }
}

/// Whether the next step of a merge ends with an error, and which sources have ended then.
pub open spec fn ends_with<S: ExactScoreStream, B: ExactScoreBatchStream>(
    before: KWayExactScoreStream<S, B>,
    error: OperationError,
    exhausted: Seq<bool>,
) -> bool {
    exists|after: KWayExactScoreStream<S, B>| #[trigger]
        steps_once(before, Err(error), after) && after.exhausted() == exhausted
}

proof fn lemma_merges_one_more<S: ExactScoreStream, B: ExactScoreBatchStream>(
    before: KWayExactScoreStream<S, B>,
    points: Seq<ExactScoredIdentity>,
    middle: KWayExactScoreStream<S, B>,
    point: ExactScoredIdentity,
    after: KWayExactScoreStream<S, B>,
)
    requires
        merges_on(before, points, middle),
        steps_once(middle, Ok(Some(point)), after),
    ensures
        merges_on(before, points.push(point), after),
{
    let longer = points.push(point);
    assert(longer.drop_last() =~= points);
    assert(longer.last() == point);
    assert(merges_on(before, longer.drop_last(), middle) && steps_once(
        middle,
        Ok(Some(longer.last())),
        after,
    ));
}

/// What one step of a merge does whatever the sources do: a point is emitted once,
/// behind all others, and the end comes only when every source has ended and no point waits.
pub open spec fn emits<S: ExactScoreStream, B: ExactScoreBatchStream>(
    before: KWayExactScoreStream<S, B>,
    point: Option<ExactScoredIdentity>,
    after: KWayExactScoreStream<S, B>,
) -> bool {
    match point {
        Some(point) => {
            &&& finite_key(point.score)
            &&& !before.emitted_ids().contains(point.id)
            &&& before.last() matches Some(last) ==> point_before(last, point)
            &&& after.emitted_ids() == before.emitted_ids().insert(point.id)
            &&& after.last() == Some(point)
        },
        None => {
            &&& forall|source: int|
                0 <= source < after.exhausted().len() ==> #[trigger] after.exhausted()[source]
            &&& forall|source: int|
                0 <= source < before.source_count() ==> #[trigger] before.head(source) is None
            &&& before.refilling() matches Some(source) ==> (before.course(
                source as int,
            ) matches Some((points, failure)) ==> points.len() == 0 && failure is None)
            &&& after.emitted_ids() == before.emitted_ids()
            &&& after.last() == before.last()
        },
    }
}

/// What one step of a merge does where the lists of the sources are known: it
/// yields the leading point, or has come to the end.
pub closed spec fn merge_step<S: ExactScoreStream, B: ExactScoreBatchStream>(
    lists: Seq<Seq<ExactScoredIdentity>>,
    result: OperationResult<Option<ExactScoredIdentity>>,
    after: KWayExactScoreStream<S, B>,
) -> bool {
    if all_empty(lists) {
        &&& result == Ok::<Option<ExactScoredIdentity>, OperationError>(None)
        &&& after.merges(lists)
    } else {
        exists|list: int|
            {
                &&& #[trigger] leads_all(lists, list)
                &&& result == Ok::<Option<ExactScoredIdentity>, OperationError>(
                    Some(lists[list][0]),
                )
                &&& after.merges(taken_from(lists, list))
            }
    }
}


/// Streams of single points as sources.
pub open spec fn point_sources<S: ExactScoreStream, B: ExactScoreBatchStream>(
    streams: Seq<S>,
) -> Seq<ExactScoreSource<S, B>> {
    Seq::new(streams.len(), |i: int| ExactScoreSource::<S, B>::Point(streams[i]))
}

/// Whether sources are streams of batches that were not asked yet.
pub open spec fn are_fresh_batches<S: ExactScoreStream, B: ExactScoreBatchStream>(
    inputs: Seq<ExactScoreSource<S, B>>,
    streams: Seq<B>,
) -> bool {
    &&& inputs.len() == streams.len()
    &&& forall|i: int|
        0 <= i < inputs.len() ==> is_fresh_batch(#[trigger] inputs[i], streams[i])
}

/// What priming the sources does: the first point of each becomes its head, a source with
/// nothing to give ends, and a source that fails at once makes the merge fail.
pub open spec fn primes<S: ExactScoreStream, B: ExactScoreBatchStream>(
    sources: Seq<ExactScoreSource<S, B>>,
    max: usize,
    result: OperationResult<KWayExactScoreStream<S, B>>,
) -> bool {
    match result {
        Ok(stream) => {
            &&& stream.source_count() == sources.len()
            &&& stream.pulls().len() == sources.len()
            &&& stream.exhausted().len() == sources.len()
            &&& stream.refill_size() == max
            &&& forall|source: int|
                0 <= source < sources.len() ==> starts(
                    #[trigger] sources[source],
                    source,
                    max,
                    stream,
                )
            &&& stream.refilling() is None
            &&& forall|source: int|
                0 <= source < sources.len() ==> is_primed(
                    (#[trigger] sources[source]).course(),
                    stream.head(source),
                    stream.course(source),
                )
        },
        Err(error) => exists|source: int|
            {
                &&& 0 <= source < sources.len()
                &&& fails_first(#[trigger] sources[source], source, max, error)
                &&& forall|other: int|
                    0 <= other < source ==> starts_well(#[trigger] sources[other], other, max)
            },
    }
}

/// What a source replies when it is pulled for the first time.
pub open spec fn replies_first<S: ExactScoreStream, B: ExactScoreBatchStream>(
    before: ExactScoreSource<S, B>,
    source: int,
    max: usize,
    pulled: OperationResult<Option<ExactScoredIdentity>>,
    after: ExactScoreSource<S, B>,
) -> bool {
    exists|fetched: OperationResult<ExactScoreBatch>| #[trigger]
        source_replies(
            before,
            source as usize,
            max,
            None,
            Set::empty(),
            fetched,
            pulled,
            after,
        )
}

/// Whether a merge begins with the first point of a source, or with its end.
pub open spec fn starts<S: ExactScoreStream, B: ExactScoreBatchStream>(
    before: ExactScoreSource<S, B>,
    source: int,
    max: usize,
    stream: KWayExactScoreStream<S, B>,
) -> bool {
    exists|pulled: OperationResult<Option<ExactScoredIdentity>>|
        {
            &&& #[trigger] replies_first(before, source, max, pulled, stream.source(source))
            &&& pull_error(source, None, pulled) is None
            &&& stream.head(source) == pulled->Ok_0
            &&& stream.previous(source) == pulled->Ok_0
            &&& stream.pulls()[source] == (if pulled->Ok_0 is Some {
                1usize
            } else {
                0usize
            })
            &&& stream.exhausted()[source] == (pulled->Ok_0 is None)
        }
}

/// Whether a source yields a first point that is not refused, or ends.
pub open spec fn starts_well<S: ExactScoreStream, B: ExactScoreBatchStream>(
    before: ExactScoreSource<S, B>,
    source: int,
    max: usize,
) -> bool {
    exists|
        pulled: OperationResult<Option<ExactScoredIdentity>>,
        after: ExactScoreSource<S, B>,
    | #[trigger]
        replies_first(before, source, max, pulled, after) && pull_error(source, None, pulled)
            is None
}

/// Whether what a source yields first is refused with an error.
pub open spec fn fails_first<S: ExactScoreStream, B: ExactScoreBatchStream>(
    before: ExactScoreSource<S, B>,
    source: int,
    max: usize,
    error: OperationError,
) -> bool {
    exists|
        pulled: OperationResult<Option<ExactScoredIdentity>>,
        after: ExactScoreSource<S, B>,
    | #[trigger]
        replies_first(before, source, max, pulled, after) && pull_error(source, None, pulled)
            == Some(error)
}

/// What a source of single points replies first, where it is known what it yields.
pub open spec fn first_reply(
    course: (Seq<ExactScoredIdentity>, Option<OperationError>),
) -> OperationResult<Option<ExactScoredIdentity>> {
    if course.0.len() > 0 {
        Ok(Some(course.0[0]))
    } else {
        match course.1 {
            Some(error) => Err(error),
            None => Ok(None),
        }
    }
}

/// Streams of single points that are known make a merge unless the first reply of one is
/// refused, and the first of these gives the error.
pub proof fn law_first_refusal_ends_priming<S: ExactScoreStream, B: ExactScoreBatchStream>(
    streams: Seq<S>,
    courses: Seq<(Seq<ExactScoredIdentity>, Option<OperationError>)>,
    result: OperationResult<KWayExactScoreStream<S, B>>,
)
    requires
        primes(point_sources::<S, B>(streams), 1, result),
        courses.len() == streams.len(),
        forall|i: int|
            0 <= i < streams.len() ==> course_of(
                (#[trigger] streams[i]).rest(),
                streams[i].failing(),
            ) == Some(courses[i]),
    ensures
        result is Ok <==> forall|i: int|
            0 <= i < streams.len() ==> pull_error(i, None, first_reply(#[trigger] courses[i]))
                is None,
        result matches Err(error) ==> exists|i: int|
            {
                &&& 0 <= i < streams.len()
                &&& pull_error(i, None, first_reply(#[trigger] courses[i])) == Some(error)
                &&& forall|j: int|
                    0 <= j < i ==> pull_error(j, None, first_reply(#[trigger] courses[j])) is None
            },
{
    let sources = point_sources::<S, B>(streams);
    assert forall|
        i: int,
        pulled: OperationResult<Option<ExactScoredIdentity>>,
        after: ExactScoreSource<S, B>,
    |
        0 <= i < streams.len() && #[trigger] replies_first(
            sources[i],
            i,
            1,
            pulled,
            after,
        ) implies pulled == first_reply(courses[i]) by {
        let _ = streams[i];
    }
    match result {
        Ok(stream) => {
            assert forall|i: int| 0 <= i < streams.len() implies pull_error(
                i,
                None,
                first_reply(#[trigger] courses[i]),
            ) is None by {
                assert(starts(sources[i], i, 1, stream));
            }
        },
        Err(error) => {
            let at = choose|at: int|
                {
                    &&& 0 <= at < sources.len()
                    &&& fails_first(#[trigger] sources[at], at, 1, error)
                    &&& forall|other: int|
                        0 <= other < at ==> starts_well(#[trigger] sources[other], other, 1)
                };
            assert(pull_error(at, None, first_reply(courses[at])) == Some(error));
            assert forall|j: int| 0 <= j < at implies pull_error(
                j,
                None,
                first_reply(#[trigger] courses[j]),
            ) is None by {
                assert(starts_well(sources[j], j, 1));
            }
        },
    }
}

/// Whether a source has the given head and course once it was pulled for the first time.
pub open spec fn is_primed(
    before: Option<(Seq<ExactScoredIdentity>, Option<OperationError>)>,
    head: Option<ExactScoredIdentity>,
    course: Option<(Seq<ExactScoredIdentity>, Option<OperationError>)>,
) -> bool {
    before matches Some((points, failure)) ==> if points.len() > 0 {
        head == Some(points[0]) && course == Some((points.drop_first(), failure))
    } else {
        head is None && failure is None && course == Some((points, failure))
    }
}

/// Whether the sources, from their beginning, yield the given lists.
pub open spec fn sources_yield<S: ExactScoreStream, B: ExactScoreBatchStream>(
    sources: Seq<ExactScoreSource<S, B>>,
    lists: Seq<Seq<ExactScoredIdentity>>,
) -> bool {
    &&& lists.len() == sources.len()
    &&& forall|source: int|
        0 <= source < lists.len() ==> (#[trigger] sources[source]).upcoming() == Some(
            lists[source],
        )
}

/// Whether the streams, from their beginning, yield the given lists.
pub open spec fn score_streams_yield<S: ExactScoreStream>(
    sources: Seq<S>,
    lists: Seq<Seq<ExactScoredIdentity>>,
) -> bool {
    &&& lists.len() == sources.len()
    &&& forall|source: int|
        0 <= source < lists.len() ==> (#[trigger] sources[source]).rest() == Some(lists[source])
}

/// Whether the batch streams, from their beginning, yield the given lists.
pub open spec fn score_batches_yield<B: ExactScoreBatchStream>(
    sources: Seq<B>,
    lists: Seq<Seq<ExactScoredIdentity>>,
) -> bool {
    &&& lists.len() == sources.len()
    &&& forall|source: int|
        0 <= source < lists.len() ==> (#[trigger] sources[source]).rest() == Some(lists[source])
}

/// Whether a source is a batch stream that was not pulled.
pub open spec fn is_fresh_batch<S: ExactScoreStream, B: ExactScoreBatchStream>(
    source: ExactScoreSource<S, B>,
    stream: B,
) -> bool {
    &&& source matches ExactScoreSource::Batch { pull, buffer, exhausted }
    &&& pull == stream
    &&& buffer@ == Seq::<ExactScoredIdentity>::empty()
    &&& !exhausted
}

/// Whether taking the leading points one after the other yields the given
/// identities and leaves the given lists.
pub open spec fn merges_to(
    lists: Seq<Seq<ExactScoredIdentity>>,
    ids: Seq<ExtendedPointId>,
    left: Seq<Seq<ExactScoredIdentity>>,
) -> bool
    decreases ids.len(),
{
    if ids.len() == 0 {
        left == lists
    } else {
        exists|list: int|
            #[trigger] leads_all(lists, list) && ids[0] == lists[list][0].id && merges_to(
                taken_from(lists, list),
                ids.drop_first(),
                left,
            )
    }
}

/// One more point continues what was merged.
proof fn lemma_merges_on(
    lists: Seq<Seq<ExactScoredIdentity>>,
    ids: Seq<ExtendedPointId>,
    held: Seq<Seq<ExactScoredIdentity>>,
    list: int,
)
    requires
        merges_to(lists, ids, held),
        leads_all(held, list),
    ensures
        merges_to(lists, ids.push(held[list][0].id), taken_from(held, list)),
    decreases ids.len(),
{
    let longer = ids.push(held[list][0].id);
    if ids.len() == 0 {
        assert(longer[0] == lists[list][0].id);
        assert(longer.drop_first().len() == 0);
        assert(merges_to(
            taken_from(lists, list),
            longer.drop_first(),
            taken_from(held, list),
        ));
    } else {
        let first = choose|first: int|
            #[trigger] leads_all(lists, first) && ids[0] == lists[first][0].id && merges_to(
                taken_from(lists, first),
                ids.drop_first(),
                held,
            );
        lemma_merges_on(taken_from(lists, first), ids.drop_first(), held, list);
        assert(longer.drop_first() =~= ids.drop_first().push(held[list][0].id));
        assert(leads_all(lists, first));
    }
}

/// The identities of a merge.
pub struct MergedRankStream<S, B> {
    merge: KWayExactScoreStream<S, B>,
}

impl<S: ExactScoreStream, B: ExactScoreBatchStream> MergedRankStream<S, B> {
    /// The merge beneath the stream.
    pub closed spec fn merge(&self) -> KWayExactScoreStream<S, B> {
        self.merge
    }

    /// The next identity of the merge; `None` at the end.
    pub fn next_id(&mut self) -> (result: OperationResult<Option<ExtendedPointId>>)
        requires
            old(self).merge().wf(),
        ensures
            final(self).merge().wf(),
            !old(self).merge().has_failed() ==> match result {
                Ok(Some(id)) => exists|point: ExactScoredIdentity|
                    point.id == id && #[trigger] steps_once(
                        old(self).merge(),
                        Ok(Some(point)),
                        final(self).merge(),
                    ),
                Ok(None) => steps_once(old(self).merge(), Ok(None), final(self).merge()),
                Err(error) => {
                    &&& steps_once(old(self).merge(), Err(error), final(self).merge())
                    &&& final(self).merge().has_failed()
                    &&& same_error(error, final(self).merge().failure())
                },
            },
            old(self).merge().has_failed() ==> final(self).merge().has_failed() && match result {
                Ok(id) => id is None && old(self).merge().failure_was_delivered(),
                Err(error) => !old(self).merge().failure_was_delivered() && same_error(
                    old(self).merge().failure(),
                    error,
                ),
            },
            forall|lists: Seq<Seq<ExactScoredIdentity>>| #[trigger]
                old(self).merge().merges(lists) ==> if all_empty(lists) {
                    &&& result == Ok::<Option<ExtendedPointId>, OperationError>(None)
                    &&& final(self).merge().merges(lists)
                } else {
                    exists|list: int|
                        {
                            &&& #[trigger] leads_all(lists, list)
                            &&& result == Ok::<Option<ExtendedPointId>, OperationError>(
                                Some(lists[list][0].id),
                            )
                            &&& final(self).merge().merges(taken_from(lists, list))
                        }
                },
    {
        match self.merge.next() {
            Some(Ok(point)) => Ok(Some(point.id)),
            Some(Err(error)) => Err(error),
            None => Ok(None),
        }
    }
}

/// A merge that is called to its end yields the identities of the merge of all lists: every
/// point once, in order.
pub proof fn law_merge_to_its_end_is_whole(
    lists: Seq<Seq<ExactScoredIdentity>>,
    ids: Seq<ExtendedPointId>,
    left: Seq<Seq<ExactScoredIdentity>>,
)
    requires
        mergeable(lists),
        merges_to(lists, ids, left),
        all_empty(left),
    ensures
        exists|order: Seq<ExactScoredIdentity>|
            {
                &&& #[trigger] is_merge(lists, order)
                &&& ids == ids_of_points(order)
                &&& order.no_duplicates()
                &&& forall|i: int, j: int|
                    0 <= i < j < order.len() ==> point_before(
                        #[trigger] order[i],
                        #[trigger] order[j],
                    )
                &&& forall|point: ExactScoredIdentity|
                    in_lists(lists, point) <==> #[trigger] order.contains(point)
            },
{
    let order = lemma_merge_to_its_end(lists, ids, left);
    law_merge_is_ordered(lists, order);
    assert forall|i: int, j: int| 0 <= i < j < order.len() implies order[i] != order[j] by {
        assert(point_before(order[i], order[j]));
    }
    assert forall|point: ExactScoredIdentity|
        in_lists(lists, point) <==> #[trigger] order.contains(point) by {
        if order.contains(point) {
            let i = choose|i: int| 0 <= i < order.len() && order[i] == point;
            assert(in_lists(lists, order[i]));
        }
    }
}

proof fn lemma_merge_to_its_end(
    lists: Seq<Seq<ExactScoredIdentity>>,
    ids: Seq<ExtendedPointId>,
    left: Seq<Seq<ExactScoredIdentity>>,
) -> (order: Seq<ExactScoredIdentity>)
    requires
        merges_to(lists, ids, left),
        all_empty(left),
    ensures
        is_merge(lists, order),
        ids == ids_of_points(order),
    decreases ids.len(),
{
    if ids.len() == 0 {
        let order = Seq::<ExactScoredIdentity>::empty();
        assert(ids =~= ids_of_points(order));
        order
    } else {
        let list = choose|list: int|
            #[trigger] leads_all(lists, list) && ids[0] == lists[list][0].id && merges_to(
                taken_from(lists, list),
                ids.drop_first(),
                left,
            );
        let rest = lemma_merge_to_its_end(taken_from(lists, list), ids.drop_first(), left);
        let order = seq![lists[list][0]] + rest;
        assert(order.drop_first() =~= rest);
        assert(leads_all(lists, list) && order[0] == lists[list][0]);
        assert forall|i: int| 0 <= i < ids.len() implies ids[i] == ids_of_points(order)[i] by {
            if i > 0 {
                assert(ids.drop_first()[i - 1] == ids[i]);
                assert(ids_of_points(rest)[i - 1] == rest[i - 1].id);
            }
        }
        assert(ids =~= ids_of_points(order));
        order
    }
}

} // verus!
