//! What holds of rank streams, whatever they yield.

use crate::dense_laws::{counted_places, lemma_counted};
use crate::exact_rank_stream::{
    batch_course, batch_list, batch_points_fault, chooses, continues_scores, counted_on,
    counts_pull, course_of, emits, expected_head, expected_pull, ids_of_points, in_lists, is_merge,
    is_primed, law_merge_is_ordered, leads_all, leads_next, lists_id, mergeable, point_before,
    pull_error, replies_along, score_batch_fault, ExactScoreBatch, ExactScoreBatchStream,
    ExactScoreStream, ExactScoredIdentity, KWayExactScoreStream as BatchedKWayStream,
};
use crate::exact_score_stream::{
    counts_refill, counts_refills, law_winner_leads_all, only, point_fault, point_of,
    previous_after, refill_error, source_error, wins, yields, KWayExactScoreStream,
};
use crate::operation_error::{Fault, OperationError, OperationResult};
use crate::order::{finite_key, ExtendedPointId};
use crate::rank_stream::{all_left, is_retained_from, replay_telemetry, ReplayView};
use vstd::prelude::*;

verus! {

/// Whether a scored point belongs before another: by its score, and where scores are
/// equal by its identity.
pub open spec fn is_better(left: ExactScoredIdentity, right: ExactScoredIdentity) -> bool {
    left.score > right.score || left.score == right.score && left.id.rank() < right.id.rank()
}

/// Lists can be merged where each falls by score, equal scores by identity, all scores are
/// finite and no identity occurs twice.
pub proof fn law_mergeable_lists(lists: Seq<Seq<ExactScoredIdentity>>)
    requires
        mergeable(lists),
    ensures
        forall|list: int, i: int, j: int|
            0 <= list < lists.len() && 0 <= i < j < lists[list].len() ==> is_better(
                #[trigger] lists[list][i],
                #[trigger] lists[list][j],
            ),
        forall|list: int, i: int|
            0 <= list < lists.len() && 0 <= i < lists[list].len() ==> -0x7ff0_0000_0000_0000 < (
            #[trigger] lists[list][i]).score < 0x7ff0_0000_0000_0000,
{
    assert forall|list: int, i: int, j: int|
        0 <= list < lists.len() && 0 <= i < j < lists[list].len() implies is_better(
        #[trigger] lists[list][i],
        #[trigger] lists[list][j],
    ) by {
        assert(point_before(lists[list][i], lists[list][j]));
    }
}

/// A merge falls by score, equal scores by identity, and holds every point of every list
/// and no other.
pub proof fn law_merge_falls_by_score(
    lists: Seq<Seq<ExactScoredIdentity>>,
    order: Seq<ExactScoredIdentity>,
)
    requires
        mergeable(lists),
        is_merge(lists, order),
    ensures
        forall|i: int, j: int|
            0 <= i < j < order.len() ==> is_better(#[trigger] order[i], #[trigger] order[j]),
        forall|list: int, i: int|
            0 <= list < lists.len() && 0 <= i < lists[list].len() ==> order.contains(
                #[trigger] lists[list][i],
            ),
        forall|at: int|
            0 <= at < order.len() ==> exists|list: int, i: int|
                0 <= list < lists.len() && 0 <= i < lists[list].len() && #[trigger] lists[list][i]
                    == #[trigger] order[at],
{
    law_merge_is_ordered(lists, order);
    assert forall|i: int, j: int| 0 <= i < j < order.len() implies is_better(
        #[trigger] order[i],
        #[trigger] order[j],
    ) by {
        assert(point_before(order[i], order[j]));
    }
    assert forall|list: int, i: int|
        0 <= list < lists.len() && 0 <= i < lists[list].len() implies order.contains(
        #[trigger] lists[list][i],
    ) by {
        assert(in_lists(lists, lists[list][i]));
    }
    assert forall|at: int| 0 <= at < order.len() implies exists|list: int, i: int|
        0 <= list < lists.len() && 0 <= i < lists[list].len() && #[trigger] lists[list][i]
            == #[trigger] order[at] by {
        assert(in_lists(lists, order[at]));
    }
}

/// The head that is taken next is better than every other point that is left.
pub proof fn law_next_head_is_the_best(
    lists: Seq<Seq<ExactScoredIdentity>>,
    list: int,
    other: int,
    i: int,
)
    requires
        leads_all(lists, list) || mergeable(lists) && wins(lists, list),
        0 <= other < lists.len(),
        0 <= i < lists[other].len(),
        other != list || i != 0,
    ensures
        lists[list].len() > 0,
        is_better(lists[list][0], lists[other][i]),
{
    if mergeable(lists) && wins(lists, list) {
        law_winner_leads_all(lists, list);
    }
    assert(point_before(lists[list][0], lists[other][i]));
}

/// Of heads that could be equal, the one of the first list with the best point is taken.
pub proof fn law_winner_is_no_worse(lists: Seq<Seq<ExactScoredIdentity>>, list: int, other: int)
    requires
        wins(lists, list),
        0 <= other < lists.len(),
        lists[other].len() > 0,
    ensures
        !is_better(lists[other][0], lists[list][0]),
        other < list ==> is_better(lists[list][0], lists[other][0]),
{
    let rival = lists[other];
}

/// Whether a point cannot stand behind another.
pub open spec fn breaks_order(
    before: Option<ExactScoredIdentity>,
    point: ExactScoredIdentity,
) -> bool {
    before is Some && is_better(point, before->0)
}

/// A pulled point is refused where its score is not finite or it is better than the point
/// before it; a failure is passed on, and an end is no error.
pub proof fn law_refused_points(
    source: usize,
    previous: Option<ExactScoredIdentity>,
    point: ExactScoredIdentity,
    error: OperationError,
)
    ensures
        pull_error(source as int, previous, Err(error)) == Some(error),
        pull_error(source as int, previous, Ok(None)) is None,
        !finite_key(point.score) ==> pull_error(source as int, previous, Ok(Some(point))) == Some(
            OperationError::ValidationError(Fault::NonFiniteSourceScore { source }),
        ),
        finite_key(point.score) && breaks_order(previous, point) ==> pull_error(
            source as int,
            previous,
            Ok(Some(point)),
        ) == Some(OperationError::ValidationError(Fault::SourceOrder { source })),
        finite_key(point.score) && !breaks_order(previous, point) ==> pull_error(
            source as int,
            previous,
            Ok(Some(point)),
        ) is None,
        point_fault(source as int, previous, point) == Some(Fault::NonFiniteSourceScore { source })
            <==> !finite_key(point.score),
        point_fault(source as int, previous, point) == Some(Fault::SourceOrder { source })
            <==> finite_key(point.score) && breaks_order(previous, point),
        point_fault(source as int, previous, point) is None <==> finite_key(point.score)
            && !breaks_order(previous, point),
{
}

/// Sources are refilled without error where none that waits refuses; the first that does
/// is the one that is reported.
pub proof fn law_first_refusing_source(
    lists: Seq<Seq<ExactScoredIdentity>>,
    failures: Seq<Option<OperationError>>,
    waiting: Seq<bool>,
    previous: Seq<Option<ExactScoredIdentity>>,
    from: int,
)
    requires
        0 <= from <= lists.len(),
    ensures
        refill_error(lists, failures, waiting, previous, from) is None ==> forall|source: int|
            from <= source < lists.len() ==> #[trigger] source_error(
                lists,
                failures,
                waiting,
                previous,
                source,
            ) is None,
        refill_error(lists, failures, waiting, previous, from) is Some ==> exists|source: int|
            {
                &&& from <= source < lists.len()
                &&& #[trigger] source_error(lists, failures, waiting, previous, source)
                    == refill_error(lists, failures, waiting, previous, from)
                &&& forall|earlier: int|
                    from <= earlier < source ==> #[trigger] source_error(
                        lists,
                        failures,
                        waiting,
                        previous,
                        earlier,
                    ) is None
            },
    decreases lists.len() - from,
{
    if from < lists.len() {
        law_first_refusing_source(lists, failures, waiting, previous, from + 1);
        let first = source_error(lists, failures, waiting, previous, from);
        if first is None && refill_error(lists, failures, waiting, previous, from) is Some {
            let source = choose|source: int|
                {
                    &&& from + 1 <= source < lists.len()
                    &&& #[trigger] source_error(lists, failures, waiting, previous, source)
                        == refill_error(lists, failures, waiting, previous, from + 1)
                    &&& forall|earlier: int|
                        from + 1 <= earlier < source ==> #[trigger] source_error(
                            lists,
                            failures,
                            waiting,
                            previous,
                            earlier,
                        ) is None
                };
            assert(source_error(lists, failures, waiting, previous, source) is Some);
        }
    }
}

/// A source that does not wait is not asked; one that waits fails as it does at its end,
/// or as its next point is refused.
pub proof fn law_asked_sources(
    lists: Seq<Seq<ExactScoredIdentity>>,
    failures: Seq<Option<OperationError>>,
    waiting: Seq<bool>,
    previous: Seq<Option<ExactScoredIdentity>>,
    source: usize,
)
    ensures
        !waiting[source as int] ==> source_error(
            lists,
            failures,
            waiting,
            previous,
            source as int,
        ) is None,
        waiting[source as int] && lists[source as int].len() == 0 ==> source_error(
            lists,
            failures,
            waiting,
            previous,
            source as int,
        ) == failures[source as int],
        waiting[source as int] && lists[source as int].len() > 0 ==> source_error(
            lists,
            failures,
            waiting,
            previous,
            source as int,
        ) == pull_error(
            source as int,
            previous[source as int],
            Ok(Some(lists[source as int][0])),
        ),
{
}

/// The points that were pulled last are the heads of the sources that waited and yield one,
/// and for the others what they were; only the source that was taken from waits next.
pub proof fn law_pulled_heads(
    lists: Seq<Seq<ExactScoredIdentity>>,
    waiting: Seq<bool>,
    previous: Seq<Option<ExactScoredIdentity>>,
    source: int,
    chosen: int,
)
    requires
        0 <= source < previous.len(),
    ensures
        waiting[source] && lists[source].len() > 0 ==> previous_after(lists, waiting, previous)[source]
            == Some(lists[source][0]),
        !waiting[source] || lists[source].len() == 0 ==> previous_after(
            lists,
            waiting,
            previous,
        )[source] == previous[source],
        only(previous.len(), chosen)[source] <==> source == chosen,
{
}

/// One more point of a batch is refused for what an earlier one is refused for, else where
/// its score is not finite, where it is better than the point before it, or where its
/// identity was met before, in this order.
pub proof fn law_refused_batch_points(
    points: Seq<ExactScoredIdentity>,
    source: usize,
    previous: Option<ExactScoredIdentity>,
    seen: Set<ExtendedPointId>,
    point: ExactScoredIdentity,
)
    ensures
        ({
            let earlier = batch_points_fault(points, source, previous, seen);
            let fault = batch_points_fault(points.push(point), source, previous, seen);
            let before = if points.len() == 0 {
                previous
            } else {
                Some(points[points.len() - 1])
            };
            let again = seen.contains(point.id) || exists|i: int|
                0 <= i < points.len() && (#[trigger] points[i]).id == point.id;
            &&& earlier is Some ==> fault == earlier
            &&& earlier is None && !finite_key(point.score) ==> fault == Some(
                Fault::NonFiniteSourceScore { source },
            )
            &&& earlier is None && finite_key(point.score) && breaks_order(before, point) ==> fault
                == Some(Fault::SourceOrder { source })
            &&& earlier is None && finite_key(point.score) && !breaks_order(before, point) && again
                ==> fault == Some(Fault::RepeatedInBatch { source, id: point.id })
            &&& earlier is None && finite_key(point.score) && !breaks_order(before, point) && !again
                ==> fault is None
        }),
        batch_points_fault(Seq::empty(), source, previous, seen) is None,
{
    assert(points.push(point).drop_last() =~= points);
    assert(lists_id(points, point.id) <==> exists|i: int|
        0 <= i < points.len() && (#[trigger] points[i]).id == point.id);
}

/// A batch is refused where it holds more than was asked for, where it is empty without
/// being the last, and else for its points.
pub proof fn law_refused_batches(
    points: Seq<ExactScoredIdentity>,
    exhausted: bool,
    source: usize,
    max: usize,
    previous: Option<ExactScoredIdentity>,
    seen: Set<ExtendedPointId>,
)
    ensures
        points.len() > max ==> score_batch_fault(points, exhausted, source, max, previous, seen)
            == Some(Fault::ScoreBatchTooLarge { source, len: points.len() as usize, max }),
        points.len() == 0 && !exhausted ==> score_batch_fault(
            points,
            exhausted,
            source,
            max,
            previous,
            seen,
        ) == Some(Fault::EmptyScoreBatch { source }),
        points.len() == 0 && exhausted ==> score_batch_fault(
            points,
            exhausted,
            source,
            max,
            previous,
            seen,
        ) is None,
        0 < points.len() <= max ==> score_batch_fault(
            points,
            exhausted,
            source,
            max,
            previous,
            seen,
        ) == batch_points_fault(points, source, previous, seen),
{
}

/// A batch goes on where a stream stands: it holds its next points, at most as many as
/// were asked for, says the end only at the end, and is empty only there.
pub proof fn law_batches_go_on(
    rest: Seq<ExactScoredIdentity>,
    max_results: usize,
    batch: ExactScoreBatch,
    i: int,
)
    requires
        continues_scores(rest, max_results, batch),
        0 <= i < batch.points@.len(),
    ensures
        batch.points@[i] == rest[i],
        batch.points@.len() <= max_results,
        batch.points@.len() <= rest.len(),
        batch.exhausted ==> batch.points@.len() == rest.len(),
{
}

/// A count goes on by what is added, up to the largest; a pull counts once, for its source
/// alone.
pub proof fn law_counted_pulls(
    count: usize,
    points: nat,
    pulls: Seq<usize>,
    source: int,
    other: int,
)
    requires
        0 <= source < pulls.len(),
        0 <= other < pulls.len(),
    ensures
        count + points <= usize::MAX ==> counted_on(count, points) == count + points,
        count + points > usize::MAX ==> counted_on(count, points) == usize::MAX,
        pulls[source] < usize::MAX ==> counts_pull(pulls, source)[source] == pulls[source] + 1,
        other != source ==> counts_pull(pulls, source)[other] == pulls[other],
{
}

/// The identities of points are their own, place by place, and the course of a stream is
/// what is left of it, with the failure that ends it.
pub proof fn law_courses(
    points: Seq<ExactScoredIdentity>,
    error: OperationError,
    at: int,
    result: OperationResult<ExactScoredIdentity>,
)
    requires
        0 <= at < points.len(),
    ensures
        ids_of_points(points).len() == points.len(),
        ids_of_points(points)[at] == points[at].id,
        course_of(Some(points), None) == Some((points, None::<OperationError>)),
        course_of(None, Some((points, error))) == Some((points, Some(error))),
        course_of(None, None) is None,
        result matches Ok(point) ==> point_of(Some(result)) == Some(point),
        result is Err ==> point_of(Some(result)) is None,
        point_of(None) is None,
{
}

/// What is kept for readers reaches back to the one that has read least; nothing is kept
/// where none is left.
pub proof fn law_kept_for_the_slowest(
    readers: Seq<Option<usize>>,
    end: nat,
    rank: nat,
    reader: int,
)
    requires
        is_retained_from(readers, end, rank),
        rank <= usize::MAX,
    ensures
        0 <= reader < readers.len() && readers[reader] is Some ==> rank <= readers[reader]->0,
        (forall|other: int| 0 <= other < readers.len() ==> #[trigger] readers[other] is None)
            ==> rank == end,
        !(forall|other: int| 0 <= other < readers.len() ==> #[trigger] readers[other] is None)
            ==> exists|other: int|
            0 <= other < readers.len() && #[trigger] readers[other] is Some && readers[other]->0
                == rank,
{
    if !(forall|other: int| 0 <= other < readers.len() ==> #[trigger] readers[other] is None) {
        assert(!all_left(readers));
        let other = choose|other: int|
            0 <= other < readers.len() && #[trigger] readers[other] == Some(rank as usize);
        assert(readers[other] is Some);
    }
}

/// A reader is given the next identity that was produced and moves on by one; the others
/// stay where they are, nothing that was produced changes, and at the end it is given
/// nothing.
pub proof fn law_reading_moves_one_reader(
    before: ReplayView,
    reader: int,
    id: Option<ExtendedPointId>,
    after: ReplayView,
    other: int,
)
    requires
        before.valid(),
        0 <= reader < before.readers.len(),
        before.readers[reader] is Some,
        before.read_by(reader, id, after),
        0 <= other < before.readers.len(),
    ensures
        after.produced == before.produced,
        after.peak == before.peak,
        after.exhausted == before.exhausted,
        after.cancelled == before.cancelled,
        after.readers.len() == before.readers.len(),
        other != reader ==> after.readers[other] == before.readers[other],
        before.readers[reader]->0 < before.produced.len() ==> id == Some(
            before.produced[before.readers[reader]->0 as int],
        ) && after.readers[reader] == Some((before.readers[reader]->0 + 1) as usize),
        before.readers[reader]->0 >= before.produced.len() ==> id is None && after == before,
{
}

/// What a stream produces is appended to what it has produced, and the most that was kept
/// follows; an end changes nothing but itself.
pub proof fn law_producing_appends(before: ReplayView, id: ExtendedPointId)
    requires
        before.base <= before.produced.len(),
    ensures
        before.grown(id).produced == before.produced.push(id),
        before.grown(id).readers == before.readers,
        before.grown(id).base == before.base,
        before.grown(id).exhausted == before.exhausted,
        before.grown(id).peak >= before.peak,
        before.grown(id).peak >= before.produced.len() + 1 - before.base,
        before.grown(id).peak == before.peak || before.grown(id).peak == before.produced.len() + 1
            - before.base,
        before.ended().exhausted,
        before.ended().produced == before.produced,
        before.ended().readers == before.readers,
        before.ended().cancelled == before.cancelled,
{
}

/// A reader that leaves reads no more and holds up nobody; the last one that leaves a
/// stream before its end cancels it.
pub proof fn law_leaving_readers(before: ReplayView, reader: int, after: ReplayView, other: int)
    requires
        0 <= reader < before.readers.len(),
        0 <= other < before.readers.len(),
        before.left_by(reader, after),
    ensures
        after.produced == before.produced,
        after.peak == before.peak,
        after.readers[reader] is None,
        other != reader ==> after.readers[other] == before.readers[other],
        other != reader && before.readers[other] is Some ==> after.exhausted == before.exhausted
            && after.cancelled == before.cancelled,
        (forall|left: int|
            0 <= left < before.readers.len() && left != reader ==> #[trigger] before.readers[left]
                is None) ==> after.exhausted && after.cancelled == (before.cancelled
            || !before.exhausted),
{
    let readers = before.readers.update(reader, None);
    if other != reader && before.readers[other] is Some {
        assert(readers[other] is Some);
    }
    if forall|left: int|
        0 <= left < before.readers.len() && left != reader ==> #[trigger] before.readers[left]
            is None {
        assert(all_left(readers)) by {
            assert forall|left: int| 0 <= left < readers.len() implies (
            #[trigger] readers[left]) is None by {
                if left != reader {
                    assert(before.readers[left] is None);
                }
            }
        }
    }
}

/// What is said of a shared stream: its pulls are what it has produced, its buffer what it
/// keeps, and its readers those that have not left.
pub proof fn law_replay_figures(view: ReplayView)
    requires
        view.valid(),
        view.readers.len() <= usize::MAX,
    ensures
        replay_telemetry(view).physical_pulls == view.produced.len(),
        replay_telemetry(view).buffered_identities == view.produced.len() - view.base,
        replay_telemetry(view).peak_buffered_identities == view.peak,
        replay_telemetry(view).exhausted == view.exhausted,
        replay_telemetry(view).cancelled == view.cancelled,
        replay_telemetry(view).active_readers == counted_places(
            view.readers.len() as int,
            |reader: int| view.readers[reader] is Some,
        ).len(),
{
    lemma_active_readers(view.readers);
}

proof fn lemma_active_readers(readers: Seq<Option<usize>>)
    ensures
        readers.filter(|position: Option<usize>| position is Some).len()
            == counted_places(
            readers.len() as int,
            |reader: int| readers[reader] is Some,
        ).len(),
        readers.filter(|position: Option<usize>| position is Some).len() <= readers.len(),
    decreases readers.len(),
{
    reveal(Seq::filter);
    let meant = |reader: int| readers[reader] is Some;
    lemma_counted(readers.len() as int, meant);
    if readers.len() > 0 {
        let shorter = readers.drop_last();
        lemma_active_readers(shorter);
        assert(counted_places(
            shorter.len() as int,
            |reader: int| shorter[reader] is Some,
        ) =~= counted_places(readers.len() - 1, meant));
    }
}

/// A source that waited and yields a point is pulled once more; one that waited and yields
/// none has ended; the others are as they were.
pub proof fn law_counted_refills<S: ExactScoreStream>(
    before: KWayExactScoreStream<S>,
    lists: Seq<Seq<ExactScoredIdentity>>,
    after: KWayExactScoreStream<S>,
    source: int,
)
    requires
        counts_refills(before, lists, after),
        0 <= source < lists.len(),
    ensures
        before.waiting()[source] && lists[source].len() > 0 && before.pulls()[source] < usize::MAX
            ==> after.pulls()[source] == before.pulls()[source] + 1,
        !before.waiting()[source] || lists[source].len() == 0 ==> after.pulls()[source]
            == before.pulls()[source],
        before.waiting()[source] && lists[source].len() == 0 ==> after.exhausted()[source],
        !before.waiting()[source] || lists[source].len() > 0 ==> after.exhausted()[source]
            == before.exhausted()[source],
{
    assert(counts_refill(before, lists, after, source));
}

/// A point that is handed out is finite, new, and no better than the one before it; at the
/// end every source has ended.
pub proof fn law_yielded_points<S: ExactScoreStream>(
    before: KWayExactScoreStream<S>,
    point: ExactScoredIdentity,
    after: KWayExactScoreStream<S>,
)
    ensures
        yields(before, Some(point), after) ==> finite_key(point.score)
            && !before.emitted_ids().contains(point.id) && after.emitted_ids().contains(point.id)
            && after.last() == Some(point) && (before.last() matches Some(last) ==> is_better(
            last,
            point,
        )),
        yields(before, Some(point), after) && before.emitted() < usize::MAX ==> after.emitted()
            == before.emitted() + 1,
        yields(before, None, after) ==> after.emitted() == before.emitted() && forall|source: int|
            0 <= source < after.exhausted().len() ==> #[trigger] after.exhausted()[source],
{
}

/// The same holds of a merge that refills by batches.
pub proof fn law_emitted_points<S: ExactScoreStream, B: ExactScoreBatchStream>(
    before: BatchedKWayStream<S, B>,
    point: ExactScoredIdentity,
    after: BatchedKWayStream<S, B>,
)
    ensures
        emits(before, Some(point), after) ==> finite_key(point.score)
            && !before.emitted_ids().contains(point.id) && after.emitted_ids().contains(point.id)
            && after.last() == Some(point) && (before.last() matches Some(last) ==> is_better(
            last,
            point,
        )),
        emits(before, None, after) ==> forall|source: int|
            0 <= source < after.exhausted().len() ==> #[trigger] after.exhausted()[source],
{
}

/// A reply along a course is the next of its points, then its failure or its end.
pub proof fn law_replies_along_a_course(
    points: Seq<ExactScoredIdentity>,
    failure: Option<OperationError>,
    result: OperationResult<Option<ExactScoredIdentity>>,
    after: Option<(Seq<ExactScoredIdentity>, Option<OperationError>)>,
)
    requires
        replies_along(Some((points, failure)), result, after),
    ensures
        points.len() > 0 ==> result == Ok::<Option<ExactScoredIdentity>, OperationError>(
            Some(points[0]),
        ) && after == Some((points.drop_first(), failure)),
        points.len() == 0 && failure is None ==> result == Ok::<
            Option<ExactScoredIdentity>,
            OperationError,
        >(None),
        points.len() == 0 && failure is Some ==> result == Err::<
            Option<ExactScoredIdentity>,
            OperationError,
        >(failure->0),
{
}

/// What a batched source will still yield is what it keeps, and behind it what it has not
/// fetched; one that has fetched all yields what it keeps.
pub proof fn law_upcoming_batches<B: ExactScoreBatchStream>(
    pull: B,
    buffer: Seq<ExactScoredIdentity>,
    rest: Seq<ExactScoredIdentity>,
)
    ensures
        batch_list(pull, buffer, true) == Some(buffer),
        pull.rest() == Some(rest) ==> batch_list(pull, buffer, false) == Some(buffer + rest),
        pull.rest() is None ==> batch_list(pull, buffer, false) is None,
        batch_course(pull, buffer, true) == Some((buffer, None::<OperationError>)),
{
}

/// The point that a merge hands out was the next of its source, and no other head is better;
/// the other sources keep their place.
pub proof fn law_chosen_heads<S: ExactScoreStream, B: ExactScoreBatchStream>(
    before: BatchedKWayStream<S, B>,
    source: int,
    point: ExactScoredIdentity,
    after: BatchedKWayStream<S, B>,
    other: int,
)
    requires
        chooses(before, source, point, after),
        0 <= other < before.source_count(),
        other != source,
        before.refilling() is None,
    ensures
        before.head(source) == Some(point),
        after.head(source) is None,
        after.refilling() == Some(source as usize),
        after.head(other) == before.head(other),
        after.course(other) == before.course(other),
        before.head(other) is Some ==> !is_better(before.head(other)->0, point),
{
    let rival = after.head(other);
}

/// A primed source has its first point as its head and goes on behind it; one without points
/// has no head and must not fail.
pub proof fn law_primed_sources(
    points: Seq<ExactScoredIdentity>,
    failure: Option<OperationError>,
    head: Option<ExactScoredIdentity>,
    course: Option<(Seq<ExactScoredIdentity>, Option<OperationError>)>,
)
    requires
        is_primed(Some((points, failure)), head, course),
    ensures
        points.len() > 0 ==> head == Some(points[0]) && course == Some(
            (points.drop_first(), failure),
        ),
        points.len() == 0 ==> head is None && failure is None,
{
}

/// What a refill brings is the next point of its source, its failure, or its end; without a
/// refill nothing is pulled, and a head stays.
pub proof fn law_expected_pulls<S: ExactScoreStream, B: ExactScoreBatchStream>(
    before: BatchedKWayStream<S, B>,
    source: usize,
    points: Seq<ExactScoredIdentity>,
    failure: Option<OperationError>,
    other: int,
)
    requires
        before.refilling() == Some(source),
        before.course(source as int) == Some((points, failure)),
        0 <= other <= usize::MAX,
        other != source,
    ensures
        points.len() > 0 ==> expected_pull(before) == Ok::<
            Option<ExactScoredIdentity>,
            OperationError,
        >(Some(points[0])) && expected_head(before, source as int) == Some(points[0]),
        points.len() == 0 && failure is Some ==> expected_pull(before) == Err::<
            Option<ExactScoredIdentity>,
            OperationError,
        >(failure->0),
        points.len() == 0 && failure is None ==> expected_pull(before) == Ok::<
            Option<ExactScoredIdentity>,
            OperationError,
        >(None) && expected_head(before, source as int) is None,
        expected_head(before, other) == before.head(other),
{
}

/// The next point is that of the best head that is expected, of equals that of the first
/// source.
pub proof fn law_expected_leader<S: ExactScoreStream, B: ExactScoreBatchStream>(
    before: BatchedKWayStream<S, B>,
    source: int,
    other: int,
)
    requires
        leads_next(before, source),
        0 <= other < before.source_count() <= usize::MAX,
        other != source,
        expected_head(before, other) is Some,
    ensures
        expected_head(before, source) is Some,
        !is_better(expected_head(before, other)->0, expected_head(before, source)->0),
        expected_head(before, other)->0 == expected_head(before, source)->0 ==> source < other,
{
}

} // verus!
