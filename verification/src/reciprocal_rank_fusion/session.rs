//! Fusion sessions over exact rank streams.

use super::certificate::{
    can_become, is_exhaustive_fusion, law_fixed_top_k_is_exhaustive, law_score_order_is_unique,
    lemma_complete_rows, ranked, scores_under,
};
use super::progress::{
    accepts_priority, fresh_session, is_outcome, session_fault, steps_to, ProgressView, RrfProgress,
    SessionStep,
};
use super::scoring::{accepts, computes, is_rank_arithmetic};
use super::state::{all_ended, complete_ids, first_of, weights_view, PointBounds, UNIT_WEIGHT};
use super::types::{
    ChannelRankBatch, DynamicRrfAdvance, DynamicRrfExecution, DynamicRrfPolicy,
    DynamicRrfStopReason, ExactRrfBatchStream, ExactRrfStream,
};
use crate::operation_error::{refuse, refused, Fault, OperationError, OperationResult};
use crate::order::ExtendedPointId;
use crate::tables::repeated;
use vstd::prelude::*;

verus! {

/// One input of a session.
pub enum DynamicRrfSource<S, B> {
    /// A stream that yields one identity at a time.
    Point(S),
    /// A stream that yields batches.
    Batch(B),
}

/// Whether a state of a stream comes a number of pulls after another.
pub open spec fn reaches<S: ExactRrfStream>(before: S, after: S, pulls: nat) -> bool
    decreases pulls,
{
    if pulls == 0 {
        before == after
    } else {
        exists|middle: S, result: OperationResult<Option<ExtendedPointId>>|
            reaches(before, middle, (pulls - 1) as nat) && #[trigger] middle.replies(result, &after)
    }
}

/// Whether a state of a source comes after another.
pub open spec fn descends<S: ExactRrfStream, B: ExactRrfBatchStream>(
    before: DynamicRrfSource<S, B>,
    after: DynamicRrfSource<S, B>,
) -> bool {
    match (before, after) {
        (
            DynamicRrfSource::Point(earlier),
            DynamicRrfSource::Point(later),
        ) => exists|pulls: nat| #[trigger] reaches(earlier, later, pulls),
        (DynamicRrfSource::Batch(_), DynamicRrfSource::Batch(_)) => true,
        _ => false,
    }
}

/// Whether a source, asked at a rank for at most the given number of identities, answers
/// in this way, and is then in the given state.
pub open spec fn source_replies<S: ExactRrfStream, B: ExactRrfBatchStream>(
    before: DynamicRrfSource<S, B>,
    start_rank: usize,
    max_results: usize,
    result: OperationResult<ChannelRankBatch>,
    after: DynamicRrfSource<S, B>,
) -> bool {
    match (before, after) {
        (
            DynamicRrfSource::Point(earlier),
            DynamicRrfSource::Point(later),
        ) => stream_replies(earlier, start_rank, result, later),
        (DynamicRrfSource::Batch(earlier), DynamicRrfSource::Batch(later)) => earlier.replies(
            max_results,
            result,
            &later,
        ),
        _ => false,
    }
}

/// Whether a stream of identities, asked once at a rank, leads to this batch, and is then
/// in the given state.
pub open spec fn stream_replies<S: ExactRrfStream>(
    before: S,
    start_rank: usize,
    result: OperationResult<ChannelRankBatch>,
    after: S,
) -> bool {
    exists|reply: OperationResult<Option<ExtendedPointId>>| #[trigger]
        before.replies(reply, &after) && is_single_batch(start_rank, reply, result)
}

/// Whether a batch is one identity at a rank, or the end there, or its failure.
pub open spec fn is_single_batch(
    start_rank: usize,
    reply: OperationResult<Option<ExtendedPointId>>,
    result: OperationResult<ChannelRankBatch>,
) -> bool {
    match reply {
        Ok(Some(id)) => {
            &&& result matches Ok(batch)
            &&& batch.start_rank == start_rank
            &&& batch.point_ids@ == seq![id]
            &&& !batch.exhausted
        },
        Ok(None) => {
            &&& result matches Ok(batch)
            &&& batch.start_rank == start_rank
            &&& batch.point_ids@ == Seq::<ExtendedPointId>::empty()
            &&& batch.exhausted
        },
        Err(error) => result == Err::<ChannelRankBatch, OperationError>(error),
    }
}

/// A session at some point: what it has observed, and its sources.
pub struct SessionState<S, B> {
    pub view: ProgressView,
    pub streams: Seq<DynamicRrfSource<S, B>>,
}

impl<S: ExactRrfStream, B: ExactRrfBatchStream> SessionState<S, B> {
    /// Whether the session chooses a source, asks it for one batch at the rank that it
    /// has reached, and gets the given answer.
    pub open spec fn asks<
        F: Fn(i64, usize, usize, i64) -> i64,
        P: Fn(usize, usize, i64, usize, i64) -> i64,
    >(
        self,
        targets: Seq<Option<usize>>,
        accumulate: F,
        priority: P,
        source: usize,
        answer: OperationResult<ChannelRankBatch>,
        after: SessionState<S, B>,
    ) -> bool {
        &&& source < self.streams.len()
        &&& steps_to(
            self.view,
            targets,
            accumulate,
            priority,
            SessionStep::Pull(source),
            after.view,
        )
        &&& source_replies(
            self.streams[source as int],
            self.view.fusion.histories[source as int].len() as usize,
            self.view.batch_size,
            answer,
            after.streams[source as int],
        )
        &&& after.streams == self.streams.update(
            source as int,
            after.streams[source as int],
        )
    }

    /// Whether the session pulls and accepts one batch.
    pub open spec fn pulls<
        F: Fn(i64, usize, usize, i64) -> i64,
        P: Fn(usize, usize, i64, usize, i64) -> i64,
    >(
        self,
        targets: Seq<Option<usize>>,
        accumulate: F,
        priority: P,
        source: usize,
        batch: ChannelRankBatch,
        after: SessionState<S, B>,
    ) -> bool {
        exists|chosen: SessionState<S, B>|
            {
                &&& #[trigger] self.asks(
                    targets,
                    accumulate,
                    priority,
                    source,
                    Ok(batch),
                    chosen,
                )
                &&& chosen.view.supply_fault(
                    source,
                    batch.start_rank,
                    batch.point_ids@,
                    batch.exhausted,
                ) is None
                &&& after == (SessionState {
                    view: chosen.view.supplied(source, batch.point_ids@, batch.exhausted),
                    ..chosen
                })
            }
    }

    /// Whether the session, after a number of pulls, is in the given state.
    pub open spec fn comes_to<
        F: Fn(i64, usize, usize, i64) -> i64,
        P: Fn(usize, usize, i64, usize, i64) -> i64,
    >(
        self,
        targets: Seq<Option<usize>>,
        accumulate: F,
        priority: P,
        count: nat,
        after: SessionState<S, B>,
    ) -> bool
        decreases count,
    {
        if count == 0 {
            after == self
        } else {
            exists|middle: SessionState<S, B>, source: usize, batch: ChannelRankBatch|
                {
                    &&& self.comes_to(targets, accumulate, priority, (count - 1) as nat, middle)
                    &&& #[trigger] middle.pulls(
                        targets,
                        accumulate,
                        priority,
                        source,
                        batch,
                        after,
                    )
                }
        }
    }

    /// Whether the session stops as the result says: it has fixed its prefix or reached its
    /// pause, or the source that it chose fails or is refused. A failure leaves what every
    /// source has yielded, and which of them have ended, as they were.
    pub open spec fn stops<
        F: Fn(i64, usize, usize, i64) -> i64,
        P: Fn(usize, usize, i64, usize, i64) -> i64,
    >(
        self,
        targets: Seq<Option<usize>>,
        accumulate: F,
        priority: P,
        result: OperationResult<DynamicRrfAdvance>,
        after: SessionState<S, B>,
    ) -> bool {
        match result {
            Ok(DynamicRrfAdvance::Fixed(execution)) => {
                &&& after.streams == self.streams
                &&& steps_to(
                    self.view,
                    targets,
                    accumulate,
                    priority,
                    SessionStep::Fixed(execution),
                    after.view,
                )
            },
            Ok(DynamicRrfAdvance::Paused) => {
                &&& after.streams == self.streams
                &&& steps_to(
                    self.view,
                    targets,
                    accumulate,
                    priority,
                    SessionStep::Paused,
                    after.view,
                )
            },
            Err(error) => exists|source: usize, answer: OperationResult<ChannelRankBatch>|
                {
                    &&& #[trigger] self.asks(
                        targets,
                        accumulate,
                        priority,
                        source,
                        answer,
                        after,
                    )
                    &&& match answer {
                        Ok(batch) => after.view.supply_fault(
                            source,
                            batch.start_rank,
                            batch.point_ids@,
                            batch.exhausted,
                        ) matches Some(fault) && error == OperationError::ValidationError(fault),
                        Err(reason) => error == reason,
                    }
                },
        }
    }

    /// Whether the session, from this state, pulls until it stops as the result says.
    pub open spec fn runs<
        F: Fn(i64, usize, usize, i64) -> i64,
        P: Fn(usize, usize, i64, usize, i64) -> i64,
    >(
        self,
        targets: Seq<Option<usize>>,
        accumulate: F,
        priority: P,
        result: OperationResult<DynamicRrfAdvance>,
        after: SessionState<S, B>,
    ) -> bool {
        exists|count: nat, last: SessionState<S, B>|
            {
                &&& #[trigger] self.comes_to(targets, accumulate, priority, count, last)
                &&& last.stops(targets, accumulate, priority, result, after)
            }
    }

    /// One pull more.
    proof fn lemma_one_more_pull<
        F: Fn(i64, usize, usize, i64) -> i64,
        P: Fn(usize, usize, i64, usize, i64) -> i64,
    >(
        self,
        targets: Seq<Option<usize>>,
        accumulate: F,
        priority: P,
        count: nat,
        middle: SessionState<S, B>,
        source: usize,
        batch: ChannelRankBatch,
        after: SessionState<S, B>,
    )
        requires
            self.comes_to(targets, accumulate, priority, count, middle),
            middle.pulls(targets, accumulate, priority, source, batch, after),
        ensures
            self.comes_to(targets, accumulate, priority, (count + 1) as nat, after),
    {
        let more = (count + 1) as nat;
        assert(self.comes_to(targets, accumulate, priority, (more - 1) as nat, middle)
            && middle.pulls(targets, accumulate, priority, source, batch, after));
    }
}

/// What a session without pause returns.
pub open spec fn completed(result: OperationResult<DynamicRrfExecution>) -> OperationResult<
    DynamicRrfAdvance,
> {
    match result {
        Ok(execution) => Ok(DynamicRrfAdvance::Fixed(execution)),
        Err(error) => Err(error),
    }
}

/// No pause at any of a number of sources.
pub open spec fn no_targets(count: nat) -> Seq<Option<usize>> {
    Seq::new(count, |source: int| None::<usize>)
}

/// Whether every source of a session comes after the one at the same place.
pub open spec fn all_descend<S: ExactRrfStream, B: ExactRrfBatchStream>(
    before: Seq<DynamicRrfSource<S, B>>,
    after: Seq<DynamicRrfSource<S, B>>,
) -> bool {
    &&& before.len() == after.len()
    &&& forall|source: int|
        0 <= source < before.len() ==> descends(#[trigger] before[source], after[source])
}

proof fn lemma_descends_itself<S: ExactRrfStream, B: ExactRrfBatchStream>(
    sources: Seq<DynamicRrfSource<S, B>>,
)
    ensures
        all_descend(sources, sources),
{
    assert forall|source: int| 0 <= source < sources.len() implies descends(
        #[trigger] sources[source],
        sources[source],
    ) by {
        match sources[source] {
            DynamicRrfSource::Point(stream) => {
                assert(reaches(stream, stream, 0));
            },
            _ => {},
        }
    }
}

proof fn lemma_one_more_pull<S: ExactRrfStream>(
    first: S,
    middle: S,
    last: S,
    pulls: nat,
    reply: OperationResult<Option<ExtendedPointId>>,
)
    requires
        reaches(first, middle, pulls),
        middle.replies(reply, &last),
    ensures
        reaches(first, last, (pulls + 1) as nat),
{
    let more = (pulls + 1) as nat;
    assert(reaches(first, middle, (more - 1) as nat) && middle.replies(reply, &last));
}

proof fn lemma_one_pull_descends<S: ExactRrfStream, B: ExactRrfBatchStream>(
    start: Seq<DynamicRrfSource<S, B>>,
    before: Seq<DynamicRrfSource<S, B>>,
    after: Seq<DynamicRrfSource<S, B>>,
    pulled: int,
    start_rank: usize,
    max_results: usize,
    result: OperationResult<ChannelRankBatch>,
)
    requires
        all_descend(start, before),
        0 <= pulled < before.len(),
        source_replies(before[pulled], start_rank, max_results, result, after[pulled]),
        after == before.update(pulled, after[pulled]),
    ensures
        all_descend(start, after),
{
    assert forall|source: int| 0 <= source < start.len() implies descends(
        #[trigger] start[source],
        after[source],
    ) by {
        assert(descends(start[source], before[source]));
        if source == pulled {
            match (start[source], before[source], after[source]) {
                (
                    DynamicRrfSource::Point(first),
                    DynamicRrfSource::Point(middle),
                    DynamicRrfSource::Point(last),
                ) => {
                    let pulls = choose|pulls: nat| #[trigger] reaches(first, middle, pulls);
                    let reply = choose|reply: OperationResult<Option<ExtendedPointId>>| #[trigger]
                        middle.replies(reply, &last) && is_single_batch(start_rank, reply, result);
                    lemma_one_more_pull(first, middle, last, pulls, reply);
                },
                _ => {},
            }
        }
    }
}

/// Whether the first of the identities that come next in a ranking move to the ones
/// that are known of it.
spec fn steps_along(
    history: Seq<ExtendedPointId>,
    ids: Seq<ExtendedPointId>,
    ranking: Seq<ExtendedPointId>,
    count: nat,
) -> bool {
    &&& history.len() + count <= ranking.len()
    &&& ids.take(count as int) == ranking.subrange(
        history.len() as int,
        (history.len() + count) as int,
    )
    &&& ((history + ids.take(count as int)) + ids.skip(count as int)).is_prefix_of(ranking)
}

proof fn lemma_prefix_step(
    history: Seq<ExtendedPointId>,
    ids: Seq<ExtendedPointId>,
    ranking: Seq<ExtendedPointId>,
    count: nat,
)
    requires
        (history + ids).is_prefix_of(ranking),
        count <= ids.len(),
    ensures
        steps_along(history, ids, ranking, count),
{
    let whole = history + ids;
    assert((history + ids.take(count as int)) + ids.skip(count as int) =~= whole);
    let part = ranking.subrange(history.len() as int, (history.len() + count) as int);
    assert forall|i: int| 0 <= i < count implies ids.take(count as int)[i] == #[trigger] part[i] by {
        assert(whole[history.len() + i] == ids[i]);
        assert(whole[history.len() + i] == ranking[history.len() + i]);
    }
    assert(ids.take(count as int) =~= part);
}

impl<S: ExactRrfStream, B: ExactRrfBatchStream> DynamicRrfSource<S, B> {
    /// Whether the stream, having yielded a prefix, will complete the ranking.
    pub open spec fn completes(
        &self,
        history: Seq<ExtendedPointId>,
        ranking: Seq<ExtendedPointId>,
    ) -> bool {
        match self {
            DynamicRrfSource::Point(stream) => stream.rest() matches Some(rest) && history + rest
                == ranking,
            DynamicRrfSource::Batch(stream) => stream.rest() matches Some(rest) && history + rest
                == ranking && stream.taken() == history.len(),
        }
    }

    /// Whether the stream, having yielded a prefix of a ranking, can yield some more of it
    /// and then fails with an error.
    pub open spec fn breaks_off(
        &self,
        history: Seq<ExtendedPointId>,
        ranking: Seq<ExtendedPointId>,
        error: OperationError,
    ) -> bool {
        match self {
            DynamicRrfSource::Point(stream) => stream.failing() matches Some((ids, failure))
                && failure == error && (history + ids).is_prefix_of(ranking),
            DynamicRrfSource::Batch(stream) => stream.failing() matches Some((ids, failure))
                && failure == error && (history + ids).is_prefix_of(ranking) && stream.taken()
                == history.len(),
        }
    }

    /// Whether the stream, having yielded a prefix, will complete the ranking, or fails as
    /// given.
    pub open spec fn leads(
        &self,
        history: Seq<ExtendedPointId>,
        ranking: Seq<ExtendedPointId>,
        failure: Option<OperationError>,
    ) -> bool {
        match failure {
            None => self.completes(history, ranking),
            Some(error) => self.breaks_off(history, ranking, error),
        }
    }

    /// The next batch of the stream.
    fn pull(&mut self, start_rank: usize, max_results: usize) -> (result: OperationResult<
        ChannelRankBatch,
    >)
        ensures
            source_replies(*old(self), start_rank, max_results, result, *final(self)),
            forall|history: Seq<ExtendedPointId>, ranking: Seq<ExtendedPointId>|
                #[trigger] old(self).completes(history, ranking) && max_results > 0 && start_rank
                    == history.len() ==> {
                    &&& result matches Ok(batch)
                    &&& batch.start_rank == history.len()
                    &&& batch.point_ids@.len() <= max_results
                    &&& history.len() + batch.point_ids@.len() <= ranking.len()
                    &&& batch.point_ids@ == ranking.subrange(
                        history.len() as int,
                        (history.len() + batch.point_ids@.len()) as int,
                    )
                    &&& batch.exhausted ==> history + batch.point_ids@ == ranking
                    &&& batch.point_ids@.len() == 0 ==> batch.exhausted
                    &&& final(self).completes(history + batch.point_ids@, ranking)
                },
            forall|
                history: Seq<ExtendedPointId>,
                ranking: Seq<ExtendedPointId>,
                error: OperationError,
            | #[trigger]
                old(self).breaks_off(history, ranking, error) && max_results > 0 && start_rank
                    == history.len() ==> match result {
                    Ok(batch) => {
                        &&& batch.start_rank == history.len()
                        &&& 0 < batch.point_ids@.len() <= max_results
                        &&& history.len() + batch.point_ids@.len() <= ranking.len()
                        &&& batch.point_ids@ == ranking.subrange(
                            history.len() as int,
                            (history.len() + batch.point_ids@.len()) as int,
                        )
                        &&& !batch.exhausted
                        &&& final(self).breaks_off(history + batch.point_ids@, ranking, error)
                    },
                    Err(reason) => reason == error,
                },
    {
        match self {
            DynamicRrfSource::Point(stream) => {
                let ghost known = stream.rest();
                let ghost failing = stream.failing();
                let ghost earlier = *stream;
                let reply = stream.next();
                let ghost answered = reply;
                let ghost later = *stream;
                assert(earlier.replies(answered, &later));
                let result = match reply {
                    Ok(Some(id)) => {
                        let mut point_ids: Vec<ExtendedPointId> = Vec::new();
                        point_ids.push(id);
                        proof {
                            assert(point_ids@ =~= seq![id]);
                            if failing is Some {
                                let (ids, _) = failing.unwrap();
                                assert(point_ids@ =~= ids.take(1));
                                assert(ids.drop_first() =~= ids.skip(1));
                                assert forall|
                                    history: Seq<ExtendedPointId>,
                                    ranking: Seq<ExtendedPointId>,
                                |
                                    #[trigger] (history + ids).is_prefix_of(ranking) implies
                                    steps_along(history, ids, ranking, 1) by {
                                    lemma_prefix_step(history, ids, ranking, 1);
                                }
                            }
                            if known is Some && known->0.len() > 0 {
                                let rest = known->0;
                                assert(rest =~= seq![rest[0]] + rest.drop_first());
                                assert forall|history: Seq<ExtendedPointId>|
                                    #![trigger history + rest]
                                    history + rest == (history + point_ids@) + rest.drop_first() by {
                                    assert(history + rest =~= (history + point_ids@)
                                        + rest.drop_first());
                                }
                                assert forall|history: Seq<ExtendedPointId>|
                                    #![trigger history + rest]
                                    point_ids@ == (history + rest).subrange(
                                        history.len() as int,
                                        (history.len() + 1) as int,
                                    ) by {
                                    assert(point_ids@ =~= (history + rest).subrange(
                                        history.len() as int,
                                        (history.len() + 1) as int,
                                    ));
                                }
                            }
                        }
                        Ok(ChannelRankBatch { start_rank, point_ids, exhausted: false })
                    },
                    Ok(None) => {
                        let point_ids: Vec<ExtendedPointId> = Vec::new();
                        proof {
                            assert(point_ids@ =~= Seq::<ExtendedPointId>::empty());
                            assert forall|history: Seq<ExtendedPointId>, ranking: Seq<ExtendedPointId>|
                                #[trigger] old(self).completes(history, ranking) implies {
                                &&& history == ranking
                                &&& history + point_ids@ == ranking
                                &&& point_ids@ == ranking.subrange(
                                    history.len() as int,
                                    history.len() as int,
                                )
                            } by {
                                assert(history + known->0 =~= history);
                                assert(history + point_ids@ =~= history);
                                assert(point_ids@ =~= ranking.subrange(
                                    history.len() as int,
                                    history.len() as int,
                                ));
                            }
                        }
                        Ok(ChannelRankBatch { start_rank, point_ids, exhausted: true })
                    },
                    Err(error) => Err(error),
                };
                assert(earlier.replies(answered, &later) && is_single_batch(
                    start_rank,
                    answered,
                    result,
                ));
                assert(stream_replies(earlier, start_rank, result, later));
                result
            },
            DynamicRrfSource::Batch(stream) => {
                let ghost known = stream.rest();
                let ghost failing = stream.failing();
                let result = stream.pull(max_results);
                proof {
                    if failing is Some && result is Ok {
                        let (ids, _) = failing.unwrap();
                        let count = result->Ok_0.point_ids@.len();
                        if count <= ids.len() {
                            assert forall|
                                history: Seq<ExtendedPointId>,
                                ranking: Seq<ExtendedPointId>,
                            |
                                #[trigger] (history + ids).is_prefix_of(ranking) implies
                                steps_along(history, ids, ranking, count) by {
                                lemma_prefix_step(history, ids, ranking, count);
                            }
                        }
                    }
                    if known is Some && result is Ok {
                        let rest = known->0;
                        let ids = result->Ok_0.point_ids@;
                        if ids.len() <= rest.len() && ids == rest.take(ids.len() as int) {
                            assert forall|history: Seq<ExtendedPointId>|
                                #![trigger history + rest]
                                history + rest == (history + ids) + rest.skip(ids.len() as int)
                                    && ids == (history + rest).subrange(
                                    history.len() as int,
                                    (history.len() + ids.len()) as int,
                                ) by {
                                assert(history + rest =~= (history + ids) + rest.skip(
                                    ids.len() as int,
                                ));
                                assert(ids =~= (history + rest).subrange(
                                    history.len() as int,
                                    (history.len() + ids.len()) as int,
                                ));
                            }
                            if ids.len() == rest.len() {
                                assert(ids =~= rest);
                            }
                        }
                    }
                }
                result
            },
        }
    }
}


/// Whether the identities are the first of every exhaustive fusion of the
/// rankings, under any rank arithmetic that the calls follow.
pub open spec fn is_exhaustive_prefix<F: Fn(i64, usize, usize, i64) -> i64>(
    accumulate: F,
    rankings: Seq<Seq<ExtendedPointId>>,
    rrf_k: usize,
    weights: Seq<i64>,
    top_k: usize,
    ids: Seq<ExtendedPointId>,
) -> bool {
    forall|arithmetic: spec_fn(i64, usize, usize, i64) -> i64, order: Seq<ExtendedPointId>|
        computes(accumulate, arithmetic) && is_rank_arithmetic(arithmetic)
            && #[trigger] is_exhaustive_fusion(arithmetic, rankings, rrf_k, weights, order) ==> ids
            == first_of(order, top_k)
}

/// Whether the kept order, where there is one, came from this arithmetic.
pub open spec fn order_is_kept<F: Fn(i64, usize, usize, i64) -> i64>(
    view: ProgressView,
    accumulate: F,
) -> bool {
    view.order matches Some(order) ==> exists|rows: Seq<PointBounds>|
        view.fusion.bounded_by(accumulate, rows) && order == #[trigger] complete_ids(rows)
}

/// Whether one session continues another: nothing observed was lost, and what is
/// fused, and how, is the same.
pub open spec fn continues_session(before: ProgressView, after: ProgressView) -> bool {
    &&& after.fusion.rrf_k == before.fusion.rrf_k
    &&& after.fusion.top_k == before.fusion.top_k
    &&& after.fusion.weights == before.fusion.weights
    &&& after.costs == before.costs
    &&& after.policy == before.policy
    &&& after.batch_size == before.batch_size
    &&& after.order == before.order
    &&& after.fusion.histories.len() == before.fusion.histories.len()
    &&& before.schedule.len() <= after.schedule.len()
    &&& before.schedule == after.schedule.take(before.schedule.len() as int)
    &&& forall|source: int|
        0 <= source < before.fusion.histories.len() ==> {
            let history = #[trigger] before.fusion.histories[source];
            &&& history.len() <= after.fusion.histories[source].len()
            &&& history == after.fusion.histories[source].take(history.len() as int)
            &&& before.fusion.exhausted[source] ==> after.fusion.exhausted[source] && history
                == after.fusion.histories[source]
        }
}

/// What a fixed outcome says about the rankings that the sources turn out to be.
pub proof fn lemma_outcome_is_exhaustive<F: Fn(i64, usize, usize, i64) -> i64>(
    accumulate: F,
    view: ProgressView,
    rows: Seq<PointBounds>,
    unseen: i64,
    ids: Seq<ExtendedPointId>,
    rankings: Seq<Seq<ExtendedPointId>>,
)
    requires
        view.valid(),
        is_outcome(view, accumulate, rows, unseen, Some(ids)),
        can_become(view.fusion, rankings),
    ensures
        is_exhaustive_prefix(
            accumulate,
            rankings,
            view.fusion.rrf_k,
            view.fusion.weights,
            view.fusion.top_k,
            ids,
        ),
{
    assert forall|arithmetic: spec_fn(i64, usize, usize, i64) -> i64, order: Seq<ExtendedPointId>|
        computes(accumulate, arithmetic) && is_rank_arithmetic(arithmetic)
            && #[trigger] is_exhaustive_fusion(
            arithmetic,
            rankings,
            view.fusion.rrf_k,
            view.fusion.weights,
            order,
        ) implies ids == first_of(order, view.fusion.top_k) by {
        law_fixed_top_k_is_exhaustive(
            accumulate,
            arithmetic,
            view.fusion,
            rows,
            unseen,
            rankings,
            order,
        );
    }
}

/// A kept order begins with what exhaustive fusion begins with.
pub proof fn lemma_kept_order_is_exhaustive<F: Fn(i64, usize, usize, i64) -> i64>(
    accumulate: F,
    view: ProgressView,
    rankings: Seq<Seq<ExtendedPointId>>,
    top_k: usize,
)
    requires
        view.valid(),
        order_is_kept(view, accumulate),
        view.order is Some,
        can_become(view.fusion, rankings),
    ensures
        is_exhaustive_prefix(
            accumulate,
            rankings,
            view.fusion.rrf_k,
            view.fusion.weights,
            top_k,
            first_of(view.order->0, top_k),
        ),
{
    let rows = choose|rows: Seq<PointBounds>|
        view.fusion.bounded_by(accumulate, rows) && view.order->0 == #[trigger] complete_ids(rows);
    assert forall|arithmetic: spec_fn(i64, usize, usize, i64) -> i64, order: Seq<ExtendedPointId>|
        computes(accumulate, arithmetic) && is_rank_arithmetic(arithmetic)
            && #[trigger] is_exhaustive_fusion(
            arithmetic,
            rankings,
            view.fusion.rrf_k,
            view.fusion.weights,
            order,
        ) implies first_of(view.order->0, top_k) == first_of(order, top_k) by {
        lemma_complete_rows(accumulate, arithmetic, view.fusion, rows, rankings);
        law_score_order_is_unique(
            ranked(rankings),
            scores_under(arithmetic, rankings, view.fusion.rrf_k, view.fusion.weights),
            order,
            view.order->0,
        );
    }
}

/// Why a replacement stream does not match an observed prefix, from a rank on.
pub open spec fn replay_fault(
    history: Seq<ExtendedPointId>,
    replacement: Seq<ExtendedPointId>,
    source: usize,
    rank: int,
) -> Option<Fault>
    decreases history.len() - rank,
{
    if rank >= history.len() {
        None
    } else if rank >= replacement.len() {
        Some(Fault::ReplacementEnded { source, rank: rank as usize })
    } else if replacement[rank] != history[rank] {
        Some(
            Fault::ReplacementDisagrees {
                source,
                rank: rank as usize,
                observed: history[rank],
                replacement: replacement[rank],
            },
        )
    } else {
        replay_fault(history, replacement, source, rank + 1)
    }
}

/// A recoverable exact fusion session. Streams may be paused, replaced by an
/// equivalent stream after a replay of its prefix, and resumed. A replacement is
/// not trusted until its whole observed prefix has matched.
pub struct DynamicRrfSession<S, B> {
    sources: Vec<DynamicRrfSource<S, B>>,
    progress: RrfProgress,
}

impl<S, B> View for DynamicRrfSession<S, B> {
    type V = ProgressView;

    closed spec fn view(&self) -> ProgressView {
        self.progress@
    }
}

impl<S: ExactRrfStream, B: ExactRrfBatchStream> DynamicRrfSession<S, B> {
    /// Whether the parts belong together.
    pub closed spec fn wf(&self) -> bool {
        &&& self.progress.wf()
        &&& self.sources@.len() == self.progress@.fusion.weights.len()
    }

    /// The streams of the session.
    pub closed spec fn streams(&self) -> Seq<DynamicRrfSource<S, B>> {
        self.sources@
    }

    /// Where the session is.
    pub open spec fn state(&self) -> SessionState<S, B> {
        SessionState { view: self@, streams: self.streams() }
    }

    /// Whether the streams will complete the given rankings without failing.
    pub open spec fn follows(&self, rankings: Seq<Seq<ExtendedPointId>>) -> bool {
        &&& can_become(self@.fusion, rankings)
        &&& forall|source: int|
            0 <= source < rankings.len() ==> (#[trigger] self.streams()[source]).completes(
                self@.fusion.histories[source],
                rankings[source],
            )
    }

    /// Whether the streams will complete the given rankings, or fail as given.
    pub open spec fn leads(
        &self,
        rankings: Seq<Seq<ExtendedPointId>>,
        failures: Seq<Option<OperationError>>,
    ) -> bool {
        &&& can_become(self@.fusion, rankings)
        &&& failures.len() == rankings.len()
        &&& forall|source: int|
            0 <= source < rankings.len() ==> (#[trigger] self.streams()[source]).leads(
                self@.fusion.histories[source],
                rankings[source],
                failures[source],
            )
    }

    /// The parts of a session belong together.
    pub proof fn lemma_valid(&self)
        requires
            self.wf(),
        ensures
            self@.valid(),
            self.streams().len() == self@.fusion.weights.len(),
    {
        self.progress.lemma_valid();
    }

    /// A session over streams of identities, with equal costs.
    pub fn new(
        sources: Vec<S>,
        top_k: usize,
        rrf_k: usize,
        weights: Option<&Vec<i64>>,
        policy: DynamicRrfPolicy,
    ) -> (result: OperationResult<DynamicRrfSession<S, B>>)
        ensures
            is_new_session(
                Seq::new(sources@.len(), |i: int| DynamicRrfSource::<S, B>::Point(sources@[i])),
                1,
                top_k,
                rrf_k,
                weights_view(weights),
                Seq::new(sources@.len(), |i: int| UNIT_WEIGHT),
                policy,
                result,
            ),
    {
        let source_costs = repeated(UNIT_WEIGHT, sources.len());
        Self::new_with_source_costs(sources, top_k, rrf_k, weights, &source_costs, policy)
    }

    /// A session over streams of identities.
    pub fn new_with_source_costs(
        sources: Vec<S>,
        top_k: usize,
        rrf_k: usize,
        weights: Option<&Vec<i64>>,
        source_costs: &Vec<i64>,
        policy: DynamicRrfPolicy,
    ) -> (result: OperationResult<DynamicRrfSession<S, B>>)
        ensures
            is_new_session(
                Seq::new(sources@.len(), |i: int| DynamicRrfSource::<S, B>::Point(sources@[i])),
                1,
                top_k,
                rrf_k,
                weights_view(weights),
                source_costs@,
                policy,
                result,
            ),
    {
        let ghost given = sources@;
        let mut waiting = sources;
        let mut inputs: Vec<DynamicRrfSource<S, B>> = Vec::new();
        let ghost expected = Seq::new(
            given.len(),
            |i: int| DynamicRrfSource::<S, B>::Point(given[i]),
        );
        assert(given.skip(0) =~= given);
        while waiting.len() > 0
            invariant
                inputs@.len() + waiting@.len() == given.len(),
                waiting@ == given.skip(inputs@.len() as int),
                expected == Seq::new(
                    given.len(),
                    |i: int| DynamicRrfSource::<S, B>::Point(given[i]),
                ),
                inputs@ =~= expected.take(inputs@.len() as int),
            decreases waiting@.len(),
        {
            let ghost before = waiting@;
            let stream = waiting.remove(0);
            inputs.push(DynamicRrfSource::Point(stream));
            assert(before.remove(0) =~= given.skip(inputs@.len() as int));
        }
        assert(inputs@ =~= expected);
        Self::new_with_inputs(inputs, 1, top_k, rrf_k, weights, source_costs, policy)
    }

    /// A session over streams of batches, with equal costs.
    pub fn new_batched(
        sources: Vec<B>,
        source_batch_size: usize,
        top_k: usize,
        rrf_k: usize,
        weights: Option<&Vec<i64>>,
        policy: DynamicRrfPolicy,
    ) -> (result: OperationResult<DynamicRrfSession<S, B>>)
        ensures
            is_new_session(
                Seq::new(sources@.len(), |i: int| DynamicRrfSource::<S, B>::Batch(sources@[i])),
                source_batch_size,
                top_k,
                rrf_k,
                weights_view(weights),
                Seq::new(sources@.len(), |i: int| UNIT_WEIGHT),
                policy,
                result,
            ),
    {
        let source_costs = repeated(UNIT_WEIGHT, sources.len());
        let ghost given = sources@;
        let mut waiting = sources;
        let mut inputs: Vec<DynamicRrfSource<S, B>> = Vec::new();
        let ghost expected = Seq::new(
            given.len(),
            |i: int| DynamicRrfSource::<S, B>::Batch(given[i]),
        );
        assert(given.skip(0) =~= given);
        while waiting.len() > 0
            invariant
                inputs@.len() + waiting@.len() == given.len(),
                waiting@ == given.skip(inputs@.len() as int),
                expected == Seq::new(
                    given.len(),
                    |i: int| DynamicRrfSource::<S, B>::Batch(given[i]),
                ),
                inputs@ =~= expected.take(inputs@.len() as int),
            decreases waiting@.len(),
        {
            let ghost before = waiting@;
            let stream = waiting.remove(0);
            inputs.push(DynamicRrfSource::Batch(stream));
            assert(before.remove(0) =~= given.skip(inputs@.len() as int));
        }
        assert(inputs@ =~= expected);
        Self::new_with_inputs(
            inputs,
            source_batch_size,
            top_k,
            rrf_k,
            weights,
            &source_costs,
            policy,
        )
    }

    /// A session over any streams.
    pub fn new_with_inputs(
        sources: Vec<DynamicRrfSource<S, B>>,
        source_batch_size: usize,
        top_k: usize,
        rrf_k: usize,
        weights: Option<&Vec<i64>>,
        source_costs: &Vec<i64>,
        policy: DynamicRrfPolicy,
    ) -> (result: OperationResult<DynamicRrfSession<S, B>>)
        ensures
            is_new_session(
                sources@,
                source_batch_size,
                top_k,
                rrf_k,
                weights_view(weights),
                source_costs@,
                policy,
                result,
            ),
    {
        match RrfProgress::new(
            sources.len(),
            source_batch_size,
            top_k,
            rrf_k,
            weights,
            source_costs,
            policy,
        ) {
            Ok(progress) => Ok(DynamicRrfSession { sources, progress }),
            Err(error) => Err(error),
        }
    }

    /// Gives the streams of the session back.
    pub fn into_sources(self) -> (sources: Vec<DynamicRrfSource<S, B>>)
        ensures
            sources@ == self.streams(),
    {
        self.sources
    }

    /// How many identities every source has yielded.
    pub fn source_pulls(&self) -> (pulls: Vec<usize>)
        requires
            self.wf(),
        ensures
            pulls@ == Seq::new(
                self@.fusion.histories.len(),
                |source: int| self@.fusion.histories[source].len() as usize,
            ),
    {
        self.progress.source_pulls()
    }

    /// What a source has yielded.
    pub fn source_history(&self, source: usize) -> (history: Option<&Vec<ExtendedPointId>>)
        requires
            self.wf(),
        ensures
            history is Some <==> source < self@.fusion.weights.len(),
            history matches Some(ids) ==> ids@ == self@.fusion.histories[source as int],
    {
        self.progress.source_history(source)
    }

    /// The source of every action so far.
    pub fn source_schedule(&self) -> (schedule: &Vec<usize>)
        ensures
            schedule@ == self@.schedule,
    {
        self.progress.source_schedule()
    }

    /// Whether a source has ended, for a source that exists.
    pub fn source_is_exhausted(&self, source: usize) -> (result: Option<bool>)
        requires
            self.wf(),
        ensures
            result == (if source < self@.fusion.weights.len() {
                Some(self@.fusion.exhausted[source as int])
            } else {
                None
            }),
    {
        self.progress.source_is_exhausted(source)
    }

    /// Raises the prefix target; a smaller target is refused.
    pub fn extend_top_k(&mut self, top_k: usize) -> (result: OperationResult<()>)
        requires
            old(self).wf(),
        ensures
            final(self).wf(),
            final(self).streams() == old(self).streams(),
            top_k < old(self)@.fusion.top_k ==> {
                &&& result == refused::<()>(
                    Fault::PrefixDecrease { from: old(self)@.fusion.top_k, to: top_k },
                )
                &&& final(self)@ == old(self)@
            },
            top_k >= old(self)@.fusion.top_k ==> result == Ok::<(), OperationError>(())
                && final(self)@ == old(self)@.raised(top_k),
    {
        self.progress.extend_top_k(top_k)
    }

    /// Replaces a stream by an equivalent one, after replaying what the stream
    /// has yielded. A replacement that fails, ends early or disagrees leaves the
    /// session as it was.
    #[verifier::loop_isolation(false)]
    pub fn replace_source(&mut self, source: usize, replacement: S) -> (result: OperationResult<()>)
        requires
            old(self).wf(),
        ensures
            final(self).wf(),
            final(self)@ == old(self)@,
            result is Err ==> final(self).streams() == old(self).streams(),
            source >= old(self)@.fusion.weights.len() ==> result == refused::<()>(
                Fault::ReplacementOutOfRange { source },
            ),
            source < old(self)@.fusion.weights.len() && old(self)@.fusion.exhausted[source as int]
                ==> result == refused::<()>(Fault::ReplacementExhausted { source }),
            source < old(self)@.fusion.weights.len() && !old(self)@.fusion.exhausted[source as int] ==> (replacement.rest() matches Some(ids) ==> {
                let history = old(self)@.fusion.histories[source as int];
                match replay_fault(history, ids, source, 0) {
                    Some(fault) => result == refused::<()>(fault),
                    None => {
                        &&& result == Ok::<(), OperationError>(())
                        &&& final(self).streams() == old(self).streams().update(
                            source as int,
                            final(self).streams()[source as int],
                        )
                        &&& final(self).streams()[source as int].completes(history, ids)
                    },
                }
            }),
            source < old(self)@.fusion.weights.len() && !old(self)@.fusion.exhausted[source as int] ==> (replacement.failing() matches Some((ids, error)) ==> {
                let history = old(self)@.fusion.histories[source as int];
                match replay_fault(history, ids, source, 0) {
                    Some(Fault::ReplacementEnded { .. }) => result == Err::<(), OperationError>(
                        error,
                    ),
                    Some(fault) => result == refused::<()>(fault),
                    None => {
                        &&& result == Ok::<(), OperationError>(())
                        &&& final(self).streams() == old(self).streams().update(
                            source as int,
                            final(self).streams()[source as int],
                        )
                        &&& final(self).streams()[source as int].breaks_off(history, ids, error)
                    },
                }
            }),
    {
        let mut replacement = replacement;
        let ghost given = replacement.rest();
        let ghost broken = replacement.failing();
        let history = match self.progress.source_history(source) {
            Some(history) => history,
            None => {
                return refuse(Fault::ReplacementOutOfRange { source });
            },
        };
        match self.progress.source_is_exhausted(source) {
            Some(ended) => {
                if ended {
                    return refuse(Fault::ReplacementExhausted { source });
                }
            },
            None => {},
        }
        let mut rank: usize = 0;
        assert(given is Some ==> given->0.skip(0) =~= given->0);
        proof {
            if broken is Some {
                let (ids, _) = broken.unwrap();
                assert(ids.skip(0) =~= ids);
            }
        }
        while rank < history.len()
            invariant
                rank <= history@.len(),
                given matches Some(ids) ==> {
                    &&& rank <= ids.len()
                    &&& replacement.rest() == Some(ids.skip(rank as int))
                    &&& forall|i: int| 0 <= i < rank ==> ids[i] == history@[i]
                    &&& replay_fault(history@, ids, source, 0) == replay_fault(
                        history@,
                        ids,
                        source,
                        rank as int,
                    )
                },
                broken matches Some((ids, error)) ==> {
                    &&& rank <= ids.len()
                    &&& replacement.failing() == Some((ids.skip(rank as int), error))
                    &&& forall|i: int| 0 <= i < rank ==> ids[i] == history@[i]
                    &&& replay_fault(history@, ids, source, 0) == replay_fault(
                        history@,
                        ids,
                        source,
                        rank as int,
                    )
                },
            decreases history@.len() - rank,
        {
            let expected = history[rank];
            match replacement.next() {
                Ok(Some(actual)) => {
                    if actual != expected {
                        return refuse(
                            Fault::ReplacementDisagrees {
                                source,
                                rank,
                                observed: expected,
                                replacement: actual,
                            },
                        );
                    }
                    assert(given is Some && rank < given->0.len() ==> given->0.skip(
                        rank as int,
                    ).drop_first() =~= given->0.skip(rank + 1));
                    proof {
                        if broken is Some {
                            let (ids, _) = broken.unwrap();
                            assert(ids.skip(rank as int).drop_first() =~= ids.skip(rank + 1));
                        }
                    }
                },
                Ok(None) => {
                    return refuse(Fault::ReplacementEnded { source, rank });
                },
                Err(error) => {
                    return Err(error);
                },
            }
            rank += 1;
        }
        proof {
            if given is Some {
                let ids = given->0;
                assert(history@ =~= ids.take(rank as int));
                assert(history@ + ids.skip(rank as int) =~= ids);
            }
            if broken is Some {
                let (ids, _) = broken.unwrap();
                assert(history@ =~= ids.take(rank as int));
                assert(history@ + ids.skip(rank as int) =~= ids);
                assert(ids.subrange(0, ids.len() as int) =~= ids);
            }
        }
        self.sources.set(source, DynamicRrfSource::Point(replacement));
        Ok(())
    }

    /// Advances until the Top-K is fixed or every source with a target has
    /// yielded that many identities or ended.
    pub fn advance_until_each<
        F: Fn(i64, usize, usize, i64) -> i64,
        P: Fn(usize, usize, i64, usize, i64) -> i64,
    >(&mut self, minimum_pulls: &Vec<Option<usize>>, accumulate: &F, priority: &P) -> (result:
        OperationResult<DynamicRrfAdvance>)
        requires
            old(self).wf(),
            accepts(*accumulate),
            accepts_priority(*priority),
        ensures
            final(self).wf(),
            continues_session(old(self)@, final(self)@),
            all_descend(old(self).streams(), final(self).streams()),
            minimum_pulls@.len() == old(self)@.fusion.weights.len() ==> old(self).state().runs(
                minimum_pulls@,
                *accumulate,
                *priority,
                result,
                final(self).state(),
            ),
            minimum_pulls@.len() != old(self)@.fusion.weights.len() ==> {
                &&& result == refused::<DynamicRrfAdvance>(
                    Fault::PauseTargetCount {
                        got: minimum_pulls@.len() as usize,
                        expected: old(self)@.fusion.weights.len() as usize,
                    },
                )
                &&& *final(self) == *old(self)
            },
            minimum_pulls@.len() == old(self)@.fusion.weights.len() ==> {
                &&& result matches Ok(DynamicRrfAdvance::Fixed(execution)) ==> {
                    &&& final(self)@.reported(execution)
                    &&& exists|rows: Seq<PointBounds>, unseen: i64|
                        #[trigger] is_outcome(
                            final(self)@,
                            *accumulate,
                            rows,
                            unseen,
                            Some(execution.point_ids@),
                        )
                }
                &&& result matches Ok(DynamicRrfAdvance::Paused) ==> {
                    &&& final(self)@.pause_reached(minimum_pulls@)
                    &&& exists|rows: Seq<PointBounds>, unseen: i64|
                        #[trigger] is_outcome(final(self)@, *accumulate, rows, unseen, None)
                }
                &&& forall|rankings: Seq<Seq<ExtendedPointId>>| #[trigger]
                    old(self).follows(rankings) ==> result is Ok && final(self).follows(rankings)
                &&& forall|
                    rankings: Seq<Seq<ExtendedPointId>>,
                    failures: Seq<Option<OperationError>>,
                | #[trigger]
                    old(self).leads(rankings, failures) ==> match result {
                        Ok(_) => final(self).leads(rankings, failures),
                        Err(error) => failures.contains(Some(error)),
                    }
            },
    {
        let count: usize = self.progress.source_count();
        proof {
            lemma_descends_itself(self.streams());
        }
        if minimum_pulls.len() != count {
            proof {
                self.lemma_valid();
                lemma_session_continues_itself(self@);
            }
            return refuse(
                Fault::PauseTargetCount { got: minimum_pulls.len(), expected: count },
            );
        }
        proof {
            self.lemma_valid();
            lemma_session_continues_itself(self@);
        }
        let ghost mut pulled: nat = 0;
        loop
            invariant
                self.wf(),
                accepts(*accumulate),
                accepts_priority(*priority),
                minimum_pulls@.len() == self@.fusion.weights.len(),
                old(self).state().comes_to(
                    minimum_pulls@,
                    *accumulate,
                    *priority,
                    pulled,
                    self.state(),
                ),
                continues_session(old(self)@, self@),
                all_descend(old(self).streams(), self.streams()),
                forall|rankings: Seq<Seq<ExtendedPointId>>| #[trigger]
                    old(self).follows(rankings) ==> self.follows(rankings),
                forall|rankings: Seq<Seq<ExtendedPointId>>, failures: Seq<Option<OperationError>>|
                    #[trigger] old(self).leads(rankings, failures) ==> self.leads(
                        rankings,
                        failures,
                    ),
            decreases usize::MAX - self@.schedule.len(),
        {
            let ghost before = self@;
            let ghost state = self.state();
            proof {
                self.lemma_valid();
            }
            match self.progress.next_step(minimum_pulls, accumulate, priority) {
                SessionStep::Fixed(execution) => {
                    proof {
                        self.lemma_valid();
                        assert(state.stops(
                            minimum_pulls@,
                            *accumulate,
                            *priority,
                            Ok(DynamicRrfAdvance::Fixed(execution)),
                            self.state(),
                        ));
                        let (rows, unseen) = choose|rows: Seq<PointBounds>, unseen: i64|
                            #[trigger] is_outcome(
                                before,
                                *accumulate,
                                rows,
                                unseen,
                                Some(execution.point_ids@),
                            );
                        assert(is_outcome(
                            self@,
                            *accumulate,
                            rows,
                            unseen,
                            Some(execution.point_ids@),
                        ));
                    }
                    return Ok(DynamicRrfAdvance::Fixed(execution));
                },
                SessionStep::Paused => {
                    proof {
                        self.lemma_valid();
                        assert(state.stops(
                            minimum_pulls@,
                            *accumulate,
                            *priority,
                            Ok(DynamicRrfAdvance::Paused),
                            self.state(),
                        ));
                        let (rows, unseen) = choose|rows: Seq<PointBounds>, unseen: i64|
                            {
                                &&& #[trigger] is_outcome(before, *accumulate, rows, unseen, None)
                                &&& self@ == (if before.check_due() {
                                    before.after_due_check(rows, unseen)
                                } else {
                                    before
                                }).unfixed(rows, unseen)
                            };
                        assert(is_outcome(self@, *accumulate, rows, unseen, None));
                        assert(before.pause_reached(minimum_pulls@));
                        assert forall|source: int| 0 <= source < minimum_pulls@.len() implies
                            #[trigger] self@.target_reached(minimum_pulls@, source) by {
                            assert(before.target_reached(minimum_pulls@, source));
                        }
                    }
                    return Ok(DynamicRrfAdvance::Paused);
                },
                SessionStep::Pull(source) => {
                    let ghost chosen = self@;
                    proof {
                        self.lemma_valid();
                        assert(chosen.fusion == before.fusion);
                        assert(chosen.schedule == before.schedule.push(source));
                        assert(before.schedule =~= chosen.schedule.take(
                            before.schedule.len() as int,
                        ));
                        assert(continues_session(before, chosen)) by {
                            lemma_session_continues_itself(before);
                        }
                    }
                    let start_rank: usize = match self.progress.source_history(source) {
                        Some(history) => history.len(),
                        None => 0,
                    };
                    let batch_size: usize = self.progress.batch_size();
                    let ghost streams = self.streams();
                    let answer = self.sources[source].pull(start_rank, batch_size);
                    let ghost asked = self.state();
                    proof {
                        assert(self.streams() =~= streams.update(
                            source as int,
                            self.streams()[source as int],
                        ));
                        lemma_one_pull_descends(
                            old(self).streams(),
                            streams,
                            self.streams(),
                            source as int,
                            start_rank,
                            batch_size,
                            answer,
                        );
                        assert(state.asks(
                            minimum_pulls@,
                            *accumulate,
                            *priority,
                            source,
                            answer,
                            asked,
                        ));
                    }
                    let batch = match answer {
                        Ok(batch) => batch,
                        Err(error) => {
                            proof {
                                lemma_continues_transitive(old(self)@, before, self@);
                                assert(state.stops(
                                    minimum_pulls@,
                                    *accumulate,
                                    *priority,
                                    Err::<DynamicRrfAdvance, OperationError>(error),
                                    self.state(),
                                ));
                                assert forall|
                                    rankings: Seq<Seq<ExtendedPointId>>,
                                    failures: Seq<Option<OperationError>>,
                                | #[trigger]
                                    old(self).leads(rankings, failures) implies failures.contains(
                                    Some(error),
                                ) by {
                                    assert(streams[source as int].leads(
                                        chosen.fusion.histories[source as int],
                                        rankings[source as int],
                                        failures[source as int],
                                    ));
                                    assert(failures[source as int] == Some(error));
                                }
                            }
                            return Err(error);
                        },
                    };
                    let result = self.progress.supply(source, &batch);
                    proof {
                        self.lemma_valid();
                        assert forall|rankings: Seq<Seq<ExtendedPointId>>| #[trigger]
                            old(self).follows(rankings) implies result is Ok && self.follows(
                            rankings,
                        ) by {
                            lemma_supply_follows(chosen, rankings, source, batch);
                            assert(streams[source as int].completes(
                                chosen.fusion.histories[source as int],
                                rankings[source as int],
                            ));
                        }
                        assert forall|
                            rankings: Seq<Seq<ExtendedPointId>>,
                            failures: Seq<Option<OperationError>>,
                        | #[trigger]
                            old(self).leads(rankings, failures) implies result is Ok && self.leads(
                            rankings,
                            failures,
                        ) by {
                            assert(streams[source as int].leads(
                                chosen.fusion.histories[source as int],
                                rankings[source as int],
                                failures[source as int],
                            ));
                            lemma_supply_follows(chosen, rankings, source, batch);
                        }
                        if result is Ok {
                            lemma_supplied_continues(
                                chosen,
                                source,
                                batch.point_ids@,
                                batch.exhausted,
                            );
                            lemma_continues_transitive(before, chosen, self@);
                        }
                        lemma_continues_transitive(old(self)@, before, self@);
                    }
                    match result {
                        Ok(_) => {
                            proof {
                                assert(state.pulls(
                                    minimum_pulls@,
                                    *accumulate,
                                    *priority,
                                    source,
                                    batch,
                                    self.state(),
                                ));
                                old(self).state().lemma_one_more_pull(
                                    minimum_pulls@,
                                    *accumulate,
                                    *priority,
                                    pulled,
                                    state,
                                    source,
                                    batch,
                                    self.state(),
                                );
                                pulled = pulled + 1;
                            }
                        },
                        Err(error) => {
                            assert(state.stops(
                                minimum_pulls@,
                                *accumulate,
                                *priority,
                                Err::<DynamicRrfAdvance, OperationError>(error),
                                self.state(),
                            ));
                            return Err(error);
                        },
                    }
                },
            }
        }
    }

    /// Advances until the Top-K is fixed.
    pub fn run_to_completion<
        F: Fn(i64, usize, usize, i64) -> i64,
        P: Fn(usize, usize, i64, usize, i64) -> i64,
    >(&mut self, accumulate: &F, priority: &P) -> (result: OperationResult<DynamicRrfExecution>)
        requires
            old(self).wf(),
            accepts(*accumulate),
            accepts_priority(*priority),
        ensures
            final(self).wf(),
            continues_session(old(self)@, final(self)@),
            all_descend(old(self).streams(), final(self).streams()),
            old(self).state().runs(
                no_targets(old(self)@.fusion.weights.len()),
                *accumulate,
                *priority,
                completed(result),
                final(self).state(),
            ),
            result matches Ok(execution) ==> {
                &&& final(self)@.reported(execution)
                &&& exists|rows: Seq<PointBounds>, unseen: i64|
                    #[trigger] is_outcome(
                        final(self)@,
                        *accumulate,
                        rows,
                        unseen,
                        Some(execution.point_ids@),
                    )
            },
            forall|rankings: Seq<Seq<ExtendedPointId>>| #[trigger]
                old(self).follows(rankings) ==> {
                    &&& final(self).follows(rankings)
                    &&& result matches Ok(execution)
                    &&& is_exhaustive_prefix(
                        *accumulate,
                        rankings,
                        old(self)@.fusion.rrf_k,
                        old(self)@.fusion.weights,
                        old(self)@.fusion.top_k,
                        execution.point_ids@,
                    )
                },
            forall|rankings: Seq<Seq<ExtendedPointId>>, failures: Seq<Option<OperationError>>|
                #[trigger] old(self).leads(rankings, failures) ==> match result {
                    Ok(execution) => final(self).leads(rankings, failures) && is_exhaustive_prefix(
                        *accumulate,
                        rankings,
                        old(self)@.fusion.rrf_k,
                        old(self)@.fusion.weights,
                        old(self)@.fusion.top_k,
                        execution.point_ids@,
                    ),
                    Err(error) => failures.contains(Some(error)),
                },
    {
        let targets: Vec<Option<usize>> = repeated(None, self.progress.source_count());
        assert(targets@ =~= no_targets(self@.fusion.weights.len()));
        match self.advance_until_each(&targets, accumulate, priority) {
            Ok(DynamicRrfAdvance::Fixed(execution)) => {
                proof {
                    self.lemma_valid();
                    let (rows, unseen) = choose|rows: Seq<PointBounds>, unseen: i64|
                        #[trigger] is_outcome(
                            self@,
                            *accumulate,
                            rows,
                            unseen,
                            Some(execution.point_ids@),
                        );
                    assert forall|rankings: Seq<Seq<ExtendedPointId>>| #[trigger]
                        old(self).follows(rankings) implies is_exhaustive_prefix(
                        *accumulate,
                        rankings,
                        old(self)@.fusion.rrf_k,
                        old(self)@.fusion.weights,
                        old(self)@.fusion.top_k,
                        execution.point_ids@,
                    ) by {
                        lemma_outcome_is_exhaustive(
                            *accumulate,
                            self@,
                            rows,
                            unseen,
                            execution.point_ids@,
                            rankings,
                        );
                    }
                    assert forall|
                        rankings: Seq<Seq<ExtendedPointId>>,
                        failures: Seq<Option<OperationError>>,
                    | #[trigger]
                        old(self).leads(rankings, failures) implies is_exhaustive_prefix(
                        *accumulate,
                        rankings,
                        old(self)@.fusion.rrf_k,
                        old(self)@.fusion.weights,
                        old(self)@.fusion.top_k,
                        execution.point_ids@,
                    ) by {
                        lemma_outcome_is_exhaustive(
                            *accumulate,
                            self@,
                            rows,
                            unseen,
                            execution.point_ids@,
                            rankings,
                        );
                    }
                }
                Ok(execution)
            },
            Ok(DynamicRrfAdvance::Paused) => {
                proof {
                    let source = choose|source: int|
                        0 <= source < targets@.len() && (#[trigger] targets@[source]) is Some;
                    assert(targets@[source] is None);
                }
                vstd::pervasive::unreached()
            },
            Err(error) => Err(error),
        }
    }

    /// Raises the prefix target and advances until that prefix is fixed. Once
    /// every source has ended the complete order is kept, and later prefixes are
    /// read from it.
    pub fn run_to_prefix<
        F: Fn(i64, usize, usize, i64) -> i64,
        P: Fn(usize, usize, i64, usize, i64) -> i64,
    >(&mut self, top_k: usize, accumulate: &F, priority: &P) -> (result: OperationResult<
        DynamicRrfExecution,
    >)
        requires
            old(self).wf(),
            accepts(*accumulate),
            accepts_priority(*priority),
        ensures
            final(self).wf(),
            extends_prefix(*old(self), top_k, *accumulate, *priority, result, *final(self)),
    {
        proof {
            lemma_descends_itself(self.streams());
        }
        match self.progress.extend_top_k(top_k) {
            Ok(_) => {},
            Err(error) => {
                return Err(error);
            },
        }
        let ghost raised = self@;
        proof {
            self.lemma_valid();
            lemma_session_continues_itself(raised);
            if order_is_kept(old(self)@, *accumulate) {
                lemma_raising_keeps_bounds(old(self)@, top_k, *accumulate);
            }
            assert forall|rankings: Seq<Seq<ExtendedPointId>>| #[trigger]
                old(self).follows(rankings) implies self.follows(rankings) by {
                assert(self.streams() == old(self).streams());
            }
            assert forall|
                rankings: Seq<Seq<ExtendedPointId>>,
                failures: Seq<Option<OperationError>>,
            | #[trigger]
                old(self).leads(rankings, failures) implies self.leads(rankings, failures) by {
                assert(self.streams() == old(self).streams());
            }
        }
        match self.progress.known_prefix(top_k) {
            Some(execution) => {
                proof {
                    assert forall|rankings: Seq<Seq<ExtendedPointId>>| #[trigger]
                        old(self).follows(rankings) && order_is_kept(
                            old(self)@,
                            *accumulate,
                        ) implies is_exhaustive_prefix(
                        *accumulate,
                        rankings,
                        old(self)@.fusion.rrf_k,
                        old(self)@.fusion.weights,
                        top_k,
                        execution.point_ids@,
                    ) by {
                        lemma_kept_order_is_exhaustive(*accumulate, raised, rankings, top_k);
                    }
                    assert forall|
                        rankings: Seq<Seq<ExtendedPointId>>,
                        failures: Seq<Option<OperationError>>,
                    | #[trigger]
                        old(self).leads(rankings, failures) && order_is_kept(
                            old(self)@,
                            *accumulate,
                        ) implies is_exhaustive_prefix(
                        *accumulate,
                        rankings,
                        old(self)@.fusion.rrf_k,
                        old(self)@.fusion.weights,
                        top_k,
                        execution.point_ids@,
                    ) by {
                        lemma_kept_order_is_exhaustive(*accumulate, raised, rankings, top_k);
                    }
                }
                return Ok(execution);
            },
            None => {},
        }
        let ghost resumed = *self;
        let outcome = self.run_to_completion(accumulate, priority);
        assert((SessionState { view: raised, streams: old(self).streams() }).runs(
            no_targets(old(self)@.fusion.weights.len()),
            *accumulate,
            *priority,
            completed(outcome),
            self.state(),
        ));
        let execution = match outcome {
            Ok(execution) => execution,
            Err(error) => {
                return Err(error);
            },
        };
        if execution.stop_reason == DynamicRrfStopReason::AllSourcesExhausted {
            let ghost ran = *self;
            self.progress.keep_order(accumulate);
            proof {
                self.lemma_valid();
                assert(order_is_kept(self@, *accumulate));
                assert forall|rankings: Seq<Seq<ExtendedPointId>>| #[trigger]
                    old(self).follows(rankings) implies is_exhaustive_prefix(
                    *accumulate,
                    rankings,
                    old(self)@.fusion.rrf_k,
                    old(self)@.fusion.weights,
                    top_k,
                    first_of(self@.order->0, top_k),
                ) && self.follows(rankings) by {
                    assert(resumed.follows(rankings));
                    assert(ran.follows(rankings));
                    assert(self.streams() == ran.streams());
                    lemma_kept_order_is_exhaustive(*accumulate, self@, rankings, top_k);
                }
                assert forall|
                    rankings: Seq<Seq<ExtendedPointId>>,
                    failures: Seq<Option<OperationError>>,
                | #[trigger]
                    old(self).leads(rankings, failures) implies is_exhaustive_prefix(
                    *accumulate,
                    rankings,
                    old(self)@.fusion.rrf_k,
                    old(self)@.fusion.weights,
                    top_k,
                    first_of(self@.order->0, top_k),
                ) && self.leads(rankings, failures) by {
                    assert(resumed.leads(rankings, failures));
                    assert(ran.leads(rankings, failures));
                    assert(self.streams() == ran.streams());
                    lemma_kept_order_is_exhaustive(*accumulate, self@, rankings, top_k);
                }
            }
            match self.progress.known_prefix(top_k) {
                Some(prefix) => {
                    return Ok(prefix);
                },
                None => {},
            }
        }
        Ok(execution)
    }
}

/// What is returned for a session that is set up.
pub open spec fn is_new_session<S: ExactRrfStream, B: ExactRrfBatchStream>(
    sources: Seq<DynamicRrfSource<S, B>>,
    source_batch_size: usize,
    top_k: usize,
    rrf_k: usize,
    weights: Option<Seq<i64>>,
    costs: Seq<i64>,
    policy: DynamicRrfPolicy,
    result: OperationResult<DynamicRrfSession<S, B>>,
) -> bool {
    let count = sources.len() as usize;
    match session_fault(count, source_batch_size, rrf_k, weights, costs, policy) {
        Some(fault) => result == refused::<DynamicRrfSession<S, B>>(fault),
        None => result matches Ok(session) && session.wf() && session.streams() == sources
            && session@ == fresh_session(
            count,
            source_batch_size,
            top_k,
            rrf_k,
            weights,
            costs,
            policy,
        ),
    }
}

pub proof fn lemma_session_continues_itself(view: ProgressView)
    requires
        view.valid(),
    ensures
        continues_session(view, view),
{
    assert(view.schedule =~= view.schedule.take(view.schedule.len() as int));
    assert forall|source: int| 0 <= source < view.fusion.histories.len() implies (
    #[trigger] view.fusion.histories[source]) == view.fusion.histories[source].take(
        view.fusion.histories[source].len() as int,
    ) by {
        let history = view.fusion.histories[source];
        assert(history =~= history.take(history.len() as int));
    }
}

pub proof fn lemma_continues_transitive(first: ProgressView, second: ProgressView, third: ProgressView)
    requires
        continues_session(first, second),
        continues_session(second, third),
    ensures
        continues_session(first, third),
{
    assert(first.schedule =~= third.schedule.take(first.schedule.len() as int)) by {
        assert(second.schedule == third.schedule.take(second.schedule.len() as int));
    }
    assert forall|source: int| 0 <= source < first.fusion.histories.len() implies {
        let history = #[trigger] first.fusion.histories[source];
        &&& history.len() <= third.fusion.histories[source].len()
        &&& history == third.fusion.histories[source].take(history.len() as int)
        &&& first.fusion.exhausted[source] ==> third.fusion.exhausted[source] && history
            == third.fusion.histories[source]
    } by {
        let history = first.fusion.histories[source];
        let middle = second.fusion.histories[source];
        assert(middle == third.fusion.histories[source].take(middle.len() as int));
        assert(history =~= third.fusion.histories[source].take(history.len() as int));
    }
}

pub proof fn lemma_supplied_continues(
    view: ProgressView,
    source: usize,
    ids: Seq<ExtendedPointId>,
    ends: bool,
)
    requires
        view.valid(),
        source < view.fusion.weights.len(),
        !view.fusion.exhausted[source as int],
    ensures
        continues_session(view, view.supplied(source, ids, ends)),
{
    lemma_session_continues_itself(view);
    let history = view.fusion.histories[source as int];
    assert(history =~= (history + ids).take(history.len() as int));
}

/// A batch that continues its ranking is accepted, and the session goes on
/// following the rankings.
pub proof fn lemma_supply_follows(
    view: ProgressView,
    rankings: Seq<Seq<ExtendedPointId>>,
    source: usize,
    batch: ChannelRankBatch,
)
    requires
        view.valid(),
        can_become(view.fusion, rankings),
        source < view.fusion.weights.len(),
        !view.fusion.exhausted[source as int],
        ({
            let history = view.fusion.histories[source as int];
            let ranking = rankings[source as int];
            let count = batch.point_ids@.len();
            &&& batch.start_rank == history.len()
            &&& count <= view.batch_size
            &&& history.len() + count <= ranking.len()
            &&& batch.point_ids@ == ranking.subrange(
                history.len() as int,
                (history.len() + count) as int,
            )
            &&& batch.exhausted ==> history + batch.point_ids@ == ranking
            &&& count == 0 ==> batch.exhausted
        }),
    ensures
        view.supply_fault(source, batch.start_rank, batch.point_ids@, batch.exhausted) is None,
        can_become(
            view.supplied(source, batch.point_ids@, batch.exhausted).fusion,
            rankings,
        ),
{
    let history = view.fusion.histories[source as int];
    let ranking = rankings[source as int];
    let ids = batch.point_ids@;
    assert(history == ranking.take(history.len() as int));
    lemma_continuation_has_no_fault(history, ids, ranking, source);
    let after = view.supplied(source, ids, batch.exhausted).fusion;
    assert(history + ids =~= ranking.take((history.len() + ids.len()) as int));
    assert forall|other: int| 0 <= other < rankings.len() implies {
        let now = after.histories[other];
        &&& (#[trigger] rankings[other]).no_duplicates()
        &&& rankings[other].len() <= usize::MAX
        &&& now.len() <= rankings[other].len()
        &&& now == rankings[other].take(now.len() as int)
        &&& after.exhausted[other] ==> now == rankings[other]
    } by {
        if other != source {
            assert(after.histories[other] == view.fusion.histories[other]);
        }
    }
}

proof fn lemma_continuation_has_no_fault(
    history: Seq<ExtendedPointId>,
    ids: Seq<ExtendedPointId>,
    ranking: Seq<ExtendedPointId>,
    source: usize,
)
    requires
        ranking.no_duplicates(),
        history == ranking.take(history.len() as int),
        history.len() + ids.len() <= ranking.len(),
        ids == ranking.subrange(history.len() as int, (history.len() + ids.len()) as int),
    ensures
        super::state::duplicate_fault(history, ids, source) is None,
    decreases ids.len(),
{
    if ids.len() > 0 {
        let shorter = ids.drop_last();
        assert(shorter =~= ranking.subrange(
            history.len() as int,
            (history.len() + shorter.len()) as int,
        ));
        lemma_continuation_has_no_fault(history, shorter, ranking, source);
        let last = ids.last();
        assert(last == ranking[history.len() + ids.len() - 1]);
        if shorter.contains(last) {
            let k = choose|k: int| 0 <= k < shorter.len() && shorter[k] == last;
            assert(ranking[history.len() + k] == last);
        }
        if history.contains(last) {
            let k = choose|k: int| 0 <= k < history.len() && history[k] == last;
            assert(ranking[k] == last);
        }
    }
}


/// Raising the target of a session changes neither the bounds of the points nor
/// what a kept order is worth.
pub proof fn lemma_raising_keeps_bounds<F: Fn(i64, usize, usize, i64) -> i64>(
    view: ProgressView,
    top_k: usize,
    accumulate: F,
)
    requires
        order_is_kept(view, accumulate),
    ensures
        order_is_kept(view.raised(top_k), accumulate),
{
    if view.order is Some {
        let rows = choose|rows: Seq<PointBounds>|
            view.fusion.bounded_by(accumulate, rows) && view.order->0 == #[trigger] complete_ids(
                rows,
            );
        assert(view.raised(top_k).fusion.bounded_by(accumulate, rows));
        assert(view.order->0 == complete_ids(rows));
    }
}

/// A longer prefix of a fusion extends a shorter one.
pub proof fn law_longer_prefix_extends<F: Fn(i64, usize, usize, i64) -> i64>(
    accumulate: F,
    rankings: Seq<Seq<ExtendedPointId>>,
    rrf_k: usize,
    weights: Seq<i64>,
    fewer: usize,
    shorter: Seq<ExtendedPointId>,
    more: usize,
    longer: Seq<ExtendedPointId>,
    arithmetic: spec_fn(i64, usize, usize, i64) -> i64,
    order: Seq<ExtendedPointId>,
)
    requires
        fewer <= more,
        computes(accumulate, arithmetic),
        is_rank_arithmetic(arithmetic),
        is_exhaustive_fusion(arithmetic, rankings, rrf_k, weights, order),
        is_exhaustive_prefix(accumulate, rankings, rrf_k, weights, fewer, shorter),
        is_exhaustive_prefix(accumulate, rankings, rrf_k, weights, more, longer),
    ensures
        shorter.len() <= longer.len(),
        shorter == longer.take(shorter.len() as int),
        shorter == first_of(longer, fewer),
{
    assert(shorter == first_of(order, fewer));
    assert(longer == first_of(order, more));
    assert(shorter =~= longer.take(shorter.len() as int));
    assert(shorter =~= first_of(longer, fewer));
}

/// What running a session to a prefix does: a shorter prefix is refused; a longer one is
/// what the raised session comes to, or what the kept order begins with.
pub open spec fn extends_prefix<
    S: ExactRrfStream,
    B: ExactRrfBatchStream,
    F: Fn(i64, usize, usize, i64) -> i64,
    P: Fn(usize, usize, i64, usize, i64) -> i64,
>(
    before: DynamicRrfSession<S, B>,
    top_k: usize,
    accumulate: F,
    priority: P,
    result: OperationResult<DynamicRrfExecution>,
    after: DynamicRrfSession<S, B>,
) -> bool {
    &&& top_k < before@.fusion.top_k ==> {
        &&& result == refused::<DynamicRrfExecution>(
            Fault::PrefixDecrease { from: before@.fusion.top_k, to: top_k },
        )
        &&& after@ == before@
        &&& after.streams() == before.streams()
    }
    &&& all_descend(before.streams(), after.streams())
    &&& top_k >= before@.fusion.top_k ==> {
        &&& continues_session(
            before@.raised(top_k),
            (ProgressView { order: before@.order, ..after@ }),
        )
        &&& order_is_kept(before@, accumulate) ==> order_is_kept(
            after@,
            accumulate,
        )
        &&& result matches Ok(execution) ==> after@.reported(execution)
        &&& before@.order is None ==> exists|
            found: OperationResult<DynamicRrfExecution>,
            end: SessionState<S, B>,
        |
            {
                &&& #[trigger] (SessionState {
                    view: before@.raised(top_k),
                    streams: before.streams(),
                }).runs(
                    no_targets(before@.fusion.weights.len()),
                    accumulate,
                    priority,
                    completed(found),
                    end,
                )
                &&& after.streams() == end.streams
                &&& (ProgressView { order: end.view.order, ..after@ }) == end.view
                &&& result is Ok <==> found is Ok
                &&& result is Err ==> result == found && after@ == end.view
            }
        &&& before@.order matches Some(order) ==> {
            &&& result matches Ok(execution)
            &&& execution.point_ids@ == first_of(order, top_k)
            &&& after@ == before@.raised(top_k)
            &&& after.streams() == before.streams()
        }
        &&& before@.order is None ==> (result matches Ok(execution) ==> if all_ended(
            after@.fusion.exhausted,
        ) {
            &&& after@.order matches Some(order)
            &&& execution.point_ids@ == first_of(order, top_k)
            &&& order_is_kept(after@, accumulate)
        } else {
            &&& after@.order is None
            &&& exists|rows: Seq<PointBounds>, unseen: i64|
                #[trigger] is_outcome(
                    after@,
                    accumulate,
                    rows,
                    unseen,
                    Some(execution.point_ids@),
                )
        })
        &&& forall|rankings: Seq<Seq<ExtendedPointId>>| #[trigger]
            before.follows(rankings) && order_is_kept(before@, accumulate) ==> {
                &&& after.follows(rankings)
                &&& result matches Ok(execution)
                &&& is_exhaustive_prefix(
                    accumulate,
                    rankings,
                    before@.fusion.rrf_k,
                    before@.fusion.weights,
                    top_k,
                    execution.point_ids@,
                )
            }
        &&& forall|
            rankings: Seq<Seq<ExtendedPointId>>,
            failures: Seq<Option<OperationError>>,
        | #[trigger]
            before.leads(rankings, failures) && order_is_kept(
                before@,
                accumulate,
            ) ==> match result {
                Ok(execution) => after.leads(rankings, failures)
                    && is_exhaustive_prefix(
                    accumulate,
                    rankings,
                    before@.fusion.rrf_k,
                    before@.fusion.weights,
                    top_k,
                    execution.point_ids@,
                ),
                Err(error) => failures.contains(Some(error)),
            }
    }
}

} // verus!
