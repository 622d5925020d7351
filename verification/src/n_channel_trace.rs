//! What a fusion over channels does, step by step: which channel it pulls, what that
//! channel answers, and when it stops.

use crate::exact_composition::account::answered_ids;
use crate::operation_error::{OperationError, OperationResult};
use crate::order::ExtendedPointId;
use crate::rank_stream::ReplayView;
use crate::reciprocal_rank_fusion::progress::{steps_to, ProgressView, SessionStep};
use crate::reciprocal_rank_fusion::types::DynamicRrfAdvance;
use vstd::prelude::*;

verus! {

/// A session over channels at some point: what it has observed, what the streams beneath
/// the channels have done, and what is left of the rankings that replaced some of them.
pub struct ChannelState {
    pub view: ProgressView,
    pub replays: Seq<ReplayView>,
    pub rests: Seq<Option<Seq<ExtendedPointId>>>,
    pub groups: Seq<usize>,
    pub readers: Seq<usize>,
}

impl ChannelState {
    /// The session after a ranking took the place of the stream of a channel: it goes on
    /// beyond what the channel has yielded.
    pub open spec fn replaced_by(
        self,
        source: int,
        ranking: Seq<ExtendedPointId>,
    ) -> ChannelState {
        let history = self.view.fusion.histories[source];
        ChannelState {
            rests: self.rests.update(source, Some(ranking.skip(history.len() as int))),
            ..self
        }
    }

    /// Whether a channel gives an answer: that the search is stopped, the next identity of
    /// the ranking that replaced its stream, or what the stream of its group gives it.
    pub open spec fn answers<T: Fn() -> bool>(
        self,
        stopped: T,
        source: usize,
        answer: OperationResult<Option<ExtendedPointId>>,
        after: ChannelState,
    ) -> bool {
        if answer == Err::<Option<ExtendedPointId>, OperationError>(OperationError::Cancelled)
            && stopped.ensures((), true) {
            after == self
        } else {
            &&& stopped.ensures((), false)
            &&& match self.rests[source as int] {
                Some(rest) => if rest.len() > 0 {
                    &&& answer == Ok::<Option<ExtendedPointId>, OperationError>(Some(rest[0]))
                    &&& after == (ChannelState {
                        rests: self.rests.update(source as int, Some(rest.drop_first())),
                        ..self
                    })
                } else {
                    &&& answer == Ok::<Option<ExtendedPointId>, OperationError>(None)
                    &&& after == self
                },
                None => {
                    let group = self.groups[source as int] as int;
                    &&& after == (ChannelState {
                        replays: self.replays.update(group, after.replays[group]),
                        ..self
                    })
                    &&& self.replays[group].asked_by(
                        self.readers[source as int] as int,
                        answer,
                        after.replays[group],
                    )
                },
            }
        }
    }

    /// Whether the session chooses a channel, asks it for one identity and gets the given
    /// answer.
    pub open spec fn asks<
        T: Fn() -> bool,
        F: Fn(i64, usize, usize, i64) -> i64,
        P: Fn(usize, usize, i64, usize, i64) -> i64,
    >(
        self,
        targets: Seq<Option<usize>>,
        stopped: T,
        accumulate: F,
        priority: P,
        source: usize,
        answer: OperationResult<Option<ExtendedPointId>>,
        after: ChannelState,
    ) -> bool {
        &&& steps_to(
            self.view,
            targets,
            accumulate,
            priority,
            SessionStep::Pull(source),
            after.view,
        )
        &&& (ChannelState { view: after.view, ..self }).answers(stopped, source, answer, after)
    }

    /// Whether the session pulls a channel and takes its answer.
    #[verifier::opaque]
    pub open spec fn pulls<
        T: Fn() -> bool,
        F: Fn(i64, usize, usize, i64) -> i64,
        P: Fn(usize, usize, i64, usize, i64) -> i64,
    >(
        self,
        targets: Seq<Option<usize>>,
        stopped: T,
        accumulate: F,
        priority: P,
        source: usize,
        after: ChannelState,
    ) -> bool {
        let rank = self.view.fusion.histories[source as int].len() as usize;
        exists|chosen: ChannelState, answer: Option<ExtendedPointId>|
            {
                &&& #[trigger] self.asks(
                    targets,
                    stopped,
                    accumulate,
                    priority,
                    source,
                    Ok(answer),
                    chosen,
                )
                &&& chosen.view.supply_fault(
                    source,
                    rank,
                    answered_ids(answer),
                    answer is None,
                ) is None
                &&& after == (ChannelState {
                    view: chosen.view.supplied(source, answered_ids(answer), answer is None),
                    ..chosen
                })
            }
    }

    /// Whether the session, after a number of pulls, is in the given state.
    #[verifier::opaque]
    pub open spec fn comes_to<
        T: Fn() -> bool,
        F: Fn(i64, usize, usize, i64) -> i64,
        P: Fn(usize, usize, i64, usize, i64) -> i64,
    >(
        self,
        targets: Seq<Option<usize>>,
        stopped: T,
        accumulate: F,
        priority: P,
        count: nat,
        after: ChannelState,
    ) -> bool
        decreases count,
    {
        if count == 0 {
            after == self
        } else {
            exists|middle: ChannelState, source: usize|
                {
                    &&& self.comes_to(
                        targets,
                        stopped,
                        accumulate,
                        priority,
                        (count - 1) as nat,
                        middle,
                    )
                    &&& #[trigger] middle.pulls(
                        targets,
                        stopped,
                        accumulate,
                        priority,
                        source,
                        after,
                    )
                }
        }
    }

    /// Whether the session stops as the result says: it has fixed its prefix or reached its
    /// pause, it is stopped, or the channel that it chose fails or is refused. A failure
    /// leaves what was observed as it was.
    #[verifier::opaque]
    pub open spec fn stops<
        T: Fn() -> bool,
        F: Fn(i64, usize, usize, i64) -> i64,
        P: Fn(usize, usize, i64, usize, i64) -> i64,
    >(
        self,
        targets: Seq<Option<usize>>,
        stopped: T,
        accumulate: F,
        priority: P,
        result: OperationResult<DynamicRrfAdvance>,
        after: ChannelState,
    ) -> bool {
        match result {
            Ok(DynamicRrfAdvance::Fixed(execution)) => {
                &&& after == (ChannelState { view: after.view, ..self })
                &&& steps_to(
                    self.view,
                    targets,
                    accumulate,
                    priority,
                    SessionStep::Fixed(execution),
                    after.view,
                )
            },
            Ok(DynamicRrfAdvance::Paused) => {
                &&& after == (ChannelState { view: after.view, ..self })
                &&& steps_to(
                    self.view,
                    targets,
                    accumulate,
                    priority,
                    SessionStep::Paused,
                    after.view,
                )
            },
            Err(error) => exists|
                source: usize,
                answer: OperationResult<Option<ExtendedPointId>>,
            |
                {
                    &&& #[trigger] self.asks(
                        targets,
                        stopped,
                        accumulate,
                        priority,
                        source,
                        answer,
                        after,
                    )
                    &&& match answer {
                        Err(failure) => error == failure,
                        Ok(id) => after.view.supply_fault(
                            source,
                            self.view.fusion.histories[source as int].len() as usize,
                            answered_ids(id),
                            id is None,
                        ) matches Some(fault) && error == OperationError::ValidationError(fault),
                    }
                },
        }
    }

    /// Whether the session pulls until it stops as the result says.
    pub open spec fn runs<
        T: Fn() -> bool,
        F: Fn(i64, usize, usize, i64) -> i64,
        P: Fn(usize, usize, i64, usize, i64) -> i64,
    >(
        self,
        targets: Seq<Option<usize>>,
        stopped: T,
        accumulate: F,
        priority: P,
        result: OperationResult<DynamicRrfAdvance>,
        after: ChannelState,
    ) -> bool {
        exists|count: nat, last: ChannelState|
            {
                &&& #[trigger] self.comes_to(targets, stopped, accumulate, priority, count, last)
                &&& last.stops(targets, stopped, accumulate, priority, result, after)
            }
    }

    /// A session that has pulled nothing is where it was.
    pub proof fn lemma_no_pulls<
        T: Fn() -> bool,
        F: Fn(i64, usize, usize, i64) -> i64,
        P: Fn(usize, usize, i64, usize, i64) -> i64,
    >(self, targets: Seq<Option<usize>>, stopped: T, accumulate: F, priority: P)
        ensures
            self.comes_to(targets, stopped, accumulate, priority, 0, self),
    {
        reveal(ChannelState::comes_to);
    }

    /// One more pull continues a session.
    pub proof fn lemma_one_more_pull<
        T: Fn() -> bool,
        F: Fn(i64, usize, usize, i64) -> i64,
        P: Fn(usize, usize, i64, usize, i64) -> i64,
    >(
        self,
        targets: Seq<Option<usize>>,
        stopped: T,
        accumulate: F,
        priority: P,
        count: nat,
        middle: ChannelState,
        source: usize,
        chosen: ChannelState,
        answer: Option<ExtendedPointId>,
        after: ChannelState,
    )
        requires
            self.comes_to(targets, stopped, accumulate, priority, count, middle),
            middle.asks(
                targets,
                stopped,
                accumulate,
                priority,
                source,
                Ok(answer),
                chosen,
            ),
            chosen.view.supply_fault(
                source,
                middle.view.fusion.histories[source as int].len() as usize,
                answered_ids(answer),
                answer is None,
            ) is None,
            after == (ChannelState {
                view: chosen.view.supplied(source, answered_ids(answer), answer is None),
                ..chosen
            }),
        ensures
            self.comes_to(targets, stopped, accumulate, priority, count + 1, after),
    {
        reveal(ChannelState::pulls);
        assert(middle.pulls(targets, stopped, accumulate, priority, source, after));
        reveal(ChannelState::comes_to);
        assert(self.comes_to(
            targets,
            stopped,
            accumulate,
            priority,
            ((count + 1) - 1) as nat,
            middle,
        ));
    }
}

} // verus!
