//! What a fusion takes and returns.

use crate::operation_error::{OperationError, OperationResult};
use crate::order::ExtendedPointId;
use vstd::prelude::*;

verus! {

/// One contiguous prefix extension of a channel-global exact rank stream.
///
/// `start_rank` is zero-based. `exhausted` says that no later rank exists.
/// A batch without identities that does not end its stream is refused.
#[derive(Clone, Debug, Eq, PartialEq)]
pub struct ChannelRankBatch {
    pub start_rank: usize,
    pub point_ids: Vec<ExtendedPointId>,
    pub exhausted: bool,
}

/// A recoverable channel-global exact rank stream.
///
/// A failure of the producer stays distinct from the end of the stream, so a
/// partial prefix is never certified after an error.
pub trait ExactRrfStream {
    /// What the stream will still yield, where that is known and never fails.
    open spec fn rest(&self) -> Option<Seq<ExtendedPointId>> {
        None
    }

    /// What the stream will still yield before it fails, and how it fails, where that
    /// is known.
    open spec fn failing(&self) -> Option<(Seq<ExtendedPointId>, OperationError)> {
        None
    }

    /// Whether the stream can answer a pull in this way, and is then in the given state.
    open spec fn replies(
        &self,
        result: OperationResult<Option<ExtendedPointId>>,
        later: &Self,
    ) -> bool {
        true
    }

    /// The next identity; `None` at the end.
    fn next(&mut self) -> (result: OperationResult<Option<ExtendedPointId>>)
        ensures
            old(self).replies(result, &*final(self)),
            old(self).rest() matches Some(ids) ==> if ids.len() == 0 {
                result == Ok::<Option<ExtendedPointId>, OperationError>(None) && final(self).rest() == Some(ids)
            } else {
                result == Ok::<Option<ExtendedPointId>, OperationError>(Some(ids[0])) && final(self).rest() == Some(ids.drop_first())
            },
            old(self).failing() matches Some((ids, error)) ==> if ids.len() == 0 {
                result == Err::<Option<ExtendedPointId>, OperationError>(error)
            } else {
                result == Ok::<Option<ExtendedPointId>, OperationError>(Some(ids[0]))
                    && final(self).failing() == Some((ids.drop_first(), error))
            },
    ;
}

/// A recoverable exact rank stream that is pulled in batches.
pub trait ExactRrfBatchStream {
    /// What the stream will still yield, where that is known and never fails.
    open spec fn rest(&self) -> Option<Seq<ExtendedPointId>> {
        None
    }

    /// How many identities the stream has yielded.
    open spec fn taken(&self) -> nat {
        0
    }

    /// What the stream can still yield before it fails, and how it fails, where that
    /// is known.
    open spec fn failing(&self) -> Option<(Seq<ExtendedPointId>, OperationError)> {
        None
    }

    /// Whether the stream can answer a pull of at most the given number of identities in
    /// this way, and is then in the given state.
    open spec fn replies(
        &self,
        max_results: usize,
        result: OperationResult<ChannelRankBatch>,
        later: &Self,
    ) -> bool {
        true
    }

    /// The next batch, of at most the given number of identities.
    fn pull(&mut self, max_results: usize) -> (result: OperationResult<ChannelRankBatch>)
        ensures
            old(self).replies(max_results, result, &*final(self)),
            max_results > 0 ==> (old(self).rest() matches Some(ids) ==> {
                &&& result matches Ok(batch)
                &&& continues(ids, old(self).taken(), max_results, batch)
                &&& final(self).rest() == Some(ids.skip(batch.point_ids@.len() as int))
                &&& final(self).taken() == old(self).taken() + batch.point_ids@.len()
            }),
            max_results > 0 ==> (old(self).failing() matches Some((ids, error)) ==> match result {
                Ok(batch) => {
                    &&& continues(ids, old(self).taken(), max_results, batch)
                    &&& !batch.exhausted
                    &&& final(self).failing() == Some(
                        (ids.skip(batch.point_ids@.len() as int), error),
                    )
                    &&& final(self).taken() == old(self).taken() + batch.point_ids@.len()
                },
                Err(reason) => reason == error,
            }),
    ;
}

/// Whether a batch is a proper continuation of a stream: the next identities,
/// not too many, and none only at the end.
pub open spec fn continues(
    rest: Seq<ExtendedPointId>,
    taken: nat,
    max_results: usize,
    batch: ChannelRankBatch,
) -> bool {
    let count = batch.point_ids@.len();
    &&& count <= max_results
    &&& count <= rest.len()
    &&& batch.start_rank == taken
    &&& batch.point_ids@ == rest.take(count as int)
    &&& batch.exhausted ==> count == rest.len()
    &&& count == 0 ==> batch.exhausted
}

/// An in-memory rank stream.
#[derive(Debug)]
pub struct IdStream {
    ids: Vec<ExtendedPointId>,
    position: usize,
}

impl IdStream {
    /// The identities that the stream holds.
    pub closed spec fn ids(&self) -> Seq<ExtendedPointId> {
        self.ids@
    }

    /// How many of them it has yielded.
    pub closed spec fn position(&self) -> nat {
        self.position as nat
    }
}

impl ExactRrfStream for IdStream {
    open spec fn rest(&self) -> Option<Seq<ExtendedPointId>> {
        if self.position() <= self.ids().len() {
            Some(self.ids().skip(self.position() as int))
        } else {
            None
        }
    }

    fn next(&mut self) -> (result: OperationResult<Option<ExtendedPointId>>)
        ensures
            final(self).ids() == old(self).ids(),
    {
        if self.position < self.ids.len() {
            let id = self.ids[self.position];
            self.position += 1;
            assert(self.ids().skip(self.position() as int) =~= old(self).ids().skip(
                old(self).position() as int,
            ).drop_first());
            Ok(Some(id))
        } else {
            Ok(None)
        }
    }
}

impl ExactRrfBatchStream for IdStream {
    open spec fn rest(&self) -> Option<Seq<ExtendedPointId>> {
        if self.position() <= self.ids().len() {
            Some(self.ids().skip(self.position() as int))
        } else {
            None
        }
    }

    open spec fn taken(&self) -> nat {
        self.position()
    }

    fn pull(&mut self, max_results: usize) -> (result: OperationResult<ChannelRankBatch>)
        ensures
            final(self).ids() == old(self).ids(),
    {
        let start_rank: usize = self.position;
        let ghost rest = self.ids@.skip(start_rank as int);
        let mut point_ids: Vec<ExtendedPointId> = Vec::new();
        while self.position < self.ids.len() && point_ids.len() < max_results
            invariant
                self.ids@ == old(self).ids@,
                start_rank == old(self).position,
                rest == self.ids@.skip(start_rank as int),
                self.position == start_rank + point_ids@.len(),
                start_rank <= self.ids@.len() ==> self.position <= self.ids@.len(),
                point_ids@.len() <= max_results,
                start_rank <= self.ids@.len() ==> point_ids@ =~= rest.take(
                    point_ids@.len() as int,
                ),
            decreases self.ids@.len() - self.position,
        {
            let id = self.ids[self.position];
            point_ids.push(id);
            self.position += 1;
        }
        let exhausted = self.position >= self.ids.len();
        proof {
            if start_rank <= self.ids@.len() {
                assert(self.ids@.skip(self.position as int) =~= rest.skip(point_ids@.len() as int));
            }
        }
        Ok(ChannelRankBatch { start_rank, point_ids, exhausted })
    }
}

/// Turns identities in memory into an exact rank stream that never fails.
pub fn infallible_exact_rrf_stream(source: Vec<ExtendedPointId>) -> (stream: IdStream)
    ensures
        stream.ids() == source@,
        stream.position() == 0,
        ExactRrfStream::rest(&stream) == Some(source@),
        ExactRrfBatchStream::rest(&stream) == Some(source@),
{
    let stream = IdStream { ids: source, position: 0 };
    assert(stream.ids().skip(0) =~= source@);
    stream
}

/// Why a fusion stopped.
#[derive(Clone, Copy, Debug, Eq, PartialEq, Structural)]
pub enum DynamicRrfStopReason {
    TopKFixed,
    AllSourcesExhausted,
}

/// The outcome of a fusion and the work that it took.
#[derive(Clone, Debug, Eq, PartialEq)]
pub struct DynamicRrfExecution {
    pub point_ids: Vec<ExtendedPointId>,
    pub source_pulls: Vec<usize>,
    pub source_exhausted: Vec<bool>,
    pub certification_checks: usize,
    pub stop_reason: DynamicRrfStopReason,
}

/// Where an advanced session stands.
#[derive(Clone, Debug, Eq, PartialEq)]
pub enum DynamicRrfAdvance {
    Fixed(DynamicRrfExecution),
    Paused,
}

/// How the next source to pull is chosen.
#[derive(Clone, Copy, Debug, Eq, PartialEq, Structural)]
pub enum DynamicRrfScheduler {
    /// Advance the source with the largest next contribution.
    MaxNextContribution,
    /// Prefer the source expected to remove the most live Top-K uncertainty
    /// per unit of physical work. This changes only the order of pulls.
    CompetitorCostAware,
}

impl Default for DynamicRrfScheduler {
    fn default() -> (scheduler: DynamicRrfScheduler)
        ensures
            scheduler == DynamicRrfScheduler::CompetitorCostAware,
    {
        DynamicRrfScheduler::CompetitorCostAware
    }
}

/// When a session checks, drains and rotates its sources.
#[derive(Clone, Copy, Debug, Eq, PartialEq, Structural)]
pub struct DynamicRrfPolicy {
    /// Pulls between checks while warming up; `None` checks once a source round.
    pub warmup_check_interval: Option<usize>,
    /// Drain the open streams once the pulls reach this many per source.
    pub exhaustive_after_pulls_per_source: Option<usize>,
    /// The choice of the source to pull.
    pub scheduler: DynamicRrfScheduler,
    /// The most actions, as a multiple of the source count, that a source may
    /// wait; `None` disables fairness.
    pub fairness_after_actions_per_source: Option<usize>,
}

/// The policy of sessions that give none.
pub open spec fn default_policy() -> DynamicRrfPolicy {
    DynamicRrfPolicy {
        warmup_check_interval: None,
        exhaustive_after_pulls_per_source: None,
        scheduler: DynamicRrfScheduler::CompetitorCostAware,
        fairness_after_actions_per_source: Some(8),
    }
}

impl Default for DynamicRrfPolicy {
    fn default() -> (policy: DynamicRrfPolicy)
        ensures
            policy == default_policy(),
    {
        DynamicRrfPolicy {
            warmup_check_interval: None,
            exhaustive_after_pulls_per_source: None,
            scheduler: DynamicRrfScheduler::CompetitorCostAware,
            fairness_after_actions_per_source: Some(8),
        }
    }
}

} // verus!
