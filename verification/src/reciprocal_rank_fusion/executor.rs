//! Fusions in one call.

use super::progress::{accepts_priority, fresh_session, session_fault};
use super::scoring::accepts;
use super::session::{
    completed, is_exhaustive_prefix, no_targets, DynamicRrfSession, DynamicRrfSource, SessionState,
};
use super::state::{effective_weights, weights_view, UNIT_WEIGHT};
use super::types::{
    default_policy, DynamicRrfExecution, DynamicRrfPolicy, ExactRrfBatchStream, ExactRrfStream,
    IdStream,
};
use crate::operation_error::{refused, OperationError, OperationResult};
use crate::order::ExtendedPointId;
use vstd::prelude::*;

verus! {

/// Whether the rankings can be those of sources: no identity twice in one.
pub open spec fn are_rankings(rankings: Seq<Seq<ExtendedPointId>>) -> bool {
    forall|source: int|
        0 <= source < rankings.len() ==> (#[trigger] rankings[source]).no_duplicates()
            && rankings[source].len() <= usize::MAX
}

/// Whether the streams, from their beginning, yield the given rankings.
pub open spec fn streams_yield<S: ExactRrfStream>(
    sources: Seq<S>,
    rankings: Seq<Seq<ExtendedPointId>>,
) -> bool {
    &&& rankings.len() == sources.len()
    &&& forall|source: int|
        0 <= source < rankings.len() ==> (#[trigger] sources[source]).rest() == Some(
            rankings[source],
        )
}

/// Whether the batch streams, from their beginning, yield the given rankings.
pub open spec fn batches_yield<B: ExactRrfBatchStream>(
    sources: Seq<B>,
    rankings: Seq<Seq<ExtendedPointId>>,
) -> bool {
    &&& rankings.len() == sources.len()
    &&& forall|source: int|
        0 <= source < rankings.len() ==> (#[trigger] sources[source]).rest() == Some(
            rankings[source],
        ) && sources[source].taken() == 0
}

/// Whether the streams, from their beginning, yield the given rankings, or first parts
/// of them up to the given failures.
pub open spec fn streams_lead<S: ExactRrfStream>(
    sources: Seq<S>,
    rankings: Seq<Seq<ExtendedPointId>>,
    failures: Seq<Option<OperationError>>,
) -> bool {
    &&& rankings.len() == sources.len()
    &&& failures.len() == sources.len()
    &&& forall|source: int|
        0 <= source < sources.len() ==> leads_from_start(
            (#[trigger] sources[source]).rest(),
            sources[source].failing(),
            rankings[source],
            failures[source],
        )
}

/// Whether a stream yields a ranking, or a first part of it up to a failure.
pub open spec fn leads_from_start(
    rest: Option<Seq<ExtendedPointId>>,
    failing: Option<(Seq<ExtendedPointId>, OperationError)>,
    ranking: Seq<ExtendedPointId>,
    failure: Option<OperationError>,
) -> bool {
    match failure {
        None => rest == Some(ranking),
        Some(error) => failing matches Some((ids, reason)) && reason == error
            && ids.is_prefix_of(ranking),
    }
}

/// Whether the batch streams, from their beginning, yield the given rankings, or first
/// parts of them up to the given failures.
pub open spec fn batches_lead<B: ExactRrfBatchStream>(
    sources: Seq<B>,
    rankings: Seq<Seq<ExtendedPointId>>,
    failures: Seq<Option<OperationError>>,
) -> bool {
    &&& rankings.len() == sources.len()
    &&& failures.len() == sources.len()
    &&& forall|source: int|
        0 <= source < sources.len() ==> (#[trigger] sources[source]).taken() == 0
            && leads_from_start(
            sources[source].rest(),
            sources[source].failing(),
            rankings[source],
            failures[source],
        )
}

/// What fusing sources that may fail returns: the first identities of the exhaustive
/// fusion, whatever a failing source would have yielded further, or the failure of a
/// source.
pub open spec fn fuses_or_fails<F: Fn(i64, usize, usize, i64) -> i64>(
    rankings: Seq<Seq<ExtendedPointId>>,
    failures: Seq<Option<OperationError>>,
    top_k: usize,
    rrf_k: usize,
    weights: Option<Seq<i64>>,
    accumulate: F,
    result: OperationResult<DynamicRrfExecution>,
) -> bool {
    match result {
        Ok(execution) => is_exhaustive_prefix(
            accumulate,
            rankings,
            rrf_k,
            effective_weights(rankings.len() as usize, weights),
            top_k,
            execution.point_ids@,
        ),
        Err(error) => failures.contains(Some(error)),
    }
}

/// Whether a fusion pulls from its sources as a session of its own does, until the
/// identities are fixed or a source fails: this decides how many identities every source
/// has yielded, which sources have ended, and why the fusion stopped.
pub open spec fn runs_alone<
    S: ExactRrfStream,
    B: ExactRrfBatchStream,
    F: Fn(i64, usize, usize, i64) -> i64,
    P: Fn(usize, usize, i64, usize, i64) -> i64,
>(
    streams: Seq<DynamicRrfSource<S, B>>,
    batch_size: usize,
    top_k: usize,
    rrf_k: usize,
    weights: Option<Seq<i64>>,
    policy: DynamicRrfPolicy,
    accumulate: F,
    priority: P,
    result: OperationResult<DynamicRrfExecution>,
) -> bool {
    let start = SessionState {
        view: fresh_session(
            streams.len() as usize,
            batch_size,
            top_k,
            rrf_k,
            weights,
            Seq::new(streams.len(), |i: int| UNIT_WEIGHT),
            policy,
        ),
        streams,
    };
    exists|end: SessionState<S, B>| #[trigger]
        start.runs(no_targets(streams.len()), accumulate, priority, completed(result), end)
}

/// Fuses streams of identities under the default policy.
pub fn execute_dynamic_rrf<
    S: ExactRrfStream,
    F: Fn(i64, usize, usize, i64) -> i64,
    P: Fn(usize, usize, i64, usize, i64) -> i64,
>(
    sources: Vec<S>,
    top_k: usize,
    rrf_k: usize,
    weights: Option<&Vec<i64>>,
    accumulate: &F,
    priority: &P,
) -> (result: OperationResult<DynamicRrfExecution>)
    requires
        accepts(*accumulate),
        accepts_priority(*priority),
    ensures
        fuses_streams(
            sources@,
            top_k,
            rrf_k,
            weights_view(weights),
            default_policy(),
            *accumulate,
            *priority,
            result,
        ),
{
    execute_dynamic_rrf_with_policy(
        sources,
        top_k,
        rrf_k,
        weights,
        DynamicRrfPolicy::default(),
        accumulate,
        priority,
    )
}

/// What fusing streams returns: the fault of the request, where it has one, and
/// otherwise, where the streams yield rankings and never fail, the first
/// identities of the exhaustive fusion of the rankings, whatever the policy. How many
/// pulls this takes the policy decides. Where a stream fails, its failure is returned only if the
/// identities are not fixed before.
pub open spec fn fuses_streams<
    S: ExactRrfStream,
    F: Fn(i64, usize, usize, i64) -> i64,
    P: Fn(usize, usize, i64, usize, i64) -> i64,
>(
    sources: Seq<S>,
    top_k: usize,
    rrf_k: usize,
    weights: Option<Seq<i64>>,
    policy: DynamicRrfPolicy,
    accumulate: F,
    priority: P,
    result: OperationResult<DynamicRrfExecution>,
) -> bool {
    let count = sources.len() as usize;
    let costs = Seq::new(sources.len(), |i: int| UNIT_WEIGHT);
    match session_fault(count, 1, rrf_k, weights, costs, policy) {
        Some(fault) => result == refused::<DynamicRrfExecution>(fault),
        None => {
            &&& runs_alone(
                Seq::new(
                    sources.len(),
                    |i: int| DynamicRrfSource::<S, IdStream>::Point(sources[i]),
                ),
                1,
                top_k,
                rrf_k,
                weights,
                policy,
                accumulate,
                priority,
                result,
            )
            &&& forall|rankings: Seq<Seq<ExtendedPointId>>|
                are_rankings(rankings) && #[trigger] streams_yield(sources, rankings) ==> {
                    &&& result matches Ok(execution)
                    &&& is_exhaustive_prefix(
                        accumulate,
                        rankings,
                        rrf_k,
                        effective_weights(count, weights),
                        top_k,
                        execution.point_ids@,
                    )
                }
            &&& forall|rankings: Seq<Seq<ExtendedPointId>>, failures: Seq<Option<OperationError>>|
                are_rankings(rankings) && #[trigger] streams_lead(sources, rankings, failures)
                    ==> fuses_or_fails(
                    rankings,
                    failures,
                    top_k,
                    rrf_k,
                    weights,
                    accumulate,
                    result,
                )
        },
    }
}

/// Fuses streams of identities.
pub fn execute_dynamic_rrf_with_policy<
    S: ExactRrfStream,
    F: Fn(i64, usize, usize, i64) -> i64,
    P: Fn(usize, usize, i64, usize, i64) -> i64,
>(
    sources: Vec<S>,
    top_k: usize,
    rrf_k: usize,
    weights: Option<&Vec<i64>>,
    policy: DynamicRrfPolicy,
    accumulate: &F,
    priority: &P,
) -> (result: OperationResult<DynamicRrfExecution>)
    requires
        accepts(*accumulate),
        accepts_priority(*priority),
    ensures
        fuses_streams(
            sources@,
            top_k,
            rrf_k,
            weights_view(weights),
            policy,
            *accumulate,
            *priority,
            result,
        ),
{
    match DynamicRrfSession::<S, IdStream>::new(sources, top_k, rrf_k, weights, policy) {
        Ok(session) => {
            let mut session = session;
            proof {
                assert forall|rankings: Seq<Seq<ExtendedPointId>>|
                    are_rankings(rankings) && #[trigger] streams_yield(
                        sources@,
                        rankings,
                    ) implies session.follows(rankings) by {
                    assert forall|source: int| 0 <= source < rankings.len() implies {
                        let history = session@.fusion.histories[source];
                        &&& (#[trigger] rankings[source]).no_duplicates()
                        &&& history == rankings[source].take(history.len() as int)
                    } by {
                        assert(rankings[source].take(0) =~= Seq::<ExtendedPointId>::empty());
                    }
                    assert forall|source: int| 0 <= source < rankings.len() implies (
                    #[trigger] session.streams()[source]).completes(
                        session@.fusion.histories[source],
                        rankings[source],
                    ) by {
                        assert(sources@[source].rest() == Some(rankings[source]));
                        assert(Seq::<ExtendedPointId>::empty() + rankings[source]
                            =~= rankings[source]);
                    }
                }
                assert forall|
                    rankings: Seq<Seq<ExtendedPointId>>,
                    failures: Seq<Option<OperationError>>,
                |
                    are_rankings(rankings) && #[trigger] streams_lead(
                        sources@,
                        rankings,
                        failures,
                    ) implies session.leads(rankings, failures) by {
                    assert forall|source: int| 0 <= source < rankings.len() implies {
                        let history = session@.fusion.histories[source];
                        &&& (#[trigger] rankings[source]).no_duplicates()
                        &&& history == rankings[source].take(history.len() as int)
                    } by {
                        assert(rankings[source].take(0) =~= Seq::<ExtendedPointId>::empty());
                    }
                    assert forall|source: int| 0 <= source < rankings.len() implies (
                    #[trigger] session.streams()[source]).leads(
                        session@.fusion.histories[source],
                        rankings[source],
                        failures[source],
                    ) by {
                        let start = Seq::<ExtendedPointId>::empty();
                        assert(leads_from_start(
                            sources@[source].rest(),
                            sources@[source].failing(),
                            rankings[source],
                            failures[source],
                        ));
                        assert(start + rankings[source] =~= rankings[source]);
                        if failures[source] is Some {
                            let (ids, _) = sources@[source].failing().unwrap();
                            assert(start + ids =~= ids);
                        }
                    }
                }
            }
            let ghost start = session.state();
            let result = session.run_to_completion(accumulate, priority);
            assert(start.runs(
                no_targets(start.streams.len()),
                *accumulate,
                *priority,
                completed(result),
                session.state(),
            ));
            result
        },
        Err(error) => Err(error),
    }
}

/// What fusing streams of batches returns: the fault of the request, or what a session over
/// them comes to, which hands the batch size to every pull. Where the streams yield rankings,
/// these are the first identities of the exhaustive fusion, whatever the batch size.
pub open spec fn fuses_batches<
    B: ExactRrfBatchStream,
    F: Fn(i64, usize, usize, i64) -> i64,
    P: Fn(usize, usize, i64, usize, i64) -> i64,
>(
    sources: Seq<B>,
    source_batch_size: usize,
    top_k: usize,
    rrf_k: usize,
    weights: Option<Seq<i64>>,
    policy: DynamicRrfPolicy,
    accumulate: F,
    priority: P,
    result: OperationResult<DynamicRrfExecution>,
) -> bool {
    let count = sources.len() as usize;
    let costs = Seq::new(sources.len(), |i: int| UNIT_WEIGHT);
    match session_fault(
        count,
        source_batch_size,
        rrf_k,
        weights,
        costs,
        policy,
    ) {
        Some(fault) => result == refused::<DynamicRrfExecution>(fault),
        None => {
            &&& runs_alone(
                Seq::new(
                    sources.len(),
                    |i: int| DynamicRrfSource::<IdStream, B>::Batch(sources[i]),
                ),
                source_batch_size,
                top_k,
                rrf_k,
                weights,
                policy,
                accumulate,
                priority,
                result,
            )
            &&& forall|rankings: Seq<Seq<ExtendedPointId>>|
                are_rankings(rankings) && #[trigger] batches_yield(sources, rankings) ==> {
                    &&& result matches Ok(execution)
                    &&& is_exhaustive_prefix(
                        accumulate,
                        rankings,
                        rrf_k,
                        effective_weights(count, weights),
                        top_k,
                        execution.point_ids@,
                    )
                }
            &&& forall|
                rankings: Seq<Seq<ExtendedPointId>>,
                failures: Seq<Option<OperationError>>,
            |
                are_rankings(rankings) && #[trigger] batches_lead(
                    sources,
                    rankings,
                    failures,
                ) ==> fuses_or_fails(
                    rankings,
                    failures,
                    top_k,
                    rrf_k,
                    weights,
                    accumulate,
                    result,
                )
        },
    }
}

/// Fuses streams of batches.
pub fn execute_dynamic_rrf_batches_with_policy<
    B: ExactRrfBatchStream,
    F: Fn(i64, usize, usize, i64) -> i64,
    P: Fn(usize, usize, i64, usize, i64) -> i64,
>(
    sources: Vec<B>,
    source_batch_size: usize,
    top_k: usize,
    rrf_k: usize,
    weights: Option<&Vec<i64>>,
    policy: DynamicRrfPolicy,
    accumulate: &F,
    priority: &P,
) -> (result: OperationResult<DynamicRrfExecution>)
    requires
        accepts(*accumulate),
        accepts_priority(*priority),
    ensures
        fuses_batches(
            sources@,
            source_batch_size,
            top_k,
            rrf_k,
            weights_view(weights),
            policy,
            *accumulate,
            *priority,
            result,
        ),
{
    match DynamicRrfSession::<IdStream, B>::new_batched(
        sources,
        source_batch_size,
        top_k,
        rrf_k,
        weights,
        policy,
    ) {
        Ok(session) => {
            let mut session = session;
            proof {
                assert forall|rankings: Seq<Seq<ExtendedPointId>>|
                    are_rankings(rankings) && #[trigger] batches_yield(
                        sources@,
                        rankings,
                    ) implies session.follows(rankings) by {
                    assert forall|source: int| 0 <= source < rankings.len() implies {
                        let history = session@.fusion.histories[source];
                        &&& (#[trigger] rankings[source]).no_duplicates()
                        &&& history == rankings[source].take(history.len() as int)
                    } by {
                        assert(rankings[source].take(0) =~= Seq::<ExtendedPointId>::empty());
                    }
                    assert forall|source: int| 0 <= source < rankings.len() implies (
                    #[trigger] session.streams()[source]).completes(
                        session@.fusion.histories[source],
                        rankings[source],
                    ) by {
                        assert(sources@[source].rest() == Some(rankings[source]));
                        assert(Seq::<ExtendedPointId>::empty() + rankings[source]
                            =~= rankings[source]);
                    }
                }
                assert forall|
                    rankings: Seq<Seq<ExtendedPointId>>,
                    failures: Seq<Option<OperationError>>,
                |
                    are_rankings(rankings) && #[trigger] batches_lead(
                        sources@,
                        rankings,
                        failures,
                    ) implies session.leads(rankings, failures) by {
                    assert forall|source: int| 0 <= source < rankings.len() implies {
                        let history = session@.fusion.histories[source];
                        &&& (#[trigger] rankings[source]).no_duplicates()
                        &&& history == rankings[source].take(history.len() as int)
                    } by {
                        assert(rankings[source].take(0) =~= Seq::<ExtendedPointId>::empty());
                    }
                    assert forall|source: int| 0 <= source < rankings.len() implies (
                    #[trigger] session.streams()[source]).leads(
                        session@.fusion.histories[source],
                        rankings[source],
                        failures[source],
                    ) by {
                        let start = Seq::<ExtendedPointId>::empty();
                        assert(leads_from_start(
                            sources@[source].rest(),
                            sources@[source].failing(),
                            rankings[source],
                            failures[source],
                        ));
                        assert(start + rankings[source] =~= rankings[source]);
                        if failures[source] is Some {
                            let (ids, _) = sources@[source].failing().unwrap();
                            assert(start + ids =~= ids);
                        }
                    }
                }
            }
            let ghost start = session.state();
            let result = session.run_to_completion(accumulate, priority);
            assert(start.runs(
                no_targets(start.streams.len()),
                *accumulate,
                *priority,
                completed(result),
                session.state(),
            ));
            result
        },
        Err(error) => Err(error),
    }
}

} // verus!
