//! Composition over rank streams that report operation errors.

use super::exhaustive::exhausts;
use super::plan::ExactCompositionPlan;
use super::runtime::{executes, runs_on_demand};
use super::types::{
    ExactCompositionError, ExactCompositionExecution, ExactCompositionExecutionPolicy,
    ExactCompositionExhaustiveExecution, ExactCompositionStreamFailure,
    FallibleExactCompositionStream,
};
use crate::operation_error::OperationError;
use crate::order::ExtendedPointId;
use crate::reciprocal_rank_fusion::progress::accepts_priority;
use crate::reciprocal_rank_fusion::scoring::accepts;
use crate::reciprocal_rank_fusion::types::{default_policy, ExactRrfStream};
use vstd::prelude::*;

verus! {

/// Whether a closure describes every operation error.
pub open spec fn describes<D: Fn(&OperationError) -> String>(describe: D) -> bool {
    forall|error: &OperationError| #[trigger] describe.requires((error,))
}

/// The only words that a closure has for an error, where it has no others.
pub open spec fn described<D: Fn(&OperationError) -> String>(
    describe: D,
    error: OperationError,
) -> Option<String> {
    if exists|text: String| #[trigger] describes_only(describe, error, text) {
        Some(choose|text: String| #[trigger] describes_only(describe, error, text))
    } else {
        None
    }
}

/// Whether a closure has only the given words for an error.
pub open spec fn describes_only<D: Fn(&OperationError) -> String>(
    describe: D,
    error: OperationError,
    text: String,
) -> bool {
    forall|other: String| #[trigger] describe.ensures((&error,), other) ==> other == text
}

/// A closure that puts every operation error into words.
pub struct ErrorWords<D: Fn(&OperationError) -> String> {
    describe: D,
}

impl<D: Fn(&OperationError) -> String> ErrorWords<D> {
    /// The closure.
    pub closed spec fn describe(&self) -> D {
        self.describe
    }

    #[verifier::type_invariant]
    spec fn sound(self) -> bool {
        describes(self.describe)
    }

    /// A closure that describes every error.
    pub fn new(describe: D) -> (words: ErrorWords<D>)
        requires
            describes(describe),
        ensures
            words.describe() == describe,
    {
        ErrorWords { describe }
    }

    /// The failure that an operation error becomes.
    pub fn failure(&self, error: &OperationError) -> (failure: ExactCompositionStreamFailure)
        ensures
            failure matches ExactCompositionStreamFailure::Source(text)
                && self.describe().ensures((error,), text),
    {
        proof {
            use_type_invariant(self);
        }
        ExactCompositionStreamFailure::Source((self.describe)(error))
    }
}

/// A rank stream as the leaf of a composition: an operation error becomes a failure
/// of the source.
pub struct DescribedLeaf<S: ExactRrfStream, D: Fn(&OperationError) -> String> {
    pub stream: S,
    pub words: ErrorWords<D>,
}

impl<S: ExactRrfStream, D: Fn(&OperationError) -> String> FallibleExactCompositionStream for DescribedLeaf<S, D> {
    open spec fn rest(&self) -> Option<Seq<ExtendedPointId>> {
        self.stream.rest()
    }

    open spec fn failing(&self) -> Option<(Seq<ExtendedPointId>, ExactCompositionStreamFailure)> {
        match self.stream.failing() {
            Some((ids, error)) => match described(self.words.describe(), error) {
                Some(text) => Some((ids, ExactCompositionStreamFailure::Source(text))),
                None => None,
            },
            None => None,
        }
    }

    fn next(&mut self) -> (result: Result<
        Option<ExtendedPointId>,
        ExactCompositionStreamFailure,
    >) {
        match self.stream.next() {
            Ok(id) => Ok(id),
            Err(error) => Err(self.words.failure(&error)),
        }
    }
}

/// Whether leaves stand for the given rank streams, one for one.
pub open spec fn stand_for<S: ExactRrfStream, D: Fn(&OperationError) -> String>(
    leaves: Seq<Option<DescribedLeaf<S, D>>>,
    streams: Seq<Option<S>>,
    describe: D,
) -> bool {
    &&& leaves.len() == streams.len()
    &&& forall|node: int|
        0 <= node < streams.len() ==> match #[trigger] streams[node] {
            Some(stream) => leaves[node] matches Some(leaf) && leaf.stream == stream
                && leaf.words.describe() == describe,
            None => leaves[node] is None,
        }
}

/// The leaves that stand for the given rank streams.
pub fn described_leaves<S: ExactRrfStream, D: Fn(&OperationError) -> String + Copy>(
    streams: Vec<Option<S>>,
    describe: D,
) -> (leaves: Vec<Option<DescribedLeaf<S, D>>>)
    requires
        describes(describe),
    ensures
        stand_for(leaves@, streams@, describe),
{
    let ghost given = streams@;
    let mut left = streams;
    let mut leaves: Vec<Option<DescribedLeaf<S, D>>> = Vec::new();
    while left.len() > 0
        invariant
            describes(describe),
            left@ == given.skip(leaves@.len() as int),
            leaves@.len() <= given.len(),
            stand_for(leaves@, given.take(leaves@.len() as int), describe),
        decreases left@.len(),
    {
        let ghost before = leaves@;
        let stream = left.remove(0);
        match stream {
            Some(stream) => leaves.push(Some(DescribedLeaf { stream, words: ErrorWords::new(describe) })),
            None => leaves.push(None),
        }
        proof {
            let taken = given.take(before.len() as int);
            let longer = given.take(leaves@.len() as int);
            assert forall|node: int| 0 <= node < longer.len() implies match #[trigger] longer[node] {
                Some(stream) => leaves@[node] matches Some(leaf) && leaf.stream == stream
                    && leaf.words.describe() == describe,
                None => leaves@[node] is None,
            } by {
                if node < before.len() {
                    assert(taken[node] == longer[node]);
                    assert(leaves@[node] == before[node]);
                }
            }
            assert(left@ =~= given.skip(leaves@.len() as int));
        }
    }
    assert(given.take(leaves@.len() as int) =~= given);
    leaves
}

impl ExactCompositionPlan {
    /// Executes a network with supplied rank streams.
    pub fn execute_with_leaf_streams<
        S: ExactRrfStream,
        D: Fn(&OperationError) -> String + Copy,
        F: Fn(i64, usize, usize, i64) -> i64,
        P: Fn(usize, usize, i64, usize, i64) -> i64,
    >(
        &self,
        root_top_k: usize,
        leaf_streams: Vec<Option<S>>,
        describe: D,
        accumulate: &F,
        priority: &P,
    ) -> (result: Result<ExactCompositionExecution, ExactCompositionError>)
        requires
            self.wf(),
            describes(describe),
            accepts(*accumulate),
            accepts_priority(*priority),
        ensures
            exists|leaves: Seq<Option<DescribedLeaf<S, D>>>| #[trigger]
                stand_for(leaves, leaf_streams@, describe) && executes(
                    self,
                    root_top_k,
                    leaves,
                    default_policy(),
                    *accumulate,
                    result,
                ) && runs_on_demand(
                    self,
                    root_top_k,
                    leaves,
                    default_policy(),
                    *accumulate,
                    *priority,
                    result,
                ),
    {
        self.execute_with_leaf_streams_and_policy(
            root_top_k,
            leaf_streams,
            describe,
            ExactCompositionExecutionPolicy::default(),
            accumulate,
            priority,
        )
    }

    /// Executes a network with supplied rank streams under a policy.
    pub fn execute_with_leaf_streams_and_policy<
        S: ExactRrfStream,
        D: Fn(&OperationError) -> String + Copy,
        F: Fn(i64, usize, usize, i64) -> i64,
        P: Fn(usize, usize, i64, usize, i64) -> i64,
    >(
        &self,
        root_top_k: usize,
        leaf_streams: Vec<Option<S>>,
        describe: D,
        policy: ExactCompositionExecutionPolicy,
        accumulate: &F,
        priority: &P,
    ) -> (result: Result<ExactCompositionExecution, ExactCompositionError>)
        requires
            self.wf(),
            describes(describe),
            accepts(*accumulate),
            accepts_priority(*priority),
        ensures
            exists|leaves: Seq<Option<DescribedLeaf<S, D>>>| #[trigger]
                stand_for(leaves, leaf_streams@, describe) && executes(
                    self,
                    root_top_k,
                    leaves,
                    policy.fusion_policy,
                    *accumulate,
                    result,
                ) && runs_on_demand(
                    self,
                    root_top_k,
                    leaves,
                    policy.fusion_policy,
                    *accumulate,
                    *priority,
                    result,
                ),
    {
        let leaves = described_leaves(leaf_streams, describe);
        let ghost given = leaves@;
        let result = self.execute_with_fallible_leaf_streams_and_policy(
            root_top_k,
            leaves,
            policy,
            accumulate,
            priority,
        );
        assert(stand_for(given, leaf_streams@, describe));
        result
    }

    /// Materializes every node of a network with supplied rank streams.
    pub fn exhaustive_with_leaf_streams<
        S: ExactRrfStream,
        D: Fn(&OperationError) -> String + Copy,
        F: Fn(i64, usize, usize, i64) -> i64,
    >(
        &self,
        root_top_k: usize,
        leaf_streams: Vec<Option<S>>,
        describe: D,
        accumulate: &F,
    ) -> (result: Result<ExactCompositionExhaustiveExecution, ExactCompositionError>)
        requires
            self.wf(),
            describes(describe),
            accepts(*accumulate),
        ensures
            exists|leaves: Seq<Option<DescribedLeaf<S, D>>>| #[trigger]
                stand_for(leaves, leaf_streams@, describe) && exhausts(
                    self,
                    root_top_k,
                    leaves,
                    *accumulate,
                    result,
                ),
    {
        let leaves = described_leaves(leaf_streams, describe);
        let ghost given = leaves@;
        let result = self.exhaustive_with_fallible_leaf_streams(root_top_k, leaves, accumulate);
        assert(stand_for(given, leaf_streams@, describe));
        result
    }
}

} // verus!
