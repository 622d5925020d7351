//! What a composition takes and returns.

use crate::operation_error::OperationError;
use crate::order::ExtendedPointId;
use crate::reciprocal_rank_fusion::types::{default_policy, DynamicRrfPolicy, ExactRrfStream, IdStream};
use vstd::prelude::*;

verus! {

/// The number of a node in its network.
pub type ExactCompositionNodeId = usize;

/// Why a leaf stream stopped before its end.
#[derive(Clone, Debug, Eq, PartialEq)]
pub enum ExactCompositionStreamFailure {
    Cancelled,
    SnapshotChanged,
    Source(String),
}

/// An exact leaf stream that can fail.
pub trait FallibleExactCompositionStream {
    /// What the stream will still yield, where that is known and never fails.
    open spec fn rest(&self) -> Option<Seq<ExtendedPointId>> {
        None
    }

    /// What the stream will still yield before it fails, and how it fails, where that is
    /// known.
    open spec fn failing(&self) -> Option<(Seq<ExtendedPointId>, ExactCompositionStreamFailure)> {
        None
    }

    /// The next identity; `None` at the end.
    fn next(&mut self) -> (result: Result<
        Option<ExtendedPointId>,
        ExactCompositionStreamFailure,
    >)
        ensures
            old(self).rest() matches Some(ids) ==> if ids.len() == 0 {
                result == Ok::<Option<ExtendedPointId>, ExactCompositionStreamFailure>(None)
                    && final(self).rest() == Some(ids)
            } else {
                result == Ok::<Option<ExtendedPointId>, ExactCompositionStreamFailure>(
                    Some(ids[0]),
                ) && final(self).rest() == Some(ids.drop_first())
            },
            old(self).failing() matches Some((ids, failure)) ==> if ids.len() == 0 {
                result == Err::<Option<ExtendedPointId>, ExactCompositionStreamFailure>(failure)
            } else {
                result == Ok::<Option<ExtendedPointId>, ExactCompositionStreamFailure>(
                    Some(ids[0]),
                ) && final(self).failing() == Some((ids.drop_first(), failure))
            },
    ;
}

/// A node of a composition network.
#[derive(Clone, Debug, PartialEq)]
pub enum ExactCompositionNode {
    /// A leaf whose order is held by the plan.
    Leaf { order: Vec<ExtendedPointId> },
    /// A leaf whose exact stream is supplied at execution time.
    ExternalLeaf,
    /// A fusion of other nodes.
    Fusion {
        inputs: Vec<ExactCompositionNodeId>,
        /// The key of the weight of every input.
        weights: Vec<i64>,
        rrf_k: usize,
        /// `Some(k)` is one complete output; `None` stays open for further
        /// exact prefixes.
        output_limit: Option<usize>,
    },
}

/// Why a composition is refused or fails.
#[derive(Clone, Debug, Eq, PartialEq)]
pub enum ExactCompositionError {
    EmptyNetwork,
    InvalidRoot(ExactCompositionNodeId),
    InvalidInput { node: ExactCompositionNodeId, input: ExactCompositionNodeId },
    Cycle,
    DuplicateLeafIdentity { node: ExactCompositionNodeId, identity: ExtendedPointId },
    EmptyFusion(ExactCompositionNodeId),
    InvalidWeights(ExactCompositionNodeId),
    InvalidRrfK(ExactCompositionNodeId),
    InvalidOutputLimit(ExactCompositionNodeId),
    InvalidRequestedTopK,
    InvalidLeafStreams,
    MissingLeafStream(ExactCompositionNodeId),
    Leaf { node: ExactCompositionNodeId, failure: ExactCompositionStreamFailure },
    Fusion { node: ExactCompositionNodeId, error: OperationError },
}

/// How the fusions of a composition run.
#[derive(Clone, Copy, Debug, Eq, PartialEq, Structural)]
pub struct ExactCompositionExecutionPolicy {
    pub fusion_policy: DynamicRrfPolicy,
}

impl Default for ExactCompositionExecutionPolicy {
    fn default() -> (policy: ExactCompositionExecutionPolicy)
        ensures
            policy.fusion_policy == default_policy(),
    {
        ExactCompositionExecutionPolicy { fusion_policy: DynamicRrfPolicy::default() }
    }
}

/// What a node is.
#[derive(Clone, Copy, Debug, Eq, PartialEq, Structural)]
pub enum ExactCompositionNodeKind {
    Leaf,
    Fusion,
}

/// The work of one node.
#[derive(Clone, Debug, Default, Eq, PartialEq)]
pub struct ExactCompositionNodeTelemetry {
    pub node: ExactCompositionNodeId,
    pub kind: Option<ExactCompositionNodeKind>,
    pub output_limit: Option<usize>,
    pub logical_input_pulls: Vec<usize>,
    pub physical_output_pulls: usize,
    pub outputs_produced: usize,
    pub certification_checks: usize,
    pub peak_replay_buffered_identities: usize,
    pub cancelled: bool,
}

/// The outcome of a demand-driven execution and the work that it took.
#[derive(Clone, Debug, Default, Eq, PartialEq)]
pub struct ExactCompositionExecution {
    pub point_ids: Vec<ExtendedPointId>,
    pub nodes: Vec<ExactCompositionNodeTelemetry>,
    pub leaf_physical_pulls: usize,
    pub intermediate_outputs_produced: usize,
    /// The exact peak over all replay buffers.
    pub peak_replay_buffered_identities: usize,
    /// The sum of the peaks of the nodes: an upper bound, not a measurement.
    pub sum_node_peak_replay_buffered_identities: usize,
    pub cancelled_nodes: usize,
}

/// The outcome of a full materialization and the work that it took.
#[derive(Clone, Debug, Default, Eq, PartialEq)]
pub struct ExactCompositionExhaustiveExecution {
    pub point_ids: Vec<ExtendedPointId>,
    pub node_output_identities: Vec<usize>,
    pub leaf_identities_materialized: usize,
    pub intermediate_identities_materialized: usize,
    pub total_identities_materialized: usize,
}

impl FallibleExactCompositionStream for IdStream {
    open spec fn rest(&self) -> Option<Seq<ExtendedPointId>> {
        ExactRrfStream::rest(self)
    }

    fn next(&mut self) -> (result: Result<
        Option<ExtendedPointId>,
        ExactCompositionStreamFailure,
    >) {
        match ExactRrfStream::next(self) {
            Ok(id) => Ok(id),
            Err(_) => Err(ExactCompositionStreamFailure::Cancelled),
        }
    }
}

/// The stream of a leaf: the one that was supplied, or the order of the plan.
pub enum LeafStream<L> {
    Supplied(L),
    Held(IdStream),
}

impl<L: FallibleExactCompositionStream> LeafStream<L> {
    /// What the stream will still yield, where that is known and never fails.
    pub open spec fn rest(&self) -> Option<Seq<ExtendedPointId>> {
        match self {
            LeafStream::Supplied(stream) => stream.rest(),
            LeafStream::Held(stream) => FallibleExactCompositionStream::rest(stream),
        }
    }

    /// What the stream will still yield before it fails, and how it fails, where that is
    /// known.
    pub open spec fn failing(&self) -> Option<
        (Seq<ExtendedPointId>, ExactCompositionStreamFailure),
    > {
        match self {
            LeafStream::Supplied(stream) => stream.failing(),
            LeafStream::Held(_) => None,
        }
    }

    /// The next identity; `None` at the end.
    pub fn next(&mut self) -> (result: Result<
        Option<ExtendedPointId>,
        ExactCompositionStreamFailure,
    >)
        ensures
            old(self).rest() matches Some(ids) ==> if ids.len() == 0 {
                result == Ok::<Option<ExtendedPointId>, ExactCompositionStreamFailure>(None)
                    && final(self).rest() == Some(ids)
            } else {
                result == Ok::<Option<ExtendedPointId>, ExactCompositionStreamFailure>(
                    Some(ids[0]),
                ) && final(self).rest() == Some(ids.drop_first())
            },
            old(self).failing() matches Some((ids, failure)) ==> if ids.len() == 0 {
                result == Err::<Option<ExtendedPointId>, ExactCompositionStreamFailure>(failure)
            } else {
                result == Ok::<Option<ExtendedPointId>, ExactCompositionStreamFailure>(
                    Some(ids[0]),
                ) && final(self).failing() == Some((ids.drop_first(), failure))
            },
    {
        match self {
            LeafStream::Supplied(stream) => stream.next(),
            LeafStream::Held(stream) => FallibleExactCompositionStream::next(stream),
        }
    }
}

} // verus!
