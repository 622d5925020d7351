//! Demand-driven execution of a composition network.

use super::account::{
    accounts_for, all_grow, answered_ids, first_session, fixes, input_logs, is_logged, leaf_fails,
    finds_end, fusion_counts, fusion_logged, lemma_counts_survive, session_counts, leaf_logged, leaf_origin, lemma_comes_to_survives, lemma_fixes_known,
    lemma_fixes_now, lemma_grows_twice, lemma_inputs_grow, lemma_log_survives, lemma_no_outputs,
    lemma_no_pulls, lemma_one_more_pull, lemma_puts_out_one_more, lemma_puts_out_survives,
    lemma_session_refuses, lemma_session_stops, limit_of, log_comes_to, log_ends, network_origin,
    node_fails, puts_out, session_fails, LeafOrigin, NetworkOrigin, NodeLog,
};
use super::exhaustive::{
    are_outputs, are_streams_fit, breaks_off, counted, input_outputs, is_output, is_repeat,
    leaf_breaks_off, leaves_begin, leaves_yield, lemma_every_node_is_placed, limited, no_streams,
    repeats_at, streams_fit,
};
use super::plan::{inputs_of, lemma_sound_nodes, node_fault, ExactCompositionPlan};
use super::types::{
    ExactCompositionError, ExactCompositionExecution, ExactCompositionExecutionPolicy,
    ExactCompositionNode, ExactCompositionNodeKind, ExactCompositionNodeTelemetry,
    ExactCompositionStreamFailure, FallibleExactCompositionStream, LeafStream,
};
use crate::id_index::IdSet;
use crate::operation_error::{Fault, OperationError};
use crate::order::ExtendedPointId;
use crate::rank_stream::{
    all_left, is_retained_from, ReplayBuffer, ReplayBufferTracker, ReplayView,
};
use crate::reciprocal_rank_fusion::certificate::{can_become, is_exhaustive_fusion};
use crate::reciprocal_rank_fusion::progress::{
    accepts_priority, is_outcome, steps_to, ProgressView, RrfProgress, SessionStep,
};
use crate::reciprocal_rank_fusion::scoring::{accepts, computes, is_rank_arithmetic};
use crate::reciprocal_rank_fusion::session::{
    is_exhaustive_prefix, lemma_kept_order_is_exhaustive, lemma_outcome_is_exhaustive,
    lemma_raising_keeps_bounds, lemma_supply_follows, no_targets, order_is_kept,
};
use crate::reciprocal_rank_fusion::state::{first_of, PointBounds, UNIT_WEIGHT};
use crate::reciprocal_rank_fusion::types::{
    default_policy, infallible_exact_rrf_stream, ChannelRankBatch, DynamicRrfExecution,
    DynamicRrfPolicy, DynamicRrfStopReason, IdStream,
};
use crate::tables::{copied, repeated};
use vstd::prelude::*;

verus! {

/// What produces the output of a leaf.
pub struct LeafProducer<L> {
    stream: Option<LeafStream<L>>,
    seen: IdSet,
}

/// What produces the output of a fusion.
pub struct FusionProducer {
    session: Option<RrfProgress>,
    readers: Vec<usize>,
    output_limit: Option<usize>,
    emitted: usize,
    logical_input_pulls: Vec<usize>,
    certification_checks: usize,
}

/// What produces the output of a node.
pub enum Producer<L> {
    Leaf(LeafProducer<L>),
    Fusion(FusionProducer),
}

/// A node at work: its producer, and the output that its readers still need.
pub struct RuntimeNode<L> {
    replay: ReplayBuffer,
    producer: Producer<L>,
}

/// A network at work.
pub struct CompositionRuntime<L> {
    nodes: Vec<RuntimeNode<L>>,
    memory: ReplayBufferTracker,
}

/// The place of a node in the order of its plan.
pub open spec fn place_of(plan: &ExactCompositionPlan, node: usize) -> int {
    plan.order().index_of(node)
}

/// Inputs are placed before the node that they feed.
proof fn lemma_input_is_earlier(plan: &ExactCompositionPlan, node: usize, input: int)
    requires
        plan.wf(),
        node < plan.nodes().len(),
        0 <= input < inputs_of(plan.nodes()[node as int]).len(),
    ensures
        0 <= place_of(plan, inputs_of(plan.nodes()[node as int])[input]) < place_of(plan, node)
            < plan.order().len(),
        inputs_of(plan.nodes()[node as int])[input] < plan.nodes().len(),
{
    let order = plan.order();
    lemma_every_node_is_placed(plan, node);
    lemma_sound_nodes(plan.nodes());
    let place = order.index_of(node);
    assert(0 <= place < order.len() && order[place] == node);
    let leading = order.take(place);
    let earlier = inputs_of(plan.nodes()[order[place] as int])[input];
    assert(leading.contains(earlier));
    let before = choose|before: int| 0 <= before < leading.len() && leading[before] == earlier;
    assert(order[before] == earlier);
    assert(order.contains(earlier));
    let found = order.index_of(earlier);
    assert(0 <= found < order.len() && order[found] == earlier);
    assert(found == before);
}

/// Different nodes have different places.
proof fn lemma_places_differ(plan: &ExactCompositionPlan, left: usize, right: usize)
    requires
        plan.wf(),
        left < plan.nodes().len(),
        right < plan.nodes().len(),
        place_of(plan, left) == place_of(plan, right),
    ensures
        left == right,
{
    lemma_every_node_is_placed(plan, left);
    lemma_every_node_is_placed(plan, right);
}

impl<L: FallibleExactCompositionStream> RuntimeNode<L> {
    /// The numbers under which a fusion reads its inputs.
    spec fn readers(self) -> Seq<usize> {
        match self.producer {
            Producer::Fusion(fusion) => fusion.readers@,
            Producer::Leaf(_) => Seq::empty(),
        }
    }

    /// The session of a fusion.
    spec fn session(self) -> Option<RrfProgress> {
        match self.producer {
            Producer::Fusion(fusion) => fusion.session,
            Producer::Leaf(_) => None,
        }
    }

    /// The next rank of a reader of this node.
    spec fn seat(self, reader: usize) -> Option<usize> {
        self.replay@.readers[reader as int]
    }
}

/// Whether a node at work has the shape of its definition.
spec fn has_shape<L: FallibleExactCompositionStream>(
    plan: &ExactCompositionPlan,
    nodes: Seq<RuntimeNode<L>>,
    node: int,
) -> bool {
    let inputs = inputs_of(plan.nodes()[node]);
    let at = nodes[node];
    &&& at.replay.wf()
    &&& at.replay@.cancelled ==> all_left(at.replay@.readers)
    &&& at.readers().len() == inputs.len()
    &&& match (plan.nodes()[node], at.producer) {
        (
            ExactCompositionNode::Fusion { output_limit, .. },
            Producer::Fusion(fusion),
        ) => fusion.output_limit == output_limit,
        (ExactCompositionNode::Fusion { .. }, _) => false,
        (_, Producer::Fusion(_)) => false,
        _ => true,
    }
    &&& forall|slot: int|
        0 <= slot < inputs.len() ==> #[trigger] at.readers()[slot]
            < nodes[inputs[slot] as int].replay@.readers.len()
    &&& at.session() matches Some(progress) ==> {
        &&& progress.wf()
        &&& progress@.fusion.weights.len() == inputs.len()
        &&& progress@.batch_size == 1
        &&& forall|slot: int|
            0 <= slot < inputs.len() ==> nodes[inputs[slot] as int].seat(
                #[trigger] at.readers()[slot],
            ) is Some
    }
}

/// Whether a reader of a node belongs to a fusion.
spec fn owns<L: FallibleExactCompositionStream>(
    plan: &ExactCompositionPlan,
    nodes: Seq<RuntimeNode<L>>,
    node: int,
    slot: int,
    input: int,
    reader: usize,
) -> bool {
    &&& 0 <= node < nodes.len()
    &&& 0 <= slot < inputs_of(plan.nodes()[node]).len()
    &&& slot < nodes[node].readers().len()
    &&& inputs_of(plan.nodes()[node])[slot] == input
    &&& nodes[node].readers()[slot] == reader
}

/// Whether no reader belongs to two inputs.
spec fn separate<L: FallibleExactCompositionStream>(
    plan: &ExactCompositionPlan,
    nodes: Seq<RuntimeNode<L>>,
) -> bool {
    forall|left: int, left_slot: int, right: int, right_slot: int, input: int, reader: usize|
        #[trigger] owns(plan, nodes, left, left_slot, input, reader) && #[trigger] owns(
            plan,
            nodes,
            right,
            right_slot,
            input,
            reader,
        ) ==> left == right && left_slot == right_slot
}

/// The identities that all nodes keep.
spec fn total_buffered<L: FallibleExactCompositionStream>(nodes: Seq<RuntimeNode<L>>) -> int
    decreases nodes.len(),
{
    if nodes.len() == 0 {
        0
    } else {
        total_buffered(nodes.drop_last()) + nodes.last().replay@.buffered()
    }
}

/// The sum of the most identities that each node has kept at once.
spec fn total_peaks<L: FallibleExactCompositionStream>(nodes: Seq<RuntimeNode<L>>) -> int
    decreases nodes.len(),
{
    if nodes.len() == 0 {
        0
    } else {
        total_peaks(nodes.drop_last()) + nodes.last().replay@.peak
    }
}

/// What all nodes keep is no more than the sum of their peaks.
proof fn lemma_peaks_hold<L: FallibleExactCompositionStream>(nodes: Seq<RuntimeNode<L>>)
    requires
        forall|node: int| 0 <= node < nodes.len() ==> (#[trigger] nodes[node]).replay.wf(),
    ensures
        total_buffered(nodes) <= total_peaks(nodes),
    decreases nodes.len(),
{
    if nodes.len() > 0 {
        lemma_peaks_hold(nodes.drop_last());
        nodes[nodes.len() - 1].replay.lemma_valid();
    }
}

proof fn lemma_total_after_change<L: FallibleExactCompositionStream>(
    before: Seq<RuntimeNode<L>>,
    after: Seq<RuntimeNode<L>>,
    node: int,
)
    requires
        0 <= node < before.len(),
        after.len() == before.len(),
        forall|other: int|
            0 <= other < before.len() && other != node ==> (#[trigger] after[other]).replay@
                == before[other].replay@,
    ensures
        total_buffered(after) == total_buffered(before) - before[node].replay@.buffered()
            + after[node].replay@.buffered(),
        total_peaks(after) == total_peaks(before) - before[node].replay@.peak
            + after[node].replay@.peak,
    decreases before.len(),
{
    let last = before.len() - 1;
    if node == last {
        lemma_total_same(before.drop_last(), after.drop_last());
    } else {
        assert(after[last].replay@ == before[last].replay@);
        lemma_total_after_change(before.drop_last(), after.drop_last(), node);
    }
}

proof fn lemma_total_same<L: FallibleExactCompositionStream>(
    before: Seq<RuntimeNode<L>>,
    after: Seq<RuntimeNode<L>>,
)
    requires
        after.len() == before.len(),
        forall|other: int|
            0 <= other < before.len() ==> (#[trigger] after[other]).replay@ == before[other].replay@,
    ensures
        total_buffered(after) == total_buffered(before),
        total_peaks(after) == total_peaks(before),
    decreases before.len(),
{
    if before.len() > 0 {
        lemma_total_same(before.drop_last(), after.drop_last());
        assert(after[before.len() - 1].replay@ == before[before.len() - 1].replay@);
    }
}

proof fn lemma_total_is_bounded<L: FallibleExactCompositionStream>(nodes: Seq<RuntimeNode<L>>)
    requires
        forall|node: int| 0 <= node < nodes.len() ==> (#[trigger] nodes[node]).replay.wf(),
    ensures
        0 <= total_buffered(nodes) <= nodes.len() * usize::MAX,
    decreases nodes.len(),
{
    if nodes.len() > 0 {
        lemma_total_is_bounded(nodes.drop_last());
        nodes[nodes.len() - 1].replay.lemma_valid();
        assert(nodes.len() * usize::MAX == (nodes.len() - 1) * usize::MAX + usize::MAX)
            by (nonlinear_arith);
    }
}

impl<L: FallibleExactCompositionStream> CompositionRuntime<L> {
    /// Whether the parts belong together.
    spec fn wf(&self, plan: &ExactCompositionPlan) -> bool {
        &&& plan.wf()
        &&& self.nodes@.len() == plan.nodes().len()
        &&& forall|node: int|
            0 <= node < self.nodes@.len() ==> has_shape(plan, #[trigger] self.nodes@, node)
        &&& separate(plan, self.nodes@)
        &&& self.memory.current() == total_buffered(self.nodes@)
        &&& 0 <= self.memory.peak() <= total_peaks(self.nodes@)
    }
}

/// Whether `after` differs from `before` only as reading the output of a node may
/// change it: the node, its reader, and what lies beneath the node.
spec fn changes_beneath<L: FallibleExactCompositionStream>(
    plan: &ExactCompositionPlan,
    before: Seq<RuntimeNode<L>>,
    after: Seq<RuntimeNode<L>>,
    node: usize,
    reader: int,
) -> bool {
    &&& after.len() == before.len()
    &&& forall|other: int|
        0 <= other < before.len() && place_of(plan, other as usize) > place_of(plan, node)
            ==> #[trigger] after[other] == before[other]
    &&& forall|other: int|
        0 <= other < before.len() ==> (#[trigger] after[other]).readers() == before[other].readers()
            && after[other].replay@.readers.len() == before[other].replay@.readers.len()
    &&& forall|other: int, seat: usize|
        0 <= other < before.len() && seat < before[other].replay@.readers.len() && !(other == node
            && seat == reader) && !owned_beneath(plan, before, node, other, seat)
            ==> #[trigger] after[other].seat(seat) == before[other].seat(seat)
}

/// Whether a reader belongs to a node or to one beneath it.
spec fn owned_beneath<L: FallibleExactCompositionStream>(
    plan: &ExactCompositionPlan,
    nodes: Seq<RuntimeNode<L>>,
    top: usize,
    input: int,
    reader: usize,
) -> bool {
    exists|owner: int, slot: int|
        #[trigger] owns(plan, nodes, owner, slot, input, reader) && place_of(
            plan,
            owner as usize,
        ) <= place_of(plan, top)
}

proof fn lemma_no_change<L: FallibleExactCompositionStream>(
    plan: &ExactCompositionPlan,
    nodes: Seq<RuntimeNode<L>>,
    node: usize,
    reader: int,
)
    ensures
        changes_beneath(plan, nodes, nodes, node, reader),
{
}

/// Changes beneath a node that stands lower are changes beneath a higher one.
proof fn lemma_changes_compose<L: FallibleExactCompositionStream>(
    plan: &ExactCompositionPlan,
    before: Seq<RuntimeNode<L>>,
    middle: Seq<RuntimeNode<L>>,
    after: Seq<RuntimeNode<L>>,
    node: usize,
    reader: int,
    lower: usize,
    lower_reader: usize,
)
    requires
        changes_beneath(plan, before, middle, node, reader),
        changes_beneath(plan, middle, after, lower, lower_reader as int),
        place_of(plan, lower) <= place_of(plan, node),
        lower == node && lower_reader == reader || owned_beneath(
            plan,
            before,
            node,
            lower as int,
            lower_reader,
        ),
    ensures
        changes_beneath(plan, before, after, node, reader),
{
    assert forall|other: int, seat: usize|
        0 <= other < before.len() && seat < before[other].replay@.readers.len() && !(other == node
            && seat == reader) && !owned_beneath(
            plan,
            before,
            node,
            other,
            seat,
        ) implies #[trigger] after[other].seat(seat) == before[other].seat(seat) by {
        assert(middle[other].seat(seat) == before[other].seat(seat));
        assert(middle[other].replay@.readers.len() == before[other].replay@.readers.len());
        assert(!owned_beneath(plan, middle, lower, other, seat)) by {
            if owned_beneath(plan, middle, lower, other, seat) {
                let (owner, slot) = choose|owner: int, slot: int|
                    #[trigger] owns(plan, middle, owner, slot, other, seat) && place_of(
                        plan,
                        owner as usize,
                    ) <= place_of(plan, lower);
                assert(middle[owner].readers() == before[owner].readers());
                assert(owns(plan, before, owner, slot, other, seat));
            }
        }
        if other == lower && seat == lower_reader {
            assert(owned_beneath(plan, before, node, lower as int, lower_reader));
        }
    }
    assert forall|other: int| 0 <= other < before.len() implies (
    #[trigger] after[other]).readers() == before[other].readers()
        && after[other].replay@.readers.len() == before[other].replay@.readers.len() by {
        assert(middle[other].readers() == before[other].readers());
    }
    assert forall|other: int|
        0 <= other < before.len() && place_of(plan, other as usize) > place_of(
            plan,
            node,
        ) implies #[trigger] after[other] == before[other] by {
        assert(middle[other] == before[other]);
    }
}

/// The seats of a node that stands higher survive changes beneath another, but
/// for the changed reader itself.
proof fn lemma_seat_survives<L: FallibleExactCompositionStream>(
    plan: &ExactCompositionPlan,
    before: Seq<RuntimeNode<L>>,
    after: Seq<RuntimeNode<L>>,
    node: usize,
    reader: int,
    higher: int,
    slot: int,
)
    requires
        plan.wf(),
        before.len() == plan.nodes().len(),
        node < before.len(),
        0 <= higher < before.len(),
        place_of(plan, higher as usize) > place_of(plan, node),
        changes_beneath(plan, before, after, node, reader),
        separate(plan, before),
        0 <= slot < inputs_of(plan.nodes()[higher]).len(),
        slot < before[higher].readers().len(),
        before[higher].readers()[slot] < before[inputs_of(
            plan.nodes()[higher],
        )[slot] as int].replay@.readers.len(),
    ensures
        ({
            let input = inputs_of(plan.nodes()[higher])[slot] as int;
            let seat = before[higher].readers()[slot];
            ||| after[input].seat(seat) == before[input].seat(seat)
            ||| input == node && seat == reader
        }),
        owns(
            plan,
            before,
            higher,
            slot,
            inputs_of(plan.nodes()[higher])[slot] as int,
            before[higher].readers()[slot],
        ),
{
    let input = inputs_of(plan.nodes()[higher])[slot] as int;
    let seat = before[higher].readers()[slot];
    lemma_input_is_earlier(plan, higher as usize, slot);
    assert(owns(plan, before, higher, slot, input, seat));
    if !(input == node && seat == reader) {
        assert(!owned_beneath(plan, before, node, input, seat)) by {
            if owned_beneath(plan, before, node, input, seat) {
                let (owner, at) = choose|owner: int, at: int|
                    #[trigger] owns(plan, before, owner, at, input, seat) && place_of(
                        plan,
                        owner as usize,
                    ) <= place_of(plan, node);
                assert(owner == higher);
            }
        }
        assert(after[input].seat(seat) == before[input].seat(seat));
    }
}

/// What the nodes of a network will put out.
pub struct Promise {
    /// The complete output of every node.
    pub outputs: Seq<Seq<ExtendedPointId>>,
    /// The error with which the stream of a leaf breaks off before it has yielded
    /// the leaf's output, where it does.
    pub failures: Seq<Option<ExactCompositionError>>,
}

/// Whether an error is one with which a leaf breaks off.
spec fn is_promised(promise: Promise, error: ExactCompositionError) -> bool {
    exists|node: int|
        0 <= node < promise.failures.len() && #[trigger] promise.failures[node] == Some(error)
}

/// Whether the stream of a leaf, after `count` identities of the leaf's output,
/// yields the others, or some of them up to a failure.
spec fn continues(
    node: usize,
    rest: Option<Seq<ExtendedPointId>>,
    failing: Option<(Seq<ExtendedPointId>, ExactCompositionStreamFailure)>,
    output: Seq<ExtendedPointId>,
    count: nat,
    failure: Option<ExactCompositionError>,
) -> bool {
    match failure {
        None => rest == Some(output.skip(count as int)),
        Some(error) => breaks_off(node, rest, failing, output, count, error),
    }
}

/// Whether the complete outputs follow from some rank arithmetic that the calls
/// follow.
pub open spec fn sound_outputs<F: Fn(i64, usize, usize, i64) -> i64>(
    plan: &ExactCompositionPlan,
    accumulate: F,
    promise: Promise,
) -> bool {
    exists|
        leaves: Seq<Option<Seq<ExtendedPointId>>>,
        arithmetic: spec_fn(i64, usize, usize, i64) -> i64,
    |
        #[trigger] are_outputs(plan.nodes(), leaves, arithmetic, promise.outputs) && computes(
            accumulate,
            arithmetic,
        ) && is_rank_arithmetic(arithmetic)
}

/// Whether a session has read prefixes of its inputs' outputs.
spec fn session_agrees<L: FallibleExactCompositionStream, F: Fn(i64, usize, usize, i64) -> i64>(
    plan: &ExactCompositionPlan,
    accumulate: F,
    nodes: Seq<RuntimeNode<L>>,
    promise: Promise,
    node: int,
    view: ProgressView,
    emitted: nat,
) -> bool {
    let inputs = inputs_of(plan.nodes()[node]);
    &&& plan.nodes()[node] matches ExactCompositionNode::Fusion { weights, rrf_k, .. }
    &&& view.fusion.rrf_k == rrf_k
    &&& view.fusion.weights == weights@
    &&& view.fusion.top_k <= emitted + 1
    &&& order_is_kept(view, accumulate)
    &&& can_become(view.fusion, input_outputs(promise.outputs, inputs))
    &&& forall|slot: int|
        0 <= slot < inputs.len() ==> nodes[inputs[slot] as int].seat(
            #[trigger] nodes[node].readers()[slot],
        ) == Some(view.fusion.histories[slot].len() as usize)
}

/// Whether the producer of a node, having yielded `count` identities, will
/// complete the node's output.
spec fn producer_agrees<L: FallibleExactCompositionStream, F: Fn(i64, usize, usize, i64) -> i64>(
    plan: &ExactCompositionPlan,
    accumulate: F,
    nodes: Seq<RuntimeNode<L>>,
    promise: Promise,
    node: int,
    count: nat,
) -> bool {
    let output = promise.outputs[node];
    &&& count <= output.len()
    &&& match nodes[node].producer {
        Producer::Leaf(leaf) => {
            &&& leaf.stream matches Some(stream)
            &&& node < promise.failures.len()
            &&& continues(
                node as usize,
                stream.rest(),
                stream.failing(),
                output,
                count,
                promise.failures[node],
            )
            &&& forall|id: ExtendedPointId|
                leaf.seen@.contains(id) <==> output.take(count as int).contains(id)
        },
        Producer::Fusion(fusion) => {
            &&& fusion.emitted == count
            &&& match fusion.session {
                Some(progress) => session_agrees(
                    plan,
                    accumulate,
                    nodes,
                    promise,
                    node,
                    progress@,
                    count,
                ),
                None => fusion.output_limit == Some(fusion.emitted),
            }
        },
    }
}

/// Whether a node has produced a prefix of its output and will complete it.
spec fn node_agrees<L: FallibleExactCompositionStream, F: Fn(i64, usize, usize, i64) -> i64>(
    plan: &ExactCompositionPlan,
    accumulate: F,
    nodes: Seq<RuntimeNode<L>>,
    promise: Promise,
    node: int,
) -> bool {
    let view = nodes[node].replay@;
    let output = promise.outputs[node];
    &&& view.produced.len() <= output.len()
    &&& view.produced == output.take(view.produced.len() as int)
    &&& view.exhausted && !view.cancelled ==> view.produced == output
    &&& !view.exhausted ==> producer_agrees(
        plan,
        accumulate,
        nodes,
        promise,
        node,
        view.produced.len(),
    )
}

/// Whether every node below a place agrees with the outputs.
spec fn agrees_below<L: FallibleExactCompositionStream, F: Fn(i64, usize, usize, i64) -> i64>(
    plan: &ExactCompositionPlan,
    accumulate: F,
    nodes: Seq<RuntimeNode<L>>,
    promise: Promise,
    place: int,
) -> bool {
    forall|node: int|
        0 <= node < nodes.len() && place_of(plan, node as usize) < place ==> #[trigger] node_agrees(
            plan,
            accumulate,
            nodes,
            promise,
            node,
        )
}

/// A node that stands higher agrees after changes beneath another, where the
/// changed reader is not its own.
proof fn lemma_agreement_survives<
    L: FallibleExactCompositionStream,
    F: Fn(i64, usize, usize, i64) -> i64,
>(
    plan: &ExactCompositionPlan,
    accumulate: F,
    before: Seq<RuntimeNode<L>>,
    after: Seq<RuntimeNode<L>>,
    promise: Promise,
    node: usize,
    reader: int,
    higher: int,
)
    requires
        plan.wf(),
        before.len() == plan.nodes().len(),
        node < before.len(),
        0 <= higher < before.len(),
        place_of(plan, higher as usize) > place_of(plan, node),
        changes_beneath(plan, before, after, node, reader),
        separate(plan, before),
        has_shape(plan, before, higher),
        node_agrees(plan, accumulate, before, promise, higher),
        before[higher].session() is Some && reader >= 0 ==> forall|slot: int|
            !#[trigger] owns(plan, before, higher, slot, node as int, reader as usize),
    ensures
        node_agrees(plan, accumulate, after, promise, higher),
{
    let inputs = inputs_of(plan.nodes()[higher]);
    assert(after[higher] == before[higher]);
    if before[higher].session() is Some {
        assert forall|slot: int| 0 <= slot < inputs.len() implies after[inputs[slot] as int].seat(
            #[trigger] after[higher].readers()[slot],
        ) == before[inputs[slot] as int].seat(before[higher].readers()[slot]) by {
            lemma_seat_survives(plan, before, after, node, reader, higher, slot);
            let seat = before[higher].readers()[slot];
            if inputs[slot] == node && seat == reader {
                assert(reader as usize == seat);
                assert(owns(plan, before, higher, slot, node as int, reader as usize));
            }
        }
    }
}


/// Whether only one node has changed, and of its readers at most the given one.
spec fn changes_one<L: FallibleExactCompositionStream>(
    before: Seq<RuntimeNode<L>>,
    after: Seq<RuntimeNode<L>>,
    node: usize,
    reader: int,
) -> bool {
    &&& node < before.len()
    &&& after.len() == before.len()
    &&& forall|other: int|
        0 <= other < before.len() && other != node ==> #[trigger] after[other] == before[other]
    &&& after[node as int].readers() == before[node as int].readers()
    &&& after[node as int].replay@.readers.len() == before[node as int].replay@.readers.len()
    &&& forall|seat: usize|
        seat < before[node as int].replay@.readers.len() && seat != reader
            ==> #[trigger] after[node as int].seat(seat) == before[node as int].seat(seat)
}

/// A change of one node is a change beneath it.
proof fn lemma_one_is_beneath<L: FallibleExactCompositionStream>(
    plan: &ExactCompositionPlan,
    before: Seq<RuntimeNode<L>>,
    after: Seq<RuntimeNode<L>>,
    node: usize,
    reader: int,
)
    requires
        changes_one(before, after, node, reader),
    ensures
        changes_beneath(plan, before, after, node, reader),
        separate(plan, before) ==> separate(plan, after),
        forall|owner: int, slot: int, input: int, seat: usize| #[trigger]
            owns(plan, after, owner, slot, input, seat) <==> owns(
                plan,
                before,
                owner,
                slot,
                input,
                seat,
            ),
{
    assert forall|owner: int, slot: int, input: int, seat: usize| #[trigger]
        owns(plan, after, owner, slot, input, seat) <==> owns(
        plan,
        before,
        owner,
        slot,
        input,
        seat,
    ) by {
        if 0 <= owner < before.len() {
            assert(after[owner].readers() == before[owner].readers());
        }
    }
    if separate(plan, before) {
        assert forall|
            left: int,
            left_slot: int,
            right: int,
            right_slot: int,
            input: int,
            seat: usize,
        |
            #[trigger] owns(plan, after, left, left_slot, input, seat) && #[trigger] owns(
                plan,
                after,
                right,
                right_slot,
                input,
                seat,
            ) implies left == right && left_slot == right_slot by {
            assert(owns(plan, before, left, left_slot, input, seat));
            assert(owns(plan, before, right, right_slot, input, seat));
        }
    }
}

/// Changes beneath a node keep the readers where they belong.
proof fn lemma_beneath_keeps_owners<L: FallibleExactCompositionStream>(
    plan: &ExactCompositionPlan,
    before: Seq<RuntimeNode<L>>,
    after: Seq<RuntimeNode<L>>,
    node: usize,
    reader: int,
)
    requires
        changes_beneath(plan, before, after, node, reader),
    ensures
        forall|owner: int, slot: int, input: int, seat: usize| #[trigger]
            owns(plan, after, owner, slot, input, seat) <==> owns(
                plan,
                before,
                owner,
                slot,
                input,
                seat,
            ),
{
    assert forall|owner: int, slot: int, input: int, seat: usize| #[trigger]
        owns(plan, after, owner, slot, input, seat) <==> owns(
        plan,
        before,
        owner,
        slot,
        input,
        seat,
    ) by {
        if 0 <= owner < before.len() {
            assert(after[owner].readers() == before[owner].readers());
        }
    }
}

/// After a change of one node the others keep their shape and their agreement,
/// where those who own the changed reader are closed.
proof fn lemma_others_survive<
    L: FallibleExactCompositionStream,
    F: Fn(i64, usize, usize, i64) -> i64,
>(
    plan: &ExactCompositionPlan,
    accumulate: F,
    before: Seq<RuntimeNode<L>>,
    after: Seq<RuntimeNode<L>>,
    node: usize,
    reader: int,
    other: int,
)
    requires
        plan.wf(),
        before.len() == plan.nodes().len(),
        changes_one(before, after, node, reader),
        0 <= other < before.len(),
        other != node,
        has_shape(plan, before, other),
        before[other].session() is Some && reader >= 0 ==> forall|slot: int|
            !#[trigger] owns(plan, before, other, slot, node as int, reader as usize),
    ensures
        has_shape(plan, after, other),
        forall|promise: Promise| #[trigger]
            node_agrees(plan, accumulate, after, promise, other) <== node_agrees(
                plan,
                accumulate,
                before,
                promise,
                other,
            ),
{
    let inputs = inputs_of(plan.nodes()[other]);
    assert(after[other] == before[other]);
    assert forall|slot: int| 0 <= slot < inputs.len() implies {
        &&& #[trigger] after[other].readers()[slot]
            < after[inputs[slot] as int].replay@.readers.len()
        &&& before[other].session() is Some ==> after[inputs[slot] as int].seat(
            after[other].readers()[slot],
        ) == before[inputs[slot] as int].seat(before[other].readers()[slot])
    } by {
        lemma_input_is_earlier(plan, other as usize, slot);
        let seat = before[other].readers()[slot];
        assert(before[other].readers()[slot] < before[inputs[slot] as int].replay@.readers.len());
        if inputs[slot] == node {
            if before[other].session() is Some && seat == reader {
                assert(reader as usize == seat);
                assert(owns(plan, before, other, slot, node as int, reader as usize));
            }
            if seat != reader {
                assert(after[node as int].seat(seat) == before[node as int].seat(seat));
            }
        } else {
            assert(after[inputs[slot] as int] == before[inputs[slot] as int]);
        }
    }
    assert forall|promise: Promise|
        node_agrees(plan, accumulate, before, promise, other) implies #[trigger] node_agrees(
        plan,
        accumulate,
        after,
        promise,
        other,
    ) by {
        if node_agrees(plan, accumulate, before, promise, other) {
            assert(after[other].readers() == before[other].readers());
        }
    }
}

/// The whole network keeps its shape through changes beneath a node.
proof fn lemma_network_survives<
    L: FallibleExactCompositionStream,
    F: Fn(i64, usize, usize, i64) -> i64,
>(
    plan: &ExactCompositionPlan,
    accumulate: F,
    before: Seq<RuntimeNode<L>>,
    after: Seq<RuntimeNode<L>>,
    node: usize,
    reader: int,
    promise: Promise,
    place: int,
)
    requires
        plan.wf(),
        before.len() == plan.nodes().len(),
        node < before.len(),
        changes_beneath(plan, before, after, node, reader),
        separate(plan, before),
        forall|other: int| 0 <= other < before.len() ==> has_shape(plan, before, other),
        forall|owner: int, slot: int|
            #[trigger] owns(plan, before, owner, slot, node as int, reader as usize) && reader >= 0
                ==> before[owner].session() is None,
        agrees_below(plan, accumulate, before, promise, place),
        agrees_below(plan, accumulate, after, promise, place_of(plan, node) + 1),
    ensures
        agrees_below(plan, accumulate, after, promise, place),
{
    assert forall|other: int|
        0 <= other < after.len() && place_of(plan, other as usize) < place implies
        #[trigger] node_agrees(plan, accumulate, after, promise, other) by {
        if place_of(plan, other as usize) > place_of(plan, node) {
            assert(node_agrees(plan, accumulate, before, promise, other));
            assert(has_shape(plan, before, other));
            lemma_agreement_survives(
                plan,
                accumulate,
                before,
                after,
                promise,
                node,
                reader,
                other,
            );
        }
    }
}

/// What one identity of a leaf's stream does to what the stream will still yield: it
/// is the next of the leaf's output, or repeats an earlier one.
proof fn lemma_stream_continues<L: FallibleExactCompositionStream>(
    node: usize,
    before: LeafStream<L>,
    after: LeafStream<L>,
    identity: ExtendedPointId,
    output: Seq<ExtendedPointId>,
    count: nat,
    failure: Option<ExactCompositionError>,
)
    requires
        count <= output.len(),
        continues(node, before.rest(), before.failing(), output, count, failure),
        before.rest() matches Some(ids) ==> ids.len() > 0 && identity == ids[0] && after.rest()
            == Some(ids.drop_first()),
        before.failing() matches Some((ids, failed)) ==> ids.len() > 0 && identity == ids[0]
            && after.failing() == Some((ids.drop_first(), failed)),
    ensures
        ({
            ||| output.take(count as int).contains(identity) && failure == Some(
                ExactCompositionError::DuplicateLeafIdentity { node, identity },
            )
            ||| count < output.len() && identity == output[count as int] && continues(
                node,
                after.rest(),
                after.failing(),
                output,
                (count + 1) as nat,
                failure,
            )
        }),
{
    match failure {
        None => {
            assert(output.skip(count as int).drop_first() =~= output.skip((count + 1) as int));
        },
        Some(error) => {
            let whole = before.rest();
            let part = before.failing();
            if whole is Some && is_repeat(node, whole.unwrap(), output, count, error) {
                lemma_repeat_continues(node, whole.unwrap(), output, count, error);
            } else if part is Some && is_repeat(
                node,
                part.unwrap().0,
                output,
                count,
                error,
            ) {
                lemma_repeat_continues(node, part.unwrap().0, output, count, error);
            } else {
                let (ids, _) = before.failing()->0;
                let left = output.skip(count as int);
                assert(ids[0] == left[0]);
                assert(ids.drop_first() =~= output.skip((count + 1) as int).subrange(
                    0,
                    ids.len() - 1,
                )) by {
                    assert forall|i: int| 0 <= i < ids.len() - 1 implies #[trigger] ids.drop_first()[i]
                        == output.skip((count + 1) as int)[i] by {
                        assert(ids[i + 1] == left[i + 1]);
                    }
                }
            }
        },
    }
}

/// Identities that repeat one of a ranking either do so at once, or go on with the
/// ranking and repeat one later.
proof fn lemma_repeat_continues(
    node: usize,
    ids: Seq<ExtendedPointId>,
    ranking: Seq<ExtendedPointId>,
    count: nat,
    error: ExactCompositionError,
)
    requires
        is_repeat(node, ids, ranking, count, error),
    ensures
        ids.len() > 0,
        ({
            ||| ranking.take(count as int).contains(ids[0]) && error == (
            ExactCompositionError::DuplicateLeafIdentity { node, identity: ids[0] })
            ||| count < ranking.len() && ids[0] == ranking[count as int] && is_repeat(
                node,
                ids.drop_first(),
                ranking,
                (count + 1) as nat,
                error,
            )
        }),
{
    let at = choose|at: int| #[trigger]
        repeats_at(ids, ranking, count, at) && error == (
        ExactCompositionError::DuplicateLeafIdentity { node, identity: ids[at] });
    if at > 0 {
        let part = ranking.subrange(count as int, count + at);
        assert(ids.take(at)[0] == part[0]);
        assert(ids.drop_first().take(at - 1) =~= ranking.subrange((count + 1) as int, count + at)) by {
            assert forall|i: int| 0 <= i < at - 1 implies ids.drop_first().take(at - 1)[i]
                == #[trigger] ranking.subrange((count + 1) as int, count + at)[i] by {
                assert(ids.take(at)[i + 1] == part[i + 1]);
            }
        }
        assert(repeats_at(ids.drop_first(), ranking, (count + 1) as nat, at - 1));
    }
}

/// What a node has put out.
spec fn log_of<L: FallibleExactCompositionStream>(node: RuntimeNode<L>) -> NodeLog {
    NodeLog {
        outputs: node.replay@.produced,
        ended: node.replay@.exhausted && !node.replay@.cancelled,
    }
}

/// What all nodes have put out.
spec fn logs_of<L: FallibleExactCompositionStream>(nodes: Seq<RuntimeNode<L>>) -> Seq<NodeLog> {
    Seq::new(nodes.len(), |node: int| log_of(nodes[node]))
}

/// Whether a fusion has read as much of its inputs as its session has observed.
spec fn is_seated<L: FallibleExactCompositionStream>(
    plan: &ExactCompositionPlan,
    nodes: Seq<RuntimeNode<L>>,
    node: int,
    view: ProgressView,
) -> bool {
    let inputs = inputs_of(plan.nodes()[node]);
    forall|slot: int|
        0 <= slot < inputs.len() ==> (nodes[inputs[slot] as int].seat(
            #[trigger] nodes[node].readers()[slot],
        ) matches Some(position) && position == view.fusion.histories[slot].len())
}

/// Whether a node is ready to go on where its log ends, or is closed.
#[verifier::opaque]
spec fn is_held<
    L: FallibleExactCompositionStream,
    F: Fn(i64, usize, usize, i64) -> i64,
    P: Fn(usize, usize, i64, usize, i64) -> i64,
>(
    plan: &ExactCompositionPlan,
    origin: NetworkOrigin,
    nodes: Seq<RuntimeNode<L>>,
    accumulate: F,
    priority: P,
    node: int,
    log: NodeLog,
) -> bool {
    let definition = plan.nodes()[node];
    let closed = log.ended || nodes[node].replay@.cancelled;
    &&& is_logged(plan, origin, logs_of(nodes), accumulate, priority, node, log)
    &&& match nodes[node].producer {
        Producer::Leaf(leaf) => {
            &&& !(definition is Fusion)
            &&& leaf.stream is None ==> closed
            &&& leaf.stream is Some ==> leaf.is_at(origin.leaves[node], log.outputs)
        },
        Producer::Fusion(fusion) => {
            &&& definition is Fusion
            &&& fusion.emitted == log.outputs.len()
            &&& counts_held(plan, origin, nodes, accumulate, priority, node, log, fusion)
            &&& match fusion.session {
                None => closed || (limit_of(definition) matches Some(limit) && limit
                    <= log.outputs.len()),
                Some(progress) => {
                    &&& puts_out(
                        first_session(definition, origin.policy),
                        input_logs(logs_of(nodes), inputs_of(definition)),
                        accumulate,
                        priority,
                        log.outputs,
                        progress@,
                    )
                    &&& is_seated(plan, nodes, node, progress@)
                },
            }
        },
    }
}

/// Whether a fusion has counted what its log tells.
spec fn counts_held<
    L: FallibleExactCompositionStream,
    F: Fn(i64, usize, usize, i64) -> i64,
    P: Fn(usize, usize, i64, usize, i64) -> i64,
>(
    plan: &ExactCompositionPlan,
    origin: NetworkOrigin,
    nodes: Seq<RuntimeNode<L>>,
    accumulate: F,
    priority: P,
    node: int,
    log: NodeLog,
    fusion: FusionProducer,
) -> bool {
    let definition = plan.nodes()[node];
    fusion_counts(
        first_session(definition, origin.policy),
        input_logs(logs_of(nodes), inputs_of(definition)),
        accumulate,
        priority,
        log,
        fusion.logical_input_pulls@,
        fusion.certification_checks,
    )
}

/// Whether every node below a place is held.
spec fn held_below<
    L: FallibleExactCompositionStream,
    F: Fn(i64, usize, usize, i64) -> i64,
    P: Fn(usize, usize, i64, usize, i64) -> i64,
>(
    plan: &ExactCompositionPlan,
    origin: NetworkOrigin,
    nodes: Seq<RuntimeNode<L>>,
    accumulate: F,
    priority: P,
    place: int,
) -> bool {
    forall|node: int|
        0 <= node < nodes.len() && place_of(plan, node as usize) < place ==> #[trigger] is_held(
            plan,
            origin,
            nodes,
            accumulate,
            priority,
            node,
            log_of(nodes[node]),
        )
}

/// Whether the log of every node below a place is right.
spec fn logged_below<
    L: FallibleExactCompositionStream,
    F: Fn(i64, usize, usize, i64) -> i64,
    P: Fn(usize, usize, i64, usize, i64) -> i64,
>(
    plan: &ExactCompositionPlan,
    origin: NetworkOrigin,
    nodes: Seq<RuntimeNode<L>>,
    accumulate: F,
    priority: P,
    place: int,
) -> bool {
    forall|node: int|
        0 <= node < nodes.len() && place_of(plan, node as usize) < place ==> #[trigger] is_logged(
            plan,
            origin,
            logs_of(nodes),
            accumulate,
            priority,
            node,
            log_of(nodes[node]),
        )
}

/// The log of a node after its next answer.
spec fn next_log(view: ReplayView, next: Option<ExtendedPointId>) -> NodeLog {
    NodeLog {
        outputs: match next {
            Some(id) => view.produced.push(id),
            None => view.produced,
        },
        ended: next is None,
    }
}

/// Nodes with the same buffers have the same logs.
proof fn lemma_same_logs<L: FallibleExactCompositionStream>(
    before: Seq<RuntimeNode<L>>,
    after: Seq<RuntimeNode<L>>,
)
    requires
        after.len() == before.len(),
        forall|node: int|
            0 <= node < before.len() ==> log_of(#[trigger] after[node]) == log_of(before[node]),
    ensures
        logs_of(after) == logs_of(before),
        all_grow(logs_of(before), logs_of(after)),
{
    assert(logs_of(after) =~= logs_of(before));
    assert forall|node: int| 0 <= node < before.len() implies (
    #[trigger] logs_of(before)[node]).grows_to(logs_of(after)[node]) by {
        let log = log_of(before[node]);
        assert(log.outputs.take(log.outputs.len() as int) =~= log.outputs);
    }
}

/// Where one node has changed, and nothing that the nodes below it read, those stay held.
proof fn lemma_below_stays_held<
    L: FallibleExactCompositionStream,
    F: Fn(i64, usize, usize, i64) -> i64,
    P: Fn(usize, usize, i64, usize, i64) -> i64,
>(
    plan: &ExactCompositionPlan,
    origin: NetworkOrigin,
    before: Seq<RuntimeNode<L>>,
    after: Seq<RuntimeNode<L>>,
    accumulate: F,
    priority: P,
    node: usize,
)
    requires
        plan.wf(),
        before.len() == plan.nodes().len(),
        before.len() <= usize::MAX,
        node < before.len(),
        after == before.update(node as int, after[node as int]),
        log_of(before[node as int]).grows_to(log_of(after[node as int])),
        held_below(plan, origin, before, accumulate, priority, place_of(plan, node)),
    ensures
        all_grow(logs_of(before), logs_of(after)),
        held_below(plan, origin, after, accumulate, priority, place_of(plan, node)),
{
    assert forall|other: int| 0 <= other < before.len() implies (
    #[trigger] logs_of(before)[other]).grows_to(logs_of(after)[other]) by {
        if other != node {
            let log = log_of(before[other]);
            assert(log.outputs.take(log.outputs.len() as int) =~= log.outputs);
        }
    }
    assert forall|other: int|
        0 <= other < after.len() && place_of(plan, other as usize) < place_of(
            plan,
            node,
        ) implies #[trigger] is_held(
        plan,
        origin,
        after,
        accumulate,
        priority,
        other,
        log_of(after[other]),
    ) by {
        assert(is_held(
            plan,
            origin,
            before,
            accumulate,
            priority,
            other,
            log_of(before[other]),
        ));
        assert(after[other] == before[other]);
        assert forall|slot: int|
            0 <= slot < inputs_of(plan.nodes()[other]).len() implies after[inputs_of(
            plan.nodes()[other],
        )[slot] as int] == before[inputs_of(plan.nodes()[other])[slot] as int] by {
            lemma_input_is_earlier(plan, other as usize, slot);
        }
        lemma_held_survives(
            plan,
            origin,
            before,
            after,
            accumulate,
            priority,
            other,
            log_of(before[other]),
        );
    }
}

/// Nodes that are placed after a node that was read stay held.
proof fn lemma_others_stay_held<
    L: FallibleExactCompositionStream,
    F: Fn(i64, usize, usize, i64) -> i64,
    P: Fn(usize, usize, i64, usize, i64) -> i64,
>(
    plan: &ExactCompositionPlan,
    origin: NetworkOrigin,
    before: Seq<RuntimeNode<L>>,
    after: Seq<RuntimeNode<L>>,
    accumulate: F,
    priority: P,
    node: usize,
    reader: usize,
    place: int,
)
    requires
        plan.wf(),
        before.len() == plan.nodes().len(),
        before.len() <= usize::MAX,
        node < before.len(),
        separate(plan, before),
        forall|other: int| 0 <= other < before.len() ==> #[trigger] has_shape(plan, before, other),
        changes_beneath(plan, before, after, node, reader as int),
        all_grow(logs_of(before), logs_of(after)),
        forall|owner: int, slot: int|
            #[trigger] owns(plan, before, owner, slot, node as int, reader)
                ==> before[owner].session() is None,
        held_below(plan, origin, before, accumulate, priority, place),
        held_below(plan, origin, after, accumulate, priority, place_of(plan, node) + 1),
    ensures
        held_below(plan, origin, after, accumulate, priority, place),
{
    assert forall|other: int|
        0 <= other < after.len() && place_of(plan, other as usize) < place implies #[trigger] is_held(
        plan,
        origin,
        after,
        accumulate,
        priority,
        other,
        log_of(after[other]),
    ) by {
        if place_of(plan, other as usize) > place_of(plan, node) {
            assert(is_held(
            plan,
            origin,
            before,
            accumulate,
            priority,
            other,
            log_of(before[other]),
        ));
        assert(after[other] == before[other]);
            assert(has_shape(plan, before, other));
            lemma_inputs_are_nodes(plan, other);
            if before[other].session() is Some {
                assert forall|slot: int|
                    0 <= slot < inputs_of(plan.nodes()[other]).len() implies after[inputs_of(
                    plan.nodes()[other],
                )[slot] as int].seat(#[trigger] before[other].readers()[slot])
                    == before[inputs_of(plan.nodes()[other])[slot] as int].seat(
                    before[other].readers()[slot],
                ) by {
                    lemma_seat_survives(plan, before, after, node, reader as int, other, slot);
                }
            }
            lemma_held_survives(
                plan,
                origin,
                before,
                after,
                accumulate,
                priority,
                other,
                log_of(before[other]),
            );
        }
    }
}

/// Nodes that are placed after a node that was read keep right logs.
proof fn lemma_others_stay_logged<
    L: FallibleExactCompositionStream,
    F: Fn(i64, usize, usize, i64) -> i64,
    P: Fn(usize, usize, i64, usize, i64) -> i64,
>(
    plan: &ExactCompositionPlan,
    origin: NetworkOrigin,
    before: Seq<RuntimeNode<L>>,
    after: Seq<RuntimeNode<L>>,
    accumulate: F,
    priority: P,
    node: usize,
    reader: usize,
    place: int,
)
    requires
        plan.wf(),
        before.len() == plan.nodes().len(),
        before.len() <= usize::MAX,
        node < before.len(),
        changes_beneath(plan, before, after, node, reader as int),
        all_grow(logs_of(before), logs_of(after)),
        held_below(plan, origin, before, accumulate, priority, place),
    ensures
        logged_below(plan, origin, after, accumulate, priority, place_of(plan, node) + 1)
            ==> logged_below(plan, origin, after, accumulate, priority, place),
{
    if logged_below(plan, origin, after, accumulate, priority, place_of(plan, node) + 1) {
        assert forall|other: int|
            0 <= other < after.len() && place_of(plan, other as usize) < place implies #[trigger] is_logged(
            plan,
            origin,
            logs_of(after),
            accumulate,
            priority,
            other,
            log_of(after[other]),
        ) by {
            if place_of(plan, other as usize) > place_of(plan, node) {
                assert(after[other] == before[other]);
                lemma_inputs_are_nodes(plan, other);
                lemma_held_is_logged(
                    plan,
                    origin,
                    before,
                    accumulate,
                    priority,
                    place,
                );
                assert(is_logged(
                    plan,
                    origin,
                    logs_of(before),
                    accumulate,
                    priority,
                    other,
                    log_of(before[other]),
                ));
                lemma_log_survives(
                    plan,
                    origin,
                    logs_of(before),
                    logs_of(after),
                    accumulate,
                    priority,
                    other,
                    log_of(before[other]),
                );
            }
        }
    }
}

/// Where the buffer of one held node has changed, that node and those below it are held.
proof fn lemma_one_stays_held<
    L: FallibleExactCompositionStream,
    F: Fn(i64, usize, usize, i64) -> i64,
    P: Fn(usize, usize, i64, usize, i64) -> i64,
>(
    plan: &ExactCompositionPlan,
    origin: NetworkOrigin,
    before: Seq<RuntimeNode<L>>,
    after: Seq<RuntimeNode<L>>,
    accumulate: F,
    priority: P,
    node: usize,
)
    requires
        plan.wf(),
        before.len() == plan.nodes().len(),
        before.len() <= usize::MAX,
        node < before.len(),
        after == before.update(node as int, after[node as int]),
        after[node as int].producer == before[node as int].producer,
        after[node as int].replay@.cancelled == before[node as int].replay@.cancelled,
        log_of(before[node as int]).grows_to(log_of(after[node as int])),
        held_below(plan, origin, before, accumulate, priority, place_of(plan, node)),
        is_held(
            plan,
            origin,
            before,
            accumulate,
            priority,
            node as int,
            log_of(after[node as int]),
        ),
    ensures
        all_grow(logs_of(before), logs_of(after)),
        held_below(plan, origin, after, accumulate, priority, place_of(plan, node) + 1),
{
    lemma_below_stays_held(plan, origin, before, after, accumulate, priority, node);
    assert forall|slot: int|
        0 <= slot < inputs_of(plan.nodes()[node as int]).len() implies after[inputs_of(
        plan.nodes()[node as int],
    )[slot] as int].seat(#[trigger] before[node as int].readers()[slot]) == before[inputs_of(
        plan.nodes()[node as int],
    )[slot] as int].seat(before[node as int].readers()[slot]) by {
        lemma_input_is_earlier(plan, node, slot);
    }
    lemma_held_survives(
        plan,
        origin,
        before,
        after,
        accumulate,
        priority,
        node as int,
        log_of(after[node as int]),
    );
    lemma_held_with(plan, origin, after, accumulate, priority, node);
}

/// A held node above held nodes.
proof fn lemma_held_with<
    L: FallibleExactCompositionStream,
    F: Fn(i64, usize, usize, i64) -> i64,
    P: Fn(usize, usize, i64, usize, i64) -> i64,
>(
    plan: &ExactCompositionPlan,
    origin: NetworkOrigin,
    nodes: Seq<RuntimeNode<L>>,
    accumulate: F,
    priority: P,
    node: usize,
)
    requires
        plan.wf(),
        nodes.len() == plan.nodes().len(),
        nodes.len() <= usize::MAX,
        node < nodes.len(),
        held_below(plan, origin, nodes, accumulate, priority, place_of(plan, node)),
        is_held(
            plan,
            origin,
            nodes,
            accumulate,
            priority,
            node as int,
            log_of(nodes[node as int]),
        ),
    ensures
        held_below(plan, origin, nodes, accumulate, priority, place_of(plan, node) + 1),
{
    assert forall|other: int|
        0 <= other < nodes.len() && place_of(plan, other as usize) < place_of(plan, node)
            + 1 implies #[trigger] is_held(
        plan,
        origin,
        nodes,
        accumulate,
        priority,
        other,
        log_of(nodes[other]),
    ) by {
        if place_of(plan, other as usize) == place_of(plan, node) {
            lemma_places_differ(plan, other as usize, node);
        }
    }
}

/// A node with a right log above such nodes.
proof fn lemma_logged_with<
    L: FallibleExactCompositionStream,
    F: Fn(i64, usize, usize, i64) -> i64,
    P: Fn(usize, usize, i64, usize, i64) -> i64,
>(
    plan: &ExactCompositionPlan,
    origin: NetworkOrigin,
    nodes: Seq<RuntimeNode<L>>,
    accumulate: F,
    priority: P,
    node: usize,
)
    requires
        plan.wf(),
        nodes.len() == plan.nodes().len(),
        nodes.len() <= usize::MAX,
        node < nodes.len(),
        logged_below(plan, origin, nodes, accumulate, priority, place_of(plan, node)),
        is_logged(
            plan,
            origin,
            logs_of(nodes),
            accumulate,
            priority,
            node as int,
            log_of(nodes[node as int]),
        ),
    ensures
        logged_below(plan, origin, nodes, accumulate, priority, place_of(plan, node) + 1),
{
    assert forall|other: int|
        0 <= other < nodes.len() && place_of(plan, other as usize) < place_of(plan, node)
            + 1 implies #[trigger] is_logged(
        plan,
        origin,
        logs_of(nodes),
        accumulate,
        priority,
        other,
        log_of(nodes[other]),
    ) by {
        if place_of(plan, other as usize) == place_of(plan, node) {
            lemma_places_differ(plan, other as usize, node);
        }
    }
}

/// Held nodes have right logs.
proof fn lemma_held_is_logged<
    L: FallibleExactCompositionStream,
    F: Fn(i64, usize, usize, i64) -> i64,
    P: Fn(usize, usize, i64, usize, i64) -> i64,
>(
    plan: &ExactCompositionPlan,
    origin: NetworkOrigin,
    nodes: Seq<RuntimeNode<L>>,
    accumulate: F,
    priority: P,
    place: int,
)
    requires
        held_below(plan, origin, nodes, accumulate, priority, place),
    ensures
        logged_below(plan, origin, nodes, accumulate, priority, place),
{
    reveal(is_held);
    assert forall|other: int|
        0 <= other < nodes.len() && place_of(plan, other as usize) < place implies #[trigger] is_logged(
        plan,
        origin,
        logs_of(nodes),
        accumulate,
        priority,
        other,
        log_of(nodes[other]),
    ) by {
        assert(is_held(plan, origin, nodes, accumulate, priority, other, log_of(nodes[other])));
    }
}

/// Right logs stay right where all logs are the same.
proof fn lemma_logged_same<
    L: FallibleExactCompositionStream,
    F: Fn(i64, usize, usize, i64) -> i64,
    P: Fn(usize, usize, i64, usize, i64) -> i64,
>(
    plan: &ExactCompositionPlan,
    origin: NetworkOrigin,
    before: Seq<RuntimeNode<L>>,
    after: Seq<RuntimeNode<L>>,
    accumulate: F,
    priority: P,
    place: int,
)
    requires
        after.len() == before.len(),
        logs_of(after) == logs_of(before),
        logged_below(plan, origin, before, accumulate, priority, place),
    ensures
        logged_below(plan, origin, after, accumulate, priority, place),
{
    assert forall|other: int|
        0 <= other < after.len() && place_of(plan, other as usize) < place implies #[trigger] is_logged(
        plan,
        origin,
        logs_of(after),
        accumulate,
        priority,
        other,
        log_of(after[other]),
    ) by {
        assert(is_logged(
            plan,
            origin,
            logs_of(before),
            accumulate,
            priority,
            other,
            log_of(before[other]),
        ));
        assert(logs_of(after)[other] == log_of(after[other]));
        assert(logs_of(before)[other] == log_of(before[other]));
    }
}

/// What is known of a held fusion that is not closed.
proof fn lemma_open_fusion<
    L: FallibleExactCompositionStream,
    F: Fn(i64, usize, usize, i64) -> i64,
    P: Fn(usize, usize, i64, usize, i64) -> i64,
>(
    plan: &ExactCompositionPlan,
    origin: NetworkOrigin,
    nodes: Seq<RuntimeNode<L>>,
    accumulate: F,
    priority: P,
    node: int,
)
    requires
        is_held(plan, origin, nodes, accumulate, priority, node, log_of(nodes[node])),
        nodes[node].producer is Fusion,
        !nodes[node].replay@.exhausted,
        !nodes[node].replay@.cancelled,
    ensures
        is_logged(
            plan,
            origin,
            logs_of(nodes),
            accumulate,
            priority,
            node,
            log_of(nodes[node]),
        ),
        nodes[node].producer->Fusion_0.emitted == nodes[node].replay@.produced.len(),
        counts_held(
            plan,
            origin,
            nodes,
            accumulate,
            priority,
            node,
            log_of(nodes[node]),
            nodes[node].producer->Fusion_0,
        ),
        match nodes[node].session() {
            None => limit_of(plan.nodes()[node]) matches Some(limit) && limit
                <= nodes[node].replay@.produced.len(),
            Some(progress) => {
                &&& puts_out(
                    first_session(plan.nodes()[node], origin.policy),
                    input_logs(logs_of(nodes), inputs_of(plan.nodes()[node])),
                    accumulate,
                    priority,
                    nodes[node].replay@.produced,
                    progress@,
                )
                &&& is_seated(plan, nodes, node, progress@)
            },
        },
{
    reveal(is_held);
}

/// A fusion without a session is held where its log has ended.
proof fn lemma_ended_fusion<
    L: FallibleExactCompositionStream,
    F: Fn(i64, usize, usize, i64) -> i64,
    P: Fn(usize, usize, i64, usize, i64) -> i64,
>(
    plan: &ExactCompositionPlan,
    origin: NetworkOrigin,
    nodes: Seq<RuntimeNode<L>>,
    accumulate: F,
    priority: P,
    node: int,
    log: NodeLog,
)
    requires
        plan.nodes()[node] is Fusion,
        is_logged(plan, origin, logs_of(nodes), accumulate, priority, node, log),
        limit_of(plan.nodes()[node]) matches Some(limit) && limit <= log.outputs.len(),
        nodes[node].producer matches Producer::Fusion(fusion) && fusion.session is None
            && fusion.emitted == log.outputs.len() && counts_held(
            plan,
            origin,
            nodes,
            accumulate,
            priority,
            node,
            log,
            fusion,
        ),
    ensures
        is_held(
            plan,
            origin,
            nodes,
            accumulate,
            priority,
            node,
            NodeLog { outputs: log.outputs, ended: true },
        ),
{
    reveal(is_held);
    reveal(fusion_logged);
    reveal(log_ends);
    let definition = plan.nodes()[node];
    let start = first_session(definition, origin.policy);
    let inputs = input_logs(logs_of(nodes), inputs_of(definition));
    let view = choose|view: ProgressView| #[trigger]
        puts_out(start, inputs, accumulate, priority, log.outputs, view);
    assert(log_ends(
        view,
        inputs,
        limit_of(definition),
        log.outputs.len(),
        accumulate,
        priority,
    ));
    let done = NodeLog { outputs: log.outputs, ended: true };
    reveal(fusion_counts);
    assert(puts_out(start, inputs, accumulate, priority, done.outputs, view));
    assert(fusion_logged(start, limit_of(definition), inputs, accumulate, priority, done));
    assert(is_logged(plan, origin, logs_of(nodes), accumulate, priority, node, done));
}

/// A fusion without a session stays held as readers leave.
proof fn lemma_closed_fusion<
    L: FallibleExactCompositionStream,
    F: Fn(i64, usize, usize, i64) -> i64,
    P: Fn(usize, usize, i64, usize, i64) -> i64,
>(
    plan: &ExactCompositionPlan,
    origin: NetworkOrigin,
    before: Seq<RuntimeNode<L>>,
    after: Seq<RuntimeNode<L>>,
    accumulate: F,
    priority: P,
    node: int,
    log: NodeLog,
)
    requires
        logs_of(after) == logs_of(before),
        after[node] == before[node],
        before[node].session() is None,
        is_held(plan, origin, before, accumulate, priority, node, log),
    ensures
        is_held(plan, origin, after, accumulate, priority, node, log),
{
    reveal(is_held);
}

/// A session that has fixed its next prefix leaves its fusion held.
proof fn lemma_fusion_goes_on<
    L: FallibleExactCompositionStream,
    F: Fn(i64, usize, usize, i64) -> i64,
    P: Fn(usize, usize, i64, usize, i64) -> i64,
>(
    plan: &ExactCompositionPlan,
    origin: NetworkOrigin,
    before: Seq<RuntimeNode<L>>,
    reached: Seq<RuntimeNode<L>>,
    stored: Seq<RuntimeNode<L>>,
    accumulate: F,
    priority: P,
    node: usize,
    earlier: ProgressView,
    later: ProgressView,
    ids: Seq<ExtendedPointId>,
)
    requires
        plan.wf(),
        before.len() == plan.nodes().len(),
        before.len() <= usize::MAX,
        node < before.len(),
        plan.nodes()[node as int] is Fusion,
        all_grow(logs_of(before), logs_of(reached)),
        stored == reached.update(node as int, stored[node as int]),
        stored[node as int].replay == reached[node as int].replay,
        reached[node as int].replay == before[node as int].replay,
        reached[node as int].readers() == stored[node as int].readers(),
        held_below(plan, origin, reached, accumulate, priority, place_of(plan, node)),
        puts_out(
            first_session(plan.nodes()[node as int], origin.policy),
            input_logs(logs_of(before), inputs_of(plan.nodes()[node as int])),
            accumulate,
            priority,
            before[node as int].replay@.produced,
            earlier,
        ),
        is_seated(plan, reached, node as int, later),
        fixes(
            earlier,
            input_logs(logs_of(reached), inputs_of(plan.nodes()[node as int])),
            before[node as int].replay@.produced.len(),
            accumulate,
            priority,
            ids,
            later,
        ),
        ({
            let count = before[node as int].replay@.produced.len();
            let found = count < ids.len();
            &&& stored[node as int].producer matches Producer::Fusion(fusion)
            &&& fusion.emitted == (if found {
                count + 1
            } else {
                count
            })
            &&& session_counts(later, fusion.logical_input_pulls@, fusion.certification_checks)
            &&& match fusion.session {
                Some(progress) => found && progress@ == later,
                None => found ==> (limit_of(plan.nodes()[node as int]) matches Some(limit)
                    && limit <= count + 1),
            }
        }),
    ensures
        logs_of(stored) == logs_of(reached),
        held_below(plan, origin, stored, accumulate, priority, place_of(plan, node)),
        is_held(
            plan,
            origin,
            stored,
            accumulate,
            priority,
            node as int,
            next_log(
                before[node as int].replay@,
                if before[node as int].replay@.produced.len() < ids.len() {
                    Some(ids[before[node as int].replay@.produced.len() as int])
                } else {
                    None
                },
            ),
        ),
{
    reveal(is_held);
    reveal(fusion_logged);
    reveal(log_ends);
    let definition = plan.nodes()[node as int];
    let inputs = inputs_of(definition);
    let outputs = before[node as int].replay@.produced;
    let start = first_session(definition, origin.policy);
    lemma_same_logs(reached, stored);
    assert(logs_of(reached)[node as int].grows_to(logs_of(stored)[node as int]));
    lemma_below_stays_held(plan, origin, reached, stored, accumulate, priority, node);
    lemma_inputs_are_nodes(plan, node as int);
    lemma_inputs_grow(logs_of(before), logs_of(reached), inputs);
    let sources = input_logs(logs_of(stored), inputs);
    lemma_puts_out_survives(
        start,
        input_logs(logs_of(before), inputs),
        sources,
        accumulate,
        priority,
        outputs,
        earlier,
    );
    let next = if outputs.len() < ids.len() {
        Some(ids[outputs.len() as int])
    } else {
        None
    };
    let done = next_log(before[node as int].replay@, next);
    reveal(fusion_counts);
    let fusion = stored[node as int].producer->Fusion_0;
    if outputs.len() < ids.len() {
        lemma_puts_out_one_more(
            start,
            sources,
            accumulate,
            priority,
            outputs,
            earlier,
            ids,
            later,
        );
        assert(puts_out(start, sources, accumulate, priority, done.outputs, later));
        assert forall|slot: int| 0 <= slot < inputs.len() implies (
        stored[inputs[slot] as int].seat(
            #[trigger] stored[node as int].readers()[slot],
        ) matches Some(position) && position == later.fusion.histories[slot].len()) by {
            lemma_input_is_earlier(plan, node, slot);
            let _ = reached[node as int].readers()[slot];
        }
    } else {
        assert(fixes(earlier, sources, outputs.len(), accumulate, priority, ids, later));
        assert(log_ends(
            earlier,
            sources,
            limit_of(definition),
            outputs.len(),
            accumulate,
            priority,
        ));
        assert(puts_out(start, sources, accumulate, priority, done.outputs, earlier));
        assert(finds_end(
            earlier,
            sources,
            accumulate,
            priority,
            outputs.len(),
            fusion.logical_input_pulls@,
            fusion.certification_checks,
        ));
    }
    assert(counts_held(
        plan,
        origin,
        stored,
        accumulate,
        priority,
        node as int,
        done,
        fusion,
    ));
    assert(fusion_logged(start, limit_of(definition), sources, accumulate, priority, done));
    assert(is_logged(plan, origin, logs_of(stored), accumulate, priority, node as int, done));
}

/// A session that fails makes its fusion fail.
proof fn lemma_fusion_fails<
    L: FallibleExactCompositionStream,
    F: Fn(i64, usize, usize, i64) -> i64,
    P: Fn(usize, usize, i64, usize, i64) -> i64,
>(
    plan: &ExactCompositionPlan,
    origin: NetworkOrigin,
    before: Seq<RuntimeNode<L>>,
    reached: Seq<RuntimeNode<L>>,
    accumulate: F,
    priority: P,
    node: usize,
    earlier: ProgressView,
    error: ExactCompositionError,
)
    requires
        plan.wf(),
        before.len() == plan.nodes().len(),
        reached.len() == before.len(),
        before.len() <= usize::MAX,
        node < before.len(),
        plan.nodes()[node as int] is Fusion,
        all_grow(logs_of(before), logs_of(reached)),
        log_of(reached[node as int]) == log_of(before[node as int]),
        !before[node as int].replay@.exhausted,
        puts_out(
            first_session(plan.nodes()[node as int], origin.policy),
            input_logs(logs_of(before), inputs_of(plan.nodes()[node as int])),
            accumulate,
            priority,
            before[node as int].replay@.produced,
            earlier,
        ),
        logged_below(plan, origin, reached, accumulate, priority, place_of(plan, node)),
        session_fails(
            plan,
            origin,
            logs_of(reached),
            accumulate,
            priority,
            node,
            earlier,
            before[node as int].replay@.produced.len(),
            error,
        ),
    ensures
        logged_below(plan, origin, reached, accumulate, priority, place_of(plan, node) + 1),
        node_fails(plan, origin, logs_of(reached), accumulate, priority, node, error),
{
    reveal(node_fails);
    reveal(session_fails);
    reveal(fusion_logged);
    let definition = plan.nodes()[node as int];
    let inputs = inputs_of(definition);
    let outputs = before[node as int].replay@.produced;
    let start = first_session(definition, origin.policy);
    lemma_inputs_are_nodes(plan, node as int);
    lemma_inputs_grow(logs_of(before), logs_of(reached), inputs);
    lemma_puts_out_survives(
        start,
        input_logs(logs_of(before), inputs),
        input_logs(logs_of(reached), inputs),
        accumulate,
        priority,
        outputs,
        earlier,
    );
    assert(logs_of(reached)[node as int].outputs == outputs);
    lemma_logged_with(plan, origin, reached, accumulate, priority, node);
}

proof fn lemma_inputs_are_nodes(plan: &ExactCompositionPlan, node: int)
    requires
        plan.wf(),
        0 <= node < plan.nodes().len(),
        plan.nodes().len() <= usize::MAX,
    ensures
        forall|slot: int|
            0 <= slot < inputs_of(plan.nodes()[node]).len() ==> #[trigger] inputs_of(
                plan.nodes()[node],
            )[slot] < plan.nodes().len(),
{
    assert forall|slot: int| 0 <= slot < inputs_of(plan.nodes()[node]).len() implies
        #[trigger] inputs_of(plan.nodes()[node])[slot] < plan.nodes().len() by {
        lemma_input_is_earlier(plan, node as usize, slot);
    }
}

/// A node that is not touched stays held as other nodes put out more.
proof fn lemma_held_survives<
    L: FallibleExactCompositionStream,
    F: Fn(i64, usize, usize, i64) -> i64,
    P: Fn(usize, usize, i64, usize, i64) -> i64,
>(
    plan: &ExactCompositionPlan,
    origin: NetworkOrigin,
    before: Seq<RuntimeNode<L>>,
    after: Seq<RuntimeNode<L>>,
    accumulate: F,
    priority: P,
    node: int,
    log: NodeLog,
)
    requires
        plan.wf(),
        before.len() == plan.nodes().len(),
        before.len() <= usize::MAX,
        0 <= node < before.len(),
        all_grow(logs_of(before), logs_of(after)),
        after[node].producer == before[node].producer,
        after[node].replay@.cancelled == before[node].replay@.cancelled,
        before[node].session() is Some ==> forall|slot: int|
            0 <= slot < inputs_of(plan.nodes()[node]).len() ==> after[inputs_of(
                plan.nodes()[node],
            )[slot] as int].seat(#[trigger] before[node].readers()[slot]) == before[inputs_of(
                plan.nodes()[node],
            )[slot] as int].seat(before[node].readers()[slot]),
        is_held(plan, origin, before, accumulate, priority, node, log),
    ensures
        is_held(plan, origin, after, accumulate, priority, node, log),
{
    reveal(is_held);
    let definition = plan.nodes()[node];
    lemma_inputs_are_nodes(plan, node);
    lemma_log_survives(
        plan,
        origin,
        logs_of(before),
        logs_of(after),
        accumulate,
        priority,
        node,
        log,
    );
    if before[node].producer is Fusion {
        let fusion = before[node].producer->Fusion_0;
        lemma_inputs_grow(logs_of(before), logs_of(after), inputs_of(definition));
        lemma_counts_survive(
            first_session(definition, origin.policy),
            input_logs(logs_of(before), inputs_of(definition)),
            input_logs(logs_of(after), inputs_of(definition)),
            accumulate,
            priority,
            log,
            fusion.logical_input_pulls@,
            fusion.certification_checks,
        );
    }
    if before[node].session() is Some {
        let view = before[node].session()->0@;
        lemma_inputs_grow(logs_of(before), logs_of(after), inputs_of(definition));
        lemma_puts_out_survives(
            first_session(definition, origin.policy),
            input_logs(logs_of(before), inputs_of(definition)),
            input_logs(logs_of(after), inputs_of(definition)),
            accumulate,
            priority,
            log.outputs,
            view,
        );
        assert forall|slot: int| 0 <= slot < inputs_of(definition).len() implies (
        after[inputs_of(definition)[slot] as int].seat(
            #[trigger] after[node].readers()[slot],
        ) matches Some(position) && position == view.fusion.histories[slot].len()) by {
            let _ = before[node].readers()[slot];
        }
    }
}

/// Nodes that change only in who reads them keep their logs, and stay held.
proof fn lemma_leaving_holds<
    L: FallibleExactCompositionStream,
    F: Fn(i64, usize, usize, i64) -> i64,
    P: Fn(usize, usize, i64, usize, i64) -> i64,
>(
    plan: &ExactCompositionPlan,
    origin: NetworkOrigin,
    before: Seq<RuntimeNode<L>>,
    after: Seq<RuntimeNode<L>>,
    accumulate: F,
    priority: P,
    fusion: int,
    node: int,
    reader: int,
    place: int,
)
    requires
        plan.wf(),
        before.len() == plan.nodes().len(),
        before.len() <= usize::MAX,
        lets_go(plan, before, after, fusion, node, reader),
        forall|other: int| 0 <= other < after.len() ==> #[trigger] has_shape(plan, after, other),
        forall|other: int| 0 <= other < before.len() ==> #[trigger] has_shape(plan, before, other),
    ensures
        logs_of(after) == logs_of(before),
        held_below(plan, origin, before, accumulate, priority, place) ==> held_below(
            plan,
            origin,
            after,
            accumulate,
            priority,
            place,
        ),
{
    reveal(is_held);
    reveal(lets_go);
    assert forall|other: int| 0 <= other < before.len() implies log_of(
        #[trigger] after[other],
    ) == log_of(before[other]) by {
        assert(is_released(before[other], after[other]));
        assert(has_shape(plan, before, other));
        before[other].replay.lemma_valid();
    }
    assert(logs_of(after) =~= logs_of(before));
    if held_below(plan, origin, before, accumulate, priority, place) {
        assert forall|other: int|
            0 <= other < after.len() && place_of(plan, other as usize) < place implies #[trigger] is_held(
            plan,
            origin,
            after,
            accumulate,
            priority,
            other,
            log_of(after[other]),
        ) by {
            let definition = plan.nodes()[other];
            assert(is_held(
                plan,
                origin,
                before,
                accumulate,
                priority,
                other,
                log_of(before[other]),
            ));
            assert(is_released(before[other], after[other]));
            assert(has_shape(plan, before, other));
            assert(has_shape(plan, after, other));
            before[other].replay.lemma_valid();
            after[other].replay.lemma_valid();
            if after[other].session() is Some {
                lemma_inputs_are_nodes(plan, other);
                let view = after[other].session()->0@;
                assert forall|slot: int| 0 <= slot < inputs_of(definition).len() implies (
                after[inputs_of(definition)[slot] as int].seat(
                    #[trigger] after[other].readers()[slot],
                ) matches Some(position) && position == view.fusion.histories[slot].len()) by {
                    let input = inputs_of(definition)[slot] as int;
                    let seat = before[other].readers()[slot];
                    assert(after[input].seat(after[other].readers()[slot]) is Some);
                    assert(is_released(before[input], after[input]));
                }
            }
        }
    }
}

impl<L: FallibleExactCompositionStream> LeafProducer<L> {
    /// Whether the leaf has yielded the given outputs of its stream, and can go on.
    spec fn is_at(&self, origin: LeafOrigin, outputs: Seq<ExtendedPointId>) -> bool {
        let count = outputs.len() as int;
        &&& self.stream matches Some(stream)
        &&& origin.rest matches Some(ids) ==> stream.rest() == Some(ids.skip(count))
        &&& origin.failing matches Some((ids, failure)) ==> stream.failing() == Some(
            (ids.skip(count), failure),
        )
        &&& forall|id: ExtendedPointId| #[trigger]
            self.seen@.contains(id) <==> outputs.contains(id)
    }

    /// The next identity of the leaf; one that comes twice is refused.
    fn next_identity(&mut self, node: usize) -> (result: Result<
        Option<ExtendedPointId>,
        ExactCompositionError,
    >)
        ensures
            forall|
                output: Seq<ExtendedPointId>,
                count: nat,
                failure: Option<ExactCompositionError>,
            | #[trigger]
                old(self).completes(node, output, count, failure) ==> match result {
                    Ok(Some(id)) => {
                        &&& count < output.len()
                        &&& id == output[count as int]
                        &&& final(self).completes(node, output, (count + 1) as nat, failure)
                    },
                    Ok(None) => count == output.len(),
                    Err(error) => failure == Some(error),
                },
            forall|origin: LeafOrigin, outputs: Seq<ExtendedPointId>| #[trigger]
                old(self).is_at(origin, outputs) && leaf_logged(
                    origin,
                    NodeLog { outputs, ended: false },
                ) ==> match result {
                    Ok(Some(id)) => {
                        &&& final(self).is_at(origin, outputs.push(id))
                        &&& leaf_logged(
                            origin,
                            NodeLog { outputs: outputs.push(id), ended: false },
                        )
                    },
                    Ok(None) => {
                        &&& final(self).stream is None
                        &&& leaf_logged(origin, NodeLog { outputs, ended: true })
                    },
                    Err(error) => leaf_fails(node, origin, outputs, error),
                },
    {
        let ghost stream_before = self.stream->0;
        let next = match &mut self.stream {
            Some(stream) => stream.next(),
            None => Ok(None),
        };
        match next {
            Ok(Some(identity)) => {
                let ghost seen = self.seen@;
                let added = self.seen.insert(identity);
                proof {
                    assert forall|origin: LeafOrigin, outputs: Seq<ExtendedPointId>| #[trigger]
                        old(self).is_at(origin, outputs) && leaf_logged(
                            origin,
                            NodeLog { outputs, ended: false },
                        ) implies (if added {
                        &&& self.is_at(origin, outputs.push(identity))
                        &&& leaf_logged(
                            origin,
                            NodeLog { outputs: outputs.push(identity), ended: false },
                        )
                    } else {
                        leaf_fails(
                            node,
                            origin,
                            outputs,
                            ExactCompositionError::DuplicateLeafIdentity { node, identity },
                        )
                    }) by {
                        lemma_leaf_goes_on(origin, outputs, identity);
                        assert(seen.contains(identity) == outputs.contains(identity));
                    }
                    assert forall|
                        output: Seq<ExtendedPointId>,
                        count: nat,
                        failure: Option<ExactCompositionError>,
                    | #[trigger]
                        old(self).completes(node, output, count, failure) implies if added {
                        &&& count < output.len()
                        &&& identity == output[count as int]
                        &&& continues(
                            node,
                            self.stream->0.rest(),
                            self.stream->0.failing(),
                            output,
                            (count + 1) as nat,
                            failure,
                        )
                        &&& forall|id: ExtendedPointId|
                            self.seen@.contains(id) <==> output.take((count + 1) as int).contains(
                                id,
                            )
                    } else {
                        failure == Some(
                            ExactCompositionError::DuplicateLeafIdentity { node, identity },
                        )
                    } by {
                        lemma_stream_continues(
                            node,
                            stream_before,
                            self.stream->0,
                            identity,
                            output,
                            count,
                            failure,
                        );
                        let shorter = output.take(count as int);
                        let longer = output.take((count + 1) as int);
                        if added {
                            assert(longer =~= shorter.push(identity));
                        }
                        if shorter.contains(identity) {
                            let k = choose|k: int| 0 <= k < shorter.len() && shorter[k] == identity;
                            assert(count < output.len() ==> output[k] != output[count as int]);
                        }
                        assert forall|id: ExtendedPointId| added implies (
                        self.seen@.contains(id) <==> longer.contains(id)) by {
                            if shorter.contains(id) {
                                let k = choose|k: int| 0 <= k < shorter.len() && shorter[k] == id;
                                assert(longer[k] == id);
                            }
                            if id == identity {
                                assert(longer[count as int] == id);
                            }
                            if longer.contains(id) && id != identity {
                                let k = choose|k: int| 0 <= k < longer.len() && longer[k] == id;
                                assert(shorter[k] == id);
                            }
                        }
                    }
                }
                if !added {
                    self.stream = None;
                    return Err(ExactCompositionError::DuplicateLeafIdentity { node, identity });
                }
                Ok(Some(identity))
            },
            Ok(None) => {
                self.stream = None;
                proof {
                    assert forall|
                        output: Seq<ExtendedPointId>,
                        count: nat,
                        failure: Option<ExactCompositionError>,
                    | #[trigger]
                        old(self).completes(node, output, count, failure) implies count
                        == output.len() by {
                        if failure is None {
                            assert(output.skip(count as int).len() == 0);
                        }
                    }
                }
                Ok(None)
            },
            Err(failure) => {
                self.stream = None;
                Err(ExactCompositionError::Leaf { node, failure })
            },
        }
    }

    /// Whether the leaf, having yielded `count` identities, will complete the
    /// output.
    spec fn completes(
        &self,
        node: usize,
        output: Seq<ExtendedPointId>,
        count: nat,
        failure: Option<ExactCompositionError>,
    ) -> bool {
        &&& output.no_duplicates()
        &&& count <= output.len()
        &&& self.stream matches Some(stream)
        &&& continues(node, stream.rest(), stream.failing(), output, count, failure)
        &&& forall|id: ExtendedPointId|
            self.seen@.contains(id) <==> output.take(count as int).contains(id)
    }
}

/// One more output of a leaf continues its log.
proof fn lemma_leaf_goes_on(
    origin: LeafOrigin,
    outputs: Seq<ExtendedPointId>,
    identity: ExtendedPointId,
)
    requires
        leaf_logged(origin, NodeLog { outputs, ended: false }),
    ensures
        !outputs.contains(identity) ==> outputs.push(identity).no_duplicates(),
        forall|id: ExtendedPointId| #[trigger]
            outputs.push(identity).contains(id) <==> outputs.contains(id) || id == identity,
        origin.rest matches Some(ids) ==> {
            &&& ids.skip(outputs.len() as int).len() == ids.len() - outputs.len()
            &&& outputs.len() < ids.len() ==> {
                &&& ids.skip(outputs.len() as int)[0] == ids[outputs.len() as int]
                &&& ids.skip(outputs.len() as int).drop_first() == ids.skip(
                    outputs.len() as int + 1,
                )
                &&& ids.take(outputs.len() as int + 1) == outputs.push(ids[outputs.len() as int])
            }
        },
        origin.failing matches Some((ids, _)) ==> {
            &&& ids.skip(outputs.len() as int).len() == ids.len() - outputs.len()
            &&& outputs.len() < ids.len() ==> {
                &&& ids.skip(outputs.len() as int)[0] == ids[outputs.len() as int]
                &&& ids.skip(outputs.len() as int).drop_first() == ids.skip(
                    outputs.len() as int + 1,
                )
                &&& ids.take(outputs.len() as int + 1) == outputs.push(ids[outputs.len() as int])
            }
        },
{
    let longer = outputs.push(identity);
    let count = outputs.len() as int;
    assert forall|id: ExtendedPointId| #[trigger]
        longer.contains(id) <==> outputs.contains(id) || id == identity by {
        if outputs.contains(id) {
            let k = choose|k: int| 0 <= k < outputs.len() && outputs[k] == id;
            assert(longer[k] == id);
        }
        if id == identity {
            assert(longer[count] == id);
        }
        if longer.contains(id) && id != identity {
            let k = choose|k: int| 0 <= k < longer.len() && longer[k] == id;
            assert(outputs[k] == id);
        }
    }
    if let Some(ids) = origin.rest {
        if count < ids.len() {
            assert(ids.skip(count).drop_first() =~= ids.skip(count + 1));
            assert(ids.take(count + 1) =~= outputs.push(ids[count]));
        }
    }
    if let Some((ids, _)) = origin.failing {
        if count < ids.len() {
            assert(ids.skip(count).drop_first() =~= ids.skip(count + 1));
            assert(ids.take(count + 1) =~= outputs.push(ids[count]));
        }
    }
}

/// A producer that was closed: it keeps its counts, but neither a stream nor a session.
spec fn closed_producer<L>(producer: Producer<L>) -> Producer<L> {
    match producer {
        Producer::Leaf(leaf) => Producer::Leaf(LeafProducer { stream: None, ..leaf }),
        Producer::Fusion(fusion) => Producer::Fusion(FusionProducer { session: None, ..fusion }),
    }
}

/// Whether a node has the given producer, which is closed where nothing more is produced.
spec fn is_closed_where_ended<L: FallibleExactCompositionStream>(
    producer: Producer<L>,
    node: RuntimeNode<L>,
) -> bool {
    node.producer == (if node.replay@.exhausted {
        closed_producer(producer)
    } else {
        producer
    })
}

/// Whether `after` is a buffer after some of its readers have left: it ends with the
/// last of them, and keeps what the others need.
spec fn loses_readers(before: ReplayView, after: ReplayView) -> bool {
    ||| after == before
    ||| {
        &&& after.readers.len() == before.readers.len()
        &&& forall|reader: int|
            0 <= reader < before.readers.len() ==> (#[trigger] after.readers[reader])
                == before.readers[reader] || after.readers[reader] is None
        &&& is_retained_from(after.readers, before.produced.len(), after.base)
        &&& after == (ReplayView {
            readers: after.readers,
            base: after.base,
            exhausted: before.exhausted || all_left(after.readers),
            cancelled: before.cancelled || all_left(after.readers) && !before.exhausted,
            ..before
        })
    }
}

/// Whether `after` is a node after some of its readers have left: once nothing more is
/// read of it, its producer is closed.
spec fn is_released<L: FallibleExactCompositionStream>(
    before: RuntimeNode<L>,
    after: RuntimeNode<L>,
) -> bool {
    &&& loses_readers(before.replay@, after.replay@)
    &&& {
        ||| after.producer == before.producer
        ||| after.replay@.exhausted && after.producer == closed_producer(before.producer)
    }
    &&& after.replay@.readers != before.replay@.readers && after.replay@.exhausted
        ==> after.producer == closed_producer(before.producer)
}

/// Whether a fusion has left all of its inputs.
spec fn has_left<L: FallibleExactCompositionStream>(
    plan: &ExactCompositionPlan,
    nodes: Seq<RuntimeNode<L>>,
    node: int,
) -> bool {
    let inputs = inputs_of(plan.nodes()[node]);
    forall|slot: int|
        0 <= slot < inputs.len() ==> nodes[inputs[slot] as int].seat(
            #[trigger] nodes[node].readers()[slot],
        ) is None
}

/// Whether the session of a fusion was given up.
spec fn gave_up<L: FallibleExactCompositionStream>(
    before: Seq<RuntimeNode<L>>,
    after: Seq<RuntimeNode<L>>,
    node: int,
) -> bool {
    before[node].session() is Some && after[node].session() is None
}

/// Whether a reader leaves by itself: it is the given reader of the given node, or a
/// reader of the given fusion.
spec fn leaves_first<L: FallibleExactCompositionStream>(
    plan: &ExactCompositionPlan,
    nodes: Seq<RuntimeNode<L>>,
    fusion: int,
    node: int,
    reader: int,
    input: int,
    seat: usize,
) -> bool {
    ||| input == node && seat == reader
    ||| exists|slot: int| #[trigger] owns(plan, nodes, fusion, slot, input, seat)
}

/// Whether a reader has a reason to leave: it leaves by itself, or its fusion was given
/// up.
spec fn may_leave<L: FallibleExactCompositionStream>(
    plan: &ExactCompositionPlan,
    before: Seq<RuntimeNode<L>>,
    after: Seq<RuntimeNode<L>>,
    fusion: int,
    node: int,
    reader: int,
    input: int,
    seat: usize,
) -> bool {
    ||| leaves_first(plan, before, fusion, node, reader, input, seat)
    ||| exists|owner: int, slot: int|
        #[trigger] owns(plan, before, owner, slot, input, seat) && gave_up(before, after, owner)
}

/// Whether `after` is a network after a reader, or all readers of a fusion, have left.
/// Nothing else leaves but the readers of other fusions that are thereby given up, and
/// those leave all of their inputs.
#[verifier::opaque]
spec fn lets_go<L: FallibleExactCompositionStream>(
    plan: &ExactCompositionPlan,
    before: Seq<RuntimeNode<L>>,
    after: Seq<RuntimeNode<L>>,
    fusion: int,
    node: int,
    reader: int,
) -> bool {
    &&& after.len() == before.len()
    &&& forall|other: int|
        0 <= other < before.len() ==> is_released(before[other], #[trigger] after[other])
    &&& forall|other: int|
        0 <= other < before.len() && other != fusion && #[trigger] gave_up(before, after, other)
            ==> has_left(plan, after, other)
    &&& forall|other: int, seat: usize|
        0 <= other < before.len() && seat < before[other].replay@.readers.len()
            && before[other].seat(seat) is Some && (#[trigger] after[other].seat(seat)) is None
            ==> may_leave(plan, before, after, fusion, node, reader, other, seat)
}

proof fn lemma_nothing_leaves<L: FallibleExactCompositionStream>(
    plan: &ExactCompositionPlan,
    nodes: Seq<RuntimeNode<L>>,
    fusion: int,
    node: int,
    reader: int,
)
    ensures
        lets_go(plan, nodes, nodes, fusion, node, reader),
{
    reveal(lets_go);
}

/// What has lost readers twice has lost readers.
proof fn lemma_released_twice<L: FallibleExactCompositionStream>(
    before: RuntimeNode<L>,
    middle: RuntimeNode<L>,
    after: RuntimeNode<L>,
)
    requires
        is_released(before, middle),
        is_released(middle, after),
    ensures
        is_released(before, after),
        after.readers() == before.readers(),
        after.replay@.readers.len() == before.replay@.readers.len(),
        middle.session() is Some ==> middle.session() == before.session(),
        middle.session() is None ==> after.session() is None,
        forall|seat: usize|
            seat < before.replay@.readers.len() && middle.seat(seat) is None ==> (
            #[trigger] after.seat(seat)) is None,
{
    let first = before.replay@;
    let second = middle.replay@;
    let third = after.replay@;
    if second != first && third != second {
        if all_left(second.readers) {
            assert(all_left(third.readers)) by {
                assert forall|reader: int| 0 <= reader < third.readers.len() implies (
                #[trigger] third.readers[reader]) is None by {
                    assert(second.readers[reader] is None);
                }
            }
        }
        assert forall|reader: int| 0 <= reader < first.readers.len() implies (
        #[trigger] third.readers[reader]) == first.readers[reader] || third.readers[reader]
            is None by {
            let _ = second.readers[reader];
        }
    }
    assert forall|seat: usize|
        seat < before.replay@.readers.len() && middle.seat(seat) is None implies (
    #[trigger] after.seat(seat)) is None by {
        let _ = third.readers[seat as int];
    }
    if third.readers == second.readers && second.readers != first.readers && third.exhausted {
        assert(second.exhausted);
    }
}

/// Letting go twice is letting go once, where every reader that leaves by itself in one
/// of the two has a reason in both together.
proof fn lemma_lets_go_twice<L: FallibleExactCompositionStream>(
    plan: &ExactCompositionPlan,
    before: Seq<RuntimeNode<L>>,
    middle: Seq<RuntimeNode<L>>,
    after: Seq<RuntimeNode<L>>,
    first: (int, int, int),
    second: (int, int, int),
    both: (int, int, int),
)
    requires
        plan.wf(),
        before.len() == plan.nodes().len(),
        lets_go(plan, before, middle, first.0, first.1, first.2),
        lets_go(plan, middle, after, second.0, second.1, second.2),
        forall|other: int| 0 <= other < before.len() ==> #[trigger] has_shape(plan, before, other),
        forall|other: int|
            0 <= other < before.len() && (other == first.0 || other == second.0) && other != both.0
                && #[trigger] gave_up(before, after, other) ==> has_left(plan, after, other),
        forall|other: int, seat: usize|
            leaves_first(plan, before, first.0, first.1, first.2, other, seat) || leaves_first(
                plan,
                middle,
                second.0,
                second.1,
                second.2,
                other,
                seat,
            ) ==> #[trigger] may_leave(
                plan,
                before,
                after,
                both.0,
                both.1,
                both.2,
                other,
                seat,
            ),
    ensures
        lets_go(plan, before, after, both.0, both.1, both.2),
{
    reveal(lets_go);
    assert forall|other: int| 0 <= other < before.len() implies {
        &&& is_released(before[other], #[trigger] after[other])
        &&& after[other].readers() == before[other].readers()
        &&& after[other].readers() == middle[other].readers()
        &&& middle[other].session() is Some ==> middle[other].session() == before[other].session()
        &&& middle[other].session() is None ==> after[other].session() is None
    } by {
        assert(is_released(before[other], middle[other]));
        lemma_released_twice(before[other], middle[other], after[other]);
    }
    assert forall|other: int|
        0 <= other < before.len() && other != both.0 && #[trigger] gave_up(
            before,
            after,
            other,
        ) implies has_left(plan, after, other) by {
        let _ = after[other];
        if other == first.0 || other == second.0 {
        } else if middle[other].session() is None {
            assert(gave_up(before, middle, other));
            let inputs = inputs_of(plan.nodes()[other]);
            assert forall|slot: int| 0 <= slot < inputs.len() implies after[inputs[slot] as int].seat(
                #[trigger] after[other].readers()[slot],
            ) is None by {
                lemma_input_is_earlier(plan, other as usize, slot);
                let input = inputs[slot] as int;
                assert(has_shape(plan, before, other));
                assert(middle[input].seat(middle[other].readers()[slot]) is None);
                assert(is_released(before[input], middle[input]));
                assert(is_released(middle[input], after[input]));
                lemma_released_twice(before[input], middle[input], after[input]);
            }
        } else {
            assert(gave_up(middle, after, other));
        }
    }
    assert forall|other: int, seat: usize|
        0 <= other < before.len() && seat < before[other].replay@.readers.len()
            && before[other].seat(seat) is Some && (#[trigger] after[other].seat(seat))
            is None implies may_leave(
        plan,
        before,
        after,
        both.0,
        both.1,
        both.2,
        other,
        seat,
    ) by {
        assert(is_released(before[other], middle[other]));
        if middle[other].seat(seat) is None {
            assert(may_leave(plan, before, middle, first.0, first.1, first.2, other, seat));
            if !leaves_first(plan, before, first.0, first.1, first.2, other, seat) {
                let (owner, slot) = choose|owner: int, slot: int|
                    #[trigger] owns(plan, before, owner, slot, other, seat) && gave_up(
                        before,
                        middle,
                        owner,
                    );
                let _ = after[owner];
                assert(owns(plan, before, owner, slot, other, seat) && gave_up(
                    before,
                    after,
                    owner,
                ));
            }
        } else {
            assert(may_leave(plan, middle, after, second.0, second.1, second.2, other, seat));
            if !leaves_first(plan, middle, second.0, second.1, second.2, other, seat) {
                let (owner, slot) = choose|owner: int, slot: int|
                    #[trigger] owns(plan, middle, owner, slot, other, seat) && gave_up(
                        middle,
                        after,
                        owner,
                    );
                let _ = after[owner];
                assert(owns(plan, before, owner, slot, other, seat) && gave_up(
                    before,
                    after,
                    owner,
                ));
            }
        }
    }
}

/// A reader that leaves one node, whose producer is closed where nothing more is read.
proof fn lemma_one_leaves<L: FallibleExactCompositionStream>(
    plan: &ExactCompositionPlan,
    before: Seq<RuntimeNode<L>>,
    after: Seq<RuntimeNode<L>>,
    node: int,
    reader: usize,
)
    requires
        0 <= node < before.len(),
        reader < before[node].replay@.readers.len(),
        after.len() == before.len(),
        forall|other: int|
            0 <= other < before.len() && other != node ==> #[trigger] after[other] == before[other],
        before[node].replay@.valid(),
        before[node].replay@.left_by(reader as int, after[node].replay@),
        is_closed_where_ended(before[node].producer, after[node]),
    ensures
        is_released(before[node], after[node]),
        lets_go(plan, before, after, node, node, reader as int),
        !gave_up(before, after, node) ==> lets_go(plan, before, after, -1, node, reader as int),
{
    reveal(lets_go);
    let view = before[node].replay@;
    let readers = view.readers.update(reader as int, None);
    assert(after[node].replay@.readers == readers);
    assert(loses_readers(view, after[node].replay@));
    assert(is_released(before[node], after[node]));
    assert forall|other: int|
        0 <= other < before.len() implies is_released(before[other], #[trigger] after[other]) by {}
    assert forall|other: int|
        0 <= other < before.len() && other != node implies !#[trigger] gave_up(
        before,
        after,
        other,
    ) by {
        assert(after[other] == before[other]);
    }
    assert forall|other: int, seat: usize|
        0 <= other < before.len() && seat < before[other].replay@.readers.len()
            && before[other].seat(seat) is Some && (#[trigger] after[other].seat(seat))
            is None implies other == node && seat == reader by {
        if other != node {
            assert(after[other] == before[other]);
        }
    }
}

/// A fusion that is given up leaves its inputs.
proof fn lemma_fusion_leaves<L: FallibleExactCompositionStream>(
    plan: &ExactCompositionPlan,
    before: Seq<RuntimeNode<L>>,
    closed: Seq<RuntimeNode<L>>,
    after: Seq<RuntimeNode<L>>,
    node: int,
    reader: usize,
)
    requires
        plan.wf(),
        before.len() == plan.nodes().len(),
        0 <= node < before.len(),
        forall|other: int| 0 <= other < before.len() ==> #[trigger] has_shape(plan, before, other),
        lets_go(plan, before, closed, node, node, reader as int),
        lets_go(plan, closed, after, node, -1, -1),
        closed[node].readers() == before[node].readers(),
        after[node] == closed[node],
        gave_up(before, closed, node),
        has_left(plan, after, node),
    ensures
        lets_go(plan, before, after, -1, node, reader as int),
{
    assert(gave_up(before, after, node));
    assert forall|other: int, seat: usize|
        leaves_first(plan, before, node, node, reader as int, other, seat) || leaves_first(
            plan,
            closed,
            node,
            -1,
            -1,
            other,
            seat,
        ) implies #[trigger] may_leave(
        plan,
        before,
        after,
        -1,
        node,
        reader as int,
        other,
        seat,
    ) by {
        if leaves_first(plan, closed, node, -1, -1, other, seat) {
            let slot = choose|slot: int| #[trigger] owns(plan, closed, node, slot, other, seat);
            assert(owns(plan, before, node, slot, other, seat));
        }
    }
    lemma_lets_go_twice(
        plan,
        before,
        closed,
        after,
        (node, node, reader as int),
        (node, -1, -1),
        (-1, node, reader as int),
    );
}

/// A fusion leaves one more of its inputs.
proof fn lemma_slot_leaves<L: FallibleExactCompositionStream>(
    plan: &ExactCompositionPlan,
    before: Seq<RuntimeNode<L>>,
    middle: Seq<RuntimeNode<L>>,
    after: Seq<RuntimeNode<L>>,
    node: int,
    slot: int,
    input: int,
    reader: usize,
)
    requires
        plan.wf(),
        before.len() == plan.nodes().len(),
        forall|other: int| 0 <= other < before.len() ==> #[trigger] has_shape(plan, before, other),
        lets_go(plan, before, middle, node, -1, -1),
        lets_go(plan, middle, after, -1, input, reader as int),
        owns(plan, before, node, slot, input, reader),
    ensures
        lets_go(plan, before, after, node, -1, -1),
{
    assert forall|other: int, seat: usize|
        leaves_first(plan, before, node, -1, -1, other, seat) || leaves_first(
            plan,
            middle,
            -1,
            input,
            reader as int,
            other,
            seat,
        ) implies #[trigger] may_leave(plan, before, after, node, -1, -1, other, seat) by {
        if other == input && seat == reader {
            assert(owns(plan, before, node, slot, other, seat));
        }
    }
    lemma_lets_go_twice(
        plan,
        before,
        middle,
        after,
        (node, -1, -1),
        (-1, input, reader as int),
        (node, -1, -1),
    );
}

/// A reader that has left does not come back.
proof fn lemma_left_stays_left<L: FallibleExactCompositionStream>(
    plan: &ExactCompositionPlan,
    before: Seq<RuntimeNode<L>>,
    after: Seq<RuntimeNode<L>>,
    fusion: int,
    node: int,
    reader: int,
    other: int,
    seat: usize,
)
    requires
        lets_go(plan, before, after, fusion, node, reader),
        0 <= other < before.len(),
        seat < before[other].replay@.readers.len(),
        before[other].seat(seat) is None,
    ensures
        after[other].seat(seat) is None,
{
    reveal(lets_go);
    assert(is_released(before[other], after[other]));
    let _ = after[other].replay@.readers[seat as int];
}

impl<L: FallibleExactCompositionStream> CompositionRuntime<L> {
    /// Every node has its shape.
    proof fn lemma_shapes(&self, plan: &ExactCompositionPlan)
        requires
            self.wf(plan),
        ensures
            self.nodes@.len() <= usize::MAX,
            forall|node: int|
                0 <= node < self.nodes@.len() ==> #[trigger] has_shape(plan, self.nodes@, node),
    {
        assert(self.nodes.len() <= usize::MAX);
        assert forall|node: int| 0 <= node < self.nodes@.len() implies #[trigger] has_shape(
            plan,
            self.nodes@,
            node,
        ) by {
            let _ = self.nodes@;
        }
    }

    /// Whether every node below a place agrees with each of the outputs.
    spec fn agree<F: Fn(i64, usize, usize, i64) -> i64>(
        &self,
        plan: &ExactCompositionPlan,
        accumulate: F,
        all: Set<Promise>,
        place: int,
    ) -> bool {
        forall|promise: Promise| #[trigger]
            all.contains(promise) ==> sound_outputs(plan, accumulate, promise) && agrees_below(
                plan,
                accumulate,
                self.nodes@,
                promise,
                place,
            )
    }

    /// Lets a reader of a node leave. A node that nothing reads any more is
    /// closed, and leaves its inputs in turn.
    fn leave<F: Fn(i64, usize, usize, i64) -> i64>(
        &mut self,
        plan: &ExactCompositionPlan,
        node: usize,
        reader: usize,
        accumulate: &F,
        Ghost(all): Ghost<Set<Promise>>,
    )
        requires
            old(self).wf(plan),
            node < plan.nodes().len(),
            reader < old(self).nodes@[node as int].replay@.readers.len(),
            forall|owner: int, slot: int|
                #[trigger] owns(plan, old(self).nodes@, owner, slot, node as int, reader)
                    ==> old(self).nodes@[owner].session() is None,
            old(self).agree(plan, *accumulate, all, place_of(plan, node) + 1),
        ensures
            final(self).wf(plan),
            changes_beneath(plan, old(self).nodes@, final(self).nodes@, node, reader as int),
            final(self).agree(plan, *accumulate, all, place_of(plan, node) + 1),
            old(self).nodes@[node as int].replay@.left_by(
                reader as int,
                final(self).nodes@[node as int].replay@,
            ),
            is_closed_where_ended(
                old(self).nodes@[node as int].producer,
                final(self).nodes@[node as int],
            ),
            lets_go(plan, old(self).nodes@, final(self).nodes@, -1, node as int, reader as int),
        decreases place_of(plan, node), 1int,
    {
        let ghost before = self.nodes@;
        proof {
            lemma_every_node_is_placed(plan, node);
            assert(has_shape(plan, before, node as int));
            self.nodes@[node as int].replay.lemma_valid();
        }
        let consumed: usize = self.nodes[node].replay.leave(reader);
        let ghost left = self.nodes@;
        proof {
            assert(left[node as int].producer == before[node as int].producer);
            lemma_total_after_change(before, left, node as int);
            left[node as int].replay.lemma_valid();
            assert(forall|k: int| 0 <= k < left.len() ==> has_shape(plan, before, k));
            assert forall|k: int| 0 <= k < left.len() implies (#[trigger] left[k]).replay.wf() by {
                assert(has_shape(plan, before, k));
            }
            lemma_total_is_bounded(left);
        }
        self.memory.shrink(consumed);
        let mut open = false;
        if self.nodes[node].replay.is_exhausted() {
            match &mut self.nodes[node].producer {
                Producer::Leaf(leaf) => {
                    leaf.stream = None;
                },
                Producer::Fusion(fusion) => {
                    open = fusion.session.take().is_some();
                },
            }
        }
        let ghost closed = self.nodes@;
        proof {
            lemma_total_same(left, closed);
            assert(changes_one(before, closed, node, reader as int));
            lemma_one_is_beneath(plan, before, closed, node, reader as int);
            assert forall|other: int| 0 <= other < closed.len() implies has_shape(
                plan,
                #[trigger] self.nodes@,
                other,
            ) by {
                assert(has_shape(plan, before, other));
                if other != node {
                    lemma_others_survive(
                        plan,
                        *accumulate,
                        before,
                        closed,
                        node,
                        reader as int,
                        other,
                    );
                } else {
                    lemma_own_inputs_unchanged(plan, before, closed, node, reader as int);
                }
            }
            assert forall|promise: Promise| #[trigger]
                all.contains(promise) implies agrees_below(
                plan,
                *accumulate,
                closed,
                promise,
                place_of(plan, node) + 1,
            ) by {
                assert forall|other: int|
                    0 <= other < closed.len() && place_of(plan, other as usize) < place_of(
                        plan,
                        node,
                    ) + 1 implies #[trigger] node_agrees(
                    plan,
                    *accumulate,
                    closed,
                    promise,
                    other,
                ) by {
                    assert(has_shape(plan, before, other));
                    assert(node_agrees(plan, *accumulate, before, promise, other));
                    if other != node {
                        lemma_others_survive(
                            plan,
                            *accumulate,
                            before,
                            closed,
                            node,
                            reader as int,
                            other,
                        );
                    } else {
                        lemma_own_inputs_unchanged(plan, before, closed, node, reader as int);
                    }
                }
            }
        }
        proof {
            assert(before[node as int].replay@.valid()) by {
                before[node as int].replay.lemma_valid();
            }
            assert forall|other: int| 0 <= other < before.len() && other != node implies
                #[trigger] closed[other] == before[other] by {
                assert(left[other] == before[other]);
            }
            assert(closed[node as int].replay@ == left[node as int].replay@);
            lemma_one_leaves(plan, before, closed, node as int, reader);
        }
        if open {
            self.leave_inputs(plan, node, accumulate, Ghost(all));
            proof {
                lemma_two_changes(plan, before, closed, self.nodes@, node, reader as int);
                lemma_fusion_leaves(plan, before, closed, self.nodes@, node as int, reader);
            }
        }
    }

    /// Lets a closed fusion leave its inputs.
    fn leave_inputs<F: Fn(i64, usize, usize, i64) -> i64>(
        &mut self,
        plan: &ExactCompositionPlan,
        node: usize,
        accumulate: &F,
        Ghost(all): Ghost<Set<Promise>>,
    )
        requires
            old(self).wf(plan),
            node < plan.nodes().len(),
            old(self).nodes@[node as int].session() is None,
            old(self).agree(plan, *accumulate, all, place_of(plan, node)),
        ensures
            final(self).wf(plan),
            changes_beneath(plan, old(self).nodes@, final(self).nodes@, node, -1),
            final(self).nodes@[node as int] == old(self).nodes@[node as int],
            has_left(plan, final(self).nodes@, node as int),
            lets_go(plan, old(self).nodes@, final(self).nodes@, node as int, -1, -1),
            forall|place: int|
                old(self).agree(plan, *accumulate, all, place) ==> #[trigger] final(self).agree(
                    plan,
                    *accumulate,
                    all,
                    place,
                ),
        decreases place_of(plan, node), 0int,
    {
        let ghost before = self.nodes@;
        proof {
            lemma_no_change(plan, before, node, -1);
        }
        proof {
            lemma_nothing_leaves(plan, before, node as int, -1, -1);
        }
        let inputs = match plan.node(node) {
            ExactCompositionNode::Fusion { inputs, .. } => inputs,
            _ => {
                return ;
            },
        };
        let mut slot: usize = 0;
        while slot < inputs.len()
            invariant
                self.wf(plan),
                node < plan.nodes().len(),
                inputs@ == inputs_of(plan.nodes()[node as int]),
                before == old(self).nodes@,
                separate(plan, before),
                before.len() == self.nodes@.len(),
                before[node as int].session() is None,
                self.nodes@[node as int] == before[node as int],
                changes_beneath(plan, before, self.nodes@, node, -1),
                forall|other: int|
                    0 <= other < before.len() ==> #[trigger] has_shape(plan, before, other),
                slot <= inputs@.len(),
                forall|at: int|
                    0 <= at < slot ==> self.nodes@[inputs@[at] as int].seat(
                        #[trigger] self.nodes@[node as int].readers()[at],
                    ) is None,
                lets_go(plan, before, self.nodes@, node as int, -1, -1),
                old(self).agree(plan, *accumulate, all, place_of(plan, node)),
                forall|place: int|
                    old(self).agree(plan, *accumulate, all, place) ==> #[trigger] self.agree(
                        plan,
                        *accumulate,
                        all,
                        place,
                    ),
            decreases inputs@.len() - slot,
        {
            let input: usize = inputs[slot];
            let ghost middle = self.nodes@;
            proof {
                assert(has_shape(plan, self.nodes@, node as int));
                lemma_input_is_earlier(plan, node, slot as int);
            }
            let reader: usize = match &self.nodes[node].producer {
                Producer::Fusion(fusion) => fusion.readers[slot],
                Producer::Leaf(_) => 0,
            };
            let ghost here = *self;
            proof {
                assert(reader == middle[node as int].readers()[slot as int]);
                assert(owns(plan, middle, node as int, slot as int, input as int, reader));
                assert(owns(plan, before, node as int, slot as int, input as int, reader));
                assert forall|owner: int, at: int|
                    #[trigger] owns(plan, middle, owner, at, input as int, reader) implies
                    middle[owner].session() is None by {
                    assert(owner == node);
                }
                assert(self.agree(plan, *accumulate, all, place_of(plan, node)));
                assert(self.agree(plan, *accumulate, all, place_of(plan, input) + 1)) by {
                    assert forall|promise: Promise| #[trigger]
                        all.contains(promise) implies sound_outputs(plan, *accumulate, promise)
                        && agrees_below(
                        plan,
                        *accumulate,
                        self.nodes@,
                        promise,
                        place_of(plan, input) + 1,
                    ) by {
                        assert(agrees_below(
                            plan,
                            *accumulate,
                            self.nodes@,
                            promise,
                            place_of(plan, node),
                        ));
                    }
                }
            }
            self.leave(plan, input, reader, accumulate, Ghost(all));
            proof {
                lemma_changes_compose(
                    plan,
                    before,
                    middle,
                    self.nodes@,
                    node,
                    -1,
                    input,
                    reader,
                );
                assert(self.nodes@[node as int] == middle[node as int]);
                lemma_slot_leaves(
                    plan,
                    before,
                    middle,
                    self.nodes@,
                    node as int,
                    slot as int,
                    input as int,
                    reader,
                );
                assert forall|at: int| 0 <= at < slot + 1 implies self.nodes@[
                inputs@[at] as int].seat(
                    #[trigger] self.nodes@[node as int].readers()[at],
                ) is None by {
                    if at < slot {
                        lemma_input_is_earlier(plan, node, at);
                        assert(middle[inputs@[at] as int].seat(
                            middle[node as int].readers()[at],
                        ) is None);
                        lemma_left_stays_left(
                            plan,
                            middle,
                            self.nodes@,
                            -1,
                            input as int,
                            reader as int,
                            inputs@[at] as int,
                            middle[node as int].readers()[at],
                        );
                    }
                }
                assert forall|place: int| old(self).agree(plan, *accumulate, all, place) implies
                    #[trigger] self.agree(plan, *accumulate, all, place) by {
                    assert(here.agree(plan, *accumulate, all, place));
                    assert forall|promise: Promise| #[trigger]
                        all.contains(promise) implies agrees_below(
                        plan,
                        *accumulate,
                        self.nodes@,
                        promise,
                        place,
                    ) by {
                        assert forall|other: int| 0 <= other < middle.len() implies has_shape(
                            plan,
                            middle,
                            other,
                        ) by {
                            assert(has_shape(plan, here.nodes@, other));
                        }
                        lemma_network_survives(
                            plan,
                            *accumulate,
                            middle,
                            self.nodes@,
                            input,
                            reader as int,
                            promise,
                            place,
                        );
                    }
                }
            }
            slot += 1;
        }
    }
}

/// The inputs of a node are other nodes, so a change of the node alone leaves
/// them as they were.
proof fn lemma_own_inputs_unchanged<L: FallibleExactCompositionStream>(
    plan: &ExactCompositionPlan,
    before: Seq<RuntimeNode<L>>,
    after: Seq<RuntimeNode<L>>,
    node: usize,
    reader: int,
)
    requires
        plan.wf(),
        before.len() == plan.nodes().len(),
        changes_one(before, after, node, reader),
    ensures
        forall|slot: int|
            0 <= slot < inputs_of(plan.nodes()[node as int]).len() ==> after[#[trigger] inputs_of(
                plan.nodes()[node as int],
            )[slot] as int] == before[inputs_of(plan.nodes()[node as int])[slot] as int],
{
    assert forall|slot: int| 0 <= slot < inputs_of(plan.nodes()[node as int]).len() implies after[
    #[trigger] inputs_of(plan.nodes()[node as int])[slot] as int] == before[inputs_of(
        plan.nodes()[node as int],
    )[slot] as int] by {
        lemma_input_is_earlier(plan, node, slot);
    }
}

/// Two changes beneath one node make one change beneath it.
proof fn lemma_two_changes<L: FallibleExactCompositionStream>(
    plan: &ExactCompositionPlan,
    before: Seq<RuntimeNode<L>>,
    middle: Seq<RuntimeNode<L>>,
    after: Seq<RuntimeNode<L>>,
    node: usize,
    reader: int,
)
    requires
        changes_beneath(plan, before, middle, node, reader) && changes_beneath(
            plan,
            middle,
            after,
            node,
            -1,
        ) || changes_beneath(plan, before, middle, node, -1) && changes_beneath(
            plan,
            middle,
            after,
            node,
            reader,
        ),
    ensures
        changes_beneath(plan, before, after, node, reader),
{
    if changes_beneath(plan, before, middle, node, reader) {
        lemma_beneath_keeps_owners(plan, before, middle, node, reader);
    } else {
        lemma_beneath_keeps_owners(plan, before, middle, node, -1);
    }
    assert forall|other: int, seat: usize|
        0 <= other < before.len() && seat < before[other].replay@.readers.len() && !(other == node
            && seat == reader) && !owned_beneath(
            plan,
            before,
            node,
            other,
            seat,
        ) implies #[trigger] after[other].seat(seat) == before[other].seat(seat) by {
        assert(middle[other].replay@.readers.len() == before[other].replay@.readers.len());
        assert(middle[other].seat(seat) == before[other].seat(seat));
        assert(!owned_beneath(plan, middle, node, other, seat)) by {
            if owned_beneath(plan, middle, node, other, seat) {
                let (owner, slot) = choose|owner: int, slot: int|
                    #[trigger] owns(plan, middle, owner, slot, other, seat) && place_of(
                        plan,
                        owner as usize,
                    ) <= place_of(plan, node);
                assert(owns(plan, before, owner, slot, other, seat));
            }
        }
    }
    assert forall|other: int| 0 <= other < before.len() implies (
    #[trigger] after[other]).readers() == before[other].readers()
        && after[other].replay@.readers.len() == before[other].replay@.readers.len() by {
        assert(middle[other].readers() == before[other].readers());
    }
    assert forall|other: int|
        0 <= other < before.len() && place_of(plan, other as usize) > place_of(
            plan,
            node,
        ) implies #[trigger] after[other] == before[other] by {
        assert(middle[other] == before[other]);
    }
}


/// Whether the session of a fusion has read prefixes of its inputs' outputs, for
/// each of the outputs.
spec fn sessions_agree<L: FallibleExactCompositionStream, F: Fn(i64, usize, usize, i64) -> i64>(
    plan: &ExactCompositionPlan,
    accumulate: F,
    nodes: Seq<RuntimeNode<L>>,
    all: Set<Promise>,
    node: int,
    view: ProgressView,
    emitted: nat,
) -> bool {
    forall|promise: Promise| #[trigger]
        all.contains(promise) ==> session_agrees(
            plan,
            accumulate,
            nodes,
            promise,
            node,
            view,
            emitted,
        )
}

/// Whether every input of a fusion can be read under the fusion's numbers.
spec fn inputs_are_open<L: FallibleExactCompositionStream>(
    plan: &ExactCompositionPlan,
    nodes: Seq<RuntimeNode<L>>,
    node: int,
) -> bool {
    let inputs = inputs_of(plan.nodes()[node]);
    forall|slot: int|
        0 <= slot < inputs.len() ==> nodes[inputs[slot] as int].seat(
            #[trigger] nodes[node].readers()[slot],
        ) is Some
}

/// What one output identity of an input does to the session that reads it.
proof fn lemma_pull_agrees<L: FallibleExactCompositionStream, F: Fn(i64, usize, usize, i64) -> i64>(
    plan: &ExactCompositionPlan,
    accumulate: F,
    before: Seq<RuntimeNode<L>>,
    after: Seq<RuntimeNode<L>>,
    promise: Promise,
    node: usize,
    chosen: ProgressView,
    source: usize,
    batch: ChannelRankBatch,
    emitted: nat,
)
    requires
        plan.wf(),
        before.len() == plan.nodes().len(),
        node < before.len(),
        separate(plan, before),
        has_shape(plan, before, node as int),
        sound_outputs(plan, accumulate, promise),
        chosen.valid(),
        chosen.batch_size == 1,
        chosen.order is None,
        session_agrees(plan, accumulate, before, promise, node as int, chosen, emitted),
        chosen.fusion.weights.len() == inputs_of(plan.nodes()[node as int]).len(),
        source < chosen.fusion.weights.len(),
        !chosen.fusion.exhausted[source as int],
        ({
            let input = inputs_of(plan.nodes()[node as int])[source as int];
            let reader = before[node as int].readers()[source as int];
            let rank = chosen.fusion.histories[source as int].len();
            &&& changes_beneath(plan, before, after, input, reader as int)
            &&& batch.start_rank == rank
            &&& if rank < promise.outputs[input as int].len() {
                &&& batch.point_ids@ == seq![promise.outputs[input as int][rank as int]]
                &&& !batch.exhausted
                &&& after[input as int].seat(reader) == Some((rank + 1) as usize)
            } else {
                &&& batch.point_ids@ == Seq::<ExtendedPointId>::empty()
                &&& batch.exhausted
                &&& after[input as int].seat(reader) == Some(rank as usize)
            }
        }),
    ensures
        chosen.supply_fault(source, batch.start_rank, batch.point_ids@, batch.exhausted) is None,
        session_agrees(
            plan,
            accumulate,
            after,
            promise,
            node as int,
            chosen.supplied(source, batch.point_ids@, batch.exhausted),
            emitted,
        ),
{
    let inputs = inputs_of(plan.nodes()[node as int]);
    let rankings = input_outputs(promise.outputs, inputs);
    let input = inputs[source as int];
    let reader = before[node as int].readers()[source as int];
    let history = chosen.fusion.histories[source as int];
    let ranking = rankings[source as int];
    let ids = batch.point_ids@;
    assert(history == ranking.take(history.len() as int));
    assert(ids =~= ranking.subrange(history.len() as int, (history.len() + ids.len()) as int));
    if batch.exhausted {
        assert(history + ids =~= ranking);
    }
    lemma_supply_follows(chosen, rankings, source, batch);
    let after_view = chosen.supplied(source, ids, batch.exhausted);
    lemma_input_is_earlier(plan, node, source as int);
    assert(after[node as int] == before[node as int]);
    assert forall|slot: int| 0 <= slot < inputs.len() implies after[inputs[slot] as int].seat(
        #[trigger] after[node as int].readers()[slot],
    ) == Some(after_view.fusion.histories[slot].len() as usize) by {
        lemma_seat_survives(plan, before, after, input, reader as int, node as int, slot);
        assert(owns(
            plan,
            before,
            node as int,
            source as int,
            input as int,
            reader,
        ));
        assert(before[inputs[slot] as int].seat(before[node as int].readers()[slot]) == Some(
            chosen.fusion.histories[slot].len() as usize,
        ));
        if slot != source {
            assert(owns(
                plan,
                before,
                node as int,
                slot,
                inputs[slot] as int,
                before[node as int].readers()[slot],
            ));
            assert(after_view.fusion.histories[slot] == chosen.fusion.histories[slot]);
        }
    }
}

impl<L: FallibleExactCompositionStream> CompositionRuntime<L> {
    /// Advances the session of a fusion, which is taken out of its node, until
    /// its first `target` identities are fixed.
    #[verifier::rlimit(40)]
    fn run_to_prefix<
        F: Fn(i64, usize, usize, i64) -> i64,
        P: Fn(usize, usize, i64, usize, i64) -> i64,
    >(
        &mut self,
        plan: &ExactCompositionPlan,
        node: usize,
        progress: &mut RrfProgress,
        target: usize,
        accumulate: &F,
        priority: &P,
        Ghost(all): Ghost<Set<Promise>>,
        Ghost(origin): Ghost<NetworkOrigin>,
    ) -> (result: Result<DynamicRrfExecution, ExactCompositionError>)
        requires
            old(self).wf(plan),
            accepts(*accumulate),
            accepts_priority(*priority),
            node < plan.nodes().len(),
            plan.nodes()[node as int] is Fusion,
            target > 0,
            old(self).nodes@[node as int].session() is None,
            inputs_are_open(plan, old(self).nodes@, node as int),
            old(progress).wf(),
            old(progress)@.fusion.weights.len() == inputs_of(plan.nodes()[node as int]).len(),
            old(progress)@.batch_size == 1,
            old(self).agree(plan, *accumulate, all, place_of(plan, node)),
            sessions_agree(
                plan,
                *accumulate,
                old(self).nodes@,
                all,
                node as int,
                old(progress)@,
                (target - 1) as nat,
            ),
            held_below(
                plan,
                origin,
                old(self).nodes@,
                *accumulate,
                *priority,
                place_of(plan, node),
            ),
            is_seated(plan, old(self).nodes@, node as int, old(progress)@),
        ensures
            all_grow(logs_of(old(self).nodes@), logs_of(final(self).nodes@)),
            match result {
                Ok(execution) => {
                    &&& held_below(
                        plan,
                        origin,
                        final(self).nodes@,
                        *accumulate,
                        *priority,
                        place_of(plan, node),
                    )
                    &&& is_seated(plan, final(self).nodes@, node as int, final(progress)@)
                    &&& fixes(
                        old(progress)@,
                        input_logs(
                            logs_of(final(self).nodes@),
                            inputs_of(plan.nodes()[node as int]),
                        ),
                        (target - 1) as nat,
                        *accumulate,
                        *priority,
                        execution.point_ids@,
                        final(progress)@,
                    )
                    &&& final(progress)@.reported(execution)
                },
                Err(error) => {
                    &&& logged_below(
                        plan,
                        origin,
                        final(self).nodes@,
                        *accumulate,
                        *priority,
                        place_of(plan, node),
                    )
                    &&& session_fails(
                        plan,
                        origin,
                        logs_of(final(self).nodes@),
                        *accumulate,
                        *priority,
                        node,
                        old(progress)@,
                        (target - 1) as nat,
                        error,
                    )
                },
            },
            final(self).wf(plan),
            changes_beneath(plan, old(self).nodes@, final(self).nodes@, node, -1),
            final(self).nodes@[node as int] == old(self).nodes@[node as int],
            inputs_are_open(plan, final(self).nodes@, node as int),
            final(progress).wf(),
            final(progress)@.fusion.weights.len() == old(progress)@.fusion.weights.len(),
            final(progress)@.batch_size == 1,
            result is Ok ==> final(self).agree(plan, *accumulate, all, place_of(plan, node)),
            forall|promise: Promise| #[trigger]
                all.contains(promise) ==> match result {
                    Ok(execution) => session_agrees(
                        plan,
                        *accumulate,
                        final(self).nodes@,
                        promise,
                        node as int,
                        final(progress)@,
                        (target - 1) as nat,
                    ) && is_exhaustive_prefix(
                        *accumulate,
                        input_outputs(promise.outputs, inputs_of(plan.nodes()[node as int])),
                        final(progress)@.fusion.rrf_k,
                        final(progress)@.fusion.weights,
                        target,
                        execution.point_ids@,
                    ),
                    Err(error) => is_promised(promise, error),
                },
        decreases place_of(plan, node), 0int,
    {
        let ghost before = self.nodes@;
        let ghost inputs = inputs_of(plan.nodes()[node as int]);
        let ghost emitted = (target - 1) as nat;
        proof {
            lemma_no_change(plan, before, node, -1);
            progress.lemma_valid();
            lemma_same_logs(before, before);
        }
        match progress.extend_top_k(target) {
            Ok(_) => {},
            Err(error) => {
                proof {
                    lemma_session_refuses(
                        plan,
                        origin,
                        logs_of(before),
                        *accumulate,
                        *priority,
                        node,
                        old(progress)@,
                        emitted,
                    );
                    lemma_held_is_logged(
                        plan,
                        origin,
                        before,
                        *accumulate,
                        *priority,
                        place_of(plan, node),
                    );
                }
                return Err(ExactCompositionError::Fusion { node, error });
            },
        }
        proof {
            progress.lemma_valid();
            assert forall|promise: Promise| #[trigger]
                all.contains(promise) implies session_agrees(
                plan,
                *accumulate,
                before,
                promise,
                node as int,
                progress@,
                emitted,
            ) by {
                lemma_raising_keeps_bounds(old(progress)@, target, *accumulate);
            }
        }
        match progress.known_prefix(target) {
            Some(execution) => {
                proof {
                    assert forall|promise: Promise| #[trigger]
                        all.contains(promise) implies is_exhaustive_prefix(
                        *accumulate,
                        input_outputs(promise.outputs, inputs),
                        progress@.fusion.rrf_k,
                        progress@.fusion.weights,
                        target,
                        execution.point_ids@,
                    ) by {
                        lemma_kept_order_is_exhaustive(
                            *accumulate,
                            progress@,
                            input_outputs(promise.outputs, inputs),
                            target,
                        );
                    }
                    lemma_fixes_known(
                        old(progress)@,
                        input_logs(logs_of(before), inputs),
                        emitted,
                        *accumulate,
                        *priority,
                        old(progress)@.order->0,
                    );
                }
                return Ok(execution);
            },
            None => {},
        }
        let targets: Vec<Option<usize>> = repeated(None, progress.source_count());
        let ghost raised = progress@;
        let ghost mut pulled: nat = 0;
        assert(targets@ =~= no_targets(inputs.len()));
        proof {
            lemma_no_pulls(
                raised,
                input_logs(logs_of(self.nodes@), inputs),
                *accumulate,
                *priority,
            );
        }
        loop
            invariant
                all_grow(logs_of(before), logs_of(self.nodes@)),
                held_below(
                    plan,
                    origin,
                    self.nodes@,
                    *accumulate,
                    *priority,
                    place_of(plan, node),
                ),
                is_seated(plan, self.nodes@, node as int, progress@),
                raised == old(progress)@.raised(target),
                old(progress)@.order is None,
                targets@ == no_targets(inputs.len()),
                log_comes_to(
                    raised,
                    input_logs(logs_of(self.nodes@), inputs),
                    *accumulate,
                    *priority,
                    pulled,
                    progress@,
                ),
                self.wf(plan),
                accepts(*accumulate),
                accepts_priority(*priority),
                node < plan.nodes().len(),
                inputs == inputs_of(plan.nodes()[node as int]),
                plan.nodes()[node as int] is Fusion,
                target > 0,
                emitted == target - 1,
                before == old(self).nodes@,
                before.len() == self.nodes@.len(),
                separate(plan, before),
                before[node as int].session() is None,
                self.nodes@[node as int] == before[node as int],
                changes_beneath(plan, before, self.nodes@, node, -1),
                inputs_are_open(plan, self.nodes@, node as int),
                progress.wf(),
                progress@.fusion.weights.len() == inputs.len(),
                progress@.fusion.weights.len() == old(progress)@.fusion.weights.len(),
                progress@.batch_size == 1,
                progress@.order is None,
                progress@.fusion.top_k == target,
                targets@ == Seq::new(inputs.len(), |i: int| None::<usize>),
                self.agree(plan, *accumulate, all, place_of(plan, node)),
                sessions_agree(
                    plan,
                    *accumulate,
                    self.nodes@,
                    all,
                    node as int,
                    progress@,
                    emitted,
                ),
            decreases usize::MAX - progress@.schedule.len(),
        {
            let ghost view = progress@;
            proof {
                progress.lemma_valid();
            }
            match progress.next_step(&targets, accumulate, priority) {
                SessionStep::Fixed(execution) => {
                    let ghost checked = progress@;
                    let ghost sources = input_logs(logs_of(self.nodes@), inputs);
                    proof {
                        progress.lemma_valid();
                        assert(steps_to(
                            view,
                            no_targets(sources.len()),
                            *accumulate,
                            *priority,
                            SessionStep::Fixed(execution),
                            checked,
                        ));
                        assert(is_seated(plan, self.nodes@, node as int, checked));
                        let (rows, unseen) = choose|rows: Seq<PointBounds>, unseen: i64|
                            #[trigger] is_outcome(
                                view,
                                *accumulate,
                                rows,
                                unseen,
                                Some(execution.point_ids@),
                            );
                        assert forall|promise: Promise| #[trigger]
                            all.contains(promise) implies is_exhaustive_prefix(
                            *accumulate,
                            input_outputs(promise.outputs, inputs),
                            progress@.fusion.rrf_k,
                            progress@.fusion.weights,
                            target,
                            execution.point_ids@,
                        ) by {
                            lemma_outcome_is_exhaustive(
                                *accumulate,
                                view,
                                rows,
                                unseen,
                                execution.point_ids@,
                                input_outputs(promise.outputs, inputs),
                            );
                        }
                        assert(sessions_agree(
                            plan,
                            *accumulate,
                            self.nodes@,
                            all,
                            node as int,
                            progress@,
                            emitted,
                        ));
                    }
                    if execution.stop_reason == DynamicRrfStopReason::AllSourcesExhausted {
                        progress.keep_order(accumulate);
                        proof {
                            progress.lemma_valid();
                            assert(order_is_kept(progress@, *accumulate));
                            assert forall|promise: Promise| #[trigger]
                                all.contains(promise) implies session_agrees(
                                plan,
                                *accumulate,
                                self.nodes@,
                                promise,
                                node as int,
                                progress@,
                                emitted,
                            ) && is_exhaustive_prefix(
                                *accumulate,
                                input_outputs(promise.outputs, inputs),
                                progress@.fusion.rrf_k,
                                progress@.fusion.weights,
                                target,
                                first_of(progress@.order->0, target),
                            ) by {
                                lemma_kept_order_is_exhaustive(
                                    *accumulate,
                                    progress@,
                                    input_outputs(promise.outputs, inputs),
                                    target,
                                );
                            }
                        }
                        match progress.known_prefix(target) {
                            Some(prefix) => {
                                proof {
                                    lemma_fixes_now(
                                        old(progress)@,
                                        sources,
                                        emitted,
                                        *accumulate,
                                        *priority,
                                        pulled,
                                        view,
                                        execution,
                                        checked,
                                        prefix.point_ids@,
                                        progress@,
                                    );
                                }
                                assert(is_seated(plan, self.nodes@, node as int, progress@));
                                return Ok(prefix);
                            },
                            None => {},
                        }
                    }
                    proof {
                        lemma_fixes_now(
                            old(progress)@,
                            sources,
                            emitted,
                            *accumulate,
                            *priority,
                            pulled,
                            view,
                            execution,
                            checked,
                            execution.point_ids@,
                            progress@,
                        );
                    }
                    return Ok(execution);
                },
                SessionStep::Paused => {
                    proof {
                        let source = choose|source: int|
                            0 <= source < targets@.len() && (#[trigger] targets@[source]) is Some;
                        assert(targets@[source] is None);
                    }
                    return vstd::pervasive::unreached();
                },
                SessionStep::Pull(source) => {
                    let ghost chosen = progress@;
                    let ghost middle = self.nodes@;
                    let ghost here = *self;
                    proof {
                        progress.lemma_valid();
                        assert(chosen.fusion == view.fusion);
                        assert(chosen.schedule == view.schedule.push(source));
                        assert(has_shape(plan, self.nodes@, node as int));
                        lemma_input_is_earlier(plan, node, source as int);
                    }
                    let input: usize = match plan.node(node) {
                        ExactCompositionNode::Fusion { inputs, .. } => inputs[source],
                        _ => 0,
                    };
                    let reader: usize = match &self.nodes[node].producer {
                        Producer::Fusion(fusion) => fusion.readers[source],
                        Producer::Leaf(_) => 0,
                    };
                    let start_rank: usize = match progress.source_history(source) {
                        Some(history) => history.len(),
                        None => 0,
                    };
                    proof {
                        assert(input == inputs[source as int]);
                        assert(reader == middle[node as int].readers()[source as int]);
                        assert(owns(
                            plan,
                            middle,
                            node as int,
                            source as int,
                            input as int,
                            reader,
                        ));
                        assert(owns(
                            plan,
                            before,
                            node as int,
                            source as int,
                            input as int,
                            reader,
                        ));
                        assert forall|owner: int, at: int|
                            #[trigger] owns(
                                plan,
                                middle,
                                owner,
                                at,
                                input as int,
                                reader,
                            ) implies middle[owner].session() is None by {
                            assert(owner == node);
                        }
                        assert(middle[input as int].seat(
                            middle[node as int].readers()[source as int],
                        ) is Some);
                        assert(self.agree(plan, *accumulate, all, place_of(plan, input) + 1)) by {
                            assert forall|promise: Promise| #[trigger]
                                all.contains(promise) implies sound_outputs(
                                plan,
                                *accumulate,
                                promise,
                            ) && agrees_below(
                                plan,
                                *accumulate,
                                self.nodes@,
                                promise,
                                place_of(plan, input) + 1,
                            ) by {
                                assert(agrees_below(
                                    plan,
                                    *accumulate,
                                    self.nodes@,
                                    promise,
                                    place_of(plan, node),
                                ));
                            }
                        }
                    }
                    let read = self.read(
                        plan,
                        input,
                        reader,
                        accumulate,
                        priority,
                        Ghost(all),
                        Ghost(origin),
                    );
                    let ghost sources = input_logs(logs_of(self.nodes@), inputs);
                    let ghost rank = view.fusion.histories[source as int].len();
                    proof {
                        assert(start_rank == rank);
                        assert(middle[input as int].seat(reader) == Some(start_rank));
                        lemma_grows_twice(logs_of(before), logs_of(middle), logs_of(self.nodes@));
                        lemma_inputs_are_nodes(plan, node as int);
                        lemma_inputs_grow(logs_of(middle), logs_of(self.nodes@), inputs);
                        lemma_comes_to_survives(
                            raised,
                            input_logs(logs_of(middle), inputs),
                            sources,
                            *accumulate,
                            *priority,
                            pulled,
                            view,
                        );
                        assert(sources[source as int] == log_of(self.nodes@[input as int]));
                        assert(steps_to(
                            view,
                            no_targets(inputs.len()),
                            *accumulate,
                            *priority,
                            SessionStep::Pull(source),
                            chosen,
                        ));
                        assert(read is Ok ==> held_below(
                            plan,
                            origin,
                            self.nodes@,
                            *accumulate,
                            *priority,
                            place_of(plan, node),
                        ) && logged_below(
                            plan,
                            origin,
                            self.nodes@,
                            *accumulate,
                            *priority,
                            place_of(plan, node),
                        )) by {
                            if read is Ok {
                                here.lemma_shapes(plan);
                                lemma_others_stay_held(
                                    plan,
                                    origin,
                                    middle,
                                    self.nodes@,
                                    *accumulate,
                                    *priority,
                                    input,
                                    reader,
                                    place_of(plan, node),
                                );
                                lemma_held_is_logged(
                                    plan,
                                    origin,
                                    self.nodes@,
                                    *accumulate,
                                    *priority,
                                    place_of(plan, node),
                                );
                            }
                        }
                        assert(read is Err ==> logged_below(
                            plan,
                            origin,
                            self.nodes@,
                            *accumulate,
                            *priority,
                            place_of(plan, node),
                        )) by {
                            lemma_others_stay_logged(
                                plan,
                                origin,
                                middle,
                                self.nodes@,
                                *accumulate,
                                *priority,
                                input,
                                reader,
                                place_of(plan, node),
                            );
                        }
                        lemma_changes_compose(
                            plan,
                            before,
                            middle,
                            self.nodes@,
                            node,
                            -1,
                            input,
                            reader,
                        );
                        assert(self.nodes@[node as int] == middle[node as int]);
                        assert forall|slot: int| 0 <= slot < inputs.len() implies
                            self.nodes@[inputs[slot] as int].seat(
                            #[trigger] self.nodes@[node as int].readers()[slot],
                        ) is Some by {
                            assert(middle[inputs[slot] as int].seat(
                                middle[node as int].readers()[slot],
                            ) is Some);
                            lemma_seat_survives(
                                plan,
                                middle,
                                self.nodes@,
                                input,
                                reader as int,
                                node as int,
                                slot,
                            );
                        }
                        assert forall|promise: Promise| #[trigger]
                            all.contains(promise) && read is Ok implies agrees_below(
                            plan,
                            *accumulate,
                            self.nodes@,
                            promise,
                            place_of(plan, node),
                        ) by {
                            assert forall|other: int| 0 <= other < middle.len() implies has_shape(
                                plan,
                                middle,
                                other,
                            ) by {
                                assert(has_shape(plan, here.nodes@, other));
                            }
                            lemma_network_survives(
                                plan,
                                *accumulate,
                                middle,
                                self.nodes@,
                                input,
                                reader as int,
                                promise,
                                place_of(plan, node),
                            );
                        }
                    }
                    let batch = match read {
                        Ok(Some(id)) => {
                            let mut point_ids: Vec<ExtendedPointId> = Vec::new();
                            point_ids.push(id);
                            assert(point_ids@ =~= seq![id]);
                            ChannelRankBatch { start_rank, point_ids, exhausted: false }
                        },
                        Ok(None) => {
                            let point_ids: Vec<ExtendedPointId> = Vec::new();
                            assert(point_ids@ =~= Seq::<ExtendedPointId>::empty());
                            ChannelRankBatch { start_rank, point_ids, exhausted: true }
                        },
                        Err(error) => {
                            proof {
                                lemma_session_stops(
                                    plan,
                                    origin,
                                    logs_of(self.nodes@),
                                    *accumulate,
                                    *priority,
                                    node,
                                    old(progress)@,
                                    emitted,
                                    pulled,
                                    view,
                                    source,
                                    chosen,
                                    error,
                                );
                            }
                            return Err(error);
                        },
                    };
                    proof {
                        assert forall|promise: Promise| #[trigger]
                            all.contains(promise) implies chosen.supply_fault(
                            source,
                            batch.start_rank,
                            batch.point_ids@,
                            batch.exhausted,
                        ) is None && session_agrees(
                            plan,
                            *accumulate,
                            self.nodes@,
                            promise,
                            node as int,
                            chosen.supplied(source, batch.point_ids@, batch.exhausted),
                            emitted,
                        ) by {
                            assert(session_agrees(
                                plan,
                                *accumulate,
                                middle,
                                promise,
                                node as int,
                                view,
                                emitted,
                            ));
                            assert(middle[input as int].seat(
                                middle[node as int].readers()[source as int],
                            ) == Some(chosen.fusion.histories[source as int].len() as usize));
                            lemma_pull_agrees(
                                plan,
                                *accumulate,
                                middle,
                                self.nodes@,
                                promise,
                                node,
                                chosen,
                                source,
                                batch,
                                emitted,
                            );
                        }
                    }
                    let ghost answer = read->Ok_0;
                    proof {
                        assert(batch.point_ids@ == answered_ids(answer));
                        assert(batch.exhausted == (answer is None));
                        assert(sources[source as int].answer(rank as int) == Some(answer));
                    }
                    match progress.supply(source, &batch) {
                        Ok(_) => {},
                        Err(error) => {
                            proof {
                                lemma_session_stops(
                                    plan,
                                    origin,
                                    logs_of(self.nodes@),
                                    *accumulate,
                                    *priority,
                                    node,
                                    old(progress)@,
                                    emitted,
                                    pulled,
                                    view,
                                    source,
                                    chosen,
                                    ExactCompositionError::Fusion { node, error },
                                );
                            }
                            return Err(ExactCompositionError::Fusion { node, error });
                        },
                    }
                    proof {
                        progress.lemma_valid();
                        lemma_one_more_pull(
                            raised,
                            sources,
                            *accumulate,
                            *priority,
                            pulled,
                            view,
                            source,
                            chosen,
                            answer,
                            progress@,
                        );
                        pulled = pulled + 1;
                        assert forall|slot: int| 0 <= slot < inputs.len() implies (
                        self.nodes@[inputs[slot] as int].seat(
                            #[trigger] self.nodes@[node as int].readers()[slot],
                        ) matches Some(position) && position
                            == progress@.fusion.histories[slot].len()) by {
                            let _ = middle[node as int].readers()[slot];
                            lemma_seat_survives(
                                plan,
                                middle,
                                self.nodes@,
                                input,
                                reader as int,
                                node as int,
                                slot,
                            );
                            assert(owns(
                                plan,
                                middle,
                                node as int,
                                source as int,
                                input as int,
                                reader,
                            ));
                        }
                    }
                },
            }
        }
    }

    /// The next identity of a reader of a node.
    fn read<
        F: Fn(i64, usize, usize, i64) -> i64,
        P: Fn(usize, usize, i64, usize, i64) -> i64,
    >(
        &mut self,
        plan: &ExactCompositionPlan,
        node: usize,
        reader: usize,
        accumulate: &F,
        priority: &P,
        Ghost(all): Ghost<Set<Promise>>,
        Ghost(origin): Ghost<NetworkOrigin>,
    ) -> (result: Result<Option<ExtendedPointId>, ExactCompositionError>)
        requires
            old(self).wf(plan),
            accepts(*accumulate),
            accepts_priority(*priority),
            node < plan.nodes().len(),
            reader < old(self).nodes@[node as int].replay@.readers.len(),
            old(self).nodes@[node as int].seat(reader) is Some,
            forall|owner: int, slot: int|
                #[trigger] owns(plan, old(self).nodes@, owner, slot, node as int, reader)
                    ==> old(self).nodes@[owner].session() is None,
            old(self).agree(plan, *accumulate, all, place_of(plan, node) + 1),
            held_below(
                plan,
                origin,
                old(self).nodes@,
                *accumulate,
                *priority,
                place_of(plan, node) + 1,
            ),
        ensures
            all_grow(logs_of(old(self).nodes@), logs_of(final(self).nodes@)),
            match result {
                Ok(id) => {
                    &&& held_below(
                        plan,
                        origin,
                        final(self).nodes@,
                        *accumulate,
                        *priority,
                        place_of(plan, node) + 1,
                    )
                    &&& log_of(final(self).nodes@[node as int]).answer(
                        old(self).nodes@[node as int].seat(reader)->0 as int,
                    ) == Some(id)
                },
                Err(error) => {
                    &&& logged_below(
                        plan,
                        origin,
                        final(self).nodes@,
                        *accumulate,
                        *priority,
                        place_of(plan, node) + 1,
                    )
                    &&& log_of(final(self).nodes@[node as int]).answer(
                        old(self).nodes@[node as int].seat(reader)->0 as int,
                    ) is None
                    &&& node_fails(
                        plan,
                        origin,
                        logs_of(final(self).nodes@),
                        *accumulate,
                        *priority,
                        node,
                        error,
                    )
                },
            },
            final(self).wf(plan),
            changes_beneath(plan, old(self).nodes@, final(self).nodes@, node, reader as int),
            final(self).nodes@[node as int].seat(reader) is Some,
            result matches Ok(id) ==> old(self).nodes@[node as int].replay@.answered(
                reader as int,
                id,
                final(self).nodes@[node as int].replay@,
            ),
            result is Ok ==> final(self).agree(plan, *accumulate, all, place_of(plan, node) + 1),
            forall|promise: Promise| #[trigger]
                all.contains(promise) ==> {
                    let rank = old(self).nodes@[node as int].seat(reader)->0;
                    let output = promise.outputs[node as int];
                    match result {
                        Ok(id) => if rank < output.len() {
                            &&& id == Some(output[rank as int])
                            &&& final(self).nodes@[node as int].seat(reader) == Some(
                                (rank + 1) as usize,
                            )
                        } else {
                            &&& id is None
                            &&& final(self).nodes@[node as int].seat(reader) == Some(rank)
                        },
                        Err(error) => is_promised(promise, error),
                    }
                },
        decreases place_of(plan, node), 3int,
    {
        let ghost before = self.nodes@;
        proof {
            assert(has_shape(plan, before, node as int));
            before[node as int].replay.lemma_valid();
            lemma_no_change(plan, before, node, reader as int);
            self.lemma_shapes(plan);
            lemma_same_logs(before, before);
        }
        if self.nodes[node].replay.is_starved(reader) {
            let produced = self.produce(
                plan,
                node,
                accumulate,
                priority,
                Ghost(all),
                Ghost(origin),
            );
            let ghost middle = self.nodes@;
            let ghost here = *self;
            proof {
                lemma_beneath_keeps_owners(plan, before, middle, node, -1);
                lemma_weaken_change(plan, before, middle, node, reader as int);
                assert(has_shape(plan, self.nodes@, node as int));
                self.lemma_shapes(plan);
                assert(logs_of(middle)[node as int] == log_of(before[node as int]));
                if produced is Ok {
                    reveal(is_held);
                    reveal(node_fails);
                    lemma_held_is_logged(
                        plan,
                        origin,
                        middle,
                        *accumulate,
                        *priority,
                        place_of(plan, node),
                    );
                    assert(is_held(
                        plan,
                        origin,
                        before,
                        *accumulate,
                        *priority,
                        node as int,
                        log_of(before[node as int]),
                    ));
                    lemma_inputs_are_nodes(plan, node as int);
                    lemma_log_survives(
                        plan,
                        origin,
                        logs_of(before),
                        logs_of(middle),
                        *accumulate,
                        *priority,
                        node as int,
                        log_of(before[node as int]),
                    );
                    lemma_logged_with(plan, origin, middle, *accumulate, *priority, node);
                }
            }
            match produced {
                Ok(Some(id)) => {
                    if self.nodes[node].replay.physical_pulls() == usize::MAX {
                        proof {
                            assert forall|promise: Promise| #[trigger]
                                all.contains(promise) implies false by {
                                lemma_output_fits(plan, *accumulate, promise, node);
                            }
                        }
                        return Err(
                            ExactCompositionError::Fusion {
                                node,
                                error: OperationError::ValidationError(Fault::TooManyRanks),
                            },
                        );
                    }
                    self.nodes[node].replay.grow(id);
                    let ghost grown = self.nodes@;
                    proof {
                        lemma_total_after_change(middle, grown, node as int);
                        assert forall|k: int| 0 <= k < grown.len() implies (
                        #[trigger] grown[k]).replay.wf() by {
                            assert(has_shape(plan, here.nodes@, k));
                        }
                        lemma_total_is_bounded(grown);
                        lemma_peaks_hold(grown);
                        assert(grown.len() * usize::MAX <= u128::MAX) by (nonlinear_arith)
                            requires
                                grown.len() <= usize::MAX,
                                usize::MAX <= 0xffff_ffff_ffff_ffff,
                        ;
                    }
                    self.memory.grow(1);
                },
                Ok(None) => {
                    self.nodes[node].replay.finish();
                    proof {
                        lemma_total_after_change(middle, self.nodes@, node as int);
                    }
                },
                Err(error) => {
                    return Err(error);
                },
            }
            proof {
                let ready = self.nodes@;
                ready[node as int].replay.lemma_valid();
                assert(log_of(ready[node as int]) == next_log(
                    before[node as int].replay@,
                    produced->Ok_0,
                ));
                assert(log_of(middle[node as int]).grows_to(log_of(ready[node as int]))) by {
                    let outputs = before[node as int].replay@.produced;
                    assert(log_of(ready[node as int]).outputs.take(outputs.len() as int)
                        =~= outputs);
                }
                lemma_one_stays_held(
                    plan,
                    origin,
                    middle,
                    ready,
                    *accumulate,
                    *priority,
                    node,
                );
                lemma_grows_twice(logs_of(before), logs_of(middle), logs_of(ready));
                assert(changes_one(middle, ready, node, -1));
                lemma_one_is_beneath(plan, middle, ready, node, -1);
                lemma_own_inputs_unchanged(plan, middle, ready, node, -1);
                lemma_two_changes(plan, before, middle, ready, node, -1);
                lemma_weaken_change(plan, before, ready, node, reader as int);
                assert forall|other: int| 0 <= other < ready.len() implies has_shape(
                    plan,
                    #[trigger] self.nodes@,
                    other,
                ) by {
                    assert(has_shape(plan, here.nodes@, other));
                    if other != node {
                        lemma_others_survive(
                            plan,
                            *accumulate,
                            middle,
                            ready,
                            node,
                            -1,
                            other,
                        );
                    }
                }
                assert forall|promise: Promise| #[trigger]
                    all.contains(promise) implies agrees_below(
                    plan,
                    *accumulate,
                    ready,
                    promise,
                    place_of(plan, node) + 1,
                ) by {
                    assert(agrees_below(
                        plan,
                        *accumulate,
                        middle,
                        promise,
                        place_of(plan, node),
                    ));
                    assert forall|other: int|
                        0 <= other < ready.len() && place_of(plan, other as usize) < place_of(
                            plan,
                            node,
                        ) + 1 implies #[trigger] node_agrees(
                        plan,
                        *accumulate,
                        ready,
                        promise,
                        other,
                    ) by {
                        if other != node {
                            if place_of(plan, other as usize) == place_of(plan, node) {
                                lemma_places_differ(plan, other as usize, node);
                            }
                            assert(has_shape(plan, here.nodes@, other));
                            assert(node_agrees(plan, *accumulate, middle, promise, other));
                            lemma_others_survive(
                                plan,
                                *accumulate,
                                middle,
                                ready,
                                node,
                                -1,
                                other,
                            );
                        } else {
                            let count = middle[node as int].replay@.produced.len();
                            let output = promise.outputs[node as int];
                            assert(middle[node as int].replay@.produced == output.take(
                                count as int,
                            )) by {
                                assert(node_agrees(
                                    plan,
                                    *accumulate,
                                    before,
                                    promise,
                                    node as int,
                                ));
                            }
                            if count < output.len() {
                                assert(output.take(count as int).push(output[count as int])
                                    =~= output.take((count + 1) as int));
                                assert(producer_agrees(
                                    plan,
                                    *accumulate,
                                    middle,
                                    promise,
                                    node as int,
                                    (count + 1) as nat,
                                ));
                            } else {
                                assert(output.take(count as int) =~= output);
                            }
                        }
                    }
                }
            }
        }
        let ghost ready = self.nodes@;
        let ghost here = *self;
        proof {
            assert(has_shape(plan, self.nodes@, node as int));
            ready[node as int].replay.lemma_valid();
            assert(ready[node as int].seat(reader) == before[node as int].seat(reader));
        }
        let (id, consumed) = self.nodes[node].replay.read(reader);
        proof {
            let after = self.nodes@;
            after[node as int].replay.lemma_valid();
            lemma_total_after_change(ready, after, node as int);
            assert forall|k: int| 0 <= k < after.len() implies (#[trigger] after[k]).replay.wf() by {
                assert(has_shape(plan, here.nodes@, k));
            }
            lemma_total_is_bounded(after);
        }
        self.memory.shrink(consumed);
        proof {
            let after = self.nodes@;
            here.lemma_shapes(plan);
            lemma_same_logs(ready, after);
            assert(logs_of(ready)[node as int].grows_to(logs_of(after)[node as int]));
            lemma_one_stays_held(plan, origin, ready, after, *accumulate, *priority, node);
            lemma_grows_twice(logs_of(before), logs_of(ready), logs_of(after));
            assert(log_of(after[node as int]).answer(
                before[node as int].seat(reader)->0 as int,
            ) == Some(id)) by {
                let view = ready[node as int].replay@;
                assert(view.readers[reader as int] is Some);
                assert(!view.cancelled);
            }
            assert(changes_one(ready, after, node, reader as int));
            lemma_one_is_beneath(plan, ready, after, node, reader as int);
            lemma_own_inputs_unchanged(plan, ready, after, node, reader as int);
            lemma_beneath_keeps_owners(plan, before, ready, node, reader as int);
            lemma_changes_compose(
                plan,
                before,
                ready,
                after,
                node,
                reader as int,
                node,
                reader,
            );
            assert forall|owner: int, slot: int|
                #[trigger] owns(plan, ready, owner, slot, node as int, reader) implies
                ready[owner].session() is None by {
                assert(owns(plan, before, owner, slot, node as int, reader));
                lemma_input_is_earlier(plan, owner as usize, slot);
                assert(ready[owner] == before[owner]);
            }
            assert forall|other: int| 0 <= other < after.len() implies has_shape(
                plan,
                #[trigger] self.nodes@,
                other,
            ) by {
                assert(has_shape(plan, here.nodes@, other));
                if other != node {
                    lemma_others_survive(
                        plan,
                        *accumulate,
                        ready,
                        after,
                        node,
                        reader as int,
                        other,
                    );
                }
            }
            assert forall|promise: Promise| #[trigger]
                all.contains(promise) implies agrees_below(
                plan,
                *accumulate,
                after,
                promise,
                place_of(plan, node) + 1,
            ) by {
                assert(agrees_below(
                    plan,
                    *accumulate,
                    ready,
                    promise,
                    place_of(plan, node) + 1,
                ));
                assert forall|other: int|
                    0 <= other < after.len() && place_of(plan, other as usize) < place_of(
                        plan,
                        node,
                    ) + 1 implies #[trigger] node_agrees(
                    plan,
                    *accumulate,
                    after,
                    promise,
                    other,
                ) by {
                    assert(has_shape(plan, here.nodes@, other));
                    assert(node_agrees(plan, *accumulate, ready, promise, other));
                    if other != node {
                        lemma_others_survive(
                            plan,
                            *accumulate,
                            ready,
                            after,
                            node,
                            reader as int,
                            other,
                        );
                    }
                }
            }
            assert forall|promise: Promise| #[trigger]
                all.contains(promise) implies ({
                let rank = before[node as int].seat(reader)->0;
                let output = promise.outputs[node as int];
                if rank < output.len() {
                    &&& id == Some(output[rank as int])
                    &&& after[node as int].seat(reader) == Some((rank + 1) as usize)
                } else {
                    &&& id is None
                    &&& after[node as int].seat(reader) == Some(rank)
                }
            }) by {
                assert(agrees_below(
                    plan,
                    *accumulate,
                    ready,
                    promise,
                    place_of(plan, node) + 1,
                ));
                assert(node_agrees(plan, *accumulate, ready, promise, node as int));
                let view = ready[node as int].replay@;
                let rank = before[node as int].seat(reader)->0;
                assert(view.readers[reader as int] == Some(rank));
                assert(!view.cancelled);
            }
        }
        Ok(id)
    }

    /// The next identity that a node puts out; `None` at its end.
    fn produce<
        F: Fn(i64, usize, usize, i64) -> i64,
        P: Fn(usize, usize, i64, usize, i64) -> i64,
    >(
        &mut self,
        plan: &ExactCompositionPlan,
        node: usize,
        accumulate: &F,
        priority: &P,
        Ghost(all): Ghost<Set<Promise>>,
        Ghost(origin): Ghost<NetworkOrigin>,
    ) -> (result: Result<Option<ExtendedPointId>, ExactCompositionError>)
        requires
            old(self).wf(plan),
            accepts(*accumulate),
            accepts_priority(*priority),
            node < plan.nodes().len(),
            !old(self).nodes@[node as int].replay@.exhausted,
            old(self).agree(plan, *accumulate, all, place_of(plan, node) + 1),
            held_below(
                plan,
                origin,
                old(self).nodes@,
                *accumulate,
                *priority,
                place_of(plan, node) + 1,
            ),
        ensures
            all_grow(logs_of(old(self).nodes@), logs_of(final(self).nodes@)),
            match result {
                Ok(next) => {
                    &&& held_below(
                        plan,
                        origin,
                        final(self).nodes@,
                        *accumulate,
                        *priority,
                        place_of(plan, node),
                    )
                    &&& is_held(
                        plan,
                        origin,
                        final(self).nodes@,
                        *accumulate,
                        *priority,
                        node as int,
                        next_log(old(self).nodes@[node as int].replay@, next),
                    )
                },
                Err(error) => {
                    &&& logged_below(
                        plan,
                        origin,
                        final(self).nodes@,
                        *accumulate,
                        *priority,
                        place_of(plan, node) + 1,
                    )
                    &&& node_fails(
                        plan,
                        origin,
                        logs_of(final(self).nodes@),
                        *accumulate,
                        *priority,
                        node,
                        error,
                    )
                },
            },
            final(self).wf(plan),
            changes_beneath(plan, old(self).nodes@, final(self).nodes@, node, -1),
            final(self).nodes@[node as int].replay == old(self).nodes@[node as int].replay,
            result is Ok ==> final(self).agree(plan, *accumulate, all, place_of(plan, node)),
            produces(
                plan,
                *accumulate,
                final(self).nodes@,
                all,
                node,
                old(self).nodes@[node as int].replay@.produced.len(),
                result,
            ),
        decreases place_of(plan, node), 2int,
    {
        let ghost before = self.nodes@;
        proof {
            assert(has_shape(plan, before, node as int));
            lemma_no_change(plan, before, node, -1);
        }
        match plan.node(node) {
            ExactCompositionNode::Fusion { .. } => {
                self.produce_fusion(
                    plan,
                    node,
                    accumulate,
                    priority,
                    Ghost(all),
                    Ghost(origin),
                )
            },
            _ => {
                let result = match &mut self.nodes[node].producer {
                    Producer::Leaf(leaf) => leaf.next_identity(node),
                    Producer::Fusion(_) => Ok(None),
                };
                proof {
                    let after = self.nodes@;
                    assert(changes_one(before, after, node, -1));
                    lemma_one_is_beneath(plan, before, after, node, -1);
                    lemma_own_inputs_unchanged(plan, before, after, node, -1);
                    lemma_total_same(before, after);
                    old(self).lemma_shapes(plan);
                    before[node as int].replay.lemma_valid();
                    reveal(is_held);
                    reveal(node_fails);
                    lemma_same_logs(before, after);
                    assert(logs_of(before)[node as int].grows_to(logs_of(after)[node as int]));
                    lemma_below_stays_held(
                        plan,
                        origin,
                        before,
                        after,
                        *accumulate,
                        *priority,
                        node,
                    );
                    assert(is_held(
                        plan,
                        origin,
                        before,
                        *accumulate,
                        *priority,
                        node as int,
                        log_of(before[node as int]),
                    ));
                    assert(before[node as int].producer->Leaf_0.is_at(
                        origin.leaves[node as int],
                        before[node as int].replay@.produced,
                    ));
                    lemma_held_is_logged(
                        plan,
                        origin,
                        after,
                        *accumulate,
                        *priority,
                        place_of(plan, node),
                    );
                    lemma_logged_with(plan, origin, after, *accumulate, *priority, node);
                    assert(logs_of(after)[node as int] == log_of(before[node as int]));
                    assert forall|other: int| 0 <= other < after.len() implies has_shape(
                        plan,
                        #[trigger] self.nodes@,
                        other,
                    ) by {
                        assert(has_shape(plan, old(self).nodes@, other));
                        if other != node {
                            lemma_others_survive(
                                plan,
                                *accumulate,
                                before,
                                after,
                                node,
                                -1,
                                other,
                            );
                        }
                    }
                    assert forall|promise: Promise| #[trigger]
                        all.contains(promise) implies agrees_below(
                        plan,
                        *accumulate,
                        after,
                        promise,
                        place_of(plan, node),
                    ) by {
                        lemma_below_survives(
                            plan,
                            *accumulate,
                            old(self),
                            after,
                            node,
                            promise,
                        );
                    }
                    let count = before[node as int].replay@.produced.len();
                    assert forall|promise: Promise| #[trigger]
                        all.contains(promise) implies {
                        let output = promise.outputs[node as int];
                        match result {
                            Ok(Some(id)) => {
                                &&& count < output.len()
                                &&& id == output[count as int]
                                &&& producer_agrees(
                                    plan,
                                    *accumulate,
                                    after,
                                    promise,
                                    node as int,
                                    (count + 1) as nat,
                                )
                            },
                            Ok(None) => count == output.len(),
                            Err(error) => is_promised(promise, error),
                        }
                    } by {
                        lemma_output_fits(plan, *accumulate, promise, node);
                        assert(agrees_below(
                            plan,
                            *accumulate,
                            before,
                            promise,
                            place_of(plan, node) + 1,
                        ));
                        assert(node_agrees(plan, *accumulate, before, promise, node as int));
                        let leaf = before[node as int].producer->Leaf_0;
                        assert(leaf.completes(
                            node,
                            promise.outputs[node as int],
                            count,
                            promise.failures[node as int],
                        ));
                    }
                }
                result
            },
        }
    }

    /// The next identity that a fusion puts out; `None` at its end or its limit.
    #[verifier::rlimit(40)]
    fn produce_fusion<
        F: Fn(i64, usize, usize, i64) -> i64,
        P: Fn(usize, usize, i64, usize, i64) -> i64,
    >(
        &mut self,
        plan: &ExactCompositionPlan,
        node: usize,
        accumulate: &F,
        priority: &P,
        Ghost(all): Ghost<Set<Promise>>,
        Ghost(origin): Ghost<NetworkOrigin>,
    ) -> (result: Result<Option<ExtendedPointId>, ExactCompositionError>)
        requires
            old(self).wf(plan),
            accepts(*accumulate),
            accepts_priority(*priority),
            node < plan.nodes().len(),
            plan.nodes()[node as int] is Fusion,
            !old(self).nodes@[node as int].replay@.exhausted,
            old(self).agree(plan, *accumulate, all, place_of(plan, node) + 1),
            held_below(
                plan,
                origin,
                old(self).nodes@,
                *accumulate,
                *priority,
                place_of(plan, node) + 1,
            ),
        ensures
            all_grow(logs_of(old(self).nodes@), logs_of(final(self).nodes@)),
            match result {
                Ok(next) => {
                    &&& held_below(
                        plan,
                        origin,
                        final(self).nodes@,
                        *accumulate,
                        *priority,
                        place_of(plan, node),
                    )
                    &&& is_held(
                        plan,
                        origin,
                        final(self).nodes@,
                        *accumulate,
                        *priority,
                        node as int,
                        next_log(old(self).nodes@[node as int].replay@, next),
                    )
                },
                Err(error) => {
                    &&& logged_below(
                        plan,
                        origin,
                        final(self).nodes@,
                        *accumulate,
                        *priority,
                        place_of(plan, node) + 1,
                    )
                    &&& node_fails(
                        plan,
                        origin,
                        logs_of(final(self).nodes@),
                        *accumulate,
                        *priority,
                        node,
                        error,
                    )
                },
            },
            final(self).wf(plan),
            changes_beneath(plan, old(self).nodes@, final(self).nodes@, node, -1),
            final(self).nodes@[node as int].replay == old(self).nodes@[node as int].replay,
            result is Ok ==> final(self).agree(plan, *accumulate, all, place_of(plan, node)),
            produces(
                plan,
                *accumulate,
                final(self).nodes@,
                all,
                node,
                old(self).nodes@[node as int].replay@.produced.len(),
                result,
            ),
        decreases place_of(plan, node), 1int,
    {
        let ghost before = self.nodes@;
        let ghost count = before[node as int].replay@.produced.len();
        let ghost inputs = inputs_of(plan.nodes()[node as int]);
        proof {
            assert(has_shape(plan, before, node as int));
            assert(before[node as int].producer is Fusion);
            lemma_no_change(plan, before, node, -1);
            self.lemma_shapes(plan);
            before[node as int].replay.lemma_valid();
            assert(is_held(
                plan,
                origin,
                before,
                *accumulate,
                *priority,
                node as int,
                log_of(before[node as int]),
            ));
            lemma_open_fusion(plan, origin, before, *accumulate, *priority, node as int);
            assert forall|promise: Promise| #[trigger]
                all.contains(promise) implies {
                &&& node_agrees(plan, *accumulate, before, promise, node as int)
                &&& agrees_below(plan, *accumulate, before, promise, place_of(plan, node))
                &&& promise.outputs[node as int].len() < usize::MAX
                &&& promise.outputs[node as int].no_duplicates()
            } by {
                lemma_output_fits(plan, *accumulate, promise, node);
                assert(agrees_below(
                    plan,
                    *accumulate,
                    before,
                    promise,
                    place_of(plan, node) + 1,
                ));
            }
        }
        let mut emitted: usize = 0;
        let mut limit: Option<usize> = None;
        let mut session: Option<RrfProgress> = None;
        match &mut self.nodes[node].producer {
            Producer::Fusion(fusion) => {
                emitted = fusion.emitted;
                limit = fusion.output_limit;
                session = fusion.session.take();
            },
            Producer::Leaf(_) => {},
        }
        let ghost taken = self.nodes@;
        proof {
            let fusion = before[node as int].producer->Fusion_0;
            assert(emitted == fusion.emitted && limit == fusion.output_limit);
            assert(session == before[node as int].session());
            assert(taken[node as int].session() is None);
            assert(changes_one(before, taken, node, -1));
            lemma_one_is_beneath(plan, before, taken, node, -1);
            lemma_own_inputs_unchanged(plan, before, taken, node, -1);
            lemma_total_same(before, taken);
            assert forall|other: int| 0 <= other < taken.len() implies has_shape(
                plan,
                #[trigger] self.nodes@,
                other,
            ) by {
                assert(has_shape(plan, old(self).nodes@, other));
                if other != node {
                    lemma_others_survive(plan, *accumulate, before, taken, node, -1, other);
                }
            }
            assert forall|promise: Promise| #[trigger]
                all.contains(promise) implies agrees_below(
                plan,
                *accumulate,
                taken,
                promise,
                place_of(plan, node),
            ) by {
                lemma_below_survives(plan, *accumulate, old(self), taken, node, promise);
            }
            lemma_same_logs(before, taken);
            assert(logs_of(before)[node as int].grows_to(logs_of(taken)[node as int]));
            lemma_below_stays_held(plan, origin, before, taken, *accumulate, *priority, node);
        }
        let ghost taken_runtime = *self;
        let mut progress = match session {
            Some(progress) => progress,
            None => {
                proof {
                    assert forall|promise: Promise| #[trigger]
                        all.contains(promise) implies count == promise.outputs[node as int].len() by {
                        lemma_limit_is_end(plan, *accumulate, before, promise, node, count);
                    }
                    lemma_ended_fusion(
                        plan,
                        origin,
                        taken,
                        *accumulate,
                        *priority,
                        node as int,
                        log_of(before[node as int]),
                    );
                }
                return Ok(None);
            },
        };
        proof {
            progress.lemma_valid();
            assert(inputs_are_open(plan, taken, node as int)) by {
                assert forall|slot: int| 0 <= slot < inputs.len() implies
                    taken[inputs[slot] as int].seat(
                    #[trigger] taken[node as int].readers()[slot],
                ) is Some by {
                    assert(taken[node as int].readers() == before[node as int].readers());
                    assert(before[inputs[slot] as int].seat(
                        before[node as int].readers()[slot],
                    ) is Some);
                    assert(taken[inputs[slot] as int] == before[inputs[slot] as int]);
                }
            }
        }
        let ghost earlier = progress@;
        proof {
            taken_runtime.lemma_shapes(plan);
            assert forall|slot: int| 0 <= slot < inputs.len() implies (
            taken[inputs[slot] as int].seat(
                #[trigger] taken[node as int].readers()[slot],
            ) matches Some(position) && position == earlier.fusion.histories[slot].len()) by {
                let _ = before[node as int].readers()[slot];
                lemma_input_is_earlier(plan, node, slot);
            }
        }
        let spent = match limit {
            Some(limit) => emitted >= limit,
            None => false,
        };
        if spent || emitted == usize::MAX {
            self.leave_inputs(plan, node, accumulate, Ghost(all));
            proof {
                lemma_two_changes(plan, before, taken, self.nodes@, node, -1);
                assert forall|promise: Promise| #[trigger]
                    all.contains(promise) implies count == promise.outputs[node as int].len() by {
                    lemma_spent_is_end(plan, *accumulate, promise, node, count);
                }
                self.lemma_shapes(plan);
                lemma_leaving_holds(
                    plan,
                    origin,
                    taken,
                    self.nodes@,
                    *accumulate,
                    *priority,
                    node as int,
                    -1,
                    -1,
                    place_of(plan, node),
                );
                assert(logs_of(self.nodes@) == logs_of(before));
                assert forall|other: int| 0 <= other < before.len() implies log_of(
                    #[trigger] self.nodes@[other],
                ) == log_of(before[other]) by {
                    assert(logs_of(self.nodes@)[other] == logs_of(before)[other]);
                }
                lemma_same_logs(before, self.nodes@);
                if emitted == usize::MAX {
                    assert(logs_of(self.nodes@)[node as int].outputs.len() == usize::MAX);
                    reveal(node_fails);
                }
                lemma_held_is_logged(
                    plan,
                    origin,
                    self.nodes@,
                    *accumulate,
                    *priority,
                    place_of(plan, node),
                );
                assert(logs_of(self.nodes@) == logs_of(before));
                lemma_logged_with(plan, origin, self.nodes@, *accumulate, *priority, node);
                if spent {
                    lemma_ended_fusion(
                        plan,
                        origin,
                        self.nodes@,
                        *accumulate,
                        *priority,
                        node as int,
                        log_of(before[node as int]),
                    );
                }
            }
            if spent {
                return Ok(None);
            }
            return Err(
                ExactCompositionError::Fusion {
                    node,
                    error: OperationError::ValidationError(Fault::TooManyRanks),
                },
            );
        }
        let target: usize = emitted + 1;
        proof {
            assert forall|promise: Promise| #[trigger]
                all.contains(promise) implies session_agrees(
                plan,
                *accumulate,
                taken,
                promise,
                node as int,
                progress@,
                (target - 1) as nat,
            ) by {
                assert(session_agrees(
                    plan,
                    *accumulate,
                    before,
                    promise,
                    node as int,
                    progress@,
                    count,
                ));
                assert forall|slot: int| 0 <= slot < inputs.len() implies
                    taken[inputs[slot] as int].seat(
                    #[trigger] taken[node as int].readers()[slot],
                ) == Some(progress@.fusion.histories[slot].len() as usize) by {
                    assert(taken[node as int].readers() == before[node as int].readers());
                    assert(before[inputs[slot] as int].seat(
                        before[node as int].readers()[slot],
                    ) == Some(progress@.fusion.histories[slot].len() as usize));
                    assert(taken[inputs[slot] as int] == before[inputs[slot] as int]);
                }
            }
        }
        let ran = self.run_to_prefix(
            plan,
            node,
            &mut progress,
            target,
            accumulate,
            priority,
            Ghost(all),
            Ghost(origin),
        );
        let ghost reached = self.nodes@;
        let ghost here = *self;
        proof {
            lemma_two_changes(plan, before, taken, reached, node, -1);
        }
        let execution = match ran {
            Ok(execution) => execution,
            Err(error) => {
                self.leave_inputs(plan, node, accumulate, Ghost(Set::empty()));
                proof {
                    lemma_two_changes(plan, before, reached, self.nodes@, node, -1);
                    here.lemma_shapes(plan);
                    self.lemma_shapes(plan);
                    lemma_leaving_holds(
                        plan,
                        origin,
                        reached,
                        self.nodes@,
                        *accumulate,
                        *priority,
                        node as int,
                        -1,
                        -1,
                        place_of(plan, node),
                    );
                    lemma_fusion_fails(
                        plan,
                        origin,
                        before,
                        reached,
                        *accumulate,
                        *priority,
                        node,
                        earlier,
                        error,
                    );
                    lemma_logged_same(
                        plan,
                        origin,
                        reached,
                        self.nodes@,
                        *accumulate,
                        *priority,
                        place_of(plan, node) + 1,
                    );
                }
                return Err(error);
            },
        };
        let found = emitted < execution.point_ids.len();
        let reaches_limit = match limit {
            Some(limit) => limit == target,
            None => false,
        };
        let keep = found && !reaches_limit;
        match &mut self.nodes[node].producer {
            Producer::Fusion(fusion) => {
                fusion.logical_input_pulls = copied(&execution.source_pulls);
                fusion.certification_checks = execution.certification_checks;
                if found {
                    fusion.emitted = target;
                }
                if keep {
                    fusion.session = Some(progress);
                }
            },
            Producer::Leaf(_) => {},
        }
        let ghost stored = self.nodes@;
        let ghost stored_runtime = *self;
        proof {
            assert(changes_one(reached, stored, node, -1));
            lemma_one_is_beneath(plan, reached, stored, node, -1);
            lemma_own_inputs_unchanged(plan, reached, stored, node, -1);
            lemma_two_changes(plan, before, reached, stored, node, -1);
            lemma_total_same(reached, stored);
            assert forall|other: int| 0 <= other < stored.len() implies has_shape(
                plan,
                #[trigger] self.nodes@,
                other,
            ) by {
                assert(has_shape(plan, here.nodes@, other));
                if other != node {
                    lemma_others_survive(plan, *accumulate, reached, stored, node, -1, other);
                } else if keep {
                    assert forall|slot: int| 0 <= slot < inputs.len() implies
                        stored[inputs[slot] as int].seat(
                        #[trigger] stored[node as int].readers()[slot],
                    ) is Some by {
                        assert(stored[node as int].readers() == reached[node as int].readers());
                        assert(reached[inputs[slot] as int].seat(
                            reached[node as int].readers()[slot],
                        ) is Some);
                        assert(stored[inputs[slot] as int] == reached[inputs[slot] as int]);
                    }
                }
            }
            assert forall|promise: Promise| #[trigger]
                all.contains(promise) implies agrees_below(
                plan,
                *accumulate,
                stored,
                promise,
                place_of(plan, node),
            ) by {
                lemma_below_survives(plan, *accumulate, &here, stored, node, promise);
            }
            assert forall|promise: Promise| #[trigger]
                all.contains(promise) implies {
                let output = promise.outputs[node as int];
                &&& found == (count < output.len())
                &&& found ==> execution.point_ids@[count as int] == output[count as int]
                &&& found && keep ==> session_agrees(
                    plan,
                    *accumulate,
                    stored,
                    promise,
                    node as int,
                    progress@,
                    (count + 1) as nat,
                )
            } by {
                assert(node_agrees(plan, *accumulate, before, promise, node as int));
                assert(emitted == count);
                lemma_prefix_continues(
                    plan,
                    *accumulate,
                    promise,
                    node,
                    count,
                    target,
                    execution.point_ids@,
                );
                if keep {
                    assert(session_agrees(
                        plan,
                        *accumulate,
                        reached,
                        promise,
                        node as int,
                        progress@,
                        (target - 1) as nat,
                    ));
                    assert forall|slot: int| 0 <= slot < inputs.len() implies
                        stored[inputs[slot] as int].seat(
                        #[trigger] stored[node as int].readers()[slot],
                    ) == Some(progress@.fusion.histories[slot].len() as usize) by {
                        assert(stored[node as int].readers() == reached[node as int].readers());
                        assert(reached[inputs[slot] as int].seat(
                            reached[node as int].readers()[slot],
                        ) == Some(progress@.fusion.histories[slot].len() as usize));
                        assert(stored[inputs[slot] as int] == reached[inputs[slot] as int]);
                    }
                }
            }
        }
        proof {
            lemma_fusion_goes_on(
                plan,
                origin,
                before,
                reached,
                stored,
                *accumulate,
                *priority,
                node,
                earlier,
                progress@,
                execution.point_ids@,
            );
        }
        if !keep {
            self.leave_inputs(plan, node, accumulate, Ghost(all));
            proof {
                stored_runtime.lemma_shapes(plan);
                self.lemma_shapes(plan);
                lemma_leaving_holds(
                    plan,
                    origin,
                    stored,
                    self.nodes@,
                    *accumulate,
                    *priority,
                    node as int,
                    -1,
                    -1,
                    place_of(plan, node),
                );
                lemma_closed_fusion(
                    plan,
                    origin,
                    stored,
                    self.nodes@,
                    *accumulate,
                    *priority,
                    node as int,
                    next_log(
                        before[node as int].replay@,
                        if found {
                            Some(execution.point_ids@[emitted as int])
                        } else {
                            None
                        },
                    ),
                );
                lemma_two_changes(plan, before, stored, self.nodes@, node, -1);
                assert(stored_runtime.agree(plan, *accumulate, all, place_of(plan, node)));
            }
        }
        if found {
            Ok(Some(execution.point_ids[emitted]))
        } else {
            Ok(None)
        }
    }
}

/// Nodes below a node agree after a change of that node alone.
proof fn lemma_below_survives<
    L: FallibleExactCompositionStream,
    F: Fn(i64, usize, usize, i64) -> i64,
>(
    plan: &ExactCompositionPlan,
    accumulate: F,
    runtime: &CompositionRuntime<L>,
    after: Seq<RuntimeNode<L>>,
    node: usize,
    promise: Promise,
)
    requires
        runtime.wf(plan),
        changes_one(runtime.nodes@, after, node, -1),
        agrees_below(plan, accumulate, runtime.nodes@, promise, place_of(plan, node)) || agrees_below(
            plan,
            accumulate,
            runtime.nodes@,
            promise,
            place_of(plan, node) + 1,
        ),
    ensures
        agrees_below(plan, accumulate, after, promise, place_of(plan, node)),
{
    let before = runtime.nodes@;
    assert forall|other: int|
        0 <= other < after.len() && place_of(plan, other as usize) < place_of(plan, node) implies
        #[trigger] node_agrees(plan, accumulate, after, promise, other) by {
        assert(has_shape(plan, runtime.nodes@, other));
        assert(node_agrees(plan, accumulate, before, promise, other));
        lemma_others_survive(plan, accumulate, before, after, node, -1, other);
    }
}

/// The order that the output of a fusion is cut from.
proof fn lemma_fusion_order<F: Fn(i64, usize, usize, i64) -> i64>(
    plan: &ExactCompositionPlan,
    accumulate: F,
    promise: Promise,
    node: usize,
) -> (result: (spec_fn(i64, usize, usize, i64) -> i64, Seq<ExtendedPointId>))
    requires
        sound_outputs(plan, accumulate, promise),
        node < plan.nodes().len(),
        plan.nodes()[node as int] is Fusion,
    ensures
        computes(accumulate, result.0),
        is_rank_arithmetic(result.0),
        plan.nodes()[node as int] matches ExactCompositionNode::Fusion {
            inputs,
            weights,
            rrf_k,
            output_limit,
        } && is_exhaustive_fusion(
            result.0,
            input_outputs(promise.outputs, inputs@),
            rrf_k,
            weights@,
            result.1,
        ) && promise.outputs[node as int] == limited(result.1, output_limit),
{
    let (leaves, arithmetic) = choose|
        leaves: Seq<Option<Seq<ExtendedPointId>>>,
        arithmetic: spec_fn(i64, usize, usize, i64) -> i64,
    |
        #[trigger] are_outputs(plan.nodes(), leaves, arithmetic, promise.outputs) && computes(
            accumulate,
            arithmetic,
        ) && is_rank_arithmetic(arithmetic);
    assert(is_output(
        plan.nodes()[node as int],
        leaves[node as int],
        arithmetic,
        promise.outputs,
        promise.outputs[node as int],
    ));
    match plan.nodes()[node as int] {
        ExactCompositionNode::Fusion { inputs, weights, rrf_k, output_limit } => {
            let order = choose|order: Seq<ExtendedPointId>|
                {
                    &&& #[trigger] is_exhaustive_fusion(
                        arithmetic,
                        input_outputs(promise.outputs, inputs@),
                        rrf_k,
                        weights@,
                        order,
                    )
                    &&& promise.outputs[node as int] == limited(order, output_limit)
                };
            (arithmetic, order)
        },
        _ => (arithmetic, Seq::empty()),
    }
}

/// A fusion that has put out as many identities as its limit is at its end.
proof fn lemma_spent_is_end<F: Fn(i64, usize, usize, i64) -> i64>(
    plan: &ExactCompositionPlan,
    accumulate: F,
    promise: Promise,
    node: usize,
    count: nat,
)
    requires
        sound_outputs(plan, accumulate, promise),
        node < plan.nodes().len(),
        count <= promise.outputs[node as int].len(),
        plan.nodes()[node as int] matches ExactCompositionNode::Fusion { output_limit, .. } && (
        output_limit matches Some(limit) && count >= limit || count >= usize::MAX),
    ensures
        count == promise.outputs[node as int].len(),
{
    let (arithmetic, order) = lemma_fusion_order(plan, accumulate, promise, node);
    lemma_output_fits(plan, accumulate, promise, node);
}

/// An open fusion without a session is at its end.
proof fn lemma_limit_is_end<
    L: FallibleExactCompositionStream,
    F: Fn(i64, usize, usize, i64) -> i64,
>(
    plan: &ExactCompositionPlan,
    accumulate: F,
    nodes: Seq<RuntimeNode<L>>,
    promise: Promise,
    node: usize,
    count: nat,
)
    requires
        sound_outputs(plan, accumulate, promise),
        node < plan.nodes().len(),
        plan.nodes()[node as int] is Fusion,
        has_shape(plan, nodes, node as int),
        nodes[node as int].session() is None,
        producer_agrees(plan, accumulate, nodes, promise, node as int, count),
    ensures
        count == promise.outputs[node as int].len(),
{
    lemma_spent_is_end(plan, accumulate, promise, node, count);
}

/// What a fixed prefix says about the next identity of a fusion's output.
proof fn lemma_prefix_continues<F: Fn(i64, usize, usize, i64) -> i64>(
    plan: &ExactCompositionPlan,
    accumulate: F,
    promise: Promise,
    node: usize,
    count: nat,
    target: usize,
    ids: Seq<ExtendedPointId>,
)
    requires
        sound_outputs(plan, accumulate, promise),
        node < plan.nodes().len(),
        count + 1 == target,
        count <= promise.outputs[node as int].len(),
        plan.nodes()[node as int] matches ExactCompositionNode::Fusion {
            inputs,
            weights,
            rrf_k,
            output_limit,
        } && (output_limit matches Some(limit) ==> count < limit) && is_exhaustive_prefix(
            accumulate,
            input_outputs(promise.outputs, inputs@),
            rrf_k,
            weights@,
            target,
            ids,
        ),
    ensures
        count < ids.len() <==> count < promise.outputs[node as int].len(),
        count < ids.len() ==> ids[count as int] == promise.outputs[node as int][count as int],
{
    let (arithmetic, order) = lemma_fusion_order(plan, accumulate, promise, node);
    assert(ids == first_of(order, target));
}

/// What a node puts out: the next identity of its output, its end, or the error with
/// which a leaf breaks off.
spec fn produces<L: FallibleExactCompositionStream, F: Fn(i64, usize, usize, i64) -> i64>(
    plan: &ExactCompositionPlan,
    accumulate: F,
    nodes: Seq<RuntimeNode<L>>,
    all: Set<Promise>,
    node: usize,
    count: nat,
    result: Result<Option<ExtendedPointId>, ExactCompositionError>,
) -> bool {
    forall|promise: Promise| #[trigger]
        all.contains(promise) ==> {
            let output = promise.outputs[node as int];
            match result {
                Ok(Some(id)) => {
                    &&& count < output.len()
                    &&& id == output[count as int]
                    &&& producer_agrees(
                        plan,
                        accumulate,
                        nodes,
                        promise,
                        node as int,
                        (count + 1) as nat,
                    )
                },
                Ok(None) => count == output.len(),
                Err(error) => is_promised(promise, error),
            }
        }
}

/// A change beneath a node that spares its readers also spares all but one.
proof fn lemma_weaken_change<L: FallibleExactCompositionStream>(
    plan: &ExactCompositionPlan,
    before: Seq<RuntimeNode<L>>,
    after: Seq<RuntimeNode<L>>,
    node: usize,
    reader: int,
)
    requires
        changes_beneath(plan, before, after, node, -1),
    ensures
        changes_beneath(plan, before, after, node, reader),
{
}

/// Outputs are short enough to be held.
proof fn lemma_output_fits<F: Fn(i64, usize, usize, i64) -> i64>(
    plan: &ExactCompositionPlan,
    accumulate: F,
    promise: Promise,
    node: usize,
)
    requires
        sound_outputs(plan, accumulate, promise),
        node < plan.nodes().len(),
    ensures
        promise.outputs.len() == plan.nodes().len(),
        promise.outputs[node as int].len() < usize::MAX,
        promise.outputs[node as int].no_duplicates(),
{
    let (leaves, arithmetic) = choose|
        leaves: Seq<Option<Seq<ExtendedPointId>>>,
        arithmetic: spec_fn(i64, usize, usize, i64) -> i64,
    |
        #[trigger] are_outputs(plan.nodes(), leaves, arithmetic, promise.outputs) && computes(
            accumulate,
            arithmetic,
        ) && is_rank_arithmetic(arithmetic);
    assert(is_output(
        plan.nodes()[node as int],
        leaves[node as int],
        arithmetic,
        promise.outputs,
        promise.outputs[node as int],
    ));
}


/// Whether a node's output has not been read yet.
spec fn is_fresh(view: ReplayView) -> bool {
    &&& view.produced == Seq::<ExtendedPointId>::empty()
    &&& view.base == 0
    &&& !view.exhausted
    &&& !view.cancelled
    &&& view.peak == 0
    &&& forall|reader: int|
        0 <= reader < view.readers.len() ==> #[trigger] view.readers[reader] == Some(0usize)
}

/// Whether a node that is not built yet reads nothing.
spec fn is_blank<L: FallibleExactCompositionStream>(node: RuntimeNode<L>) -> bool {
    node.readers().len() == 0 && node.session() is None
}

/// Whether the nodes before a place are built, the others blank, and nothing has
/// been read.
spec fn is_built<L: FallibleExactCompositionStream>(
    plan: &ExactCompositionPlan,
    nodes: Seq<RuntimeNode<L>>,
    place: int,
) -> bool {
    &&& nodes.len() == plan.nodes().len()
    &&& separate(plan, nodes)
    &&& forall|node: int|
        0 <= node < nodes.len() ==> (#[trigger] nodes[node]).replay.wf() && is_fresh(
            nodes[node].replay@,
        )
    &&& forall|at: int|
        0 <= at < place ==> has_shape(plan, nodes, #[trigger] plan.order()[at] as int)
    &&& forall|at: int|
        place <= at < plan.order().len() ==> is_blank(nodes[#[trigger] plan.order()[at] as int])
}

/// Whether a node is the input of a fusion.
pub open spec fn is_read(nodes: Seq<ExactCompositionNode>, node: int) -> bool {
    exists|other: int, slot: int|
        0 <= other < nodes.len() && 0 <= slot < inputs_of(nodes[other]).len() && #[trigger] inputs_of(
            nodes[other],
        )[slot] == node
}

/// Whether no node has a reader that is the input of no fusion.
spec fn only_inputs_are_read<L: FallibleExactCompositionStream>(
    plan: &ExactCompositionPlan,
    nodes: Seq<RuntimeNode<L>>,
) -> bool {
    forall|node: int|
        0 <= node < nodes.len() && !is_read(plan.nodes(), node) ==> (
        #[trigger] nodes[node]).replay@.readers.len() == 0
}

/// Whether a node is at its beginning: its stream is what was given, or its session is new.
spec fn is_started<L: FallibleExactCompositionStream>(
    plan: &ExactCompositionPlan,
    origin: NetworkOrigin,
    nodes: Seq<RuntimeNode<L>>,
    node: int,
) -> bool {
    match nodes[node].producer {
        Producer::Leaf(leaf) => {
            &&& !(plan.nodes()[node] is Fusion)
            &&& leaf.stream matches Some(stream)
            &&& origin.leaves[node] == (LeafOrigin {
                rest: stream.rest(),
                failing: stream.failing(),
            })
            &&& forall|id: ExtendedPointId| !#[trigger] leaf.seen@.contains(id)
        },
        Producer::Fusion(fusion) => {
            &&& plan.nodes()[node] is Fusion
            &&& fusion.emitted == 0
            &&& fusion.logical_input_pulls@.len() == 0
            &&& fusion.certification_checks == 0
            &&& fusion.session matches Some(progress)
            &&& progress@ == first_session(plan.nodes()[node], origin.policy)
        },
    }
}

/// Whether the nodes before a place are at their beginning.
spec fn are_started<L: FallibleExactCompositionStream>(
    plan: &ExactCompositionPlan,
    origin: NetworkOrigin,
    nodes: Seq<RuntimeNode<L>>,
    place: int,
) -> bool {
    forall|at: int|
        0 <= at < place ==> is_started(plan, origin, nodes, #[trigger] plan.order()[at] as int)
}

/// Nodes at their beginning are held.
proof fn lemma_started_is_held<
    L: FallibleExactCompositionStream,
    F: Fn(i64, usize, usize, i64) -> i64,
    P: Fn(usize, usize, i64, usize, i64) -> i64,
>(
    plan: &ExactCompositionPlan,
    origin: NetworkOrigin,
    nodes: Seq<RuntimeNode<L>>,
    accumulate: F,
    priority: P,
    place: int,
)
    requires
        plan.wf(),
        nodes.len() == plan.nodes().len(),
        nodes.len() <= usize::MAX,
        are_started(plan, origin, nodes, plan.order().len() as int),
        forall|node: int|
            0 <= node < nodes.len() ==> is_fresh((#[trigger] nodes[node]).replay@),
        forall|node: int| 0 <= node < nodes.len() ==> #[trigger] has_shape(plan, nodes, node),
    ensures
        held_below(plan, origin, nodes, accumulate, priority, place),
{
    reveal(is_held);
    assert forall|node: int|
        0 <= node < nodes.len() && place_of(plan, node as usize) < place implies #[trigger] is_held(
        plan,
        origin,
        nodes,
        accumulate,
        priority,
        node,
        log_of(nodes[node]),
    ) by {
        lemma_every_node_is_placed(plan, node as usize);
        let at = choose|at: int| 0 <= at < plan.order().len() && plan.order()[at] == node;
        assert(is_started(plan, origin, nodes, plan.order()[at] as int));
        assert(is_fresh(nodes[node].replay@));
        assert(has_shape(plan, nodes, node));
        let definition = plan.nodes()[node];
        let inputs = inputs_of(definition);
        match nodes[node].producer {
            Producer::Leaf(leaf) => {
                let origin = origin.leaves[node];
                if let Some(ids) = origin.rest {
                    assert(ids.skip(0) =~= ids);
                    assert(ids.take(0) =~= Seq::<ExtendedPointId>::empty());
                }
                if let Some((ids, _)) = origin.failing {
                    assert(ids.skip(0) =~= ids);
                    assert(ids.take(0) =~= Seq::<ExtendedPointId>::empty());
                }
            },
            Producer::Fusion(fusion) => {
                let view = fusion.session->0@;
                let sources = input_logs(logs_of(nodes), inputs);
                match definition {
                    ExactCompositionNode::Fusion { inputs, .. } => {
                        assert(inputs.len() <= usize::MAX);
                    },
                    _ => {},
                }
                lemma_no_outputs(view, sources, accumulate, priority);
                reveal(fusion_logged);
                reveal(fusion_counts);
                assert(puts_out(
                    view,
                    sources,
                    accumulate,
                    priority,
                    log_of(nodes[node]).outputs,
                    view,
                ));
                lemma_inputs_are_nodes(plan, node);
                assert forall|slot: int| 0 <= slot < inputs.len() implies (
                nodes[inputs[slot] as int].seat(
                    #[trigger] nodes[node].readers()[slot],
                ) matches Some(position) && position == view.fusion.histories[slot].len()) by {
                    assert(is_fresh(nodes[inputs[slot] as int].replay@));
                }
            },
        }
    }
}

/// Whether the producers of the nodes before a place will complete the output of
/// their nodes.
spec fn producers_agree<L: FallibleExactCompositionStream, F: Fn(i64, usize, usize, i64) -> i64>(
    plan: &ExactCompositionPlan,
    accumulate: F,
    nodes: Seq<RuntimeNode<L>>,
    all: Set<Promise>,
    place: int,
) -> bool {
    forall|promise: Promise, at: int|
        #![trigger all.contains(promise), plan.order()[at]]
        all.contains(promise) && 0 <= at < place ==> producer_agrees(
            plan,
            accumulate,
            nodes,
            promise,
            plan.order()[at] as int,
            0,
        )
}

/// Whether `after` is `before` with further readers on some nodes.
spec fn only_subscribes<L: FallibleExactCompositionStream>(
    before: Seq<RuntimeNode<L>>,
    after: Seq<RuntimeNode<L>>,
) -> bool {
    &&& after.len() == before.len()
    &&& forall|node: int|
        0 <= node < before.len() ==> {
            &&& (#[trigger] after[node]).producer == before[node].producer
            &&& after[node].replay.wf()
            &&& is_fresh(after[node].replay@)
            &&& before[node].replay@.readers.len() <= after[node].replay@.readers.len()
        }
}

/// Further readers leave built nodes as they were.
proof fn lemma_subscribing_keeps<
    L: FallibleExactCompositionStream,
    F: Fn(i64, usize, usize, i64) -> i64,
>(
    plan: &ExactCompositionPlan,
    accumulate: F,
    before: Seq<RuntimeNode<L>>,
    after: Seq<RuntimeNode<L>>,
    all: Set<Promise>,
    place: int,
)
    requires
        plan.wf(),
        0 <= place <= plan.order().len(),
        is_built(plan, before, place),
        producers_agree(plan, accumulate, before, all, place),
        only_subscribes(before, after),
    ensures
        is_built(plan, after, place),
        producers_agree(plan, accumulate, after, all, place),
{
    assert forall|node: int| 0 <= node < before.len() implies (
    #[trigger] after[node]).readers() == before[node].readers() && after[node].session()
        == before[node].session() by {
    }
    assert forall|owner: int, slot: int, input: int, seat: usize| #[trigger]
        owns(plan, after, owner, slot, input, seat) implies owns(
        plan,
        before,
        owner,
        slot,
        input,
        seat,
    ) by {
        assert(after[owner].readers() == before[owner].readers());
    }
    assert(separate(plan, after)) by {
        assert forall|
            left: int,
            left_slot: int,
            right: int,
            right_slot: int,
            input: int,
            seat: usize,
        |
            #[trigger] owns(plan, after, left, left_slot, input, seat) && #[trigger] owns(
                plan,
                after,
                right,
                right_slot,
                input,
                seat,
            ) implies left == right && left_slot == right_slot by {
            assert(owns(plan, before, left, left_slot, input, seat));
            assert(owns(plan, before, right, right_slot, input, seat));
        }
    }
    assert forall|at: int| 0 <= at < place implies has_shape(
        plan,
        after,
        #[trigger] plan.order()[at] as int,
    ) by {
        let node = plan.order()[at] as int;
        let inputs = inputs_of(plan.nodes()[node]);
        assert(has_shape(plan, before, node));
        assert forall|slot: int| 0 <= slot < inputs.len() implies #[trigger] after[node].readers()[slot]
            < after[inputs[slot] as int].replay@.readers.len() by {
            lemma_input_is_earlier(plan, node as usize, slot);
            assert(before[node].readers()[slot]
                < before[inputs[slot] as int].replay@.readers.len());
            let _ = after[inputs[slot] as int];
        }
        if after[node].session() is Some {
            assert forall|slot: int| 0 <= slot < inputs.len() implies
                after[inputs[slot] as int].seat(#[trigger] after[node].readers()[slot]) is Some by {
                lemma_input_is_earlier(plan, node as usize, slot);
                assert(before[node].readers()[slot]
                    < before[inputs[slot] as int].replay@.readers.len());
                let _ = after[inputs[slot] as int];
                assert(is_fresh(after[inputs[slot] as int].replay@));
            }
        }
    }
    assert forall|at: int| place <= at < plan.order().len() implies is_blank(
        after[#[trigger] plan.order()[at] as int],
    ) by {
        assert(is_blank(before[plan.order()[at] as int]));
        let _ = after[plan.order()[at] as int];
    }
    assert forall|promise: Promise, at: int|
        #![trigger all.contains(promise), plan.order()[at]]
        all.contains(promise) && 0 <= at < place implies producer_agrees(
        plan,
        accumulate,
        after,
        promise,
        plan.order()[at] as int,
        0,
    ) by {
        let node = plan.order()[at] as int;
        let inputs = inputs_of(plan.nodes()[node]);
        assert(has_shape(plan, before, node));
        assert(producer_agrees(plan, accumulate, before, promise, node, 0));
        let _ = after[node];
        if after[node].session() is Some {
            assert forall|slot: int| 0 <= slot < inputs.len() implies
                after[inputs[slot] as int].seat(#[trigger] after[node].readers()[slot])
                == before[inputs[slot] as int].seat(before[node].readers()[slot]) by {
                lemma_input_is_earlier(plan, node as usize, slot);
                assert(before[node].readers()[slot]
                    < before[inputs[slot] as int].replay@.readers.len());
                let _ = after[inputs[slot] as int];
                assert(is_fresh(after[inputs[slot] as int].replay@));
                assert(is_fresh(before[inputs[slot] as int].replay@));
            }
        }
    }
}

/// Adds one reader to every input of a fusion.
fn subscribe_inputs<L: FallibleExactCompositionStream>(
    nodes: &mut Vec<RuntimeNode<L>>,
    inputs: &Vec<usize>,
) -> (readers: Vec<usize>)
    requires
        forall|i: int| 0 <= i < inputs@.len() ==> #[trigger] inputs@[i] < old(nodes)@.len(),
        forall|node: int|
            0 <= node < old(nodes)@.len() ==> (#[trigger] old(nodes)@[node]).replay.wf()
                && is_fresh(old(nodes)@[node].replay@),
    ensures
        only_subscribes(old(nodes)@, final(nodes)@),
        readers@.len() == inputs@.len(),
        forall|slot: int|
            0 <= slot < inputs@.len() ==> old(nodes)@[inputs@[slot] as int].replay@.readers.len() <= #[trigger] readers@[slot] < final(nodes)@[inputs@[slot] as int].replay@.readers.len(),
        forall|left: int, right: int|
            0 <= left < right < inputs@.len() && inputs@[left] == inputs@[right]
                ==> #[trigger] readers@[left] != #[trigger] readers@[right],
        forall|node: int|
            0 <= node < old(nodes)@.len() && !inputs@.contains(node as usize) ==> (
            #[trigger] final(nodes)@[node]).replay@.readers == old(nodes)@[node].replay@.readers,
{
    let mut readers: Vec<usize> = Vec::new();
    let mut slot: usize = 0;
    let ghost before = nodes@;
    while slot < inputs.len()
        invariant
            before == old(nodes)@,
            slot <= inputs@.len(),
            readers@.len() == slot,
            forall|i: int| 0 <= i < inputs@.len() ==> #[trigger] inputs@[i] < before.len(),
            only_subscribes(before, nodes@),
            forall|node: int|
                0 <= node < before.len() && !inputs@.contains(node as usize) ==> (
                #[trigger] nodes@[node]).replay@.readers == before[node].replay@.readers,
            forall|i: int|
                0 <= i < slot ==> before[inputs@[i] as int].replay@.readers.len()
                    <= #[trigger] readers@[i]
                    < nodes@[inputs@[i] as int].replay@.readers.len(),
            forall|left: int, right: int|
                0 <= left < right < slot && inputs@[left] == inputs@[right]
                    ==> #[trigger] readers@[left] != #[trigger] readers@[right],
        decreases inputs@.len() - slot,
    {
        let input: usize = inputs[slot];
        let ghost middle = nodes@;
        assert(middle[input as int].replay.wf());
        assert(is_fresh(middle[input as int].replay@));
        let reader: usize = nodes[input].replay.subscribe();
        readers.push(reader);
        proof {
            assert(inputs@.contains(inputs@[slot as int]));
            assert forall|node: int|
                0 <= node < before.len() && !inputs@.contains(node as usize) implies (
            #[trigger] nodes@[node]).replay@.readers == before[node].replay@.readers by {
                assert(nodes@[node] == middle[node]);
            }
            assert forall|node: int| 0 <= node < before.len() implies {
                &&& (#[trigger] nodes@[node]).producer == before[node].producer
                &&& nodes@[node].replay.wf()
                &&& is_fresh(nodes@[node].replay@)
                &&& before[node].replay@.readers.len() <= nodes@[node].replay@.readers.len()
            } by {
                let _ = middle[node];
            }
        }
        slot += 1;
    }
    readers
}

/// Why the policy of a session cannot be used.
pub open spec fn policy_fault(policy: DynamicRrfPolicy) -> Option<Fault> {
    if policy.warmup_check_interval == Some(0usize) {
        Some(Fault::ZeroWarmupInterval)
    } else if policy.exhaustive_after_pulls_per_source == Some(0usize) {
        Some(Fault::ZeroExhaustiveBudget)
    } else if policy.fairness_after_actions_per_source == Some(0usize) {
        Some(Fault::ZeroFairnessInterval)
    } else {
        None
    }
}

/// Whether the policy of a session can be used.
pub open spec fn valid_policy(policy: DynamicRrfPolicy) -> bool {
    policy_fault(policy) is None
}

/// Why a node cannot be put to work: a leaf has neither a stream nor an order, or
/// the policy of a fusion cannot be used.
pub open spec fn build_fault<L>(
    node: usize,
    definition: ExactCompositionNode,
    stream: Option<L>,
    policy: DynamicRrfPolicy,
) -> Option<ExactCompositionError> {
    match definition {
        ExactCompositionNode::Leaf { .. } => None,
        ExactCompositionNode::ExternalLeaf => if stream is None {
            Some(ExactCompositionError::MissingLeafStream(node))
        } else {
            None
        },
        ExactCompositionNode::Fusion { .. } => match policy_fault(policy) {
            Some(fault) => Some(
                ExactCompositionError::Fusion { node, error: OperationError::ValidationError(fault) },
            ),
            None => None,
        },
    }
}

/// The fault of the first node that cannot be put to work.
pub open spec fn builds_fault<L>(
    nodes: Seq<ExactCompositionNode>,
    order: Seq<usize>,
    streams: Seq<Option<L>>,
    policy: DynamicRrfPolicy,
    upto: int,
) -> Option<ExactCompositionError>
    decreases upto,
{
    if upto <= 0 {
        None
    } else {
        match builds_fault(nodes, order, streams, policy, upto - 1) {
            Some(error) => Some(error),
            None => {
                let node = order[upto - 1];
                build_fault(node, nodes[node as int], streams[node as int], policy)
            },
        }
    }
}

/// A network whose leaves all have a ranking can be put to work under every usable
/// policy.
pub proof fn lemma_nothing_missing<L>(
    nodes: Seq<ExactCompositionNode>,
    order: Seq<usize>,
    streams: Seq<Option<L>>,
    policy: DynamicRrfPolicy,
    upto: int,
)
    requires
        valid_policy(policy),
        0 <= upto <= order.len(),
        forall|place: int|
            0 <= place < order.len() ==> (nodes[#[trigger] order[place] as int] is ExternalLeaf
                ==> streams[order[place] as int] is Some),
    ensures
        builds_fault(nodes, order, streams, policy, upto) is None,
    decreases upto,
{
    if upto > 0 {
        lemma_nothing_missing(nodes, order, streams, policy, upto - 1);
        let _ = order[upto - 1];
    }
}

proof fn lemma_builds_fault_persists<L>(
    nodes: Seq<ExactCompositionNode>,
    order: Seq<usize>,
    streams: Seq<Option<L>>,
    policy: DynamicRrfPolicy,
    upto: int,
)
    requires
        0 <= upto <= order.len(),
        builds_fault(nodes, order, streams, policy, upto) is Some,
    ensures
        builds_fault(nodes, order, streams, policy, order.len() as int) == builds_fault(
            nodes,
            order,
            streams,
            policy,
            upto,
        ),
    decreases order.len() - upto,
{
    if upto < order.len() {
        lemma_builds_fault_persists(nodes, order, streams, policy, upto + 1);
    }
}

impl<L: FallibleExactCompositionStream> CompositionRuntime<L> {
    /// Puts a network to work.
    fn build<F: Fn(i64, usize, usize, i64) -> i64>(
        plan: &ExactCompositionPlan,
        leaf_streams: Vec<Option<L>>,
        policy: DynamicRrfPolicy,
        accumulate: &F,
        Ghost(all): Ghost<Set<Promise>>,
    ) -> (result: Result<CompositionRuntime<L>, ExactCompositionError>)
        requires
            plan.wf(),
            streams_fit(plan.nodes(), leaf_streams@),
            valid_policy(policy) || all == Set::<Promise>::empty(),
            forall|promise: Promise| #[trigger]
                all.contains(promise) ==> sound_outputs(plan, *accumulate, promise)
                    && leaves_complete(plan, leaf_streams@, promise),
        ensures
            result matches Ok(runtime) ==> {
                &&& runtime.wf(plan)
                &&& is_built(plan, runtime.nodes@, plan.order().len() as int)
                &&& only_inputs_are_read(plan, runtime.nodes@)
                &&& are_started(
                    plan,
                    network_origin(plan.nodes(), leaf_streams@, policy),
                    runtime.nodes@,
                    plan.order().len() as int,
                )
                &&& producers_agree(
                    plan,
                    *accumulate,
                    runtime.nodes@,
                    all,
                    plan.order().len() as int,
                )
            },
            forall|promise: Promise| #[trigger]
                all.contains(promise) ==> result is Ok,
            match builds_fault(
                plan.nodes(),
                plan.order(),
                leaf_streams@,
                policy,
                plan.order().len() as int,
            ) {
                Some(error) => result == Err::<CompositionRuntime<L>, ExactCompositionError>(error),
                None => result is Ok,
            },
    {
        let ghost given = leaf_streams@;
        let ghost origin = network_origin(plan.nodes(), given, policy);
        let mut streams = leaf_streams;
        let count: usize = plan.node_count();
        let mut nodes: Vec<RuntimeNode<L>> = Vec::new();
        while nodes.len() < count
            invariant
                nodes@.len() <= count,
                forall|node: int|
                    0 <= node < nodes@.len() ==> (#[trigger] nodes@[node]).replay.wf()
                        && is_fresh(nodes@[node].replay@) && is_blank(nodes@[node])
                        && nodes@[node].replay@.readers.len() == 0,
            decreases count - nodes@.len(),
        {
            nodes.push(
                RuntimeNode {
                    replay: ReplayBuffer::new(),
                    producer: Producer::Leaf(LeafProducer { stream: None, seen: IdSet::new() }),
                },
            );
        }
        proof {
            lemma_sound_nodes(plan.nodes());
            assert(separate(plan, nodes@)) by {
                assert forall|owner: int, slot: int, input: int, seat: usize|
                    !#[trigger] owns(plan, nodes@, owner, slot, input, seat) by {
                    if 0 <= owner < nodes@.len() {
                        assert(is_blank(nodes@[owner]));
                    }
                }
            }
        }
        let mut place: usize = 0;
        while place < count
            invariant
                plan.wf(),
                count == plan.nodes().len(),
                count == plan.order().len(),
                place <= count,
                given == leaf_streams@,
                streams_fit(plan.nodes(), given),
                streams@.len() == count,
                valid_policy(policy) || all == Set::<Promise>::empty(),
                forall|promise: Promise| #[trigger]
                    all.contains(promise) ==> sound_outputs(plan, *accumulate, promise)
                        && leaves_complete(plan, given, promise),
                forall|node: int|
                    0 <= node < count ==> node_fault(
                        node as usize,
                        #[trigger] plan.nodes()[node],
                        plan.nodes().len(),
                    ) is None,
                forall|node: int, input: int|
                    0 <= node < count && 0 <= input < inputs_of(
                        #[trigger] plan.nodes()[node],
                    ).len() ==> #[trigger] inputs_of(plan.nodes()[node])[input] < count,
                forall|later: int|
                    place <= later < count ==> streams@[#[trigger] plan.order()[later] as int]
                        == given[plan.order()[later] as int],
                is_built(plan, nodes@, place as int),
                only_inputs_are_read(plan, nodes@),
                are_started(plan, origin, nodes@, place as int),
                origin == network_origin(plan.nodes(), given, policy),
                producers_agree(plan, *accumulate, nodes@, all, place as int),
                builds_fault(plan.nodes(), plan.order(), given, policy, place as int) is None,
            decreases count - place,
        {
            let node: usize = plan.ordered_node(place);
            let ghost definition = plan.nodes()[node as int];
            let ghost before = nodes@;
            proof {
                assert(streams@[node as int] == given[node as int]);
                assert(node_fault(node, definition, plan.nodes().len()) is None);
                assert(is_blank(before[node as int]));
            }
            let supplied = streams[node].take();
            match plan.node(node) {
                ExactCompositionNode::Leaf { order } => {
                    let stream = match supplied {
                        Some(stream) => LeafStream::Supplied(stream),
                        None => LeafStream::Held(infallible_exact_rrf_stream(copied(order))),
                    };
                    let ghost rest = stream.rest();
                    nodes[node].producer = Producer::Leaf(
                        LeafProducer { stream: Some(stream), seen: IdSet::new() },
                    );
                    proof {
                        lemma_leaf_built(
                            plan,
                            *accumulate,
                            before,
                            nodes@,
                            all,
                            place as int,
                            given,
                        );
                    }
                },
                ExactCompositionNode::ExternalLeaf => {
                    let stream = match supplied {
                        Some(stream) => LeafStream::Supplied(stream),
                        None => {
                            proof {
                                assert forall|promise: Promise| #[trigger]
                                    all.contains(promise) implies false by {
                                    assert(leaf_completes(
                                        node,
                                        definition,
                                        given[node as int],
                                        promise.outputs[node as int],
                                        promise.failures[node as int],
                                    ));
                                }
                            }
                            proof {
                                lemma_builds_fault_persists(
                                    plan.nodes(),
                                    plan.order(),
                                    given,
                                    policy,
                                    place + 1,
                                );
                            }
                            return Err(ExactCompositionError::MissingLeafStream(node));
                        },
                    };
                    nodes[node].producer = Producer::Leaf(
                        LeafProducer { stream: Some(stream), seen: IdSet::new() },
                    );
                    proof {
                        lemma_leaf_built(
                            plan,
                            *accumulate,
                            before,
                            nodes@,
                            all,
                            place as int,
                            given,
                        );
                    }
                },
                ExactCompositionNode::Fusion { inputs, weights, rrf_k, output_limit } => {
                    proof {
                        assert(inputs@ == inputs_of(definition));
                        assert forall|i: int| 0 <= i < inputs@.len() implies #[trigger] inputs@[i]
                            < nodes@.len() by {
                            assert(inputs_of(plan.nodes()[node as int])[i] < count);
                        }
                    }
                    let readers = subscribe_inputs(&mut nodes, inputs);
                    let ghost middle = nodes@;
                    proof {
                        lemma_subscribing_keeps(
                            plan,
                            *accumulate,
                            before,
                            middle,
                            all,
                            place as int,
                        );
                    }
                    let costs = repeated(UNIT_WEIGHT, inputs.len());
                    let progress = match RrfProgress::new(
                        inputs.len(),
                        1,
                        1,
                        *rrf_k,
                        Some(weights),
                        &costs,
                        policy,
                    ) {
                        Ok(progress) => progress,
                        Err(error) => {
                            proof {
                                assert forall|promise: Promise| #[trigger]
                                    all.contains(promise) implies false by {
                                    assert(valid_policy(policy));
                                }
                            }
                            proof {
                                lemma_builds_fault_persists(
                                    plan.nodes(),
                                    plan.order(),
                                    given,
                                    policy,
                                    place + 1,
                                );
                            }
                            return Err(ExactCompositionError::Fusion { node, error });
                        },
                    };
                    nodes[node].producer = Producer::Fusion(
                        FusionProducer {
                            session: Some(progress),
                            readers,
                            output_limit: *output_limit,
                            emitted: 0,
                            logical_input_pulls: Vec::new(),
                            certification_checks: 0,
                        },
                    );
                    proof {
                        lemma_fusion_built(
                            plan,
                            *accumulate,
                            before,
                            middle,
                            nodes@,
                            all,
                            place as int,
                        );
                    }
                },
            }
            proof {
                assert forall|other: int|
                    0 <= other < nodes@.len() && !is_read(plan.nodes(), other) implies (
                #[trigger] nodes@[other]).replay@.readers.len() == 0 by {
                    assert(before[other].replay@.readers.len() == 0);
                    let inputs = inputs_of(definition);
                    if inputs.contains(other as usize) {
                        let slot = choose|slot: int|
                            0 <= slot < inputs.len() && inputs[slot] == other as usize;
                        assert(inputs_of(plan.nodes()[node as int])[slot] == other);
                    }
                    assert(nodes@[other].replay@.readers == before[other].replay@.readers);
                }
                assert forall|later: int| place + 1 <= later < count implies streams@[
                #[trigger] plan.order()[later] as int] == given[plan.order()[later] as int] by {
                    assert(plan.order()[later] != plan.order()[place as int]);
                }
                assert forall|at: int| 0 <= at < place + 1 implies is_started(
                    plan,
                    origin,
                    nodes@,
                    #[trigger] plan.order()[at] as int,
                ) by {
                    let built = plan.order()[at];
                    if at < place {
                        assert(is_started(plan, origin, before, built as int));
                        assert(built != node);
                        assert(nodes@[built as int].producer == before[built as int].producer);
                    } else {
                        assert(built == node);
                        assert(origin.leaves[node as int] == leaf_origin(
                            definition,
                            given[node as int],
                        ));
                    }
                }
            }
            place += 1;
        }
        let runtime = CompositionRuntime { nodes, memory: ReplayBufferTracker::new() };
        proof {
            assert forall|node: int| 0 <= node < runtime.nodes@.len() implies has_shape(
                plan,
                #[trigger] runtime.nodes@,
                node,
            ) by {
                lemma_every_node_is_placed(plan, node as usize);
                let at = choose|at: int| 0 <= at < plan.order().len() && plan.order()[at] == node;
                assert(has_shape(plan, runtime.nodes@, plan.order()[at] as int));
            }
            lemma_fresh_total(runtime.nodes@);
        }
        Ok(runtime)
    }
}

/// Whether the stream of a leaf completes the leaf's output, or breaks off.
spec fn leaf_completes<L: FallibleExactCompositionStream>(
    node: usize,
    definition: ExactCompositionNode,
    stream: Option<L>,
    output: Seq<ExtendedPointId>,
    failure: Option<ExactCompositionError>,
) -> bool {
    match (definition, stream) {
        (ExactCompositionNode::Fusion { .. }, _) => true,
        (_, Some(stream)) => continues(
            node,
            stream.rest(),
            stream.failing(),
            output,
            0,
            failure,
        ),
        (ExactCompositionNode::Leaf { order }, None) => order@ == output && failure is None,
        (ExactCompositionNode::ExternalLeaf, None) => false,
    }
}

/// Whether the streams of the leaves complete the leaves' outputs, or break off.
spec fn leaves_complete<L: FallibleExactCompositionStream>(
    plan: &ExactCompositionPlan,
    streams: Seq<Option<L>>,
    promise: Promise,
) -> bool {
    &&& promise.failures.len() == plan.nodes().len()
    &&& forall|node: int|
        0 <= node < plan.nodes().len() ==> leaf_completes(
            node as usize,
            plan.nodes()[node],
            #[trigger] streams[node],
            promise.outputs[node],
            promise.failures[node],
        )
}

proof fn lemma_fresh_total<L: FallibleExactCompositionStream>(nodes: Seq<RuntimeNode<L>>)
    requires
        forall|node: int| 0 <= node < nodes.len() ==> is_fresh((#[trigger] nodes[node]).replay@),
    ensures
        total_buffered(nodes) == 0,
        total_peaks(nodes) == 0,
    decreases nodes.len(),
{
    if nodes.len() > 0 {
        lemma_fresh_total(nodes.drop_last());
        assert(is_fresh(nodes[nodes.len() - 1].replay@));
    }
}

/// Building a leaf extends what is built.
proof fn lemma_leaf_built<L: FallibleExactCompositionStream, F: Fn(i64, usize, usize, i64) -> i64>(
    plan: &ExactCompositionPlan,
    accumulate: F,
    before: Seq<RuntimeNode<L>>,
    after: Seq<RuntimeNode<L>>,
    all: Set<Promise>,
    place: int,
    given: Seq<Option<L>>,
)
    requires
        plan.wf(),
        0 <= place < plan.order().len(),
        is_built(plan, before, place),
        producers_agree(plan, accumulate, before, all, place),
        forall|promise: Promise| #[trigger]
            all.contains(promise) ==> leaves_complete(plan, given, promise),
        ({
            let node = plan.order()[place] as int;
            &&& !(plan.nodes()[node] is Fusion)
            &&& after == before.update(node, after[node])
            &&& after[node].replay == before[node].replay
            &&& after[node].producer matches Producer::Leaf(leaf)
            &&& leaf.stream matches Some(stream)
            &&& leaf.seen@ == Set::<ExtendedPointId>::empty()
            &&& match given[node] {
                Some(given) => stream == LeafStream::Supplied(given),
                None => plan.nodes()[node] matches ExactCompositionNode::Leaf { order }
                    && stream.rest() == Some(order@),
            }
        }),
    ensures
        is_built(plan, after, place + 1),
        producers_agree(plan, accumulate, after, all, place + 1),
{
    let node = plan.order()[place];
    assert(changes_one(before, after, node, -1)) by {
        assert(is_blank(before[node as int]));
        assert(after[node as int].readers() =~= before[node as int].readers());
    }
    lemma_one_is_beneath(plan, before, after, node, -1);
    assert forall|at: int| 0 <= at < place + 1 implies has_shape(
        plan,
        after,
        #[trigger] plan.order()[at] as int,
    ) by {
        if at < place {
            assert(has_shape(plan, before, plan.order()[at] as int));
            lemma_others_survive(
                plan,
                accumulate,
                before,
                after,
                node,
                -1,
                plan.order()[at] as int,
            );
        } else {
            assert(is_fresh(before[node as int].replay@));
        }
    }
    assert forall|at: int| place + 1 <= at < plan.order().len() implies is_blank(
        after[#[trigger] plan.order()[at] as int],
    ) by {
        assert(is_blank(before[plan.order()[at] as int]));
        assert(plan.order()[at] != node);
    }
    assert forall|other: int| 0 <= other < after.len() implies (
    #[trigger] after[other]).replay.wf() && is_fresh(after[other].replay@) by {
        let _ = before[other];
    }
    assert forall|promise: Promise, at: int|
        #![trigger all.contains(promise), plan.order()[at]]
        all.contains(promise) && 0 <= at < place + 1 implies producer_agrees(
        plan,
        accumulate,
        after,
        promise,
        plan.order()[at] as int,
        0,
    ) by {
        let other = plan.order()[at] as int;
        if at < place {
            assert(has_shape(plan, before, other));
            assert(producer_agrees(plan, accumulate, before, promise, other, 0));
            let inputs = inputs_of(plan.nodes()[other]);
            assert(other != node);
            assert(after[other] == before[other]);
            if before[other].session() is Some {
                assert forall|slot: int| 0 <= slot < inputs.len() implies
                    after[inputs[slot] as int].seat(#[trigger] after[other].readers()[slot])
                    == before[inputs[slot] as int].seat(before[other].readers()[slot]) by {
                    lemma_input_is_earlier(plan, other as usize, slot);
                    let _ = after[inputs[slot] as int];
                    let _ = before[inputs[slot] as int];
                }
            }
        } else {
            let output = promise.outputs[other];
            assert(leaf_completes(
                other as usize,
                plan.nodes()[other],
                given[other],
                output,
                promise.failures[other],
            ));
            assert(output.skip(0) =~= output);
            assert(output.take(0) =~= Seq::<ExtendedPointId>::empty());
        }
    }
}

/// Building a fusion extends what is built.
proof fn lemma_fusion_built<
    L: FallibleExactCompositionStream,
    F: Fn(i64, usize, usize, i64) -> i64,
>(
    plan: &ExactCompositionPlan,
    accumulate: F,
    before: Seq<RuntimeNode<L>>,
    middle: Seq<RuntimeNode<L>>,
    after: Seq<RuntimeNode<L>>,
    all: Set<Promise>,
    place: int,
)
    requires
        plan.wf(),
        0 <= place < plan.order().len(),
        is_built(plan, before, place),
        is_built(plan, middle, place),
        only_subscribes(before, middle),
        producers_agree(plan, accumulate, middle, all, place),
        forall|promise: Promise| #[trigger]
            all.contains(promise) ==> sound_outputs(plan, accumulate, promise),
        ({
            let node = plan.order()[place] as int;
            &&& plan.nodes()[node] matches ExactCompositionNode::Fusion {
                inputs,
                weights,
                rrf_k,
                output_limit,
            }
            &&& after == middle.update(node, after[node])
            &&& after[node].replay == middle[node].replay
            &&& after[node].producer matches Producer::Fusion(fusion)
            &&& fusion.output_limit == output_limit
            &&& fusion.emitted == 0
            &&& fusion.logical_input_pulls@.len() == 0
            &&& fusion.certification_checks == 0
            &&& fusion.readers@.len() == inputs@.len()
            &&& forall|slot: int|
                0 <= slot < inputs@.len() ==> before[inputs@[slot] as int].replay@.readers.len()
                    <= #[trigger] fusion.readers@[slot]
                    < middle[inputs@[slot] as int].replay@.readers.len()
            &&& forall|left: int, right: int|
                0 <= left < right < inputs@.len() && inputs@[left] == inputs@[right]
                    ==> #[trigger] fusion.readers@[left] != #[trigger] fusion.readers@[right]
            &&& fusion.session matches Some(progress)
            &&& progress.wf()
            &&& progress@.fusion.weights == weights@
            &&& weights@.len() == inputs@.len()
            &&& progress@.fusion.rrf_k == rrf_k
            &&& progress@.fusion.top_k == 1
            &&& progress@.fusion.histories == Seq::new(
                inputs@.len(),
                |source: int| Seq::<ExtendedPointId>::empty(),
            )
            &&& progress@.fusion.exhausted == Seq::new(inputs@.len(), |source: int| false)
            &&& progress@.batch_size == 1
            &&& progress@.order is None
        }),
    ensures
        is_built(plan, after, place + 1),
        producers_agree(plan, accumulate, after, all, place + 1),
{
    let node = plan.order()[place];
    let fusion = after[node as int].producer->Fusion_0;
    let inputs = inputs_of(plan.nodes()[node as int]);
    assert(is_blank(middle[node as int]));
    assert forall|other: int| 0 <= other < after.len() && other != node implies #[trigger] after[other]
        == middle[other] by {
    }
    assert forall|other: int| 0 <= other < after.len() implies (#[trigger] after[other]).replay
        == middle[other].replay by {
    }
    assert(separate(plan, after)) by {
        assert forall|
            left: int,
            left_slot: int,
            right: int,
            right_slot: int,
            input: int,
            seat: usize,
        |
            #[trigger] owns(plan, after, left, left_slot, input, seat) && #[trigger] owns(
                plan,
                after,
                right,
                right_slot,
                input,
                seat,
            ) implies left == right && left_slot == right_slot by {
            if left != node && right != node {
                assert(owns(plan, middle, left, left_slot, input, seat));
                assert(owns(plan, middle, right, right_slot, input, seat));
            } else if left != node {
                lemma_old_reader_is_low(plan, before, middle, left, left_slot, input, seat, place);
                assert(fusion.readers@[right_slot] == seat);
            } else if right != node {
                lemma_old_reader_is_low(
                    plan,
                    before,
                    middle,
                    right,
                    right_slot,
                    input,
                    seat,
                    place,
                );
                assert(fusion.readers@[left_slot] == seat);
            } else {
                assert(fusion.readers@[left_slot] == seat);
                assert(fusion.readers@[right_slot] == seat);
                if left_slot < right_slot {
                    assert(fusion.readers@[left_slot] != fusion.readers@[right_slot]);
                } else if right_slot < left_slot {
                    assert(fusion.readers@[right_slot] != fusion.readers@[left_slot]);
                }
            }
        }
    }
    assert forall|at: int| 0 <= at < place + 1 implies has_shape(
        plan,
        after,
        #[trigger] plan.order()[at] as int,
    ) by {
        let other = plan.order()[at] as int;
        let feeds = inputs_of(plan.nodes()[other]);
        assert(is_fresh(middle[other].replay@));
        if at < place {
            assert(has_shape(plan, middle, other));
            assert(other != node);
            assert forall|slot: int| 0 <= slot < feeds.len() implies {
                &&& #[trigger] after[other].readers()[slot]
                    < after[feeds[slot] as int].replay@.readers.len()
                &&& after[other].session() is Some ==> after[feeds[slot] as int].seat(
                    after[other].readers()[slot],
                ) is Some
            } by {
                lemma_input_is_earlier(plan, other as usize, slot);
                assert(middle[other].readers()[slot]
                    < middle[feeds[slot] as int].replay@.readers.len());
                let _ = after[feeds[slot] as int];
            }
        } else {
            assert forall|slot: int| 0 <= slot < feeds.len() implies {
                &&& #[trigger] after[other].readers()[slot]
                    < after[feeds[slot] as int].replay@.readers.len()
                &&& after[feeds[slot] as int].seat(after[other].readers()[slot]) is Some
            } by {
                lemma_input_is_earlier(plan, other as usize, slot);
                assert(fusion.readers@[slot] < middle[inputs[slot] as int].replay@.readers.len());
                let _ = after[feeds[slot] as int];
                assert(is_fresh(middle[feeds[slot] as int].replay@));
            }
        }
    }
    assert forall|at: int| place + 1 <= at < plan.order().len() implies is_blank(
        after[#[trigger] plan.order()[at] as int],
    ) by {
        assert(is_blank(middle[plan.order()[at] as int]));
        assert(plan.order()[at] != node);
    }
    assert forall|other: int| 0 <= other < after.len() implies (
    #[trigger] after[other]).replay.wf() && is_fresh(after[other].replay@) by {
        let _ = middle[other];
    }
    assert forall|promise: Promise, at: int|
        #![trigger all.contains(promise), plan.order()[at]]
        all.contains(promise) && 0 <= at < place + 1 implies producer_agrees(
        plan,
        accumulate,
        after,
        promise,
        plan.order()[at] as int,
        0,
    ) by {
        let other = plan.order()[at] as int;
        let feeds = inputs_of(plan.nodes()[other]);
        if at < place {
            assert(has_shape(plan, middle, other));
            assert(producer_agrees(plan, accumulate, middle, promise, other, 0));
            assert(other != node);
            assert(after[other] == middle[other]);
            if middle[other].session() is Some {
                assert forall|slot: int| 0 <= slot < feeds.len() implies
                    after[feeds[slot] as int].seat(#[trigger] after[other].readers()[slot])
                    == middle[feeds[slot] as int].seat(middle[other].readers()[slot]) by {
                    lemma_input_is_earlier(plan, other as usize, slot);
                    let _ = after[feeds[slot] as int];
                }
            }
        } else {
            let view = fusion.session->0@;
            let rankings = input_outputs(promise.outputs, inputs);
            assert(can_become(view.fusion, rankings)) by {
                assert forall|source: int| 0 <= source < rankings.len() implies {
                    let history = view.fusion.histories[source];
                    &&& (#[trigger] rankings[source]).no_duplicates()
                    &&& rankings[source].len() <= usize::MAX
                    &&& history.len() <= rankings[source].len()
                    &&& history == rankings[source].take(history.len() as int)
                    &&& view.fusion.exhausted[source] ==> history == rankings[source]
                } by {
                    lemma_input_is_earlier(plan, node, source);
                    lemma_output_fits(plan, accumulate, promise, inputs[source]);
                    assert(rankings[source].take(0) =~= Seq::<ExtendedPointId>::empty());
                }
            }
            assert forall|slot: int| 0 <= slot < feeds.len() implies
                after[feeds[slot] as int].seat(#[trigger] after[other].readers()[slot]) == Some(
                view.fusion.histories[slot].len() as usize,
            ) by {
                lemma_input_is_earlier(plan, other as usize, slot);
                assert(fusion.readers@[slot] < middle[inputs[slot] as int].replay@.readers.len());
                let _ = after[feeds[slot] as int];
                assert(is_fresh(middle[feeds[slot] as int].replay@));
            }
        }
    }
}

/// The readers of nodes that were built before are lower than new ones.
proof fn lemma_old_reader_is_low<L: FallibleExactCompositionStream>(
    plan: &ExactCompositionPlan,
    before: Seq<RuntimeNode<L>>,
    middle: Seq<RuntimeNode<L>>,
    owner: int,
    slot: int,
    input: int,
    seat: usize,
    place: int,
)
    requires
        plan.wf(),
        0 <= place <= plan.order().len(),
        is_built(plan, before, place),
        only_subscribes(before, middle),
        owns(plan, middle, owner, slot, input, seat),
    ensures
        seat < before[input].replay@.readers.len(),
{
    lemma_every_node_is_placed(plan, owner as usize);
    let at = choose|at: int| 0 <= at < plan.order().len() && plan.order()[at] == owner;
    let _ = middle[owner];
    assert(middle[owner].readers() == before[owner].readers());
    if at < place {
        assert(has_shape(plan, before, plan.order()[at] as int));
        assert(before[owner].readers()[slot] < before[inputs_of(
            plan.nodes()[owner],
        )[slot] as int].replay@.readers.len());
    } else {
        assert(is_blank(before[plan.order()[at] as int]));
    }
}


/// One figure of the leading nodes, summed.
pub open spec fn summed(
    nodes: Seq<ExactCompositionNodeTelemetry>,
    figure: spec_fn(ExactCompositionNodeTelemetry) -> nat,
    upto: int,
) -> nat
    decreases upto,
{
    if upto <= 0 {
        0
    } else {
        summed(nodes, figure, upto - 1) + figure(nodes[upto - 1])
    }
}

/// What a leaf has produced.
pub open spec fn leaf_pulls() -> spec_fn(ExactCompositionNodeTelemetry) -> nat {
    |node: ExactCompositionNodeTelemetry|
        if node.kind == Some(ExactCompositionNodeKind::Leaf) {
            node.physical_output_pulls as nat
        } else {
            0
        }
}

/// What a fusion has produced.
pub open spec fn fusion_outputs() -> spec_fn(ExactCompositionNodeTelemetry) -> nat {
    |node: ExactCompositionNodeTelemetry| node.outputs_produced as nat
}

/// The most that a node has kept for its readers.
pub open spec fn replay_peaks() -> spec_fn(ExactCompositionNodeTelemetry) -> nat {
    |node: ExactCompositionNodeTelemetry| node.peak_replay_buffered_identities as nat
}

/// Whether a node was cancelled, as a number.
pub open spec fn cancellations() -> spec_fn(ExactCompositionNodeTelemetry) -> nat {
    |node: ExactCompositionNodeTelemetry|
        if node.cancelled {
            1
        } else {
            0
        }
}

/// Whether the report on a node fits the node's definition.
pub open spec fn reports_node(
    node: int,
    definition: ExactCompositionNode,
    report: ExactCompositionNodeTelemetry,
) -> bool {
    &&& report.node == node
    &&& match definition {
        ExactCompositionNode::Fusion { output_limit, .. } => {
            &&& report.kind == Some(ExactCompositionNodeKind::Fusion)
            &&& report.output_limit == output_limit
        },
        _ => {
            &&& report.kind == Some(ExactCompositionNodeKind::Leaf)
            &&& report.output_limit is None
            &&& report.logical_input_pulls@.len() == 0
            &&& report.outputs_produced == 0
            &&& report.certification_checks == 0
        },
    }
}

/// Whether the report on a node tells its state: what it has put out, the most that it has
/// kept, whether it was cancelled, and what its fusion has counted.
spec fn reports_state<L: FallibleExactCompositionStream>(
    node: RuntimeNode<L>,
    report: ExactCompositionNodeTelemetry,
) -> bool {
    &&& report.physical_output_pulls == node.replay@.produced.len()
    &&& report.peak_replay_buffered_identities == node.replay@.peak
    &&& report.cancelled == node.replay@.cancelled
    &&& node.producer matches Producer::Fusion(fusion) ==> {
        &&& report.outputs_produced == fusion.emitted
        &&& report.logical_input_pulls@ == fusion.logical_input_pulls@
        &&& report.certification_checks == fusion.certification_checks
    }
}

/// Whether the figures of an execution are those of its nodes. The most identities that
/// were kept at once are no more than the sum of what each node kept at most.
pub open spec fn reports_network(
    plan: &ExactCompositionPlan,
    execution: ExactCompositionExecution,
) -> bool {
    let nodes = execution.nodes@;
    let count = plan.nodes().len() as int;
    &&& nodes.len() == count
    &&& forall|node: int|
        0 <= node < count ==> reports_node(node, plan.nodes()[node], #[trigger] nodes[node])
    &&& execution.leaf_physical_pulls == counted(summed(nodes, leaf_pulls(), count))
    &&& execution.intermediate_outputs_produced == counted(summed(nodes, fusion_outputs(), count))
    &&& execution.sum_node_peak_replay_buffered_identities == counted(
        summed(nodes, replay_peaks(), count),
    )
    &&& execution.cancelled_nodes == counted(summed(nodes, cancellations(), count))
    &&& execution.peak_replay_buffered_identities
        <= execution.sum_node_peak_replay_buffered_identities
}

impl<L: FallibleExactCompositionStream> CompositionRuntime<L> {
    /// Reports the work of a network.
    fn report(&self, plan: &ExactCompositionPlan, point_ids: Vec<ExtendedPointId>) -> (execution:
        ExactCompositionExecution)
        requires
            self.wf(plan),
        ensures
            execution.point_ids == point_ids,
            reports_network(plan, execution),
            forall|node: int|
                0 <= node < self.nodes@.len() ==> reports_state(
                    self.nodes@[node],
                    #[trigger] execution.nodes@[node],
                ),
    {
        let mut nodes: Vec<ExactCompositionNodeTelemetry> = Vec::new();
        let mut leaf_physical_pulls: usize = 0;
        let mut intermediate_outputs_produced: usize = 0;
        let mut sum_of_peaks: usize = 0;
        let mut cancelled_nodes: usize = 0;
        let mut node: usize = 0;
        while node < self.nodes.len()
            invariant
                self.wf(plan),
                node <= self.nodes@.len(),
                nodes@.len() == node,
                forall|i: int|
                    0 <= i < node ==> reports_node(i, plan.nodes()[i], #[trigger] nodes@[i])
                        && reports_state(self.nodes@[i], nodes@[i]),
                summed(nodes@, replay_peaks(), node as int) == total_peaks(
                    self.nodes@.take(node as int),
                ),
                leaf_physical_pulls == counted(summed(nodes@, leaf_pulls(), node as int)),
                intermediate_outputs_produced == counted(
                    summed(nodes@, fusion_outputs(), node as int),
                ),
                sum_of_peaks == counted(summed(nodes@, replay_peaks(), node as int)),
                cancelled_nodes == counted(summed(nodes@, cancellations(), node as int)),
            decreases self.nodes@.len() - node,
        {
            let ghost before = nodes@;
            proof {
                assert(has_shape(plan, self.nodes@, node as int));
                self.nodes@[node as int].replay.lemma_valid();
                let longer = self.nodes@.take(node + 1);
                assert(longer.drop_last() =~= self.nodes@.take(node as int));
            }
            let shared = self.nodes[node].replay.telemetry();
            let report = match &self.nodes[node].producer {
                Producer::Leaf(_) => {
                    leaf_physical_pulls = leaf_physical_pulls.saturating_add(shared.physical_pulls);
                    ExactCompositionNodeTelemetry {
                        node,
                        kind: Some(ExactCompositionNodeKind::Leaf),
                        output_limit: None,
                        logical_input_pulls: Vec::new(),
                        physical_output_pulls: shared.physical_pulls,
                        outputs_produced: 0,
                        certification_checks: 0,
                        peak_replay_buffered_identities: shared.peak_buffered_identities,
                        cancelled: shared.cancelled,
                    }
                },
                Producer::Fusion(fusion) => {
                    intermediate_outputs_produced =
                    intermediate_outputs_produced.saturating_add(fusion.emitted);
                    ExactCompositionNodeTelemetry {
                        node,
                        kind: Some(ExactCompositionNodeKind::Fusion),
                        output_limit: fusion.output_limit,
                        logical_input_pulls: copied(&fusion.logical_input_pulls),
                        physical_output_pulls: shared.physical_pulls,
                        outputs_produced: fusion.emitted,
                        certification_checks: fusion.certification_checks,
                        peak_replay_buffered_identities: shared.peak_buffered_identities,
                        cancelled: shared.cancelled,
                    }
                },
            };
            sum_of_peaks = sum_of_peaks.saturating_add(shared.peak_buffered_identities);
            if shared.cancelled {
                cancelled_nodes = cancelled_nodes.saturating_add(1);
            }
            nodes.push(report);
            proof {
                lemma_summed_frame(before, nodes@, leaf_pulls(), node as int);
                lemma_summed_frame(before, nodes@, fusion_outputs(), node as int);
                lemma_summed_frame(before, nodes@, replay_peaks(), node as int);
                lemma_summed_frame(before, nodes@, cancellations(), node as int);
            }
            node += 1;
        }
        assert(self.nodes@.take(node as int) =~= self.nodes@);
        ExactCompositionExecution {
            point_ids,
            nodes,
            leaf_physical_pulls,
            intermediate_outputs_produced,
            peak_replay_buffered_identities: self.memory.peak_identities(),
            sum_node_peak_replay_buffered_identities: sum_of_peaks,
            cancelled_nodes,
        }
    }
}

proof fn lemma_summed_frame(
    before: Seq<ExactCompositionNodeTelemetry>,
    after: Seq<ExactCompositionNodeTelemetry>,
    figure: spec_fn(ExactCompositionNodeTelemetry) -> nat,
    upto: int,
)
    requires
        0 <= upto <= before.len(),
        upto <= after.len(),
        forall|i: int| 0 <= i < upto ==> before[i] == after[i],
    ensures
        summed(before, figure, upto) == summed(after, figure, upto),
    decreases upto,
{
    if upto > 0 {
        lemma_summed_frame(before, after, figure, upto - 1);
    }
}

/// Whether the figures that are reported of the nodes are those of their logs: as many
/// pulls, and outputs of a fusion, as identities were put out, the pulls and checks that the
/// session of a fusion has counted, and no cancellation of a node that has ended by itself.
pub open spec fn counts_pulls<
    F: Fn(i64, usize, usize, i64) -> i64,
    P: Fn(usize, usize, i64, usize, i64) -> i64,
>(
    plan: &ExactCompositionPlan,
    policy: DynamicRrfPolicy,
    accumulate: F,
    priority: P,
    logs: Seq<NodeLog>,
    execution: ExactCompositionExecution,
) -> bool {
    forall|node: int|
        0 <= node < logs.len() ==> {
            let report = #[trigger] execution.nodes@[node];
            &&& report.physical_output_pulls == logs[node].outputs.len()
            &&& report.kind == Some(ExactCompositionNodeKind::Fusion) ==> {
                &&& report.outputs_produced == logs[node].outputs.len()
                &&& fusion_counts(
                    first_session(plan.nodes()[node], policy),
                    input_logs(logs, inputs_of(plan.nodes()[node])),
                    accumulate,
                    priority,
                    logs[node],
                    report.logical_input_pulls@,
                    report.certification_checks,
                )
            }
            &&& report.cancelled ==> !logs[node].ended
        }
}

/// The identities that an execution returns, or its error.
pub open spec fn returned_ids(
    result: Result<ExactCompositionExecution, ExactCompositionError>,
) -> Result<Seq<ExtendedPointId>, ExactCompositionError> {
    match result {
        Ok(execution) => Ok(execution.point_ids@),
        Err(error) => Err(error),
    }
}

/// Whether what the nodes of an execution that can begin have put out accounts for what it
/// returns, output by output, and is what it counts as pulls. A root that no fusion reads is
/// cancelled where it has not come to its end.
pub open spec fn runs_on_demand<
    L: FallibleExactCompositionStream,
    F: Fn(i64, usize, usize, i64) -> i64,
    P: Fn(usize, usize, i64, usize, i64) -> i64,
>(
    plan: &ExactCompositionPlan,
    root_top_k: usize,
    leaf_streams: Seq<Option<L>>,
    policy: DynamicRrfPolicy,
    accumulate: F,
    priority: P,
    result: Result<ExactCompositionExecution, ExactCompositionError>,
) -> bool {
    root_top_k > 0 && streams_fit(plan.nodes(), leaf_streams) && builds_fault(
        plan.nodes(),
        plan.order(),
        leaf_streams,
        policy,
        plan.order().len() as int,
    ) is None ==> exists|logs: Seq<NodeLog>|
        {
            &&& #[trigger] accounts_for(
                plan,
                root_top_k,
                leaf_streams,
                policy,
                accumulate,
                priority,
                logs,
                returned_ids(result),
            )
            &&& result matches Ok(execution) ==> {
                &&& counts_pulls(plan, policy, accumulate, priority, logs, execution)
                &&& !is_read(plan.nodes(), plan.root() as int)
                    ==> execution.nodes@[plan.root() as int].cancelled
                    == !logs[plan.root() as int].ended
            }
        }
}

/// Right logs of all nodes.
proof fn lemma_accounts<
    L: FallibleExactCompositionStream,
    F: Fn(i64, usize, usize, i64) -> i64,
    P: Fn(usize, usize, i64, usize, i64) -> i64,
>(
    plan: &ExactCompositionPlan,
    origin: NetworkOrigin,
    nodes: Seq<RuntimeNode<L>>,
    accumulate: F,
    priority: P,
)
    requires
        plan.wf(),
        nodes.len() == plan.nodes().len(),
        nodes.len() <= usize::MAX,
        logged_below(plan, origin, nodes, accumulate, priority, plan.order().len() as int),
    ensures
        forall|node: int|
            0 <= node < nodes.len() ==> is_logged(
                plan,
                origin,
                logs_of(nodes),
                accumulate,
                priority,
                node,
                #[trigger] logs_of(nodes)[node],
            ),
{
    assert forall|node: int| 0 <= node < nodes.len() implies is_logged(
        plan,
        origin,
        logs_of(nodes),
        accumulate,
        priority,
        node,
        #[trigger] logs_of(nodes)[node],
    ) by {
        lemma_every_node_is_placed(plan, node as usize);
        assert(is_logged(
            plan,
            origin,
            logs_of(nodes),
            accumulate,
            priority,
            node,
            log_of(nodes[node]),
        ));
    }
}

/// What executing a network returns: the fault of the request, where it has one;
/// and where the leaf streams yield rankings and never fail, the first identities
/// of the root's complete output. Demand-driven execution and full
/// materialization thus agree, under every policy. Where a leaf breaks off, the
/// execution ends with the error of such a leaf, or with identities that are the
/// first ones whatever the leaf would have yielded further.
pub open spec fn executes<
    L: FallibleExactCompositionStream,
    F: Fn(i64, usize, usize, i64) -> i64,
>(
    plan: &ExactCompositionPlan,
    root_top_k: usize,
    leaf_streams: Seq<Option<L>>,
    policy: DynamicRrfPolicy,
    accumulate: F,
    result: Result<ExactCompositionExecution, ExactCompositionError>,
) -> bool {
    if root_top_k == 0 {
        result == Err::<ExactCompositionExecution, ExactCompositionError>(
            ExactCompositionError::InvalidRequestedTopK,
        )
    } else if !streams_fit(plan.nodes(), leaf_streams) {
        result == Err::<ExactCompositionExecution, ExactCompositionError>(
            ExactCompositionError::InvalidLeafStreams,
        )
    } else {
        match builds_fault(
            plan.nodes(),
            plan.order(),
            leaf_streams,
            policy,
            plan.order().len() as int,
        ) {
            Some(error) => result == Err::<ExactCompositionExecution, ExactCompositionError>(error),
            None => {
                &&& result matches Ok(execution) ==> {
                    &&& reports_network(plan, execution)
                    &&& execution.point_ids@.len() <= root_top_k
                    &&& execution.nodes@[plan.root() as int].physical_output_pulls
                        == execution.point_ids@.len()
                }
                &&& valid_policy(policy) ==> forall|
                    leaves: Seq<Option<Seq<ExtendedPointId>>>,
                    arithmetic: spec_fn(i64, usize, usize, i64) -> i64,
                    outputs: Seq<Seq<ExtendedPointId>>,
                |
                    leaves_yield(leaf_streams, leaves) && computes(accumulate, arithmetic)
                        && is_rank_arithmetic(arithmetic) && #[trigger] are_outputs(
                        plan.nodes(),
                        leaves,
                        arithmetic,
                        outputs,
                    ) ==> {
                        &&& result matches Ok(execution)
                        &&& execution.point_ids@ == first_of(
                            outputs[plan.root() as int],
                            root_top_k,
                        )
                    }
                &&& valid_policy(policy) ==> forall|
                    leaves: Seq<Option<Seq<ExtendedPointId>>>,
                    arithmetic: spec_fn(i64, usize, usize, i64) -> i64,
                    outputs: Seq<Seq<ExtendedPointId>>,
                |
                    leaves_begin(leaf_streams, leaves) && computes(accumulate, arithmetic)
                        && is_rank_arithmetic(arithmetic) && #[trigger] are_outputs(
                        plan.nodes(),
                        leaves,
                        arithmetic,
                        outputs,
                    ) ==> match result {
                        Ok(execution) => execution.point_ids@ == first_of(
                            outputs[plan.root() as int],
                            root_top_k,
                        ),
                        Err(error) => exists|node: int| #[trigger]
                            leaf_breaks_off(leaf_streams, leaves, node, error),
                    }
            },
        }
    }
}

impl ExactCompositionPlan {
    /// Executes a network whose leaves are held by the plan.
    pub fn execute<
        F: Fn(i64, usize, usize, i64) -> i64,
        P: Fn(usize, usize, i64, usize, i64) -> i64,
    >(&self, root_top_k: usize, accumulate: &F, priority: &P) -> (result: Result<
        ExactCompositionExecution,
        ExactCompositionError,
    >)
        requires
            self.wf(),
            accepts(*accumulate),
            accepts_priority(*priority),
        ensures
            executes(
                self,
                root_top_k,
                no_streams(self.nodes().len()),
                default_policy(),
                *accumulate,
                result,
            ),
            runs_on_demand(
                self,
                root_top_k,
                no_streams(self.nodes().len()),
                default_policy(),
                *accumulate,
                *priority,
                result,
            ),
    {
        self.execute_with_policy(
            root_top_k,
            ExactCompositionExecutionPolicy::default(),
            accumulate,
            priority,
        )
    }

    /// Executes a network whose leaves are held by the plan.
    pub fn execute_with_policy<
        F: Fn(i64, usize, usize, i64) -> i64,
        P: Fn(usize, usize, i64, usize, i64) -> i64,
    >(
        &self,
        root_top_k: usize,
        policy: ExactCompositionExecutionPolicy,
        accumulate: &F,
        priority: &P,
    ) -> (result: Result<ExactCompositionExecution, ExactCompositionError>)
        requires
            self.wf(),
            accepts(*accumulate),
            accepts_priority(*priority),
        ensures
            executes(
                self,
                root_top_k,
                no_streams(self.nodes().len()),
                policy.fusion_policy,
                *accumulate,
                result,
            ),
            runs_on_demand(
                self,
                root_top_k,
                no_streams(self.nodes().len()),
                policy.fusion_policy,
                *accumulate,
                *priority,
                result,
            ),
    {
        let mut leaf_streams: Vec<Option<IdStream>> = Vec::new();
        while leaf_streams.len() < self.node_count()
            invariant
                leaf_streams@.len() <= self.nodes().len(),
                forall|node: int|
                    0 <= node < leaf_streams@.len() ==> (#[trigger] leaf_streams@[node]) is None,
            decreases self.nodes().len() - leaf_streams@.len(),
        {
            leaf_streams.push(None);
        }
        assert(leaf_streams@ =~= no_streams(self.nodes().len()));
        self.execute_with_fallible_leaf_streams_and_policy(
            root_top_k,
            leaf_streams,
            policy,
            accumulate,
            priority,
        )
    }

    /// Executes a network with supplied leaf streams.
    pub fn execute_with_fallible_leaf_streams<
        L: FallibleExactCompositionStream,
        F: Fn(i64, usize, usize, i64) -> i64,
        P: Fn(usize, usize, i64, usize, i64) -> i64,
    >(
        &self,
        root_top_k: usize,
        leaf_streams: Vec<Option<L>>,
        accumulate: &F,
        priority: &P,
    ) -> (result: Result<ExactCompositionExecution, ExactCompositionError>)
        requires
            self.wf(),
            accepts(*accumulate),
            accepts_priority(*priority),
        ensures
            executes(
                self,
                root_top_k,
                leaf_streams@,
                default_policy(),
                *accumulate,
                result,
            ),
            runs_on_demand(
                self,
                root_top_k,
                leaf_streams@,
                default_policy(),
                *accumulate,
                *priority,
                result,
            ),
    {
        self.execute_with_fallible_leaf_streams_and_policy(
            root_top_k,
            leaf_streams,
            ExactCompositionExecutionPolicy::default(),
            accumulate,
            priority,
        )
    }

    /// Executes a network with supplied leaf streams. A leaf without a supplied
    /// stream uses the order that the plan holds for it.
    pub fn execute_with_fallible_leaf_streams_and_policy<
        L: FallibleExactCompositionStream,
        F: Fn(i64, usize, usize, i64) -> i64,
        P: Fn(usize, usize, i64, usize, i64) -> i64,
    >(
        &self,
        root_top_k: usize,
        leaf_streams: Vec<Option<L>>,
        policy: ExactCompositionExecutionPolicy,
        accumulate: &F,
        priority: &P,
    ) -> (result: Result<ExactCompositionExecution, ExactCompositionError>)
        requires
            self.wf(),
            accepts(*accumulate),
            accepts_priority(*priority),
        ensures
            executes(
                self,
                root_top_k,
                leaf_streams@,
                policy.fusion_policy,
                *accumulate,
                result,
            ),
            runs_on_demand(
                self,
                root_top_k,
                leaf_streams@,
                policy.fusion_policy,
                *accumulate,
                *priority,
                result,
            ),
    {
        if root_top_k == 0 {
            return Err(ExactCompositionError::InvalidRequestedTopK);
        }
        if !are_streams_fit(self, &leaf_streams) {
            return Err(ExactCompositionError::InvalidLeafStreams);
        }
        let ghost given = leaf_streams@;
        let ghost all = promised_outputs(self, given, policy.fusion_policy, *accumulate);
        let ghost origin = network_origin(self.nodes(), given, policy.fusion_policy);
        let root: usize = self.root_node();
        proof {
            assert forall|promise: Promise| #[trigger]
                all.contains(promise) implies sound_outputs(self, *accumulate, promise)
                && leaves_complete(self, given, promise) by {
                lemma_promise(self, given, policy.fusion_policy, *accumulate, promise);
            }
            if !valid_policy(policy.fusion_policy) {
                assert(all =~= Set::<Promise>::empty());
            }
        }
        let mut runtime = match CompositionRuntime::build(
            self,
            leaf_streams,
            policy.fusion_policy,
            accumulate,
            Ghost(all),
        ) {
            Ok(runtime) => runtime,
            Err(error) => {
                return Err(error);
            },
        };
        let ghost built = runtime.nodes@;
        proof {
            assert(has_shape(self, runtime.nodes@, root as int));
            assert(is_fresh(built[root as int].replay@));
        }
        let reader: usize = runtime.nodes[root].replay.subscribe();
        proof {
            lemma_root_subscribed(self, *accumulate, built, runtime.nodes@, all, reader);
            lemma_fresh_total(built);
            lemma_fresh_total(runtime.nodes@);
            assert(runtime.nodes.len() <= usize::MAX);
            assert forall|at: int| 0 <= at < self.order().len() implies is_started(
                self,
                origin,
                runtime.nodes@,
                #[trigger] self.order()[at] as int,
            ) by {
                assert(is_started(self, origin, built, self.order()[at] as int));
                let node = self.order()[at] as int;
                assert(runtime.nodes@[node].producer == built[node].producer);
            }
            assert forall|node: int| 0 <= node < runtime.nodes@.len() implies #[trigger] has_shape(
                self,
                runtime.nodes@,
                node,
            ) by {
                let _ = runtime.nodes@[node];
            }
            lemma_started_is_held(
                self,
                origin,
                runtime.nodes@,
                *accumulate,
                *priority,
                self.order().len() as int,
            );
            assert forall|node: int| 0 <= node < runtime.nodes@.len() implies has_shape(
                self,
                #[trigger] runtime.nodes@,
                node,
            ) by {
                let _ = runtime.nodes@[node];
            }
        }
        let mut point_ids: Vec<ExtendedPointId> = Vec::new();
        let mut ended = false;
        while point_ids.len() < root_top_k && !ended
            invariant
                self.wf(),
                accepts(*accumulate),
                accepts_priority(*priority),
                root == self.root(),
                runtime.wf(self),
                reader < runtime.nodes@[root as int].replay@.readers.len(),
                runtime.nodes@[root as int].seat(reader) is Some,
                !is_read(self.nodes(), root as int)
                    ==> runtime.nodes@[root as int].replay@.readers.len() == 1,
                forall|owner: int, slot: int|
                    !#[trigger] owns(
                        self,
                        runtime.nodes@,
                        owner,
                        slot,
                        root as int,
                        reader,
                    ),
                runtime.agree(self, *accumulate, all, place_of(self, root) + 1),
                root_top_k > 0,
                streams_fit(self.nodes(), given),
                builds_fault(
                    self.nodes(),
                    self.order(),
                    given,
                    policy.fusion_policy,
                    self.order().len() as int,
                ) is None,
                given == leaf_streams@,
                all == promised_outputs(self, given, policy.fusion_policy, *accumulate),
                point_ids@.len() <= root_top_k,
                origin == network_origin(self.nodes(), given, policy.fusion_policy),
                held_below(
                    self,
                    origin,
                    runtime.nodes@,
                    *accumulate,
                    *priority,
                    self.order().len() as int,
                ),
                ended ==> log_of(runtime.nodes@[root as int]).ended,
                runtime.nodes@[root as int].replay@.produced == point_ids@,
                runtime.nodes@[root as int].seat(reader) == Some(point_ids@.len() as usize),
                forall|promise: Promise| #[trigger]
                    all.contains(promise) ==> {
                        let output = promise.outputs[root as int];
                        &&& runtime.nodes@[root as int].seat(reader) == Some(
                            point_ids@.len() as usize,
                        )
                        &&& point_ids@.len() <= output.len()
                        &&& point_ids@ == output.take(point_ids@.len() as int)
                        &&& ended ==> point_ids@.len() == output.len()
                    },
            decreases root_top_k - point_ids@.len(), (if ended { 0int } else { 1int }),
        {
            let ghost nodes = runtime.nodes@;
            let ghost listed = point_ids@;
            let ghost earlier = runtime;
            proof {
                runtime.lemma_shapes(self);
                lemma_every_node_is_placed(self, root);
            }
            match runtime.read(
                self,
                root,
                reader,
                accumulate,
                priority,
                Ghost(all),
                Ghost(origin),
            ) {
                Ok(Some(id)) => {
                    point_ids.push(id);
                    proof {
                        assert forall|promise: Promise| #[trigger]
                            all.contains(promise) implies point_ids@
                            == promise.outputs[root as int].take(point_ids@.len() as int)
                            && listed.len() < promise.outputs[root as int].len() by {
                            let output = promise.outputs[root as int];
                            assert(listed == output.take(listed.len() as int));
                            assert(listed.len() < output.len());
                            assert(point_ids@ =~= output.take(point_ids@.len() as int));
                        }
                    }
                },
                Ok(None) => {
                    ended = true;
                },
                Err(error) => {
                    proof {
                        lemma_others_stay_logged(
                            self,
                            origin,
                            nodes,
                            runtime.nodes@,
                            *accumulate,
                            *priority,
                            root,
                            reader,
                            self.order().len() as int,
                        );
                        lemma_accounts(
                            self,
                            origin,
                            runtime.nodes@,
                            *accumulate,
                            *priority,
                        );
                        assert(logs_of(nodes)[root as int].grows_to(
                            logs_of(runtime.nodes@)[root as int],
                        ));
                        assert(logs_of(runtime.nodes@)[root as int].outputs.len()
                            <= listed.len());
                        assert(accounts_for(
                            self,
                            root_top_k,
                            given,
                            policy.fusion_policy,
                            *accumulate,
                            *priority,
                            logs_of(runtime.nodes@),
                            Err(error),
                        ));
                        lemma_execution_ends(
                            self,
                            root_top_k,
                            given,
                            policy.fusion_policy,
                            *accumulate,
                            Err::<ExactCompositionExecution, ExactCompositionError>(error),
                        );
                    }
                    return Err(error);
                },
            }
            proof {
                lemma_beneath_keeps_owners(self, nodes, runtime.nodes@, root, reader as int);
                let _ = runtime.nodes@[root as int];
                lemma_others_stay_held(
                    self,
                    origin,
                    nodes,
                    runtime.nodes@,
                    *accumulate,
                    *priority,
                    root,
                    reader,
                    self.order().len() as int,
                );
            }
        }
        let ghost reached = runtime;
        runtime.leave(self, root, reader, accumulate, Ghost(all));
        let execution = runtime.report(self, point_ids);
        proof {
            reached.lemma_shapes(self);
            runtime.lemma_shapes(self);
            lemma_leaving_holds(
                self,
                origin,
                reached.nodes@,
                runtime.nodes@,
                *accumulate,
                *priority,
                -1,
                root as int,
                reader as int,
                self.order().len() as int,
            );
            lemma_held_is_logged(
                self,
                origin,
                runtime.nodes@,
                *accumulate,
                *priority,
                self.order().len() as int,
            );
            lemma_accounts(self, origin, runtime.nodes@, *accumulate, *priority);
            assert(logs_of(runtime.nodes@)[root as int] == log_of(reached.nodes@[root as int]));
            if !is_read(self.nodes(), root as int) {
                let seats = reached.nodes@[root as int].replay@.readers.update(reader as int, None);
                assert(all_left(seats));
                assert(has_shape(self, reached.nodes@, root as int));
                assert(execution.nodes@[root as int].cancelled
                    == runtime.nodes@[root as int].replay@.cancelled);
            }
            assert(accounts_for(
                self,
                root_top_k,
                given,
                policy.fusion_policy,
                *accumulate,
                *priority,
                logs_of(runtime.nodes@),
                Ok(execution.point_ids@),
            ));
            assert(counts_pulls(
                self,
                policy.fusion_policy,
                *accumulate,
                *priority,
                logs_of(runtime.nodes@),
                execution,
            )) by {
                reveal(is_held);
                assert forall|node: int| 0 <= node < logs_of(runtime.nodes@).len() implies {
                    let report = #[trigger] execution.nodes@[node];
                    let log = logs_of(runtime.nodes@)[node];
                    &&& report.physical_output_pulls == log.outputs.len()
                    &&& report.kind == Some(ExactCompositionNodeKind::Fusion) ==> {
                        &&& report.outputs_produced == log.outputs.len()
                        &&& fusion_counts(
                            first_session(self.nodes()[node], policy.fusion_policy),
                            input_logs(logs_of(runtime.nodes@), inputs_of(self.nodes()[node])),
                            *accumulate,
                            *priority,
                            log,
                            report.logical_input_pulls@,
                            report.certification_checks,
                        )
                    }
                    &&& report.cancelled ==> !log.ended
                } by {
                    lemma_every_node_is_placed(self, node as usize);
                    assert(is_held(
                        self,
                        origin,
                        runtime.nodes@,
                        *accumulate,
                        *priority,
                        node,
                        log_of(runtime.nodes@[node]),
                    ));
                    assert(has_shape(self, runtime.nodes@, node));
                }
            }
            assert forall|promise: Promise| #[trigger]
                all.contains(promise) implies execution.point_ids@ == first_of(
                promise.outputs[root as int],
                root_top_k,
            ) by {
                let output = promise.outputs[root as int];
                if point_ids@.len() == output.len() {
                    assert(output.take(point_ids@.len() as int) =~= output);
                    if root_top_k <= output.len() {
                        assert(output.take(root_top_k as int) =~= output);
                    }
                }
            }
            lemma_execution_ends(
                self,
                root_top_k,
                given,
                policy.fusion_policy,
                *accumulate,
                Ok::<ExactCompositionExecution, ExactCompositionError>(execution),
            );
        }
        Ok(execution)
    }
}

/// Whether the supplied streams yield the given leaf rankings, or break off with the
/// given failures.
spec fn leaves_follow<L: FallibleExactCompositionStream>(
    streams: Seq<Option<L>>,
    leaves: Seq<Option<Seq<ExtendedPointId>>>,
    failures: Seq<Option<ExactCompositionError>>,
) -> bool {
    &&& leaves.len() == streams.len()
    &&& failures.len() == streams.len()
    &&& forall|node: int|
        0 <= node < streams.len() ==> match #[trigger] streams[node] {
            Some(stream) => leaves[node] matches Some(ranking) && continues(
                node as usize,
                stream.rest(),
                stream.failing(),
                ranking,
                0,
                failures[node],
            ),
            None => leaves[node] is None && failures[node] is None,
        }
}

/// What an execution promises to follow.
spec fn promised_outputs<
    L: FallibleExactCompositionStream,
    F: Fn(i64, usize, usize, i64) -> i64,
>(
    plan: &ExactCompositionPlan,
    streams: Seq<Option<L>>,
    policy: DynamicRrfPolicy,
    accumulate: F,
) -> Set<Promise> {
    Set::new(
        |promise: Promise|
            valid_policy(policy) && exists|
                leaves: Seq<Option<Seq<ExtendedPointId>>>,
                arithmetic: spec_fn(i64, usize, usize, i64) -> i64,
            |
                leaves_follow(streams, leaves, promise.failures) && computes(accumulate, arithmetic)
                    && is_rank_arithmetic(arithmetic) && #[trigger] are_outputs(
                    plan.nodes(),
                    leaves,
                    arithmetic,
                    promise.outputs,
                ),
    )
}

/// What is promised follows from the streams.
proof fn lemma_promise<L: FallibleExactCompositionStream, F: Fn(i64, usize, usize, i64) -> i64>(
    plan: &ExactCompositionPlan,
    streams: Seq<Option<L>>,
    policy: DynamicRrfPolicy,
    accumulate: F,
    promise: Promise,
)
    requires
        plan.wf(),
        streams_fit(plan.nodes(), streams),
        promised_outputs(plan, streams, policy, accumulate).contains(promise),
    ensures
        sound_outputs(plan, accumulate, promise),
        leaves_complete(plan, streams, promise),
{
    let (leaves, arithmetic) = choose|
        leaves: Seq<Option<Seq<ExtendedPointId>>>,
        arithmetic: spec_fn(i64, usize, usize, i64) -> i64,
    |
        leaves_follow(streams, leaves, promise.failures) && computes(accumulate, arithmetic)
            && is_rank_arithmetic(arithmetic) && #[trigger] are_outputs(
            plan.nodes(),
            leaves,
            arithmetic,
            promise.outputs,
        );
    assert forall|node: int| 0 <= node < plan.nodes().len() implies leaf_completes(
        node as usize,
        plan.nodes()[node],
        #[trigger] streams[node],
        promise.outputs[node],
        promise.failures[node],
    ) by {
        assert(is_output(
            plan.nodes()[node],
            leaves[node],
            arithmetic,
            promise.outputs,
            promise.outputs[node],
        ));
    }
}

/// The failure with which the stream of a leaf leaves a ranking, where it does.
spec fn failure_of<L: FallibleExactCompositionStream>(
    streams: Seq<Option<L>>,
    leaves: Seq<Option<Seq<ExtendedPointId>>>,
    node: int,
) -> Option<ExactCompositionError> {
    match streams[node] {
        Some(stream) if stream.rest() != leaves[node] => Some(
            choose|error: ExactCompositionError| #[trigger]
                leaf_breaks_off(streams, leaves, node, error),
        ),
        _ => None,
    }
}

/// Whatever the streams can lead to is promised, with failures only where a stream
/// breaks off.
proof fn lemma_promised_to_all<
    L: FallibleExactCompositionStream,
    F: Fn(i64, usize, usize, i64) -> i64,
>(
    plan: &ExactCompositionPlan,
    streams: Seq<Option<L>>,
    policy: DynamicRrfPolicy,
    accumulate: F,
    leaves: Seq<Option<Seq<ExtendedPointId>>>,
    arithmetic: spec_fn(i64, usize, usize, i64) -> i64,
    outputs: Seq<Seq<ExtendedPointId>>,
) -> (promise: Promise)
    requires
        valid_policy(policy),
        leaves_begin(streams, leaves),
        computes(accumulate, arithmetic),
        is_rank_arithmetic(arithmetic),
        are_outputs(plan.nodes(), leaves, arithmetic, outputs),
    ensures
        promised_outputs(plan, streams, policy, accumulate).contains(promise),
        promise.outputs == outputs,
        forall|error: ExactCompositionError|
            is_promised(promise, error) ==> exists|node: int| #[trigger]
                leaf_breaks_off(streams, leaves, node, error),
        leaves_yield(streams, leaves) ==> forall|error: ExactCompositionError|
            !is_promised(promise, error),
{
    let failures = Seq::new(streams.len(), |node: int| failure_of(streams, leaves, node));
    let promise = Promise { outputs, failures };
    assert forall|node: int| 0 <= node < streams.len() implies match #[trigger] streams[node] {
        Some(stream) => leaves[node] matches Some(ranking) && continues(
            node as usize,
            stream.rest(),
            stream.failing(),
            ranking,
            0,
            failures[node],
        ),
        None => leaves[node] is None && failures[node] is None,
    } by {
        if streams[node] is Some {
            let ranking = leaves[node]->0;
            if streams[node].unwrap().rest() == leaves[node] {
                assert(ranking.skip(0) =~= ranking);
            } else {
                assert(exists|error: ExactCompositionError| #[trigger]
                    leaf_breaks_off(streams, leaves, node, error));
            }
        }
    }
    assert(leaves_follow(streams, leaves, promise.failures) && computes(accumulate, arithmetic)
        && is_rank_arithmetic(arithmetic) && are_outputs(
        plan.nodes(),
        leaves,
        arithmetic,
        promise.outputs,
    ));
    assert forall|error: ExactCompositionError| is_promised(promise, error) implies exists|
        node: int,
    | #[trigger] leaf_breaks_off(streams, leaves, node, error) by {
        let node = choose|node: int|
            0 <= node < promise.failures.len() && #[trigger] promise.failures[node] == Some(error);
        let _ = streams[node];
        assert(leaf_breaks_off(streams, leaves, node, error));
    }
    if leaves_yield(streams, leaves) {
        assert forall|error: ExactCompositionError| !is_promised(promise, error) by {
            if is_promised(promise, error) {
                let node = choose|node: int|
                    0 <= node < promise.failures.len() && #[trigger] promise.failures[node]
                        == Some(error);
                let _ = streams[node];
            }
        }
    }
    promise
}

/// What yields its rankings also begins with them.
proof fn lemma_yielding_begins<L: FallibleExactCompositionStream>(
    streams: Seq<Option<L>>,
    leaves: Seq<Option<Seq<ExtendedPointId>>>,
)
    requires
        leaves_yield(streams, leaves),
    ensures
        leaves_begin(streams, leaves),
{
}

/// An execution that keeps every promise returns what its leaves lead to.
proof fn lemma_execution_ends<
    L: FallibleExactCompositionStream,
    F: Fn(i64, usize, usize, i64) -> i64,
>(
    plan: &ExactCompositionPlan,
    root_top_k: usize,
    streams: Seq<Option<L>>,
    policy: DynamicRrfPolicy,
    accumulate: F,
    result: Result<ExactCompositionExecution, ExactCompositionError>,
)
    requires
        root_top_k > 0,
        streams_fit(plan.nodes(), streams),
        builds_fault(
            plan.nodes(),
            plan.order(),
            streams,
            policy,
            plan.order().len() as int,
        ) is None,
        result matches Ok(execution) ==> reports_network(plan, execution)
            && execution.point_ids@.len() <= root_top_k
            && execution.nodes@[plan.root() as int].physical_output_pulls
            == execution.point_ids@.len(),
        forall|promise: Promise| #[trigger]
            promised_outputs(plan, streams, policy, accumulate).contains(promise) ==> match result {
                Ok(execution) => execution.point_ids@ == first_of(
                    promise.outputs[plan.root() as int],
                    root_top_k,
                ),
                Err(error) => is_promised(promise, error),
            },
    ensures
        executes(plan, root_top_k, streams, policy, accumulate, result),
{
    if valid_policy(policy) {
        assert forall|
            leaves: Seq<Option<Seq<ExtendedPointId>>>,
            arithmetic: spec_fn(i64, usize, usize, i64) -> i64,
            outputs: Seq<Seq<ExtendedPointId>>,
        |
            leaves_begin(streams, leaves) && computes(accumulate, arithmetic)
                && is_rank_arithmetic(arithmetic) && #[trigger] are_outputs(
                plan.nodes(),
                leaves,
                arithmetic,
                outputs,
            ) implies match result {
            Ok(execution) => execution.point_ids@ == first_of(
                outputs[plan.root() as int],
                root_top_k,
            ),
            Err(error) => !leaves_yield(streams, leaves) && exists|node: int| #[trigger]
                leaf_breaks_off(streams, leaves, node, error),
        } by {
            let promise = lemma_promised_to_all(
                plan,
                streams,
                policy,
                accumulate,
                leaves,
                arithmetic,
                outputs,
            );
        }
        assert forall|
            leaves: Seq<Option<Seq<ExtendedPointId>>>,
            arithmetic: spec_fn(i64, usize, usize, i64) -> i64,
            outputs: Seq<Seq<ExtendedPointId>>,
        |
            leaves_yield(streams, leaves) && computes(accumulate, arithmetic)
                && is_rank_arithmetic(arithmetic) && #[trigger] are_outputs(
                plan.nodes(),
                leaves,
                arithmetic,
                outputs,
            ) implies {
            &&& result matches Ok(execution)
            &&& execution.point_ids@ == first_of(outputs[plan.root() as int], root_top_k)
        } by {
            lemma_yielding_begins(streams, leaves);
        }
    }
}

/// The reader of the root joins a network that has not been read.
proof fn lemma_root_subscribed<
    L: FallibleExactCompositionStream,
    F: Fn(i64, usize, usize, i64) -> i64,
>(
    plan: &ExactCompositionPlan,
    accumulate: F,
    built: Seq<RuntimeNode<L>>,
    nodes: Seq<RuntimeNode<L>>,
    all: Set<Promise>,
    reader: usize,
)
    requires
        plan.wf(),
        is_built(plan, built, plan.order().len() as int),
        producers_agree(plan, accumulate, built, all, plan.order().len() as int),
        forall|promise: Promise| #[trigger]
            all.contains(promise) ==> sound_outputs(plan, accumulate, promise),
        ({
            let root = plan.root() as int;
            &&& nodes == built.update(root, nodes[root])
            &&& nodes[root].producer == built[root].producer
            &&& nodes[root].replay.wf()
            &&& reader == built[root].replay@.readers.len()
            &&& nodes[root].replay@ == (ReplayView {
                readers: built[root].replay@.readers.push(Some(0)),
                ..built[root].replay@
            })
        }),
    ensures
        is_built(plan, nodes, plan.order().len() as int),
        forall|node: int|
            0 <= node < nodes.len() ==> has_shape(plan, nodes, node) && is_fresh(
                (#[trigger] nodes[node]).replay@,
            ),
        forall|owner: int, slot: int|
            !#[trigger] owns(plan, nodes, owner, slot, plan.root() as int, reader),
        forall|promise: Promise, place: int|
            #![trigger all.contains(promise), agrees_below(plan, accumulate, nodes, promise, place)]
            all.contains(promise) ==> agrees_below(plan, accumulate, nodes, promise, place),
{
    let count = plan.order().len() as int;
    assert(only_subscribes(built, nodes)) by {
        assert forall|node: int| 0 <= node < built.len() implies {
            &&& (#[trigger] nodes[node]).producer == built[node].producer
            &&& nodes[node].replay.wf()
            &&& is_fresh(nodes[node].replay@)
            &&& built[node].replay@.readers.len() <= nodes[node].replay@.readers.len()
        } by {
            let _ = built[node];
        }
    }
    lemma_subscribing_keeps(plan, accumulate, built, nodes, all, count);
    assert forall|node: int| 0 <= node < nodes.len() implies has_shape(plan, nodes, node)
        && is_fresh((#[trigger] nodes[node]).replay@) by {
        lemma_every_node_is_placed(plan, node as usize);
        let at = choose|at: int| 0 <= at < plan.order().len() && plan.order()[at] == node;
        assert(has_shape(plan, nodes, plan.order()[at] as int));
    }
    assert forall|owner: int, slot: int|
        !#[trigger] owns(plan, nodes, owner, slot, plan.root() as int, reader) by {
        if owns(plan, nodes, owner, slot, plan.root() as int, reader) {
            lemma_old_reader_is_low(
                plan,
                built,
                nodes,
                owner,
                slot,
                plan.root() as int,
                reader,
                count,
            );
        }
    }
    assert forall|promise: Promise, place: int|
        #![trigger all.contains(promise), agrees_below(plan, accumulate, nodes, promise, place)]
        all.contains(promise) implies agrees_below(plan, accumulate, nodes, promise, place) by {
        assert forall|node: int|
            0 <= node < nodes.len() && place_of(plan, node as usize) < place implies
            #[trigger] node_agrees(plan, accumulate, nodes, promise, node) by {
            lemma_every_node_is_placed(plan, node as usize);
            let at = choose|at: int| 0 <= at < plan.order().len() && plan.order()[at] == node;
            assert(all.contains(promise) && plan.order()[at] == node);
            assert(producer_agrees(plan, accumulate, nodes, promise, node, 0));
            let _ = nodes[node];
            assert(is_fresh(nodes[node].replay@));
            assert(promise.outputs[node].take(0) =~= Seq::<ExtendedPointId>::empty());
        }
    }
}

/// An execution in which the root was cancelled has cancelled a node.
pub proof fn law_cancelled_root_is_counted(
    plan: &ExactCompositionPlan,
    execution: ExactCompositionExecution,
)
    requires
        reports_network(plan, execution),
        plan.root() < plan.nodes().len(),
        execution.nodes@[plan.root() as int].cancelled,
    ensures
        execution.cancelled_nodes >= 1,
{
    lemma_figure_is_counted(
        execution.nodes@,
        cancellations(),
        plan.nodes().len() as int,
        plan.root() as int,
    );
}

/// The figure of a node is part of a sum over it.
proof fn lemma_figure_is_counted(
    nodes: Seq<ExactCompositionNodeTelemetry>,
    figure: spec_fn(ExactCompositionNodeTelemetry) -> nat,
    upto: int,
    node: int,
)
    requires
        0 <= node < upto <= nodes.len(),
    ensures
        summed(nodes, figure, upto) >= figure(nodes[node]),
    decreases upto,
{
    if node < upto - 1 {
        lemma_figure_is_counted(nodes, figure, upto - 1, node);
    }
}

} // verus!
