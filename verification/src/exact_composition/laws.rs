//! What a composition network comes to, stated of its nodes and rankings.

use super::account::{first_session, leaf_origin, limit_of, NodeLog};
use super::exhaustive::{
    are_outputs, counted, exhausts, failing_leaf, input_outputs, is_output, leaf_fault,
    leaves_fault, leaves_yield, limited, materialized_count, materializes, streams_fit,
};
use super::plan::{
    first_invalid, first_repeated, fits_weights, inputs_of, is_ready, lemma_no_invalid,
    lemma_nothing_repeated, node_fault, nodes_fault, takes_smallest, ExactCompositionPlan,
};
use super::runtime::{
    build_fault, builds_fault, cancellations, executes, fusion_outputs, leaf_pulls, policy_fault,
    replay_peaks, reports_node, summed, valid_policy,
};
use super::types::{
    ExactCompositionError, ExactCompositionExecution, ExactCompositionExhaustiveExecution,
    ExactCompositionNode, ExactCompositionNodeKind, ExactCompositionNodeTelemetry,
    ExactCompositionStreamFailure, FallibleExactCompositionStream,
};
use crate::operation_error::Fault;
use crate::order::ExtendedPointId;
use crate::reciprocal_rank_fusion::certificate::is_exhaustive_fusion;
use crate::reciprocal_rank_fusion::scoring::{
    computes, fused_score, is_rank_arithmetic, valid_weight,
};
use crate::reciprocal_rank_fusion::state::ranks_of;
use crate::reciprocal_rank_fusion::types::DynamicRrfPolicy;
use vstd::prelude::*;

verus! {

/// The rankings that a fusion reads: the output of each of its inputs, in their order.
pub open spec fn read_by(
    outputs: Seq<Seq<ExtendedPointId>>,
    inputs: Seq<usize>,
) -> Seq<Seq<ExtendedPointId>> {
    Seq::new(inputs.len(), |i: int| outputs[inputs[i] as int])
}

/// The output of a fusion: identities that differ, each of the output of an input, by their
/// fused scores, and no more than the limit. What is left out has no score, or stands behind
/// all that is put out.
pub proof fn law_fusion_puts_out_the_best(
    nodes: Seq<ExactCompositionNode>,
    leaves: Seq<Option<Seq<ExtendedPointId>>>,
    arithmetic: spec_fn(i64, usize, usize, i64) -> i64,
    outputs: Seq<Seq<ExtendedPointId>>,
    node: int,
    inputs: Vec<usize>,
    weights: Vec<i64>,
    rrf_k: usize,
    output_limit: Option<usize>,
    first: int,
    second: int,
    input: int,
    place: int,
)
    requires
        are_outputs(nodes, leaves, arithmetic, outputs),
        0 <= node < nodes.len(),
        nodes[node] == (ExactCompositionNode::Fusion { inputs, weights, rrf_k, output_limit }),
        0 <= first < second < outputs[node].len(),
        0 <= input < inputs@.len(),
        0 <= place < outputs[inputs@[input] as int].len(),
    ensures
        ({
            let rankings = read_by(outputs, inputs@);
            let output = outputs[node];
            let score = |id: ExtendedPointId|
                fused_score(arithmetic, ranks_of(rankings, id), rrf_k, weights@);
            let other = outputs[inputs@[input] as int][place];
            &&& output[first] != output[second]
            &&& score(output[first]) > 0
            &&& score(output[first]) > score(output[second]) || score(output[first]) == score(
                output[second],
            ) && output[first].rank() < output[second].rank()
            &&& output_limit matches Some(limit) ==> output.len() <= limit
            &&& !output.contains(other) && score(other) > 0 ==> {
                &&& output_limit matches Some(limit) && output.len() == limit
                &&& score(output[first]) > score(other) || score(output[first]) == score(other)
                    && output[first].rank() < other.rank()
            }
        }),
{
    let rankings = read_by(outputs, inputs@);
    assert(rankings =~= super::exhaustive::input_outputs(outputs, inputs@));
    assert(is_output(nodes[node], leaves[node], arithmetic, outputs, outputs[node]));
    let order = choose|order: Seq<ExtendedPointId>|
        {
            &&& #[trigger] is_exhaustive_fusion(arithmetic, rankings, rrf_k, weights@, order)
            &&& outputs[node] == limited(order, output_limit)
        };
    let output = outputs[node];
    assert(output[first] == order[first] && output[second] == order[second]);
    let other = outputs[inputs@[input] as int][place];
    assert(rankings[input][place] == other);
    crate::reciprocal_rank_fusion::laws::law_exhaustive_fusion_ranks_all_points(
        arithmetic,
        rankings,
        rrf_k,
        weights@,
        order,
        input,
        place,
        first,
        second,
    );
    if !output.contains(other) && fused_score(
        arithmetic,
        ranks_of(rankings, other),
        rrf_k,
        weights@,
    ) > 0 {
        assert(order.contains(other));
        let at = choose|at: int| 0 <= at < order.len() && order[at] == other;
        if at < output.len() {
            assert(output[at] == other);
        }
        crate::reciprocal_rank_fusion::laws::law_exhaustive_fusion_ranks_all_points(
            arithmetic,
            rankings,
            rrf_k,
            weights@,
            order,
            input,
            place,
            first,
            at,
        );
    }
}

/// A leaf puts out the ranking that was supplied for it, or else the one of its plan.
pub proof fn law_leaf_puts_out_its_ranking(
    nodes: Seq<ExactCompositionNode>,
    leaves: Seq<Option<Seq<ExtendedPointId>>>,
    arithmetic: spec_fn(i64, usize, usize, i64) -> i64,
    outputs: Seq<Seq<ExtendedPointId>>,
    node: int,
)
    requires
        are_outputs(nodes, leaves, arithmetic, outputs),
        0 <= node < nodes.len(),
        !(nodes[node] is Fusion),
    ensures
        leaves[node] matches Some(ranking) ==> outputs[node] == ranking,
        leaves[node] is None ==> (nodes[node] matches ExactCompositionNode::Leaf { order }
            && outputs[node] == order@),
{
    assert(is_output(nodes[node], leaves[node], arithmetic, outputs, outputs[node]));
}

/// A network is accepted node by node: a leaf that repeats nothing; a fusion of at least one
/// node of the network, with a finite weight that is not negative for every input, one of them
/// positive, a positive rank constant, and no limit of 0.
pub proof fn law_nodes_are_accepted(nodes: Seq<ExactCompositionNode>)
    requires
        nodes.len() <= usize::MAX,
    ensures
        nodes_fault(nodes, nodes.len() as int) is None <==> forall|node: int|
            0 <= node < nodes.len() ==> accepts_node(#[trigger] nodes[node], nodes.len()),
{
    lemma_nodes_are_accepted(nodes, nodes.len() as int);
}

/// Whether a node can stand in a network of a number of nodes.
pub open spec fn accepts_node(definition: ExactCompositionNode, count: nat) -> bool {
    match definition {
        ExactCompositionNode::Leaf { order } => order@.no_duplicates(),
        ExactCompositionNode::ExternalLeaf => true,
        ExactCompositionNode::Fusion { inputs, weights, rrf_k, output_limit } => {
            &&& inputs@.len() > 0
            &&& forall|i: int| 0 <= i < inputs@.len() ==> #[trigger] inputs@[i] < count
            &&& weights@.len() == inputs@.len()
            &&& forall|i: int|
                0 <= i < weights@.len() ==> 0 <= #[trigger] weights@[i] < 0x7ff0_0000_0000_0000
            &&& exists|i: int| 0 <= i < weights@.len() && #[trigger] weights@[i] > 0
            &&& rrf_k > 0
            &&& output_limit != Some(0usize)
        },
    }
}

proof fn lemma_nodes_are_accepted(nodes: Seq<ExactCompositionNode>, upto: int)
    requires
        0 <= upto <= nodes.len() <= usize::MAX,
    ensures
        nodes_fault(nodes, upto) is None <==> forall|node: int|
            0 <= node < upto ==> accepts_node(#[trigger] nodes[node], nodes.len()),
    decreases upto,
{
    if upto > 0 {
        let last = upto - 1;
        lemma_nodes_are_accepted(nodes, last);
        lemma_node_is_accepted(last as usize, nodes[last], nodes.len());
    }
}

proof fn lemma_node_is_accepted(node: usize, definition: ExactCompositionNode, count: nat)
    ensures
        node_fault(node, definition, count) is None <==> accepts_node(definition, count),
{
    match definition {
        ExactCompositionNode::Leaf { order } => {
            law_first_repeated_identity(order@);
        },
        ExactCompositionNode::ExternalLeaf => {},
        ExactCompositionNode::Fusion { inputs, weights, rrf_k, output_limit } => {
            law_first_invalid_input(inputs@, count);
            if fits_weights(inputs@, weights@) {
                assert forall|i: int| 0 <= i < weights@.len() implies 0 <= #[trigger] weights@[i]
                    < 0x7ff0_0000_0000_0000 by {
                    assert(valid_weight(weights@[i]));
                }
            }
        },
    }
}

/// The first identity that a sequence repeats: it stands at a place where it has stood before,
/// and no earlier place repeats anything. Without one all identities differ.
pub proof fn law_first_repeated_identity(ids: Seq<ExtendedPointId>)
    ensures
        first_repeated(ids) is None <==> ids.no_duplicates(),
        first_repeated(ids) matches Some(id) ==> exists|at: int|
            {
                &&& 0 <= at < ids.len()
                &&& #[trigger] ids[at] == id
                &&& ids.take(at).contains(id)
                &&& ids.take(at).no_duplicates()
            },
    decreases ids.len(),
{
    if ids.len() > 0 {
        let shorter = ids.drop_last();
        law_first_repeated_identity(shorter);
        match first_repeated(shorter) {
            Some(id) => {
                let at = choose|at: int|
                    {
                        &&& 0 <= at < shorter.len()
                        &&& #[trigger] shorter[at] == id
                        &&& shorter.take(at).contains(id)
                        &&& shorter.take(at).no_duplicates()
                    };
                assert(shorter.take(at) =~= ids.take(at));
                assert(ids[at] == id);
                assert(!ids.no_duplicates()) by {
                    let k = choose|k: int| 0 <= k < ids.take(at).len() && ids.take(at)[k] == id;
                    assert(ids[k] == ids[at]);
                }
            },
            None => {
                let last = ids.len() - 1;
                assert(ids.take(last) =~= shorter);
                if shorter.contains(ids.last()) {
                    let k = choose|k: int| 0 <= k < shorter.len() && shorter[k] == ids.last();
                    assert(ids[k] == ids[last]);
                    assert(ids[last] == ids.last());
                } else {
                    lemma_nothing_repeated(ids);
                }
            },
        }
    }
}

/// The first input that is no node of the network; without one all inputs are.
pub proof fn law_first_invalid_input(inputs: Seq<usize>, count: nat)
    ensures
        first_invalid(inputs, count) is None <==> forall|i: int|
            0 <= i < inputs.len() ==> #[trigger] inputs[i] < count,
        first_invalid(inputs, count) matches Some(input) ==> input >= count && exists|at: int|
            {
                &&& 0 <= at < inputs.len()
                &&& #[trigger] inputs[at] == input
                &&& forall|before: int| 0 <= before < at ==> inputs[before] < count
            },
    decreases inputs.len(),
{
    if inputs.len() > 0 {
        let shorter = inputs.drop_last();
        law_first_invalid_input(shorter, count);
        match first_invalid(shorter, count) {
            Some(input) => {
                let at = choose|at: int|
                    {
                        &&& 0 <= at < shorter.len()
                        &&& #[trigger] shorter[at] == input
                        &&& forall|before: int| 0 <= before < at ==> shorter[before] < count
                    };
                assert(inputs[at] == input);
                assert forall|before: int| 0 <= before < at implies inputs[before] < count by {
                    assert(shorter[before] == inputs[before]);
                }
            },
            None => {
                if inputs.last() < count {
                    lemma_no_invalid(inputs, count);
                } else {
                    assert(inputs[inputs.len() - 1] == inputs.last());
                    assert forall|before: int| 0 <= before < inputs.len() - 1 implies inputs[before]
                        < count by {
                        assert(shorter[before] == inputs[before]);
                    }
                }
            },
        }
    }
}

/// The inputs of a fusion are those that it names; a leaf has none.
pub proof fn law_inputs_of_nodes(
    inputs: Vec<usize>,
    weights: Vec<i64>,
    rrf_k: usize,
    output_limit: Option<usize>,
    order: Vec<ExtendedPointId>,
)
    ensures
        inputs_of(ExactCompositionNode::Fusion { inputs, weights, rrf_k, output_limit })
            == inputs@,
        inputs_of(ExactCompositionNode::Leaf { order }).len() == 0,
        inputs_of(ExactCompositionNode::ExternalLeaf).len() == 0,
{
}

/// In the order of a sound network every node stands once, behind all of its inputs.
pub proof fn law_inputs_are_built_first(plan: &ExactCompositionPlan, node: int, input: int)
    requires
        plan.wf(),
        0 <= node < plan.nodes().len(),
        0 <= input < inputs_of(plan.nodes()[node]).len(),
    ensures
        plan.order().len() == plan.nodes().len(),
        plan.order().no_duplicates(),
        exists|before: int, place: int|
            0 <= before < place < plan.order().len() && #[trigger] plan.order()[before]
                == inputs_of(plan.nodes()[node])[input] && #[trigger] plan.order()[place] == node,
{
    super::exhaustive::lemma_every_node_is_placed(plan, node as usize);
    let order = plan.order();
    let place = choose|place: int| 0 <= place < order.len() && order[place] == node;
    let wanted = inputs_of(plan.nodes()[order[place] as int])[input];
    assert(order.take(place).contains(wanted));
    let before = choose|before: int|
        0 <= before < order.take(place).len() && order.take(place)[before] == wanted;
    assert(order[before] == wanted && order[place] == node);
}

/// An order cut at a limit is its beginning, and all of it without one.
pub proof fn law_limited_orders(order: Seq<ExtendedPointId>, limit: usize, i: int)
    ensures
        limited(order, None) == order,
        limited(order, Some(limit)).len() == (if limit <= order.len() {
            limit as nat
        } else {
            order.len()
        }),
        0 <= i < limited(order, Some(limit)).len() ==> limited(order, Some(limit))[i] == order[i],
{
}

/// Streams fit a network where there is a place for every node and none is given to a fusion.
pub proof fn law_streams_are_for_leaves<L>(
    nodes: Seq<ExactCompositionNode>,
    streams: Seq<Option<L>>,
)
    ensures
        streams_fit(nodes, streams) <==> streams.len() == nodes.len() && forall|node: int|
            0 <= node < nodes.len() && (#[trigger] streams[node]) is Some ==> nodes[node] is Leaf
                || nodes[node] is ExternalLeaf,
{
}

/// A sum over nodes grows by the figure of every further node.
pub proof fn law_sums_count_every_node(
    nodes: Seq<ExactCompositionNodeTelemetry>,
    figure: spec_fn(ExactCompositionNodeTelemetry) -> nat,
    upto: int,
)
    requires
        0 <= upto,
    ensures
        summed(nodes, figure, 0) == 0,
        summed(nodes, figure, upto + 1) == summed(nodes, figure, upto) + figure(nodes[upto]),
{
}

/// A count that a number can hold is exact.
pub proof fn law_counts_are_exact(total: nat)
    ensures
        total <= usize::MAX ==> counted(total) == total,
        total > usize::MAX ==> counted(total) == usize::MAX,
{
}

/// A leaf that is given no stream is missing where its ranking is not its own; one whose
/// ranking names an identity twice is refused by the first that it names again.
pub proof fn law_refused_leaves(
    node: usize,
    definition: ExactCompositionNode,
    ranking: Seq<ExtendedPointId>,
    failure: ExactCompositionStreamFailure,
)
    ensures
        leaf_fault(node, definition, None) == (if definition is ExternalLeaf {
            Some(ExactCompositionError::MissingLeafStream(node))
        } else {
            None
        }),
        ranking.no_duplicates() ==> leaf_fault(node, definition, Some(ranking)) is None
            && failing_leaf(node, ranking, failure) == (ExactCompositionError::Leaf {
            node,
            failure,
        }),
        !ranking.no_duplicates() ==> exists|at: int|
            {
                &&& 0 <= at < ranking.len()
                &&& ranking.take(at).no_duplicates()
                &&& ranking.take(at).contains(#[trigger] ranking[at])
                &&& leaf_fault(node, definition, Some(ranking)) == Some(
                    ExactCompositionError::DuplicateLeafIdentity { node, identity: ranking[at] },
                )
                &&& failing_leaf(node, ranking, failure) == (
                ExactCompositionError::DuplicateLeafIdentity { node, identity: ranking[at] })
            },
{
    law_first_repeated_identity(ranking);
}

/// The leaves of a network are refused for the first, in the order of the network, that is.
pub proof fn law_first_refused_leaf(
    nodes: Seq<ExactCompositionNode>,
    order: Seq<usize>,
    leaves: Seq<Option<Seq<ExtendedPointId>>>,
    upto: int,
)
    requires
        0 <= upto <= order.len(),
    ensures
        leaves_fault(nodes, order, leaves, upto) is None <==> forall|place: int|
            0 <= place < upto ==> leaf_fault(
                #[trigger] order[place],
                nodes[order[place] as int],
                leaves[order[place] as int],
            ) is None,
        leaves_fault(nodes, order, leaves, upto) is Some ==> exists|place: int|
            {
                &&& 0 <= place < upto
                &&& leaves_fault(nodes, order, leaves, upto) == leaf_fault(
                    #[trigger] order[place],
                    nodes[order[place] as int],
                    leaves[order[place] as int],
                )
                &&& forall|earlier: int|
                    0 <= earlier < place ==> leaf_fault(
                        #[trigger] order[earlier],
                        nodes[order[earlier] as int],
                        leaves[order[earlier] as int],
                    ) is None
            },
    decreases upto,
{
    if upto > 0 {
        law_first_refused_leaf(nodes, order, leaves, upto - 1);
        let last = order[upto - 1];
    }
}

/// What is materialized adds up over the nodes of a network in their order: the outputs of
/// its fusions, or of its leaves.
pub proof fn law_materialized_outputs_add_up(
    nodes: Seq<ExactCompositionNode>,
    order: Seq<usize>,
    sizes: Seq<usize>,
    fusions: bool,
    next: usize,
)
    ensures
        materialized_count(nodes, Seq::empty(), sizes, fusions, 0) == 0,
        materialized_count(nodes, order.push(next), sizes, fusions, order.len() as int + 1)
            == materialized_count(nodes, order, sizes, fusions, order.len() as int) + (
        if nodes[next as int] is Fusion <==> fusions {
            sizes[next as int] as int
        } else {
            0
        }),
{
    lemma_materialized_agrees(
        nodes,
        order.push(next),
        order,
        sizes,
        fusions,
        order.len() as int,
    );
}

proof fn lemma_materialized_agrees(
    nodes: Seq<ExactCompositionNode>,
    left: Seq<usize>,
    right: Seq<usize>,
    sizes: Seq<usize>,
    fusions: bool,
    upto: int,
)
    requires
        upto <= left.len(),
        upto <= right.len(),
        forall|i: int| 0 <= i < upto ==> #[trigger] left[i] == right[i],
    ensures
        materialized_count(nodes, left, sizes, fusions, upto) == materialized_count(
            nodes,
            right,
            sizes,
            fusions,
            upto,
        ),
    decreases upto,
{
    if upto > 0 {
        lemma_materialized_agrees(nodes, left, right, sizes, fusions, upto - 1);
    }
}

/// A policy is refused where an interval or a budget that it gives is zero, the warmup
/// first, then the budget, then the fairness.
pub proof fn law_refused_policies(policy: DynamicRrfPolicy)
    ensures
        policy_fault(policy) == Some(Fault::ZeroWarmupInterval) <==> policy.warmup_check_interval
            == Some(0usize),
        policy_fault(policy) == Some(Fault::ZeroExhaustiveBudget) <==> policy.warmup_check_interval
            != Some(0usize) && policy.exhaustive_after_pulls_per_source == Some(0usize),
        policy_fault(policy) == Some(Fault::ZeroFairnessInterval) <==> policy.warmup_check_interval
            != Some(0usize) && policy.exhaustive_after_pulls_per_source != Some(0usize)
            && policy.fairness_after_actions_per_source == Some(0usize),
        valid_policy(policy) <==> policy.warmup_check_interval != Some(0usize)
            && policy.exhaustive_after_pulls_per_source != Some(0usize)
            && policy.fairness_after_actions_per_source != Some(0usize),
{
}

/// A node is built where it is a leaf with a ranking, or a fusion under a policy that is
/// not refused; the first in the order of the network that is not is reported.
pub proof fn law_first_node_that_is_not_built<L>(
    nodes: Seq<ExactCompositionNode>,
    order: Seq<usize>,
    streams: Seq<Option<L>>,
    policy: DynamicRrfPolicy,
    upto: int,
)
    requires
        0 <= upto <= order.len(),
    ensures
        builds_fault(nodes, order, streams, policy, upto) is None <==> forall|place: int|
            0 <= place < upto ==> is_buildable(
                nodes[#[trigger] order[place] as int],
                streams[order[place] as int],
                policy,
            ),
        builds_fault(nodes, order, streams, policy, upto) is Some ==> exists|place: int|
            {
                &&& 0 <= place < upto
                &&& !is_buildable(
                    nodes[#[trigger] order[place] as int],
                    streams[order[place] as int],
                    policy,
                )
                &&& builds_fault(nodes, order, streams, policy, upto) == build_fault(
                    order[place],
                    nodes[order[place] as int],
                    streams[order[place] as int],
                    policy,
                )
                &&& forall|earlier: int|
                    0 <= earlier < place ==> is_buildable(
                        nodes[#[trigger] order[earlier] as int],
                        streams[order[earlier] as int],
                        policy,
                    )
            },
    decreases upto,
{
    if upto > 0 {
        law_first_node_that_is_not_built(nodes, order, streams, policy, upto - 1);
        let last = order[upto - 1];
    }
}

/// Whether a node can be built: an outer leaf has a stream, and a fusion a policy without
/// an interval or a budget of zero.
pub open spec fn is_buildable<L>(
    definition: ExactCompositionNode,
    stream: Option<L>,
    policy: DynamicRrfPolicy,
) -> bool {
    &&& definition is ExternalLeaf ==> stream is Some
    &&& definition is Fusion ==> policy.warmup_check_interval != Some(0usize)
        && policy.exhaustive_after_pulls_per_source != Some(0usize)
        && policy.fairness_after_actions_per_source != Some(0usize)
}

/// What is summed over nodes: the pulls of the leaves, the outputs and the largest buffers
/// of all, and one for each that was cancelled.
pub proof fn law_figures_of_a_node(report: ExactCompositionNodeTelemetry)
    ensures
        leaf_pulls()(report) == (if report.kind == Some(ExactCompositionNodeKind::Leaf) {
            report.physical_output_pulls as nat
        } else {
            0
        }),
        fusion_outputs()(report) == report.outputs_produced,
        replay_peaks()(report) == report.peak_replay_buffered_identities,
        cancellations()(report) == (if report.cancelled {
            1nat
        } else {
            0
        }),
{
}

/// A report tells a fusion from a leaf, has the number and the limit of its node, and says
/// of a leaf that it fused nothing.
pub proof fn law_reports_of_nodes(
    node: int,
    definition: ExactCompositionNode,
    report: ExactCompositionNodeTelemetry,
)
    requires
        reports_node(node, definition, report),
    ensures
        report.node == node,
        report.kind == Some(ExactCompositionNodeKind::Fusion) <==> definition is Fusion,
        report.kind == Some(ExactCompositionNodeKind::Leaf) <==> !(definition is Fusion),
        definition is Fusion ==> report.output_limit == definition->output_limit,
        !(definition is Fusion) ==> report.output_limit is None && report.outputs_produced == 0
            && report.certification_checks == 0,
{
}

/// The inputs of a fusion are read in the order in which they are named, and a log answers
/// a rank with the output at it, with the end right behind the last, and with nothing
/// beyond.
pub proof fn law_logs_answer_ranks(
    outputs: Seq<Seq<ExtendedPointId>>,
    inputs: Seq<usize>,
    slot: int,
    log: NodeLog,
    rank: int,
)
    requires
        0 <= slot < inputs.len(),
        0 <= rank,
    ensures
        input_outputs(outputs, inputs).len() == inputs.len(),
        input_outputs(outputs, inputs)[slot] == outputs[inputs[slot] as int],
        rank < log.outputs.len() ==> log.answer(rank) == Some(Some(log.outputs[rank])),
        rank == log.outputs.len() ==> log.answer(rank) == (if log.ended {
            Some(None::<ExtendedPointId>)
        } else {
            None
        }),
        rank > log.outputs.len() ==> log.answer(rank) is None,
{
}

/// At every place of its order a network takes the smallest node whose inputs are all
/// placed, and therefore has one order.
pub proof fn law_order_takes_the_smallest_node(
    nodes: Seq<ExactCompositionNode>,
    order: Seq<usize>,
    other: Seq<usize>,
    place: int,
    node: usize,
)
    requires
        takes_smallest(nodes, order),
        0 <= place < order.len(),
    ensures
        !order.take(place).contains(order[place]),
        forall|input: int|
            0 <= input < inputs_of(nodes[order[place] as int]).len() ==> order.take(
                place,
            ).contains(#[trigger] inputs_of(nodes[order[place] as int])[input]),
        node < nodes.len() && !order.take(place).contains(node) && (forall|input: int|
            0 <= input < inputs_of(nodes[node as int]).len() ==> order.take(place).contains(
                #[trigger] inputs_of(nodes[node as int])[input],
            )) ==> order[place] <= node,
        takes_smallest(nodes, other) && other.len() == order.len() ==> order == other,
{
    let placed = order.take(place);
    assert(is_ready(nodes, placed, order[place]));
    if node < nodes.len() && !placed.contains(node) && (forall|input: int|
        0 <= input < inputs_of(nodes[node as int]).len() ==> placed.contains(
            #[trigger] inputs_of(nodes[node as int])[input],
        )) {
        assert(is_ready(nodes, placed, node));
    }
    if takes_smallest(nodes, other) && other.len() == order.len() {
        lemma_orders_agree(nodes, order, other, order.len() as int);
        assert(order.take(order.len() as int) =~= order);
        assert(other.take(order.len() as int) =~= other);
    }
}

proof fn lemma_orders_agree(
    nodes: Seq<ExactCompositionNode>,
    left: Seq<usize>,
    right: Seq<usize>,
    upto: int,
)
    requires
        takes_smallest(nodes, left),
        takes_smallest(nodes, right),
        0 <= upto <= left.len(),
        left.len() == right.len(),
    ensures
        left.take(upto) == right.take(upto),
    decreases upto,
{
    if upto > 0 {
        lemma_orders_agree(nodes, left, right, upto - 1);
        let place = upto - 1;
        assert(is_ready(nodes, left.take(place), left[place]));
        assert(is_ready(nodes, right.take(place), right[place]));
        assert(left[place] <= right[place] && right[place] <= left[place]);
        assert(left.take(upto) =~= left.take(place).push(left[place]));
        assert(right.take(upto) =~= right.take(place).push(right[place]));
    } else {
        assert(left.take(0) =~= right.take(0));
    }
}

/// An execution of every node returns the first identities of the root's output and says how
/// many each node has put out.
pub proof fn law_materialized_networks(
    plan: &ExactCompositionPlan,
    root_top_k: usize,
    outputs: Seq<Seq<ExtendedPointId>>,
    execution: ExactCompositionExhaustiveExecution,
    node: int,
)
    requires
        materializes(plan, root_top_k, outputs, execution),
        0 <= node < outputs.len(),
        outputs[node].len() <= usize::MAX,
    ensures
        execution.node_output_identities@.len() == outputs.len(),
        execution.node_output_identities@[node] == outputs[node].len(),
        root_top_k <= outputs[plan.root() as int].len() ==> execution.point_ids@
            == outputs[plan.root() as int].take(root_top_k as int),
        root_top_k > outputs[plan.root() as int].len() ==> execution.point_ids@
            == outputs[plan.root() as int],
{
}

/// A request for nothing is refused, and one whose streams do not fit its leaves; what was
/// materialized is what its leaves and its fusions were.
pub proof fn law_exhausted_networks<
    L: FallibleExactCompositionStream,
    F: Fn(i64, usize, usize, i64) -> i64,
>(
    plan: &ExactCompositionPlan,
    root_top_k: usize,
    leaf_streams: Seq<Option<L>>,
    accumulate: F,
    result: Result<ExactCompositionExhaustiveExecution, ExactCompositionError>,
)
    requires
        exhausts(plan, root_top_k, leaf_streams, accumulate, result),
    ensures
        root_top_k == 0 ==> result == Err::<
            ExactCompositionExhaustiveExecution,
            ExactCompositionError,
        >(ExactCompositionError::InvalidRequestedTopK),
        root_top_k > 0 && !streams_fit(plan.nodes(), leaf_streams) ==> result == Err::<
            ExactCompositionExhaustiveExecution,
            ExactCompositionError,
        >(ExactCompositionError::InvalidLeafStreams),
        result matches Ok(execution) ==> {
            &&& root_top_k > 0
            &&& execution.node_output_identities@.len() == plan.nodes().len()
            &&& execution.leaf_identities_materialized
                + execution.intermediate_identities_materialized <= usize::MAX
                && execution.leaf_identities_materialized < usize::MAX
                && execution.intermediate_identities_materialized < usize::MAX
                ==> execution.total_identities_materialized
                == execution.leaf_identities_materialized
                + execution.intermediate_identities_materialized
        },
{
}

/// An execution on demand refuses the same requests, returns no more than was asked for, and
/// has read of its root what it returns.
pub proof fn law_executed_networks<
    L: FallibleExactCompositionStream,
    F: Fn(i64, usize, usize, i64) -> i64,
>(
    plan: &ExactCompositionPlan,
    root_top_k: usize,
    leaf_streams: Seq<Option<L>>,
    policy: DynamicRrfPolicy,
    accumulate: F,
    result: Result<ExactCompositionExecution, ExactCompositionError>,
)
    requires
        executes(plan, root_top_k, leaf_streams, policy, accumulate, result),
    ensures
        root_top_k == 0 ==> result == Err::<ExactCompositionExecution, ExactCompositionError>(
            ExactCompositionError::InvalidRequestedTopK,
        ),
        root_top_k > 0 && !streams_fit(plan.nodes(), leaf_streams) ==> result == Err::<
            ExactCompositionExecution,
            ExactCompositionError,
        >(ExactCompositionError::InvalidLeafStreams),
        result matches Ok(execution) ==> {
            &&& execution.point_ids@.len() <= root_top_k
            &&& execution.nodes@.len() == plan.nodes().len()
            &&& execution.nodes@[plan.root() as int].physical_output_pulls
                == execution.point_ids@.len()
            &&& execution.peak_replay_buffered_identities
                <= execution.sum_node_peak_replay_buffered_identities
        },
{
}

/// A network whose leaves yield rankings returns the first identities of what its root comes
/// to, as many as were asked for, under every policy that is not refused.
pub proof fn law_networks_are_executed_exactly<
    L: FallibleExactCompositionStream,
    F: Fn(i64, usize, usize, i64) -> i64,
>(
    plan: &ExactCompositionPlan,
    root_top_k: usize,
    leaf_streams: Seq<Option<L>>,
    policy: DynamicRrfPolicy,
    accumulate: F,
    leaves: Seq<Option<Seq<ExtendedPointId>>>,
    arithmetic: spec_fn(i64, usize, usize, i64) -> i64,
    outputs: Seq<Seq<ExtendedPointId>>,
    result: Result<ExactCompositionExecution, ExactCompositionError>,
)
    requires
        executes(plan, root_top_k, leaf_streams, policy, accumulate, result),
        root_top_k > 0,
        streams_fit(plan.nodes(), leaf_streams),
        builds_fault(
            plan.nodes(),
            plan.order(),
            leaf_streams,
            policy,
            plan.order().len() as int,
        ) is None,
        valid_policy(policy),
        leaves.len() == leaf_streams.len(),
        forall|node: int|
            0 <= node < leaf_streams.len() ==> match #[trigger] leaf_streams[node] {
                Some(stream) => stream.rest() is Some && leaves[node] == stream.rest(),
                None => leaves[node] is None,
            },
        computes(accumulate, arithmetic),
        is_rank_arithmetic(arithmetic),
        are_outputs(plan.nodes(), leaves, arithmetic, outputs),
    ensures
        result is Ok,
        root_top_k <= outputs[plan.root() as int].len() ==> result->Ok_0.point_ids@
            == outputs[plan.root() as int].take(root_top_k as int),
        root_top_k > outputs[plan.root() as int].len() ==> result->Ok_0.point_ids@
            == outputs[plan.root() as int],
{
    assert(leaves_yield(leaf_streams, leaves));
}

/// A fusion node begins as a fusion of its inputs under its own weights and rank constant,
/// asked for one identity; a leaf begins with the stream that it was given, or else with its
/// own ranking.
pub proof fn law_nodes_begin<L: FallibleExactCompositionStream>(
    definition: ExactCompositionNode,
    policy: DynamicRrfPolicy,
    stream: Option<L>,
)
    ensures
        definition matches ExactCompositionNode::Fusion { inputs, weights, rrf_k, output_limit }
            ==> (inputs@.len() <= usize::MAX ==> {
            let view = first_session(definition, policy);
            &&& view.fusion.weights == weights@
            &&& view.fusion.rrf_k == rrf_k
            &&& view.fusion.top_k == 1
            &&& view.fusion.histories.len() == inputs@.len()
            &&& view.policy == policy
            &&& limit_of(definition) == output_limit
        }),
        stream matches Some(given) ==> leaf_origin(definition, stream).rest == given.rest()
            && leaf_origin(definition, stream).failing == given.failing(),
        stream is None ==> (definition matches ExactCompositionNode::Leaf { order } ==> leaf_origin(
            definition,
            stream,
        ).rest == Some(order@)),
        !(definition is Fusion) ==> limit_of(definition) is None,
{
}

} // verus!
