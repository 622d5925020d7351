//! Demand-driven execution and full materialization agree.

use super::exhaustive::{
    are_outputs, exhausts, input_outputs, is_output, leaves_begin, leaves_yield,
    lemma_every_node_is_placed, limited, streams_fit,
};
use super::plan::{inputs_of, lemma_sound_nodes, ExactCompositionPlan};
use super::runtime::{executes, lemma_nothing_missing, valid_policy};
use super::types::{
    ExactCompositionError, ExactCompositionExecution, ExactCompositionExhaustiveExecution,
    ExactCompositionNode, FallibleExactCompositionStream,
};
use crate::order::ExtendedPointId;
use crate::reciprocal_rank_fusion::certificate::{is_exhaustive_fusion, ranked};
use crate::reciprocal_rank_fusion::exhaustive::{fusion_order, law_exhaustive_fusion_exists};
use crate::reciprocal_rank_fusion::scoring::{computes, is_rank_arithmetic};
use crate::reciprocal_rank_fusion::types::DynamicRrfPolicy;
use vstd::prelude::*;

verus! {

/// Whether a ranking lists identities of a universe, none of them twice.
pub open spec fn is_ranking_over(
    ranking: Seq<ExtendedPointId>,
    universe: Seq<ExtendedPointId>,
) -> bool {
    &&& ranking.no_duplicates()
    &&& forall|i: int| 0 <= i < ranking.len() ==> universe.contains(#[trigger] ranking[i])
}

/// The ranking of a leaf: the supplied one, or the order that the plan holds.
pub open spec fn leaf_ranking(
    definition: ExactCompositionNode,
    leaf: Option<Seq<ExtendedPointId>>,
) -> Option<Seq<ExtendedPointId>> {
    match (definition, leaf) {
        (ExactCompositionNode::Leaf { order }, None) => Some(order@),
        _ => leaf,
    }
}

/// Whether every leaf of a network has a ranking over the universe.
pub open spec fn leaves_rank(
    nodes: Seq<ExactCompositionNode>,
    leaves: Seq<Option<Seq<ExtendedPointId>>>,
    universe: Seq<ExtendedPointId>,
) -> bool {
    &&& leaves.len() == nodes.len()
    &&& forall|node: int|
        0 <= node < nodes.len() && !((#[trigger] nodes[node]) is Fusion) ==> {
            &&& leaf_ranking(nodes[node], leaves[node]) matches Some(ranking)
            &&& is_ranking_over(ranking, universe)
        }
}

spec fn output_of(
    definition: ExactCompositionNode,
    leaf: Option<Seq<ExtendedPointId>>,
    arithmetic: spec_fn(i64, usize, usize, i64) -> i64,
    outputs: Seq<Seq<ExtendedPointId>>,
) -> Seq<ExtendedPointId> {
    match definition {
        ExactCompositionNode::Fusion { inputs, weights, rrf_k, output_limit } => limited(
            fusion_order(arithmetic, input_outputs(outputs, inputs@), rrf_k, weights@),
            output_limit,
        ),
        _ => leaf_ranking(definition, leaf).unwrap(),
    }
}

spec fn outputs_upto(
    plan: &ExactCompositionPlan,
    leaves: Seq<Option<Seq<ExtendedPointId>>>,
    arithmetic: spec_fn(i64, usize, usize, i64) -> i64,
    upto: int,
) -> Seq<Seq<ExtendedPointId>>
    decreases upto,
{
    if upto <= 0 {
        Seq::new(plan.nodes().len(), |node: int| Seq::<ExtendedPointId>::empty())
    } else {
        let before = outputs_upto(plan, leaves, arithmetic, upto - 1);
        let node = plan.order()[upto - 1] as int;
        before.update(node, output_of(plan.nodes()[node], leaves[node], arithmetic, before))
    }
}

/// The fusion of rankings over a universe is a ranking over it.
proof fn lemma_fusion_stays_inside(
    arithmetic: spec_fn(i64, usize, usize, i64) -> i64,
    rankings: Seq<Seq<ExtendedPointId>>,
    rrf_k: usize,
    weights: Seq<i64>,
    limit: Option<usize>,
    universe: Seq<ExtendedPointId>,
)
    requires
        forall|i: int| 0 <= i < rankings.len() ==> is_ranking_over(#[trigger] rankings[i], universe),
    ensures
        is_exhaustive_fusion(
            arithmetic,
            rankings,
            rrf_k,
            weights,
            fusion_order(arithmetic, rankings, rrf_k, weights),
        ),
        is_ranking_over(
            limited(fusion_order(arithmetic, rankings, rrf_k, weights), limit),
            universe,
        ),
{
    law_exhaustive_fusion_exists(arithmetic, rankings, rrf_k, weights);
    let order = fusion_order(arithmetic, rankings, rrf_k, weights);
    assert forall|i: int| 0 <= i < order.len() implies universe.contains(#[trigger] order[i]) by {
        assert(order.contains(order[i]));
        assert(ranked(rankings)(order[i]));
        let from = choose|from: int|
            0 <= from < rankings.len() && (#[trigger] rankings[from]).contains(order[i]);
        let at = choose|at: int| 0 <= at < rankings[from].len() && rankings[from][at] == order[i];
        assert(universe.contains(rankings[from][at]));
    }
}

proof fn lemma_outputs_upto(
    plan: &ExactCompositionPlan,
    leaves: Seq<Option<Seq<ExtendedPointId>>>,
    arithmetic: spec_fn(i64, usize, usize, i64) -> i64,
    universe: Seq<ExtendedPointId>,
    upto: int,
)
    requires
        plan.wf(),
        leaves_rank(plan.nodes(), leaves, universe),
        universe.len() < usize::MAX,
        0 <= upto <= plan.order().len(),
    ensures
        outputs_upto(plan, leaves, arithmetic, upto).len() == plan.nodes().len(),
        forall|place: int|
            #![trigger plan.order()[place]]
            0 <= place < upto ==> {
                let node = plan.order()[place] as int;
                let outputs = outputs_upto(plan, leaves, arithmetic, upto);
                &&& is_output(plan.nodes()[node], leaves[node], arithmetic, outputs, outputs[node])
                &&& is_ranking_over(outputs[node], universe)
            },
    decreases upto,
{
    if upto > 0 {
        lemma_outputs_upto(plan, leaves, arithmetic, universe, upto - 1);
        lemma_sound_nodes(plan.nodes());
        let before = outputs_upto(plan, leaves, arithmetic, upto - 1);
        let outputs = outputs_upto(plan, leaves, arithmetic, upto);
        let last = plan.order()[upto - 1] as int;
        assert forall|place: int|
            #![trigger plan.order()[place]]
            0 <= place < upto implies {
            let node = plan.order()[place] as int;
            &&& is_output(plan.nodes()[node], leaves[node], arithmetic, outputs, outputs[node])
            &&& is_ranking_over(outputs[node], universe)
        } by {
            let node = plan.order()[place] as int;
            let definition = plan.nodes()[node];
            let inputs = inputs_of(definition);
            assert forall|i: int| 0 <= i < inputs.len() implies {
                &&& #[trigger] before[inputs[i] as int] == outputs[inputs[i] as int]
                &&& is_ranking_over(before[inputs[i] as int], universe)
            } by {
                let leading = plan.order().take(place);
                assert(leading.contains(inputs_of(plan.nodes()[plan.order()[place] as int])[i]));
                let at = choose|at: int| 0 <= at < leading.len() && leading[at] == inputs[i];
                assert(plan.order()[at] == inputs[i]);
                assert(plan.order()[at] != plan.order()[upto - 1]);
            }
            match definition {
                ExactCompositionNode::Fusion { inputs: listed, weights, rrf_k, output_limit } => {
                    let rankings = input_outputs(outputs, listed@);
                    assert(rankings =~= input_outputs(before, listed@));
                    assert forall|i: int| 0 <= i < rankings.len() implies is_ranking_over(
                        #[trigger] rankings[i],
                        universe,
                    ) by {
                        let _ = before[inputs[i] as int];
                    }
                    lemma_fusion_stays_inside(
                        arithmetic,
                        rankings,
                        rrf_k,
                        weights@,
                        output_limit,
                        universe,
                    );
                },
                _ => {},
            }
            if place == upto - 1 {
                crate::tables::lemma_no_longer(outputs[node], universe);
            } else {
                assert(plan.order()[place] != plan.order()[upto - 1]);
                assert(outputs[node] == before[node]);
                assert(is_output(definition, leaves[node], arithmetic, before, before[node]));
            }
        }
    }
}

/// Every network whose leaves have rankings has complete outputs, where the
/// identities can be counted.
pub proof fn law_outputs_exist(
    plan: &ExactCompositionPlan,
    leaves: Seq<Option<Seq<ExtendedPointId>>>,
    arithmetic: spec_fn(i64, usize, usize, i64) -> i64,
    universe: Seq<ExtendedPointId>,
)
    requires
        plan.wf(),
        leaves_rank(plan.nodes(), leaves, universe),
        universe.len() < usize::MAX,
    ensures
        exists|outputs: Seq<Seq<ExtendedPointId>>| #[trigger]
            are_outputs(plan.nodes(), leaves, arithmetic, outputs),
{
    let count = plan.order().len() as int;
    lemma_outputs_upto(plan, leaves, arithmetic, universe, count);
    let outputs = outputs_upto(plan, leaves, arithmetic, count);
    assert forall|node: int| 0 <= node < plan.nodes().len() implies is_output(
        plan.nodes()[node],
        leaves[node],
        arithmetic,
        outputs,
        #[trigger] outputs[node],
    ) by {
        lemma_every_node_is_placed(plan, node as usize);
        let place = choose|place: int| 0 <= place < plan.order().len() && plan.order()[place] == node;
        assert(plan.order()[place] as int == node);
    }
    assert(are_outputs(plan.nodes(), leaves, arithmetic, outputs));
}

/// Demand-driven execution returns what full materialization returns, under every
/// policy: whatever the network, if its leaves yield rankings, both succeed with
/// the same identities in the same order.
pub proof fn law_demand_driven_execution_is_exhaustive<
    L: FallibleExactCompositionStream,
    F: Fn(i64, usize, usize, i64) -> i64,
>(
    plan: &ExactCompositionPlan,
    root_top_k: usize,
    leaf_streams: Seq<Option<L>>,
    leaves: Seq<Option<Seq<ExtendedPointId>>>,
    universe: Seq<ExtendedPointId>,
    policy: DynamicRrfPolicy,
    accumulate: F,
    arithmetic: spec_fn(i64, usize, usize, i64) -> i64,
    lazy: Result<ExactCompositionExecution, ExactCompositionError>,
    full: Result<ExactCompositionExhaustiveExecution, ExactCompositionError>,
)
    requires
        plan.wf(),
        root_top_k > 0,
        streams_fit(plan.nodes(), leaf_streams),
        leaves_yield(leaf_streams, leaves),
        leaves_rank(plan.nodes(), leaves, universe),
        universe.len() < usize::MAX,
        valid_policy(policy),
        computes(accumulate, arithmetic),
        is_rank_arithmetic(arithmetic),
        executes(plan, root_top_k, leaf_streams, policy, accumulate, lazy),
        exhausts(plan, root_top_k, leaf_streams, accumulate, full),
    ensures
        lazy matches Ok(execution) && full matches Ok(materialized) && execution.point_ids@
            == materialized.point_ids@,
{
    assert forall|place: int|
        0 <= place < plan.order().len() && plan.nodes()[#[trigger] plan.order()[place] as int]
            is ExternalLeaf implies leaf_streams[plan.order()[place] as int] is Some by {
        let node = plan.order()[place] as int;
        assert(leaf_ranking(plan.nodes()[node], leaves[node]) is Some);
        assert(leaf_streams[node] is Some);
    }
    lemma_nothing_missing(
        plan.nodes(),
        plan.order(),
        leaf_streams,
        policy,
        plan.order().len() as int,
    );
    law_outputs_exist(plan, leaves, arithmetic, universe);
    let outputs = choose|outputs: Seq<Seq<ExtendedPointId>>| #[trigger]
        are_outputs(plan.nodes(), leaves, arithmetic, outputs);
    assert(are_outputs(plan.nodes(), leaves, arithmetic, outputs));
}

/// A failure that is not observed changes nothing: where an execution succeeds although
/// leaves break off, full materialization of whatever rankings those leaves began
/// returns the same identities in the same order.
pub proof fn law_unobserved_failure_changes_nothing<
    L: FallibleExactCompositionStream,
    M: FallibleExactCompositionStream,
    F: Fn(i64, usize, usize, i64) -> i64,
>(
    plan: &ExactCompositionPlan,
    root_top_k: usize,
    breaking: Seq<Option<L>>,
    complete: Seq<Option<M>>,
    leaves: Seq<Option<Seq<ExtendedPointId>>>,
    universe: Seq<ExtendedPointId>,
    policy: DynamicRrfPolicy,
    accumulate: F,
    arithmetic: spec_fn(i64, usize, usize, i64) -> i64,
    execution: ExactCompositionExecution,
    full: Result<ExactCompositionExhaustiveExecution, ExactCompositionError>,
)
    requires
        plan.wf(),
        root_top_k > 0,
        streams_fit(plan.nodes(), breaking),
        streams_fit(plan.nodes(), complete),
        leaves_begin(breaking, leaves),
        leaves_yield(complete, leaves),
        leaves_rank(plan.nodes(), leaves, universe),
        universe.len() < usize::MAX,
        valid_policy(policy),
        computes(accumulate, arithmetic),
        is_rank_arithmetic(arithmetic),
        executes(
            plan,
            root_top_k,
            breaking,
            policy,
            accumulate,
            Ok::<ExactCompositionExecution, ExactCompositionError>(execution),
        ),
        exhausts(plan, root_top_k, complete, accumulate, full),
    ensures
        full matches Ok(materialized) && execution.point_ids@ == materialized.point_ids@,
{
    law_outputs_exist(plan, leaves, arithmetic, universe);
    let outputs = choose|outputs: Seq<Seq<ExtendedPointId>>| #[trigger]
        are_outputs(plan.nodes(), leaves, arithmetic, outputs);
    assert(are_outputs(plan.nodes(), leaves, arithmetic, outputs));
}

} // verus!
