//! Full materialization of a composition network.

use super::plan::{first_repeated, inputs_of, lemma_sound_nodes, node_fault, ExactCompositionPlan};
use super::types::{
    ExactCompositionError, ExactCompositionExhaustiveExecution, ExactCompositionNode,
    ExactCompositionStreamFailure, FallibleExactCompositionStream, LeafStream,
};
use crate::id_index::IdSet;
use crate::order::ExtendedPointId;
use crate::reciprocal_rank_fusion::certificate::{
    is_exhaustive_fusion, law_score_order_is_unique, ranked, scores_under,
};
use crate::reciprocal_rank_fusion::exhaustive::{
    ids_of, law_exact_scoring_is_exhaustive, rankings_of,
};
use crate::reciprocal_rank_fusion::responses::{
    counts_responses, exact_rrf_scoring, ordered_points, weights_of, ScoredPoint,
};
use crate::reciprocal_rank_fusion::scoring::{accepts, computes};
use crate::reciprocal_rank_fusion::state::first_of;
use crate::reciprocal_rank_fusion::types::{infallible_exact_rrf_stream, IdStream};
use crate::tables::{copied, copied_prefix, repeated};
use vstd::prelude::*;

verus! {

/// An order cut at an optional limit.
pub open spec fn limited(order: Seq<ExtendedPointId>, limit: Option<usize>) -> Seq<ExtendedPointId> {
    match limit {
        Some(limit) => first_of(order, limit),
        None => order,
    }
}

/// The outputs of the inputs of a fusion.
pub open spec fn input_outputs(
    outputs: Seq<Seq<ExtendedPointId>>,
    inputs: Seq<usize>,
) -> Seq<Seq<ExtendedPointId>> {
    Seq::new(inputs.len(), |i: int| outputs[inputs[i] as int])
}

/// Whether a node's output follows from the supplied leaf rankings and the
/// outputs of its inputs.
pub open spec fn is_output(
    definition: ExactCompositionNode,
    leaf: Option<Seq<ExtendedPointId>>,
    arithmetic: spec_fn(i64, usize, usize, i64) -> i64,
    outputs: Seq<Seq<ExtendedPointId>>,
    output: Seq<ExtendedPointId>,
) -> bool {
    &&& output.no_duplicates()
    &&& output.len() < usize::MAX
    &&& match definition {
        ExactCompositionNode::Leaf { order } => output == (match leaf {
            Some(ranking) => ranking,
            None => order@,
        }),
        ExactCompositionNode::ExternalLeaf => leaf == Some(output),
        ExactCompositionNode::Fusion { inputs, weights, rrf_k, output_limit } => exists|
            order: Seq<ExtendedPointId>,
        |
            {
                &&& #[trigger] is_exhaustive_fusion(
                    arithmetic,
                    input_outputs(outputs, inputs@),
                    rrf_k,
                    weights@,
                    order,
                )
                &&& output == limited(order, output_limit)
            },
    }
}

/// Whether `outputs` holds the complete output of every node: the rankings of the
/// leaves, and the exhaustive fusions over them.
pub open spec fn are_outputs(
    nodes: Seq<ExactCompositionNode>,
    leaves: Seq<Option<Seq<ExtendedPointId>>>,
    arithmetic: spec_fn(i64, usize, usize, i64) -> i64,
    outputs: Seq<Seq<ExtendedPointId>>,
) -> bool {
    &&& outputs.len() == nodes.len()
    &&& leaves.len() == nodes.len()
    &&& forall|node: int|
        0 <= node < nodes.len() ==> is_output(
            nodes[node],
            leaves[node],
            arithmetic,
            outputs,
            #[trigger] outputs[node],
        )
}

/// The leaf rankings and the arithmetic determine every output of a network.
pub proof fn law_outputs_are_unique(
    plan: &ExactCompositionPlan,
    leaves: Seq<Option<Seq<ExtendedPointId>>>,
    arithmetic: spec_fn(i64, usize, usize, i64) -> i64,
    left: Seq<Seq<ExtendedPointId>>,
    right: Seq<Seq<ExtendedPointId>>,
)
    requires
        plan.wf(),
        are_outputs(plan.nodes(), leaves, arithmetic, left),
        are_outputs(plan.nodes(), leaves, arithmetic, right),
    ensures
        left == right,
{
    assert forall|node: int| 0 <= node < left.len() implies left[node] == right[node] by {
        lemma_every_node_is_placed(plan, node as usize);
        let place = choose|place: int| 0 <= place < plan.order().len() && plan.order()[place] == node;
        lemma_outputs_agree(plan, leaves, arithmetic, left, right, place);
    }
    assert(left =~= right);
}

/// Every node of a network stands in its order.
pub proof fn lemma_every_node_is_placed(plan: &ExactCompositionPlan, node: usize)
    requires
        plan.wf(),
        node < plan.nodes().len(),
    ensures
        plan.order().contains(node),
{
    if !plan.order().contains(node) {
        let longer = plan.order().push(node);
        let all = Seq::new(plan.nodes().len(), |i: int| i as usize);
        assert(longer.no_duplicates());
        assert forall|i: int| 0 <= i < longer.len() implies all.contains(#[trigger] longer[i]) by {
            assert(all[longer[i] as int] == longer[i]);
        }
        crate::tables::lemma_no_longer(longer, all);
    }
}

proof fn lemma_outputs_agree(
    plan: &ExactCompositionPlan,
    leaves: Seq<Option<Seq<ExtendedPointId>>>,
    arithmetic: spec_fn(i64, usize, usize, i64) -> i64,
    left: Seq<Seq<ExtendedPointId>>,
    right: Seq<Seq<ExtendedPointId>>,
    place: int,
)
    requires
        plan.wf(),
        are_outputs(plan.nodes(), leaves, arithmetic, left),
        are_outputs(plan.nodes(), leaves, arithmetic, right),
        0 <= place < plan.order().len(),
    ensures
        left[plan.order()[place] as int] == right[plan.order()[place] as int],
    decreases place,
{
    let node = plan.order()[place] as int;
    let definition = plan.nodes()[node];
    assert(is_output(definition, leaves[node], arithmetic, left, left[node]));
    assert(is_output(definition, leaves[node], arithmetic, right, right[node]));
    match definition {
        ExactCompositionNode::Fusion { inputs, weights, rrf_k, output_limit } => {
            assert forall|i: int| 0 <= i < inputs@.len() implies left[inputs@[i] as int]
                == right[inputs@[i] as int] by {
                let leading = plan.order().take(place);
                assert(leading.contains(inputs_of(plan.nodes()[plan.order()[place] as int])[i]));
                let before = choose|before: int|
                    0 <= before < leading.len() && leading[before] == inputs@[i];
                assert(plan.order()[before] == inputs@[i]);
                lemma_outputs_agree(plan, leaves, arithmetic, left, right, before);
            }
            let rankings = input_outputs(left, inputs@);
            assert(rankings =~= input_outputs(right, inputs@));
            let left_order = choose|order: Seq<ExtendedPointId>|
                {
                    &&& #[trigger] is_exhaustive_fusion(arithmetic, rankings, rrf_k, weights@, order)
                    &&& left[node] == limited(order, output_limit)
                };
            let right_order = choose|order: Seq<ExtendedPointId>|
                {
                    &&& #[trigger] is_exhaustive_fusion(arithmetic, rankings, rrf_k, weights@, order)
                    &&& right[node] == limited(order, output_limit)
                };
            law_score_order_is_unique(
                ranked(rankings),
                scores_under(arithmetic, rankings, rrf_k, weights@),
                left_order,
                right_order,
            );
        },
        _ => {},
    }
}

/// Whether the supplied streams yield the given leaf rankings and never fail.
pub open spec fn leaves_yield<L: FallibleExactCompositionStream>(
    streams: Seq<Option<L>>,
    leaves: Seq<Option<Seq<ExtendedPointId>>>,
) -> bool {
    &&& leaves.len() == streams.len()
    &&& forall|node: int|
        0 <= node < streams.len() ==> match #[trigger] streams[node] {
            Some(stream) => stream.rest() is Some && leaves[node] == stream.rest(),
            None => leaves[node] is None,
        }
}

/// Whether identities repeat, at a place, an identity of a ranking of which `count`
/// identities came before them.
pub open spec fn repeats_at(
    ids: Seq<ExtendedPointId>,
    ranking: Seq<ExtendedPointId>,
    count: nat,
    at: int,
) -> bool {
    &&& 0 <= at < ids.len()
    &&& count + at <= ranking.len()
    &&& ids.take(at) == ranking.subrange(count as int, count + at)
    &&& ranking.take(count + at).contains(ids[at])
}

/// Whether identities repeat one of a ranking, and the error says which.
pub open spec fn is_repeat(
    node: usize,
    ids: Seq<ExtendedPointId>,
    ranking: Seq<ExtendedPointId>,
    count: nat,
    error: ExactCompositionError,
) -> bool {
    exists|at: int| #[trigger]
        repeats_at(ids, ranking, count, at) && error
            == (ExactCompositionError::DuplicateLeafIdentity { node, identity: ids[at] })
}

/// Whether the stream of a leaf, after `count` identities of a ranking, yields some
/// more of them and then breaks off with an error: it fails, or repeats an identity.
pub open spec fn breaks_off(
    node: usize,
    rest: Option<Seq<ExtendedPointId>>,
    failing: Option<(Seq<ExtendedPointId>, ExactCompositionStreamFailure)>,
    ranking: Seq<ExtendedPointId>,
    count: nat,
    error: ExactCompositionError,
) -> bool {
    ||| rest matches Some(ids) && is_repeat(node, ids, ranking, count, error)
    ||| failing matches Some((ids, _)) && is_repeat(node, ids, ranking, count, error)
    ||| failing matches Some((ids, failure)) && ids.is_prefix_of(ranking.skip(count as int))
        && error == (ExactCompositionError::Leaf { node, failure })
}

/// Whether the supplied stream of a leaf yields a first part of the leaf's ranking
/// and breaks off with an error.
pub open spec fn leaf_breaks_off<L: FallibleExactCompositionStream>(
    streams: Seq<Option<L>>,
    leaves: Seq<Option<Seq<ExtendedPointId>>>,
    node: int,
    error: ExactCompositionError,
) -> bool {
    &&& 0 <= node < streams.len()
    &&& streams[node] matches Some(stream)
    &&& leaves[node] matches Some(ranking)
    &&& breaks_off(node as usize, stream.rest(), stream.failing(), ranking, 0, error)
}

/// Whether the supplied streams yield the given leaf rankings, or first parts of
/// them up to where they break off.
pub open spec fn leaves_begin<L: FallibleExactCompositionStream>(
    streams: Seq<Option<L>>,
    leaves: Seq<Option<Seq<ExtendedPointId>>>,
) -> bool {
    &&& leaves.len() == streams.len()
    &&& forall|node: int|
        0 <= node < streams.len() ==> match #[trigger] streams[node] {
            Some(stream) => {
                &&& leaves[node] is Some
                &&& {
                    ||| stream.rest() == leaves[node]
                    ||| exists|error: ExactCompositionError| #[trigger]
                        leaf_breaks_off(streams, leaves, node, error)
                }
            },
            None => leaves[node] is None,
        }
}

/// Whether streams are supplied for leaves only.
pub open spec fn streams_fit<L>(nodes: Seq<ExactCompositionNode>, streams: Seq<Option<L>>) -> bool {
    &&& streams.len() == nodes.len()
    &&& forall|node: int|
        0 <= node < nodes.len() && nodes[node] is Fusion ==> (#[trigger] streams[node]) is None
}

/// Whether streams are supplied for leaves only.
pub fn are_streams_fit<L>(plan: &ExactCompositionPlan, streams: &Vec<Option<L>>) -> (fit: bool)
    ensures
        fit == streams_fit(plan.nodes(), streams@),
{
    if streams.len() != plan.node_count() {
        return false;
    }
    let mut node: usize = 0;
    while node < streams.len()
        invariant
            node <= streams@.len(),
            streams@.len() == plan.nodes().len(),
            forall|i: int|
                0 <= i < node && plan.nodes()[i] is Fusion ==> (#[trigger] streams@[i]) is None,
        decreases streams@.len() - node,
    {
        let fusion = match plan.node(node) {
            ExactCompositionNode::Fusion { .. } => true,
            _ => false,
        };
        if fusion && streams[node].is_some() {
            assert(streams@[node as int] is Some);
            return false;
        }
        node += 1;
    }
    true
}

/// The fault of a leaf with a known ranking.
pub open spec fn leaf_fault(
    node: usize,
    definition: ExactCompositionNode,
    leaf: Option<Seq<ExtendedPointId>>,
) -> Option<ExactCompositionError> {
    match leaf {
        Some(ranking) => match first_repeated(ranking) {
            Some(identity) => Some(ExactCompositionError::DuplicateLeafIdentity { node, identity }),
            None => None,
        },
        None => if definition is ExternalLeaf {
            Some(ExactCompositionError::MissingLeafStream(node))
        } else {
            None
        },
    }
}

/// The first fault of a leaf, in the order in which nodes are built.
pub open spec fn leaves_fault(
    nodes: Seq<ExactCompositionNode>,
    order: Seq<usize>,
    leaves: Seq<Option<Seq<ExtendedPointId>>>,
    upto: int,
) -> Option<ExactCompositionError>
    decreases upto,
{
    if upto <= 0 {
        None
    } else {
        match leaves_fault(nodes, order, leaves, upto - 1) {
            Some(error) => Some(error),
            None => {
                let node = order[upto - 1];
                leaf_fault(node, nodes[node as int], leaves[node as int])
            },
        }
    }
}

proof fn lemma_leaves_fault_persists(
    nodes: Seq<ExactCompositionNode>,
    order: Seq<usize>,
    leaves: Seq<Option<Seq<ExtendedPointId>>>,
    upto: int,
)
    requires
        0 <= upto <= order.len(),
        leaves_fault(nodes, order, leaves, upto) is Some,
    ensures
        leaves_fault(nodes, order, leaves, order.len() as int) == leaves_fault(
            nodes,
            order,
            leaves,
            upto,
        ),
    decreases order.len() - upto,
{
    if upto < order.len() {
        lemma_leaves_fault_persists(nodes, order, leaves, upto + 1);
    }
}

/// The error of a leaf whose stream fails after the given identities.
pub open spec fn failing_leaf(
    node: usize,
    ranking: Seq<ExtendedPointId>,
    failure: ExactCompositionStreamFailure,
) -> ExactCompositionError {
    match first_repeated(ranking) {
        Some(identity) => ExactCompositionError::DuplicateLeafIdentity { node, identity },
        None => ExactCompositionError::Leaf { node, failure },
    }
}

/// Reads a leaf stream to its end.
pub fn collect_leaf_stream<L: FallibleExactCompositionStream>(
    node: usize,
    stream: LeafStream<L>,
) -> (result: Result<Vec<ExtendedPointId>, ExactCompositionError>)
    ensures
        result matches Ok(ids) ==> ids@.no_duplicates(),
        stream.rest() matches Some(ranking) ==> (ranking.len() <= usize::MAX ==> match first_repeated(ranking) {
            Some(identity) => result == Err::<Vec<ExtendedPointId>, ExactCompositionError>(
                ExactCompositionError::DuplicateLeafIdentity { node, identity },
            ),
            None => result matches Ok(ids) && ids@ == ranking,
        }),
        stream.failing() matches Some((ranking, failure)) ==> (ranking.len() <= usize::MAX
            ==> result == Err::<Vec<ExtendedPointId>, ExactCompositionError>(
            failing_leaf(node, ranking, failure),
        )),
{
    let ghost known = stream.rest();
    let ghost failing = stream.failing();
    let mut reading = stream;
    let mut seen = IdSet::new();
    let mut output: Vec<ExtendedPointId> = Vec::new();
    proof {
        if known is Some {
            assert(known->0.skip(0) =~= known->0);
            assert(known->0.take(0) =~= output@);
        }
        if failing is Some {
            let (ranking, _) = failing.unwrap();
            assert(ranking.skip(0) =~= ranking);
            assert(ranking.take(0) =~= output@);
        }
    }
    loop
        invariant
            known == stream.rest(),
            failing == stream.failing(),
            failing matches Some((ranking, failure)) ==> {
                &&& output@.len() <= ranking.len()
                &&& output@ == ranking.take(output@.len() as int)
                &&& reading.failing() == Some((ranking.skip(output@.len() as int), failure))
            },
            output@.no_duplicates(),
            output@.len() <= usize::MAX,
            forall|id: ExtendedPointId| seen@.contains(id) <==> output@.contains(id),
            first_repeated(output@) is None,
            known matches Some(ranking) ==> {
                &&& output@.len() <= ranking.len()
                &&& output@ == ranking.take(output@.len() as int)
                &&& reading.rest() == Some(ranking.skip(output@.len() as int))
            },
        decreases usize::MAX - output@.len(),
    {
        match reading.next() {
            Ok(Some(identity)) => {
                let ghost before = output@;
                proof {
                    if known is Some {
                        let ranking = known->0;
                        assert(before.len() < ranking.len());
                        assert(ranking.take((before.len() + 1) as int) =~= before.push(identity));
                        assert(ranking.skip(before.len() as int).drop_first() =~= ranking.skip(
                            (before.len() + 1) as int,
                        ));
                    }
                    if failing is Some {
                        let (ranking, _) = failing.unwrap();
                        assert(before.len() < ranking.len());
                        assert(ranking.take((before.len() + 1) as int) =~= before.push(identity));
                        assert(ranking.skip(before.len() as int).drop_first() =~= ranking.skip(
                            (before.len() + 1) as int,
                        ));
                    }
                    assert(before.push(identity).drop_last() =~= before);
                }
                if !seen.insert(identity) {
                    proof {
                        if known is Some {
                            let ranking = known->0;
                            lemma_repeated_persists(ranking, (before.len() + 1) as int);
                        }
                        if failing is Some {
                            let (ranking, _) = failing.unwrap();
                            lemma_repeated_persists(ranking, (before.len() + 1) as int);
                        }
                    }
                    return Err(ExactCompositionError::DuplicateLeafIdentity { node, identity });
                }
                output.push(identity);
                let count: usize = output.len();
                proof {
                    assert(count == output@.len());
                    assert forall|id: ExtendedPointId| seen@.contains(id) <==> output@.contains(
                        id,
                    ) by {
                        if before.contains(id) {
                            let k = choose|k: int| 0 <= k < before.len() && before[k] == id;
                            assert(output@[k] == id);
                        }
                        if id == identity {
                            assert(output@[before.len() as int] == id);
                        }
                        if output@.contains(id) && id != identity {
                            let k = choose|k: int| 0 <= k < output@.len() && output@[k] == id;
                            assert(before[k] == id);
                        }
                    }
                    assert(output@.drop_last() =~= before);
                }
            },
            Ok(None) => {
                proof {
                    if known is Some {
                        let ranking = known->0;
                        assert(ranking.skip(output@.len() as int).len() == 0);
                        assert(ranking.take(output@.len() as int) =~= ranking);
                    }
                }
                return Ok(output);
            },
            Err(failure) => {
                proof {
                    if failing is Some {
                        let (ranking, _) = failing.unwrap();
                        assert(ranking.skip(output@.len() as int).len() == 0);
                        assert(ranking.take(output@.len() as int) =~= ranking);
                    }
                }
                return Err(ExactCompositionError::Leaf { node, failure });
            },
        }
    }
}

proof fn lemma_repeated_persists(ids: Seq<ExtendedPointId>, count: int)
    requires
        0 <= count <= ids.len(),
        first_repeated(ids.take(count)) is Some,
    ensures
        first_repeated(ids) == first_repeated(ids.take(count)),
    decreases ids.len() - count,
{
    if count == ids.len() {
        assert(ids.take(count) =~= ids);
    } else {
        assert(ids.take(count + 1).drop_last() =~= ids.take(count));
        lemma_repeated_persists(ids, count + 1);
    }
}

/// A point of a ranking as a response holds it.
fn scored_point(id: ExtendedPointId) -> (point: ScoredPoint)
    ensures
        point == (ScoredPoint { id, version: 0, score: 0, attached: None }),
{
    ScoredPoint { id, version: 0, score: 0, attached: None }
}

/// A ranking as a response.
fn response_of(ranking: &Vec<ExtendedPointId>) -> (response: Vec<ScoredPoint>)
    ensures
        ids_of(response@) == ranking@,
{
    let mut response: Vec<ScoredPoint> = Vec::new();
    let mut i: usize = 0;
    while i < ranking.len()
        invariant
            i == response@.len(),
            i <= ranking@.len(),
            ids_of(response@) =~= ranking@.take(i as int),
        decreases ranking@.len() - i,
    {
        response.push(scored_point(ranking[i]));
        i += 1;
    }
    assert(ids_of(response@) =~= ranking@);
    response
}

/// The identities of points.
fn identities_of(points: &Vec<ScoredPoint>) -> (ids: Vec<ExtendedPointId>)
    ensures
        ids@ == ids_of(points@),
{
    let mut ids: Vec<ExtendedPointId> = Vec::new();
    let mut i: usize = 0;
    while i < points.len()
        invariant
            i <= points@.len(),
            ids@ =~= ids_of(points@).take(i as int),
        decreases points@.len() - i,
    {
        ids.push(points[i].id);
        i += 1;
    }
    assert(ids@ =~= ids_of(points@));
    ids
}

/// The materialized outputs of the inputs of a fusion.
pub open spec fn materialized_inputs(
    materialized: Seq<Vec<ExtendedPointId>>,
    inputs: Seq<usize>,
) -> Seq<Seq<ExtendedPointId>> {
    Seq::new(inputs.len(), |i: int| materialized[inputs[i] as int]@)
}

/// Whether no ranking repeats an identity.
pub open spec fn without_repeats(rankings: Seq<Seq<ExtendedPointId>>) -> bool {
    forall|i: int| 0 <= i < rankings.len() ==> (#[trigger] rankings[i]).no_duplicates()
}

/// Whether `output` is the complete output of a fusion over materialized inputs.
pub open spec fn fuses_materialized<F: Fn(i64, usize, usize, i64) -> i64>(
    inputs: Seq<usize>,
    weights: Seq<i64>,
    rrf_k: usize,
    output_limit: Option<usize>,
    materialized: Seq<Vec<ExtendedPointId>>,
    accumulate: F,
    output: Seq<ExtendedPointId>,
) -> bool {
    let rankings = materialized_inputs(materialized, inputs);
    forall|arithmetic: spec_fn(i64, usize, usize, i64) -> i64|
        #[trigger] computes(accumulate, arithmetic) && without_repeats(rankings) ==> exists|
            order: Seq<ExtendedPointId>,
        |
            {
                &&& #[trigger] is_exhaustive_fusion(arithmetic, rankings, rrf_k, weights, order)
                &&& output == limited(order, output_limit)
            }
}

/// The complete output of a fusion over materialized inputs.
fn fuse_materialized<F: Fn(i64, usize, usize, i64) -> i64>(
    node: usize,
    inputs: &Vec<usize>,
    weights: &Vec<i64>,
    rrf_k: usize,
    output_limit: Option<usize>,
    materialized: &Vec<Vec<ExtendedPointId>>,
    accumulate: &F,
) -> (result: Result<Vec<ExtendedPointId>, ExactCompositionError>)
    requires
        accepts(*accumulate),
        inputs@.len() == weights@.len(),
        forall|i: int| 0 <= i < inputs@.len() ==> #[trigger] inputs@[i] < materialized@.len(),
    ensures
        result matches Ok(output) && fuses_materialized(
            inputs@,
            weights@,
            rrf_k,
            output_limit,
            materialized@,
            *accumulate,
            output@,
        ),
{
    let ghost rankings = materialized_inputs(materialized@, inputs@);
    let mut responses: Vec<Vec<ScoredPoint>> = Vec::new();
    let mut i: usize = 0;
    while i < inputs.len()
        invariant
            i == responses@.len(),
            i <= inputs@.len(),
            rankings == materialized_inputs(materialized@, inputs@),
            forall|k: int| 0 <= k < inputs@.len() ==> #[trigger] inputs@[k] < materialized@.len(),
            rankings_of(responses@) =~= rankings.take(i as int),
        decreases inputs@.len() - i,
    {
        assert(inputs@[i as int] < materialized@.len());
        responses.push(response_of(&materialized[inputs[i]]));
        i += 1;
    }
    assert(rankings_of(responses@) =~= rankings);
    let ghost given = responses@;
    match exact_rrf_scoring(responses, rrf_k, Some(weights), accumulate) {
        Ok(points) => {
            let order = identities_of(&points);
            let output = match output_limit {
                Some(limit) => copied_prefix(&order, limit),
                None => copied(&order),
            };
            proof {
                let rows = choose|rows: Seq<ScoredPoint>|
                    #[trigger] counts_responses(
                        *accumulate,
                        given,
                        rrf_k,
                        weights_of(Some(weights)),
                        rows,
                    ) && rows.len() <= usize::MAX && points@ == ordered_points(rows).filter(
                        |point: ScoredPoint| point.score > 0,
                    );
                assert forall|arithmetic: spec_fn(i64, usize, usize, i64) -> i64|
                    #[trigger] computes(*accumulate, arithmetic) && without_repeats(
                        rankings,
                    ) implies exists|order: Seq<ExtendedPointId>|
                    {
                        &&& #[trigger] is_exhaustive_fusion(
                            arithmetic,
                            rankings,
                            rrf_k,
                            weights@,
                            order,
                        )
                        &&& output@ == limited(order, output_limit)
                    } by {
                    assert forall|k: int| 0 <= k < given.len() implies ids_of(
                        (#[trigger] given[k])@,
                    ).no_duplicates() && given[k]@.len() <= usize::MAX by {
                        assert(rankings_of(given)[k] == rankings[k]);
                        assert(rankings[k].no_duplicates());
                        assert(given[k].len() <= usize::MAX);
                    }
                    law_exact_scoring_is_exhaustive(
                        *accumulate,
                        arithmetic,
                        given,
                        rrf_k,
                        weights@,
                        rows,
                    );
                    assert(is_exhaustive_fusion(arithmetic, rankings, rrf_k, weights@, order@));
                }
            }
            Ok(output)
        },
        Err(error) => Err(ExactCompositionError::Fusion { node, error }),
    }
}


/// The identities that the nodes of one kind have put out, over the leading
/// places of the order.
pub open spec fn materialized_count(
    nodes: Seq<ExactCompositionNode>,
    order: Seq<usize>,
    sizes: Seq<usize>,
    fusions: bool,
    upto: int,
) -> nat
    decreases upto,
{
    if upto <= 0 {
        0
    } else {
        let node = order[upto - 1] as int;
        materialized_count(nodes, order, sizes, fusions, upto - 1) + if fusions == (
        nodes[node] is Fusion) {
            sizes[node] as nat
        } else {
            0
        }
    }
}

/// A count as far as a number can hold it.
pub open spec fn counted(total: nat) -> usize {
    if total <= usize::MAX {
        total as usize
    } else {
        usize::MAX
    }
}

/// Counts do not look behind the leading places.
proof fn lemma_count_frame(
    plan: &ExactCompositionPlan,
    left: Seq<usize>,
    right: Seq<usize>,
    fusions: bool,
    upto: int,
)
    requires
        plan.wf(),
        0 <= upto <= plan.order().len(),
        forall|place: int|
            0 <= place < upto ==> left[#[trigger] plan.order()[place] as int]
                == right[plan.order()[place] as int],
    ensures
        materialized_count(plan.nodes(), plan.order(), left, fusions, upto) == materialized_count(
            plan.nodes(),
            plan.order(),
            right,
            fusions,
            upto,
        ),
    decreases upto,
{
    if upto > 0 {
        lemma_count_frame(plan, left, right, fusions, upto - 1);
        assert(left[plan.order()[upto - 1] as int] == right[plan.order()[upto - 1] as int]);
    }
}

/// Whether a full materialization reports the outputs of a network.
pub open spec fn materializes(
    plan: &ExactCompositionPlan,
    root_top_k: usize,
    outputs: Seq<Seq<ExtendedPointId>>,
    execution: ExactCompositionExhaustiveExecution,
) -> bool {
    &&& execution.point_ids@ == first_of(outputs[plan.root() as int], root_top_k)
    &&& execution.node_output_identities@ == Seq::new(
        outputs.len(),
        |node: int| outputs[node].len() as usize,
    )
}

/// The supplied streams of a network whose leaves are all held by its plan.
pub open spec fn no_streams(count: nat) -> Seq<Option<IdStream>> {
    Seq::new(count, |node: int| None::<IdStream>)
}

/// Whether a node can be materialized: a leaf yields a ranking and never fails.
pub open spec fn is_sound_leaf<L: FallibleExactCompositionStream>(
    definition: ExactCompositionNode,
    stream: Option<L>,
) -> bool {
    match (definition, stream) {
        (ExactCompositionNode::Fusion { .. }, _) => true,
        (_, Some(stream)) => stream.rest() matches Some(ranking) && ranking.no_duplicates()
            && ranking.len() <= usize::MAX,
        (ExactCompositionNode::Leaf { .. }, None) => true,
        (ExactCompositionNode::ExternalLeaf, None) => false,
    }
}

/// The error with which materializing a leaf ends, where that is known.
pub open spec fn leaf_error<L: FallibleExactCompositionStream>(
    node: usize,
    definition: ExactCompositionNode,
    stream: Option<L>,
) -> Option<ExactCompositionError> {
    match stream {
        Some(stream) => match (stream.failing(), stream.rest()) {
            (Some((ranking, failure)), _) => if ranking.len() <= usize::MAX {
                Some(failing_leaf(node, ranking, failure))
            } else {
                None
            },
            (None, Some(ranking)) => if ranking.len() <= usize::MAX {
                leaf_fault(node, definition, Some(ranking))
            } else {
                None
            },
            (None, None) => None,
        },
        None => leaf_fault(node, definition, None),
    }
}

/// Whether the leaf at a place is the first that fails, in the order in which nodes are
/// built, and with which error.
pub open spec fn fails_first<L: FallibleExactCompositionStream>(
    plan: &ExactCompositionPlan,
    streams: Seq<Option<L>>,
    place: int,
    error: ExactCompositionError,
) -> bool {
    &&& 0 <= place < plan.order().len()
    &&& leaf_error(
        plan.order()[place],
        plan.nodes()[plan.order()[place] as int],
        streams[plan.order()[place] as int],
    ) == Some(error)
    &&& forall|earlier: int|
        0 <= earlier < place ==> {
            let node = #[trigger] plan.order()[earlier] as int;
            is_sound_leaf(plan.nodes()[node], streams[node])
        }
}

/// What materializing a network returns: the fault of the request or of a leaf,
/// where there is one; and where the leaf streams yield rankings and never fail,
/// the first identities of the root's complete output.
pub open spec fn exhausts<
    L: FallibleExactCompositionStream,
    F: Fn(i64, usize, usize, i64) -> i64,
>(
    plan: &ExactCompositionPlan,
    root_top_k: usize,
    leaf_streams: Seq<Option<L>>,
    accumulate: F,
    result: Result<ExactCompositionExhaustiveExecution, ExactCompositionError>,
) -> bool {
    if root_top_k == 0 {
        result == Err::<ExactCompositionExhaustiveExecution, ExactCompositionError>(
            ExactCompositionError::InvalidRequestedTopK,
        )
    } else if !streams_fit(plan.nodes(), leaf_streams) {
        result == Err::<ExactCompositionExhaustiveExecution, ExactCompositionError>(
            ExactCompositionError::InvalidLeafStreams,
        )
    } else {
        &&& result matches Ok(execution) ==> {
            let sizes = execution.node_output_identities@;
            let leaf_count = materialized_count(
                plan.nodes(),
                plan.order(),
                sizes,
                false,
                plan.order().len() as int,
            );
            let fusion_count = materialized_count(
                plan.nodes(),
                plan.order(),
                sizes,
                true,
                plan.order().len() as int,
            );
            &&& sizes.len() == plan.nodes().len()
            &&& execution.leaf_identities_materialized == counted(leaf_count)
            &&& execution.intermediate_identities_materialized == counted(fusion_count)
            &&& execution.total_identities_materialized == counted(leaf_count + fusion_count)
        }
        &&& forall|place: int, error: ExactCompositionError| #[trigger]
            fails_first(plan, leaf_streams, place, error) ==> result == Err::<
                ExactCompositionExhaustiveExecution,
                ExactCompositionError,
            >(error)
        &&& forall|leaves: Seq<Option<Seq<ExtendedPointId>>>|
            #[trigger] leaves_yield(leaf_streams, leaves) && fit_in_memory(leaves)
                ==> match leaves_fault(
                plan.nodes(),
                plan.order(),
                leaves,
                plan.order().len() as int,
            ) {
                Some(error) => result == Err::<
                    ExactCompositionExhaustiveExecution,
                    ExactCompositionError,
                >(error),
                None => result is Ok,
            }
        &&& forall|
            leaves: Seq<Option<Seq<ExtendedPointId>>>,
            arithmetic: spec_fn(i64, usize, usize, i64) -> i64,
            outputs: Seq<Seq<ExtendedPointId>>,
        |
            leaves_yield(leaf_streams, leaves) && computes(accumulate, arithmetic)
                && #[trigger] are_outputs(plan.nodes(), leaves, arithmetic, outputs) ==> {
                &&& result matches Ok(execution)
                &&& materializes(plan, root_top_k, outputs, execution)
            }
    }
}

impl ExactCompositionPlan {
    /// The first identities of the root's complete output.
    pub fn exhaustive_root<F: Fn(i64, usize, usize, i64) -> i64>(
        &self,
        root_top_k: usize,
        accumulate: &F,
    ) -> (result: Result<Vec<ExtendedPointId>, ExactCompositionError>)
        requires
            self.wf(),
            accepts(*accumulate),
        ensures
            exists|execution: Result<ExactCompositionExhaustiveExecution, ExactCompositionError>|
                #[trigger] exhausts(
                    self,
                    root_top_k,
                    no_streams(self.nodes().len()),
                    *accumulate,
                    execution,
                ) && result == (match execution {
                    Ok(execution) => Ok(execution.point_ids),
                    Err(error) => Err(error),
                }),
    {
        let execution = self.exhaustive_execute(root_top_k, accumulate);
        let ghost outcome = execution;
        assert(exhausts(
            self,
            root_top_k,
            no_streams(self.nodes().len()),
            *accumulate,
            outcome,
        ));
        match execution {
            Ok(execution) => Ok(execution.point_ids),
            Err(error) => Err(error),
        }
    }

    /// Materializes every node of a network whose leaves are held by the plan.
    pub fn exhaustive_execute<F: Fn(i64, usize, usize, i64) -> i64>(
        &self,
        root_top_k: usize,
        accumulate: &F,
    ) -> (result: Result<ExactCompositionExhaustiveExecution, ExactCompositionError>)
        requires
            self.wf(),
            accepts(*accumulate),
        ensures
            exhausts(
                self,
                root_top_k,
                no_streams(self.nodes().len()),
                *accumulate,
                result,
            ),
    {
        let mut leaf_streams: Vec<Option<IdStream>> = Vec::new();
        while leaf_streams.len() < self.node_count()
            invariant
                leaf_streams@.len() <= self.nodes().len(),
                forall|node: int|
                    0 <= node < leaf_streams@.len() ==> (#[trigger] leaf_streams@[node]) is None,
            decreases self.nodes().len() - leaf_streams@.len(),
        {
            leaf_streams.push(None);
        }
        assert(leaf_streams@ =~= no_streams(self.nodes().len()));
        self.exhaustive_with_fallible_leaf_streams(root_top_k, leaf_streams, accumulate)
    }

    /// Materializes every leaf and every fusion of the network.
    pub fn exhaustive_with_fallible_leaf_streams<
        L: FallibleExactCompositionStream,
        F: Fn(i64, usize, usize, i64) -> i64,
    >(&self, root_top_k: usize, leaf_streams: Vec<Option<L>>, accumulate: &F) -> (result: Result<
        ExactCompositionExhaustiveExecution,
        ExactCompositionError,
    >)
        requires
            self.wf(),
            accepts(*accumulate),
        ensures
            exhausts(self, root_top_k, leaf_streams@, *accumulate, result),
    {
        if root_top_k == 0 {
            return Err(ExactCompositionError::InvalidRequestedTopK);
        }
        if !are_streams_fit(self, &leaf_streams) {
            return Err(ExactCompositionError::InvalidLeafStreams);
        }
        let ghost given = leaf_streams@;
        let mut streams = leaf_streams;
        let count: usize = self.node_count();
        let mut materialized: Vec<Vec<ExtendedPointId>> = Vec::new();
        while materialized.len() < count
            invariant
                materialized@.len() <= count,
                forall|node: int|
                    0 <= node < materialized@.len() ==> (#[trigger] materialized@[node])@
                        == Seq::<ExtendedPointId>::empty(),
            decreases count - materialized@.len(),
        {
            materialized.push(Vec::new());
        }
        let mut sizes: Vec<usize> = repeated(0, count);
        let mut leaf_total: usize = 0;
        let mut fusion_total: usize = 0;
        let mut place: usize = 0;
        proof {
            lemma_sound_nodes(self.nodes());
        }
        while place < count
            invariant
                self.wf(),
                accepts(*accumulate),
                root_top_k > 0,
                given == leaf_streams@,
                streams_fit(self.nodes(), given),
                count == self.nodes().len(),
                count == self.order().len(),
                place <= count,
                streams@.len() == count,
                materialized@.len() == count,
                sizes@.len() == count,
                forall|node: int|
                    0 <= node < count ==> node_fault(
                        node as usize,
                        #[trigger] self.nodes()[node],
                        self.nodes().len(),
                    ) is None,
                forall|node: int, input: int|
                    0 <= node < count && 0 <= input < inputs_of(
                        #[trigger] self.nodes()[node],
                    ).len() ==> #[trigger] inputs_of(self.nodes()[node])[input] < count,
                forall|node: int|
                    0 <= node < count ==> (#[trigger] self.nodes()[node]
                        matches ExactCompositionNode::Leaf { order } ==> order@.no_duplicates()),
                forall|later: int|
                    place <= later < count ==> streams@[#[trigger] self.order()[later] as int]
                        == given[self.order()[later] as int],
                leaf_total == counted(
                    materialized_count(self.nodes(), self.order(), sizes@, false, place as int),
                ),
                fusion_total == counted(
                    materialized_count(self.nodes(), self.order(), sizes@, true, place as int),
                ),
                forall|leaves: Seq<Option<Seq<ExtendedPointId>>>|
                    #[trigger] leaves_yield(given, leaves) && fit_in_memory(leaves)
                        ==> leaves_fault(self.nodes(), self.order(), leaves, place as int) is None,
                forall|at: int, error: ExactCompositionError| #[trigger]
                    fails_first(self, given, at, error) ==> at >= place,
                forall|
                    leaves: Seq<Option<Seq<ExtendedPointId>>>,
                    arithmetic: spec_fn(i64, usize, usize, i64) -> i64,
                    outputs: Seq<Seq<ExtendedPointId>>,
                    earlier: int,
                |
                    0 <= earlier < place && leaves_yield(given, leaves) && computes(
                        *accumulate,
                        arithmetic,
                    ) && #[trigger] are_outputs(self.nodes(), leaves, arithmetic, outputs) ==> {
                        let node = #[trigger] self.order()[earlier] as int;
                        &&& materialized@[node]@ == outputs[node]
                        &&& sizes@[node] == outputs[node].len()
                    },
            decreases count - place,
        {
            let node: usize = self.ordered_node(place);
            let ghost before = materialized@;
            let ghost old_sizes = sizes@;
            let ghost definition = self.nodes()[node as int];
            assert(streams@[node as int] == given[node as int]);
            assert(node_fault(node, definition, self.nodes().len()) is None);
            let mut is_fusion = false;
            let supplied = streams[node].take();
            let output = match self.node(node) {
                ExactCompositionNode::Leaf { order } => {
                    assert(order.len() <= usize::MAX);
                    let stream = match supplied {
                        Some(stream) => LeafStream::Supplied(stream),
                        None => LeafStream::Held(infallible_exact_rrf_stream(copied(order))),
                    };
                    let ghost rest = stream.rest();
                    let collected = collect_leaf_stream(node, stream);
                    proof {
                        assert forall|at: int, error: ExactCompositionError| #[trigger]
                            fails_first(self, given, at, error) implies {
                            &&& at >= place
                            &&& at == place ==> collected == Err::<
                                Vec<ExtendedPointId>,
                                ExactCompositionError,
                            >(error)
                            &&& at > place ==> collected is Ok
                        } by {
                            if at > place {
                                assert(is_sound_leaf(
                                    self.nodes()[self.order()[place as int] as int],
                                    given[self.order()[place as int] as int],
                                ));
                                if rest is Some {
                                    lemma_no_repeats(rest->0);
                                }
                            }
                        }
                        lemma_leaf_collected(self, given, place as int, rest, collected);
                    }
                    match collected {
                        Ok(output) => output,
                        Err(error) => {
                            return Err(error);
                        },
                    }
                },
                ExactCompositionNode::ExternalLeaf => {
                    let stream = match supplied {
                        Some(stream) => LeafStream::Supplied(stream),
                        None => {
                            proof {
                                assert forall|at: int, error: ExactCompositionError| #[trigger]
                                    fails_first(self, given, at, error) implies error
                                    == ExactCompositionError::MissingLeafStream(node) by {
                                    if at > place {
                                        assert(is_sound_leaf(
                                            self.nodes()[self.order()[place as int] as int],
                                            given[self.order()[place as int] as int],
                                        ));
                                    }
                                }
                                assert forall|leaves: Seq<Option<Seq<ExtendedPointId>>>|
                                    #[trigger] leaves_yield(given, leaves) && fit_in_memory(
                                        leaves,
                                    ) implies leaves_fault(
                                    self.nodes(),
                                    self.order(),
                                    leaves,
                                    self.order().len() as int,
                                ) == Some(ExactCompositionError::MissingLeafStream(node)) by {
                                    assert(given[node as int] is None);
                                    lemma_leaves_fault_persists(
                                        self.nodes(),
                                        self.order(),
                                        leaves,
                                        place + 1,
                                    );
                                }
                                assert forall|
                                    leaves: Seq<Option<Seq<ExtendedPointId>>>,
                                    arithmetic: spec_fn(i64, usize, usize, i64) -> i64,
                                    outputs: Seq<Seq<ExtendedPointId>>,
                                |
                                    leaves_yield(given, leaves) && #[trigger] are_outputs(
                                        self.nodes(),
                                        leaves,
                                        arithmetic,
                                        outputs,
                                    ) implies false by {
                                    assert(given[node as int] is None);
                                    assert(is_output(
                                        definition,
                                        leaves[node as int],
                                        arithmetic,
                                        outputs,
                                        outputs[node as int],
                                    ));
                                }
                            }
                            return Err(ExactCompositionError::MissingLeafStream(node));
                        },
                    };
                    let ghost rest = stream.rest();
                    let collected = collect_leaf_stream(node, stream);
                    proof {
                        assert forall|at: int, error: ExactCompositionError| #[trigger]
                            fails_first(self, given, at, error) implies {
                            &&& at >= place
                            &&& at == place ==> collected == Err::<
                                Vec<ExtendedPointId>,
                                ExactCompositionError,
                            >(error)
                            &&& at > place ==> collected is Ok
                        } by {
                            if at > place {
                                assert(is_sound_leaf(
                                    self.nodes()[self.order()[place as int] as int],
                                    given[self.order()[place as int] as int],
                                ));
                                if rest is Some {
                                    lemma_no_repeats(rest->0);
                                }
                            }
                        }
                        lemma_leaf_collected(self, given, place as int, rest, collected);
                    }
                    match collected {
                        Ok(output) => output,
                        Err(error) => {
                            return Err(error);
                        },
                    }
                },
                ExactCompositionNode::Fusion { inputs, weights, rrf_k, output_limit } => {
                    is_fusion = true;
                    proof {
                        assert(inputs@ == inputs_of(definition));
                        assert forall|i: int| 0 <= i < inputs@.len() implies #[trigger] inputs@[i]
                            < materialized@.len() by {
                            assert(inputs_of(self.nodes()[node as int])[i] < count);
                        }
                    }
                    match fuse_materialized(
                        node,
                        inputs,
                        weights,
                        *rrf_k,
                        *output_limit,
                        &materialized,
                        accumulate,
                    ) {
                        Ok(output) => {
                            proof {
                                lemma_fusion_materialized(
                                    self,
                                    given,
                                    place as int,
                                    *accumulate,
                                    materialized@,
                                    output@,
                                );
                            }
                            output
                        },
                        Err(error) => {
                            return Err(error);
                        },
                    }
                },
            };
            let size: usize = output.len();
            if is_fusion {
                fusion_total = fusion_total.saturating_add(size);
            } else {
                leaf_total = leaf_total.saturating_add(size);
            }
            sizes.set(node, size);
            materialized.set(node, output);
            proof {
                assert(is_fusion == (definition is Fusion));
                assert forall|earlier: int| 0 <= earlier < place implies old_sizes[
                #[trigger] self.order()[earlier] as int] == sizes@[self.order()[earlier] as int] by {
                    assert(self.order()[earlier] != self.order()[place as int]);
                }
                lemma_count_frame(self, old_sizes, sizes@, true, place as int);
                lemma_count_frame(self, old_sizes, sizes@, false, place as int);
                assert forall|
                    leaves: Seq<Option<Seq<ExtendedPointId>>>,
                    arithmetic: spec_fn(i64, usize, usize, i64) -> i64,
                    outputs: Seq<Seq<ExtendedPointId>>,
                    earlier: int,
                |
                    0 <= earlier < place + 1 && leaves_yield(given, leaves) && computes(
                        *accumulate,
                        arithmetic,
                    ) && #[trigger] are_outputs(
                        self.nodes(),
                        leaves,
                        arithmetic,
                        outputs,
                    ) implies {
                    let at = #[trigger] self.order()[earlier] as int;
                    &&& materialized@[at]@ == outputs[at]
                    &&& sizes@[at] == outputs[at].len()
                } by {
                    if earlier < place {
                        assert(self.order()[earlier] != self.order()[place as int]);
                    }
                }
            }
            place += 1;
        }
        let root: usize = self.root_node();
        let point_ids = copied_prefix(&materialized[root], root_top_k);
        let execution = ExactCompositionExhaustiveExecution {
            point_ids,
            node_output_identities: sizes,
            leaf_identities_materialized: leaf_total,
            intermediate_identities_materialized: fusion_total,
            total_identities_materialized: leaf_total.saturating_add(fusion_total),
        };
        proof {
            assert forall|
                leaves: Seq<Option<Seq<ExtendedPointId>>>,
                arithmetic: spec_fn(i64, usize, usize, i64) -> i64,
                outputs: Seq<Seq<ExtendedPointId>>,
            |
                leaves_yield(given, leaves) && computes(*accumulate, arithmetic)
                    && #[trigger] are_outputs(self.nodes(), leaves, arithmetic, outputs) implies
                materializes(self, root_top_k, outputs, execution) by {
                assert forall|node: int| 0 <= node < outputs.len() implies
                    materialized@[node]@ == outputs[node] && sizes@[node] == outputs[node].len() by {
                    lemma_every_node_is_placed(self, node as usize);
                    let at = choose|at: int|
                        0 <= at < self.order().len() && self.order()[at] == node;
                    assert(self.order()[at] == node);
                }
                assert(execution.node_output_identities@ =~= Seq::new(
                    outputs.len(),
                    |node: int| outputs[node].len() as usize,
                ));
            }
        }
        Ok(execution)
    }
}

/// Whether every ranking is short enough to be held.
pub open spec fn fit_in_memory(leaves: Seq<Option<Seq<ExtendedPointId>>>) -> bool {
    forall|node: int|
        0 <= node < leaves.len() ==> ((#[trigger] leaves[node]) matches Some(ranking)
            ==> ranking.len() <= usize::MAX)
}

/// What collecting the leaf at a place means for the outputs of the network.
proof fn lemma_leaf_collected<L: FallibleExactCompositionStream>(
    plan: &ExactCompositionPlan,
    given: Seq<Option<L>>,
    place: int,
    rest: Option<Seq<ExtendedPointId>>,
    collected: Result<Vec<ExtendedPointId>, ExactCompositionError>,
)
    requires
        plan.wf(),
        streams_fit(plan.nodes(), given),
        0 <= place < plan.order().len(),
        ({
            let node = plan.order()[place];
            let definition = plan.nodes()[node as int];
            &&& !(definition is Fusion)
            &&& definition is ExternalLeaf ==> given[node as int] is Some
            &&& definition matches ExactCompositionNode::Leaf { order } ==> order@.no_duplicates()
            &&& match given[node as int] {
                Some(stream) => rest == stream.rest(),
                None => definition matches ExactCompositionNode::Leaf { order } && rest == Some(
                    order@,
                ) && order@.len() <= usize::MAX,
            }
            &&& rest matches Some(ranking) ==> (ranking.len() <= usize::MAX
                ==> match first_repeated(ranking) {
                Some(identity) => collected == Err::<Vec<ExtendedPointId>, ExactCompositionError>(
                    ExactCompositionError::DuplicateLeafIdentity { node, identity },
                ),
                None => collected matches Ok(ids) && ids@ == ranking,
            })
        }),
        forall|leaves: Seq<Option<Seq<ExtendedPointId>>>|
            #[trigger] leaves_yield(given, leaves) && fit_in_memory(leaves) ==> leaves_fault(
                plan.nodes(),
                plan.order(),
                leaves,
                place,
            ) is None,
    ensures
        collected is Err ==> forall|leaves: Seq<Option<Seq<ExtendedPointId>>>|
            #[trigger] leaves_yield(given, leaves) && fit_in_memory(leaves) ==> leaves_fault(
                plan.nodes(),
                plan.order(),
                leaves,
                plan.order().len() as int,
            ) == Some(collected->Err_0),
        collected is Ok ==> forall|leaves: Seq<Option<Seq<ExtendedPointId>>>|
            #[trigger] leaves_yield(given, leaves) && fit_in_memory(leaves) ==> leaves_fault(
                plan.nodes(),
                plan.order(),
                leaves,
                place + 1,
            ) is None,
        forall|
            leaves: Seq<Option<Seq<ExtendedPointId>>>,
            arithmetic: spec_fn(i64, usize, usize, i64) -> i64,
            outputs: Seq<Seq<ExtendedPointId>>,
        |
            leaves_yield(given, leaves) && #[trigger] are_outputs(
                plan.nodes(),
                leaves,
                arithmetic,
                outputs,
            ) ==> {
                &&& collected matches Ok(ids)
                &&& ids@ == outputs[plan.order()[place] as int]
            },
{
    let node = plan.order()[place];
    let definition = plan.nodes()[node as int];
    assert forall|leaves: Seq<Option<Seq<ExtendedPointId>>>|
        #[trigger] leaves_yield(given, leaves) && fit_in_memory(leaves) implies match collected {
        Err(error) => leaves_fault(
            plan.nodes(),
            plan.order(),
            leaves,
            plan.order().len() as int,
        ) == Some(error),
        Ok(_) => leaves_fault(plan.nodes(), plan.order(), leaves, place + 1) is None,
    } by {
        let _ = given[node as int];
        let _ = leaves[node as int];
        if given[node as int] is None {
            let order = definition->order;
            lemma_no_repeats(order@);
        }
        if collected is Err {
            lemma_leaves_fault_persists(plan.nodes(), plan.order(), leaves, place + 1);
        }
    }
    assert forall|
        leaves: Seq<Option<Seq<ExtendedPointId>>>,
        arithmetic: spec_fn(i64, usize, usize, i64) -> i64,
        outputs: Seq<Seq<ExtendedPointId>>,
    |
        leaves_yield(given, leaves) && #[trigger] are_outputs(
            plan.nodes(),
            leaves,
            arithmetic,
            outputs,
        ) implies {
        &&& collected matches Ok(ids)
        &&& ids@ == outputs[node as int]
    } by {
        let _ = given[node as int];
        assert(is_output(
            definition,
            leaves[node as int],
            arithmetic,
            outputs,
            outputs[node as int],
        ));
        lemma_no_repeats(outputs[node as int]);
    }
}

/// A sequence without duplicates repeats nothing.
proof fn lemma_no_repeats(ids: Seq<ExtendedPointId>)
    requires
        ids.no_duplicates(),
    ensures
        first_repeated(ids) is None,
    decreases ids.len(),
{
    if ids.len() > 0 {
        let shorter = ids.drop_last();
        lemma_no_repeats(shorter);
        if shorter.contains(ids.last()) {
            let k = choose|k: int| 0 <= k < shorter.len() && shorter[k] == ids.last();
            assert(ids[k] == ids[ids.len() - 1]);
        }
    }
}

/// What fusing the inputs of the node at a place means for the outputs of the
/// network.
proof fn lemma_fusion_materialized<
    L: FallibleExactCompositionStream,
    F: Fn(i64, usize, usize, i64) -> i64,
>(
    plan: &ExactCompositionPlan,
    given: Seq<Option<L>>,
    place: int,
    accumulate: F,
    materialized: Seq<Vec<ExtendedPointId>>,
    output: Seq<ExtendedPointId>,
)
    requires
        plan.wf(),
        streams_fit(plan.nodes(), given),
        0 <= place < plan.order().len(),
        materialized.len() == plan.nodes().len(),
        plan.nodes()[plan.order()[place] as int] matches ExactCompositionNode::Fusion {
            inputs,
            weights,
            rrf_k,
            output_limit,
        } && fuses_materialized(
            inputs@,
            weights@,
            rrf_k,
            output_limit,
            materialized,
            accumulate,
            output,
        ),
        forall|leaves: Seq<Option<Seq<ExtendedPointId>>>|
            #[trigger] leaves_yield(given, leaves) && fit_in_memory(leaves) ==> leaves_fault(
                plan.nodes(),
                plan.order(),
                leaves,
                place,
            ) is None,
        forall|
            leaves: Seq<Option<Seq<ExtendedPointId>>>,
            arithmetic: spec_fn(i64, usize, usize, i64) -> i64,
            outputs: Seq<Seq<ExtendedPointId>>,
            earlier: int,
        |
            0 <= earlier < place && leaves_yield(given, leaves) && computes(accumulate, arithmetic)
                && #[trigger] are_outputs(plan.nodes(), leaves, arithmetic, outputs)
                ==> materialized[#[trigger] plan.order()[earlier] as int]@
                == outputs[plan.order()[earlier] as int],
    ensures
        forall|leaves: Seq<Option<Seq<ExtendedPointId>>>|
            #[trigger] leaves_yield(given, leaves) && fit_in_memory(leaves) ==> leaves_fault(
                plan.nodes(),
                plan.order(),
                leaves,
                place + 1,
            ) is None,
        forall|
            leaves: Seq<Option<Seq<ExtendedPointId>>>,
            arithmetic: spec_fn(i64, usize, usize, i64) -> i64,
            outputs: Seq<Seq<ExtendedPointId>>,
        |
            leaves_yield(given, leaves) && computes(accumulate, arithmetic)
                && #[trigger] are_outputs(plan.nodes(), leaves, arithmetic, outputs) ==> output
                == outputs[plan.order()[place] as int],
{
    let node = plan.order()[place];
    let definition = plan.nodes()[node as int];
    if let ExactCompositionNode::Fusion { inputs, weights, rrf_k, output_limit } = definition {
        let rankings = materialized_inputs(materialized, inputs@);
        assert forall|leaves: Seq<Option<Seq<ExtendedPointId>>>|
            #[trigger] leaves_yield(given, leaves) && fit_in_memory(leaves) implies leaves_fault(
            plan.nodes(),
            plan.order(),
            leaves,
            place + 1,
        ) is None by {
            assert(given[node as int] is None);
        }
        assert forall|
            leaves: Seq<Option<Seq<ExtendedPointId>>>,
            arithmetic: spec_fn(i64, usize, usize, i64) -> i64,
            outputs: Seq<Seq<ExtendedPointId>>,
        |
            leaves_yield(given, leaves) && computes(accumulate, arithmetic)
                && #[trigger] are_outputs(plan.nodes(), leaves, arithmetic, outputs) implies output
            == outputs[node as int] by {
            assert(is_output(
                definition,
                leaves[node as int],
                arithmetic,
                outputs,
                outputs[node as int],
            ));
            assert forall|i: int| 0 <= i < inputs@.len() implies rankings[i]
                == outputs[inputs@[i] as int] && rankings[i].no_duplicates() by {
                let leading = plan.order().take(place);
                assert(leading.contains(inputs_of(plan.nodes()[plan.order()[place] as int])[i]));
                let before = choose|before: int|
                    0 <= before < leading.len() && leading[before] == inputs@[i];
                assert(plan.order()[before] == inputs@[i]);
                let input = inputs@[i] as int;
                assert(is_output(
                    plan.nodes()[input],
                    leaves[input],
                    arithmetic,
                    outputs,
                    outputs[input],
                ));
            }
            assert(rankings =~= input_outputs(outputs, inputs@));
            assert(without_repeats(rankings));
            let expected = choose|order: Seq<ExtendedPointId>|
                {
                    &&& #[trigger] is_exhaustive_fusion(
                        arithmetic,
                        input_outputs(outputs, inputs@),
                        rrf_k,
                        weights@,
                        order,
                    )
                    &&& outputs[node as int] == limited(order, output_limit)
                };
            let order = choose|order: Seq<ExtendedPointId>|
                {
                    &&& #[trigger] is_exhaustive_fusion(arithmetic, rankings, rrf_k, weights@, order)
                    &&& output == limited(order, output_limit)
                };
            law_score_order_is_unique(
                ranked(rankings),
                scores_under(arithmetic, rankings, rrf_k, weights@),
                expected,
                order,
            );
        }
    }
}

} // verus!
