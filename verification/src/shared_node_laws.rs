//! What holds of channels that share the blocks of one catalog.

use crate::dense_laws::{counted_places, law_exact_order_falls_by_score, lemma_counted};
use crate::frontier::{exact_order, ids_of, law_exact_order_is_exhaustive, Frontier, NodeTree};
use crate::operation_error::OperationResult;
use crate::order::{finite_key, ExtendedPointId};
use crate::reciprocal_rank_fusion::session::DynamicRrfSource;
use crate::reciprocal_rank_fusion::types::{DynamicRrfExecution, IdStream};
use crate::shared_node::{
    all_members, bound_fault, channel_ranking, channel_rankings, channel_scores, concludes,
    fails_at, fails_first, first_repeated, identity_at, no_channel_work, opened_once, opens_blocks,
    passes_at, plan_fault, plans_fault, request_count, set_count, starts_search, stream_at,
    taken_count, takes_best, SharedChannelPlan, SharedExactStream, SharedNChannelExecution,
    SharedNodeError, SharedPhysicalTelemetry,
};
use vstd::prelude::*;

verus! {

/// The identity that is reported as repeated is the first that occurs a second time.
pub proof fn law_first_repetition(ids: Seq<u32>, at: int, other: int)
    requires
        first_repeated(ids, at),
    ensures
        0 <= at < ids.len(),
        exists|earlier: int| 0 <= earlier < at && #[trigger] ids[earlier] == ids[at],
        forall|i: int, j: int| 0 <= i < j < at ==> #[trigger] ids[i] != #[trigger] ids[j],
        first_repeated(ids, other) ==> other == at,
        !ids.no_duplicates(),
{
    let first = ids.take(at);
    let earlier = choose|earlier: int| 0 <= earlier < first.len() && first[earlier] == ids[at];
    assert(ids[earlier] == ids[at]);
    assert forall|i: int, j: int| 0 <= i < j < at implies #[trigger] ids[i] != #[trigger] ids[j] by {
        assert(first[i] != first[j]);
    }
    if first_repeated(ids, other) && other != at {
        let second = ids.take(other);
        if other < at {
            let k = choose|k: int| 0 <= k < second.len() && second[k] == ids[other];
            assert(first[k] == first[other]);
        } else {
            assert(second[earlier] == second[at]);
        }
    }
}

/// Opening a block counts one request. A block that was open before is reused; a new one
/// is materialized with its identities, and nothing is reused.
pub proof fn law_opening_counts_once(
    before: SharedPhysicalTelemetry,
    known: bool,
    identity_count: usize,
)
    requires
        before.node_open_requests < usize::MAX,
        before.unique_node_materializations < usize::MAX,
        before.reused_node_materializations < usize::MAX,
        before.unique_identity_materializations + identity_count <= usize::MAX,
    ensures
        ({
            let after = opened_once(before, known, identity_count);
            &&& after.node_open_requests == before.node_open_requests + 1
            &&& after.reused_node_materializations == before.reused_node_materializations + (
            if known {
                1int
            } else {
                0
            })
            &&& after.unique_node_materializations == before.unique_node_materializations + (
            if known {
                0int
            } else {
                1
            })
            &&& after.unique_identity_materializations == before.unique_identity_materializations
                + (if known {
                0
            } else {
                identity_count as int
            })
        }),
{
}

/// One more block is opened on what the earlier ones have left: it is marked, the other
/// marks stay, and its identities are those between its ends.
pub proof fn law_blocks_are_opened_in_turn(
    tree: NodeTree,
    opened: Seq<usize>,
    before: (Seq<bool>, SharedPhysicalTelemetry),
    node: usize,
)
    requires
        node < tree.nodes@.len(),
    ensures
        ({
            let (marks, counted) = opens_blocks(tree, opened, before);
            let (later, recounted) = opens_blocks(tree, opened.push(node), before);
            &&& later == marks.update(node as int, true)
            &&& recounted == opened_once(
                counted,
                marks[node as int],
                (tree.nodes@[node as int].end - tree.nodes@[node as int].start) as usize,
            )
        }),
        opens_blocks(tree, Seq::empty(), before) == before,
{
    assert(opened.push(node).drop_last() =~= opened);
}

/// Bounds are accepted where there is one place for every block and every bound that is
/// given is finite; else the first that is not is named.
pub proof fn law_accepted_bounds(tree: NodeTree, bounds: Seq<Option<i64>>)
    requires
        bounds.len() <= usize::MAX,
    ensures
        plan_fault(tree, bounds) is None <==> bounds.len() == tree.nodes@.len() && forall|node: int|
            0 <= node < bounds.len() && (#[trigger] bounds[node]) is Some ==> finite_key(
                bounds[node]->0,
            ),
        bounds.len() != tree.nodes@.len() ==> plan_fault(tree, bounds) == Some(
            SharedNodeError::BoundCountMismatch {
                expected: tree.nodes@.len() as usize,
                actual: bounds.len() as usize,
            },
        ),
        bounds.len() == tree.nodes@.len() && plan_fault(tree, bounds) is Some ==> exists|node: int|
            {
                &&& 0 <= node < bounds.len()
                &&& (#[trigger] bounds[node]) is Some
                &&& !finite_key(bounds[node]->0)
                &&& plan_fault(tree, bounds) == Some(
                    SharedNodeError::InvalidBound { node: node as usize },
                )
                &&& forall|earlier: int|
                    0 <= earlier < node && (#[trigger] bounds[earlier]) is Some ==> finite_key(
                        bounds[earlier]->0,
                    )
            },
{
    lemma_first_bound(bounds, 0);
}

proof fn lemma_first_bound(bounds: Seq<Option<i64>>, from: int)
    requires
        0 <= from <= bounds.len(),
    ensures
        bound_fault(bounds, from) is None <==> forall|node: int|
            from <= node < bounds.len() && (#[trigger] bounds[node]) is Some ==> finite_key(
                bounds[node]->0,
            ),
        bound_fault(bounds, from) is Some ==> exists|node: int|
            {
                &&& from <= node < bounds.len()
                &&& (#[trigger] bounds[node]) is Some
                &&& !finite_key(bounds[node]->0)
                &&& bound_fault(bounds, from) == Some(
                    SharedNodeError::InvalidBound { node: node as usize },
                )
                &&& forall|earlier: int|
                    from <= earlier < node && (#[trigger] bounds[earlier]) is Some ==> finite_key(
                        bounds[earlier]->0,
                    )
            },
    decreases bounds.len() - from,
{
    if from < bounds.len() {
        lemma_first_bound(bounds, from + 1);
        if bounds[from] is Some && !finite_key(bounds[from]->0) {
        } else if bound_fault(bounds, from) is Some {
            let node = choose|node: int|
                {
                    &&& from + 1 <= node < bounds.len()
                    &&& (#[trigger] bounds[node]) is Some
                    &&& !finite_key(bounds[node]->0)
                    &&& bound_fault(bounds, from + 1) == Some(
                        SharedNodeError::InvalidBound { node: node as usize },
                    )
                    &&& forall|earlier: int|
                        from + 1 <= earlier < node && (#[trigger] bounds[earlier]) is Some
                            ==> finite_key(bounds[earlier]->0)
                };
            assert(bounds[node] is Some);
        } else {
            assert forall|node: int|
                from <= node < bounds.len() && (#[trigger] bounds[node]) is Some implies finite_key(
                bounds[node]->0,
            ) by {
                if node > from {
                    assert(from + 1 <= node);
                }
            }
        }
    }
}

/// Plans are accepted where the bounds of each are; the first that is refused is reported.
pub proof fn law_first_refused_plan<F>(
    tree: NodeTree,
    plans: Seq<SharedChannelPlan<F>>,
    from: int,
)
    requires
        0 <= from <= plans.len(),
    ensures
        plans_fault(tree, plans, from) is None <==> forall|plan: int|
            from <= plan < plans.len() ==> plan_fault(
                tree,
                (#[trigger] plans[plan]).node_upper_bounds@,
            ) is None,
        plans_fault(tree, plans, from) is Some ==> exists|plan: int|
            {
                &&& from <= plan < plans.len()
                &&& plans_fault(tree, plans, from) == plan_fault(
                    tree,
                    (#[trigger] plans[plan]).node_upper_bounds@,
                )
                &&& forall|earlier: int|
                    from <= earlier < plan ==> plan_fault(
                        tree,
                        (#[trigger] plans[earlier]).node_upper_bounds@,
                    ) is None
            },
    decreases plans.len() - from,
{
    if from < plans.len() {
        law_first_refused_plan(tree, plans, from + 1);
        let first = plans[from];
        if plan_fault(tree, first.node_upper_bounds@) is None {
            if plans_fault(tree, plans, from) is Some {
                let plan = choose|plan: int|
                    {
                        &&& from + 1 <= plan < plans.len()
                        &&& plans_fault(tree, plans, from + 1) == plan_fault(
                            tree,
                            (#[trigger] plans[plan]).node_upper_bounds@,
                        )
                        &&& forall|earlier: int|
                            from + 1 <= earlier < plan ==> plan_fault(
                                tree,
                                (#[trigger] plans[earlier]).node_upper_bounds@,
                            ) is None
                    };
                let refused = plans[plan];
            } else {
                assert forall|plan: int| from <= plan < plans.len() implies plan_fault(
                    tree,
                    (#[trigger] plans[plan]).node_upper_bounds@,
                ) is None by {
                    if plan > from {
                        assert(from + 1 <= plan);
                    }
                }
            }
        }
    }
}

/// What a channel scores stands in a block with a bound, is what its scorer answers, and is
/// at most the bound.
pub proof fn law_scores_of_a_channel<F: Fn(usize, u32) -> Result<Option<i64>, SharedNodeError>>(
    score: F,
    tree: NodeTree,
    bounds: Seq<Option<i64>>,
    scores: spec_fn(int) -> Option<i64>,
    node: int,
    point: int,
)
    requires
        channel_scores(score, tree, bounds, scores),
        0 <= node < tree.nodes@.len(),
        tree.nodes@[node].start <= point < tree.nodes@[node].end,
    ensures
        bounds[node] is None ==> scores(point) is None,
        bounds[node] is Some ==> score.ensures(
            (point as usize, tree.ids@[point]),
            Ok(scores(point)),
        ),
        scores(point) is Some ==> bounds[node] is Some && scores(point)->0 <= bounds[node]->0,
{
    assert(tree.covers(node, point));
    let bound = bounds[node];
    let given = scores(point);
}

/// A ranking of a channel holds the identity of every point that has a score and of no
/// other, from the highest score, and equal scores from the smallest identity.
pub proof fn law_channel_ranking_falls_by_score(
    tree: NodeTree,
    scores: spec_fn(int) -> Option<i64>,
    point: int,
    i: int,
    j: int,
)
    requires
        tree.wf(),
        0 <= point < tree.ids@.len(),
        0 <= i < j < channel_ranking(tree, scores).len(),
    ensures
        channel_ranking(tree, scores).contains(ExtendedPointId::NumId(tree.ids@[point] as u64))
            <==> scores(point) is Some,
        exists|left: int, right: int|
            {
                &&& 0 <= left < tree.ids@.len()
                &&& 0 <= right < tree.ids@.len()
                &&& channel_ranking(tree, scores)[i] == ExtendedPointId::NumId(
                    (#[trigger] tree.ids@[left]) as u64,
                )
                &&& channel_ranking(tree, scores)[j] == ExtendedPointId::NumId(
                    (#[trigger] tree.ids@[right]) as u64,
                )
                &&& scores(left) is Some
                &&& scores(right) is Some
                &&& scores(left)->0 > scores(right)->0 || scores(left)->0 == scores(right)->0
                    && tree.ids@[left] < tree.ids@[right]
            },
{
    let held = all_members(tree, scores);
    lemma_counted(tree.ids@.len() as int, |at: int| scores(at) is Some);
    assert(held =~= counted_places(tree.ids@.len() as int, |at: int| scores(at) is Some));
    law_exact_order_is_exhaustive(tree, scores, held);
    law_exact_order_falls_by_score(tree, scores, held, i, j);
    let order = exact_order(tree, scores, held);
    let ranking = channel_ranking(tree, scores);
    let id = ExtendedPointId::NumId(tree.ids@[point] as u64);
    let left = order[i];
    let right = order[j];
    assert(tree.ids@[left] == tree.ids@[left] && tree.ids@[right] == tree.ids@[right]);
    if scores(point) is Some {
        assert(order.contains(point));
        let at = choose|at: int| 0 <= at < order.len() && order[at] == point;
        assert(ranking[at] == id);
    }
    if ranking.contains(id) {
        let at = choose|at: int| 0 <= at < ranking.len() && ranking[at] == id;
        assert(order.contains(order[at]));
        assert(tree.ids@[order[at]] == tree.ids@[point]);
        assert(order[at] == point);
    }
}

/// Every channel has a ranking of its own.
pub proof fn law_every_channel_has_its_ranking(
    tree: NodeTree,
    tables: Seq<spec_fn(int) -> Option<i64>>,
    channel: int,
)
    requires
        0 <= channel < tables.len(),
    ensures
        channel_rankings(tree, tables).len() == tables.len(),
        channel_rankings(tree, tables)[channel] == ids_of(
            tree,
            exact_order(tree, tables[channel], all_members(tree, tables[channel])),
        ),
        forall|point: int| #[trigger]
            all_members(tree, tables[channel]).contains(point) <==> 0 <= point < tree.ids@.len()
                && tables[channel](point) is Some,
{
}

/// The blocks that are marked are counted one by one, and the requests channel by channel.
pub proof fn law_marks_and_requests(flags: Seq<bool>, opened: Seq<Seq<usize>>, next: Seq<usize>)
    ensures
        set_count(flags, flags.len() as int) == counted_places(
            flags.len() as int,
            |node: int| flags[node],
        ).len(),
        request_count(Seq::empty()) == 0,
        request_count(opened.push(next)) == request_count(opened) + next.len(),
{
    lemma_set_count(flags, flags.len() as int);
    assert(opened.push(next).drop_last() =~= opened);
}

proof fn lemma_set_count(flags: Seq<bool>, upto: int)
    requires
        0 <= upto <= flags.len(),
    ensures
        set_count(flags, upto) == counted_places(upto, |node: int| flags[node]).len(),
    decreases upto,
{
    lemma_counted(upto, |node: int| flags[node]);
    if upto > 0 {
        lemma_set_count(flags, upto - 1);
    }
}

/// A point passes where its scorer answers a finite score that is at most the bound, or
/// none; it fails with the error of the scorer, for a score that is not finite, or for one
/// above the bound, and then it is named.
pub proof fn law_points_that_fail<F: Fn(usize, u32) -> Result<Option<i64>, SharedNodeError>>(
    tree: NodeTree,
    node: usize,
    bound: i64,
    score: F,
    point: int,
    value: i64,
    error: SharedNodeError,
)
    ensures
        score.ensures((point as usize, tree.ids@[point]), Ok(Some(value))) && value <= bound
            && finite_key(value) ==> passes_at(tree, bound, score, point),
        score.ensures((point as usize, tree.ids@[point]), Ok(None)) ==> passes_at(
            tree,
            bound,
            score,
            point,
        ),
        score.ensures((point as usize, tree.ids@[point]), Err(error)) ==> fails_at(
            tree,
            node as int,
            bound,
            score,
            point,
            error,
        ),
        score.ensures((point as usize, tree.ids@[point]), Ok(Some(value))) && !finite_key(value)
            ==> fails_at(
            tree,
            node as int,
            bound,
            score,
            point,
            SharedNodeError::InvalidScore { point: tree.ids@[point] },
        ),
        score.ensures((point as usize, tree.ids@[point]), Ok(Some(value))) && finite_key(value)
            && value > bound ==> fails_at(
            tree,
            node as int,
            bound,
            score,
            point,
            SharedNodeError::BoundViolation { node, point: tree.ids@[point] },
        ),
{
}

/// A point that was taken counts once and has the identity of its place; a channel that was
/// not asked has done nothing.
pub proof fn law_taken_points(tree: NodeTree, point: usize)
    ensures
        taken_count(Some(point)) == 1,
        taken_count(None) == 0,
        identity_at(tree, Some(point)) == Some(
            ExtendedPointId::NumId(tree.ids@[point as int] as u64),
        ),
        identity_at(tree, None) is None,
        no_channel_work().nodes_expanded == 0,
        no_channel_work().documents_scored == 0,
        no_channel_work().points_emitted == 0,
{
}

/// Where a channel fails, the failure of the first that does is returned, whatever the fusion
/// has come to; else the fusion is returned with what every channel has done, or its error.
pub proof fn law_concluded_fusions<'a, F: Fn(usize, u32) -> Result<Option<i64>, SharedNodeError>>(
    tree: NodeTree,
    plans: Seq<SharedChannelPlan<F>>,
    streams: Seq<DynamicRrfSource<SharedExactStream<'a, F>, IdStream>>,
    outcome: OperationResult<DynamicRrfExecution>,
    result: Result<SharedNChannelExecution, SharedNodeError>,
    channel: int,
)
    requires
        concludes(tree, plans, streams, outcome, result),
        0 <= channel < streams.len(),
    ensures
        fails_first(streams, channel) ==> result is Err,
        result is Ok ==> outcome is Ok && result->Ok_0.fusion == outcome->Ok_0
            && result->Ok_0.channels@.len() == plans.len(),
        result is Ok && channel < plans.len() ==> result->Ok_0.channels@[channel] == stream_at(
            streams,
            channel,
        ).counted(),
        result is Ok ==> !fails_first(streams, channel),
        outcome is Err && !(exists|failed: int| #[trigger] fails_first(streams, failed)) ==> result
            == Err::<SharedNChannelExecution, SharedNodeError>(
            SharedNodeError::Fusion(outcome->Err_0),
        ),
{
    if result is Ok && channel < plans.len() {
        let report = result->Ok_0.channels@[channel];
    }
}

/// A search of a channel begins with the blocks that have a bound, each with its own, and
/// with no score.
pub proof fn law_fresh_searches(
    frontier: Frontier,
    tree: NodeTree,
    bounds: Seq<Option<i64>>,
    node: int,
)
    requires
        starts_search(frontier, tree, bounds),
    ensures
        frontier.bounds().contains_key(node) <==> 0 <= node < tree.nodes@.len() && bounds[node]
            is Some,
        frontier.bounds().contains_key(node) ==> Some(frontier.bounds()[node]) == bounds[node],
        frontier.scores().dom() == Set::<int>::empty(),
{
    assert(frontier.scores().dom() =~= Set::<int>::empty());
}

/// The point that is taken is the best of those that are left, and nothing else leaves; none
/// is taken where none is left.
pub proof fn law_taken_best(
    tree: NodeTree,
    scores: spec_fn(int) -> Option<i64>,
    before: Set<int>,
    point: usize,
    after: Set<int>,
    other: int,
)
    ensures
        takes_best(tree, scores, before, Some(point), after) && before.contains(other)
            && scores(other) is Some ==> scores(other)->0 <= scores(point as int)->0,
        takes_best(tree, scores, before, Some(point), after) ==> before.contains(point as int)
            && !after.contains(point as int) && (other != point as int ==> (after.contains(other)
            <==> before.contains(other))),
        takes_best(tree, scores, before, None, after) ==> !before.contains(other),
{
}

} // verus!
