//! What a demand-driven execution asks of every node: the outputs of the nodes as logs, and
//! how the session of a fusion comes by each of its outputs.

use super::plan::{inputs_of, ExactCompositionPlan};
use super::runtime::place_of;
use super::types::{
    ExactCompositionError, ExactCompositionNode, ExactCompositionStreamFailure,
    FallibleExactCompositionStream,
};
use crate::operation_error::{Fault, OperationError};
use crate::order::ExtendedPointId;
use crate::reciprocal_rank_fusion::progress::{
    fresh_session, steps_to, ProgressView, SessionStep,
};
use crate::reciprocal_rank_fusion::session::{no_targets, order_is_kept};
use crate::reciprocal_rank_fusion::state::{first_of, UNIT_WEIGHT};
use crate::reciprocal_rank_fusion::types::{
    DynamicRrfExecution, DynamicRrfPolicy, DynamicRrfStopReason,
};
use vstd::prelude::*;

verus! {

/// What a node has put out, and whether it has said that there is no more.
pub struct NodeLog {
    pub outputs: Seq<ExtendedPointId>,
    pub ended: bool,
}

impl NodeLog {
    /// What a reader at a rank was told, where it was told anything.
    pub open spec fn answer(self, rank: int) -> Option<Option<ExtendedPointId>> {
        if 0 <= rank < self.outputs.len() {
            Some(Some(self.outputs[rank]))
        } else if self.ended && rank == self.outputs.len() {
            Some(None)
        } else {
            None
        }
    }

    /// Whether a log can become another.
    pub open spec fn grows_to(self, later: NodeLog) -> bool {
        &&& self.outputs.len() <= later.outputs.len()
        &&& self.outputs == later.outputs.take(self.outputs.len() as int)
        &&& self.ended ==> later == self
    }
}

/// What the stream of a leaf will yield, where that is known.
pub struct LeafOrigin {
    pub rest: Option<Seq<ExtendedPointId>>,
    pub failing: Option<(Seq<ExtendedPointId>, ExactCompositionStreamFailure)>,
}

/// What an execution begins with.
pub struct NetworkOrigin {
    pub leaves: Seq<LeafOrigin>,
    pub policy: DynamicRrfPolicy,
}

/// What a leaf begins with: its supplied stream, or the order that the plan holds.
pub open spec fn leaf_origin<L: FallibleExactCompositionStream>(
    definition: ExactCompositionNode,
    stream: Option<L>,
) -> LeafOrigin {
    match (stream, definition) {
        (Some(stream), _) => LeafOrigin { rest: stream.rest(), failing: stream.failing() },
        (None, ExactCompositionNode::Leaf { order }) => LeafOrigin {
            rest: Some(order@),
            failing: None,
        },
        _ => LeafOrigin { rest: None, failing: None },
    }
}

/// What an execution begins with.
pub open spec fn network_origin<L: FallibleExactCompositionStream>(
    nodes: Seq<ExactCompositionNode>,
    leaf_streams: Seq<Option<L>>,
    policy: DynamicRrfPolicy,
) -> NetworkOrigin {
    NetworkOrigin {
        leaves: Seq::new(nodes.len(), |node: int| leaf_origin(nodes[node], leaf_streams[node])),
        policy,
    }
}

/// The session that a fusion begins with.
pub open spec fn first_session(
    definition: ExactCompositionNode,
    policy: DynamicRrfPolicy,
) -> ProgressView {
    match definition {
        ExactCompositionNode::Fusion { inputs, weights, rrf_k, output_limit } => fresh_session(
            inputs@.len() as usize,
            1,
            1,
            rrf_k,
            Some(weights@),
            Seq::new(inputs@.len(), |i: int| UNIT_WEIGHT),
            policy,
        ),
        _ => arbitrary(),
    }
}

/// The limit of the output of a node.
pub open spec fn limit_of(definition: ExactCompositionNode) -> Option<usize> {
    match definition {
        ExactCompositionNode::Fusion { output_limit, .. } => output_limit,
        _ => None,
    }
}

/// The logs of the inputs of a node.
pub open spec fn input_logs(logs: Seq<NodeLog>, inputs: Seq<usize>) -> Seq<NodeLog> {
    Seq::new(inputs.len(), |slot: int| logs[inputs[slot] as int])
}

/// The identities of an answer.
pub open spec fn answered_ids(answer: Option<ExtendedPointId>) -> Seq<ExtendedPointId> {
    match answer {
        Some(id) => seq![id],
        None => Seq::empty(),
    }
}

/// Whether a session chooses an input, asks it for one identity at the rank that it has
/// reached, and takes the answer.
#[verifier::opaque]
pub open spec fn log_pulls<
    F: Fn(i64, usize, usize, i64) -> i64,
    P: Fn(usize, usize, i64, usize, i64) -> i64,
>(
    before: ProgressView,
    inputs: Seq<NodeLog>,
    accumulate: F,
    priority: P,
    source: usize,
    after: ProgressView,
) -> bool {
    let rank = before.fusion.histories[source as int].len();
    &&& source < inputs.len()
    &&& exists|chosen: ProgressView|
        {
            &&& #[trigger] steps_to(
                before,
                no_targets(inputs.len()),
                accumulate,
                priority,
                SessionStep::Pull(source),
                chosen,
            )
            &&& inputs[source as int].answer(rank as int) matches Some(answer)
            &&& chosen.supply_fault(
                source,
                rank as usize,
                answered_ids(answer),
                answer is None,
            ) is None
            &&& after == chosen.supplied(source, answered_ids(answer), answer is None)
        }
}

/// Whether a session, after a number of pulls, is in the given state.
#[verifier::opaque]
pub open spec fn log_comes_to<
    F: Fn(i64, usize, usize, i64) -> i64,
    P: Fn(usize, usize, i64, usize, i64) -> i64,
>(
    before: ProgressView,
    inputs: Seq<NodeLog>,
    accumulate: F,
    priority: P,
    count: nat,
    after: ProgressView,
) -> bool
    decreases count,
{
    if count == 0 {
        after == before
    } else {
        exists|middle: ProgressView, source: usize|
            {
                &&& log_comes_to(before, inputs, accumulate, priority, (count - 1) as nat, middle)
                &&& #[trigger] log_pulls(middle, inputs, accumulate, priority, source, after)
            }
    }
}

/// Whether a session that has pulled enough fixes a prefix: the step that fixes it, and
/// what is kept where all inputs have ended.
#[verifier::opaque]
pub open spec fn log_settles<
    F: Fn(i64, usize, usize, i64) -> i64,
    P: Fn(usize, usize, i64, usize, i64) -> i64,
>(
    middle: ProgressView,
    inputs: Seq<NodeLog>,
    target: usize,
    accumulate: F,
    priority: P,
    ids: Seq<ExtendedPointId>,
    after: ProgressView,
) -> bool {
    exists|execution: DynamicRrfExecution, checked: ProgressView|
        {
            &&& #[trigger] steps_to(
                middle,
                no_targets(inputs.len()),
                accumulate,
                priority,
                SessionStep::Fixed(execution),
                checked,
            )
            &&& if execution.stop_reason == DynamicRrfStopReason::AllSourcesExhausted {
                &&& after.order matches Some(order)
                &&& after == (ProgressView { order: Some(order), ..checked })
                &&& order_is_kept(after, accumulate)
                &&& ids == first_of(order, target)
            } else {
                &&& after == checked
                &&& ids == execution.point_ids@
            }
        }
}

/// Whether a session comes by its next output after `rank` outputs: it asks for a prefix
/// that is one longer, and pulls until it is fixed and not further.
#[verifier::opaque]
pub open spec fn fixes<
    F: Fn(i64, usize, usize, i64) -> i64,
    P: Fn(usize, usize, i64, usize, i64) -> i64,
>(
    before: ProgressView,
    inputs: Seq<NodeLog>,
    rank: nat,
    accumulate: F,
    priority: P,
    ids: Seq<ExtendedPointId>,
    after: ProgressView,
) -> bool {
    let target = (rank + 1) as usize;
    let raised = before.raised(target);
    match before.order {
        Some(order) => after == raised && ids == first_of(order, target),
        None => exists|count: nat, middle: ProgressView|
            {
                &&& #[trigger] log_comes_to(
                    raised,
                    inputs,
                    accumulate,
                    priority,
                    count,
                    middle,
                )
                &&& log_settles(middle, inputs, target, accumulate, priority, ids, after)
            },
    }
}

/// Whether a session has put out the given identities, one after the other, and is then in
/// the given state.
#[verifier::opaque]
pub open spec fn puts_out<
    F: Fn(i64, usize, usize, i64) -> i64,
    P: Fn(usize, usize, i64, usize, i64) -> i64,
>(
    start: ProgressView,
    inputs: Seq<NodeLog>,
    accumulate: F,
    priority: P,
    outputs: Seq<ExtendedPointId>,
    after: ProgressView,
) -> bool
    decreases outputs.len(),
{
    if outputs.len() == 0 {
        after == start
    } else {
        exists|middle: ProgressView, ids: Seq<ExtendedPointId>|
            {
                &&& puts_out(start, inputs, accumulate, priority, outputs.drop_last(), middle)
                &&& #[trigger] fixes(
                    middle,
                    inputs,
                    (outputs.len() - 1) as nat,
                    accumulate,
                    priority,
                    ids,
                    after,
                )
                &&& outputs.len() <= ids.len()
                &&& ids[outputs.len() - 1] == outputs.last()
            }
    }
}

/// Whether a fusion has no further output: its limit is reached, or the fusion of its
/// inputs is at its end.
#[verifier::opaque]
pub open spec fn log_ends<
    F: Fn(i64, usize, usize, i64) -> i64,
    P: Fn(usize, usize, i64, usize, i64) -> i64,
>(
    view: ProgressView,
    inputs: Seq<NodeLog>,
    limit: Option<usize>,
    rank: nat,
    accumulate: F,
    priority: P,
) -> bool {
    ||| limit matches Some(limit) && limit <= rank
    ||| exists|ids: Seq<ExtendedPointId>, after: ProgressView|
        #[trigger] fixes(view, inputs, rank, accumulate, priority, ids, after) && ids.len() <= rank
}

/// Whether the log of a fusion follows from the logs of its inputs.
#[verifier::opaque]
pub open spec fn fusion_logged<
    F: Fn(i64, usize, usize, i64) -> i64,
    P: Fn(usize, usize, i64, usize, i64) -> i64,
>(
    start: ProgressView,
    limit: Option<usize>,
    inputs: Seq<NodeLog>,
    accumulate: F,
    priority: P,
    log: NodeLog,
) -> bool {
    exists|view: ProgressView|
        {
            &&& #[trigger] puts_out(start, inputs, accumulate, priority, log.outputs, view)
            &&& log.ended ==> log_ends(
                view,
                inputs,
                limit,
                log.outputs.len(),
                accumulate,
                priority,
            )
        }
}

/// Whether pulls and checks are those that a session has counted.
pub open spec fn session_counts(view: ProgressView, pulls: Seq<usize>, checks: usize) -> bool {
    &&& pulls == Seq::new(
        view.fusion.histories.len(),
        |source: int| view.fusion.histories[source].len() as usize,
    )
    &&& checks == view.checks
}

/// Whether pulls and checks are those of a fusion with the given log: none where it has put
/// out nothing, else what its session had counted with the last output, or when it found
/// that there is no more.
#[verifier::opaque]
pub open spec fn fusion_counts<
    F: Fn(i64, usize, usize, i64) -> i64,
    P: Fn(usize, usize, i64, usize, i64) -> i64,
>(
    start: ProgressView,
    inputs: Seq<NodeLog>,
    accumulate: F,
    priority: P,
    log: NodeLog,
    pulls: Seq<usize>,
    checks: usize,
) -> bool {
    exists|view: ProgressView|
        {
            &&& #[trigger] puts_out(start, inputs, accumulate, priority, log.outputs, view)
            &&& {
                ||| log.outputs.len() == 0 && pulls.len() == 0 && checks == 0
                ||| log.outputs.len() > 0 && session_counts(view, pulls, checks)
                ||| log.ended && finds_end(
                    view,
                    inputs,
                    accumulate,
                    priority,
                    log.outputs.len(),
                    pulls,
                    checks,
                )
            }
        }
}

/// Whether a session that finds no further output has counted the given pulls and checks.
pub open spec fn finds_end<
    F: Fn(i64, usize, usize, i64) -> i64,
    P: Fn(usize, usize, i64, usize, i64) -> i64,
>(
    view: ProgressView,
    inputs: Seq<NodeLog>,
    accumulate: F,
    priority: P,
    rank: nat,
    pulls: Seq<usize>,
    checks: usize,
) -> bool {
    exists|ids: Seq<ExtendedPointId>, after: ProgressView|
        #[trigger] fixes(view, inputs, rank, accumulate, priority, ids, after) && ids.len() <= rank
            && session_counts(after, pulls, checks)
}

/// The counts of a fusion stay right as the logs of its inputs grow.
pub proof fn lemma_counts_survive<
    F: Fn(i64, usize, usize, i64) -> i64,
    P: Fn(usize, usize, i64, usize, i64) -> i64,
>(
    start: ProgressView,
    inputs: Seq<NodeLog>,
    later: Seq<NodeLog>,
    accumulate: F,
    priority: P,
    log: NodeLog,
    pulls: Seq<usize>,
    checks: usize,
)
    requires
        all_grow(inputs, later),
        fusion_counts(start, inputs, accumulate, priority, log, pulls, checks),
    ensures
        fusion_counts(start, later, accumulate, priority, log, pulls, checks),
{
    reveal(fusion_counts);
    let rank = log.outputs.len();
    let view = choose|view: ProgressView|
        {
            &&& #[trigger] puts_out(start, inputs, accumulate, priority, log.outputs, view)
            &&& {
                ||| log.outputs.len() == 0 && pulls.len() == 0 && checks == 0
                ||| log.outputs.len() > 0 && session_counts(view, pulls, checks)
                ||| log.ended && finds_end(view, inputs, accumulate, priority, rank, pulls, checks)
            }
        };
    lemma_puts_out_survives(start, inputs, later, accumulate, priority, log.outputs, view);
    if finds_end(view, inputs, accumulate, priority, rank, pulls, checks) {
        let (ids, after) = choose|ids: Seq<ExtendedPointId>, after: ProgressView|
            #[trigger] fixes(view, inputs, rank, accumulate, priority, ids, after) && ids.len()
                <= rank && session_counts(after, pulls, checks);
        lemma_fixes_survives(view, inputs, later, rank, accumulate, priority, ids, after);
        assert(finds_end(view, later, accumulate, priority, rank, pulls, checks));
    }
}

/// Whether the log of a leaf is the beginning of what its stream yields, without
/// repetition, and ends only where the stream does.
pub open spec fn leaf_logged(origin: LeafOrigin, log: NodeLog) -> bool {
    let count = log.outputs.len();
    &&& log.outputs.no_duplicates()
    &&& origin.rest matches Some(ids) ==> {
        &&& count <= ids.len()
        &&& log.outputs == ids.take(count as int)
        &&& log.ended ==> count == ids.len()
    }
    &&& origin.failing matches Some((ids, _)) ==> {
        &&& count <= ids.len()
        &&& log.outputs == ids.take(count as int)
        &&& !log.ended
    }
}

/// Whether the log of a node follows from those of its inputs, or from its stream.
pub open spec fn is_logged<
    F: Fn(i64, usize, usize, i64) -> i64,
    P: Fn(usize, usize, i64, usize, i64) -> i64,
>(
    plan: &ExactCompositionPlan,
    origin: NetworkOrigin,
    logs: Seq<NodeLog>,
    accumulate: F,
    priority: P,
    node: int,
    log: NodeLog,
) -> bool {
    let definition = plan.nodes()[node];
    if definition is Fusion {
        fusion_logged(
            first_session(definition, origin.policy),
            limit_of(definition),
            input_logs(logs, inputs_of(definition)),
            accumulate,
            priority,
            log,
        )
    } else {
        leaf_logged(origin.leaves[node], log)
    }
}

/// Whether a leaf that has yielded the given outputs fails next: with the failure of its
/// stream, or because it repeats an identity.
pub open spec fn leaf_fails(
    node: usize,
    origin: LeafOrigin,
    outputs: Seq<ExtendedPointId>,
    error: ExactCompositionError,
) -> bool {
    let count = outputs.len();
    let repeats = |ids: Seq<ExtendedPointId>|
        count < ids.len() && outputs.contains(ids[count as int]) && error
            == (ExactCompositionError::DuplicateLeafIdentity { node, identity: ids[count as int] });
    &&& match error {
        ExactCompositionError::DuplicateLeafIdentity { node: repeating, identity } => repeating
            == node && outputs.contains(identity),
        ExactCompositionError::Leaf { node: failing, failure } => failing == node,
        _ => false,
    }
    &&& origin.rest matches Some(ids) ==> repeats(ids)
    &&& origin.failing matches Some((ids, failure)) ==> repeats(ids) || count == ids.len() && error
        == (ExactCompositionError::Leaf { node, failure })
}

/// Whether a session that needs one more output stops at an input: having pulled as far as
/// its prefix was not fixed, it asks an input whose answer it refuses, or that fails.
#[verifier::opaque]
pub open spec fn session_fails<
    F: Fn(i64, usize, usize, i64) -> i64,
    P: Fn(usize, usize, i64, usize, i64) -> i64,
>(
    plan: &ExactCompositionPlan,
    origin: NetworkOrigin,
    logs: Seq<NodeLog>,
    accumulate: F,
    priority: P,
    node: usize,
    view: ProgressView,
    rank: nat,
    error: ExactCompositionError,
) -> bool
    decreases place_of(plan, node), 0int,
{
    let inputs = inputs_of(plan.nodes()[node as int]);
    let sources = input_logs(logs, inputs);
    let target = (rank + 1) as usize;
    ||| view.fusion.top_k > target && error == (ExactCompositionError::Fusion {
        node,
        error: OperationError::ValidationError(
            Fault::PrefixDecrease { from: view.fusion.top_k, to: target },
        ),
    })
    ||| view.order is None && exists|
        count: nat,
        middle: ProgressView,
        source: usize,
        chosen: ProgressView,
    |
        {
            &&& #[trigger] log_comes_to(
                view.raised(target),
                sources,
                accumulate,
                priority,
                count,
                middle,
            )
            &&& #[trigger] steps_to(
                middle,
                no_targets(inputs.len()),
                accumulate,
                priority,
                SessionStep::Pull(source),
                chosen,
            )
            &&& source < inputs.len()
            &&& match sources[source as int].answer(
                middle.fusion.histories[source as int].len() as int,
            ) {
                Some(answer) => chosen.supply_fault(
                    source,
                    middle.fusion.histories[source as int].len() as usize,
                    answered_ids(answer),
                    answer is None,
                ) matches Some(fault) && error == (ExactCompositionError::Fusion {
                    node,
                    error: OperationError::ValidationError(fault),
                }),
                None => {
                    let input = inputs[source as int];
                    &&& 0 <= place_of(plan, input) < place_of(plan, node)
                    &&& node_fails(plan, origin, logs, accumulate, priority, input, error)
                },
            }
        }
}

/// Whether a node that is asked for one more output than it has put out fails.
#[verifier::opaque]
pub open spec fn node_fails<
    F: Fn(i64, usize, usize, i64) -> i64,
    P: Fn(usize, usize, i64, usize, i64) -> i64,
>(
    plan: &ExactCompositionPlan,
    origin: NetworkOrigin,
    logs: Seq<NodeLog>,
    accumulate: F,
    priority: P,
    node: usize,
    error: ExactCompositionError,
) -> bool
    decreases place_of(plan, node), 1int,
{
    let definition = plan.nodes()[node as int];
    let log = logs[node as int];
    ||| log.outputs.len() >= usize::MAX - 1 && error == (ExactCompositionError::Fusion {
        node,
        error: OperationError::ValidationError(Fault::TooManyRanks),
    })
    ||| if definition is Fusion {
        exists|view: ProgressView|
            {
                &&& #[trigger] puts_out(
                    first_session(definition, origin.policy),
                    input_logs(logs, inputs_of(definition)),
                    accumulate,
                    priority,
                    log.outputs,
                    view,
                )
                &&& session_fails(
                    plan,
                    origin,
                    logs,
                    accumulate,
                    priority,
                    node,
                    view,
                    log.outputs.len(),
                    error,
                )
            }
    } else {
        leaf_fails(node, origin.leaves[node as int], log.outputs, error)
    }
}

/// Whether every log can become the one at the same place.
pub open spec fn all_grow(before: Seq<NodeLog>, after: Seq<NodeLog>) -> bool {
    &&& after.len() == before.len()
    &&& forall|node: int|
        0 <= node < before.len() ==> (#[trigger] before[node]).grows_to(after[node])
}

/// Logs that grow twice grow.
pub proof fn lemma_grows_twice(first: Seq<NodeLog>, second: Seq<NodeLog>, third: Seq<NodeLog>)
    requires
        all_grow(first, second),
        all_grow(second, third),
    ensures
        all_grow(first, third),
{
    assert forall|node: int| 0 <= node < first.len() implies (#[trigger] first[node]).grows_to(
        third[node],
    ) by {
        assert(second[node].grows_to(third[node]));
        assert(first[node].outputs =~= third[node].outputs.take(
            first[node].outputs.len() as int,
        ));
    }
}

/// The inputs of a node grow with all logs.
pub proof fn lemma_inputs_grow(before: Seq<NodeLog>, after: Seq<NodeLog>, inputs: Seq<usize>)
    requires
        all_grow(before, after),
        forall|slot: int| 0 <= slot < inputs.len() ==> #[trigger] inputs[slot] < before.len(),
    ensures
        all_grow(input_logs(before, inputs), input_logs(after, inputs)),
{
    let left = input_logs(before, inputs);
    assert forall|slot: int| 0 <= slot < left.len() implies (#[trigger] left[slot]).grows_to(
        input_logs(after, inputs)[slot],
    ) by {
        assert(before[inputs[slot] as int].grows_to(after[inputs[slot] as int]));
    }
}

/// What a session has pulled from logs, it has pulled from longer logs.
pub proof fn lemma_comes_to_survives<
    F: Fn(i64, usize, usize, i64) -> i64,
    P: Fn(usize, usize, i64, usize, i64) -> i64,
>(
    start: ProgressView,
    inputs: Seq<NodeLog>,
    later: Seq<NodeLog>,
    accumulate: F,
    priority: P,
    count: nat,
    after: ProgressView,
)
    requires
        all_grow(inputs, later),
        log_comes_to(start, inputs, accumulate, priority, count, after),
    ensures
        log_comes_to(start, later, accumulate, priority, count, after),
    decreases count,
{
    reveal(log_comes_to);
    reveal(log_pulls);
    if count > 0 {
        let (middle, source) = choose|middle: ProgressView, source: usize|
            {
                &&& log_comes_to(start, inputs, accumulate, priority, (count - 1) as nat, middle)
                &&& #[trigger] log_pulls(middle, inputs, accumulate, priority, source, after)
            };
        lemma_comes_to_survives(
            start,
            inputs,
            later,
            accumulate,
            priority,
            (count - 1) as nat,
            middle,
        );
        assert(inputs[source as int].grows_to(later[source as int]));
        let rank = middle.fusion.histories[source as int].len() as int;
        assert(inputs[source as int].answer(rank) == later[source as int].answer(rank));
        assert(log_pulls(middle, later, accumulate, priority, source, after));
    }
}

/// What a session has fixed over logs, it has fixed over longer logs.
pub proof fn lemma_fixes_survives<
    F: Fn(i64, usize, usize, i64) -> i64,
    P: Fn(usize, usize, i64, usize, i64) -> i64,
>(
    before: ProgressView,
    inputs: Seq<NodeLog>,
    later: Seq<NodeLog>,
    rank: nat,
    accumulate: F,
    priority: P,
    ids: Seq<ExtendedPointId>,
    after: ProgressView,
)
    requires
        all_grow(inputs, later),
        fixes(before, inputs, rank, accumulate, priority, ids, after),
    ensures
        fixes(before, later, rank, accumulate, priority, ids, after),
{
    reveal(fixes);
    reveal(log_settles);
    let target = (rank + 1) as usize;
    if before.order is None {
        let (count, middle) = choose|count: nat, middle: ProgressView|
            {
                &&& #[trigger] log_comes_to(
                    before.raised(target),
                    inputs,
                    accumulate,
                    priority,
                    count,
                    middle,
                )
                &&& log_settles(middle, inputs, target, accumulate, priority, ids, after)
            };
        lemma_comes_to_survives(
            before.raised(target),
            inputs,
            later,
            accumulate,
            priority,
            count,
            middle,
        );
        assert(log_settles(middle, later, target, accumulate, priority, ids, after));
    }
}

/// What a session has put out over logs, it has put out over longer logs.
pub proof fn lemma_puts_out_survives<
    F: Fn(i64, usize, usize, i64) -> i64,
    P: Fn(usize, usize, i64, usize, i64) -> i64,
>(
    start: ProgressView,
    inputs: Seq<NodeLog>,
    later: Seq<NodeLog>,
    accumulate: F,
    priority: P,
    outputs: Seq<ExtendedPointId>,
    after: ProgressView,
)
    requires
        all_grow(inputs, later),
        puts_out(start, inputs, accumulate, priority, outputs, after),
    ensures
        puts_out(start, later, accumulate, priority, outputs, after),
    decreases outputs.len(),
{
    reveal(puts_out);
    if outputs.len() > 0 {
        let rank = (outputs.len() - 1) as nat;
        let (middle, ids) = choose|middle: ProgressView, ids: Seq<ExtendedPointId>|
            {
                &&& puts_out(start, inputs, accumulate, priority, outputs.drop_last(), middle)
                &&& #[trigger] fixes(middle, inputs, rank, accumulate, priority, ids, after)
                &&& outputs.len() <= ids.len()
                &&& ids[outputs.len() - 1] == outputs.last()
            };
        lemma_puts_out_survives(
            start,
            inputs,
            later,
            accumulate,
            priority,
            outputs.drop_last(),
            middle,
        );
        lemma_fixes_survives(middle, inputs, later, rank, accumulate, priority, ids, after);
    }
}

/// The log of a node stays right as the logs of other nodes grow.
pub proof fn lemma_log_survives<
    F: Fn(i64, usize, usize, i64) -> i64,
    P: Fn(usize, usize, i64, usize, i64) -> i64,
>(
    plan: &ExactCompositionPlan,
    origin: NetworkOrigin,
    before: Seq<NodeLog>,
    after: Seq<NodeLog>,
    accumulate: F,
    priority: P,
    node: int,
    log: NodeLog,
)
    requires
        all_grow(before, after),
        forall|slot: int|
            0 <= slot < inputs_of(plan.nodes()[node]).len() ==> #[trigger] inputs_of(
                plan.nodes()[node],
            )[slot] < before.len(),
        is_logged(plan, origin, before, accumulate, priority, node, log),
    ensures
        is_logged(plan, origin, after, accumulate, priority, node, log),
{
    reveal(fusion_logged);
    reveal(log_ends);
    let definition = plan.nodes()[node];
    if definition is Fusion {
        let inputs = input_logs(before, inputs_of(definition));
        let later = input_logs(after, inputs_of(definition));
        let start = first_session(definition, origin.policy);
        let limit = limit_of(definition);
        let rank = log.outputs.len();
        lemma_inputs_grow(before, after, inputs_of(definition));
        let view = choose|view: ProgressView|
            {
                &&& #[trigger] puts_out(start, inputs, accumulate, priority, log.outputs, view)
                &&& log.ended ==> log_ends(view, inputs, limit, rank, accumulate, priority)
            };
        lemma_puts_out_survives(start, inputs, later, accumulate, priority, log.outputs, view);
        if log.ended && !(limit matches Some(limit) && limit <= rank) {
            let (ids, last) = choose|ids: Seq<ExtendedPointId>, last: ProgressView|
                #[trigger] fixes(view, inputs, rank, accumulate, priority, ids, last) && ids.len()
                    <= rank;
            lemma_fixes_survives(view, inputs, later, rank, accumulate, priority, ids, last);
        }
    }
}

/// One more identity that a session fixes continues what it has put out.
pub proof fn lemma_puts_out_one_more<
    F: Fn(i64, usize, usize, i64) -> i64,
    P: Fn(usize, usize, i64, usize, i64) -> i64,
>(
    start: ProgressView,
    inputs: Seq<NodeLog>,
    accumulate: F,
    priority: P,
    outputs: Seq<ExtendedPointId>,
    middle: ProgressView,
    ids: Seq<ExtendedPointId>,
    after: ProgressView,
)
    requires
        puts_out(start, inputs, accumulate, priority, outputs, middle),
        fixes(middle, inputs, outputs.len(), accumulate, priority, ids, after),
        outputs.len() < ids.len(),
    ensures
        puts_out(
            start,
            inputs,
            accumulate,
            priority,
            outputs.push(ids[outputs.len() as int]),
            after,
        ),
{
    reveal(puts_out);
    let longer = outputs.push(ids[outputs.len() as int]);
    assert(longer.drop_last() =~= outputs);
    assert(puts_out(start, inputs, accumulate, priority, longer.drop_last(), middle));
    assert(fixes(middle, inputs, (longer.len() - 1) as nat, accumulate, priority, ids, after));
}

/// A session that has pulled nothing is where it was.
pub proof fn lemma_no_pulls<
    F: Fn(i64, usize, usize, i64) -> i64,
    P: Fn(usize, usize, i64, usize, i64) -> i64,
>(
    start: ProgressView,
    inputs: Seq<NodeLog>,
    accumulate: F,
    priority: P,
)
    ensures
        log_comes_to(start, inputs, accumulate, priority, 0, start),
{
    reveal(log_comes_to);
}

/// A session that has put out nothing is where it began.
pub proof fn lemma_no_outputs<
    F: Fn(i64, usize, usize, i64) -> i64,
    P: Fn(usize, usize, i64, usize, i64) -> i64,
>(
    start: ProgressView,
    inputs: Seq<NodeLog>,
    accumulate: F,
    priority: P,
)
    ensures
        puts_out(start, inputs, accumulate, priority, Seq::empty(), start),
{
    reveal(puts_out);
}

/// One more pull continues a session.
pub proof fn lemma_one_more_pull<
    F: Fn(i64, usize, usize, i64) -> i64,
    P: Fn(usize, usize, i64, usize, i64) -> i64,
>(
    start: ProgressView,
    inputs: Seq<NodeLog>,
    accumulate: F,
    priority: P,
    count: nat,
    middle: ProgressView,
    source: usize,
    chosen: ProgressView,
    answer: Option<ExtendedPointId>,
    after: ProgressView,
)
    requires
        log_comes_to(start, inputs, accumulate, priority, count, middle),
        steps_to(
            middle,
            no_targets(inputs.len()),
            accumulate,
            priority,
            SessionStep::Pull(source),
            chosen,
        ),
        source < inputs.len(),
        inputs[source as int].answer(middle.fusion.histories[source as int].len() as int) == Some(
            answer,
        ),
        chosen.supply_fault(
            source,
            middle.fusion.histories[source as int].len() as usize,
            answered_ids(answer),
            answer is None,
        ) is None,
        after == chosen.supplied(source, answered_ids(answer), answer is None),
    ensures
        log_comes_to(start, inputs, accumulate, priority, count + 1, after),
{
    reveal(log_pulls);
    assert(log_pulls(middle, inputs, accumulate, priority, source, after));
    reveal(log_comes_to);
    assert(log_comes_to(
        start,
        inputs,
        accumulate,
        priority,
        ((count + 1) - 1) as nat,
        middle,
    ));
}

/// A session that has kept its whole order fixes every prefix at once.
pub proof fn lemma_fixes_known<
    F: Fn(i64, usize, usize, i64) -> i64,
    P: Fn(usize, usize, i64, usize, i64) -> i64,
>(
    before: ProgressView,
    inputs: Seq<NodeLog>,
    rank: nat,
    accumulate: F,
    priority: P,
    order: Seq<ExtendedPointId>,
)
    requires
        before.order == Some(order),
    ensures
        fixes(
            before,
            inputs,
            rank,
            accumulate,
            priority,
            first_of(order, (rank + 1) as usize),
            before.raised((rank + 1) as usize),
        ),
{
    reveal(fixes);
}

/// A session that has pulled until its prefix is fixed has fixed it.
pub proof fn lemma_fixes_now<
    F: Fn(i64, usize, usize, i64) -> i64,
    P: Fn(usize, usize, i64, usize, i64) -> i64,
>(
    before: ProgressView,
    inputs: Seq<NodeLog>,
    rank: nat,
    accumulate: F,
    priority: P,
    count: nat,
    middle: ProgressView,
    execution: DynamicRrfExecution,
    checked: ProgressView,
    ids: Seq<ExtendedPointId>,
    after: ProgressView,
)
    requires
        before.order is None,
        log_comes_to(
            before.raised((rank + 1) as usize),
            inputs,
            accumulate,
            priority,
            count,
            middle,
        ),
        steps_to(
            middle,
            no_targets(inputs.len()),
            accumulate,
            priority,
            SessionStep::Fixed(execution),
            checked,
        ),
        if execution.stop_reason == DynamicRrfStopReason::AllSourcesExhausted {
            &&& after.order matches Some(order)
            &&& after == (ProgressView { order: Some(order), ..checked })
            &&& order_is_kept(after, accumulate)
            &&& ids == first_of(order, (rank + 1) as usize)
        } else {
            &&& after == checked
            &&& ids == execution.point_ids@
        },
    ensures
        fixes(before, inputs, rank, accumulate, priority, ids, after),
{
    reveal(log_settles);
    assert(log_settles(
        middle,
        inputs,
        (rank + 1) as usize,
        accumulate,
        priority,
        ids,
        after,
    ));
    reveal(fixes);
}

/// A session that asks an input whose answer it refuses, or that fails, fails.
pub proof fn lemma_session_stops<
    F: Fn(i64, usize, usize, i64) -> i64,
    P: Fn(usize, usize, i64, usize, i64) -> i64,
>(
    plan: &ExactCompositionPlan,
    origin: NetworkOrigin,
    logs: Seq<NodeLog>,
    accumulate: F,
    priority: P,
    node: usize,
    view: ProgressView,
    rank: nat,
    count: nat,
    middle: ProgressView,
    source: usize,
    chosen: ProgressView,
    error: ExactCompositionError,
)
    requires
        view.order is None,
        ({
            let inputs = inputs_of(plan.nodes()[node as int]);
            let sources = input_logs(logs, inputs);
            let position = middle.fusion.histories[source as int].len();
            &&& log_comes_to(
                view.raised((rank + 1) as usize),
                sources,
                accumulate,
                priority,
                count,
                middle,
            )
            &&& steps_to(
                middle,
                no_targets(inputs.len()),
                accumulate,
                priority,
                SessionStep::Pull(source),
                chosen,
            )
            &&& source < inputs.len()
            &&& match sources[source as int].answer(position as int) {
                Some(answer) => chosen.supply_fault(
                    source,
                    position as usize,
                    answered_ids(answer),
                    answer is None,
                ) matches Some(fault) && error == (ExactCompositionError::Fusion {
                    node,
                    error: OperationError::ValidationError(fault),
                }),
                None => {
                    &&& 0 <= place_of(plan, inputs[source as int]) < place_of(plan, node)
                    &&& node_fails(
                        plan,
                        origin,
                        logs,
                        accumulate,
                        priority,
                        inputs[source as int],
                        error,
                    )
                },
            }
        }),
    ensures
        session_fails(plan, origin, logs, accumulate, priority, node, view, rank, error),
{
    reveal(node_fails);
    reveal(session_fails);
}

/// A session cannot go back to a shorter prefix.
pub proof fn lemma_session_refuses<
    F: Fn(i64, usize, usize, i64) -> i64,
    P: Fn(usize, usize, i64, usize, i64) -> i64,
>(
    plan: &ExactCompositionPlan,
    origin: NetworkOrigin,
    logs: Seq<NodeLog>,
    accumulate: F,
    priority: P,
    node: usize,
    view: ProgressView,
    rank: nat,
)
    requires
        view.fusion.top_k > (rank + 1) as usize,
    ensures
        session_fails(
            plan,
            origin,
            logs,
            accumulate,
            priority,
            node,
            view,
            rank,
            ExactCompositionError::Fusion {
                node,
                error: OperationError::ValidationError(
                    Fault::PrefixDecrease {
                        from: view.fusion.top_k,
                        to: (rank + 1) as usize,
                    },
                ),
            },
        ),
{
    reveal(session_fails);
}

/// What an execution does, node by node: every log follows from those of the inputs; the
/// root is asked for no more outputs than are returned, and says that there is no more
/// where fewer are returned than were asked for; and a failure comes only from a node that
/// is asked for an output that it needs.
pub open spec fn accounts_for<
    L: FallibleExactCompositionStream,
    F: Fn(i64, usize, usize, i64) -> i64,
    P: Fn(usize, usize, i64, usize, i64) -> i64,
>(
    plan: &ExactCompositionPlan,
    root_top_k: usize,
    leaf_streams: Seq<Option<L>>,
    policy: DynamicRrfPolicy,
    accumulate: F,
    priority: P,
    logs: Seq<NodeLog>,
    returned: Result<Seq<ExtendedPointId>, ExactCompositionError>,
) -> bool {
    let origin = network_origin(plan.nodes(), leaf_streams, policy);
    let root = logs[plan.root() as int];
    &&& logs.len() == plan.nodes().len()
    &&& forall|node: int|
        0 <= node < logs.len() ==> is_logged(
            plan,
            origin,
            logs,
            accumulate,
            priority,
            node,
            #[trigger] logs[node],
        )
    &&& match returned {
        Ok(ids) => {
            &&& root.outputs == ids
            &&& ids.len() <= root_top_k
            &&& ids.len() < root_top_k ==> root.ended
        },
        Err(error) => {
            &&& root.outputs.len() < root_top_k
            &&& node_fails(plan, origin, logs, accumulate, priority, plan.root(), error)
        },
    }
}

} // verus!
