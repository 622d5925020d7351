//! Physical blocks that any number of exact channels share.
//!
//! A channel gives every block a bound of its scores, or none where the block holds
//! nothing of the channel, and scores single identities. The catalog holds the
//! identities and the blocks once; bounds, scores and queues belong to the channels.

use crate::frontier::{
    exact_order, ids_of, in_blocks, is_best, lemma_best_is_first, lemma_seen_points, seen_points,
    Frontier, NodeTree,
};
use crate::exact_composition::exhaustive::counted;
use crate::operation_error::{refuse, Fault, OperationError, OperationResult};
use crate::order::{finite_key, is_finite_key, ExtendedPointId};
use crate::reciprocal_rank_fusion::progress::{accepts_priority, fresh_session, session_fault};
use crate::reciprocal_rank_fusion::scoring::accepts;
use crate::reciprocal_rank_fusion::session::{
    completed, descends, is_exhaustive_prefix, no_targets, reaches, DynamicRrfSession,
    DynamicRrfSource, SessionState,
};
use crate::reciprocal_rank_fusion::state::{effective_weights, weights_view, UNIT_WEIGHT};
use crate::reciprocal_rank_fusion::types::{
    default_policy, DynamicRrfExecution, DynamicRrfPolicy, ExactRrfStream, IdStream,
};
use crate::tables::repeated;
use std::collections::HashSet;
use vstd::prelude::*;

verus! {

/// Why a catalog or an execution is refused.
#[derive(Clone, Debug, PartialEq, Eq)]
pub enum SharedNodeError {
    EmptyIdentityUniverse,
    ZeroBlockSize,
    DuplicateIdentity(u32),
    EmptyChannels,
    BoundCountMismatch { expected: usize, actual: usize },
    InvalidBound { node: usize },
    InvalidScore { point: u32 },
    BoundViolation { node: usize, point: u32 },
    Fusion(OperationError),
}

/// Whether an identity is the first that occurs twice.
pub open spec fn first_repeated(ids: Seq<u32>, at: int) -> bool {
    &&& 0 <= at < ids.len()
    &&& ids.take(at).contains(ids[at])
    &&& ids.take(at).no_duplicates()
}

/// Identities in blocks of one size.
#[derive(Debug)]
pub struct SharedNodeCatalog {
    tree: NodeTree,
    block_size: usize,
}

impl SharedNodeCatalog {
    /// The blocks of the catalog.
    pub closed spec fn tree(&self) -> NodeTree {
        self.tree
    }

    /// The size of the blocks.
    pub closed spec fn size(&self) -> usize {
        self.block_size
    }

    /// Whether the blocks hold the identities in their order.
    #[verifier::type_invariant]
    pub closed spec fn wf(&self) -> bool {
        &&& self.block_size > 0
        &&& self.tree.wf()
        &&& in_blocks(self.tree, self.tree.ids@, self.block_size)
    }

    /// A catalog of identities.
    pub fn build(identities: Vec<u32>, block_size: usize) -> (result: Result<
        SharedNodeCatalog,
        SharedNodeError,
    >)
        ensures
            identities@.len() == 0 ==> result == Err::<SharedNodeCatalog, SharedNodeError>(
                SharedNodeError::EmptyIdentityUniverse,
            ),
            identities@.len() > 0 && block_size == 0 ==> result == Err::<
                SharedNodeCatalog,
                SharedNodeError,
            >(SharedNodeError::ZeroBlockSize),
            identities@.len() > 0 && block_size > 0 ==> match result {
                Ok(catalog) => {
                    &&& identities@.no_duplicates()
                    &&& catalog.size() == block_size
                    &&& in_blocks(catalog.tree(), identities@, block_size)
                },
                Err(error) => exists|at: int| #[trigger]
                    first_repeated(identities@, at) && error == SharedNodeError::DuplicateIdentity(
                        identities@[at],
                    ),
            },
    {
        broadcast use vstd::std_specs::hash::group_hash_axioms;

        if identities.len() == 0 {
            return Err(SharedNodeError::EmptyIdentityUniverse);
        }
        if block_size == 0 {
            return Err(SharedNodeError::ZeroBlockSize);
        }
        let mut seen: HashSet<u32> = HashSet::new();
        let mut i: usize = 0;
        while i < identities.len()
            invariant
                i <= identities@.len(),
                identities@.take(i as int).no_duplicates(),
                identities@.len() > 0,
                block_size > 0,
                forall|id: u32| #[trigger]
                    seen@.contains(id) <==> identities@.take(i as int).contains(id),
            decreases identities@.len() - i,
        {
            broadcast use vstd::std_specs::hash::group_hash_axioms;

            let id: u32 = identities[i];
            let ghost before = identities@.take(i as int);
            let ghost known = seen@;
            let added = seen.insert(id);
            proof {
                assert(added == !known.contains(id));
                assert(identities@.take(i + 1) =~= before.push(id));
                assert forall|other: u32| #[trigger] seen@.contains(other) <==> before.push(
                    id,
                ).contains(other) by {
                    assert(before.push(id)[before.len() as int] == id);
                    if before.contains(other) {
                        let at = choose|at: int| 0 <= at < before.len() && before[at] == other;
                        assert(before.push(id)[at] == other);
                    }
                }
            }
            if !added {
                assert(first_repeated(identities@, i as int));
                return Err(SharedNodeError::DuplicateIdentity(id));
            }
            i += 1;
        }
        assert(identities@.take(i as int) =~= identities@);
        let tree = NodeTree::blocks(identities, block_size);
        Ok(SharedNodeCatalog { tree, block_size })
    }

    /// The number of identities.
    pub fn document_count(&self) -> (count: usize)
        ensures
            count == self.tree().ids@.len(),
    {
        self.tree.ids.len()
    }

    /// The number of blocks.
    pub fn node_count(&self) -> (count: usize)
        ensures
            count == self.tree().nodes@.len(),
    {
        self.tree.nodes.len()
    }

    /// The size of the blocks.
    pub fn block_size(&self) -> (size: usize)
        ensures
            size == self.size(),
    {
        self.block_size
    }

    /// The identities in their order.
    pub fn identities(&self) -> (ids: &Vec<u32>)
        ensures
            ids@ == self.tree().ids@,
    {
        &self.tree.ids
    }

    /// The places of the identities of a block, for a block that exists.
    pub fn node_range(&self, node: usize) -> (range: Option<(usize, usize)>)
        ensures
            range == (if node < self.tree().nodes@.len() {
                Some((self.tree().nodes@[node as int].start, self.tree().nodes@[node as int].end))
            } else {
                None
            }),
    {
        if node < self.tree.nodes.len() {
            Some((self.tree.nodes[node].start, self.tree.nodes[node].end))
        } else {
            None
        }
    }
}

/// What a channel says of the blocks, and how it scores an identity: its place and
/// itself give a score, or nothing where the channel does not hold it.
pub struct SharedChannelPlan<F> {
    pub node_upper_bounds: Vec<Option<i64>>,
    pub score: F,
}

/// What a channel has done.
#[derive(Clone, Copy, Debug, Default, PartialEq, Eq, Structural)]
pub struct SharedChannelTelemetry {
    pub nodes_expanded: usize,
    pub documents_scored: usize,
    pub points_emitted: usize,
}

/// What all channels have done together.
#[derive(Clone, Copy, Debug, Default, PartialEq, Eq, Structural)]
pub struct SharedPhysicalTelemetry {
    pub node_open_requests: usize,
    pub unique_node_materializations: usize,
    pub reused_node_materializations: usize,
    pub unique_identity_materializations: usize,
}

/// The outcome of a fusion over shared blocks.
#[derive(Clone, Debug, PartialEq, Eq)]
pub struct SharedNChannelExecution {
    pub fusion: DynamicRrfExecution,
    pub channels: Vec<SharedChannelTelemetry>,
    pub physical: SharedPhysicalTelemetry,
}

/// Which blocks were materialized.
#[derive(Debug)]
pub struct SharedAccessState {
    materialized: Vec<bool>,
    telemetry: SharedPhysicalTelemetry,
}

impl SharedAccessState {
    /// Which blocks were materialized.
    pub closed spec fn materialized(&self) -> Seq<bool> {
        self.materialized@
    }

    /// What was counted.
    pub closed spec fn counted(&self) -> SharedPhysicalTelemetry {
        self.telemetry
    }

    /// A state in which nothing was materialized.
    pub fn new(node_count: usize) -> (state: SharedAccessState)
        ensures
            state.materialized() == Seq::new(node_count as nat, |node: int| false),
            state.counted() == (SharedPhysicalTelemetry {
                node_open_requests: 0,
                unique_node_materializations: 0,
                reused_node_materializations: 0,
                unique_identity_materializations: 0,
            }),
    {
        let state = SharedAccessState {
            materialized: repeated(false, node_count),
            telemetry: SharedPhysicalTelemetry {
                node_open_requests: 0,
                unique_node_materializations: 0,
                reused_node_materializations: 0,
                unique_identity_materializations: 0,
            },
        };
        assert(state.materialized() =~= Seq::new(node_count as nat, |node: int| false));
        state
    }

    /// Opens a block, which materializes it the first time.
    pub fn open(&mut self, node: usize, identity_count: usize)
        requires
            node < old(self).materialized().len(),
        ensures
            final(self).materialized() == old(self).materialized().update(node as int, true),
            final(self).counted() == opened_once(
                old(self).counted(),
                old(self).materialized()[node as int],
                identity_count,
            ),
    {
        let known = self.materialized[node];
        self.telemetry.node_open_requests = self.telemetry.node_open_requests.saturating_add(1);
        if known {
            self.telemetry.reused_node_materializations =
            self.telemetry.reused_node_materializations.saturating_add(1);
        } else {
            self.materialized.set(node, true);
            self.telemetry.unique_node_materializations =
            self.telemetry.unique_node_materializations.saturating_add(1);
            self.telemetry.unique_identity_materializations =
            self.telemetry.unique_identity_materializations.saturating_add(identity_count);
        }
        assert(self.materialized() =~= old(self).materialized().update(node as int, true));
    }

    /// What was counted.
    pub fn telemetry(&self) -> (telemetry: SharedPhysicalTelemetry)
        ensures
            telemetry == self.counted(),
    {
        self.telemetry
    }
}

/// What opening one block adds to the counts.
pub open spec fn opened_once(
    before: SharedPhysicalTelemetry,
    known: bool,
    identity_count: usize,
) -> SharedPhysicalTelemetry {
    if known {
        SharedPhysicalTelemetry {
            node_open_requests: before.node_open_requests.saturating_add(1),
            reused_node_materializations: before.reused_node_materializations.saturating_add(1),
            ..before
        }
    } else {
        SharedPhysicalTelemetry {
            node_open_requests: before.node_open_requests.saturating_add(1),
            unique_node_materializations: before.unique_node_materializations.saturating_add(1),
            unique_identity_materializations: before.unique_identity_materializations.saturating_add(
                identity_count,
            ),
            ..before
        }
    }
}

/// Whether a function can be asked for every score.
pub open spec fn scores_any<F: Fn(usize, u32) -> Result<Option<i64>, SharedNodeError>>(
    score: F,
) -> bool {
    forall|ordinal: usize, id: u32| #[trigger] score.requires((ordinal, id))
}

/// What is wrong with the first bound, from the given block on, that is not finite.
pub open spec fn bound_fault(bounds: Seq<Option<i64>>, node: int) -> Option<SharedNodeError>
    decreases bounds.len() - node,
{
    if node >= bounds.len() {
        None
    } else if bounds[node] matches Some(bound) && !finite_key(bound) {
        Some(SharedNodeError::InvalidBound { node: node as usize })
    } else {
        bound_fault(bounds, node + 1)
    }
}

/// What is wrong with the bounds of a channel.
pub open spec fn plan_fault(tree: NodeTree, bounds: Seq<Option<i64>>) -> Option<SharedNodeError> {
    if bounds.len() != tree.nodes@.len() {
        Some(
            SharedNodeError::BoundCountMismatch {
                expected: tree.nodes@.len() as usize,
                actual: bounds.len() as usize,
            },
        )
    } else {
        bound_fault(bounds, 0)
    }
}

/// Whether a channel gives exactly the given scores, all finite and none above the
/// bound of its block. A block without a bound holds nothing of the channel.
pub open spec fn channel_scores<F: Fn(usize, u32) -> Result<Option<i64>, SharedNodeError>>(
    score: F,
    tree: NodeTree,
    bounds: Seq<Option<i64>>,
    scores: spec_fn(int) -> Option<i64>,
) -> bool {
    &&& forall|node: int, point: int|
        #![trigger bounds[node], scores(point)]
        0 <= node < tree.nodes@.len() && tree.covers(node, point) ==> match bounds[node] {
            Some(bound) => {
                &&& score.ensures((point as usize, tree.ids@[point]), Ok(scores(point)))
                &&& scores(point) matches Some(value) ==> finite_key(value) && value <= bound
            },
            None => scores(point) is None,
        }
    &&& forall|point: int, result: Result<Option<i64>, SharedNodeError>|
        0 <= point < tree.ids@.len() && #[trigger] score.ensures(
            (point as usize, tree.ids@[point]),
            result,
        ) && in_bounded_block(tree, bounds, point) ==> result == Ok::<
            Option<i64>,
            SharedNodeError,
        >(scores(point))
}

/// Whether a point stands in a block that has a bound.
pub open spec fn in_bounded_block(
    tree: NodeTree,
    bounds: Seq<Option<i64>>,
    point: int,
) -> bool {
    exists|node: int|
        0 <= node < tree.nodes@.len() && tree.covers(node, point) && (#[trigger] bounds[node])
            is Some
}

/// The telemetry of a channel that has done nothing.
pub open spec fn no_channel_work() -> SharedChannelTelemetry {
    SharedChannelTelemetry { nodes_expanded: 0, documents_scored: 0, points_emitted: 0 }
}

/// What a channel's search holds.
struct ChannelState {
    frontier: Frontier,
    opened: Vec<usize>,
    telemetry: SharedChannelTelemetry,
}

/// The identities of a channel in their exact order, one at a time.
pub struct SharedExactStream<
    'a,
    F: Fn(usize, u32) -> Result<Option<i64>, SharedNodeError>,
> {
    catalog: &'a SharedNodeCatalog,
    state: Option<ChannelState>,
    score: F,
    failed: Option<SharedNodeError>,
    bounds: Ghost<Seq<Option<i64>>>,
    truth: Ghost<Option<spec_fn(int) -> Option<i64>>>,
}

/// The points of a channel that a search holds.
pub open spec fn members(
    frontier: Frontier,
    tree: NodeTree,
    scores: spec_fn(int) -> Option<i64>,
) -> Set<int> {
    Set::new(|point: int| frontier.holds(tree, point) && scores(point) is Some)
}

/// All points of a channel.
pub open spec fn all_members(tree: NodeTree, scores: spec_fn(int) -> Option<i64>) -> Set<int> {
    Set::new(|point: int| 0 <= point < tree.ids@.len() && scores(point) is Some)
}

impl<'a, F: Fn(usize, u32) -> Result<Option<i64>, SharedNodeError>> SharedExactStream<'a, F> {
    #[verifier::type_invariant]
    closed spec fn wf(&self) -> bool {
        let tree = self.catalog.tree();
        &&& self.catalog.wf()
        &&& scores_any(self.score)
        &&& self.bounds@.len() == tree.nodes@.len()
        &&& self.failed is Some ==> self.state is None
        &&& self.state matches Some(state) ==> {
            &&& state.frontier.wf(tree)
            &&& state.frontier.settled()
            &&& forall|node: int| #[trigger]
                state.frontier.bounds().contains_key(node) ==> self.bounds@[node] == Some(
                    state.frontier.bounds()[node],
                )
            &&& forall|i: int|
                0 <= i < state.opened@.len() ==> #[trigger] state.opened@[i] < tree.nodes@.len()
            &&& state.telemetry.nodes_expanded == state.opened@.len()
            &&& leaves_unseen(state.frontier, tree)
            &&& state.telemetry.documents_scored <= seen_points(state.frontier.seen()).len()
            &&& forall|i: int|
                0 <= i < state.opened@.len() ==> block_passes(
                    tree,
                    self.bounds@,
                    self.score,
                    #[trigger] state.opened@[i] as int,
                )
            &&& self.truth@ matches Some(scores) ==> forall|point: int| #[trigger]
                state.frontier.scores().contains_key(point) ==> scores(point) == Some(
                    state.frontier.scores()[point],
                )
        }
        &&& self.truth@ matches Some(scores) ==> {
            &&& channel_scores(self.score, tree, self.bounds@, scores)
            &&& self.failed is None
        }
    }

    /// The blocks of the stream.
    pub closed spec fn tree(&self) -> NodeTree {
        self.catalog.tree()
    }

    /// What is still to come, where no score exceeds the bound of its block.
    pub closed spec fn order(&self) -> Option<Seq<int>> {
        match self.truth@ {
            Some(scores) => Some(
                match self.state {
                    Some(state) => exact_order(
                        self.catalog.tree(),
                        scores,
                        members(state.frontier, self.catalog.tree(), scores),
                    ),
                    None => Seq::empty(),
                },
            ),
            None => None,
        }
    }

    /// The failure that has ended the stream.
    pub closed spec fn failure(&self) -> Option<SharedNodeError> {
        self.failed
    }

    /// The blocks that wait and the points that are scored, where the stream has not failed.
    pub closed spec fn frontier(&self) -> Option<Frontier> {
        match self.state {
            Some(state) => Some(state.frontier),
            None => None,
        }
    }

    /// How the stream scores points.
    pub closed spec fn scorer(&self) -> F {
        self.score
    }

    /// The highest score that each block can hold.
    pub closed spec fn upper_bounds(&self) -> Seq<Option<i64>> {
        self.bounds@
    }

    /// A stream of all identities of a channel.
    pub fn new(catalog: &'a SharedNodeCatalog, plan: SharedChannelPlan<F>) -> (result: Result<
        SharedExactStream<'a, F>,
        SharedNodeError,
    >)
        requires
            scores_any(plan.score),
        ensures
            match plan_fault(catalog.tree(), plan.node_upper_bounds@) {
                Some(fault) => result == Err::<SharedExactStream<'a, F>, SharedNodeError>(fault),
                None => {
                    &&& result matches Ok(stream)
                    &&& stream.tree() == catalog.tree()
                    &&& stream.failure() is None
                    &&& stream.scorer() == plan.score
                    &&& stream.upper_bounds() == plan.node_upper_bounds@
                    &&& stream.counted() == no_channel_work()
                    &&& stream.opened() == Seq::<usize>::empty()
                    &&& stream.frontier() matches Some(frontier) && starts_search(
                        frontier,
                        catalog.tree(),
                        plan.node_upper_bounds@,
                    )
                    &&& forall|scores: spec_fn(int) -> Option<i64>| #[trigger]
                        channel_scores(
                            plan.score,
                            catalog.tree(),
                            plan.node_upper_bounds@,
                            scores,
                        ) ==> stream.order() == Some(
                            exact_order(
                                catalog.tree(),
                                scores,
                                all_members(catalog.tree(), scores),
                            ),
                        )
                },
            },
    {
        let ghost bounds = plan.node_upper_bounds@;
        let ghost tree = catalog.tree;
        proof {
            use_type_invariant(catalog);
        }
        let node_count: usize = catalog.tree.nodes.len();
        if plan.node_upper_bounds.len() != node_count {
            return Err(
                SharedNodeError::BoundCountMismatch {
                    expected: node_count,
                    actual: plan.node_upper_bounds.len(),
                },
            );
        }
        let mut frontier = Frontier::new(&catalog.tree);
        let mut node: usize = 0;
        let ghost mut reached: int = 0;
        while node < node_count
            invariant
                catalog.wf(),
                tree == catalog.tree,
                tree.wf(),
                in_blocks(tree, tree.ids@, catalog.block_size),
                bounds == plan.node_upper_bounds@,
                bounds.len() == node_count,
                node_count == tree.nodes@.len(),
                node <= node_count,
                0 <= reached <= tree.ids@.len(),
                node < node_count ==> reached == tree.nodes@[node as int].start,
                node == node_count ==> reached == tree.ids@.len(),
                plan_fault(tree, bounds) == bound_fault(bounds, node as int),
                frontier.wf(tree),
                frontier.expanded() == Set::<int>::empty(),
                frontier.scores() == Map::<int, i64>::empty(),
                forall|point: int| #[trigger]
                    frontier.loose().contains(point) <==> reached <= point < tree.ids@.len(),
                forall|other: int| #[trigger]
                    frontier.bounds().contains_key(other) <==> 0 <= other < node
                        && bounds[other] is Some,
                forall|other: int| #[trigger]
                    frontier.bounds().contains_key(other) ==> bounds[other] == Some(
                        frontier.bounds()[other],
                    ) && tree.nodes@[other].end <= reached,
                forall|other: int, point: int|
                    0 <= other < node && #[trigger] tree.covers(other, point) && bounds[other]
                        is Some ==> !#[trigger] frontier.seen()[point],
                forall|other: int|
                    0 <= other < node ==> (#[trigger] tree.nodes@[other]).end <= reached,
            decreases node_count - node,
        {
            proof {
                assert(tree.node_wf(node as int));
                assert(tree.roots@[node as int] == node);
                if node + 1 < node_count {
                    assert(tree.roots@[node + 1] == node + 1);
                }
            }
            let ghost before = frontier;
            let ghost start = tree.nodes@[node as int].start as int;
            let ghost end = tree.nodes@[node as int].end as int;
            match plan.node_upper_bounds[node] {
                None => {
                    frontier.dismiss_block(&catalog.tree, node);
                },
                Some(bound) => {
                    if !is_finite_key(bound) {
                        return Err(SharedNodeError::InvalidBound { node });
                    }
                    proof {
                        assert forall|point: int|
                            tree.covers(node as int, point) implies !#[trigger] before.seen()[point] by {
                            assert(before.loose().contains(point));
                            before.lemma_loose(tree, point);
                        }
                    }
                    frontier.push_node(&catalog.tree, node, bound);
                },
            }
            proof {
                reached = end;
                if node + 1 < node_count {
                    let following = tree.roots@[node + 1];
                    assert(tree.nodes@[tree.roots@[node as int] as int].end
                        == tree.nodes@[following as int].start);
                }
                assert forall|other: int, point: int|
                    0 <= other < node + 1 && #[trigger] tree.covers(other, point) && bounds[other]
                        is Some implies !#[trigger] frontier.seen()[point] by {
                    assert(tree.node_wf(other));
                    before.lemma_seen_len(tree);
                    if other < node {
                        assert(tree.nodes@[other].end <= start);
                        assert(!before.seen()[point]);
                        assert(frontier.seen()[point] == before.seen()[point]);
                    }
                }
            }
            node += 1;
        }
        proof {
            assert(frontier.loose() =~= Set::<int>::empty());
        }
        let ghost truth = if exists|scores: spec_fn(int) -> Option<i64>| #[trigger]
            channel_scores(plan.score, tree, bounds, scores) {
            Some(
                choose|scores: spec_fn(int) -> Option<i64>| #[trigger]
                    channel_scores(plan.score, tree, bounds, scores),
            )
        } else {
            None
        };
        let state = ChannelState {
            frontier,
            opened: Vec::new(),
            telemetry: SharedChannelTelemetry {
                nodes_expanded: 0,
                documents_scored: 0,
                points_emitted: 0,
            },
        };
        let stream = SharedExactStream {
            catalog,
            state: Some(state),
            score: plan.score,
            failed: None,
            bounds: Ghost(bounds),
            truth: Ghost(truth),
        };
        proof {
            assert forall|scores: spec_fn(int) -> Option<i64>| #[trigger]
                channel_scores(plan.score, tree, bounds, scores) implies stream.order() == Some(
                exact_order(tree, scores, all_members(tree, scores)),
            ) by {
                let known = truth->0;
                lemma_channel_scores_are_unique(plan.score, tree, bounds, known, scores);
                let held = members(frontier, tree, known);
                assert(held =~= all_members(tree, scores)) by {
                    assert forall|point: int| held.contains(point) <==> all_members(
                        tree,
                        scores,
                    ).contains(point) by {
                        if held.contains(point) {
                            frontier.lemma_held_is_point(tree, point);
                        }
                        if all_members(tree, scores).contains(point) {
                            let node = lemma_block_of(tree, point);
                            let _ = bounds[node];
                            assert(known(point) is Some);
                            assert(bounds[node] is Some);
                            assert(frontier.bounds().contains_key(node) && tree.covers(node, point));
                            assert(!frontier.seen()[point]);
                            assert(frontier.covered(tree, point));
                            frontier.lemma_seen_len(tree);
                        }
                    }
                }
                lemma_points_are_finite(tree, held);
                crate::frontier::lemma_order_of_equal_scores(tree, known, scores, held);
            }
        }
        Ok(stream)
    }

    /// Opens the block with the highest bound and scores its points.
    fn expand_next_node(catalog: &SharedNodeCatalog, state: &mut ChannelState, score: &F) -> (failed:
        Option<SharedNodeError>)
        requires
            catalog.wf(),
            scores_any(*score),
            old(state).frontier.wf(catalog.tree()),
            old(state).frontier.settled(),
            old(state).frontier.pending_nodes() > 0,
            old(state).telemetry.documents_scored <= seen_points(
                old(state).frontier.seen(),
            ).len(),
            forall|i: int|
                0 <= i < old(state).opened@.len() ==> #[trigger] old(state).opened@[i]
                    < catalog.tree().nodes@.len(),
        ensures
            final(state).frontier.wf(catalog.tree()),
            forall|i: int|
                0 <= i < final(state).opened@.len() ==> #[trigger] final(state).opened@[i]
                    < catalog.tree().nodes@.len(),
            exists|node: int|
                {
                    &&& #[trigger] old(state).frontier.opens(catalog.tree(), node)
                    &&& 0 <= node < catalog.tree().nodes@.len()
                    &&& !old(state).frontier.expanded().contains(node)
                    &&& final(state).frontier.expanded() == old(state).frontier.expanded().insert(node)
                    &&& final(state).opened@ == old(state).opened@.push(node as usize)
                    &&& opened_block(
                        old(state).frontier,
                        catalog.tree(),
                        node,
                        *score,
                        failed,
                        final(state).frontier,
                    )
                },
            failed is None ==> final(state).frontier.settled(),
            final(state).opened@.len() <= usize::MAX,
            final(state).telemetry.points_emitted == old(state).telemetry.points_emitted,
            final(state).telemetry.nodes_expanded == old(state).telemetry.nodes_expanded.saturating_add(1),
            final(state).telemetry.documents_scored + old(state).frontier.pending_points() == old(state).telemetry.documents_scored + final(state).frontier.pending_points(),
            final(state).telemetry.documents_scored <= seen_points(
                final(state).frontier.seen(),
            ).len(),
    {
        let ghost tree = catalog.tree;
        let ghost before = state.frontier;
        let (node, upper_bound) = match state.frontier.pop_node(&catalog.tree) {
            Some(popped) => popped,
            None => {
                assert(false);
                return None;
            },
        };
        let ghost popped = state.frontier;
        state.opened.push(node);
        assert(state.opened.len() <= usize::MAX);
        state.telemetry.nodes_expanded = state.telemetry.nodes_expanded.saturating_add(1);
        let start: usize = catalog.tree.nodes[node].start;
        let end: usize = catalog.tree.nodes[node].end;
        proof {
            assert(tree.node_wf(node as int));
            before.lemma_seen_len(tree);
            assert(before.opens(tree, node as int));
            assert forall|other: int| #[trigger] popped.loose().contains(other) <==> tree.covers(
                node as int,
                other,
            ) && !before.seen()[other] by {
                assert(!before.loose().contains(other));
            }
        }
        let mut ordinal: usize = start;
        while ordinal < end
            invariant
                catalog.wf(),
                tree == catalog.tree(),
                tree == catalog.tree,
                tree.wf(),
                scores_any(*score),
                node < tree.nodes@.len(),
                start == tree.nodes@[node as int].start,
                end == tree.nodes@[node as int].end,
                start <= ordinal <= end <= tree.ids@.len(),
                before.wf(tree),
                before.opens(tree, node as int),
                before.bounds()[node as int] == upper_bound,
                !before.expanded().contains(node as int),
                state.frontier.wf(tree),
                before.seen().len() == tree.ids@.len(),
                state.opened@ == old(state).opened@.push(node),
                before == old(state).frontier,
                forall|i: int|
                    0 <= i < old(state).opened@.len() ==> #[trigger] old(state).opened@[i]
                        < catalog.tree().nodes@.len(),
                state.opened@.len() <= usize::MAX,
                state.telemetry.points_emitted == old(state).telemetry.points_emitted,
                state.telemetry.nodes_expanded == old(state).telemetry.nodes_expanded.saturating_add(1),
                state.frontier.expanded() == before.expanded().insert(node as int),
                scored_upto(before, tree, node as int, *score, ordinal as int, state.frontier),
                passes_upto(before, tree, node as int, *score, ordinal as int),
                state.telemetry.documents_scored + before.pending_points()
                    == old(state).telemetry.documents_scored + state.frontier.pending_points(),
                state.telemetry.documents_scored <= seen_points(state.frontier.seen()).len(),
            decreases end - ordinal,
        {
            let id: u32 = catalog.tree.ids[ordinal];
            let ghost held = state.frontier;
            proof {
                held.lemma_seen_len(tree);
                assert(tree.ids.len() <= usize::MAX);
            }
            if state.frontier.was_seen(ordinal) {
                proof {
                    assert(!held.loose().contains(ordinal as int)) by {
                        if held.loose().contains(ordinal as int) {
                            held.lemma_loose(tree, ordinal as int);
                        }
                    }
                }
                ordinal += 1;
            } else {
                let answer = score(ordinal, id);
                let ghost result = answer;
                proof {
                    assert(score.ensures((ordinal, tree.ids@[ordinal as int]), result));
                    assert(tree.covers(node as int, ordinal as int));
                }
                match answer {
                    Ok(Some(value)) => {
                        if !is_finite_key(value) {
                            assert(fails_at(
                                tree,
                                node as int,
                                upper_bound,
                                *score,
                                ordinal as int,
                                SharedNodeError::InvalidScore { point: id },
                            ));
                            return Some(SharedNodeError::InvalidScore { point: id });
                        }
                        if value > upper_bound {
                            assert(fails_at(
                                tree,
                                node as int,
                                upper_bound,
                                *score,
                                ordinal as int,
                                SharedNodeError::BoundViolation { node, point: id },
                            ));
                            return Some(SharedNodeError::BoundViolation { node, point: id });
                        }
                        proof {
                            lemma_seen_points(held.seen(), ordinal as int);
                        }
                        state.telemetry.documents_scored =
                        state.telemetry.documents_scored.saturating_add(1);
                        state.frontier.enlist(&catalog.tree, ordinal, value);
                    },
                    Ok(None) => {
                        proof {
                            lemma_seen_points(held.seen(), ordinal as int);
                        }
                        state.frontier.dismiss(&catalog.tree, ordinal);
                    },
                    Err(error) => {
                        assert(fails_at(
                            tree,
                            node as int,
                            upper_bound,
                            *score,
                            ordinal as int,
                            error,
                        ));
                        return Some(error);
                    },
                }
                proof {
                    assert(passes_at(tree, upper_bound, *score, ordinal as int)) by {
                        assert(score.ensures((ordinal, tree.ids@[ordinal as int]), result));
                    }
                    assert(passes_upto(before, tree, node as int, *score, ordinal + 1));
                    let after = state.frontier;
                    assert forall|point: int|
                        tree.covers(node as int, point) && !before.seen()[point] && point < ordinal
                            + 1 implies (#[trigger] after.scores().contains_key(point)
                        || score.ensures((point as usize, tree.ids@[point]), Ok(None))) by {
                        assert(held.scores().contains_key(point) || point == ordinal
                            || score.ensures((point as usize, tree.ids@[point]), Ok(None)));
                    }
                    assert forall|point: int| #[trigger]
                        after.scores().contains_key(point) && !before.scores().contains_key(
                            point,
                        ) implies tree.covers(node as int, point) && !before.seen()[point]
                        && score.ensures(
                        (point as usize, tree.ids@[point]),
                        Ok(Some(after.scores()[point])),
                    ) && finite_key(after.scores()[point]) && after.scores()[point]
                        <= before.bounds()[node as int] by {
                        assert(held.scores().contains_key(point) || point == ordinal);
                    }
                    assert forall|point: int| #[trigger]
                        before.scores().contains_key(point) implies after.scores().contains_key(
                        point,
                    ) && after.scores()[point] == before.scores()[point] by {
                        assert(held.scores().contains_key(point));
                        before.lemma_scored_was_seen(tree, point);
                    }
                    assert(scored_upto(
                        before,
                        tree,
                        node as int,
                        *score,
                        ordinal + 1,
                        after,
                    ));
                }
                ordinal += 1;
            }
        }
        proof {
            assert(state.frontier.loose() =~= Set::<int>::empty());
        }
        None
    }

    /// The next point of the channel.
    fn next_point(
        catalog: &SharedNodeCatalog,
        state: &mut ChannelState,
        score: &F,
        Ghost(bounds): Ghost<Seq<Option<i64>>>,
    ) -> (result: Result<Option<usize>, SharedNodeError>)
        requires
            catalog.wf(),
            scores_any(*score),
            old(state).frontier.wf(catalog.tree()),
            old(state).frontier.settled(),
            forall|node: int| #[trigger]
                old(state).frontier.bounds().contains_key(node) ==> bounds[node] == Some(
                    old(state).frontier.bounds()[node],
                ),
            forall|i: int|
                0 <= i < old(state).opened@.len() ==> #[trigger] old(state).opened@[i]
                    < catalog.tree().nodes@.len(),
            old(state).telemetry.nodes_expanded == old(state).opened@.len(),
            leaves_unseen(old(state).frontier, catalog.tree()),
            old(state).telemetry.documents_scored <= seen_points(
                old(state).frontier.seen(),
            ).len(),
            forall|i: int|
                0 <= i < old(state).opened@.len() ==> block_passes(
                    catalog.tree(),
                    bounds,
                    *score,
                    #[trigger] old(state).opened@[i] as int,
                ),
        ensures
            leaves_unseen(final(state).frontier, catalog.tree()) || result is Err,
            final(state).telemetry.documents_scored <= seen_points(
                final(state).frontier.seen(),
            ).len(),
            result matches Ok(taken) ==> final(state).telemetry.documents_scored + old(state).frontier.pending_points() == old(state).telemetry.documents_scored + final(state).frontier.pending_points() + taken_count(taken),
            result is Ok ==> forall|i: int|
                0 <= i < final(state).opened@.len() ==> block_passes(
                    catalog.tree(),
                    bounds,
                    *score,
                    #[trigger] final(state).opened@[i] as int,
                ),
            exists|nodes: Seq<usize>|
                {
                    &&& final(state).opened@ == old(state).opened@ + nodes
                    &&& match result {
                        Ok(taken) => finds_point(
                            catalog.tree(),
                            *score,
                            old(state).frontier,
                            nodes,
                            taken,
                            final(state).frontier,
                        ),
                        Err(error) => meets_failure(
                            catalog.tree(),
                            *score,
                            old(state).frontier,
                            nodes,
                            error,
                        ),
                    }
                },
            final(state).frontier.wf(catalog.tree()),
            final(state).telemetry.nodes_expanded == final(state).opened@.len(),
            final(state).telemetry.points_emitted == (if result is Ok && result->Ok_0 is Some {
                old(state).telemetry.points_emitted.saturating_add(1)
            } else {
                old(state).telemetry.points_emitted
            }),
            result is Ok ==> final(state).frontier.settled(),
            forall|node: int| #[trigger]
                final(state).frontier.bounds().contains_key(node) ==> bounds[node] == Some(
                    final(state).frontier.bounds()[node],
                ),
            forall|i: int|
                0 <= i < final(state).opened@.len() ==> #[trigger] final(state).opened@[i]
                    < catalog.tree().nodes@.len(),
            result matches Ok(Some(point)) ==> point < catalog.tree().ids@.len(),
            result matches Err(error) ==> channel_fails(catalog.tree(), bounds, *score, error),
            forall|scores: spec_fn(int) -> Option<i64>| #[trigger]
                channel_scores(*score, catalog.tree(), bounds, scores) && agrees_with(
                    old(state).frontier,
                    scores,
                ) ==> {
                    &&& result matches Ok(next)
                    &&& agrees_with(final(state).frontier, scores)
                    &&& takes_best(
                        catalog.tree(),
                        scores,
                        members(old(state).frontier, catalog.tree(), scores),
                        next,
                        members(final(state).frontier, catalog.tree(), scores),
                    )
                },
    {
        let ghost tree = catalog.tree;
        let ghost first = state.frontier;
        let ghost mut path: Seq<Frontier> = seq![first];
        let ghost mut nodes: Seq<usize> = Seq::empty();
        assert(state.opened@ =~= old(state).opened@ + nodes);
        loop
            invariant
                opens_along(tree, *score, path, nodes, None),
                path[0] == first,
                path.last() == state.frontier,
                state.opened@ == old(state).opened@ + nodes,
                leaves_unseen(state.frontier, tree),
                state.telemetry.documents_scored + first.pending_points()
                    == old(state).telemetry.documents_scored + state.frontier.pending_points(),
                state.telemetry.documents_scored <= seen_points(state.frontier.seen()).len(),
                forall|i: int|
                    0 <= i < state.opened@.len() ==> block_passes(
                        tree,
                        bounds,
                        *score,
                        #[trigger] state.opened@[i] as int,
                    ),
                catalog.wf(),
                tree == catalog.tree,
                tree == catalog.tree(),
                tree.wf(),
                scores_any(*score),
                first == old(state).frontier,
                state.frontier.wf(tree),
                state.frontier.settled(),
                forall|node: int| #[trigger]
                    state.frontier.bounds().contains_key(node) ==> bounds[node] == Some(
                        state.frontier.bounds()[node],
                    ),
                forall|i: int|
                    0 <= i < state.opened@.len() ==> #[trigger] state.opened@[i]
                        < tree.nodes@.len(),
                state.telemetry.nodes_expanded == state.opened@.len(),
                state.telemetry.points_emitted == old(state).telemetry.points_emitted,
                forall|scores: spec_fn(int) -> Option<i64>| #[trigger]
                    channel_scores(*score, tree, bounds, scores) && agrees_with(first, scores) ==> {
                        &&& agrees_with(state.frontier, scores)
                        &&& members(state.frontier, tree, scores) == members(first, tree, scores)
                    },
            decreases tree.nodes@.len() - state.frontier.expanded().len(),
        {
            let fixed = state.frontier.next_point_is_fixed(&catalog.tree);
            let ghost before = state.frontier;
            if fixed || state.frontier.node_count() == 0 {
                let popped = state.frontier.pop_point(&catalog.tree);
                proof {
                    assert forall|scores: spec_fn(int) -> Option<i64>| #[trigger]
                        channel_scores(*score, tree, bounds, scores) && agrees_with(
                            first,
                            scores,
                        ) implies {
                        &&& agrees_with(state.frontier, scores)
                        &&& takes_best(
                            tree,
                            scores,
                            members(first, tree, scores),
                            match popped {
                                Some((point, _)) => Some(point),
                                None => None,
                            },
                            members(state.frontier, tree, scores),
                        )
                    } by {
                        lemma_pop_takes_best(
                            before,
                            state.frontier,
                            tree,
                            *score,
                            bounds,
                            scores,
                            popped,
                            fixed,
                        );
                    }
                    assert forall|node: int| #[trigger]
                        state.frontier.bounds().contains_key(node) implies bounds[node] == Some(
                        state.frontier.bounds()[node],
                    ) by {
                        assert(before.bounds().contains_key(node));
                    }
                    let taken = match popped {
                        Some((point, _)) => Some(point),
                        None => None,
                    };
                    assert(takes_leader(path.last(), tree, taken, state.frontier));
                    assert(finds_point(tree, *score, first, nodes, taken, state.frontier));
                    assert forall|node: int, point: int|
                        #![trigger state.frontier.bounds().contains_key(node), tree.covers(node, point)]
                        state.frontier.bounds().contains_key(node) && tree.covers(
                            node,
                            point,
                        ) implies !state.frontier.seen()[point] by {
                        assert(before.bounds().contains_key(node));
                    }
                }
                return match popped {
                    Some((point, _)) => {
                        state.telemetry.points_emitted =
                        state.telemetry.points_emitted.saturating_add(1);
                        Ok(Some(point))
                    },
                    None => Ok(None),
                };
            }
            let ghost opened = state.opened@;
            let failed = Self::expand_next_node(catalog, state, score);
            proof {
                let node = choose|node: int|
                    {
                        &&& #[trigger] before.opens(tree, node)
                        &&& 0 <= node < tree.nodes@.len()
                        &&& !before.expanded().contains(node)
                        &&& state.frontier.expanded() == before.expanded().insert(node)
                        &&& state.opened@ == opened.push(node as usize)
                        &&& opened_block(before, tree, node, *score, failed, state.frontier)
                    };
                assert(before.bounds().contains_key(node));
                let longer = path.push(state.frontier);
                let more = nodes.push(node as usize);
                lemma_opens_one_more(
                    tree,
                    *score,
                    path,
                    nodes,
                    node as usize,
                    failed,
                    state.frontier,
                );
                assert(state.opened@ =~= old(state).opened@ + more);
                path = longer;
                nodes = more;
                if failed is Some {
                    assert(meets_failure(tree, *score, first, nodes, failed->0));
                } else {
                    lemma_opened_block_passes(before, tree, node, *score, bounds, state.frontier);
                    assert forall|i: int| 0 <= i < state.opened@.len() implies block_passes(
                        tree,
                        bounds,
                        *score,
                        #[trigger] state.opened@[i] as int,
                    ) by {
                        if i < opened.len() {
                            assert(state.opened@[i] == opened[i]);
                        }
                    }
                }
                state.frontier.lemma_opened_more(tree, before.expanded(), node);
                if failed is Some {
                    let point = choose|point: int|
                        tree.covers(node, point) && #[trigger] fails_at(
                            tree,
                            node,
                            before.bounds()[node],
                            *score,
                            point,
                            failed->0,
                        );
                    assert(fails_at(tree, node, bounds[node]->0, *score, point, failed->0));
                    assert(channel_fails(tree, bounds, *score, failed->0));
                    assert forall|scores: spec_fn(int) -> Option<i64>| #[trigger]
                        channel_scores(*score, tree, bounds, scores) && agrees_with(
                            first,
                            scores,
                        ) implies false by {
                        lemma_no_failure(
                            tree,
                            *score,
                            bounds,
                            scores,
                            node,
                            before.bounds()[node],
                            point,
                            failed->0,
                        );
                    }
                    assert forall|other: int| #[trigger]
                        state.frontier.bounds().contains_key(other) implies bounds[other] == Some(
                        state.frontier.bounds()[other],
                    ) by {
                        assert(before.bounds().contains_key(other));
                    }
                } else {
                    assert forall|scores: spec_fn(int) -> Option<i64>| #[trigger]
                        channel_scores(*score, tree, bounds, scores) && agrees_with(
                            first,
                            scores,
                        ) implies {
                        &&& agrees_with(state.frontier, scores)
                        &&& members(state.frontier, tree, scores) == members(first, tree, scores)
                    } by {
                        lemma_open_keeps_members(
                            before,
                            state.frontier,
                            tree,
                            *score,
                            bounds,
                            scores,
                            node,
                        );
                    }
                    assert forall|other: int| #[trigger]
                        state.frontier.bounds().contains_key(other) implies bounds[other] == Some(
                        state.frontier.bounds()[other],
                    ) by {
                        assert(before.bounds().contains_key(other));
                    }
                }
            }
            match failed {
                Some(error) => {
                    return Err(error);
                },
                None => {},
            }
        }
    }
}

impl<'a, F: Fn(usize, u32) -> Result<Option<i64>, SharedNodeError>> SharedExactStream<'a, F> {
    /// The blocks that the channel has opened, in their order.
    pub closed spec fn opened(&self) -> Seq<usize> {
        match self.state {
            Some(state) => state.opened@,
            None => Seq::empty(),
        }
    }

    /// What was counted of the channel.
    pub closed spec fn counted(&self) -> SharedChannelTelemetry {
        match self.state {
            Some(state) => state.telemetry,
            None => no_channel_work(),
        }
    }

    /// What the channel has done.
    pub fn telemetry(&self) -> (telemetry: SharedChannelTelemetry)
        ensures
            telemetry == self.counted(),
            telemetry.nodes_expanded == self.opened().len(),
            forall|i: int|
                0 <= i < self.opened().len() ==> block_passes(
                    self.tree(),
                    self.upper_bounds(),
                    self.scorer(),
                    #[trigger] self.opened()[i] as int,
                ),
    {
        proof {
            use_type_invariant(self);
        }
        match &self.state {
            Some(state) => state.telemetry,
            None => SharedChannelTelemetry {
                nodes_expanded: 0,
                documents_scored: 0,
                points_emitted: 0,
            },
        }
    }

    /// Whether the stream has failed.
    fn has_failed(&self) -> (failed: bool)
        ensures
            failed == (self.failure() is Some),
    {
        match &self.failed {
            Some(_) => true,
            None => false,
        }
    }

    /// The failure that has ended the stream.
    pub fn into_failure(self) -> (failure: Option<SharedNodeError>)
        ensures
            failure == self.failure(),
    {
        self.failed
    }

    /// Opens the blocks that the channel has opened in a shared state.
    fn record(&self, catalog: &SharedNodeCatalog, access: &mut SharedAccessState)
        requires
            old(access).materialized().len() == catalog.tree().nodes@.len(),
        ensures
            final(access).materialized().len() == old(access).materialized().len(),
            (final(access).materialized(), final(access).counted()) == opens_blocks(
                catalog.tree(),
                self.opened(),
                (old(access).materialized(), old(access).counted()),
            ),
    {
        proof {
            use_type_invariant(catalog);
        }
        match &self.state {
            Some(state) => {
                let ghost given = (access.materialized(), access.counted());
                let ghost tree = catalog.tree;
                let mut i: usize = 0;
                assert(state.opened@.take(0) =~= Seq::<usize>::empty());
                while i < state.opened.len()
                    invariant
                        i <= state.opened@.len(),
                        tree == catalog.tree,
                        tree.wf(),
                        access.materialized().len() == tree.nodes@.len(),
                        (access.materialized(), access.counted()) == opens_blocks(
                            tree,
                            state.opened@.take(i as int),
                            given,
                        ),
                    decreases state.opened@.len() - i,
                {
                    let node: usize = state.opened[i];
                    proof {
                        let longer = state.opened@.take(i + 1);
                        assert(longer.drop_last() =~= state.opened@.take(i as int));
                        assert(longer.last() == node);
                    }
                    if node < catalog.tree.nodes.len() {
                        let block = &catalog.tree.nodes[node];
                        assert(tree.node_wf(node as int));
                        access.open(node, block.end - block.start);
                    }
                    i += 1;
                }
                assert(state.opened@.take(i as int) =~= state.opened@);
            },
            None => {},
        }
    }
}

/// How many points were taken.
pub open spec fn taken_count(taken: Option<usize>) -> nat {
    match taken {
        Some(_) => 1,
        None => 0,
    }
}

/// The identity at a place of a tree.
pub open spec fn identity_at(tree: NodeTree, point: Option<usize>) -> Option<ExtendedPointId> {
    match point {
        Some(point) => Some(ExtendedPointId::NumId(tree.ids@[point as int] as u64)),
        None => None,
    }
}

/// What opening blocks one after the other adds to a shared state.
pub open spec fn opens_blocks(
    tree: NodeTree,
    opened: Seq<usize>,
    before: (Seq<bool>, SharedPhysicalTelemetry),
) -> (Seq<bool>, SharedPhysicalTelemetry)
    decreases opened.len(),
{
    if opened.len() == 0 {
        before
    } else {
        let (materialized, counted) = opens_blocks(tree, opened.drop_last(), before);
        let node = opened.last() as int;
        if node < tree.nodes@.len() {
            (
                materialized.update(node, true),
                opened_once(
                    counted,
                    materialized[node],
                    (tree.nodes@[node].end - tree.nodes@[node].start) as usize,
                ),
            )
        } else {
            (materialized, counted)
        }
    }
}

impl<
    'a,
    F: Fn(usize, u32) -> Result<Option<i64>, SharedNodeError>,
> ExactRrfStream for SharedExactStream<'a, F> {
    open spec fn rest(&self) -> Option<Seq<ExtendedPointId>> {
        match self.order() {
            Some(order) => Some(ids_of(self.tree(), order)),
            None => None,
        }
    }

    open spec fn replies(
        &self,
        result: OperationResult<Option<ExtendedPointId>>,
        later: &Self,
    ) -> bool {
        &&& later.tree() == self.tree()
        &&& later.scorer() == self.scorer()
        &&& later.upper_bounds() == self.upper_bounds()
        &&& match self.frontier() {
            None => {
                &&& result == Ok::<Option<ExtendedPointId>, OperationError>(None)
                &&& later.frontier() is None
                &&& later.failure() == self.failure()
            },
            Some(frontier) => match result {
                Ok(found) => {
                    &&& later.failure() == self.failure()
                    &&& exists|nodes: Seq<usize>, taken: Option<usize>, after: Frontier|
                        {
                            &&& later.frontier() == Some(after)
                            &&& later.opened() == self.opened() + nodes
                            &&& found == identity_at(self.tree(), taken)
                            &&& later.counted().documents_scored + frontier.pending_points()
                                == self.counted().documents_scored + after.pending_points()
                                + taken_count(taken)
                            &&& later.counted().points_emitted == (if taken is Some {
                                self.counted().points_emitted.saturating_add(1)
                            } else {
                                self.counted().points_emitted
                            })
                            &&& #[trigger] finds_point(
                                self.tree(),
                                self.scorer(),
                                frontier,
                                nodes,
                                taken,
                                after,
                            )
                        }
                },
                Err(fault) => {
                    &&& fault == OperationError::ValidationError(Fault::ChannelFailed)
                    &&& later.frontier() is None
                    &&& exists|nodes: Seq<usize>, error: SharedNodeError|
                        {
                            &&& later.failure() == Some(error)
                            &&& #[trigger] meets_failure(
                                self.tree(),
                                self.scorer(),
                                frontier,
                                nodes,
                                error,
                            )
                        }
                },
            },
        }
        &&& match self.failure() {
            Some(error) => later.failure() == Some(error),
            None => later.failure() matches Some(error) ==> channel_fails(
                self.tree(),
                self.upper_bounds(),
                self.scorer(),
                error,
            ),
        }
    }

    fn next(&mut self) -> (result: OperationResult<Option<ExtendedPointId>>)
        ensures
            result is Ok ==> final(self).counted().points_emitted == (if result->Ok_0 is Some {
                old(self).counted().points_emitted.saturating_add(1)
            } else {
                old(self).counted().points_emitted
            }),
            old(self).failure() is None && final(self).failure() is Some ==> result
                == Err::<Option<ExtendedPointId>, OperationError>(
                OperationError::ValidationError(Fault::ChannelFailed),
            ),
    {
        proof {
            use_type_invariant(&*self);
        }
        let ghost before = *self;
        let ghost tree = self.catalog.tree();
        let mut taken: Option<ChannelState> = None;
        std::mem::swap(&mut self.state, &mut taken);
        let mut state = match taken {
            Some(state) => state,
            None => {
                return Ok(None);
            },
        };
        let ghost held = state.frontier;
        let ghost opened = state.opened@;
        let next = Self::next_point(self.catalog, &mut state, &self.score, Ghost(self.bounds@));
        proof {
            if before.truth@ is Some {
                let scores = before.truth@->0;
                assert(channel_scores(self.score, tree, self.bounds@, scores));
                assert(agrees_with(held, scores));
                lemma_members_are_points(held, tree, scores);
            }
        }
        match next {
            Ok(found) => {
                let ghost left = state.frontier;
                let ghost more = state.opened@;
                self.state = Some(state);
                proof {
                    let nodes = choose|nodes: Seq<usize>|
                        {
                            &&& more == opened + nodes
                            &&& finds_point(tree, self.score, held, nodes, found, left)
                        };
                    assert(finds_point(
                        before.tree(),
                        before.scorer(),
                        before.frontier()->0,
                        nodes,
                        found,
                        left,
                    ));
                    assert(self.frontier() == Some(left));
                    assert(self.opened() == before.opened() + nodes);
                    if before.truth@ is Some {
                        let scores = before.truth@->0;
                        let held_members = members(held, tree, scores);
                        match found {
                            Some(point) => {
                                lemma_best_is_first(tree, scores, held_members, point as int);
                                let order = before.order()->0;
                                assert(order.drop_first() =~= self.order()->0);
                                assert(ids_of(tree, order.drop_first()) =~= ids_of(
                                    tree,
                                    order,
                                ).drop_first());
                            },
                            None => {
                                assert forall|point: int| !#[trigger] is_best(
                                    tree,
                                    scores,
                                    Set::<int>::empty(),
                                    point,
                                ) by {}
                            },
                        }
                    }
                }
                match found {
                    Some(point) => Ok(
                        Some(ExtendedPointId::NumId(self.catalog.tree.ids[point] as u64)),
                    ),
                    None => Ok(None),
                }
            },
            Err(error) => {
                assert(channel_fails(tree, before.bounds@, before.score, error));
                proof {
                    let nodes = choose|nodes: Seq<usize>|
                        meets_failure(tree, before.score, held, nodes, error);
                    assert(meets_failure(
                        before.tree(),
                        before.scorer(),
                        before.frontier()->0,
                        nodes,
                        error,
                    ));
                }
                self.failed = Some(error);
                refuse(Fault::ChannelFailed)
            },
        }
    }
}

/// The points of a channel are points of the tree.
proof fn lemma_members_are_points(
    frontier: Frontier,
    tree: NodeTree,
    scores: spec_fn(int) -> Option<i64>,
)
    requires
        frontier.wf(tree),
    ensures
        members(frontier, tree, scores).finite(),
{
    let held = members(frontier, tree, scores);
    assert forall|point: int| #[trigger] held.contains(point) implies 0 <= point
        < tree.ids@.len() by {
        frontier.lemma_held_is_point(tree, point);
    }
    lemma_points_are_finite(tree, held);
}

/// Every point stands in a block.
proof fn lemma_block_of(tree: NodeTree, point: int) -> (node: int)
    requires
        tree.wf(),
        0 <= point < tree.ids@.len(),
    ensures
        0 <= node < tree.nodes@.len(),
        tree.covers(node, point),
{
    assert(tree.roots@.len() > 0);
    let at = crate::frontier::lemma_tile_covers(
        tree,
        tree.roots@,
        0,
        tree.ids@.len() as int,
        0,
        point,
    );
    tree.roots@[at] as int
}

/// Points of a tree are finitely many.
proof fn lemma_points_are_finite(tree: NodeTree, points: Set<int>)
    requires
        forall|point: int| #[trigger] points.contains(point) ==> 0 <= point < tree.ids@.len(),
    ensures
        points.finite(),
{
    let all = vstd::set_lib::set_int_range(0, tree.ids@.len() as int);
    vstd::set_lib::lemma_int_range(0, tree.ids@.len() as int);
    assert(points.subset_of(all));
    vstd::set_lib::lemma_len_subset(points, all);
}

/// The scores of a channel are determined by how it scores.
proof fn lemma_channel_scores_are_unique<
    F: Fn(usize, u32) -> Result<Option<i64>, SharedNodeError>,
>(
    score: F,
    tree: NodeTree,
    bounds: Seq<Option<i64>>,
    left: spec_fn(int) -> Option<i64>,
    right: spec_fn(int) -> Option<i64>,
)
    requires
        tree.wf(),
        channel_scores(score, tree, bounds, left),
        channel_scores(score, tree, bounds, right),
    ensures
        forall|point: int| 0 <= point < tree.ids@.len() ==> #[trigger] left(point) == right(point),
{
    assert forall|point: int| 0 <= point < tree.ids@.len() implies #[trigger] left(point) == right(
        point,
    ) by {
        let node = lemma_block_of(tree, point);
        let _ = bounds[node];
        let _ = right(point);
        if bounds[node] is Some {
            assert(in_bounded_block(tree, bounds, point));
            assert(score.ensures((point as usize, tree.ids@[point]), Ok(left(point))));
        }
    }
}

/// Whether the points of an opened block, before the given one, were scored or
/// dismissed as the channel says.
pub open spec fn scored_upto<F: Fn(usize, u32) -> Result<Option<i64>, SharedNodeError>>(
    before: Frontier,
    tree: NodeTree,
    node: int,
    score: F,
    upto: int,
    after: Frontier,
) -> bool {
    &&& after.bounds() == before.bounds().remove(node)
    &&& after.seen().len() == before.seen().len()
    &&& forall|point: int|
        0 <= point < before.seen().len() ==> #[trigger] after.seen()[point] == (
        before.seen()[point] || tree.covers(node, point) && point < upto)
    &&& forall|point: int| #[trigger]
        after.loose().contains(point) <==> tree.covers(node, point) && !before.seen()[point]
            && upto <= point
    &&& forall|point: int| #[trigger]
        before.scores().contains_key(point) ==> after.scores().contains_key(point)
            && after.scores()[point] == before.scores()[point]
    &&& forall|point: int| #[trigger]
        after.scores().contains_key(point) && !before.scores().contains_key(point)
            ==> tree.covers(node, point) && !before.seen()[point] && score.ensures(
            (point as usize, tree.ids@[point]),
            Ok(Some(after.scores()[point])),
        ) && finite_key(after.scores()[point]) && after.scores()[point] <= before.bounds()[node]
    &&& forall|point: int|
        tree.covers(node, point) && !before.seen()[point] && point < upto ==> (
        #[trigger] after.scores().contains_key(point) || score.ensures(
            (point as usize, tree.ids@[point]),
            Ok(None),
        ))
}

/// What opening a block does: its points are scored or dismissed, or the first of them
/// that fails is the reason of a failure.
pub open spec fn opened_block<F: Fn(usize, u32) -> Result<Option<i64>, SharedNodeError>>(
    before: Frontier,
    tree: NodeTree,
    node: int,
    score: F,
    failed: Option<SharedNodeError>,
    after: Frontier,
) -> bool {
    &&& after.bounds() == before.bounds().remove(node)
    &&& match failed {
        None => scored_upto(before, tree, node, score, tree.nodes@[node].end as int, after),
        Some(error) => exists|point: int|
            {
                &&& tree.covers(node, point)
                &&& !before.seen()[point]
                &&& #[trigger] fails_at(tree, node, before.bounds()[node], score, point, error)
                &&& passes_upto(before, tree, node, score, point)
            },
    }
}

/// Whether a point is no reason for a failure: it has no score, or a finite one that does
/// not exceed the bound of its block.
pub open spec fn passes_at<F: Fn(usize, u32) -> Result<Option<i64>, SharedNodeError>>(
    tree: NodeTree,
    bound: i64,
    score: F,
    point: int,
) -> bool {
    exists|result: Result<Option<i64>, SharedNodeError>| #[trigger]
        score.ensures((point as usize, tree.ids@[point]), result) && match result {
            Ok(Some(value)) => finite_key(value) && value <= bound,
            Ok(None) => true,
            Err(_) => false,
        }
}

/// Whether no point of a block before the given one is a reason for a failure.
pub open spec fn passes_upto<F: Fn(usize, u32) -> Result<Option<i64>, SharedNodeError>>(
    before: Frontier,
    tree: NodeTree,
    node: int,
    score: F,
    upto: int,
) -> bool {
    forall|point: int|
        tree.covers(node, point) && !before.seen()[point] && point < upto ==> #[trigger] passes_at(
            tree,
            before.bounds()[node],
            score,
            point,
        )
}

/// Whether no point of a block is a reason for a failure.
pub open spec fn block_passes<F: Fn(usize, u32) -> Result<Option<i64>, SharedNodeError>>(
    tree: NodeTree,
    bounds: Seq<Option<i64>>,
    score: F,
    node: int,
) -> bool {
    bounds[node] matches Some(bound) && forall|point: int|
        tree.covers(node, point) ==> #[trigger] passes_at(tree, bound, score, point)
}

/// Whether the next point of a channel is known: no unopened block can hold a better one.
pub open spec fn is_decided(frontier: Frontier, tree: NodeTree) -> bool {
    frontier.pending_nodes() == 0 || exists|point: int, score: i64|
        #![trigger frontier.leads(tree, point, score)]
        frontier.leads(tree, point, score) && frontier.settles(tree, point, score)
}

/// Whether blocks are opened one after the other, each because the next point was not
/// known, up to the last frontier. Only the last of them can fail.
pub open spec fn opens_along<F: Fn(usize, u32) -> Result<Option<i64>, SharedNodeError>>(
    tree: NodeTree,
    score: F,
    path: Seq<Frontier>,
    nodes: Seq<usize>,
    failed: Option<SharedNodeError>,
) -> bool {
    &&& path.len() == nodes.len() + 1
    &&& failed is Some ==> nodes.len() > 0
    &&& forall|i: int|
        0 <= i < nodes.len() ==> opens_next(
            tree,
            score,
            path[i],
            #[trigger] nodes[i],
            if i == nodes.len() - 1 {
                failed
            } else {
                None
            },
            path[i + 1],
        )
}

/// Whether a block is opened because the next point is not known.
pub open spec fn opens_next<F: Fn(usize, u32) -> Result<Option<i64>, SharedNodeError>>(
    tree: NodeTree,
    score: F,
    before: Frontier,
    node: usize,
    failed: Option<SharedNodeError>,
    after: Frontier,
) -> bool {
    &&& !is_decided(before, tree)
    &&& before.opens(tree, node as int)
    &&& opened_block(before, tree, node as int, score, failed, after)
}

/// Whether the best of the scored points was taken, or nothing where none is left, when
/// the next point was known.
pub open spec fn takes_leader(
    before: Frontier,
    tree: NodeTree,
    taken: Option<usize>,
    after: Frontier,
) -> bool {
    &&& is_decided(before, tree)
    &&& match taken {
        Some(point) => {
            &&& point < tree.ids@.len()
            &&& before.leads(tree, point as int, before.scores()[point as int])
            &&& after.bounds() == before.bounds()
            &&& after.scores() == before.scores().remove(point as int)
            &&& after.seen() == before.seen()
            &&& after.expanded() == before.expanded()
        },
        None => before.scores() == Map::<int, i64>::empty() && after == before,
    }
}

/// Whether a channel opens blocks until its next point is known and takes it.
pub open spec fn finds_point<F: Fn(usize, u32) -> Result<Option<i64>, SharedNodeError>>(
    tree: NodeTree,
    score: F,
    before: Frontier,
    nodes: Seq<usize>,
    taken: Option<usize>,
    after: Frontier,
) -> bool {
    exists|path: Seq<Frontier>| #[trigger]
        opens_along(tree, score, path, nodes, None) && path[0] == before && takes_leader(
            path.last(),
            tree,
            taken,
            after,
        )
}

/// Whether a channel opens blocks until one of them fails.
pub open spec fn meets_failure<F: Fn(usize, u32) -> Result<Option<i64>, SharedNodeError>>(
    tree: NodeTree,
    score: F,
    before: Frontier,
    nodes: Seq<usize>,
    error: SharedNodeError,
) -> bool {
    exists|path: Seq<Frontier>| #[trigger]
        opens_along(tree, score, path, nodes, Some(error)) && path[0] == before
}

/// Whether the points of the unopened blocks are still to be scored.
pub open spec fn leaves_unseen(frontier: Frontier, tree: NodeTree) -> bool {
    forall|node: int, point: int|
        #![trigger frontier.bounds().contains_key(node), tree.covers(node, point)]
        frontier.bounds().contains_key(node) && tree.covers(node, point)
            ==> !frontier.seen()[point]
}

/// Whether a search stands before its first block: every block that has a bound waits, and
/// no point has been scored.
pub open spec fn starts_search(
    frontier: Frontier,
    tree: NodeTree,
    bounds: Seq<Option<i64>>,
) -> bool {
    &&& forall|node: int| #[trigger]
        frontier.bounds().contains_key(node) <==> 0 <= node < tree.nodes@.len() && bounds[node]
            is Some
    &&& forall|node: int| #[trigger]
        frontier.bounds().contains_key(node) ==> bounds[node] == Some(frontier.bounds()[node])
    &&& frontier.scores() == Map::<int, i64>::empty()
    &&& leaves_unseen(frontier, tree)
}

/// A point that passes fails only where the channel can answer it in two ways.
pub proof fn law_passing_point_does_not_fail<
    F: Fn(usize, u32) -> Result<Option<i64>, SharedNodeError>,
>(tree: NodeTree, node: int, bound: i64, score: F, point: int, error: SharedNodeError)
    requires
        passes_at(tree, bound, score, point),
        forall|
            left: Result<Option<i64>, SharedNodeError>,
            right: Result<Option<i64>, SharedNodeError>,
        |
            #[trigger] score.ensures((point as usize, tree.ids@[point]), left)
                && #[trigger] score.ensures((point as usize, tree.ids@[point]), right) ==> left
                == right,
    ensures
        !fails_at(tree, node, bound, score, point, error),
{
}

/// One block more is opened.
proof fn lemma_opens_one_more<F: Fn(usize, u32) -> Result<Option<i64>, SharedNodeError>>(
    tree: NodeTree,
    score: F,
    path: Seq<Frontier>,
    nodes: Seq<usize>,
    node: usize,
    failed: Option<SharedNodeError>,
    after: Frontier,
)
    requires
        opens_along(tree, score, path, nodes, None),
        !is_decided(path.last(), tree),
        path.last().opens(tree, node as int),
        opened_block(path.last(), tree, node as int, score, failed, after),
    ensures
        opens_along(tree, score, path.push(after), nodes.push(node), failed),
{
    let longer = path.push(after);
    let more = nodes.push(node);
    assert forall|i: int| 0 <= i < more.len() implies opens_next(
        tree,
        score,
        longer[i],
        #[trigger] more[i],
        if i == more.len() - 1 {
            failed
        } else {
            None
        },
        longer[i + 1],
    ) by {
        if i < nodes.len() {
            assert(more[i] == nodes[i]);
            assert(longer[i] == path[i] && longer[i + 1] == path[i + 1]);
        } else {
            assert(longer[i] == path.last());
        }
    }
}

/// The points of a block that was opened without a failure pass, and the other unopened
/// blocks stay untouched.
proof fn lemma_opened_block_passes<F: Fn(usize, u32) -> Result<Option<i64>, SharedNodeError>>(
    before: Frontier,
    tree: NodeTree,
    node: int,
    score: F,
    bounds: Seq<Option<i64>>,
    after: Frontier,
)
    requires
        tree.wf(),
        before.wf(tree),
        0 <= node < tree.nodes@.len(),
        before.bounds().contains_key(node),
        bounds[node] == Some(before.bounds()[node]),
        leaves_unseen(before, tree),
        scored_upto(before, tree, node, score, tree.nodes@[node].end as int, after),
    ensures
        block_passes(tree, bounds, score, node),
        leaves_unseen(after, tree),
{
    assert(tree.node_wf(node));
    before.lemma_seen_len(tree);
    assert forall|point: int| tree.covers(node, point) implies #[trigger] passes_at(
        tree,
        before.bounds()[node],
        score,
        point,
    ) by {
        assert(!before.seen()[point]);
        if after.scores().contains_key(point) {
            if before.scores().contains_key(point) {
                before.lemma_scored_was_seen(tree, point);
            }
        } else {
            assert(score.ensures((point as usize, tree.ids@[point]), Ok(None)));
        }
    }
    assert forall|other: int, point: int|
        #![trigger after.bounds().contains_key(other), tree.covers(other, point)]
        after.bounds().contains_key(other) && tree.covers(other, point) implies !after.seen()[point] by {
        assert(before.bounds().contains_key(other));
        before.lemma_pending_is_node(tree, other);
        assert(tree.node_wf(other));
        before.lemma_pending_apart(tree, other, node);
    }
}

/// Whether a point is a reason for a failure.
pub open spec fn fails_at<F: Fn(usize, u32) -> Result<Option<i64>, SharedNodeError>>(
    tree: NodeTree,
    node: int,
    bound: i64,
    score: F,
    point: int,
    error: SharedNodeError,
) -> bool {
    exists|result: Result<Option<i64>, SharedNodeError>| #[trigger]
        score.ensures((point as usize, tree.ids@[point]), result) && match result {
            Ok(Some(value)) => if !finite_key(value) {
                error == SharedNodeError::InvalidScore { point: tree.ids@[point] }
            } else {
                value > bound && error == SharedNodeError::BoundViolation {
                    node: node as usize,
                    point: tree.ids@[point],
                }
            },
            Ok(None) => false,
            Err(reason) => error == reason,
        }
}

/// Whether a channel can fail with an error: the score of a point is refused, is not a
/// number, or exceeds the bound of its block.
pub open spec fn channel_fails<F: Fn(usize, u32) -> Result<Option<i64>, SharedNodeError>>(
    tree: NodeTree,
    bounds: Seq<Option<i64>>,
    score: F,
    error: SharedNodeError,
) -> bool {
    exists|node: int, point: int|
        0 <= node < tree.nodes@.len() && tree.covers(node, point) && bounds[node] is Some
            && #[trigger] fails_at(tree, node, bounds[node]->0, score, point, error)
}

/// A stream that comes after one that has not failed fails only as its channel can.
proof fn lemma_failure_is_the_channels<
    'a,
    F: Fn(usize, u32) -> Result<Option<i64>, SharedNodeError>,
>(before: SharedExactStream<'a, F>, after: SharedExactStream<'a, F>, pulls: nat)
    requires
        reaches(before, after, pulls),
        before.failure() is None,
    ensures
        after.tree() == before.tree(),
        after.scorer() == before.scorer(),
        after.upper_bounds() == before.upper_bounds(),
        after.failure() matches Some(error) ==> channel_fails(
            before.tree(),
            before.upper_bounds(),
            before.scorer(),
            error,
        ),
    decreases pulls,
{
    if pulls > 0 {
        let (middle, result) = choose|
            middle: SharedExactStream<'a, F>,
            result: OperationResult<Option<ExtendedPointId>>,
        |
            reaches(before, middle, (pulls - 1) as nat) && #[trigger] middle.replies(
                result,
                &after,
            );
        lemma_failure_is_the_channels(before, middle, (pulls - 1) as nat);
    }
}

/// Whether the known scores are the given ones.
pub open spec fn agrees_with(frontier: Frontier, scores: spec_fn(int) -> Option<i64>) -> bool {
    forall|point: int| #[trigger]
        frontier.scores().contains_key(point) ==> scores(point) == Some(frontier.scores()[point])
}

/// Whether the best point was taken out of a set, or nothing out of an empty one.
pub open spec fn takes_best(
    tree: NodeTree,
    scores: spec_fn(int) -> Option<i64>,
    before: Set<int>,
    taken: Option<usize>,
    after: Set<int>,
) -> bool {
    match taken {
        Some(point) => {
            &&& is_best(tree, scores, before, point as int)
            &&& after == before.remove(point as int)
        },
        None => before == Set::<int>::empty() && after == before,
    }
}

/// A channel whose scores are known does not fail.
proof fn lemma_no_failure<F: Fn(usize, u32) -> Result<Option<i64>, SharedNodeError>>(
    tree: NodeTree,
    score: F,
    bounds: Seq<Option<i64>>,
    scores: spec_fn(int) -> Option<i64>,
    node: int,
    bound: i64,
    point: int,
    error: SharedNodeError,
)
    requires
        tree.wf(),
        channel_scores(score, tree, bounds, scores),
        0 <= node < tree.nodes@.len(),
        tree.covers(node, point),
        bounds[node] == Some(bound),
    ensures
        !fails_at(tree, node, bound, score, point, error),
{
    assert(tree.node_wf(node));
    if fails_at(tree, node, bound, score, point, error) {
        lemma_failure_is_no_score(tree, score, bounds, scores, node, bound, point, error);
    }
}

proof fn lemma_failure_is_no_score<F: Fn(usize, u32) -> Result<Option<i64>, SharedNodeError>>(
    tree: NodeTree,
    score: F,
    bounds: Seq<Option<i64>>,
    scores: spec_fn(int) -> Option<i64>,
    node: int,
    bound: i64,
    point: int,
    error: SharedNodeError,
)
    requires
        tree.wf(),
        0 <= node < tree.nodes@.len(),
        tree.covers(node, point),
        bounds[node] == Some(bound),
        fails_at(tree, node, bound, score, point, error),
    ensures
        !channel_scores(score, tree, bounds, scores),
{
    assert(tree.node_wf(node));
    let result = choose|result: Result<Option<i64>, SharedNodeError>| #[trigger]
        score.ensures((point as usize, tree.ids@[point]), result) && match result {
            Ok(Some(value)) => if !finite_key(value) {
                error == SharedNodeError::InvalidScore { point: tree.ids@[point] }
            } else {
                value > bound && error == SharedNodeError::BoundViolation {
                    node: node as usize,
                    point: tree.ids@[point],
                }
            },
            Ok(None) => false,
            Err(reason) => error == reason,
        };
    assert(in_bounded_block(tree, bounds, point)) by {
        assert(bounds[node] is Some);
    }
    if channel_scores(score, tree, bounds, scores) {
        assert(result == Ok::<Option<i64>, SharedNodeError>(scores(point)));
        let _ = bounds[node];
    }
}

/// Opening a block keeps the points of the channel.
proof fn lemma_open_keeps_members<F: Fn(usize, u32) -> Result<Option<i64>, SharedNodeError>>(
    before: Frontier,
    after: Frontier,
    tree: NodeTree,
    score: F,
    bounds: Seq<Option<i64>>,
    scores: spec_fn(int) -> Option<i64>,
    node: int,
)
    requires
        tree.wf(),
        before.wf(tree),
        after.wf(tree),
        before.settled(),
        after.settled(),
        channel_scores(score, tree, bounds, scores),
        agrees_with(before, scores),
        0 <= node < tree.nodes@.len(),
        before.bounds().contains_key(node),
        bounds[node] == Some(before.bounds()[node]),
        scored_upto(before, tree, node, score, tree.nodes@[node].end as int, after),
    ensures
        agrees_with(after, scores),
        members(after, tree, scores) == members(before, tree, scores),
{
    assert(tree.node_wf(node));
    before.lemma_seen_len(tree);
    after.lemma_seen_len(tree);
    assert forall|point: int| tree.covers(node, point) implies in_bounded_block(
        tree,
        bounds,
        point,
    ) by {
        assert(bounds[node] is Some);
    }
    assert forall|point: int| #[trigger] after.scores().contains_key(point) implies scores(point)
        == Some(after.scores()[point]) by {
        if before.scores().contains_key(point) {
        } else {
            assert(score.ensures(
                (point as usize, tree.ids@[point]),
                Ok(Some(after.scores()[point])),
            ));
        }
    }
    assert forall|point: int| members(after, tree, scores).contains(point) <==> members(
        before,
        tree,
        scores,
    ).contains(point) by {
        if scores(point) is Some {
            if before.holds(tree, point) {
                before.lemma_held_is_point(tree, point);
                if before.scores().contains_key(point) {
                    assert(after.scores().contains_key(point));
                } else {
                    assert(before.waits(tree, point));
                    let other = choose|other: int| #[trigger]
                        before.bounds().contains_key(other) && tree.covers(other, point);
                    if other == node {
                        if !after.scores().contains_key(point) {
                            assert(score.ensures((point as usize, tree.ids@[point]), Ok(None)));
                        }
                    } else {
                        before.lemma_pending_apart(tree, other, node);
                        assert(after.bounds().contains_key(other));
                        assert(after.covered(tree, point));
                        assert(!after.seen()[point]);
                    }
                }
            }
            if after.holds(tree, point) {
                after.lemma_held_is_point(tree, point);
                if after.scores().contains_key(point) {
                    if !before.scores().contains_key(point) {
                        assert(before.bounds().contains_key(node) && tree.covers(node, point));
                        assert(before.covered(tree, point));
                    }
                } else {
                    assert(after.waits(tree, point));
                    let other = choose|other: int| #[trigger]
                        after.bounds().contains_key(other) && tree.covers(other, point);
                    assert(before.bounds().contains_key(other));
                    assert(before.covered(tree, point));
                    assert(!before.seen()[point]);
                }
            }
        }
    }
    assert(members(after, tree, scores) =~= members(before, tree, scores));
}

/// A fixed point, or the best where no block is left, is the best of the channel.
proof fn lemma_pop_takes_best<F: Fn(usize, u32) -> Result<Option<i64>, SharedNodeError>>(
    before: Frontier,
    after: Frontier,
    tree: NodeTree,
    score: F,
    bounds: Seq<Option<i64>>,
    scores: spec_fn(int) -> Option<i64>,
    popped: Option<(usize, i64)>,
    fixed: bool,
)
    requires
        tree.wf(),
        before.wf(tree),
        after.wf(tree),
        before.settled(),
        channel_scores(score, tree, bounds, scores),
        agrees_with(before, scores),
        forall|node: int| #[trigger]
            before.bounds().contains_key(node) ==> bounds[node] == Some(before.bounds()[node]),
        fixed || before.pending_nodes() == 0,
        fixed ==> exists|point: int, value: i64|
            #![trigger before.leads(tree, point, value)]
            before.leads(tree, point, value) && before.settles(tree, point, value),
        popped is None ==> after == before && before.scores() == Map::<int, i64>::empty(),
        popped matches Some((point, value)) ==> {
            &&& point < tree.ids@.len()
            &&& before.leads(tree, point as int, value)
            &&& after.bounds() == before.bounds()
            &&& after.scores() == before.scores().remove(point as int)
            &&& after.seen() == before.seen()
            &&& after.loose() == before.loose()
        },
    ensures
        agrees_with(after, scores),
        takes_best(
            tree,
            scores,
            members(before, tree, scores),
            match popped {
                Some((point, _)) => Some(point),
                None => None,
            },
            members(after, tree, scores),
        ),
{
    let held = members(before, tree, scores);
    if !fixed {
        before.lemma_no_pending(tree);
    }
    match popped {
        Some((point, value)) => {
            assert forall|other: int| #[trigger] after.scores().contains_key(other) implies scores(
                other,
            ) == Some(after.scores()[other]) by {
                assert(before.scores().contains_key(other));
            }
            if fixed {
                let (leader, best) = choose|leader: int, best: i64|
                    #![trigger before.leads(tree, leader, best)]
                    before.leads(tree, leader, best) && before.settles(tree, leader, best);
                if leader != point as int {
                    assert(tree.before(leader, best, point as int, value));
                    assert(tree.before(point as int, value, leader, best));
                }
            }
            assert(before.settles(tree, point as int, value));
            assert(before.scores().contains_key(point as int));
            assert(before.holds(tree, point as int));
            assert(scores(point as int) == Some(value));
            assert forall|other: int| #[trigger]
                held.contains(other) && other != point as int && scores(other)
                    is Some implies tree.before(
                point as int,
                value,
                other,
                scores(other)->0,
            ) by {
                assert(before.holds(tree, other));
                if before.scores().contains_key(other) {
                    assert(tree.before(point as int, value, other, before.scores()[other]));
                } else {
                    assert(before.waits(tree, other));
                    let node = choose|node: int| #[trigger]
                        before.bounds().contains_key(node) && tree.covers(node, other);
                    before.lemma_pending_is_node(tree, node);
                    assert(tree.node_wf(node));
                    let _ = bounds[node];
                    assert(bounds[node] == Some(before.bounds()[node]));
                    assert(scores(other)->0 <= before.bounds()[node]);
                    assert(tree.nodes@[node].min_id <= tree.ids@[other]);
                }
            }
            assert(is_best(tree, scores, held, point as int));
            assert(members(after, tree, scores) =~= held.remove(point as int)) by {
                assert forall|other: int| members(after, tree, scores).contains(other)
                    <==> held.remove(point as int).contains(other) by {
                    if after.waits(tree, other) {
                        let node = choose|node: int| #[trigger]
                            after.bounds().contains_key(node) && tree.covers(node, other);
                        assert(before.bounds().contains_key(node));
                        assert(before.covered(tree, other));
                        before.lemma_scored_was_seen(tree, point as int);
                    }
                    if before.waits(tree, other) {
                        let node = choose|node: int| #[trigger]
                            before.bounds().contains_key(node) && tree.covers(node, other);
                        assert(after.bounds().contains_key(node));
                        assert(after.covered(tree, other));
                    }
                }
            }
        },
        None => {
            if fixed {
                let (leader, best) = choose|leader: int, best: i64|
                    #![trigger before.leads(tree, leader, best)]
                    before.leads(tree, leader, best) && before.settles(tree, leader, best);
                assert(before.scores().contains_key(leader));
            }
            assert(held =~= Set::<int>::empty()) by {
                assert forall|point: int| !held.contains(point) by {
                    if before.holds(tree, point) {
                        assert(before.waits(tree, point));
                    }
                }
            }
        },
    }
}

/// What is wrong with the first plan, from the given one on, that is refused.
pub open spec fn plans_fault<F>(
    tree: NodeTree,
    plans: Seq<SharedChannelPlan<F>>,
    from: int,
) -> Option<SharedNodeError>
    decreases plans.len() - from,
{
    if from >= plans.len() {
        None
    } else if plan_fault(tree, plans[from].node_upper_bounds@) is Some {
        plan_fault(tree, plans[from].node_upper_bounds@)
    } else {
        plans_fault(tree, plans, from + 1)
    }
}

/// Whether the given tables are the scores of the channels.
pub open spec fn channels_score<F: Fn(usize, u32) -> Result<Option<i64>, SharedNodeError>>(
    tree: NodeTree,
    plans: Seq<SharedChannelPlan<F>>,
    tables: Seq<spec_fn(int) -> Option<i64>>,
) -> bool {
    &&& tables.len() == plans.len()
    &&& forall|channel: int|
        0 <= channel < plans.len() ==> channel_scores(
            (#[trigger] plans[channel]).score,
            tree,
            plans[channel].node_upper_bounds@,
            tables[channel],
        )
}

/// The exhaustive rankings of the channels.
pub open spec fn channel_rankings(
    tree: NodeTree,
    tables: Seq<spec_fn(int) -> Option<i64>>,
) -> Seq<Seq<ExtendedPointId>> {
    Seq::new(tables.len(), |channel: int| channel_ranking(tree, tables[channel]))
}

/// The exhaustive ranking of a channel.
pub open spec fn channel_ranking(
    tree: NodeTree,
    scores: spec_fn(int) -> Option<i64>,
) -> Seq<ExtendedPointId> {
    ids_of(tree, exact_order(tree, scores, all_members(tree, scores)))
}

/// What channels that opened the given blocks add to a shared state.
pub open spec fn opens_all(
    tree: NodeTree,
    opened: Seq<Seq<usize>>,
) -> (Seq<bool>, SharedPhysicalTelemetry)
    decreases opened.len(),
{
    if opened.len() == 0 {
        (
            Seq::new(tree.nodes@.len(), |node: int| false),
            SharedPhysicalTelemetry {
                node_open_requests: 0,
                unique_node_materializations: 0,
                reused_node_materializations: 0,
                unique_identity_materializations: 0,
            },
        )
    } else {
        opens_blocks(tree, opened.last(), opens_all(tree, opened.drop_last()))
    }
}

/// The stream of a channel that is fused.
pub open spec fn stream_at<'a, F: Fn(usize, u32) -> Result<Option<i64>, SharedNodeError>>(
    streams: Seq<DynamicRrfSource<SharedExactStream<'a, F>, IdStream>>,
    channel: int,
) -> SharedExactStream<'a, F> {
    match streams[channel] {
        DynamicRrfSource::Point(stream) => stream,
        DynamicRrfSource::Batch(_) => arbitrary(),
    }
}

/// Whether the streams of the channels stand before their first blocks.
pub open spec fn starts_channels<'a, F: Fn(usize, u32) -> Result<Option<i64>, SharedNodeError>>(
    tree: NodeTree,
    plans: Seq<SharedChannelPlan<F>>,
    streams: Seq<DynamicRrfSource<SharedExactStream<'a, F>, IdStream>>,
) -> bool {
    &&& streams.len() == plans.len()
    &&& forall|channel: int|
        0 <= channel < plans.len() ==> {
            let stream = stream_at(streams, channel);
            &&& (#[trigger] streams[channel]) is Point
            &&& stream.tree() == tree
            &&& stream.scorer() == plans[channel].score
            &&& stream.upper_bounds() == plans[channel].node_upper_bounds@
            &&& stream.failure() is None
            &&& stream.opened() == Seq::<usize>::empty()
            &&& stream.frontier() matches Some(frontier) && starts_search(
                frontier,
                tree,
                plans[channel].node_upper_bounds@,
            )
        }
}

/// Whether a channel is the first that has failed.
pub open spec fn fails_first<'a, F: Fn(usize, u32) -> Result<Option<i64>, SharedNodeError>>(
    streams: Seq<DynamicRrfSource<SharedExactStream<'a, F>, IdStream>>,
    channel: int,
) -> bool {
    &&& 0 <= channel < streams.len()
    &&& stream_at(streams, channel).failure() is Some
    &&& forall|earlier: int|
        0 <= earlier < channel ==> stream_at(streams, earlier).failure() is None
}

/// The blocks that every channel has opened.
pub open spec fn blocks_opened<'a, F: Fn(usize, u32) -> Result<Option<i64>, SharedNodeError>>(
    streams: Seq<DynamicRrfSource<SharedExactStream<'a, F>, IdStream>>,
) -> Seq<Seq<usize>> {
    Seq::new(streams.len(), |channel: int| stream_at(streams, channel).opened())
}

/// What is returned where the channels came to the given streams: the failure of a channel,
/// whatever the fusion came to, or else the fusion with what the channels have done. No
/// point of a block that was opened is then a reason for a failure.
pub open spec fn concludes<'a, F: Fn(usize, u32) -> Result<Option<i64>, SharedNodeError>>(
    tree: NodeTree,
    plans: Seq<SharedChannelPlan<F>>,
    streams: Seq<DynamicRrfSource<SharedExactStream<'a, F>, IdStream>>,
    outcome: OperationResult<DynamicRrfExecution>,
    result: Result<SharedNChannelExecution, SharedNodeError>,
) -> bool {
    if exists|channel: int| #[trigger] fails_first(streams, channel) {
        exists|channel: int| #[trigger]
            fails_first(streams, channel) && result == Err::<
                SharedNChannelExecution,
                SharedNodeError,
            >(stream_at(streams, channel).failure()->0)
    } else {
        match outcome {
            Ok(fusion) => {
                &&& result matches Ok(execution)
                &&& execution.fusion == fusion
                &&& execution.channels@.len() == plans.len()
                &&& forall|channel: int|
                    0 <= channel < plans.len() ==> (#[trigger] execution.channels@[channel])
                        == stream_at(streams, channel).counted()
                &&& execution.physical == opens_all(tree, blocks_opened(streams)).1
                &&& forall|channel: int|
                    0 <= channel < plans.len() ==> no_block_fails(
                        tree,
                        #[trigger] plans[channel],
                        stream_at(streams, channel).opened(),
                    )
            },
            Err(error) => result == Err::<SharedNChannelExecution, SharedNodeError>(
                SharedNodeError::Fusion(error),
            ),
        }
    }
}

/// Whether no point of the given blocks is a reason for a failure of a channel.
pub open spec fn no_block_fails<F: Fn(usize, u32) -> Result<Option<i64>, SharedNodeError>>(
    tree: NodeTree,
    plan: SharedChannelPlan<F>,
    opened: Seq<usize>,
) -> bool {
    forall|i: int|
        0 <= i < opened.len() ==> block_passes(
            tree,
            plan.node_upper_bounds@,
            plan.score,
            #[trigger] opened[i] as int,
        )
}

/// Whether a session over the streams of the channels, pulled until it has fixed its
/// identities or a channel fails, leads to the result.
pub open spec fn runs_channels<
    'a,
    F: Fn(usize, u32) -> Result<Option<i64>, SharedNodeError>,
    A: Fn(i64, usize, usize, i64) -> i64,
    P: Fn(usize, usize, i64, usize, i64) -> i64,
>(
    tree: NodeTree,
    plans: Seq<SharedChannelPlan<F>>,
    top_k: usize,
    rrf_k: usize,
    weights: Option<Seq<i64>>,
    accumulate: A,
    priority: P,
    streams: Seq<DynamicRrfSource<SharedExactStream<'a, F>, IdStream>>,
    outcome: OperationResult<DynamicRrfExecution>,
    end: SessionState<SharedExactStream<'a, F>, IdStream>,
    result: Result<SharedNChannelExecution, SharedNodeError>,
) -> bool {
    let start = SessionState {
        view: fresh_session(
            plans.len() as usize,
            1,
            top_k,
            rrf_k,
            weights,
            Seq::new(plans.len(), |i: int| UNIT_WEIGHT),
            default_policy(),
        ),
        streams,
    };
    &&& starts_channels(tree, plans, streams)
    &&& start.runs(no_targets(plans.len()), accumulate, priority, completed(outcome), end)
    &&& concludes(tree, plans, end.streams, outcome, result)
}

/// Fuses channels over shared blocks.
pub fn execute_shared_dynamic_rrf<
    'a,
    F: Fn(usize, u32) -> Result<Option<i64>, SharedNodeError>,
    A: Fn(i64, usize, usize, i64) -> i64,
    P: Fn(usize, usize, i64, usize, i64) -> i64,
>(
    catalog: &'a SharedNodeCatalog,
    plans: Vec<SharedChannelPlan<F>>,
    top_k: usize,
    rrf_k: usize,
    weights: Option<&Vec<i64>>,
    accumulate: &A,
    priority: &P,
) -> (result: Result<SharedNChannelExecution, SharedNodeError>)
    requires
        accepts(*accumulate),
        accepts_priority(*priority),
        forall|channel: int| 0 <= channel < plans@.len() ==> scores_any(
            (#[trigger] plans@[channel]).score,
        ),
    ensures
        plans@.len() == 0 ==> result == Err::<SharedNChannelExecution, SharedNodeError>(
            SharedNodeError::EmptyChannels,
        ),
        plans@.len() > 0 ==> match plans_fault(catalog.tree(), plans@, 0) {
            Some(fault) => result == Err::<SharedNChannelExecution, SharedNodeError>(fault),
            None => match session_fault(
                plans@.len() as usize,
                1,
                rrf_k,
                weights_view(weights),
                Seq::new(plans@.len(), |i: int| UNIT_WEIGHT),
                default_policy(),
            ) {
                Some(fault) => result == Err::<SharedNChannelExecution, SharedNodeError>(
                    SharedNodeError::Fusion(OperationError::ValidationError(fault)),
                ),
                None => {
                    &&& exists|
                        streams: Seq<DynamicRrfSource<SharedExactStream<'a, F>, IdStream>>,
                        outcome: OperationResult<DynamicRrfExecution>,
                        end: SessionState<SharedExactStream<'a, F>, IdStream>,
                    | #[trigger]
                        runs_channels(
                            catalog.tree(),
                            plans@,
                            top_k,
                            rrf_k,
                            weights_view(weights),
                            *accumulate,
                            *priority,
                            streams,
                            outcome,
                            end,
                            result,
                        )
                    &&& forall|tables: Seq<spec_fn(int) -> Option<i64>>| #[trigger]
                        channels_score(catalog.tree(), plans@, tables) ==> {
                            &&& result matches Ok(execution)
                            &&& is_exhaustive_prefix(
                                *accumulate,
                                channel_rankings(catalog.tree(), tables),
                                rrf_k,
                                effective_weights(plans@.len() as usize, weights_view(weights)),
                                top_k,
                                execution.fusion.point_ids@,
                            )
                        }
                },
            },
        },
        plans@.len() > 0 && plans_fault(catalog.tree(), plans@, 0) is None ==> (result matches Err(
            error,
        ) ==> error is Fusion || exists|channel: int|
            0 <= channel < plans@.len() && channel_fails(
                catalog.tree(),
                (#[trigger] plans@[channel]).node_upper_bounds@,
                plans@[channel].score,
                error,
            )),
        result matches Ok(execution) ==> {
            &&& execution.channels@.len() == plans@.len()
            &&& exists|opened: Seq<Seq<usize>>|
                {
                    &&& opened.len() == plans@.len()
                    &&& forall|channel: int|
                        0 <= channel < plans@.len() ==> (
                        #[trigger] execution.channels@[channel]).nodes_expanded
                            == opened[channel].len()
                    &&& execution.physical == (#[trigger] opens_all(catalog.tree(), opened)).1
                }
        },
{
    if plans.len() == 0 {
        return Err(SharedNodeError::EmptyChannels);
    }
    let ghost tree = catalog.tree();
    let ghost given = plans@;
    let count: usize = plans.len();
    let mut waiting = plans;
    let mut sources: Vec<SharedExactStream<'a, F>> = Vec::new();
    assert(given.skip(0) =~= given);
    while waiting.len() > 0
        invariant
            tree == catalog.tree(),
            given == plans@,
            count == given.len(),
            count > 0,
            sources@.len() + waiting@.len() == count,
            waiting@ == given.skip(sources@.len() as int),
            plans_fault(tree, given, 0) == plans_fault(tree, given, sources@.len() as int),
            forall|channel: int| 0 <= channel < given.len() ==> scores_any(
                (#[trigger] given[channel]).score,
            ),
            forall|channel: int, scores: spec_fn(int) -> Option<i64>|
                0 <= channel < sources@.len() && #[trigger] channel_scores(
                    given[channel].score,
                    tree,
                    given[channel].node_upper_bounds@,
                    scores,
                ) ==> sources@[channel].rest() == Some(channel_ranking(tree, scores)),
            forall|channel: int|
                0 <= channel < sources@.len() ==> {
                    &&& (#[trigger] sources@[channel]).failure() is None
                    &&& sources@[channel].tree() == tree
                    &&& sources@[channel].scorer() == given[channel].score
                    &&& sources@[channel].upper_bounds() == given[channel].node_upper_bounds@
                    &&& sources@[channel].opened() == Seq::<usize>::empty()
                    &&& sources@[channel].frontier() matches Some(frontier) && starts_search(
                        frontier,
                        tree,
                        given[channel].node_upper_bounds@,
                    )
                },
        decreases waiting@.len(),
    {
        let ghost before = waiting@;
        let ghost done = sources@.len() as int;
        let plan = waiting.remove(0);
        assert(plan == given[done]);
        assert(before.remove(0) =~= given.skip(done + 1));
        let ghost earlier = sources@;
        match SharedExactStream::new(catalog, plan) {
            Ok(stream) => {
                sources.push(stream);
                proof {
                    assert forall|channel: int| 0 <= channel < sources@.len() implies {
                        &&& (#[trigger] sources@[channel]).failure() is None
                        &&& sources@[channel].tree() == tree
                        &&& sources@[channel].scorer() == given[channel].score
                        &&& sources@[channel].upper_bounds() == given[channel].node_upper_bounds@
                        &&& sources@[channel].opened() == Seq::<usize>::empty()
                        &&& sources@[channel].frontier() matches Some(frontier) && starts_search(
                            frontier,
                            tree,
                            given[channel].node_upper_bounds@,
                        )
                    } by {
                        if channel < done {
                            assert(sources@[channel] == earlier[channel]);
                        }
                    }
                    assert forall|channel: int, scores: spec_fn(int) -> Option<i64>|
                        0 <= channel < sources@.len() && #[trigger] channel_scores(
                            given[channel].score,
                            tree,
                            given[channel].node_upper_bounds@,
                            scores,
                        ) implies sources@[channel].rest() == Some(
                        channel_ranking(tree, scores),
                    ) by {
                        if channel < done {
                            assert(sources@[channel] == earlier[channel]);
                        } else {
                            assert(sources@[channel] == stream);
                            assert(stream.order() == Some(
                                exact_order(tree, scores, all_members(tree, scores)),
                            ));
                        }
                    }
                }
            },
            Err(error) => {
                return Err(error);
            },
        }
    }
    let ghost streams = sources@;
    let mut session = match DynamicRrfSession::<SharedExactStream<'a, F>, IdStream>::new(
        sources,
        top_k,
        rrf_k,
        weights,
        DynamicRrfPolicy::default(),
    ) {
        Ok(session) => session,
        Err(error) => {
            return Err(SharedNodeError::Fusion(error));
        },
    };
    proof {
        use_type_invariant(catalog);
        assert forall|tables: Seq<spec_fn(int) -> Option<i64>>| #[trigger]
            channels_score(tree, given, tables) implies session.follows(
            channel_rankings(tree, tables),
        ) by {
            let rankings = channel_rankings(tree, tables);
            assert forall|source: int| 0 <= source < rankings.len() implies {
                let history = session@.fusion.histories[source];
                &&& (#[trigger] rankings[source]).no_duplicates()
                &&& rankings[source].len() <= usize::MAX
                &&& history == rankings[source].take(history.len() as int)
            } by {
                let scores = tables[source];
                let held = all_members(tree, scores);
                lemma_points_are_finite(tree, held);
                crate::frontier::lemma_order_is_ranking(tree, scores, held);
                assert(rankings[source].take(0) =~= Seq::<ExtendedPointId>::empty());
            }
            assert forall|source: int| 0 <= source < rankings.len() implies (
            #[trigger] session.streams()[source]).completes(
                session@.fusion.histories[source],
                rankings[source],
            ) by {
                let _ = given[source];
                assert(channel_scores(
                    given[source].score,
                    tree,
                    given[source].node_upper_bounds@,
                    tables[source],
                ));
                assert(streams[source].rest() == Some(rankings[source]));
                assert(Seq::<ExtendedPointId>::empty() + rankings[source] =~= rankings[source]);
            }
        }
    }
    proof {
        session.lemma_valid();
    }
    let ghost started = session.streams();
    let ghost start = session.state();
    let outcome = session.run_to_completion(accumulate, priority);
    let ghost end = session.state();
    proof {
        session.lemma_valid();
        assert(starts_channels(tree, given, started));
        assert(start.runs(no_targets(given.len()), *accumulate, *priority, completed(outcome), end));
        assert forall|channel: int| 0 <= channel < count implies {
            let stream = stream_at(session.streams(), channel);
            &&& (#[trigger] session.streams()[channel]) is Point
            &&& stream.tree() == tree
            &&& stream.scorer() == given[channel].score
            &&& stream.upper_bounds() == given[channel].node_upper_bounds@
            &&& stream.failure() matches Some(failure) ==> channel_fails(
                tree,
                given[channel].node_upper_bounds@,
                given[channel].score,
                failure,
            )
        } by {
            assert(descends(started[channel], session.streams()[channel]));
            let earlier = streams[channel];
            assert(started[channel] == DynamicRrfSource::<SharedExactStream<'a, F>, IdStream>::Point(
                earlier,
            ));
            match session.streams()[channel] {
                DynamicRrfSource::Point(later) => {
                    let pulls = choose|pulls: nat| #[trigger] reaches(earlier, later, pulls);
                    lemma_failure_is_the_channels(earlier, later, pulls);
                },
                DynamicRrfSource::Batch(_) => {},
            }
        }
    }
    let mut finished = session.into_sources();
    let ghost left = finished@;
    match first_failure(&finished) {
        Some(channel) => {
            match finished.remove(channel) {
                DynamicRrfSource::Point(stream) => {
                    assert(stream == stream_at(left, channel as int));
                    match stream.into_failure() {
                        Some(failure) => {
                            proof {
                                let _ = given[channel as int];
                                let _ = left[channel as int];
                                assert(channel_fails(
                                    tree,
                                    given[channel as int].node_upper_bounds@,
                                    given[channel as int].score,
                                    failure,
                                ));
                                assert forall|tables: Seq<spec_fn(int) -> Option<i64>>|
                                    !#[trigger] channels_score(tree, given, tables) by {
                                    lemma_failing_channel_has_no_scores(
                                        tree,
                                        given[channel as int].score,
                                        given[channel as int].node_upper_bounds@,
                                        failure,
                                        tables[channel as int],
                                    );
                                }
                                assert(fails_first(left, channel as int));
                                assert(runs_channels(
                                    tree,
                                    given,
                                    top_k,
                                    rrf_k,
                                    weights_view(weights),
                                    *accumulate,
                                    *priority,
                                    started,
                                    outcome,
                                    end,
                                    Err(failure),
                                ));
                            }
                            return Err(failure);
                        },
                        None => {
                            assert(false);
                        },
                    }
                },
                DynamicRrfSource::Batch(_) => {
                    assert(left[channel as int] is Point);
                },
            }
        },
        None => {},
    }
    match outcome {
        Ok(fusion) => {
            let mut access = SharedAccessState::new(catalog.tree.nodes.len());
            let mut channels: Vec<SharedChannelTelemetry> = Vec::new();
            let mut i: usize = 0;
            assert(blocks_opened(left).take(0) =~= Seq::<Seq<usize>>::empty());
            while i < finished.len()
                invariant
                    tree == catalog.tree(),
                    finished@ == left,
                    left.len() == count,
                    count == given.len(),
                    i <= count,
                    channels@.len() == i,
                    access.materialized().len() == tree.nodes@.len(),
                    (access.materialized(), access.counted()) == opens_all(
                        tree,
                        blocks_opened(left).take(i as int),
                    ),
                    forall|channel: int|
                        0 <= channel < count ==> {
                            let stream = stream_at(left, channel);
                            &&& (#[trigger] left[channel]) is Point
                            &&& stream.tree() == tree
                            &&& stream.scorer() == given[channel].score
                            &&& stream.upper_bounds() == given[channel].node_upper_bounds@
                        },
                    forall|channel: int|
                        0 <= channel < i ==> {
                            &&& (#[trigger] channels@[channel]) == stream_at(left, channel).counted()
                            &&& channels@[channel].nodes_expanded == stream_at(
                                left,
                                channel,
                            ).opened().len()
                        },
                    forall|channel: int|
                        0 <= channel < i ==> no_block_fails(
                            tree,
                            #[trigger] given[channel],
                            stream_at(left, channel).opened(),
                        ),
                decreases count - i,
            {
                match &finished[i] {
                    DynamicRrfSource::Point(stream) => {
                        assert(*stream == stream_at(left, i as int));
                        channels.push(stream.telemetry());
                        stream.record(catalog, &mut access);
                        proof {
                            let longer = blocks_opened(left).take(i + 1);
                            assert(longer.drop_last() =~= blocks_opened(left).take(i as int));
                            assert(longer.last() == stream.opened());
                        }
                    },
                    DynamicRrfSource::Batch(_) => {
                        assert(left[i as int] is Point);
                    },
                }
                i += 1;
            }
            let physical = access.telemetry();
            let ghost opened = blocks_opened(left);
            assert(opened.take(i as int) =~= opened);
            assert(physical == opens_all(tree, opened).1);
            let execution = SharedNChannelExecution { fusion, channels, physical };
            assert(runs_channels(
                tree,
                given,
                top_k,
                rrf_k,
                weights_view(weights),
                *accumulate,
                *priority,
                started,
                outcome,
                end,
                Ok(execution),
            ));
            Ok(execution)
        },
        Err(error) => {
            assert(runs_channels(
                tree,
                given,
                top_k,
                rrf_k,
                weights_view(weights),
                *accumulate,
                *priority,
                started,
                outcome,
                end,
                Err(SharedNodeError::Fusion(error)),
            ));
            Err(SharedNodeError::Fusion(error))
        },
    }
}

/// The first channel that has failed.
fn first_failure<'a, F: Fn(usize, u32) -> Result<Option<i64>, SharedNodeError>>(
    streams: &Vec<DynamicRrfSource<SharedExactStream<'a, F>, IdStream>>,
) -> (failed: Option<usize>)
    requires
        forall|channel: int|
            0 <= channel < streams@.len() ==> (#[trigger] streams@[channel]) is Point,
    ensures
        match failed {
            Some(channel) => fails_first(streams@, channel as int),
            None => forall|channel: int|
                0 <= channel < streams@.len() ==> (#[trigger] stream_at(
                    streams@,
                    channel,
                )).failure() is None,
        },
{
    let mut i: usize = 0;
    while i < streams.len()
        invariant
            i <= streams@.len(),
            forall|channel: int|
                0 <= channel < streams@.len() ==> (#[trigger] streams@[channel]) is Point,
            forall|channel: int|
                0 <= channel < i ==> (#[trigger] stream_at(streams@, channel)).failure() is None,
        decreases streams@.len() - i,
    {
        match &streams[i] {
            DynamicRrfSource::Point(stream) => {
                assert(*stream == stream_at(streams@, i as int));
                if stream.has_failed() {
                    return Some(i);
                }
            },
            DynamicRrfSource::Batch(_) => {
                assert(streams@[i as int] is Point);
            },
        }
        i += 1;
    }
    None
}

/// A channel that can fail gives no scores that all pass.
proof fn lemma_failing_channel_has_no_scores<
    F: Fn(usize, u32) -> Result<Option<i64>, SharedNodeError>,
>(
    tree: NodeTree,
    score: F,
    bounds: Seq<Option<i64>>,
    error: SharedNodeError,
    scores: spec_fn(int) -> Option<i64>,
)
    requires
        tree.wf(),
        channel_fails(tree, bounds, score, error),
    ensures
        !channel_scores(score, tree, bounds, scores),
{
    let (node, point) = choose|node: int, point: int|
        0 <= node < tree.nodes@.len() && tree.covers(node, point) && bounds[node] is Some
            && #[trigger] fails_at(tree, node, bounds[node]->0, score, point, error);
    lemma_failure_is_no_score(
        tree,
        score,
        bounds,
        scores,
        node,
        bounds[node]->0,
        point,
        error,
    );
}

/// How many of the leading flags are set.
pub open spec fn set_count(flags: Seq<bool>, upto: int) -> nat
    decreases upto,
{
    if upto <= 0 {
        0
    } else {
        set_count(flags, upto - 1) + (if flags[upto - 1] {
            1nat
        } else {
            0
        })
    }
}

/// How many requests the leading channels have made.
pub open spec fn request_count(opened: Seq<Seq<usize>>) -> nat
    decreases opened.len(),
{
    if opened.len() == 0 {
        0
    } else {
        request_count(opened.drop_last()) + opened.last().len()
    }
}

/// A flag that is newly set is one more.
proof fn lemma_one_more_set(flags: Seq<bool>, node: int, upto: int)
    requires
        0 <= node < flags.len(),
        0 <= upto <= flags.len(),
    ensures
        set_count(flags.update(node, true), upto) == set_count(flags, upto) + (if node < upto
            && !flags[node] {
            1int
        } else {
            0
        }),
        set_count(flags, upto) <= upto,
    decreases upto,
{
    if upto > 0 {
        lemma_one_more_set(flags, node, upto - 1);
    }
}

/// Whether counts are those of a number of requests that have set the given flags.
pub open spec fn counts_requests(
    flags: Seq<bool>,
    requests: nat,
    telemetry: SharedPhysicalTelemetry,
) -> bool {
    let distinct = set_count(flags, flags.len() as int);
    &&& distinct <= requests
    &&& telemetry.node_open_requests == counted(requests)
    &&& telemetry.unique_node_materializations == counted(distinct)
    &&& telemetry.reused_node_materializations == counted((requests - distinct) as nat)
}

proof fn lemma_requests_are_counted(
    tree: NodeTree,
    blocks: Seq<usize>,
    before: (Seq<bool>, SharedPhysicalTelemetry),
    requests: nat,
)
    requires
        tree.nodes@.len() <= usize::MAX,
        before.0.len() == tree.nodes@.len(),
        counts_requests(before.0, requests, before.1),
        forall|i: int| 0 <= i < blocks.len() ==> #[trigger] blocks[i] < tree.nodes@.len(),
    ensures
        opens_blocks(tree, blocks, before).0.len() == tree.nodes@.len(),
        counts_requests(
            opens_blocks(tree, blocks, before).0,
            requests + blocks.len(),
            opens_blocks(tree, blocks, before).1,
        ),
        forall|node: int|
            0 <= node < tree.nodes@.len() ==> (#[trigger] opens_blocks(tree, blocks, before).0[node]
                == (before.0[node] || blocks.contains(node as usize))),
    decreases blocks.len(),
{
    if blocks.len() > 0 {
        let first = blocks.drop_last();
        assert forall|i: int| 0 <= i < first.len() implies #[trigger] first[i] < tree.nodes@.len() by {
            assert(first[i] == blocks[i]);
        }
        lemma_requests_are_counted(tree, first, before, requests);
        let (flags, telemetry) = opens_blocks(tree, first, before);
        let node = blocks.last() as int;
        assert(blocks[blocks.len() - 1] < tree.nodes@.len());
        lemma_one_more_set(flags, node, flags.len() as int);
        assert forall|other: int| 0 <= other < tree.nodes@.len() implies #[trigger] opens_blocks(
            tree,
            blocks,
            before,
        ).0[other] == (before.0[other] || blocks.contains(other as usize)) by {
            assert(flags[other] == (before.0[other] || first.contains(other as usize)));
            if other == node {
                assert(blocks[blocks.len() - 1] == other as usize);
            }
            if first.contains(other as usize) {
                let i = choose|i: int| 0 <= i < first.len() && first[i] == other as usize;
                assert(blocks[i] == other as usize);
            }
            if blocks.contains(other as usize) && other != node {
                let i = choose|i: int| 0 <= i < blocks.len() && blocks[i] == other as usize;
                assert(first[i] == other as usize);
            }
        }
    }
}

/// However channels open blocks, every block is materialized once: the requests are all
/// opens, the materializations are the different blocks among them, and the rest are reuses.
pub proof fn law_every_block_is_materialized_once(tree: NodeTree, opened: Seq<Seq<usize>>)
    requires
        tree.nodes@.len() <= usize::MAX,
        forall|channel: int, i: int|
            0 <= channel < opened.len() && 0 <= i < opened[channel].len()
                ==> #[trigger] opened[channel][i] < tree.nodes@.len(),
    ensures
        ({
            let (flags, telemetry) = opens_all(tree, opened);
            &&& flags.len() == tree.nodes@.len()
            &&& counts_requests(flags, request_count(opened), telemetry)
            &&& forall|node: int|
                0 <= node < flags.len() ==> (#[trigger] flags[node] <==> exists|channel: int|
                    0 <= channel < opened.len() && (#[trigger] opened[channel]).contains(
                        node as usize,
                    ))
        }),
    decreases opened.len(),
{
    if opened.len() == 0 {
        let flags = opens_all(tree, opened).0;
        lemma_none_set(flags, flags.len() as int);
    } else {
        let first = opened.drop_last();
        assert forall|channel: int, i: int|
            0 <= channel < first.len() && 0 <= i < first[channel].len() implies
            #[trigger] first[channel][i] < tree.nodes@.len() by {
            assert(opened[channel][i] < tree.nodes@.len());
        }
        law_every_block_is_materialized_once(tree, first);
        let last = opened.last();
        assert forall|i: int| 0 <= i < last.len() implies #[trigger] last[i] < tree.nodes@.len() by {
            assert(opened[opened.len() - 1][i] < tree.nodes@.len());
        }
        let before = opens_all(tree, first);
        lemma_requests_are_counted(tree, last, before, request_count(first));
        let flags = opens_all(tree, opened).0;
        assert forall|node: int| 0 <= node < flags.len() implies (#[trigger] flags[node]
            <==> exists|channel: int|
            0 <= channel < opened.len() && (#[trigger] opened[channel]).contains(
                node as usize,
            )) by {
            assert(flags[node] == (before.0[node] || last.contains(node as usize)));
            if before.0[node] {
                let channel = choose|channel: int|
                    0 <= channel < first.len() && (#[trigger] first[channel]).contains(
                        node as usize,
                    );
                assert(opened[channel].contains(node as usize));
            }
            if last.contains(node as usize) {
                assert(opened[opened.len() - 1].contains(node as usize));
            }
            if exists|channel: int|
                0 <= channel < opened.len() && (#[trigger] opened[channel]).contains(
                    node as usize,
                ) {
                let channel = choose|channel: int|
                    0 <= channel < opened.len() && (#[trigger] opened[channel]).contains(
                        node as usize,
                    );
                if channel < first.len() {
                    assert(first[channel].contains(node as usize));
                }
            }
        }
    }
}

proof fn lemma_none_set(flags: Seq<bool>, upto: int)
    requires
        0 <= upto <= flags.len(),
        forall|node: int| 0 <= node < flags.len() ==> !#[trigger] flags[node],
    ensures
        set_count(flags, upto) == 0,
    decreases upto,
{
    if upto > 0 {
        lemma_none_set(flags, upto - 1);
    }
}

/// Whether an open of a block leads from one state to another.
pub open spec fn state_opens(
    before: SharedAccessState,
    opened: (usize, usize),
    after: SharedAccessState,
) -> bool {
    let (node, identity_count) = opened;
    &&& node < before.materialized().len()
    &&& after.materialized() == before.materialized().update(node as int, true)
    &&& after.counted() == opened_once(
        before.counted(),
        before.materialized()[node as int],
        identity_count,
    )
}

/// Whether opens, one after the other, lead from one state to another.
pub open spec fn state_opens_all(
    before: SharedAccessState,
    opens: Seq<(usize, usize)>,
    after: SharedAccessState,
) -> bool
    decreases opens.len(),
{
    if opens.len() == 0 {
        after.materialized() == before.materialized() && after.counted() == before.counted()
    } else {
        exists|middle: SharedAccessState|
            state_opens_all(before, opens.drop_last(), middle) && #[trigger] state_opens(
                middle,
                opens.last(),
                after,
            )
    }
}

/// Whether an open is the first of its block.
pub open spec fn opens_first(opens: Seq<(usize, usize)>, at: int) -> bool {
    forall|earlier: int| 0 <= earlier < at ==> (#[trigger] opens[earlier]).0 != opens[at].0
}

/// How many of the leading opens are the first of their blocks, and how many identities
/// those blocks have.
pub open spec fn first_opens(opens: Seq<(usize, usize)>, upto: int) -> (nat, nat)
    decreases upto,
{
    if upto <= 0 {
        (0, 0)
    } else {
        let (blocks, identities) = first_opens(opens, upto - 1);
        if opens_first(opens, upto - 1) {
            (blocks + 1, identities + opens[upto - 1].1 as nat)
        } else {
            (blocks, identities)
        }
    }
}

proof fn lemma_first_opens_frame(left: Seq<(usize, usize)>, right: Seq<(usize, usize)>, upto: int)
    requires
        0 <= upto <= left.len(),
        upto <= right.len(),
        left.take(upto) == right.take(upto),
    ensures
        first_opens(left, upto) == first_opens(right, upto),
    decreases upto,
{
    if upto > 0 {
        assert(left.take(upto - 1) =~= left.take(upto).take(upto - 1));
        assert(right.take(upto - 1) =~= right.take(upto).take(upto - 1));
        lemma_first_opens_frame(left, right, upto - 1);
        assert forall|i: int| 0 <= i < upto implies left[i] == right[i] by {
            assert(left.take(upto)[i] == right.take(upto)[i]);
        }
        assert(opens_first(left, upto - 1) == opens_first(right, upto - 1));
    }
}

/// Over any sequence of opens, every open is a request; the first open of a block
/// materializes it with its identities, and every other open reuses it.
pub proof fn law_opens_are_counted(
    first: SharedAccessState,
    opens: Seq<(usize, usize)>,
    last: SharedAccessState,
)
    requires
        forall|node: int|
            0 <= node < first.materialized().len() ==> !#[trigger] first.materialized()[node],
        first.counted() == (SharedPhysicalTelemetry {
            node_open_requests: 0,
            unique_node_materializations: 0,
            reused_node_materializations: 0,
            unique_identity_materializations: 0,
        }),
        first.materialized().len() <= usize::MAX,
        state_opens_all(first, opens, last),
    ensures
        last.materialized().len() == first.materialized().len(),
        forall|node: usize|
            node < last.materialized().len() ==> (#[trigger] last.materialized()[node as int]
                <==> exists|at: int| 0 <= at < opens.len() && (#[trigger] opens[at]).0 == node),
        ({
            let (blocks, identities) = first_opens(opens, opens.len() as int);
            &&& blocks <= opens.len()
            &&& last.counted() == (SharedPhysicalTelemetry {
                node_open_requests: counted(opens.len()),
                unique_node_materializations: counted(blocks),
                reused_node_materializations: counted((opens.len() - blocks) as nat),
                unique_identity_materializations: counted(identities),
            })
        }),
    decreases opens.len(),
{
    if opens.len() > 0 {
        let shorter = opens.drop_last();
        let middle = choose|middle: SharedAccessState|
            state_opens_all(first, shorter, middle) && #[trigger] state_opens(
                middle,
                opens.last(),
                last,
            );
        law_opens_are_counted(first, shorter, middle);
        let at = opens.len() - 1;
        assert(shorter.take(at) =~= opens.take(at));
        lemma_first_opens_frame(shorter, opens, at);
        let node = opens[at].0;
        assert(middle.materialized()[node as int] == !opens_first(opens, at)) by {
            if middle.materialized()[node as int] {
                let earlier = choose|earlier: int|
                    0 <= earlier < shorter.len() && (#[trigger] shorter[earlier]).0 == node;
                assert(opens[earlier].0 == node);
            } else if !opens_first(opens, at) {
                let earlier = choose|earlier: int|
                    0 <= earlier < at && (#[trigger] opens[earlier]).0 == opens[at].0;
                assert(shorter[earlier].0 == node);
            }
        }
        assert forall|other: usize| other < last.materialized().len() implies (
        #[trigger] last.materialized()[other as int] <==> exists|k: int|
            0 <= k < opens.len() && (#[trigger] opens[k]).0 == other) by {
            if other == node {
                assert(opens[at].0 == other);
            } else {
                assert(last.materialized()[other as int] == middle.materialized()[other as int]);
                if middle.materialized()[other as int] {
                    let k = choose|k: int|
                        0 <= k < shorter.len() && (#[trigger] shorter[k]).0 == other;
                    assert(opens[k].0 == other);
                }
                if exists|k: int| 0 <= k < opens.len() && (#[trigger] opens[k]).0 == other {
                    let k = choose|k: int|
                        0 <= k < opens.len() && (#[trigger] opens[k]).0 == other;
                    assert(shorter[k].0 == other);
                }
            }
        }
    }
}

} // verus!
