//! Exact dense streams that start from an approximate proposal.
//!
//! Proposed identities only raise the first exact scores. Unopened blocks stay
//! guarded by their bounds, so that a weak or empty proposal leads to the same
//! exhaustive order.

use crate::dense_ball::{DenseBallError, DenseBallIndex};
use crate::frontier::{
    certifies, counts_opening, exact_order, is_best, lemma_best_is_first, lemma_held_points,
    lemma_order_of_equal_scores, lemma_scores_are_unique, opened_leaves, seen_in, seen_points, DenseScoredPoint, Frontier,
    KeySource, NodeTree,
};
use std::collections::VecDeque;
use vstd::prelude::*;

verus! {

/// Why a stream is refused.
#[derive(Clone, Copy, Debug, PartialEq, Eq, Structural)]
pub enum DenseProposalCertifiedError {
    DenseBall(DenseBallError),
    ZeroBatchSize,
    UnknownProposal(u32),
}

/// What a stream has done.
#[derive(Clone, Copy, Debug, Default, PartialEq, Eq, Structural)]
pub struct DenseProposalCertifiedTelemetry {
    pub proposal_identities_requested: usize,
    pub proposal_identities_scored: usize,
    pub proposal_identities_reused: usize,
    pub bound_evaluations: usize,
    pub internal_nodes_expanded: usize,
    pub leaf_nodes_expanded: usize,
    pub exact_scores: usize,
    pub points_emitted: usize,
    pub certified_batches: usize,
    pub max_pending_nodes: usize,
    pub max_pending_candidates: usize,
}

/// Whether an index holds an identity.
pub open spec fn is_known(index: DenseBallIndex, id: u32) -> bool {
    exists|place: int|
        0 <= place < index.documents().len() && (#[trigger] index.documents()[place]).id == id
}

/// Whether the first proposal that an index does not hold is the given one.
pub open spec fn is_first_unknown(index: DenseBallIndex, proposals: Seq<u32>, at: int) -> bool {
    &&& 0 <= at < proposals.len()
    &&& !is_known(index, proposals[at])
    &&& forall|i: int| 0 <= i < at ==> is_known(index, #[trigger] proposals[i])
}

/// The documents of an index in the exact order of a query, in certified batches.
pub struct DenseProposalCertifiedStream<'a, G, F> {
    index: &'a DenseBallIndex,
    bound: G,
    scorer: F,
    batch_size: usize,
    frontier: Frontier,
    certified: VecDeque<(usize, i64)>,
    requested: usize,
    proposed: usize,
    reused: usize,
    points_emitted: usize,
    certified_batches: usize,
    proposals: Ghost<Set<int>>,
    truth: Ghost<Option<(spec_fn(int) -> Option<i64>, spec_fn(int) -> Option<i64>)>>,
}

/// The places of the documents that are proposed.
pub open spec fn proposed_places(tree: NodeTree, proposals: Seq<u32>) -> Set<int> {
    Set::new(|point: int| 0 <= point < tree.ids@.len() && proposals.contains(tree.ids@[point]))
}

/// Whether a point stands in a leaf that was opened.
pub open spec fn in_opened_leaf(tree: NodeTree, opened: Set<int>, point: int) -> bool {
    exists|leaf: int|
        #![trigger opened_leaves(tree, opened).contains(leaf)]
        opened_leaves(tree, opened).contains(leaf) && tree.covers(leaf, point)
}

/// The proposed points whose leaves were opened.
pub open spec fn met_again(tree: NodeTree, opened: Set<int>, proposals: Set<int>) -> Set<int> {
    proposals.filter(|point: int| in_opened_leaf(tree, opened, point))
}

/// Whether two searches hold and have counted the same.
pub open spec fn same_search(left: Frontier, right: Frontier) -> bool {
    &&& left.bounds() == right.bounds()
    &&& left.scores() == right.scores()
    &&& left.seen() == right.seen()
    &&& left.expanded() == right.expanded()
    &&& left.counters() == right.counters()
    &&& left.pending_nodes() == right.pending_nodes()
    &&& left.pending_points() == right.pending_points()
}

/// Whether a search opens a block, the one with the highest bound, and counts it.
pub open spec fn opens_one(tree: NodeTree, before: Frontier, node: int, after: Frontier) -> bool {
    exists|ready: Frontier, reused: usize|
        {
            &&& same_search(before, ready)
            &&& ready.opens(tree, node)
            &&& #[trigger] counts_opening(ready, tree, node, reused, after)
            &&& after.expanded() == before.expanded().insert(node)
        }
}

/// Whether a search opens the given blocks, one after the other.
pub open spec fn opens_in_turn(tree: NodeTree, path: Seq<Frontier>, nodes: Seq<int>) -> bool {
    &&& path.len() == nodes.len() + 1
    &&& forall|i: int|
        0 <= i < nodes.len() ==> opens_one(tree, path[i], #[trigger] nodes[i], path[i + 1])
}

/// Whether a search opens blocks and then only hands out points: what it has counted, and
/// what it has still to open, is what opening the blocks left.
pub open spec fn opens_until(
    tree: NodeTree,
    before: Frontier,
    nodes: Seq<int>,
    after: Frontier,
) -> bool {
    exists|path: Seq<Frontier>|
        {
            &&& #[trigger] opens_in_turn(tree, path, nodes)
            &&& path[0] == before
            &&& path.last().bounds() == after.bounds()
            &&& path.last().expanded() == after.expanded()
            &&& path.last().counters() == after.counters()
        }
}

/// One block more is opened.
proof fn lemma_opens_one_more(
    tree: NodeTree,
    path: Seq<Frontier>,
    nodes: Seq<int>,
    node: int,
    after: Frontier,
)
    requires
        opens_in_turn(tree, path, nodes),
        opens_one(tree, path.last(), node, after),
    ensures
        opens_in_turn(tree, path.push(after), nodes.push(node)),
{
    let longer = path.push(after);
    let more = nodes.push(node);
    assert forall|i: int| 0 <= i < more.len() implies opens_one(
        tree,
        longer[i],
        #[trigger] more[i],
        longer[i + 1],
    ) by {
        if i < nodes.len() {
            assert(more[i] == nodes[i]);
            assert(longer[i] == path[i] && longer[i + 1] == path[i + 1]);
        } else {
            assert(longer[i] == path.last());
        }
    }
}

/// Whether everything that was scored is proposed or stands in an opened leaf, and no
/// unopened block shares a point with an opened leaf.
spec fn keeps_leaves_apart(frontier: Frontier, tree: NodeTree, proposals: Set<int>) -> bool {
    &&& forall|point: int|
        0 <= point < frontier.seen().len() && #[trigger] frontier.seen()[point]
            ==> proposals.contains(point) || in_opened_leaf(tree, frontier.expanded(), point)
    &&& forall|leaf: int, node: int, point: int|
        #![trigger opened_leaves(tree, frontier.expanded()).contains(leaf), frontier.bounds().contains_key(node), tree.covers(node, point)]
        opened_leaves(tree, frontier.expanded()).contains(leaf)
            && frontier.bounds().contains_key(node) && tree.covers(node, point) ==> !tree.covers(
            leaf,
            point,
        )
    &&& forall|point: int| #[trigger]
        proposals.contains(point) ==> 0 <= point < frontier.seen().len() && frontier.seen()[point]
}

/// Opening a block meets the proposed points of a leaf again, and no others.
proof fn lemma_opening_meets_proposals(
    before: Frontier,
    after: Frontier,
    tree: NodeTree,
    node: int,
    reused: usize,
    proposals: Set<int>,
)
    requires
        tree.wf(),
        before.wf(tree),
        after.wf(tree),
        proposals.finite(),
        keeps_leaves_apart(before, tree, proposals),
        before.bounds().contains_key(node),
        0 <= node < tree.nodes@.len(),
        before.expanded().finite(),
        after.expanded() == before.expanded().insert(node),
        !before.expanded().contains(node),
        after.seen().len() == before.seen().len(),
        counts_opening(before, tree, node, reused, after),
        forall|point: int|
            0 <= point < before.seen().len() && #[trigger] after.seen()[point]
                ==> before.seen()[point] || tree.covers(node, point),
        forall|point: int|
            0 <= point < before.seen().len() && before.seen()[point]
                ==> #[trigger] after.seen()[point],
    ensures
        keeps_leaves_apart(after, tree, proposals),
        met_again(tree, after.expanded(), proposals).len() == met_again(
            tree,
            before.expanded(),
            proposals,
        ).len() + reused,
{
    let is_leaf = tree.nodes@[node].children@.len() == 0;
    let earlier = opened_leaves(tree, before.expanded());
    let later = opened_leaves(tree, after.expanded());
    let met = met_again(tree, before.expanded(), proposals);
    let now = met_again(tree, after.expanded(), proposals);
    before.lemma_seen_len(tree);
    assert(tree.node_wf(node));
    assert forall|leaf: int| later.contains(leaf) <==> earlier.contains(leaf) || is_leaf && leaf
        == node by {}
    assert forall|point: int| in_opened_leaf(tree, after.expanded(), point) <==> in_opened_leaf(
        tree,
        before.expanded(),
        point,
    ) || is_leaf && tree.covers(node, point) by {
        if in_opened_leaf(tree, before.expanded(), point) {
            let leaf = choose|leaf: int|
                #![trigger earlier.contains(leaf)]
                earlier.contains(leaf) && tree.covers(leaf, point);
            assert(later.contains(leaf));
        }
        if is_leaf && tree.covers(node, point) {
            assert(later.contains(node));
        }
        if in_opened_leaf(tree, after.expanded(), point) {
            let leaf = choose|leaf: int|
                #![trigger later.contains(leaf)]
                later.contains(leaf) && tree.covers(leaf, point);
            assert(earlier.contains(leaf) || is_leaf && leaf == node);
        }
    }
    let fresh = seen_in(tree, node, before.seen());
    assert(met.finite());
    if is_leaf {
        assert forall|point: int| #[trigger] fresh.contains(point) implies proposals.contains(point)
            && !met.contains(point) by {
            assert(tree.covers(node, point));
            assert(before.seen()[point]);
            if in_opened_leaf(tree, before.expanded(), point) {
                let leaf = choose|leaf: int|
                    #![trigger earlier.contains(leaf)]
                    earlier.contains(leaf) && tree.covers(leaf, point);
                assert(before.bounds().contains_key(node));
            }
        }
        assert(fresh.subset_of(proposals));
        vstd::set_lib::lemma_len_subset(fresh, proposals);
        assert(now =~= met.union(fresh));
        assert(met.disjoint(fresh));
        vstd::set_lib::lemma_set_disjoint_lens(met, fresh);
    } else {
        assert(now =~= met);
    }
    assert forall|point: int|
        0 <= point < after.seen().len() && #[trigger] after.seen()[point] implies
        proposals.contains(point) || in_opened_leaf(tree, after.expanded(), point) by {
        if before.seen()[point] {
        } else {
            assert(is_leaf);
        }
    }
    assert forall|leaf: int, other: int, point: int|
        #![trigger opened_leaves(tree, after.expanded()).contains(leaf), after.bounds().contains_key(other), tree.covers(other, point)]
        opened_leaves(tree, after.expanded()).contains(leaf) && after.bounds().contains_key(other)
            && tree.covers(other, point) implies !tree.covers(leaf, point) by {
        after.lemma_pending_is_node(tree, other);
        if before.bounds().contains_key(other) && other != node {
            if leaf == node {
                before.lemma_pending_apart(tree, other, node);
            } else {
                assert(earlier.contains(leaf));
            }
        } else {
            assert(tree.covers(node, point));
            assert(earlier.contains(leaf));
            assert(before.bounds().contains_key(node));
        }
    }
}

/// Whether a row of scored points holds a point.
pub open spec fn has_point(row: Seq<(usize, i64)>, point: int) -> bool {
    exists|i: int| 0 <= i < row.len() && (#[trigger] row[i]).0 == point
}

/// The points that a search or a row of certified points holds.
pub open spec fn all_held(
    frontier: Frontier,
    tree: NodeTree,
    certified: Seq<(usize, i64)>,
) -> Set<int> {
    Set::new(|point: int| frontier.holds(tree, point) || has_point(certified, point))
}

/// Whether certified points stand in their exact order before everything that the
/// search holds.
pub open spec fn certified_in_order(
    frontier: Frontier,
    tree: NodeTree,
    certified: Seq<(usize, i64)>,
    scores: spec_fn(int) -> Option<i64>,
) -> bool {
    &&& forall|i: int|
        0 <= i < certified.len() ==> scores((#[trigger] certified[i]).0 as int) == Some(
            certified[i].1,
        )
    &&& forall|i: int, j: int|
        0 <= i < j < certified.len() ==> tree.before(
            (#[trigger] certified[i]).0 as int,
            certified[i].1,
            (#[trigger] certified[j]).0 as int,
            certified[j].1,
        )
    &&& forall|i: int, other: int|
        0 <= i < certified.len() && #[trigger] frontier.holds(tree, other) && scores(other) is Some
            ==> tree.before(
            (#[trigger] certified[i]).0 as int,
            certified[i].1,
            other,
            scores(other)->0,
        )
}

impl<'a, G: KeySource, F: KeySource> DenseProposalCertifiedStream<'a, G, F> {
    /// Whether the search and the certified points belong together.
    pub closed spec fn wf(&self) -> bool {
        let tree = self.index.tree();
        &&& tree.wf()
        &&& self.batch_size > 0
        &&& tree.ids@.len() == self.index.documents().len()
        &&& self.frontier.wf(tree)
        &&& self.frontier.settled()
        &&& self.frontier.counted(tree)
        &&& forall|node: int| 0 <= node < tree.nodes@.len() ==> #[trigger] self.bound.defined(node)
        &&& forall|point: int|
            0 <= point < tree.ids@.len() ==> #[trigger] self.scorer.defined(point)
        &&& forall|i: int|
            0 <= i < self.certified@.len() ==> {
                &&& (#[trigger] self.certified@[i]).0 < tree.ids@.len()
                &&& !self.frontier.holds(tree, self.certified@[i].0 as int)
                &&& self.frontier.seen()[self.certified@[i].0 as int]
            }
        &&& forall|i: int, j: int|
            0 <= i < j < self.certified@.len() ==> (#[trigger] self.certified@[i]).0 != (
            #[trigger] self.certified@[j]).0
        &&& self.proposals@.finite()
        &&& self.proposed == self.proposals@.len()
        &&& keeps_leaves_apart(self.frontier, tree, self.proposals@)
        &&& self.reused == met_again(tree, self.frontier.expanded(), self.proposals@).len()
        &&& self.truth@ matches Some((bounds, scores)) ==> {
            &&& certifies(&self.bound, &self.scorer, tree, bounds, scores)
            &&& self.frontier.agrees(bounds, scores)
            &&& certified_in_order(self.frontier, tree, self.certified@, scores)
        }
    }

    /// The blocks of the stream.
    pub closed spec fn tree(&self) -> NodeTree {
        self.index.tree()
    }

    /// The points that were not emitted.
    pub closed spec fn held(&self) -> Set<int> {
        all_held(self.frontier, self.index.tree(), self.certified@)
    }

    /// What is still to come, where the bounds are admissible.
    pub closed spec fn order(&self) -> Option<Seq<int>> {
        match self.truth@ {
            Some((_, scores)) => Some(exact_order(self.index.tree(), scores, self.held())),
            None => None,
        }
    }

    /// The score of a point, where the bounds are admissible.
    pub closed spec fn score_of(&self, point: int) -> i64 {
        match self.truth@ {
            Some((_, scores)) => scores(point)->0,
            None => 0,
        }
    }

    /// How many points were emitted.
    pub closed spec fn emitted(&self) -> usize {
        self.points_emitted
    }

    /// The documents that were proposed, by their places.
    pub closed spec fn proposals(&self) -> Set<int> {
        self.proposals@
    }

    /// How many identities the proposal held.
    pub closed spec fn requested(&self) -> usize {
        self.requested
    }

    /// How many documents a batch holds, unless nothing is left to open.
    pub closed spec fn batch(&self) -> usize {
        self.batch_size
    }

    /// How many certified documents wait to be handed out.
    pub closed spec fn ready(&self) -> nat {
        self.certified@.len()
    }

    /// What waits and what was counted.
    pub closed spec fn search(&self) -> Frontier {
        self.frontier
    }

    /// How many blocks and how many scored documents wait.
    pub closed spec fn waiting(&self) -> (nat, nat) {
        (self.frontier.pending_nodes(), self.frontier.pending_points())
    }

    /// How many batches were certified.
    pub closed spec fn batches(&self) -> usize {
        self.certified_batches
    }

    /// The blocks whose bounds were evaluated: the opened ones and those that wait.
    pub closed spec fn evaluated(&self) -> nat {
        self.frontier.expanded().len() + self.frontier.bounds().dom().len()
    }

    /// A stream over all documents of an index. The proposed documents are scored at
    /// once, every identity only once.
    pub fn new(
        index: &'a DenseBallIndex,
        query: &Vec<u32>,
        proposal_ids: &Vec<u32>,
        batch_size: usize,
        bound: G,
        scorer: F,
    ) -> (result: Result<DenseProposalCertifiedStream<'a, G, F>, DenseProposalCertifiedError>)
        requires
            forall|node: int|
                0 <= node < index.tree().nodes@.len() ==> #[trigger] bound.defined(node),
            forall|point: int|
                0 <= point < index.documents().len() ==> #[trigger] scorer.defined(point),
        ensures
            batch_size == 0 ==> result == Err::<
                DenseProposalCertifiedStream<'a, G, F>,
                DenseProposalCertifiedError,
            >(DenseProposalCertifiedError::ZeroBatchSize),
            batch_size > 0 && !index.accepts_query(query@) ==> result == Err::<
                DenseProposalCertifiedStream<'a, G, F>,
                DenseProposalCertifiedError,
            >(DenseProposalCertifiedError::DenseBall(DenseBallError::InvalidQuery)),
            batch_size > 0 && index.accepts_query(query@) ==> match result {
                Err(error) => exists|at: int| #[trigger]
                    is_first_unknown(*index, proposal_ids@, at) && error
                        == DenseProposalCertifiedError::UnknownProposal(proposal_ids@[at]),
                Ok(stream) => {
                    &&& forall|i: int|
                        0 <= i < proposal_ids@.len() ==> is_known(
                            *index,
                            #[trigger] proposal_ids@[i],
                        )
                    &&& stream.wf()
                    &&& stream.tree() == index.tree()
                    &&& stream.emitted() == 0
                    &&& stream.requested() == proposal_ids@.len()
                    &&& stream.proposals() == proposed_places(index.tree(), proposal_ids@)
                    &&& stream.scored() == stream.proposals()
                    &&& stream.opened() == Set::<int>::empty()
                    &&& stream.batch() == batch_size
                    &&& stream.ready() == 0
                    &&& stream.batches() == 0
                    &&& stream.search().counters().3 == index.tree().roots@.len()
                    &&& stream.search().counters().4 == stream.proposals().len()
                    &&& forall|point: int| #[trigger]
                        stream.held().contains(point) <==> 0 <= point < index.tree().ids@.len()
                    &&& forall|bounds: spec_fn(int) -> Option<i64>, scores: spec_fn(
                        int,
                    ) -> Option<i64>|
                        #[trigger] certifies(&bound, &scorer, index.tree(), bounds, scores) ==> {
                            &&& stream.order() == Some(
                                exact_order(index.tree(), scores, stream.held()),
                            )
                            &&& forall|point: int|
                                0 <= point < index.tree().ids@.len() ==> Some(
                                    #[trigger] stream.score_of(point),
                                ) == scores(point)
                        }
                },
            },
    {
        if batch_size == 0 {
            return Err(DenseProposalCertifiedError::ZeroBatchSize);
        }
        match index.check_query(query) {
            Ok(_) => {},
            Err(error) => {
                return Err(DenseProposalCertifiedError::DenseBall(error));
            },
        }
        let tree = index.tree_ref();
        let mut frontier = Frontier::open(tree, &bound);
        let ghost truth = if exists|
            bounds: spec_fn(int) -> Option<i64>,
            scores: spec_fn(int) -> Option<i64>,
        | #[trigger]
            certifies(&bound, &scorer, *tree, bounds, scores) {
            let (bounds, scores) = choose|
                bounds: spec_fn(int) -> Option<i64>,
                scores: spec_fn(int) -> Option<i64>,
            | #[trigger]
                certifies(&bound, &scorer, *tree, bounds, scores);
            Some((bounds, scores))
        } else {
            None
        };
        proof {
            if truth is Some {
                let (bounds, scores) = truth->0;
                assert(frontier.agrees(bounds, scores));
            }
        }
        let mut proposed: usize = 0;
        let mut i: usize = 0;
        assert(seen_points(frontier.seen()) =~= Set::<int>::empty());
        while i < proposal_ids.len()
            invariant
                i <= proposal_ids@.len(),
                proposed <= i,
                *tree == index.tree(),
                tree.wf(),
                tree.ids@.len() == index.documents().len(),
                forall|place: int|
                    0 <= place < tree.ids@.len() ==> #[trigger] tree.ids@[place]
                        == index.documents()[place].id,
                batch_size > 0,
                index.accepts_query(query@),
                frontier.wf(*tree),
                frontier.settled(),
                frontier.counted(*tree),
                frontier.seen().len() == tree.ids@.len(),
                frontier.expanded() == Set::<int>::empty(),
                proposed == seen_points(frontier.seen()).len(),
                frontier.pending_points() == proposed,
                frontier.counters().3 == tree.roots@.len(),
                frontier.counters().4 == proposed,
                forall|point: int|
                    0 <= point < tree.ids@.len() ==> #[trigger] frontier.seen()[point]
                        == proposal_ids@.take(i as int).contains(tree.ids@[point]),
                forall|node: int|
                    0 <= node < tree.nodes@.len() ==> #[trigger] bound.defined(node),
                forall|point: int|
                    0 <= point < tree.ids@.len() ==> #[trigger] scorer.defined(point),
                forall|k: int|
                    0 <= k < i ==> is_known(*index, #[trigger] proposal_ids@[k]),
                forall|point: int|
                    0 <= point < tree.ids@.len() <==> #[trigger] frontier.holds(*tree, point),
                truth matches Some((bounds, scores)) ==> {
                    &&& certifies(&bound, &scorer, *tree, bounds, scores)
                    &&& frontier.agrees(bounds, scores)
                },
            decreases proposal_ids@.len() - i,
        {
            let id: u32 = proposal_ids[i];
            let place: usize = match index.position(id) {
                Some(place) => place,
                None => {
                    assert(is_first_unknown(*index, proposal_ids@, i as int));
                    return Err(DenseProposalCertifiedError::UnknownProposal(id));
                },
            };
            assert(index.documents()[place as int].id == id);
            assert(is_known(*index, proposal_ids@[i as int]));
            let ghost known = frontier;
            if !frontier.was_seen(place) {
                let ghost before = frontier;
                let score: i64 = scorer.key(place);
                assert(frontier.holds(*tree, place as int));
                frontier.seed_point(tree, place, score);
                proposed = proposed + 1;
                proof {
                    let known = seen_points(before.seen());
                    let all = vstd::set_lib::set_int_range(0, tree.ids@.len() as int);
                    vstd::set_lib::lemma_int_range(0, tree.ids@.len() as int);
                    vstd::set_lib::lemma_len_subset(known, all);
                    assert(seen_points(frontier.seen()) =~= known.insert(place as int));
                }
                proof {
                    assert forall|point: int| 0 <= point < tree.ids@.len()
                        <==> #[trigger] frontier.holds(*tree, point) by {
                        assert(before.holds(*tree, point) == frontier.holds(*tree, point));
                    }
                    if truth is Some {
                        let (bounds, scores) = truth->0;
                        assert forall|point: int| #[trigger]
                            frontier.scores().contains_key(point) implies scores(point) == Some(
                            frontier.scores()[point],
                        ) by {
                            assert(before.scores().contains_key(point) || point == place);
                        }
                        assert forall|node: int| #[trigger]
                            frontier.bounds().contains_key(node) implies bounds(node) == Some(
                            frontier.bounds()[node],
                        ) by {
                            assert(before.bounds().contains_key(node));
                        }
                    }
                }
            }
            proof {
                let shorter = proposal_ids@.take(i as int);
                let longer = proposal_ids@.take(i + 1);
                assert(longer =~= shorter.push(id));
                assert forall|point: int| 0 <= point < tree.ids@.len() implies
                    #[trigger] frontier.seen()[point] == longer.contains(tree.ids@[point]) by {
                    assert(known.seen()[point] == shorter.contains(tree.ids@[point]));
                    if shorter.contains(tree.ids@[point]) {
                        let k = choose|k: int|
                            0 <= k < shorter.len() && shorter[k] == tree.ids@[point];
                        assert(longer[k] == tree.ids@[point]);
                    }
                    if tree.ids@[point] == id {
                        assert(longer[i as int] == id);
                        assert(index.documents()[point].id == id);
                    }
                }
            }
            i += 1;
        }
        let ghost proposals = proposed_places(*tree, proposal_ids@);
        proof {
            assert(proposal_ids@.take(i as int) =~= proposal_ids@);
            assert(seen_points(frontier.seen()) =~= proposals);
            let all = vstd::set_lib::set_int_range(0, tree.ids@.len() as int);
            vstd::set_lib::lemma_int_range(0, tree.ids@.len() as int);
            assert(proposals.subset_of(all));
            vstd::set_lib::lemma_len_subset(proposals, all);
            assert(met_again(*tree, frontier.expanded(), proposals) =~= Set::<int>::empty()) by {
                assert forall|point: int| !in_opened_leaf(*tree, frontier.expanded(), point) by {}
            }
        }
        let stream = DenseProposalCertifiedStream {
            index,
            bound,
            scorer,
            batch_size,
            frontier,
            certified: VecDeque::new(),
            requested: proposal_ids.len(),
            proposed,
            reused: 0,
            points_emitted: 0,
            certified_batches: 0,
            proposals: Ghost(proposals),
            truth: Ghost(truth),
        };
        proof {
            let held = stream.held();
            assert forall|point: int| #[trigger] held.contains(point) <==> 0 <= point
                < tree.ids@.len() by {
                assert(frontier.holds(*tree, point) == (0 <= point < tree.ids@.len()));
            }
            lemma_held_points(frontier, *tree);
            assert(held =~= crate::frontier::held_points(frontier, *tree));
            assert forall|bounds: spec_fn(int) -> Option<i64>, scores: spec_fn(int) -> Option<i64>|
                #[trigger] certifies(&bound, &scorer, *tree, bounds, scores) implies {
                &&& stream.order() == Some(exact_order(*tree, scores, stream.held()))
                &&& forall|point: int|
                    0 <= point < tree.ids@.len() ==> Some(#[trigger] stream.score_of(point))
                        == scores(point)
            } by {
                let (mine, known) = truth->0;
                lemma_scores_are_unique(&bound, &scorer, *tree, mine, known, bounds, scores);
                lemma_order_of_equal_scores(*tree, known, scores, held);
            }
        }
        Ok(stream)
    }

    /// Certifies the next points of the exact order. A batch is smaller than asked for
    /// only where nothing is left to open.
    fn certify_next_batch(&mut self) -> (certified: bool)
        requires
            old(self).wf(),
            old(self).certified@.len() == 0,
        ensures
            final(self).wf(),
            final(self).tree() == old(self).tree(),
            final(self).truth@ == old(self).truth@,
            final(self).points_emitted == old(self).points_emitted,
            final(self).proposals@ == old(self).proposals@,
            final(self).requested == old(self).requested,
            final(self).batch_size == old(self).batch_size,
            exists|nodes: Seq<int>| #[trigger]
                opens_until(old(self).tree(), old(self).frontier, nodes, final(self).frontier),
            final(self).certified_batches == (if certified {
                old(self).certified_batches.saturating_add(1)
            } else {
                old(self).certified_batches
            }),
            final(self).held() == old(self).held(),
            final(self).certified@.len() <= final(self).batch_size,
            certified ==> final(self).certified@.len() > 0,
            !certified ==> final(self).certified@.len() == 0 && final(self).held() == Set::<
                int,
            >::empty(),
    {
        let tree = self.index.tree_ref();
        let ghost mut path: Seq<Frontier> = seq![self.frontier];
        let ghost mut nodes: Seq<int> = Seq::empty();
        loop
            invariant
                opens_in_turn(*tree, path, nodes),
                path[0] == old(self).frontier,
                same_search(path.last(), self.frontier),
                self.wf(),
                *tree == self.index.tree(),
                tree.wf(),
                self.index == old(self).index,
                self.truth@ == old(self).truth@,
                self.points_emitted == old(self).points_emitted,
                self.certified@.len() == 0,
                self.proposals@ == old(self).proposals@,
                self.requested == old(self).requested,
                self.batch_size == old(self).batch_size,
                self.certified_batches == old(self).certified_batches,
                self.held() == old(self).held(),
            decreases tree.nodes@.len() - self.frontier.expanded().len(),
        {
            let waiting: usize = self.frontier.point_count();
            let count: usize = if waiting < self.batch_size {
                waiting
            } else {
                self.batch_size
            };
            let ghost before = *self;
            if count > 0 && (count == self.batch_size || self.frontier.node_count() == 0) {
                let leading = pop_leading(&mut self.frontier, tree, count);
                let ghost popped = self.frontier;
                let (point, score) = leading[count - 1];
                if self.frontier.is_settled(tree, point, score) {
                    let mut i: usize = 0;
                    while i < leading.len()
                        invariant
                            i <= leading@.len(),
                            self.certified@ =~= leading@.take(i as int),
                            self.index == before.index,
                            self.bound == before.bound,
                            self.scorer == before.scorer,
                            self.batch_size == before.batch_size,
                            self.frontier == popped,
                            self.truth == before.truth,
                            self.points_emitted == before.points_emitted,
                            self.proposals == before.proposals,
                            self.proposed == before.proposed,
                            self.reused == before.reused,
                            self.requested == before.requested,
                            self.certified_batches == before.certified_batches,
                        decreases leading@.len() - i,
                    {
                        self.certified.push_back(leading[i]);
                        i += 1;
                    }
                    self.certified_batches = self.certified_batches.saturating_add(1);
                    proof {
                        assert(self.certified@ =~= leading@);
                        assert(self.held() =~= before.held()) by {
                            assert forall|other: int| self.held().contains(other)
                                <==> before.held().contains(other) by {
                                assert(before.frontier.holds(*tree, other) == (popped.holds(
                                    *tree,
                                    other,
                                ) || has_point(leading@, other)));
                            }
                        }
                        if self.truth@ is Some {
                            let (bounds, scores) = self.truth@->0;
                            lemma_leading_is_certified(
                                before.frontier,
                                popped,
                                *tree,
                                leading@,
                                bounds,
                                scores,
                            );
                        }
                    }
                    assert(opens_until(*tree, old(self).frontier, nodes, self.frontier));
                    return true;
                }
                restore_leading(&mut self.frontier, tree, &leading);
                proof {
                    lemma_restored(before.frontier, popped, self.frontier, *tree, leading@);
                    assert(self.held() =~= before.held()) by {
                        assert forall|other: int| self.held().contains(other)
                            <==> before.held().contains(other) by {
                            assert(before.frontier.holds(*tree, other) == self.frontier.holds(
                                *tree,
                                other,
                            ));
                        }
                    }
                }
            }
            if self.frontier.node_count() == 0 {
                proof {
                    assert(self.held() =~= Set::<int>::empty()) by {
                        self.frontier.lemma_no_pending(*tree);
                        self.frontier.lemma_no_points(*tree);
                        assert forall|other: int| !self.held().contains(other) by {}
                    }
                }
                assert(opens_until(*tree, old(self).frontier, nodes, self.frontier));
                return false;
            }
            let ghost ready = *self;
            let reused: usize = self.frontier.expand_next(tree, &self.bound, &self.scorer);
            self.reused = self.reused.saturating_add(reused);
            proof {
                let node = choose|node: int|
                    {
                        &&& #[trigger] ready.frontier.opens(*tree, node)
                        &&& self.frontier.expanded() == ready.frontier.expanded().insert(node)
                        &&& !ready.frontier.expanded().contains(node)
                        &&& 0 <= node < tree.nodes@.len()
                        &&& counts_opening(ready.frontier, *tree, node, reused, self.frontier)
                        &&& forall|point: int|
                            0 <= point < ready.frontier.seen().len()
                                && #[trigger] self.frontier.seen()[point]
                                ==> ready.frontier.seen()[point] || tree.covers(node, point)
                    };
                lemma_opening_meets_proposals(
                    ready.frontier,
                    self.frontier,
                    *tree,
                    node,
                    reused,
                    self.proposals@,
                );
                assert(counts_opening(ready.frontier, *tree, node, reused, self.frontier));
                assert(opens_one(*tree, path.last(), node, self.frontier));
                lemma_opens_one_more(*tree, path, nodes, node, self.frontier);
                path = path.push(self.frontier);
                nodes = nodes.push(node);
                let met = met_again(*tree, self.frontier.expanded(), self.proposals@);
                assert(met.subset_of(self.proposals@));
                vstd::set_lib::lemma_len_subset(met, self.proposals@);
                self.frontier.lemma_opened_more(*tree, ready.frontier.expanded(), node);
                assert(ready.frontier.expanded().len() == before.frontier.expanded().len());
                assert(self.held() =~= ready.held()) by {
                    assert forall|other: int| self.held().contains(other)
                        <==> ready.held().contains(other) by {
                        assert(self.frontier.holds(*tree, other) == ready.frontier.holds(
                            *tree,
                            other,
                        ));
                    }
                }
                if self.truth@ is Some {
                    let (bounds, scores) = self.truth@->0;
                    assert(self.frontier.agrees(bounds, scores));
                }
            }
        }
    }

    /// The next document of the exact order; `None` at the end.
    pub fn next(&mut self) -> (result: Option<DenseScoredPoint>)
        requires
            old(self).wf(),
        ensures
            final(self).wf(),
            final(self).tree() == old(self).tree(),
            final(self).emitted() == (if result is Some {
                old(self).emitted().saturating_add(1)
            } else {
                old(self).emitted()
            }),
            match result {
                Some(found) => exists|point: int|
                    {
                        &&& #[trigger] old(self).held().contains(point)
                        &&& 0 <= point < old(self).tree().ids@.len()
                        &&& found.id == old(self).tree().ids@[point]
                        &&& final(self).held() == old(self).held().remove(point)
                        &&& old(self).order() matches Some(order) ==> {
                            &&& order.len() > 0
                            &&& order[0] == point
                            &&& found.score == old(self).score_of(point)
                            &&& final(self).order() == Some(order.drop_first())
                        }
                    },
                None => {
                    &&& old(self).held() == Set::<int>::empty()
                    &&& final(self).held() == Set::<int>::empty()
                    &&& old(self).order() matches Some(order) ==> order.len() == 0
                        && final(self).order() == Some(order)
                },
            },
            forall|point: int| #[trigger] final(self).score_of(point) == old(self).score_of(point),
            old(self).order() is None ==> final(self).order() is None,
            final(self).proposals() == old(self).proposals(),
            final(self).requested() == old(self).requested(),
            final(self).batch() == old(self).batch(),
            final(self).batches() == (if old(self).ready() == 0 && result is Some {
                old(self).batches().saturating_add(1)
            } else {
                old(self).batches()
            }),
            old(self).ready() > 0 ==> final(self).ready() + 1 == old(self).ready(),
            old(self).ready() == 0 && result is Some ==> final(self).ready() < final(self).batch(),
            result is None ==> final(self).ready() == 0,
            exists|nodes: Seq<int>| #[trigger]
                opens_until(old(self).tree(), old(self).search(), nodes, final(self).search()),
            old(self).ready() > 0 ==> final(self).search() == old(self).search(),
    {
        let tree = self.index.tree_ref();
        let ghost mut nodes: Seq<int> = Seq::empty();
        assert(opens_in_turn(*tree, seq![self.frontier], nodes));
        assert(opens_until(self.tree(), self.search(), nodes, self.search()));
        if self.certified.len() == 0 {
            let certified = self.certify_next_batch();
            proof {
                nodes = choose|nodes: Seq<int>| #[trigger]
                    opens_until(old(self).tree(), old(self).frontier, nodes, self.frontier);
                assert(opens_until(old(self).tree(), old(self).search(), nodes, self.search()));
            }
            if !certified {
                proof {
                    self.lemma_nothing_left();
                }
                return None;
            }
        }
        let ghost ready = *self;
        assert(opens_until(old(self).tree(), old(self).search(), nodes, ready.search()));
        match self.certified.pop_front() {
            Some((point, score)) => {
                self.points_emitted = self.points_emitted.saturating_add(1);
                proof {
                    assert(self.search() == ready.search());
                    let left = self.certified@;
                    assert(ready.certified@[0] == (point, score));
                    assert forall|i: int| 0 <= i < left.len() implies #[trigger] left[i]
                        == ready.certified@[i + 1] by {}
                    assert(ready.held().contains(point as int)) by {
                        assert(has_point(ready.certified@, point as int));
                    }
                    assert(self.held() =~= ready.held().remove(point as int)) by {
                        assert forall|other: int| self.held().contains(other)
                            <==> ready.held().remove(point as int).contains(other) by {
                            if has_point(left, other) {
                                let i = choose|i: int|
                                    0 <= i < left.len() && (#[trigger] left[i]).0 == other;
                                assert(ready.certified@[i + 1].0 == other);
                                assert(ready.certified@[0].0 != ready.certified@[i + 1].0);
                            }
                            if has_point(ready.certified@, other) && other != point {
                                let i = choose|i: int|
                                    0 <= i < ready.certified@.len() && (
                                    #[trigger] ready.certified@[i]).0 == other;
                                assert(left[i - 1].0 == other);
                            }
                            assert(!ready.frontier.holds(*tree, ready.certified@[0].0 as int));
                        }
                    }
                    lemma_held_is_finite(ready.frontier, *tree, ready.certified@);
                    if self.truth@ is Some {
                        let (bounds, scores) = self.truth@->0;
                        assert(is_best(*tree, scores, ready.held(), point as int)) by {
                            assert forall|other: int| #[trigger]
                                ready.held().contains(other) && other != point as int && scores(
                                    other,
                                ) is Some implies tree.before(
                                point as int,
                                scores(point as int)->0,
                                other,
                                scores(other)->0,
                            ) by {
                                assert(ready.certified@[0].1 == score);
                                if ready.frontier.holds(*tree, other) {
                                    assert(tree.before(
                                        ready.certified@[0].0 as int,
                                        ready.certified@[0].1,
                                        other,
                                        scores(other)->0,
                                    ));
                                } else {
                                    let i = choose|i: int|
                                        0 <= i < ready.certified@.len() && (
                                        #[trigger] ready.certified@[i]).0 == other;
                                    assert(tree.before(
                                        ready.certified@[0].0 as int,
                                        ready.certified@[0].1,
                                        ready.certified@[i].0 as int,
                                        ready.certified@[i].1,
                                    ));
                                }
                            }
                        }
                        lemma_best_is_first(*tree, scores, ready.held(), point as int);
                        let order = old(self).order()->0;
                        assert(order.drop_first() =~= exact_order(*tree, scores, self.held()));
                    }
                }
                Some(DenseScoredPoint { id: tree.ids[point], score })
            },
            None => {
                assert(false);
                None
            },
        }
    }

    /// Nothing is ordered where nothing is held.
    proof fn lemma_nothing_left(&self)
        requires
            self.held() == Set::<int>::empty(),
        ensures
            self.order() matches Some(order) ==> order == Seq::<int>::empty(),
    {
        if self.truth@ is Some {
            let (_, scores) = self.truth@->0;
            assert forall|point: int| !#[trigger] is_best(
                self.index.tree(),
                scores,
                Set::<int>::empty(),
                point,
            ) by {}
        }
    }

    /// The blocks that were opened.
    pub closed spec fn opened(&self) -> Set<int> {
        self.frontier.expanded()
    }

    /// The points that were scored.
    pub closed spec fn scored(&self) -> Set<int> {
        seen_points(self.frontier.seen())
    }

    /// What the stream has done.
    pub fn telemetry(&self) -> (telemetry: DenseProposalCertifiedTelemetry)
        requires
            self.wf(),
        ensures
            telemetry.leaf_nodes_expanded == opened_leaves(self.tree(), self.opened()).len(),
            telemetry.leaf_nodes_expanded + telemetry.internal_nodes_expanded
                == self.opened().len(),
            telemetry.exact_scores == self.scored().len(),
            telemetry.points_emitted == self.emitted(),
            telemetry.proposal_identities_requested == self.requested(),
            telemetry.proposal_identities_scored == self.proposals().len(),
            telemetry.proposal_identities_reused == met_again(
                self.tree(),
                self.opened(),
                self.proposals(),
            ).len(),
            telemetry.bound_evaluations == self.evaluated(),
            telemetry.certified_batches == self.batches(),
            telemetry.max_pending_nodes == self.search().counters().3,
            telemetry.max_pending_candidates == self.search().counters().4,
            telemetry.max_pending_nodes >= self.waiting().0,
            telemetry.max_pending_candidates >= self.waiting().1,
    {
        let tree = self.index.tree_ref();
        proof {
            let view = *tree;
            self.opened().lemma_len_filter(|node: int| view.nodes@[node].children@.len() == 0);
        }
        DenseProposalCertifiedTelemetry {
            proposal_identities_requested: self.requested,
            proposal_identities_scored: self.proposed,
            proposal_identities_reused: self.reused,
            bound_evaluations: self.frontier.bounds_evaluated(tree),
            internal_nodes_expanded: self.frontier.nodes_opened() - self.frontier.leaves_opened(),
            leaf_nodes_expanded: self.frontier.leaves_opened(),
            exact_scores: self.frontier.points_scored(),
            points_emitted: self.points_emitted,
            certified_batches: self.certified_batches,
            max_pending_nodes: self.frontier.most_nodes(),
            max_pending_candidates: self.frontier.most_points(),
        }
    }
}

/// What taking the leading points out of a search leaves.
spec fn takes_leading(
    before: Frontier,
    after: Frontier,
    tree: NodeTree,
    leading: Seq<(usize, i64)>,
) -> bool {
    &&& after.bounds() == before.bounds()
    &&& after.seen() == before.seen()
    &&& after.expanded() == before.expanded()
    &&& after.loose() == before.loose()
    &&& after.counters() == before.counters()
    &&& after.pending_nodes() == before.pending_nodes()
    &&& after.pending_points() + leading.len() == before.pending_points()
    &&& forall|i: int|
        0 <= i < leading.len() ==> {
            &&& (#[trigger] leading[i]).0 < tree.ids@.len()
            &&& before.scores().contains_key(leading[i].0 as int)
            &&& before.scores()[leading[i].0 as int] == leading[i].1
        }
    &&& forall|i: int, j: int|
        0 <= i < j < leading.len() ==> tree.before(
            (#[trigger] leading[i]).0 as int,
            leading[i].1,
            (#[trigger] leading[j]).0 as int,
            leading[j].1,
        )
    &&& forall|i: int, other: int|
        0 <= i < leading.len() && #[trigger] after.scores().contains_key(other) ==> tree.before(
            (#[trigger] leading[i]).0 as int,
            leading[i].1,
            other,
            after.scores()[other],
        )
    &&& forall|point: int| #[trigger]
        after.scores().contains_key(point) <==> before.scores().contains_key(point) && !has_point(
            leading,
            point,
        )
    &&& forall|point: int| #[trigger]
        after.scores().contains_key(point) ==> after.scores()[point] == before.scores()[point]
}

/// Takes the given number of points out of a search, the best first.
fn pop_leading(frontier: &mut Frontier, tree: &NodeTree, count: usize) -> (leading: Vec<
    (usize, i64),
>)
    requires
        tree.wf(),
        old(frontier).wf(*tree),
        old(frontier).settled(),
        count <= old(frontier).pending_points(),
    ensures
        final(frontier).wf(*tree),
        leading@.len() == count,
        takes_leading(*old(frontier), *final(frontier), *tree, leading@),
        forall|point: int| #[trigger]
            old(frontier).holds(*tree, point) <==> final(frontier).holds(*tree, point) || has_point(
                leading@,
                point,
            ),
        forall|i: int|
            0 <= i < leading@.len() ==> {
                &&& !final(frontier).holds(*tree, (#[trigger] leading@[i]).0 as int)
                &&& final(frontier).seen()[leading@[i].0 as int]
            },
{
    let ghost first = *frontier;
    let mut leading: Vec<(usize, i64)> = Vec::new();
    while leading.len() < count
        invariant
            tree.wf(),
            first == *old(frontier),
            first.wf(*tree),
            frontier.wf(*tree),
            leading@.len() <= count,
            count <= first.pending_points(),
            takes_leading(first, *frontier, *tree, leading@),
        decreases count - leading@.len(),
    {
        let ghost before = *frontier;
        let ghost taken = leading@;
        match frontier.pop_point(tree) {
            Some((point, score)) => {
                leading.push((point, score));
                proof {
                    assert(before.scores().contains_key(point as int));
                    assert forall|i: int, j: int| 0 <= i < j < leading@.len() implies tree.before(
                        (#[trigger] leading@[i]).0 as int,
                        leading@[i].1,
                        (#[trigger] leading@[j]).0 as int,
                        leading@[j].1,
                    ) by {
                        if j == taken.len() {
                            assert(taken[i] == leading@[i]);
                            assert(tree.before(
                                taken[i].0 as int,
                                taken[i].1,
                                point as int,
                                before.scores()[point as int],
                            ));
                        } else {
                            assert(taken[i] == leading@[i] && taken[j] == leading@[j]);
                        }
                    }
                    assert forall|i: int, other: int|
                        0 <= i < leading@.len() && #[trigger] frontier.scores().contains_key(
                            other,
                        ) implies tree.before(
                        (#[trigger] leading@[i]).0 as int,
                        leading@[i].1,
                        other,
                        frontier.scores()[other],
                    ) by {
                        assert(before.scores().contains_key(other));
                        if i < taken.len() {
                            assert(taken[i] == leading@[i]);
                        }
                    }
                    assert forall|other: int| #[trigger] frontier.scores().contains_key(other)
                        <==> first.scores().contains_key(other) && !has_point(
                        leading@,
                        other,
                    ) by {
                        assert(leading@[taken.len() as int].0 == point);
                        if has_point(taken, other) {
                            let i = choose|i: int|
                                0 <= i < taken.len() && (#[trigger] taken[i]).0 == other;
                            assert(leading@[i].0 == other);
                        }
                        if has_point(leading@, other) && other != point {
                            let i = choose|i: int|
                                0 <= i < leading@.len() && (#[trigger] leading@[i]).0 == other;
                            assert(taken[i].0 == other);
                        }
                        assert(before.scores().contains_key(other) == (
                        first.scores().contains_key(other) && !has_point(taken, other)));
                    }
                    assert forall|other: int| #[trigger]
                        frontier.scores().contains_key(other) implies frontier.scores()[other]
                        == first.scores()[other] by {
                        assert(before.scores().contains_key(other));
                    }
                    assert forall|i: int| 0 <= i < leading@.len() implies {
                        &&& (#[trigger] leading@[i]).0 < tree.ids@.len()
                        &&& first.scores().contains_key(leading@[i].0 as int)
                        &&& first.scores()[leading@[i].0 as int] == leading@[i].1
                    } by {
                        if i < taken.len() {
                            assert(taken[i] == leading@[i]);
                        }
                    }
                }
            },
            None => {
                assert(false);
                return leading;
            },
        }
    }
    proof {
        assert forall|point: int| #[trigger] first.holds(*tree, point) <==> frontier.holds(
            *tree,
            point,
        ) || has_point(leading@, point) by {
            lemma_taken_holds(first, *frontier, *tree, leading@, point);
        }
        assert forall|i: int| 0 <= i < leading@.len() implies {
            &&& !frontier.holds(*tree, (#[trigger] leading@[i]).0 as int)
            &&& frontier.seen()[leading@[i].0 as int]
        } by {
            let point = leading@[i].0 as int;
            first.lemma_scored_was_seen(*tree, point);
            assert(has_point(leading@, point));
            assert(!frontier.scores().contains_key(point));
            assert(!frontier.loose().contains(point));
        }
    }
    leading
}

proof fn lemma_taken_holds(
    before: Frontier,
    after: Frontier,
    tree: NodeTree,
    leading: Seq<(usize, i64)>,
    point: int,
)
    requires
        before.settled(),
        takes_leading(before, after, tree, leading),
    ensures
        before.holds(tree, point) <==> after.holds(tree, point) || has_point(leading, point),
{
    if before.waits(tree, point) {
        let node = choose|node: int| #[trigger]
            before.bounds().contains_key(node) && tree.covers(node, point);
        assert(after.bounds().contains_key(node));
        assert(after.covered(tree, point));
    }
    if after.waits(tree, point) {
        let node = choose|node: int| #[trigger]
            after.bounds().contains_key(node) && tree.covers(node, point);
        assert(before.bounds().contains_key(node));
        assert(before.covered(tree, point));
    }
    if has_point(leading, point) {
        let i = choose|i: int| 0 <= i < leading.len() && (#[trigger] leading[i]).0 == point;
        assert(before.scores().contains_key(leading[i].0 as int));
    }
    assert(after.scores().contains_key(point) == (before.scores().contains_key(point) && !has_point(
        leading,
        point,
    )));
}

/// Puts points that were taken back.
fn restore_leading(frontier: &mut Frontier, tree: &NodeTree, leading: &Vec<(usize, i64)>)
    requires
        tree.wf(),
        old(frontier).wf(*tree),
        forall|i: int|
            0 <= i < leading@.len() ==> {
                &&& (#[trigger] leading@[i]).0 < tree.ids@.len()
                &&& old(frontier).seen()[leading@[i].0 as int]
                &&& !old(frontier).scores().contains_key(leading@[i].0 as int)
            },
        forall|i: int, j: int|
            0 <= i < j < leading@.len() ==> (#[trigger] leading@[i]).0 != (
            #[trigger] leading@[j]).0,
    ensures
        final(frontier).wf(*tree),
        final(frontier).bounds() == old(frontier).bounds(),
        final(frontier).seen() == old(frontier).seen(),
        final(frontier).expanded() == old(frontier).expanded(),
        final(frontier).loose() == old(frontier).loose(),
        final(frontier).counters() == old(frontier).counters(),
        final(frontier).pending_nodes() == old(frontier).pending_nodes(),
        final(frontier).pending_points() == old(frontier).pending_points() + leading@.len(),
        forall|point: int| #[trigger]
            final(frontier).scores().contains_key(point) <==> old(frontier).scores().contains_key(
                point,
            ) || has_point(leading@, point),
        forall|point: int| #[trigger]
            old(frontier).scores().contains_key(point) ==> final(frontier).scores()[point] == old(frontier).scores()[point],
        forall|i: int|
            0 <= i < leading@.len() ==> final(frontier).scores()[(
            #[trigger] leading@[i]).0 as int] == leading@[i].1,
{
    let mut i: usize = 0;
    while i < leading.len()
        invariant
            tree.wf(),
            frontier.wf(*tree),
            i <= leading@.len(),
            frontier.bounds() == old(frontier).bounds(),
            frontier.seen() == old(frontier).seen(),
            frontier.expanded() == old(frontier).expanded(),
            frontier.loose() == old(frontier).loose(),
            frontier.counters() == old(frontier).counters(),
            frontier.pending_nodes() == old(frontier).pending_nodes(),
            frontier.pending_points() == old(frontier).pending_points() + i,
            forall|k: int|
                0 <= k < leading@.len() ==> {
                    &&& (#[trigger] leading@[k]).0 < tree.ids@.len()
                    &&& old(frontier).seen()[leading@[k].0 as int]
                    &&& !old(frontier).scores().contains_key(leading@[k].0 as int)
                },
            forall|k: int, j: int|
                0 <= k < j < leading@.len() ==> (#[trigger] leading@[k]).0 != (
                #[trigger] leading@[j]).0,
            forall|point: int| #[trigger]
                frontier.scores().contains_key(point) <==> old(frontier).scores().contains_key(
                    point,
                ) || has_point(leading@.take(i as int), point),
            forall|point: int| #[trigger]
                old(frontier).scores().contains_key(point) ==> frontier.scores()[point] == old(frontier).scores()[point],
            forall|k: int|
                0 <= k < i ==> frontier.scores()[(#[trigger] leading@[k]).0 as int]
                    == leading@[k].1,
        decreases leading@.len() - i,
    {
        let (point, score) = leading[i];
        let ghost before = *frontier;
        proof {
            let _ = leading@[i as int];
            assert(!frontier.scores().contains_key(point as int)) by {
                if has_point(leading@.take(i as int), point as int) {
                    let k = choose|k: int|
                        0 <= k < i && (#[trigger] leading@.take(i as int)[k]).0 == point as int;
                    assert(leading@[k].0 == leading@[i as int].0);
                }
            }
        }
        frontier.restore(tree, point, score);
        proof {
            let shorter = leading@.take(i as int);
            let longer = leading@.take(i + 1);
            assert forall|other: int| #[trigger] frontier.scores().contains_key(other) <==> old(frontier).scores().contains_key(other) || has_point(longer, other) by {
                assert(longer[i as int].0 == point);
                if has_point(shorter, other) {
                    let k = choose|k: int| 0 <= k < i && (#[trigger] shorter[k]).0 == other;
                    assert(longer[k].0 == other);
                }
                if has_point(longer, other) && other != point {
                    let k = choose|k: int| 0 <= k < i + 1 && (#[trigger] longer[k]).0 == other;
                    assert(shorter[k].0 == other);
                }
                assert(before.scores().contains_key(other) == (old(frontier).scores().contains_key(other) || has_point(shorter, other)));
            }
            assert forall|k: int| 0 <= k < i + 1 implies frontier.scores()[(
            #[trigger] leading@[k]).0 as int] == leading@[k].1 by {
                if k < i {
                    assert(leading@[k].0 != leading@[i as int].0);
                }
            }
        }
        i += 1;
    }
    assert(leading@.take(i as int) =~= leading@);
}

/// Taking points and putting them back changes nothing.
proof fn lemma_restored(
    before: Frontier,
    popped: Frontier,
    after: Frontier,
    tree: NodeTree,
    leading: Seq<(usize, i64)>,
)
    requires
        before.settled(),
        takes_leading(before, popped, tree, leading),
        after.bounds() == popped.bounds(),
        after.seen() == popped.seen(),
        after.loose() == popped.loose(),
        forall|point: int| #[trigger]
            after.scores().contains_key(point) <==> popped.scores().contains_key(point)
                || has_point(leading, point),
        forall|point: int| #[trigger]
            popped.scores().contains_key(point) ==> after.scores()[point]
                == popped.scores()[point],
        forall|i: int|
            0 <= i < leading.len() ==> after.scores()[(#[trigger] leading[i]).0 as int]
                == leading[i].1,
    ensures
        after.scores() =~= before.scores(),
        forall|point: int| #[trigger] before.holds(tree, point) <==> after.holds(tree, point),
{
    assert forall|point: int| #[trigger] after.scores().contains_key(point)
        <==> before.scores().contains_key(point) by {
        assert(popped.scores().contains_key(point) == (before.scores().contains_key(point)
            && !has_point(leading, point)));
        if has_point(leading, point) {
            let i = choose|i: int| 0 <= i < leading.len() && (#[trigger] leading[i]).0 == point;
            assert(before.scores().contains_key(leading[i].0 as int));
        }
    }
    assert forall|point: int| #[trigger] after.scores().contains_key(point) implies after.scores()[point]
        == before.scores()[point] by {
        if has_point(leading, point) {
            let i = choose|i: int| 0 <= i < leading.len() && (#[trigger] leading[i]).0 == point;
            assert(before.scores()[leading[i].0 as int] == leading[i].1);
        } else {
            assert(popped.scores().contains_key(point));
        }
    }
    assert(after.scores() =~= before.scores());
    assert forall|point: int| #[trigger] before.holds(tree, point) <==> after.holds(tree, point) by {
        if before.waits(tree, point) {
            let node = choose|node: int| #[trigger]
                before.bounds().contains_key(node) && tree.covers(node, point);
            assert(after.bounds().contains_key(node));
            assert(after.covered(tree, point));
        }
        if after.waits(tree, point) {
            let node = choose|node: int| #[trigger]
                after.bounds().contains_key(node) && tree.covers(node, point);
            assert(before.bounds().contains_key(node));
            assert(before.covered(tree, point));
        }
    }
}

/// Leading points whose last settles are certified.
proof fn lemma_leading_is_certified(
    before: Frontier,
    after: Frontier,
    tree: NodeTree,
    leading: Seq<(usize, i64)>,
    bounds: spec_fn(int) -> Option<i64>,
    scores: spec_fn(int) -> Option<i64>,
)
    requires
        tree.wf(),
        before.wf(tree),
        after.wf(tree),
        before.settled(),
        before.agrees(bounds, scores),
        crate::frontier::admissible(tree, bounds, scores),
        takes_leading(before, after, tree, leading),
        leading.len() > 0,
        after.settles(tree, leading.last().0 as int, leading.last().1),
    ensures
        after.agrees(bounds, scores),
        certified_in_order(after, tree, leading, scores),
{
    assert forall|node: int| #[trigger] after.bounds().contains_key(node) implies bounds(node)
        == Some(after.bounds()[node]) by {
        assert(before.bounds().contains_key(node));
    }
    assert forall|point: int| #[trigger] after.scores().contains_key(point) implies scores(point)
        == Some(after.scores()[point]) by {
        assert(before.scores().contains_key(point));
    }
    assert forall|i: int, other: int|
        0 <= i < leading.len() && #[trigger] after.holds(tree, other) && scores(other)
            is Some implies tree.before(
        (#[trigger] leading[i]).0 as int,
        leading[i].1,
        other,
        scores(other)->0,
    ) by {
        let last = leading.len() - 1;
        if after.scores().contains_key(other) {
            assert(tree.before(leading[i].0 as int, leading[i].1, other, after.scores()[other]));
        } else {
            assert(after.waits(tree, other));
            let node = choose|node: int| #[trigger]
                after.bounds().contains_key(node) && tree.covers(node, other);
            after.lemma_pending_is_node(tree, node);
            assert(tree.node_wf(node));
            assert(scores(other)->0 <= bounds(node)->0);
            assert(tree.nodes@[node].min_id <= tree.ids@[other]);
            assert(tree.before(
                leading[last].0 as int,
                leading[last].1,
                other,
                scores(other)->0,
            ));
            if i < last {
                assert(tree.before(
                    leading[i].0 as int,
                    leading[i].1,
                    leading[last].0 as int,
                    leading[last].1,
                ));
            }
        }
    }
}

proof fn lemma_held_is_finite(frontier: Frontier, tree: NodeTree, certified: Seq<(usize, i64)>)
    requires
        tree.wf(),
        frontier.wf(tree),
        forall|i: int| 0 <= i < certified.len() ==> (#[trigger] certified[i]).0 < tree.ids@.len(),
    ensures
        all_held(frontier, tree, certified).finite(),
{
    let all = vstd::set_lib::set_int_range(0, tree.ids@.len() as int);
    vstd::set_lib::lemma_int_range(0, tree.ids@.len() as int);
    let held = all_held(frontier, tree, certified);
    assert forall|point: int| held.contains(point) implies all.contains(point) by {
        if frontier.holds(tree, point) {
            frontier.lemma_held_is_point(tree, point);
        }
    }
    assert(held.subset_of(all));
    vstd::set_lib::lemma_len_subset(held, all);
}

} // verus!
