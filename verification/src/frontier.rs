//! Best-first search over a tree of blocks of points.
//!
//! Every block carries an upper bound of the scores of its points. The search opens
//! the block with the highest bound until no unopened block can hold a point that
//! belongs before the best scored one.

use crate::operation_error::{OperationError, OperationResult};
use crate::order::ExtendedPointId;
use crate::rank_queue::{RankEntry, RankQueue};
use crate::reciprocal_rank_fusion::types::ExactRrfStream;
use vstd::prelude::*;

verus! {

/// Where the keys of numbered things come from.
pub trait KeySource {
    /// Whether the key at a place can be asked for.
    spec fn defined(&self, place: int) -> bool;

    /// Whether a key can be the answer for a place.
    spec fn gives(&self, place: int, key: i64) -> bool;

    /// The key at a place.
    fn key(&self, place: usize) -> (key: i64)
        requires
            self.defined(place as int),
        ensures
            self.gives(place as int, key),
    ;
}

/// Keys in memory.
#[derive(Debug)]
pub struct KeyTable {
    pub keys: Vec<i64>,
}

impl KeySource for KeyTable {
    open spec fn defined(&self, place: int) -> bool {
        0 <= place < self.keys@.len()
    }

    open spec fn gives(&self, place: int, key: i64) -> bool {
        self.keys@[place] == key
    }

    fn key(&self, place: usize) -> (key: i64) {
        self.keys[place]
    }
}

/// Keys that a function computes.
pub struct KeyFunction<F> {
    pub function: F,
}

impl<F: Fn(usize) -> i64> KeySource for KeyFunction<F> {
    open spec fn defined(&self, place: int) -> bool {
        self.function.requires((place as usize,))
    }

    open spec fn gives(&self, place: int, key: i64) -> bool {
        self.function.ensures((place as usize,), key)
    }

    fn key(&self, place: usize) -> (key: i64) {
        let function = &self.function;
        function(place)
    }
}

/// A block of consecutive points; one without children is a leaf.
#[derive(Clone, Debug)]
pub struct TreeNode {
    pub start: usize,
    pub end: usize,
    /// The smallest identity in the block.
    pub min_id: u32,
    pub children: Vec<usize>,
}

/// A forest of blocks over numbered points.
#[derive(Clone, Debug)]
pub struct NodeTree {
    /// The identity of every point.
    pub ids: Vec<u32>,
    pub nodes: Vec<TreeNode>,
    pub roots: Vec<usize>,
}

/// Whether an identity is the smallest of those in a range.
pub open spec fn is_min_id(ids: Seq<u32>, start: int, end: int, min_id: u32) -> bool {
    &&& exists|at: int| start <= at < end && #[trigger] ids[at] == min_id
    &&& forall|at: int| start <= at < end ==> min_id <= #[trigger] ids[at]
}

/// Whether a list of blocks covers a range from left to right, without gaps.
pub open spec fn tiles(nodes: Seq<TreeNode>, list: Seq<usize>, start: int, end: int) -> bool {
    &&& forall|i: int| 0 <= i < list.len() ==> #[trigger] list[i] < nodes.len()
    &&& list.len() == 0 ==> start == end
    &&& list.len() > 0 ==> nodes[list[0] as int].start == start && nodes[list.last() as int].end
        == end
    &&& forall|i: int|
        0 < i < list.len() ==> nodes[list[i - 1] as int].end == nodes[(
        #[trigger] list[i]) as int].start
}

impl NodeTree {
    /// Whether a block holds points, knows its smallest identity, and is covered by
    /// its children, which have smaller numbers.
    pub open spec fn node_wf(&self, node: int) -> bool {
        let block = self.nodes@[node];
        &&& block.start < block.end <= self.ids@.len()
        &&& is_min_id(self.ids@, block.start as int, block.end as int, block.min_id)
        &&& block.children@.len() > 0 ==> tiles(
            self.nodes@,
            block.children@,
            block.start as int,
            block.end as int,
        )
        &&& forall|i: int|
            0 <= i < block.children@.len() ==> #[trigger] block.children@[i] < node
    }

    /// Whether the blocks are a forest over all points, and no identity occurs twice.
    pub open spec fn wf(&self) -> bool {
        &&& self.ids@.no_duplicates()
        &&& self.ids@.len() <= usize::MAX
        &&& self.nodes@.len() <= usize::MAX
        &&& forall|node: int| 0 <= node < self.nodes@.len() ==> #[trigger] self.node_wf(node)
        &&& tiles(self.nodes@, self.roots@, 0, self.ids@.len() as int)
    }

    /// Whether a point stands in a block.
    pub open spec fn covers(&self, node: int, point: int) -> bool {
        self.nodes@[node].start <= point < self.nodes@[node].end
    }

    /// Whether two blocks share no point.
    pub open spec fn apart(&self, left: int, right: int) -> bool {
        self.nodes@[left].end <= self.nodes@[right].start || self.nodes@[right].end
            <= self.nodes@[left].start
    }

    /// The queue entry of a block.
    pub open spec fn node_entry(&self, node: int, bound: i64) -> RankEntry {
        RankEntry {
            score: bound,
            id: ExtendedPointId::NumId(self.nodes@[node].min_id as u64),
            slot: node as usize,
        }
    }

    /// The queue entry of a point.
    pub open spec fn point_entry(&self, point: int, score: i64) -> RankEntry {
        RankEntry {
            score,
            id: ExtendedPointId::NumId(self.ids@[point] as u64),
            slot: point as usize,
        }
    }

    /// Whether one scored point belongs before another.
    pub open spec fn before(
        &self,
        left: int,
        left_score: i64,
        right: int,
        right_score: i64,
    ) -> bool {
        left_score > right_score || left_score == right_score && self.ids@[left] < self.ids@[right]
    }
}

/// Whether blocks of one size stand in a row.
pub open spec fn in_blocks(tree: NodeTree, ids: Seq<u32>, block_size: usize) -> bool {
    &&& tree.ids@ == ids
    &&& tree.roots@.len() == tree.nodes@.len()
    &&& forall|i: int| 0 <= i < tree.roots@.len() ==> #[trigger] tree.roots@[i] == i
    &&& forall|i: int|
        0 <= i < tree.nodes@.len() ==> {
            let block = #[trigger] tree.nodes@[i];
            &&& block.children@.len() == 0
            &&& block.start == i * block_size
            &&& block.end == (if (i + 1) * block_size <= ids.len() {
                (i + 1) * block_size
            } else {
                ids.len() as int
            })
        }
}

impl NodeTree {
    /// Leaves of one size in a row; the last may be smaller.
    pub fn blocks(ids: Vec<u32>, block_size: usize) -> (tree: NodeTree)
        requires
            ids@.no_duplicates(),
            block_size > 0,
        ensures
            tree.wf(),
            in_blocks(tree, ids@, block_size),
    {
        let count: usize = ids.len();
        let mut nodes: Vec<TreeNode> = Vec::new();
        let mut roots: Vec<usize> = Vec::new();
        let mut start: usize = 0;
        while start < count
            invariant
                block_size > 0,
                count == ids@.len(),
                start <= count,
                roots@.len() == nodes@.len(),
                nodes@.len() <= start,
                start == nodes@.len() * block_size || start == count,
                nodes@.len() > 0 ==> nodes@.last().end == start,
                nodes@.len() > 0 ==> nodes@[0].start == 0,
                nodes@.len() == 0 ==> start == 0,
                forall|i: int| 0 <= i < roots@.len() ==> #[trigger] roots@[i] == i,
                forall|i: int|
                    0 < i < nodes@.len() ==> nodes@[i - 1].end == (#[trigger] nodes@[i]).start,
                forall|i: int|
                    0 <= i < nodes@.len() ==> {
                        let block = #[trigger] nodes@[i];
                        &&& block.children@.len() == 0
                        &&& block.start == i * block_size
                        &&& block.start < block.end <= count
                        &&& block.end == (if (i + 1) * block_size <= ids@.len() {
                            (i + 1) * block_size
                        } else {
                            ids@.len() as int
                        })
                        &&& is_min_id(
                            ids@,
                            block.start as int,
                            block.end as int,
                            block.min_id,
                        )
                    },
            decreases count - start,
        {
            let end: usize = if count - start <= block_size {
                count
            } else {
                start + block_size
            };
            let min_id = smallest_id(&ids, start, end);
            let ghost before = nodes@;
            let ghost index = nodes@.len() as int;
            proof {
                assert(start == index * block_size) by {
                    if start == count {
                        assert(false);
                    }
                }
                assert((index + 1) * block_size == index * block_size + block_size)
                    by (nonlinear_arith);
            }
            roots.push(nodes.len());
            nodes.push(TreeNode { start, end, min_id, children: Vec::new() });
            proof {
                assert forall|i: int| 0 < i < nodes@.len() implies nodes@[i - 1].end == (
                #[trigger] nodes@[i]).start by {
                    if i < index {
                        assert(nodes@[i] == before[i]);
                        assert(nodes@[i - 1] == before[i - 1]);
                    } else {
                        assert(nodes@[i - 1] == before.last());
                    }
                }
            }
            start = end;
        }
        let tree = NodeTree { ids, nodes, roots };
        proof {
            assert(tree.nodes.len() <= usize::MAX);
            assert(tree.ids.len() <= usize::MAX);
            assert forall|node: int| 0 <= node < tree.nodes@.len() implies #[trigger] tree.node_wf(
                node,
            ) by {
                let block = tree.nodes@[node];
            }
            assert(tiles(tree.nodes@, tree.roots@, 0, tree.ids@.len() as int)) by {
                assert forall|i: int| 0 < i < tree.roots@.len() implies tree.nodes@[tree.roots@[i
                    - 1] as int].end == tree.nodes@[(#[trigger] tree.roots@[i]) as int].start by {
                    assert(tree.roots@[i - 1] == i - 1);
                    assert(nodes@[i - 1].end == nodes@[i].start);
                }
                if tree.roots@.len() > 0 {
                    assert(tree.roots@[0] == 0);
                    assert(tree.roots@[tree.roots@.len() - 1] == tree.roots@.len() - 1);
                }
            }
        }
        tree
    }
}

/// The smallest identity in a range.
pub fn smallest_id(ids: &Vec<u32>, start: usize, end: usize) -> (min_id: u32)
    requires
        start < end <= ids@.len(),
    ensures
        is_min_id(ids@, start as int, end as int, min_id),
{
    let mut min_id: u32 = ids[start];
    let mut i: usize = start + 1;
    while i < end
        invariant
            start < i <= end <= ids@.len(),
            is_min_id(ids@, start as int, i as int, min_id),
        decreases end - i,
    {
        if ids[i] < min_id {
            min_id = ids[i];
            assert(ids@[i as int] == min_id);
        } else {
            let ghost at = choose|at: int| start <= at < i && #[trigger] ids@[at] == min_id;
            assert(ids@[at] == min_id);
        }
        i += 1;
    }
    min_id
}

/// What no bound of a block is below: a block without a bound holds no scored
/// point, and every score in a block is at most its bound.
pub open spec fn admissible(
    tree: NodeTree,
    bounds: spec_fn(int) -> Option<i64>,
    scores: spec_fn(int) -> Option<i64>,
) -> bool {
    forall|node: int, point: int|
        0 <= node < tree.nodes@.len() && tree.covers(node, point) && #[trigger] scores(point)
            is Some ==> #[trigger] bounds(node) is Some && scores(point)->0 <= bounds(node)->0
}

/// The parts of a cover end inside the covered range.
proof fn lemma_tile_ends(tree: NodeTree, list: Seq<usize>, start: int, end: int, i: int)
    requires
        tree.wf(),
        tiles(tree.nodes@, list, start, end),
        0 <= i < list.len(),
    ensures
        start <= tree.nodes@[list[i] as int].start,
        tree.nodes@[list[i] as int].end <= end,
    decreases list.len() - i,
{
    lemma_tile_starts(tree, list, start, end, i);
    if i + 1 < list.len() {
        lemma_tile_ends(tree, list, start, end, i + 1);
        let following = list[i + 1];
        assert(tree.nodes@[list[i] as int].end == tree.nodes@[following as int].start);
        assert(tree.node_wf(following as int));
    }
}

proof fn lemma_tile_starts(tree: NodeTree, list: Seq<usize>, start: int, end: int, i: int)
    requires
        tree.wf(),
        tiles(tree.nodes@, list, start, end),
        0 <= i < list.len(),
    ensures
        start <= tree.nodes@[list[i] as int].start,
    decreases i,
{
    if i > 0 {
        lemma_tile_starts(tree, list, start, end, i - 1);
        let here = list[i];
        assert(tree.nodes@[list[i - 1] as int].end == tree.nodes@[here as int].start);
        assert(tree.node_wf(list[i - 1] as int));
    }
}

/// Every point of a covered range stands in some part of the cover.
pub proof fn lemma_tile_covers(
    tree: NodeTree,
    list: Seq<usize>,
    start: int,
    end: int,
    i: int,
    point: int,
) -> (at: int)
    requires
        tree.wf(),
        tiles(tree.nodes@, list, start, end),
        0 <= i < list.len(),
        tree.nodes@[list[i] as int].start <= point < end,
    ensures
        i <= at < list.len(),
        tree.covers(list[at] as int, point),
    decreases list.len() - i,
{
    if point < tree.nodes@[list[i] as int].end {
        i
    } else {
        assert(i + 1 < list.len());
        let following = list[i + 1];
        assert(tree.nodes@[list[i] as int].end == tree.nodes@[following as int].start);
        lemma_tile_covers(tree, list, start, end, i + 1, point)
    }
}

/// The opened blocks that are leaves.
pub open spec fn opened_leaves(tree: NodeTree, expanded: Set<int>) -> Set<int> {
    expanded.filter(|node: int| tree.nodes@[node].children@.len() == 0)
}

/// The points that were seen.
pub open spec fn seen_points(seen: Seq<bool>) -> Set<int> {
    Set::new(|point: int| 0 <= point < seen.len() && seen[point])
}

/// The points of a block that were seen.
pub open spec fn seen_in(tree: NodeTree, node: int, seen: Seq<bool>) -> Set<int> {
    Set::new(|point: int| tree.covers(node, point) && seen[point])
}

/// What opening a block counts: the points of a leaf that were seen before, the blocks that
/// wait then, and the most blocks and points that have waited.
pub open spec fn counts_opening(
    before: Frontier,
    tree: NodeTree,
    node: int,
    reused: usize,
    after: Frontier,
) -> bool {
    let is_leaf = tree.nodes@[node].children@.len() == 0;
    &&& is_leaf ==> reused == seen_in(tree, node, before.seen()).len()
    &&& !is_leaf ==> reused == 0 && after.seen() == before.seen()
    &&& forall|other: int| #[trigger]
        after.bounds().contains_key(other) ==> before.bounds().contains_key(other) && other != node
            || !is_leaf && lies_in(tree, other, node)
    &&& after.counters().3 == larger(
        before.counters().3,
        if is_leaf {
            0
        } else {
            after.pending_nodes()
        },
    )
    &&& after.counters().4 == larger(
        before.counters().4,
        if is_leaf {
            after.pending_points()
        } else {
            0
        },
    )
}

/// Whether every point of a block is one of another.
pub open spec fn lies_in(tree: NodeTree, inner: int, outer: int) -> bool {
    forall|point: int| #[trigger] tree.covers(inner, point) ==> tree.covers(outer, point)
}

/// The larger of two counts.
pub open spec fn larger(left: usize, right: nat) -> nat {
    if left < right {
        right
    } else {
        left as nat
    }
}

/// Whether the points that were seen since were in blocks that were opened since.
pub open spec fn sees_opened(
    tree: NodeTree,
    opened: Set<int>,
    seen: Seq<bool>,
    later_opened: Set<int>,
    later_seen: Seq<bool>,
) -> bool {
    &&& later_seen.len() == seen.len()
    &&& forall|point: int|
        0 <= point < seen.len() && seen[point] ==> #[trigger] later_seen[point]
    &&& forall|point: int|
        0 <= point < seen.len() && #[trigger] later_seen[point] && !seen[point] ==> opened_for(
            tree,
            opened,
            later_opened,
            point,
        )
}

/// Whether a block with the point was opened since.
pub open spec fn opened_for(
    tree: NodeTree,
    opened: Set<int>,
    later_opened: Set<int>,
    point: int,
) -> bool {
    exists|node: int|
        #![trigger later_opened.contains(node)]
        {
            &&& later_opened.contains(node)
            &&& !opened.contains(node)
            &&& 0 <= node < tree.nodes@.len()
            &&& tree.covers(node, point)
        }
}

proof fn lemma_sees_one_more(
    tree: NodeTree,
    opened: Set<int>,
    seen: Seq<bool>,
    between_opened: Set<int>,
    between_seen: Seq<bool>,
    node: int,
    later_seen: Seq<bool>,
)
    requires
        opened.subset_of(between_opened),
        sees_opened(tree, opened, seen, between_opened, between_seen),
        !between_opened.contains(node),
        0 <= node < tree.nodes@.len(),
        later_seen.len() == between_seen.len(),
        forall|point: int|
            0 <= point < between_seen.len() && between_seen[point] ==> #[trigger] later_seen[point],
        forall|point: int|
            0 <= point < between_seen.len() && #[trigger] later_seen[point]
                ==> between_seen[point] || tree.covers(node, point),
    ensures
        sees_opened(tree, opened, seen, between_opened.insert(node), later_seen),
{
    let later = between_opened.insert(node);
    assert forall|point: int|
        0 <= point < seen.len() && #[trigger] later_seen[point] && !seen[point] implies opened_for(
        tree,
        opened,
        later,
        point,
    ) by {
        if between_seen[point] {
            let other = choose|other: int|
                #![trigger between_opened.contains(other)]
                {
                    &&& between_opened.contains(other)
                    &&& !opened.contains(other)
                    &&& 0 <= other < tree.nodes@.len()
                    &&& tree.covers(other, point)
                };
            assert(later.contains(other));
        } else {
            assert(later.contains(node));
        }
    }
}

/// Seeing a point adds it to those that were seen, of which there are no more than
/// points.
pub proof fn lemma_seen_points(seen: Seq<bool>, point: int)
    requires
        0 <= point < seen.len(),
        !seen[point],
    ensures
        seen_points(seen.update(point, true)).len() == seen_points(seen).len() + 1,
        seen_points(seen).len() < seen.len(),
{
    let all = vstd::set_lib::set_int_range(0, seen.len() as int);
    vstd::set_lib::lemma_int_range(0, seen.len() as int);
    let before = seen_points(seen);
    let after = seen_points(seen.update(point, true));
    assert(after =~= before.insert(point));
    assert(before.subset_of(all));
    vstd::set_lib::lemma_len_subset(before, all);
    assert(after.subset_of(all));
    vstd::set_lib::lemma_len_subset(after, all);
}

/// Whether a function computes the given bounds.
pub open spec fn computes_bounds<G: KeySource>(
    bound: &G,
    tree: NodeTree,
    bounds: spec_fn(int) -> Option<i64>,
) -> bool {
    forall|node: int, value: i64|
        0 <= node < tree.nodes@.len() && #[trigger] bound.gives(node, value) ==> bounds(node)
            == Some(value)
}

/// Whether a function computes the given scores.
pub open spec fn computes_scores<F: KeySource>(
    scorer: &F,
    tree: NodeTree,
    scores: spec_fn(int) -> Option<i64>,
) -> bool {
    forall|point: int, value: i64|
        0 <= point < tree.ids@.len() && #[trigger] scorer.gives(point, value) ==> scores(point)
            == Some(value)
}

/// The unopened blocks and the scored points of a search.
pub struct Frontier {
    nodes: RankQueue,
    points: RankQueue,
    seen: Vec<bool>,
    leaves_opened: usize,
    nodes_opened: usize,
    points_scored: usize,
    most_nodes: usize,
    most_points: usize,
    bounds: Ghost<Map<int, i64>>,
    scores: Ghost<Map<int, i64>>,
    expanded: Ghost<Set<int>>,
    loose: Ghost<Set<int>>,
}

impl Frontier {
    /// The bounds of the unopened blocks.
    pub closed spec fn bounds(&self) -> Map<int, i64> {
        self.bounds@
    }

    /// The scores of the points that wait to be emitted.
    pub closed spec fn scores(&self) -> Map<int, i64> {
        self.scores@
    }

    /// The blocks that were opened.
    pub closed spec fn expanded(&self) -> Set<int> {
        self.expanded@
    }

    /// The points of opened blocks that were not scored or dismissed.
    pub closed spec fn loose(&self) -> Set<int> {
        self.loose@
    }

    /// Which points were scored or dismissed.
    pub closed spec fn seen(&self) -> Seq<bool> {
        self.seen@
    }

    /// Whether a point was not emitted and not dismissed.
    pub open spec fn holds(&self, tree: NodeTree, point: int) -> bool {
        ||| self.scores().contains_key(point)
        ||| self.loose().contains(point)
        ||| self.waits(tree, point)
    }

    /// Whether a point stands in an unopened block and was not scored.
    pub open spec fn waits(&self, tree: NodeTree, point: int) -> bool {
        &&& 0 <= point < self.seen().len()
        &&& !self.seen()[point]
        &&& self.covered(tree, point)
    }

    /// Whether a point stands in an unopened block.
    pub open spec fn covered(&self, tree: NodeTree, point: int) -> bool {
        exists|node: int| #[trigger]
            self.bounds().contains_key(node) && tree.covers(node, point)
    }

    /// Whether the queues hold what the search knows of the tree.
    pub closed spec fn wf(&self, tree: NodeTree) -> bool {
        &&& self.nodes.wf()
        &&& self.points.wf()
        &&& self.seen@.len() == tree.ids@.len()
        &&& self.bounds@.dom().finite()
        &&& self.bounds@.dom().len() == self.nodes@.len()
        &&& self.scores@.dom().finite()
        &&& self.scores@.dom().len() == self.points@.len()
        &&& forall|entry: RankEntry| #[trigger]
            self.nodes@.count(entry) == (if self.is_node_entry(tree, entry) {
                1nat
            } else {
                0nat
            })
        &&& forall|entry: RankEntry| #[trigger]
            self.points@.count(entry) == (if self.is_point_entry(tree, entry) {
                1nat
            } else {
                0nat
            })
        &&& forall|node: int| #[trigger]
            self.bounds@.contains_key(node) ==> 0 <= node < tree.nodes@.len()
                && !self.expanded@.contains(node)
        &&& forall|left: int, right: int| #[trigger]
            self.bounds@.contains_key(left) && #[trigger] self.bounds@.contains_key(right) && left
                != right ==> tree.apart(left, right)
        &&& forall|node: int, opened: int| #[trigger]
            self.bounds@.contains_key(node) && #[trigger] self.expanded@.contains(opened)
                ==> tree.apart(node, opened) || opened > node
        &&& forall|node: int| #[trigger]
            self.expanded@.contains(node) ==> 0 <= node < tree.nodes@.len()
        &&& forall|point: int| #[trigger]
            self.scores@.contains_key(point) ==> 0 <= point < self.seen@.len()
                && self.seen@[point]
        &&& forall|point: int| #[trigger]
            self.loose@.contains(point) ==> 0 <= point < self.seen@.len() && !self.seen@[point]
        &&& forall|point: int, node: int| #[trigger]
            self.loose@.contains(point) && #[trigger] self.bounds@.contains_key(node)
                ==> !tree.covers(node, point)
    }

    closed spec fn is_node_entry(&self, tree: NodeTree, entry: RankEntry) -> bool {
        let node = entry.slot as int;
        &&& self.bounds@.contains_key(node)
        &&& entry == tree.node_entry(node, self.bounds@[node])
    }

    closed spec fn is_point_entry(&self, tree: NodeTree, entry: RankEntry) -> bool {
        let point = entry.slot as int;
        &&& self.scores@.contains_key(point)
        &&& entry == tree.point_entry(point, self.scores@[point])
    }

    /// A point that is left without a score was not seen.
    pub proof fn lemma_loose(&self, tree: NodeTree, point: int)
        requires
            self.wf(tree),
            self.loose().contains(point),
        ensures
            0 <= point < tree.ids@.len(),
            !self.seen()[point],
    {
        assert(self.loose@.contains(point));
    }

    /// A scored point that waits was seen.
    pub proof fn lemma_scored_was_seen(&self, tree: NodeTree, point: int)
        requires
            self.wf(tree),
            self.scores().contains_key(point),
        ensures
            0 <= point < tree.ids@.len(),
            self.seen()[point],
    {
        assert(self.scores@.contains_key(point));
    }

    /// Unopened blocks share no point.
    pub proof fn lemma_pending_apart(&self, tree: NodeTree, left: int, right: int)
        requires
            self.wf(tree),
            self.bounds().contains_key(left),
            self.bounds().contains_key(right),
            left != right,
        ensures
            tree.apart(left, right),
    {
        assert(self.bounds@.contains_key(left) && self.bounds@.contains_key(right));
    }

    /// Unopened blocks are blocks of the tree.
    pub proof fn lemma_pending_is_node(&self, tree: NodeTree, node: int)
        requires
            self.wf(tree),
            self.bounds().contains_key(node),
        ensures
            0 <= node < tree.nodes@.len(),
    {
        assert(self.bounds@.contains_key(node));
    }

    /// Where no block waits, none has a bound.
    pub proof fn lemma_no_pending(&self, tree: NodeTree)
        requires
            self.wf(tree),
            self.pending_nodes() == 0,
        ensures
            forall|node: int| !#[trigger] self.bounds().contains_key(node),
    {
        assert forall|node: int| !#[trigger] self.bounds().contains_key(node) by {
            if self.bounds().contains_key(node) {
                assert(self.bounds@.dom().contains(node));
                assert(self.bounds@.dom().len() > 0);
            }
        }
    }

    /// Where no scored point waits, none has a score.
    pub proof fn lemma_no_points(&self, tree: NodeTree)
        requires
            self.wf(tree),
        ensures
            self.pending_points() == 0 ==> forall|point: int| !#[trigger]
                self.scores().contains_key(point),
    {
        if self.pending_points() == 0 {
            assert forall|point: int| !#[trigger] self.scores().contains_key(point) by {
                if self.scores().contains_key(point) {
                    assert(self.scores@.dom().contains(point));
                    assert(self.scores@.dom().len() > 0);
                }
            }
        }
    }

    /// Of the blocks that were opened there are no more than blocks.
    pub proof fn lemma_opened_more(&self, tree: NodeTree, expanded: Set<int>, node: int)
        requires
            self.wf(tree),
            self.expanded() == expanded.insert(node),
            !expanded.contains(node),
        ensures
            self.expanded().len() == expanded.len() + 1,
            self.expanded().len() <= tree.nodes@.len(),
    {
        let all = vstd::set_lib::set_int_range(0, tree.nodes@.len() as int);
        vstd::set_lib::lemma_int_range(0, tree.nodes@.len() as int);
        assert(self.expanded().subset_of(all)) by {
            assert forall|other: int| self.expanded().contains(other) implies all.contains(
                other,
            ) by {
                assert(self.expanded@.contains(other));
            }
        }
        vstd::set_lib::lemma_len_subset(self.expanded(), all);
        assert(expanded =~= self.expanded().remove(node));
    }

    /// There is a mark for every point.
    pub proof fn lemma_seen_len(&self, tree: NodeTree)
        requires
            self.wf(tree),
        ensures
            self.seen().len() == tree.ids@.len(),
    {
    }

    /// What a search holds are points.
    pub proof fn lemma_held_is_point(&self, tree: NodeTree, point: int)
        requires
            self.wf(tree),
            self.holds(tree, point),
        ensures
            0 <= point < tree.ids@.len(),
    {
        assert(self.scores@.contains_key(point) || self.loose@.contains(point) || self.waits(
            tree,
            point,
        ));
    }

    /// Whether every known bound and score is that of the given functions.
    pub open spec fn agrees(
        &self,
        bounds: spec_fn(int) -> Option<i64>,
        scores: spec_fn(int) -> Option<i64>,
    ) -> bool {
        &&& forall|node: int| #[trigger]
            self.bounds().contains_key(node) ==> bounds(node) == Some(self.bounds()[node])
        &&& forall|point: int| #[trigger]
            self.scores().contains_key(point) ==> scores(point) == Some(self.scores()[point])
    }

    /// A search in which nothing was scored and no block is known.
    pub fn new(tree: &NodeTree) -> (frontier: Frontier)
        requires
            tree.wf(),
        ensures
            frontier.wf(*tree),
            frontier.bounds() == Map::<int, i64>::empty(),
            frontier.scores() == Map::<int, i64>::empty(),
            frontier.expanded() == Set::<int>::empty(),
            frontier.seen() == Seq::new(tree.ids@.len(), |point: int| false),
            frontier.pending_nodes() == 0,
            frontier.pending_points() == 0,
            frontier.counters() == (0usize, 0usize, 0usize, 0usize, 0usize),
            forall|point: int|
                frontier.loose().contains(point) <==> 0 <= point < tree.ids@.len(),
    {
        let seen = crate::tables::repeated(false, tree.ids.len());
        let frontier = Frontier {
            nodes: RankQueue::new(),
            points: RankQueue::new(),
            seen,
            leaves_opened: 0,
            nodes_opened: 0,
            points_scored: 0,
            most_nodes: 0,
            most_points: 0,
            bounds: Ghost(Map::empty()),
            scores: Ghost(Map::empty()),
            expanded: Ghost(Set::empty()),
            loose: Ghost(Set::new(|point: int| 0 <= point < tree.ids@.len())),
        };
        proof {
            assert(frontier.seen() =~= Seq::new(tree.ids@.len(), |point: int| false));
        }
        frontier
    }

    /// The number of unopened blocks.
    pub fn node_count(&self) -> (count: usize)
        ensures
            count == self.pending_nodes(),
    {
        self.nodes.len()
    }

    /// The number of scored points that wait.
    pub fn point_count(&self) -> (count: usize)
        ensures
            count == self.pending_points(),
    {
        self.points.len()
    }

    /// The number of unopened blocks.
    pub closed spec fn pending_nodes(&self) -> nat {
        self.nodes@.len()
    }

    /// The number of scored points that wait.
    pub closed spec fn pending_points(&self) -> nat {
        self.points@.len()
    }

    /// Whether a point was scored or dismissed.
    pub fn was_seen(&self, point: usize) -> (seen: bool)
        requires
            point < self.seen().len(),
        ensures
            seen == self.seen()[point as int],
    {
        self.seen[point]
    }

    /// Adds an unopened block.
    pub fn push_node(&mut self, tree: &NodeTree, node: usize, bound: i64)
        requires
            tree.wf(),
            old(self).wf(*tree),
            node < tree.nodes@.len(),
            !old(self).expanded().contains(node as int),
            forall|other: int| #[trigger]
                old(self).bounds().contains_key(other) ==> other != node && tree.apart(
                    other,
                    node as int,
                ),
            forall|opened: int| #[trigger]
                old(self).expanded().contains(opened) ==> tree.apart(node as int, opened)
                    || opened > node,
        ensures
            final(self).wf(*tree),
            final(self).bounds() == old(self).bounds().insert(node as int, bound),
            final(self).scores() == old(self).scores(),
            final(self).expanded() == old(self).expanded(),
            final(self).seen() == old(self).seen(),
            final(self).pending_nodes() == old(self).pending_nodes() + 1,
            final(self).pending_points() == old(self).pending_points(),
            final(self).counters() == old(self).counters(),
            forall|point: int| #[trigger]
                final(self).loose().contains(point) <==> old(self).loose().contains(point)
                    && !tree.covers(node as int, point),
    {
        let entry = RankEntry {
            score: bound,
            id: ExtendedPointId::NumId(tree.nodes[node].min_id as u64),
            slot: node,
        };
        let ghost before = *self;
        self.nodes.push(entry);
        self.bounds = Ghost(self.bounds@.insert(node as int, bound));
        self.loose = Ghost(
            self.loose@.difference(Set::new(|point: int| tree.covers(node as int, point))),
        );
        proof {
            assert(!before.bounds().contains_key(node as int));
            assert forall|left: int, right: int| #[trigger]
                self.bounds@.contains_key(left) && #[trigger] self.bounds@.contains_key(right)
                    && left != right implies tree.apart(left, right) by {
                assert(left == node || before.bounds().contains_key(left));
                assert(right == node || before.bounds().contains_key(right));
            }
            assert forall|other: int, opened: int| #[trigger]
                self.bounds@.contains_key(other) && #[trigger] self.expanded@.contains(
                    opened,
                ) implies tree.apart(other, opened) || opened > other by {
                assert(other == node || before.bounds@.contains_key(other));
                assert(before.expanded().contains(opened));
            }
            assert forall|other: RankEntry| #[trigger]
                self.nodes@.count(other) == (if self.is_node_entry(*tree, other) {
                    1nat
                } else {
                    0nat
                }) by {
                assert(before.nodes@.count(other) == (if before.is_node_entry(*tree, other) {
                    1nat
                } else {
                    0nat
                }));
            }
            assert forall|other: RankEntry| #[trigger]
                self.points@.count(other) == (if self.is_point_entry(*tree, other) {
                    1nat
                } else {
                    0nat
                }) by {
                assert(before.points@.count(other) == (if before.is_point_entry(*tree, other) {
                    1nat
                } else {
                    0nat
                }));
            }
        }
    }

    /// Takes the unopened block with the highest bound, of equal bounds the one with
    /// the smallest identity.
    pub fn pop_node(&mut self, tree: &NodeTree) -> (popped: Option<(usize, i64)>)
        requires
            tree.wf(),
            old(self).wf(*tree),
        ensures
            final(self).wf(*tree),
            popped is None <==> old(self).pending_nodes() == 0,
            popped is None ==> *final(self) == *old(self) && old(self).bounds() == Map::<
                int,
                i64,
            >::empty(),
            popped matches Some((node, bound)) ==> {
                &&& old(self).bounds().contains_key(node as int)
                &&& node < tree.nodes@.len()
                &&& !old(self).expanded().contains(node as int)
                &&& old(self).bounds()[node as int] == bound
                &&& forall|other: int| #[trigger]
                    old(self).bounds().contains_key(other) ==> !tree.node_entry(
                        other,
                        old(self).bounds()[other],
                    ).precedes(tree.node_entry(node as int, bound))
                &&& final(self).bounds() == old(self).bounds().remove(node as int)
                &&& final(self).scores() == old(self).scores()
                &&& final(self).expanded() == old(self).expanded().insert(node as int)
                &&& final(self).seen() == old(self).seen()
                &&& final(self).counters() == old(self).counters()
                &&& final(self).pending_nodes() + 1 == old(self).pending_nodes()
                &&& final(self).pending_points() == old(self).pending_points()
                &&& forall|point: int| #[trigger]
                    final(self).loose().contains(point) <==> old(self).loose().contains(point) || (
                    tree.covers(node as int, point) && !old(self).seen()[point])
            },
    {
        let ghost before = *self;
        match self.nodes.pop() {
            None => {
                proof {
                    assert forall|node: int| !self.bounds@.contains_key(node) by {
                        if self.bounds@.contains_key(node) {
                            let entry = tree.node_entry(node, self.bounds@[node]);
                            assert(before.is_node_entry(*tree, entry));
                            assert(before.nodes@.count(entry) == 1);
                        }
                    }
                    assert(self.bounds@ =~= Map::<int, i64>::empty());
                }
                None
            },
            Some(entry) => {
                let node: usize = entry.slot;
                let bound: i64 = entry.score;
                proof {
                    assert(before.nodes@.count(entry) > 0);
                    assert(before.is_node_entry(*tree, entry));
                    assert forall|other: int| #[trigger]
                        before.bounds@.contains_key(other) implies !tree.node_entry(
                        other,
                        before.bounds@[other],
                    ).precedes(tree.node_entry(node as int, bound)) by {
                        let rival = tree.node_entry(other, before.bounds@[other]);
                        assert(before.is_node_entry(*tree, rival));
                        assert(before.nodes@.count(rival) == 1);
                        assert(before.nodes@.contains(rival));
                    }
                }
                self.bounds = Ghost(self.bounds@.remove(node as int));
                self.expanded = Ghost(self.expanded@.insert(node as int));
                self.loose = Ghost(
                    self.loose@.union(
                        Set::new(
                            |point: int|
                                tree.covers(node as int, point) && !before.seen@[point],
                        ),
                    ),
                );
                proof {
                    assert(tree.node_wf(node as int));
                    assert forall|other: RankEntry| #[trigger]
                        self.nodes@.count(other) == (if self.is_node_entry(*tree, other) {
                            1nat
                        } else {
                            0nat
                        }) by {
                        assert(before.nodes@.count(other) == (if before.is_node_entry(
                            *tree,
                            other,
                        ) {
                            1nat
                        } else {
                            0nat
                        }));
                    }
                    assert forall|other: RankEntry| #[trigger]
                        self.points@.count(other) == (if self.is_point_entry(*tree, other) {
                            1nat
                        } else {
                            0nat
                        }) by {
                        assert(before.points@.count(other) == (if before.is_point_entry(
                            *tree,
                            other,
                        ) {
                            1nat
                        } else {
                            0nat
                        }));
                    }
                    assert forall|point: int, other: int| #[trigger]
                        self.loose@.contains(point) && #[trigger] self.bounds@.contains_key(
                            other,
                        ) implies !tree.covers(other, point) by {
                        assert(before.bounds@.contains_key(other));
                        if !before.loose@.contains(point) {
                            assert(tree.apart(other, node as int));
                        }
                    }
                }
                Some((node, bound))
            },
        }
    }

    /// Adds the score of a point that was not seen.
    pub fn enlist(&mut self, tree: &NodeTree, point: usize, score: i64)
        requires
            tree.wf(),
            old(self).wf(*tree),
            point < tree.ids@.len(),
            !old(self).seen()[point as int],
        ensures
            final(self).wf(*tree),
            final(self).bounds() == old(self).bounds(),
            final(self).scores() == old(self).scores().insert(point as int, score),
            final(self).expanded() == old(self).expanded(),
            final(self).seen() == old(self).seen().update(point as int, true),
            final(self).loose() == old(self).loose().remove(point as int),
            final(self).counters() == old(self).counters(),
            final(self).pending_nodes() == old(self).pending_nodes(),
            final(self).pending_points() == old(self).pending_points() + 1,
    {
        let entry = RankEntry {
            score,
            id: ExtendedPointId::NumId(tree.ids[point] as u64),
            slot: point,
        };
        let ghost before = *self;
        self.points.push(entry);
        self.seen.set(point, true);
        self.scores = Ghost(self.scores@.insert(point as int, score));
        self.loose = Ghost(self.loose@.remove(point as int));
        proof {
            assert(!before.scores@.contains_key(point as int));
            assert forall|other: RankEntry| #[trigger]
                self.nodes@.count(other) == (if self.is_node_entry(*tree, other) {
                    1nat
                } else {
                    0nat
                }) by {
                assert(before.nodes@.count(other) == (if before.is_node_entry(*tree, other) {
                    1nat
                } else {
                    0nat
                }));
            }
            assert forall|other: RankEntry| #[trigger]
                self.points@.count(other) == (if self.is_point_entry(*tree, other) {
                    1nat
                } else {
                    0nat
                }) by {
                assert(before.points@.count(other) == (if before.is_point_entry(*tree, other) {
                    1nat
                } else {
                    0nat
                }));
            }
        }
    }

    /// Takes a point out of the search without a score.
    pub fn dismiss(&mut self, tree: &NodeTree, point: usize)
        requires
            tree.wf(),
            old(self).wf(*tree),
            point < tree.ids@.len(),
            !old(self).seen()[point as int],
        ensures
            final(self).wf(*tree),
            final(self).bounds() == old(self).bounds(),
            final(self).scores() == old(self).scores(),
            final(self).expanded() == old(self).expanded(),
            final(self).seen() == old(self).seen().update(point as int, true),
            final(self).loose() == old(self).loose().remove(point as int),
            final(self).counters() == old(self).counters(),
            final(self).pending_nodes() == old(self).pending_nodes(),
            final(self).pending_points() == old(self).pending_points(),
    {
        let ghost before = *self;
        self.seen.set(point, true);
        self.loose = Ghost(self.loose@.remove(point as int));
        proof {
            assert forall|other: RankEntry| #[trigger]
                self.nodes@.count(other) == (if self.is_node_entry(*tree, other) {
                    1nat
                } else {
                    0nat
                }) by {
                assert(before.nodes@.count(other) == (if before.is_node_entry(*tree, other) {
                    1nat
                } else {
                    0nat
                }));
            }
            assert forall|other: RankEntry| #[trigger]
                self.points@.count(other) == (if self.is_point_entry(*tree, other) {
                    1nat
                } else {
                    0nat
                }) by {
                assert(before.points@.count(other) == (if before.is_point_entry(*tree, other) {
                    1nat
                } else {
                    0nat
                }));
            }
        }
    }

    /// Takes all points of a block out of the search.
    pub fn dismiss_block(&mut self, tree: &NodeTree, node: usize)
        requires
            tree.wf(),
            old(self).wf(*tree),
            node < tree.nodes@.len(),
            forall|point: int|
                tree.covers(node as int, point) ==> #[trigger] old(self).loose().contains(point),
        ensures
            final(self).wf(*tree),
            final(self).bounds() == old(self).bounds(),
            final(self).scores() == old(self).scores(),
            final(self).expanded() == old(self).expanded(),
            final(self).seen().len() == old(self).seen().len(),
            forall|point: int|
                0 <= point < old(self).seen().len() ==> #[trigger] final(self).seen()[point] == (
                old(self).seen()[point] || tree.covers(node as int, point)),
            forall|point: int| #[trigger]
                final(self).loose().contains(point) <==> old(self).loose().contains(point)
                    && !tree.covers(node as int, point),
    {
        let start: usize = tree.nodes[node].start;
        let end: usize = tree.nodes[node].end;
        proof {
            assert(tree.node_wf(node as int));
        }
        let mut point: usize = start;
        while point < end
            invariant
                tree.wf(),
                self.wf(*tree),
                node < tree.nodes@.len(),
                start == tree.nodes@[node as int].start,
                end == tree.nodes@[node as int].end,
                start <= point <= end <= tree.ids@.len(),
                self.bounds() == old(self).bounds(),
                self.scores() == old(self).scores(),
                self.expanded() == old(self).expanded(),
                self.seen().len() == old(self).seen().len(),
                self.seen().len() == tree.ids@.len(),
                forall|other: int|
                    tree.covers(node as int, other) ==> #[trigger] old(self).loose().contains(
                        other,
                    ),
                forall|other: int|
                    0 <= other < old(self).seen().len() ==> #[trigger] self.seen()[other] == (old(self).seen()[other] || start <= other < point),
                forall|other: int| #[trigger]
                    self.loose().contains(other) <==> old(self).loose().contains(other) && !(start
                        <= other < point),
            decreases end - point,
        {
            proof {
                assert(old(self).loose().contains(point as int));
                assert(self.loose().contains(point as int));
                self.lemma_loose(*tree, point as int);
            }
            self.dismiss(tree, point);
            point += 1;
        }
    }

    /// Whether a scored point belongs before everything that unopened blocks can
    /// hold.
    pub open spec fn settles(&self, tree: NodeTree, point: int, score: i64) -> bool {
        forall|node: int| #[trigger]
            self.bounds().contains_key(node) ==> score > self.bounds()[node] || score
                == self.bounds()[node] && tree.ids@[point] < tree.nodes@[node].min_id
    }

    /// Whether a point is the best of the scored points that wait.
    pub open spec fn leads(&self, tree: NodeTree, point: int, score: i64) -> bool {
        &&& self.scores().contains_key(point)
        &&& self.scores()[point] == score
        &&& forall|other: int| #[trigger]
            self.scores().contains_key(other) && other != point ==> tree.before(
                point,
                score,
                other,
                self.scores()[other],
            )
    }

    /// Whether some unopened block has a bound that no scored point exceeds.
    pub open spec fn is_undecided(&self) -> bool {
        forall|point: int| #[trigger]
            self.scores().contains_key(point) ==> exists|node: int| #[trigger]
                self.bounds().contains_key(node) && self.scores()[point] <= self.bounds()[node]
    }

    /// Whether the best scored point belongs before everything that unopened blocks
    /// can hold.
    pub fn next_point_is_fixed(&self, tree: &NodeTree) -> (fixed: bool)
        requires
            tree.wf(),
            self.wf(*tree),
        ensures
            fixed == (exists|point: int, score: i64|
                #![trigger self.leads(*tree, point, score)]
                self.leads(*tree, point, score) && self.settles(*tree, point, score)),
            !fixed ==> self.is_undecided(),
    {
        let point = match self.points.peek() {
            Some(point) => point,
            None => {
                proof {
                    if exists|point: int, score: i64|
                        #![trigger self.leads(*tree, point, score)]
                        self.leads(*tree, point, score) && self.settles(*tree, point, score) {
                        let (point, score) = choose|point: int, score: i64|
                            #![trigger self.leads(*tree, point, score)]
                            self.leads(*tree, point, score) && self.settles(*tree, point, score);
                        let entry = tree.point_entry(point, score);
                        assert(self.is_point_entry(*tree, entry));
                        assert(self.points@.count(entry) == 1);
                    }
                    assert forall|point: int| !#[trigger] self.scores().contains_key(point) by {
                        if self.scores().contains_key(point) {
                            let entry = tree.point_entry(point, self.scores()[point]);
                            assert(self.is_point_entry(*tree, entry));
                            assert(self.points@.count(entry) == 1);
                        }
                    }
                }
                return false;
            },
        };
        proof {
            self.lemma_top_point(*tree, point);
        }
        let fixed = match self.nodes.peek() {
            Some(node) => {
                let fixed = point.score > node.score || (point.score == node.score
                    && point.id.before(node.id));
                proof {
                    assert(self.nodes@.count(node) > 0);
                    assert(self.is_node_entry(*tree, node));
                    if fixed {
                        assert forall|other: int| #[trigger]
                            self.bounds().contains_key(other) implies point.score
                            > self.bounds()[other] || point.score == self.bounds()[other]
                            && tree.ids@[point.slot as int] < tree.nodes@[other].min_id by {
                            let rival = tree.node_entry(other, self.bounds@[other]);
                            assert(self.is_node_entry(*tree, rival));
                            assert(self.nodes@.count(rival) == 1);
                            assert(self.nodes@.contains(rival));
                            assert(!rival.precedes(node));
                        }
                    } else {
                        assert(self.bounds().contains_key(node.slot as int));
                        assert forall|other: int| #[trigger]
                            self.scores().contains_key(other) implies exists|block: int| #[trigger]
                            self.bounds().contains_key(block) && self.scores()[other]
                                <= self.bounds()[block] by {
                            assert(self.scores()[other] <= point.score);
                            assert(self.bounds()[node.slot as int] == node.score);
                        }
                    }
                }
                fixed
            },
            None => {
                proof {
                    assert forall|other: int| !self.bounds().contains_key(other) by {
                        if self.bounds().contains_key(other) {
                            let rival = tree.node_entry(other, self.bounds@[other]);
                            assert(self.is_node_entry(*tree, rival));
                            assert(self.nodes@.count(rival) == 1);
                        }
                    }
                }
                true
            },
        };
        proof {
            assert(self.leads(*tree, point.slot as int, point.score));
            if !fixed {
                assert forall|other: int, score: i64|
                    #![trigger self.leads(*tree, other, score)]
                    self.leads(*tree, other, score) implies !self.settles(*tree, other, score) by {
                    if other != point.slot as int {
                        assert(tree.before(
                            other,
                            score,
                            point.slot as int,
                            self.scores()[point.slot as int],
                        ));
                        assert(tree.before(point.slot as int, point.score, other, score));
                    }
                }
            }
        }
        fixed
    }

    /// The first entry of the queue of points is that of the leading point.
    proof fn lemma_top_point(&self, tree: NodeTree, entry: RankEntry)
        requires
            tree.wf(),
            self.wf(tree),
            self.points@.contains(entry),
            forall|other: RankEntry|
                self.points@.contains(other) ==> !(#[trigger] other.precedes(entry)),
        ensures
            self.is_point_entry(tree, entry),
            self.leads(tree, entry.slot as int, entry.score),
    {
        assert(self.points@.count(entry) > 0);
        assert(self.is_point_entry(tree, entry));
        assert forall|other: int| #[trigger]
            self.scores().contains_key(other) && other != entry.slot as int implies tree.before(
            entry.slot as int,
            entry.score,
            other,
            self.scores()[other],
        ) by {
            let rival = tree.point_entry(other, self.scores@[other]);
            assert(self.is_point_entry(tree, rival));
            assert(self.points@.count(rival) == 1);
            assert(self.points@.contains(rival));
            assert(!rival.precedes(entry));
            assert(tree.ids@[other] != tree.ids@[entry.slot as int]);
        }
    }

    /// Takes the best of the scored points that wait.
    pub fn pop_point(&mut self, tree: &NodeTree) -> (popped: Option<(usize, i64)>)
        requires
            tree.wf(),
            old(self).wf(*tree),
        ensures
            final(self).wf(*tree),
            popped is None <==> old(self).pending_points() == 0,
            popped is None ==> *final(self) == *old(self) && old(self).scores() == Map::<
                int,
                i64,
            >::empty(),
            popped matches Some((point, score)) ==> {
                &&& point < tree.ids@.len()
                &&& old(self).leads(*tree, point as int, score)
                &&& final(self).bounds() == old(self).bounds()
                &&& final(self).scores() == old(self).scores().remove(point as int)
                &&& final(self).expanded() == old(self).expanded()
                &&& final(self).seen() == old(self).seen()
                &&& final(self).loose() == old(self).loose()
                &&& final(self).counters() == old(self).counters()
                &&& final(self).pending_nodes() == old(self).pending_nodes()
                &&& final(self).pending_points() + 1 == old(self).pending_points()
            },
    {
        let ghost before = *self;
        match self.points.pop() {
            None => {
                proof {
                    assert forall|point: int| !self.scores@.contains_key(point) by {
                        if self.scores@.contains_key(point) {
                            let entry = tree.point_entry(point, self.scores@[point]);
                            assert(before.is_point_entry(*tree, entry));
                            assert(before.points@.count(entry) == 1);
                        }
                    }
                    assert(self.scores@ =~= Map::<int, i64>::empty());
                }
                None
            },
            Some(entry) => {
                proof {
                    before.lemma_top_point(*tree, entry);
                }
                self.scores = Ghost(self.scores@.remove(entry.slot as int));
                proof {
                    assert forall|other: RankEntry| #[trigger]
                        self.points@.count(other) == (if self.is_point_entry(*tree, other) {
                            1nat
                        } else {
                            0nat
                        }) by {
                        assert(before.points@.count(other) == (if before.is_point_entry(
                            *tree,
                            other,
                        ) {
                            1nat
                        } else {
                            0nat
                        }));
                    }
                    assert forall|other: RankEntry| #[trigger]
                        self.nodes@.count(other) == (if self.is_node_entry(*tree, other) {
                            1nat
                        } else {
                            0nat
                        }) by {
                        assert(before.nodes@.count(other) == (if before.is_node_entry(
                            *tree,
                            other,
                        ) {
                            1nat
                        } else {
                            0nat
                        }));
                    }
                }
                Some((entry.slot, entry.score))
            },
        }
    }

    /// Whether no point of an opened block was left without a score.
    pub open spec fn settled(&self) -> bool {
        self.loose() == Set::<int>::empty()
    }

    /// Adds the blocks of a list that covers a range from left to right.
    fn push_list<G: KeySource>(
        &mut self,
        tree: &NodeTree,
        list: &Vec<usize>,
        bound: &G,
        Ghost(start): Ghost<int>,
        Ghost(end): Ghost<int>,
    )
        requires
            tree.wf(),
            old(self).wf(*tree),
            tiles(tree.nodes@, list@, start, end),
            forall|node: int| 0 <= node < tree.nodes@.len() ==> #[trigger] bound.defined(node),
            0 <= start <= end <= tree.ids@.len(),
            forall|node: int| #[trigger]
                old(self).bounds().contains_key(node) ==> tree.nodes@[node].end <= start || end
                    <= tree.nodes@[node].start,
            forall|i: int, opened: int|
                0 <= i < list@.len() && #[trigger] old(self).expanded().contains(opened)
                    ==> tree.apart(#[trigger] list@[i] as int, opened) || opened > list@[i],
            forall|i: int|
                0 <= i < list@.len() ==> !old(self).expanded().contains(#[trigger] list@[i] as int),
        ensures
            final(self).wf(*tree),
            final(self).scores() == old(self).scores(),
            final(self).expanded() == old(self).expanded(),
            final(self).seen() == old(self).seen(),
            final(self).counters() == old(self).counters(),
            final(self).pending_points() == old(self).pending_points(),
            final(self).pending_nodes() == old(self).pending_nodes() + list@.len(),
            forall|point: int| #[trigger]
                final(self).loose().contains(point) <==> old(self).loose().contains(point) && !(
                start <= point < end),
            forall|node: int| #[trigger]
                final(self).bounds().contains_key(node) <==> old(self).bounds().contains_key(node)
                    || list@.contains(node as usize) && 0 <= node < tree.nodes@.len(),
            forall|node: int| #[trigger]
                old(self).bounds().contains_key(node) ==> final(self).bounds()[node] == old(self).bounds()[node],
            forall|node: int| #[trigger]
                final(self).bounds().contains_key(node) && !old(self).bounds().contains_key(node)
                    ==> bound.gives(node, final(self).bounds()[node]),
            forall|point: int|
                start <= point < end ==> #[trigger] final(self).covered(*tree, point),
    {
        let mut i: usize = 0;
        let ghost mut reached: int = start;
        while i < list.len()
            invariant
                tree.wf(),
                self.wf(*tree),
                tiles(tree.nodes@, list@, start, end),
                forall|node: int| 0 <= node < tree.nodes@.len() ==> #[trigger] bound.defined(node),
                0 <= start <= reached <= end <= tree.ids@.len(),
                i <= list@.len(),
                i < list@.len() ==> reached == tree.nodes@[list@[i as int] as int].start,
                i == list@.len() ==> reached == end,
                self.scores() == old(self).scores(),
                self.expanded() == old(self).expanded(),
                self.seen() == old(self).seen(),
                self.counters() == old(self).counters(),
                self.pending_points() == old(self).pending_points(),
                self.pending_nodes() == old(self).pending_nodes() + i,
                forall|node: int| #[trigger]
                    self.bounds().contains_key(node) ==> tree.nodes@[node].end <= reached || end
                        <= tree.nodes@[node].start,
                forall|k: int, opened: int|
                    0 <= k < list@.len() && #[trigger] self.expanded().contains(opened)
                        ==> tree.apart(#[trigger] list@[k] as int, opened) || opened > list@[k],
                forall|k: int|
                    0 <= k < list@.len() ==> !self.expanded().contains(#[trigger] list@[k] as int),
                forall|point: int| #[trigger]
                    self.loose().contains(point) <==> old(self).loose().contains(point) && !(start
                        <= point < reached),
                forall|node: int| #[trigger]
                    self.bounds().contains_key(node) <==> old(self).bounds().contains_key(node) || (
                    exists|k: int| 0 <= k < i && #[trigger] list@[k] == node),
                forall|node: int| #[trigger]
                    old(self).bounds().contains_key(node) ==> self.bounds()[node] == old(self).bounds()[node],
                forall|node: int| #[trigger]
                    self.bounds().contains_key(node) && !old(self).bounds().contains_key(node)
                        ==> bound.gives(node, self.bounds()[node]),
                forall|node: int| #[trigger]
                    old(self).bounds().contains_key(node) ==> tree.nodes@[node].end <= start || end
                        <= tree.nodes@[node].start,
                forall|point: int|
                    start <= point < reached ==> #[trigger] self.covered(*tree, point),
            decreases list@.len() - i,
        {
            let node: usize = list[i];
            let ghost before = *self;
            proof {
                assert(tree.node_wf(node as int));
                let block = tree.nodes@[node as int];
                assert(block.end <= end) by {
                    lemma_tile_ends(*tree, list@, start, end, i as int);
                }
                assert forall|other: int| #[trigger] self.bounds().contains_key(other) implies other
                    != node && tree.apart(other, node as int) by {}
            }
            let value: i64 = bound.key(node);
            self.push_node(tree, node, value);
            proof {
                reached = tree.nodes@[node as int].end as int;
                assert forall|other: int| #[trigger] self.bounds().contains_key(other) implies
                    tree.nodes@[other].end <= reached || end <= tree.nodes@[other].start by {
                    assert(other == node || before.bounds().contains_key(other));
                }
                assert forall|point: int| start <= point < reached implies #[trigger] self.covered(
                    *tree,
                    point,
                ) by {
                    if tree.covers(node as int, point) {
                        assert(self.bounds().contains_key(node as int));
                    } else {
                        assert(before.covered(*tree, point));
                        let other = choose|other: int| #[trigger]
                            before.bounds().contains_key(other) && tree.covers(other, point);
                        assert(self.bounds().contains_key(other));
                    }
                }
                assert forall|other: int| #[trigger] self.bounds().contains_key(other) <==> (old(self).bounds().contains_key(other) || (exists|k: int|
                    0 <= k < i + 1 && #[trigger] list@[k] == other)) by {
                    if other == node {
                        assert(list@[i as int] == other);
                    } else {
                        assert(self.bounds().contains_key(other) == before.bounds().contains_key(
                            other,
                        ));
                        if exists|k: int| 0 <= k < i + 1 && #[trigger] list@[k] == other {
                            let k = choose|k: int| 0 <= k < i + 1 && #[trigger] list@[k] == other;
                            assert(k < i);
                        }
                    }
                }
                if i + 1 < list@.len() {
                    let following = list@[i + 1];
                    assert(tree.nodes@[list@[i as int] as int].end
                        == tree.nodes@[following as int].start);
                }
            }
            i += 1;
        }
        proof {
            assert forall|node: int| #[trigger] self.bounds().contains_key(node) <==> old(self).bounds().contains_key(node) || list@.contains(node as usize) && 0 <= node
                < tree.nodes@.len() by {
                if list@.contains(node as usize) && 0 <= node < tree.nodes@.len() {
                    let k = choose|k: int| 0 <= k < list@.len() && list@[k] == node as usize;
                    assert(list@[k] == node);
                }
            }
        }
    }

    /// What the search has counted: opened leaves, opened blocks, scored points, and
    /// the largest numbers of waiting blocks and points.
    pub closed spec fn counters(&self) -> (usize, usize, usize, usize, usize) {
        (
            self.leaves_opened,
            self.nodes_opened,
            self.points_scored,
            self.most_nodes,
            self.most_points,
        )
    }

    /// Whether the counters say what was opened and scored.
    pub open spec fn counted(&self, tree: NodeTree) -> bool {
        let (leaves, opened, scored, most_nodes, most_points) = self.counters();
        &&& self.expanded().finite()
        &&& opened == self.expanded().len()
        &&& leaves == opened_leaves(tree, self.expanded()).len()
        &&& scored == seen_points(self.seen()).len()
        &&& most_nodes >= self.pending_nodes()
        &&& most_points >= self.pending_points()
    }

    /// How many leaves were opened.
    pub fn leaves_opened(&self) -> (count: usize)
        ensures
            self.counters().0 == count,
    {
        self.leaves_opened
    }

    /// How many blocks were opened.
    pub fn nodes_opened(&self) -> (count: usize)
        ensures
            self.counters().1 == count,
    {
        self.nodes_opened
    }

    /// How many points were scored.
    pub fn points_scored(&self) -> (count: usize)
        ensures
            self.counters().2 == count,
    {
        self.points_scored
    }

    /// How many blocks have a bound: the opened and the unopened ones.
    pub fn bounds_evaluated(&self, tree: &NodeTree) -> (count: usize)
        requires
            tree.wf(),
            self.wf(*tree),
            self.counted(*tree),
        ensures
            count == self.expanded().len() + self.bounds().dom().len(),
    {
        proof {
            let all = vstd::set_lib::set_int_range(0, tree.nodes@.len() as int);
            vstd::set_lib::lemma_int_range(0, tree.nodes@.len() as int);
            let both = self.expanded().union(self.bounds().dom());
            assert(self.expanded().disjoint(self.bounds().dom())) by {
                assert forall|node: int| self.expanded().contains(node) implies !self.bounds().dom().contains(
                    node,
                ) by {
                    if self.bounds().dom().contains(node) {
                        assert(self.bounds@.contains_key(node));
                    }
                }
            }
            vstd::set_lib::lemma_set_disjoint_lens(self.expanded(), self.bounds().dom());
            assert(both.subset_of(all)) by {
                assert forall|node: int| both.contains(node) implies all.contains(node) by {
                    if self.expanded().contains(node) {
                        assert(self.expanded@.contains(node));
                    } else {
                        assert(self.bounds@.contains_key(node));
                    }
                }
            }
            vstd::set_lib::lemma_len_subset(both, all);
        }
        self.nodes_opened + self.nodes.len()
    }

    /// The largest number of waiting blocks after blocks were added.
    pub fn most_nodes(&self) -> (count: usize)
        ensures
            self.counters().3 == count,
    {
        self.most_nodes
    }

    /// The largest number of waiting points after points were added.
    pub fn most_points(&self) -> (count: usize)
        ensures
            self.counters().4 == count,
    {
        self.most_points
    }

    /// A search with the roots of a tree.
    pub fn open<G: KeySource>(tree: &NodeTree, bound: &G) -> (frontier: Frontier)
        requires
            tree.wf(),
            forall|node: int| 0 <= node < tree.nodes@.len() ==> #[trigger] bound.defined(node),
        ensures
            frontier.wf(*tree),
            frontier.settled(),
            frontier.counted(*tree),
            frontier.scores() == Map::<int, i64>::empty(),
            frontier.expanded() == Set::<int>::empty(),
            frontier.seen() == Seq::new(tree.ids@.len(), |point: int| false),
            frontier.pending_nodes() == tree.roots@.len(),
            frontier.pending_points() == 0,
            frontier.counters() == (0usize, 0usize, 0usize, tree.roots@.len() as usize, 0usize),
            forall|point: int|
                0 <= point < tree.ids@.len() <==> #[trigger] frontier.holds(*tree, point),
            forall|bounds: spec_fn(int) -> Option<i64>, scores: spec_fn(int) -> Option<i64>|
                #![trigger frontier.agrees(bounds, scores)]
                computes_bounds(bound, *tree, bounds) ==> frontier.agrees(bounds, scores),
    {
        let mut frontier = Frontier::new(tree);
        frontier.push_list(tree, &tree.roots, bound, Ghost(0int), Ghost(tree.ids@.len() as int));
        let ghost listed = frontier;
        frontier.most_nodes = frontier.nodes.len();
        proof {
            assert(tree.roots@.len() <= usize::MAX) by {
                assert(tree.roots.len() <= usize::MAX);
            }
            assert(listed.loose() =~= Set::<int>::empty());
            assert(frontier.loose() == listed.loose());
            assert(frontier.bounds() == listed.bounds());
            frontier.lemma_nothing_seen();
            assert(opened_leaves(*tree, frontier.expanded()) =~= Set::<int>::empty());
            assert forall|point: int| 0 <= point < tree.ids@.len() <==> #[trigger] frontier.holds(
                *tree,
                point,
            ) by {
                if 0 <= point < tree.ids@.len() {
                    assert(listed.covered(*tree, point));
                    let node = choose|node: int| #[trigger]
                        listed.bounds().contains_key(node) && tree.covers(node, point);
                    assert(frontier.bounds().contains_key(node));
                    assert(frontier.covered(*tree, point));
                }
            }
            assert forall|bounds: spec_fn(int) -> Option<i64>, scores: spec_fn(int) -> Option<i64>|
                #![trigger frontier.agrees(bounds, scores)]
                computes_bounds(bound, *tree, bounds) implies frontier.agrees(bounds, scores) by {
                assert forall|node: int| #[trigger]
                    frontier.bounds().contains_key(node) implies bounds(node) == Some(
                    frontier.bounds()[node],
                ) by {
                    assert(listed.bounds().contains_key(node));
                    assert(bound.gives(node, listed.bounds()[node]));
                }
            }
        }
        frontier
    }

    proof fn lemma_nothing_seen(&self)
        requires
            forall|point: int| 0 <= point < self.seen().len() ==> !#[trigger] self.seen()[point],
        ensures
            seen_points(self.seen()) == Set::<int>::empty(),
    {
        assert(seen_points(self.seen()) =~= Set::<int>::empty());
    }

    /// Adds the score of a point that was not seen, and counts it.
    pub fn score_point(&mut self, tree: &NodeTree, point: usize, score: i64)
        requires
            tree.wf(),
            old(self).wf(*tree),
            point < tree.ids@.len(),
            !old(self).seen()[point as int],
            old(self).counters().2 == seen_points(old(self).seen()).len(),
        ensures
            final(self).wf(*tree),
            final(self).bounds() == old(self).bounds(),
            final(self).scores() == old(self).scores().insert(point as int, score),
            final(self).expanded() == old(self).expanded(),
            final(self).seen() == old(self).seen().update(point as int, true),
            final(self).loose() == old(self).loose().remove(point as int),
            final(self).pending_nodes() == old(self).pending_nodes(),
            final(self).pending_points() == old(self).pending_points() + 1,
            final(self).counters().2 == seen_points(final(self).seen()).len(),
            ({
                let (leaves, opened, scored, most_nodes, most_points) = old(self).counters();
                final(self).counters() == (
                    leaves,
                    opened,
                    (scored + 1) as usize,
                    most_nodes,
                    most_points,
                )
            }),
    {
        proof {
            lemma_seen_points(self.seen(), point as int);
        }
        self.enlist(tree, point, score);
        self.points_scored = self.points_scored + 1;
    }

    /// Adds the score of a point before any block is opened.
    pub fn seed_point(&mut self, tree: &NodeTree, point: usize, score: i64)
        requires
            tree.wf(),
            old(self).wf(*tree),
            old(self).settled(),
            old(self).counted(*tree),
            point < tree.ids@.len(),
            !old(self).seen()[point as int],
            old(self).holds(*tree, point as int),
        ensures
            final(self).wf(*tree),
            final(self).settled(),
            final(self).counted(*tree),
            final(self).bounds() == old(self).bounds(),
            final(self).scores() == old(self).scores().insert(point as int, score),
            final(self).expanded() == old(self).expanded(),
            final(self).seen() == old(self).seen().update(point as int, true),
            final(self).pending_nodes() == old(self).pending_nodes(),
            final(self).pending_points() == old(self).pending_points() + 1,
            final(self).counters().3 == old(self).counters().3,
            final(self).counters().4 == larger(
                old(self).counters().4,
                final(self).pending_points(),
            ),
            forall|other: int| #[trigger]
                final(self).holds(*tree, other) <==> old(self).holds(*tree, other),
    {
        let ghost before = *self;
        self.score_point(tree, point, score);
        let ghost scored = *self;
        if self.points.len() > self.most_points {
            self.most_points = self.points.len();
        }
        proof {
            assert(self.loose() =~= Set::<int>::empty());
            assert(self.bounds() == before.bounds());
            assert forall|other: int| #[trigger] self.holds(*tree, other) <==> before.holds(
                *tree,
                other,
            ) by {
                if before.waits(*tree, other) && other != point {
                    let node = choose|node: int| #[trigger]
                        before.bounds().contains_key(node) && tree.covers(node, other);
                    assert(self.bounds().contains_key(node));
                    assert(self.covered(*tree, other));
                }
                if self.waits(*tree, other) {
                    let node = choose|node: int| #[trigger]
                        self.bounds().contains_key(node) && tree.covers(node, other);
                    assert(before.bounds().contains_key(node));
                    assert(before.covered(*tree, other));
                }
            }
        }
    }

    /// Puts a point that was taken back.
    pub fn restore(&mut self, tree: &NodeTree, point: usize, score: i64)
        requires
            tree.wf(),
            old(self).wf(*tree),
            point < tree.ids@.len(),
            old(self).seen()[point as int],
            !old(self).scores().contains_key(point as int),
        ensures
            final(self).wf(*tree),
            final(self).bounds() == old(self).bounds(),
            final(self).scores() == old(self).scores().insert(point as int, score),
            final(self).expanded() == old(self).expanded(),
            final(self).seen() == old(self).seen(),
            final(self).loose() == old(self).loose(),
            final(self).counters() == old(self).counters(),
            final(self).pending_nodes() == old(self).pending_nodes(),
            final(self).pending_points() == old(self).pending_points() + 1,
    {
        let entry = RankEntry {
            score,
            id: ExtendedPointId::NumId(tree.ids[point] as u64),
            slot: point,
        };
        let ghost before = *self;
        self.points.push(entry);
        self.scores = Ghost(self.scores@.insert(point as int, score));
        proof {
            assert forall|other: RankEntry| #[trigger]
                self.nodes@.count(other) == (if self.is_node_entry(*tree, other) {
                    1nat
                } else {
                    0nat
                }) by {
                assert(before.nodes@.count(other) == (if before.is_node_entry(*tree, other) {
                    1nat
                } else {
                    0nat
                }));
            }
            assert forall|other: RankEntry| #[trigger]
                self.points@.count(other) == (if self.is_point_entry(*tree, other) {
                    1nat
                } else {
                    0nat
                }) by {
                assert(before.points@.count(other) == (if before.is_point_entry(*tree, other) {
                    1nat
                } else {
                    0nat
                }));
            }
        }
    }

    /// Whether a scored point belongs before everything that unopened blocks can
    /// hold.
    pub fn is_settled(&self, tree: &NodeTree, point: usize, score: i64) -> (settled: bool)
        requires
            tree.wf(),
            self.wf(*tree),
            point < tree.ids@.len(),
        ensures
            settled == self.settles(*tree, point as int, score),
    {
        match self.nodes.peek() {
            Some(node) => {
                let id = ExtendedPointId::NumId(tree.ids[point] as u64);
                let fixed = score > node.score || (score == node.score && id.before(node.id));
                proof {
                    assert(self.nodes@.count(node) > 0);
                    assert(self.is_node_entry(*tree, node));
                    if fixed {
                        assert forall|other: int| #[trigger]
                            self.bounds().contains_key(other) implies score > self.bounds()[other]
                            || score == self.bounds()[other] && tree.ids@[point as int]
                            < tree.nodes@[other].min_id by {
                            let rival = tree.node_entry(other, self.bounds@[other]);
                            assert(self.is_node_entry(*tree, rival));
                            assert(self.nodes@.count(rival) == 1);
                            assert(self.nodes@.contains(rival));
                            assert(!rival.precedes(node));
                        }
                    } else {
                        assert(self.bounds().contains_key(node.slot as int));
                    }
                }
                fixed
            },
            None => {
                proof {
                    self.lemma_no_pending(*tree);
                }
                true
            },
        }
    }

    /// Scores the points of a leaf that were not seen, and returns how many were.
    fn score_block<F: KeySource>(
        &mut self,
        tree: &NodeTree,
        node: usize,
        scorer: &F,
    ) -> (reused: usize)
        requires
            tree.wf(),
            old(self).wf(*tree),
            node < tree.nodes@.len(),
            forall|point: int| 0 <= point < tree.ids@.len() ==> #[trigger] scorer.defined(point),
            old(self).counters().2 == seen_points(old(self).seen()).len(),
            forall|point: int| #[trigger]
                old(self).loose().contains(point) <==> tree.covers(node as int, point) && !old(self).seen()[point],
        ensures
            final(self).wf(*tree),
            final(self).settled(),
            final(self).bounds() == old(self).bounds(),
            final(self).expanded() == old(self).expanded(),
            final(self).pending_nodes() == old(self).pending_nodes(),
            final(self).seen().len() == old(self).seen().len(),
            forall|point: int|
                0 <= point < old(self).seen().len() ==> #[trigger] final(self).seen()[point] == (
                old(self).seen()[point] || tree.covers(node as int, point)),
            forall|point: int| #[trigger]
                final(self).scores().contains_key(point) <==> old(self).scores().contains_key(point)
                    || old(self).loose().contains(point),
            forall|point: int| #[trigger]
                old(self).scores().contains_key(point) ==> final(self).scores()[point] == old(self).scores()[point],
            forall|point: int| #[trigger]
                old(self).loose().contains(point) ==> scorer.gives(point,
                    final(self).scores()[point],
                ),
            final(self).counters().2 == seen_points(final(self).seen()).len(),
            final(self).counters().0 == old(self).counters().0,
            final(self).counters().1 == old(self).counters().1,
            final(self).counters().3 == old(self).counters().3,
            final(self).counters().4 == old(self).counters().4,
            reused == seen_in(*tree, node as int, old(self).seen()).len(),
    {
        let start: usize = tree.nodes[node].start;
        let end: usize = tree.nodes[node].end;
        let mut reused: usize = 0;
        let mut point: usize = start;
        let ghost mut known: Set<int> = Set::empty();
        proof {
            assert(tree.node_wf(node as int));
        }
        while point < end
            invariant
                tree.wf(),
                self.wf(*tree),
                node < tree.nodes@.len(),
                start == tree.nodes@[node as int].start,
                end == tree.nodes@[node as int].end,
                start <= point <= end <= tree.ids@.len(),
                reused <= point - start,
                known.finite(),
                reused == known.len(),
                forall|other: int| #[trigger]
                    known.contains(other) <==> start <= other < point && old(self).seen()[other],
                forall|point: int| 0 <= point < tree.ids@.len() ==> #[trigger] scorer.defined(point),
                forall|other: int| #[trigger]
                    old(self).loose().contains(other) <==> tree.covers(node as int, other) && !old(self).seen()[other],
                forall|other: int| #[trigger]
                    self.loose().contains(other) <==> old(self).loose().contains(other) && point
                        <= other,
                self.bounds() == old(self).bounds(),
                self.expanded() == old(self).expanded(),
                self.pending_nodes() == old(self).pending_nodes(),
                self.seen().len() == old(self).seen().len(),
                self.seen().len() == tree.ids@.len(),
                old(self).wf(*tree),
                forall|other: int|
                    0 <= other < old(self).seen().len() ==> #[trigger] self.seen()[other] == (old(self).seen()[other] || start <= other < point),
                forall|other: int| #[trigger]
                    self.scores().contains_key(other) <==> old(self).scores().contains_key(other)
                        || old(self).loose().contains(other) && other < point,
                forall|other: int| #[trigger]
                    old(self).scores().contains_key(other) ==> self.scores()[other] == old(self).scores()[other],
                forall|other: int| #[trigger]
                    old(self).loose().contains(other) && other < point ==> scorer.gives(other,
                        self.scores()[other],
                    ),
                self.counters().2 == seen_points(self.seen()).len(),
                self.counters().0 == old(self).counters().0,
                self.counters().1 == old(self).counters().1,
                self.counters().3 == old(self).counters().3,
                self.counters().4 == old(self).counters().4,
            decreases end - point,
        {
            let ghost before = *self;
            if self.seen[point] {
                reused = reused + 1;
                proof {
                    assert(self.seen()[point as int]);
                    assert(!known.contains(point as int));
                    known = known.insert(point as int);
                }
            } else {
                let score: i64 = scorer.key(point);
                assert(old(self).loose().contains(point as int));
                self.score_point(tree, point, score);
            }
            point += 1;
        }
        proof {
            assert(self.loose() =~= Set::<int>::empty());
            assert(known =~= seen_in(*tree, node as int, old(self).seen()));
        }
        reused
    }

    /// Whether a block is opened next.
    pub open spec fn opens(&self, tree: NodeTree, node: int) -> bool {
        &&& self.bounds().contains_key(node)
        &&& forall|other: int| #[trigger]
            self.bounds().contains_key(other) ==> !tree.node_entry(
                other,
                self.bounds()[other],
            ).precedes(tree.node_entry(node, self.bounds()[node]))
    }

    /// Opens the block with the highest bound: a leaf is scored, any other block is
    /// replaced by its children. Returns how many of the points were known.
    pub fn expand_next<G: KeySource, F: KeySource>(
        &mut self,
        tree: &NodeTree,
        bound: &G,
        scorer: &F,
    ) -> (reused: usize)
        requires
            tree.wf(),
            old(self).wf(*tree),
            old(self).settled(),
            old(self).counted(*tree),
            old(self).pending_nodes() > 0,
            forall|node: int| 0 <= node < tree.nodes@.len() ==> #[trigger] bound.defined(node),
            forall|point: int| 0 <= point < tree.ids@.len() ==> #[trigger] scorer.defined(point),
        ensures
            final(self).wf(*tree),
            final(self).settled(),
            final(self).counted(*tree),
            final(self).seen().len() == old(self).seen().len(),
            forall|point: int| #[trigger]
                final(self).holds(*tree, point) <==> old(self).holds(*tree, point),
            exists|node: int|
                {
                    &&& #[trigger] old(self).opens(*tree, node)
                    &&& final(self).expanded() == old(self).expanded().insert(node)
                    &&& !old(self).expanded().contains(node)
                    &&& 0 <= node < tree.nodes@.len()
                    &&& counts_opening(*old(self), *tree, node, reused, *final(self))
                    &&& forall|point: int|
                        0 <= point < old(self).seen().len() && #[trigger] final(self).seen()[point]
                            ==> old(self).seen()[point] || tree.covers(node, point)
                },
            forall|point: int|
                0 <= point < old(self).seen().len() && old(self).seen()[point]
                    ==> #[trigger] final(self).seen()[point],
            forall|bounds: spec_fn(int) -> Option<i64>, scores: spec_fn(int) -> Option<i64>|
                #![trigger final(self).agrees(bounds, scores)]
                computes_bounds(bound, *tree, bounds) && computes_scores(scorer, *tree, scores)
                    && old(self).agrees(bounds, scores) ==> final(self).agrees(bounds, scores),
    {
        let ghost before = *self;
        let (node, _) = match self.pop_node(tree) {
            Some(popped) => popped,
            None => {
                return 0;
            },
        };
        let ghost popped = *self;
        proof {
            assert(tree.node_wf(node as int));
            self.lemma_opened(*tree, before.expanded(), node as int);
        }
        self.nodes_opened = self.nodes_opened + 1;
        let reused: usize;
        if tree.nodes[node].children.len() == 0 {
            self.leaves_opened = self.leaves_opened + 1;
            let ghost ready = *self;
            proof {
                assert forall|point: int| #[trigger] self.loose().contains(point) <==> tree.covers(
                    node as int,
                    point,
                ) && !self.seen()[point] by {
                    assert(popped.loose().contains(point) == self.loose().contains(point));
                    assert(!before.loose().contains(point));
                }
            }
            reused = self.score_block(tree, node, scorer);
            let ghost filled = *self;
            if self.points.len() > self.most_points {
                self.most_points = self.points.len();
            }
            proof {
                assert(self.scores() == filled.scores());
                assert(self.bounds() == filled.bounds());
                assert(self.seen() == filled.seen());
                assert forall|point: int| #[trigger] self.holds(*tree, point) <==> before.holds(
                    *tree,
                    point,
                ) by {
                    before.lemma_pop_holds(self, *tree, node as int, point, popped.loose());
                    if tree.covers(node as int, point) && !before.seen()[point] {
                        assert(ready.loose().contains(point));
                    }
                    assert(ready.loose().contains(point) == popped.loose().contains(point));
                }
                assert forall|bounds: spec_fn(int) -> Option<i64>, scores: spec_fn(
                    int,
                ) -> Option<i64>|
                    #![trigger self.agrees(bounds, scores)]
                    computes_bounds(bound, *tree, bounds) && computes_scores(scorer, *tree, scores)
                        && before.agrees(bounds, scores) implies self.agrees(bounds, scores) by {
                    assert forall|point: int| #[trigger]
                        self.scores().contains_key(point) implies scores(point) == Some(
                        self.scores()[point],
                    ) by {
                        if before.scores().contains_key(point) {
                            assert(ready.scores().contains_key(point));
                        } else {
                            assert(ready.loose().contains(point));
                            assert(scorer.gives(point, filled.scores()[point]));
                        }
                    }
                    assert forall|other: int| #[trigger]
                        self.bounds().contains_key(other) implies bounds(other) == Some(
                        self.bounds()[other],
                    ) by {
                        assert(before.bounds().contains_key(other));
                    }
                }
            }
        } else {
            let ghost ready = *self;
            proof {
                assert forall|i: int, opened: int|
                    0 <= i < tree.nodes@[node as int].children@.len()
                        && #[trigger] self.expanded().contains(opened) implies tree.apart(
                    #[trigger] tree.nodes@[node as int].children@[i] as int,
                    opened,
                ) || opened > tree.nodes@[node as int].children@[i] by {
                    let child = tree.nodes@[node as int].children@[i] as int;
                    assert(child < node);
                    lemma_tile_ends(
                        *tree,
                        tree.nodes@[node as int].children@,
                        tree.nodes@[node as int].start as int,
                        tree.nodes@[node as int].end as int,
                        i,
                    );
                    if opened != node {
                        assert(before.expanded().contains(opened));
                        assert(before.bounds().contains_key(node as int));
                    }
                }
                assert forall|i: int|
                    0 <= i < tree.nodes@[node as int].children@.len() implies !self.expanded().contains(
                    #[trigger] tree.nodes@[node as int].children@[i] as int,
                ) by {
                    let child = tree.nodes@[node as int].children@[i] as int;
                    assert(child < node);
                    assert(tree.node_wf(child));
                    lemma_tile_ends(
                        *tree,
                        tree.nodes@[node as int].children@,
                        tree.nodes@[node as int].start as int,
                        tree.nodes@[node as int].end as int,
                        i,
                    );
                    if before.expanded().contains(child) {
                        assert(before.bounds().contains_key(node as int));
                        assert(tree.apart(node as int, child) || child > node);
                    }
                }
                assert forall|other: int| #[trigger] self.bounds().contains_key(other) implies
                    tree.nodes@[other].end <= tree.nodes@[node as int].start || tree.nodes@[
                node as int].end <= tree.nodes@[other].start by {
                    assert(before.bounds().contains_key(other));
                    assert(before.bounds().contains_key(node as int));
                }
            }
            self.push_list(
                tree,
                &tree.nodes[node].children,
                bound,
                Ghost(tree.nodes@[node as int].start as int),
                Ghost(tree.nodes@[node as int].end as int),
            );
            reused = 0;
            let ghost listed = *self;
            if self.nodes.len() > self.most_nodes {
                self.most_nodes = self.nodes.len();
            }
            proof {
                assert(self.bounds() == listed.bounds());
                assert(self.loose() == listed.loose());
                assert forall|point: int| !listed.loose().contains(point) by {
                    assert(popped.loose().contains(point) == ready.loose().contains(point));
                    assert(!before.loose().contains(point));
                }
                assert(self.loose() =~= Set::<int>::empty());
                assert forall|other: int| #[trigger] self.bounds().contains_key(other) implies
                    before.bounds().contains_key(other) && other != node || lies_in(
                    *tree,
                    other,
                    node as int,
                ) by {
                    assert(listed.bounds().contains_key(other));
                    if !ready.bounds().contains_key(other) {
                        let children = tree.nodes@[node as int].children@;
                        let i = choose|i: int|
                            0 <= i < children.len() && children[i] == other as usize;
                        lemma_tile_ends(
                            *tree,
                            children,
                            tree.nodes@[node as int].start as int,
                            tree.nodes@[node as int].end as int,
                            i,
                        );
                    }
                }
                assert forall|point: int| #[trigger] self.holds(*tree, point) <==> before.holds(
                    *tree,
                    point,
                ) by {
                    if before.waits(*tree, point) {
                        let other = choose|other: int| #[trigger]
                            before.bounds().contains_key(other) && tree.covers(other, point);
                        if other == node {
                            assert(listed.covered(*tree, point));
                            let child = choose|child: int| #[trigger]
                                listed.bounds().contains_key(child) && tree.covers(child, point);
                            assert(self.bounds().contains_key(child));
                        } else {
                            assert(popped.bounds().contains_key(other));
                            assert(self.bounds().contains_key(other));
                        }
                        assert(self.covered(*tree, point));
                    }
                    if self.waits(*tree, point) {
                        let other = choose|other: int| #[trigger]
                            self.bounds().contains_key(other) && tree.covers(other, point);
                        assert(listed.bounds().contains_key(other));
                        if ready.bounds().contains_key(other) {
                            assert(before.bounds().contains_key(other));
                        } else {
                            let children = tree.nodes@[node as int].children@;
                            let i = choose|i: int|
                                0 <= i < children.len() && children[i] == other as usize;
                            lemma_tile_ends(
                                *tree,
                                children,
                                tree.nodes@[node as int].start as int,
                                tree.nodes@[node as int].end as int,
                                i,
                            );
                            assert(before.bounds().contains_key(node as int) && tree.covers(
                                node as int,
                                point,
                            ));
                        }
                        assert(before.covered(*tree, point));
                    }
                }
                assert forall|bounds: spec_fn(int) -> Option<i64>, scores: spec_fn(
                    int,
                ) -> Option<i64>|
                    #![trigger self.agrees(bounds, scores)]
                    computes_bounds(bound, *tree, bounds) && computes_scores(scorer, *tree, scores)
                        && before.agrees(bounds, scores) implies self.agrees(bounds, scores) by {
                    assert forall|other: int| #[trigger]
                        self.bounds().contains_key(other) implies bounds(other) == Some(
                        self.bounds()[other],
                    ) by {
                        if before.bounds().contains_key(other) && other != node {
                            assert(ready.bounds().contains_key(other));
                        } else {
                            assert(!ready.bounds().contains_key(other));
                            assert(listed.bounds().contains_key(other));
                            assert(bound.gives(other, listed.bounds()[other]));
                        }
                    }
                    assert forall|point: int| #[trigger]
                        self.scores().contains_key(point) implies scores(point) == Some(
                        self.scores()[point],
                    ) by {
                        assert(before.scores().contains_key(point));
                    }
                }
            }
        }
        proof {
            assert(before.opens(*tree, node as int));
            assert(counts_opening(before, *tree, node as int, reused, *self));
        }
        reused
    }

    /// Opening a block adds it to those that were opened, of which there are no more
    /// than blocks.
    proof fn lemma_opened(&self, tree: NodeTree, expanded: Set<int>, node: int)
        requires
            self.wf(tree),
            expanded.finite(),
            self.expanded() == expanded.insert(node),
            !expanded.contains(node),
        ensures
            self.expanded().finite(),
            self.expanded().len() == expanded.len() + 1,
            expanded.len() < tree.nodes@.len(),
            opened_leaves(tree, expanded).len() <= expanded.len(),
            opened_leaves(tree, self.expanded()).len() == opened_leaves(tree, expanded).len() + (
            if tree.nodes@[node].children@.len() == 0 {
                1int
            } else {
                0int
            }),
    {
        let all = vstd::set_lib::set_int_range(0, tree.nodes@.len() as int);
        vstd::set_lib::lemma_int_range(0, tree.nodes@.len() as int);
        assert(self.expanded().subset_of(all)) by {
            assert forall|other: int| self.expanded().contains(other) implies all.contains(
                other,
            ) by {
                assert(self.expanded@.contains(other));
            }
        }
        vstd::set_lib::lemma_len_subset(self.expanded(), all);
        expanded.lemma_len_filter(|other: int| tree.nodes@[other].children@.len() == 0);
        if tree.nodes@[node].children@.len() == 0 {
            assert(opened_leaves(tree, self.expanded()) =~= opened_leaves(tree, expanded).insert(
                node,
            ));
        } else {
            assert(opened_leaves(tree, self.expanded()) =~= opened_leaves(tree, expanded));
        }
    }

    /// Scoring the leaf that was taken changes nothing of what the search holds.
    proof fn lemma_pop_holds(
        &self,
        after: &Frontier,
        tree: NodeTree,
        node: int,
        point: int,
        loose: Set<int>,
    )
        requires
            tree.wf(),
            self.wf(tree),
            self.settled(),
            self.bounds().contains_key(node),
            0 <= node < tree.nodes@.len(),
            after.wf(tree),
            after.settled(),
            after.bounds() == self.bounds().remove(node),
            after.seen().len() == self.seen().len(),
            forall|other: int|
                0 <= other < self.seen().len() ==> #[trigger] after.seen()[other] == (
                self.seen()[other] || tree.covers(node, other)),
            forall|other: int| #[trigger]
                after.scores().contains_key(other) <==> self.scores().contains_key(other)
                    || loose.contains(other),
            forall|other: int| #[trigger]
                loose.contains(other) <==> tree.covers(node, other) && !self.seen()[other],
        ensures
            after.holds(tree, point) <==> self.holds(tree, point),
    {
        assert(tree.node_wf(node));
        if self.waits(tree, point) {
            let other = choose|other: int| #[trigger]
                self.bounds().contains_key(other) && tree.covers(other, point);
            if other == node {
                assert(loose.contains(point));
            } else {
                assert(tree.apart(other, node));
                assert(after.bounds().contains_key(other));
                assert(after.seen()[point] == (self.seen()[point] || tree.covers(node, point)));
                assert(after.covered(tree, point));
            }
        }
        if after.waits(tree, point) {
            let other = choose|other: int| #[trigger]
                after.bounds().contains_key(other) && tree.covers(other, point);
            assert(self.bounds().contains_key(other));
            assert(self.covered(tree, point));
            assert(after.seen()[point] == (self.seen()[point] || tree.covers(node, point)));
        }
        if loose.contains(point) {
            assert(self.bounds().contains_key(node) && tree.covers(node, point));
            assert(self.covered(tree, point));
        }
    }

    /// Where bounds are admissible, a leading point that settles belongs before
    /// everything else that the search holds.
    pub proof fn lemma_settled_point_is_next(
        &self,
        tree: NodeTree,
        bounds: spec_fn(int) -> Option<i64>,
        scores: spec_fn(int) -> Option<i64>,
        point: int,
        score: i64,
    )
        requires
            tree.wf(),
            self.wf(tree),
            self.settled(),
            self.agrees(bounds, scores),
            admissible(tree, bounds, scores),
            self.leads(tree, point, score),
            self.settles(tree, point, score),
        ensures
            self.is_next(tree, scores, point, score),
    {
        assert forall|other: int| #[trigger]
            self.holds(tree, other) && other != point && scores(other) is Some implies tree.before(
            point,
            score,
            other,
            scores(other)->0,
        ) by {
            if self.scores().contains_key(other) {
                assert(tree.before(point, score, other, self.scores()[other]));
            } else {
                assert(self.waits(tree, other));
                let node = choose|node: int| #[trigger]
                    self.bounds().contains_key(node) && tree.covers(node, other);
                assert(tree.node_wf(node));
                assert(bounds(node) == Some(self.bounds()[node]));
                assert(scores(other)->0 <= bounds(node)->0);
                assert(tree.nodes@[node].min_id <= tree.ids@[other]);
            }
        }
    }

    /// Whether a point belongs before everything else that the search holds.
    pub open spec fn is_next(
        &self,
        tree: NodeTree,
        scores: spec_fn(int) -> Option<i64>,
        point: int,
        score: i64,
    ) -> bool {
        &&& self.holds(tree, point)
        &&& scores(point) == Some(score)
        &&& forall|other: int| #[trigger]
            self.holds(tree, other) && other != point && scores(other) is Some ==> tree.before(
                point,
                score,
                other,
                scores(other)->0,
            )
    }

    /// Whether no held point exceeds the bound of a block that was opened since.
    pub open spec fn opens_needed(
        &self,
        tree: NodeTree,
        bounds: spec_fn(int) -> Option<i64>,
        scores: spec_fn(int) -> Option<i64>,
        opened: Set<int>,
    ) -> bool {
        forall|node: int, point: int|
            #![trigger opened.contains(node), self.holds(tree, point)]
            opened.contains(node) && !self.expanded().contains(node) && self.holds(tree, point)
                && scores(point) is Some ==> bounds(node) is Some && scores(point)->0
                <= bounds(node)->0
    }

    /// A block that is opened while nothing is decided has a bound that no held point
    /// exceeds.
    proof fn lemma_open_is_needed(
        &self,
        tree: NodeTree,
        bounds: spec_fn(int) -> Option<i64>,
        scores: spec_fn(int) -> Option<i64>,
        node: int,
        point: int,
    )
        requires
            tree.wf(),
            self.wf(tree),
            self.settled(),
            self.agrees(bounds, scores),
            admissible(tree, bounds, scores),
            self.opens(tree, node),
            self.is_undecided(),
            self.holds(tree, point),
            scores(point) is Some,
        ensures
            bounds(node) is Some,
            scores(point)->0 <= bounds(node)->0,
    {
        assert(bounds(node) == Some(self.bounds()[node]));
        if self.scores().contains_key(point) {
            let other = choose|other: int| #[trigger]
                self.bounds().contains_key(other) && self.scores()[point] <= self.bounds()[other];
            assert(!tree.node_entry(other, self.bounds()[other]).precedes(
                tree.node_entry(node, self.bounds()[node]),
            ));
        } else {
            assert(self.waits(tree, point));
            let other = choose|other: int| #[trigger]
                self.bounds().contains_key(other) && tree.covers(other, point);
            assert(self.bounds@.contains_key(other));
            assert(bounds(other) == Some(self.bounds()[other]));
            assert(!tree.node_entry(other, self.bounds()[other]).precedes(
                tree.node_entry(node, self.bounds()[node]),
            ));
        }
    }

    /// Takes the next point of the exact order.
    pub fn next<G: KeySource, F: KeySource>(
        &mut self,
        tree: &NodeTree,
        bound: &G,
        scorer: &F,
    ) -> (result: Option<(usize, i64)>)
        requires
            tree.wf(),
            old(self).wf(*tree),
            old(self).settled(),
            old(self).counted(*tree),
            forall|node: int| 0 <= node < tree.nodes@.len() ==> #[trigger] bound.defined(node),
            forall|point: int| 0 <= point < tree.ids@.len() ==> #[trigger] scorer.defined(point),
        ensures
            final(self).wf(*tree),
            final(self).settled(),
            final(self).counted(*tree),
            old(self).expanded().subset_of(final(self).expanded()),
            sees_opened(
                *tree,
                old(self).expanded(),
                old(self).seen(),
                final(self).expanded(),
                final(self).seen(),
            ),
            match result {
                Some((point, score)) => {
                    &&& point < tree.ids@.len()
                    &&& final(self).seen()[point as int]
                    &&& old(self).holds(*tree, point as int)
                    &&& forall|other: int| #[trigger]
                        final(self).holds(*tree, other) <==> old(self).holds(*tree, other) && other
                            != point
                },
                None => forall|point: int| !#[trigger] old(self).holds(*tree, point)
                    && !final(self).holds(*tree, point),
            },
            forall|bounds: spec_fn(int) -> Option<i64>, scores: spec_fn(int) -> Option<i64>|
                #![trigger final(self).agrees(bounds, scores)]
                computes_bounds(bound, *tree, bounds) && computes_scores(scorer, *tree, scores)
                    && old(self).agrees(bounds, scores) ==> {
                    &&& final(self).agrees(bounds, scores)
                    &&& admissible(*tree, bounds, scores) ==> (result matches Some((point, score))
                        ==> old(self).is_next(*tree, scores, point as int, score))
                },
            forall|bounds: spec_fn(int) -> Option<i64>, scores: spec_fn(int) -> Option<i64>|
                computes_bounds(bound, *tree, bounds) && computes_scores(scorer, *tree, scores)
                    && old(self).agrees(bounds, scores) && admissible(*tree, bounds, scores)
                    ==> #[trigger] old(self).opens_needed(
                    *tree,
                    bounds,
                    scores,
                    final(self).expanded(),
                ),
    {
        loop
            invariant
                tree.wf(),
                self.wf(*tree),
                self.settled(),
                self.counted(*tree),
                forall|node: int| 0 <= node < tree.nodes@.len() ==> #[trigger] bound.defined(node),
                forall|point: int| 0 <= point < tree.ids@.len() ==> #[trigger] scorer.defined(point),
                forall|point: int| #[trigger]
                    self.holds(*tree, point) <==> old(self).holds(*tree, point),
                forall|bounds: spec_fn(int) -> Option<i64>, scores: spec_fn(int) -> Option<i64>|
                    #![trigger self.agrees(bounds, scores)]
                    computes_bounds(bound, *tree, bounds) && computes_scores(scorer, *tree, scores)
                        && old(self).agrees(bounds, scores) ==> self.agrees(bounds, scores),
                forall|bounds: spec_fn(int) -> Option<i64>, scores: spec_fn(int) -> Option<i64>|
                    computes_bounds(bound, *tree, bounds) && computes_scores(scorer, *tree, scores)
                        && old(self).agrees(bounds, scores) && admissible(*tree, bounds, scores)
                        ==> #[trigger] old(self).opens_needed(
                        *tree,
                        bounds,
                        scores,
                        self.expanded(),
                    ),
                old(self).expanded().subset_of(self.expanded()),
                sees_opened(
                    *tree,
                    old(self).expanded(),
                    old(self).seen(),
                    self.expanded(),
                    self.seen(),
                ),
            decreases tree.nodes@.len() - self.expanded().len(),
        {
            let fixed = self.next_point_is_fixed(tree);
            if fixed || self.node_count() == 0 {
                let ghost before = *self;
                let popped = self.pop_point(tree);
                proof {
                    before.lemma_pop_point(self, *tree, popped, fixed);
                    match popped {
                        Some((point, score)) => {
                            before.lemma_scored_was_seen(*tree, point as int);
                            assert(old(self).holds(*tree, point as int));
                            assert forall|other: int| #[trigger]
                                self.holds(*tree, other) <==> old(self).holds(*tree, other)
                                    && other != point by {
                                assert(before.holds(*tree, other) == old(self).holds(
                                    *tree,
                                    other,
                                ));
                            }
                            assert forall|bounds: spec_fn(int) -> Option<i64>, scores: spec_fn(
                                int,
                            ) -> Option<i64>|
                                #![trigger self.agrees(bounds, scores)]
                                computes_bounds(bound, *tree, bounds) && computes_scores(
                                    scorer,
                                    *tree,
                                    scores,
                                ) && old(self).agrees(bounds, scores) implies {
                                &&& self.agrees(bounds, scores)
                                &&& admissible(*tree, bounds, scores) ==> old(self).is_next(
                                    *tree,
                                    scores,
                                    point as int,
                                    score,
                                )
                            } by {
                                assert(before.agrees(bounds, scores));
                                assert forall|other: int| #[trigger]
                                    self.scores().contains_key(other) implies scores(other)
                                    == Some(self.scores()[other]) by {
                                    assert(before.scores().contains_key(other));
                                }
                                assert forall|other: int| #[trigger]
                                    self.bounds().contains_key(other) implies bounds(other)
                                    == Some(self.bounds()[other]) by {
                                    assert(before.bounds().contains_key(other));
                                }
                                if admissible(*tree, bounds, scores) {
                                    before.lemma_settled_point_is_next(
                                        *tree,
                                        bounds,
                                        scores,
                                        point as int,
                                        score,
                                    );
                                    assert(before.holds(*tree, point as int));
                                    assert forall|other: int| #[trigger]
                                        old(self).holds(*tree, other) && other != point as int
                                            && scores(other) is Some implies tree.before(
                                        point as int,
                                        score,
                                        other,
                                        scores(other)->0,
                                    ) by {
                                        assert(before.holds(*tree, other));
                                    }
                                }
                            }
                        },
                        None => {
                            assert forall|point: int| !#[trigger] old(self).holds(*tree, point)
                                && !self.holds(*tree, point) by {
                                assert(before.holds(*tree, point) == old(self).holds(
                                    *tree,
                                    point,
                                ));
                            }
                            assert forall|bounds: spec_fn(int) -> Option<i64>, scores: spec_fn(
                                int,
                            ) -> Option<i64>|
                                #![trigger self.agrees(bounds, scores)]
                                computes_bounds(bound, *tree, bounds) && computes_scores(
                                    scorer,
                                    *tree,
                                    scores,
                                ) && old(self).agrees(bounds, scores) implies self.agrees(
                                bounds,
                                scores,
                            ) by {
                                assert(before.agrees(bounds, scores));
                            }
                        },
                    }
                    assert forall|bounds: spec_fn(int) -> Option<i64>, scores: spec_fn(
                        int,
                    ) -> Option<i64>|
                        computes_bounds(bound, *tree, bounds) && computes_scores(
                            scorer,
                            *tree,
                            scores,
                        ) && old(self).agrees(bounds, scores) && admissible(
                            *tree,
                            bounds,
                            scores,
                        ) implies #[trigger] old(self).opens_needed(
                        *tree,
                        bounds,
                        scores,
                        self.expanded(),
                    ) by {
                        assert(self.expanded() == before.expanded());
                    }
                }
                return popped;
            }
            let ghost before = *self;
            self.expand_next(tree, bound, scorer);
            proof {
                let node = choose|node: int|
                    {
                        &&& #[trigger] before.opens(*tree, node)
                        &&& self.expanded() == before.expanded().insert(node)
                        &&& !before.expanded().contains(node)
                        &&& 0 <= node < tree.nodes@.len()
                        &&& forall|point: int|
                            0 <= point < before.seen().len() && #[trigger] self.seen()[point]
                                ==> before.seen()[point] || tree.covers(node, point)
                    };
                self.lemma_opened(*tree, before.expanded(), node);
                lemma_sees_one_more(
                    *tree,
                    old(self).expanded(),
                    old(self).seen(),
                    before.expanded(),
                    before.seen(),
                    node,
                    self.seen(),
                );
                assert forall|point: int| #[trigger] self.holds(*tree, point) <==> old(self).holds(
                    *tree,
                    point,
                ) by {
                    assert(before.holds(*tree, point) == old(self).holds(*tree, point));
                }
                assert forall|bounds: spec_fn(int) -> Option<i64>, scores: spec_fn(
                    int,
                ) -> Option<i64>|
                    #![trigger self.agrees(bounds, scores)]
                    computes_bounds(bound, *tree, bounds) && computes_scores(scorer, *tree, scores)
                        && old(self).agrees(bounds, scores) implies self.agrees(
                    bounds,
                    scores,
                ) by {
                    assert(before.agrees(bounds, scores));
                }
                assert forall|bounds: spec_fn(int) -> Option<i64>, scores: spec_fn(
                    int,
                ) -> Option<i64>|
                    computes_bounds(bound, *tree, bounds) && computes_scores(scorer, *tree, scores)
                        && old(self).agrees(bounds, scores) && admissible(
                        *tree,
                        bounds,
                        scores,
                    ) implies #[trigger] old(self).opens_needed(
                    *tree,
                    bounds,
                    scores,
                    self.expanded(),
                ) by {
                    assert(before.agrees(bounds, scores));
                    assert(old(self).opens_needed(*tree, bounds, scores, before.expanded()));
                    assert forall|other: int, point: int|
                        #![trigger self.expanded().contains(other), old(self).holds(*tree, point)]
                        self.expanded().contains(other) && !old(self).expanded().contains(other)
                            && old(self).holds(*tree, point) && scores(point) is Some implies
                        bounds(other) is Some && scores(point)->0 <= bounds(other)->0 by {
                        if other == node {
                            assert(before.holds(*tree, point));
                            before.lemma_open_is_needed(*tree, bounds, scores, node, point);
                        } else {
                            assert(before.expanded().contains(other));
                        }
                    }
                }
            }
        }
    }

    /// What taking the best scored point leaves, where it is fixed or no block is
    /// left.
    proof fn lemma_pop_point(
        &self,
        after: &Frontier,
        tree: NodeTree,
        popped: Option<(usize, i64)>,
        fixed: bool,
    )
        requires
            tree.wf(),
            self.wf(tree),
            self.settled(),
            self.counted(tree),
            fixed || self.pending_nodes() == 0,
            fixed ==> exists|point: int, score: i64|
                #![trigger self.leads(tree, point, score)]
                self.leads(tree, point, score) && self.settles(tree, point, score),
            popped is None ==> *after == *self && self.scores() == Map::<int, i64>::empty(),
            popped matches Some((point, score)) ==> {
                &&& point < tree.ids@.len()
                &&& self.leads(tree, point as int, score)
                &&& after.bounds() == self.bounds()
                &&& after.scores() == self.scores().remove(point as int)
                &&& after.expanded() == self.expanded()
                &&& after.seen() == self.seen()
                &&& after.loose() == self.loose()
                &&& after.counters() == self.counters()
                &&& after.pending_nodes() == self.pending_nodes()
                &&& after.pending_points() + 1 == self.pending_points()
            },
        ensures
            after.settled(),
            after.counted(tree),
            match popped {
                Some((point, score)) => {
                    &&& self.settles(tree, point as int, score)
                    &&& self.holds(tree, point as int)
                    &&& forall|other: int| #[trigger]
                        after.holds(tree, other) <==> self.holds(tree, other) && other != point
                },
                None => forall|point: int| !#[trigger] self.holds(tree, point) && !after.holds(
                    tree,
                    point,
                ),
            },
    {
        if self.pending_nodes() == 0 {
            assert forall|node: int| !self.bounds().contains_key(node) by {
                if self.bounds().contains_key(node) {
                    let entry = tree.node_entry(node, self.bounds@[node]);
                    assert(self.is_node_entry(tree, entry));
                    assert(self.nodes@.count(entry) == 1);
                }
            }
        }
        match popped {
            Some((point, score)) => {
                if fixed {
                    let (leader, best) = choose|leader: int, best: i64|
                        #![trigger self.leads(tree, leader, best)]
                        self.leads(tree, leader, best) && self.settles(tree, leader, best);
                    if leader != point as int {
                        assert(tree.before(leader, best, point as int, score));
                        assert(tree.before(point as int, score, leader, best));
                    }
                }
                assert forall|other: int| #[trigger]
                    after.holds(tree, other) <==> self.holds(tree, other) && other != point by {
                    if after.waits(tree, other) {
                        let node = choose|node: int| #[trigger]
                            after.bounds().contains_key(node) && tree.covers(node, other);
                        assert(self.bounds().contains_key(node));
                        assert(self.covered(tree, other));
                    }
                    if self.waits(tree, other) {
                        let node = choose|node: int| #[trigger]
                            self.bounds().contains_key(node) && tree.covers(node, other);
                        assert(after.bounds().contains_key(node));
                        assert(after.covered(tree, other));
                    }
                    assert(self.scores().contains_key(point as int));
                }
            },
            None => {
                if fixed {
                    let (leader, best) = choose|leader: int, best: i64|
                        #![trigger self.leads(tree, leader, best)]
                        self.leads(tree, leader, best) && self.settles(tree, leader, best);
                    assert(self.scores().contains_key(leader));
                }
            },
        }
    }
}

/// Whether a point belongs before all others of a set.
pub open spec fn is_best(
    tree: NodeTree,
    scores: spec_fn(int) -> Option<i64>,
    held: Set<int>,
    point: int,
) -> bool {
    &&& held.contains(point)
    &&& scores(point) is Some
    &&& forall|other: int| #[trigger]
        held.contains(other) && other != point && scores(other) is Some ==> tree.before(
            point,
            scores(point)->0,
            other,
            scores(other)->0,
        )
}

/// The points of a set, the best first.
pub open spec fn exact_order(
    tree: NodeTree,
    scores: spec_fn(int) -> Option<i64>,
    held: Set<int>,
) -> Seq<int>
    decreases held.len(),
{
    if held.finite() && exists|point: int| #[trigger] is_best(tree, scores, held, point) {
        let point = choose|point: int| #[trigger] is_best(tree, scores, held, point);
        seq![point] + exact_order(tree, scores, held.remove(point))
    } else {
        Seq::empty()
    }
}

/// The best point of a set is the first of its order.
pub proof fn lemma_best_is_first(
    tree: NodeTree,
    scores: spec_fn(int) -> Option<i64>,
    held: Set<int>,
    point: int,
)
    requires
        held.finite(),
        is_best(tree, scores, held, point),
    ensures
        exact_order(tree, scores, held) == seq![point] + exact_order(
            tree,
            scores,
            held.remove(point),
        ),
{
    let chosen = choose|chosen: int| #[trigger] is_best(tree, scores, held, chosen);
    if chosen != point {
        assert(tree.before(chosen, scores(chosen)->0, point, scores(point)->0));
        assert(tree.before(point, scores(point)->0, chosen, scores(chosen)->0));
    }
}

/// Some point of a set with scores is the best.
proof fn lemma_best_exists(
    tree: NodeTree,
    scores: spec_fn(int) -> Option<i64>,
    held: Set<int>,
) -> (point: int)
    requires
        tree.ids@.no_duplicates(),
        held.finite(),
        held.len() > 0,
        forall|other: int| #[trigger]
            held.contains(other) ==> 0 <= other < tree.ids@.len() && scores(other) is Some,
    ensures
        is_best(tree, scores, held, point),
    decreases held.len(),
{
    let some = held.choose();
    let left = held.remove(some);
    if left.len() == 0 {
        assert forall|other: int| #[trigger] held.contains(other) && other != some implies false by {
            assert(left.contains(other));
        }
        some
    } else {
        let best = lemma_best_exists(tree, scores, left);
        assert(tree.ids@[some] != tree.ids@[best]);
        if tree.before(some, scores(some)->0, best, scores(best)->0) {
            assert forall|other: int| #[trigger]
                held.contains(other) && other != some && scores(other) is Some implies tree.before(
                some,
                scores(some)->0,
                other,
                scores(other)->0,
            ) by {
                assert(left.contains(other));
            }
            some
        } else {
            assert forall|other: int| #[trigger]
                held.contains(other) && other != best && scores(other) is Some implies tree.before(
                best,
                scores(best)->0,
                other,
                scores(other)->0,
            ) by {
                if other != some {
                    assert(left.contains(other));
                }
            }
            best
        }
    }
}

/// The exact order of scored points holds each of them once, every point in front
/// of those that it belongs before: it is the exhaustive ranking.
pub proof fn law_exact_order_is_exhaustive(
    tree: NodeTree,
    scores: spec_fn(int) -> Option<i64>,
    held: Set<int>,
)
    requires
        tree.wf(),
        held.finite(),
        forall|other: int| #[trigger]
            held.contains(other) ==> 0 <= other < tree.ids@.len() && scores(other) is Some,
    ensures
        exact_order(tree, scores, held).len() == held.len(),
        forall|point: int| #[trigger]
            exact_order(tree, scores, held).contains(point) <==> held.contains(point),
        forall|i: int, j: int|
            #![trigger exact_order(tree, scores, held)[i], exact_order(tree, scores, held)[j]]
            0 <= i < j < exact_order(tree, scores, held).len() ==> tree.before(
                exact_order(tree, scores, held)[i],
                scores(exact_order(tree, scores, held)[i])->0,
                exact_order(tree, scores, held)[j],
                scores(exact_order(tree, scores, held)[j])->0,
            ),
    decreases held.len(),
{
    let order = exact_order(tree, scores, held);
    if held.len() > 0 {
        let best = lemma_best_exists(tree, scores, held);
        lemma_best_is_first(tree, scores, held, best);
        let left = held.remove(best);
        law_exact_order_is_exhaustive(tree, scores, left);
        let rest = exact_order(tree, scores, left);
        assert forall|point: int| #[trigger] order.contains(point) <==> held.contains(point) by {
            if held.contains(point) {
                if point == best {
                    assert(order[0] == point);
                } else {
                    assert(left.contains(point));
                    assert(rest.contains(point));
                    let at = choose|at: int| 0 <= at < rest.len() && rest[at] == point;
                    assert(order[at + 1] == point);
                }
            }
            if order.contains(point) {
                let at = choose|at: int| 0 <= at < order.len() && order[at] == point;
                if at > 0 {
                    assert(rest[at - 1] == point);
                    assert(rest.contains(point));
                }
            }
        }
        assert forall|i: int, j: int|
            #![trigger order[i], order[j]]
            0 <= i < j < order.len() implies tree.before(
            order[i],
            scores(order[i])->0,
            order[j],
            scores(order[j])->0,
        ) by {
            assert(rest[j - 1] == order[j]);
            assert(rest.contains(order[j]));
            if i > 0 {
                assert(rest[i - 1] == order[i]);
            } else {
                assert(held.contains(order[j]));
            }
        }
    } else {
        assert(held =~= Set::<int>::empty());
    }
}

/// A point with its score.
#[derive(Clone, Copy, Debug, PartialEq, Eq, Structural)]
pub struct DenseScoredPoint {
    pub id: u32,
    /// The key of the score.
    pub score: i64,
}

/// A lazy exact stream over a tree of blocks.
///
/// `bound` gives a bound of the scores in a block, `scorer` the score of a point.
/// The order is exact where no score exceeds the bound of a block that holds its
/// point.
pub struct CertifiedStream<'a, G: KeySource, F: KeySource> {
    tree: &'a NodeTree,
    frontier: Option<Frontier>,
    bound: G,
    scorer: F,
    points_emitted: usize,
    truth: Ghost<Option<(spec_fn(int) -> Option<i64>, spec_fn(int) -> Option<i64>)>>,
}

/// Whether functions compute the given bounds and scores, and nothing else, and the
/// bounds are admissible.
pub open spec fn certifies<G: KeySource, F: KeySource>(
    bound: &G,
    scorer: &F,
    tree: NodeTree,
    bounds: spec_fn(int) -> Option<i64>,
    scores: spec_fn(int) -> Option<i64>,
) -> bool {
    &&& computes_bounds(bound, tree, bounds)
    &&& computes_scores(scorer, tree, scores)
    &&& admissible(tree, bounds, scores)
    &&& scores_exactly(*scorer, tree.ids@.len(), scores)
}

/// Whether the given scores, and no others, are what a source gives for the leading
/// points.
pub open spec fn scores_exactly<F: KeySource>(
    scorer: F,
    count: nat,
    scores: spec_fn(int) -> Option<i64>,
) -> bool {
    &&& forall|point: int|
        0 <= point < count ==> {
            &&& #[trigger] scores(point) is Some
            &&& scorer.gives(point, scores(point)->0)
        }
    &&& forall|point: int, value: i64|
        0 <= point < count && #[trigger] scorer.gives(point, value) ==> scores(point) == Some(value)
}

/// Scores that functions compute are the same on all points.
pub proof fn lemma_scores_are_unique<G: KeySource, F: KeySource>(
    bound: &G,
    scorer: &F,
    tree: NodeTree,
    bounds: spec_fn(int) -> Option<i64>,
    scores: spec_fn(int) -> Option<i64>,
    other_bounds: spec_fn(int) -> Option<i64>,
    other_scores: spec_fn(int) -> Option<i64>,
)
    requires
        tree.wf(),
        certifies(bound, scorer, tree, bounds, scores),
        certifies(bound, scorer, tree, other_bounds, other_scores),
    ensures
        forall|point: int|
            0 <= point < tree.ids@.len() ==> #[trigger] scores(point) == other_scores(point),
{
    assert forall|point: int| 0 <= point < tree.ids@.len() implies #[trigger] scores(point)
        == other_scores(point) by {
        assert(scorer.gives(point, scores(point)->0));
    }
}

/// Sets of points with the same scores have the same order.
pub proof fn lemma_order_of_equal_scores(
    tree: NodeTree,
    scores: spec_fn(int) -> Option<i64>,
    other: spec_fn(int) -> Option<i64>,
    held: Set<int>,
)
    requires
        held.finite(),
        forall|point: int| #[trigger] held.contains(point) ==> scores(point) == other(point),
    ensures
        exact_order(tree, scores, held) == exact_order(tree, other, held),
    decreases held.len(),
{
    if exists|point: int| #[trigger] is_best(tree, scores, held, point) {
        let point = choose|point: int| #[trigger] is_best(tree, scores, held, point);
        assert(is_best(tree, other, held, point));
        lemma_best_is_first(tree, scores, held, point);
        lemma_best_is_first(tree, other, held, point);
        lemma_order_of_equal_scores(tree, scores, other, held.remove(point));
    } else {
        assert forall|point: int| !#[trigger] is_best(tree, other, held, point) by {
            if is_best(tree, other, held, point) {
                assert(is_best(tree, scores, held, point));
            }
        }
    }
}

/// What one step of a stream does: it emits a point that was held, and that is the
/// first of the exact order where bounds are admissible; it ends where nothing is
/// held.
pub open spec fn steps_exactly<'a, G: KeySource, F: KeySource>(
    before: CertifiedStream<'a, G, F>,
    result: Option<DenseScoredPoint>,
    after: CertifiedStream<'a, G, F>,
) -> bool {
    &&& after.tree() == before.tree()
    &&& after.emitted() == (if result is Some {
        before.emitted().saturating_add(1)
    } else {
        before.emitted()
    })
    &&& match result {
        Some(found) => exists|point: int|
            {
                &&& #[trigger] before.held().contains(point)
                &&& 0 <= point < before.tree().ids@.len()
                &&& found.id == before.tree().ids@[point]
                &&& after.held() == before.held().remove(point)
                &&& after.scored().contains(point)
                &&& before.order() matches Some(order) ==> {
                    &&& order.len() > 0
                    &&& order[0] == point
                    &&& found.score == before.score_of(point)
                    &&& after.order() == Some(order.drop_first())
                }
            },
        None => {
            &&& before.held() == Set::<int>::empty()
            &&& after.held() == Set::<int>::empty()
            &&& before.order() matches Some(order) ==> order.len() == 0 && after.order() == Some(
                order,
            )
        },
    }
    &&& forall|point: int| #[trigger] after.score_of(point) == before.score_of(point)
    &&& before.order() is None ==> after.order() is None
    &&& steps_lazily(before, result, after)
}

/// What one step of a stream evaluates: the points that it scores are in blocks that it
/// opens, and where bounds are admissible it opens no block whose bound is below the score
/// of the point that it emits.
pub open spec fn steps_lazily<'a, G: KeySource, F: KeySource>(
    before: CertifiedStream<'a, G, F>,
    result: Option<DenseScoredPoint>,
    after: CertifiedStream<'a, G, F>,
) -> bool {
    &&& before.opened().subset_of(after.opened())
    &&& before.scored().subset_of(after.scored())
    &&& forall|point: int| #[trigger]
        after.scored().contains(point) && !before.scored().contains(point) ==> opened_for(
            before.tree(),
            before.opened(),
            after.opened(),
            point,
        )
    &&& forall|node: int| #[trigger] after.bound_of(node) == before.bound_of(node)
    &&& before.order() is Some ==> (result matches Some(found) ==> forall|node: int| #[trigger]
        after.opened().contains(node) && !before.opened().contains(node) ==> found.score
            <= before.bound_of(node))
}

impl<'a, G: KeySource, F: KeySource> CertifiedStream<'a, G, F> {
    #[verifier::type_invariant]
    closed spec fn well_formed(&self) -> bool {
        &&& self.tree.wf()
        &&& self.frontier matches Some(frontier) ==> frontier.wf(*self.tree) && frontier.settled()
            && frontier.counted(*self.tree)
        &&& forall|node: int|
            0 <= node < self.tree.nodes@.len() ==> #[trigger] self.bound.defined(node)
        &&& forall|point: int|
            0 <= point < self.tree.ids@.len() ==> #[trigger] self.scorer.defined(point)
        &&& self.truth@ matches Some((bounds, scores)) ==> {
            &&& certifies(&self.bound, &self.scorer, *self.tree, bounds, scores)
            &&& self.frontier matches Some(frontier) ==> frontier.agrees(bounds, scores)
        }
    }

    /// The tree of the stream.
    pub closed spec fn tree(&self) -> NodeTree {
        *self.tree
    }

    /// The points that were not emitted.
    pub closed spec fn held(&self) -> Set<int> {
        match self.frontier {
            Some(frontier) => held_points(frontier, *self.tree),
            None => Set::empty(),
        }
    }

    /// How many points were emitted.
    pub closed spec fn emitted(&self) -> usize {
        self.points_emitted
    }

    /// What is still to come, where the bounds are admissible.
    pub closed spec fn order(&self) -> Option<Seq<int>> {
        match self.truth@ {
            Some((_, scores)) => Some(exact_order(*self.tree, scores, self.held())),
            None => None,
        }
    }

    /// The score of a point, where the bounds are admissible.
    pub closed spec fn score_of(&self, point: int) -> i64 {
        match self.truth@ {
            Some((_, scores)) => scores(point)->0,
            None => 0,
        }
    }

    /// The bound of a block, where the bounds are admissible.
    pub closed spec fn bound_of(&self, node: int) -> i64 {
        match self.truth@ {
            Some((bounds, _)) => bounds(node)->0,
            None => 0,
        }
    }

    /// The blocks that were opened.
    pub closed spec fn opened(&self) -> Set<int> {
        match self.frontier {
            Some(frontier) => frontier.expanded(),
            None => Set::empty(),
        }
    }

    /// The points that were scored.
    pub closed spec fn scored(&self) -> Set<int> {
        match self.frontier {
            Some(frontier) => seen_points(frontier.seen()),
            None => Set::empty(),
        }
    }

    /// Whether the stream computes the given bounds and scores.
    pub closed spec fn computes(
        &self,
        bounds: spec_fn(int) -> Option<i64>,
        scores: spec_fn(int) -> Option<i64>,
    ) -> bool {
        certifies(&self.bound, &self.scorer, *self.tree, bounds, scores)
    }

    /// A stream over all points of a tree.
    pub fn new(tree: &'a NodeTree, bound: G, scorer: F) -> (stream: CertifiedStream<'a, G, F>)
        requires
            tree.wf(),
            forall|node: int| 0 <= node < tree.nodes@.len() ==> #[trigger] bound.defined(node),
            forall|point: int| 0 <= point < tree.ids@.len() ==> #[trigger] scorer.defined(point),
        ensures
            stream.tree() == *tree,
            stream.emitted() == 0,
            stream.opened() == Set::<int>::empty(),
            stream.scored() == Set::<int>::empty(),
            forall|node: int, key: i64|
                0 <= node < tree.nodes@.len() && #[trigger] bound.gives(node, key)
                    && stream.order() is Some ==> stream.bound_of(node) == key,
            forall|point: int| #[trigger]
                stream.held().contains(point) <==> 0 <= point < tree.ids@.len(),
            forall|bounds: spec_fn(int) -> Option<i64>, scores: spec_fn(int) -> Option<i64>|
                #[trigger] certifies(&bound, &scorer, *tree, bounds, scores) ==> {
                    &&& stream.order() == Some(exact_order(*tree, scores, stream.held()))
                    &&& forall|point: int|
                        0 <= point < tree.ids@.len() ==> Some(#[trigger] stream.score_of(point))
                            == scores(point)
                },
    {
        let frontier = Frontier::open(tree, &bound);
        let ghost truth = if exists|
            bounds: spec_fn(int) -> Option<i64>,
            scores: spec_fn(int) -> Option<i64>,
        | #[trigger]
            certifies(&bound, &scorer, *tree, bounds, scores) {
            let (bounds, scores) = choose|
                bounds: spec_fn(int) -> Option<i64>,
                scores: spec_fn(int) -> Option<i64>,
            | #[trigger]
                certifies(&bound, &scorer, *tree, bounds, scores);
            Some((bounds, scores))
        } else {
            None
        };
        proof {
            if truth is Some {
                let (bounds, scores) = truth->0;
                assert(frontier.agrees(bounds, scores));
            }
            lemma_held_points(frontier, *tree);
        }
        let stream = CertifiedStream {
            tree,
            frontier: Some(frontier),
            bound,
            scorer,
            points_emitted: 0,
            truth: Ghost(truth),
        };
        proof {
            assert(stream.scored() =~= Set::<int>::empty());
            assert forall|point: int| #[trigger] stream.held().contains(point) <==> 0 <= point
                < tree.ids@.len() by {
                assert(frontier.holds(*tree, point) == (0 <= point < tree.ids@.len()));
            }
            assert forall|bounds: spec_fn(int) -> Option<i64>, scores: spec_fn(int) -> Option<i64>|
                #[trigger] certifies(&bound, &scorer, *tree, bounds, scores) implies {
                &&& stream.order() == Some(exact_order(*tree, scores, stream.held()))
                &&& forall|point: int|
                    0 <= point < tree.ids@.len() ==> Some(#[trigger] stream.score_of(point))
                        == scores(point)
            } by {
                let (mine, known) = truth->0;
                lemma_scores_are_unique(&bound, &scorer, *tree, mine, known, bounds, scores);
                lemma_order_of_equal_scores(*tree, known, scores, stream.held());
            }
        }
        stream
    }

    /// The next point of the exact order; `None` at the end.
    pub fn next_point(&mut self) -> (result: Option<DenseScoredPoint>)
        ensures
            steps_exactly(*old(self), result, *final(self)),
            forall|bounds: spec_fn(int) -> Option<i64>, scores: spec_fn(int) -> Option<i64>|
                #[trigger] final(self).computes(bounds, scores) <==> old(self).computes(
                    bounds,
                    scores,
                ),
    {
        proof {
            use_type_invariant(&*self);
        }
        let ghost before = *self;
        let ghost tree = *self.tree;
        let mut state: Option<Frontier> = None;
        std::mem::swap(&mut self.frontier, &mut state);
        let mut frontier = match state {
            Some(frontier) => frontier,
            None => {
                proof {
                    self.lemma_nothing_left();
                }
                return None;
            },
        };
        let ghost held = frontier;
        let popped = frontier.next(self.tree, &self.bound, &self.scorer);
        proof {
            lemma_held_points(held, tree);
            lemma_held_points(frontier, tree);
            if before.truth@ is Some {
                let (bounds, scores) = before.truth@->0;
                assert(frontier.agrees(bounds, scores));
            }
        }
        let ghost left = frontier;
        self.frontier = Some(frontier);
        match popped {
            Some((point, score)) => {
                self.points_emitted = self.points_emitted.saturating_add(1);
                proof {
                    assert(self.held() =~= before.held().remove(point as int)) by {
                        assert forall|other: int| self.held().contains(other)
                            <==> before.held().remove(point as int).contains(other) by {
                            assert(left.holds(tree, other) == (held.holds(tree, other) && other
                                != point));
                        }
                    }
                    assert(before.held().contains(point as int));
                    assert(self.scored().contains(point as int));
                    assert forall|other: int| #[trigger]
                        self.scored().contains(other) && !before.scored().contains(
                            other,
                        ) implies opened_for(tree, before.opened(), self.opened(), other) by {
                        assert(left.seen()[other]);
                    }
                    assert forall|other: int| before.scored().contains(other) implies #[trigger]
                        self.scored().contains(other) by {
                        assert(left.seen()[other]);
                    }
                    if before.truth@ is Some {
                        let (bounds, scores) = before.truth@->0;
                        assert(left.agrees(bounds, scores));
                        assert(held.is_next(tree, scores, point as int, score));
                        assert(held.opens_needed(tree, bounds, scores, left.expanded()));
                        assert(is_best(tree, scores, before.held(), point as int)) by {
                            assert forall|other: int| #[trigger]
                                before.held().contains(other) && other != point as int && scores(
                                    other,
                                ) is Some implies tree.before(
                                point as int,
                                scores(point as int)->0,
                                other,
                                scores(other)->0,
                            ) by {
                                assert(held.holds(tree, other));
                            }
                        }
                        lemma_best_is_first(tree, scores, before.held(), point as int);
                        let order = before.order()->0;
                        assert(order.drop_first() =~= exact_order(tree, scores, self.held()));
                    }
                }
                Some(DenseScoredPoint { id: self.tree.ids[point], score })
            },
            None => {
                proof {
                    assert(before.held() =~= Set::<int>::empty());
                    assert(self.held() =~= Set::<int>::empty());
                    self.lemma_nothing_left();
                }
                None
            },
        }
    }

    /// Nothing is ordered where nothing is held.
    proof fn lemma_nothing_left(&self)
        requires
            self.held() == Set::<int>::empty(),
        ensures
            self.order() matches Some(order) ==> order == Seq::<int>::empty(),
    {
        if self.truth@ is Some {
            let (_, scores) = self.truth@->0;
            assert forall|point: int| !#[trigger] is_best(
                *self.tree,
                scores,
                Set::<int>::empty(),
                point,
            ) by {}
        }
    }
}

/// The identities of points in a row.
pub open spec fn ids_of(tree: NodeTree, points: Seq<int>) -> Seq<ExtendedPointId> {
    Seq::new(points.len(), |i: int| ExtendedPointId::NumId(tree.ids@[points[i]] as u64))
}

/// The identities of an exact order are a ranking: none occurs twice.
pub proof fn lemma_order_is_ranking(
    tree: NodeTree,
    scores: spec_fn(int) -> Option<i64>,
    held: Set<int>,
)
    requires
        tree.wf(),
        held.finite(),
        forall|other: int| #[trigger]
            held.contains(other) ==> 0 <= other < tree.ids@.len() && scores(other) is Some,
    ensures
        ids_of(tree, exact_order(tree, scores, held)).no_duplicates(),
        ids_of(tree, exact_order(tree, scores, held)).len() <= usize::MAX,
{
    law_exact_order_is_exhaustive(tree, scores, held);
    let order = exact_order(tree, scores, held);
    let ids = ids_of(tree, order);
    assert forall|i: int, j: int| 0 <= i < j < ids.len() implies ids[i] != ids[j] by {
        assert(order.contains(order[i]) && order.contains(order[j]));
        assert(tree.before(order[i], scores(order[i])->0, order[j], scores(order[j])->0));
        assert(order[i] != order[j]);
        assert(tree.ids@[order[i]] != tree.ids@[order[j]]);
    }
    let all = vstd::set_lib::set_int_range(0, tree.ids@.len() as int);
    vstd::set_lib::lemma_int_range(0, tree.ids@.len() as int);
    assert(held.subset_of(all));
    vstd::set_lib::lemma_len_subset(held, all);
}

/// What a search has done.
#[derive(Clone, Copy, Debug, PartialEq, Eq, Structural)]
pub struct SearchWork {
    pub bounds_evaluated: usize,
    pub nodes_opened: usize,
    pub leaves_opened: usize,
    pub points_scored: usize,
    pub most_nodes: usize,
    pub most_points: usize,
}

impl<'a, G: KeySource, F: KeySource> CertifiedStream<'a, G, F> {
    /// The blocks that have a bound and were not opened.
    pub closed spec fn unopened(&self) -> Set<int> {
        match self.frontier {
            Some(frontier) => frontier.bounds().dom(),
            None => Set::empty(),
        }
    }

    /// What the search has done so far.
    pub fn work(&self) -> (work: SearchWork)
        ensures
            work.bounds_evaluated == self.opened().len() + self.unopened().len(),
            work.nodes_opened == self.opened().len(),
            work.leaves_opened == opened_leaves(self.tree(), self.opened()).len(),
            work.leaves_opened <= work.nodes_opened,
            work.points_scored == self.scored().len(),
            work.most_nodes >= self.unopened().len(),
    {
        proof {
            use_type_invariant(&*self);
            assert(opened_leaves(self.tree(), Set::<int>::empty()) =~= Set::<int>::empty());
            if self.frontier is Some {
                let tree = self.tree();
                self.opened().lemma_len_filter(
                    |node: int| tree.nodes@[node].children@.len() == 0,
                );
            }
        }
        match &self.frontier {
            Some(frontier) => SearchWork {
                bounds_evaluated: frontier.bounds_evaluated(self.tree),
                nodes_opened: frontier.nodes_opened(),
                leaves_opened: frontier.leaves_opened(),
                points_scored: frontier.points_scored(),
                most_nodes: frontier.most_nodes(),
                most_points: frontier.most_points(),
            },
            None => SearchWork {
                bounds_evaluated: 0,
                nodes_opened: 0,
                leaves_opened: 0,
                points_scored: 0,
                most_nodes: 0,
                most_points: 0,
            },
        }
    }

    /// How many points were emitted.
    pub fn points_emitted(&self) -> (count: usize)
        ensures
            count == self.emitted(),
    {
        self.points_emitted
    }
}

impl<'a, G: KeySource, F: KeySource> ExactRrfStream for CertifiedStream<'a, G, F> {
    open spec fn rest(&self) -> Option<Seq<ExtendedPointId>> {
        match self.order() {
            Some(order) => Some(ids_of(self.tree(), order)),
            None => None,
        }
    }

    open spec fn replies(
        &self,
        result: OperationResult<Option<ExtendedPointId>>,
        later: &Self,
    ) -> bool {
        exists|found: Option<DenseScoredPoint>| #[trigger]
            steps_exactly(*self, found, *later) && result == Ok::<
                Option<ExtendedPointId>,
                OperationError,
            >(identity_of(found))
    }

    fn next(&mut self) -> (result: OperationResult<Option<ExtendedPointId>>)
        ensures
            result matches Ok(_),
    {
        let found = self.next_point();
        proof {
            assert(steps_exactly(*old(self), found, *self));
            if old(self).order() is Some {
                let order = old(self).order()->0;
                if found is Some {
                    assert(ids_of(self.tree(), order.drop_first()) =~= ids_of(
                        self.tree(),
                        order,
                    ).drop_first());
                }
            }
        }
        match found {
            Some(point) => Ok(Some(ExtendedPointId::NumId(point.id as u64))),
            None => Ok(None),
        }
    }
}

/// The identity of a point, where there is one.
pub open spec fn identity_of(found: Option<DenseScoredPoint>) -> Option<ExtendedPointId> {
    match found {
        Some(point) => Some(ExtendedPointId::NumId(point.id as u64)),
        None => None,
    }
}

/// The points that a search holds.
pub open spec fn held_points(frontier: Frontier, tree: NodeTree) -> Set<int> {
    Set::new(|point: int| frontier.holds(tree, point))
}

/// A search holds no more than the points of its tree.
pub proof fn lemma_held_points(frontier: Frontier, tree: NodeTree)
    requires
        tree.wf(),
        frontier.wf(tree),
        frontier.settled(),
    ensures
        held_points(frontier, tree).finite(),
        forall|point: int| #[trigger]
            held_points(frontier, tree).contains(point) ==> 0 <= point < tree.ids@.len(),
{
    let all = vstd::set_lib::set_int_range(0, tree.ids@.len() as int);
    vstd::set_lib::lemma_int_range(0, tree.ids@.len() as int);
    let held = held_points(frontier, tree);
    assert forall|point: int| #[trigger] held.contains(point) implies 0 <= point
        < tree.ids@.len() by {
        assert(frontier.holds(tree, point));
        if frontier.scores().contains_key(point) {
            assert(frontier.scores@.contains_key(point));
        }
    }
    assert(held.subset_of(all));
    vstd::set_lib::lemma_len_subset(held, all);
}

} // verus!
