//! Checked composition networks.

use super::types::{ExactCompositionError, ExactCompositionNode};
use crate::id_index::IdSet;
use crate::order::{is_finite_key, ExtendedPointId};
use crate::reciprocal_rank_fusion::scoring::{valid_weight, valid_weights};
use vstd::prelude::*;

verus! {

/// The inputs of a node.
pub open spec fn inputs_of(node: ExactCompositionNode) -> Seq<usize> {
    match node {
        ExactCompositionNode::Fusion { inputs, .. } => inputs@,
        _ => Seq::empty(),
    }
}

/// The first identity that a sequence repeats.
pub open spec fn first_repeated(ids: Seq<ExtendedPointId>) -> Option<ExtendedPointId>
    decreases ids.len(),
{
    if ids.len() == 0 {
        None
    } else {
        match first_repeated(ids.drop_last()) {
            Some(id) => Some(id),
            None => if ids.drop_last().contains(ids.last()) {
                Some(ids.last())
            } else {
                None
            },
        }
    }
}

/// The first input that is no node.
pub open spec fn first_invalid(inputs: Seq<usize>, count: nat) -> Option<usize>
    decreases inputs.len(),
{
    if inputs.len() == 0 {
        None
    } else {
        match first_invalid(inputs.drop_last(), count) {
            Some(input) => Some(input),
            None => if inputs.last() >= count {
                Some(inputs.last())
            } else {
                None
            },
        }
    }
}

/// Whether fusion weights fit their inputs: one each, valid, and one positive.
pub open spec fn fits_weights(inputs: Seq<usize>, weights: Seq<i64>) -> bool {
    &&& weights.len() == inputs.len()
    &&& valid_weights(weights)
    &&& exists|i: int| 0 <= i < weights.len() && #[trigger] weights[i] > 0
}

/// Why a node is refused, in a network of `count` nodes.
pub open spec fn node_fault(
    node: usize,
    definition: ExactCompositionNode,
    count: nat,
) -> Option<ExactCompositionError> {
    match definition {
        ExactCompositionNode::Leaf { order } => match first_repeated(order@) {
            Some(identity) => Some(ExactCompositionError::DuplicateLeafIdentity { node, identity }),
            None => None,
        },
        ExactCompositionNode::ExternalLeaf => None,
        ExactCompositionNode::Fusion { inputs, weights, rrf_k, output_limit } => if inputs@.len()
            == 0 {
            Some(ExactCompositionError::EmptyFusion(node))
        } else {
            match first_invalid(inputs@, count) {
                Some(input) => Some(ExactCompositionError::InvalidInput { node, input }),
                None => if !fits_weights(inputs@, weights@) {
                    Some(ExactCompositionError::InvalidWeights(node))
                } else if rrf_k == 0 {
                    Some(ExactCompositionError::InvalidRrfK(node))
                } else if output_limit == Some(0usize) {
                    Some(ExactCompositionError::InvalidOutputLimit(node))
                } else {
                    None
                },
            }
        },
    }
}

/// Why the first refused node is refused.
pub open spec fn nodes_fault(
    nodes: Seq<ExactCompositionNode>,
    upto: int,
) -> Option<ExactCompositionError>
    decreases upto,
{
    if upto <= 0 {
        None
    } else {
        match nodes_fault(nodes, upto - 1) {
            Some(error) => Some(error),
            None => node_fault((upto - 1) as usize, nodes[upto - 1], nodes.len()),
        }
    }
}

/// Whether every node is placed and none stands in front of one of its inputs.
pub open spec fn is_topological(nodes: Seq<ExactCompositionNode>, order: Seq<usize>) -> bool {
    &&& order.len() == nodes.len()
    &&& order.no_duplicates()
    &&& forall|place: int| 0 <= place < order.len() ==> #[trigger] order[place] < nodes.len()
    &&& forall|place: int, input: int|
        0 <= place < order.len() && 0 <= input < inputs_of(nodes[order[place] as int]).len()
            ==> order.take(place).contains(
            #[trigger] inputs_of(nodes[#[trigger] order[place] as int])[input],
        )
}

/// Whether a node is not placed and all its inputs are.
pub open spec fn is_ready(
    nodes: Seq<ExactCompositionNode>,
    placed: Seq<usize>,
    node: usize,
) -> bool {
    &&& node < nodes.len()
    &&& !placed.contains(node)
    &&& forall|input: int|
        0 <= input < inputs_of(nodes[node as int]).len() ==> placed.contains(
            #[trigger] inputs_of(nodes[node as int])[input],
        )
}

/// Whether every place holds the smallest node that is ready there.
pub open spec fn takes_smallest(nodes: Seq<ExactCompositionNode>, order: Seq<usize>) -> bool {
    forall|place: int|
        0 <= place < order.len() ==> {
            &&& is_ready(nodes, order.take(place), #[trigger] order[place])
            &&& forall|other: usize|
                #[trigger] is_ready(nodes, order.take(place), other) ==> order[place] <= other
        }
}

/// An order that cannot go on although nodes are left shows that the network has
/// no topological order.
proof fn lemma_stuck_means_cycle(
    nodes: Seq<ExactCompositionNode>,
    placed: Seq<usize>,
    order: Seq<usize>,
)
    requires
        placed.no_duplicates(),
        placed.len() < nodes.len(),
        forall|node: usize| !is_ready(nodes, placed, node),
    ensures
        !is_topological(nodes, order),
{
    if is_topological(nodes, order) {
        assert forall|place: int| 0 <= place < order.len() implies placed.contains(
            #[trigger] order[place],
        ) by {
            lemma_all_placed(nodes, placed, order, place);
        }
        crate::tables::lemma_no_longer(order, placed);
    }
}

proof fn lemma_all_placed(
    nodes: Seq<ExactCompositionNode>,
    placed: Seq<usize>,
    order: Seq<usize>,
    place: int,
)
    requires
        forall|node: usize| !is_ready(nodes, placed, node),
        is_topological(nodes, order),
        0 <= place < order.len(),
    ensures
        placed.contains(order[place]),
    decreases place,
{
    let node = order[place];
    let inputs = inputs_of(nodes[node as int]);
    if !placed.contains(node) {
        assert(!is_ready(nodes, placed, node));
        let input = choose|input: int|
            0 <= input < inputs.len() && !placed.contains(#[trigger] inputs[input]);
        let leading = order.take(place);
        assert(leading.contains(inputs_of(nodes[order[place] as int])[input]));
        let before = choose|before: int|
            0 <= before < leading.len() && leading[before] == inputs[input];
        assert(order[before] == inputs[input]);
        lemma_all_placed(nodes, placed, order, before);
    }
}

/// Whether all inputs of a node are placed.
fn inputs_are_placed(definition: &ExactCompositionNode, is_placed: &Vec<bool>) -> (result: bool)
    requires
        forall|input: int|
            0 <= input < inputs_of(*definition).len() ==> #[trigger] inputs_of(*definition)[input]
                < is_placed@.len(),
    ensures
        result == forall|input: int|
            0 <= input < inputs_of(*definition).len() ==> is_placed@[#[trigger] inputs_of(
                *definition,
            )[input] as int],
{
    match definition {
        ExactCompositionNode::Fusion { inputs, .. } => {
            let mut i: usize = 0;
            while i < inputs.len()
                invariant
                    inputs@ == inputs_of(*definition),
                    forall|input: int|
                        0 <= input < inputs_of(*definition).len()
                            ==> #[trigger] inputs_of(*definition)[input] < is_placed@.len(),
                    i <= inputs@.len(),
                    forall|input: int|
                        0 <= input < i ==> is_placed@[#[trigger] inputs_of(
                            *definition,
                        )[input] as int],
                decreases inputs@.len() - i,
            {
                assert(inputs_of(*definition)[i as int] < is_placed@.len());
                if !is_placed[inputs[i]] {
                    assert(!is_placed@[inputs_of(*definition)[i as int] as int]);
                    return false;
                }
                i += 1;
            }
            true
        },
        _ => true,
    }
}

/// The topological order that places the smallest ready node first.
pub fn topological_order(nodes: &Vec<ExactCompositionNode>) -> (result: Result<
    Vec<usize>,
    ExactCompositionError,
>)
    requires
        forall|node: int, input: int|
            0 <= node < nodes@.len() && 0 <= input < inputs_of(#[trigger] nodes@[node]).len()
                ==> #[trigger] inputs_of(nodes@[node])[input] < nodes@.len(),
    ensures
        match result {
            Ok(order) => is_topological(nodes@, order@) && takes_smallest(nodes@, order@),
            Err(error) => error == ExactCompositionError::Cycle && !exists|order: Seq<usize>|
                is_topological(nodes@, order),
        },
{
    let mut order: Vec<usize> = Vec::new();
    let mut is_placed: Vec<bool> = crate::tables::repeated(false, nodes.len());
    while order.len() < nodes.len()
        invariant
            forall|node: int, input: int|
                0 <= node < nodes@.len() && 0 <= input < inputs_of(#[trigger] nodes@[node]).len()
                    ==> #[trigger] inputs_of(nodes@[node])[input] < nodes@.len(),
            is_placed@.len() == nodes@.len(),
            order@.len() <= nodes@.len(),
            order@.no_duplicates(),
            forall|node: usize|
                node < nodes@.len() ==> is_placed@[node as int] == #[trigger] order@.contains(node),
            takes_smallest(nodes@, order@),
        decreases nodes@.len() - order@.len(),
    {
        let mut node: usize = 0;
        let mut found = false;
        while node < nodes.len() && !found
            invariant
                forall|node: int, input: int|
                    0 <= node < nodes@.len() && 0 <= input < inputs_of(
                        #[trigger] nodes@[node],
                    ).len() ==> #[trigger] inputs_of(nodes@[node])[input] < nodes@.len(),
                is_placed@.len() == nodes@.len(),
                forall|node: usize|
                    node < nodes@.len() ==> is_placed@[node as int] == #[trigger] order@.contains(
                        node,
                    ),
                node <= nodes@.len(),
                forall|other: usize| other < node ==> !#[trigger] is_ready(nodes@, order@, other),
                found ==> is_ready(nodes@, order@, node),
            decreases nodes@.len() - node, (if found { 0int } else { 1int }),
        {
            let ghost definition = nodes@[node as int];
            if !is_placed[node] && inputs_are_placed(&nodes[node], &is_placed) {
                proof {
                    assert forall|input: int|
                        0 <= input < inputs_of(definition).len() implies order@.contains(
                        #[trigger] inputs_of(definition)[input],
                    ) by {
                        assert(is_placed@[inputs_of(definition)[input] as int]);
                    }
                    assert(!order@.contains(node));
                }
                found = true;
            } else {
                proof {
                    assert(!is_ready(nodes@, order@, node)) by {
                        if is_ready(nodes@, order@, node) {
                            assert(!order@.contains(node));
                            assert forall|input: int|
                                0 <= input < inputs_of(definition).len() implies is_placed@[
                            #[trigger] inputs_of(definition)[input] as int] by {
                                assert(order@.contains(inputs_of(definition)[input]));
                            }
                        }
                    }
                }
                node += 1;
            }
        }
        if !found {
            proof {
                if exists|full: Seq<usize>| is_topological(nodes@, full) {
                    let full = choose|full: Seq<usize>| is_topological(nodes@, full);
                    lemma_stuck_means_cycle(nodes@, order@, full);
                }
            }
            return Err(ExactCompositionError::Cycle);
        }
        let ghost before = order@;
        order.push(node);
        is_placed.set(node, true);
        proof {
            assert forall|place: int| 0 <= place < order@.len() implies {
                &&& is_ready(nodes@, order@.take(place), #[trigger] order@[place])
                &&& forall|other: usize|
                    #[trigger] is_ready(nodes@, order@.take(place), other) ==> order@[place]
                        <= other
            } by {
                if place < before.len() {
                    assert(order@.take(place) =~= before.take(place));
                    assert(order@[place] == before[place]);
                } else {
                    assert(order@.take(place) =~= before);
                }
            }
            assert forall|other: usize| other < nodes@.len() implies is_placed@[other as int]
                == #[trigger] order@.contains(other) by {
                if before.contains(other) {
                    let k = choose|k: int| 0 <= k < before.len() && before[k] == other;
                    assert(order@[k] == other);
                }
                if other == node {
                    assert(order@[before.len() as int] == other);
                }
                if order@.contains(other) && other != node {
                    let k = choose|k: int| 0 <= k < order@.len() && order@[k] == other;
                    assert(before[k] == other);
                }
            }
        }
    }
    proof {
        assert(is_topological(nodes@, order@)) by {
            assert forall|place: int, input: int|
                0 <= place < order@.len() && 0 <= input < inputs_of(
                    nodes@[order@[place] as int],
                ).len() implies order@.take(place).contains(
                #[trigger] inputs_of(nodes@[#[trigger] order@[place] as int])[input],
            ) by {
                assert(is_ready(nodes@, order@.take(place), order@[place]));
            }
            assert forall|place: int| 0 <= place < order@.len() implies #[trigger] order@[place]
                < nodes@.len() by {
                assert(is_ready(nodes@, order@.take(place), order@[place]));
            }
        }
    }
    Ok(order)
}

/// The first identity that an order repeats.
fn repeated_identity(order: &Vec<ExtendedPointId>) -> (repeated: Option<ExtendedPointId>)
    ensures
        repeated == first_repeated(order@),
{
    let mut identities = IdSet::new();
    let mut i: usize = 0;
    assert(order@.take(0).len() == 0);
    while i < order.len()
        invariant
            i <= order@.len(),
            forall|id: ExtendedPointId|
                identities@.contains(id) <==> order@.take(i as int).contains(id),
            first_repeated(order@.take(i as int)) is None,
        decreases order@.len() - i,
    {
        let id = order[i];
        let ghost shorter = order@.take(i as int);
        let ghost longer = order@.take(i + 1);
        proof {
            assert(longer.drop_last() =~= shorter);
            assert(longer.last() == id);
        }
        if !identities.insert(id) {
            proof {
                lemma_first_repeated_persists(order@, i + 1);
            }
            return Some(id);
        }
        proof {
            assert(longer =~= shorter.push(id));
            assert forall|other: ExtendedPointId| identities@.contains(other) <==> longer.contains(
                other,
            ) by {
                if shorter.contains(other) {
                    let k = choose|k: int| 0 <= k < shorter.len() && shorter[k] == other;
                    assert(longer[k] == other);
                }
                if other == id {
                    assert(longer[i as int] == other);
                }
                if longer.contains(other) && other != id {
                    let k = choose|k: int| 0 <= k < longer.len() && longer[k] == other;
                    assert(shorter[k] == other);
                }
            }
        }
        i += 1;
    }
    assert(order@.take(i as int) =~= order@);
    None
}

proof fn lemma_first_repeated_persists(ids: Seq<ExtendedPointId>, count: int)
    requires
        0 <= count <= ids.len(),
        first_repeated(ids.take(count)) is Some,
    ensures
        first_repeated(ids) == first_repeated(ids.take(count)),
    decreases ids.len() - count,
{
    if count == ids.len() {
        assert(ids.take(count) =~= ids);
    } else {
        assert(ids.take(count + 1).drop_last() =~= ids.take(count));
        lemma_first_repeated_persists(ids, count + 1);
    }
}

/// An order that repeats nothing has no duplicates.
pub proof fn lemma_nothing_repeated(ids: Seq<ExtendedPointId>)
    requires
        first_repeated(ids) is None,
    ensures
        ids.no_duplicates(),
    decreases ids.len(),
{
    if ids.len() > 0 {
        let shorter = ids.drop_last();
        lemma_nothing_repeated(shorter);
        assert(ids =~= shorter.push(ids.last()));
        assert forall|i: int| 0 <= i < shorter.len() implies shorter[i] != ids.last() by {
            assert(shorter.contains(shorter[i]));
        }
    }
}

proof fn lemma_first_invalid_persists(inputs: Seq<usize>, count: nat, upto: int)
    requires
        0 <= upto <= inputs.len(),
        first_invalid(inputs.take(upto), count) is Some,
    ensures
        first_invalid(inputs, count) == first_invalid(inputs.take(upto), count),
    decreases inputs.len() - upto,
{
    if upto == inputs.len() {
        assert(inputs.take(upto) =~= inputs);
    } else {
        assert(inputs.take(upto + 1).drop_last() =~= inputs.take(upto));
        lemma_first_invalid_persists(inputs, count, upto + 1);
    }
}

/// Inputs of which none is invalid are nodes.
pub proof fn lemma_no_invalid(inputs: Seq<usize>, count: nat)
    requires
        first_invalid(inputs, count) is None,
    ensures
        forall|i: int| 0 <= i < inputs.len() ==> #[trigger] inputs[i] < count,
    decreases inputs.len(),
{
    if inputs.len() > 0 {
        lemma_no_invalid(inputs.drop_last(), count);
        assert forall|i: int| 0 <= i < inputs.len() implies #[trigger] inputs[i] < count by {
            if i < inputs.len() - 1 {
                assert(inputs.drop_last()[i] == inputs[i]);
            }
        }
    }
}

/// The first input that is no node.
fn invalid_input(inputs: &Vec<usize>, count: usize) -> (invalid: Option<usize>)
    ensures
        invalid == first_invalid(inputs@, count as nat),
{
    let mut i: usize = 0;
    assert(inputs@.take(0).len() == 0);
    while i < inputs.len()
        invariant
            i <= inputs@.len(),
            first_invalid(inputs@.take(i as int), count as nat) is None,
        decreases inputs@.len() - i,
    {
        proof {
            assert(inputs@.take(i + 1).drop_last() =~= inputs@.take(i as int));
            assert(inputs@.take(i + 1).last() == inputs@[i as int]);
        }
        if inputs[i] >= count {
            proof {
                lemma_first_invalid_persists(inputs@, count as nat, i + 1);
            }
            return Some(inputs[i]);
        }
        i += 1;
    }
    assert(inputs@.take(i as int) =~= inputs@);
    None
}

/// Whether fusion weights fit their inputs.
fn weights_fit(inputs: &Vec<usize>, weights: &Vec<i64>) -> (fits: bool)
    ensures
        fits == fits_weights(inputs@, weights@),
{
    if weights.len() != inputs.len() {
        return false;
    }
    let mut positive = false;
    let mut i: usize = 0;
    while i < weights.len()
        invariant
            i <= weights@.len(),
            forall|k: int| 0 <= k < i ==> valid_weight(#[trigger] weights@[k]),
            positive == exists|k: int| 0 <= k < i && #[trigger] weights@[k] > 0,
        decreases weights@.len() - i,
    {
        if !is_finite_key(weights[i]) || weights[i] < 0 {
            assert(!valid_weight(weights@[i as int]));
            return false;
        }
        if weights[i] > 0 {
            assert(weights@[i as int] > 0);
            positive = true;
        }
        i += 1;
    }
    positive
}

/// A checked network: every node is sound, and there is an order in which no
/// node stands in front of one of its inputs.
#[derive(Clone, Debug)]
pub struct ExactCompositionPlan {
    nodes: Vec<ExactCompositionNode>,
    root: usize,
    topological_order: Vec<usize>,
}

impl ExactCompositionPlan {
    /// The nodes of the network.
    pub closed spec fn nodes(&self) -> Seq<ExactCompositionNode> {
        self.nodes@
    }

    /// The node whose output is wanted.
    pub closed spec fn root(&self) -> usize {
        self.root
    }

    /// The order in which nodes are built.
    pub closed spec fn order(&self) -> Seq<usize> {
        self.topological_order@
    }

    /// Whether the network is sound.
    pub open spec fn wf(&self) -> bool {
        &&& self.nodes().len() <= usize::MAX
        &&& self.root() < self.nodes().len()
        &&& nodes_fault(self.nodes(), self.nodes().len() as int) is None
        &&& is_topological(self.nodes(), self.order())
        &&& takes_smallest(self.nodes(), self.order())
    }

    /// Checks a network.
    pub fn new(nodes: Vec<ExactCompositionNode>, root: usize) -> (result: Result<
        ExactCompositionPlan,
        ExactCompositionError,
    >)
        ensures
            if nodes@.len() == 0 {
                result == Err::<ExactCompositionPlan, ExactCompositionError>(
                    ExactCompositionError::EmptyNetwork,
                )
            } else if root >= nodes@.len() {
                result == Err::<ExactCompositionPlan, ExactCompositionError>(
                    ExactCompositionError::InvalidRoot(root),
                )
            } else {
                match nodes_fault(nodes@, nodes@.len() as int) {
                    Some(error) => result == Err::<ExactCompositionPlan, ExactCompositionError>(
                        error,
                    ),
                    None => match result {
                        Ok(plan) => plan.wf() && plan.nodes() == nodes@ && plan.root() == root,
                        Err(error) => error == ExactCompositionError::Cycle && !exists|
                            order: Seq<usize>,
                        |
                            is_topological(nodes@, order),
                    },
                }
            },
    {
        if nodes.len() == 0 {
            return Err(ExactCompositionError::EmptyNetwork);
        }
        if root >= nodes.len() {
            return Err(ExactCompositionError::InvalidRoot(root));
        }
        let mut node: usize = 0;
        while node < nodes.len()
            invariant
                node <= nodes@.len(),
                nodes@.len() > 0,
                root < nodes@.len(),
                nodes_fault(nodes@, node as int) is None,
            decreases nodes@.len() - node,
        {
            match check_node(node, &nodes[node], nodes.len()) {
                Some(error) => {
                    proof {
                        lemma_nodes_fault_persists(nodes@, node + 1);
                    }
                    return Err(error);
                },
                None => {},
            }
            node += 1;
        }
        proof {
            lemma_sound_nodes(nodes@);
        }
        match topological_order(&nodes) {
            Ok(topological_order) => Ok(ExactCompositionPlan { nodes, root, topological_order }),
            Err(error) => Err(error),
        }
    }

    /// The number of nodes.
    pub fn node_count(&self) -> (count: usize)
        ensures
            count == self.nodes().len(),
    {
        self.nodes.len()
    }

    /// A node.
    pub fn node(&self, node: usize) -> (definition: &ExactCompositionNode)
        requires
            node < self.nodes().len(),
        ensures
            *definition == self.nodes()[node as int],
    {
        &self.nodes[node]
    }

    /// The node whose output is wanted.
    pub fn root_node(&self) -> (root: usize)
        ensures
            root == self.root(),
    {
        self.root
    }

    /// The node at a place of the order in which nodes are built.
    pub fn ordered_node(&self, place: usize) -> (node: usize)
        requires
            place < self.order().len(),
        ensures
            node == self.order()[place as int],
    {
        self.topological_order[place]
    }
}

/// Why a node is refused.
fn check_node(node: usize, definition: &ExactCompositionNode, count: usize) -> (fault: Option<
    ExactCompositionError,
>)
    ensures
        fault == node_fault(node, *definition, count as nat),
{
    match definition {
        ExactCompositionNode::Leaf { order } => match repeated_identity(order) {
            Some(identity) => Some(ExactCompositionError::DuplicateLeafIdentity { node, identity }),
            None => None,
        },
        ExactCompositionNode::ExternalLeaf => None,
        ExactCompositionNode::Fusion { inputs, weights, rrf_k, output_limit } => {
            if inputs.len() == 0 {
                return Some(ExactCompositionError::EmptyFusion(node));
            }
            match invalid_input(inputs, count) {
                Some(input) => {
                    return Some(ExactCompositionError::InvalidInput { node, input });
                },
                None => {},
            }
            if !weights_fit(inputs, weights) {
                return Some(ExactCompositionError::InvalidWeights(node));
            }
            if *rrf_k == 0 {
                return Some(ExactCompositionError::InvalidRrfK(node));
            }
            match output_limit {
                Some(limit) => {
                    if *limit == 0 {
                        return Some(ExactCompositionError::InvalidOutputLimit(node));
                    }
                },
                None => {},
            }
            None
        },
    }
}

proof fn lemma_nodes_fault_persists(nodes: Seq<ExactCompositionNode>, upto: int)
    requires
        0 <= upto <= nodes.len(),
        nodes_fault(nodes, upto) is Some,
    ensures
        nodes_fault(nodes, nodes.len() as int) == nodes_fault(nodes, upto),
    decreases nodes.len() - upto,
{
    if upto < nodes.len() {
        lemma_nodes_fault_persists(nodes, upto + 1);
    }
}

proof fn lemma_each_sound(nodes: Seq<ExactCompositionNode>, upto: int, node: int)
    requires
        nodes_fault(nodes, upto) is None,
        0 <= node < upto <= nodes.len(),
    ensures
        node_fault(node as usize, nodes[node], nodes.len()) is None,
    decreases upto,
{
    if node < upto - 1 {
        lemma_each_sound(nodes, upto - 1, node);
    }
}

/// What holds of the nodes of a sound network.
pub proof fn lemma_sound_nodes(nodes: Seq<ExactCompositionNode>)
    requires
        nodes_fault(nodes, nodes.len() as int) is None,
    ensures
        forall|node: int|
            0 <= node < nodes.len() ==> node_fault(
                node as usize,
                #[trigger] nodes[node],
                nodes.len(),
            ) is None,
        forall|node: int, input: int|
            0 <= node < nodes.len() && 0 <= input < inputs_of(#[trigger] nodes[node]).len()
                ==> #[trigger] inputs_of(nodes[node])[input] < nodes.len(),
        forall|node: int|
            0 <= node < nodes.len() ==> (#[trigger] nodes[node] matches ExactCompositionNode::Leaf {
                order,
            } ==> order@.no_duplicates()),
{
    assert forall|node: int| 0 <= node < nodes.len() implies node_fault(
        node as usize,
        #[trigger] nodes[node],
        nodes.len(),
    ) is None by {
        lemma_each_sound(nodes, nodes.len() as int, node);
    }
    assert forall|node: int, input: int|
        0 <= node < nodes.len() && 0 <= input < inputs_of(#[trigger] nodes[node]).len() implies
        #[trigger] inputs_of(nodes[node])[input] < nodes.len() by {
        assert(node_fault(node as usize, nodes[node], nodes.len()) is None);
        lemma_no_invalid(inputs_of(nodes[node]), nodes.len());
    }
    assert forall|node: int| 0 <= node < nodes.len() implies (
    #[trigger] nodes[node] matches ExactCompositionNode::Leaf { order }
        ==> order@.no_duplicates()) by {
        if let ExactCompositionNode::Leaf { order } = nodes[node] {
            assert(node_fault(node as usize, nodes[node], nodes.len()) is None);
            lemma_nothing_repeated(order@);
        }
    }
}

} // verus!
