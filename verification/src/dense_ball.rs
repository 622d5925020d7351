//! Exact dense streams over balls: blocks of documents with a bound of their scores.

pub use crate::dense_clustering::BallGeometry;
pub use crate::dense_documents::DenseDocument;
pub use crate::frontier::DenseScoredPoint;

use crate::dense_clustering::{
    are_clusters, ascend, balanced_kmeans_partitions, groups, is_partition,
    law_partition_keeps_places,
};
use crate::dense_documents::{
    are_documents, document_ids, ids_of_documents, is_listed, is_sorted_copy, is_valid,
    lemma_sorted_documents, same_document, sorted_documents, valid_document,
};
use crate::dense_plan::{finite_vector, is_finite_vector};
use crate::frontier::{
    certifies, exact_order, in_blocks, is_min_id, steps_exactly, tiles, CertifiedStream, KeySource,
    NodeTree, TreeNode,
};
use crate::tables::copied;
use vstd::prelude::*;

verus! {

/// Why an index or a stream is refused.
#[derive(Clone, Copy, Debug, PartialEq, Eq, Structural)]
pub enum DenseBallError {
    ZeroBlockSize,
    ZeroClusteringIterations,
    InvalidBranchFactor,
    EmptyDocuments,
    DuplicateDocument(u32),
    InvalidDocument(u32),
    InvalidQuery,
}

/// What is wrong with the first document, from the given place on, that does not have
/// the dimension of the first or is not finite.
pub open spec fn invalid_from(documents: Seq<DenseDocument>, at: int) -> Option<DenseBallError>
    decreases documents.len() - at,
{
    if at >= documents.len() {
        None
    } else if !is_valid(documents[at], documents[0].vector@.len()) {
        Some(DenseBallError::InvalidDocument(documents[at].id))
    } else {
        invalid_from(documents, at + 1)
    }
}

/// Whether an identity is the smallest that occurs twice.
pub open spec fn is_smallest_duplicate(documents: Seq<DenseDocument>, id: u32) -> bool {
    &&& occurs_twice(documents, id)
    &&& forall|other: u32| #[trigger] occurs_twice(documents, other) ==> id <= other
}

/// Whether an identity occurs twice.
pub open spec fn occurs_twice(documents: Seq<DenseDocument>, id: u32) -> bool {
    exists|i: int, j: int|
        0 <= i < j < documents.len() && (#[trigger] documents[i]).id == id && (
        #[trigger] documents[j]).id == id
}

/// What is wrong with documents, or with the size of their blocks, before their
/// identities are compared.
pub open spec fn shape_fault(
    documents: Seq<DenseDocument>,
    block_size: usize,
) -> Option<DenseBallError> {
    if block_size == 0 {
        Some(DenseBallError::ZeroBlockSize)
    } else if documents.len() == 0 {
        Some(DenseBallError::EmptyDocuments)
    } else if documents[0].vector@.len() == 0 {
        Some(DenseBallError::InvalidDocument(documents[0].id))
    } else {
        invalid_from(documents, 0)
    }
}

/// Whether an error is what is wrong with documents: their shape, or else the
/// smallest identity that occurs twice.
pub open spec fn is_documents_error(
    documents: Seq<DenseDocument>,
    block_size: usize,
    error: DenseBallError,
) -> bool {
    match shape_fault(documents, block_size) {
        Some(fault) => error == fault,
        None => error matches DenseBallError::DuplicateDocument(id) && is_smallest_duplicate(
            documents,
            id,
        ),
    }
}

/// Whether documents can be indexed.
pub open spec fn can_index(documents: Seq<DenseDocument>, block_size: usize) -> bool {
    shape_fault(documents, block_size) is None && document_ids(documents).no_duplicates()
}

proof fn lemma_all_valid(documents: Seq<DenseDocument>, at: int)
    requires
        0 <= at <= documents.len(),
        invalid_from(documents, at) is None,
    ensures
        forall|i: int|
            at <= i < documents.len() ==> is_valid(
                #[trigger] documents[i],
                documents[0].vector@.len(),
            ),
    decreases documents.len() - at,
{
    if at < documents.len() {
        lemma_all_valid(documents, at + 1);
    }
}

/// Checks documents and puts them in ascending order of identity.
pub fn validate_and_sort_documents(documents: &Vec<DenseDocument>, block_size: usize) -> (result:
    Result<Vec<DenseDocument>, DenseBallError>)
    ensures
        match result {
            Ok(sorted) => {
                &&& can_index(documents@, block_size)
                &&& are_documents(documents@)
                &&& is_sorted_copy(sorted@, documents@)
            },
            Err(error) => !can_index(documents@, block_size) && is_documents_error(
                documents@,
                block_size,
                error,
            ),
        },
{
    if block_size == 0 {
        return Err(DenseBallError::ZeroBlockSize);
    }
    if documents.len() == 0 {
        return Err(DenseBallError::EmptyDocuments);
    }
    let dimension: usize = documents[0].vector.len();
    if dimension == 0 {
        return Err(DenseBallError::InvalidDocument(documents[0].id));
    }
    let mut i: usize = 0;
    while i < documents.len()
        invariant
            i <= documents@.len(),
            documents@.len() > 0,
            block_size > 0,
            dimension > 0,
            dimension == documents@[0].vector@.len(),
            shape_fault(documents@, block_size) == invalid_from(documents@, i as int),
        decreases documents@.len() - i,
    {
        if !valid_document(&documents[i], dimension) {
            return Err(DenseBallError::InvalidDocument(documents[i].id));
        }
        i += 1;
    }
    proof {
        lemma_all_valid(documents@, 0);
    }
    let places = crate::dense_documents::places_by_id(documents);
    let mut k: usize = 1;
    while k < places.len()
        invariant
            1 <= k,
            places@.len() > 0 ==> k <= places@.len(),
            places@.len() == documents@.len(),
            shape_fault(documents@, block_size) is None,
            places@.no_duplicates(),
            forall|j: int| 0 <= j < places@.len() ==> #[trigger] places@[j] < documents@.len(),
            forall|a: int, b: int|
                0 <= a < b < places@.len() ==> documents@[#[trigger] places@[a] as int].id
                    <= documents@[#[trigger] places@[b] as int].id,
            forall|a: int, b: int|
                0 <= a < b < k ==> documents@[#[trigger] places@[a] as int].id < documents@[
                #[trigger] places@[b] as int].id,
            forall|at: int|
                0 <= at < documents@.len() ==> #[trigger] places@.contains(at as usize),
        decreases places@.len() - k,
    {
        let id: u32 = documents[places[k - 1]].id;
        if id == documents[places[k]].id {
            proof {
                lemma_first_pair(documents@, places@, k as int);
            }
            return Err(DenseBallError::DuplicateDocument(id));
        }
        proof {
            assert forall|a: int, b: int| 0 <= a < b < k + 1 implies documents@[
            #[trigger] places@[a] as int].id < documents@[#[trigger] places@[b] as int].id by {
                if b == k {
                    assert(documents@[places@[k - 1] as int].id <= documents@[
                    places@[b] as int].id);
                    if a < k - 1 {
                        assert(documents@[places@[a] as int].id < documents@[
                        places@[k - 1] as int].id);
                    }
                }
            }
        }
        k += 1;
    }
    proof {
        lemma_no_pair(documents@, places@);
    }
    Ok(sorted_documents(documents))
}

/// The first equal pair in ascending order holds the smallest duplicate.
proof fn lemma_first_pair(documents: Seq<DenseDocument>, places: Seq<usize>, k: int)
    requires
        1 <= k < places.len(),
        places.len() == documents.len(),
        places.len() <= usize::MAX,
        places.no_duplicates(),
        forall|j: int| 0 <= j < places.len() ==> #[trigger] places[j] < documents.len(),
        forall|a: int, b: int|
            0 <= a < b < places.len() ==> documents[#[trigger] places[a] as int].id <= documents[
            #[trigger] places[b] as int].id,
        forall|a: int, b: int|
            0 <= a < b < k ==> documents[#[trigger] places[a] as int].id < documents[
            #[trigger] places[b] as int].id,
        forall|at: int| 0 <= at < documents.len() ==> #[trigger] places.contains(at as usize),
        documents[places[k - 1] as int].id == documents[places[k] as int].id,
    ensures
        is_smallest_duplicate(documents, documents[places[k] as int].id),
        !document_ids(documents).no_duplicates(),
{
    let id = documents[places[k] as int].id;
    let first = places[k - 1] as int;
    let second = places[k] as int;
    assert(first != second);
    assert(occurs_twice(documents, id)) by {
        if first < second {
            assert(documents[first].id == id && documents[second].id == id);
        } else {
            assert(documents[second].id == id && documents[first].id == id);
        }
    }
    assert(document_ids(documents)[first] == document_ids(documents)[second]);
    assert forall|other: u32| #[trigger] occurs_twice(documents, other) implies id <= other by {
        let (i, j) = choose|i: int, j: int|
            0 <= i < j < documents.len() && (#[trigger] documents[i]).id == other && (
            #[trigger] documents[j]).id == other;
        assert(places.contains(i as usize) && places.contains(j as usize));
        let a = choose|a: int| 0 <= a < places.len() && places[a] == i as usize;
        let b = choose|b: int| 0 <= b < places.len() && places[b] == j as usize;
        assert(a != b);
        if other < id {
            if a >= k {
                assert(documents[places[k - 1] as int].id <= documents[places[a] as int].id);
            }
            if b >= k {
                assert(documents[places[k - 1] as int].id <= documents[places[b] as int].id);
            }
            if a < b {
                assert(documents[places[a] as int].id < documents[places[b] as int].id);
            } else {
                assert(documents[places[b] as int].id < documents[places[a] as int].id);
            }
        }
    }
}

proof fn lemma_no_pair(documents: Seq<DenseDocument>, places: Seq<usize>)
    requires
        places.len() == documents.len(),
        places.len() <= usize::MAX,
        forall|j: int| 0 <= j < places.len() ==> #[trigger] places[j] < documents.len(),
        forall|a: int, b: int|
            0 <= a < b < places.len() ==> documents[#[trigger] places[a] as int].id < documents[
            #[trigger] places[b] as int].id,
        forall|at: int| 0 <= at < documents.len() ==> #[trigger] places.contains(at as usize),
    ensures
        document_ids(documents).no_duplicates(),
{
    let ids = document_ids(documents);
    assert forall|i: int, j: int| 0 <= i < j < ids.len() implies ids[i] != ids[j] by {
        assert(places.contains(i as usize) && places.contains(j as usize));
        let a = choose|a: int| 0 <= a < places.len() && places[a] == i as usize;
        let b = choose|b: int| 0 <= b < places.len() && places[b] == j as usize;
        if a < b {
            assert(documents[places[a] as int].id < documents[places[b] as int].id);
        } else if b < a {
            assert(documents[places[b] as int].id < documents[places[a] as int].id);
        }
    }
}

/// The identities of documents in a given order.
pub open spec fn ordered_ids(documents: Seq<DenseDocument>, order: Seq<usize>) -> Seq<u32> {
    Seq::new(order.len(), |i: int| documents[order[i] as int].id)
}

/// Whether a block holds points, knows its smallest identity, and is covered by its
/// children, which have smaller numbers.
pub open spec fn block_wf(ids: Seq<u32>, nodes: Seq<TreeNode>, node: int) -> bool {
    let block = nodes[node];
    &&& block.start < block.end <= ids.len()
    &&& is_min_id(ids, block.start as int, block.end as int, block.min_id)
    &&& block.children@.len() > 0 ==> tiles(
        nodes,
        block.children@,
        block.start as int,
        block.end as int,
    )
    &&& forall|i: int| 0 <= i < block.children@.len() ==> #[trigger] block.children@[i] < node
}

/// Whether all blocks are well-formed.
pub open spec fn blocks_wf(ids: Seq<u32>, nodes: Seq<TreeNode>) -> bool {
    forall|node: int| 0 <= node < nodes.len() ==> #[trigger] block_wf(ids, nodes, node)
}

/// Adding identities and blocks at the end keeps a block well-formed.
proof fn lemma_block_stays(
    ids: Seq<u32>,
    nodes: Seq<TreeNode>,
    more_ids: Seq<u32>,
    more_nodes: Seq<TreeNode>,
    node: int,
)
    requires
        0 <= node < nodes.len() <= more_nodes.len(),
        ids.len() <= more_ids.len(),
        forall|i: int| 0 <= i < ids.len() ==> #[trigger] more_ids[i] == ids[i],
        forall|i: int| 0 <= i < nodes.len() ==> #[trigger] more_nodes[i] == nodes[i],
        block_wf(ids, nodes, node),
    ensures
        block_wf(more_ids, more_nodes, node),
{
    let block = nodes[node];
    assert(more_nodes[node] == block);
    let at = choose|at: int| block.start <= at < block.end && #[trigger] ids[at] == block.min_id;
    assert(more_ids[at] == block.min_id);
    assert forall|i: int| block.start <= i < block.end implies block.min_id
        <= #[trigger] more_ids[i] by {
        assert(more_ids[i] == ids[i]);
    }
    if block.children@.len() > 0 {
        let children = block.children@;
        assert forall|i: int| 0 <= i < children.len() implies #[trigger] children[i]
            < more_nodes.len() by {}
        assert forall|i: int| 0 <= i < children.len() implies more_nodes[children[i] as int]
            == nodes[#[trigger] children[i] as int] by {}
    }
}

/// Whether a row of places is another row in some order.
pub open spec fn is_rearranged(segment: Seq<usize>, places: Seq<usize>) -> bool {
    &&& segment.len() == places.len()
    &&& segment.no_duplicates()
    &&& forall|place: usize| #[trigger] segment.contains(place) <==> places.contains(place)
}

/// Whether the order of places and the blocks over it were continued by one tree.
pub open spec fn grows_tree(
    documents: Seq<DenseDocument>,
    places: Seq<usize>,
    order: Seq<usize>,
    nodes: Seq<TreeNode>,
    more_order: Seq<usize>,
    more_nodes: Seq<TreeNode>,
    root: int,
) -> bool {
    &&& order.len() <= more_order.len()
    &&& more_order.take(order.len() as int) == order
    &&& is_rearranged(more_order.skip(order.len() as int), places)
    &&& nodes.len() <= root < more_nodes.len()
    &&& root == more_nodes.len() - 1
    &&& forall|i: int| 0 <= i < nodes.len() ==> #[trigger] more_nodes[i] == nodes[i]
    &&& blocks_wf(ordered_ids(documents, more_order), more_nodes)
    &&& more_nodes[root].start == order.len()
    &&& more_nodes[root].end == more_order.len()
}

/// Rows without repetition that hold the same places are equally long.
proof fn lemma_same_places(left: Seq<usize>, right: Seq<usize>)
    requires
        left.no_duplicates(),
        right.no_duplicates(),
        forall|place: usize| #[trigger] left.contains(place) <==> right.contains(place),
    ensures
        left.len() == right.len(),
{
    left.unique_seq_to_set();
    right.unique_seq_to_set();
    assert(left.to_set() =~= right.to_set()) by {
        assert forall|place: usize| left.to_set().contains(place) <==> right.to_set().contains(
            place,
        ) by {
            assert(left.contains(place) == right.contains(place));
        }
    }
}

/// Whether the leading parts hold a place.
spec fn in_leading_parts(parts: Seq<Vec<usize>>, upto: int, place: usize) -> bool {
    exists|part: int| 0 <= part < upto && (#[trigger] parts[part])@.contains(place)
}

/// Builds a tree over the documents at the given places: few documents make a leaf,
/// more are parted into clusters, each with a tree of its own. Appends the places in
/// the order of the leaves, and the blocks, children first.
fn build_cluster_tree<
    M: Fn(&Vec<u32>, &Vec<u64>) -> i64,
    Z: Fn(&Vec<DenseDocument>, &Vec<usize>) -> Vec<u64>,
    H: Fn(&Vec<u32>) -> Vec<u64>,
    U: Fn(i64, i64) -> i64,
>(
    documents: &Vec<DenseDocument>,
    places: &Vec<usize>,
    leaf_size: usize,
    branch_factor: usize,
    iterations: usize,
    geometry: &BallGeometry<M, Z, H, U>,
    order: &mut Vec<usize>,
    nodes: &mut Vec<TreeNode>,
) -> (root: usize)
    requires
        geometry.answers(),
        places@.len() > 0,
        ascend(places@),
        forall|i: int| 0 <= i < places@.len() ==> #[trigger] places@[i] < documents@.len(),
        forall|i: int, j: int|
            0 <= i < j < documents@.len() ==> (#[trigger] documents@[i]).id < (
            #[trigger] documents@[j]).id,
        leaf_size > 0,
        branch_factor >= 2,
        blocks_wf(ordered_ids(documents@, old(order)@), old(nodes)@),
        forall|i: int|
            0 <= i < old(order)@.len() ==> #[trigger] old(order)@[i] < documents@.len(),
    ensures
        grows_tree(
            documents@,
            places@,
            old(order)@,
            old(nodes)@,
            final(order)@,
            final(nodes)@,
            root as int,
        ),
        forall|i: int|
            0 <= i < final(order)@.len() ==> #[trigger] final(order)@[i] < documents@.len(),
    decreases places@.len(),
{
    let ghost first_order = order@;
    let ghost first_nodes = nodes@;
    let start: usize = order.len();
    let count: usize = places.len();
    let min_id: u32 = documents[places[0]].id;
    let mut children: Vec<usize> = Vec::new();
    if count <= leaf_size {
        let mut i: usize = 0;
        while i < count
            invariant
                i <= count,
                count == places@.len(),
                order@ == first_order + places@.take(i as int),
            decreases count - i,
        {
            order.push(places[i]);
            assert(first_order + places@.take(i + 1) =~= (first_order + places@.take(
                i as int,
            )).push(places@[i as int]));
            i += 1;
        }
        proof {
            assert(places@.take(count as int) =~= places@);
            assert(order@.skip(first_order.len() as int) =~= places@);
        }
    } else {
        let whole: usize = groups(count, leaf_size);
        proof {
            if whole == 1 {
                assert(whole * leaf_size == leaf_size) by (nonlinear_arith)
                    requires
                        whole == 1,
                ;
            }
        }
        let cluster_count: usize = if branch_factor < whole {
            branch_factor
        } else {
            whole
        };
        let capacity: usize = groups(count, cluster_count);
        proof {
            assert(capacity * cluster_count == cluster_count * capacity) by (nonlinear_arith);
            assert(capacity < count) by (nonlinear_arith)
                requires
                    (capacity - 1) * cluster_count < count,
                    cluster_count >= 2,
                    capacity >= 1,
                    count >= 2,
            ;
        }
        let parts = balanced_kmeans_partitions(
            documents,
            places,
            cluster_count,
            capacity,
            iterations,
            geometry,
        );
        proof {
            law_partition_keeps_places(places@, parts@, capacity as int);
            assert(order@.skip(start as int) =~= Seq::<usize>::empty());
            assert(order@.take(start as int) =~= first_order);
        }
        let mut part: usize = 0;
        while part < parts.len()
            invariant
                geometry.answers(),
                part <= parts@.len(),
                parts@.len() == cluster_count,
                cluster_count >= 2,
                capacity < count,
                count == places@.len(),
                ascend(places@),
                is_partition(places@, parts@, capacity as int),
                forall|i: int|
                    0 <= i < places@.len() ==> #[trigger] places@[i] < documents@.len(),
                forall|i: int, j: int|
                    0 <= i < j < documents@.len() ==> (#[trigger] documents@[i]).id < (
                    #[trigger] documents@[j]).id,
                leaf_size > 0,
                branch_factor >= 2,
                forall|cluster: int|
                    0 <= cluster < parts@.len() ==> {
                        &&& 0 < (#[trigger] parts@[cluster])@.len() <= capacity
                        &&& ascend(parts@[cluster]@)
                    },
                forall|place: usize| #[trigger]
                    places@.contains(place) <==> exists|cluster: int|
                        0 <= cluster < parts@.len() && (#[trigger] parts@[cluster])@.contains(place),
                forall|left: int, right: int, place: usize|
                    0 <= left < parts@.len() && 0 <= right < parts@.len()
                        && #[trigger] parts@[left]@.contains(place)
                        && #[trigger] parts@[right]@.contains(place) ==> left == right,
                start == first_order.len(),
                start <= order@.len(),
                order@.take(start as int) == first_order,
                order@.skip(start as int).no_duplicates(),
                forall|place: usize| #[trigger]
                    order@.skip(start as int).contains(place) <==> in_leading_parts(
                        parts@,
                        part as int,
                        place,
                    ),
                forall|i: int| 0 <= i < order@.len() ==> #[trigger] order@[i] < documents@.len(),
                blocks_wf(ordered_ids(documents@, order@), nodes@),
                first_nodes.len() <= nodes@.len(),
                forall|i: int|
                    0 <= i < first_nodes.len() ==> #[trigger] nodes@[i] == first_nodes[i],
                children@.len() == part,
                part == 0 ==> order@.len() == start,
                tiles(nodes@, children@, start as int, order@.len() as int),
                forall|i: int| 0 <= i < children@.len() ==> #[trigger] children@[i] < nodes@.len(),
            decreases parts@.len() - part,
        {
            let ghost before_order = order@;
            let ghost before_nodes = nodes@;
            let ghost before_children = children@;
            proof {
                assert forall|i: int| 0 <= i < parts@[part as int]@.len() implies
                    #[trigger] parts@[part as int]@[i] < documents@.len() by {
                    let place = parts@[part as int]@[i];
                    assert(parts@[part as int]@.contains(place));
                    assert(places@.contains(place));
                }
            }
            let child: usize = build_cluster_tree(
                documents,
                &parts[part],
                leaf_size,
                branch_factor,
                iterations,
                geometry,
                order,
                nodes,
            );
            children.push(child);
            proof {
                let segment = order@.skip(before_order.len() as int);
                let earlier = before_order.skip(start as int);
                let all = order@.skip(start as int);
                assert(all =~= earlier + segment) by {
                    assert forall|i: int| 0 <= i < all.len() implies all[i] == (earlier
                        + segment)[i] by {
                        if i < earlier.len() {
                            assert(order@.take(before_order.len() as int)[start + i]
                                == before_order[start + i]);
                        }
                    }
                }
                assert(order@.take(start as int) =~= first_order) by {
                    assert(order@.take(before_order.len() as int).take(start as int)
                        =~= order@.take(start as int));
                }
                assert forall|place: usize| #[trigger] all.contains(place) <==> in_leading_parts(
                    parts@,
                    part + 1,
                    place,
                ) by {
                    if all.contains(place) {
                        let i = choose|i: int| 0 <= i < all.len() && all[i] == place;
                        if i < earlier.len() {
                            assert(earlier[i] == place);
                            assert(earlier.contains(place));
                            assert(in_leading_parts(parts@, part as int, place));
                            let at = choose|at: int|
                                0 <= at < part && (#[trigger] parts@[at])@.contains(place);
                            assert(parts@[at]@.contains(place));
                        } else {
                            assert(segment[i - earlier.len()] == place);
                            assert(segment.contains(place));
                            assert(parts@[part as int]@.contains(place));
                        }
                    }
                    if in_leading_parts(parts@, part + 1, place) {
                        let at = choose|at: int|
                            0 <= at < part + 1 && (#[trigger] parts@[at])@.contains(place);
                        if at < part {
                            assert(in_leading_parts(parts@, part as int, place));
                            assert(earlier.contains(place));
                            let i = choose|i: int| 0 <= i < earlier.len() && earlier[i] == place;
                            assert(all[i] == place);
                        } else {
                            assert(segment.contains(place));
                            let i = choose|i: int| 0 <= i < segment.len() && segment[i] == place;
                            assert(all[earlier.len() + i] == place);
                        }
                    }
                }
                assert forall|i: int, j: int| 0 <= i < j < all.len() implies all[i] != all[j] by {
                    if j < earlier.len() {
                        assert(earlier[i] != earlier[j]);
                    } else if i >= earlier.len() {
                        assert(segment[i - earlier.len()] != segment[j - earlier.len()]);
                    } else if all[i] == all[j] {
                        let place = all[i];
                        assert(earlier[i] == place && segment[j - earlier.len()] == place);
                        assert(earlier.contains(place) && segment.contains(place));
                        let at = choose|at: int|
                            0 <= at < part && (#[trigger] parts@[at])@.contains(place);
                        assert(parts@[part as int]@.contains(place));
                    }
                }
                assert forall|i: int| 0 <= i < first_nodes.len() implies #[trigger] nodes@[i]
                    == first_nodes[i] by {
                    assert(nodes@[i] == before_nodes[i]);
                }
                assert forall|i: int| 0 <= i < before_children.len() implies nodes@[
                #[trigger] before_children[i] as int] == before_nodes[before_children[i] as int] by {}
                lemma_tiles_grow(
                    before_nodes,
                    nodes@,
                    before_children,
                    child,
                    start as int,
                    before_order.len() as int,
                    order@.len() as int,
                );
            }
            part += 1;
        }
        proof {
            let segment = order@.skip(start as int);
            assert forall|place: usize| #[trigger] segment.contains(place) <==> places@.contains(
                place,
            ) by {
                if segment.contains(place) {
                    let at = choose|at: int|
                        0 <= at < parts@.len() && (#[trigger] parts@[at])@.contains(place);
                    assert(parts@[at]@.contains(place));
                }
                if places@.contains(place) {
                    let at = choose|at: int|
                        0 <= at < parts@.len() && (#[trigger] parts@[at])@.contains(place);
                    assert(in_leading_parts(parts@, part as int, place));
                }
            }
            lemma_ascending_is_unique(places@);
            lemma_same_places(segment, places@);
        }
    }
    let end: usize = order.len();
    let root: usize = nodes.len();
    let ghost held = nodes@;
    let ghost filled = order@;
    nodes.push(TreeNode { start, end, min_id, children });
    proof {
        lemma_ascending_is_unique(places@);
        let ids = ordered_ids(documents@, filled);
        let segment = filled.skip(start as int);
        assert(is_rearranged(segment, places@));
        assert(is_min_id(ids, start as int, end as int, min_id)) by {
            assert(places@.contains(places@[0]));
            assert(segment.contains(places@[0]));
            let at = choose|at: int| 0 <= at < segment.len() && segment[at] == places@[0];
            assert(ids[start + at] == min_id);
            assert forall|i: int| start <= i < end implies min_id <= #[trigger] ids[i] by {
                let place = filled[i];
                assert(segment[i - start] == place);
                assert(segment.contains(place));
                let k = choose|k: int| 0 <= k < places@.len() && places@[k] == place;
                if k > 0 {
                    assert(places@[0] < places@[k]);
                    assert(documents@[places@[0] as int].id < documents@[places@[k] as int].id);
                }
            }
        }
        assert forall|node: int| 0 <= node < nodes@.len() implies #[trigger] block_wf(
            ids,
            nodes@,
            node,
        ) by {
            if node < held.len() {
                if count <= leaf_size {
                    assert(held == first_nodes);
                    let old_ids = ordered_ids(documents@, first_order);
                    assert(block_wf(old_ids, first_nodes, node));
                    assert forall|i: int| 0 <= i < old_ids.len() implies #[trigger] ids[i]
                        == old_ids[i] by {}
                    lemma_block_stays(old_ids, first_nodes, ids, nodes@, node);
                } else {
                    assert(block_wf(ids, held, node));
                    lemma_block_stays(ids, held, ids, nodes@, node);
                }
            } else {
                if children@.len() > 0 {
                    assert forall|i: int| 0 <= i < children@.len() implies nodes@[
                    #[trigger] children@[i] as int] == held[children@[i] as int] by {}
                    assert(tiles(nodes@, children@, start as int, end as int));
                }
            }
        }
        assert(filled.take(first_order.len() as int) =~= first_order);
    }
    root
}

/// Places in ascending order do not repeat.
proof fn lemma_ascending_is_unique(places: Seq<usize>)
    requires
        ascend(places),
    ensures
        places.no_duplicates(),
{
    assert forall|i: int, j: int| 0 <= i < j < places.len() implies places[i] != places[j] by {
        assert(places[i] < places[j]);
    }
}

/// A block that starts where a cover ends continues it.
proof fn lemma_tiles_grow(
    before: Seq<TreeNode>,
    nodes: Seq<TreeNode>,
    list: Seq<usize>,
    child: usize,
    start: int,
    middle: int,
    end: int,
)
    requires
        tiles(before, list, start, middle),
        before.len() <= nodes.len(),
        child < nodes.len(),
        forall|i: int|
            0 <= i < list.len() ==> nodes[#[trigger] list[i] as int] == before[list[i] as int],
        nodes[child as int].start == middle,
        nodes[child as int].end == end,
    ensures
        tiles(nodes, list.push(child), start, end),
{
    let longer = list.push(child);
    assert forall|i: int| 0 < i < longer.len() implies nodes[longer[i - 1] as int].end == nodes[(
    #[trigger] longer[i]) as int].start by {
        if i < list.len() {
            assert(longer[i] == list[i] && longer[i - 1] == list[i - 1]);
            assert(before[list[i - 1] as int].end == before[list[i] as int].start);
        } else {
            assert(longer[i - 1] == list.last());
        }
    }
    if list.len() > 0 {
        assert(longer[0] == list[0]);
    }
    assert forall|i: int| 0 <= i < longer.len() implies #[trigger] longer[i] < nodes.len() by {
        if i < list.len() {
            assert(longer[i] == list[i]);
        }
    }
}

/// The documents at the given places.
fn documents_in(documents: &Vec<DenseDocument>, order: &Vec<usize>) -> (rearranged: Vec<
    DenseDocument,
>)
    requires
        forall|i: int| 0 <= i < order@.len() ==> #[trigger] order@[i] < documents@.len(),
    ensures
        rearranged@.len() == order@.len(),
        document_ids(rearranged@) == ordered_ids(documents@, order@),
        forall|i: int|
            0 <= i < order@.len() ==> same_document(
                #[trigger] rearranged@[i],
                documents@[order@[i] as int],
            ),
{
    let mut rearranged: Vec<DenseDocument> = Vec::new();
    let mut i: usize = 0;
    while i < order.len()
        invariant
            i <= order@.len(),
            rearranged@.len() == i,
            forall|k: int| 0 <= k < order@.len() ==> #[trigger] order@[k] < documents@.len(),
            forall|k: int|
                0 <= k < i ==> same_document(
                    #[trigger] rearranged@[k],
                    documents@[order@[k] as int],
                ),
        decreases order@.len() - i,
    {
        let document = &documents[order[i]];
        rearranged.push(DenseDocument { id: document.id, vector: copied(&document.vector) });
        i += 1;
    }
    assert(document_ids(rearranged@) =~= ordered_ids(documents@, order@)) by {
        assert forall|k: int| 0 <= k < order@.len() implies document_ids(rearranged@)[k]
            == ordered_ids(documents@, order@)[k] by {
            assert(same_document(rearranged@[k], documents@[order@[k] as int]));
        }
    }
    rearranged
}

/// Whether two lists hold the same documents.
pub open spec fn same_documents(left: Seq<DenseDocument>, right: Seq<DenseDocument>) -> bool {
    &&& left.len() == right.len()
    &&& forall|i: int| 0 <= i < left.len() ==> #[trigger] is_listed(right, left[i])
    &&& forall|i: int| 0 <= i < right.len() ==> #[trigger] is_listed(left, right[i])
}

/// All places, in ascending order.
fn all_places(count: usize) -> (places: Vec<usize>)
    ensures
        places@.len() == count,
        ascend(places@),
        forall|i: int| 0 <= i < count ==> #[trigger] places@[i] == i,
{
    let mut places: Vec<usize> = Vec::new();
    while places.len() < count
        invariant
            places@.len() <= count,
            forall|i: int| 0 <= i < places@.len() ==> #[trigger] places@[i] == i,
        decreases count - places@.len(),
    {
        places.push(places.len());
    }
    places
}

/// Documents at rearranged places are the same documents, and no identity repeats.
proof fn lemma_rearranged_documents(
    documents: Seq<DenseDocument>,
    order: Seq<usize>,
    rearranged: Seq<DenseDocument>,
)
    requires
        documents.len() <= usize::MAX,
        are_documents(documents),
        order.len() == documents.len(),
        order.no_duplicates(),
        forall|place: usize| #[trigger] order.contains(place) <==> place < documents.len(),
        rearranged.len() == order.len(),
        forall|i: int|
            0 <= i < order.len() ==> same_document(
                #[trigger] rearranged[i],
                documents[order[i] as int],
            ),
    ensures
        same_documents(rearranged, documents),
        are_documents(rearranged),
        rearranged[0].vector@.len() == documents[0].vector@.len(),
{
    let dimension = documents[0].vector@.len();
    assert forall|i: int| 0 <= i < rearranged.len() implies #[trigger] is_listed(
        documents,
        rearranged[i],
    ) by {
        assert(order.contains(order[i]));
        assert(same_document(documents[order[i] as int], rearranged[i]));
    }
    assert forall|i: int| 0 <= i < rearranged.len() implies is_valid(
        #[trigger] rearranged[i],
        dimension,
    ) by {
        assert(order.contains(order[i]));
        assert(same_document(rearranged[i], documents[order[i] as int]));
        assert(is_valid(documents[order[i] as int], dimension));
    }
    assert forall|i: int| 0 <= i < documents.len() implies #[trigger] is_listed(
        rearranged,
        documents[i],
    ) by {
        assert(order.contains(i as usize));
        let at = choose|at: int| 0 <= at < order.len() && order[at] == i as usize;
        assert(same_document(rearranged[at], documents[i]));
    }
    let ids = document_ids(rearranged);
    let given = document_ids(documents);
    assert forall|i: int, j: int| 0 <= i < j < ids.len() implies ids[i] != ids[j] by {
        assert(order.contains(order[i]) && order.contains(order[j]));
        assert(order[i] != order[j]);
        assert(given[order[i] as int] != given[order[j] as int]);
        let _ = rearranged[i];
        let _ = rearranged[j];
    }
    assert(is_valid(rearranged[0], dimension));
}

/// The places of the leading clusters, one cluster after the other.
pub open spec fn joined(parts: Seq<Vec<usize>>, upto: int) -> Seq<usize>
    decreases upto,
{
    if upto <= 0 {
        Seq::empty()
    } else {
        joined(parts, upto - 1) + parts[upto - 1]@
    }
}

/// Whether documents are listed in the order of their clusters, and within a cluster by
/// identity.
pub open spec fn lists_clusters<
    M: Fn(&Vec<u32>, &Vec<u64>) -> i64,
    Z: Fn(&Vec<DenseDocument>, &Vec<usize>) -> Vec<u64>,
    H: Fn(&Vec<u32>) -> Vec<u64>,
    U: Fn(i64, i64) -> i64,
>(
    geometry: BallGeometry<M, Z, H, U>,
    documents: Seq<DenseDocument>,
    block_size: usize,
    iterations: usize,
    listed: Seq<DenseDocument>,
) -> bool {
    exists|sorted: Vec<DenseDocument>, places: Vec<usize>, parts: Seq<Vec<usize>>|
        {
            &&& is_sorted_copy(sorted@, documents)
            &&& places@ == Seq::new(sorted@.len(), |i: int| i as usize)
            &&& #[trigger] are_clusters(
                geometry,
                sorted,
                places,
                parts.len() as usize,
                block_size,
                iterations,
                parts,
            )
            &&& listed.len() == sorted@.len()
            &&& forall|i: int|
                0 <= i < listed.len() ==> same_document(
                    #[trigger] listed[i],
                    sorted@[joined(parts, parts.len() as int)[i] as int],
                )
        }
}

/// The places of clusters, one cluster after the other.
fn flattened(places: &Vec<usize>, parts: &Vec<Vec<usize>>, Ghost(capacity): Ghost<int>) -> (order:
    Vec<usize>)
    requires
        ascend(places@),
        is_partition(places@, parts@, capacity),
    ensures
        is_rearranged(order@, places@),
        order@ == joined(parts@, parts@.len() as int),
{
    proof {
        law_partition_keeps_places(places@, parts@, capacity);
    }
    let mut order: Vec<usize> = Vec::new();
    let mut part: usize = 0;
    while part < parts.len()
        invariant
            part <= parts@.len(),
            forall|cluster: int|
                0 <= cluster < parts@.len() ==> ascend((#[trigger] parts@[cluster])@),
            forall|left: int, right: int, place: usize|
                0 <= left < parts@.len() && 0 <= right < parts@.len()
                    && #[trigger] parts@[left]@.contains(place)
                    && #[trigger] parts@[right]@.contains(place) ==> left == right,
            order@.no_duplicates(),
            order@ == joined(parts@, part as int),
            forall|place: usize| #[trigger]
                order@.contains(place) <==> in_leading_parts(parts@, part as int, place),
        decreases parts@.len() - part,
    {
        let ghost earlier = order@;
        let ghost segment = parts@[part as int]@;
        let mut i: usize = 0;
        while i < parts[part].len()
            invariant
                part < parts@.len(),
                segment == parts@[part as int]@,
                i <= segment.len(),
                order@ == earlier + segment.take(i as int),
            decreases segment.len() - i,
        {
            order.push(parts[part][i]);
            assert(earlier + segment.take(i + 1) =~= (earlier + segment.take(i as int)).push(
                segment[i as int],
            ));
            i += 1;
        }
        proof {
            assert(segment.take(i as int) =~= segment);
            let all = order@;
            lemma_ascending_is_unique(segment);
            assert forall|place: usize| #[trigger] all.contains(place) <==> in_leading_parts(
                parts@,
                part + 1,
                place,
            ) by {
                if all.contains(place) {
                    let i = choose|i: int| 0 <= i < all.len() && all[i] == place;
                    if i < earlier.len() {
                        assert(earlier[i] == place);
                        assert(earlier.contains(place));
                        let at = choose|at: int|
                            0 <= at < part && (#[trigger] parts@[at])@.contains(place);
                        assert(parts@[at]@.contains(place));
                    } else {
                        assert(segment[i - earlier.len()] == place);
                        assert(parts@[part as int]@.contains(place));
                    }
                }
                if in_leading_parts(parts@, part + 1, place) {
                    let at = choose|at: int|
                        0 <= at < part + 1 && (#[trigger] parts@[at])@.contains(place);
                    if at < part {
                        assert(in_leading_parts(parts@, part as int, place));
                        assert(earlier.contains(place));
                        let i = choose|i: int| 0 <= i < earlier.len() && earlier[i] == place;
                        assert(all[i] == place);
                    } else {
                        let i = choose|i: int| 0 <= i < segment.len() && segment[i] == place;
                        assert(all[earlier.len() + i] == place);
                    }
                }
            }
            assert forall|i: int, j: int| 0 <= i < j < all.len() implies all[i] != all[j] by {
                if j < earlier.len() {
                    assert(earlier[i] != earlier[j]);
                } else if i >= earlier.len() {
                    assert(segment[i - earlier.len()] != segment[j - earlier.len()]);
                } else if all[i] == all[j] {
                    let place = all[i];
                    assert(earlier[i] == place && segment[j - earlier.len()] == place);
                    assert(earlier.contains(place) && segment.contains(place));
                    let at = choose|at: int|
                        0 <= at < part && (#[trigger] parts@[at])@.contains(place);
                    assert(parts@[part as int]@.contains(place));
                }
            }
        }
        part += 1;
    }
    proof {
        assert forall|place: usize| #[trigger] order@.contains(place) <==> places@.contains(
            place,
        ) by {
            if order@.contains(place) {
                let at = choose|at: int|
                    0 <= at < parts@.len() && (#[trigger] parts@[at])@.contains(place);
                assert(parts@[at]@.contains(place));
            }
            if places@.contains(place) {
                let at = choose|at: int|
                    0 <= at < parts@.len() && (#[trigger] parts@[at])@.contains(place);
                assert(in_leading_parts(parts@, part as int, place));
            }
        }
        lemma_ascending_is_unique(places@);
        lemma_same_places(order@, places@);
    }
    order
}

/// How many of the leading blocks are leaves.
pub open spec fn leaf_count(nodes: Seq<TreeNode>, upto: int) -> nat
    decreases upto,
{
    if upto <= 0 {
        0
    } else {
        leaf_count(nodes, upto - 1) + (if nodes[upto - 1].children@.len() == 0 {
            1nat
        } else {
            0nat
        })
    }
}

/// The number of leaves.
fn count_leaves(nodes: &Vec<TreeNode>) -> (count: usize)
    ensures
        count == leaf_count(nodes@, nodes@.len() as int),
{
    let mut count: usize = 0;
    let mut i: usize = 0;
    while i < nodes.len()
        invariant
            i <= nodes@.len(),
            count <= i,
            count == leaf_count(nodes@, i as int),
        decreases nodes@.len() - i,
    {
        if nodes[i].children.len() == 0 {
            count += 1;
        }
        i += 1;
    }
    count
}

/// What a block holds.
#[derive(Clone, Copy, Debug)]
pub enum DenseBallNodeContents<'a> {
    /// The numbers of its children.
    Internal(&'a Vec<usize>),
    /// The range of its documents.
    Leaf(usize, usize),
}

/// Documents in balls.
#[derive(Debug)]
pub struct DenseBallIndex {
    documents: Vec<DenseDocument>,
    identity_positions: Vec<usize>,
    tree: NodeTree,
    leaf_block_count: usize,
    dimension: usize,
    block_size: usize,
}

impl DenseBallIndex {
    /// The documents in the order of the leaves.
    pub closed spec fn documents(&self) -> Seq<DenseDocument> {
        self.documents@
    }

    /// The blocks.
    pub closed spec fn tree(&self) -> NodeTree {
        self.tree
    }

    /// The dimension of the documents.
    pub closed spec fn dims(&self) -> nat {
        self.dimension as nat
    }

    /// The largest size of a leaf.
    pub closed spec fn size(&self) -> usize {
        self.block_size
    }

    /// Whether documents and blocks belong together.
    #[verifier::type_invariant]
    pub closed spec fn wf(&self) -> bool {
        &&& are_documents(self.documents@)
        &&& self.documents@[0].vector@.len() == self.dimension
        &&& self.tree.wf()
        &&& self.tree.ids@ == document_ids(self.documents@)
        &&& self.leaf_block_count == leaf_count(self.tree.nodes@, self.tree.nodes@.len() as int)
        &&& self.identity_positions@.len() == self.documents@.len()
        &&& forall|i: int|
            0 <= i < self.identity_positions@.len() ==> #[trigger] self.identity_positions@[i]
                < self.documents@.len()
        &&& forall|i: int, j: int|
            0 <= i < j < self.identity_positions@.len()
                ==> self.documents@[#[trigger] self.identity_positions@[i] as int].id
                <= self.documents@[#[trigger] self.identity_positions@[j] as int].id
        &&& forall|at: int|
            0 <= at < self.documents@.len() ==> #[trigger] self.identity_positions@.contains(
                at as usize,
            )
    }

    /// An index whose blocks hold documents in ascending order of identity.
    pub fn build(documents: Vec<DenseDocument>, block_size: usize) -> (result: Result<
        DenseBallIndex,
        DenseBallError,
    >)
        ensures
            match result {
                Ok(index) => {
                    &&& can_index(documents@, block_size)
                    &&& is_sorted_copy(index.documents(), documents@)
                    &&& in_blocks(index.tree(), document_ids(index.documents()), block_size)
                    &&& index.dims() == documents@[0].vector@.len()
                    &&& index.size() == block_size
                },
                Err(error) => !can_index(documents@, block_size) && is_documents_error(
                    documents@,
                    block_size,
                    error,
                ),
            },
    {
        let sorted = match validate_and_sort_documents(&documents, block_size) {
            Ok(sorted) => sorted,
            Err(error) => {
                return Err(error);
            },
        };
        proof {
            assert(documents.len() <= usize::MAX);
            lemma_sorted_documents(sorted@, documents@);
        }
        Ok(Self::build_from_ordered_documents(sorted, block_size))
    }

    /// An index whose blocks hold clusters of at most the block size.
    pub fn build_clustered<
        M: Fn(&Vec<u32>, &Vec<u64>) -> i64,
        Z: Fn(&Vec<DenseDocument>, &Vec<usize>) -> Vec<u64>,
        H: Fn(&Vec<u32>) -> Vec<u64>,
        U: Fn(i64, i64) -> i64,
    >(
        documents: Vec<DenseDocument>,
        block_size: usize,
        iterations: usize,
        geometry: &BallGeometry<M, Z, H, U>,
    ) -> (result: Result<DenseBallIndex, DenseBallError>)
        requires
            geometry.answers(),
        ensures
            iterations == 0 ==> result == Err::<DenseBallIndex, DenseBallError>(
                DenseBallError::ZeroClusteringIterations,
            ),
            iterations > 0 ==> match result {
                Ok(index) => {
                    &&& can_index(documents@, block_size)
                    &&& same_documents(index.documents(), documents@)
                    &&& in_blocks(index.tree(), document_ids(index.documents()), block_size)
                    &&& index.dims() == documents@[0].vector@.len()
                    &&& index.size() == block_size
                    &&& if documents@.len() <= block_size {
                        is_sorted_copy(index.documents(), documents@)
                    } else {
                        lists_clusters(
                            *geometry,
                            documents@,
                            block_size,
                            iterations,
                            index.documents(),
                        )
                    }
                },
                Err(error) => !can_index(documents@, block_size) && is_documents_error(
                    documents@,
                    block_size,
                    error,
                ),
            },
    {
        if iterations == 0 {
            return Err(DenseBallError::ZeroClusteringIterations);
        }
        let sorted = match validate_and_sort_documents(&documents, block_size) {
            Ok(sorted) => sorted,
            Err(error) => {
                return Err(error);
            },
        };
        proof {
            assert(documents.len() <= usize::MAX);
            lemma_sorted_documents(sorted@, documents@);
            assert(same_documents(sorted@, documents@));
        }
        let cluster_count: usize = groups(sorted.len(), block_size);
        proof {
            if cluster_count == 1 {
                assert(cluster_count * block_size == block_size) by (nonlinear_arith)
                    requires
                        cluster_count == 1,
                ;
            } else {
                assert((cluster_count - 1) * block_size >= block_size) by (nonlinear_arith)
                    requires
                        cluster_count >= 2,
                ;
            }
        }
        if cluster_count == 1 {
            return Ok(Self::build_from_ordered_documents(sorted, block_size));
        }
        let places = all_places(sorted.len());
        let parts = balanced_kmeans_partitions(
            &sorted,
            &places,
            cluster_count,
            block_size,
            iterations,
            geometry,
        );
        let order = flattened(&places, &parts, Ghost(block_size as int));
        proof {
            lemma_order_of_all(places@, order@, sorted@.len());
        }
        let rearranged = documents_in(&sorted, &order);
        proof {
            lemma_rearranged_documents(sorted@, order@, rearranged@);
            lemma_same_documents_compose(rearranged@, sorted@, documents@);
            assert(places@ =~= Seq::new(sorted@.len(), |i: int| i as usize));
            assert(are_clusters(
                *geometry,
                sorted,
                places,
                parts@.len() as usize,
                block_size,
                iterations,
                parts@,
            ));
            assert(order@ == joined(parts@, parts@.len() as int));
            assert(rearranged@.len() == sorted@.len());
            assert forall|i: int| 0 <= i < rearranged@.len() implies same_document(
                #[trigger] rearranged@[i],
                sorted@[joined(parts@, parts@.len() as int)[i] as int],
            ) by {}
            assert(is_sorted_copy(sorted@, documents@));
            assert(lists_clusters(
                *geometry,
                documents@,
                block_size,
                iterations,
                rearranged@,
            ));
        }
        Ok(Self::build_from_ordered_documents(rearranged, block_size))
    }

    /// An index of clusters within clusters. Every block has a bound and may be
    /// replaced by smaller blocks; only leaves are scored.
    pub fn build_hierarchical_clustered<
        M: Fn(&Vec<u32>, &Vec<u64>) -> i64,
        Z: Fn(&Vec<DenseDocument>, &Vec<usize>) -> Vec<u64>,
        H: Fn(&Vec<u32>) -> Vec<u64>,
        U: Fn(i64, i64) -> i64,
    >(
        documents: Vec<DenseDocument>,
        leaf_size: usize,
        branch_factor: usize,
        iterations: usize,
        geometry: &BallGeometry<M, Z, H, U>,
    ) -> (result: Result<DenseBallIndex, DenseBallError>)
        requires
            geometry.answers(),
        ensures
            iterations == 0 ==> result == Err::<DenseBallIndex, DenseBallError>(
                DenseBallError::ZeroClusteringIterations,
            ),
            iterations > 0 ==> match result {
                Ok(index) => {
                    &&& can_index(documents@, leaf_size)
                    &&& branch_factor >= 2
                    &&& same_documents(index.documents(), documents@)
                    &&& index.tree().ids@ == document_ids(index.documents())
                    &&& index.tree().roots@.len() == 1
                    &&& index.dims() == documents@[0].vector@.len()
                    &&& index.size() == leaf_size
                },
                Err(error) => if can_index(documents@, leaf_size) {
                    branch_factor < 2 && error == DenseBallError::InvalidBranchFactor
                } else {
                    is_documents_error(documents@, leaf_size, error)
                },
            },
    {
        if iterations == 0 {
            return Err(DenseBallError::ZeroClusteringIterations);
        }
        let sorted = match validate_and_sort_documents(&documents, leaf_size) {
            Ok(sorted) => sorted,
            Err(error) => {
                return Err(error);
            },
        };
        if branch_factor < 2 {
            return Err(DenseBallError::InvalidBranchFactor);
        }
        proof {
            assert(documents.len() <= usize::MAX);
            lemma_sorted_documents(sorted@, documents@);
            assert(same_documents(sorted@, documents@));
        }
        let places = all_places(sorted.len());
        let mut order: Vec<usize> = Vec::new();
        let mut nodes: Vec<TreeNode> = Vec::new();
        let root: usize = build_cluster_tree(
            &sorted,
            &places,
            leaf_size,
            branch_factor,
            iterations,
            geometry,
            &mut order,
            &mut nodes,
        );
        proof {
            assert(order@.skip(0) =~= order@);
            lemma_order_of_all(places@, order@, sorted@.len());
        }
        let rearranged = documents_in(&sorted, &order);
        proof {
            lemma_rearranged_documents(sorted@, order@, rearranged@);
            lemma_same_documents_compose(rearranged@, sorted@, documents@);
        }
        let ids = ids_of_documents(&rearranged);
        let mut roots: Vec<usize> = Vec::new();
        roots.push(root);
        let tree = NodeTree { ids, nodes, roots };
        proof {
            assert(tree.nodes.len() <= usize::MAX);
            assert(tree.ids.len() <= usize::MAX);
            assert forall|node: int| 0 <= node < tree.nodes@.len() implies #[trigger] tree.node_wf(
                node,
            ) by {
                assert(block_wf(ordered_ids(sorted@, order@), nodes@, node));
            }
            assert(tiles(tree.nodes@, tree.roots@, 0, tree.ids@.len() as int));
        }
        Ok(Self::assemble(rearranged, tree, leaf_size))
    }

    /// An index of documents in the given order.
    fn build_from_ordered_documents(documents: Vec<DenseDocument>, block_size: usize) -> (index:
        DenseBallIndex)
        requires
            are_documents(documents@),
            block_size > 0,
        ensures
            index.documents() == documents@,
            in_blocks(index.tree(), document_ids(documents@), block_size),
            index.dims() == documents@[0].vector@.len(),
            index.size() == block_size,
    {
        let ids = ids_of_documents(&documents);
        let tree = NodeTree::blocks(ids, block_size);
        Self::assemble(documents, tree, block_size)
    }

    /// An index of documents and blocks.
    fn assemble(documents: Vec<DenseDocument>, tree: NodeTree, block_size: usize) -> (index:
        DenseBallIndex)
        requires
            are_documents(documents@),
            tree.wf(),
            tree.ids@ == document_ids(documents@),
        ensures
            index.documents() == documents@,
            index.tree() == tree,
            index.dims() == documents@[0].vector@.len(),
            index.size() == block_size,
    {
        let dimension: usize = documents[0].vector.len();
        let identity_positions = crate::dense_documents::places_by_id(&documents);
        let leaf_block_count: usize = count_leaves(&tree.nodes);
        DenseBallIndex {
            documents,
            identity_positions,
            tree,
            leaf_block_count,
            dimension,
            block_size,
        }
    }

    /// The number of documents.
    pub fn document_count(&self) -> (count: usize)
        ensures
            count == self.documents().len(),
    {
        self.documents.len()
    }

    /// The number of leaves.
    pub fn block_count(&self) -> (count: usize)
        ensures
            count == leaf_count(self.tree().nodes@, self.tree().nodes@.len() as int),
    {
        proof {
            use_type_invariant(self);
        }
        self.leaf_block_count
    }

    /// The number of blocks.
    pub fn node_count(&self) -> (count: usize)
        ensures
            count == self.tree().nodes@.len(),
    {
        self.tree.nodes.len()
    }

    /// The largest size of a leaf.
    pub fn block_size(&self) -> (size: usize)
        ensures
            size == self.size(),
    {
        self.block_size
    }

    /// The dimension of the documents.
    pub fn dimension(&self) -> (dimension: usize)
        ensures
            dimension == self.dims(),
    {
        self.dimension
    }

    /// Whether a query has the dimension of the index, finite coordinates and one
    /// that is not zero.
    pub open spec fn accepts_query(&self, query: Seq<u32>) -> bool {
        &&& query.len() == self.dims()
        &&& finite_vector(query)
        &&& exists|i: int| 0 <= i < query.len() && !is_zero(#[trigger] query[i])
    }

    /// Checks a query.
    pub fn check_query(&self, query: &Vec<u32>) -> (result: Result<(), DenseBallError>)
        ensures
            result == (if self.accepts_query(query@) {
                Ok::<(), DenseBallError>(())
            } else {
                Err::<(), DenseBallError>(DenseBallError::InvalidQuery)
            }),
    {
        if query.len() != self.dimension || !is_finite_vector(query) {
            return Err(DenseBallError::InvalidQuery);
        }
        let mut i: usize = 0;
        while i < query.len()
            invariant
                i <= query@.len(),
                query@.len() == self.dims(),
                finite_vector(query@),
                forall|k: int| 0 <= k < i ==> is_zero(#[trigger] query@[k]),
            decreases query@.len() - i,
        {
            if query[i] % 0x8000_0000 != 0 {
                assert(!is_zero(query@[i as int]));
                return Ok(());
            }
            i += 1;
        }
        Err(DenseBallError::InvalidQuery)
    }

    /// The numbers of the blocks that no block holds.
    pub fn root_indices(&self) -> (roots: &Vec<usize>)
        ensures
            roots@ == self.tree().roots@,
    {
        &self.tree.roots
    }

    /// What a block holds.
    pub fn node_contents(&self, node: usize) -> (contents: DenseBallNodeContents<'_>)
        requires
            node < self.tree().nodes@.len(),
        ensures
            ({
                let block = self.tree().nodes@[node as int];
                if block.children@.len() == 0 {
                    contents == DenseBallNodeContents::Leaf(block.start, block.end)
                } else {
                    contents matches DenseBallNodeContents::Internal(children) && children@
                        == block.children@
                }
            }),
    {
        let block = &self.tree.nodes[node];
        if block.children.len() == 0 {
            DenseBallNodeContents::Leaf(block.start, block.end)
        } else {
            DenseBallNodeContents::Internal(&block.children)
        }
    }

    /// The range of the documents that a block holds.
    pub fn node_range(&self, node: usize) -> (range: (usize, usize))
        requires
            node < self.tree().nodes@.len(),
        ensures
            range == (self.tree().nodes@[node as int].start, self.tree().nodes@[node as int].end),
    {
        (self.tree.nodes[node].start, self.tree.nodes[node].end)
    }

    /// The document at a place.
    pub fn document_at(&self, place: usize) -> (document: &DenseDocument)
        requires
            place < self.documents().len(),
        ensures
            *document == self.documents()[place as int],
    {
        &self.documents[place]
    }

    /// The place of the document with an identity.
    pub fn position(&self, id: u32) -> (result: Option<usize>)
        ensures
            match result {
                Some(place) => place < self.documents().len() && self.documents()[place as int].id
                    == id && forall|other: int|
                    0 <= other < self.documents().len() && (#[trigger] self.documents()[other]).id
                        == id ==> other == place,
                None => forall|place: int|
                    0 <= place < self.documents().len() ==> (
                    #[trigger] self.documents()[place]).id != id,
            },
    {
        proof {
            use_type_invariant(self);
        }
        let mut low: usize = 0;
        let mut high: usize = self.identity_positions.len();
        while low < high
            invariant
                self.wf(),
                low <= high <= self.identity_positions@.len(),
                forall|i: int|
                    0 <= i < low ==> self.documents@[
                    #[trigger] self.identity_positions@[i] as int].id < id,
                forall|i: int|
                    high <= i < self.identity_positions@.len() ==> self.documents@[
                    #[trigger] self.identity_positions@[i] as int].id > id,
            decreases high - low,
        {
            let middle: usize = low + (high - low) / 2;
            let place: usize = self.identity_positions[middle];
            let found: u32 = self.documents[place].id;
            if found == id {
                proof {
                    let ids = document_ids(self.documents@);
                    assert forall|other: int|
                        0 <= other < self.documents@.len() && (
                        #[trigger] self.documents@[other]).id == id implies other == place by {
                        assert(ids[other] == ids[place as int]);
                    }
                }
                return Some(place);
            }
            if found < id {
                proof {
                    assert forall|i: int| 0 <= i < middle + 1 implies self.documents@[
                    #[trigger] self.identity_positions@[i] as int].id < id by {
                        if i < middle {
                            assert(self.documents@[self.identity_positions@[i] as int].id
                                <= self.documents@[
                            self.identity_positions@[middle as int] as int].id);
                        }
                    }
                }
                low = middle + 1;
            } else {
                proof {
                    assert forall|i: int|
                        middle <= i < self.identity_positions@.len() implies self.documents@[
                    #[trigger] self.identity_positions@[i] as int].id > id by {
                        if i > middle {
                            assert(self.documents@[
                            self.identity_positions@[middle as int] as int].id
                                <= self.documents@[self.identity_positions@[i] as int].id);
                        }
                    }
                }
                high = middle;
            }
        }
        proof {
            assert forall|place: int| 0 <= place < self.documents@.len() implies (
            #[trigger] self.documents@[place]).id != id by {
                assert(self.documents.len() <= usize::MAX);
                assert(self.identity_positions@.contains(place as usize));
                let i = choose|i: int|
                    0 <= i < self.identity_positions@.len() && self.identity_positions@[i]
                        == place as usize;
                assert(self.documents@[self.identity_positions@[i] as int].id != id);
            }
        }
        None
    }

    /// The document with an identity.
    pub fn document(&self, id: u32) -> (result: Option<&DenseDocument>)
        ensures
            match result {
                Some(document) => document.id == id && exists|place: int|
                    0 <= place < self.documents().len() && *document
                        == #[trigger] self.documents()[place],
                None => forall|place: int|
                    0 <= place < self.documents().len() ==> (
                    #[trigger] self.documents()[place]).id != id,
            },
    {
        match self.position(id) {
            Some(place) => Some(&self.documents[place]),
            None => None,
        }
    }

    /// A lazy exact stream for a query. `bound` gives a bound of the scores in a
    /// block, `scorer` the score of the document at a place.
    pub fn stream<G: KeySource, F: KeySource>(&self, query: &Vec<u32>, bound: G, scorer: F) -> (result:
        Result<DenseBallStream<'_, G, F>, DenseBallError>)
        requires
            forall|node: int|
                0 <= node < self.tree().nodes@.len() ==> #[trigger] bound.defined(node),
            forall|point: int|
                0 <= point < self.documents().len() ==> #[trigger] scorer.defined(point),
        ensures
            result is Err <==> !self.accepts_query(query@),
            result matches Err(error) ==> error == DenseBallError::InvalidQuery,
            result matches Ok(stream) ==> {
                &&& stream.inner().tree() == self.tree()
                &&& stream.inner().emitted() == 0
                &&& stream.leaves() == leaf_count(
                    self.tree().nodes@,
                    self.tree().nodes@.len() as int,
                )
                &&& forall|point: int| #[trigger]
                    stream.inner().held().contains(point) <==> 0 <= point
                        < self.tree().ids@.len()
                &&& forall|bounds: spec_fn(int) -> Option<i64>, scores: spec_fn(
                    int,
                ) -> Option<i64>|
                    #[trigger] certifies(&bound, &scorer, self.tree(), bounds, scores) ==> {
                        &&& stream.inner().order() == Some(
                            exact_order(self.tree(), scores, stream.inner().held()),
                        )
                        &&& forall|point: int|
                            0 <= point < self.tree().ids@.len() ==> Some(
                                #[trigger] stream.inner().score_of(point),
                            ) == scores(point)
                    }
            },
    {
        match self.check_query(query) {
            Ok(_) => {},
            Err(error) => {
                return Err(error);
            },
        }
        proof {
            use_type_invariant(self);
        }
        let inner = CertifiedStream::new(&self.tree, bound, scorer);
        Ok(
            DenseBallStream {
                inner,
                blocks: self.leaf_block_count,
                nodes: self.tree.nodes.len(),
            },
        )
    }

    /// The blocks, for streams of this crate.
    pub(crate) fn tree_ref(&self) -> (tree: &NodeTree)
        ensures
            *tree == self.tree(),
            tree.wf(),
            tree.ids@ == document_ids(self.documents()),
    {
        proof {
            use_type_invariant(self);
        }
        &self.tree
    }
}

/// Whether a single-precision bit pattern is one of the zeros.
pub open spec fn is_zero(bits: u32) -> bool {
    (bits as int) % 0x8000_0000 == 0
}

proof fn lemma_order_of_all(places: Seq<usize>, order: Seq<usize>, count: nat)
    requires
        is_rearranged(order, places),
        places.len() == count,
        count <= usize::MAX,
        forall|i: int| 0 <= i < count ==> #[trigger] places[i] == i,
    ensures
        forall|place: usize| #[trigger] order.contains(place) <==> place < count,
        forall|i: int| 0 <= i < order.len() ==> #[trigger] order[i] < count,
{
    assert forall|place: usize| #[trigger] order.contains(place) <==> place < count by {
        if place < count {
            assert(places[place as int] == place);
            assert(places.contains(place));
        }
        if order.contains(place) {
            let i = choose|i: int| 0 <= i < places.len() && places[i] == place;
        }
    }
    assert forall|i: int| 0 <= i < order.len() implies #[trigger] order[i] < count by {
        assert(order.contains(order[i]));
    }
}

proof fn lemma_same_documents_compose(
    first: Seq<DenseDocument>,
    second: Seq<DenseDocument>,
    third: Seq<DenseDocument>,
)
    requires
        same_documents(first, second),
        same_documents(second, third),
    ensures
        same_documents(first, third),
{
    assert forall|i: int| 0 <= i < first.len() implies #[trigger] is_listed(third, first[i]) by {
        assert(is_listed(second, first[i]));
        let j = choose|j: int| 0 <= j < second.len() && same_document(#[trigger] second[j], first[i]);
        assert(is_listed(third, second[j]));
        let k = choose|k: int| 0 <= k < third.len() && same_document(#[trigger] third[k], second[j]);
        assert(same_document(third[k], first[i]));
    }
    assert forall|i: int| 0 <= i < third.len() implies #[trigger] is_listed(first, third[i]) by {
        assert(is_listed(second, third[i]));
        let j = choose|j: int| 0 <= j < second.len() && same_document(#[trigger] second[j], third[i]);
        assert(is_listed(first, second[j]));
        let k = choose|k: int| 0 <= k < first.len() && same_document(#[trigger] first[k], second[j]);
        assert(same_document(first[k], third[i]));
    }
}

/// What a stream has done.
#[derive(Clone, Copy, Debug, Default, PartialEq, Eq, Structural)]
pub struct DenseBallTelemetry {
    pub blocks: usize,
    pub nodes: usize,
    pub bound_evaluations: usize,
    pub internal_nodes_expanded: usize,
    pub blocks_expanded: usize,
    pub documents_evaluated: usize,
    pub points_emitted: usize,
    pub max_pending_blocks: usize,
    pub max_pending_points: usize,
}

/// The documents of an index in the exact order of a query, one at a time. A block
/// is opened only when its bound does not exclude that it holds what comes next.
pub struct DenseBallStream<'a, G: KeySource, F: KeySource> {
    inner: CertifiedStream<'a, G, F>,
    blocks: usize,
    nodes: usize,
}

impl<'a, G: KeySource, F: KeySource> DenseBallStream<'a, G, F> {
    /// The search beneath the stream.
    pub closed spec fn inner(&self) -> CertifiedStream<'a, G, F> {
        self.inner
    }

    /// The number of leaves.
    pub closed spec fn leaves(&self) -> usize {
        self.blocks
    }

    /// The next document of the exact order; `None` at the end.
    pub fn next(&mut self) -> (result: Option<DenseScoredPoint>)
        ensures
            final(self).leaves() == old(self).leaves(),
            steps_exactly(old(self).inner(), result, final(self).inner()),
    {
        self.inner.next_point()
    }

    /// What the stream has done.
    pub fn telemetry(&self) -> (telemetry: DenseBallTelemetry)
        ensures
            telemetry.blocks == self.leaves(),
            telemetry.bound_evaluations == self.inner().opened().len()
                + self.inner().unopened().len(),
            telemetry.internal_nodes_expanded + telemetry.blocks_expanded
                == self.inner().opened().len(),
            telemetry.blocks_expanded == crate::frontier::opened_leaves(
                self.inner().tree(),
                self.inner().opened(),
            ).len(),
            telemetry.documents_evaluated == self.inner().scored().len(),
            telemetry.points_emitted == self.inner().emitted(),
            telemetry.max_pending_blocks >= self.inner().unopened().len(),
    {
        let work = self.inner.work();
        DenseBallTelemetry {
            blocks: self.blocks,
            nodes: self.nodes,
            bound_evaluations: work.bounds_evaluated,
            internal_nodes_expanded: work.nodes_opened - work.leaves_opened,
            blocks_expanded: work.leaves_opened,
            documents_evaluated: work.points_scored,
            points_emitted: self.inner.points_emitted(),
            max_pending_blocks: work.most_nodes,
            max_pending_points: work.most_points,
        }
    }

    /// The stream of identities, for fusion.
    pub fn into_identities(self) -> (stream: CertifiedStream<'a, G, F>)
        ensures
            stream == self.inner(),
    {
        self.inner
    }
}

} // verus!
