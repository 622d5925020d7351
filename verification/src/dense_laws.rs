//! What holds of dense searches, whatever the documents and the query.

use crate::dense_ball::{
    can_index, is_documents_error, is_smallest_duplicate, is_zero, joined, leaf_count,
    occurs_twice, DenseBallError, DenseBallIndex, DenseBallTelemetry,
};
use crate::dense_certificate::{
    advances, fresh_certificate, held_count, is_interval, known_count, learns_from, raised,
    reports_violation, violates, CertificateView, PendingBound, Phase, PointOffsetType,
    ScoredPointOffset,
};
use crate::dense_clustering::{
    are_smallest_two, can_leave, cluster_sizes, fills_cluster, is_donor, is_farthest,
    is_nearest_open, is_service_order, left_open, nearer, serves_nearest, size_of, BallGeometry,
};
use crate::dense_cursor::{
    is_scored, law_scan_order_is_exact, probe_fault, scan_order, DenseExactRankProbe,
};
use crate::dense_documents::{
    document_ids, documents_fault, fault_at, fault_from, is_sorted_copy, is_valid, DenseDocument,
    DocumentFault,
};
use crate::dense_evidence::{are_intervals, are_scores, DenseAccess, DenseEvidence};
use crate::dense_open::{
    lists_ascending, opens_cursor, opens_gathered, physical_plan, ranks_evidence, refined_at_once,
};
use crate::dense_plan::{
    dot_product, finite_bits, finite_vector, is_inner_product, Distance, QuantizedDescription,
    VectorStorageDatatype,
};
use crate::dense_proposal_certified::{is_first_unknown, is_known, met_again, proposed_places};
use crate::dense_quantized::{
    bounds_by, is_query, quantized_error, within, DenseQuantizedError, DenseQuantizedIndex,
    DenseQuantizedStream, QuantizedVector, QuantizedVectorMetadata,
};
use crate::dense_rank_state::{
    is_certified_state, no_rank_work, rank_plan, DenseExecutionPolicy as RankPolicy,
    DensePhysicalPlan as RankPlan, DenseRankState,
};
use crate::dense_ranking::{
    emitted, is_contiguous, is_exhausted, is_ordinal_bound, is_scan_probe, new_seeds, ranks_batch,
    ranks_next, scores_learned, seed_fault, seed_of, seed_violation, seeds_point, takes_seeds,
    RankingView,
};
use crate::dense_scalar_certified::{
    is_numbered, DenseScalarCertifiedIndex, DenseScalarCertifiedStream, ScalarReconstructionStats,
};
use crate::dense_threshold::{
    are_active, coordinate_key, document_before, is_coordinate_order, is_first_document, is_fresh,
    place_part, query_sum, threshold_fault, whole_bound, ActiveCoordinate, DenseThresholdError,
    DenseThresholdIndex, DenseThresholdStream, ThresholdArithmetic, ThresholdModel,
};
use crate::exact_dense_stream::{
    dense_plan, is_certified_cursor, no_dense_work, one_more, request_error, DenseExecutionPolicy,
    DensePhysicalPlan, ExactDenseCursor,
};
use crate::exact_ranking::{exact_ranking, points_left, ranking_left, scores_of};
use crate::frontier::{
    admissible, exact_order, identity_of, ids_of, in_blocks, is_best, larger,
    law_exact_order_is_exhaustive, lemma_tile_covers, opened_for, opened_leaves, scores_exactly,
    seen_in, seen_points, steps_exactly, steps_lazily, CertifiedStream, DenseScoredPoint, Frontier,
    KeySource, NodeTree, TreeNode,
};
use crate::hybrid_exact::{
    all_points, builds_hybrid, first_hybrid, reports_dense, HybridExactError, HybridExactIndex,
    HybridSource,
};
use crate::id_index::id_key;
use crate::native_dense_stream::{
    is_native_certified, is_native_scan, native_plan, no_native_work, NativeDenseIndexCursor,
    NativeDensePlan, NativeDensePolicy,
};
use crate::offsets::{bound_ids, sorts_bounds, universe_fault};
use crate::operation_error::{
    inconsistent, refused, same_error, Fault, OperationError, OperationResult,
};
use crate::order::{finite_key, ExtendedPointId};
use crate::per_vector_scalar_index::{
    contiguous_fault, guard_is_defined, heeds_stop, is_contiguous_state, request_fault,
    supports_rows, PerVectorScalarMetadata, VectorStorageDescription,
};
use crate::rank_queue::{lemma_ordered, ordered, RankEntry};
use crate::reciprocal_rank_fusion::session::DynamicRrfSource;
use crate::reciprocal_rank_fusion::types::{ExactRrfStream, IdStream};
use vstd::prelude::*;

verus! {

/// The exact order of points falls by score, and among equal scores rises by identity.
/// It holds every point of the set once.
pub proof fn law_exact_order_falls_by_score(
    tree: NodeTree,
    scores: spec_fn(int) -> Option<i64>,
    held: Set<int>,
    i: int,
    j: int,
)
    requires
        tree.wf(),
        held.finite(),
        forall|other: int| #[trigger]
            held.contains(other) ==> 0 <= other < tree.ids@.len() && scores(other) is Some,
        0 <= i < j < exact_order(tree, scores, held).len(),
    ensures
        ({
            let left = exact_order(tree, scores, held)[i];
            let right = exact_order(tree, scores, held)[j];
            &&& held.contains(left)
            &&& held.contains(right)
            &&& left != right
            &&& scores(left)->0 > scores(right)->0 || scores(left)->0 == scores(right)->0
                && tree.ids@[left] < tree.ids@[right]
        }),
        exact_order(tree, scores, held).len() == held.len(),
{
    law_exact_order_is_exhaustive(tree, scores, held);
    let order = exact_order(tree, scores, held);
    assert(order.contains(order[i]));
    assert(order.contains(order[j]));
}

/// The best point of a set has a score that no other exceeds, and the smallest identity
/// of those with that score.
pub proof fn law_best_point_has_the_highest_score(
    tree: NodeTree,
    scores: spec_fn(int) -> Option<i64>,
    held: Set<int>,
    point: int,
    other: int,
)
    requires
        is_best(tree, scores, held, point),
        held.contains(other),
        scores(other) is Some,
    ensures
        held.contains(point),
        scores(other)->0 <= scores(point)->0,
        scores(other) == scores(point) ==> tree.ids@[point] <= tree.ids@[other],
{
}

/// The identities of points are those of the tree, place by place.
pub proof fn law_identities_of_points(tree: NodeTree, points: Seq<int>, at: int)
    requires
        0 <= at < points.len(),
    ensures
        ids_of(tree, points).len() == points.len(),
        ids_of(tree, points)[at] == ExtendedPointId::NumId(tree.ids@[points[at]] as u64),
{
}

/// The points of a tree are all places of its identities.
pub proof fn law_all_points(count: nat, point: int)
    ensures
        all_points(count).contains(point) <==> 0 <= point < count,
{
}

/// Bounds are admissible where no point of a block has a score above the bound of the
/// block, and a block without a bound has no scored point.
pub proof fn law_admissible_bounds(
    tree: NodeTree,
    bounds: spec_fn(int) -> Option<i64>,
    scores: spec_fn(int) -> Option<i64>,
    node: int,
    point: int,
)
    requires
        admissible(tree, bounds, scores),
        0 <= node < tree.nodes@.len(),
        tree.nodes@[node].start <= point < tree.nodes@[node].end,
    ensures
        scores(point) is Some ==> bounds(node) is Some && scores(point)->0 <= bounds(node)->0,
        bounds(node) is None ==> scores(point) is None,
{
    assert(tree.covers(node, point));
}

/// Blocks of one size hold each point in the block of its number, and in no other.
pub proof fn law_blocks_of_one_size(
    tree: NodeTree,
    ids: Seq<u32>,
    block_size: usize,
    node: int,
    point: int,
)
    requires
        block_size > 0,
        in_blocks(tree, ids, block_size),
        0 <= node < tree.nodes@.len(),
        0 <= point < ids.len(),
    ensures
        tree.nodes@[node].start <= point < tree.nodes@[node].end <==> node == point
            / block_size as int,
        tree.nodes@[node].end - tree.nodes@[node].start <= block_size,
        tree.nodes@[node].children@.len() == 0,
        tree.ids@ == ids,
{
    let size = block_size as int;
    let block = tree.nodes@[node];
    assert((node + 1) * size == node * size + size) by (nonlinear_arith);
    assert(node == point / size <==> node * size <= point < node * size + size) by (nonlinear_arith)
        requires
            size > 0,
            point >= 0,
    ;
}

/// What was opened counts as a leaf where the block has no blocks beneath it.
pub proof fn law_opened_leaves(tree: NodeTree, opened: Set<int>, node: int)
    ensures
        opened_leaves(tree, opened).contains(node) <==> opened.contains(node)
            && tree.nodes@[node].children@.len() == 0,
{
}

/// A point was seen where its mark says so, in a block where it stands in it.
pub proof fn law_seen_points(tree: NodeTree, node: int, seen: Seq<bool>, point: int)
    ensures
        seen_points(seen).contains(point) <==> 0 <= point < seen.len() && seen[point],
        seen_in(tree, node, seen).contains(point) <==> tree.nodes@[node].start <= point
            < tree.nodes@[node].end && seen[point],
{
}

/// The larger of two counts is one of them, and neither is above it.
pub proof fn law_larger_count(left: usize, right: nat)
    ensures
        larger(left, right) >= left,
        larger(left, right) >= right,
        larger(left, right) == left || larger(left, right) == right,
{
}

/// The leaves of a tree are its blocks without blocks beneath them.
pub proof fn law_leaf_count(nodes: Seq<TreeNode>)
    ensures
        leaf_count(nodes, nodes.len() as int) == Set::new(
            |node: int| 0 <= node < nodes.len() && nodes[node].children@.len() == 0,
        ).len(),
{
    lemma_leaf_count(nodes, nodes.len() as int);
}

proof fn lemma_leaf_count(nodes: Seq<TreeNode>, upto: int)
    requires
        0 <= upto <= nodes.len(),
    ensures
        Set::new(
            |node: int| 0 <= node < upto && nodes[node].children@.len() == 0,
        ).finite(),
        leaf_count(nodes, upto) == Set::new(
            |node: int| 0 <= node < upto && nodes[node].children@.len() == 0,
        ).len(),
    decreases upto,
{
    lemma_counted(upto, |node: int| nodes[node].children@.len() == 0);
    if upto > 0 {
        lemma_leaf_count(nodes, upto - 1);
    }
    assert(Set::new(|node: int| 0 <= node < upto && nodes[node].children@.len() == 0)
        =~= counted_places(upto, |node: int| nodes[node].children@.len() == 0));
    if upto > 0 {
        assert(Set::new(|node: int| 0 <= node < upto - 1 && nodes[node].children@.len() == 0)
            =~= counted_places(upto - 1, |node: int| nodes[node].children@.len() == 0));
    }
}

/// The leading places that are meant.
pub open spec fn counted_places(upto: int, meant: spec_fn(int) -> bool) -> Set<int> {
    Set::new(|place: int| 0 <= place < upto && meant(place))
}

/// One more place counts where it is meant.
pub proof fn lemma_counted(upto: int, meant: spec_fn(int) -> bool)
    ensures
        counted_places(upto, meant).finite(),
        upto <= 0 ==> counted_places(upto, meant).len() == 0,
        upto > 0 ==> counted_places(upto, meant).len() == counted_places(upto - 1, meant).len() + (
        if meant(upto - 1) {
            1int
        } else {
            0int
        }),
    decreases upto,
{
    if upto <= 0 {
        assert(counted_places(upto, meant) =~= Set::<int>::empty());
    } else {
        lemma_counted(upto - 1, meant);
        let earlier = counted_places(upto - 1, meant);
        if meant(upto - 1) {
            assert(counted_places(upto, meant) =~= earlier.insert(upto - 1));
        } else {
            assert(counted_places(upto, meant) =~= earlier);
        }
    }
}

/// The points that a certificate holds are those that it has not emitted.
pub proof fn law_held_count(phases: Seq<Phase>)
    ensures
        held_count(phases, phases.len() as int) == counted_places(
            phases.len() as int,
            |slot: int| phases[slot] != Phase::Emitted,
        ).len(),
{
    lemma_held_count(phases, phases.len() as int);
}

proof fn lemma_held_count(phases: Seq<Phase>, upto: int)
    requires
        0 <= upto <= phases.len(),
    ensures
        held_count(phases, upto) == counted_places(
            upto,
            |slot: int| phases[slot] != Phase::Emitted,
        ).len(),
    decreases upto,
{
    lemma_counted(upto, |slot: int| phases[slot] != Phase::Emitted);
    if upto > 0 {
        lemma_held_count(phases, upto - 1);
    }
}

/// The points whose score a certificate knows are those with a score.
pub proof fn law_known_count(scores: Seq<Option<i64>>)
    ensures
        known_count(scores, scores.len() as int) == counted_places(
            scores.len() as int,
            |slot: int| scores[slot] is Some,
        ).len(),
{
    lemma_known_count(scores, scores.len() as int);
}

proof fn lemma_known_count(scores: Seq<Option<i64>>, upto: int)
    requires
        0 <= upto <= scores.len(),
    ensures
        known_count(scores, upto) == counted_places(
            upto,
            |slot: int| scores[slot] is Some,
        ).len(),
    decreases upto,
{
    lemma_counted(upto, |slot: int| scores[slot] is Some);
    if upto > 0 {
        lemma_known_count(scores, upto - 1);
    }
}

/// A counter is raised by what is added, up to the largest count.
pub proof fn law_raised_counter(counter: usize, by: int)
    requires
        by >= 0,
    ensures
        counter + by <= usize::MAX ==> raised(counter, by) == counter + by,
        counter + by > usize::MAX ==> raised(counter, by) == usize::MAX,
{
}

/// A cluster has as many places as are assigned to it.
pub proof fn law_cluster_size(assignments: Seq<usize>, cluster: int)
    ensures
        size_of(assignments, cluster, assignments.len() as int) == counted_places(
            assignments.len() as int,
            |at: int| assignments[at] == cluster,
        ).len(),
{
    lemma_cluster_size(assignments, cluster, assignments.len() as int);
}

proof fn lemma_cluster_size(assignments: Seq<usize>, cluster: int, upto: int)
    requires
        0 <= upto <= assignments.len(),
    ensures
        size_of(assignments, cluster, upto) == counted_places(
            upto,
            |at: int| assignments[at] == cluster,
        ).len(),
    decreases upto,
{
    lemma_counted(upto, |at: int| assignments[at] == cluster);
    if upto > 0 {
        lemma_cluster_size(assignments, cluster, upto - 1);
    }
}

/// Of two rows of distances the nearer one keeps, at every place, the smaller distance.
pub proof fn law_nearer_distances(left: Seq<i64>, right: Seq<i64>, at: int)
    requires
        left.len() == right.len(),
        0 <= at < left.len(),
    ensures
        nearer(left, right).len() == left.len(),
        nearer(left, right)[at] <= left[at],
        nearer(left, right)[at] <= right[at],
        nearer(left, right)[at] == left[at] || nearer(left, right)[at] == right[at],
{
}

/// Documents can be indexed where there is one, none has the identity of another, all have
/// the dimension of the first, which is not zero, and every coordinate is finite.
pub proof fn law_faultless_documents(documents: Seq<DenseDocument>)
    ensures
        documents_fault(documents) is None <==> {
            &&& documents.len() > 0
            &&& documents[0].vector@.len() > 0
            &&& forall|i: int, j: int|
                0 <= i < j < documents.len() ==> (#[trigger] documents[i]).id != (
                #[trigger] documents[j]).id
            &&& forall|i: int|
                0 <= i < documents.len() ==> (#[trigger] documents[i]).vector@.len()
                    == documents[0].vector@.len() && finite_vector(documents[i].vector@)
        },
{
    if documents.len() > 0 && documents[0].vector@.len() > 0 {
        lemma_first_fault(documents, 0);
        if documents_fault(documents) is None {
            assert forall|i: int, j: int| 0 <= i < j < documents.len() implies (
            #[trigger] documents[i]).id != (#[trigger] documents[j]).id by {
                assert(fault_at(documents, j) is None);
            }
            assert forall|i: int| 0 <= i < documents.len() implies (
            #[trigger] documents[i]).vector@.len() == documents[0].vector@.len() && finite_vector(
                documents[i].vector@,
            ) by {
                assert(fault_at(documents, i) is None);
            }
        } else {
            let at = choose|at: int|
                {
                    &&& 0 <= at < documents.len()
                    &&& #[trigger] fault_at(documents, at) is Some
                };
            let document = documents[at];
        }
    }
}

proof fn lemma_first_fault(documents: Seq<DenseDocument>, from: int)
    requires
        0 <= from <= documents.len(),
    ensures
        fault_from(documents, from) is None ==> forall|at: int|
            from <= at < documents.len() ==> #[trigger] fault_at(documents, at) is None,
        fault_from(documents, from) is Some ==> exists|at: int|
            {
                &&& from <= at < documents.len()
                &&& #[trigger] fault_at(documents, at) is Some
                &&& fault_from(documents, from) == fault_at(documents, at)
                &&& forall|earlier: int|
                    from <= earlier < at ==> #[trigger] fault_at(documents, earlier) is None
            },
    decreases documents.len() - from,
{
    if from < documents.len() {
        lemma_first_fault(documents, from + 1);
        if fault_at(documents, from) is None && fault_from(documents, from) is Some {
            let at = choose|at: int|
                {
                    &&& from + 1 <= at < documents.len()
                    &&& #[trigger] fault_at(documents, at) is Some
                    &&& fault_from(documents, from + 1) == fault_at(documents, at)
                    &&& forall|earlier: int|
                        from + 1 <= earlier < at ==> #[trigger] fault_at(documents, earlier)
                            is None
                };
            assert(fault_at(documents, at) is Some);
        }
    }
}

/// A fault names the first document that repeats an earlier identity or is no vector of
/// the dimension of the first.
pub proof fn law_first_faulty_document(documents: Seq<DenseDocument>)
    requires
        documents.len() > 0,
        documents[0].vector@.len() > 0,
        documents_fault(documents) is Some,
    ensures
        exists|at: int|
            {
                &&& 0 <= at < documents.len()
                &&& documents_fault(documents) == Some(
                    DocumentFault::Duplicate((#[trigger] documents[at]).id),
                ) && (exists|i: int| 0 <= i < at && (#[trigger] documents[i]).id == documents[at].id)
                    || documents_fault(documents) == Some(DocumentFault::Invalid(documents[at].id))
                    && (documents[at].vector@.len() != documents[0].vector@.len()
                    || !finite_vector(documents[at].vector@))
                &&& forall|earlier: int|
                    0 <= earlier < at ==> (#[trigger] documents[earlier]).vector@.len()
                        == documents[0].vector@.len() && finite_vector(documents[earlier].vector@)
                &&& forall|i: int, j: int|
                    0 <= i < j < at ==> (#[trigger] documents[i]).id != (#[trigger] documents[j]).id
            },
{
    lemma_first_fault(documents, 0);
    let at = choose|at: int|
        {
            &&& 0 <= at < documents.len()
            &&& #[trigger] fault_at(documents, at) is Some
            &&& fault_from(documents, 0) == fault_at(documents, at)
            &&& forall|earlier: int|
                0 <= earlier < at ==> #[trigger] fault_at(documents, earlier) is None
        };
    let document = documents[at];
    assert forall|earlier: int| 0 <= earlier < at implies (
    #[trigger] documents[earlier]).vector@.len() == documents[0].vector@.len() && finite_vector(
        documents[earlier].vector@,
    ) by {
        assert(fault_at(documents, earlier) is None);
    }
    assert forall|i: int, j: int| 0 <= i < j < at implies (#[trigger] documents[i]).id != (
    #[trigger] documents[j]).id by {
        assert(fault_at(documents, j) is None);
    }
}

/// Every error of an index stands for one fault of its documents and names the same
/// document.
pub proof fn law_document_errors(documents: Seq<DenseDocument>, id: u32)
    ensures
        quantized_error(DocumentFault::Empty) == DenseQuantizedError::EmptyDocuments,
        quantized_error(DocumentFault::Duplicate(id)) == DenseQuantizedError::DuplicateDocument(id),
        quantized_error(DocumentFault::Invalid(id)) == DenseQuantizedError::InvalidDocument(id),
        documents.len() <= u32::MAX ==> {
            &&& threshold_fault(documents) is None <==> documents_fault(documents) is None
            &&& threshold_fault(documents) == Some(DenseThresholdError::EmptyDocuments)
                <==> documents.len() == 0
            &&& threshold_fault(documents) == Some(DenseThresholdError::DuplicateDocument(id))
                <==> documents_fault(documents) == Some(DocumentFault::Duplicate(id))
            &&& threshold_fault(documents) == Some(DenseThresholdError::InvalidDocument(id))
                <==> documents_fault(documents) == Some(DocumentFault::Invalid(id))
        },
        documents.len() > u32::MAX && documents[0].vector@.len() > 0 ==> threshold_fault(documents)
            == Some(DenseThresholdError::TooManyDocuments),
{
    if documents.len() > 0 && documents[0].vector@.len() > 0 {
        lemma_first_fault(documents, 0);
    }
}

/// Documents fill blocks where blocks hold something and the documents have no fault; a
/// block size of zero is said before anything else.
pub proof fn law_indexable_documents(documents: Seq<DenseDocument>, block_size: usize)
    ensures
        can_index(documents, block_size) <==> block_size > 0 && documents_fault(documents) is None,
        forall|error: DenseBallError|
            block_size == 0 && #[trigger] is_documents_error(documents, block_size, error) ==> error
                == DenseBallError::ZeroBlockSize,
        forall|error: DenseBallError|
            block_size > 0 && documents.len() == 0 && #[trigger] is_documents_error(
                documents,
                block_size,
                error,
            ) ==> error == DenseBallError::EmptyDocuments,
{
    law_faultless_documents(documents);
    if block_size > 0 && documents.len() > 0 && documents[0].vector@.len() > 0 {
        lemma_first_invalid(documents, 0);
        if document_ids(documents).no_duplicates() {
            assert forall|i: int, j: int| 0 <= i < j < documents.len() implies (
            #[trigger] documents[i]).id != (#[trigger] documents[j]).id by {
                assert(document_ids(documents)[i] != document_ids(documents)[j]);
            }
        }
    }
}

proof fn lemma_first_invalid(documents: Seq<DenseDocument>, from: int)
    requires
        0 <= from <= documents.len(),
    ensures
        crate::dense_ball::invalid_from(documents, from) is None <==> forall|at: int|
            from <= at < documents.len() ==> is_valid(
                #[trigger] documents[at],
                documents[0].vector@.len(),
            ),
    decreases documents.len() - from,
{
    if from < documents.len() {
        lemma_first_invalid(documents, from + 1);
        let document = documents[from];
        if is_valid(document, documents[0].vector@.len()) {
            if forall|at: int|
                from + 1 <= at < documents.len() ==> is_valid(
                    #[trigger] documents[at],
                    documents[0].vector@.len(),
                ) {
                assert forall|at: int| from <= at < documents.len() implies is_valid(
                    #[trigger] documents[at],
                    documents[0].vector@.len(),
                ) by {
                    if at > from {
                        assert(from + 1 <= at);
                    }
                }
            }
        }
    }
}

/// A query fits where it has the dimension of the documents and no coordinate whose
/// exponent is that of infinity or of no number.
pub proof fn law_queries_are_finite(query: Seq<u32>, dimension: nat)
    ensures
        is_query(query, dimension) <==> query.len() == dimension && forall|i: int|
            0 <= i < query.len() ==> ((#[trigger] query[i]) as int / 0x80_0000) % 256 != 255,
{
    assert forall|bits: u32| #[trigger] finite_bits(bits) <==> (bits as int / 0x80_0000) % 256
        != 255 by {
        lemma_finite_bits(bits);
    }
    if is_query(query, dimension) {
        assert forall|i: int| 0 <= i < query.len() implies ((#[trigger] query[i]) as int / 0x80_0000)
            % 256 != 255 by {
            assert(finite_bits(query[i]));
        }
    }
}

proof fn lemma_finite_bits(bits: u32)
    ensures
        finite_bits(bits) <==> (bits as int / 0x80_0000) % 256 != 255,
{
    let high = bits as int / 0x80_0000;
    let low = bits as int % 0x80_0000;
    assert(bits == high * 0x80_0000 + low);
    let sign = high / 256;
    let exponent = high % 256;
    assert(high == sign * 256 + exponent);
    assert(0 <= high < 512);
    assert(bits as int % 0x8000_0000 == exponent * 0x80_0000 + low);
}

/// A coordinate is zero where everything but its sign is.
pub proof fn law_zero_coordinates(bits: u32)
    ensures
        is_zero(bits) <==> bits == 0 || bits == 0x8000_0000,
        coordinate_key(bits) == 0 <==> is_zero(bits),
{
}

/// Coordinates are ordered as the numbers that they stand for: a positive one by its
/// pattern, a negative one against it and below every positive one, and a changed sign
/// changes the sign.
pub proof fn law_coordinates_are_ordered(left: u32, right: u32)
    ensures
        left < 0x8000_0000 && right < 0x8000_0000 ==> (coordinate_key(left) < coordinate_key(right)
            <==> left < right),
        left > 0x8000_0000 && right > 0x8000_0000 ==> (coordinate_key(left) < coordinate_key(right)
            <==> left > right),
        left > 0x8000_0000 && right < 0x8000_0000 ==> coordinate_key(left) < coordinate_key(right),
        left < 0x8000_0000 && right == left + 0x8000_0000 ==> coordinate_key(right)
            == -coordinate_key(left),
{
}

/// The product of a document with a query adds what every coordinate of the query that is
/// not zero contributes, and nothing else.
pub proof fn law_query_sum_adds_coordinates(
    query: Seq<u32>,
    model: ThresholdModel,
    ordinal: int,
    next: u32,
)
    ensures
        query_sum(Seq::empty(), model, ordinal, 0) == 0,
        query_sum(query.push(next), model, ordinal, query.len() as int + 1) == query_sum(
            query,
            model,
            ordinal,
            query.len() as int,
        ) + (if next == 0 || next == 0x8000_0000 {
            0
        } else {
            (model.part)(query.len() as int, ordinal)
        }),
{
    lemma_query_sum_agrees(query.push(next), query, model, ordinal, query.len() as int);
    law_zero_coordinates(next);
}

proof fn lemma_query_sum_agrees(
    left: Seq<u32>,
    right: Seq<u32>,
    model: ThresholdModel,
    ordinal: int,
    upto: int,
)
    requires
        upto <= left.len(),
        upto <= right.len(),
        forall|i: int| 0 <= i < upto ==> #[trigger] left[i] == right[i],
    ensures
        query_sum(left, model, ordinal, upto) == query_sum(right, model, ordinal, upto),
    decreases upto,
{
    if upto > 0 {
        lemma_query_sum_agrees(left, right, model, ordinal, upto - 1);
    }
}

/// Documents are ordered by score from the highest, and equal scores by identity from the
/// smallest; of two documents with different identities one is first.
pub proof fn law_documents_are_ordered(
    documents: Seq<DenseDocument>,
    left: int,
    left_score: i64,
    right: int,
    right_score: i64,
)
    ensures
        left_score > right_score ==> document_before(
            documents,
            left,
            left_score,
            right,
            right_score,
        ),
        left_score == right_score ==> (document_before(
            documents,
            left,
            left_score,
            right,
            right_score,
        ) <==> documents[left].id < documents[right].id),
        !(document_before(documents, left, left_score, right, right_score) && document_before(
            documents,
            right,
            right_score,
            left,
            left_score,
        )),
        documents[left].id != documents[right].id ==> document_before(
            documents,
            left,
            left_score,
            right,
            right_score,
        ) || document_before(documents, right, right_score, left, left_score),
{
}

/// A sorted copy holds the identities of the documents, from the smallest.
pub proof fn law_sorted_documents(
    sorted: Seq<DenseDocument>,
    documents: Seq<DenseDocument>,
    id: u32,
)
    requires
        is_sorted_copy(sorted, documents),
    ensures
        sorted.len() == documents.len(),
        forall|i: int, j: int|
            0 <= i < j < sorted.len() ==> (#[trigger] sorted[i]).id <= (#[trigger] sorted[j]).id,
        (exists|i: int| 0 <= i < sorted.len() && (#[trigger] sorted[i]).id == id) <==> (exists|
            i: int,
        |
            0 <= i < documents.len() && (#[trigger] documents[i]).id == id),
{
    if exists|i: int| 0 <= i < sorted.len() && (#[trigger] sorted[i]).id == id {
        let i = choose|i: int| 0 <= i < sorted.len() && (#[trigger] sorted[i]).id == id;
        assert(crate::dense_documents::is_listed(documents, sorted[i]));
    }
    if exists|i: int| 0 <= i < documents.len() && (#[trigger] documents[i]).id == id {
        let i = choose|i: int| 0 <= i < documents.len() && (#[trigger] documents[i]).id == id;
        assert(crate::dense_documents::is_listed(sorted, documents[i]));
    }
}

/// No score is above the bound at its place.
pub proof fn law_scores_within_bounds(
    scores: spec_fn(int) -> Option<i64>,
    bounds: Seq<i64>,
    point: int,
)
    requires
        within(scores, bounds),
        0 <= point < bounds.len(),
        scores(point) is Some,
    ensures
        scores(point)->0 <= bounds[point],
{
}

/// Scores are inner products under two distances and under no other.
pub proof fn law_inner_products(distance: Distance)
    ensures
        is_inner_product(distance) <==> distance != Distance::Euclid && distance
            != Distance::Manhattan,
{
}

/// A certificate is used only where nothing forbids it: a scan is not forced, there are
/// enough points, and scores are inner products beside a quantized storage.
pub proof fn law_certificates_need_their_storage(
    distance: Distance,
    datatype: VectorStorageDatatype,
    quantized: Option<QuantizedDescription>,
    eligible: Seq<u32>,
    dimension: usize,
    policy: DenseExecutionPolicy,
)
    ensures
        ({
            let plan = dense_plan(distance, datatype, quantized, eligible, dimension, policy);
            let float = datatype == VectorStorageDatatype::Float32;
            let enough = !policy.force_exact_scan && eligible.len() >= policy.scalar_min_points && (
            distance == Distance::Dot || distance == Distance::Cosine) && quantized is Some;
            let held = quantized->0;
            &&& !enough ==> plan == DensePhysicalPlan::ExactScan
            &&& enough ==> {
                let scalar = float && held.per_vector_scalar
                    && !policy.disable_per_vector_scalar_certificate;
                let compact = float && !policy.disable_compact_certificate && eligible.len()
                    <= policy.compact_max_points && held.compact is Some
                    && held.compact->0.dimension == dimension && forall|i: int|
                    0 <= i < eligible.len() ==> #[trigger] eligible[i] < held.compact->0.rows;
                let table = (held.distance == Distance::Dot || held.distance == Distance::Cosine)
                    && held.datatype == VectorStorageDatatype::Float32
                    && held.reconstruction_rows is Some && forall|i: int|
                    0 <= i < eligible.len() ==> #[trigger] eligible[i] < held.reconstruction_rows->0;
                &&& plan == DensePhysicalPlan::PerVectorScalarCertificate <==> scalar
                &&& plan == DensePhysicalPlan::CompactCertificate <==> !scalar && compact
                &&& plan == DensePhysicalPlan::ScalarCertificate <==> !scalar && !compact && table
                &&& plan == DensePhysicalPlan::ExactScan <==> !scalar && !compact && !table
            }
        }),
{
}

/// Ranks are certified by a scalar index where vectors are single-precision, else by a
/// scalar table that covers every point, and else by a scan.
pub proof fn law_rank_certificates_need_their_storage(
    distance: Distance,
    datatype: VectorStorageDatatype,
    quantized: Option<QuantizedDescription>,
    eligible: Seq<u32>,
    policy: RankPolicy,
)
    ensures
        ({
            let plan = rank_plan(distance, datatype, quantized, eligible, policy);
            let enough = !policy.force_exact_scan && eligible.len() >= policy.scalar_min_points && (
            distance == Distance::Dot || distance == Distance::Cosine) && quantized is Some;
            let held = quantized->0;
            &&& !enough ==> plan == RankPlan::ExactScan
            &&& enough ==> {
                let scalar = datatype == VectorStorageDatatype::Float32 && held.per_vector_scalar;
                let table = (held.distance == Distance::Dot || held.distance == Distance::Cosine)
                    && held.datatype == VectorStorageDatatype::Float32
                    && held.reconstruction_rows is Some && forall|i: int|
                    0 <= i < eligible.len() ==> #[trigger] eligible[i] < held.reconstruction_rows->0;
                &&& plan == RankPlan::PerVectorScalarCertificate <==> scalar
                &&& plan == RankPlan::ScalarCertificate <==> !scalar && table
                &&& plan == RankPlan::ExactScan <==> !scalar && !table
            }
        }),
{
}

/// Plans keep their names; what a native search has no name for is a scan, and a scalar
/// index refines at least sixteen points at once.
pub proof fn law_plans_keep_their_names(plan: DensePhysicalPlan, rank: RankPlan, batch: usize)
    ensures
        native_plan(plan) == NativeDensePlan::PerVectorScalarCertificate <==> plan
            == DensePhysicalPlan::PerVectorScalarCertificate,
        native_plan(plan) == NativeDensePlan::CompactCertificate <==> plan
            == DensePhysicalPlan::CompactCertificate,
        native_plan(plan) == NativeDensePlan::ScalarCertificate <==> plan
            == DensePhysicalPlan::ScalarCertificate,
        physical_plan(rank) == DensePhysicalPlan::PerVectorScalarCertificate <==> rank
            == RankPlan::PerVectorScalarCertificate,
        physical_plan(rank) == DensePhysicalPlan::ScalarCertificate <==> rank
            == RankPlan::ScalarCertificate,
        physical_plan(rank) == DensePhysicalPlan::ExactScan <==> rank == RankPlan::ExactScan,
        refined_at_once(plan, batch) >= batch,
        plan != DensePhysicalPlan::PerVectorScalarCertificate ==> refined_at_once(plan, batch)
            == batch,
        plan == DensePhysicalPlan::PerVectorScalarCertificate ==> refined_at_once(plan, batch) == (
        if batch < 16 {
            16
        } else {
            batch
        }),
{
}

/// A request is refused for the first of these reasons that holds, and for no other: it is
/// stopped, it refines nothing at a time, its query is empty or not finite, or a point is
/// named twice.
pub proof fn law_refused_requests(
    stopped: bool,
    exact_refine_batch: usize,
    query: Seq<u32>,
    eligible: Seq<u32>,
)
    ensures
        ({
            let error = request_error(stopped, exact_refine_batch, query, eligible);
            let unfit = query.len() == 0 || exists|i: int|
                0 <= i < query.len() && !finite_bits(#[trigger] query[i]);
            &&& error == Some(OperationError::Cancelled) <==> stopped
            &&& error == Some(OperationError::ValidationError(Fault::ZeroRefineBatch)) <==> !stopped
                && exact_refine_batch == 0
            &&& error == Some(OperationError::ValidationError(Fault::InvalidDenseQuery))
                <==> !stopped && exact_refine_batch > 0 && unfit
            &&& error == Some(OperationError::InconsistentStorage(Fault::DuplicateEligible))
                <==> !stopped && exact_refine_batch > 0 && !unfit && !eligible.no_duplicates()
            &&& error is None <==> !stopped && exact_refine_batch > 0 && !unfit
                && eligible.no_duplicates()
        }),
{
}

/// Seeds are taken where each names another eligible point and a finite score.
pub proof fn law_seeds_are_taken(
    seeds: Seq<(PointOffsetType, i64)>,
    eligible: spec_fn(PointOffsetType) -> bool,
)
    ensures
        seed_fault(seeds, eligible) is None <==> {
            &&& forall|i: int, j: int|
                0 <= i < j < seeds.len() ==> (#[trigger] seeds[i]).0 != (#[trigger] seeds[j]).0
            &&& forall|i: int|
                0 <= i < seeds.len() ==> finite_key((#[trigger] seeds[i]).1) && eligible(seeds[i].0)
        },
    decreases seeds.len(),
{
    if seeds.len() > 0 {
        let earlier = seeds.drop_last();
        law_seeds_are_taken(earlier, eligible);
        let last = seeds.len() - 1;
        let (id, score) = seeds.last();
        if seed_fault(seeds, eligible) is None {
            assert forall|i: int, j: int| 0 <= i < j < seeds.len() implies (#[trigger] seeds[i]).0
                != (#[trigger] seeds[j]).0 by {
                assert(earlier[i] == seeds[i]);
                if j < last {
                    assert(earlier[j] == seeds[j]);
                }
            }
            assert forall|i: int| 0 <= i < seeds.len() implies finite_key((#[trigger] seeds[i]).1)
                && eligible(seeds[i].0) by {
                if i < last {
                    assert(earlier[i] == seeds[i]);
                }
            }
        } else {
            if seed_fault(earlier, eligible) is Some {
                if (forall|i: int, j: int|
                    0 <= i < j < seeds.len() ==> (#[trigger] seeds[i]).0 != (#[trigger] seeds[j]).0)
                    && (forall|i: int|
                    0 <= i < seeds.len() ==> finite_key((#[trigger] seeds[i]).1) && eligible(
                        seeds[i].0,
                    )) {
                    assert forall|i: int, j: int| 0 <= i < j < earlier.len() implies (
                    #[trigger] earlier[i]).0 != (#[trigger] earlier[j]).0 by {
                        assert(seeds[i].0 != seeds[j].0);
                    }
                    assert forall|i: int| 0 <= i < earlier.len() implies finite_key(
                        (#[trigger] earlier[i]).1,
                    ) && eligible(earlier[i].0) by {
                        assert(finite_key(seeds[i].1));
                    }
                }
            } else if seeds_point(earlier, id) {
                let i = choose|i: int| 0 <= i < earlier.len() && (#[trigger] earlier[i]).0 == id;
                assert(seeds[i].0 == seeds[last].0);
            } else {
                assert(seeds[last] == (id, score));
            }
        }
    }
}

/// One more seed is refused for what an earlier one is refused for, else for naming a
/// point again, for its score, or for a point that is not eligible, in this order.
pub proof fn law_refused_seeds(
    seeds: Seq<(PointOffsetType, i64)>,
    eligible: spec_fn(PointOffsetType) -> bool,
    id: PointOffsetType,
    score: i64,
)
    ensures
        seed_fault(seeds, eligible) is Some ==> seed_fault(seeds.push((id, score)), eligible)
            == seed_fault(seeds, eligible),
        seed_fault(seeds, eligible) is None ==> ({
            let fault = seed_fault(seeds.push((id, score)), eligible);
            let again = exists|i: int| 0 <= i < seeds.len() && (#[trigger] seeds[i]).0 == id;
            &&& again ==> fault == Some(Fault::DuplicateSeed { id })
            &&& !again && !finite_key(score) ==> fault == Some(Fault::NonFiniteSeed { id })
            &&& !again && finite_key(score) && !eligible(id) ==> fault == Some(
                Fault::IneligibleSeed { id },
            )
        }),
{
    assert(seeds.push((id, score)).drop_last() =~= seeds);
}

/// The seed of a point is the score that was given for it.
pub proof fn law_seed_of_a_point(seeds: Seq<(PointOffsetType, i64)>, at: int)
    requires
        0 <= at < seeds.len(),
        forall|i: int, j: int|
            0 <= i < j < seeds.len() ==> (#[trigger] seeds[i]).0 != (#[trigger] seeds[j]).0,
    ensures
        seeds_point(seeds, seeds[at].0),
        seed_of(seeds, seeds[at].0) == seeds[at].1,
{
    let id = seeds[at].0;
    let i = choose|i: int| 0 <= i < seeds.len() && (#[trigger] seeds[i]).0 == id;
    if i < at {
        assert(seeds[i].0 != seeds[at].0);
    } else if at < i {
        assert(seeds[at].0 != seeds[i].0);
    }
}

/// A seed contradicts a certificate where it differs from the score that is known, or lies
/// outside of the bounds of a score that is not.
pub proof fn law_contradicting_seeds(
    view: CertificateView,
    slot: int,
    score: i64,
)
    ensures
        seed_violation(view, slot, score) == Some(Fault::SeedChanged { id: view.bounds[slot].id })
            <==> view.scores[slot] is Some && view.scores[slot]->0 != score,
        seed_violation(view, slot, score) == Some(
            Fault::SeedViolatesBound { id: view.bounds[slot].id },
        ) <==> view.scores[slot] is None && !(view.bounds[slot].lower <= score
            <= view.bounds[slot].value),
        seed_violation(view, slot, score) is None <==> view.scores[slot] == Some(score)
            || view.scores[slot] is None && view.bounds[slot].lower <= score
            <= view.bounds[slot].value,
{
}

/// Points are probed where each is eligible and none is named twice.
pub proof fn law_probes_are_taken(
    ids: Seq<PointOffsetType>,
    eligible: spec_fn(PointOffsetType) -> bool,
)
    ensures
        probe_fault(ids, eligible) is None <==> ids.no_duplicates() && forall|i: int|
            0 <= i < ids.len() ==> eligible(#[trigger] ids[i]),
    decreases ids.len(),
{
    if ids.len() > 0 {
        let earlier = ids.drop_last();
        law_probes_are_taken(earlier, eligible);
        let last = ids.len() - 1;
        if probe_fault(ids, eligible) is None {
            assert forall|i: int, j: int|
                0 <= i < ids.len() && 0 <= j < ids.len() && i != j implies ids[i] != ids[j] by {
                if i == last {
                    assert(earlier[j] == ids[j]);
                } else if j == last {
                    assert(earlier[i] == ids[i]);
                } else {
                    assert(earlier[i] != earlier[j]);
                }
            }
            assert forall|i: int| 0 <= i < ids.len() implies eligible(#[trigger] ids[i]) by {
                if i < last {
                    assert(earlier[i] == ids[i]);
                }
            }
        } else if ids.no_duplicates() && forall|i: int|
            0 <= i < ids.len() ==> eligible(#[trigger] ids[i]) {
            assert forall|i: int| 0 <= i < earlier.len() implies eligible(#[trigger] earlier[i]) by {
                assert(eligible(ids[i]));
            }
            assert(earlier.no_duplicates());
            if earlier.contains(ids.last()) {
                let i = choose|i: int| 0 <= i < earlier.len() && earlier[i] == ids.last();
                assert(ids[i] == ids[last]);
            }
            assert(eligible(ids[last]));
        }
    }
}

/// One more probe is refused for what an earlier one is refused for, else for naming a
/// point again, or for a point that is not eligible.
pub proof fn law_refused_probes(
    ids: Seq<PointOffsetType>,
    eligible: spec_fn(PointOffsetType) -> bool,
    id: PointOffsetType,
)
    ensures
        probe_fault(ids, eligible) is Some ==> probe_fault(ids.push(id), eligible) == probe_fault(
            ids,
            eligible,
        ),
        probe_fault(ids, eligible) is None && ids.contains(id) ==> probe_fault(
            ids.push(id),
            eligible,
        ) == Some(Fault::DuplicateProbe { id }),
        probe_fault(ids, eligible) is None && !ids.contains(id) && !eligible(id) ==> probe_fault(
            ids.push(id),
            eligible,
        ) == Some(Fault::IneligibleProbe { id }),
{
    assert(ids.push(id).drop_last() =~= ids);
}

/// A bound encloses where both ends are finite and in order.
pub proof fn law_intervals(bound: PendingBound)
    ensures
        is_interval(bound) <==> -0x7ff0_0000_0000_0000 < bound.lower <= bound.value
            < 0x7ff0_0000_0000_0000,
{
}

/// Whether a point has a bound.
pub open spec fn is_bounded(bounds: Seq<PendingBound>, id: u32) -> bool {
    exists|k: int| 0 <= k < bounds.len() && (#[trigger] bounds[k]).id == id
}

/// Bounds are taken for points where no point is named twice, and every point has one
/// bound, which encloses.
pub proof fn law_bounds_are_taken(eligible: Seq<u32>, bounds: Seq<PendingBound>)
    ensures
        universe_fault(eligible, bounds) == Some(Fault::DuplicateEligible)
            <==> !eligible.no_duplicates(),
        universe_fault(eligible, bounds) is None <==> {
            &&& eligible.no_duplicates()
            &&& eligible.len() == bounds.len()
            &&& forall|i: int| 0 <= i < eligible.len() ==> is_bounded(bounds, #[trigger] eligible[i])
            &&& forall|i: int|
                0 <= i < bounds.len() ==> -0x7ff0_0000_0000_0000 < (#[trigger] bounds[i]).lower
                    <= bounds[i].value < 0x7ff0_0000_0000_0000
        },
        universe_fault(eligible, bounds) is None || universe_fault(eligible, bounds) == Some(
            Fault::DuplicateEligible,
        ) || universe_fault(eligible, bounds) == Some(Fault::BoundsMismatch),
{
    let named = bound_ids(bounds);
    assert forall|id: u32| #[trigger] named.contains(id) <==> is_bounded(bounds, id) by {
        if named.contains(id) {
            let k = choose|k: int| 0 <= k < named.len() && named[k] == id;
            assert(bounds[k].id == id);
        }
        if is_bounded(bounds, id) {
            let k = choose|k: int| 0 <= k < bounds.len() && (#[trigger] bounds[k]).id == id;
            assert(named[k] == id);
        }
    }
    if universe_fault(eligible, bounds) is None {
        assert forall|i: int| 0 <= i < bounds.len() implies -0x7ff0_0000_0000_0000 < (
        #[trigger] bounds[i]).lower <= bounds[i].value < 0x7ff0_0000_0000_0000 by {
            assert(is_interval(bounds[i]));
        }
        assert forall|i: int| 0 <= i < eligible.len() implies is_bounded(
            bounds,
            #[trigger] eligible[i],
        ) by {
            assert(named.contains(eligible[i]));
        }
    } else if eligible.no_duplicates() && eligible.len() == bounds.len() && forall|i: int|
        0 <= i < eligible.len() ==> is_bounded(bounds, #[trigger] eligible[i]) {
        assert forall|i: int| 0 <= i < eligible.len() implies named.contains(
            #[trigger] eligible[i],
        ) by {
            assert(is_bounded(bounds, eligible[i]));
        }
        let at = choose|at: int| 0 <= at < bounds.len() && !is_interval(#[trigger] bounds[at]);
        assert(!is_interval(bounds[at]));
    }
}

/// Sorted bounds are the given ones, from the smallest identity.
pub proof fn law_sorted_bounds(given: Seq<PendingBound>, sorted: Seq<PendingBound>, i: int, j: int)
    requires
        sorts_bounds(given, sorted),
        0 <= i < j < sorted.len(),
    ensures
        sorted.len() == given.len(),
        sorted[i].id < sorted[j].id,
        given.contains(sorted[i]),
        given.contains(sorted[j]),
{
}

/// Rows can be compared with a scalar index where coordinates are single-precision, scores
/// are inner products, and the stored bytes are four for each coordinate.
pub proof fn law_supported_rows(storage: VectorStorageDescription, dimension: usize)
    ensures
        supports_rows(storage, dimension) <==> dimension > 0 && storage.datatype
            == VectorStorageDatatype::Float32 && (storage.distance == Distance::Dot
            || storage.distance == Distance::Cosine) && storage.layout_bytes is Some
            && storage.layout_bytes->0 == 4 * dimension,
        guard_is_defined(dimension) <==> dimension < 1_048_568,
{
}

/// A search by a scalar index is accepted where the storage supports it and agrees with the
/// index, the query fits, its points are rows that are named once, and the query can be
/// encoded and guarded.
pub proof fn law_accepted_scalar_requests(
    metadata: PerVectorScalarMetadata,
    storage: VectorStorageDescription,
    eligible: Seq<u32>,
    query: Seq<u32>,
    encodes: bool,
)
    requires
        query.len() <= usize::MAX,
    ensures
        request_fault(metadata, storage, eligible, query, encodes) is None <==> supports_rows(
            storage,
            metadata.dimension,
        ) && storage.vector_count == metadata.vector_count && query.len() == metadata.dimension
            && finite_vector(query) && eligible.no_duplicates() && (forall|i: int|
            0 <= i < eligible.len() ==> #[trigger] eligible[i] < metadata.vector_count) && encodes
            && query.len() < 1_048_568,
        contiguous_fault(metadata, storage, query, encodes) is None <==> supports_rows(
            storage,
            metadata.dimension,
        ) && storage.vector_count == metadata.vector_count && metadata.vector_count
            <= 0x1_0000_0000 && query.len() == metadata.dimension && finite_vector(query) && encodes
            && query.len() < 1_048_568,
{
    law_supported_rows(storage, query.len() as usize);
}

/// The proposed points are those whose identity is proposed; those that are met again
/// stand in an opened leaf.
pub proof fn law_proposed_points(
    tree: NodeTree,
    proposals: Seq<u32>,
    opened: Set<int>,
    point: int,
)
    ensures
        proposed_places(tree, proposals).contains(point) <==> 0 <= point < tree.ids@.len()
            && proposals.contains(tree.ids@[point]),
        met_again(tree, opened, proposed_places(tree, proposals)).contains(point)
            <==> proposed_places(tree, proposals).contains(point) && exists|leaf: int| #[trigger]
            opened.contains(leaf) && tree.nodes@[leaf].children@.len() == 0
                && tree.nodes@[leaf].start <= point < tree.nodes@[leaf].end,
{
    if exists|leaf: int| #[trigger]
        opened.contains(leaf) && tree.nodes@[leaf].children@.len() == 0 && tree.nodes@[leaf].start
            <= point < tree.nodes@[leaf].end {
        let leaf = choose|leaf: int| #[trigger]
            opened.contains(leaf) && tree.nodes@[leaf].children@.len() == 0
                && tree.nodes@[leaf].start <= point < tree.nodes@[leaf].end;
        assert(opened_leaves(tree, opened).contains(leaf));
        assert(tree.covers(leaf, point));
    }
}

/// Entries are ordered by score from the highest, equal scores by identity, and equal
/// identities by slot, each from the smallest.
pub proof fn law_entries_are_ordered(left: RankEntry, right: RankEntry)
    ensures
        left.score > right.score ==> left.precedes(right),
        left.score == right.score && left.id.rank() < right.id.rank() ==> left.precedes(right),
        left.score == right.score && left.id.rank() == right.id.rank() ==> (left.precedes(right)
            <==> left.slot < right.slot),
        !(left.precedes(right) && right.precedes(left)),
{
}

/// Ordered entries are the given ones; a higher score stands before a lower one, and of
/// equal scores the smaller identity.
pub proof fn law_ordered_entries(entries: Seq<RankEntry>, i: int, j: int)
    requires
        0 <= i < j < ordered(entries).len(),
    ensures
        ordered(entries).to_multiset() == entries.to_multiset(),
        ordered(entries)[i].score >= ordered(entries)[j].score,
        ordered(entries)[i].score == ordered(entries)[j].score ==> ordered(entries)[i].id.rank()
            <= ordered(entries)[j].id.rank(),
{
    lemma_ordered(entries);
    assert(!ordered(entries)[j].precedes(ordered(entries)[i]));
}

/// No two identities have the same key.
pub proof fn law_identities_have_their_own_key(left: ExtendedPointId, right: ExtendedPointId)
    ensures
        id_key(left) == id_key(right) <==> left == right,
{
}

/// The next center is a document that was not picked, that none of those left exceeds in
/// distance, and of equals the one with the smallest identity.
pub proof fn law_farthest_document(
    keys: Seq<i64>,
    open: Seq<bool>,
    ids: Seq<u32>,
    place: int,
    other: int,
)
    requires
        is_farthest(keys, open, ids, place),
        0 <= other < keys.len(),
        open[other],
    ensures
        0 <= place < keys.len(),
        open[place],
        keys[other] <= keys[place],
        keys[other] == keys[place] ==> ids[place] <= ids[other],
{
}

/// A document is left open where it was not picked.
pub proof fn law_open_documents(picked: Seq<usize>, count: nat, place: int)
    requires
        0 <= place < count <= usize::MAX,
    ensures
        left_open(picked, count).len() == count,
        left_open(picked, count)[place] <==> forall|i: int|
            0 <= i < picked.len() ==> #[trigger] picked[i] != place,
{
    if picked.contains(place as usize) {
        let i = choose|i: int| 0 <= i < picked.len() && picked[i] == place as usize;
        assert(picked[i] == place);
    }
}

/// A document joins the nearest cluster that is not full, and of equals the first.
pub proof fn law_nearest_cluster(
    row: Seq<i64>,
    sizes: Seq<usize>,
    capacity: usize,
    cluster: int,
    other: int,
)
    requires
        is_nearest_open(row, sizes, capacity, cluster),
        0 <= other < row.len(),
        sizes[other] < capacity,
    ensures
        0 <= cluster < row.len(),
        sizes[cluster] < capacity,
        row[cluster] <= row[other],
        row[cluster] == row[other] ==> cluster <= other,
{
    let size = sizes[other];
}

/// The two smallest distances are two distances of the row, in order, and at most one place
/// holds less than the second.
pub proof fn law_two_smallest_distances(row: Seq<i64>, first: i64, second: i64, i: int, j: int)
    requires
        are_smallest_two(row, first, second),
        0 <= i < row.len(),
        0 <= j < row.len(),
        i != j,
    ensures
        row.contains(first),
        row.contains(second),
        first <= second,
        first <= row[i],
        row[i] >= second || row[j] >= second,
{
    let (a, b) = choose|a: int, b: int|
        {
            &&& 0 <= a < row.len()
            &&& 0 <= b < row.len()
            &&& a != b
            &&& #[trigger] row[a] == first
            &&& #[trigger] row[b] == second
            &&& forall|k: int| 0 <= k < row.len() ==> first <= #[trigger] row[k]
            &&& forall|k: int| 0 <= k < row.len() && k != a ==> second <= #[trigger] row[k]
        };
    assert(row.contains(row[a]) && row.contains(row[b]));
    let left = row[i];
    let right = row[j];
}

/// Documents are served by the gap between their two nearest clusters, the widest first, and
/// of equals the smallest identity; each is served once.
pub proof fn law_service_order(
    gaps: Seq<i64>,
    ids: Seq<u32>,
    order: Seq<usize>,
    i: int,
    j: int,
)
    requires
        is_service_order(gaps, ids, order),
        0 <= i < j < order.len(),
    ensures
        order.len() == gaps.len(),
        order[i] != order[j],
        gaps[order[i] as int] >= gaps[order[j] as int],
        gaps[order[i] as int] == gaps[order[j] as int] ==> ids[order[i] as int]
            <= ids[order[j] as int],
{
}

/// An empty cluster gets the document that is farthest from its own of those that do not
/// stand alone, and of equals the one with the smallest identity.
pub proof fn law_donated_documents(
    rows: Seq<Vec<i64>>,
    ids: Seq<u32>,
    assignments: Seq<usize>,
    sizes: Seq<usize>,
    row: int,
    other: int,
)
    requires
        is_donor(rows, ids, assignments, sizes, row),
        0 <= other < assignments.len(),
        sizes[assignments[other] as int] > 1,
    ensures
        0 <= row < assignments.len(),
        sizes[assignments[row] as int] > 1,
        rows[other]@[assignments[other] as int] <= rows[row]@[assignments[row] as int],
        rows[other]@[assignments[other] as int] == rows[row]@[assignments[row] as int]
            ==> ids[row] <= ids[other],
{
    assert(can_leave(assignments, sizes, other));
}

/// The sizes of clusters are how many documents are assigned to each.
pub proof fn law_sizes_of_clusters(assignments: Seq<usize>, clusters: nat, cluster: int)
    requires
        0 <= cluster < clusters,
        assignments.len() <= usize::MAX,
    ensures
        cluster_sizes(assignments, clusters).len() == clusters,
        cluster_sizes(assignments, clusters)[cluster] == counted_places(
            assignments.len() as int,
            |at: int| assignments[at] == cluster,
        ).len(),
{
    law_cluster_size(assignments, cluster);
    lemma_few_counted(assignments.len() as int, |at: int| assignments[at] == cluster);
}

proof fn lemma_few_counted(upto: int, meant: spec_fn(int) -> bool)
    requires
        0 <= upto,
    ensures
        counted_places(upto, meant).len() <= upto,
    decreases upto,
{
    lemma_counted(upto, meant);
    if upto > 0 {
        lemma_few_counted(upto - 1, meant);
    }
}

/// Parts are joined in their order.
pub proof fn law_joined_parts(parts: Seq<Vec<usize>>, next: Vec<usize>)
    ensures
        joined(Seq::empty(), 0) == Seq::<usize>::empty(),
        joined(parts.push(next), parts.len() as int + 1) == joined(parts, parts.len() as int)
            + next@,
{
    lemma_joined_agrees(parts.push(next), parts, parts.len() as int);
}

proof fn lemma_joined_agrees(left: Seq<Vec<usize>>, right: Seq<Vec<usize>>, upto: int)
    requires
        upto <= left.len(),
        upto <= right.len(),
        forall|i: int| 0 <= i < upto ==> #[trigger] left[i] == right[i],
    ensures
        joined(left, upto) == joined(right, upto),
    decreases upto,
{
    if upto > 0 {
        lemma_joined_agrees(left, right, upto - 1);
    }
}

/// A query by balls has the dimension of the documents, finite coordinates, and one that is
/// not zero.
pub proof fn law_accepted_ball_queries(index: DenseBallIndex, query: Seq<u32>)
    ensures
        index.accepts_query(query) <==> query.len() == index.dims() && (forall|i: int|
            0 <= i < query.len() ==> finite_bits(#[trigger] query[i])) && exists|i: int|
            0 <= i < query.len() && #[trigger] query[i] != 0 && query[i] != 0x8000_0000,
{
    if index.accepts_query(query) {
        let i = choose|i: int| 0 <= i < query.len() && !is_zero(#[trigger] query[i]);
        law_zero_coordinates(query[i]);
    }
    if exists|i: int| 0 <= i < query.len() && #[trigger] query[i] != 0 && query[i] != 0x8000_0000 {
        let i = choose|i: int|
            0 <= i < query.len() && #[trigger] query[i] != 0 && query[i] != 0x8000_0000;
        law_zero_coordinates(query[i]);
        assert(!is_zero(query[i]));
    }
}

/// A repeated identity that is reported occurs twice, and no smaller one does.
pub proof fn law_smallest_repetition(documents: Seq<DenseDocument>, id: u32, i: int, j: int)
    requires
        is_smallest_duplicate(documents, id),
        0 <= i < j < documents.len(),
        documents[i].id == documents[j].id,
    ensures
        id <= documents[i].id,
        exists|a: int, b: int|
            0 <= a < b < documents.len() && (#[trigger] documents[a]).id == id && (
            #[trigger] documents[b]).id == id,
{
    assert(occurs_twice(documents, documents[i].id));
}

/// The documents of a coordinate's order are all documents, by that coordinate from the
/// largest, and equal ones by identity.
pub proof fn law_coordinate_orders(
    documents: Seq<DenseDocument>,
    coordinate: int,
    order: Seq<u32>,
    i: int,
    j: int,
)
    requires
        is_coordinate_order(documents, coordinate, order),
        0 <= i < j < order.len(),
    ensures
        order.len() == documents.len(),
        ({
            let left = documents[order[i] as int];
            let right = documents[order[j] as int];
            &&& coordinate_key(left.vector@[coordinate]) >= coordinate_key(
                right.vector@[coordinate],
            )
            &&& coordinate_key(left.vector@[coordinate]) == coordinate_key(
                right.vector@[coordinate],
            ) ==> left.id <= right.id
        }),
{
}

/// The first document of a set has a score that no other exceeds, and of equals the smallest
/// identity.
pub proof fn law_first_document(
    documents: Seq<DenseDocument>,
    scores: spec_fn(int) -> Option<i64>,
    held: Set<int>,
    ordinal: int,
    other: int,
)
    requires
        is_first_document(documents, scores, held, ordinal),
        held.contains(other),
        other != ordinal,
    ensures
        held.contains(ordinal),
        scores(other)->0 < scores(ordinal)->0 || scores(other)->0 == scores(ordinal)->0
            && documents[ordinal].id < documents[other].id,
{
}

/// What a coordinate contributes by its place has the sign of the query, and a bound moves by
/// whole numbers and is without limit where it would leave the finite ones.
pub proof fn law_place_parts(
    index: DenseThresholdIndex,
    query: Seq<u32>,
    coordinate: int,
    ordinal: int,
    bound: i64,
    change: int,
)
    ensures
        query[coordinate] < 0x8000_0000 ==> place_part(index, query, coordinate, ordinal)
            == coordinate_key(index.documents()[ordinal].vector@[coordinate]),
        query[coordinate] >= 0x8000_0000 ==> place_part(index, query, coordinate, ordinal)
            == -coordinate_key(index.documents()[ordinal].vector@[coordinate]),
        finite_key(bound) && -0x7ff0_0000_0000_0000 < bound + change < 0x7ff0_0000_0000_0000
            ==> whole_bound(bound, change) == bound + change,
        !finite_key(bound) ==> whole_bound(bound, change) == 0x7ff0_0000_0000_0000,
        bound + change >= 0x7ff0_0000_0000_0000 ==> whole_bound(bound, change)
            == 0x7ff0_0000_0000_0000,
{
}

/// Contiguous bounds are one for every ordinal, at its own place, and each encloses.
pub proof fn law_contiguous_bounds(bounds: Seq<PendingBound>, count: int, at: int)
    requires
        0 <= at < count,
    ensures
        is_contiguous(bounds, count) ==> bounds.len() == count && bounds[at].id == at
            && -0x7ff0_0000_0000_0000 < bounds[at].lower <= bounds[at].value
            < 0x7ff0_0000_0000_0000,
        bounds.len() == count && is_contiguous(bounds, count) ==> is_interval(bounds[at]),
{
    if is_contiguous(bounds, count) {
        assert(is_ordinal_bound(bounds[at], at));
    }
}

/// One more seed is new where its point has no score yet.
pub proof fn law_new_seeds(
    view: CertificateView,
    seeds: Seq<(PointOffsetType, i64)>,
    id: PointOffsetType,
    score: i64,
)
    ensures
        new_seeds(view, Seq::empty(), 0) == 0,
        new_seeds(view, seeds.push((id, score)), seeds.len() as int + 1) == new_seeds(
            view,
            seeds,
            seeds.len() as int,
        ) + (if exists|slot: int|
            0 <= slot < view.bounds.len() && (#[trigger] view.bounds[slot]).id == id
                && view.scores[slot] is None {
            1int
        } else {
            0
        }),
{
    lemma_new_seeds_agree(view, seeds.push((id, score)), seeds, seeds.len() as int);
}

proof fn lemma_new_seeds_agree(
    view: CertificateView,
    left: Seq<(PointOffsetType, i64)>,
    right: Seq<(PointOffsetType, i64)>,
    upto: int,
)
    requires
        upto <= left.len(),
        upto <= right.len(),
        forall|i: int| 0 <= i < upto ==> #[trigger] left[i] == right[i],
    ensures
        new_seeds(view, left, upto) == new_seeds(view, right, upto),
    decreases upto,
{
    if upto > 0 {
        lemma_new_seeds_agree(view, left, right, upto - 1);
    }
}

/// Seeds that are taken become the scores of their points; other scores stay, and so does
/// everything else.
pub proof fn law_taken_seeds(
    before: CertificateView,
    seeds: Seq<(PointOffsetType, i64)>,
    inserted: nat,
    after: CertificateView,
    slot: int,
)
    requires
        takes_seeds(before, seeds, seeds.len() as int, inserted, after),
        0 <= slot < before.bounds.len(),
        forall|i: int, j: int|
            0 <= i < j < seeds.len() ==> (#[trigger] seeds[i]).0 != (#[trigger] seeds[j]).0,
    ensures
        after.bounds == before.bounds,
        after.phases == before.phases,
        after.emitted == before.emitted,
        forall|i: int|
            0 <= i < seeds.len() && (#[trigger] seeds[i]).0 == before.bounds[slot].id
                ==> after.scores[slot] == Some(seeds[i].1),
        (forall|i: int|
            0 <= i < seeds.len() ==> (#[trigger] seeds[i]).0 != before.bounds[slot].id)
            ==> after.scores[slot] == before.scores[slot],
{
    assert(seeds.take(seeds.len() as int) =~= seeds);
    let now = after.scores[slot];
    assert forall|i: int|
        0 <= i < seeds.len() && (#[trigger] seeds[i]).0 == before.bounds[slot].id implies
        after.scores[slot] == Some(seeds[i].1) by {
        law_seed_of_a_point(seeds, i);
    }
}

/// A fresh certificate knows no score, has emitted nothing and holds every point.
pub proof fn law_fresh_certificates(
    bounds: Seq<PendingBound>,
    batch: usize,
    strict: bool,
    slot: int,
)
    requires
        0 <= slot < bounds.len(),
    ensures
        fresh_certificate(bounds, batch, strict).bounds == bounds,
        fresh_certificate(bounds, batch, strict).scores.len() == bounds.len(),
        fresh_certificate(bounds, batch, strict).scores[slot] is None,
        fresh_certificate(bounds, batch, strict).phases[slot] == Phase::Pending,
        fresh_certificate(bounds, batch, strict).emitted.len() == 0,
        fresh_certificate(bounds, batch, strict).batch == batch,
        fresh_certificate(bounds, batch, strict).strict == strict,
        fresh_certificate(bounds, batch, strict).computed == 0,
{
}

/// Where nothing was done nothing is counted, and no plan is named.
pub proof fn law_no_work()
    ensures
        no_rank_work().plan is None,
        no_rank_work().eligible_points == 0,
        no_rank_work().accepted_prefix_points == 0,
        no_rank_work().quantized_scores == 0,
        no_rank_work().exact_scores == 0,
        no_rank_work().points_emitted == 0,
        no_native_work().plan is None,
        no_native_work().native_quantized_scores == 0,
        no_native_work().exact_scores == 0,
        no_native_work().points_emitted == 0,
        no_dense_work().plan is None,
        no_dense_work().quantized_scores == 0,
        no_dense_work().exact_scores == 0,
        no_dense_work().seeded_exact_scores == 0,
        no_dense_work().exact_refine_batches == 0,
        no_dense_work().points_emitted == 0,
{
}

/// The exact ranking of points holds each once with its score, from the highest score, and
/// equal scores from the smallest offset.
pub proof fn law_exact_ranking_falls_by_score(
    ids: Seq<PointOffsetType>,
    score: spec_fn(PointOffsetType) -> i64,
    i: int,
    j: int,
)
    requires
        ids.no_duplicates(),
        ids.len() <= usize::MAX,
        0 <= i < j < ids.len(),
    ensures
        ({
            let ranking = exact_ranking(ids, score);
            &&& ranking.len() == ids.len()
            &&& ids.contains(ranking[i].idx)
            &&& ranking[i].score == score(ranking[i].idx)
            &&& ranking[j].score == score(ranking[j].idx)
            &&& ranking[i].score > ranking[j].score || ranking[i].score == ranking[j].score
                && ranking[i].idx <= ranking[j].idx
            &&& ranking.contains(ScoredPointOffset { idx: ids[i], score: score(ids[i]) })
        }),
{
    let scores = scores_of(ids, score);
    law_scan_order_is_exact(ids, scores);
    let ranking = exact_ranking(ids, score);
    assert(is_scored(ids, scores, ranking[i]));
    assert(is_scored(ids, scores, ranking[j]));
    let a = choose|a: int|
        0 <= a < ids.len() && #[trigger] ids[a] == ranking[i].idx && scores[a] == ranking[i].score;
    let b = choose|b: int|
        0 <= b < ids.len() && #[trigger] ids[b] == ranking[j].idx && scores[b] == ranking[j].score;
    assert(ids.contains(ids[a]));
    assert(scores[i] == score(ids[i]));
    assert(ranking.contains(ScoredPointOffset { idx: ids[i], score: scores[i] }));
}

/// What is left of a ranking stands behind what was emitted; a scan has as many points left
/// as stand behind its position.
pub proof fn law_rankings_go_on(
    points: Seq<ScoredPointOffset>,
    position: int,
    score: spec_fn(PointOffsetType) -> i64,
    at: int,
)
    requires
        0 <= position <= points.len(),
        0 <= at < points.len() - position,
    ensures
        ranking_left(RankingView::Scan(points, position), score).len() == points.len() - position,
        ranking_left(RankingView::Scan(points, position), score)[at] == points[position + at],
        points_left(RankingView::Scan(points, position)) == points.len() - position,
        emitted(RankingView::Scan(points, position)) == points.take(position),
        is_exhausted(RankingView::Scan(points, position)) <==> position >= points.len(),
{
}

/// Evidence is one interval, or one score, for every point, in the order of the points, and
/// each is what was asked for it.
pub proof fn law_evidence_of_every_point<S: Fn(PointOffsetType) -> i64>(
    ids: Seq<PointOffsetType>,
    bounds: Seq<PendingBound>,
    encloses: spec_fn(PointOffsetType, (i64, i64)) -> bool,
    scorer: S,
    scores: Seq<i64>,
    at: int,
)
    requires
        0 <= at < ids.len(),
    ensures
        are_intervals(ids, bounds, encloses) ==> bounds.len() == ids.len() && bounds[at].id
            == ids[at] && encloses(ids[at], (bounds[at].lower, bounds[at].value)),
        are_scores(ids, scorer, scores) ==> scores.len() == ids.len() && scorer.ensures(
            (ids[at],),
            scores[at],
        ),
{
    if are_intervals(ids, bounds, encloses) {
        assert(bound_ids(bounds)[at] == ids[at]);
        let bound = bounds[at];
    }
    if are_scores(ids, scorer, scores) {
        let score = scores[at];
    }
}

/// A list in ascending order holds the given points, each once.
pub proof fn law_ascending_lists(
    ids: Seq<PointOffsetType>,
    eligible: Seq<PointOffsetType>,
    i: int,
    j: int,
)
    requires
        lists_ascending(ids, eligible),
        0 <= i < j < ids.len(),
    ensures
        ids.len() == eligible.len(),
        ids[i] < ids[j],
        eligible.contains(ids[i]),
        eligible.contains(ids[j]),
{
    assert(ids.contains(ids[i]) && ids.contains(ids[j]));
}

/// A fusion of one sparse and one dense channel reads the sparse one first, weighs both as
/// given, and begins with nothing.
pub proof fn law_hybrid_channels<'a, S: ExactRrfStream, G: KeySource, F: KeySource>(
    sparse: S,
    dense: CertifiedStream<'a, G, F>,
    top_k: usize,
    rrf_k: usize,
    weights: Option<Seq<i64>>,
)
    ensures
        ({
            let start = first_hybrid(sparse, dense, top_k, rrf_k, weights);
            &&& start.streams.len() == 2
            &&& start.streams[0] == DynamicRrfSource::<HybridSource<'a, S, G, F>, IdStream>::Point(
                HybridSource::Sparse(sparse),
            )
            &&& start.streams[1] == DynamicRrfSource::<HybridSource<'a, S, G, F>, IdStream>::Point(
                HybridSource::Dense(dense),
            )
            &&& start.view.fusion.top_k == top_k
            &&& start.view.fusion.rrf_k == rrf_k
            &&& start.view.fusion.histories.len() == 2
            &&& weights is Some ==> start.view.fusion.weights == weights->0
        }),
{
}

/// A cursor under certified intervals ranks exactly the eligible points, begins with none
/// emitted and no score known, and says what it was opened by.
pub proof fn law_certified_cursors(
    eligible: Seq<u32>,
    bounds: Seq<PendingBound>,
    exact_refine_batch: usize,
    plan: DensePhysicalPlan,
    quantized_scores: usize,
    cursor: ExactDenseCursor,
    id: u32,
)
    requires
        is_certified_cursor(
            eligible,
            bounds,
            exact_refine_batch,
            plan,
            quantized_scores,
            Ok(cursor),
        ),
    ensures
        exact_refine_batch > 0,
        universe_fault(eligible, bounds) is None,
        cursor.universe()(id) <==> eligible.contains(id),
        emitted(cursor@).len() == 0,
        cursor.report().plan == Some(plan),
        cursor.report().eligible_points == eligible.len() as usize,
        cursor.report().quantized_scores == quantized_scores,
        cursor.report().exact_scores == 0,
        cursor.report().seeded_exact_scores == 0,
        cursor.report().points_emitted == 0,
{
}

/// A cursor whose points were all scored hands them out in exact order and says that every
/// one was scored.
pub proof fn law_scanned_cursors(
    ids: Seq<PointOffsetType>,
    plan: DensePhysicalPlan,
    exact_refine_batch: usize,
    scores: Vec<i64>,
    cursor: ExactDenseCursor,
    id: u32,
)
    requires
        ranks_evidence(ids, plan, exact_refine_batch, DenseEvidence::Scores(scores), Ok(cursor)),
    ensures
        cursor@ == RankingView::Scan(scan_order(ids, scores@), 0),
        cursor.universe()(id) <==> ids.contains(id),
        cursor.report().plan == Some(DensePhysicalPlan::ExactScan),
        cursor.report().eligible_points == ids.len() as usize,
        cursor.report().exact_scores == ids.len() as usize,
        cursor.report().quantized_scores == 0,
        cursor.report().points_emitted == 0,
{
}

/// A rank state under certified intervals ranks exactly the eligible points and says what it
/// was opened by.
pub proof fn law_certified_states(
    eligible: Seq<u32>,
    bounds: Seq<PendingBound>,
    exact_refine_batch: usize,
    plan: RankPlan,
    quantized_scores: usize,
    state: DenseRankState,
    id: u32,
)
    requires
        is_certified_state(
            eligible,
            bounds,
            exact_refine_batch,
            plan,
            quantized_scores,
            Ok(state),
        ),
    ensures
        exact_refine_batch > 0,
        universe_fault(eligible, bounds) is None,
        state.universe()(id) <==> eligible.contains(id),
        emitted(state@).len() == 0,
        state.report().plan == Some(plan),
        state.report().eligible_points == eligible.len() as usize,
        state.report().quantized_scores == quantized_scores,
        state.report().exact_scores == 0,
        state.report().points_emitted == 0,
{
}

/// A native cursor ranks exactly the eligible points, by intervals or by scores, refuses
/// points that are named twice, and says what it was opened by.
pub proof fn law_native_cursors(
    eligible: Seq<PointOffsetType>,
    bounds: Seq<PendingBound>,
    scores: Seq<i64>,
    plan: NativeDensePlan,
    quantized_scores: usize,
    certified: NativeDenseIndexCursor,
    scanned: NativeDenseIndexCursor,
    id: u32,
)
    requires
        is_native_certified(eligible, bounds, plan, quantized_scores, Ok(certified)),
        is_native_scan(eligible, scores, Ok(scanned)),
    ensures
        eligible.no_duplicates(),
        certified.universe()(id) <==> eligible.contains(id),
        scanned.universe()(id) <==> eligible.contains(id),
        emitted(certified@).len() == 0,
        scanned@ == RankingView::Scan(scan_order(eligible, scores), 0),
        certified.report().plan == Some(plan),
        certified.report().native_quantized_scores == quantized_scores,
        certified.report().exact_scores == 0,
        scanned.report().plan == Some(NativeDensePlan::ExactScan),
        scanned.report().exact_scores == eligible.len() as usize,
        scanned.report().native_quantized_scores == 0,
{
}

/// A state over contiguous points ranks the ordinals below their number, and refuses bounds
/// that are not one for each, and batches of nothing.
pub proof fn law_contiguous_states(
    point_count: usize,
    bounds: Seq<PendingBound>,
    exact_refine_batch: usize,
    state: DenseRankState,
    id: u32,
)
    requires
        is_contiguous_state(point_count, bounds, exact_refine_batch, Ok(state)),
    ensures
        exact_refine_batch > 0,
        bounds.len() == point_count,
        state.universe()(id) <==> id < point_count,
        state.report().plan == Some(RankPlan::PerVectorScalarCertificate),
        state.report().eligible_points == point_count,
        state.report().quantized_scores == point_count,
        state.report().exact_scores == 0,
        state.report().points_emitted == 0,
{
}

/// A batch hands out what its ranking emits next, at most as many as were asked for, and
/// fewer only at the end.
pub proof fn law_ranked_batches<S: Fn(PointOffsetType) -> i64>(
    before: RankingView,
    max_results: usize,
    scorer: S,
    points: Vec<ScoredPointOffset>,
    after: RankingView,
)
    requires
        ranks_batch(before, max_results, scorer, Ok(points), after),
    ensures
        emitted(after) == emitted(before) + points@,
        points@.len() <= max_results,
        points@.len() < max_results ==> is_exhausted(after),
{
}

/// A step hands out one point that the stream still held, never to hold it again; where
/// bounds are admissible it is the first that is left, with its score, and a stream ends
/// only where nothing is left.
pub proof fn law_stream_steps<'a, G: KeySource, F: KeySource>(
    before: CertifiedStream<'a, G, F>,
    found: DenseScoredPoint,
    after: CertifiedStream<'a, G, F>,
    order: Seq<int>,
)
    requires
        steps_exactly(before, Some(found), after),
        before.order() == Some(order),
    ensures
        order.len() > 0,
        before.held().contains(order[0]),
        !after.held().contains(order[0]),
        found.id == before.tree().ids@[order[0]],
        found.score == before.score_of(order[0]),
        after.order() == Some(order.drop_first()),
        before.emitted() < usize::MAX ==> after.emitted() == before.emitted() + 1,
{
}

/// A stream that ends holds nothing more and has emitted no more.
pub proof fn law_stream_ends<'a, G: KeySource, F: KeySource>(
    before: CertifiedStream<'a, G, F>,
    after: CertifiedStream<'a, G, F>,
    point: int,
)
    requires
        steps_exactly(before, None, after),
    ensures
        !before.held().contains(point),
        after.emitted() == before.emitted(),
{
}

/// Where bounds are admissible a step opens only blocks whose bound is not below the score
/// of the point that it hands out, and scores only points of blocks that it opens.
pub proof fn law_lazy_steps<'a, G: KeySource, F: KeySource>(
    before: CertifiedStream<'a, G, F>,
    found: DenseScoredPoint,
    after: CertifiedStream<'a, G, F>,
    node: int,
    point: int,
)
    requires
        steps_lazily(before, Some(found), after),
        before.order() is Some,
    ensures
        before.opened().contains(node) ==> after.opened().contains(node),
        after.opened().contains(node) && !before.opened().contains(node) ==> found.score
            <= before.bound_of(node),
        after.scored().contains(point) && !before.scored().contains(point) ==> exists|opened: int|
            {
                &&& #[trigger] after.opened().contains(opened)
                &&& !before.opened().contains(opened)
                &&& before.tree().nodes@[opened].start <= point < before.tree().nodes@[opened].end
            },
{
    if after.scored().contains(point) && !before.scored().contains(point) {
        assert(opened_for(before.tree(), before.opened(), after.opened(), point));
        let opened = choose|opened: int|
            #![trigger after.opened().contains(opened)]
            {
                &&& after.opened().contains(opened)
                &&& !before.opened().contains(opened)
                &&& 0 <= opened < before.tree().nodes@.len()
                &&& before.tree().covers(opened, point)
            };
        assert(after.opened().contains(opened));
    }
}

/// An index of both kinds is built where the sparse and the dense documents have the same
/// identities and the dense ones can be indexed; else it is refused, for the identities
/// first.
pub proof fn law_built_hybrids(
    sparse_ids: Seq<u32>,
    dense_documents: Seq<DenseDocument>,
    block_size: usize,
    result: Result<HybridExactIndex, HybridExactError>,
)
    requires
        builds_hybrid(sparse_ids, dense_documents, block_size, result),
    ensures
        result == Err::<HybridExactIndex, HybridExactError>(
            HybridExactError::IdentityUniverseMismatch,
        ) <==> sparse_ids.to_multiset() != document_ids(dense_documents).to_multiset(),
        result is Ok <==> sparse_ids.to_multiset() == document_ids(dense_documents).to_multiset()
            && block_size > 0 && documents_fault(dense_documents) is None,
        result matches Ok(index) ==> index.dense().documents().len() == dense_documents.len()
            && index.dense().size() == block_size && index.dense().dims()
            == dense_documents[0].vector@.len(),
{
    crate::n_channel_laws::law_same_identities(sparse_ids, document_ids(dense_documents));
    law_indexable_documents(dense_documents, block_size);
}

/// What a search over balls says of itself: its blocks and those that it opened, the leaves
/// among them, the documents that it scored and the points that it handed out.
pub proof fn law_ball_figures<'a, G: KeySource, F: KeySource>(
    index: DenseBallIndex,
    stream: CertifiedStream<'a, G, F>,
    telemetry: DenseBallTelemetry,
)
    requires
        reports_dense(index, stream, telemetry),
    ensures
        telemetry.nodes == index.tree().nodes@.len(),
        telemetry.blocks == counted_places(
            index.tree().nodes@.len() as int,
            |node: int| index.tree().nodes@[node].children@.len() == 0,
        ).len(),
        telemetry.internal_nodes_expanded + telemetry.blocks_expanded == stream.opened().len(),
        telemetry.bound_evaluations == stream.opened().len() + stream.unopened().len(),
        telemetry.documents_evaluated == stream.scored().len(),
        telemetry.points_emitted == stream.emitted(),
{
    let nodes = index.tree().nodes@;
    law_leaf_count(nodes);
    assert(Set::new(|node: int| 0 <= node < nodes.len() && nodes[node].children@.len() == 0)
        =~= counted_places(nodes.len() as int, |node: int| nodes[node].children@.len() == 0));
}

/// Every point of a tree stands in one of its roots, and every point of a block with blocks
/// beneath it in one of them; the smallest identity of a block is one of its points', and
/// none of them has a smaller one.
pub proof fn law_blocks_cover_their_points(tree: NodeTree, node: int, point: int)
    requires
        tree.wf(),
        0 <= point < tree.ids@.len(),
    ensures
        exists|root: int|
            0 <= root < tree.roots@.len() && tree.nodes@[#[trigger] tree.roots@[root] as int].start
                <= point < tree.nodes@[tree.roots@[root] as int].end,
        0 <= node < tree.nodes@.len() && tree.nodes@[node].start <= point < tree.nodes@[node].end
            ==> tree.nodes@[node].min_id <= tree.ids@[point],
        0 <= node < tree.nodes@.len() && tree.nodes@[node].start <= point < tree.nodes@[node].end
            && tree.nodes@[node].children@.len() > 0 ==> exists|child: int|
            0 <= child < tree.nodes@[node].children@.len()
                && tree.nodes@[#[trigger] tree.nodes@[node].children@[child] as int].start <= point
                < tree.nodes@[tree.nodes@[node].children@[child] as int].end,
        0 <= node < tree.nodes@.len() ==> exists|at: int|
            tree.nodes@[node].start <= at < tree.nodes@[node].end && #[trigger] tree.ids@[at]
                == tree.nodes@[node].min_id,
{
    assert(tree.roots@.len() > 0);
    let first = tree.roots@[0];
    let root = lemma_tile_covers(
        tree,
        tree.roots@,
        0,
        tree.ids@.len() as int,
        0,
        point,
    );
    assert(tree.covers(tree.roots@[root] as int, point));
    if 0 <= node < tree.nodes@.len() {
        assert(tree.node_wf(node));
        let block = tree.nodes@[node];
        let here = tree.ids@[point];
        if block.start <= point < block.end && block.children@.len() > 0 {
            let child = lemma_tile_covers(
                tree,
                block.children@,
                block.start as int,
                block.end as int,
                0,
                point,
            );
            assert(tree.covers(block.children@[child] as int, point));
        }
    }
}

/// A point settles where it belongs before everything that an unopened block can hold: its
/// score is above the bound of the block, or equal and its identity is below the smallest.
pub proof fn law_settled_points(
    frontier: Frontier,
    tree: NodeTree,
    point: int,
    score: i64,
    node: int,
)
    requires
        frontier.settles(tree, point, score),
        frontier.leads(tree, point, score),
        frontier.bounds().contains_key(node),
    ensures
        frontier.bounds()[node] < score || frontier.bounds()[node] == score && tree.ids@[point]
            < tree.nodes@[node].min_id,
        forall|other: int| #[trigger]
            frontier.scores().contains_key(other) && other != point ==> frontier.scores()[other]
                < score || frontier.scores()[other] == score && tree.ids@[point]
                < tree.ids@[other],
{
}

/// The block that is opened next has the highest bound of those that wait, and of equals the
/// one with the smallest identity.
pub proof fn law_next_opened_block(frontier: Frontier, tree: NodeTree, node: int, other: int)
    requires
        frontier.opens(tree, node),
        frontier.bounds().contains_key(other),
    ensures
        frontier.bounds().contains_key(node),
        frontier.bounds()[other] <= frontier.bounds()[node],
        frontier.bounds()[other] == frontier.bounds()[node] ==> tree.nodes@[node].min_id
            <= tree.nodes@[other].min_id,
{
}

/// A search counts the blocks that it opened, the leaves among them, and the points that it
/// saw.
pub proof fn law_counted_searches(frontier: Frontier, tree: NodeTree)
    requires
        frontier.counted(tree),
    ensures
        frontier.counters().1 == frontier.expanded().len(),
        frontier.counters().0 == opened_leaves(tree, frontier.expanded()).len(),
        frontier.counters().2 == seen_points(frontier.seen()).len(),
        frontier.counters().3 >= frontier.pending_nodes(),
        frontier.counters().4 >= frontier.pending_points(),
{
}

/// What a stream says of a point is its identity.
pub proof fn law_identity_of_a_point(found: DenseScoredPoint)
    ensures
        identity_of(Some(found)) == Some(ExtendedPointId::NumId(found.id as u64)),
        identity_of(None) is None,
{
}

/// A certificate is violated where a score lies above the bound of its point, or below it
/// where bounds are strict; the error names the point.
pub proof fn law_violated_bounds<S: Fn(PointOffsetType) -> i64>(
    view: CertificateView,
    scorer: S,
    slot: int,
    score: i64,
)
    requires
        violates(view, scorer, slot, score),
    ensures
        0 <= slot < view.bounds.len(),
        score > view.bounds[slot].value || view.strict && score < view.bounds[slot].lower,
        view.scores[slot] == Some(score) || call_ensures(
            scorer,
            (view.bounds[slot].id,),
            score,
        ),
        reports_violation(
            view,
            scorer,
            OperationError::InconsistentStorage(Fault::BoundViolated { id: view.bounds[slot].id }),
        ),
{
}

/// A certificate hands a point out only where its score is known and nothing that it holds
/// can belong before it: no score that it knows, and no upper bound of one that it does not.
pub proof fn law_certified_points(view: CertificateView, slot: int, other: int)
    requires
        view.certifies(slot),
        0 <= other < view.phases.len() == view.bounds.len(),
        view.phases[other] == Phase::Pending || view.phases[other] == Phase::Refined,
    ensures
        view.scores[slot] is Some,
        view.phases[other] == Phase::Pending ==> view.bounds[other].value < view.scores[slot]->0
            || view.bounds[other].value == view.scores[slot]->0 && view.bounds[slot].id
            < view.bounds[other].id,
        view.phases[other] == Phase::Refined ==> view.scores[other]->0 <= view.scores[slot]->0,
{
}

/// What a certificate learns is what the scorer answers for its points; it forgets nothing,
/// and what becomes known within it lies in its interval.
pub proof fn law_learned_scores<S: Fn(PointOffsetType) -> i64>(
    before: CertificateView,
    scorer: S,
    after: CertificateView,
    slot: int,
)
    requires
        learns_from(before, scorer, after),
        0 <= slot < before.bounds.len(),
    ensures
        after.bounds == before.bounds,
        before.scores.len() == before.bounds.len() && before.scores[slot] is Some
            ==> after.scores[slot] == before.scores[slot],
        before.scores[slot] is None && after.scores[slot] is Some ==> call_ensures(
            scorer,
            (before.bounds[slot].id,),
            after.scores[slot]->0,
        ),
{
    let now = after.scores[slot];
}

/// A fresh stream over codes holds every document, has scored and emitted none, and has
/// compared all of them by their codes.
pub proof fn law_fresh_quantized_streams<'a, F: KeySource>(
    index: DenseQuantizedIndex,
    stream: DenseQuantizedStream<'a, F>,
    point: int,
)
    requires
        stream.is_fresh(index),
    ensures
        stream.inner().held().contains(point) <==> 0 <= point < index.tree().ids@.len(),
        stream.inner().emitted() == 0,
        !stream.inner().scored().contains(point),
        stream.compared() == index.documents().len(),
        stream.inner().tree() == index.tree(),
{
}

/// The bound of a document is what the function makes of the product of all of its codes
/// with those of the query.
pub proof fn law_bounds_of_documents<
    C: Fn(i64, &QuantizedVectorMetadata, &QuantizedVectorMetadata, usize) -> i64,
>(
    index: DenseQuantizedIndex,
    combine: C,
    query: QuantizedVector,
    bounds: Seq<i64>,
    ordinal: int,
)
    requires
        bounds_by(index, combine, query, bounds),
        0 <= ordinal < index.documents().len(),
    ensures
        bounds.len() == index.documents().len(),
        combine.ensures(
            (
                dot_product(
                    query.codes@,
                    index.quantized()[ordinal].codes@,
                    index.dims() as int,
                ) as i64,
                &query.metadata,
                &index.quantized()[ordinal].metadata,
                index.dims() as usize,
            ),
            bounds[ordinal],
        ),
{
    let bound = bounds[ordinal];
}

/// A stream whose scores are within its bounds yields the documents by score from the
/// highest, and equal ones by identity from the smallest.
pub proof fn law_exact_quantized_streams<'a, F: KeySource>(
    stream: DenseQuantizedStream<'a, F>,
    scorer: F,
    scores: spec_fn(int) -> Option<i64>,
    i: int,
    j: int,
)
    requires
        stream.is_exact(scorer),
        scores_exactly(scorer, stream.inner().tree().ids@.len(), scores),
        within(scores, stream.bounds()),
        stream.inner().tree().wf(),
        stream.inner().held().finite(),
        forall|point: int| #[trigger]
            stream.inner().held().contains(point) ==> 0 <= point < stream.inner().tree().ids@.len(),
        stream.inner().order() is Some ==> 0 <= i < j < stream.inner().order()->0.len(),
    ensures
        stream.inner().order() is Some,
        ({
            let left = stream.inner().order()->0[i];
            let right = stream.inner().order()->0[j];
            scores(left)->0 > scores(right)->0 || scores(left)->0 == scores(right)->0
                && stream.inner().tree().ids@[left] < stream.inner().tree().ids@[right]
        }),
{
    let tree = stream.inner().tree();
    let held = stream.inner().held();
    assert(stream.inner().order() == Some(exact_order(tree, scores, held)));
    assert forall|other: int| #[trigger] held.contains(other) implies 0 <= other < tree.ids@.len()
        && scores(other) is Some by {
        let score = scores(other);
    }
    law_exact_order_falls_by_score(tree, scores, held, i, j);
}

/// An unknown proposal that is reported is the first that no document has.
pub proof fn law_first_unknown_proposal(
    index: DenseBallIndex,
    proposals: Seq<u32>,
    at: int,
    place: int,
)
    requires
        is_first_unknown(index, proposals, at),
        0 <= place < index.documents().len(),
    ensures
        0 <= at < proposals.len(),
        index.documents()[place].id != proposals[at],
        forall|earlier: int|
            0 <= earlier < at ==> exists|known: int|
                0 <= known < index.documents().len() && (#[trigger] index.documents()[known]).id
                    == #[trigger] proposals[earlier],
{
    let document = index.documents()[place];
    assert forall|earlier: int| 0 <= earlier < at implies exists|known: int|
        0 <= known < index.documents().len() && (#[trigger] index.documents()[known]).id
            == #[trigger] proposals[earlier] by {
        assert(is_known(index, proposals[earlier]));
    }
}

/// An operation is cancelled only where it was stopped, and comes to its end only where it
/// was told to go on before every chunk.
pub proof fn law_heeded_stops<T: Fn(usize) -> bool, A>(
    stopped: T,
    count: nat,
    result: OperationResult<A>,
    start: usize,
)
    requires
        heeds_stop(stopped, count, result),
    ensures
        result is Ok && start < count && start % 4096 == 0 ==> stopped.ensures((start,), false),
        result == Err::<A, OperationError>(OperationError::Cancelled) ==> exists|at: usize|
            #[trigger] stopped.ensures((at,), true),
{
}

/// Evidence is of the kind of its plan: intervals for a certificate, scores for a scan. A
/// certificate without its statistics or its index is inconsistent.
pub proof fn law_evidence_of_plans<
    W: Fn(PointOffsetType) -> QuantizedVector,
    C: Fn(i64, &QuantizedVectorMetadata, &QuantizedVectorMetadata, usize) -> (i64, i64),
    A: Fn(PointOffsetType) -> u32,
    R: Fn(PointOffsetType) -> ScalarReconstructionStats,
    E: Fn(u32, &ScalarReconstructionStats, &ScalarReconstructionStats, usize) -> (i64, i64),
    V: Fn(PointOffsetType) -> Option<(i64, i64)>,
    S: Fn(PointOffsetType) -> i64,
    T: Fn(usize) -> bool,
>(
    access: DenseAccess<W, C, A, R, E, V, S, T>,
    plan: DensePhysicalPlan,
    ids: Seq<PointOffsetType>,
    query: Seq<u32>,
    result: OperationResult<DenseEvidence>,
)
    requires
        access.gathers(plan, ids, query, result),
    ensures
        plan == DensePhysicalPlan::ExactScan && result is Ok ==> (
        result->Ok_0 matches DenseEvidence::Scores(scores) && are_scores(
            ids,
            access.scorer,
            scores@,
        )),
        plan == DensePhysicalPlan::CompactCertificate && result is Ok ==> (
        result->Ok_0 matches DenseEvidence::Bounds(bounds) && bound_ids(bounds@) == ids),
        plan == DensePhysicalPlan::ScalarCertificate && result is Ok ==> (
        result->Ok_0 matches DenseEvidence::Bounds(bounds) && bound_ids(bounds@) == ids),
        plan == DensePhysicalPlan::PerVectorScalarCertificate && result is Ok ==> (
        result->Ok_0 matches DenseEvidence::Bounds(bounds) && bound_ids(bounds@) == ids),
        plan == DensePhysicalPlan::PerVectorScalarCertificate && access.index is None ==> result
            == Err::<DenseEvidence, OperationError>(
            OperationError::InconsistentStorage(Fault::MissingScalarIndex),
        ),
        plan == DensePhysicalPlan::ExactScan && result is Err ==> result == Err::<
            DenseEvidence,
            OperationError,
        >(OperationError::Cancelled),
{
}

/// A cursor, native or not, and a rank state are refused for what is wrong with the request.
pub proof fn law_refused_openings<
    W: Fn(PointOffsetType) -> QuantizedVector,
    C: Fn(i64, &QuantizedVectorMetadata, &QuantizedVectorMetadata, usize) -> (i64, i64),
    A: Fn(PointOffsetType) -> u32,
    R: Fn(PointOffsetType) -> ScalarReconstructionStats,
    E: Fn(u32, &ScalarReconstructionStats, &ScalarReconstructionStats, usize) -> (i64, i64),
    V: Fn(PointOffsetType) -> Option<(i64, i64)>,
    S: Fn(PointOffsetType) -> i64,
    T: Fn(usize) -> bool,
>(
    distance: Distance,
    datatype: VectorStorageDatatype,
    quantized: Option<QuantizedDescription>,
    eligible: Seq<PointOffsetType>,
    query: Seq<u32>,
    policy: DenseExecutionPolicy,
    exact_refine_batch: usize,
    access: DenseAccess<W, C, A, R, E, V, S, T>,
    stopped: bool,
    result: OperationResult<ExactDenseCursor>,
)
    requires
        opens_cursor(
            distance,
            datatype,
            quantized,
            eligible,
            query,
            policy,
            exact_refine_batch,
            access,
            stopped,
            result,
        ),
    ensures
        stopped ==> result == Err::<ExactDenseCursor, OperationError>(OperationError::Cancelled),
        !stopped && exact_refine_batch == 0 ==> result == Err::<ExactDenseCursor, OperationError>(
            OperationError::ValidationError(Fault::ZeroRefineBatch),
        ),
        !stopped && exact_refine_batch > 0 && query.len() == 0 ==> result == Err::<
            ExactDenseCursor,
            OperationError,
        >(OperationError::ValidationError(Fault::InvalidDenseQuery)),
        result is Ok ==> !stopped && exact_refine_batch > 0 && query.len() > 0 && finite_vector(
            query,
        ) && eligible.no_duplicates(),
        result is Ok ==> forall|id: u32| #[trigger]
            result->Ok_0.universe()(id) <==> eligible.contains(id),
{
    law_refused_requests(stopped, exact_refine_batch, query, eligible);
    if result is Ok {
        let (ids, gathered) = choose|
            ids: Seq<PointOffsetType>,
            gathered: OperationResult<DenseEvidence>,
        |
            {
                &&& lists_ascending(ids, eligible)
                &&& #[trigger] opens_gathered(
                    ids,
                    query,
                    dense_plan(distance, datatype, quantized, ids, query.len() as usize, policy),
                    exact_refine_batch,
                    access,
                    gathered,
                    result,
                )
            };
        assert forall|id: u32| #[trigger] result->Ok_0.universe()(id) <==> eligible.contains(id) by {
            assert(ids.contains(id) <==> eligible.contains(id));
        }
    }
}

/// The gap of a document is that between its two nearest clusters, and without limit where
/// there is one cluster.
pub proof fn law_gaps<
    M: Fn(&Vec<u32>, &Vec<u64>) -> i64,
    Z: Fn(&Vec<DenseDocument>, &Vec<usize>) -> Vec<u64>,
    H: Fn(&Vec<u32>) -> Vec<u64>,
    U: Fn(i64, i64) -> i64,
>(geometry: BallGeometry<M, Z, H, U>, row: Seq<i64>, gap: i64)
    requires
        geometry.is_gap(row, gap),
    ensures
        row.len() < 2 ==> gap == 0x7ff0_0000_0000_0000,
        row.len() >= 2 ==> exists|first: i64, second: i64|
            {
                &&& #[trigger] geometry.gap.ensures((first, second), gap)
                &&& row.contains(first)
                &&& row.contains(second)
                &&& first <= second
                &&& forall|i: int| 0 <= i < row.len() ==> first <= #[trigger] row[i]
            },
{
    if row.len() >= 2 {
        let (first, second) = choose|first: i64, second: i64|
            are_smallest_two(row, first, second) && #[trigger] geometry.gap.ensures(
                (first, second),
                gap,
            );
        law_two_smallest_distances(row, first, second, 0, 1);
        assert forall|i: int| 0 <= i < row.len() implies first <= #[trigger] row[i] by {
            law_two_smallest_distances(
                row,
                first,
                second,
                i,
                if i == 0 {
                    1
                } else {
                    0
                },
            );
        }
        assert(geometry.gap.ensures((first, second), gap));
    }
}

/// Documents are served one after the other, each by the nearest cluster that those before
/// it have not filled.
pub proof fn law_served_documents(
    rows: Seq<Vec<i64>>,
    clusters: nat,
    capacity: usize,
    order: Seq<usize>,
    chosen: Seq<usize>,
    at: int,
    other: int,
)
    requires
        serves_nearest(rows, clusters, capacity, order, chosen),
        0 <= at < chosen.len(),
        0 <= other < rows[order[at] as int]@.len(),
        cluster_sizes(chosen.take(at), clusters)[other] < capacity,
    ensures
        chosen.len() <= order.len(),
        cluster_sizes(chosen.take(at), clusters)[chosen[at] as int] < capacity,
        rows[order[at] as int]@[chosen[at] as int] <= rows[order[at] as int]@[other],
{
    let cluster = chosen[at];
    let size = cluster_sizes(chosen.take(at), clusters)[other];
}

/// A cluster that has a document keeps what it has; one without gets a document of another
/// that can spare it, and nothing else moves.
pub proof fn law_filled_clusters(
    rows: Seq<Vec<i64>>,
    ids: Seq<u32>,
    clusters: nat,
    cluster: usize,
    before: Seq<usize>,
    after: Seq<usize>,
)
    requires
        fills_cluster(rows, ids, clusters, cluster as int, before, after),
    ensures
        cluster_sizes(before, clusters)[cluster as int] > 0 ==> after == before,
        cluster_sizes(before, clusters)[cluster as int] == 0 ==> exists|moved: int|
            {
                &&& 0 <= moved < before.len()
                &&& #[trigger] after[moved] == cluster
                &&& cluster_sizes(before, clusters)[before[moved] as int] > 1
                &&& forall|other: int|
                    0 <= other < before.len() && other != moved ==> #[trigger] after[other]
                        == before[other]
            },
{
    if cluster_sizes(before, clusters)[cluster as int] == 0 {
        let moved = choose|row: int|
            {
                &&& #[trigger] is_donor(rows, ids, before, cluster_sizes(before, clusters), row)
                &&& after == before.update(row, cluster)
            };
        assert(after[moved] == cluster);
    }
}

/// A walk along a coordinate reads its order from the largest value, or from the smallest
/// where the query is negative there.
pub proof fn law_walks(active: ActiveCoordinate, index: DenseThresholdIndex, place: int)
    ensures
        !active.reverse ==> active.ordinal_at(index, place) == index.orders()[
            active.coordinate as int
        ]@[place],
        active.reverse ==> active.ordinal_at(index, place) == index.orders()[
            active.coordinate as int
        ]@[index.orders()[active.coordinate as int]@.len() - 1 - place],
{
}

/// A query is walked along the coordinates at which it is not zero, against the order where
/// it is negative, from the beginning.
pub proof fn law_walked_coordinates(
    query: Seq<u32>,
    active: Seq<ActiveCoordinate>,
    at: int,
    coordinate: int,
)
    requires
        are_active(query, active, query.len() as int),
        0 <= at < active.len(),
        0 <= coordinate < query.len(),
    ensures
        active[at].coordinate < query.len(),
        active[at].cursor == 0,
        query[active[at].coordinate as int] != 0 && query[active[at].coordinate as int]
            != 0x8000_0000,
        active[at].reverse <==> query[active[at].coordinate as int] > 0x8000_0000,
        query[coordinate] != 0 && query[coordinate] != 0x8000_0000 ==> exists|i: int|
            0 <= i < active.len() && (#[trigger] active[i]).coordinate == coordinate,
{
    let walk = active[at];
    law_zero_coordinates(query[walk.coordinate as int]);
    law_zero_coordinates(query[coordinate]);
    let value = query[coordinate];
}

/// A native search chooses its plan by the thresholds and the refusals of its policy, and
/// accepts no exact prefix.
pub proof fn law_native_policies(policy: NativeDensePolicy)
    ensures
        policy.bounds_plan().scalar_min_points == policy.scalar_min_points,
        policy.bounds_plan().compact_max_points == policy.compact_max_points,
        policy.bounds_plan().force_exact_scan == policy.force_exact_scan,
        policy.bounds_plan().disable_per_vector_scalar_certificate
            == policy.disable_per_vector_scalar_certificate,
        policy.bounds_plan().disable_compact_certificate == policy.disable_compact_certificate,
        policy.bounds_plan().exact_prefix_max_dimension == 0,
{
}

/// A refusal is a fault of the request, and an inconsistency one of the storage; two errors
/// are the same where they are of one kind and say the same.
pub proof fn law_errors(fault: Fault, left: OperationError, right: OperationError)
    ensures
        refused::<()>(fault) == Err::<(), OperationError>(OperationError::ValidationError(fault)),
        inconsistent::<()>(fault) == Err::<(), OperationError>(
            OperationError::InconsistentStorage(fault),
        ),
        same_error(left, left),
        left is Cancelled ==> (same_error(left, right) <==> right is Cancelled),
        same_error(left, right) ==> same_error(right, left),
        same_error(left, right) && left is ValidationError ==> left == right,
{
}

/// One more is counted up to the largest count, and what a ranking learns is how many scores
/// it knows more than before; a scan learns none.
pub proof fn law_learned_counts(
    count: usize,
    before: CertificateView,
    after: CertificateView,
    points: Seq<ScoredPointOffset>,
    position: int,
    next: int,
)
    ensures
        count < usize::MAX ==> one_more(count) == count + 1,
        one_more(usize::MAX) == usize::MAX,
        scores_learned(RankingView::Certificate(before), RankingView::Certificate(after))
            == counted_places(
            after.scores.len() as int,
            |slot: int| after.scores[slot] is Some,
        ).len() - counted_places(
            before.scores.len() as int,
            |slot: int| before.scores[slot] is Some,
        ).len(),
        scores_learned(RankingView::Scan(points, position), RankingView::Scan(points, next)) == 0,
{
    law_known_count(before.scores);
    law_known_count(after.scores);
}

/// A scan hands out its next point, or ends behind the last, and its points stay.
pub proof fn law_scans_go_on<S: Fn(PointOffsetType) -> i64>(
    points: Seq<ScoredPointOffset>,
    position: int,
    scorer: S,
    result: OperationResult<Option<ScoredPointOffset>>,
    after: RankingView,
)
    requires
        ranks_next(RankingView::Scan(points, position), scorer, result, after),
        0 <= position <= points.len(),
    ensures
        position < points.len() ==> result == Ok::<Option<ScoredPointOffset>, OperationError>(
            Some(points[position]),
        ) && after == RankingView::Scan(points, position + 1),
        position == points.len() ==> result == Ok::<Option<ScoredPointOffset>, OperationError>(
            None,
        ) && after == RankingView::Scan(points, position),
{
}

/// A probe of a scan finds the place of its point: its score, and as its rank the points
/// before it.
pub proof fn law_probed_scans(
    points: Seq<ScoredPointOffset>,
    id: PointOffsetType,
    probe: DenseExactRankProbe,
)
    requires
        is_scan_probe(points, id, probe),
    ensures
        probe.id == id,
        probe.rank < points.len(),
        points[probe.rank as int].idx == id,
        points[probe.rank as int].score == probe.score,
{
}

/// A step of a certificate hands out a point that it had not emitted, with the score that it
/// knows then; it ends only where nothing is left, and its error is that of a violated bound.
pub proof fn law_certificate_steps<S: Fn(PointOffsetType) -> i64>(
    before: CertificateView,
    scorer: S,
    point: ScoredPointOffset,
    after: CertificateView,
    slot: int,
)
    requires
        0 <= slot < after.bounds.len(),
    ensures
        advances(before, scorer, Ok(Some(point)), after) ==> after.emitted == before.emitted.push(
            point,
        ) && exists|found: int|
            {
                &&& #[trigger] after.certifies(found)
                &&& after.bounds[found].id == point.idx
                &&& after.scores[found] == Some(point.score)
                &&& before.phases[found] != Phase::Emitted
                &&& after.phases[found] == Phase::Emitted
            },
        advances(before, scorer, Ok(None), after) ==> after.emitted == before.emitted
            && after.phases[slot] != Phase::Pending && after.phases[slot] != Phase::Refined,
{
    if advances(before, scorer, Ok(None), after) {
        let phase = after.phases[slot];
    }
}

/// A fresh threshold stream holds every document, has counted nothing, and knows that a query
/// asks for nothing where all of its coordinates are zero.
pub proof fn law_fresh_threshold_streams<
    'a,
    K: Fn(usize, usize) -> i64,
    X: Fn(i64, i64) -> i64,
    Y: Fn(i64, i64, i64) -> i64,
    D: Fn(i64, i64) -> i64,
    F: KeySource,
>(
    index: DenseThresholdIndex,
    query: Seq<u32>,
    arithmetic: ThresholdArithmetic<K, X, Y, D>,
    scorer: F,
    stream: DenseThresholdStream<'a, ThresholdArithmetic<K, X, Y, D>, F>,
    ordinal: int,
)
    requires
        is_fresh(index, query, arithmetic, scorer, stream),
    ensures
        stream.held().contains(ordinal) <==> 0 <= ordinal < index.documents().len(),
        stream.documents() == index.documents(),
        stream.scorer() == scorer,
        stream.is_zero_query() <==> forall|i: int|
            0 <= i < query.len() ==> #[trigger] query[i] == 0 || query[i] == 0x8000_0000,
        stream.counted().sequential_accesses == 0,
        stream.counted().duplicate_accesses == 0,
        stream.counted().exact_scores == 0,
        stream.counted().threshold_updates == 0,
        stream.counted().points_emitted == 0,
{
    assert forall|bits: u32| #[trigger] is_zero(bits) <==> bits == 0 || bits == 0x8000_0000 by {
        law_zero_coordinates(bits);
    }
    if stream.is_zero_query() {
        assert forall|i: int| 0 <= i < query.len() implies #[trigger] query[i] == 0 || query[i]
            == 0x8000_0000 by {
            assert(is_zero(query[i]));
        }
    }
}

/// A fresh stream under scalar certificates holds every document, has scored and emitted
/// none, and has a quantized score of each.
pub proof fn law_fresh_scalar_streams<'a, F: KeySource>(
    index: DenseScalarCertifiedIndex,
    stream: DenseScalarCertifiedStream<'a, F>,
    point: int,
)
    requires
        stream.is_fresh(index),
    ensures
        stream.inner().held().contains(point) <==> 0 <= point < index.tree().ids@.len(),
        stream.inner().emitted() == 0,
        !stream.inner().scored().contains(point),
        stream.compared() == index.documents().len(),
        stream.inner().tree() == index.tree(),
{
}

/// Scalar certificates are for documents that are numbered by their places, all of one
/// dimension and finite.
pub proof fn law_numbered_documents(documents: Seq<DenseDocument>, at: int)
    requires
        0 <= at < documents.len(),
    ensures
        is_numbered(documents, at) <==> documents[at].id == at && documents[at].vector@.len()
            == documents[0].vector@.len() && finite_vector(documents[at].vector@),
{
}

} // verus!
