//! Dense documents: their validity and their order.

use crate::dense_plan::{finite_vector, is_finite_vector};
use crate::order::ExtendedPointId;
use crate::rank_queue::{lemma_ordered, order_entries, RankEntry};
use crate::tables::copied;
use std::collections::HashSet;
use vstd::prelude::*;

verus! {

/// A point with its vector, as single-precision bit patterns.
#[derive(Clone, Debug, PartialEq)]
pub struct DenseDocument {
    pub id: u32,
    pub vector: Vec<u32>,
}

/// Whether two documents have the same identity and the same vector.
pub open spec fn same_document(left: DenseDocument, right: DenseDocument) -> bool {
    left.id == right.id && left.vector@ == right.vector@
}

/// Whether a document has the given dimension and finite coordinates.
pub open spec fn is_valid(document: DenseDocument, dimension: nat) -> bool {
    document.vector@.len() == dimension && finite_vector(document.vector@)
}

/// Whether a document has the given dimension and finite coordinates.
pub fn valid_document(document: &DenseDocument, dimension: usize) -> (valid: bool)
    ensures
        valid == is_valid(*document, dimension as nat),
{
    document.vector.len() == dimension && is_finite_vector(&document.vector)
}

/// The identities of documents.
pub open spec fn document_ids(documents: Seq<DenseDocument>) -> Seq<u32> {
    Seq::new(documents.len(), |i: int| documents[i].id)
}

/// Whether an identity occurs before the given place.
pub open spec fn occurs_before(documents: Seq<DenseDocument>, id: u32, upto: int) -> bool {
    exists|i: int| 0 <= i < upto && (#[trigger] documents[i]).id == id
}

/// What is wrong with documents.
#[derive(Clone, Copy, Debug, PartialEq, Eq, Structural)]
pub enum DocumentFault {
    /// There are none.
    Empty,
    /// An identity occurs twice.
    Duplicate(u32),
    /// A document has another dimension, or a coordinate that is not finite.
    Invalid(u32),
}

/// What is wrong with the document at a place, after those before it.
pub open spec fn fault_at(documents: Seq<DenseDocument>, at: int) -> Option<DocumentFault> {
    if occurs_before(documents, documents[at].id, at) {
        Some(DocumentFault::Duplicate(documents[at].id))
    } else if !is_valid(documents[at], documents[0].vector@.len()) {
        Some(DocumentFault::Invalid(documents[at].id))
    } else {
        None
    }
}

/// What is wrong with the first document that is refused, from the given place on.
pub open spec fn fault_from(documents: Seq<DenseDocument>, at: int) -> Option<DocumentFault>
    decreases documents.len() - at,
{
    if at >= documents.len() {
        None
    } else if fault_at(documents, at) is Some {
        fault_at(documents, at)
    } else {
        fault_from(documents, at + 1)
    }
}

/// What is wrong with documents, checked one after the other.
pub open spec fn documents_fault(documents: Seq<DenseDocument>) -> Option<DocumentFault> {
    if documents.len() == 0 {
        Some(DocumentFault::Empty)
    } else if documents[0].vector@.len() == 0 {
        Some(DocumentFault::Invalid(documents[0].id))
    } else {
        fault_from(documents, 0)
    }
}

/// Whether no identity occurs twice and all documents are valid.
pub open spec fn are_documents(documents: Seq<DenseDocument>) -> bool {
    &&& documents.len() > 0
    &&& documents[0].vector@.len() > 0
    &&& document_ids(documents).no_duplicates()
    &&& forall|i: int|
        0 <= i < documents.len() ==> is_valid(
            #[trigger] documents[i],
            documents[0].vector@.len(),
        )
}

/// Documents without a fault are valid.
pub proof fn lemma_no_fault(documents: Seq<DenseDocument>, at: int)
    requires
        0 <= at <= documents.len(),
        fault_from(documents, at) is None,
    ensures
        forall|i: int|
            at <= i < documents.len() ==> fault_at(documents, i) is None && is_valid(
                #[trigger] documents[i],
                documents[0].vector@.len(),
            ),
    decreases documents.len() - at,
{
    if at < documents.len() {
        lemma_no_fault(documents, at + 1);
    }
}

/// Checks documents one after the other.
pub fn check_documents(documents: &Vec<DenseDocument>) -> (fault: Option<DocumentFault>)
    ensures
        fault == documents_fault(documents@),
        fault is None ==> are_documents(documents@),
{
    broadcast use vstd::std_specs::hash::group_hash_axioms;

    if documents.len() == 0 {
        return Some(DocumentFault::Empty);
    }
    let dimension: usize = documents[0].vector.len();
    if dimension == 0 {
        return Some(DocumentFault::Invalid(documents[0].id));
    }
    let mut identities: HashSet<u32> = HashSet::new();
    let mut i: usize = 0;
    while i < documents.len()
        invariant
            i <= documents@.len(),
            documents@.len() > 0,
            dimension == documents@[0].vector@.len(),
            dimension > 0,
            documents_fault(documents@) == fault_from(documents@, i as int),
            forall|id: u32| #[trigger]
                identities@.contains(id) <==> occurs_before(documents@, id, i as int),
        decreases documents@.len() - i,
    {
        broadcast use vstd::std_specs::hash::group_hash_axioms;

        let id: u32 = documents[i].id;
        let ghost before = identities@;
        let added = identities.insert(id);
        proof {
            assert(added == !before.contains(id));
            assert forall|other: u32| #[trigger]
                identities@.contains(other) <==> occurs_before(documents@, other, i + 1) by {
                if other == id {
                    assert(documents@[i as int].id == other);
                } else {
                    if occurs_before(documents@, other, i + 1) {
                        let at = choose|at: int|
                            0 <= at < i + 1 && (#[trigger] documents@[at]).id == other;
                        assert(at < i);
                    }
                    if before.contains(other) {
                        let at = choose|at: int|
                            0 <= at < i && (#[trigger] documents@[at]).id == other;
                        assert(documents@[at].id == other);
                    }
                }
            }
        }
        if !added {
            return Some(DocumentFault::Duplicate(id));
        }
        if !valid_document(&documents[i], dimension) {
            return Some(DocumentFault::Invalid(id));
        }
        i += 1;
    }
    proof {
        lemma_faultless(documents@);
    }
    None
}

/// Documents that pass the check are valid.
proof fn lemma_faultless(documents: Seq<DenseDocument>)
    requires
        documents_fault(documents) is None,
    ensures
        are_documents(documents),
{
    lemma_no_fault(documents, 0);
    let ids = document_ids(documents);
    assert forall|i: int, j: int| 0 <= i < j < ids.len() implies ids[i] != ids[j] by {
        assert(fault_at(documents, j) is None) by {
            let _ = documents[j];
        }
        if ids[i] == ids[j] {
            assert(documents[i].id == documents[j].id);
            assert(occurs_before(documents, documents[j].id, j));
        }
    }
}

/// Whether documents are those of another list, in ascending order of identity.
pub open spec fn is_sorted_copy(sorted: Seq<DenseDocument>, documents: Seq<DenseDocument>) -> bool {
    &&& sorted.len() == documents.len()
    &&& forall|i: int, j: int|
        0 <= i < j < sorted.len() ==> (#[trigger] sorted[i]).id <= (#[trigger] sorted[j]).id
    &&& forall|i: int| 0 <= i < sorted.len() ==> #[trigger] is_listed(documents, sorted[i])
    &&& forall|i: int| 0 <= i < documents.len() ==> #[trigger] is_listed(sorted, documents[i])
}

/// Whether a list holds a document.
pub open spec fn is_listed(documents: Seq<DenseDocument>, document: DenseDocument) -> bool {
    exists|at: int|
        0 <= at < documents.len() && same_document(#[trigger] documents[at], document)
}

/// The entries by which documents are put in order.
pub open spec fn id_entries(documents: Seq<DenseDocument>) -> Seq<RankEntry> {
    Seq::new(
        documents.len(),
        |i: int|
            RankEntry {
                score: 0,
                id: ExtendedPointId::NumId(documents[i].id as u64),
                slot: i as usize,
            },
    )
}

/// The places of documents in ascending order of identity.
pub fn places_by_id(documents: &Vec<DenseDocument>) -> (places: Vec<usize>)
    ensures
        places@.len() == documents@.len(),
        forall|i: int| 0 <= i < places@.len() ==> #[trigger] places@[i] < documents@.len(),
        forall|i: int, j: int|
            0 <= i < j < places@.len() ==> documents@[#[trigger] places@[i] as int].id
                <= documents@[#[trigger] places@[j] as int].id,
        places@.no_duplicates(),
        forall|at: int| 0 <= at < documents@.len() ==> #[trigger] places@.contains(at as usize),
{
    let mut entries: Vec<RankEntry> = Vec::new();
    let mut i: usize = 0;
    while i < documents.len()
        invariant
            i <= documents@.len(),
            entries@.len() == i,
            entries@ =~= id_entries(documents@).take(i as int),
        decreases documents@.len() - i,
    {
        entries.push(
            RankEntry {
                score: 0,
                id: ExtendedPointId::NumId(documents[i].id as u64),
                slot: i,
            },
        );
        i += 1;
    }
    assert(documents.len() <= usize::MAX);
    assert(entries@ =~= id_entries(documents@));
    let ghost given = entries@;
    let sorted = order_entries(entries);
    proof {
        lemma_ordered(given);
    }
    let mut places: Vec<usize> = Vec::new();
    let mut k: usize = 0;
    while k < sorted.len()
        invariant
            k <= sorted@.len(),
            places@.len() == k,
            forall|j: int| 0 <= j < k ==> #[trigger] places@[j] == sorted@[j].slot,
        decreases sorted@.len() - k,
    {
        places.push(sorted[k].slot);
        k += 1;
    }
    proof {
        let count = documents@.len();
        assert forall|j: int| 0 <= j < sorted@.len() implies (#[trigger] sorted@[j]).slot < count
            && sorted@[j] == given[sorted@[j].slot as int] by {
            assert(sorted@.contains(sorted@[j]));
            assert(given.contains(sorted@[j]));
            let at = choose|at: int| 0 <= at < given.len() && given[at] == sorted@[j];
        }
        assert forall|a: int, b: int| 0 <= a < b < places@.len() implies documents@[
        #[trigger] places@[a] as int].id <= documents@[#[trigger] places@[b] as int].id by {
            assert(!sorted@[b].precedes(sorted@[a]));
        }
        assert forall|at: int| 0 <= at < count implies #[trigger] places@.contains(
            at as usize,
        ) by {
            assert(given.contains(given[at]));
            assert(sorted@.contains(given[at]));
            let j = choose|j: int| 0 <= j < sorted@.len() && sorted@[j] == given[at];
            assert(places@[j] == at as usize);
        }
        lemma_all_places(places@, count);
    }
    places
}

/// As many places as there are, each of which occurs, occur once.
pub proof fn lemma_all_places(places: Seq<usize>, count: nat)
    requires
        places.len() == count,
        count <= usize::MAX,
        forall|at: int| 0 <= at < count ==> #[trigger] places.contains(at as usize),
        forall|i: int| 0 <= i < places.len() ==> #[trigger] places[i] < count,
    ensures
        places.no_duplicates(),
{
    let values = places.map_values(|place: usize| place as int);
    let all = vstd::set_lib::set_int_range(0, count as int);
    vstd::set_lib::lemma_int_range(0, count as int);
    assert(values.to_set() =~= all) by {
        assert forall|at: int| all.contains(at) implies values.to_set().contains(at) by {
            assert(places.contains(at as usize));
            let i = choose|i: int| 0 <= i < places.len() && places[i] == at as usize;
            assert(values[i] == at);
        }
        assert forall|at: int| values.to_set().contains(at) implies all.contains(at) by {
            let i = choose|i: int| 0 <= i < values.len() && values[i] == at;
            assert(places[i] < count);
        }
    }
    values.lemma_no_dup_set_cardinality();
    assert forall|i: int, j: int| 0 <= i < j < places.len() implies places[i] != places[j] by {
        assert(values[i] != values[j]);
    }
}

/// The documents in ascending order of identity.
pub fn sorted_documents(documents: &Vec<DenseDocument>) -> (sorted: Vec<DenseDocument>)
    ensures
        is_sorted_copy(sorted@, documents@),
{
    let places = places_by_id(documents);
    let mut sorted: Vec<DenseDocument> = Vec::new();
    let mut i: usize = 0;
    while i < places.len()
        invariant
            i <= places@.len(),
            sorted@.len() == i,
            forall|k: int| 0 <= k < places@.len() ==> #[trigger] places@[k] < documents@.len(),
            forall|k: int|
                0 <= k < i ==> same_document(
                    #[trigger] sorted@[k],
                    documents@[places@[k] as int],
                ),
        decreases places@.len() - i,
    {
        let document = &documents[places[i]];
        sorted.push(DenseDocument { id: document.id, vector: copied(&document.vector) });
        i += 1;
    }
    proof {
        assert forall|k: int| 0 <= k < sorted@.len() implies #[trigger] is_listed(
            documents@,
            sorted@[k],
        ) by {
            assert(same_document(documents@[places@[k] as int], sorted@[k]));
        }
        assert forall|at: int| 0 <= at < documents@.len() implies #[trigger] is_listed(
            sorted@,
            documents@[at],
        ) by {
            assert(places@.contains(at as usize));
            let k = choose|k: int| 0 <= k < places@.len() && places@[k] == at as usize;
            assert(same_document(sorted@[k], documents@[at]));
        }
        assert forall|a: int, b: int| 0 <= a < b < sorted@.len() implies (
        #[trigger] sorted@[a]).id <= (#[trigger] sorted@[b]).id by {
            let _ = places@[a];
            let _ = places@[b];
        }
    }
    sorted
}

/// A sorted copy of valid documents is strictly ordered and valid.
pub proof fn lemma_sorted_documents(sorted: Seq<DenseDocument>, documents: Seq<DenseDocument>)
    requires
        is_sorted_copy(sorted, documents),
        are_documents(documents),
        documents.len() <= usize::MAX,
    ensures
        are_documents(sorted),
        sorted[0].vector@.len() == documents[0].vector@.len(),
        forall|i: int, j: int|
            0 <= i < j < sorted.len() ==> (#[trigger] sorted[i]).id < (#[trigger] sorted[j]).id,
{
    let dimension = documents[0].vector@.len();
    assert forall|i: int| 0 <= i < sorted.len() implies is_valid(
        #[trigger] sorted[i],
        dimension,
    ) by {
        assert(is_listed(documents, sorted[i]));
        let at = choose|at: int|
            0 <= at < documents.len() && same_document(#[trigger] documents[at], sorted[i]);
        assert(is_valid(documents[at], dimension));
    }
    let ids = document_ids(sorted);
    let given = document_ids(documents);
    assert(ids.to_set() =~= given.to_set()) by {
        assert forall|id: u32| ids.to_set().contains(id) implies given.to_set().contains(id) by {
            let i = choose|i: int| 0 <= i < ids.len() && ids[i] == id;
            assert(is_listed(documents, sorted[i]));
            let at = choose|at: int|
                0 <= at < documents.len() && same_document(#[trigger] documents[at], sorted[i]);
            assert(given[at] == id);
        }
        assert forall|id: u32| given.to_set().contains(id) implies ids.to_set().contains(id) by {
            let i = choose|i: int| 0 <= i < given.len() && given[i] == id;
            assert(is_listed(sorted, documents[i]));
            let at = choose|at: int|
                0 <= at < sorted.len() && same_document(#[trigger] sorted[at], documents[i]);
            assert(ids[at] == id);
        }
    }
    given.unique_seq_to_set();
    ids.lemma_no_dup_set_cardinality();
    assert forall|i: int, j: int| 0 <= i < j < sorted.len() implies (#[trigger] sorted[i]).id < (
    #[trigger] sorted[j]).id by {
        assert(ids[i] != ids[j]);
    }
    assert(is_valid(sorted[0], dimension));
}

/// The identities of documents.
pub fn ids_of_documents(documents: &Vec<DenseDocument>) -> (ids: Vec<u32>)
    ensures
        ids@ == document_ids(documents@),
{
    let mut ids: Vec<u32> = Vec::new();
    let mut i: usize = 0;
    while i < documents.len()
        invariant
            i <= documents@.len(),
            ids@ =~= document_ids(documents@).take(i as int),
        decreases documents@.len() - i,
    {
        ids.push(documents[i].id);
        i += 1;
    }
    assert(ids@ =~= document_ids(documents@));
    ids
}

} // verus!
