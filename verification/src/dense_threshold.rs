//! Exact dense streams from sorted access to coordinates and a threshold.

use crate::dense_ball::is_zero;
use crate::dense_documents::{
    are_documents, check_documents, documents_fault, is_sorted_copy, lemma_sorted_documents,
    sorted_documents, DenseDocument, DocumentFault,
};
use crate::dense_plan::is_finite_vector;
use crate::dense_quantized::is_query;
use crate::frontier::{scores_exactly, DenseScoredPoint, KeySource, KeyTable};
use crate::order::{finite_key, ExtendedPointId, INFINITE_KEY};
use crate::rank_queue::{lemma_ordered, order_entries, RankEntry, RankQueue};
use crate::tables::repeated;
use vstd::prelude::*;

verus! {

/// Why an index or a stream is refused.
#[derive(Clone, Copy, Debug, PartialEq, Eq, Structural)]
pub enum DenseThresholdError {
    EmptyDocuments,
    DuplicateDocument(u32),
    InvalidDocument(u32),
    InvalidQuery,
    TooManyDocuments,
}

/// What is wrong with documents.
pub open spec fn threshold_fault(documents: Seq<DenseDocument>) -> Option<DenseThresholdError> {
    if documents.len() == 0 {
        Some(DenseThresholdError::EmptyDocuments)
    } else if documents[0].vector@.len() == 0 {
        Some(DenseThresholdError::InvalidDocument(documents[0].id))
    } else if documents.len() > u32::MAX {
        Some(DenseThresholdError::TooManyDocuments)
    } else {
        match documents_fault(documents) {
            Some(DocumentFault::Empty) => Some(DenseThresholdError::EmptyDocuments),
            Some(DocumentFault::Duplicate(id)) => Some(DenseThresholdError::DuplicateDocument(id)),
            Some(DocumentFault::Invalid(id)) => Some(DenseThresholdError::InvalidDocument(id)),
            None => None,
        }
    }
}

/// The place of a single-precision number on the number line; both zeros have the
/// place 0.
pub open spec fn coordinate_key(bits: u32) -> int {
    if bits < 0x8000_0000 {
        bits as int
    } else {
        0x8000_0000 - bits
    }
}

/// The place of a single-precision number on the number line.
fn key_of_coordinate(bits: u32) -> (key: i64)
    ensures
        key == coordinate_key(bits),
{
    if bits < 0x8000_0000 {
        bits as i64
    } else {
        0x8000_0000 - bits as i64
    }
}

/// Whether an order lists all documents, the largest coordinate first, equal
/// coordinates by ascending identity.
pub open spec fn is_coordinate_order(
    documents: Seq<DenseDocument>,
    coordinate: int,
    order: Seq<u32>,
) -> bool {
    &&& order.len() == documents.len()
    &&& forall|i: int| 0 <= i < order.len() ==> #[trigger] order[i] < documents.len()
    &&& forall|ordinal: int|
        0 <= ordinal < documents.len() ==> #[trigger] order.contains(ordinal as u32)
    &&& forall|i: int, j: int|
        0 <= i < j < order.len() ==> {
            let left = documents[#[trigger] order[i] as int];
            let right = documents[#[trigger] order[j] as int];
            let left_key = coordinate_key(left.vector@[coordinate]);
            let right_key = coordinate_key(right.vector@[coordinate]);
            left_key > right_key || left_key == right_key && left.id <= right.id
        }
}

/// Documents with an order for every coordinate.
#[derive(Debug)]
pub struct DenseThresholdIndex {
    documents: Vec<DenseDocument>,
    coordinate_orders: Vec<Vec<u32>>,
    dimension: usize,
}

impl DenseThresholdIndex {
    /// The documents in ascending order of identity.
    pub closed spec fn documents(&self) -> Seq<DenseDocument> {
        self.documents@
    }

    /// The orders of the coordinates.
    pub closed spec fn orders(&self) -> Seq<Vec<u32>> {
        self.coordinate_orders@
    }

    /// The dimension of the documents.
    pub closed spec fn dims(&self) -> nat {
        self.dimension as nat
    }

    /// Whether documents and orders belong together.
    #[verifier::type_invariant]
    pub closed spec fn wf(&self) -> bool {
        &&& are_documents(self.documents@)
        &&& self.documents@.len() <= u32::MAX
        &&& self.documents@[0].vector@.len() == self.dimension
        &&& forall|i: int, j: int|
            0 <= i < j < self.documents@.len() ==> (#[trigger] self.documents@[i]).id < (
            #[trigger] self.documents@[j]).id
        &&& self.coordinate_orders@.len() == self.dimension
        &&& forall|coordinate: int|
            0 <= coordinate < self.dimension ==> is_coordinate_order(
                self.documents@,
                coordinate,
                (#[trigger] self.coordinate_orders@[coordinate])@,
            )
    }

    /// An index of documents.
    pub fn build(documents: Vec<DenseDocument>) -> (result: Result<
        DenseThresholdIndex,
        DenseThresholdError,
    >)
        ensures
            match threshold_fault(documents@) {
                Some(fault) => result == Err::<DenseThresholdIndex, DenseThresholdError>(fault),
                None => {
                    &&& result matches Ok(index)
                    &&& is_sorted_copy(index.documents(), documents@)
                    &&& index.dims() == documents@[0].vector@.len()
                    &&& index.orders().len() == index.dims()
                    &&& forall|coordinate: int|
                        0 <= coordinate < index.dims() ==> is_coordinate_order(
                            index.documents(),
                            coordinate,
                            (#[trigger] index.orders()[coordinate])@,
                        )
                },
            },
    {
        if documents.len() == 0 {
            return Err(DenseThresholdError::EmptyDocuments);
        }
        let dimension: usize = documents[0].vector.len();
        if dimension == 0 {
            return Err(DenseThresholdError::InvalidDocument(documents[0].id));
        }
        if documents.len() > u32::MAX as usize {
            return Err(DenseThresholdError::TooManyDocuments);
        }
        match check_documents(&documents) {
            Some(DocumentFault::Empty) => {
                return Err(DenseThresholdError::EmptyDocuments);
            },
            Some(DocumentFault::Duplicate(id)) => {
                return Err(DenseThresholdError::DuplicateDocument(id));
            },
            Some(DocumentFault::Invalid(id)) => {
                return Err(DenseThresholdError::InvalidDocument(id));
            },
            None => {},
        }
        let sorted = sorted_documents(&documents);
        proof {
            lemma_sorted_documents(sorted@, documents@);
        }
        let mut coordinate_orders: Vec<Vec<u32>> = Vec::new();
        let mut coordinate: usize = 0;
        while coordinate < dimension
            invariant
                coordinate <= dimension,
                are_documents(sorted@),
                sorted@.len() <= u32::MAX,
                sorted@[0].vector@.len() == dimension,
                coordinate_orders@.len() == coordinate,
                forall|k: int|
                    0 <= k < coordinate ==> is_coordinate_order(
                        sorted@,
                        k,
                        (#[trigger] coordinate_orders@[k])@,
                    ),
            decreases dimension - coordinate,
        {
            let order = coordinate_order(&sorted, coordinate);
            coordinate_orders.push(order);
            coordinate += 1;
        }
        Ok(DenseThresholdIndex { documents: sorted, coordinate_orders, dimension })
    }

    /// The number of documents.
    pub fn document_count(&self) -> (count: usize)
        ensures
            count == self.documents().len(),
    {
        self.documents.len()
    }

    /// The dimension of the documents.
    pub fn dimension(&self) -> (dimension: usize)
        ensures
            dimension == self.dims(),
    {
        self.dimension
    }

    /// The size of the orders: four bytes for every document and coordinate.
    pub fn auxiliary_bytes(&self) -> (bytes: usize)
        requires
            self.documents().len() * self.dims() * 4 <= usize::MAX,
        ensures
            bytes == self.documents().len() * self.dims() * 4,
    {
        proof {
            let count = self.documents@.len() as int;
            let size = self.dimension as int;
            assert(count * size <= count * size * 4) by (nonlinear_arith)
                requires
                    count >= 0,
                    size >= 0,
            ;
        }
        self.documents.len() * self.dimension * 4
    }

    /// A document.
    pub fn document(&self, ordinal: usize) -> (document: &DenseDocument)
        requires
            ordinal < self.documents().len(),
        ensures
            *document == self.documents()[ordinal as int],
    {
        &self.documents[ordinal]
    }
}

/// The order of documents by one coordinate.
fn coordinate_order(documents: &Vec<DenseDocument>, coordinate: usize) -> (order: Vec<u32>)
    requires
        are_documents(documents@),
        documents@.len() <= u32::MAX,
        coordinate < documents@[0].vector@.len(),
    ensures
        is_coordinate_order(documents@, coordinate as int, order@),
{
    let mut entries: Vec<RankEntry> = Vec::new();
    let mut i: usize = 0;
    while i < documents.len()
        invariant
            i <= documents@.len(),
            are_documents(documents@),
            coordinate < documents@[0].vector@.len(),
            entries@.len() == i,
            forall|k: int|
                0 <= k < i ==> {
                    &&& (#[trigger] entries@[k]).score == coordinate_key(
                        documents@[k].vector@[coordinate as int],
                    )
                    &&& entries@[k].id == ExtendedPointId::NumId(documents@[k].id as u64)
                    &&& entries@[k].slot == k
                },
        decreases documents@.len() - i,
    {
        let document = &documents[i];
        entries.push(
            RankEntry {
                score: key_of_coordinate(document.vector[coordinate]),
                id: ExtendedPointId::NumId(document.id as u64),
                slot: i,
            },
        );
        i += 1;
    }
    let ghost given = entries@;
    let sorted = order_entries(entries);
    proof {
        lemma_ordered(given);
        assert forall|j: int| 0 <= j < sorted@.len() implies (#[trigger] sorted@[j]).slot
            < documents@.len() && sorted@[j] == given[sorted@[j].slot as int] by {
            assert(sorted@.contains(sorted@[j]));
            assert(given.contains(sorted@[j]));
            let at = choose|at: int| 0 <= at < given.len() && given[at] == sorted@[j];
        }
    }
    let mut order: Vec<u32> = Vec::new();
    let mut k: usize = 0;
    while k < sorted.len()
        invariant
            k <= sorted@.len(),
            order@.len() == k,
            documents@.len() <= u32::MAX,
            forall|j: int|
                0 <= j < sorted@.len() ==> (#[trigger] sorted@[j]).slot < documents@.len(),
            forall|j: int| 0 <= j < k ==> #[trigger] order@[j] == sorted@[j].slot,
        decreases sorted@.len() - k,
    {
        let slot: usize = sorted[k].slot;
        order.push(slot as u32);
        k += 1;
    }
    proof {
        assert forall|ordinal: int| 0 <= ordinal < documents@.len() implies #[trigger] order@.contains(
            ordinal as u32,
        ) by {
            assert(given.contains(given[ordinal]));
            assert(sorted@.contains(given[ordinal]));
            let j = choose|j: int| 0 <= j < sorted@.len() && sorted@[j] == given[ordinal];
            assert(order@[j] == ordinal as u32);
        }
        assert forall|a: int, b: int| 0 <= a < b < order@.len() implies {
            let left = documents@[#[trigger] order@[a] as int];
            let right = documents@[#[trigger] order@[b] as int];
            let left_key = coordinate_key(left.vector@[coordinate as int]);
            let right_key = coordinate_key(right.vector@[coordinate as int]);
            left_key > right_key || left_key == right_key && left.id <= right.id
        } by {
            assert(!sorted@[b].precedes(sorted@[a]));
        }
    }
    order
}

/// What a stream has done.
#[derive(Clone, Copy, Debug, Default, PartialEq, Eq, Structural)]
pub struct DenseThresholdTelemetry {
    pub sequential_accesses: usize,
    pub duplicate_accesses: usize,
    pub exact_scores: usize,
    pub threshold_updates: usize,
    pub points_emitted: usize,
}

/// The arithmetic of a query: all values are keys.
pub struct ThresholdArithmetic<K, X, Y, D> {
    /// What a coordinate of a document adds to its score.
    pub contribution: K,
    /// A bound of the sum of a bound and a contribution.
    pub extend: X,
    /// A bound in which one contribution is replaced by another.
    pub replace: Y,
    /// How much lower the second contribution is, at least 0.
    pub reduction: D,
}

/// What keys and contributions stand for: whole multiples of a unit so small that
/// everything is one.
pub struct ThresholdModel {
    /// The value of a key.
    pub value: spec_fn(i64) -> int,
    /// What a coordinate adds to the score of a document.
    pub part: spec_fn(int, int) -> int,
}

/// Whether a key can bound scores: it is finite, or that of infinity.
pub open spec fn is_bound(key: i64) -> bool {
    finite_key(key) || key == INFINITE_KEY
}

impl ThresholdModel {
    /// Whether a score is finite and does not exceed a value.
    pub open spec fn is_within(self, score: Option<i64>, value: int) -> bool {
        finite_key(score->0) && (self.value)(score->0) <= value
    }

    /// Whether a bound is infinite, or not below a value.
    pub open spec fn bounds(self, bound: i64, value: int) -> bool {
        bound == INFINITE_KEY || finite_key(bound) && (self.value)(bound) >= value
    }

    /// Whether a sum is infinite, or not below a finite bound and a change of it.
    pub open spec fn covers(self, sum: i64, bound: i64, change: int) -> bool {
        sum == INFINITE_KEY || finite_key(bound) && finite_key(sum) && (self.value)(sum) >= (
        self.value)(bound) + change
    }
}

impl<
    K: Fn(usize, usize) -> i64,
    X: Fn(i64, i64) -> i64,
    Y: Fn(i64, i64, i64) -> i64,
    D: Fn(i64, i64) -> i64,
> ThresholdArithmetic<K, X, Y, D> {
    /// Whether the arithmetic can be called on the coordinates of documents and on all keys.
    pub open spec fn answers(self, dimension: nat, count: nat) -> bool {
        &&& forall|coordinate: usize, ordinal: usize|
            coordinate < dimension && ordinal < count ==> #[trigger] self.contribution.requires(
                (coordinate, ordinal),
            )
        &&& forall|bound: i64, contribution: i64| #[trigger]
            self.extend.requires((bound, contribution))
        &&& forall|bound: i64, before: i64, after: i64| #[trigger]
            self.replace.requires((bound, before, after))
        &&& forall|before: i64, after: i64| #[trigger] self.reduction.requires((before, after))
    }

    /// Whether finite keys are ordered by their values, contributions are finite and exact,
    /// and bounds are rounded up. A bound that is too large for a finite key is infinite,
    /// and stays so.
    pub open spec fn rounds_up(self, model: ThresholdModel) -> bool {
        &&& (model.value)(0) == 0
        &&& forall|left: i64, right: i64|
            finite_key(left) && finite_key(right) && #[trigger] (model.value)(left)
                <= #[trigger] (model.value)(right) ==> left <= right
        &&& forall|coordinate: usize, ordinal: usize, key: i64| #[trigger]
            self.contribution.ensures((coordinate, ordinal), key) ==> finite_key(key) && (
            model.value)(key) == (model.part)(coordinate as int, ordinal as int)
        &&& forall|bound: i64, contribution: i64, sum: i64|
            is_bound(bound) && finite_key(contribution) && #[trigger] self.extend.ensures(
                (bound, contribution),
                sum,
            ) ==> model.covers(sum, bound, (model.value)(contribution))
        &&& forall|bound: i64, before: i64, after: i64, sum: i64|
            is_bound(bound) && finite_key(before) && finite_key(after)
                && #[trigger] self.replace.ensures((bound, before, after), sum) ==> model.covers(
                sum,
                bound,
                (model.value)(after) - (model.value)(before),
            )
    }

    /// What a coordinate of a document adds to its score.
    fn contribution_of(
        &self,
        coordinate: usize,
        ordinal: usize,
        Ghost(dimension): Ghost<nat>,
        Ghost(count): Ghost<nat>,
    ) -> (key: i64)
        requires
            self.answers(dimension, count),
            coordinate < dimension,
            ordinal < count,
        ensures
            self.contribution.ensures((coordinate, ordinal), key),
    {
        let contribute = &self.contribution;
        contribute(coordinate, ordinal)
    }
}

/// The sum of what the leading coordinates of a query that are not zero add to the score
/// of a document.
pub open spec fn query_sum(
    query: Seq<u32>,
    model: ThresholdModel,
    ordinal: int,
    upto: int,
) -> int
    decreases upto,
{
    if upto <= 0 {
        0
    } else {
        query_sum(query, model, ordinal, upto - 1) + (if is_zero(query[upto - 1]) {
            0
        } else {
            (model.part)(upto - 1, ordinal)
        })
    }
}

/// Whether a model is that of a query over an index: bounds are rounded up, a larger
/// coordinate adds more where the query is positive and less where it is negative, and
/// scores are finite and do not exceed the sums of their parts.
pub open spec fn models_query<
    K: Fn(usize, usize) -> i64,
    X: Fn(i64, i64) -> i64,
    Y: Fn(i64, i64, i64) -> i64,
    D: Fn(i64, i64) -> i64,
>(
    index: DenseThresholdIndex,
    query: Seq<u32>,
    arithmetic: ThresholdArithmetic<K, X, Y, D>,
    model: ThresholdModel,
    scores: spec_fn(int) -> Option<i64>,
) -> bool {
    &&& arithmetic.rounds_up(model)
    &&& forall|coordinate: int, left: int, right: int|
        0 <= coordinate < query.len() && 0 <= left < index.documents().len() && 0 <= right
            < index.documents().len() && coordinate_key(
            index.documents()[left].vector@[coordinate],
        ) >= coordinate_key(index.documents()[right].vector@[coordinate]) ==> if query[coordinate]
            >= 0x8000_0000 {
            #[trigger] (model.part)(coordinate, left) <= #[trigger] (model.part)(
                coordinate,
                right,
            )
        } else {
            (model.part)(coordinate, left) >= (model.part)(coordinate, right)
        }
    &&& forall|ordinal: int|
        0 <= ordinal < index.documents().len() ==> model.is_within(
            #[trigger] scores(ordinal),
            query_sum(query, model, ordinal, query.len() as int),
        )
}

/// The sum of what walked coordinates add to the score of a document.
pub open spec fn walked_sum(
    active: Seq<ActiveCoordinate>,
    model: ThresholdModel,
    ordinal: int,
    upto: int,
) -> int
    decreases upto,
{
    if upto <= 0 {
        0
    } else {
        walked_sum(active, model, ordinal, upto - 1) + (model.part)(
            active[upto - 1].coordinate as int,
            ordinal,
        )
    }
}

/// The sum of what walks add where they stand.
pub open spec fn frontier_sum(
    index: DenseThresholdIndex,
    active: Seq<ActiveCoordinate>,
    model: ThresholdModel,
    upto: int,
) -> int
    decreases upto,
{
    if upto <= 0 {
        0
    } else {
        let walk = active[upto - 1];
        frontier_sum(index, active, model, upto - 1) + (model.part)(
            walk.coordinate as int,
            walk.ordinal_at(index, walk.cursor as int),
        )
    }
}

/// A coordinate whose order is walked.
#[derive(Clone, Copy, Debug, PartialEq, Eq, Structural)]
pub struct ActiveCoordinate {
    pub coordinate: usize,
    pub cursor: usize,
    /// Whether the order is walked from its end.
    pub reverse: bool,
}

impl ActiveCoordinate {
    /// The document at a place of the walk.
    pub open spec fn ordinal_at(self, index: DenseThresholdIndex, place: int) -> int {
        let order = index.orders()[self.coordinate as int]@;
        if self.reverse {
            order[order.len() - 1 - place] as int
        } else {
            order[place] as int
        }
    }

    /// The document where the walk stands.
    fn ordinal(self, index: &DenseThresholdIndex) -> (ordinal: usize)
        requires
            index.wf(),
            self.coordinate < index.dims(),
            self.cursor < index.documents().len(),
        ensures
            ordinal == self.ordinal_at(*index, self.cursor as int),
            ordinal < index.documents().len(),
    {
        let order = &index.coordinate_orders[self.coordinate];
        let position: usize = if self.reverse {
            order.len() - 1 - self.cursor
        } else {
            self.cursor
        };
        order[position] as usize
    }
}

/// Whether the coordinates of a query that are not zero are walked, negative ones
/// from the end.
pub open spec fn are_active(query: Seq<u32>, active: Seq<ActiveCoordinate>, upto: int) -> bool {
    &&& forall|i: int|
        0 <= i < active.len() ==> {
            let walk = #[trigger] active[i];
            &&& walk.coordinate < upto
            &&& walk.cursor == 0
            &&& !is_zero(query[walk.coordinate as int])
            &&& walk.reverse == (query[walk.coordinate as int] >= 0x8000_0000)
        }
    &&& forall|coordinate: int|
        0 <= coordinate < upto && !is_zero(#[trigger] query[coordinate]) ==> exists|i: int|
            0 <= i < active.len() && (#[trigger] active[i]).coordinate == coordinate
    &&& forall|i: int, j: int|
        0 <= i < j < active.len() ==> (#[trigger] active[i]).coordinate < (
        #[trigger] active[j]).coordinate
}

/// Whether what walks add falls along their ways.
pub open spec fn parts_fall(
    index: DenseThresholdIndex,
    active: Seq<ActiveCoordinate>,
    model: ThresholdModel,
) -> bool {
    forall|i: int, near: int, far: int|
        0 <= i < active.len() && 0 <= near <= far < index.documents().len() ==> (model.part)(
            active[i].coordinate as int,
            #[trigger] active[i].ordinal_at(index, near),
        ) >= (model.part)(
            active[i].coordinate as int,
            #[trigger] active[i].ordinal_at(index, far),
        )
}

/// Whether a bound is not below what walks add where they stand, wherever bounds are
/// rounded up.
pub open spec fn covers_frontier<
    K: Fn(usize, usize) -> i64,
    X: Fn(i64, i64) -> i64,
    Y: Fn(i64, i64, i64) -> i64,
    D: Fn(i64, i64) -> i64,
>(
    arithmetic: ThresholdArithmetic<K, X, Y, D>,
    index: DenseThresholdIndex,
    active: Seq<ActiveCoordinate>,
    bound: i64,
) -> bool {
    forall|model: ThresholdModel| #[trigger]
        arithmetic.rounds_up(model) ==> model.bounds(
            bound,
            frontier_sum(index, active, model, active.len() as int),
        )
}

/// What the walks of a query add falls along their ways.
proof fn lemma_parts_fall<
    K: Fn(usize, usize) -> i64,
    X: Fn(i64, i64) -> i64,
    Y: Fn(i64, i64, i64) -> i64,
    D: Fn(i64, i64) -> i64,
>(
    index: DenseThresholdIndex,
    query: Seq<u32>,
    arithmetic: ThresholdArithmetic<K, X, Y, D>,
    active: Seq<ActiveCoordinate>,
    model: ThresholdModel,
    scores: spec_fn(int) -> Option<i64>,
)
    requires
        index.wf(),
        query.len() == index.dims(),
        are_active(query, active, query.len() as int),
        models_query(index, query, arithmetic, model, scores),
    ensures
        parts_fall(index, active, model),
{
    assert forall|i: int, near: int, far: int|
        0 <= i < active.len() && 0 <= near <= far < index.documents().len() implies (model.part)(
        active[i].coordinate as int,
        #[trigger] active[i].ordinal_at(index, near),
    ) >= (model.part)(
        active[i].coordinate as int,
        #[trigger] active[i].ordinal_at(index, far),
    ) by {
        let walk = active[i];
        let coordinate = walk.coordinate as int;
        let documents = index.documents();
        let order = index.orders()[coordinate]@;
        assert(is_coordinate_order(documents, coordinate, order)) by {
            let _ = index.coordinate_orders@[coordinate];
        }
        let left = walk.ordinal_at(index, near);
        let right = walk.ordinal_at(index, far);
        if near < far {
            let first = if walk.reverse {
                order.len() - 1 - far
            } else {
                near
            };
            let second = if walk.reverse {
                order.len() - 1 - near
            } else {
                far
            };
            let _ = order[first];
            let _ = order[second];
            assert(coordinate_key(documents[order[first] as int].vector@[coordinate])
                >= coordinate_key(documents[order[second] as int].vector@[coordinate]));
            assert(((model.part)(coordinate, order[first] as int) <= (model.part)(
                coordinate,
                order[second] as int,
            )) || query[coordinate] < 0x8000_0000);
        }
        let _ = (model.part)(coordinate, left);
        let _ = (model.part)(coordinate, right);
    }
}

/// Walks that differ only in where they stand are alike.
pub open spec fn same_walks(left: Seq<ActiveCoordinate>, right: Seq<ActiveCoordinate>) -> bool {
    &&& left.len() == right.len()
    &&& forall|i: int|
        0 <= i < left.len() ==> (#[trigger] left[i]).coordinate == right[i].coordinate
            && left[i].reverse == right[i].reverse
}

proof fn lemma_same_walks(
    index: DenseThresholdIndex,
    left: Seq<ActiveCoordinate>,
    right: Seq<ActiveCoordinate>,
    model: ThresholdModel,
)
    requires
        same_walks(left, right),
    ensures
        forall|ordinal: int, upto: int|
            0 <= upto <= left.len() ==> #[trigger] walked_sum(left, model, ordinal, upto)
                == walked_sum(right, model, ordinal, upto),
        parts_fall(index, left, model) ==> parts_fall(index, right, model),
{
    assert forall|ordinal: int, upto: int| 0 <= upto <= left.len() implies #[trigger] walked_sum(
        left,
        model,
        ordinal,
        upto,
    ) == walked_sum(right, model, ordinal, upto) by {
        lemma_same_sums(left, right, model, ordinal, upto);
    }
    if parts_fall(index, left, model) {
        assert forall|i: int, near: int, far: int|
            0 <= i < right.len() && 0 <= near <= far < index.documents().len() implies (
        model.part)(
            right[i].coordinate as int,
            #[trigger] right[i].ordinal_at(index, near),
        ) >= (model.part)(
            right[i].coordinate as int,
            #[trigger] right[i].ordinal_at(index, far),
        ) by {
            assert(left[i].coordinate == right[i].coordinate);
            assert(left[i].ordinal_at(index, near) == right[i].ordinal_at(index, near));
            assert(left[i].ordinal_at(index, far) == right[i].ordinal_at(index, far));
        }
    }
}

proof fn lemma_same_sums(
    left: Seq<ActiveCoordinate>,
    right: Seq<ActiveCoordinate>,
    model: ThresholdModel,
    ordinal: int,
    upto: int,
)
    requires
        same_walks(left, right),
        0 <= upto <= left.len(),
    ensures
        walked_sum(left, model, ordinal, upto) == walked_sum(right, model, ordinal, upto),
    decreases upto,
{
    if upto > 0 {
        lemma_same_sums(left, right, model, ordinal, upto - 1);
        assert(left[upto - 1].coordinate == right[upto - 1].coordinate);
    }
}

/// A walk that moves changes the sum of the frontiers by what it adds more or less.
proof fn lemma_frontier_moves(
    index: DenseThresholdIndex,
    active: Seq<ActiveCoordinate>,
    model: ThresholdModel,
    at: int,
    moved: ActiveCoordinate,
    upto: int,
)
    requires
        0 <= at < active.len(),
        0 <= upto <= active.len(),
    ensures
        frontier_sum(index, active.update(at, moved), model, upto) == frontier_sum(
            index,
            active,
            model,
            upto,
        ) + (if at < upto {
            (model.part)(
                moved.coordinate as int,
                moved.ordinal_at(index, moved.cursor as int),
            ) - (model.part)(
                active[at].coordinate as int,
                active[at].ordinal_at(index, active[at].cursor as int),
            )
        } else {
            0
        }),
    decreases upto,
{
    if upto > 0 {
        lemma_frontier_moves(index, active, model, at, moved, upto - 1);
    }
}

proof fn lemma_pushed_sums(
    index: DenseThresholdIndex,
    active: Seq<ActiveCoordinate>,
    last: ActiveCoordinate,
    model: ThresholdModel,
    ordinal: int,
    upto: int,
)
    requires
        0 <= upto <= active.len(),
    ensures
        walked_sum(active.push(last), model, ordinal, upto) == walked_sum(
            active,
            model,
            ordinal,
            upto,
        ),
        frontier_sum(index, active.push(last), model, upto) == frontier_sum(
            index,
            active,
            model,
            upto,
        ),
    decreases upto,
{
    if upto > 0 {
        lemma_pushed_sums(index, active, last, model, ordinal, upto - 1);
    }
}

/// The documents of an index in the exact order of a query, one at a time. A
/// document is emitted when its score is above the threshold, which bounds the scores
/// of all documents that were not seen.
pub struct DenseThresholdStream<'a, A, F> {
    index: &'a DenseThresholdIndex,
    arithmetic: &'a A,
    scorer: F,
    active_coordinates: Vec<ActiveCoordinate>,
    advance_choices: RankQueue,
    pending_exact: RankQueue,
    seen: Vec<bool>,
    unseen_upper_bound: i64,
    all_seen: bool,
    zero_query_cursor: Option<usize>,
    telemetry: DenseThresholdTelemetry,
    scores: Ghost<Map<int, i64>>,
}

/// Whether one scored document belongs before another.
pub open spec fn document_before(
    documents: Seq<DenseDocument>,
    left: int,
    left_score: i64,
    right: int,
    right_score: i64,
) -> bool {
    left_score > right_score || left_score == right_score && documents[left].id
        < documents[right].id
}

/// Whether a document belongs before all others of a set.
pub open spec fn is_first_document(
    documents: Seq<DenseDocument>,
    scores: spec_fn(int) -> Option<i64>,
    held: Set<int>,
    ordinal: int,
) -> bool {
    &&& held.contains(ordinal)
    &&& forall|other: int| #[trigger]
        held.contains(other) && other != ordinal ==> document_before(
            documents,
            ordinal,
            scores(ordinal)->0,
            other,
            scores(other)->0,
        )
}

/// The places without a mark.
pub open spec fn unmarked(marks: Seq<bool>) -> Set<int> {
    Set::new(|place: int| 0 <= place < marks.len() && !marks[place])
}

/// Whether counts are those of a search: every step of a walk updates the threshold and
/// finds a document that is new, and is scored, or one that was seen.
spec fn counts_accesses(counts: DenseThresholdTelemetry, seen: Seq<bool>) -> bool {
    &&& unmarked(seen).finite()
    &&& counts.exact_scores + unmarked(seen).len() == seen.len()
    &&& counts.threshold_updates == counts.sequential_accesses
    &&& counts.exact_scores <= counts.sequential_accesses
    &&& counts.sequential_accesses < usize::MAX ==> counts.exact_scores
        + counts.duplicate_accesses == counts.sequential_accesses
}

/// Nothing is marked at first.
proof fn lemma_nothing_marked(marks: Seq<bool>)
    requires
        forall|place: int| 0 <= place < marks.len() ==> !#[trigger] marks[place],
    ensures
        unmarked(marks).finite(),
        unmarked(marks).len() == marks.len(),
{
    vstd::set_lib::lemma_int_range(0, marks.len() as int);
    assert(unmarked(marks) =~= vstd::set_lib::set_int_range(0, marks.len() as int));
}

/// A new mark leaves one place less without one.
proof fn lemma_one_marked(marks: Seq<bool>, place: int)
    requires
        0 <= place < marks.len(),
        !marks[place],
        unmarked(marks).finite(),
    ensures
        unmarked(marks.update(place, true)).finite(),
        unmarked(marks.update(place, true)).len() == unmarked(marks).len() - 1,
{
    assert(unmarked(marks.update(place, true)) =~= unmarked(marks).remove(place));
    assert(unmarked(marks).contains(place));
}

/// How many steps of walks are left.
pub open spec fn steps_left(active: Seq<ActiveCoordinate>, count: int, upto: int) -> int
    decreases upto,
{
    if upto <= 0 {
        0
    } else {
        steps_left(active, count, upto - 1) + (count - active[upto - 1].cursor)
    }
}

proof fn lemma_step_taken(active: Seq<ActiveCoordinate>, count: int, at: int, upto: int)
    requires
        0 <= at < active.len(),
        0 <= upto <= active.len(),
        active[at].cursor < usize::MAX,
    ensures
        steps_left(
            active.update(
                at,
                ActiveCoordinate { cursor: (active[at].cursor + 1) as usize, ..active[at] },
            ),
            count,
            upto,
        ) == steps_left(active, count, upto) - (if at < upto {
            1int
        } else {
            0int
        }),
    decreases upto,
{
    if upto > 0 {
        lemma_step_taken(active, count, at, upto - 1);
    }
}

proof fn lemma_steps_are_not_negative(active: Seq<ActiveCoordinate>, count: int, upto: int)
    requires
        0 <= upto <= active.len(),
        forall|i: int| 0 <= i < active.len() ==> (#[trigger] active[i]).cursor <= count,
    ensures
        steps_left(active, count, upto) >= 0,
    decreases upto,
{
    if upto > 0 {
        lemma_steps_are_not_negative(active, count, upto - 1);
    }
}

impl<
    'a,
    K: Fn(usize, usize) -> i64,
    X: Fn(i64, i64) -> i64,
    Y: Fn(i64, i64, i64) -> i64,
    D: Fn(i64, i64) -> i64,
    F: KeySource,
> DenseThresholdStream<'a, ThresholdArithmetic<K, X, Y, D>, F> {
    /// Whether the walks, the queues and the marks belong together.
    pub closed spec fn wf(&self) -> bool {
        let documents = self.index.documents();
        let count = documents.len();
        &&& self.index.wf()
        &&& self.arithmetic.answers(self.index.dims(), count)
        &&& self.seen@.len() == count
        &&& counts_accesses(self.telemetry, self.seen@)
        &&& self.pending_exact.wf()
        &&& self.advance_choices.wf()
        &&& forall|ordinal: int|
            0 <= ordinal < count ==> #[trigger] self.scorer.defined(ordinal)
        &&& self.zero_query_cursor matches Some(cursor) ==> cursor <= count
        &&& self.zero_query_cursor is None ==> self.active_coordinates@.len() > 0
        &&& forall|i: int|
            0 <= i < self.active_coordinates@.len() ==> {
                let walk = #[trigger] self.active_coordinates@[i];
                &&& walk.coordinate < self.index.dims()
                &&& walk.cursor <= count
                &&& !self.all_seen ==> walk.cursor < count
            }
        &&& forall|i: int, place: int|
            0 <= i < self.active_coordinates@.len() && 0 <= place
                < self.active_coordinates@[i].cursor
                ==> self.seen@[#[trigger] self.active_coordinates@[i].ordinal_at(
                *self.index,
                place,
            )]
        &&& self.all_seen ==> forall|ordinal: int| 0 <= ordinal < count ==> #[trigger]
            self.seen@[ordinal]
        &&& !self.all_seen && self.zero_query_cursor is None ==> forall|i: int|
            0 <= i < self.active_coordinates@.len() ==> self.has_choice(i)
        &&& forall|entry: RankEntry| #[trigger]
            self.advance_choices@.count(entry) > 0 ==> entry.slot < self.active_coordinates@.len()
        &&& forall|entry: RankEntry| #[trigger]
            self.pending_exact@.count(entry) == (if self.is_pending(entry) {
                1nat
            } else {
                0nat
            })
        &&& forall|ordinal: int| #[trigger]
            self.scores@.contains_key(ordinal) ==> {
                &&& 0 <= ordinal < count
                &&& self.seen@[ordinal]
                &&& self.scorer.gives(ordinal, self.scores@[ordinal])
            }
    }

    closed spec fn is_pending(&self, entry: RankEntry) -> bool {
        let ordinal = entry.slot as int;
        &&& self.scores@.contains_key(ordinal)
        &&& entry.score == self.scores@[ordinal]
        &&& entry.id == ExtendedPointId::NumId(self.index.documents()[ordinal].id as u64)
    }

    /// Whether a walk can be advanced.
    closed spec fn has_choice(&self, walk: int) -> bool {
        exists|entry: RankEntry| #[trigger]
            self.advance_choices@.count(entry) > 0 && entry.slot == walk
    }

    /// The documents of the stream.
    pub closed spec fn documents(&self) -> Seq<DenseDocument> {
        self.index.documents()
    }

    /// Whether all coordinates of the query are zero.
    pub closed spec fn is_zero_query(&self) -> bool {
        self.zero_query_cursor is Some
    }

    /// The documents that were not emitted.
    pub closed spec fn held(&self) -> Set<int> {
        match self.zero_query_cursor {
            Some(cursor) => Set::new(
                |ordinal: int| cursor <= ordinal < self.index.documents().len(),
            ),
            None => Set::new(
                |ordinal: int|
                    0 <= ordinal < self.index.documents().len() && (!self.seen@[ordinal]
                        || self.scores@.contains_key(ordinal)),
            ),
        }
    }

    /// The documents that were not seen.
    pub closed spec fn unseen(&self) -> Set<int> {
        unmarked(self.seen@)
    }

    /// The threshold: a bound of the scores of documents that were not seen.
    pub closed spec fn threshold(&self) -> i64 {
        self.unseen_upper_bound
    }

    /// The source of the scores.
    pub closed spec fn scorer(&self) -> F {
        self.scorer
    }

    /// What was counted.
    pub closed spec fn counted(&self) -> DenseThresholdTelemetry {
        self.telemetry
    }

    /// Whether a model explains the stream: bounds are rounded up, parts fall along every
    /// walk, scores are finite and do not exceed the sums of their parts, and the threshold is
    /// infinite or not below what the walks add where they stand.
    pub closed spec fn is_admissible(
        &self,
        model: ThresholdModel,
        scores: spec_fn(int) -> Option<i64>,
    ) -> bool {
        let active = self.active_coordinates@;
        &&& self.arithmetic.rounds_up(model)
        &&& parts_fall(*self.index, active, model)
        &&& forall|ordinal: int|
            0 <= ordinal < self.index.documents().len() ==> model.is_within(
                #[trigger] scores(ordinal),
                walked_sum(active, model, ordinal, active.len() as int),
            )
        &&& self.zero_query_cursor is None && !self.all_seen ==> model.bounds(
            self.unseen_upper_bound,
            frontier_sum(*self.index, active, model, active.len() as int),
        )
    }

    /// Whether the threshold bounds what was not seen.
    pub open spec fn is_bounded(&self, scores: spec_fn(int) -> Option<i64>) -> bool {
        forall|ordinal: int| #[trigger]
            self.unseen().contains(ordinal) ==> scores(ordinal)->0 <= self.threshold()
    }

    /// A stream for a query.
    fn new(
        index: &'a DenseThresholdIndex,
        query: &Vec<u32>,
        arithmetic: &'a ThresholdArithmetic<K, X, Y, D>,
        scorer: F,
    ) -> (result: Result<
        DenseThresholdStream<'a, ThresholdArithmetic<K, X, Y, D>, F>,
        DenseThresholdError,
    >)
        requires
            arithmetic.answers(index.dims(), index.documents().len()),
            forall|ordinal: int|
                0 <= ordinal < index.documents().len() ==> #[trigger] scorer.defined(ordinal),
        ensures
            result is Err <==> !is_query(query@, index.dims()),
            result matches Err(error) ==> error == DenseThresholdError::InvalidQuery,
            result matches Ok(stream) ==> is_fresh(*index, query@, *arithmetic, scorer, stream),
    {
        proof {
            use_type_invariant(index);
        }
        if query.len() != index.dimension || !is_finite_vector(query) {
            return Err(DenseThresholdError::InvalidQuery);
        }
        let count: usize = index.documents.len();
        let mut active_coordinates: Vec<ActiveCoordinate> = Vec::new();
        let mut unseen_upper_bound: i64 = 0;
        let mut coordinate: usize = 0;
        while coordinate < query.len()
            invariant
                index.wf(),
                count == index.documents@.len(),
                query@.len() == index.dims(),
                coordinate <= query@.len(),
                arithmetic.answers(index.dims(), index.documents().len()),
                are_active(query@, active_coordinates@, coordinate as int),
                covers_frontier(*arithmetic, *index, active_coordinates@, unseen_upper_bound),
                forall|model: ThresholdModel, ordinal: int| #[trigger]
                    walked_sum(
                        active_coordinates@,
                        model,
                        ordinal,
                        active_coordinates@.len() as int,
                    ) == query_sum(query@, model, ordinal, coordinate as int),
            decreases query@.len() - coordinate,
        {
            let ghost earlier = active_coordinates@;
            if query[coordinate] % 0x8000_0000 != 0 {
                let active = ActiveCoordinate {
                    coordinate,
                    cursor: 0,
                    reverse: query[coordinate] >= 0x8000_0000,
                };
                let contribution: i64 = arithmetic.contribution_of(
                    coordinate,
                    active.ordinal(index),
                    Ghost(index.dims()),
                    Ghost(index.documents().len()),
                );
                let ghost bound = unseen_upper_bound;
                let extend = &arithmetic.extend;
                unseen_upper_bound = extend(unseen_upper_bound, contribution);
                let ghost before = active_coordinates@;
                active_coordinates.push(active);
                proof {
                    assert(arithmetic.extend.ensures((bound, contribution), unseen_upper_bound));
                    assert forall|model: ThresholdModel| #[trigger]
                        arithmetic.rounds_up(model) implies model.bounds(
                        unseen_upper_bound,
                        frontier_sum(
                            *index,
                            active_coordinates@,
                            model,
                            active_coordinates@.len() as int,
                        ),
                    ) by {
                        lemma_pushed_sums(*index, before, active, model, 0, before.len() as int);
                    }
                    assert forall|model: ThresholdModel, ordinal: int| #[trigger]
                        walked_sum(
                            active_coordinates@,
                            model,
                            ordinal,
                            active_coordinates@.len() as int,
                        ) == query_sum(query@, model, ordinal, coordinate + 1) by {
                        lemma_pushed_sums(
                            *index,
                            before,
                            active,
                            model,
                            ordinal,
                            before.len() as int,
                        );
                        assert(walked_sum(before, model, ordinal, before.len() as int)
                            == query_sum(query@, model, ordinal, coordinate as int));
                    }
                    assert forall|other: int|
                        0 <= other < coordinate + 1 && !is_zero(
                            #[trigger] query@[other],
                        ) implies exists|k: int|
                        0 <= k < active_coordinates@.len() && (
                        #[trigger] active_coordinates@[k]).coordinate == other by {
                        if other < coordinate {
                            let k = choose|k: int|
                                0 <= k < before.len() && (#[trigger] before[k]).coordinate
                                    == other;
                            assert(active_coordinates@[k].coordinate == other);
                        } else {
                            assert(active_coordinates@[before.len() as int].coordinate == other);
                        }
                    }
                }
            } else {
                proof {
                    assert forall|model: ThresholdModel, ordinal: int| #[trigger]
                        walked_sum(
                            active_coordinates@,
                            model,
                            ordinal,
                            active_coordinates@.len() as int,
                        ) == query_sum(query@, model, ordinal, coordinate + 1) by {
                        assert(walked_sum(earlier, model, ordinal, earlier.len() as int)
                            == query_sum(query@, model, ordinal, coordinate as int));
                    }
                }
            }
            coordinate += 1;
        }
        let zero_query_cursor: Option<usize> = if active_coordinates.len() == 0 {
            Some(0)
        } else {
            None
        };
        let mut advance_choices = RankQueue::new();
        let mut walk: usize = 0;
        while walk < active_coordinates.len()
            invariant
                index.wf(),
                count == index.documents@.len(),
                arithmetic.answers(index.dims(), index.documents().len()),
                walk <= active_coordinates@.len(),
                are_active(query@, active_coordinates@, index.dims() as int),
                advance_choices.wf(),
                forall|entry: RankEntry| #[trigger]
                    advance_choices@.count(entry) > 0 ==> entry.slot < active_coordinates@.len(),
                forall|k: int| 0 <= k < walk ==> has_slot(#[trigger] advance_choices@, k),
            decreases active_coordinates@.len() - walk,
        {
            let active = active_coordinates[walk];
            let drop: i64 = threshold_drop(active, index, arithmetic);
            let ghost before = advance_choices@;
            let entry = RankEntry {
                score: drop,
                id: ExtendedPointId::NumId(active.coordinate as u64),
                slot: walk,
            };
            advance_choices.push(entry);
            proof {
                assert forall|k: int| 0 <= k < walk + 1 implies has_slot(
                    #[trigger] advance_choices@,
                    k,
                ) by {
                    if k < walk {
                        assert(has_slot(before, k));
                        let held = choose|held: RankEntry| #[trigger]
                            before.count(held) > 0 && held.slot == k;
                        assert(advance_choices@.count(held) > 0);
                    } else {
                        assert(advance_choices@.count(entry) > 0);
                    }
                }
            }
            walk += 1;
        }
        let stream = DenseThresholdStream {
            index,
            arithmetic,
            scorer,
            active_coordinates,
            advance_choices,
            pending_exact: RankQueue::new(),
            seen: repeated(false, count),
            unseen_upper_bound,
            all_seen: false,
            zero_query_cursor,
            telemetry: DenseThresholdTelemetry {
                sequential_accesses: 0,
                duplicate_accesses: 0,
                exact_scores: 0,
                threshold_updates: 0,
                points_emitted: 0,
            },
            scores: Ghost(Map::empty()),
        };
        proof {
            assert forall|k: int| 0 <= k < stream.active_coordinates@.len() implies stream.has_choice(
                k,
            ) by {
                assert(has_slot(advance_choices@, k));
                let held = choose|held: RankEntry| #[trigger]
                    advance_choices@.count(held) > 0 && held.slot == k;
                assert(stream.advance_choices@.count(held) > 0);
            }
            lemma_nothing_marked(stream.seen@);
            assert forall|ordinal: int| #[trigger] stream.held().contains(ordinal) <==> 0 <= ordinal
                < count by {}
            if zero_query_cursor is None {
                assert(!is_zero(query@[active_coordinates@[0].coordinate as int]));
            }
            assert forall|model: ThresholdModel, scores: spec_fn(int) -> Option<i64>| #[trigger]
                models_query(*index, query@, *arithmetic, model, scores) implies stream.is_admissible(
                model,
                scores,
            ) by {
                lemma_parts_fall(*index, query@, *arithmetic, active_coordinates@, model, scores);
                assert forall|ordinal: int| 0 <= ordinal < index.documents().len() implies model.is_within(
                    #[trigger] scores(ordinal),
                    walked_sum(
                        active_coordinates@,
                        model,
                        ordinal,
                        active_coordinates@.len() as int,
                    ),
                ) by {
                    assert(model.is_within(
                        scores(ordinal),
                        query_sum(query@, model, ordinal, query@.len() as int),
                    ));
                }
            }
        }
        Ok(stream)
    }

    /// Takes one step of the walk that lowers the threshold most.
    fn advance(&mut self)
        requires
            old(self).wf(),
            !old(self).all_seen,
            old(self).zero_query_cursor is None,
        ensures
            final(self).wf(),
            final(self).index == old(self).index,
            final(self).arithmetic == old(self).arithmetic,
            final(self).scorer == old(self).scorer,
            final(self).zero_query_cursor is None,
            final(self).held() == old(self).held(),
            forall|model: ThresholdModel, scores: spec_fn(int) -> Option<i64>| #[trigger]
                old(self).is_admissible(model, scores) ==> final(self).is_admissible(
                    model,
                    scores,
                ),
            final(self).telemetry.points_emitted == old(self).telemetry.points_emitted,
            final(self).active_coordinates@.len() == old(self).active_coordinates@.len(),
            steps_left(
                final(self).active_coordinates@,
                final(self).index.documents().len() as int,
                final(self).active_coordinates@.len() as int,
            ) < steps_left(
                old(self).active_coordinates@,
                old(self).index.documents().len() as int,
                old(self).active_coordinates@.len() as int,
            ),
    {
        let ghost before = *self;
        let ghost documents = self.index.documents();
        let choice = match self.advance_choices.pop() {
            Some(choice) => choice,
            None => {
                proof {
                    assert(self.has_choice(0));
                    let held = choose|held: RankEntry| #[trigger]
                        before.advance_choices@.count(held) > 0 && held.slot == 0;
                    assert(before.advance_choices@.len() > 0);
                }
                return;
            },
        };
        let walk: usize = choice.slot;
        proof {
            assert(before.advance_choices@.count(choice) > 0);
        }
        let active = self.active_coordinates[walk];
        let ordinal: usize = active.ordinal(self.index);
        let old_frontier: i64 = self.arithmetic.contribution_of(
            active.coordinate,
            ordinal,
            Ghost(self.index.dims()),
            Ghost(self.index.documents().len()),
        );
        self.telemetry.sequential_accesses = self.telemetry.sequential_accesses.saturating_add(1);
        if self.seen[ordinal] {
            self.telemetry.duplicate_accesses = self.telemetry.duplicate_accesses.saturating_add(
                1,
            );
        } else {
            let score: i64 = self.scorer.key(ordinal);
            proof {
                lemma_one_marked(self.seen@, ordinal as int);
            }
            self.seen.set(ordinal, true);
            self.telemetry.exact_scores = self.telemetry.exact_scores.saturating_add(1);
            let entry = RankEntry {
                score,
                id: ExtendedPointId::NumId(self.index.documents[ordinal].id as u64),
                slot: ordinal,
            };
            self.pending_exact.push(entry);
            self.scores = Ghost(self.scores@.insert(ordinal as int, score));
            proof {
                assert(!before.scores@.contains_key(ordinal as int));
                assert forall|other: RankEntry| #[trigger]
                    self.pending_exact@.count(other) == (if self.is_pending(other) {
                        1nat
                    } else {
                        0nat
                    }) by {
                    assert(before.pending_exact@.count(other) == (if before.is_pending(other) {
                        1nat
                    } else {
                        0nat
                    }));
                }
            }
        }
        let ghost marked = *self;
        let moved = ActiveCoordinate { cursor: active.cursor + 1, ..active };
        self.active_coordinates.set(walk, moved);
        self.telemetry.threshold_updates = self.telemetry.threshold_updates.saturating_add(1);
        proof {
            lemma_step_taken(
                before.active_coordinates@,
                documents.len() as int,
                walk as int,
                before.active_coordinates@.len() as int,
            );
            assert forall|i: int, place: int|
                0 <= i < self.active_coordinates@.len() && 0 <= place
                    < self.active_coordinates@[i].cursor implies self.seen@[
            #[trigger] self.active_coordinates@[i].ordinal_at(*self.index, place)] by {
                if i == walk as int && place == active.cursor {
                    assert(self.active_coordinates@[i].ordinal_at(*self.index, place)
                        == active.ordinal_at(*self.index, place));
                } else {
                    assert(before.active_coordinates@[i].ordinal_at(*self.index, place)
                        == self.active_coordinates@[i].ordinal_at(*self.index, place));
                    assert(before.seen@[before.active_coordinates@[i].ordinal_at(
                        *self.index,
                        place,
                    )]);
                }
            }
            assert(self.held() =~= before.held());
        }
        if moved.cursor == self.index.documents.len() {
            self.all_seen = true;
            self.unseen_upper_bound = -INFINITE_KEY;
            proof {
                self.lemma_complete_walk_sees_all(walk as int);
                assert(self.held() =~= before.held());
                assert(same_walks(before.active_coordinates@, self.active_coordinates@));
                assert forall|model: ThresholdModel, scores: spec_fn(int) -> Option<i64>|
                    #[trigger] before.is_admissible(model, scores) implies self.is_admissible(
                    model,
                    scores,
                ) by {
                    lemma_same_walks(
                        *self.index,
                        before.active_coordinates@,
                        self.active_coordinates@,
                        model,
                    );
                    self.lemma_sums_stay(&before, model, scores);
                }
            }
            return;
        }
        let new_frontier: i64 = self.arithmetic.contribution_of(
            moved.coordinate,
            moved.ordinal(self.index),
            Ghost(self.index.dims()),
            Ghost(self.index.documents().len()),
        );
        let replace = &self.arithmetic.replace;
        let lowered: i64 = replace(self.unseen_upper_bound, old_frontier, new_frontier);
        assert(self.arithmetic.replace.ensures(
            (before.unseen_upper_bound, old_frontier, new_frontier),
            lowered,
        ));
        self.unseen_upper_bound = lowered;
        let drop: i64 = threshold_drop(moved, self.index, self.arithmetic);
        let entry = RankEntry {
            score: drop,
            id: ExtendedPointId::NumId(moved.coordinate as u64),
            slot: walk,
        };
        let ghost popped = self.advance_choices@;
        self.advance_choices.push(entry);
        proof {
            assert(same_walks(before.active_coordinates@, self.active_coordinates@));
            assert forall|model: ThresholdModel, scores: spec_fn(int) -> Option<i64>| #[trigger]
                before.is_admissible(model, scores) implies self.is_admissible(model, scores) by {
                lemma_same_walks(
                    *self.index,
                    before.active_coordinates@,
                    self.active_coordinates@,
                    model,
                );
                self.lemma_sums_stay(&before, model, scores);
                lemma_frontier_moves(
                    *self.index,
                    before.active_coordinates@,
                    model,
                    walk as int,
                    moved,
                    before.active_coordinates@.len() as int,
                );
                assert((model.value)(old_frontier) == (model.part)(
                    active.coordinate as int,
                    active.ordinal_at(*self.index, active.cursor as int),
                ));
                assert((model.value)(new_frontier) == (model.part)(
                    moved.coordinate as int,
                    moved.ordinal_at(*self.index, moved.cursor as int),
                ));
            }
            assert(self.held() =~= before.held());
            assert forall|k: int| 0 <= k < self.active_coordinates@.len() implies self.has_choice(
                k,
            ) by {
                if k == walk as int {
                    assert(self.advance_choices@.count(entry) > 0);
                } else {
                    assert(before.has_choice(k));
                    let held = choose|held: RankEntry| #[trigger]
                        before.advance_choices@.count(held) > 0 && held.slot == k;
                    assert(popped.count(held) == before.advance_choices@.count(held));
                    assert(self.advance_choices@.count(held) > 0);
                }
            }
            assert forall|other: RankEntry| #[trigger]
                self.advance_choices@.count(other) > 0 implies other.slot
                < self.active_coordinates@.len() by {
                if other != entry {
                    assert(before.advance_choices@.count(other) > 0);
                }
            }
        }
    }

    /// Scores stay below the sums of their parts while walks move.
    proof fn lemma_sums_stay(
        &self,
        before: &Self,
        model: ThresholdModel,
        scores: spec_fn(int) -> Option<i64>,
    )
        requires
            before.is_admissible(model, scores),
            self.index == before.index,
            same_walks(before.active_coordinates@, self.active_coordinates@),
        ensures
            forall|ordinal: int|
                0 <= ordinal < self.index.documents().len() ==> model.is_within(
                    #[trigger] scores(ordinal),
                    walked_sum(
                        self.active_coordinates@,
                        model,
                        ordinal,
                        self.active_coordinates@.len() as int,
                    ),
                ),
    {
        assert forall|ordinal: int| 0 <= ordinal < self.index.documents().len() implies model.is_within(
            #[trigger] scores(ordinal),
            walked_sum(
                self.active_coordinates@,
                model,
                ordinal,
                self.active_coordinates@.len() as int,
            ),
        ) by {
            lemma_same_sums(
                before.active_coordinates@,
                self.active_coordinates@,
                model,
                ordinal,
                self.active_coordinates@.len() as int,
            );
        }
    }

    /// The threshold of a model that explains the stream bounds what was not seen: along
    /// every walk, a document that was not seen stands at the frontier or behind it.
    proof fn lemma_admissible_is_bounded(
        &self,
        model: ThresholdModel,
        scores: spec_fn(int) -> Option<i64>,
    )
        requires
            self.wf(),
            self.zero_query_cursor is None,
            self.is_admissible(model, scores),
        ensures
            self.is_bounded(scores),
    {
        let active = self.active_coordinates@;
        assert forall|ordinal: int| #[trigger] self.unseen().contains(ordinal) implies scores(
            ordinal,
        )->0 <= self.threshold() by {
            assert(!self.all_seen);
            self.lemma_walked_below(model, scores, ordinal, active.len() as int);
            assert(model.is_within(
                scores(ordinal),
                walked_sum(active, model, ordinal, active.len() as int),
            ));
            if self.unseen_upper_bound != INFINITE_KEY {
                assert((model.value)(scores(ordinal)->0) <= (model.value)(
                    self.unseen_upper_bound,
                ));
            }
        }
    }

    proof fn lemma_walked_below(
        &self,
        model: ThresholdModel,
        scores: spec_fn(int) -> Option<i64>,
        ordinal: int,
        upto: int,
    )
        requires
            self.wf(),
            self.zero_query_cursor is None,
            !self.all_seen,
            self.is_admissible(model, scores),
            self.unseen().contains(ordinal),
            0 <= upto <= self.active_coordinates@.len(),
        ensures
            walked_sum(self.active_coordinates@, model, ordinal, upto) <= frontier_sum(
                *self.index,
                self.active_coordinates@,
                model,
                upto,
            ),
        decreases upto,
    {
        if upto > 0 {
            self.lemma_walked_below(model, scores, ordinal, upto - 1);
            let walk = self.active_coordinates@[upto - 1];
            let count = self.index.documents().len() as int;
            let order = self.index.orders()[walk.coordinate as int]@;
            assert(is_coordinate_order(self.index.documents(), walk.coordinate as int, order)) by {
                let _ = self.index.coordinate_orders@[walk.coordinate as int];
            }
            assert(order.contains(ordinal as u32));
            let at = choose|at: int| 0 <= at < order.len() && order[at] == ordinal as u32;
            let place = if walk.reverse {
                count - 1 - at
            } else {
                at
            };
            assert(walk.ordinal_at(*self.index, place) == ordinal);
            if place < walk.cursor {
                assert(self.seen@[self.active_coordinates@[upto - 1].ordinal_at(
                    *self.index,
                    place,
                )]);
            }
            assert((model.part)(
                walk.coordinate as int,
                self.active_coordinates@[upto - 1].ordinal_at(*self.index, walk.cursor as int),
            ) >= (model.part)(
                walk.coordinate as int,
                self.active_coordinates@[upto - 1].ordinal_at(*self.index, place),
            ));
        }
    }

    /// A walk that has come to its end has seen every document.
    proof fn lemma_complete_walk_sees_all(&self, walk: int)
        requires
            self.index.wf(),
            self.seen@.len() == self.index.documents().len(),
            0 <= walk < self.active_coordinates@.len(),
            self.active_coordinates@[walk].coordinate < self.index.dims(),
            self.active_coordinates@[walk].cursor == self.index.documents().len(),
            forall|place: int|
                0 <= place < self.active_coordinates@[walk].cursor
                    ==> self.seen@[#[trigger] self.active_coordinates@[walk].ordinal_at(
                    *self.index,
                    place,
                )],
        ensures
            forall|ordinal: int|
                0 <= ordinal < self.index.documents().len() ==> #[trigger] self.seen@[ordinal],
    {
        let active = self.active_coordinates@[walk];
        let order = self.index.orders()[active.coordinate as int]@;
        let count = self.index.documents().len() as int;
        assert(is_coordinate_order(self.index.documents(), active.coordinate as int, order)) by {
            let _ = self.index.coordinate_orders@[active.coordinate as int];
        }
        assert forall|ordinal: int| 0 <= ordinal < count implies #[trigger] self.seen@[ordinal] by {
            assert(order.contains(ordinal as u32));
            let at = choose|at: int| 0 <= at < order.len() && order[at] == ordinal as u32;
            let place = if active.reverse {
                count - 1 - at
            } else {
                at
            };
            assert(active.ordinal_at(*self.index, place) == ordinal);
        }
    }

    /// Takes the best pending document.
    fn emit(&mut self) -> (result: Option<DenseScoredPoint>)
        requires
            old(self).wf(),
            old(self).zero_query_cursor is None,
        ensures
            final(self).wf(),
            final(self).index == old(self).index,
            final(self).arithmetic == old(self).arithmetic,
            final(self).active_coordinates@ == old(self).active_coordinates@,
            final(self).scorer == old(self).scorer,
            final(self).zero_query_cursor is None,
            final(self).unseen_upper_bound == old(self).unseen_upper_bound,
            final(self).seen@ == old(self).seen@,
            final(self).all_seen == old(self).all_seen,
            final(self).telemetry.points_emitted == (if result is Some {
                old(self).telemetry.points_emitted.saturating_add(1)
            } else {
                old(self).telemetry.points_emitted
            }),
            match result {
                Some(found) => exists|ordinal: int|
                    {
                        &&& #[trigger] old(self).scores@.contains_key(ordinal)
                        &&& old(self).scores@[ordinal] == found.score
                        &&& found.id == old(self).index.documents()[ordinal].id
                        &&& final(self).scores@ == old(self).scores@.remove(ordinal)
                        &&& forall|other: int| #[trigger]
                            old(self).scores@.contains_key(other) && other != ordinal
                                ==> document_before(
                                old(self).index.documents(),
                                ordinal,
                                found.score,
                                other,
                                old(self).scores@[other],
                            )
                    },
                None => old(self).scores@ == Map::<int, i64>::empty() && final(self).scores@
                    == old(self).scores@,
            },
    {
        let ghost before = *self;
        let ghost documents = self.index.documents();
        match self.pending_exact.pop() {
            Some(entry) => {
                let ordinal: usize = entry.slot;
                proof {
                    assert(before.pending_exact@.count(entry) > 0);
                    assert(before.is_pending(entry));
                    assert(before.scores@.contains_key(ordinal as int));
                    assert forall|other: int| #[trigger]
                        before.scores@.contains_key(other) && other != ordinal as int implies document_before(
                        documents,
                        ordinal as int,
                        entry.score,
                        other,
                        before.scores@[other],
                    ) by {
                        let rival = RankEntry {
                            score: before.scores@[other],
                            id: ExtendedPointId::NumId(documents[other].id as u64),
                            slot: other as usize,
                        };
                        assert(before.is_pending(rival));
                        assert(before.pending_exact@.count(rival) == 1);
                        assert(before.pending_exact@.contains(rival));
                        assert(!rival.precedes(entry));
                        if other < ordinal {
                            assert(documents[other].id < documents[ordinal as int].id);
                        } else {
                            assert(documents[ordinal as int].id < documents[other].id);
                        }
                    }
                }
                self.scores = Ghost(self.scores@.remove(ordinal as int));
                self.telemetry.points_emitted = self.telemetry.points_emitted.saturating_add(1);
                proof {
                    assert forall|other: RankEntry| #[trigger]
                        self.pending_exact@.count(other) == (if self.is_pending(other) {
                            1nat
                        } else {
                            0nat
                        }) by {
                        assert(before.pending_exact@.count(other) == (if before.is_pending(other) {
                            1nat
                        } else {
                            0nat
                        }));
                    }
                }
                proof {
                    assert forall|other: int| #[trigger]
                        self.scores@.contains_key(other) implies {
                        &&& 0 <= other < documents.len()
                        &&& self.seen@[other]
                        &&& self.scorer.gives(other, self.scores@[other])
                    } by {
                        assert(before.scores@.contains_key(other));
                    }
                    assert forall|i: int, place: int|
                        0 <= i < self.active_coordinates@.len() && 0 <= place
                            < self.active_coordinates@[i].cursor implies self.seen@[
                    #[trigger] self.active_coordinates@[i].ordinal_at(*self.index, place)] by {
                        assert(before.seen@[before.active_coordinates@[i].ordinal_at(
                            *before.index,
                            place,
                        )]);
                    }
                    assert forall|k: int|
                        before.has_choice(k) implies #[trigger] self.has_choice(k) by {
                        let held = choose|held: RankEntry| #[trigger]
                            before.advance_choices@.count(held) > 0 && held.slot == k;
                        assert(self.advance_choices@.count(held) > 0);
                    }
                }
                Some(
                    DenseScoredPoint {
                        id: self.index.documents[ordinal].id,
                        score: entry.score,
                    },
                )
            },
            None => {
                proof {
                    assert forall|ordinal: int| !self.scores@.contains_key(ordinal) by {
                        if self.scores@.contains_key(ordinal) {
                            let entry = RankEntry {
                                score: before.scores@[ordinal],
                                id: ExtendedPointId::NumId(documents[ordinal].id as u64),
                                slot: ordinal as usize,
                            };
                            assert(before.is_pending(entry));
                            assert(before.pending_exact@.count(entry) == 1);
                        }
                    }
                    assert(self.scores@ =~= Map::<int, i64>::empty());
                    assert forall|k: int|
                        before.has_choice(k) implies #[trigger] self.has_choice(k) by {
                        let held = choose|held: RankEntry| #[trigger]
                            before.advance_choices@.count(held) > 0 && held.slot == k;
                        assert(self.advance_choices@.count(held) > 0);
                    }
                }
                None
            },
        }
    }

    /// Whether a document is pending and belongs before all other pending ones.
    closed spec fn leads_pending(&self, ordinal: int) -> bool {
        &&& self.scores@.contains_key(ordinal)
        &&& forall|other: int| #[trigger]
            self.scores@.contains_key(other) && other != ordinal ==> document_before(
                self.index.documents(),
                ordinal,
                self.scores@[ordinal],
                other,
                self.scores@[other],
            )
    }

    /// Whether the best pending document is above the threshold, or every document was
    /// seen.
    fn next_point_is_fixed(&self) -> (fixed: bool)
        requires
            self.wf(),
        ensures
            fixed == (exists|ordinal: int| #[trigger]
                self.leads_pending(ordinal) && (self.all_seen || self.scores@[ordinal]
                    > self.unseen_upper_bound)),
    {
        match self.pending_exact.peek() {
            Some(entry) => {
                let fixed = self.all_seen || entry.score > self.unseen_upper_bound;
                proof {
                    let best = entry.slot as int;
                    let documents = self.index.documents();
                    assert(self.pending_exact@.count(entry) > 0);
                    assert(self.is_pending(entry));
                    assert(self.leads_pending(best)) by {
                        assert forall|other: int| #[trigger]
                            self.scores@.contains_key(other) && other != best implies document_before(
                            documents,
                            best,
                            entry.score,
                            other,
                            self.scores@[other],
                        ) by {
                            let rival = RankEntry {
                                score: self.scores@[other],
                                id: ExtendedPointId::NumId(documents[other].id as u64),
                                slot: other as usize,
                            };
                            assert(self.is_pending(rival));
                            assert(self.pending_exact@.count(rival) == 1);
                            assert(self.pending_exact@.contains(rival));
                            assert(!rival.precedes(entry));
                            if other < best {
                                assert(documents[other].id < documents[best].id);
                            } else {
                                assert(documents[best].id < documents[other].id);
                            }
                        }
                    }
                    assert forall|ordinal: int| #[trigger]
                        self.leads_pending(ordinal) implies ordinal == best by {
                        assert(self.scores@.contains_key(ordinal));
                        assert(self.scores@.contains_key(best));
                    }
                }
                fixed
            },
            None => {
                proof {
                    assert forall|ordinal: int| !#[trigger] self.leads_pending(ordinal) by {
                        if self.leads_pending(ordinal) {
                            let entry = RankEntry {
                                score: self.scores@[ordinal],
                                id: ExtendedPointId::NumId(
                                    self.index.documents()[ordinal].id as u64,
                                ),
                                slot: ordinal as usize,
                            };
                            assert(self.is_pending(entry));
                            assert(self.pending_exact@.count(entry) == 1);
                        }
                    }
                }
                false
            },
        }
    }

    /// The next document of the exact order; `None` at the end. It is the first of all that
    /// are left wherever the threshold bounds what was not seen, and the threshold does so
    /// under every model that explains the stream.
    pub fn next(&mut self) -> (result: Option<DenseScoredPoint>)
        requires
            old(self).wf(),
        ensures
            final(self).wf(),
            final(self).documents() == old(self).documents(),
            final(self).scorer() == old(self).scorer(),
            final(self).is_zero_query() == old(self).is_zero_query(),
            forall|model: ThresholdModel, scores: spec_fn(int) -> Option<i64>| #[trigger]
                old(self).is_admissible(model, scores) ==> final(self).is_admissible(
                    model,
                    scores,
                ),
            final(self).counted().points_emitted == (if result is Some {
                old(self).counted().points_emitted.saturating_add(1)
            } else {
                old(self).counted().points_emitted
            }),
            match result {
                Some(found) => exists|ordinal: int|
                    {
                        &&& #[trigger] old(self).held().contains(ordinal)
                        &&& 0 <= ordinal < old(self).documents().len()
                        &&& found.id == old(self).documents()[ordinal].id
                        &&& final(self).held() == old(self).held().remove(ordinal)
                        &&& old(self).is_zero_query() ==> found.score == 0 && forall|other: int|
                            #[trigger]
                            old(self).held().contains(other) && other != ordinal ==> found.id
                                < old(self).documents()[other].id
                        &&& !old(self).is_zero_query() ==> {
                            &&& old(self).scorer().gives(ordinal, found.score)
                            &&& forall|
                                model: ThresholdModel,
                                scores: spec_fn(int) -> Option<i64>,
                            | #[trigger]
                                old(self).is_admissible(model, scores) && scores_exactly(
                                    old(self).scorer(),
                                    old(self).documents().len(),
                                    scores,
                                ) ==> is_first_document(
                                    old(self).documents(),
                                    scores,
                                    old(self).held(),
                                    ordinal,
                                )
                            &&& forall|scores: spec_fn(int) -> Option<i64>|
                                scores_exactly(
                                    old(self).scorer(),
                                    old(self).documents().len(),
                                    scores,
                                ) && #[trigger] final(self).is_bounded(scores)
                                    ==> is_first_document(
                                    old(self).documents(),
                                    scores,
                                    old(self).held(),
                                    ordinal,
                                )
                        }
                    },
                None => old(self).held() == Set::<int>::empty() && final(self).held() == old(self).held(),
            },
    {
        match self.zero_query_cursor {
            Some(cursor) => {
                if cursor >= self.index.documents.len() {
                    assert(self.held() =~= Set::<int>::empty());
                    return None;
                }
                let id: u32 = self.index.documents[cursor].id;
                self.zero_query_cursor = Some(cursor + 1);
                self.telemetry.points_emitted = self.telemetry.points_emitted.saturating_add(1);
                proof {
                    assert(self.held() =~= old(self).held().remove(cursor as int));
                    assert(old(self).held().contains(cursor as int));
                }
                return Some(DenseScoredPoint { id, score: 0 });
            },
            None => {},
        }
        loop
            invariant
                self.wf(),
                self.index == old(self).index,
                self.scorer == old(self).scorer,
                self.zero_query_cursor is None,
                old(self).zero_query_cursor is None,
                self.held() == old(self).held(),
                forall|model: ThresholdModel, scores: spec_fn(int) -> Option<i64>| #[trigger]
                    old(self).is_admissible(model, scores) ==> self.is_admissible(model, scores),
                self.telemetry.points_emitted == old(self).telemetry.points_emitted,
            decreases
                    steps_left(
                        self.active_coordinates@,
                        self.index.documents().len() as int,
                        self.active_coordinates@.len() as int,
                    ),
        {
            let fixed = self.next_point_is_fixed();
            if fixed || self.all_seen {
                let ghost before = *self;
                let result = self.emit();
                proof {
                    match result {
                        Some(found) => {
                            let ordinal = choose|ordinal: int|
                                {
                                    &&& #[trigger] before.scores@.contains_key(ordinal)
                                    &&& before.scores@[ordinal] == found.score
                                    &&& found.id == before.index.documents()[ordinal].id
                                    &&& self.scores@ == before.scores@.remove(ordinal)
                                    &&& forall|other: int| #[trigger]
                                        before.scores@.contains_key(other) && other != ordinal
                                            ==> document_before(
                                            before.index.documents(),
                                            ordinal,
                                            found.score,
                                            other,
                                            before.scores@[other],
                                        )
                                };
                            assert(before.scores@.contains_key(ordinal));
                            assert(before.held().contains(ordinal));
                            assert(self.held() =~= before.held().remove(ordinal));
                            assert forall|
                                model: ThresholdModel,
                                scores: spec_fn(int) -> Option<i64>,
                            | #[trigger]
                                old(self).is_admissible(model, scores) && scores_exactly(
                                    self.scorer,
                                    before.index.documents().len(),
                                    scores,
                                ) implies is_first_document(
                                before.index.documents(),
                                scores,
                                before.held(),
                                ordinal,
                            ) by {
                                assert(before.is_admissible(model, scores));
                                before.lemma_admissible_is_bounded(model, scores);
                                assert(self.unseen() =~= before.unseen());
                                assert forall|other: int| #[trigger]
                                    self.unseen().contains(other) implies scores(other)->0
                                    <= self.threshold() by {
                                    assert(before.unseen().contains(other));
                                }
                                before.lemma_emitted_is_first(
                                    self,
                                    scores,
                                    ordinal,
                                    found.score,
                                );
                            }
                            assert forall|scores: spec_fn(int) -> Option<i64>|
                                scores_exactly(
                                    self.scorer,
                                    before.index.documents().len(),
                                    scores,
                                ) && #[trigger] self.is_bounded(scores) implies is_first_document(
                                before.index.documents(),
                                scores,
                                before.held(),
                                ordinal,
                            ) by {
                                before.lemma_emitted_is_first(
                                    self,
                                    scores,
                                    ordinal,
                                    found.score,
                                );
                            }
                        },
                        None => {
                            before.lemma_nothing_held();
                            assert(self.held() =~= before.held());
                        },
                    }
                }
                return result;
            }
            proof {
                lemma_steps_are_not_negative(
                    self.active_coordinates@,
                    self.index.documents().len() as int,
                    self.active_coordinates@.len() as int,
                );
            }
            self.advance();
            proof {
                lemma_steps_are_not_negative(
                    self.active_coordinates@,
                    self.index.documents().len() as int,
                    self.active_coordinates@.len() as int,
                );
            }
        }
    }

    /// The best pending document is the first of all where what was not seen is
    /// bounded below its score.
    proof fn lemma_emitted_is_first(
        &self,
        after: &DenseThresholdStream<'a, ThresholdArithmetic<K, X, Y, D>, F>,
        scores: spec_fn(int) -> Option<i64>,
        ordinal: int,
        score: i64,
    )
        requires
            self.wf(),
            self.zero_query_cursor is None,
            after.unseen_upper_bound == self.unseen_upper_bound,
            after.seen@ == self.seen@,
            scores_exactly(self.scorer, self.index.documents().len(), scores),
            after.is_bounded(scores),
            self.scores@.contains_key(ordinal),
            self.scores@[ordinal] == score,
            forall|other: int| #[trigger]
                self.scores@.contains_key(other) && other != ordinal ==> document_before(
                    self.index.documents(),
                    ordinal,
                    score,
                    other,
                    self.scores@[other],
                ),
            self.all_seen || score > self.unseen_upper_bound,
        ensures
            is_first_document(self.index.documents(), scores, self.held(), ordinal),
    {
        assert(self.scorer.gives(ordinal, score));
        assert(scores(ordinal) == Some(score));
        assert forall|other: int| #[trigger] self.held().contains(other) && other
            != ordinal implies document_before(
            self.index.documents(),
            ordinal,
            scores(ordinal)->0,
            other,
            scores(other)->0,
        ) by {
            if self.scores@.contains_key(other) {
                assert(self.scorer.gives(other, self.scores@[other]));
                assert(scores(other) == Some(self.scores@[other]));
            } else {
                assert(!self.seen@[other]);
                assert(after.unseen().contains(other));
            }
        }
    }

    proof fn lemma_nothing_held(&self)
        requires
            self.wf(),
            self.zero_query_cursor is None,
            self.all_seen,
            self.scores@ == Map::<int, i64>::empty(),
        ensures
            self.held() == Set::<int>::empty(),
    {
        assert(self.held() =~= Set::<int>::empty()) by {
            assert forall|ordinal: int| !self.held().contains(ordinal) by {
                if 0 <= ordinal < self.index.documents().len() {
                    assert(self.seen@[ordinal]);
                }
            }
        }
    }

    /// What the stream has done.
    pub fn telemetry(&self) -> (telemetry: DenseThresholdTelemetry)
        requires
            self.wf(),
        ensures
            telemetry == self.counted(),
            telemetry.exact_scores + self.unseen().len() == self.documents().len(),
            telemetry.threshold_updates == telemetry.sequential_accesses,
            telemetry.sequential_accesses < usize::MAX ==> telemetry.exact_scores
                + telemetry.duplicate_accesses == telemetry.sequential_accesses,
    {
        self.telemetry
    }
}

/// Whether a queue holds an entry of a walk.
pub open spec fn has_slot(queue: vstd::multiset::Multiset<RankEntry>, walk: int) -> bool {
    exists|entry: RankEntry| #[trigger] queue.count(entry) > 0 && entry.slot == walk
}

/// Whether a drop is how much the next step of a walk lowers the threshold.
pub open spec fn is_drop<
    K: Fn(usize, usize) -> i64,
    X: Fn(i64, i64) -> i64,
    Y: Fn(i64, i64, i64) -> i64,
    D: Fn(i64, i64) -> i64,
>(
    active: ActiveCoordinate,
    index: DenseThresholdIndex,
    arithmetic: ThresholdArithmetic<K, X, Y, D>,
    drop: i64,
) -> bool {
    if active.cursor + 1 < index.documents().len() {
        exists|here: i64, next: i64|
            {
                &&& arithmetic.contribution.ensures(
                    (
                        active.coordinate,
                        active.ordinal_at(index, active.cursor as int) as usize,
                    ),
                    here,
                )
                &&& arithmetic.contribution.ensures(
                    (
                        active.coordinate,
                        active.ordinal_at(index, active.cursor + 1) as usize,
                    ),
                    next,
                )
                &&& #[trigger] arithmetic.reduction.ensures((here, next), drop)
            }
    } else {
        drop == INFINITE_KEY
    }
}

/// How much the next step of a walk lowers the threshold; the last step has no
/// successor and comes first.
fn threshold_drop<
    K: Fn(usize, usize) -> i64,
    X: Fn(i64, i64) -> i64,
    Y: Fn(i64, i64, i64) -> i64,
    D: Fn(i64, i64) -> i64,
>(
    active: ActiveCoordinate,
    index: &DenseThresholdIndex,
    arithmetic: &ThresholdArithmetic<K, X, Y, D>,
) -> (drop: i64)
    requires
        arithmetic.answers(index.dims(), index.documents().len()),
        index.wf(),
        active.coordinate < index.dims(),
        active.cursor < index.documents().len(),
    ensures
        is_drop(active, *index, *arithmetic, drop),
{
    if active.cursor + 1 < index.documents.len() {
        let following = ActiveCoordinate { cursor: active.cursor + 1, ..active };
        let ghost dimension = index.dims();
        let ghost count = index.documents().len();
        let here: i64 = arithmetic.contribution_of(
            active.coordinate,
            active.ordinal(index),
            Ghost(dimension),
            Ghost(count),
        );
        let next: i64 = arithmetic.contribution_of(
            active.coordinate,
            following.ordinal(index),
            Ghost(dimension),
            Ghost(count),
        );
        let reduce = &arithmetic.reduction;
        let reduction: i64 = reduce(here, next);
        assert(is_drop(active, *index, *arithmetic, reduction));
        reduction
    } else {
        INFINITE_KEY
    }
}

/// Whether a stream stands before its first document.
pub open spec fn is_fresh<
    'a,
    K: Fn(usize, usize) -> i64,
    X: Fn(i64, i64) -> i64,
    Y: Fn(i64, i64, i64) -> i64,
    D: Fn(i64, i64) -> i64,
    F: KeySource,
>(
    index: DenseThresholdIndex,
    query: Seq<u32>,
    arithmetic: ThresholdArithmetic<K, X, Y, D>,
    scorer: F,
    stream: DenseThresholdStream<'a, ThresholdArithmetic<K, X, Y, D>, F>,
) -> bool {
    &&& stream.wf()
    &&& forall|model: ThresholdModel, scores: spec_fn(int) -> Option<i64>| #[trigger]
        models_query(index, query, arithmetic, model, scores) ==> stream.is_admissible(
            model,
            scores,
        )
    &&& stream.documents() == index.documents()
    &&& stream.scorer() == scorer
    &&& stream.is_zero_query() <==> forall|i: int|
        0 <= i < query.len() ==> is_zero(#[trigger] query[i])
    &&& stream.counted() == (DenseThresholdTelemetry {
        sequential_accesses: 0,
        duplicate_accesses: 0,
        exact_scores: 0,
        threshold_updates: 0,
        points_emitted: 0,
    })
    &&& forall|ordinal: int| #[trigger]
        stream.held().contains(ordinal) <==> 0 <= ordinal < index.documents().len()
}

impl DenseThresholdIndex {
    /// A lazy exact stream for a query.
    pub fn stream<
        'a,
        K: Fn(usize, usize) -> i64,
        X: Fn(i64, i64) -> i64,
        Y: Fn(i64, i64, i64) -> i64,
        D: Fn(i64, i64) -> i64,
        F: KeySource,
    >(
        &'a self,
        query: &Vec<u32>,
        arithmetic: &'a ThresholdArithmetic<K, X, Y, D>,
        scorer: F,
    ) -> (result: Result<
        DenseThresholdStream<'a, ThresholdArithmetic<K, X, Y, D>, F>,
        DenseThresholdError,
    >)
        requires
            arithmetic.answers(self.dims(), self.documents().len()),
            forall|ordinal: int|
                0 <= ordinal < self.documents().len() ==> #[trigger] scorer.defined(ordinal),
        ensures
            result is Err <==> !is_query(query@, self.dims()),
            result matches Err(error) ==> error == DenseThresholdError::InvalidQuery,
            result matches Ok(stream) ==> is_fresh(*self, query@, *arithmetic, scorer, stream),
    {
        DenseThresholdStream::new(self, query, arithmetic, scorer)
    }
}

/// What a coordinate adds to the score of a document that is scored by the places of its
/// coordinates: the place on the number line, or its opposite where the query is negative.
pub open spec fn place_part(
    index: DenseThresholdIndex,
    query: Seq<u32>,
    coordinate: int,
    ordinal: int,
) -> int {
    let place = coordinate_key(index.documents()[ordinal].vector@[coordinate]);
    if query[coordinate] >= 0x8000_0000 {
        -place
    } else {
        place
    }
}

/// The model of scores by places: keys are whole numbers and stand for themselves.
pub open spec fn place_model(index: DenseThresholdIndex, query: Seq<u32>) -> ThresholdModel {
    ThresholdModel {
        value: |key: i64| key as int,
        part: |coordinate: int, ordinal: int| place_part(index, query, coordinate, ordinal),
    }
}

/// The score of a document by the places of its coordinates.
pub open spec fn place_score(
    index: DenseThresholdIndex,
    query: Seq<u32>,
    ordinal: int,
) -> int {
    query_sum(query, place_model(index, query), ordinal, query.len() as int)
}

/// A bound after a change: infinite where it is no finite key.
pub open spec fn whole_bound(bound: i64, change: int) -> i64 {
    if finite_key(bound) && -INFINITE_KEY < bound + change < INFINITE_KEY {
        (bound + change) as i64
    } else {
        INFINITE_KEY
    }
}

/// A bound after a change.
fn changed_bound(bound: i64, after: i64, before: i64) -> (sum: i64)
    ensures
        sum == whole_bound(bound, after - before),
{
    let sum: i128 = bound as i128 + after as i128 - before as i128;
    let limit: i128 = INFINITE_KEY as i128;
    if -INFINITE_KEY < bound && bound < INFINITE_KEY && -limit < sum && sum < limit {
        sum as i64
    } else {
        INFINITE_KEY
    }
}

/// How much lower the second of two keys is, at least 0.
fn fall(before: i64, after: i64) -> (drop: i64)
    ensures
        drop >= 0,
{
    if after < before {
        let drop: i128 = before as i128 - after as i128;
        if drop < INFINITE_KEY as i128 {
            drop as i64
        } else {
            INFINITE_KEY
        }
    } else {
        0
    }
}

/// Scores by places are small.
proof fn lemma_place_scores_fit(
    index: DenseThresholdIndex,
    query: Seq<u32>,
    ordinal: int,
    upto: int,
)
    requires
        0 <= upto <= query.len(),
    ensures
        -(upto * 0x8000_0000) <= query_sum(query, place_model(index, query), ordinal, upto) <= upto
            * 0x8000_0000,
    decreases upto,
{
    if upto > 0 {
        lemma_place_scores_fit(index, query, ordinal, upto - 1);
        let model = place_model(index, query);
        assert((model.part)(upto - 1, ordinal) == place_part(index, query, upto - 1, ordinal));
    }
}

/// A query of zeros scores nothing.
proof fn lemma_zero_query_scores_nothing(
    query: Seq<u32>,
    model: ThresholdModel,
    ordinal: int,
    upto: int,
)
    requires
        0 <= upto <= query.len(),
        forall|i: int| 0 <= i < query.len() ==> is_zero(#[trigger] query[i]),
    ensures
        query_sum(query, model, ordinal, upto) == 0,
    decreases upto,
{
    if upto > 0 {
        lemma_zero_query_scores_nothing(query, model, ordinal, upto - 1);
        assert(is_zero(query[upto - 1]));
    }
}

/// The scores of all documents by the places of their coordinates.
fn place_scores(index: &DenseThresholdIndex, query: &Vec<u32>) -> (keys: Vec<i64>)
    requires
        is_query(query@, index.dims()),
        index.dims() <= 0x4000_0000,
    ensures
        keys@.len() == index.documents().len(),
        forall|ordinal: int|
            0 <= ordinal < keys@.len() ==> #[trigger] keys@[ordinal] == place_score(
                *index,
                query@,
                ordinal,
            ),
{
    proof {
        use_type_invariant(index);
    }
    let ghost model = place_model(*index, query@);
    let mut keys: Vec<i64> = Vec::new();
    let mut ordinal: usize = 0;
    while ordinal < index.documents.len()
        invariant
            index.wf(),
            is_query(query@, index.dims()),
            index.dims() <= 0x4000_0000,
            model == place_model(*index, query@),
            ordinal <= index.documents().len(),
            keys@.len() == ordinal,
            forall|other: int|
                0 <= other < ordinal ==> #[trigger] keys@[other] == place_score(
                    *index,
                    query@,
                    other,
                ),
        decreases index.documents().len() - ordinal,
    {
        let mut sum: i64 = 0;
        let mut coordinate: usize = 0;
        while coordinate < query.len()
            invariant
                index.wf(),
                is_query(query@, index.dims()),
                index.dims() <= 0x4000_0000,
                model == place_model(*index, query@),
                ordinal < index.documents().len(),
                coordinate <= query@.len(),
                sum == query_sum(query@, model, ordinal as int, coordinate as int),
            decreases query@.len() - coordinate,
        {
            proof {
                lemma_place_scores_fit(*index, query@, ordinal as int, coordinate as int);
                assert((model.part)(coordinate as int, ordinal as int) == place_part(
                    *index,
                    query@,
                    coordinate as int,
                    ordinal as int,
                ));
            }
            if query[coordinate] % 0x8000_0000 != 0 {
                let place: i64 = key_of_coordinate(index.documents[ordinal].vector[coordinate]);
                if query[coordinate] >= 0x8000_0000 {
                    sum = sum - place;
                } else {
                    sum = sum + place;
                }
            }
            coordinate += 1;
        }
        keys.push(sum);
        ordinal += 1;
    }
    keys
}

/// Whether points are all documents in the given order, the highest score by places first.
pub open spec fn is_place_order(
    index: DenseThresholdIndex,
    query: Seq<u32>,
    order: Seq<int>,
    points: Seq<DenseScoredPoint>,
) -> bool {
    &&& points.len() == order.len()
    &&& order.no_duplicates()
    &&& forall|ordinal: int|
        0 <= ordinal < index.documents().len() <==> #[trigger] order.contains(ordinal)
    &&& are_placed(index, query, order, points)
}

/// Whether points are all documents, the highest score by places first.
pub open spec fn has_place_order(
    index: DenseThresholdIndex,
    query: Seq<u32>,
    points: Seq<DenseScoredPoint>,
) -> bool {
    exists|order: Seq<int>| #[trigger] is_place_order(index, query, order, points)
}

/// Whether points are those of the given documents, with their scores by places, each
/// before all that follow.
pub open spec fn are_placed(
    index: DenseThresholdIndex,
    query: Seq<u32>,
    order: Seq<int>,
    points: Seq<DenseScoredPoint>,
) -> bool {
    &&& forall|i: int|
        0 <= i < order.len() ==> {
            &&& 0 <= #[trigger] order[i] < index.documents().len()
            &&& points[i].id == index.documents()[order[i]].id
            &&& points[i].score == place_score(index, query, order[i])
        }
    &&& forall|i: int, j: int|
        0 <= i < j < order.len() ==> document_before(
            index.documents(),
            #[trigger] order[i],
            points[i].score,
            #[trigger] order[j],
            points[j].score,
        )
}

/// All documents in the order of their scores by places. Whole numbers are an arithmetic
/// that rounds up, so the threshold certifies every point.
pub fn order_by_places(index: &DenseThresholdIndex, query: &Vec<u32>) -> (result: Result<
    Vec<DenseScoredPoint>,
    DenseThresholdError,
>)
    requires
        index.dims() <= 0x4000_0000,
    ensures
        match result {
            Ok(points) => is_query(query@, index.dims()) && has_place_order(
                *index,
                query@,
                points@,
            ),
            Err(error) => !is_query(query@, index.dims()) && error
                == DenseThresholdError::InvalidQuery,
        },
{
    proof {
        use_type_invariant(index);
    }
    if query.len() != index.dimension || !is_finite_vector(query) {
        return Err(DenseThresholdError::InvalidQuery);
    }
    let ghost model = place_model(*index, query@);
    let ghost documents = index.documents();
    let ghost scores = |ordinal: int| Some(place_score(*index, query@, ordinal) as i64);
    let scorer = KeyTable { keys: place_scores(index, query) };
    let contribution = |coordinate: usize, ordinal: usize| -> (key: i64)
        requires
            coordinate < index.dims(),
            ordinal < index.documents().len(),
            index.wf(),
            query@.len() == index.dims(),
        ensures
            key == place_part(*index, query@, coordinate as int, ordinal as int),
            finite_key(key),
        {
            let place: i64 = key_of_coordinate(index.documents[ordinal].vector[coordinate]);
            if query[coordinate] >= 0x8000_0000 {
                -place
            } else {
                place
            }
        };
    let extend = |bound: i64, contribution: i64| -> (sum: i64)
        ensures
            sum == whole_bound(bound, contribution as int),
        { changed_bound(bound, contribution, 0) };
    let replace = |bound: i64, before: i64, after: i64| -> (sum: i64)
        ensures
            sum == whole_bound(bound, after - before),
        { changed_bound(bound, after, before) };
    let reduction = |before: i64, after: i64| -> (drop: i64)
        ensures
            drop >= 0,
        { fall(before, after) };
    let arithmetic = ThresholdArithmetic { contribution, extend, replace, reduction };
    proof {
        assert forall|ordinal: int| 0 <= ordinal < documents.len() implies {
            &&& -INFINITE_KEY < #[trigger] place_score(*index, query@, ordinal) < INFINITE_KEY
        } by {
            lemma_place_scores_fit(*index, query@, ordinal, query@.len() as int);
        }
        assert(arithmetic.rounds_up(model));
        assert forall|coordinate: int, left: int, right: int|
            0 <= coordinate < query@.len() && 0 <= left < documents.len() && 0 <= right
                < documents.len() && coordinate_key(documents[left].vector@[coordinate])
                >= coordinate_key(documents[right].vector@[coordinate]) implies if query@[coordinate]
            >= 0x8000_0000 {
            #[trigger] (model.part)(coordinate, left) <= #[trigger] (model.part)(
                coordinate,
                right,
            )
        } else {
            (model.part)(coordinate, left) >= (model.part)(coordinate, right)
        } by {}
        assert(models_query(*index, query@, arithmetic, model, scores));
    }
    let mut stream = match index.stream(query, &arithmetic, scorer) {
        Ok(stream) => stream,
        Err(error) => {
            return Err(error);
        },
    };
    let mut points: Vec<DenseScoredPoint> = Vec::new();
    let ghost mut order: Seq<int> = Seq::empty();
    proof {
        vstd::set_lib::lemma_int_range(0, documents.len() as int);
        assert(stream.held() =~= vstd::set_lib::set_int_range(0, documents.len() as int));
        if stream.is_zero_query() {
            assert forall|ordinal: int| #[trigger] place_score(*index, query@, ordinal) == 0 by {
                lemma_zero_query_scores_nothing(query@, model, ordinal, query@.len() as int);
            }
        }
    }
    let ghost zero = stream.is_zero_query();
    loop
        invariant
            stream.wf(),
            stream.documents() == documents,
            documents == index.documents(),
            stream.scorer() == scorer,
            scores_exactly(scorer, documents.len(), scores),
            scores == (|ordinal: int| Some(place_score(*index, query@, ordinal) as i64)),
            forall|ordinal: int|
                0 <= ordinal < documents.len() ==> -INFINITE_KEY < #[trigger] place_score(
                    *index,
                    query@,
                    ordinal,
                ) < INFINITE_KEY,
            stream.is_admissible(model, scores),
            stream.is_zero_query() == zero,
            zero ==> forall|ordinal: int| #[trigger] place_score(*index, query@, ordinal) == 0,
            is_query(query@, index.dims()),
            points@.len() == order.len(),
            order.no_duplicates(),
            forall|ordinal: int| #[trigger]
                stream.held().contains(ordinal) <==> 0 <= ordinal < documents.len()
                    && !order.contains(ordinal),
            stream.held().finite(),
            are_placed(*index, query@, order, points@),
            forall|i: int, other: int|
                0 <= i < order.len() && #[trigger] stream.held().contains(other) ==> document_before(
                    documents,
                    #[trigger] order[i],
                    points@[i].score,
                    other,
                    place_score(*index, query@, other) as i64,
                ),
        decreases stream.held().len(),
    {
        let ghost before = stream.held();
        let ghost listed = points@;
        match stream.next() {
            Some(point) => {
                let ghost ordinal = choose|ordinal: int|
                    {
                        &&& #[trigger] before.contains(ordinal)
                        &&& 0 <= ordinal < documents.len()
                        &&& point.id == documents[ordinal].id
                        &&& stream.held() == before.remove(ordinal)
                        &&& zero ==> point.score == 0 && forall|other: int| #[trigger]
                            before.contains(other) && other != ordinal ==> point.id
                                < documents[other].id
                        &&& !zero ==> scorer.gives(ordinal, point.score) && is_first_document(
                            documents,
                            scores,
                            before,
                            ordinal,
                        )
                    };
                points.push(point);
                proof {
                    let shorter = order;
                    order = order.push(ordinal);
                    assert(scores(ordinal) == Some(place_score(*index, query@, ordinal) as i64));
                    assert(point.score == place_score(*index, query@, ordinal));
                    assert forall|other: int| #[trigger]
                        order.contains(other) <==> shorter.contains(other) || other == ordinal by {
                        if shorter.contains(other) {
                            let k = choose|k: int| 0 <= k < shorter.len() && shorter[k] == other;
                            assert(order[k] == other);
                        }
                        if other == ordinal {
                            assert(order[shorter.len() as int] == other);
                        }
                        if order.contains(other) && other != ordinal {
                            let k = choose|k: int| 0 <= k < order.len() && order[k] == other;
                            assert(shorter[k] == other);
                        }
                    }
                    assert forall|i: int, other: int|
                        0 <= i < order.len() && #[trigger] stream.held().contains(
                            other,
                        ) implies document_before(
                        documents,
                        #[trigger] order[i],
                        points@[i].score,
                        other,
                        place_score(*index, query@, other) as i64,
                    ) by {
                        assert(before.contains(other));
                        if i < shorter.len() {
                            let _ = shorter[i];
                        } else {
                            assert(scores(other) == Some(
                                place_score(*index, query@, other) as i64,
                            ));
                        }
                    }
                    assert forall|i: int, j: int| 0 <= i < j < order.len() implies document_before(
                        documents,
                        #[trigger] order[i],
                        points@[i].score,
                        #[trigger] order[j],
                        points@[j].score,
                    ) by {
                        let _ = shorter[i];
                        if j < shorter.len() {
                            let _ = shorter[j];
                        } else {
                            assert(before.contains(ordinal));
                        }
                    }
                    assert forall|i: int| 0 <= i < order.len() implies {
                        &&& 0 <= #[trigger] order[i] < documents.len()
                        &&& points@[i].id == documents[order[i]].id
                        &&& points@[i].score == place_score(*index, query@, order[i])
                    } by {
                        if i < shorter.len() {
                            let _ = shorter[i];
                        }
                    }
                }
            },
            None => {
                proof {
                    assert forall|ordinal: int|
                        0 <= ordinal < documents.len() <==> #[trigger] order.contains(ordinal) by {
                        assert(!stream.held().contains(ordinal));
                        if order.contains(ordinal) {
                            let k = choose|k: int| 0 <= k < order.len() && order[k] == ordinal;
                            let _ = order[k];
                        }
                    }
                    assert(is_place_order(*index, query@, order, points@));
                    assert(has_place_order(*index, query@, points@));
                }
                return Ok(points);
            },
        }
    }
}

} // verus!
