//! The incremental state of a fusion and its certificate.

use super::scoring::{accepts, fuse, guaranteed_before, is_fused, outranks, valid_weight, valid_weights};
use super::types::ChannelRankBatch;
use crate::id_index::{IdIndex, IdSet};
use crate::operation_error::{refuse, refused, Fault, OperationResult};
use crate::order::{is_finite_key, ExtendedPointId};
use crate::rank_queue::{order_entries, ordered, RankEntry};
use crate::tables::{copied, copied_prefix, repeated};
use vstd::prelude::*;

verus! {

/// The key of the weight that sources have where none is given.
pub const UNIT_WEIGHT: i64 = 0x3ff0_0000_0000_0000;

/// The rank of an identity in a ranked prefix.
pub open spec fn rank_in(history: Seq<ExtendedPointId>, id: ExtendedPointId) -> Option<usize> {
    if history.contains(id) {
        Some(history.index_of(id) as usize)
    } else {
        None
    }
}

/// The rank of an identity in every source.
pub open spec fn ranks_of(
    histories: Seq<Seq<ExtendedPointId>>,
    id: ExtendedPointId,
) -> Seq<Option<usize>> {
    Seq::new(histories.len(), |source: int| rank_in(histories[source], id))
}

/// The rank that the next identity of every source will have.
pub open spec fn next_ranks(
    histories: Seq<Seq<ExtendedPointId>>,
    exhausted: Seq<bool>,
) -> Seq<Option<usize>> {
    Seq::new(
        histories.len(),
        |source: int|
            if exhausted[source] {
                None
            } else {
                Some(histories[source].len() as usize)
            },
    )
}

/// The ranks of an identity, with the next rank of a source where the identity
/// was not observed: the best that it can still come to.
pub open spec fn best_ranks(
    histories: Seq<Seq<ExtendedPointId>>,
    exhausted: Seq<bool>,
    id: ExtendedPointId,
) -> Seq<Option<usize>> {
    Seq::new(
        histories.len(),
        |source: int|
            match rank_in(histories[source], id) {
                Some(rank) => Some(rank),
                None => next_ranks(histories, exhausted)[source],
            },
    )
}

/// Whether a source has yielded the identity.
pub open spec fn observed(histories: Seq<Seq<ExtendedPointId>>, id: ExtendedPointId) -> bool {
    exists|source: int|
        0 <= source < histories.len() && (#[trigger] histories[source]).contains(id)
}

/// Whether every source has ended.
pub open spec fn all_ended(exhausted: Seq<bool>) -> bool {
    forall|source: int| 0 <= source < exhausted.len() ==> #[trigger] exhausted[source]
}

/// The score bounds of an observed point.
#[derive(Clone, Copy, Debug, PartialEq, Eq, Structural)]
pub struct PointBounds {
    pub id: ExtendedPointId,
    /// The score that the point already has.
    pub lower: i64,
    /// The score that the point can still come to.
    pub upper: i64,
}

/// The points by the score that they already have.
pub open spec fn lower_entries(rows: Seq<PointBounds>) -> Seq<RankEntry> {
    Seq::new(
        rows.len(),
        |row: int| RankEntry { score: rows[row].lower, id: rows[row].id, slot: row as usize },
    )
}

/// The identities of the leading entries.
pub open spec fn leading_ids(order: Seq<RankEntry>, count: int) -> Seq<ExtendedPointId> {
    Seq::new(count as nat, |place: int| order[place].id)
}

/// Whether the first `top_k` points by lower bound are fixed: each is above
/// everything unseen and stays before every point behind it.
pub open spec fn is_certified(rows: Seq<PointBounds>, unseen: i64, top_k: int) -> bool {
    let order = ordered(lower_entries(rows));
    &&& top_k <= rows.len()
    &&& forall|place: int|
        0 <= place < top_k ==> (#[trigger] order[place]).score > unseen
    &&& forall|place: int, behind: int|
        0 <= place < top_k && place < behind < order.len() ==> outranks(
            (#[trigger] order[place]).id,
            order[place].score,
            (#[trigger] order[behind]).id,
            rows[order[behind].slot as int].upper,
        )
}

/// The entries with a positive score.
pub open spec fn positive_entries(rows: Seq<PointBounds>) -> Seq<RankEntry> {
    lower_entries(rows).filter(|entry: RankEntry| entry.score > 0)
}

/// The identities with a positive score, the best first.
pub open spec fn complete_ids(rows: Seq<PointBounds>) -> Seq<ExtendedPointId> {
    let order = ordered(positive_entries(rows));
    leading_ids(order, order.len() as int)
}

/// What a state fixes of its Top-K.
pub open spec fn fixed_ids(
    rows: Seq<PointBounds>,
    unseen: i64,
    exhausted: Seq<bool>,
    top_k: usize,
) -> Option<Seq<ExtendedPointId>> {
    if top_k == 0 {
        Some(Seq::empty())
    } else if all_ended(exhausted) {
        Some(first_of(complete_ids(rows), top_k))
    } else if is_certified(rows, unseen, top_k as int) {
        Some(leading_ids(ordered(lower_entries(rows)), top_k as int))
    } else {
        None
    }
}

/// The first identities of an order.
pub open spec fn first_of(order: Seq<ExtendedPointId>, count: usize) -> Seq<ExtendedPointId> {
    if count <= order.len() {
        order.take(count as int)
    } else {
        order
    }
}

/// The points by the score that they already have.
fn lower_order(rows: &Vec<PointBounds>) -> (order: Vec<RankEntry>)
    ensures
        order@ == ordered(lower_entries(rows@)),
{
    let mut entries: Vec<RankEntry> = Vec::new();
    let mut row: usize = 0;
    while row < rows.len()
        invariant
            row <= rows@.len(),
            entries@ =~= lower_entries(rows@).take(row as int),
        decreases rows@.len() - row,
    {
        entries.push(RankEntry { score: rows[row].lower, id: rows[row].id, slot: row });
        row += 1;
    }
    assert(entries@ =~= lower_entries(rows@));
    order_entries(entries)
}

/// The first `top_k` points by lower bound, where they are fixed.
pub fn certify(rows: &Vec<PointBounds>, unseen: i64, top_k: usize) -> (fixed: Option<
    Vec<ExtendedPointId>,
>)
    ensures
        fixed is Some <==> is_certified(rows@, unseen, top_k as int),
        fixed matches Some(ids) ==> ids@ == leading_ids(
            ordered(lower_entries(rows@)),
            top_k as int,
        ),
{
    if rows.len() < top_k {
        return None;
    }
    let order = lower_order(rows);
    proof {
        crate::rank_queue::lemma_ordered(lower_entries(rows@));
        assert forall|place: int| 0 <= place < order@.len() implies (
        #[trigger] order@[place]).slot < rows@.len() by {
            assert(order@.contains(order@[place]));
            assert(lower_entries(rows@).contains(order@[place]));
        }
    }
    let mut fixed: Vec<ExtendedPointId> = Vec::new();
    let mut place: usize = 0;
    while place < top_k
        invariant
            place <= top_k <= rows@.len(),
            order@ == ordered(lower_entries(rows@)),
            order@.len() == rows@.len(),
            forall|i: int| 0 <= i < order@.len() ==> (#[trigger] order@[i]).slot < rows@.len(),
            fixed@ =~= leading_ids(order@, place as int),
            forall|i: int| 0 <= i < place ==> (#[trigger] order@[i]).score > unseen,
            forall|i: int, behind: int|
                0 <= i < place && i < behind < order@.len() ==> outranks(
                    (#[trigger] order@[i]).id,
                    order@[i].score,
                    (#[trigger] order@[behind]).id,
                    rows@[order@[behind].slot as int].upper,
                ),
        decreases top_k - place,
    {
        let winner = order[place];
        if winner.score <= unseen {
            return None;
        }
        let mut behind: usize = place + 1;
        while behind < order.len()
            invariant
                place < behind <= order@.len(),
                place < top_k,
                winner == order@[place as int],
                order@ == ordered(lower_entries(rows@)),
                forall|i: int| 0 <= i < order@.len() ==> (#[trigger] order@[i]).slot < rows@.len(),
                forall|j: int|
                    place < j < behind ==> outranks(
                        winner.id,
                        winner.score,
                        (#[trigger] order@[j]).id,
                        rows@[order@[j].slot as int].upper,
                    ),
            decreases order@.len() - behind,
        {
            let challenger = order[behind];
            if !guaranteed_before(
                winner.id,
                winner.score,
                challenger.id,
                rows[challenger.slot].upper,
            ) {
                return None;
            }
            behind += 1;
        }
        fixed.push(winner.id);
        place += 1;
    }
    Some(fixed)
}

/// The identities with a positive lower bound, the best first.
pub fn complete_order_of(rows: &Vec<PointBounds>) -> (order: Vec<ExtendedPointId>)
    ensures
        order@ == complete_ids(rows@),
{
    let mut entries: Vec<RankEntry> = Vec::new();
    let mut row: usize = 0;
    let ghost positive = |entry: RankEntry| entry.score > 0;
    let ghost all = lower_entries(rows@);
    proof {
        reveal(Seq::filter);
    }
    while row < rows.len()
        invariant
            row <= rows@.len(),
            all == lower_entries(rows@),
            positive == (|entry: RankEntry| entry.score > 0),
            entries@ == all.take(row as int).filter(positive),
        decreases rows@.len() - row,
    {
        let entry = RankEntry { score: rows[row].lower, id: rows[row].id, slot: row };
        proof {
            reveal(Seq::filter);
            assert(all.take(row + 1).drop_last() =~= all.take(row as int));
            assert(all.take(row + 1).last() == entry);
        }
        if entry.score > 0 {
            entries.push(entry);
        }
        row += 1;
    }
    assert(all.take(row as int) =~= all);
    let order = order_entries(entries);
    let mut ids: Vec<ExtendedPointId> = Vec::new();
    let mut place: usize = 0;
    while place < order.len()
        invariant
            place <= order@.len(),
            ids@ =~= leading_ids(order@, place as int),
        decreases order@.len() - place,
    {
        ids.push(order[place].id);
        place += 1;
    }
    ids
}


/// What a fusion has observed.
pub struct FusionView {
    /// The rank constant.
    pub rrf_k: usize,
    /// How many identities are wanted.
    pub top_k: usize,
    /// The key of every source's weight.
    pub weights: Seq<i64>,
    /// The observed prefix of every source.
    pub histories: Seq<Seq<ExtendedPointId>>,
    /// Whether a source has ended.
    pub exhausted: Seq<bool>,
}

impl FusionView {
    /// Whether the parts belong together.
    pub open spec fn valid(self) -> bool {
        &&& self.rrf_k > 0
        &&& self.weights.len() > 0
        &&& self.weights.len() <= usize::MAX
        &&& valid_weights(self.weights)
        &&& self.histories.len() == self.weights.len()
        &&& self.exhausted.len() == self.weights.len()
        &&& forall|source: int|
            0 <= source < self.histories.len() ==> {
                &&& (#[trigger] self.histories[source]).no_duplicates()
                &&& self.histories[source].len() <= usize::MAX
            }
    }

    /// The state after a source has yielded further identities.
    pub open spec fn extended(self, source: int, ids: Seq<ExtendedPointId>) -> FusionView {
        FusionView {
            histories: self.histories.update(source, self.histories[source] + ids),
            ..self
        }
    }

    /// The state after a source has ended.
    pub open spec fn finished(self, source: int) -> FusionView {
        FusionView { exhausted: self.exhausted.update(source, true), ..self }
    }

    /// Why one more identity of a source is refused.
    pub open spec fn observe_fault(self, source: usize, id: ExtendedPointId) -> Option<Fault> {
        if source >= self.weights.len() {
            Some(Fault::SourceOutOfRange { source })
        } else if self.exhausted[source as int] {
            Some(Fault::SourceExhausted { source })
        } else if self.histories[source as int].contains(id) {
            Some(Fault::DuplicateInSource { source, id })
        } else {
            None
        }
    }

    /// Why a batch of a source is refused.
    pub open spec fn batch_fault(
        self,
        source: usize,
        start_rank: usize,
        ids: Seq<ExtendedPointId>,
        ends: bool,
    ) -> Option<Fault> {
        if source >= self.weights.len() {
            Some(Fault::SourceOutOfRange { source })
        } else if self.exhausted[source as int] {
            Some(Fault::SourceExhausted { source })
        } else if start_rank != self.histories[source as int].len() {
            Some(
                Fault::BatchStart {
                    source,
                    start_rank,
                    expected: self.histories[source as int].len() as usize,
                },
            )
        } else if ids.len() == 0 && !ends {
            Some(Fault::EmptyBatch { source })
        } else {
            duplicate_fault(self.histories[source as int], ids, source)
        }
    }

    /// The state after an accepted batch.
    pub open spec fn after_batch(
        self,
        source: usize,
        ids: Seq<ExtendedPointId>,
        ends: bool,
    ) -> FusionView {
        let longer = self.extended(source as int, ids);
        if ends {
            longer.finished(source as int)
        } else {
            longer
        }
    }

    /// Whether the rows hold the score bounds of the observed points.
    pub open spec fn bounded_by<F: Fn(i64, usize, usize, i64) -> i64>(
        self,
        accumulate: F,
        rows: Seq<PointBounds>,
    ) -> bool {
        &&& super::certificate::distinct_rows(rows)
        &&& rows.len() <= usize::MAX
        &&& forall|id: ExtendedPointId|
            #[trigger] observed(self.histories, id) <==> super::certificate::has_row(rows, id)
        &&& forall|row: int|
            0 <= row < rows.len() ==> {
                &&& is_fused(
                    accumulate,
                    ranks_of(self.histories, (#[trigger] rows[row]).id),
                    self.rrf_k,
                    self.weights,
                    rows[row].lower,
                )
                &&& is_fused(
                    accumulate,
                    best_ranks(self.histories, self.exhausted, rows[row].id),
                    self.rrf_k,
                    self.weights,
                    rows[row].upper,
                )
            }
    }

    /// Whether `unseen` is the score that an unobserved point can come to.
    pub open spec fn unseen_by<F: Fn(i64, usize, usize, i64) -> i64>(
        self,
        accumulate: F,
        unseen: i64,
    ) -> bool {
        is_fused(
            accumulate,
            next_ranks(self.histories, self.exhausted),
            self.rrf_k,
            self.weights,
            unseen,
        )
    }
}

/// The first identity of a batch that repeats an earlier one, as a fault.
pub open spec fn duplicate_fault(
    history: Seq<ExtendedPointId>,
    ids: Seq<ExtendedPointId>,
    source: usize,
) -> Option<Fault>
    decreases ids.len(),
{
    if ids.len() == 0 {
        None
    } else {
        match duplicate_fault(history, ids.drop_last(), source) {
            Some(fault) => Some(fault),
            None => if ids.drop_last().contains(ids.last()) {
                Some(Fault::DuplicateInBatch { source, id: ids.last() })
            } else if history.contains(ids.last()) {
                Some(Fault::DuplicateInSource { source, id: ids.last() })
            } else {
                None
            },
        }
    }
}

/// A batch that begins with a faulty one is faulty in the same way.
proof fn lemma_duplicate_fault_persists(
    history: Seq<ExtendedPointId>,
    ids: Seq<ExtendedPointId>,
    count: int,
    source: usize,
)
    requires
        0 <= count <= ids.len(),
        duplicate_fault(history, ids.take(count), source) is Some,
    ensures
        duplicate_fault(history, ids, source) == duplicate_fault(history, ids.take(count), source),
    decreases ids.len() - count,
{
    if count == ids.len() {
        assert(ids.take(count) =~= ids);
    } else {
        assert(ids.take(count + 1).drop_last() =~= ids.take(count));
        lemma_duplicate_fault_persists(history, ids, count + 1, source);
    }
}

/// A batch without a duplicate fault repeats nothing.
pub proof fn lemma_no_duplicate_fault(
    history: Seq<ExtendedPointId>,
    ids: Seq<ExtendedPointId>,
    source: usize,
)
    requires
        duplicate_fault(history, ids, source) is None,
        history.no_duplicates(),
    ensures
        (history + ids).no_duplicates(),
        forall|i: int| 0 <= i < ids.len() ==> !history.contains(#[trigger] ids[i]),
        ids.no_duplicates(),
    decreases ids.len(),
{
    if ids.len() > 0 {
        let shorter = ids.drop_last();
        lemma_no_duplicate_fault(history, shorter, source);
        assert(ids =~= shorter.push(ids.last()));
        assert forall|i: int| 0 <= i < ids.len() implies !history.contains(#[trigger] ids[i]) by {
            if i < shorter.len() {
                assert(ids[i] == shorter[i]);
            }
        }
        assert forall|i: int| 0 <= i < shorter.len() implies shorter[i] != ids.last() by {
            assert(shorter.contains(shorter[i]));
        }
        assert forall|i: int| 0 <= i < history.len() implies history[i] != ids.last() by {
            assert(history.contains(history[i]));
        }
    }
    assert forall|i: int, j: int|
        0 <= i < (history + ids).len() && 0 <= j < (history + ids).len() && i != j implies (history
        + ids)[i] != (history + ids)[j] by {
        if i < history.len() && j >= history.len() {
            assert(history.contains(history[i]));
            assert(!history.contains(ids[j - history.len()]));
        } else if j < history.len() && i >= history.len() {
            assert(history.contains(history[j]));
            assert(!history.contains(ids[i - history.len()]));
        }
    }
}

/// The rank of the identity at a place of a prefix is that place.
pub proof fn lemma_rank_in(history: Seq<ExtendedPointId>, place: int)
    requires
        history.no_duplicates(),
        0 <= place < history.len(),
    ensures
        rank_in(history, history[place]) == Some(place as usize),
{
    let id = history[place];
    assert(history.contains(id));
    let found = history.index_of(id);
    assert(0 <= found < history.len() && history[found] == id);
}

/// A longer prefix keeps the ranks of the shorter one.
pub proof fn lemma_rank_persists(
    history: Seq<ExtendedPointId>,
    longer: Seq<ExtendedPointId>,
    id: ExtendedPointId,
)
    requires
        longer.no_duplicates(),
        history.len() <= longer.len(),
        history =~= longer.take(history.len() as int),
    ensures
        history.contains(id) ==> rank_in(longer, id) == rank_in(history, id),
        !history.contains(id) && longer.contains(id) ==> history.len() <= longer.index_of(id)
            < longer.len(),
{
    assert forall|i: int| 0 <= i < history.len() implies history[i] == longer[i] by {
        assert(longer.take(history.len() as int)[i] == longer[i]);
    }
    if history.contains(id) {
        let place = choose|place: int| 0 <= place < history.len() && history[place] == id;
        assert(history.no_duplicates());
        lemma_rank_in(history, place);
        lemma_rank_in(longer, place);
    } else if longer.contains(id) {
        let place = longer.index_of(id);
        assert(0 <= place < longer.len() && longer[place] == id);
        if place < history.len() {
            assert(history[place] == id);
        }
    }
}

/// A point that some source has yielded.
struct PartialRrfPoint {
    id: ExtendedPointId,
    ranks: Vec<Option<usize>>,
}

/// The incremental state of a fusion over exact, rank-ordered input streams.
///
/// The state fixes a result only when no observed or still unseen point can
/// change its position under the identity tie-break. Input scores are absent:
/// a fusion depends only on the rank in each source.
pub struct DynamicRrfState {
    rrf_k: usize,
    top_k: usize,
    weights: Vec<i64>,
    next_positions: Vec<usize>,
    exhausted: Vec<bool>,
    points: Vec<PartialRrfPoint>,
    slots: IdIndex,
    histories: Ghost<Seq<Seq<ExtendedPointId>>>,
}

impl View for DynamicRrfState {
    type V = FusionView;

    closed spec fn view(&self) -> FusionView {
        FusionView {
            rrf_k: self.rrf_k,
            top_k: self.top_k,
            weights: self.weights@,
            histories: self.histories@,
            exhausted: self.exhausted@,
        }
    }
}

/// Why a fusion cannot be set up.
pub open spec fn setup_fault(
    source_count: usize,
    rrf_k: usize,
    weights: Option<Seq<i64>>,
) -> Option<Fault> {
    if source_count == 0 {
        Some(Fault::NoSources)
    } else if rrf_k == 0 {
        Some(Fault::ZeroRankConstant)
    } else {
        match weights {
            None => None,
            Some(weights) => if weights.len() != source_count {
                Some(Fault::WeightCount { got: weights.len() as usize, expected: source_count })
            } else if !valid_weights(weights) {
                Some(Fault::InvalidWeight)
            } else {
                None
            },
        }
    }
}

/// The weights of the sources.
pub open spec fn effective_weights(source_count: usize, weights: Option<Seq<i64>>) -> Seq<i64> {
    match weights {
        Some(weights) => weights,
        None => Seq::new(source_count as nat, |source: int| UNIT_WEIGHT),
    }
}

/// The view of optional weights.
pub open spec fn weights_view(weights: Option<&Vec<i64>>) -> Option<Seq<i64>> {
    match weights {
        Some(weights) => Some(weights@),
        None => None,
    }
}

/// Whether every weight is finite and not negative.
fn weights_are_valid(weights: &Vec<i64>) -> (valid: bool)
    ensures
        valid == valid_weights(weights@),
{
    let mut source: usize = 0;
    while source < weights.len()
        invariant
            source <= weights@.len(),
            forall|i: int| 0 <= i < source ==> valid_weight(#[trigger] weights@[i]),
        decreases weights@.len() - source,
    {
        if !is_finite_key(weights[source]) || weights[source] < 0 {
            assert(!valid_weight(weights@[source as int]));
            return false;
        }
        source += 1;
    }
    true
}

impl DynamicRrfState {
    /// Whether the table of points agrees with the observed prefixes.
    pub closed spec fn wf(&self) -> bool {
        &&& self@.valid()
        &&& self.next_positions@.len() == self.weights@.len()
        &&& forall|source: int|
            0 <= source < self.histories@.len() ==> self.next_positions@[source] == (
            #[trigger] self.histories@[source]).len()
        &&& forall|id: ExtendedPointId| #[trigger]
            self.slots@.dom().contains(id) <==> observed(self.histories@, id)
        &&& forall|id: ExtendedPointId| #[trigger]
            self.slots@.dom().contains(id) ==> {
                &&& self.slots@[id] < self.points@.len()
                &&& self.points@[self.slots@[id] as int].id == id
            }
        &&& forall|slot: int|
            0 <= slot < self.points@.len() ==> {
                let point = #[trigger] self.points@[slot];
                &&& self.slots@.dom().contains(point.id)
                &&& self.slots@[point.id] == slot
                &&& point.ranks@ == ranks_of(self.histories@, point.id)
            }
    }

    /// A state that has observed nothing.
    pub fn new(
        source_count: usize,
        top_k: usize,
        rrf_k: usize,
        weights: Option<&Vec<i64>>,
    ) -> (result: OperationResult<DynamicRrfState>)
        ensures
            match setup_fault(source_count, rrf_k, weights_view(weights)) {
                Some(fault) => result == refused::<DynamicRrfState>(fault),
                None => result matches Ok(state) && state.wf() && state@ == (FusionView {
                    rrf_k,
                    top_k,
                    weights: effective_weights(source_count, weights_view(weights)),
                    histories: Seq::new(
                        source_count as nat,
                        |source: int| Seq::<ExtendedPointId>::empty(),
                    ),
                    exhausted: Seq::new(source_count as nat, |source: int| false),
                }),
            },
    {
        if source_count == 0 {
            return refuse(Fault::NoSources);
        }
        if rrf_k == 0 {
            return refuse(Fault::ZeroRankConstant);
        }
        let weights: Vec<i64> = match weights {
            Some(weights) => {
                if weights.len() != source_count {
                    return refuse(
                        Fault::WeightCount { got: weights.len(), expected: source_count },
                    );
                }
                if !weights_are_valid(weights) {
                    return refuse(Fault::InvalidWeight);
                }
                copied(weights)
            },
            None => repeated(UNIT_WEIGHT, source_count),
        };
        let ghost empty = Seq::new(
            source_count as nat,
            |source: int| Seq::<ExtendedPointId>::empty(),
        );
        let state = DynamicRrfState {
            rrf_k,
            top_k,
            weights,
            next_positions: repeated(0, source_count),
            exhausted: repeated(false, source_count),
            points: Vec::new(),
            slots: IdIndex::new(),
            histories: Ghost(empty),
        };
        Ok(state)
    }

    /// The number of sources.
    pub fn source_count(&self) -> (count: usize)
        requires
            self.wf(),
        ensures
            count == self@.weights.len(),
    {
        self.weights.len()
    }

    /// How many identities are wanted.
    pub fn top_k(&self) -> (top_k: usize)
        ensures
            top_k == self@.top_k,
    {
        self.top_k
    }

    /// Sets how many identities are wanted.
    pub fn set_top_k(&mut self, top_k: usize)
        requires
            old(self).wf(),
        ensures
            final(self).wf(),
            final(self)@ == (FusionView { top_k, ..old(self)@ }),
    {
        self.top_k = top_k;
    }

    /// Records the next identity of an open source.
    fn record(&mut self, source: usize, id: ExtendedPointId)
        requires
            old(self).wf(),
            source < old(self)@.weights.len(),
            !old(self)@.histories[source as int].contains(id),
        ensures
            final(self).wf(),
            final(self)@ == old(self)@.extended(source as int, seq![id]),
    {
        let ghost before = self.histories@;
        let ghost history = self.histories@[source as int];
        let ghost old_slots = self.slots@;
        let ghost old_points = self.points@;
        let slot: usize = match self.slots.get(id) {
            Some(slot) => slot,
            None => {
                let slot: usize = self.points.len();
                let ranks: Vec<Option<usize>> = repeated(None, self.weights.len());
                assert(ranks@ =~= ranks_of(before, id)) by {
                    assert forall|s: int| 0 <= s < before.len() implies rank_in(
                        #[trigger] before[s],
                        id,
                    ) is None by {
                        assert(!observed(before, id));
                    }
                }
                self.points.push(PartialRrfPoint { id, ranks });
                self.slots.insert(id, slot);
                slot
            },
        };
        let ghost middle = self.points@;
        assert(history.len() < self.points@.len()) by {
            let ids = Seq::new(middle.len(), |i: int| middle[i].id);
            let part = history.push(id);
            assert forall|i: int| 0 <= i < part.len() implies ids.contains(#[trigger] part[i]) by {
                if i < history.len() {
                    assert(history.contains(history[i]));
                    assert(observed(before, history[i]));
                    assert(old_slots.dom().contains(history[i]));
                    let found = old_slots[history[i]] as int;
                    assert(old_points[found].id == history[i]);
                    assert(middle[found].id == history[i]);
                    assert(ids[found] == part[i]);
                } else {
                    assert(middle[slot as int].id == id);
                    assert(ids[slot as int] == part[i]);
                }
            }
            assert(part.no_duplicates());
            crate::tables::lemma_no_longer(part, ids);
        }
        let position: usize = self.next_positions[source];
        let point_count: usize = self.points.len();
        assert(position == history.len() && position < point_count);
        self.points[slot].ranks[source] = Some(position);
        self.next_positions[source] = position + 1;
        self.histories = Ghost(before.update(source as int, history + seq![id]));
        proof {
            let after = self.histories@;
            let longer = history + seq![id];
            assert(longer =~= history.push(id));
            assert(longer.no_duplicates());
            assert(longer[history.len() as int] == id);
            lemma_rank_in(longer, history.len() as int);
            assert forall|other: ExtendedPointId| #[trigger] observed(after, other) <==> observed(
                before,
                other,
            ) || other == id by {
                if observed(before, other) {
                    let s = choose|s: int|
                        0 <= s < before.len() && (#[trigger] before[s]).contains(other);
                    if s == source {
                        let i = choose|i: int| 0 <= i < history.len() && history[i] == other;
                        assert(longer[i] == other);
                    }
                    assert(after[s].contains(other));
                }
                if other == id {
                    assert(after[source as int].contains(id));
                }
                if observed(after, other) && other != id {
                    let s = choose|s: int|
                        0 <= s < after.len() && (#[trigger] after[s]).contains(other);
                    if s == source {
                        let i = choose|i: int| 0 <= i < longer.len() && longer[i] == other;
                        assert(history[i] == other);
                    }
                    assert(before[s].contains(other));
                }
            }
            assert forall|i: int| 0 <= i < self.points@.len() implies {
                let point = #[trigger] self.points@[i];
                &&& self.slots@.dom().contains(point.id)
                &&& self.slots@[point.id] == i
                &&& point.ranks@ == ranks_of(after, point.id)
            } by {
                let point = self.points@[i];
                assert(middle[i].ranks@ == ranks_of(before, middle[i].id));
                assert forall|s: int| 0 <= s < after.len() implies point.ranks@[s] == ranks_of(
                    after,
                    point.id,
                )[s] by {
                    if s == source && point.id != id {
                        assert(history =~= longer.take(history.len() as int));
                        lemma_rank_persists(history, longer, point.id);
                        if longer.contains(point.id) && !history.contains(point.id) {
                            let k = longer.index_of(point.id);
                            assert(longer[k] == point.id);
                        }
                    }
                }
                assert(point.ranks@ =~= ranks_of(after, point.id));
            }
            assert(self@.histories =~= old(self)@.extended(source as int, seq![id]).histories);
        }
    }

    /// Records the next identity of a source.
    pub fn observe(&mut self, source: usize, id: ExtendedPointId) -> (result: OperationResult<()>)
        requires
            old(self).wf(),
        ensures
            final(self).wf(),
            match old(self)@.observe_fault(source, id) {
                Some(fault) => result == refused::<()>(fault) && final(self)@ == old(self)@,
                None => result == Ok::<(), crate::operation_error::OperationError>(()) && final(self)@ == old(self)@.extended(source as int, seq![id]),
            },
    {
        if source >= self.weights.len() {
            return refuse(Fault::SourceOutOfRange { source });
        }
        if self.exhausted[source] {
            return refuse(Fault::SourceExhausted { source });
        }
        if self.has_rank(source, id) {
            return refuse(Fault::DuplicateInSource { source, id });
        }
        self.record(source, id);
        Ok(())
    }

    /// Whether a source has yielded the identity.
    fn has_rank(&self, source: usize, id: ExtendedPointId) -> (result: bool)
        requires
            self.wf(),
            source < self@.weights.len(),
        ensures
            result == self@.histories[source as int].contains(id),
    {
        match self.slots.get(id) {
            Some(slot) => {
                assert(self.points@[slot as int].ranks@[source as int] == rank_in(
                    self.histories@[source as int],
                    id,
                ));
                self.points[slot].ranks[source].is_some()
            },
            None => {
                assert(!observed(self.histories@, id));
                false
            },
        }
    }

    /// Applies a contiguous batch of a source, or nothing of it.
    pub fn observe_batch(&mut self, source: usize, batch: &ChannelRankBatch) -> (result:
        OperationResult<()>)
        requires
            old(self).wf(),
        ensures
            final(self).wf(),
            match old(self)@.batch_fault(
                source,
                batch.start_rank,
                batch.point_ids@,
                batch.exhausted,
            ) {
                Some(fault) => result == refused::<()>(fault) && final(self)@ == old(self)@,
                None => result == Ok::<(), crate::operation_error::OperationError>(()) && final(self)@ == old(self)@.after_batch(source, batch.point_ids@, batch.exhausted),
            },
    {
        if source >= self.weights.len() {
            return refuse(Fault::SourceOutOfRange { source });
        }
        if self.exhausted[source] {
            return refuse(Fault::SourceExhausted { source });
        }
        if batch.start_rank != self.next_positions[source] {
            assert(self.histories@[source as int].len() == self.next_positions@[source as int]);
            return refuse(
                Fault::BatchStart {
                    source,
                    start_rank: batch.start_rank,
                    expected: self.next_positions[source],
                },
            );
        }
        if batch.point_ids.is_empty() && !batch.exhausted {
            assert(self.histories@[source as int].len() == self.next_positions@[source as int]);
            return refuse(Fault::EmptyBatch { source });
        }
        assert(self.histories@[source as int].len() == self.next_positions@[source as int]);
        let ghost history = self.histories@[source as int];
        let ghost ids = batch.point_ids@;
        let mut unique = IdSet::new();
        let mut i: usize = 0;
        assert(ids.take(0).len() == 0);
        while i < batch.point_ids.len()
            invariant
                i <= ids.len(),
                ids == batch.point_ids@,
                self.wf(),
                *self == *old(self),
                source < self@.weights.len(),
                history == self@.histories[source as int],
                forall|id: ExtendedPointId| unique@.contains(id) <==> ids.take(i as int).contains(id),
                duplicate_fault(history, ids.take(i as int), source) is None,
                self@.batch_fault(source, batch.start_rank, ids, batch.exhausted)
                    == duplicate_fault(history, ids, source),
            decreases ids.len() - i,
        {
            let id = batch.point_ids[i];
            let ghost longer = ids.take(i + 1);
            proof {
                assert(longer.drop_last() =~= ids.take(i as int));
                assert(longer.last() == id);
            }
            if !unique.insert(id) {
                proof {
                    lemma_duplicate_fault_persists(history, ids, i + 1, source);
                }
                return refuse(Fault::DuplicateInBatch { source, id });
            }
            if self.has_rank(source, id) {
                proof {
                    lemma_duplicate_fault_persists(history, ids, i + 1, source);
                }
                return refuse(Fault::DuplicateInSource { source, id });
            }
            proof {
                assert(longer =~= ids.take(i as int).push(id));
                assert forall|other: ExtendedPointId|
                    unique@.contains(other) <==> longer.contains(other) by {
                    let shorter = ids.take(i as int);
                    if shorter.contains(other) {
                        let k = choose|k: int| 0 <= k < shorter.len() && shorter[k] == other;
                        assert(longer[k] == other);
                    }
                    if other == id {
                        assert(longer[i as int] == other);
                    }
                    if longer.contains(other) && other != id {
                        let k = choose|k: int| 0 <= k < longer.len() && longer[k] == other;
                        assert(shorter[k] == other);
                    }
                }
            }
            i += 1;
        }
        proof {
            assert(ids.take(i as int) =~= ids);
            lemma_no_duplicate_fault(history, ids, source);
        }
        let mut j: usize = 0;
        assert(history + ids.take(0) =~= history);
        assert(self@.histories =~= old(self)@.extended(source as int, ids.take(0)).histories);
        while j < batch.point_ids.len()
            invariant
                j <= ids.len(),
                ids == batch.point_ids@,
                self.wf(),
                source < old(self)@.weights.len(),
                old(self)@.histories.len() == old(self)@.weights.len(),
                history == old(self)@.histories[source as int],
                self@ == old(self)@.extended(source as int, ids.take(j as int)),
                forall|k: int| 0 <= k < ids.len() ==> !history.contains(#[trigger] ids[k]),
                ids.no_duplicates(),
            decreases ids.len() - j,
        {
            let ghost now = self@;
            let id = batch.point_ids[j];
            assert(!(history + ids.take(j as int)).contains(id)) by {
                let seen = history + ids.take(j as int);
                if seen.contains(id) {
                    let k = choose|k: int| 0 <= k < seen.len() && seen[k] == id;
                    if k < history.len() {
                        assert(history.contains(ids[j as int]));
                    } else {
                        assert(ids[k - history.len()] == ids[j as int]);
                    }
                }
            }
            self.record(source, id);
            proof {
                assert((history + ids.take(j as int)) + seq![id] =~= history + ids.take(j + 1));
                assert(self@.histories =~= old(self)@.extended(
                    source as int,
                    ids.take(j + 1),
                ).histories);
            }
            j += 1;
        }
        assert(ids.take(j as int) =~= ids);
        if batch.exhausted {
            self.exhausted[source] = true;
        }
        Ok(())
    }

    /// Ends a source.
    pub fn finish_source(&mut self, source: usize) -> (result: OperationResult<()>)
        requires
            old(self).wf(),
        ensures
            final(self).wf(),
            source >= old(self)@.weights.len() ==> result == refused::<()>(
                Fault::SourceOutOfRange { source },
            ) && final(self)@ == old(self)@,
            source < old(self)@.weights.len() ==> result is Ok && final(self)@ == old(self)@.finished(source as int),
    {
        if source >= self.weights.len() {
            return refuse(Fault::SourceOutOfRange { source });
        }
        self.exhausted[source] = true;
        Ok(())
    }

    /// The score that the next identity of a source adds, while the source is
    /// open.
    pub fn next_possible_contribution<F: Fn(i64, usize, usize, i64) -> i64>(
        &self,
        source: usize,
        accumulate: &F,
    ) -> (contribution: Option<i64>)
        requires
            self.wf(),
            accepts(*accumulate),
        ensures
            contribution is Some <==> source < self@.weights.len() && !self@.exhausted[source as int],
            contribution matches Some(score) ==> call_ensures(
                *accumulate,
                (
                    0i64,
                    self@.histories[source as int].len() as usize,
                    self@.rrf_k,
                    self@.weights[source as int],
                ),
                score,
            ),
    {
        if source >= self.weights.len() || self.exhausted[source] {
            return None;
        }
        assert(self.histories@[source as int].len() == self.next_positions@[source as int]);
        Some(accumulate(0, self.next_positions[source], self.rrf_k, self.weights[source]))
    }

    /// The priority of the next pull of a source, from the arithmetic that
    /// weighs the position, the live competitors and the cost of the pull.
    pub fn pull_priority<P: Fn(usize, usize, i64, usize, i64) -> i64>(
        &self,
        source: usize,
        live: usize,
        cost: i64,
        priority: &P,
    ) -> (rank: i64)
        requires
            self.wf(),
            source < self@.weights.len(),
            super::progress::accepts_priority(*priority),
        ensures
            call_ensures(
                *priority,
                (
                    self@.histories[source as int].len() as usize,
                    self@.rrf_k,
                    self@.weights[source as int],
                    live,
                    cost,
                ),
                rank,
            ),
    {
        assert(self.histories@[source as int].len() == self.next_positions@[source as int]);
        priority(self.next_positions[source], self.rrf_k, self.weights[source], live, cost)
    }

    /// The rank that each source yields next.
    pub fn next_positions(&self) -> (positions: Vec<usize>)
        requires
            self.wf(),
        ensures
            positions@ == Seq::new(
                self@.histories.len(),
                |source: int| self@.histories[source].len() as usize,
            ),
    {
        let positions = crate::tables::copied(&self.next_positions);
        assert(positions@ =~= Seq::new(
            self@.histories.len(),
            |source: int| self@.histories[source].len() as usize,
        ));
        positions
    }

    /// Whether a source has ended, for a source that exists.
    pub fn source_exhausted(&self, source: usize) -> (result: Option<bool>)
        requires
            self.wf(),
        ensures
            result == (if source < self@.weights.len() {
                Some(self@.exhausted[source as int])
            } else {
                None
            }),
    {
        if source < self.exhausted.len() {
            Some(self.exhausted[source])
        } else {
            None
        }
    }

    /// Whether every source has ended.
    pub fn all_sources_exhausted(&self) -> (result: bool)
        ensures
            result == all_ended(self@.exhausted),
    {
        let mut source: usize = 0;
        while source < self.exhausted.len()
            invariant
                source <= self.exhausted@.len(),
                forall|i: int| 0 <= i < source ==> #[trigger] self.exhausted@[i],
            decreases self.exhausted@.len() - source,
        {
            if !self.exhausted[source] {
                return false;
            }
            source += 1;
        }
        true
    }

    /// Which sources have ended.
    pub fn exhausted_sources(&self) -> (exhausted: Vec<bool>)
        ensures
            exhausted@ == self@.exhausted,
    {
        copied(&self.exhausted)
    }

    /// The next rank of every open source.
    fn next_rank_vector(&self) -> (ranks: Vec<Option<usize>>)
        requires
            self.wf(),
        ensures
            ranks@ == next_ranks(self@.histories, self@.exhausted),
    {
        let mut ranks: Vec<Option<usize>> = Vec::new();
        let mut source: usize = 0;
        while source < self.weights.len()
            invariant
                self.wf(),
                source <= self.weights@.len(),
                ranks@ =~= next_ranks(self@.histories, self@.exhausted).take(source as int),
            decreases self.weights@.len() - source,
        {
            assert(self.histories@[source as int].len() == self.next_positions@[source as int]);
            ranks.push(
                if self.exhausted[source] {
                    None
                } else {
                    Some(self.next_positions[source])
                },
            );
            source += 1;
        }
        assert(ranks@ =~= next_ranks(self@.histories, self@.exhausted));
        ranks
    }

    /// Whether the rows stand in the order of the table of points.
    pub closed spec fn aligned(&self, rows: Seq<PointBounds>) -> bool {
        &&& rows.len() == self.points@.len()
        &&& forall|slot: int|
            0 <= slot < rows.len() ==> (#[trigger] rows[slot]).id == self.points@[slot].id
    }

    /// The parts of a state belong together.
    pub proof fn lemma_valid(&self)
        requires
            self.wf(),
        ensures
            self@.valid(),
    {
    }

    /// The score that an unobserved point can come to.
    pub fn unseen_bound<F: Fn(i64, usize, usize, i64) -> i64>(&self, accumulate: &F) -> (unseen: i64)
        requires
            self.wf(),
            accepts(*accumulate),
        ensures
            self@.unseen_by(*accumulate, unseen),
    {
        let next = self.next_rank_vector();
        fuse(accumulate, &next, self.rrf_k, &self.weights)
    }

    /// The score bounds of every observed point.
    pub fn point_bounds<F: Fn(i64, usize, usize, i64) -> i64>(&self, accumulate: &F) -> (rows: Vec<
        PointBounds,
    >)
        requires
            self.wf(),
            accepts(*accumulate),
        ensures
            self@.bounded_by(*accumulate, rows@),
            self.aligned(rows@),
    {
        let next = self.next_rank_vector();
        let mut rows: Vec<PointBounds> = Vec::new();
        let mut slot: usize = 0;
        while slot < self.points.len()
            invariant
                self.wf(),
                accepts(*accumulate),
                next@ == next_ranks(self@.histories, self@.exhausted),
                slot == rows@.len(),
                slot <= self.points@.len(),
                forall|row: int|
                    0 <= row < rows@.len() ==> {
                        &&& (#[trigger] rows@[row]).id == self.points@[row].id
                        &&& is_fused(
                            *accumulate,
                            ranks_of(self@.histories, rows@[row].id),
                            self@.rrf_k,
                            self@.weights,
                            rows@[row].lower,
                        )
                        &&& is_fused(
                            *accumulate,
                            best_ranks(self@.histories, self@.exhausted, rows@[row].id),
                            self@.rrf_k,
                            self@.weights,
                            rows@[row].upper,
                        )
                    },
            decreases self.points@.len() - slot,
        {
            let point = &self.points[slot];
            let ghost best = best_ranks(self@.histories, self@.exhausted, point.id);
            let mut ranks: Vec<Option<usize>> = Vec::new();
            let mut source: usize = 0;
            while source < point.ranks.len()
                invariant
                    source <= point.ranks@.len(),
                    next@.len() == point.ranks@.len(),
                    self@.histories.len() == point.ranks@.len(),
                    point.ranks@ == ranks_of(self@.histories, point.id),
                    next@ == next_ranks(self@.histories, self@.exhausted),
                    best == best_ranks(self@.histories, self@.exhausted, point.id),
                    ranks@ =~= best.take(source as int),
                decreases point.ranks@.len() - source,
            {
                ranks.push(
                    match point.ranks[source] {
                        Some(rank) => Some(rank),
                        None => next[source],
                    },
                );
                source += 1;
            }
            assert(ranks@ =~= best);
            let lower = fuse(accumulate, &point.ranks, self.rrf_k, &self.weights);
            let upper = fuse(accumulate, &ranks, self.rrf_k, &self.weights);
            rows.push(PointBounds { id: point.id, lower, upper });
            slot += 1;
        }
        proof {
            assert forall|id: ExtendedPointId| #[trigger]
                observed(self@.histories, id) <==> super::certificate::has_row(rows@, id) by {
                if observed(self@.histories, id) {
                    assert(self.slots@.dom().contains(id));
                    let row = self.slots@[id] as int;
                    assert(rows@[row].id == id);
                }
                if super::certificate::has_row(rows@, id) {
                    let row = choose|row: int|
                        0 <= row < rows@.len() && (#[trigger] rows@[row]).id == id;
                    assert(self.points@[row].id == id);
                    assert(self.slots@.dom().contains(self.points@[row].id));
                }
            }
            assert forall|i: int, j: int| 0 <= i < j < rows@.len() implies (#[trigger] rows@[i]).id
                != (#[trigger] rows@[j]).id by {
                assert(self.slots@[self.points@[i].id] == i);
                assert(self.slots@[self.points@[j].id] == j);
            }
        }
        rows
    }

    /// The exact fused identity order, once it is fixed, whether or not every
    /// final score is known.
    pub fn fixed_top_k<F: Fn(i64, usize, usize, i64) -> i64>(&self, accumulate: &F) -> (fixed:
        Option<Vec<ExtendedPointId>>)
        requires
            self.wf(),
            accepts(*accumulate),
        ensures
            exists|rows: Seq<PointBounds>, unseen: i64|
                {
                    &&& self@.bounded_by(*accumulate, rows)
                    &&& self@.unseen_by(*accumulate, unseen)
                    &&& ids_view(fixed) == #[trigger] fixed_ids(
                        rows,
                        unseen,
                        self@.exhausted,
                        self@.top_k,
                    )
                },
    {
        let rows = self.point_bounds(accumulate);
        let unseen = self.unseen_bound(accumulate);
        let fixed = self.fixed_by(&rows, unseen);
        assert(ids_view(fixed) == fixed_ids(rows@, unseen, self@.exhausted, self@.top_k));
        fixed
    }

    /// What the given bounds fix of the Top-K.
    pub fn fixed_by(&self, rows: &Vec<PointBounds>, unseen: i64) -> (fixed: Option<
        Vec<ExtendedPointId>,
    >)
        ensures
            ids_view(fixed) == fixed_ids(rows@, unseen, self@.exhausted, self@.top_k),
    {
        if self.top_k == 0 {
            let none: Vec<ExtendedPointId> = Vec::new();
            assert(none@ =~= Seq::<ExtendedPointId>::empty());
            Some(none)
        } else if self.all_sources_exhausted() {
            let order = complete_order_of(rows);
            Some(copied_prefix(&order, self.top_k))
        } else {
            certify(rows, unseen, self.top_k)
        }
    }

    /// Every observed identity with a positive score, the best first.
    pub fn complete_order<F: Fn(i64, usize, usize, i64) -> i64>(&self, accumulate: &F) -> (order:
        Vec<ExtendedPointId>)
        requires
            self.wf(),
            accepts(*accumulate),
        ensures
            exists|rows: Seq<PointBounds>|
                self@.bounded_by(*accumulate, rows) && order@ == #[trigger] complete_ids(rows),
    {
        let rows = self.point_bounds(accumulate);
        complete_order_of(&rows)
    }

    /// How many still competitive identities miss the contribution of each
    /// source. Only the order of pulls depends on it.
    pub fn competitive_missing_counts<F: Fn(i64, usize, usize, i64) -> i64>(
        &self,
        accumulate: &F,
    ) -> (counts: Vec<usize>)
        requires
            self.wf(),
            accepts(*accumulate),
            self@.top_k > 0,
        ensures
            exists|rows: Seq<PointBounds>, unseen: i64|
                {
                    &&& self@.bounded_by(*accumulate, rows)
                    &&& self@.unseen_by(*accumulate, unseen)
                    &&& counts@ == #[trigger] missing_counts(self@, rows, unseen)
                },
    {
        let rows = self.point_bounds(accumulate);
        let unseen = self.unseen_bound(accumulate);
        self.missing_by(&rows, unseen)
    }

    /// The live competitors that miss each source under the given bounds.
    pub fn missing_by(&self, rows: &Vec<PointBounds>, unseen: i64) -> (counts: Vec<usize>)
        requires
            self.wf(),
            self.aligned(rows@),
            self@.top_k > 0,
        ensures
            counts@ == missing_counts(self@, rows@, unseen),
    {
        let source_count: usize = self.weights.len();
        let mut counts: Vec<usize> = Vec::new();
        let few = rows.len() < self.top_k;
        let mut threshold: i64 = 0;
        if !few {
            let order = lower_order(rows);
            proof {
                crate::rank_queue::lemma_ordered(lower_entries(rows@));
            }
            threshold = order[self.top_k - 1].score;
        }
        let ghost expected = missing_counts(self@, rows@, unseen);
        let mut source: usize = 0;
        while source < source_count
            invariant
                self.wf(),
                self@.top_k > 0,
                source_count == self@.weights.len(),
                source <= source_count,
                few == (rows@.len() < self@.top_k),
                !few ==> threshold == ordered(lower_entries(rows@))[self@.top_k - 1].score,
                self.aligned(rows@),
                expected == missing_counts(self@, rows@, unseen),
                counts@ =~= expected.take(source as int),
            decreases source_count - source,
        {
            let mut count: usize = 0;
            if !self.exhausted[source] {
                if few {
                    count = self.top_k - rows.len();
                } else {
                    count = self.count_missing(rows, source, threshold);
                    if unseen >= threshold && count < usize::MAX {
                        count += 1;
                    }
                }
            }
            assert(count == expected[source as int]);
            counts.push(count);
            source += 1;
        }
        assert(counts@ =~= expected);
        counts
    }

    /// How many points at or above the threshold a source has not yielded.
    fn count_missing(&self, rows: &Vec<PointBounds>, source: usize, threshold: i64) -> (count:
        usize)
        requires
            self.wf(),
            source < self@.weights.len(),
            self.aligned(rows@),
        ensures
            count == rows@.filter(
                missing_from(self@.histories[source as int], threshold),
            ).len(),
    {
        let ghost missing = missing_from(self@.histories[source as int], threshold);
        let mut count: usize = 0;
        let mut slot: usize = 0;
        proof {
            reveal(Seq::filter);
        }
        while slot < rows.len()
            invariant
                self.wf(),
                source < self@.weights.len(),
                rows@.len() == self.points@.len(),
                forall|i: int|
                    0 <= i < rows@.len() ==> (#[trigger] rows@[i]).id == self.points@[i].id,
                missing == missing_from(self@.histories[source as int], threshold),
                slot <= rows@.len(),
                count <= slot,
                count == rows@.take(slot as int).filter(missing).len(),
            decreases rows@.len() - slot,
        {
            proof {
                reveal(Seq::filter);
                assert(rows@.take(slot + 1).drop_last() =~= rows@.take(slot as int));
                assert(rows@.take(slot + 1).last() == rows@[slot as int]);
                assert(self.points@[slot as int].ranks@[source as int] == rank_in(
                    self.histories@[source as int],
                    rows@[slot as int].id,
                ));
            }
            if rows[slot].upper >= threshold && self.points[slot].ranks[source].is_none() {
                count += 1;
            }
            slot += 1;
        }
        assert(rows@.take(slot as int) =~= rows@);
        count
    }
}

/// The view of optional identities.
pub open spec fn ids_view(ids: Option<Vec<ExtendedPointId>>) -> Option<Seq<ExtendedPointId>> {
    match ids {
        Some(ids) => Some(ids@),
        None => None,
    }
}

/// Whether a point can reach the threshold and is missing from a prefix.
pub open spec fn missing_from(
    history: Seq<ExtendedPointId>,
    threshold: i64,
) -> spec_fn(PointBounds) -> bool {
    |row: PointBounds| row.upper >= threshold && !history.contains(row.id)
}

/// The live competitors that miss each source: while too few points are known,
/// the number still wanted; after that the points that can reach the lowest
/// wanted score, with one more where an unseen point can.
pub open spec fn missing_counts(
    view: FusionView,
    rows: Seq<PointBounds>,
    unseen: i64,
) -> Seq<usize> {
    Seq::new(
        view.weights.len(),
        |source: int|
            if view.exhausted[source] {
                0
            } else if rows.len() < view.top_k {
                (view.top_k - rows.len()) as usize
            } else {
                let threshold = ordered(lower_entries(rows))[view.top_k - 1].score;
                let missing = rows.filter(
                    missing_from(view.histories[source], threshold),
                ).len() as int;
                if unseen >= threshold && missing < usize::MAX {
                    (missing + 1) as usize
                } else {
                    missing as usize
                }
            },
    )
}

} // verus!
