//! Cursors over an exact dense ranking: certified, or scanned in full.

use crate::dense_certificate::{
    count_ahead, exact_rank, is_score_of, knows_exactly, learns_from, lemma_told_points_stay,
    offset_id, offset_identity, scores_all, scores_exactly, scores_no_more, scores_some,
    scores_within, tells_all,
    CertificateState, CertificateView, PendingBound, PointOffsetType, ScoredPointOffset,
};
use crate::offsets::bound_ids;
use crate::operation_error::{refuse, refused, Fault, OperationError, OperationResult};
use crate::order::{ranks_before, scored_before, ExtendedPointId};
use crate::rank_queue::{lemma_ordered, order_entries, ordered, RankEntry};
use std::collections::HashSet;
use vstd::prelude::*;

verus! {

/// The entries of a scan: every point with its exact score.
pub open spec fn scan_entries(ids: Seq<PointOffsetType>, scores: Seq<i64>) -> Seq<RankEntry> {
    Seq::new(
        ids.len(),
        |i: int| RankEntry { score: scores[i], id: offset_id(ids[i]), slot: i as usize },
    )
}

/// The points of a scan in exact order.
pub open spec fn scan_order(ids: Seq<PointOffsetType>, scores: Seq<i64>) -> Seq<ScoredPointOffset> {
    let order = ordered(scan_entries(ids, scores));
    Seq::new(
        order.len(),
        |place: int| ScoredPointOffset {
            idx: ids[order[place].slot as int],
            score: order[place].score,
        },
    )
}

/// Whether points are in exact order: the higher score first, equal scores by
/// ascending point.
pub open spec fn is_exact_order(points: Seq<ScoredPointOffset>) -> bool {
    forall|i: int, j: int|
        0 <= i < j < points.len() ==> !ranks_before(
            (#[trigger] points[j]).score,
            offset_id(points[j].idx),
            (#[trigger] points[i]).score,
            offset_id(points[i].idx),
        )
}

/// A full scan yields its points in exact order, each with its score.
pub proof fn law_scan_order_is_exact(ids: Seq<PointOffsetType>, scores: Seq<i64>)
    requires
        ids.len() == scores.len(),
        ids.len() <= usize::MAX,
    ensures
        is_exact_order(scan_order(ids, scores)),
        scan_order(ids, scores).len() == ids.len(),
        forall|place: int|
            0 <= place < ids.len() ==> is_scored(
                ids,
                scores,
                #[trigger] scan_order(ids, scores)[place],
            ),
        forall|i: int|
            0 <= i < ids.len() ==> scan_order(ids, scores).contains(
                ScoredPointOffset { idx: #[trigger] ids[i], score: scores[i] },
            ),
{
    let entries = scan_entries(ids, scores);
    let order = ordered(entries);
    let points = scan_order(ids, scores);
    lemma_ordered(entries);
    assert forall|place: int| 0 <= place < order.len() implies {
        &&& (#[trigger] order[place]).slot < ids.len()
        &&& order[place] == entries[order[place].slot as int]
    } by {
        assert(order.contains(order[place]));
        assert(entries.contains(order[place]));
    }
    assert forall|i: int, j: int| 0 <= i < j < points.len() implies !ranks_before(
        (#[trigger] points[j]).score,
        offset_id(points[j].idx),
        (#[trigger] points[i]).score,
        offset_id(points[i].idx),
    ) by {
        assert(!order[j].precedes(order[i]));
        assert(order[i] == entries[order[i].slot as int]);
        assert(order[j] == entries[order[j].slot as int]);
    }
    assert forall|place: int| 0 <= place < ids.len() implies is_scored(
        ids,
        scores,
        #[trigger] scan_order(ids, scores)[place],
    ) by {
        let i = order[place].slot as int;
        assert(ids[i] == points[place].idx);
    }
    assert forall|i: int| 0 <= i < ids.len() implies points.contains(
        ScoredPointOffset { idx: #[trigger] ids[i], score: scores[i] },
    ) by {
        assert(entries.contains(entries[i]));
        assert(order.contains(entries[i]));
        let place = choose|place: int| 0 <= place < order.len() && order[place] == entries[i];
        assert(points[place] == (ScoredPointOffset { idx: ids[i], score: scores[i] }));
    }
}

/// Whether a point is scored as given.
pub open spec fn is_scored(
    ids: Seq<PointOffsetType>,
    scores: Seq<i64>,
    point: ScoredPointOffset,
) -> bool {
    exists|i: int|
        0 <= i < ids.len() && #[trigger] ids[i] == point.idx && scores[i] == point.score
}

/// A scan in exact order.
pub struct ExactScan {
    points: Vec<ScoredPointOffset>,
    next: usize,
}

impl ExactScan {
    /// The points in their order.
    pub closed spec fn points(&self) -> Seq<ScoredPointOffset> {
        self.points@
    }

    /// How many points were emitted.
    pub closed spec fn position(&self) -> int {
        self.next as int
    }

    /// Orders scored points.
    pub fn new(ids: &Vec<PointOffsetType>, scores: &Vec<i64>) -> (scan: ExactScan)
        requires
            ids@.len() == scores@.len(),
        ensures
            scan.points() == scan_order(ids@, scores@),
            scan.position() == 0,
    {
        let ghost all = scan_entries(ids@, scores@);
        let mut entries: Vec<RankEntry> = Vec::new();
        let mut i: usize = 0;
        while i < ids.len()
            invariant
                i <= ids@.len(),
                ids@.len() == scores@.len(),
                all == scan_entries(ids@, scores@),
                entries@ =~= all.take(i as int),
            decreases ids@.len() - i,
        {
            entries.push(RankEntry { score: scores[i], id: offset_identity(ids[i]), slot: i });
            i += 1;
        }
        assert(entries@ =~= all);
        let order = order_entries(entries);
        proof {
            lemma_ordered(all);
        }
        let ghost expected = scan_order(ids@, scores@);
        let mut points: Vec<ScoredPointOffset> = Vec::new();
        let mut place: usize = 0;
        while place < order.len()
            invariant
                place <= order@.len(),
                order@ == ordered(all),
                all == scan_entries(ids@, scores@),
                forall|entry: RankEntry| order@.contains(entry) <==> all.contains(entry),
                expected == scan_order(ids@, scores@),
                points@ =~= expected.take(place as int),
            decreases order@.len() - place,
        {
            assert(order@.contains(order@[place as int]));
            assert(all.contains(order@[place as int]));
            points.push(
                ScoredPointOffset { idx: ids[order[place].slot], score: order[place].score },
            );
            place += 1;
        }
        assert(points@ =~= expected);
        ExactScan { points, next: 0 }
    }

    /// The next point.
    pub fn next(&mut self) -> (point: Option<ScoredPointOffset>)
        ensures
            final(self).points() == old(self).points(),
            if old(self).position() < old(self).points().len() {
                &&& point == Some(old(self).points()[old(self).position()])
                &&& final(self).position() == old(self).position() + 1
            } else {
                &&& point is None
                &&& final(self).position() == old(self).position()
            },
    {
        if self.next < self.points.len() {
            let point = self.points[self.next];
            self.next += 1;
            Some(point)
        } else {
            None
        }
    }

    /// The place of a point.
    pub fn place_of(&self, id: PointOffsetType) -> (place: Option<usize>)
        ensures
            place matches Some(found) ==> {
                &&& found < self.points().len()
                &&& self.points()[found as int].idx == id
                &&& forall|earlier: int|
                    0 <= earlier < found ==> (#[trigger] self.points()[earlier]).idx != id
            },
            place is None ==> forall|other: int|
                0 <= other < self.points().len() ==> (#[trigger] self.points()[other]).idx != id,
    {
        let mut place: usize = 0;
        while place < self.points.len()
            invariant
                place <= self.points@.len(),
                forall|earlier: int|
                    0 <= earlier < place ==> (#[trigger] self.points()[earlier]).idx != id,
            decreases self.points@.len() - place,
        {
            if self.points[place].idx == id {
                return Some(place);
            }
            assert(self.points()[place as int].idx != id);
            place += 1;
        }
        None
    }

    /// The number of points.
    pub fn len(&self) -> (count: usize)
        ensures
            count == self.points().len(),
    {
        self.points.len()
    }

    /// The point at a place.
    pub fn point(&self, place: usize) -> (point: ScoredPointOffset)
        requires
            place < self.points().len(),
        ensures
            point == self.points()[place as int],
    {
        self.points[place]
    }

    /// How many points are ahead of a target, equal scores by the given keys.
    pub fn count_ahead(&self, keys: &Vec<ExtendedPointId>, score: i64, key: ExtendedPointId) -> (
        count: usize)
        requires
            keys@.len() == self.points().len(),
        ensures
            count == scan_ahead(self.points(), keys@, score, key, self.points().len() as int),
    {
        let mut count: usize = 0;
        let mut place: usize = 0;
        while place < self.points.len()
            invariant
                keys@.len() == self.points().len(),
                place <= self.points().len(),
                count <= place,
                count == scan_ahead(self.points(), keys@, score, key, place as int),
            decreases self.points().len() - place,
        {
            if scored_before(self.points[place].score, keys[place], score, key) {
                count += 1;
            }
            place += 1;
        }
        count
    }
}

/// How many of the leading points of a scan are ahead of a target.
pub open spec fn scan_ahead(
    points: Seq<ScoredPointOffset>,
    keys: Seq<ExtendedPointId>,
    score: i64,
    key: ExtendedPointId,
    upto: int,
) -> nat
    decreases upto,
{
    if upto <= 0 {
        0
    } else {
        scan_ahead(points, keys, score, key, upto - 1) + if ranks_before(
            points[upto - 1].score,
            keys[upto - 1],
            score,
            key,
        ) {
            1nat
        } else {
            0nat
        }
    }
}

/// Why a probe of points is refused: the first point that comes twice or is not
/// eligible.
pub open spec fn probe_fault(
    ids: Seq<PointOffsetType>,
    eligible: spec_fn(PointOffsetType) -> bool,
) -> Option<Fault>
    decreases ids.len(),
{
    if ids.len() == 0 {
        None
    } else {
        match probe_fault(ids.drop_last(), eligible) {
            Some(fault) => Some(fault),
            None => if ids.drop_last().contains(ids.last()) {
                Some(Fault::DuplicateProbe { id: ids.last() })
            } else if !eligible(ids.last()) {
                Some(Fault::IneligibleProbe { id: ids.last() })
            } else {
                None
            },
        }
    }
}

proof fn lemma_probe_fault_persists(
    ids: Seq<PointOffsetType>,
    eligible: spec_fn(PointOffsetType) -> bool,
    count: int,
)
    requires
        0 <= count <= ids.len(),
        probe_fault(ids.take(count), eligible) is Some,
    ensures
        probe_fault(ids, eligible) == probe_fault(ids.take(count), eligible),
    decreases ids.len() - count,
{
    if count == ids.len() {
        assert(ids.take(count) =~= ids);
    } else {
        assert(ids.take(count + 1).drop_last() =~= ids.take(count));
        lemma_probe_fault_persists(ids, eligible, count + 1);
    }
}

/// A probe without a fault names eligible points only.
pub proof fn lemma_probe_is_eligible(
    ids: Seq<PointOffsetType>,
    eligible: spec_fn(PointOffsetType) -> bool,
)
    requires
        probe_fault(ids, eligible) is None,
    ensures
        forall|i: int| 0 <= i < ids.len() ==> eligible(#[trigger] ids[i]),
    decreases ids.len(),
{
    if ids.len() > 0 {
        lemma_probe_is_eligible(ids.drop_last(), eligible);
        assert forall|i: int| 0 <= i < ids.len() implies eligible(#[trigger] ids[i]) by {
            if i < ids.len() - 1 {
                assert(ids.drop_last()[i] == ids[i]);
            }
        }
    }
}

/// The points that a cursor ranks.
pub enum EligibleUniverse {
    /// Listed points, in ascending order.
    Explicit(Vec<PointOffsetType>),
    /// All points below a count.
    Contiguous { count: usize },
}

impl EligibleUniverse {
    /// Whether listed points are in ascending order.
    pub open spec fn wf(&self) -> bool {
        match self {
            EligibleUniverse::Explicit(points) => crate::offsets::strictly_ascending(points@),
            EligibleUniverse::Contiguous { count } => true,
        }
    }

    /// Whether a point is eligible.
    pub open spec fn has(&self, id: PointOffsetType) -> bool {
        match self {
            EligibleUniverse::Explicit(points) => points@.contains(id),
            EligibleUniverse::Contiguous { count } => (id as int) < *count,
        }
    }

    /// The points that are eligible.
    pub open spec fn members(&self) -> spec_fn(PointOffsetType) -> bool {
        |id: PointOffsetType| self.has(id)
    }

    /// The number of points.
    pub open spec fn size(&self) -> int {
        match self {
            EligibleUniverse::Explicit(points) => points@.len() as int,
            EligibleUniverse::Contiguous { count } => *count as int,
        }
    }

    /// Whether a point is eligible.
    pub fn contains(&self, id: PointOffsetType) -> (result: bool)
        requires
            self.wf(),
        ensures
            result == self.has(id),
    {
        match self {
            EligibleUniverse::Explicit(points) => crate::offsets::holds(points, id),
            EligibleUniverse::Contiguous { count } => (id as usize) < *count,
        }
    }

    /// The number of points.
    pub fn len(&self) -> (count: usize)
        ensures
            count == self.size(),
    {
        match self {
            EligibleUniverse::Explicit(points) => points.len(),
            EligibleUniverse::Contiguous { count } => *count,
        }
    }

    /// Checks the points of a probe.
    pub fn check_probe(&self, ids: &Vec<PointOffsetType>) -> (result: OperationResult<()>)
        requires
            self.wf(),
        ensures
            match probe_fault(ids@, self.members()) {
                Some(fault) => result == refused::<()>(fault),
                None => result == Ok::<(), OperationError>(()),
            },
    {
        broadcast use vstd::std_specs::hash::group_hash_axioms;

        let ghost eligible = self.members();
        let mut unique: HashSet<u32> = HashSet::new();
        let mut i: usize = 0;
        assert(ids@.take(0).len() == 0);
        while i < ids.len()
            invariant
                self.wf(),
                eligible == self.members(),
                i <= ids@.len(),
                forall|id: u32| unique@.contains(id) <==> ids@.take(i as int).contains(id),
                probe_fault(ids@.take(i as int), eligible) is None,
            decreases ids@.len() - i,
        {
            broadcast use vstd::std_specs::hash::group_hash_axioms;

            let id: u32 = ids[i];
            let ghost shorter = ids@.take(i as int);
            let ghost longer = ids@.take(i + 1);
            proof {
                assert(longer.drop_last() =~= shorter);
                assert(longer.last() == id);
            }
            if !unique.insert(id) {
                proof {
                    lemma_probe_fault_persists(ids@, eligible, i + 1);
                }
                return refuse(Fault::DuplicateProbe { id });
            }
            if !self.contains(id) {
                proof {
                    assert(!eligible(id));
                    lemma_probe_fault_persists(ids@, eligible, i + 1);
                }
                return refuse(Fault::IneligibleProbe { id });
            }
            proof {
                assert(eligible(id));
                assert(longer =~= shorter.push(id));
                assert forall|other: u32| unique@.contains(other) <==> longer.contains(other) by {
                    if shorter.contains(other) {
                        let k = choose|k: int| 0 <= k < shorter.len() && shorter[k] == other;
                        assert(longer[k] == other);
                    }
                    if other == id {
                        assert(longer[i as int] == other);
                    }
                    if longer.contains(other) && other != id {
                        let k = choose|k: int| 0 <= k < longer.len() && longer[k] == other;
                        assert(shorter[k] == other);
                    }
                }
            }
            i += 1;
        }
        assert(ids@.take(i as int) =~= ids@);
        Ok(())
    }
}


/// A probed point with its exact score and its zero-based exact rank.
#[derive(Clone, Copy, Debug, PartialEq, Eq, Structural)]
pub struct DenseExactRankProbe {
    pub id: PointOffsetType,
    pub score: i64,
    pub rank: usize,
}

/// Whether a tie key can be asked of every point.
pub open spec fn keys_all<K: Fn(PointOffsetType) -> ExtendedPointId>(tie_key: K) -> bool {
    forall|id: PointOffsetType| call_requires(tie_key, (id,))
}

/// Whether `keys` are the tie keys of the points with the given bounds.
pub open spec fn are_keys<K: Fn(PointOffsetType) -> ExtendedPointId>(
    tie_key: K,
    bounds: Seq<PendingBound>,
    keys: Seq<ExtendedPointId>,
) -> bool {
    &&& keys.len() == bounds.len()
    &&& forall|slot: int|
        0 <= slot < bounds.len() ==> call_ensures(
            tie_key,
            (bounds[slot].id,),
            #[trigger] keys[slot],
        )
}

/// What probing a certificate does: every probed point gets its score and the
/// number of points ahead of it, and everything learned is kept. Where the scorer
/// is exact and the intervals hold, both are exact.
pub open spec fn probes_certificate<S: Fn(PointOffsetType) -> i64>(
    before: CertificateView,
    ids: Seq<PointOffsetType>,
    keys: Seq<ExtendedPointId>,
    scorer: S,
    result: OperationResult<Vec<DenseExactRankProbe>>,
    after: CertificateView,
) -> bool {
    &&& learns_from(before, scorer, after)
    &&& after.phases == before.phases
    &&& after.emitted == before.emitted
    &&& probes_only(before, keys, ids, result is Ok, after)
    &&& match result {
        Ok(probes) => {
            &&& probes@.len() == ids.len()
            &&& forall|i: int, slot: int|
                0 <= i < ids.len() && 0 <= slot < before.len() && (
                #[trigger] before.bounds[slot]).id == ids[i] ==> {
                    let probe = #[trigger] probes@[i];
                    &&& probe.id == ids[i]
                    &&& after.scores[slot] == Some(probe.score)
                    &&& probe.rank == count_ahead(
                        after,
                        keys,
                        probe.score,
                        keys[slot],
                        after.len(),
                    )
                }
        },
        Err(error) => exists|slot: int, score: i64|
            {
                &&& 0 <= slot < before.len()
                &&& #[trigger] is_score_of(before, scorer, slot, score)
                &&& score < before.bounds[slot].lower || score > before.bounds[slot].value
                &&& error == OperationError::InconsistentStorage(
                    Fault::BoundViolated { id: before.bounds[slot].id },
                )
            },
    }
    &&& forall|score: spec_fn(PointOffsetType) -> i64|
        #![trigger scores_exactly(scorer, score)]
        scores_exactly(scorer, score) && knows_exactly(before, score) ==> {
            &&& knows_exactly(after, score)
            &&& before.consistent(score) ==> after.consistent(score)
            &&& result matches Ok(probes)
            &&& forall|i: int, slot: int|
                0 <= i < ids.len() && 0 <= slot < before.len() && (
                #[trigger] before.bounds[slot]).id == ids[i] ==> {
                    let probe = #[trigger] probes@[i];
                    &&& probe.score == score(ids[i])
                    &&& probe.rank == exact_rank(before.bounds, score, keys, slot, before.len())
                }
        }
}

/// Whether a probe of points has scored no others than these and those that only their
/// exact score can tell from one, and has told all points apart where it succeeds: those
/// others then lie in their intervals. One that fails has scored a point.
pub open spec fn probes_only(
    before: CertificateView,
    keys: Seq<ExtendedPointId>,
    ids: Seq<PointOffsetType>,
    succeeds: bool,
    after: CertificateView,
) -> bool {
    exists|targets: Seq<usize>|
        {
            &&& #[trigger] are_slots(before.bounds, ids, targets)
            &&& scores_no_more(before, keys, targets, after)
            &&& if succeeds {
                tells_all(after, keys, targets) && scores_within(before, targets, after)
            } else {
                scores_some(before, after)
            }
        }
}

/// Whether points stand at the given slots.
pub open spec fn are_slots(
    bounds: Seq<PendingBound>,
    ids: Seq<PointOffsetType>,
    targets: Seq<usize>,
) -> bool {
    &&& targets.len() == ids.len()
    &&& forall|i: int|
        0 <= i < ids.len() ==> (#[trigger] targets[i]) < bounds.len() && bounds[targets[i] as int].id
            == ids[i]
}

/// A probe of points that were probed before returns the same, and scores none again:
/// every score was kept.
pub proof fn law_repeated_probe_scores_nothing<S: Fn(PointOffsetType) -> i64>(
    first: CertificateView,
    ids: Seq<PointOffsetType>,
    keys: Seq<ExtendedPointId>,
    scorer: S,
    probed: OperationResult<Vec<DenseExactRankProbe>>,
    second: CertificateView,
    repeated: OperationResult<Vec<DenseExactRankProbe>>,
    third: CertificateView,
)
    requires
        bound_ids(first.bounds).no_duplicates(),
        first.scores.len() == first.bounds.len(),
        first.len() <= usize::MAX,
        probed is Ok,
        probes_certificate(first, ids, keys, scorer, probed, second),
        probes_certificate(second, ids, keys, scorer, repeated, third),
    ensures
        third == second,
        repeated matches Ok(again) && again@ == probed->Ok_0@,
{
    let targets = choose|targets: Seq<usize>|
        {
            &&& #[trigger] are_slots(first.bounds, ids, targets)
            &&& scores_no_more(first, keys, targets, second)
            &&& tells_all(second, keys, targets)
        };
    let again = choose|again: Seq<usize>|
        {
            &&& #[trigger] are_slots(second.bounds, ids, again)
            &&& scores_no_more(second, keys, again, third)
        };
    assert(again =~= targets) by {
        assert forall|i: int| 0 <= i < ids.len() implies again[i] == targets[i] by {
            let _ = targets[i];
            assert(bound_ids(first.bounds)[again[i] as int] == bound_ids(
                first.bounds,
            )[targets[i] as int]);
        }
    }
    lemma_told_points_stay(second, keys, targets, third);
    assert(repeated is Ok);
    let before = probed->Ok_0@;
    let after = repeated->Ok_0@;
    assert forall|i: int| 0 <= i < ids.len() implies after[i] == before[i] by {
        let slot = targets[i] as int;
        assert(first.bounds[slot].id == ids[i]);
        assert(second.bounds[slot].id == ids[i]);
        assert(second.scores[slot] == Some(before[i].score));
        assert(third.scores[slot] == Some(after[i].score));
    }
    assert(after =~= before);
}

/// A probe of a scanned ranking returns the same every time.
pub proof fn law_repeated_scan_probe_is_the_same(
    points: Seq<ScoredPointOffset>,
    id: PointOffsetType,
    probe: DenseExactRankProbe,
    repeated: DenseExactRankProbe,
)
    requires
        crate::dense_ranking::is_scan_probe(points, id, probe),
        crate::dense_ranking::is_scan_probe(points, id, repeated),
        crate::dense_ranking::distinct_scan(points),
        crate::dense_ranking::scan_holds(points, id),
    ensures
        repeated == probe,
{
}

/// Probes a certificate for eligible points.
pub fn probe_certificate<S: Fn(PointOffsetType) -> i64>(
    certificate: &mut CertificateState,
    ids: &Vec<PointOffsetType>,
    keys: &Vec<ExtendedPointId>,
    scorer: &S,
) -> (result: OperationResult<Vec<DenseExactRankProbe>>)
    requires
        old(certificate).wf(),
        scores_all(*scorer),
        keys@.len() == old(certificate)@.len(),
        forall|i: int|
            0 <= i < ids@.len() ==> bound_ids(old(certificate)@.bounds).contains(
                #[trigger] ids@[i],
            ),
    ensures
        final(certificate).wf(),
        probes_certificate(
            old(certificate)@,
            ids@,
            keys@,
            *scorer,
            result,
            final(certificate)@,
        ),
{
    let ghost bounds = certificate@.bounds;
    proof {
        certificate.lemma_valid();
    }
    let mut targets: Vec<usize> = Vec::new();
    let mut i: usize = 0;
    while i < ids.len()
        invariant
            certificate.wf(),
            *certificate == *old(certificate),
            bounds == certificate@.bounds,
            i <= ids@.len(),
            targets@.len() == i,
            forall|k: int| 0 <= k < ids@.len() ==> bound_ids(bounds).contains(#[trigger] ids@[k]),
            forall|k: int|
                0 <= k < i ==> #[trigger] targets@[k] < bounds.len() && bounds[targets@[k] as int].id
                    == ids@[k],
        decreases ids@.len() - i,
    {
        let slot: usize = match certificate.find(ids[i]) {
            Some(slot) => slot,
            None => {
                proof {
                    assert(bound_ids(bounds).contains(ids@[i as int]));
                    let k = choose|k: int|
                        0 <= k < bound_ids(bounds).len() && bound_ids(bounds)[k] == ids@[i as int];
                    assert(bounds[k].id == ids@[i as int]);
                }
                vstd::pervasive::unreached()
            },
        };
        targets.push(slot);
        i += 1;
    }
    let probed = certificate.probe(&targets, keys, scorer);
    proof {
        certificate.lemma_valid();
        assert forall|i: int, slot: int|
            0 <= i < ids@.len() && 0 <= slot < bounds.len() && (#[trigger] bounds[slot]).id
                == #[trigger] ids@[i] implies slot == targets@[i] by {
            let target = targets@[i] as int;
            if slot < target {
                assert(bounds[slot].id < bounds[target].id);
            } else if target < slot {
                assert(bounds[target].id < bounds[slot].id);
            }
        }
    }
    assert(are_slots(bounds, ids@, targets@));
    assert(probes_only(old(certificate)@, keys@, ids@, probed is Ok, certificate@));
    let ranks = match probed {
        Ok(ranks) => ranks,
        Err(error) => {
            return Err(error);
        },
    };
    let mut probes: Vec<DenseExactRankProbe> = Vec::new();
    let mut k: usize = 0;
    while k < ids.len()
        invariant
            k <= ids@.len(),
            ranks@.len() == ids@.len(),
            probes@ =~= Seq::new(
                k as nat,
                |i: int| DenseExactRankProbe {
                    id: ids@[i],
                    score: ranks@[i].score,
                    rank: ranks@[i].rank,
                },
            ),
        decreases ids@.len() - k,
    {
        probes.push(
            DenseExactRankProbe { id: ids[k], score: ranks[k].score, rank: ranks[k].rank },
        );
        k += 1;
    }
    Ok(probes)
}

/// The tie keys of the points that a certificate ranks.
pub fn certificate_keys<K: Fn(PointOffsetType) -> ExtendedPointId>(
    certificate: &CertificateState,
    tie_key: &K,
) -> (keys: Vec<ExtendedPointId>)
    requires
        certificate.wf(),
        keys_all(*tie_key),
    ensures
        are_keys(*tie_key, certificate@.bounds, keys@),
{
    let mut keys: Vec<ExtendedPointId> = Vec::new();
    let mut slot: usize = 0;
    while slot < certificate.len()
        invariant
            certificate.wf(),
            keys_all(*tie_key),
            keys@.len() == slot,
            slot <= certificate@.len(),
            forall|i: int|
                0 <= i < slot ==> call_ensures(
                    *tie_key,
                    (certificate@.bounds[i].id,),
                    #[trigger] keys@[i],
                ),
        decreases certificate@.len() - slot,
    {
        keys.push(tie_key(certificate.point_at(slot)));
        slot += 1;
    }
    keys
}

/// The points that a certificate ranks, as their own tie keys.
pub fn certificate_ids(certificate: &CertificateState) -> (keys: Vec<ExtendedPointId>)
    requires
        certificate.wf(),
    ensures
        keys@ == offset_keys(certificate@.bounds),
{
    let mut keys: Vec<ExtendedPointId> = Vec::new();
    let mut slot: usize = 0;
    while slot < certificate.len()
        invariant
            certificate.wf(),
            slot <= certificate@.len(),
            keys@ =~= offset_keys(certificate@.bounds).take(slot as int),
        decreases certificate@.len() - slot,
    {
        keys.push(offset_identity(certificate.point_at(slot)));
        slot += 1;
    }
    assert(keys@ =~= offset_keys(certificate@.bounds));
    keys
}

/// The points with the given bounds, as their own tie keys.
pub open spec fn offset_keys(bounds: Seq<PendingBound>) -> Seq<ExtendedPointId> {
    Seq::new(bounds.len(), |slot: int| offset_id(bounds[slot].id))
}

/// The places of a scan that stand ahead of a target: a higher score, or the same score and a
/// smaller key.
pub open spec fn places_ahead(
    points: Seq<ScoredPointOffset>,
    keys: Seq<ExtendedPointId>,
    score: i64,
    key: ExtendedPointId,
    upto: int,
) -> Set<int> {
    Set::new(
        |place: int|
            0 <= place < upto && (points[place].score > score || points[place].score == score
                && keys[place].rank() < key.rank()),
    )
}

/// The rank of a target among scanned points is the number of points with a higher score, or
/// with the same score and a smaller key.
pub proof fn law_scan_rank_counts_points_ahead(
    points: Seq<ScoredPointOffset>,
    keys: Seq<ExtendedPointId>,
    score: i64,
    key: ExtendedPointId,
    upto: int,
)
    requires
        0 <= upto,
    ensures
        places_ahead(points, keys, score, key, upto).finite(),
        scan_ahead(points, keys, score, key, upto) == places_ahead(
            points,
            keys,
            score,
            key,
            upto,
        ).len(),
        scan_ahead(points, keys, score, key, upto) <= upto,
    decreases upto,
{
    let ahead = places_ahead(points, keys, score, key, upto);
    if upto == 0 {
        assert(ahead =~= Set::<int>::empty());
    } else {
        law_scan_rank_counts_points_ahead(points, keys, score, key, upto - 1);
        let fewer = places_ahead(points, keys, score, key, upto - 1);
        if points[upto - 1].score > score || points[upto - 1].score == score && keys[upto
            - 1].rank() < key.rank() {
            assert(ahead =~= fewer.insert(upto - 1));
        } else {
            assert(ahead =~= fewer);
        }
    }
}

/// Of two scanned points the one that stands before the other has the smaller rank.
pub proof fn law_scan_ranks_follow_the_order(
    points: Seq<ScoredPointOffset>,
    keys: Seq<ExtendedPointId>,
    first: int,
    second: int,
)
    requires
        keys.len() == points.len(),
        0 <= first < points.len(),
        0 <= second < points.len(),
        points[first].score > points[second].score || points[first].score == points[second].score
            && keys[first].rank() < keys[second].rank(),
    ensures
        scan_ahead(points, keys, points[first].score, keys[first], points.len() as int)
            < scan_ahead(points, keys, points[second].score, keys[second], points.len() as int),
{
    let upto = points.len() as int;
    let fewer = places_ahead(points, keys, points[first].score, keys[first], upto);
    let more = places_ahead(points, keys, points[second].score, keys[second], upto);
    law_scan_rank_counts_points_ahead(points, keys, points[first].score, keys[first], upto);
    law_scan_rank_counts_points_ahead(points, keys, points[second].score, keys[second], upto);
    assert(!fewer.contains(first));
    assert(fewer.insert(first).subset_of(more));
    vstd::set_lib::lemma_len_subset(fewer.insert(first), more);
}

/// Where keys differ, the ranks of all scanned points are different numbers below the number
/// of points.
pub proof fn law_scan_ranks_are_places(
    points: Seq<ScoredPointOffset>,
    keys: Seq<ExtendedPointId>,
    first: int,
    second: int,
)
    requires
        keys.len() == points.len(),
        keys.no_duplicates(),
        0 <= first < points.len(),
        0 <= second < points.len(),
        first != second,
    ensures
        scan_ahead(points, keys, points[first].score, keys[first], points.len() as int)
            < points.len(),
        scan_ahead(points, keys, points[first].score, keys[first], points.len() as int)
            != scan_ahead(points, keys, points[second].score, keys[second], points.len() as int),
{
    let upto = points.len() as int;
    let ahead = places_ahead(points, keys, points[first].score, keys[first], upto);
    law_scan_rank_counts_points_ahead(points, keys, points[first].score, keys[first], upto);
    let all = vstd::set_lib::set_int_range(0, upto);
    vstd::set_lib::lemma_int_range(0, upto);
    assert(ahead.subset_of(all.remove(first)));
    vstd::set_lib::lemma_len_subset(ahead, all.remove(first));
    if keys[first].rank() == keys[second].rank() {
        crate::order::lemma_rank_is_injective(keys[first], keys[second]);
    }
    if points[first].score > points[second].score || points[first].score == points[second].score
        && keys[first].rank() < keys[second].rank() {
        law_scan_ranks_follow_the_order(points, keys, first, second);
    } else {
        law_scan_ranks_follow_the_order(points, keys, second, first);
    }
}

/// Probing scanned points by key ranks them by score: of two probed points the one with the
/// higher score has the smaller rank, and a point has rank 0 only where none scores higher.
pub proof fn law_probed_scan_ranks_follow_scores(
    points: Seq<ScoredPointOffset>,
    keys: Seq<ExtendedPointId>,
    ids: Seq<PointOffsetType>,
    probes: Vec<DenseExactRankProbe>,
    first: int,
    second: int,
    other: int,
)
    requires
        keys.len() == points.len(),
        crate::dense_ranking::probes_scan_by_key(points, keys, ids, Ok(probes)),
        0 <= first < ids.len(),
        0 <= second < ids.len(),
        0 <= other < points.len(),
    ensures
        probes@[first].id == ids[first],
        probes@[first].score > probes@[second].score ==> probes@[first].rank
            < probes@[second].rank,
        points[other].score > probes@[first].score ==> probes@[first].rank > 0,
{
    assert(crate::dense_ranking::is_keyed_probe(points, keys, ids[first], probes@[first]));
    assert(crate::dense_ranking::is_keyed_probe(points, keys, ids[second], probes@[second]));
    let a = choose|place: int|
        {
            &&& 0 <= place < points.len()
            &&& (#[trigger] points[place]).idx == ids[first]
            &&& probes@[first].score == points[place].score
            &&& probes@[first].rank == scan_ahead(
                points,
                keys,
                probes@[first].score,
                keys[place],
                points.len() as int,
            )
        };
    let b = choose|place: int|
        {
            &&& 0 <= place < points.len()
            &&& (#[trigger] points[place]).idx == ids[second]
            &&& probes@[second].score == points[place].score
            &&& probes@[second].rank == scan_ahead(
                points,
                keys,
                probes@[second].score,
                keys[place],
                points.len() as int,
            )
        };
    if probes@[first].score > probes@[second].score {
        law_scan_ranks_follow_the_order(points, keys, a, b);
    }
    if points[other].score > probes@[first].score {
        law_scan_ranks_follow_the_order(points, keys, other, a);
    }
}

} // verus!
