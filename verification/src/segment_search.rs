//! Searching one segment: which points are visible, streams in the order of external
//! identities, and search results with their records.

use crate::n_channel_exact::{can_stop, never_stops};
use crate::dense_certificate::ScoredPointOffset;
use crate::operation_error::{
    inconsistency, inconsistent, refuse, refused, Fault, OperationError, OperationResult,
};
use crate::order::{
    are_equal_numbers, equal_numbers, number_key, ranks_before, ExtendedPointId,
};
use crate::rank_queue::{lemma_ordered, order_entries, ordered, RankEntry};
use crate::reciprocal_rank_fusion::responses::ScoredPoint;

use std::collections::VecDeque;
use vstd::prelude::*;

verus! {

/// Whether a function can be asked about every point.
pub open spec fn asks<R, F: Fn(u32) -> R>(function: F) -> bool {
    forall|point: u32| #[trigger] function.requires((point,))
}

/// Whether a function gives the given answers and no others.
pub open spec fn tells<R, F: Fn(u32) -> R>(function: F, answers: spec_fn(u32) -> R) -> bool {
    forall|point: u32, answer: R| #[trigger]
        function.ensures((point,), answer) ==> answer == answers(point)
}

/// Whether a point is before the first deferred one.
pub open spec fn is_settled_point(deferred_from: Option<u32>, point: u32) -> bool {
    deferred_from matches Some(deferred) ==> point < deferred
}

/// The points before a number that are visible.
pub open spec fn visible_before(visible: spec_fn(u32) -> bool, upto: int) -> Seq<u32>
    decreases upto,
{
    if upto <= 0 {
        Seq::empty()
    } else if visible((upto - 1) as u32) {
        visible_before(visible, upto - 1).push((upto - 1) as u32)
    } else {
        visible_before(visible, upto - 1)
    }
}

/// What makes a point eligible: it is not deleted, not deferred, and chosen by the
/// filter.
pub open spec fn eligible(
    kept: spec_fn(u32) -> bool,
    deferred_from: Option<u32>,
    chosen: spec_fn(u32) -> bool,
) -> spec_fn(u32) -> bool {
    |point: u32| kept(point) && is_settled_point(deferred_from, point) && chosen(point)
}

/// The eligible points of a segment, in ascending order.
pub fn eligible_points<N: Fn(u32) -> bool, M: Fn(u32) -> bool>(
    total: u32,
    not_deleted: &N,
    deferred_from: Option<u32>,
    chosen: &M,
) -> (points: Vec<u32>)
    requires
        asks(*not_deleted),
        asks(*chosen),
    ensures
        forall|kept: spec_fn(u32) -> bool, picks: spec_fn(u32) -> bool|
            #![trigger eligible(kept, deferred_from, picks)]
            tells(*not_deleted, kept) && tells(*chosen, picks) ==> points@ == visible_before(
                eligible(kept, deferred_from, picks),
                total as int,
            ),
        forall|i: int| 0 <= i < points@.len() ==> #[trigger] points@[i] < total,
        forall|i: int, j: int|
            0 <= i < j < points@.len() ==> #[trigger] points@[i] < #[trigger] points@[j],
        forall|i: int|
            0 <= i < points@.len() ==> {
                let point = #[trigger] points@[i];
                &&& not_deleted.ensures((point,), true)
                &&& chosen.ensures((point,), true)
                &&& deferred_from matches Some(deferred) ==> point < deferred
            },
        forall|point: u32|
            point < total && !#[trigger] points@.contains(point) ==> {
                ||| not_deleted.ensures((point,), false)
                ||| chosen.ensures((point,), false)
                ||| deferred_from matches Some(deferred) && deferred <= point
            },
{
    let mut points: Vec<u32> = Vec::new();
    let mut point: u32 = 0;
    while point < total
        invariant
            point <= total,
            asks(*not_deleted),
            asks(*chosen),
            forall|kept: spec_fn(u32) -> bool, picks: spec_fn(u32) -> bool|
                #![trigger eligible(kept, deferred_from, picks)]
                tells(*not_deleted, kept) && tells(*chosen, picks) ==> points@
                    == visible_before(eligible(kept, deferred_from, picks), point as int),
            forall|i: int| 0 <= i < points@.len() ==> #[trigger] points@[i] < point,
            forall|i: int, j: int|
                0 <= i < j < points@.len() ==> #[trigger] points@[i] < #[trigger] points@[j],
            forall|i: int|
                0 <= i < points@.len() ==> {
                    let point = #[trigger] points@[i];
                    &&& not_deleted.ensures((point,), true)
                    &&& chosen.ensures((point,), true)
                    &&& deferred_from matches Some(deferred) ==> point < deferred
                },
            forall|other: u32|
                other < point && !#[trigger] points@.contains(other) ==> {
                    ||| not_deleted.ensures((other,), false)
                    ||| chosen.ensures((other,), false)
                    ||| deferred_from matches Some(deferred) && deferred <= other
                },
        decreases total - point,
    {
        let ghost before = points@;
        let settled = match deferred_from {
            Some(deferred) => point < deferred,
            None => true,
        };
        let visible = not_deleted(point) && settled && chosen(point);
        if visible {
            points.push(point);
        }
        proof {
            assert forall|other: u32|
                other < point + 1 && !#[trigger] points@.contains(other) implies {
                ||| not_deleted.ensures((other,), false)
                ||| chosen.ensures((other,), false)
                ||| deferred_from matches Some(deferred) && deferred <= other
            } by {
                if before.contains(other) {
                    let k = choose|k: int| 0 <= k < before.len() && before[k] == other;
                    assert(points@[k] == other);
                }
                if visible {
                    assert(points@[before.len() as int] == point);
                }
            }
            assert forall|kept: spec_fn(u32) -> bool, picks: spec_fn(u32) -> bool|
                #![trigger eligible(kept, deferred_from, picks)]
                tells(*not_deleted, kept) && tells(*chosen, picks) implies points@
                == visible_before(eligible(kept, deferred_from, picks), point + 1) by {
                let whole = eligible(kept, deferred_from, picks);
                assert(before == visible_before(whole, point as int));
                assert(whole(point) == visible);
            }
        }
        point += 1;
    }
    points
}

/// A cursor over the points of a segment. It yields finitely many.
pub trait PointCursor {
    /// Whether the cursor will yield the given points and then end, or fail as given.
    spec fn leads(
        &self,
        points: Seq<ScoredPointOffset>,
        failure: Option<OperationError>,
    ) -> bool;

    /// A bound of how many points the cursor will still yield.
    spec fn remains(&self) -> nat;

    /// The next point; `None` at the end.
    fn next(&mut self) -> (result: OperationResult<Option<ScoredPointOffset>>)
        ensures
            final(self).remains() <= old(self).remains(),
            result matches Ok(Some(_)) ==> final(self).remains() < old(self).remains(),
            forall|points: Seq<ScoredPointOffset>, failure: Option<OperationError>| #[trigger]
                old(self).leads(points, failure) ==> if points.len() > 0 {
                    &&& result == Ok::<Option<ScoredPointOffset>, OperationError>(Some(points[0]))
                    &&& final(self).leads(points.drop_first(), failure)
                } else {
                    match failure {
                        Some(error) => result == Err::<Option<ScoredPointOffset>, OperationError>(
                            error,
                        ),
                        None => {
                            &&& result == Ok::<Option<ScoredPointOffset>, OperationError>(None)
                            &&& final(self).leads(points, failure)
                        },
                    }
                },
    ;
}

/// Points in memory as a cursor.
#[derive(Debug)]
pub struct OffsetList {
    points: Vec<ScoredPointOffset>,
    position: usize,
}

impl OffsetList {
    /// The points of the list.
    pub closed spec fn points(&self) -> Seq<ScoredPointOffset> {
        self.points@
    }

    /// How many of them it has yielded.
    pub closed spec fn position(&self) -> nat {
        self.position as nat
    }

    /// What the list will still yield.
    pub open spec fn rest(&self) -> Option<Seq<ScoredPointOffset>> {
        if self.position() <= self.points().len() {
            Some(self.points().skip(self.position() as int))
        } else {
            None
        }
    }

    /// A cursor over the given points.
    pub fn new(points: Vec<ScoredPointOffset>) -> (list: OffsetList)
        ensures
            list.rest() == Some(points@),
            list.leads(points@, None),
    {
        let list = OffsetList { points, position: 0 };
        assert(list.points().skip(0) =~= points@);
        list
    }
}

impl PointCursor for OffsetList {
    open spec fn leads(
        &self,
        points: Seq<ScoredPointOffset>,
        failure: Option<OperationError>,
    ) -> bool {
        failure is None && self.rest() == Some(points)
    }

    open spec fn remains(&self) -> nat {
        if self.position() <= self.points().len() {
            (self.points().len() - self.position()) as nat
        } else {
            0
        }
    }

    fn next(&mut self) -> (result: OperationResult<Option<ScoredPointOffset>>) {
        if self.position < self.points.len() {
            let point = self.points[self.position];
            self.position += 1;
            assert(self.points().skip(self.position() as int) =~= old(self).points().skip(
                old(self).position() as int,
            ).drop_first());
            Ok(Some(point))
        } else {
            Ok(None)
        }
    }
}

/// Which channel a stream serves.
#[derive(Clone, Copy, Debug, PartialEq, Eq, Structural)]
pub enum StreamKind {
    Dense,
    Sparse,
}

/// What is wrong with a point without an identity.
pub open spec fn unmapped(kind: StreamKind, offset: u32) -> Fault {
    match kind {
        StreamKind::Dense => Fault::UnmappedDensePoint { offset },
        StreamKind::Sparse => Fault::UnmappedSparsePoint { offset },
    }
}

/// What is wrong with a point without a version.
pub open spec fn unversioned(kind: StreamKind, id: ExtendedPointId) -> Fault {
    match kind {
        StreamKind::Dense => Fault::UnversionedDensePoint { id },
        StreamKind::Sparse => Fault::UnversionedSparsePoint { id },
    }
}

/// What is known of the points of a segment.
pub struct PointFacts {
    pub visible: spec_fn(u32) -> bool,
    pub external: spec_fn(u32) -> Option<ExtendedPointId>,
    pub version: spec_fn(u32) -> Option<u64>,
}

/// The visible points with their identities and versions, or the first fault.
pub open spec fn resolved_points(
    facts: PointFacts,
    kind: StreamKind,
    points: Seq<ScoredPointOffset>,
) -> (Seq<ScoredPoint>, Option<Fault>)
    decreases points.len(),
{
    if points.len() == 0 {
        (Seq::empty(), None)
    } else {
        let first = points[0];
        if !(facts.visible)(first.idx) {
            resolved_points(facts, kind, points.drop_first())
        } else {
            match (facts.external)(first.idx) {
                None => (Seq::empty(), Some(unmapped(kind, first.idx))),
                Some(id) => match (facts.version)(first.idx) {
                    None => (Seq::empty(), Some(unversioned(kind, id))),
                    Some(version) => {
                        let (rest, fault) = resolved_points(facts, kind, points.drop_first());
                        (
                            seq![
                                ScoredPoint { id, version, score: first.score, attached: None },
                            ] + rest,
                            fault,
                        )
                    },
                },
            }
        }
    }
}

/// What makes a point visible: it is not deleted, it is not deferred, and a filter chooses
/// it.
pub struct Visibility<N, M> {
    pub not_deleted: N,
    pub deferred_from: Option<u32>,
    pub chosen: M,
}

impl<N: Fn(u32) -> bool, M: Fn(u32) -> bool> Visibility<N, M> {
    /// Whether a point is visible.
    fn shows(&self, point: u32) -> (shown: bool)
        requires
            asks(self.not_deleted),
            asks(self.chosen),
        ensures
            forall|answers: spec_fn(u32) -> bool| #[trigger]
                tells_visible(Some(*self), answers) ==> shown == answers(point),
            shown ==> {
                &&& self.not_deleted.ensures((point,), true)
                &&& self.chosen.ensures((point,), true)
                &&& self.deferred_from matches Some(deferred) ==> point < deferred
            },
            !shown ==> {
                ||| self.not_deleted.ensures((point,), false)
                ||| self.chosen.ensures((point,), false)
                ||| self.deferred_from matches Some(deferred) && deferred <= point
            },
    {
        let not_deleted = &self.not_deleted;
        let chosen = &self.chosen;
        let settled = match self.deferred_from {
            Some(deferred) => point < deferred,
            None => true,
        };
        let shown = not_deleted(point) && settled && chosen(point);
        proof {
            assert forall|answers: spec_fn(u32) -> bool| #[trigger]
                tells_visible(Some(*self), answers) implies shown == answers(point) by {
                let (kept, picks) = choose|kept: spec_fn(u32) -> bool, picks: spec_fn(u32) -> bool|
                    {
                        &&& tells(self.not_deleted, kept)
                        &&& tells(self.chosen, picks)
                        &&& same_answers(answers, #[trigger] eligible(kept, self.deferred_from, picks))
                    };
                assert(answers(point) == eligible(kept, self.deferred_from, picks)(point));
            }
        }
        shown
    }
}

/// Whether it can be asked of every point whether it is visible.
pub open spec fn asks_visible<N: Fn(u32) -> bool, M: Fn(u32) -> bool>(
    visible: Option<Visibility<N, M>>,
) -> bool {
    visible matches Some(visible) ==> asks(visible.not_deleted) && asks(visible.chosen)
}

/// Whether two tests agree on every point.
pub open spec fn same_answers(left: spec_fn(u32) -> bool, right: spec_fn(u32) -> bool) -> bool {
    forall|point: u32| #[trigger] left(point) == right(point)
}

/// Whether exactly the given points are visible; without a test every point is.
pub open spec fn tells_visible<N: Fn(u32) -> bool, M: Fn(u32) -> bool>(
    visible: Option<Visibility<N, M>>,
    answers: spec_fn(u32) -> bool,
) -> bool {
    match visible {
        Some(visible) => exists|kept: spec_fn(u32) -> bool, picks: spec_fn(u32) -> bool|
            {
                &&& tells(visible.not_deleted, kept)
                &&& tells(visible.chosen, picks)
                &&& same_answers(answers, #[trigger] eligible(kept, visible.deferred_from, picks))
            },
        None => forall|point: u32| #[trigger] answers(point),
    }
}

/// Whether a point passes every test: it is not deleted, the filter chooses it, and it is
/// before the first deferred one.
pub open spec fn passes_tests<N: Fn(u32) -> bool, M: Fn(u32) -> bool>(
    visible: Option<Visibility<N, M>>,
    point: u32,
) -> bool {
    visible matches Some(visible) ==> {
        &&& visible.not_deleted.ensures((point,), true)
        &&& visible.chosen.ensures((point,), true)
        &&& visible.deferred_from matches Some(deferred) ==> point < deferred
    }
}

/// Whether a point comes from an offset that passes every test and has that identity and that
/// version.
pub open spec fn comes_from<
    N: Fn(u32) -> bool,
    M: Fn(u32) -> bool,
    X: Fn(u32) -> Option<ExtendedPointId>,
    V: Fn(u32) -> Option<u64>,
>(
    visible: Option<Visibility<N, M>>,
    external: X,
    version: V,
    offset: u32,
    point: ScoredPoint,
) -> bool {
    &&& passes_tests(visible, offset)
    &&& external.ensures((offset,), Some(point.id))
    &&& version.ensures((offset,), Some(point.version))
}

/// Whether a point comes from some offset that may be handed out.
pub open spec fn may_be_found<
    N: Fn(u32) -> bool,
    M: Fn(u32) -> bool,
    X: Fn(u32) -> Option<ExtendedPointId>,
    V: Fn(u32) -> Option<u64>,
>(visible: Option<Visibility<N, M>>, external: X, version: V, point: ScoredPoint) -> bool {
    exists|offset: u32| #[trigger] comes_from(visible, external, version, offset, point)
}

/// A point is visible only where its tests never say otherwise, and hidden only where one of
/// them never says that it is visible.
pub proof fn law_visible_points_pass_every_test<N: Fn(u32) -> bool, M: Fn(u32) -> bool>(
    visible: Visibility<N, M>,
    answers: spec_fn(u32) -> bool,
    point: u32,
)
    requires
        tells_visible(Some(visible), answers),
    ensures
        answers(point) ==> {
            &&& !visible.not_deleted.ensures((point,), false)
            &&& !visible.chosen.ensures((point,), false)
            &&& visible.deferred_from matches Some(deferred) ==> point < deferred
        },
        !answers(point) ==> {
            ||| !visible.not_deleted.ensures((point,), true)
            ||| !visible.chosen.ensures((point,), true)
            ||| visible.deferred_from matches Some(deferred) && deferred <= point
        },
{
    let (kept, picks) = choose|kept: spec_fn(u32) -> bool, picks: spec_fn(u32) -> bool|
        {
            &&& tells(visible.not_deleted, kept)
            &&& tells(visible.chosen, picks)
            &&& same_answers(answers, #[trigger] eligible(kept, visible.deferred_from, picks))
        };
    assert(answers(point) == eligible(kept, visible.deferred_from, picks)(point));
}

/// A list of visible points holds, in ascending order, exactly the numbers below the limit
/// that are visible.
pub proof fn law_visible_list_is_complete(visible: spec_fn(u32) -> bool, upto: int)
    requires
        0 <= upto <= 0x1_0000_0000,
    ensures
        forall|point: u32| #[trigger]
            visible_before(visible, upto).contains(point) <==> point < upto && visible(point),
        forall|i: int, j: int|
            #![trigger visible_before(visible, upto)[i], visible_before(visible, upto)[j]]
            0 <= i < j < visible_before(visible, upto).len() ==> visible_before(visible, upto)[i]
                < visible_before(visible, upto)[j],
    decreases upto,
{
    if upto > 0 {
        law_visible_list_is_complete(visible, upto - 1);
        let shorter = visible_before(visible, upto - 1);
        let list = visible_before(visible, upto);
        let last = (upto - 1) as u32;
        assert forall|point: u32| #[trigger] list.contains(point) <==> point < upto && visible(
            point,
        ) by {
            if visible(last) {
                assert(list == shorter.push(last));
                assert(list[shorter.len() as int] == last);
                if shorter.contains(point) {
                    let k = choose|k: int| 0 <= k < shorter.len() && shorter[k] == point;
                    assert(list[k] == point);
                }
                if list.contains(point) && point != last {
                    let k = choose|k: int| 0 <= k < list.len() && list[k] == point;
                    assert(shorter[k] == point);
                }
            }
            assert(shorter.contains(point) <==> point < upto - 1 && visible(point));
        }
        assert forall|i: int, j: int|
            #![trigger list[i], list[j]]
            0 <= i < j < list.len() implies list[i] < list[j] by {
            if j == shorter.len() {
                assert(shorter.contains(shorter[i]));
                assert(list[i] == shorter[i]);
            } else {
                assert(list[i] == shorter[i] && list[j] == shorter[j]);
            }
        }
    }
}

/// What makes a point eligible, test by test.
pub proof fn law_eligible_points_pass_every_test(
    kept: spec_fn(u32) -> bool,
    deferred_from: Option<u32>,
    chosen: spec_fn(u32) -> bool,
    point: u32,
)
    ensures
        eligible(kept, deferred_from, chosen)(point) <==> kept(point) && chosen(point) && (
        deferred_from is None || point < deferred_from->0),
{
}

/// Whether places of a list come one after the other.
pub open spec fn ascends(places: Seq<int>, upto: int) -> bool {
    &&& forall|i: int| 0 <= i < places.len() ==> 0 <= #[trigger] places[i] < upto
    &&& forall|i: int, j: int|
        0 <= i < j < places.len() ==> #[trigger] places[i] < #[trigger] places[j]
}

/// What is handed out of a list of points: those that are visible, each with its identity,
/// its version and its score, in the order of the list. Without a fault no visible point is
/// left out; a fault names the first visible point without an identity or a version.
pub proof fn law_resolved_points_are_the_visible_ones(
    facts: PointFacts,
    kind: StreamKind,
    points: Seq<ScoredPointOffset>,
) -> (places: Seq<int>)
    ensures
        ascends(places, points.len() as int),
        places.len() == resolved_points(facts, kind, points).0.len(),
        forall|i: int|
            0 <= i < places.len() ==> {
                let found = resolved_points(facts, kind, points).0[i];
                let point = points[#[trigger] places[i]];
                &&& (facts.visible)(point.idx)
                &&& (facts.external)(point.idx) == Some(found.id)
                &&& (facts.version)(point.idx) == Some(found.version)
                &&& found.score == point.score
                &&& found.attached is None
            },
        match resolved_points(facts, kind, points).1 {
            None => forall|place: int|
                0 <= place < points.len() && (facts.visible)((#[trigger] points[place]).idx)
                    ==> places.contains(place),
            Some(fault) => exists|stop: int|
                {
                    &&& 0 <= stop < points.len()
                    &&& (facts.visible)((#[trigger] points[stop]).idx)
                    &&& ascends(places, stop)
                    &&& forall|place: int|
                        0 <= place < stop && (facts.visible)((#[trigger] points[place]).idx)
                            ==> places.contains(place)
                    &&& match (facts.external)(points[stop].idx) {
                        None => fault == unmapped(kind, points[stop].idx),
                        Some(id) => (facts.version)(points[stop].idx) is None && fault
                            == unversioned(kind, id),
                    }
                },
        },
    decreases points.len(),
{
    if points.len() == 0 {
        Seq::empty()
    } else {
        let first = points[0];
        let rest = points.drop_first();
        let inner = law_resolved_points_are_the_visible_ones(facts, kind, rest);
        let moved = Seq::new(inner.len(), |i: int| inner[i] + 1);
        let resolves = (facts.visible)(first.idx) && (facts.external)(first.idx) is Some && (
        facts.version)(first.idx) is Some;
        let places = if !(facts.visible)(first.idx) {
            moved
        } else if resolves {
            seq![0int] + moved
        } else {
            Seq::empty()
        };
        let (list, fault) = resolved_points(facts, kind, points);
        let (short, later) = resolved_points(facts, kind, rest);
        let shift: int = if resolves {
            1
        } else {
            0
        };
        assert forall|i: int| 0 <= i < places.len() implies {
            let found = list[i];
            let point = points[#[trigger] places[i]];
            &&& (facts.visible)(point.idx)
            &&& (facts.external)(point.idx) == Some(found.id)
            &&& (facts.version)(point.idx) == Some(found.version)
            &&& found.score == point.score
            &&& found.attached is None
        } by {
            if i >= shift {
                assert(list[i] == short[i - shift]);
                assert(places[i] == inner[i - shift] + 1);
                assert(rest[inner[i - shift]] == points[places[i]]);
            }
        }
        if !(facts.visible)(first.idx) || resolves {
            assert forall|place: int| 1 <= place < points.len() && inner.contains(
                place - 1,
            ) implies places.contains(place) by {
                let k = choose|k: int| 0 <= k < inner.len() && inner[k] == place - 1;
                assert(places[k + shift] == place);
            }
            if resolves {
                assert(places[0] == 0);
            }
            match later {
                None => {
                    assert forall|place: int|
                        0 <= place < points.len() && (facts.visible)(
                            (#[trigger] points[place]).idx,
                        ) implies places.contains(place) by {
                        if place > 0 {
                            assert(rest[place - 1] == points[place]);
                        }
                    }
                },
                Some(reason) => {
                    let stop = choose|stop: int|
                        {
                            &&& 0 <= stop < rest.len()
                            &&& (facts.visible)((#[trigger] rest[stop]).idx)
                            &&& ascends(inner, stop)
                            &&& forall|place: int|
                                0 <= place < stop && (facts.visible)((#[trigger] rest[place]).idx)
                                    ==> inner.contains(place)
                            &&& match (facts.external)(rest[stop].idx) {
                                None => reason == unmapped(kind, rest[stop].idx),
                                Some(id) => (facts.version)(rest[stop].idx) is None && reason
                                    == unversioned(kind, id),
                            }
                        };
                    assert(points[stop + 1] == rest[stop]);
                    assert forall|place: int|
                        0 <= place < stop + 1 && (facts.visible)(
                            (#[trigger] points[place]).idx,
                        ) implies places.contains(place) by {
                        if place > 0 {
                            assert(rest[place - 1] == points[place]);
                        }
                    }
                    assert(ascends(places, stop + 1));
                },
            }
        } else {
            assert((facts.visible)(points[0].idx));
        }
        places
    }
}

/// The faults of points name them, and the channel that met them.
pub proof fn law_faults_name_points(offset: u32, id: ExtendedPointId)
    ensures
        unmapped(StreamKind::Dense, offset) == (Fault::UnmappedDensePoint { offset }),
        unmapped(StreamKind::Sparse, offset) == (Fault::UnmappedSparsePoint { offset }),
        unversioned(StreamKind::Dense, id) == (Fault::UnversionedDensePoint { id }),
        unversioned(StreamKind::Sparse, id) == (Fault::UnversionedSparsePoint { id }),
{
}

/// The visible points of a cursor with their identities and versions.
pub struct VisiblePoints<C, N, M, X, V, T> {
    cursor: C,
    visible: Option<Visibility<N, M>>,
    external: X,
    version: V,
    stopped: T,
    kind: StreamKind,
}

/// Whether a cursor will yield the given points and then end, or fail as given.
pub open spec fn cursor_leads<C: PointCursor>(
    cursor: C,
    points: Seq<ScoredPointOffset>,
    failure: Option<OperationError>,
) -> bool {
    cursor.leads(points, failure)
}

/// Whether a search is stopped whenever it asks.
pub open spec fn is_always_stopped<T: Fn() -> bool>(stopped: T) -> bool {
    forall|answer: bool| #[trigger] stopped.ensures((), answer) ==> answer
}

impl<
    C: PointCursor,
    N: Fn(u32) -> bool,
    M: Fn(u32) -> bool,
    X: Fn(u32) -> Option<ExtendedPointId>,
    V: Fn(u32) -> Option<u64>,
    T: Fn() -> bool,
> VisiblePoints<C, N, M, X, V, T> {
    /// Whether everything that the stream asks for can be asked.
    pub closed spec fn wf(&self) -> bool {
        &&& asks_visible(self.visible)
        &&& asks(self.external)
        &&& asks(self.version)
        &&& can_stop(self.stopped)
    }

    /// A bound of how many points the cursor will still yield.
    pub closed spec fn left(&self) -> nat {
        self.cursor.remains()
    }

    /// Whether the stream knows of the points what is given, is never stopped, and its
    /// cursor will yield the given points.
    pub open spec fn follows(&self, facts: PointFacts, points: Seq<ScoredPointOffset>) -> bool {
        self.leads(facts, points, None)
    }

    /// Whether the stream knows of the points what is given, is never stopped, and its
    /// cursor will yield the given points and then end, or fail as given.
    pub closed spec fn leads(
        &self,
        facts: PointFacts,
        points: Seq<ScoredPointOffset>,
        failure: Option<OperationError>,
    ) -> bool {
        &&& tells_visible(self.visible, facts.visible)
        &&& tells(self.external, facts.external)
        &&& tells(self.version, facts.version)
        &&& never_stops(self.stopped)
        &&& cursor_leads(self.cursor, points, failure)
    }

    /// The stop signal of the stream.
    pub closed spec fn stop_signal(&self) -> T {
        self.stopped
    }

    /// What makes a point of the stream visible.
    pub closed spec fn visibility(&self) -> Option<Visibility<N, M>> {
        self.visible
    }

    /// The identities of points.
    pub closed spec fn identities(&self) -> X {
        self.external
    }

    /// The versions of points.
    pub closed spec fn versions(&self) -> V {
        self.version
    }

    /// The channel of the stream.
    pub closed spec fn kind(&self) -> StreamKind {
        self.kind
    }

    /// A stream over a cursor. Without a test all of its points are visible.
    pub fn new(
        cursor: C,
        visible: Option<Visibility<N, M>>,
        external: X,
        version: V,
        stopped: T,
        kind: StreamKind,
    ) -> (stream: VisiblePoints<C, N, M, X, V, T>)
        requires
            asks_visible(visible),
            asks(external),
            asks(version),
            can_stop(stopped),
        ensures
            stream.wf(),
            stream.kind() == kind,
            stream.stop_signal() == stopped,
            stream.visibility() == visible,
            stream.identities() == external,
            stream.versions() == version,
            forall|
                facts: PointFacts,
                points: Seq<ScoredPointOffset>,
                failure: Option<OperationError>,
            |
                tells_visible(visible, facts.visible) && tells(external, facts.external) && tells(
                    version,
                    facts.version,
                ) && never_stops(stopped) && cursor_leads(cursor, points, failure)
                    ==> #[trigger] stream.leads(facts, points, failure),
    {
        VisiblePoints { cursor, visible, external, version, stopped, kind }
    }

    /// The next visible point; `None` at the end.
    pub fn next(&mut self) -> (result: OperationResult<Option<ScoredPoint>>)
        requires
            old(self).wf(),
        ensures
            final(self).wf(),
            final(self).kind() == old(self).kind(),
            final(self).left() <= old(self).left(),
            result matches Ok(Some(_)) ==> final(self).left() < old(self).left(),
            final(self).stop_signal() == old(self).stop_signal(),
            is_always_stopped(old(self).stop_signal()) ==> result == Err::<
                Option<ScoredPoint>,
                OperationError,
            >(OperationError::Cancelled),
            result is Ok ==> old(self).stop_signal().ensures((), false),
            final(self).visibility() == old(self).visibility(),
            final(self).identities() == old(self).identities(),
            final(self).versions() == old(self).versions(),
            result matches Ok(Some(point)) ==> may_be_found(
                old(self).visibility(),
                old(self).identities(),
                old(self).versions(),
                point,
            ),
            forall|
                facts: PointFacts,
                points: Seq<ScoredPointOffset>,
                failure: Option<OperationError>,
            | #[trigger]
                old(self).leads(facts, points, failure) ==> {
                    let (list, fault) = resolved_points(facts, old(self).kind(), points);
                    if list.len() > 0 {
                        &&& result == Ok::<Option<ScoredPoint>, OperationError>(Some(list[0]))
                        &&& exists|left: Seq<ScoredPointOffset>|
                            {
                                &&& #[trigger] final(self).leads(facts, left, failure)
                                &&& resolved_points(facts, old(self).kind(), left) == (
                                    list.drop_first(),
                                    fault,
                                )
                            }
                    } else {
                        match fault {
                            Some(fault) => result == inconsistent::<Option<ScoredPoint>>(fault),
                            None => match failure {
                                Some(error) => result == Err::<Option<ScoredPoint>, OperationError>(
                                    error,
                                ),
                                None => {
                                    &&& result == Ok::<Option<ScoredPoint>, OperationError>(None)
                                    &&& final(self).leads(facts, Seq::empty(), None)
                                },
                            },
                        }
                    }
                },
    {
        let ghost first = *self;
        loop
            invariant
                self.wf(),
                first == *old(self),
                self.stopped == first.stopped,
                self.kind == first.kind,
                self.visible == first.visible,
                self.external == first.external,
                self.version == first.version,
                self.left() <= first.left(),
                forall|
                    facts: PointFacts,
                    points: Seq<ScoredPointOffset>,
                    failure: Option<OperationError>,
                | #[trigger]
                    first.leads(facts, points, failure) ==> exists|now: Seq<ScoredPointOffset>|
                        {
                            &&& #[trigger] self.leads(facts, now, failure)
                            &&& resolved_points(facts, first.kind, now) == resolved_points(
                                facts,
                                first.kind,
                                points,
                            )
                        },
            decreases self.left(),
        {
            let ghost before = *self;
            let stopped = &self.stopped;
            let stop = stopped();
            assert(first.stopped.ensures((), stop));
            if stop {
                return Err(OperationError::Cancelled);
            }
            let pulled = match self.cursor.next() {
                Ok(pulled) => pulled,
                Err(error) => {
                    return Err(error);
                },
            };
            let point = match pulled {
                Some(point) => point,
                None => {
                    proof {
                        assert forall|
                            facts: PointFacts,
                            points: Seq<ScoredPointOffset>,
                            failure: Option<OperationError>,
                        | #[trigger]
                            first.leads(facts, points, failure) implies {
                            let (list, fault) = resolved_points(facts, first.kind, points);
                            &&& list.len() == 0
                            &&& fault is None
                            &&& failure is None
                            &&& self.leads(facts, Seq::empty(), failure)
                        } by {
                            let now = choose|now: Seq<ScoredPointOffset>|
                                {
                                    &&& #[trigger] before.leads(facts, now, failure)
                                    &&& resolved_points(facts, first.kind, now)
                                        == resolved_points(facts, first.kind, points)
                                };
                            assert(now.len() == 0);
                            assert(now =~= Seq::<ScoredPointOffset>::empty());
                        }
                    }
                    return Ok(None);
                },
            };
            let shown = match &self.visible {
                Some(visible) => visible.shows(point.idx),
                None => true,
            };
            if shown {
                let external = &self.external;
                let identity = external(point.idx);
                let id = match identity {
                    Some(id) => id,
                    None => {
                        return match self.kind {
                            StreamKind::Dense => inconsistency(
                                Fault::UnmappedDensePoint { offset: point.idx },
                            ),
                            StreamKind::Sparse => inconsistency(
                                Fault::UnmappedSparsePoint { offset: point.idx },
                            ),
                        };
                    },
                };
                let version = &self.version;
                let known = version(point.idx);
                let version = match known {
                    Some(version) => version,
                    None => {
                        return match self.kind {
                            StreamKind::Dense => inconsistency(
                                Fault::UnversionedDensePoint { id },
                            ),
                            StreamKind::Sparse => inconsistency(
                                Fault::UnversionedSparsePoint { id },
                            ),
                        };
                    },
                };
                let found = ScoredPoint { id, version, score: point.score, attached: None };
                proof {
                    assert(comes_from(
                        first.visible,
                        first.external,
                        first.version,
                        point.idx,
                        found,
                    ));
                    assert forall|
                        facts: PointFacts,
                        points: Seq<ScoredPointOffset>,
                        failure: Option<OperationError>,
                    | #[trigger]
                        first.leads(facts, points, failure) implies {
                        let (list, fault) = resolved_points(facts, first.kind, points);
                        &&& list.len() > 0
                        &&& list[0] == found
                        &&& exists|left: Seq<ScoredPointOffset>|
                            {
                                &&& #[trigger] self.leads(facts, left, failure)
                                &&& resolved_points(facts, first.kind, left) == (
                                    list.drop_first(),
                                    fault,
                                )
                            }
                    } by {
                        let now = choose|now: Seq<ScoredPointOffset>|
                            {
                                &&& #[trigger] before.leads(facts, now, failure)
                                &&& resolved_points(facts, first.kind, now) == resolved_points(
                                    facts,
                                    first.kind,
                                    points,
                                )
                            };
                        let (list, fault) = resolved_points(facts, first.kind, points);
                        let left = now.drop_first();
                        assert(self.leads(facts, left, failure));
                        assert(resolved_points(facts, first.kind, left).0 =~= list.drop_first());
                    }
                }
                return Ok(Some(found));
            }
            proof {
                assert forall|
                    facts: PointFacts,
                    points: Seq<ScoredPointOffset>,
                    failure: Option<OperationError>,
                | #[trigger]
                    first.leads(facts, points, failure) implies exists|now: Seq<ScoredPointOffset>|
                    {
                        &&& #[trigger] self.leads(facts, now, failure)
                        &&& resolved_points(facts, first.kind, now) == resolved_points(
                            facts,
                            first.kind,
                            points,
                        )
                    } by {
                    let now = choose|now: Seq<ScoredPointOffset>|
                        {
                            &&& #[trigger] before.leads(facts, now, failure)
                            &&& resolved_points(facts, first.kind, now) == resolved_points(
                                facts,
                                first.kind,
                                points,
                            )
                        };
                    assert(self.leads(facts, now.drop_first(), failure));
                }
            }
        }
    }
}

/// How many points at the beginning have the score of the first. One whose score is not a
/// number stands alone.
pub open spec fn run_length(points: Seq<ScoredPoint>, upto: int) -> int
    decreases points.len() - upto,
{
    if upto >= points.len() || upto > 0 && !equal_numbers(points[upto].score, points[0].score) {
        upto
    } else {
        run_length(points, upto + 1)
    }
}

/// The entries by which points of one score are put in order.
pub open spec fn identity_entries(points: Seq<ScoredPoint>) -> Seq<RankEntry> {
    Seq::new(
        points.len(),
        |i: int| RankEntry { score: 0, id: points[i].id, slot: i as usize },
    )
}

/// Points in ascending order of identity.
pub open spec fn by_identity(points: Seq<ScoredPoint>) -> Seq<ScoredPoint> {
    Seq::new(points.len(), |i: int| points[ordered(identity_entries(points))[i].slot as int])
}

/// Points whose runs of one score are put in ascending order of identity.
pub open spec fn regrouped(points: Seq<ScoredPoint>) -> Seq<ScoredPoint>
    decreases points.len(),
{
    if points.len() == 0 {
        Seq::empty()
    } else {
        let run = run_length(points, 0);
        if 0 < run <= points.len() {
            by_identity(points.take(run)) + regrouped(points.skip(run))
        } else {
            Seq::empty()
        }
    }
}

/// Points whose runs of one score are put in ascending order of identity; the last run is
/// left out where it is not known to be complete.
pub open spec fn arranged(points: Seq<ScoredPoint>, broken: bool) -> Seq<ScoredPoint>
    decreases points.len(),
{
    if points.len() == 0 {
        Seq::empty()
    } else {
        let run = run_length(points, 0);
        if 0 < run <= points.len() && !(run == points.len() && broken) {
            by_identity(points.take(run)) + arranged(points.skip(run), broken)
        } else {
            Seq::empty()
        }
    }
}

/// Where the last run is complete, all points are arranged.
pub proof fn lemma_arranged(points: Seq<ScoredPoint>)
    ensures
        arranged(points, false) == regrouped(points),
    decreases points.len(),
{
    if points.len() > 0 {
        let run = run_length(points, 0);
        if 0 < run <= points.len() {
            lemma_arranged(points.skip(run));
        }
    }
}

/// The failure that ends a stream of visible points: that of a point that cannot be
/// resolved, or that of the cursor.
pub open spec fn ending_of(
    fault: Option<Fault>,
    failure: Option<OperationError>,
) -> Option<OperationError> {
    match fault {
        Some(fault) => Some(OperationError::InconsistentStorage(fault)),
        None => failure,
    }
}

proof fn lemma_run_length(points: Seq<ScoredPoint>, upto: int)
    requires
        0 <= upto <= points.len(),
        points.len() > 0,
        forall|i: int|
            0 < i < upto ==> equal_numbers((#[trigger] points[i]).score, points[0].score),
    ensures
        upto <= run_length(points, upto) <= points.len(),
        upto == 0 ==> run_length(points, upto) > 0,
        forall|i: int|
            0 < i < run_length(points, upto) ==> equal_numbers(
                (#[trigger] points[i]).score,
                points[0].score,
            ),
        0 < run_length(points, upto) < points.len() ==> !equal_numbers(
            points[run_length(points, upto)].score,
            points[0].score,
        ),
    decreases points.len() - upto,
{
    if upto < points.len() && (upto == 0 || equal_numbers(points[upto].score, points[0].score)) {
        lemma_run_length(points, upto + 1);
    }
}

/// A run that ends where the score changes is the whole run.
proof fn lemma_run_is(points: Seq<ScoredPoint>, length: int, upto: int)
    requires
        0 <= upto <= length <= points.len(),
        0 < length,
        forall|i: int|
            0 < i < length ==> equal_numbers((#[trigger] points[i]).score, points[0].score),
        length < points.len() ==> !equal_numbers(points[length].score, points[0].score),
    ensures
        run_length(points, upto) == length,
    decreases length - upto,
{
    if upto < length {
        lemma_run_is(points, length, upto + 1);
    }
}

/// Points of one score in ascending order of identity.
fn sort_by_identity(points: &Vec<ScoredPoint>) -> (sorted: Vec<ScoredPoint>)
    ensures
        sorted@ == by_identity(points@),
{
    let mut entries: Vec<RankEntry> = Vec::new();
    let mut i: usize = 0;
    while i < points.len()
        invariant
            i <= points@.len(),
            entries@ =~= identity_entries(points@).take(i as int),
        decreases points@.len() - i,
    {
        entries.push(RankEntry { score: 0, id: points[i].id, slot: i });
        i += 1;
    }
    assert(entries@ =~= identity_entries(points@));
    let order = order_entries(entries);
    proof {
        lemma_ordered(identity_entries(points@));
        assert(points.len() <= usize::MAX);
        assert forall|k: int| 0 <= k < order@.len() implies (#[trigger] order@[k]).slot
            < points@.len() by {
            assert(order@.contains(order@[k]));
            let given = identity_entries(points@);
            assert(given.contains(order@[k]));
            let at = choose|at: int| 0 <= at < given.len() && given[at] == order@[k];
        }
    }
    let mut sorted: Vec<ScoredPoint> = Vec::new();
    let mut k: usize = 0;
    while k < order.len()
        invariant
            k <= order@.len(),
            order@ == ordered(identity_entries(points@)),
            order@.len() == points@.len(),
            forall|j: int|
                0 <= j < order@.len() ==> (#[trigger] order@[j]).slot < points@.len(),
            sorted@ =~= by_identity(points@).take(k as int),
        decreases order@.len() - k,
    {
        sorted.push(points[order[k].slot]);
        k += 1;
    }
    assert(sorted@ =~= by_identity(points@));
    sorted
}

/// A point of the regrouped order is one of the points.
pub open spec fn is_among(points: Seq<ScoredPoint>, point: ScoredPoint) -> bool {
    exists|i: int| 0 <= i < points.len() && #[trigger] points[i] == point
}

proof fn lemma_by_identity(points: Seq<ScoredPoint>)
    requires
        points.len() <= usize::MAX,
    ensures
        forall|i: int|
            0 <= i < points.len() ==> is_among(points, #[trigger] by_identity(points)[i]),
        forall|i: int, j: int|
            #![trigger by_identity(points)[i], by_identity(points)[j]]
            0 <= i < j < points.len() ==> by_identity(points)[i].id.rank() <= by_identity(
                points,
            )[j].id.rank(),
{
    let entries = identity_entries(points);
    let order = ordered(entries);
    let sorted = by_identity(points);
    lemma_ordered(entries);
    assert forall|k: int| 0 <= k < order.len() implies (#[trigger] order[k]).slot < points.len()
        && order[k].id == points[order[k].slot as int].id by {
        assert(order.contains(order[k]));
        assert(entries.contains(order[k]));
        let at = choose|at: int| 0 <= at < entries.len() && entries[at] == order[k];
    }
    assert forall|i: int| 0 <= i < points.len() implies is_among(
        points,
        #[trigger] sorted[i],
    ) by {
        assert(points[order[i].slot as int] == sorted[i]);
    }
    assert forall|i: int, j: int|
        #![trigger sorted[i], sorted[j]]
        0 <= i < j < points.len() implies sorted[i].id.rank() <= sorted[j].id.rank() by {
        assert(!order[j].precedes(order[i]));
        assert(order[i].score == 0 && order[j].score == 0) by {
            assert(order.contains(order[i]) && order.contains(order[j]));
            assert(entries.contains(order[i]) && entries.contains(order[j]));
        }
    }
}

/// Points whose scores are numbers in descending order are regrouped into the exact order:
/// no point stands behind one that it belongs before.
pub proof fn law_regrouped_order_is_exact(points: Seq<ScoredPoint>)
    requires
        points.len() <= usize::MAX,
        forall|i: int, j: int|
            0 <= i < j < points.len() ==> (#[trigger] points[i]).score >= (
            #[trigger] points[j]).score,
        forall|i: int| 0 <= i < points.len() ==> number_key((#[trigger] points[i]).score),
    ensures
        forall|i: int|
            0 <= i < regrouped(points).len() ==> is_among(points, #[trigger] regrouped(points)[i]),
        forall|i: int, j: int|
            #![trigger regrouped(points)[i], regrouped(points)[j]]
            0 <= i < j < regrouped(points).len() ==> !ranks_before(
                regrouped(points)[j].score,
                regrouped(points)[j].id,
                regrouped(points)[i].score,
                regrouped(points)[i].id,
            ),
        regrouped(points).len() == points.len(),
    decreases points.len(),
{
    if points.len() > 0 {
        lemma_run_length(points, 0);
        let run = run_length(points, 0);
        let head = points.take(run);
        let tail = points.skip(run);
        lemma_by_identity(head);
        assert forall|i: int, j: int| 0 <= i < j < tail.len() implies (#[trigger] tail[i]).score >= (
        #[trigger] tail[j]).score by {
            assert(points[run + i].score >= points[run + j].score);
        }
        law_regrouped_order_is_exact(tail);
        let sorted = by_identity(head);
        let rest = regrouped(tail);
        let all = regrouped(points);
        assert(all == sorted + rest);
        assert forall|i: int| 0 <= i < all.len() implies is_among(points, #[trigger] all[i]) by {
            if i < sorted.len() {
                assert(is_among(head, sorted[i]));
                let at = choose|at: int| 0 <= at < head.len() && #[trigger] head[at] == sorted[i];
                assert(points[at] == all[i]);
            } else {
                assert(is_among(tail, rest[i - sorted.len()]));
                let at = choose|at: int|
                    0 <= at < tail.len() && #[trigger] tail[at] == rest[i - sorted.len()];
                assert(points[run + at] == all[i]);
            }
        }
        assert forall|i: int, j: int|
            #![trigger all[i], all[j]]
            0 <= i < j < all.len() implies !ranks_before(
            all[j].score,
            all[j].id,
            all[i].score,
            all[i].id,
        ) by {
            if j < sorted.len() {
                assert(is_among(head, sorted[i]) && is_among(head, sorted[j]));
                let a = choose|a: int| 0 <= a < head.len() && #[trigger] head[a] == sorted[i];
                let b = choose|b: int| 0 <= b < head.len() && #[trigger] head[b] == sorted[j];
                assert(points[a].score == points[0].score && points[b].score == points[0].score);
                assert(sorted[i].id.rank() <= sorted[j].id.rank());
            } else if i >= sorted.len() {
                assert(all[i] == rest[i - sorted.len()] && all[j] == rest[j - sorted.len()]);
            } else {
                assert(is_among(head, sorted[i]));
                let a = choose|a: int| 0 <= a < head.len() && #[trigger] head[a] == sorted[i];
                assert(is_among(tail, rest[j - sorted.len()]));
                let b = choose|b: int|
                    0 <= b < tail.len() && #[trigger] tail[b] == rest[j - sorted.len()];
                assert(points[a].score == points[0].score);
                assert(points[run + b].score <= points[run].score);
                assert(points[0].score >= points[run].score);
                assert(points[run].score != points[0].score);
            }
        }
    }
}

/// The points of a segment in the order of scores and, within one score, of external
/// identities: a run of one score is completed before any of it is handed out.
pub struct NativeStream<C, N, M, X, V, T> {
    source: VisiblePoints<C, N, M, X, V, T>,
    buffered: VecDeque<ScoredPoint>,
    lookahead: Option<ScoredPoint>,
}

/// A point that was read ahead, as the beginning of a list.
pub open spec fn ahead(lookahead: Option<ScoredPoint>) -> Seq<ScoredPoint> {
    match lookahead {
        Some(point) => seq![point],
        None => Seq::empty(),
    }
}

impl<
    C: PointCursor,
    N: Fn(u32) -> bool,
    M: Fn(u32) -> bool,
    X: Fn(u32) -> Option<ExtendedPointId>,
    V: Fn(u32) -> Option<u64>,
    T: Fn() -> bool,
> NativeStream<C, N, M, X, V, T> {
    /// Whether the source can be asked.
    pub closed spec fn wf(&self) -> bool {
        &&& self.source.wf()
        &&& forall|i: int| 0 <= i < self.buffered@.len() ==> self.found(#[trigger] self.buffered@[i])
        &&& self.lookahead matches Some(point) ==> self.found(point)
    }

    /// What makes a point of the stream visible.
    pub closed spec fn visibility(&self) -> Option<Visibility<N, M>> {
        self.source.visibility()
    }

    /// The identities of points.
    pub closed spec fn identities(&self) -> X {
        self.source.identities()
    }

    /// The versions of points.
    pub closed spec fn versions(&self) -> V {
        self.source.versions()
    }

    /// Whether a point may be handed out.
    pub open spec fn found(&self, point: ScoredPoint) -> bool {
        may_be_found(self.visibility(), self.identities(), self.versions(), point)
    }

    /// Whether the stream will hand out the given points and never fail.
    pub open spec fn yields(&self, facts: PointFacts, out: Seq<ScoredPoint>) -> bool {
        self.gives(facts, out, None)
    }

    /// Whether the stream will hand out the given points and then end, or fail as given.
    pub closed spec fn gives(
        &self,
        facts: PointFacts,
        out: Seq<ScoredPoint>,
        ending: Option<OperationError>,
    ) -> bool {
        exists|points: Seq<ScoredPointOffset>, failure: Option<OperationError>|
            {
                &&& #[trigger] self.source.leads(facts, points, failure)
                &&& ending_of(resolved_points(facts, self.source.kind(), points).1, failure)
                    == ending
                &&& out == self.buffered@ + arranged(
                    ahead(self.lookahead) + resolved_points(facts, self.source.kind(), points).0,
                    ending is Some,
                )
            }
    }

    /// Whether the stream must ask its source before it hands out a point.
    pub closed spec fn is_drained(&self) -> bool {
        self.buffered@.len() == 0
    }

    /// The stop signal of the stream.
    pub closed spec fn stop_signal(&self) -> T {
        self.source.stop_signal()
    }

    /// A stream over the visible points of a cursor.
    pub fn new(source: VisiblePoints<C, N, M, X, V, T>) -> (stream: NativeStream<C, N, M, X, V, T>)
        requires
            source.wf(),
        ensures
            stream.wf(),
            stream.is_drained(),
            stream.stop_signal() == source.stop_signal(),
            stream.visibility() == source.visibility(),
            stream.identities() == source.identities(),
            stream.versions() == source.versions(),
            forall|
                facts: PointFacts,
                points: Seq<ScoredPointOffset>,
                failure: Option<OperationError>,
            | #[trigger]
                source.leads(facts, points, failure) ==> {
                    let (list, fault) = resolved_points(facts, source.kind(), points);
                    let ending = ending_of(fault, failure);
                    stream.gives(facts, arranged(list, ending is Some), ending)
                },
            forall|facts: PointFacts, points: Seq<ScoredPointOffset>| #[trigger]
                source.follows(facts, points) && resolved_points(
                    facts,
                    source.kind(),
                    points,
                ).1 is None ==> stream.yields(
                    facts,
                    regrouped(resolved_points(facts, source.kind(), points).0),
                ),
    {
        let stream = NativeStream { source, buffered: VecDeque::new(), lookahead: None };
        proof {
            assert forall|
                facts: PointFacts,
                points: Seq<ScoredPointOffset>,
                failure: Option<OperationError>,
            | #[trigger]
                source.leads(facts, points, failure) implies {
                let (list, fault) = resolved_points(facts, source.kind(), points);
                let ending = ending_of(fault, failure);
                stream.gives(facts, arranged(list, ending is Some), ending)
            } by {
                let (list, fault) = resolved_points(facts, source.kind(), points);
                let ending = ending_of(fault, failure);
                let out = arranged(list, ending is Some);
                assert(Seq::<ScoredPoint>::empty() + list =~= list);
                assert(stream.buffered@ + out =~= out);
                assert(stream.source.leads(facts, points, failure));
            }
            assert forall|facts: PointFacts, points: Seq<ScoredPointOffset>| #[trigger]
                source.follows(facts, points) && resolved_points(
                    facts,
                    source.kind(),
                    points,
                ).1 is None implies stream.yields(
                facts,
                regrouped(resolved_points(facts, source.kind(), points).0),
            ) by {
                lemma_arranged(resolved_points(facts, source.kind(), points).0);
            }
        }
        stream
    }

    /// The next point; `None` at the end.
    pub fn next(&mut self) -> (result: OperationResult<Option<ScoredPoint>>)
        requires
            old(self).wf(),
        ensures
            final(self).wf(),
            forall|
                facts: PointFacts,
                out: Seq<ScoredPoint>,
                ending: Option<OperationError>,
            | #[trigger]
                old(self).gives(facts, out, ending) ==> if out.len() > 0 {
                    &&& result == Ok::<Option<ScoredPoint>, OperationError>(Some(out[0]))
                    &&& final(self).gives(facts, out.drop_first(), ending)
                } else {
                    match ending {
                        Some(error) => result == Err::<Option<ScoredPoint>, OperationError>(error),
                        None => {
                            &&& result == Ok::<Option<ScoredPoint>, OperationError>(None)
                            &&& final(self).gives(facts, out, None)
                        },
                    }
                },
            final(self).stop_signal() == old(self).stop_signal(),
            final(self).visibility() == old(self).visibility(),
            final(self).identities() == old(self).identities(),
            final(self).versions() == old(self).versions(),
            result matches Ok(Some(point)) ==> old(self).found(point),
            old(self).is_drained() && is_always_stopped(old(self).stop_signal()) ==> result == Err::<
                Option<ScoredPoint>,
                OperationError,
            >(OperationError::Cancelled),
            result is Ok && old(self).is_drained() ==> old(self).stop_signal().ensures((), false),
    {
        let ghost first = *self;
        match self.buffered.pop_front() {
            Some(point) => {
                proof {
                    assert forall|
                        facts: PointFacts,
                        out: Seq<ScoredPoint>,
                        ending: Option<OperationError>,
                    | #[trigger]
                        first.gives(facts, out, ending) implies out.len() > 0 && out[0] == point
                        && self.gives(facts, out.drop_first(), ending) by {
                        let (points, failure) = choose|
                            points: Seq<ScoredPointOffset>,
                            failure: Option<OperationError>,
                        |
                            {
                                &&& #[trigger] first.source.leads(facts, points, failure)
                                &&& ending_of(
                                    resolved_points(facts, first.source.kind(), points).1,
                                    failure,
                                ) == ending
                                &&& out == first.buffered@ + arranged(
                                    ahead(first.lookahead) + resolved_points(
                                        facts,
                                        first.source.kind(),
                                        points,
                                    ).0,
                                    ending is Some,
                                )
                            };
                        assert(self.source.leads(facts, points, failure));
                        assert(out.drop_first() =~= self.buffered@ + arranged(
                            ahead(self.lookahead) + resolved_points(
                                facts,
                                self.source.kind(),
                                points,
                            ).0,
                            ending is Some,
                        ));
                    }
                }
                return Ok(Some(point));
            },
            None => {},
        }
        let taken = self.lookahead.take();
        let start = match taken {
            Some(point) => point,
            None => {
                let ghost asked = self.source;
                match self.source.next() {
                    Ok(Some(point)) => {
                        proof {
                            assert forall|
                                facts: PointFacts,
                                out: Seq<ScoredPoint>,
                                ending: Option<OperationError>,
                            | #[trigger]
                                first.gives(facts, out, ending) implies self.continues(
                                    facts,
                                    out,
                                    ending,
                                    seq![point],
                            ) by {
                                let (points, failure) = choose|
                                    points: Seq<ScoredPointOffset>,
                                    failure: Option<OperationError>,
                                |
                                    {
                                        &&& #[trigger] first.source.leads(facts, points, failure)
                                        &&& ending_of(
                                            resolved_points(facts, first.source.kind(), points).1,
                                            failure,
                                        ) == ending
                                        &&& out == first.buffered@ + arranged(
                                            ahead(first.lookahead) + resolved_points(
                                                facts,
                                                first.source.kind(),
                                                points,
                                            ).0,
                                            ending is Some,
                                        )
                                    };
                                let kind = first.source.kind();
                                let list = resolved_points(facts, kind, points).0;
                                assert(asked.leads(facts, points, failure));
                                assert(list.len() > 0);
                                let left = choose|left: Seq<ScoredPointOffset>|
                                    {
                                        &&& #[trigger] self.source.leads(facts, left, failure)
                                        &&& resolved_points(facts, kind, left) == (
                                            list.drop_first(),
                                            resolved_points(facts, kind, points).1,
                                        )
                                    };
                                assert(self.source.leads(facts, left, failure));
                                assert(Seq::<ScoredPoint>::empty() + list =~= list);
                                assert(seq![point] + list.drop_first() =~= list);
                                assert(out =~= arranged(list, ending is Some));
                            }
                        }
                        point
                    },
                    Ok(None) => {
                        proof {
                            assert forall|
                                facts: PointFacts,
                                out: Seq<ScoredPoint>,
                                ending: Option<OperationError>,
                            | #[trigger]
                                first.gives(facts, out, ending) implies out.len() == 0
                                && ending is None
                                && self.gives(facts, out, ending) by {
                                let (points, failure) = choose|
                                    points: Seq<ScoredPointOffset>,
                                    failure: Option<OperationError>,
                                |
                                    {
                                        &&& #[trigger] first.source.leads(facts, points, failure)
                                        &&& ending_of(
                                            resolved_points(facts, first.source.kind(), points).1,
                                            failure,
                                        ) == ending
                                        &&& out == first.buffered@ + arranged(
                                            ahead(first.lookahead) + resolved_points(
                                                facts,
                                                first.source.kind(),
                                                points,
                                            ).0,
                                            ending is Some,
                                        )
                                    };
                                assert(asked.leads(facts, points, failure));
                                let nothing = Seq::<ScoredPointOffset>::empty();
                                assert(self.source.leads(facts, nothing, failure));
                                let list = resolved_points(
                                    facts,
                                    first.source.kind(),
                                    points,
                                ).0;
                                assert(list.len() == 0);
                                assert(Seq::<ScoredPoint>::empty() + list =~= Seq::<
                                    ScoredPoint,
                                >::empty());
                                assert(out =~= Seq::<ScoredPoint>::empty());
                                assert(resolved_points(facts, self.source.kind(), nothing).0
                                    =~= Seq::<ScoredPoint>::empty());
                                assert(out =~= self.buffered@ + arranged(
                                    ahead(self.lookahead) + resolved_points(
                                        facts,
                                        self.source.kind(),
                                        nothing,
                                    ).0,
                                    ending is Some,
                                ));
                            }
                        }
                        return Ok(None);
                    },
                    Err(error) => {
                        proof {
                            assert forall|
                                facts: PointFacts,
                                out: Seq<ScoredPoint>,
                                ending: Option<OperationError>,
                            | #[trigger]
                                first.gives(facts, out, ending) implies out.len() == 0
                                && ending == Some(error) by {
                                let (points, failure) = choose|
                                    points: Seq<ScoredPointOffset>,
                                    failure: Option<OperationError>,
                                |
                                    {
                                        &&& #[trigger] first.source.leads(facts, points, failure)
                                        &&& ending_of(
                                            resolved_points(facts, first.source.kind(), points).1,
                                            failure,
                                        ) == ending
                                        &&& out == first.buffered@ + arranged(
                                            ahead(first.lookahead) + resolved_points(
                                                facts,
                                                first.source.kind(),
                                                points,
                                            ).0,
                                            ending is Some,
                                        )
                                    };
                                assert(asked.leads(facts, points, failure));
                                let list = resolved_points(
                                    facts,
                                    first.source.kind(),
                                    points,
                                ).0;
                                assert(list.len() == 0);
                                assert(Seq::<ScoredPoint>::empty() + list =~= Seq::<
                                    ScoredPoint,
                                >::empty());
                                assert(out =~= Seq::<ScoredPoint>::empty());
                            }
                        }
                        return Err(error);
                    },
                }
            },
        };
        let mut group: Vec<ScoredPoint> = Vec::new();
        group.push(start);
        proof {
            assert(group@ =~= seq![start]);
            assert forall|
                facts: PointFacts,
                out: Seq<ScoredPoint>,
                ending: Option<OperationError>,
            | #[trigger]
                first.gives(facts, out, ending) implies self.continues(facts, out, ending, group@) by {
                if taken is Some {
                    let (points, failure) = choose|
                        points: Seq<ScoredPointOffset>,
                        failure: Option<OperationError>,
                    |
                        {
                            &&& #[trigger] first.source.leads(facts, points, failure)
                            &&& ending_of(
                                resolved_points(facts, first.source.kind(), points).1,
                                failure,
                            ) == ending
                            &&& out == first.buffered@ + arranged(
                                ahead(first.lookahead) + resolved_points(
                                    facts,
                                    first.source.kind(),
                                    points,
                                ).0,
                                ending is Some,
                            )
                        };
                    assert(self.source.leads(facts, points, failure));
                    assert(out =~= arranged(
                        seq![start] + resolved_points(facts, first.source.kind(), points).0, ending is Some));
                }
            }
        }
        let score: i64 = start.score;
        let mut open = true;
        while open
            invariant
                self.wf(),
                first == *old(self),
                self.source.stop_signal() == first.source.stop_signal(),
                taken is Some || first.source.stop_signal().ensures((), false),
                !open ==> first.source.stop_signal().ensures((), false),
                self.source.kind() == first.source.kind(),
                self.source.visibility() == first.source.visibility(),
                self.source.identities() == first.source.identities(),
                self.source.versions() == first.source.versions(),
                forall|i: int| 0 <= i < group@.len() ==> first.found(#[trigger] group@[i]),
                self.lookahead matches Some(point) ==> first.found(point),
                self.buffered@.len() == 0,
                group@.len() > 0,
                group@[0].score == score,
                forall|i: int|
                    0 < i < group@.len() ==> equal_numbers((#[trigger] group@[i]).score, score),
                open ==> self.lookahead is None,
                self.lookahead matches Some(point) ==> !equal_numbers(point.score, score),
                forall|
                    facts: PointFacts,
                    out: Seq<ScoredPoint>,
                    ending: Option<OperationError>,
                | #[trigger]
                    first.gives(facts, out, ending) ==> if open {
                        self.continues(facts, out, ending, group@)
                    } else {
                        self.ends_run(facts, out, ending, group@)
                    },
            decreases self.source.left(), (if open { 1int } else { 0int }),
        {
            let ghost before = *self;
            match self.source.next() {
                Ok(Some(point)) => {
                    let ghost known = group@;
                    if are_equal_numbers(point.score, score) {
                        group.push(point);
                    } else {
                        self.lookahead = Some(point);
                        open = false;
                    }
                    proof {
                        assert forall|
                            facts: PointFacts,
                            out: Seq<ScoredPoint>,
                            ending: Option<OperationError>,
                        | #[trigger]
                            first.gives(facts, out, ending) implies if open {
                            self.continues(facts, out, ending, group@)
                        } else {
                            self.ends_run(facts, out, ending, group@)
                        } by {
                            assert(before.continues(facts, out, ending, known));
                            before.lemma_pulled(self, facts, out, ending, known, point);
                        }
                    }
                },
                Ok(None) => {
                    open = false;
                    proof {
                        assert forall|
                            facts: PointFacts,
                            out: Seq<ScoredPoint>,
                            ending: Option<OperationError>,
                        | #[trigger]
                            first.gives(facts, out, ending) implies self.ends_run(facts, out, ending, group@) by {
                            assert(before.continues(facts, out, ending, group@));
                            let (points, failure) = choose|
                                points: Seq<ScoredPointOffset>,
                                failure: Option<OperationError>,
                            |
                                {
                                    &&& #[trigger] before.source.leads(facts, points, failure)
                                    &&& ending_of(
                                        resolved_points(facts, before.source.kind(), points).1,
                                        failure,
                                    ) == ending
                                    &&& out == arranged(
                                        group@ + resolved_points(
                                            facts,
                                            before.source.kind(),
                                            points,
                                        ).0,
                                        ending is Some,
                                    )
                                };
                            assert(before.source.leads(facts, points, failure));
                            let nothing = Seq::<ScoredPointOffset>::empty();
                            assert(self.source.leads(facts, nothing, failure));
                            assert(resolved_points(facts, before.source.kind(), points).0
                                =~= Seq::<ScoredPoint>::empty());
                            assert(resolved_points(facts, before.source.kind(), nothing).0
                                =~= Seq::<ScoredPoint>::empty());
                        }
                    }
                },
                Err(error) => {
                    proof {
                        assert forall|
                            facts: PointFacts,
                            out: Seq<ScoredPoint>,
                            ending: Option<OperationError>,
                        | #[trigger]
                            first.gives(facts, out, ending) implies out.len() == 0
                            && ending == Some(error) by {
                            assert(before.continues(facts, out, ending, group@));
                            let (points, failure) = choose|
                                points: Seq<ScoredPointOffset>,
                                failure: Option<OperationError>,
                            |
                                {
                                    &&& #[trigger] before.source.leads(facts, points, failure)
                                    &&& ending_of(
                                        resolved_points(facts, before.source.kind(), points).1,
                                        failure,
                                    ) == ending
                                    &&& out == arranged(
                                        group@ + resolved_points(
                                            facts,
                                            before.source.kind(),
                                            points,
                                        ).0,
                                        ending is Some,
                                    )
                                };
                            assert(before.source.leads(facts, points, failure));
                            let list = resolved_points(facts, before.source.kind(), points).0;
                            assert(list.len() == 0);
                            assert(group@ + list =~= group@);
                            lemma_run_is(group@, group@.len() as int, 0);
                        }
                    }
                    return Err(error);
                },
            }
        }
        let sorted = sort_by_identity(&group);
        proof {
            assert(group.len() <= usize::MAX);
            lemma_by_identity(group@);
            assert forall|k: int| 0 <= k < sorted@.len() implies first.found(
                #[trigger] sorted@[k],
            ) by {
                assert(is_among(group@, sorted@[k]));
            }
        }
        let ghost run = group@;
        let ghost grouped = *self;
        let mut i: usize = 0;
        while i < sorted.len()
            invariant
                i <= sorted@.len(),
                self.buffered@ =~= sorted@.take(i as int),
                self.source == grouped.source,
                self.lookahead == grouped.lookahead,
            decreases sorted@.len() - i,
        {
            self.buffered.push_back(sorted[i]);
            i += 1;
        }
        assert(sorted@.take(i as int) =~= sorted@);
        let ghost filled = self.buffered@;
        let result = self.buffered.pop_front();
        proof {
            assert forall|
                facts: PointFacts,
                out: Seq<ScoredPoint>,
                ending: Option<OperationError>,
            | #[trigger]
                first.gives(facts, out, ending) implies out.len() > 0 && result == Some(out[0])
                && self.gives(facts, out.drop_first(), ending) by {
                assert(grouped.ends_run(facts, out, ending, run));
                let (points, failure) = choose|
                    points: Seq<ScoredPointOffset>,
                    failure: Option<OperationError>,
                |
                    {
                        &&& #[trigger] grouped.source.leads(facts, points, failure)
                        &&& ending_of(
                            resolved_points(facts, grouped.source.kind(), points).1,
                            failure,
                        ) == ending
                        &&& out == arranged(
                            run + (ahead(grouped.lookahead) + resolved_points(
                                facts,
                                grouped.source.kind(),
                                points,
                            ).0), ending is Some)
                        &&& grouped.lookahead is None ==> ending is None && resolved_points(
                            facts,
                            grouped.source.kind(),
                            points,
                        ).0.len() == 0
                    };
                let tail = ahead(grouped.lookahead) + resolved_points(
                    facts,
                    grouped.source.kind(),
                    points,
                ).0;
                lemma_regroup_run(run, tail, ending is Some);
                assert(out == by_identity(run) + arranged(tail, ending is Some));
                assert(filled == by_identity(run));
                assert(self.source.leads(facts, points, failure));
                assert(out.drop_first() =~= self.buffered@ + arranged(tail, ending is Some));
            }
        }
        Ok(result)
    }

    /// Whether the points to come are what a run goes on with.
    spec fn continues(
        &self,
        facts: PointFacts,
        out: Seq<ScoredPoint>,
        ending: Option<OperationError>,
        group: Seq<ScoredPoint>,
    ) -> bool {
        exists|points: Seq<ScoredPointOffset>, failure: Option<OperationError>|
            {
                &&& #[trigger] self.source.leads(facts, points, failure)
                &&& ending_of(
                    resolved_points(facts, self.source.kind(), points).1,
                    failure,
                ) == ending
                &&& out == arranged(
                    group + resolved_points(facts, self.source.kind(), points).0, ending is Some)
            }
    }

    /// Whether a run has ended, and what comes behind it is known.
    spec fn ends_run(
        &self,
        facts: PointFacts,
        out: Seq<ScoredPoint>,
        ending: Option<OperationError>,
        group: Seq<ScoredPoint>,
    ) -> bool {
        exists|points: Seq<ScoredPointOffset>, failure: Option<OperationError>|
            {
                &&& #[trigger] self.source.leads(facts, points, failure)
                &&& ending_of(
                    resolved_points(facts, self.source.kind(), points).1,
                    failure,
                ) == ending
                &&& out == arranged(
                    group + (ahead(self.lookahead) + resolved_points(
                        facts,
                        self.source.kind(),
                        points,
                    ).0), ending is Some)
                &&& self.lookahead is None ==> ending is None && resolved_points(
                    facts,
                    self.source.kind(),
                    points,
                ).0.len() == 0
            }
    }

    /// A pulled point joins the run or ends it.
    proof fn lemma_pulled(
        &self,
        after: &NativeStream<C, N, M, X, V, T>,
        facts: PointFacts,
        out: Seq<ScoredPoint>,
        ending: Option<OperationError>,
        group: Seq<ScoredPoint>,
        point: ScoredPoint,
    )
        requires
            self.continues(facts, out, ending, group),
            after.source.kind() == self.source.kind(),
            forall|points: Seq<ScoredPointOffset>, failure: Option<OperationError>| #[trigger]
                self.source.leads(facts, points, failure) ==> {
                    let (list, fault) = resolved_points(facts, self.source.kind(), points);
                    &&& list.len() > 0
                    &&& {
                        &&& point == list[0]
                        &&& exists|left: Seq<ScoredPointOffset>|
                            {
                                &&& #[trigger] after.source.leads(facts, left, failure)
                                &&& resolved_points(facts, self.source.kind(), left) == (
                                    list.drop_first(),
                                    fault,
                                )
                            }
                    }
                },
        ensures
            after.continues(facts, out, ending, group.push(point)),
            after.lookahead == Some(point) ==> after.ends_run(facts, out, ending, group),
    {
        let kind = self.source.kind();
        let (points, failure) = choose|
            points: Seq<ScoredPointOffset>,
            failure: Option<OperationError>,
        |
            {
                &&& #[trigger] self.source.leads(facts, points, failure)
                &&& ending_of(resolved_points(facts, kind, points).1, failure) == ending
                &&& out == arranged(group + resolved_points(facts, kind, points).0, ending is Some)
            };
        let list = resolved_points(facts, kind, points).0;
        assert(self.source.leads(facts, points, failure));
        let left = choose|left: Seq<ScoredPointOffset>|
            {
                &&& #[trigger] after.source.leads(facts, left, failure)
                &&& resolved_points(facts, kind, left) == (
                    list.drop_first(),
                    resolved_points(facts, kind, points).1,
                )
            };
        assert(after.source.leads(facts, left, failure));
        assert(group.push(point) + list.drop_first() =~= group + list);
        assert(group + (seq![point] + list.drop_first()) =~= group + list);
    }
}

/// A run followed by another score is regrouped by itself.
proof fn lemma_regroup_run(run: Seq<ScoredPoint>, tail: Seq<ScoredPoint>, broken: bool)
    requires
        run.len() > 0,
        tail.len() > 0 || !broken,
        forall|i: int|
            0 < i < run.len() ==> equal_numbers((#[trigger] run[i]).score, run[0].score),
        tail.len() > 0 ==> !equal_numbers(tail[0].score, run[0].score),
    ensures
        arranged(run + tail, broken) == by_identity(run) + arranged(tail, broken),
{
    let whole = run + tail;
    assert forall|i: int| 0 < i < run.len() implies equal_numbers(
        (#[trigger] whole[i]).score,
        whole[0].score,
    ) by {
        assert(whole[i] == run[i]);
    }
    lemma_run_is(whole, run.len() as int, 0);
    assert(whole.take(run.len() as int) =~= run);
    assert(whole.skip(run.len() as int) =~= tail);
}

/// Checks the query of a dense session or stream.
pub fn check_dense_query(query: &Vec<u32>, session: bool) -> (result: OperationResult<()>)
    ensures
        query@.len() > 0 && crate::dense_plan::finite_vector(query@) ==> result == Ok::<
            (),
            OperationError,
        >(()),
        query@.len() == 0 || !crate::dense_plan::finite_vector(query@) ==> result == refused::<()>(
            if session {
                Fault::DenseSessionQuery
            } else {
                Fault::DenseStreamQuery
            },
        ),
{
    if query.len() == 0 || !crate::dense_plan::is_finite_vector(query) {
        if session {
            return refuse(Fault::DenseSessionQuery);
        }
        return refuse(Fault::DenseStreamQuery);
    }
    Ok(())
}

/// Checks the request of a sparse stream: batches hold something, the vector exists,
/// and its impacts are not changed by document frequencies.
pub fn check_sparse_request(
    posting_batch_size: usize,
    vector_exists: bool,
    vector_name: &String,
    configured_idf: bool,
    requires_idf: bool,
) -> (result: OperationResult<()>)
    ensures
        posting_batch_size == 0 ==> result == refused::<()>(Fault::ZeroPostingBatch),
        posting_batch_size > 0 && !vector_exists ==> {
            &&& result matches Err(OperationError::VectorNameNotExists { name })
            &&& name@ == vector_name@
        },
        posting_batch_size > 0 && vector_exists && (configured_idf || requires_idf) ==> result
            == Err::<(), OperationError>(OperationError::WrongSparse),
        posting_batch_size > 0 && vector_exists && !configured_idf && !requires_idf ==> result
            == Ok::<(), OperationError>(()),
{
    if posting_batch_size == 0 {
        return refuse(Fault::ZeroPostingBatch);
    }
    if !vector_exists {
        return Err(OperationError::VectorNameNotExists { name: vector_name.clone() });
    }
    if configured_idf || requires_idf {
        return Err(OperationError::WrongSparse);
    }
    Ok(())
}

proof fn lemma_by_identity_keeps(points: Seq<ScoredPoint>, at: int)
    requires
        points.len() <= usize::MAX,
        0 <= at < points.len(),
    ensures
        is_among(by_identity(points), points[at]),
{
    let entries = identity_entries(points);
    let order = ordered(entries);
    lemma_ordered(entries);
    assert(entries.contains(entries[at]));
    assert(order.contains(entries[at])) by {
        broadcast use vstd::seq_lib::group_to_multiset_ensures;

        assert(entries.to_multiset().count(entries[at]) > 0);
    }
    let place = choose|place: int| 0 <= place < order.len() && order[place] == entries[at];
    assert(order.len() == points.len());
    assert(by_identity(points)[place] == points[at]);
}

/// Regrouping loses no point, falls by score, and puts equal scores in the order of their
/// identities.
pub proof fn law_regrouping_keeps_every_point(points: Seq<ScoredPoint>, at: int)
    requires
        points.len() <= usize::MAX,
        forall|i: int, j: int|
            0 <= i < j < points.len() ==> (#[trigger] points[i]).score >= (
            #[trigger] points[j]).score,
        forall|i: int| 0 <= i < points.len() ==> number_key((#[trigger] points[i]).score),
        0 <= at < points.len(),
    ensures
        regrouped(points).len() == points.len(),
        is_among(regrouped(points), points[at]),
        forall|i: int, j: int|
            #![trigger regrouped(points)[i], regrouped(points)[j]]
            0 <= i < j < points.len() ==> regrouped(points)[i].score > regrouped(points)[j].score
                || regrouped(points)[i].score == regrouped(points)[j].score
                && regrouped(points)[i].id.rank() <= regrouped(points)[j].id.rank(),
{
    law_regrouped_order_is_exact(points);
    lemma_regrouping_keeps(points, at);
    let all = regrouped(points);
    assert forall|i: int, j: int|
        #![trigger all[i], all[j]]
        0 <= i < j < points.len() implies all[i].score > all[j].score || all[i].score
        == all[j].score && all[i].id.rank() <= all[j].id.rank() by {
        assert(!ranks_before(all[j].score, all[j].id, all[i].score, all[i].id));
    }
}

proof fn lemma_regrouping_keeps(points: Seq<ScoredPoint>, at: int)
    requires
        points.len() <= usize::MAX,
        0 <= at < points.len(),
    ensures
        is_among(regrouped(points), points[at]),
    decreases points.len(),
{
    lemma_run_length(points, 0);
    let run = run_length(points, 0);
    let head = by_identity(points.take(run));
    let tail = regrouped(points.skip(run));
    let all = regrouped(points);
    assert(all == head + tail);
    if at < run {
        lemma_by_identity_keeps(points.take(run), at);
        let place = choose|place: int| 0 <= place < head.len() && #[trigger] head[place] == points[at];
        assert(all[place] == points[at]);
    } else {
        lemma_regrouping_keeps(points.skip(run), at - run);
        let place = choose|place: int|
            0 <= place < tail.len() && #[trigger] tail[place] == points.skip(run)[at - run];
        assert(all[head.len() + place] == points[at]);
    }
}

/// A stream that breaks off hands out what it would have handed out first, and withholds
/// only points of the last score, whose other points it does not know.
pub proof fn law_broken_streams_withhold_the_last_score(points: Seq<ScoredPoint>)
    requires
        points.len() > 0,
        forall|i: int| 0 <= i < points.len() ==> number_key((#[trigger] points[i]).score),
    ensures
        arranged(points, true).len() < points.len(),
        arranged(points, true) == regrouped(points).take(arranged(points, true).len() as int),
        forall|i: int|
            arranged(points, true).len() <= i < points.len() ==> (#[trigger] points[i]).score
                == points[points.len() - 1].score,
        arranged(points, true).len() > 0 ==> points[arranged(points, true).len() - 1].score
            != points[points.len() - 1].score,
        arranged(points, false) == regrouped(points),
    decreases points.len(),
{
    lemma_arranged(points);
    lemma_run_length(points, 0);
    let run = run_length(points, 0);
    let head = by_identity(points.take(run));
    let tail = points.skip(run);
    let known = arranged(points, true);
    let last = points[points.len() - 1].score;
    assert(points[0].score == points[0].score);
    if run == points.len() {
        assert(known =~= Seq::<ScoredPoint>::empty());
        assert(regrouped(points).take(0) =~= known);
    } else {
        law_broken_streams_withhold_the_last_score(tail);
        let rest = arranged(tail, true);
        assert(known == head + rest);
        assert(regrouped(points) == head + regrouped(tail));
        assert(tail[tail.len() - 1] == points[points.len() - 1]);
        assert(rest.len() <= regrouped(tail).len()) by {
            lemma_regrouped_length(tail);
        }
        assert(regrouped(points).take(known.len() as int) =~= known) by {
            assert(regrouped(tail).take(rest.len() as int) =~= rest);
            assert forall|i: int| 0 <= i < known.len() implies #[trigger] known[i] == regrouped(
                points,
            )[i] by {
                if i >= head.len() {
                    assert(regrouped(tail).take(rest.len() as int)[i - head.len()]
                        == rest[i - head.len()]);
                }
            }
        }
        assert forall|i: int| known.len() <= i < points.len() implies (#[trigger] points[i]).score
            == last by {
            assert(tail[i - run].score == last);
        }
        if rest.len() > 0 {
            assert(tail[rest.len() - 1] == points[known.len() - 1]);
        } else {
            assert(points[run - 1].score == points[0].score) by {
                if run > 1 {
                    assert(equal_numbers(points[run - 1].score, points[0].score));
                }
            }
            assert(tail[0].score == last);
            assert(points[run].score == last);
        }
    }
}

proof fn lemma_regrouped_length(points: Seq<ScoredPoint>)
    ensures
        regrouped(points).len() == points.len(),
    decreases points.len(),
{
    if points.len() > 0 {
        lemma_run_length(points, 0);
        lemma_regrouped_length(points.skip(run_length(points, 0)));
    }
}

/// A point that cannot be resolved ends a stream as inconsistent, before a failure of the
/// cursor does.
pub proof fn law_endings(fault: Fault, failure: Option<OperationError>)
    ensures
        ending_of(Some(fault), failure) == Some(OperationError::InconsistentStorage(fault)),
        ending_of(None, failure) == failure,
{
}

} // verus!
