//! Fail-closed k-way merge of exact streams, one point of each source at a time.

pub use crate::exact_rank_stream::{
    ExactScoreMergeTelemetry, ExactScoreStream, ExactScoredIdentity,
};

use crate::exact_rank_stream::{
    all_empty, course_of, leads_all, mergeable, point_before, taken_from,
};
use crate::id_index::IdSet;
use crate::operation_error::{refuse, refused, same_error, Fault, OperationError, OperationResult};
use crate::order::{finite_key, is_finite_key, scored_before, ExtendedPointId};
use crate::tables::{copied, repeated};
use vstd::prelude::*;

verus! {

/// What is wrong with the next point of a source.
pub open spec fn point_fault(
    source: int,
    previous: Option<ExactScoredIdentity>,
    point: ExactScoredIdentity,
) -> Option<Fault> {
    if !finite_key(point.score) {
        Some(Fault::NonFiniteSourceScore { source: source as usize })
    } else if previous is Some && point_before(point, previous->0) {
        Some(Fault::SourceOrder { source: source as usize })
    } else {
        None
    }
}

/// What is wrong with a source that waits for its next point: the point is refused, or
/// there is a failure in its place.
pub open spec fn source_error(
    lists: Seq<Seq<ExactScoredIdentity>>,
    failures: Seq<Option<OperationError>>,
    waiting: Seq<bool>,
    previous: Seq<Option<ExactScoredIdentity>>,
    source: int,
) -> Option<OperationError> {
    if !waiting[source] {
        None
    } else if lists[source].len() == 0 {
        failures[source]
    } else {
        match point_fault(source, previous[source], lists[source][0]) {
            Some(fault) => Some(OperationError::ValidationError(fault)),
            None => None,
        }
    }
}

/// What is wrong with the first source, from the given one on, whose next point is
/// refused or that fails.
pub open spec fn refill_error(
    lists: Seq<Seq<ExactScoredIdentity>>,
    failures: Seq<Option<OperationError>>,
    waiting: Seq<bool>,
    previous: Seq<Option<ExactScoredIdentity>>,
    from: int,
) -> Option<OperationError>
    decreases lists.len() - from,
{
    if from >= lists.len() {
        None
    } else if source_error(lists, failures, waiting, previous, from) is Some {
        source_error(lists, failures, waiting, previous, from)
    } else {
        refill_error(lists, failures, waiting, previous, from + 1)
    }
}

/// Whether the head of a list is not behind any other, and before those of the
/// earlier lists.
pub open spec fn wins(lists: Seq<Seq<ExactScoredIdentity>>, list: int) -> bool {
    &&& 0 <= list < lists.len()
    &&& lists[list].len() > 0
    &&& forall|other: int|
        0 <= other < lists.len() && (#[trigger] lists[other]).len() > 0 ==> !point_before(
            lists[other][0],
            lists[list][0],
        )
    &&& forall|other: int|
        0 <= other < list && (#[trigger] lists[other]).len() > 0 ==> point_before(
            lists[list][0],
            lists[other][0],
        )
}

/// Whether each of a number of sources is the given one.
pub open spec fn only(count: nat, chosen: int) -> Seq<bool> {
    Seq::new(count, |source: int| source == chosen)
}

/// The last points of the sources after those that waited were refilled.
pub open spec fn previous_after(
    lists: Seq<Seq<ExactScoredIdentity>>,
    waiting: Seq<bool>,
    previous: Seq<Option<ExactScoredIdentity>>,
) -> Seq<Option<ExactScoredIdentity>> {
    Seq::new(
        previous.len(),
        |source: int|
            if waiting[source] && lists[source].len() > 0 {
                Some(lists[source][0])
            } else {
                previous[source]
            },
    )
}

/// Of lists that can be merged, the winning head stands before everything else.
pub proof fn law_winner_leads_all(lists: Seq<Seq<ExactScoredIdentity>>, list: int)
    requires
        mergeable(lists),
        wins(lists, list),
    ensures
        leads_all(lists, list),
{
    assert forall|other: int, i: int|
        0 <= other < lists.len() && 0 <= i < lists[other].len() && !(other == list && i
            == 0) implies point_before(lists[list][0], #[trigger] lists[other][i]) by {
        if other != list {
            assert(!point_before(lists[other][0], lists[list][0]));
            if lists[other][0].id.rank() == lists[list][0].id.rank() {
                crate::order::lemma_rank_is_injective(lists[other][0].id, lists[list][0].id);
                assert(lists[other][0].id == lists[list][0].id);
            }
            assert(point_before(lists[list][0], lists[other][0]));
            if i > 0 {
                assert(point_before(lists[other][0], lists[other][i]));
            }
        } else {
            assert(point_before(lists[list][0], lists[list][i]));
        }
    }
}

/// Lists that can be merged, that go on behind what was pulled and that do not fail give
/// no fault.
pub proof fn law_proper_lists_have_no_fault(
    lists: Seq<Seq<ExactScoredIdentity>>,
    failures: Seq<Option<OperationError>>,
    waiting: Seq<bool>,
    previous: Seq<Option<ExactScoredIdentity>>,
    from: int,
)
    requires
        mergeable(lists),
        0 <= from <= lists.len(),
        waiting.len() == lists.len(),
        previous.len() == lists.len(),
        failures == Seq::new(lists.len(), |source: int| None::<OperationError>),
        forall|source: int|
            0 <= source < lists.len() && waiting[source] && (#[trigger] lists[source]).len() > 0
                && previous[source] is Some ==> !point_before(
                lists[source][0],
                previous[source]->0,
            ),
    ensures
        refill_error(lists, failures, waiting, previous, from) is None,
    decreases lists.len() - from,
{
    if from < lists.len() {
        if lists[from].len() > 0 {
            assert(finite_key(lists[from][0].score));
        }
        law_proper_lists_have_no_fault(lists, failures, waiting, previous, from + 1);
    }
}

/// Two winners are one.
pub proof fn law_winner_is_unique(lists: Seq<Seq<ExactScoredIdentity>>, left: int, right: int)
    requires
        wins(lists, left),
        wins(lists, right),
    ensures
        left == right,
{
    if left < right {
        assert(lists[left].len() > 0 && lists[right].len() > 0);
        assert(point_before(lists[right][0], lists[left][0]));
    } else if right < left {
        assert(lists[left].len() > 0 && lists[right].len() > 0);
        assert(point_before(lists[left][0], lists[right][0]));
    }
}

/// Lazily restores the order of a channel from exact local streams.
///
/// Every source is primed before the first point and refilled before the next
/// winner is selected, so that no unobserved head can overtake a returned point.
/// Violations of a local order, repeated identities, scores that are not finite
/// and failures all fail closed: none is mistaken for an end.
pub struct KWayExactScoreStream<S> {
    sources: Vec<S>,
    heads: Vec<Option<ExactScoredIdentity>>,
    previous: Vec<Option<ExactScoredIdentity>>,
    needs_refill: Vec<bool>,
    seen: IdSet,
    source_pulls: Vec<usize>,
    source_exhausted: Vec<bool>,
    points_emitted: usize,
    terminal_error: Option<OperationError>,
    error_delivered: bool,
    last: Ghost<Option<ExactScoredIdentity>>,
}

impl<S: ExactScoreStream> KWayExactScoreStream<S> {
    /// Whether every source has a head, waits for one or has ended, and no head
    /// belongs before what was emitted.
    pub closed spec fn wf(&self) -> bool {
        &&& self.formed()
        &&& self.terminal_error is None ==> self.in_order(0)
    }

    /// Whether the tables belong to the sources.
    closed spec fn formed(&self) -> bool {
        let count = self.sources@.len();
        &&& 0 < count
        &&& self.heads@.len() == count
        &&& self.previous@.len() == count
        &&& self.needs_refill@.len() == count
        &&& self.source_pulls@.len() == count
        &&& self.source_exhausted@.len() == count
    }

    /// Whether what comes next cannot belong before what was emitted; the sources
    /// before the given one do not wait.
    closed spec fn in_order(&self, refilled: int) -> bool {
        &&& forall|source: int| 0 <= source < self.sources@.len() ==> self.source_in_order(source)
        &&& forall|source: int|
            0 <= source < refilled ==> (#[trigger] self.heads@[source] is Some
                || self.source_exhausted@[source])
        &&& self.last@ matches Some(last) ==> self.seen@.contains(last.id)
    }

    /// What holds of the table entries of one source.
    closed spec fn source_in_order(&self, source: int) -> bool {
        match self.heads@[source] {
            Some(point) => {
                &&& !self.needs_refill@[source]
                &&& !self.source_exhausted@[source]
                &&& self.previous@[source] == Some(point)
                &&& finite_key(point.score)
                &&& self.last@ matches Some(last) ==> !point_before(point, last)
            },
            None => {
                &&& self.source_exhausted@[source] || self.needs_refill@[source]
                &&& self.needs_refill@[source] ==> {
                    &&& !self.source_exhausted@[source]
                    &&& self.previous@[source] == self.last@
                }
            },
        }
    }

    /// The number of sources.
    pub closed spec fn source_count(&self) -> nat {
        self.sources@.len()
    }

    /// What every source has still to give, its head included; `None` where some
    /// source is not known.
    pub closed spec fn lists(&self) -> Option<Seq<Seq<ExactScoredIdentity>>> {
        if forall|source: int|
            0 <= source < self.sources@.len() && !self.source_exhausted@[source]
                ==> course_of(
            (#[trigger] self.sources@[source]).rest(),
            self.sources@[source].failing(),
        ) is Some {
            Some(Seq::new(self.sources@.len(), |source: int| self.list_of(source)))
        } else {
            None
        }
    }

    /// What one source has still to give.
    closed spec fn list_of(&self, source: int) -> Seq<ExactScoredIdentity> {
        if self.source_exhausted@[source] {
            Seq::empty()
        } else if self.heads@[source] is Some {
            seq![self.heads@[source]->0] + self.points_behind(source)
        } else {
            self.points_behind(source)
        }
    }

    /// What one source has still to give behind its head.
    closed spec fn points_behind(&self, source: int) -> Seq<ExactScoredIdentity> {
        let (points, _) = course_of(
            self.sources@[source].rest(),
            self.sources@[source].failing(),
        ).unwrap();
        points
    }

    /// How one source fails once it has given everything, where it does.
    closed spec fn failure_of(&self, source: int) -> Option<OperationError> {
        let (_, failure) = course_of(
            self.sources@[source].rest(),
            self.sources@[source].failing(),
        ).unwrap();
        if self.source_exhausted@[source] {
            None
        } else {
            failure
        }
    }

    /// Whether a source has not ended and is known to fail.
    pub closed spec fn is_failing(&self, source: int) -> bool {
        &&& !self.source_exhausted@[source]
        &&& course_of(self.sources@[source].rest(), self.sources@[source].failing()) matches Some(
            (_, Some(_)),
        )
    }

    /// How every source fails once it has given everything, where it does.
    pub closed spec fn failures(&self) -> Seq<Option<OperationError>> {
        Seq::new(self.sources@.len(), |source: int| self.failure_of(source))
    }

    /// Which sources wait for their next point.
    pub closed spec fn waiting(&self) -> Seq<bool> {
        self.needs_refill@
    }

    /// The point that every source yielded last.
    pub closed spec fn previous(&self) -> Seq<Option<ExactScoredIdentity>> {
        self.previous@
    }

    /// The identities that were emitted.
    pub closed spec fn emitted_ids(&self) -> Set<ExtendedPointId> {
        self.seen@
    }

    /// The point that was emitted last.
    pub closed spec fn last(&self) -> Option<ExactScoredIdentity> {
        self.last@
    }

    /// Whether a failure has ended the merge.
    pub closed spec fn has_failed(&self) -> bool {
        self.terminal_error is Some
    }

    /// The failure that has ended the merge.
    pub closed spec fn failure(&self) -> OperationError {
        self.terminal_error->0
    }

    /// Whether the failure has been handed out.
    pub closed spec fn failure_was_delivered(&self) -> bool {
        self.error_delivered
    }

    /// How many points were emitted.
    pub closed spec fn emitted(&self) -> usize {
        self.points_emitted
    }

    /// How many points every source has yielded.
    pub closed spec fn pulls(&self) -> Seq<usize> {
        self.source_pulls@
    }

    /// Which sources have ended.
    pub closed spec fn exhausted(&self) -> Seq<bool> {
        self.source_exhausted@
    }

    /// A merge of the given sources; none of them is pulled.
    pub fn new(sources: Vec<S>) -> (result: OperationResult<KWayExactScoreStream<S>>)
        ensures
            sources@.len() == 0 ==> result == refused::<KWayExactScoreStream<S>>(
                Fault::NoScoreSources,
            ),
            sources@.len() > 0 ==> {
                &&& result matches Ok(stream)
                &&& stream.wf()
                &&& stream.source_count() == sources@.len()
                &&& stream.emitted() == 0
                &&& stream.emitted_ids() == Set::<ExtendedPointId>::empty()
                &&& stream.last() is None
                &&& !stream.has_failed()
                &&& !stream.failure_was_delivered()
                &&& stream.waiting() == Seq::new(sources@.len(), |source: int| true)
                &&& stream.previous() == Seq::new(
                    sources@.len(),
                    |source: int| None::<ExactScoredIdentity>,
                )
                &&& stream.pulls() == Seq::new(sources@.len(), |source: int| 0usize)
                &&& stream.exhausted() == Seq::new(sources@.len(), |source: int| false)
                &&& forall|lists: Seq<Seq<ExactScoredIdentity>>| #[trigger]
                    crate::exact_rank_stream::score_streams_yield(sources@, lists)
                        ==> stream.lists() == Some(lists) && stream.failures() == Seq::new(
                        lists.len(),
                        |source: int| None::<OperationError>,
                    )
                &&& forall|
                    lists: Seq<Seq<ExactScoredIdentity>>,
                    failures: Seq<Option<OperationError>>,
                | #[trigger]
                    score_streams_take(sources@, lists, failures) ==> stream.lists() == Some(lists)
                        && stream.failures() == failures
            },
    {
        if sources.len() == 0 {
            return refuse(Fault::NoScoreSources);
        }
        let count: usize = sources.len();
        let stream = KWayExactScoreStream {
            sources,
            heads: repeated(None, count),
            previous: repeated(None, count),
            needs_refill: repeated(true, count),
            seen: IdSet::new(),
            source_pulls: repeated(0, count),
            source_exhausted: repeated(false, count),
            points_emitted: 0,
            terminal_error: None,
            error_delivered: false,
            last: Ghost(None),
        };
        proof {
            assert(stream.waiting() =~= Seq::new(sources@.len(), |source: int| true));
            assert(stream.previous() =~= Seq::new(
                sources@.len(),
                |source: int| None::<ExactScoredIdentity>,
            ));
            assert(stream.pulls() =~= Seq::new(sources@.len(), |source: int| 0usize));
            assert(stream.exhausted() =~= Seq::new(sources@.len(), |source: int| false));
            assert forall|lists: Seq<Seq<ExactScoredIdentity>>| #[trigger]
                crate::exact_rank_stream::score_streams_yield(sources@, lists) implies stream.lists()
                == Some(lists) by {
                assert(Seq::new(sources@.len(), |source: int| stream.list_of(source)) =~= lists);
                assert(stream.failures() =~= Seq::new(
                    lists.len(),
                    |source: int| None::<OperationError>,
                ));
            }
            assert forall|
                lists: Seq<Seq<ExactScoredIdentity>>,
                failures: Seq<Option<OperationError>>,
            | #[trigger]
                score_streams_take(sources@, lists, failures) implies stream.lists() == Some(lists)
                && stream.failures() == failures by {
                assert(Seq::new(sources@.len(), |source: int| stream.list_of(source)) =~= lists);
                assert(stream.failures() =~= failures);
            }
        }
        Ok(stream)
    }

    /// What the merge has done.
    pub fn telemetry(&self) -> (telemetry: ExactScoreMergeTelemetry)
        ensures
            telemetry.points_emitted == self.emitted(),
            telemetry.source_pulls@ == self.pulls(),
            telemetry.source_exhausted@ == self.exhausted(),
    {
        ExactScoreMergeTelemetry {
            source_pulls: copied(&self.source_pulls),
            source_exhausted: copied(&self.source_exhausted),
            points_emitted: self.points_emitted,
        }
    }

    /// Turns the merge into a stream of identities, for fusion.
    pub fn into_rank_stream(self) -> (stream: MergedRanks<S>)
        requires
            self.wf(),
        ensures
            stream.merge() == self,
    {
        MergedRanks { merge: self }
    }

    /// Ends the merge with a failure.
    fn fail(&mut self, error: OperationError)
        requires
            old(self).formed(),
        ensures
            final(self).wf(),
            final(self).has_failed(),
            final(self).failure() == error,
            final(self).failure_was_delivered() == old(self).failure_was_delivered(),
            final(self).emitted() == old(self).emitted(),
            final(self).exhausted() == old(self).exhausted(),
            final(self).source_count() == old(self).source_count(),
    {
        let count: usize = self.sources.len();
        self.terminal_error = Some(error);
        self.heads = repeated(None, count);
        self.needs_refill = repeated(false, count);
    }

    /// Pulls the next point of a source that waits for one.
    fn refill(&mut self, source: usize) -> (result: OperationResult<()>)
        requires
            old(self).formed(),
            old(self).terminal_error is None,
            source < old(self).sources@.len(),
            old(self).in_order(source as int),
        ensures
            final(self).formed(),
            result is Ok ==> final(self).in_order(source + 1),
            final(self).sources@.len() == old(self).sources@.len(),
            final(self).terminal_error == old(self).terminal_error,
            final(self).error_delivered == old(self).error_delivered,
            final(self).points_emitted == old(self).points_emitted,
            final(self).seen@ == old(self).seen@,
            final(self).last@ == old(self).last@,
            forall|other: int|
                0 <= other < old(self).sources@.len() && other != source ==> {
                    &&& #[trigger] final(self).heads@[other] == old(self).heads@[other]
                    &&& final(self).sources@[other] == old(self).sources@[other]
                    &&& final(self).previous@[other] == old(self).previous@[other]
                    &&& final(self).needs_refill@[other] == old(self).needs_refill@[other]
                    &&& final(self).source_exhausted@[other] == old(self).source_exhausted@[other]
                    &&& final(self).source_pulls@[other] == old(self).source_pulls@[other]
                },
            result is Ok ==> !final(self).needs_refill@[source as int],
            old(self).is_failing(source as int) ==> {
                &&& !final(self).source_exhausted@[source as int]
                &&& result is Ok ==> final(self).is_failing(source as int)
            },
            old(self).lists() matches Some(lists) ==> match source_error(
                lists,
                old(self).failures(),
                old(self).needs_refill@,
                old(self).previous@,
                source as int,
            ) {
                Some(error) => result == Err::<(), OperationError>(error),
                None => {
                    &&& result == Ok::<(), OperationError>(())
                    &&& final(self).lists() == Some(lists)
                    &&& final(self).failures() == old(self).failures()
                    &&& counts_refill(*old(self), lists, *final(self), source as int)
                    &&& final(self).previous@[source as int] == (if old(self).needs_refill@[source as int] && lists[source as int].len() > 0 {
                        Some(lists[source as int][0])
                    } else {
                        old(self).previous@[source as int]
                    })
                },
            },
    {
        if !self.needs_refill[source] || self.source_exhausted[source] {
            assert(self.source_in_order(source as int));
            assert(!self.needs_refill@[source as int]);
            return Ok(());
        }
        assert(self.source_in_order(source as int));
        let ghost known = self.lists();
        let ghost whole = self.points_behind(source as int);
        let ghost ending = self.failure_of(source as int);
        proof {
            if known is Some {
                assert(course_of(
                    self.sources@[source as int].rest(),
                    self.sources@[source as int].failing(),
                ) is Some);
                assert(known->0[source as int] == self.list_of(source as int));
                assert(self.list_of(source as int) == whole);
                assert(self.failures()[source as int] == ending);
            }
        }
        self.needs_refill.set(source, false);
        let next = self.sources[source].next();
        let point = match next {
            Ok(Some(point)) => point,
            Ok(None) => {
                self.source_exhausted.set(source, true);
                proof {
                    self.lemma_others_in_order(old(self), source);
                    if known is Some {
                        assert(whole =~= Seq::<ExactScoredIdentity>::empty());
                        self.lemma_other_lists(old(self), source, known->0);
                    }
                }
                return Ok(());
            },
            Err(error) => {
                return Err(error);
            },
        };
        if !is_finite_key(point.score) {
            return refuse(Fault::NonFiniteSourceScore { source });
        }
        match self.previous[source] {
            Some(earlier) => {
                if scored_before(point.score, point.id, earlier.score, earlier.id) {
                    return refuse(Fault::SourceOrder { source });
                }
            },
            None => {},
        }
        self.source_pulls.set(source, self.source_pulls[source].saturating_add(1));
        self.previous.set(source, Some(point));
        self.heads.set(source, Some(point));
        proof {
            self.lemma_others_in_order(old(self), source);
            if known is Some {
                assert(seq![whole[0]] + whole.drop_first() =~= whole);
                self.lemma_other_lists(old(self), source, known->0);
            }
        }
        Ok(())
    }

    /// The sources that were not touched are as they were.
    proof fn lemma_others_in_order(&self, before: &KWayExactScoreStream<S>, source: usize)
        requires
            before.formed(),
            self.formed(),
            source < before.sources@.len(),
            self.sources@.len() == before.sources@.len(),
            before.in_order(source as int),
            self.last@ == before.last@,
            self.seen@ == before.seen@,
            self.source_in_order(source as int),
            self.heads@[source as int] is Some || self.source_exhausted@[source as int],
            forall|other: int|
                0 <= other < before.sources@.len() && other != source ==> {
                    &&& #[trigger] self.heads@[other] == before.heads@[other]
                    &&& self.previous@[other] == before.previous@[other]
                    &&& self.needs_refill@[other] == before.needs_refill@[other]
                    &&& self.source_exhausted@[other] == before.source_exhausted@[other]
                },
        ensures
            self.in_order(source + 1),
    {
        assert forall|other: int| 0 <= other < self.sources@.len() implies self.source_in_order(
            other,
        ) by {
            if other != source {
                assert(before.source_in_order(other));
                assert(self.heads@[other] == before.heads@[other]);
            }
        }
        assert forall|other: int| 0 <= other < source + 1 implies (
        #[trigger] self.heads@[other] is Some || self.source_exhausted@[other]) by {
            if other != source {
                assert(before.heads@[other] is Some || before.source_exhausted@[other]);
            }
        }
    }

    /// A refill changes nothing of what the sources have still to give.
    proof fn lemma_other_lists(
        &self,
        before: &KWayExactScoreStream<S>,
        source: usize,
        lists: Seq<Seq<ExactScoredIdentity>>,
    )
        requires
            before.formed(),
            self.formed(),
            source < before.sources@.len(),
            self.sources@.len() == before.sources@.len(),
            before.lists() == Some(lists),
            !self.source_exhausted@[source as int] ==> course_of(
                self.sources@[source as int].rest(),
                self.sources@[source as int].failing(),
            ) is Some,
            self.list_of(source as int) == lists[source as int],
            self.failure_of(source as int) == before.failure_of(source as int),
            forall|other: int|
                0 <= other < before.sources@.len() && other != source ==> {
                    &&& #[trigger] self.heads@[other] == before.heads@[other]
                    &&& self.sources@[other] == before.sources@[other]
                    &&& self.source_exhausted@[other] == before.source_exhausted@[other]
                },
        ensures
            self.lists() == Some(lists),
            self.failures() == before.failures(),
    {
        assert forall|other: int|
            0 <= other < self.sources@.len() && !self.source_exhausted@[other] implies course_of(
            (#[trigger] self.sources@[other]).rest(),
            self.sources@[other].failing(),
        ) is Some by {
            if other != source {
                assert(self.heads@[other] == before.heads@[other]);
                let _ = before.sources@[other];
            }
        }
        assert forall|other: int| 0 <= other < self.sources@.len() implies self.failure_of(other)
            == #[trigger] before.failure_of(other) by {
            if other != source {
                assert(self.heads@[other] == before.heads@[other]);
            }
        }
        assert(self.failures() =~= before.failures());
        assert forall|other: int| 0 <= other < self.sources@.len() implies self.list_of(other)
            == #[trigger] lists[other] by {
            if other != source {
                assert(self.heads@[other] == before.heads@[other]);
                assert(lists[other] == before.list_of(other));
            }
        }
        assert(Seq::new(self.sources@.len(), |other: int| self.list_of(other)) =~= lists);
    }

    /// The source whose head comes next: the first whose head no other head belongs
    /// before.
    fn winner(&self) -> (result: Option<usize>)
        requires
            self.formed(),
        ensures
            match result {
                Some(source) => {
                    &&& source < self.heads@.len()
                    &&& self.heads@[source as int] is Some
                    &&& forall|other: int|
                        0 <= other < self.heads@.len() && (#[trigger] self.heads@[other]) is Some
                            ==> !point_before(
                            self.heads@[other]->0,
                            self.heads@[source as int]->0,
                        )
                    &&& forall|other: int|
                        0 <= other < source && (#[trigger] self.heads@[other]) is Some
                            ==> point_before(
                            self.heads@[source as int]->0,
                            self.heads@[other]->0,
                        )
                },
                None => forall|other: int|
                    0 <= other < self.heads@.len() ==> (#[trigger] self.heads@[other]) is None,
            },
    {
        let mut best: Option<(usize, ExactScoredIdentity)> = None;
        let mut source: usize = 0;
        while source < self.heads.len()
            invariant
                source <= self.heads@.len(),
                match best {
                    Some((at, point)) => {
                        &&& at < source
                        &&& self.heads@[at as int] == Some(point)
                        &&& forall|other: int|
                            0 <= other < source && (#[trigger] self.heads@[other]) is Some
                                ==> !point_before(self.heads@[other]->0, point)
                        &&& forall|other: int|
                            0 <= other < at && (#[trigger] self.heads@[other]) is Some
                                ==> point_before(point, self.heads@[other]->0)
                    },
                    None => forall|other: int|
                        0 <= other < source ==> (#[trigger] self.heads@[other]) is None,
                },
            decreases self.heads@.len() - source,
        {
            match self.heads[source] {
                Some(point) => {
                    let better = match best {
                        Some((_, held)) => scored_before(
                            point.score,
                            point.id,
                            held.score,
                            held.id,
                        ),
                        None => true,
                    };
                    if better {
                        proof {
                            assert forall|other: int|
                                0 <= other < source && (#[trigger] self.heads@[other])
                                    is Some implies point_before(point, self.heads@[other]->0) by {
                                if best is Some {
                                    let (_, held) = best->0;
                                    assert(!point_before(self.heads@[other]->0, held));
                                }
                            }
                        }
                        best = Some((source, point));
                    }
                },
                None => {},
            }
            source += 1;
        }
        match best {
            Some((at, _)) => Some(at),
            None => None,
        }
    }

    /// The next point of the merge.
    fn next_inner(&mut self) -> (result: OperationResult<Option<ExactScoredIdentity>>)
        requires
            old(self).wf(),
            old(self).terminal_error is None,
        ensures
            final(self).formed(),
            final(self).sources@.len() == old(self).sources@.len(),
            result is Ok ==> final(self).wf(),
            final(self).terminal_error is None,
            final(self).error_delivered == old(self).error_delivered,
            result matches Ok(next) ==> yields(*old(self), next, *final(self)),
            result is Err ==> final(self).points_emitted == old(self).points_emitted,
            forall|source: int|
                0 <= source < old(self).sources@.len() && #[trigger] old(self).is_failing(source)
                    ==> !final(self).source_exhausted@[source],
            old(self).lists() matches Some(lists) ==> merges_one(
                *old(self),
                lists,
                result,
                *final(self),
            ),
    {
        let ghost first = *self;
        let ghost known = self.lists();
        let count: usize = self.sources.len();
        let mut source: usize = 0;
        while source < count
            invariant
                self.formed(),
                first.formed(),
                first == *old(self),
                first.in_order(0),
                self.terminal_error is None,
                self.sources@.len() == count,
                first.sources@.len() == count,
                source <= count,
                self.in_order(source as int),
                self.error_delivered == first.error_delivered,
                self.points_emitted == first.points_emitted,
                self.seen@ == first.seen@,
                self.last@ == first.last@,
                known == first.lists(),
                forall|other: int|
                    source <= other < count ==> {
                        &&& #[trigger] self.needs_refill@[other] == first.needs_refill@[other]
                        &&& self.previous@[other] == first.previous@[other]
                        &&& self.source_pulls@[other] == first.source_pulls@[other]
                        &&& self.source_exhausted@[other] == first.source_exhausted@[other]
                    },
                forall|other: int| 0 <= other < source ==> !#[trigger] self.needs_refill@[other],
                forall|other: int|
                    0 <= other < count && #[trigger] first.is_failing(other) ==> self.is_failing(
                        other,
                    ),
                known matches Some(lists) ==> {
                    &&& lists.len() == count
                    &&& self.lists() == Some(lists)
                    &&& self.failures() == first.failures()
                    &&& refill_error(
                        lists,
                        first.failures(),
                        first.needs_refill@,
                        first.previous@,
                        0,
                    ) == refill_error(
                        lists,
                        first.failures(),
                        first.needs_refill@,
                        first.previous@,
                        source as int,
                    )
                    &&& forall|other: int|
                        0 <= other < source ==> #[trigger] self.previous@[other] == previous_after(
                            lists,
                            first.needs_refill@,
                            first.previous@,
                        )[other]
                    &&& forall|other: int|
                        0 <= other < source ==> #[trigger] counts_refill(first, lists, *self, other)
                },
            decreases count - source,
        {
            let ghost before = *self;
            assert(self.needs_refill@[source as int] == first.needs_refill@[source as int]);
            let refilled = self.refill(source);
            proof {
                assert forall|other: int|
                    0 <= other < count && #[trigger] first.is_failing(other) implies {
                    &&& !self.source_exhausted@[other]
                    &&& refilled is Ok ==> self.is_failing(other)
                } by {
                    assert(before.is_failing(other));
                    if other != source {
                        assert(self.heads@[other] == before.heads@[other]);
                    }
                }
                if known is Some {
                    assert(source_error(
                        known->0,
                        first.failures(),
                        before.needs_refill@,
                        before.previous@,
                        source as int,
                    ) == source_error(
                        known->0,
                        first.failures(),
                        first.needs_refill@,
                        first.previous@,
                        source as int,
                    ));
                }
            }
            match refilled {
                Ok(_) => {},
                Err(error) => {
                    return Err(error);
                },
            }
            proof {
                assert forall|other: int| source + 1 <= other < count implies {
                    &&& #[trigger] self.needs_refill@[other] == first.needs_refill@[other]
                    &&& self.previous@[other] == first.previous@[other]
                    &&& self.source_pulls@[other] == first.source_pulls@[other]
                    &&& self.source_exhausted@[other] == first.source_exhausted@[other]
                } by {
                    assert(self.heads@[other] == before.heads@[other]);
                    assert(before.needs_refill@[other] == first.needs_refill@[other]);
                }
                assert forall|other: int| 0 <= other < source + 1 implies !(
                #[trigger] self.needs_refill@[other]) by {
                    if other < source {
                        assert(self.heads@[other] == before.heads@[other]);
                        assert(!before.needs_refill@[other]);
                    }
                }
                if known is Some {
                    let lists = known->0;
                    assert forall|other: int| 0 <= other < source + 1 implies
                        #[trigger] counts_refill(first, lists, *self, other) by {
                        if other < source {
                            assert(self.heads@[other] == before.heads@[other]);
                            assert(counts_refill(first, lists, before, other));
                        } else {
                            assert(counts_refill(before, lists, *self, other));
                            assert(before.needs_refill@[other] == first.needs_refill@[other]);
                        }
                    }
                    assert forall|other: int| 0 <= other < source + 1 implies
                        #[trigger] self.previous@[other] == previous_after(
                        lists,
                        first.needs_refill@,
                        first.previous@,
                    )[other] by {
                        if other < source {
                            assert(self.heads@[other] == before.heads@[other]);
                            assert(before.previous@[other] == previous_after(
                                lists,
                                first.needs_refill@,
                                first.previous@,
                            )[other]);
                        }
                    }
                }
            }
            source += 1;
        }
        let ghost ready = *self;
        proof {
            if known is Some {
                let lists = known->0;
                assert(self.previous@ =~= previous_after(
                    lists,
                    first.needs_refill@,
                    first.previous@,
                ));
                assert forall|other: int| 0 <= other < count implies (#[trigger] lists[other]
                    == ready.list_of(other)) by {}
                assert forall|other: int| 0 <= other < count implies {
                    &&& (#[trigger] lists[other]).len() > 0 <==> ready.heads@[other] is Some
                    &&& lists[other].len() > 0 ==> lists[other][0] == ready.heads@[other]->0
                } by {
                    assert(lists[other] == ready.list_of(other));
                    assert(ready.source_in_order(other));
                    assert(ready.heads@[other] is Some || ready.source_exhausted@[other]);
                }
            }
        }
        let source: usize = match self.winner() {
            Some(source) => source,
            None => {
                proof {
                    assert forall|other: int| 0 <= other < count implies
                        #[trigger] self.source_exhausted@[other] by {
                        assert(self.heads@[other] is None);
                    }
                    assert(self.needs_refill@ =~= Seq::new(count as nat, |other: int| false));
                    if known is Some {
                        let lists = known->0;
                        assert forall|other: int| 0 <= other < lists.len() implies (
                        #[trigger] lists[other]).len() == 0 by {
                            assert(self.heads@[other] is None);
                        }
                    }
                }
                return Ok(None);
            },
        };
        let point = match self.heads[source] {
            Some(point) => point,
            None => {
                assert(false);
                return Ok(None);
            },
        };
        proof {
            assert(ready.source_in_order(source as int));
            if known is Some {
                let lists = known->0;
                assert(wins(lists, source as int)) by {
                    assert forall|other: int|
                        0 <= other < lists.len() && (#[trigger] lists[other]).len() > 0 implies
                        !point_before(lists[other][0], lists[source as int][0]) by {
                        let _ = ready.heads@[other];
                    }
                    assert forall|other: int|
                        0 <= other < source && (#[trigger] lists[other]).len() > 0 implies
                        point_before(lists[source as int][0], lists[other][0]) by {
                        let _ = ready.heads@[other];
                    }
                }
            }
        }
        self.heads.set(source, None);
        self.needs_refill.set(source, true);
        let added = self.seen.insert(point.id);
        if !added {
            return refuse(Fault::RepeatedIdentity { id: point.id });
        }
        self.points_emitted = self.points_emitted.saturating_add(1);
        self.last = Ghost(Some(point));
        proof {
            assert forall|other: int| 0 <= other < self.sources@.len() implies self.source_in_order(
                other,
            ) by {
                assert(ready.source_in_order(other));
                assert(ready.heads@[other] is Some || ready.source_exhausted@[other]);
                if other != source && ready.heads@[other] is Some {
                    assert(self.heads@[other] == ready.heads@[other]);
                }
            }
            if first.last@ is Some {
                let last = first.last@->0;
                if last.id.rank() == point.id.rank() {
                    crate::order::lemma_rank_is_injective(last.id, point.id);
                }
            }
            if known is Some {
                let lists = known->0;
                let taken = taken_from(lists, source as int);
                assert forall|other: int|
                    0 <= other < count && !self.source_exhausted@[other] implies course_of(
                    (#[trigger] self.sources@[other]).rest(),
                    self.sources@[other].failing(),
                ) is Some by {
                    let _ = ready.sources@[other];
                }
                assert(self.failures() =~= ready.failures()) by {
                    assert forall|other: int| 0 <= other < count implies self.failure_of(other)
                        == #[trigger] ready.failure_of(other) by {}
                }
                assert forall|other: int| 0 <= other < count implies self.list_of(other)
                    == #[trigger] taken[other] by {
                    assert(lists[other] == ready.list_of(other));
                    if other == source {
                        assert(lists[other].drop_first() =~= self.list_of(other));
                    } else {
                        assert(self.heads@[other] == ready.heads@[other]);
                    }
                }
                assert(Seq::new(self.sources@.len(), |other: int| self.list_of(other)) =~= taken);
                let list = source as int;
                assert(self.waiting() =~= only(lists.len(), list));
                assert(self.previous() == previous_after(
                    lists,
                    first.waiting(),
                    first.previous(),
                ));
                assert(self.lists() == Some(taken));
                assert(counts_refills(first, lists, *self)) by {
                    assert forall|other: int| 0 <= other < lists.len() implies
                        #[trigger] counts_refill(first, lists, *self, other) by {
                        assert(counts_refill(first, lists, ready, other));
                    }
                }
                assert(refill_error(
                    lists,
                    first.failures(),
                    first.waiting(),
                    first.previous(),
                    0,
                ) is None);
                assert(lists[list].len() > 0);
                assert(!all_empty(lists));
                assert(wins(lists, list));
                assert(lists[list][0] == point);
                assert(!first.emitted_ids().contains(lists[list][0].id));
            }
        }
        Ok(Some(point))
    }

    /// The next point; `None` at the end, or once a failure was handed out.
    pub fn next(&mut self) -> (result: Option<OperationResult<ExactScoredIdentity>>)
        requires
            old(self).wf(),
        ensures
            final(self).wf(),
            final(self).source_count() == old(self).source_count(),
            forall|source: int|
                0 <= source < old(self).source_count() && #[trigger] old(self).is_failing(source)
                    ==> !final(self).exhausted()[source],
            old(self).has_failed() && old(self).failure_was_delivered() ==> {
                &&& result is None
                &&& *final(self) == *old(self)
            },
            old(self).has_failed() && !old(self).failure_was_delivered() ==> {
                &&& result matches Some(Err(error))
                &&& same_error(old(self).failure(), error)
                &&& final(self).has_failed()
                &&& final(self).failure_was_delivered()
            },
            !old(self).has_failed() ==> {
                &&& result matches Some(Err(error)) ==> {
                    &&& final(self).has_failed()
                    &&& same_error(error, final(self).failure())
                    &&& final(self).failure_was_delivered()
                    &&& final(self).emitted() == old(self).emitted()
                }
                &&& !(result matches Some(Err(_))) ==> {
                    &&& !final(self).has_failed()
                    &&& final(self).failure_was_delivered() == old(self).failure_was_delivered()
                    &&& yields(*old(self), point_of(result), *final(self))
                }
                &&& old(self).lists() matches Some(lists) ==> match merge_fault(*old(self), lists) {
                    Some(error) => result == Some(Err::<ExactScoredIdentity, OperationError>(error)),
                    None => {
                        &&& !(result matches Some(Err(_)))
                        &&& merges_one(*old(self), lists, Ok(point_of(result)), *final(self))
                    },
                }
            },
    {
        let known = match &self.terminal_error {
            Some(error) => Some(error.again()),
            None => None,
        };
        match known {
            Some(error) => {
                if self.error_delivered {
                    return None;
                }
                self.error_delivered = true;
                return Some(Err(error));
            },
            None => {},
        }
        match self.next_inner() {
            Ok(Some(point)) => {
                proof {
                    if old(self).lists() is Some {
                        lemma_no_merge_fault(*old(self), old(self).lists()->0, Some(point), *self);
                    }
                }
                Some(Ok(point))
            },
            Ok(None) => {
                proof {
                    if old(self).lists() is Some {
                        lemma_no_merge_fault(*old(self), old(self).lists()->0, None, *self);
                    }
                }
                None
            },
            Err(error) => {
                let kept = error.again();
                self.fail(kept);
                self.error_delivered = true;
                Some(Err(error))
            },
        }
    }
}

/// The point of a result that is not a failure.
pub open spec fn point_of(
    result: Option<OperationResult<ExactScoredIdentity>>,
) -> Option<ExactScoredIdentity> {
    match result {
        Some(Ok(point)) => Some(point),
        _ => None,
    }
}

/// Why a merge refuses to go on: a source fails, its next point is refused, or the winner
/// was already emitted.
pub open spec fn merge_fault<S: ExactScoreStream>(
    before: KWayExactScoreStream<S>,
    lists: Seq<Seq<ExactScoredIdentity>>,
) -> Option<OperationError> {
    let error = refill_error(
        lists,
        before.failures(),
        before.waiting(),
        before.previous(),
        0,
    );
    if error is Some {
        error
    } else if exists|list: int| #[trigger]
        wins(lists, list) && before.emitted_ids().contains(lists[list][0].id) {
        let list = choose|list: int| #[trigger]
            wins(lists, list) && before.emitted_ids().contains(lists[list][0].id);
        Some(OperationError::ValidationError(Fault::RepeatedIdentity { id: lists[list][0].id }))
    } else {
        None
    }
}

/// Whether the streams, from their beginning, yield the given lists and then fail as
/// given.
pub open spec fn score_streams_take<S: ExactScoreStream>(
    sources: Seq<S>,
    lists: Seq<Seq<ExactScoredIdentity>>,
    failures: Seq<Option<OperationError>>,
) -> bool {
    &&& lists.len() == sources.len()
    &&& failures.len() == sources.len()
    &&& forall|source: int|
        0 <= source < sources.len() ==> course_of(
            (#[trigger] sources[source]).rest(),
            sources[source].failing(),
        ) == Some((lists[source], failures[source]))
}

/// What one step of a merge does whatever the sources do: a point is emitted once,
/// behind all others, and the end comes only when every source has ended.
pub open spec fn yields<S: ExactScoreStream>(
    before: KWayExactScoreStream<S>,
    point: Option<ExactScoredIdentity>,
    after: KWayExactScoreStream<S>,
) -> bool {
    match point {
        Some(point) => {
            &&& finite_key(point.score)
            &&& !before.emitted_ids().contains(point.id)
            &&& before.last() matches Some(last) ==> point_before(last, point)
            &&& after.emitted_ids() == before.emitted_ids().insert(point.id)
            &&& after.last() == Some(point)
            &&& after.emitted() == before.emitted().saturating_add(1)
        },
        None => {
            &&& after.exhausted().len() == before.source_count()
            &&& forall|source: int|
                0 <= source < after.exhausted().len() ==> #[trigger] after.exhausted()[source]
            &&& after.emitted_ids() == before.emitted_ids()
            &&& after.last() == before.last()
            &&& after.emitted() == before.emitted()
        },
    }
}

/// Whether a source that waited was pulled once, and what came was counted: a point, or the
/// end of the source.
pub open spec fn counts_refill<S: ExactScoreStream>(
    before: KWayExactScoreStream<S>,
    lists: Seq<Seq<ExactScoredIdentity>>,
    after: KWayExactScoreStream<S>,
    source: int,
) -> bool {
    let waited = before.waiting()[source];
    &&& after.pulls()[source] == (if waited && lists[source].len() > 0 {
        before.pulls()[source].saturating_add(1)
    } else {
        before.pulls()[source]
    })
    &&& after.exhausted()[source] == (before.exhausted()[source] || waited && lists[source].len()
        == 0)
}

/// Whether what came of every source that waited was counted.
pub open spec fn counts_refills<S: ExactScoreStream>(
    before: KWayExactScoreStream<S>,
    lists: Seq<Seq<ExactScoredIdentity>>,
    after: KWayExactScoreStream<S>,
) -> bool {
    forall|source: int|
        0 <= source < lists.len() ==> #[trigger] counts_refill(before, lists, after, source)
}

/// What one step of a merge does where the lists of the sources are known: it
/// refuses what no order allows, and otherwise yields the winning head.
pub open spec fn merges_one<S: ExactScoreStream>(
    before: KWayExactScoreStream<S>,
    lists: Seq<Seq<ExactScoredIdentity>>,
    result: OperationResult<Option<ExactScoredIdentity>>,
    after: KWayExactScoreStream<S>,
) -> bool {
    let error = refill_error(
        lists,
        before.failures(),
        before.waiting(),
        before.previous(),
        0,
    );
    if error is Some {
        result == Err::<Option<ExactScoredIdentity>, OperationError>(error->0)
    } else if all_empty(lists) {
        &&& result == Ok::<Option<ExactScoredIdentity>, OperationError>(None)
        &&& after.lists() == Some(lists)
        &&& after.failures() == before.failures()
        &&& after.waiting() == Seq::new(lists.len(), |source: int| false)
        &&& after.previous() == previous_after(lists, before.waiting(), before.previous())
        &&& counts_refills(before, lists, after)
    } else {
        exists|list: int|
            {
                &&& #[trigger] wins(lists, list)
                &&& if before.emitted_ids().contains(lists[list][0].id) {
                    result == refused::<Option<ExactScoredIdentity>>(
                        Fault::RepeatedIdentity { id: lists[list][0].id },
                    )
                } else {
                    &&& result == Ok::<Option<ExactScoredIdentity>, OperationError>(
                        Some(lists[list][0]),
                    )
                    &&& after.lists() == Some(taken_from(lists, list))
                    &&& after.failures() == before.failures()
                    &&& after.waiting() == only(lists.len(), list)
                    &&& after.previous() == previous_after(
                        lists,
                        before.waiting(),
                        before.previous(),
                    )
                    &&& counts_refills(before, lists, after)
                }
            }
    }
}

/// A merge that goes on has no fault, and one that stops has one.
proof fn lemma_no_merge_fault<S: ExactScoreStream>(
    before: KWayExactScoreStream<S>,
    lists: Seq<Seq<ExactScoredIdentity>>,
    point: Option<ExactScoredIdentity>,
    after: KWayExactScoreStream<S>,
)
    requires
        merges_one(before, lists, Ok(point), after),
    ensures
        merge_fault(before, lists) is None,
{
    if exists|list: int| #[trigger]
        wins(lists, list) && before.emitted_ids().contains(lists[list][0].id) {
        let list = choose|list: int| #[trigger]
            wins(lists, list) && before.emitted_ids().contains(lists[list][0].id);
        assert(lists[list].len() > 0);
        let other = choose|other: int|
            {
                &&& #[trigger] wins(lists, other)
                &&& !before.emitted_ids().contains(lists[other][0].id)
            };
        law_winner_is_unique(lists, list, other);
    }
}

/// The identities of a merge.
pub struct MergedRanks<S> {
    merge: KWayExactScoreStream<S>,
}

impl<S: ExactScoreStream> MergedRanks<S> {
    /// The merge beneath the stream.
    pub closed spec fn merge(&self) -> KWayExactScoreStream<S> {
        self.merge
    }

    /// The next identity of the merge; `None` at the end, or once a failure was
    /// handed out.
    pub fn next_id(&mut self) -> (result: Option<OperationResult<ExtendedPointId>>)
        requires
            old(self).merge().wf(),
        ensures
            final(self).merge().wf(),
            old(self).merge().has_failed() && old(self).merge().failure_was_delivered()
                ==> result is None,
            old(self).merge().has_failed() && !old(self).merge().failure_was_delivered() ==> {
                &&& result matches Some(Err(error))
                &&& same_error(old(self).merge().failure(), error)
            },
            !old(self).merge().has_failed() ==> {
                &&& result matches Some(Err(error)) ==> {
                    &&& final(self).merge().has_failed()
                    &&& final(self).merge().failure_was_delivered()
                    &&& same_error(error, final(self).merge().failure())
                }
                &&& result matches Some(Ok(id)) ==> {
                    &&& final(self).merge().last() matches Some(point)
                    &&& point.id == id
                    &&& yields(old(self).merge(), Some(point), final(self).merge())
                }
                &&& result is None ==> yields(old(self).merge(), None, final(self).merge())
                &&& old(self).merge().lists() matches Some(lists) ==> {
                    &&& merge_fault(old(self).merge(), lists) matches Some(error) ==> result == Some(
                        Err::<ExtendedPointId, OperationError>(error),
                    )
                    &&& merge_fault(old(self).merge(), lists) is None ==> {
                        &&& !(result matches Some(Err(_)))
                        &&& merges_one(
                            old(self).merge(),
                            lists,
                            Ok(
                                if result is Some {
                                    final(self).merge().last()
                                } else {
                                    None
                                },
                            ),
                            final(self).merge(),
                        )
                    }
                }
            },
    {
        match self.merge.next() {
            Some(Ok(point)) => Some(Ok(point.id)),
            Some(Err(error)) => Some(Err(error)),
            None => None,
        }
    }
}

} // verus!
