//! Physical sharing beneath logically independent exact rank streams.

use crate::operation_error::{refuse, Fault, OperationError, OperationResult};
use crate::order::ExtendedPointId;
use crate::reciprocal_rank_fusion::executor::leads_from_start;
use crate::reciprocal_rank_fusion::types::ExactRrfStream;
use std::collections::VecDeque;
use vstd::prelude::*;

verus! {

/// What a shared stream has done so far.
#[derive(Clone, Copy, Debug, Default, Eq, PartialEq, Structural)]
pub struct SharedRankStreamTelemetry {
    pub active_readers: usize,
    pub physical_pulls: usize,
    pub buffered_identities: usize,
    pub peak_buffered_identities: usize,
    pub exhausted: bool,
    pub cancelled: bool,
}

/// What a replay buffer stands for.
pub struct ReplayView {
    /// Everything that the producer has yielded.
    pub produced: Seq<ExtendedPointId>,
    /// The rank of the first identity that is still kept.
    pub base: nat,
    /// The next rank of every reader; `None` once it has left.
    pub readers: Seq<Option<usize>>,
    /// Whether nothing more will be produced.
    pub exhausted: bool,
    /// Whether the last reader left before the producer ended.
    pub cancelled: bool,
    /// The most identities that were kept at once.
    pub peak: nat,
}

/// Whether a reader has not left.
pub open spec fn is_active(readers: Seq<Option<usize>>, reader: int) -> bool {
    0 <= reader < readers.len() && readers[reader] is Some
}

/// Whether every reader has left.
pub open spec fn all_left(readers: Seq<Option<usize>>) -> bool {
    forall|reader: int| 0 <= reader < readers.len() ==> (#[trigger] readers[reader]) is None
}

/// Whether `rank` is the first rank that a reader still needs, or the end where
/// no reader is left.
pub open spec fn is_retained_from(readers: Seq<Option<usize>>, end: nat, rank: nat) -> bool {
    &&& forall|reader: int|
        0 <= reader < readers.len() ==> ((#[trigger] readers[reader]) matches Some(position)
            ==> rank <= position)
    &&& if all_left(readers) {
        rank == end
    } else {
        exists|reader: int|
            0 <= reader < readers.len() && #[trigger] readers[reader] == Some(rank as usize)
    }
}

impl ReplayView {
    /// Whether the parts belong together.
    pub open spec fn valid(self) -> bool {
        &&& self.produced.len() <= usize::MAX
        &&& self.base <= self.produced.len()
        &&& self.produced.len() - self.base <= self.peak <= usize::MAX
        &&& forall|reader: int|
            0 <= reader < self.readers.len() ==> ((#[trigger] self.readers[reader]) matches Some(
                position,
            ) ==> self.base <= position <= self.produced.len())
        &&& self.readers.len() > 0 && all_left(self.readers) ==> self.exhausted
        &&& self.cancelled ==> self.exhausted
    }

    /// The number of identities that are kept.
    pub open spec fn buffered(self) -> nat {
        (self.produced.len() - self.base) as nat
    }

    /// Whether a reader can go on only with a further identity.
    pub open spec fn starved(self, reader: int) -> bool {
        self.readers[reader] == Some(self.produced.len() as usize) && !self.exhausted
    }

    /// The buffer after a further identity was produced.
    pub open spec fn grown(self, id: ExtendedPointId) -> ReplayView {
        let longer = ReplayView { produced: self.produced.push(id), ..self };
        ReplayView {
            peak: if longer.buffered() > self.peak {
                longer.buffered()
            } else {
                self.peak
            },
            ..longer
        }
    }

    /// The buffer after the producer has ended.
    pub open spec fn ended(self) -> ReplayView {
        ReplayView { exhausted: true, ..self }
    }

    /// Whether `after` is this buffer with other reader positions, without the
    /// identities that no reader needs any more.
    pub open spec fn pruned(self, readers: Seq<Option<usize>>, after: ReplayView) -> bool {
        &&& after.readers == readers
        &&& is_retained_from(readers, self.produced.len(), after.base)
        &&& after == (ReplayView { readers, base: after.base, ..self })
    }

    /// Whether `after` is this buffer after a reader has read what is there.
    pub open spec fn read_by(
        self,
        reader: int,
        id: Option<ExtendedPointId>,
        after: ReplayView,
    ) -> bool {
        let position = self.readers[reader]->0;
        if position < self.produced.len() {
            &&& id == Some(self.produced[position as int])
            &&& self.pruned(self.readers.update(reader, Some((position + 1) as usize)), after)
        } else {
            &&& id == None::<ExtendedPointId>
            &&& after == self
        }
    }

    /// Whether `after` is this buffer after a reader has asked for its next identity: one
    /// that is kept is read, and otherwise the producer is asked once, for one identity.
    /// A failure changes nothing.
    pub open spec fn asked_by(
        self,
        reader: int,
        result: OperationResult<Option<ExtendedPointId>>,
        after: ReplayView,
    ) -> bool {
        match result {
            Ok(id) => self.answered(reader, id, after),
            Err(_) => self.starved(reader) && after == self,
        }
    }

    /// Whether `after` is this buffer after a reader has got the given answer: it has read
    /// what is kept, or what the producer was asked for.
    pub open spec fn answered(
        self,
        reader: int,
        id: Option<ExtendedPointId>,
        after: ReplayView,
    ) -> bool {
        if !self.starved(reader) {
            self.read_by(reader, id, after)
        } else {
            match id {
                Some(next) => {
                    &&& self.produced.len() < usize::MAX
                    &&& self.grown(next).read_by(reader, id, after)
                },
                None => after == self.ended(),
            }
        }
    }

    /// Whether `after` is this buffer after a reader has left.
    pub open spec fn left_by(self, reader: int, after: ReplayView) -> bool {
        let readers = self.readers.update(reader, None);
        exists|middle: ReplayView|
            {
                &&& #[trigger] self.pruned(readers, middle)
                &&& after == (if all_left(readers) {
                    ReplayView {
                        exhausted: true,
                        cancelled: self.cancelled || !self.exhausted,
                        ..middle
                    }
                } else {
                    middle
                })
            }
    }
}

/// The identities that some reader of a stream still needs.
pub struct ReplayBuffer {
    buffer: VecDeque<ExtendedPointId>,
    base_position: usize,
    reader_positions: Vec<Option<usize>>,
    exhausted: bool,
    cancelled: bool,
    peak_buffered_identities: usize,
    produced: Ghost<Seq<ExtendedPointId>>,
}

impl View for ReplayBuffer {
    type V = ReplayView;

    closed spec fn view(&self) -> ReplayView {
        ReplayView {
            produced: self.produced@,
            base: self.base_position as nat,
            readers: self.reader_positions@,
            exhausted: self.exhausted,
            cancelled: self.cancelled,
            peak: self.peak_buffered_identities as nat,
        }
    }
}

impl ReplayBuffer {
    /// Whether the parts belong together.
    pub closed spec fn wf(&self) -> bool {
        &&& self@.valid()
        &&& self.buffer@ == self.produced@.skip(self.base_position as int)
    }

    /// The parts of a buffer belong together.
    pub proof fn lemma_valid(&self)
        requires
            self.wf(),
        ensures
            self@.valid(),
    {
    }

    /// A buffer without readers.
    pub fn new() -> (buffer: ReplayBuffer)
        ensures
            buffer.wf(),
            buffer@ == (ReplayView {
                produced: Seq::empty(),
                base: 0,
                readers: Seq::empty(),
                exhausted: false,
                cancelled: false,
                peak: 0,
            }),
    {
        let buffer = ReplayBuffer {
            buffer: VecDeque::new(),
            base_position: 0,
            reader_positions: Vec::new(),
            exhausted: false,
            cancelled: false,
            peak_buffered_identities: 0,
            produced: Ghost(Seq::empty()),
        };
        assert(buffer.buffer@ =~= buffer.produced@.skip(0));
        assert(buffer.reader_positions@ =~= Seq::<Option<usize>>::empty());
        buffer
    }

    /// Adds a reader at rank zero. A reader cannot be added once something was
    /// produced: it would see only a suffix.
    pub fn subscribe(&mut self) -> (reader: usize)
        requires
            old(self).wf(),
            old(self)@.produced.len() == 0,
        ensures
            final(self).wf(),
            reader == old(self)@.readers.len(),
            final(self)@ == (ReplayView {
                readers: old(self)@.readers.push(Some(0)),
                ..old(self)@
            }),
    {
        let reader: usize = self.reader_positions.len();
        self.reader_positions.push(Some(0));
        assert(self.reader_positions@[reader as int] is Some);
        reader
    }

    /// How many identities were produced.
    pub fn physical_pulls(&self) -> (pulls: usize)
        requires
            self.wf(),
        ensures
            pulls == self@.produced.len(),
    {
        self.base_position + self.buffer.len()
    }

    /// Whether a reader can go on only with a further identity.
    pub fn is_starved(&self, reader: usize) -> (starved: bool)
        requires
            self.wf(),
            is_active(self@.readers, reader as int),
        ensures
            starved == self@.starved(reader as int),
    {
        match self.reader_positions[reader] {
            Some(position) => position == self.physical_pulls() && !self.exhausted,
            None => false,
        }
    }

    /// Whether nothing more will be produced.
    pub fn is_exhausted(&self) -> (exhausted: bool)
        ensures
            exhausted == self@.exhausted,
    {
        self.exhausted
    }

    /// Takes a further identity from the producer.
    pub fn grow(&mut self, id: ExtendedPointId)
        requires
            old(self).wf(),
            old(self)@.produced.len() < usize::MAX,
        ensures
            final(self).wf(),
            final(self)@ == old(self)@.grown(id),
    {
        self.buffer.push_back(id);
        self.produced = Ghost(self.produced@.push(id));
        if self.buffer.len() > self.peak_buffered_identities {
            self.peak_buffered_identities = self.buffer.len();
        }
        assert(self.buffer@ =~= self.produced@.skip(self.base_position as int));
    }

    /// Notes that the producer has ended.
    pub fn finish(&mut self)
        requires
            old(self).wf(),
        ensures
            final(self).wf(),
            final(self)@ == old(self)@.ended(),
    {
        self.exhausted = true;
    }

    /// The first rank that a reader still needs.
    fn retained_from(&self) -> (rank: usize)
        requires
            self.wf(),
        ensures
            is_retained_from(self@.readers, self@.produced.len(), rank as nat),
            self@.base <= rank <= self@.produced.len(),
    {
        let mut first: Option<usize> = None;
        let mut reader: usize = 0;
        while reader < self.reader_positions.len()
            invariant
                self.wf(),
                reader <= self.reader_positions@.len(),
                first is None ==> forall|i: int|
                    0 <= i < reader ==> (#[trigger] self.reader_positions@[i]) is None,
                first matches Some(rank) ==> {
                    &&& exists|i: int|
                        0 <= i < reader && #[trigger] self.reader_positions@[i] == Some(rank)
                    &&& forall|i: int|
                        0 <= i < reader ==> ((#[trigger] self.reader_positions@[i]) matches Some(
                            position,
                        ) ==> rank <= position)
                },
            decreases self.reader_positions@.len() - reader,
        {
            match self.reader_positions[reader] {
                Some(position) => {
                    let earlier = match first {
                        Some(rank) => position < rank,
                        None => true,
                    };
                    if earlier {
                        assert(self.reader_positions@[reader as int] == Some(position));
                        first = Some(position);
                    }
                },
                None => {},
            }
            reader += 1;
        }
        match first {
            Some(rank) => {
                proof {
                    let i = choose|i: int|
                        0 <= i < reader && #[trigger] self.reader_positions@[i] == Some(rank);
                    assert(self@.readers[i] == Some(rank));
                }
                rank
            },
            None => self.physical_pulls(),
        }
    }

    /// Drops the identities that no reader needs any more, and returns how many.
    fn prune_consumed(&mut self) -> (consumed: usize)
        requires
            old(self).wf(),
        ensures
            final(self).wf(),
            old(self)@.pruned(old(self)@.readers, final(self)@),
            old(self)@.buffered() == final(self)@.buffered() + consumed,
    {
        let retained: usize = self.retained_from();
        let consumed: usize = retained - self.base_position;
        let ghost produced = self.produced@;
        while self.base_position < retained
            invariant
                old(self).wf(),
                retained <= produced.len(),
                produced == old(self).produced@,
                self.base_position <= retained,
                self.buffer@ == produced.skip(self.base_position as int),
                self.produced@ == old(self).produced@,
                self.reader_positions@ == old(self).reader_positions@,
                self.exhausted == old(self).exhausted,
                self.cancelled == old(self).cancelled,
                self.peak_buffered_identities == old(self).peak_buffered_identities,
            decreases retained - self.base_position,
        {
            let ghost kept = self.buffer@;
            let _ = self.buffer.pop_front();
            self.base_position += 1;
            assert(self.buffer@ =~= produced.skip(self.base_position as int));
        }
        consumed
    }

    /// Reads the next identity of a reader from what was produced.
    pub fn read(&mut self, reader: usize) -> (result: (Option<ExtendedPointId>, usize))
        requires
            old(self).wf(),
            is_active(old(self)@.readers, reader as int),
        ensures
            final(self).wf(),
            old(self)@.read_by(reader as int, result.0, final(self)@),
            old(self)@.buffered() == final(self)@.buffered() + result.1,
    {
        let position: usize = match self.reader_positions[reader] {
            Some(position) => position,
            None => {
                return (None, 0);
            },
        };
        if position >= self.physical_pulls() {
            return (None, 0);
        }
        let id = self.buffer[position - self.base_position];
        let ghost readers = self.reader_positions@.update(
            reader as int,
            Some((position + 1) as usize),
        );
        self.reader_positions.set(reader, Some(position + 1));
        proof {
            assert(self.reader_positions@ == readers);
            assert(readers[reader as int] is Some);
        }
        let consumed: usize = self.prune_consumed();
        (Some(id), consumed)
    }

    /// Lets a reader leave, and returns how many identities were dropped.
    pub fn leave(&mut self, reader: usize) -> (consumed: usize)
        requires
            old(self).wf(),
            reader < old(self)@.readers.len(),
        ensures
            final(self).wf(),
            old(self)@.left_by(reader as int, final(self)@),
            old(self)@.buffered() == final(self)@.buffered() + consumed,
    {
        let ghost readers = self.reader_positions@.update(reader as int, None);
        self.reader_positions.set(reader, None);
        let active: usize = self.active_readers();
        let was_exhausted = self.exhausted;
        if active == 0 {
            self.cancelled = self.cancelled || !self.exhausted;
            self.exhausted = true;
        }
        proof {
            assert(active == 0 <==> all_left(readers));
        }
        let ghost before = self@;
        let consumed: usize = self.prune_consumed();
        proof {
            let middle = ReplayView {
                exhausted: old(self)@.exhausted,
                cancelled: old(self)@.cancelled,
                ..self@
            };
            assert(old(self)@.pruned(readers, middle));
        }
        consumed
    }

    /// How many readers have not left.
    fn active_readers(&self) -> (active: usize)
        ensures
            active == self@.readers.filter(|position: Option<usize>| position is Some).len(),
            active == 0 <==> all_left(self@.readers),
    {
        let ghost reading = |position: Option<usize>| position is Some;
        let mut active: usize = 0;
        let mut reader: usize = 0;
        proof {
            reveal(Seq::filter);
        }
        while reader < self.reader_positions.len()
            invariant
                reader <= self.reader_positions@.len(),
                reading == (|position: Option<usize>| position is Some),
                active <= reader,
                active == self.reader_positions@.take(reader as int).filter(reading).len(),
                active == 0 <==> forall|i: int|
                    0 <= i < reader ==> (#[trigger] self.reader_positions@[i]) is None,
            decreases self.reader_positions@.len() - reader,
        {
            proof {
                reveal(Seq::filter);
                let longer = self.reader_positions@.take(reader + 1);
                assert(longer.drop_last() =~= self.reader_positions@.take(reader as int));
                assert(longer.last() == self.reader_positions@[reader as int]);
            }
            if self.reader_positions[reader].is_some() {
                active += 1;
            }
            reader += 1;
        }
        assert(self.reader_positions@.take(reader as int) =~= self.reader_positions@);
        active
    }

    /// What the buffer has done so far.
    pub fn telemetry(&self) -> (telemetry: SharedRankStreamTelemetry)
        requires
            self.wf(),
        ensures
            telemetry == replay_telemetry(self@),
    {
        SharedRankStreamTelemetry {
            active_readers: self.active_readers(),
            physical_pulls: self.physical_pulls(),
            buffered_identities: self.buffer.len(),
            peak_buffered_identities: self.peak_buffered_identities,
            exhausted: self.exhausted,
            cancelled: self.cancelled,
        }
    }
}

/// What a replay buffer reports.
pub open spec fn replay_telemetry(view: ReplayView) -> SharedRankStreamTelemetry {
    SharedRankStreamTelemetry {
        active_readers: view.readers.filter(
            |position: Option<usize>| position is Some,
        ).len() as usize,
        physical_pulls: view.produced.len() as usize,
        buffered_identities: view.buffered() as usize,
        peak_buffered_identities: view.peak as usize,
        exhausted: view.exhausted,
        cancelled: view.cancelled,
    }
}


/// A counter of the identities that are kept over several buffers.
#[derive(Debug, Default)]
pub struct ReplayBufferTracker {
    current_identities: u128,
    peak_identities: u128,
}

impl ReplayBufferTracker {
    /// The identities that are kept.
    pub closed spec fn current(self) -> int {
        self.current_identities as int
    }

    /// The most identities that were kept at once.
    pub closed spec fn peak(self) -> int {
        self.peak_identities as int
    }

    /// A counter at zero.
    pub fn new() -> (tracker: ReplayBufferTracker)
        ensures
            tracker.current() == 0,
            tracker.peak() == 0,
    {
        ReplayBufferTracker { current_identities: 0, peak_identities: 0 }
    }

    /// Counts further identities.
    pub fn grow(&mut self, identities: usize)
        requires
            old(self).current() + identities <= u128::MAX,
        ensures
            final(self).current() == old(self).current() + identities,
            final(self).peak() == (if old(self).peak() < final(self).current() {
                final(self).current()
            } else {
                old(self).peak()
            }),
    {
        self.current_identities = self.current_identities + identities as u128;
        if self.peak_identities < self.current_identities {
            self.peak_identities = self.current_identities;
        }
    }

    /// Takes off identities that are no longer kept.
    pub fn shrink(&mut self, identities: usize)
        requires
            identities <= old(self).current(),
        ensures
            final(self).current() == old(self).current() - identities,
            final(self).peak() == old(self).peak(),
    {
        self.current_identities = self.current_identities - identities as u128;
    }

    /// The most identities that were kept at once, as far as a count can tell.
    pub fn peak_identities(&self) -> (peak: usize)
        ensures
            peak == (if self.peak() <= usize::MAX {
                self.peak()
            } else {
                usize::MAX as int
            }),
    {
        if self.peak_identities <= usize::MAX as u128 {
            self.peak_identities as usize
        } else {
            usize::MAX
        }
    }
}

/// One producer beneath several readers. Every reader sees the whole stream at
/// its own pace, and every identity is produced once.
pub struct SharedRankStream<S> {
    inner: Option<S>,
    replay: ReplayBuffer,
}

impl<S> View for SharedRankStream<S> {
    type V = ReplayView;

    closed spec fn view(&self) -> ReplayView {
        self.replay@
    }
}

/// Whether a producer that has yielded the given identities goes on with a ranking, or
/// with a first part of it up to a failure.
spec fn led_by<S: ExactRrfStream>(
    inner: S,
    produced: Seq<ExtendedPointId>,
    ranking: Seq<ExtendedPointId>,
    failure: Option<OperationError>,
) -> bool {
    match failure {
        None => inner.rest() matches Some(rest) && produced + rest == ranking,
        Some(error) => inner.failing() matches Some((ids, reason)) && reason == error && (produced
            + ids).is_prefix_of(ranking),
    }
}

impl<S: ExactRrfStream> SharedRankStream<S> {
    /// Whether the parts belong together.
    pub closed spec fn wf(&self) -> bool {
        &&& self.replay.wf()
        &&& !self.replay@.exhausted ==> self.inner is Some
    }

    /// Whether the stream, read to its end, is the given ranking and never fails.
    pub open spec fn follows(&self, ranking: Seq<ExtendedPointId>) -> bool {
        self.leads(ranking, None)
    }

    /// Whether the stream, read to its end, is the given ranking, or fails as given after a
    /// first part of it.
    pub closed spec fn leads(
        &self,
        ranking: Seq<ExtendedPointId>,
        failure: Option<OperationError>,
    ) -> bool {
        &&& ranking.len() <= usize::MAX
        &&& if self.replay@.exhausted {
            self.replay@.cancelled || self.replay@.produced == ranking && failure is None
        } else {
            &&& self.inner matches Some(inner)
            &&& led_by(inner, self.replay@.produced, ranking, failure)
        }
    }

    /// What the producer will still yield before it fails, and how it fails, where that is
    /// known and the producer has not ended.
    pub closed spec fn failing(&self) -> Option<(Seq<ExtendedPointId>, OperationError)> {
        match self.inner {
            Some(inner) => if self.replay@.exhausted {
                None
            } else {
                inner.failing()
            },
            None => None,
        }
    }

    /// The producer, unless it was cancelled.
    pub closed spec fn producer(&self) -> Option<S> {
        self.inner
    }

    /// The producer, unless it was cancelled.
    pub fn source(&self) -> (source: Option<&S>)
        ensures
            match source {
                Some(producer) => self.producer() == Some(*producer),
                None => self.producer() is None,
            },
    {
        self.inner.as_ref()
    }

    /// The parts of the buffer belong together.
    pub proof fn lemma_replay_is_valid(&self)
        requires
            self.wf(),
        ensures
            self@.valid(),
    {
        self.replay.lemma_valid();
    }

    /// A ranking that a stream leads along can be counted.
    pub proof fn lemma_led_is_counted(
        &self,
        ranking: Seq<ExtendedPointId>,
        failure: Option<OperationError>,
    )
        requires
            self.leads(ranking, failure),
        ensures
            ranking.len() <= usize::MAX,
    {
    }

    /// Shares a stream that has not been read.
    pub fn new(inner: S) -> (shared: SharedRankStream<S>)
        ensures
            shared.wf(),
            shared.producer() == Some(inner),
            shared@ == (ReplayView {
                produced: Seq::empty(),
                base: 0,
                readers: Seq::empty(),
                exhausted: false,
                cancelled: false,
                peak: 0,
            }),
            forall|ranking: Seq<ExtendedPointId>|
                inner.rest() == Some(ranking) && ranking.len() <= usize::MAX
                    ==> #[trigger] shared.follows(ranking),
            forall|ranking: Seq<ExtendedPointId>, failure: Option<OperationError>|
                leads_from_start(inner.rest(), inner.failing(), ranking, failure) && ranking.len()
                    <= usize::MAX ==> #[trigger] shared.leads(ranking, failure),
    {
        let shared = SharedRankStream { inner: Some(inner), replay: ReplayBuffer::new() };
        assert forall|ranking: Seq<ExtendedPointId>|
            inner.rest() == Some(ranking) && ranking.len() <= usize::MAX implies
            #[trigger] shared.follows(ranking) by {
            assert(Seq::<ExtendedPointId>::empty() + ranking =~= ranking);
        }
        assert forall|ranking: Seq<ExtendedPointId>, failure: Option<OperationError>|
            leads_from_start(inner.rest(), inner.failing(), ranking, failure) && ranking.len()
                <= usize::MAX implies #[trigger] shared.leads(ranking, failure) by {
            assert(Seq::<ExtendedPointId>::empty() + ranking =~= ranking);
            if failure is Some {
                let (ids, _) = inner.failing().unwrap();
                assert(Seq::<ExtendedPointId>::empty() + ids =~= ids);
            }
        }
        shared
    }

    /// Adds a reader at rank zero and returns its number. Readers are added before
    /// the first pull: a later one would see only a suffix.
    pub fn subscribe(&mut self) -> (reader: usize)
        requires
            old(self).wf(),
            old(self)@.produced.len() == 0,
        ensures
            final(self).wf(),
            final(self).producer() == old(self).producer(),
            reader == old(self)@.readers.len(),
            final(self)@ == (ReplayView {
                readers: old(self)@.readers.push(Some(0)),
                ..old(self)@
            }),
            forall|ranking: Seq<ExtendedPointId>, failure: Option<OperationError>|
                old(self).leads(ranking, failure) ==> #[trigger] final(self).leads(
                    ranking,
                    failure,
                ),
    {
        self.replay.subscribe()
    }

    /// The next identity of a reader. Where the stream follows a ranking, this is
    /// the identity at the reader's rank, whatever the other readers have read.
    pub fn next(&mut self, reader: usize) -> (result: OperationResult<Option<ExtendedPointId>>)
        requires
            old(self).wf(),
            is_active(old(self)@.readers, reader as int),
        ensures
            final(self).wf(),
            forall|other: int|
                0 <= other < old(self)@.readers.len() && other != reader
                    ==> #[trigger] final(self)@.readers[other] == old(self)@.readers[other],
            final(self)@.readers.len() == old(self)@.readers.len(),
            is_active(final(self)@.readers, reader as int),
            asks_once(old(self).producer(), final(self).producer()),
            old(self)@.asked_by(reader as int, result, final(self)@),
            old(self).failing() matches Some((ids, error)) ==> if !old(self)@.starved(
                reader as int,
            ) {
                final(self).failing() == Some((ids, error))
            } else if ids.len() == 0 {
                result == Err::<Option<ExtendedPointId>, OperationError>(error)
            } else {
                old(self)@.produced.len() < usize::MAX ==> result == Ok::<
                    Option<ExtendedPointId>,
                    OperationError,
                >(Some(ids[0])) && final(self).failing() == Some((ids.drop_first(), error))
            },
            forall|ranking: Seq<ExtendedPointId>, failure: Option<OperationError>| #[trigger]
                old(self).leads(ranking, failure) && !old(self)@.cancelled ==> {
                    let rank = old(self)@.readers[reader as int]->0;
                    match result {
                        Ok(id) => {
                            &&& final(self).leads(ranking, failure)
                            &&& !final(self)@.cancelled
                            &&& if rank < ranking.len() {
                                &&& id == Some(ranking[rank as int])
                                &&& final(self)@.readers[reader as int] == Some(
                                    (rank + 1) as usize,
                                )
                            } else {
                                &&& id is None
                                &&& final(self)@.readers[reader as int] == Some(rank)
                            }
                        },
                        Err(error) => failure == Some(error),
                    }
                },
    {
        proof {
            self.replay.lemma_valid();
        }
        if self.replay.is_starved(reader) {
            let pulls: usize = self.replay.physical_pulls();
            let ghost produced = self.replay@.produced;
            let next = match &mut self.inner {
                Some(inner) => inner.next(),
                None => Ok(None),
            };
            match next {
                Ok(Some(id)) => {
                    proof {
                        assert forall|ranking: Seq<ExtendedPointId>, failure: Option<OperationError>|
                            #[trigger] old(self).leads(ranking, failure) implies ({
                            &&& ranking[produced.len() as int] == id
                            &&& produced.len() < ranking.len()
                            &&& led_by(self.inner->0, produced.push(id), ranking, failure)
                        }) by {
                            let inner = old(self).inner->0;
                            match failure {
                                None => {
                                    let rest = inner.rest()->0;
                                    assert(produced.push(id) + rest.drop_first() =~= produced + rest);
                                    assert((produced + rest)[produced.len() as int] == rest[0]);
                                },
                                Some(_) => {
                                    let (ids, _) = inner.failing().unwrap();
                                    assert(produced.push(id) + ids.drop_first() =~= produced + ids);
                                    assert((produced + ids)[produced.len() as int] == ids[0]);
                                },
                            }
                        }
                    }
                    if pulls == usize::MAX {
                        return refuse(Fault::TooManyRanks);
                    }
                    self.replay.grow(id);
                },
                Ok(None) => {
                    proof {
                        assert forall|ranking: Seq<ExtendedPointId>, failure: Option<OperationError>|
                            #[trigger] old(self).leads(ranking, failure) implies produced == ranking
                            && failure is None by {
                            if failure is None {
                                let rest = old(self).inner->0.rest()->0;
                                assert(rest.len() == 0);
                                assert(produced + rest =~= produced);
                            }
                        }
                    }
                    self.replay.finish();
                },
                Err(error) => {
                    return Err(error);
                },
            }
            proof {
                self.replay.lemma_valid();
            }
        }
        let ghost ready = *self;
        let (id, _) = self.replay.read(reader);
        proof {
            self.replay.lemma_valid();
            let rank = old(self)@.readers[reader as int]->0;
            assert forall|ranking: Seq<ExtendedPointId>, failure: Option<OperationError>| #[trigger]
                old(self).leads(ranking, failure) && !old(self)@.cancelled implies {
                &&& ready.leads(ranking, failure)
                &&& rank < ranking.len() <==> rank < ready@.produced.len()
                &&& rank < ranking.len() ==> ready@.produced[rank as int] == ranking[rank as int]
            } by {
                if ready@.exhausted {
                    assert(ready@.produced == ranking);
                } else {
                    assert(led_by(ready.inner->0, ready@.produced, ranking, failure));
                    match failure {
                        None => {
                            let rest = ready.inner->0.rest()->0;
                            assert(ready@.produced + rest == ranking);
                        },
                        Some(_) => {
                            let (ids, _) = ready.inner->0.failing().unwrap();
                            let known = ready@.produced + ids;
                            assert(known.is_prefix_of(ranking));
                            if rank < known.len() {
                                assert(known[rank as int] == ranking[rank as int]);
                            }
                        },
                    }
                }
            }
        }
        Ok(id)
    }

    /// Lets a reader leave. The last one to leave cancels a producer that has not
    /// ended, and releases it.
    pub fn close(&mut self, reader: usize)
        requires
            old(self).wf(),
            reader < old(self)@.readers.len(),
        ensures
            final(self).wf(),
            old(self)@.left_by(reader as int, final(self)@),
            all_left(final(self)@.readers) ==> final(self).producer() is None,
            !all_left(final(self)@.readers) ==> final(self).producer() == old(self).producer(),
            forall|ranking: Seq<ExtendedPointId>, failure: Option<OperationError>|
                old(self).leads(ranking, failure) ==> #[trigger] final(self).leads(
                    ranking,
                    failure,
                ),
    {
        let _ = self.replay.leave(reader);
        if self.replay.active_readers() == 0 {
            self.inner = None;
        }
    }

    /// What the stream has done so far.
    pub fn telemetry(&self) -> (telemetry: SharedRankStreamTelemetry)
        requires
            self.wf(),
        ensures
            telemetry == replay_telemetry(self@),
    {
        self.replay.telemetry()
    }
}

/// Whether a producer was asked at most once.
pub open spec fn asks_once<S: ExactRrfStream>(before: Option<S>, after: Option<S>) -> bool {
    match (before, after) {
        (Some(earlier), Some(later)) => earlier == later || exists|
            answer: OperationResult<Option<ExtendedPointId>>,
        | #[trigger] earlier.replies(answer, &later),
        (None, None) => true,
        _ => false,
    }
}

/// What happens to a replay buffer: a reader subscribes, asks for its next identity and
/// gets an answer, or leaves.
pub enum ReplayEvent {
    Subscribed,
    Asked { reader: int, answer: OperationResult<Option<ExtendedPointId>> },
    Left { reader: int },
}

/// Whether an event leads from one buffer to another.
pub open spec fn happens(before: ReplayView, event: ReplayEvent, after: ReplayView) -> bool {
    match event {
        ReplayEvent::Subscribed => before.produced.len() == 0 && after == (ReplayView {
            readers: before.readers.push(Some(0)),
            ..before
        }),
        ReplayEvent::Asked { reader, answer } => is_active(before.readers, reader)
            && before.asked_by(reader, answer, after),
        ReplayEvent::Left { reader } => is_active(before.readers, reader) && before.left_by(
            reader,
            after,
        ),
    }
}

/// Whether events, one after the other, lead from one buffer to another.
pub open spec fn events_lead(
    before: ReplayView,
    events: Seq<ReplayEvent>,
    after: ReplayView,
) -> bool
    decreases events.len(),
{
    if events.len() == 0 {
        after == before
    } else {
        exists|middle: ReplayView|
            events_lead(before, events.drop_last(), middle) && #[trigger] happens(
                middle,
                events.last(),
                after,
            )
    }
}

/// The identities that a reader was given.
pub open spec fn given_to(events: Seq<ReplayEvent>, reader: int) -> Seq<ExtendedPointId>
    decreases events.len(),
{
    if events.len() == 0 {
        Seq::empty()
    } else {
        let given = given_to(events.drop_last(), reader);
        match events.last() {
            ReplayEvent::Asked { reader: asked, answer: Ok(Some(id)) } => if asked == reader {
                given.push(id)
            } else {
                given
            },
            _ => given,
        }
    }
}

/// However readers subscribe, take turns and leave, each is given the produced identities in
/// order from the first; the producer is asked for no more than the furthest reader was
/// given; and what is kept is what the last reader that has not left still needs.
pub proof fn law_readers_share_one_order(
    opening: ReplayView,
    events: Seq<ReplayEvent>,
    after: ReplayView,
)
    requires
        opening.produced.len() == 0,
        opening.base == 0,
        forall|reader: int|
            0 <= reader < opening.readers.len() ==> #[trigger] opening.readers[reader] == Some(
                0usize,
            ),
        events_lead(opening, events, after),
    ensures
        after.readers.len() >= opening.readers.len(),
        after.produced.len() <= usize::MAX,
        forall|reader: int|
            0 <= reader < after.readers.len() ==> {
                let given = #[trigger] given_to(events, reader);
                &&& given.len() <= after.produced.len()
                &&& given == after.produced.take(given.len() as int)
                &&& after.readers[reader] is Some ==> after.readers[reader] == Some(
                    given.len() as usize,
                )
            },
        forall|reader: int|
            reader >= after.readers.len() ==> (#[trigger] given_to(events, reader)).len() == 0,
        after.produced.len() > 0 ==> exists|reader: int|
            0 <= reader < after.readers.len() && (#[trigger] given_to(events, reader)).len()
                == after.produced.len(),
        is_retained_from(after.readers, after.produced.len(), after.base),
    decreases events.len(),
{
    if events.len() == 0 {
        assert forall|reader: int| 0 <= reader < after.readers.len() implies {
            let given = #[trigger] given_to(events, reader);
            &&& given == after.produced.take(given.len() as int)
            &&& after.readers[reader] == Some(given.len() as usize)
        } by {
            assert(after.produced.take(0) =~= Seq::<ExtendedPointId>::empty());
        }
        if after.readers.len() > 0 {
            assert(after.readers[0] == Some(0usize));
        }
    } else {
        let first = events.drop_last();
        let middle = choose|middle: ReplayView|
            events_lead(opening, first, middle) && #[trigger] happens(
                middle,
                events.last(),
                after,
            );
        law_readers_share_one_order(opening, first, middle);
        let actor = match events.last() {
            ReplayEvent::Subscribed => middle.readers.len() as int,
            ReplayEvent::Asked { reader, answer } => reader,
            ReplayEvent::Left { reader } => reader,
        };
        let _ = given_to(first, actor);
        if events.last() is Asked && middle.starved(actor) {
            let answer = events.last()->answer;
            if answer is Ok && answer->Ok_0 is Some {
                let id = answer->Ok_0->0;
                assert(after.produced == middle.produced.push(id));
            }
        }
        assert(middle.produced =~= after.produced.take(middle.produced.len() as int));
        if events.last() is Subscribed {
            assert forall|reader: int| 0 <= reader < middle.readers.len() implies (
            #[trigger] middle.readers[reader] matches Some(position) ==> position == 0) by {
                let _ = given_to(first, reader);
            }
            assert(middle.base == 0);
            assert(after.readers[actor] == Some(0usize));
        }
        assert forall|reader: int| 0 <= reader < after.readers.len() implies {
            let given = #[trigger] given_to(events, reader);
            &&& given.len() <= after.produced.len()
            &&& given == after.produced.take(given.len() as int)
            &&& after.readers[reader] is Some ==> after.readers[reader] == Some(
                given.len() as usize,
            )
        } by {
            let held = given_to(first, reader);
            assert(held =~= after.produced.take(held.len() as int));
            let given = given_to(events, reader);
            if given.len() > held.len() {
                assert(given =~= after.produced.take(given.len() as int));
            }
        }
        if after.produced.len() > 0 {
            if middle.produced.len() == after.produced.len() {
                let leader = choose|reader: int|
                    0 <= reader < middle.readers.len() && (#[trigger] given_to(
                        first,
                        reader,
                    )).len() == middle.produced.len();
                assert(given_to(events, leader).len() == after.produced.len());
            } else {
                assert(given_to(events, actor).len() == after.produced.len());
            }
        }
        assert forall|reader: int| reader >= after.readers.len() implies (
        #[trigger] given_to(events, reader)).len() == 0 by {
            let _ = given_to(first, reader);
        }
    }
}

/// The identities that are kept after a number of changes.
pub open spec fn kept_after(changes: Seq<int>) -> int
    decreases changes.len(),
{
    if changes.len() == 0 {
        0
    } else {
        kept_after(changes.drop_last()) + changes.last()
    }
}

/// Whether a counter has counted the given changes: what is kept is their sum, and the peak
/// is the largest sum that the leading changes ever had.
pub open spec fn has_counted(current: int, peak: int, changes: Seq<int>) -> bool {
    &&& current == kept_after(changes)
    &&& forall|upto: int|
        0 <= upto <= changes.len() ==> #[trigger] kept_after(changes.take(upto)) <= peak
    &&& exists|upto: int|
        0 <= upto <= changes.len() && #[trigger] kept_after(changes.take(upto)) == peak
}

/// A counter that grows or shrinks keeps the largest number that was kept at once: where
/// `before` has counted some changes, `after` has counted one more.
pub proof fn law_peak_is_the_largest_sum(
    before: ReplayBufferTracker,
    after: ReplayBufferTracker,
    changes: Seq<int>,
    change: int,
)
    requires
        has_counted(before.current(), before.peak(), changes),
        after.current() == before.current() + change,
        after.peak() == (if change >= 0 && before.peak() < after.current() {
            after.current()
        } else {
            before.peak()
        }),
    ensures
        has_counted(after.current(), after.peak(), changes.push(change)),
{
    let longer = changes.push(change);
    assert(longer.drop_last() =~= changes);
    assert(longer.take(longer.len() as int) =~= longer);
    assert(changes.take(changes.len() as int) =~= changes);
    assert forall|upto: int| 0 <= upto <= longer.len() implies #[trigger] kept_after(
        longer.take(upto),
    ) <= after.peak() by {
        if upto <= changes.len() {
            assert(longer.take(upto) =~= changes.take(upto));
        } else {
            assert(kept_after(changes.take(changes.len() as int)) <= before.peak());
        }
    }
    if after.peak() == before.peak() {
        let upto = choose|upto: int|
            0 <= upto <= changes.len() && #[trigger] kept_after(changes.take(upto))
                == before.peak();
        assert(longer.take(upto) =~= changes.take(upto));
    } else {
        assert(kept_after(longer.take(longer.len() as int)) == after.peak());
    }
}

/// A call of a counter.
pub enum TrackerCall {
    Grow(usize),
    Shrink(usize),
}

/// Whether a call leads from one counter to another.
pub open spec fn tracker_call(
    before: ReplayBufferTracker,
    call: TrackerCall,
    after: ReplayBufferTracker,
) -> bool {
    match call {
        TrackerCall::Grow(identities) => {
            &&& after.current() == before.current() + identities
            &&& after.peak() == (if before.peak() < after.current() {
                after.current()
            } else {
                before.peak()
            })
        },
        TrackerCall::Shrink(identities) => {
            &&& identities <= before.current()
            &&& after.current() == before.current() - identities
            &&& after.peak() == before.peak()
        },
    }
}

/// Whether calls, one after the other, lead from one counter to another.
pub open spec fn tracker_calls(
    before: ReplayBufferTracker,
    calls: Seq<TrackerCall>,
    after: ReplayBufferTracker,
) -> bool
    decreases calls.len(),
{
    if calls.len() == 0 {
        after.current() == before.current() && after.peak() == before.peak()
    } else {
        exists|middle: ReplayBufferTracker|
            tracker_calls(before, calls.drop_last(), middle) && #[trigger] tracker_call(
                middle,
                calls.last(),
                after,
            )
    }
}

/// What calls change.
pub open spec fn changes_of(calls: Seq<TrackerCall>) -> Seq<int> {
    Seq::new(
        calls.len(),
        |i: int|
            match calls[i] {
                TrackerCall::Grow(identities) => identities as int,
                TrackerCall::Shrink(identities) => -(identities as int),
            },
    )
}

/// The peak of a counter that began at zero is the largest number that was ever kept, over
/// any sequence of calls; shrinking never lowers it.
pub proof fn law_peak_over_calls(
    first: ReplayBufferTracker,
    calls: Seq<TrackerCall>,
    last: ReplayBufferTracker,
)
    requires
        first.current() == 0,
        first.peak() == 0,
        tracker_calls(first, calls, last),
    ensures
        has_counted(last.current(), last.peak(), changes_of(calls)),
        last.current() >= 0,
    decreases calls.len(),
{
    if calls.len() == 0 {
        assert(changes_of(calls).take(0) =~= changes_of(calls));
        assert(kept_after(changes_of(calls).take(0)) == 0);
    } else {
        let middle = choose|middle: ReplayBufferTracker|
            tracker_calls(first, calls.drop_last(), middle) && #[trigger] tracker_call(
                middle,
                calls.last(),
                last,
            );
        law_peak_over_calls(first, calls.drop_last(), middle);
        let shorter = changes_of(calls.drop_last());
        let change = changes_of(calls)[calls.len() - 1];
        assert(changes_of(calls) =~= shorter.push(change));
        assert(shorter.take(shorter.len() as int) =~= shorter);
        assert(kept_after(shorter.take(shorter.len() as int)) <= middle.peak());
        law_peak_is_the_largest_sum(middle, last, shorter, change);
    }
}

} // verus!
