//! Exact fusion of dense and sparse channels.
//!
//! Channels with the same query share a stream, a search can be stopped between
//! pulls, and a search that has probed its sparse channels can go on with rankings
//! that were evaluated for all of them at once.

pub use crate::n_channel_rank_sharing::{ExactChannelQuery, RemappedSparseVector};

use crate::dense_documents::{
    document_ids, documents_fault, ids_of_documents, is_sorted_copy, DenseDocument,
};
use crate::dense_quantized::{
    fits_products, is_query, quantized_error, quantizes, DenseQuantizedError, DenseQuantizedIndex,
    DenseQuantizedTelemetry, QuantizedVector, QuantizedVectorMetadata,
};
use crate::exact_composition::account::answered_ids;
use crate::exact_composition::exhaustive::counted;
use crate::frontier::{CertifiedStream, KeyTable};
use crate::n_channel_rank_sharing::{
    are_unique_sparse, bits_view, copied_sparse, dense_representatives, group_members, is_dense,
    is_sparse_copy, lemma_same_content, members_of_group, query_content, representatives_lead,
    share_identical_rank_streams, sum_of, tally, unique_sparse_queries, unread, RankBank,
    RankStreamSharingTelemetry, Sharing,
};
use crate::n_channel_sources::{
    is_channel_source, lemma_dense_reaches, lemma_streams_ranking, misfits, open_sources,
    opens_channels, ranks_documents, streams_channel, ChannelKeys, ChannelScores, ChannelSource,
    DenseChannels,
};
use crate::n_channel_trace::ChannelState;
use crate::operation_error::{refuse, refused, Fault, OperationError, OperationResult};
use crate::order::ExtendedPointId;
use crate::rank_queue::{lemma_order_is_unique, lemma_ordered, order_entries, RankEntry};
use crate::rank_stream::{asks_once, replay_telemetry, ReplayView, SharedRankStreamTelemetry};
use crate::reciprocal_rank_fusion::certificate::can_become;
use crate::reciprocal_rank_fusion::progress::{
    accepts_priority, fresh_session, is_outcome, product, saturating_product, session_fault,
    ProgressView, RrfProgress, SessionStep,
};
use crate::reciprocal_rank_fusion::executor::leads_from_start;
use crate::reciprocal_rank_fusion::scoring::accepts;
use crate::reciprocal_rank_fusion::session::{
    completed, continues_session, is_exhaustive_prefix, lemma_continues_transitive,
    lemma_outcome_is_exhaustive, lemma_session_continues_itself, lemma_supplied_continues,
    lemma_supply_follows, no_targets, reaches, replay_fault,
};
use crate::reciprocal_rank_fusion::state::{
    effective_weights, weights_view, PointBounds, UNIT_WEIGHT,
};
use crate::reciprocal_rank_fusion::types::{
    default_policy, infallible_exact_rrf_stream, ChannelRankBatch, DynamicRrfAdvance, DynamicRrfExecution,
    DynamicRrfPolicy, ExactRrfStream, IdStream,
};
use crate::tables::repeated;
use vstd::prelude::*;

verus! {

/// Whether a search can be asked to stop.
pub open spec fn can_stop<T: Fn() -> bool>(stopped: T) -> bool {
    stopped.requires(())
}

/// Whether a search is never stopped.
pub open spec fn never_stops<T: Fn() -> bool>(stopped: T) -> bool {
    forall|answer: bool| #[trigger] stopped.ensures((), answer) ==> !answer
}

/// Whether an operation has ended because it was stopped.
pub open spec fn ends_stopped<T: Fn() -> bool, A>(stopped: T, result: OperationResult<A>) -> bool {
    stopped.ensures((), true) && result == Err::<A, OperationError>(OperationError::Cancelled)
}

/// Why a ranking cannot take the place of the stream of a channel; a channel that has
/// ended keeps its stream.
pub open spec fn replacement_fault(
    view: ProgressView,
    places: Seq<usize>,
    lists: Seq<Vec<u32>>,
    at: int,
) -> Option<Fault> {
    let source = places[at];
    if view.fusion.exhausted[source as int] {
        None
    } else {
        replay_fault(view.fusion.histories[source as int], offset_ids(lists[at]@), source, 0)
    }
}

/// How many identities the leading channels that have not ended have yielded.
pub open spec fn replayed_count(view: ProgressView, places: Seq<usize>, upto: int) -> nat
    decreases upto,
{
    if upto <= 0 {
        0
    } else {
        let source = places[upto - 1] as int;
        replayed_count(view, places, upto - 1) + (if view.fusion.exhausted[source] {
            0
        } else {
            view.fusion.histories[source].len()
        })
    }
}

/// A session after the leading replacements: every channel that has not ended goes on with
/// what its ranking holds beyond what it has yielded.
pub open spec fn replaced_after(
    state: ChannelState,
    places: Seq<usize>,
    lists: Seq<Vec<u32>>,
    done: int,
) -> ChannelState
    decreases done,
{
    if done <= 0 {
        state
    } else {
        let before = replaced_after(state, places, lists, done - 1);
        let source = places[done - 1] as int;
        if state.view.fusion.exhausted[source] {
            before
        } else {
            before.replaced_by(source, offset_ids(lists[done - 1]@))
        }
    }
}

/// No failure of any of a number of channels.
pub open spec fn no_failures(count: nat) -> Seq<Option<OperationError>> {
    Seq::new(count, |source: int| None::<OperationError>)
}

/// Whether lists of offsets are the rankings of the channels at the given places.
pub open spec fn are_rankings_at(
    lists: Seq<Vec<u32>>,
    places: Seq<usize>,
    rankings: Seq<Seq<ExtendedPointId>>,
) -> bool {
    &&& lists.len() == places.len()
    &&& forall|i: int|
        0 <= i < lists.len() ==> offset_ids((#[trigger] lists[i])@) == rankings[places[i] as int]
}

/// Whether every failure that is left is one of the given ones.
pub open spec fn are_some_of(
    left: Seq<Option<OperationError>>,
    failures: Seq<Option<OperationError>>,
) -> bool {
    &&& left.len() == failures.len()
    &&& forall|source: int|
        0 <= source < left.len() ==> (#[trigger] left[source] is Some ==> left[source]
            == failures[source])
}

/// A fusion over channels some of which share a stream.
pub struct NChannelSession<S> {
    bank: RankBank<S>,
    replaced: Vec<Option<IdStream>>,
    progress: RrfProgress,
}

impl<S> View for NChannelSession<S> {
    type V = ProgressView;

    closed spec fn view(&self) -> ProgressView {
        self.progress@
    }
}

/// Whether a producer comes a number of pulls after another.
pub open spec fn producer_descends<S: ExactRrfStream>(
    before: Option<S>,
    after: Option<S>,
) -> bool {
    match (before, after) {
        (Some(earlier), Some(later)) => exists|pulls: nat| #[trigger]
            reaches(earlier, later, pulls),
        (None, None) => true,
        _ => false,
    }
}

/// Whether a bank comes after another: its channels read as they did, and its producers
/// come after those of the other.
pub open spec fn producers_descend<S: ExactRrfStream>(
    before: RankBank<S>,
    after: RankBank<S>,
) -> bool {
    &&& after.physical() == before.physical()
    &&& forall|source: int| #[trigger] after.reader(source) == before.reader(source)
    &&& forall|group: int|
        0 <= group < before.physical() ==> producer_descends(
            before.producer(group),
            #[trigger] after.producer(group),
        )
}

proof fn lemma_producers_stay<S: ExactRrfStream>(bank: RankBank<S>)
    ensures
        producers_descend(bank, bank),
{
    assert forall|group: int| 0 <= group < bank.physical() implies producer_descends(
        bank.producer(group),
        #[trigger] bank.producer(group),
    ) by {
        if let Some(producer) = bank.producer(group) {
            assert(reaches(producer, producer, 0));
        }
    }
}

proof fn lemma_reaches_twice<S: ExactRrfStream>(
    first: S,
    second: S,
    third: S,
    before: nat,
    after: nat,
)
    requires
        reaches(first, second, before),
        reaches(second, third, after),
    ensures
        reaches(first, third, before + after),
    decreases after,
{
    if after > 0 {
        let (middle, result) = choose|
            middle: S,
            result: OperationResult<Option<ExtendedPointId>>,
        |
            reaches(second, middle, (after - 1) as nat) && #[trigger] middle.replies(
                result,
                &third,
            );
        lemma_reaches_twice(first, second, middle, before, (after - 1) as nat);
        assert(reaches(first, middle, (before + after - 1) as nat) && middle.replies(
            result,
            &third,
        ));
    }
}

proof fn lemma_producers_descend_twice<S: ExactRrfStream>(
    first: RankBank<S>,
    second: RankBank<S>,
    third: RankBank<S>,
)
    requires
        producers_descend(first, second),
        producers_descend(second, third),
    ensures
        producers_descend(first, third),
{
    assert forall|source: int| #[trigger] third.reader(source) == first.reader(source) by {
        let _ = second.reader(source);
    }
    assert forall|group: int| 0 <= group < first.physical() implies producer_descends(
        first.producer(group),
        #[trigger] third.producer(group),
    ) by {
        let _ = second.producer(group);
        if let (Some(x), Some(y), Some(z)) = (
            first.producer(group),
            second.producer(group),
            third.producer(group),
        ) {
            let before = choose|pulls: nat| #[trigger] reaches(x, y, pulls);
            let after = choose|pulls: nat| #[trigger] reaches(y, z, pulls);
            lemma_reaches_twice(x, y, z, before, after);
        }
    }
}

/// Producers that are asked at most once descend.
proof fn lemma_producers_asked<S: ExactRrfStream>(before: RankBank<S>, after: RankBank<S>)
    requires
        after.physical() == before.physical(),
        forall|source: int| #[trigger] after.reader(source) == before.reader(source),
        forall|group: int|
            0 <= group < before.physical() ==> asks_once(
                before.producer(group),
                #[trigger] after.producer(group),
            ),
    ensures
        producers_descend(before, after),
{
    assert forall|group: int| 0 <= group < before.physical() implies producer_descends(
        before.producer(group),
        #[trigger] after.producer(group),
    ) by {
        if let (Some(x), Some(y)) = (before.producer(group), after.producer(group)) {
            assert(reaches(x, x, 0));
            if x != y {
                let answer = choose|answer: OperationResult<Option<ExtendedPointId>>| #[trigger]
                    x.replies(answer, &y);
                assert(reaches(x, x, (1 - 1) as nat) && x.replies(answer, &y));
                assert(reaches(x, y, 1));
            }
        }
    }
}

/// The lengths of the histories of a session.
pub open spec fn lengths_of(view: ProgressView) -> Seq<nat> {
    Seq::new(view.fusion.weights.len(), |source: int| view.fusion.histories[source].len())
}

/// Whether a number of identities is no more than what a channel of a group has read.
pub open spec fn leads_group(
    groups: Seq<usize>,
    pulls: nat,
    lengths: Seq<nat>,
    group: int,
) -> bool {
    pulls > 0 ==> exists|source: int|
        0 <= source < groups.len() && #[trigger] groups[source] == group && pulls
            <= lengths[source]
}

/// Whether no channel of a group has read more than a number of identities.
pub open spec fn ends_group(
    groups: Seq<usize>,
    pulls: nat,
    lengths: Seq<nat>,
    group: int,
) -> bool {
    forall|source: int|
        0 <= source < groups.len() && #[trigger] groups[source] == group ==> lengths[source]
            <= pulls
}

/// Whether every channel of a bank, read to its end, is the given ranking, or fails as
/// given after a first part of it.
pub open spec fn bank_leads<S: ExactRrfStream>(
    bank: RankBank<S>,
    rankings: Seq<Seq<ExtendedPointId>>,
    failures: Seq<Option<OperationError>>,
) -> bool {
    &&& rankings.len() == bank.count()
    &&& failures.len() == bank.count()
    &&& forall|source: int|
        0 <= source < rankings.len() ==> bank.source_leads(
            source,
            #[trigger] rankings[source],
            failures[source],
        )
}

impl<S: ExactRrfStream> NChannelSession<S> {
    /// Whether the parts belong together.
    pub closed spec fn wf(&self) -> bool {
        &&& self.bank.wf()
        &&& self.progress.wf()
        &&& self.bank.count() == self.progress@.fusion.weights.len()
        &&& self.replaced@.len() == self.bank.count()
        &&& forall|source: int|
            0 <= source < self.replaced@.len() ==> ((
            #[trigger] self.replaced@[source]) matches Some(stream) ==> ExactRrfStream::rest(
                &stream,
            ) is Some)
    }

    /// What is left of the rankings that replaced streams.
    pub closed spec fn rests(&self) -> Seq<Option<Seq<ExtendedPointId>>> {
        Seq::new(
            self.replaced@.len(),
            |source: int|
                match self.replaced@[source] {
                    Some(stream) => ExactRrfStream::rest(&stream),
                    None => None,
                },
        )
    }

    /// Where the session stands.
    pub open spec fn state(&self) -> ChannelState {
        ChannelState {
            view: self@,
            replays: self.bank().replays(),
            rests: self.rests(),
            groups: self.bank().groups(),
            readers: self.bank().readers(),
        }
    }

    /// The streams of the session.
    pub closed spec fn bank(&self) -> RankBank<S> {
        self.bank
    }

    /// Whether every channel has read as many identities of its physical stream as given,
    /// or fewer where its stream was replaced.
    pub closed spec fn is_paced(&self, lengths: Seq<nat>) -> bool {
        &&& self.bank.is_led()
        &&& lengths.len() == self.bank.count()
        &&& forall|source: int|
            0 <= source < lengths.len() ==> {
                &&& self.bank.position(source) <= #[trigger] lengths[source]
                &&& self.replaced@[source] is None ==> self.bank.position(source)
                    == lengths[source]
            }
    }

    /// Whether the histories are what the channels have read.
    pub open spec fn in_step(&self) -> bool {
        self.is_paced(lengths_of(self@))
    }

    /// Whether no stream was replaced.
    pub closed spec fn is_direct(&self) -> bool {
        forall|source: int|
            0 <= source < self.replaced@.len() ==> (#[trigger] self.replaced@[source]) is None
    }

    /// Whether `later` is this session with the same groups, as much in step and as direct.
    pub open spec fn keeps_step(&self, later: &Self, succeeds: bool) -> bool {
        &&& later.bank().groups() == self.bank().groups()
        &&& later.bank().physical() == self.bank().physical()
        &&& later.bank().count() == self.bank().count()
        &&& self.is_direct() ==> later.is_direct()
        &&& succeeds && self.in_step() ==> later.in_step()
    }

    /// What the physical streams of a session in step have yielded: nothing, or what a
    /// channel has read; and where no stream was replaced, no channel has read more.
    pub proof fn lemma_in_step(&self, group: int)
        requires
            self.wf(),
            self.in_step(),
            0 <= group < self.bank().physical(),
        ensures
            leads_group(
                self.bank().groups(),
                self.bank().replay(group).produced.len(),
                lengths_of(self@),
                group,
            ),
            self.is_direct() ==> ends_group(
                self.bank().groups(),
                self.bank().replay(group).produced.len(),
                lengths_of(self@),
                group,
            ),
    {
        let lengths = lengths_of(self@);
        self.bank.lemma_groups_len();
        if self.bank.replay(group).produced.len() > 0 {
            assert(self.bank.has_leader(group));
            let source = choose|source: int|
                0 <= source < self.bank.count() && self.bank.groups()[source] == group
                    && #[trigger] self.bank.position(source) == self.bank.replay(
                    group,
                ).produced.len();
            let _ = lengths[source];
        }
        if self.is_direct() {
            assert forall|source: int|
                0 <= source < self.bank.groups().len() && #[trigger] self.bank.groups()[source]
                    == group implies lengths[source] <= self.bank.replay(group).produced.len() by {
                let _ = self.replaced@[source];
                let _ = lengths[source];
                self.bank.lemma_positions(source);
            }
        }
    }

    /// Whether a channel will complete a ranking.
    pub open spec fn completes(&self, source: int, ranking: Seq<ExtendedPointId>) -> bool {
        self.channel_leads(source, ranking, None)
    }

    /// Whether a channel will complete a ranking, or fail as given after a first part of it.
    pub closed spec fn channel_leads(
        &self,
        source: int,
        ranking: Seq<ExtendedPointId>,
        failure: Option<OperationError>,
    ) -> bool {
        let history = self.progress@.fusion.histories[source];
        match self.replaced@[source] {
            Some(stream) => failure is None && ExactRrfStream::rest(&stream) == Some(
                ranking.skip(history.len() as int),
            ),
            None => self.bank.source_leads(source, ranking, failure) && self.bank.position(source)
                == history.len(),
        }
    }

    /// Whether the channels will complete the given rankings without failing.
    pub open spec fn follows(&self, rankings: Seq<Seq<ExtendedPointId>>) -> bool {
        self.leads(rankings, no_failures(rankings.len()))
    }

    /// Whether the channels will complete the given rankings, or fail as given after first
    /// parts of them.
    pub open spec fn leads(
        &self,
        rankings: Seq<Seq<ExtendedPointId>>,
        failures: Seq<Option<OperationError>>,
    ) -> bool {
        &&& can_become(self@.fusion, rankings)
        &&& failures.len() == rankings.len()
        &&& forall|source: int|
            0 <= source < rankings.len() ==> self.channel_leads(
                source,
                #[trigger] rankings[source],
                failures[source],
            )
    }

    /// Whether `later` is the session after the first `done` replacements: each of those
    /// channels that has not ended goes on with its last replacement, and every other
    /// channel as before.
    pub open spec fn replaces(
        &self,
        later: &Self,
        places: Seq<usize>,
        lists: Seq<Vec<u32>>,
        done: int,
    ) -> bool {
        &&& 0 <= done <= places.len()
        &&& done <= lists.len()
        &&& forall|i: int| 0 <= i < done ==> #[trigger] replacement_fault(self@, places, lists, i) is None
        &&& forall|i: int|
            #![trigger lists[i]]
            0 <= i < done && !self@.fusion.exhausted[places[i] as int] && !places.subrange(
                i + 1,
                done,
            ).contains(places[i]) ==> later.completes(places[i] as int, offset_ids(lists[i]@))
        &&& forall|other: usize, ranking: Seq<ExtendedPointId>, failure: Option<OperationError>|
            other < self@.fusion.weights.len() && (self@.fusion.exhausted[other as int]
                || !places.take(done).contains(other)) && #[trigger] self.channel_leads(
                other as int,
                ranking,
                failure,
            ) ==> later.channel_leads(other as int, ranking, failure)
    }

    /// The parts of a session belong together.
    pub proof fn lemma_valid(&self)
        requires
            self.wf(),
        ensures
            self@.valid(),
            self.bank().wf(),
            self.bank().count() == self@.fusion.weights.len(),
    {
        self.progress.lemma_valid();
    }

    /// A session over a bank of channels.
    pub fn new(
        bank: RankBank<S>,
        count: usize,
        top_k: usize,
        rrf_k: usize,
        weights: Option<&Vec<i64>>,
        policy: DynamicRrfPolicy,
    ) -> (result: OperationResult<NChannelSession<S>>)
        requires
            bank.wf(),
            bank.count() == count,
            forall|source: int| 0 <= source < count ==> #[trigger] bank.position(source) == 0,
        ensures
            match session_fault(
                count,
                1,
                rrf_k,
                weights_view(weights),
                Seq::new(count as nat, |i: int| UNIT_WEIGHT),
                policy,
            ) {
                Some(fault) => result == refused::<NChannelSession<S>>(fault),
                None => {
                    &&& result matches Ok(session)
                    &&& session.wf()
                    &&& session.bank() == bank
                    &&& session@ == fresh_session(
                        count,
                        1,
                        top_k,
                        rrf_k,
                        weights_view(weights),
                        Seq::new(count as nat, |i: int| UNIT_WEIGHT),
                        policy,
                    )
                    &&& forall|rankings: Seq<Seq<ExtendedPointId>>| #[trigger]
                        bank.follows(rankings) && are_counted(rankings) ==> session.follows(
                            rankings,
                        )
                    &&& forall|
                        rankings: Seq<Seq<ExtendedPointId>>,
                        failures: Seq<Option<OperationError>>,
                    | #[trigger]
                        bank_leads(bank, rankings, failures) && are_counted(rankings)
                            ==> session.leads(rankings, failures)
                    &&& session.is_direct()
                    &&& bank.is_led() ==> session.in_step()
                    &&& session.rests() == Seq::new(
                        count as nat,
                        |source: int| None::<Seq<ExtendedPointId>>,
                    )
                },
            },
    {
        let costs = repeated(UNIT_WEIGHT, count);
        assert(costs@ =~= Seq::new(count as nat, |i: int| UNIT_WEIGHT));
        let progress = match RrfProgress::new(count, 1, top_k, rrf_k, weights, &costs, policy) {
            Ok(progress) => progress,
            Err(error) => {
                return Err(error);
            },
        };
        proof {
            progress.lemma_valid();
        }
        let mut replaced: Vec<Option<IdStream>> = Vec::new();
        while replaced.len() < count
            invariant
                replaced@.len() <= count,
                forall|source: int|
                    0 <= source < replaced@.len() ==> (#[trigger] replaced@[source]) is None,
            decreases count - replaced@.len(),
        {
            replaced.push(None);
        }
        let session = NChannelSession { bank, replaced, progress };
        proof {
            assert(session.rests() =~= Seq::new(
                count as nat,
                |source: int| None::<Seq<ExtendedPointId>>,
            ));
            assert forall|
                rankings: Seq<Seq<ExtendedPointId>>,
                failures: Seq<Option<OperationError>>,
            | #[trigger]
                bank_leads(bank, rankings, failures) && are_counted(rankings) implies session.leads(
                rankings,
                failures,
            ) by {
                assert forall|source: int| 0 <= source < rankings.len() implies {
                    let history = session@.fusion.histories[source];
                    &&& (#[trigger] rankings[source]).no_duplicates()
                    &&& rankings[source].len() <= usize::MAX
                    &&& history.len() <= rankings[source].len()
                    &&& history == rankings[source].take(history.len() as int)
                } by {
                    assert(rankings[source].take(0) =~= Seq::<ExtendedPointId>::empty());
                }
                assert forall|source: int| 0 <= source < rankings.len() implies
                    session.channel_leads(source, #[trigger] rankings[source], failures[source]) by {
                    assert(bank.position(source) == 0);
                    assert(bank.source_leads(source, rankings[source], failures[source]));
                    assert(session.replaced@[source] is None);
                }
            }
            assert forall|rankings: Seq<Seq<ExtendedPointId>>| #[trigger]
                bank.follows(rankings) && are_counted(rankings) implies session.follows(
                rankings,
            ) by {
                bank.lemma_follows(rankings);
                assert(bank_leads(bank, rankings, no_failures(rankings.len())));
            }
        }
        Ok(session)
    }

    /// The next identity of a channel; a search that was stopped gives none.
    fn pull<T: Fn() -> bool>(&mut self, source: usize, stopped: &T) -> (result: OperationResult<
        Option<ExtendedPointId>,
    >)
        requires
            old(self).wf(),
            source < old(self)@.fusion.weights.len(),
            can_stop(*stopped),
        ensures
            final(self).wf(),
            final(self)@ == old(self)@,
            old(self).keeps_step(&*final(self), false),
            old(self).state().answers(*stopped, source, result, final(self).state()),
            producers_descend(old(self).bank(), final(self).bank()),
            result matches Ok(id) ==> forall|lengths: Seq<nat>| #[trigger]
                old(self).is_paced(lengths) ==> final(self).is_paced(
                    if id is Some {
                        lengths.update(source as int, lengths[source as int] + 1)
                    } else {
                        lengths
                    },
                ),
            result is Ok ==> forall|
                other: int,
                ranking: Seq<ExtendedPointId>,
                failure: Option<OperationError>,
            |
                0 <= other < old(self)@.fusion.weights.len() && other != source
                    && #[trigger] old(self).channel_leads(
                    other,
                    ranking,
                    failure,
                ) ==> final(self).channel_leads(other, ranking, failure),
            forall|ranking: Seq<ExtendedPointId>, failure: Option<OperationError>| #[trigger]
                old(self).channel_leads(source as int, ranking, failure) ==> {
                    let rank = old(self)@.fusion.histories[source as int].len();
                    rank <= ranking.len() ==> match result {
                        Ok(id) => if rank < ranking.len() {
                            &&& id == Some(ranking[rank as int])
                            &&& final(self).will_lead(source as int, ranking, failure, rank as int + 1)
                        } else {
                            &&& id is None
                            &&& final(self).will_lead(source as int, ranking, failure, rank as int)
                        },
                        Err(error) => failure == Some(error) || error is Cancelled
                            && stopped.ensures((), true),
                    }
                },
    {
        let stop = stopped();
        assert(stopped.ensures((), stop));
        proof {
            lemma_producers_stay(self.bank);
        }
        if stop {
            return Err(OperationError::Cancelled);
        }
        let ghost before = *self;
        if self.replaced[source].is_some() {
            let mut taken: Option<IdStream> = None;
            let slot = &mut self.replaced[source];
            std::mem::swap(slot, &mut taken);
            match taken {
                Some(stream) => {
                    let mut stream = stream;
                    let ghost held = ExactRrfStream::rest(&stream);
                    let result = ExactRrfStream::next(&mut stream);
                    self.replaced.set(source, Some(stream));
                    proof {
                        assert forall|ranking: Seq<ExtendedPointId>, failure: Option<OperationError>|
                            #[trigger] before.channel_leads(source as int, ranking, failure) implies {
                            let rank = before@.fusion.histories[source as int].len();
                            rank <= ranking.len() ==> match result {
                                Ok(id) => if rank < ranking.len() {
                                    &&& id == Some(ranking[rank as int])
                                    &&& self.will_lead(
                                        source as int,
                                        ranking,
                                        failure,
                                        rank as int + 1,
                                    )
                                } else {
                                    &&& id is None
                                    &&& self.will_lead(
                                        source as int,
                                        ranking,
                                        failure,
                                        rank as int,
                                    )
                                },
                                Err(_) => false,
                            }
                        } by {
                            let rank = before@.fusion.histories[source as int].len() as int;
                            if rank < ranking.len() {
                                assert(ranking.skip(rank).drop_first() =~= ranking.skip(rank + 1));
                            }
                        }
                        assert(self.bank == before.bank);
                        before.bank.lemma_groups_len();
                        assert(before.rests()[source as int] == held);
                        let rest = held->0;
                        if rest.len() > 0 {
                            assert(self.rests() =~= before.rests().update(
                                source as int,
                                Some(rest.drop_first()),
                            ));
                        } else {
                            assert(self.rests() =~= before.rests());
                        }
                    }
                    return result;
                },
                None => {
                    assert(false);
                    return Ok(None);
                },
            }
        }
        assert(self.replaced@[source as int] is None);
        let result = self.bank.next(source);
        proof {
            let group = before.bank.groups()[source as int] as int;
            lemma_producers_asked(before.bank, self.bank);
            assert(self.rests() =~= before.rests());
            assert(self.bank.readers() =~= before.bank.readers());
            assert(self.bank.replays() =~= before.bank.replays().update(
                group,
                self.bank.replay(group),
            ));
            if result is Err {
                assert(self.bank.replays() =~= before.bank.replays());
            }
        }
        result
    }

    /// Whether a channel whose history has grown to the given rank will complete a
    /// ranking, or fail as given.
    closed spec fn will_lead(
        &self,
        source: int,
        ranking: Seq<ExtendedPointId>,
        failure: Option<OperationError>,
        rank: int,
    ) -> bool {
        match self.replaced@[source] {
            Some(stream) => failure is None && ExactRrfStream::rest(&stream) == Some(
                ranking.skip(rank),
            ),
            None => self.bank.source_leads(source, ranking, failure) && self.bank.position(source)
                == rank,
        }
    }

    /// Advances until the Top-K is fixed or every channel with a target has yielded
    /// that many identities or ended.
    pub fn advance_until_each<
        T: Fn() -> bool,
        F: Fn(i64, usize, usize, i64) -> i64,
        P: Fn(usize, usize, i64, usize, i64) -> i64,
    >(
        &mut self,
        minimum_pulls: &Vec<Option<usize>>,
        stopped: &T,
        accumulate: &F,
        priority: &P,
    ) -> (result: OperationResult<DynamicRrfAdvance>)
        requires
            old(self).wf(),
            old(self)@.batch_size == 1,
            can_stop(*stopped),
            accepts(*accumulate),
            accepts_priority(*priority),
            minimum_pulls@.len() == old(self)@.fusion.weights.len(),
        ensures
            final(self).wf(),
            continues_session(old(self)@, final(self)@),
            old(self).keeps_step(&*final(self), result is Ok),
            producers_descend(old(self).bank(), final(self).bank()),
            result matches Ok(DynamicRrfAdvance::Fixed(execution)) ==> {
                &&& final(self)@.reported(execution)
                &&& exists|rows: Seq<PointBounds>, unseen: i64|
                    #[trigger] is_outcome(
                        final(self)@,
                        *accumulate,
                        rows,
                        unseen,
                        Some(execution.point_ids@),
                    )
            },
            result matches Ok(DynamicRrfAdvance::Paused) ==> final(self)@.pause_reached(
                minimum_pulls@,
            ),
            forall|rankings: Seq<Seq<ExtendedPointId>>, failures: Seq<Option<OperationError>>|
                #[trigger] old(self).leads(rankings, failures) ==> match result {
                    Ok(_) => final(self).leads(rankings, failures),
                    Err(error) => failures.contains(Some(error)) || error is Cancelled
                        && stopped.ensures((), true),
                },
            never_stops(*stopped) ==> forall|rankings: Seq<Seq<ExtendedPointId>>| #[trigger]
                old(self).follows(rankings) ==> result is Ok && final(self).follows(rankings),
            old(self).state().runs(
                minimum_pulls@,
                *stopped,
                *accumulate,
                *priority,
                result,
                final(self).state(),
            ),
    {
        let ghost start = self.state();
        let ghost mut pulled_count: nat = 0;
        proof {
            self.lemma_valid();
            lemma_session_continues_itself(self@);
            lemma_producers_stay(self.bank);
            start.lemma_no_pulls(minimum_pulls@, *stopped, *accumulate, *priority);
        }
        loop
            invariant
                start == old(self).state(),
                start.comes_to(
                    minimum_pulls@,
                    *stopped,
                    *accumulate,
                    *priority,
                    pulled_count,
                    self.state(),
                ),
                self.wf(),
                self@.batch_size == 1,
                can_stop(*stopped),
                accepts(*accumulate),
                accepts_priority(*priority),
                minimum_pulls@.len() == self@.fusion.weights.len(),
                continues_session(old(self)@, self@),
                old(self).keeps_step(&*self, true),
                producers_descend(old(self).bank(), self.bank()),
                forall|rankings: Seq<Seq<ExtendedPointId>>, failures: Seq<Option<OperationError>>|
                    #[trigger] old(self).leads(rankings, failures) ==> self.leads(
                        rankings,
                        failures,
                    ),
            decreases usize::MAX - self@.schedule.len(),
        {
            let ghost before = self@;
            let ghost held = *self;
            proof {
                self.lemma_valid();
            }
            match self.progress.next_step(minimum_pulls, accumulate, priority) {
                SessionStep::Fixed(execution) => {
                    proof {
                        self.lemma_valid();
                        assert(self@.fusion == before.fusion);
                        assert(self@.schedule == before.schedule);
                        assert(continues_session(before, self@)) by {
                            lemma_session_continues_itself(before);
                        }
                        assert(lengths_of(self@) =~= lengths_of(before));
                        assert(self.is_paced(lengths_of(before)) == held.is_paced(
                            lengths_of(before),
                        ));
                        lemma_continues_transitive(old(self)@, before, self@);
                        let (rows, unseen) = choose|rows: Seq<PointBounds>, unseen: i64|
                            #[trigger] is_outcome(
                                before,
                                *accumulate,
                                rows,
                                unseen,
                                Some(execution.point_ids@),
                            );
                        assert(is_outcome(
                            self@,
                            *accumulate,
                            rows,
                            unseen,
                            Some(execution.point_ids@),
                        ));
                        assert forall|
                            rankings: Seq<Seq<ExtendedPointId>>,
                            failures: Seq<Option<OperationError>>,
                        |
                            held.leads(rankings, failures) implies #[trigger] self.leads(
                            rankings,
                            failures,
                        ) by {
                            Self::lemma_same_leads(&held, self, rankings, failures);
                        }
                    }
                    proof {
                        reveal(ChannelState::stops);
                        assert(self.rests() =~= held.rests());
                        assert(held.state().stops(
                            minimum_pulls@,
                            *stopped,
                            *accumulate,
                            *priority,
                            Ok(DynamicRrfAdvance::Fixed(execution)),
                            self.state(),
                        ));
                    }
                    return Ok(DynamicRrfAdvance::Fixed(execution));
                },
                SessionStep::Paused => {
                    proof {
                        self.lemma_valid();
                        assert(self@.fusion == before.fusion);
                        assert(self@.schedule == before.schedule);
                        assert(continues_session(before, self@)) by {
                            lemma_session_continues_itself(before);
                        }
                        assert(lengths_of(self@) =~= lengths_of(before));
                        assert(self.is_paced(lengths_of(before)) == held.is_paced(
                            lengths_of(before),
                        ));
                        lemma_continues_transitive(old(self)@, before, self@);
                        assert forall|source: int| 0 <= source < minimum_pulls@.len() implies
                            #[trigger] self@.target_reached(minimum_pulls@, source) by {
                            assert(before.target_reached(minimum_pulls@, source));
                        }
                        assert forall|
                            rankings: Seq<Seq<ExtendedPointId>>,
                            failures: Seq<Option<OperationError>>,
                        |
                            held.leads(rankings, failures) implies #[trigger] self.leads(
                            rankings,
                            failures,
                        ) by {
                            Self::lemma_same_leads(&held, self, rankings, failures);
                        }
                    }
                    proof {
                        reveal(ChannelState::stops);
                        assert(self.rests() =~= held.rests());
                        assert(held.state().stops(
                            minimum_pulls@,
                            *stopped,
                            *accumulate,
                            *priority,
                            Ok(DynamicRrfAdvance::Paused),
                            self.state(),
                        ));
                    }
                    return Ok(DynamicRrfAdvance::Paused);
                },
                SessionStep::Pull(source) => {
                    let ghost chosen = self@;
                    let ghost ready = *self;
                    proof {
                        self.lemma_valid();
                        assert(chosen.fusion == before.fusion);
                        assert(chosen.schedule == before.schedule.push(source));
                        assert(before.schedule =~= chosen.schedule.take(
                            before.schedule.len() as int,
                        ));
                        assert(continues_session(before, chosen)) by {
                            lemma_session_continues_itself(before);
                        }
                    }
                    let start_rank: usize = match self.progress.source_history(source) {
                        Some(history) => history.len(),
                        None => 0,
                    };
                    let pulled_answer = self.pull(source, stopped);
                    proof {
                        lemma_producers_descend_twice(old(self).bank, held.bank, self.bank);
                        assert(ready.rests() =~= held.rests());
                        assert(held.state().asks(
                            minimum_pulls@,
                            *stopped,
                            *accumulate,
                            *priority,
                            source,
                            pulled_answer,
                            self.state(),
                        ));
                    }
                    let next = match pulled_answer {
                        Ok(next) => next,
                        Err(error) => {
                            proof {
                                reveal(ChannelState::stops);
                                assert(held.state().stops(
                                    minimum_pulls@,
                                    *stopped,
                                    *accumulate,
                                    *priority,
                                    Err(error),
                                    self.state(),
                                ));
                                lemma_continues_transitive(old(self)@, before, self@);
                                assert forall|
                                    rankings: Seq<Seq<ExtendedPointId>>,
                                    failures: Seq<Option<OperationError>>,
                                | #[trigger]
                                    old(self).leads(rankings, failures) implies failures.contains(
                                    Some(error),
                                ) || error is Cancelled && stopped.ensures((), true) by {
                                    assert(held.leads(rankings, failures));
                                    Self::lemma_same_leads(&held, &ready, rankings, failures);
                                    assert(ready.channel_leads(
                                        source as int,
                                        rankings[source as int],
                                        failures[source as int],
                                    ));
                                    if failures[source as int] == Some(error) {
                                        assert(failures.contains(failures[source as int]));
                                    }
                                }
                                if never_stops(*stopped) {
                                    assert forall|rankings: Seq<Seq<ExtendedPointId>>| #[trigger]
                                        old(self).follows(rankings) implies false by {
                                        let failures = no_failures(rankings.len());
                                        assert(failures.contains(Some(error)));
                                    }
                                }
                            }
                            return Err(error);
                        },
                    };
                    let mut point_ids: Vec<ExtendedPointId> = Vec::new();
                    let mut exhausted = false;
                    match next {
                        Some(id) => {
                            point_ids.push(id);
                        },
                        None => {
                            exhausted = true;
                        },
                    }
                    let batch = ChannelRankBatch { start_rank, point_ids, exhausted };
                    let ghost pulled = *self;
                    let result = self.progress.supply(source, &batch);
                    proof {
                        self.lemma_valid();
                        assert forall|
                            rankings: Seq<Seq<ExtendedPointId>>,
                            failures: Seq<Option<OperationError>>,
                        | #[trigger]
                            old(self).leads(rankings, failures) implies result is Ok && self.leads(
                            rankings,
                            failures,
                        ) by {
                            assert(held.leads(rankings, failures));
                            Self::lemma_same_leads(&held, &ready, rankings, failures);
                            assert(ready.channel_leads(
                                source as int,
                                rankings[source as int],
                                failures[source as int],
                            ));
                            Self::lemma_pulled_leads(
                                &ready,
                                &pulled,
                                self,
                                rankings,
                                failures,
                                source,
                                batch,
                            );
                        }
                        if result is Ok {
                            let lengths = lengths_of(ready@);
                            assert(lengths =~= lengths_of(before));
                            assert(ready.is_paced(lengths) == held.is_paced(lengths));
                            assert(self.is_paced(lengths_of(self@)) == pulled.is_paced(
                                lengths_of(self@),
                            ));
                            if next is Some {
                                assert(lengths_of(self@) =~= lengths.update(
                                    source as int,
                                    lengths[source as int] + 1,
                                ));
                            } else {
                                assert(lengths_of(self@) =~= lengths);
                            }
                            lemma_supplied_continues(
                                chosen,
                                source,
                                batch.point_ids@,
                                batch.exhausted,
                            );
                            lemma_continues_transitive(before, chosen, self@);
                        }
                        lemma_continues_transitive(old(self)@, before, self@);
                    }
                    proof {
                        assert(batch.point_ids@ =~= answered_ids(next));
                        assert(batch.exhausted == (next is None));
                        assert(self.rests() =~= pulled.rests());
                    }
                    match result {
                        Ok(_) => {
                            proof {
                                start.lemma_one_more_pull(
                                    minimum_pulls@,
                                    *stopped,
                                    *accumulate,
                                    *priority,
                                    pulled_count,
                                    held.state(),
                                    source,
                                    pulled.state(),
                                    next,
                                    self.state(),
                                );
                                pulled_count = pulled_count + 1;
                            }
                        },
                        Err(error) => {
                            proof {
                                reveal(ChannelState::stops);
                                assert(held.state().stops(
                                    minimum_pulls@,
                                    *stopped,
                                    *accumulate,
                                    *priority,
                                    Err(error),
                                    self.state(),
                                ));
                            }
                            return Err(error);
                        },
                    }
                },
            }
        }
    }

    /// Sessions with the same streams and histories follow the same rankings.
    proof fn lemma_same_leads(
        left: &NChannelSession<S>,
        right: &NChannelSession<S>,
        rankings: Seq<Seq<ExtendedPointId>>,
        failures: Seq<Option<OperationError>>,
    )
        requires
            left.leads(rankings, failures),
            left.bank == right.bank,
            left.replaced == right.replaced,
            left@.fusion.histories == right@.fusion.histories,
            left@.fusion.exhausted == right@.fusion.exhausted,
        ensures
            right.leads(rankings, failures),
    {
        assert forall|source: int| 0 <= source < rankings.len() implies right.channel_leads(
            source,
            #[trigger] rankings[source],
            failures[source],
        ) by {
            assert(left.channel_leads(source, rankings[source], failures[source]));
        }
    }

    /// A pull that was supplied continues the rankings.
    proof fn lemma_pulled_leads(
        ready: &NChannelSession<S>,
        pulled: &NChannelSession<S>,
        after: &NChannelSession<S>,
        rankings: Seq<Seq<ExtendedPointId>>,
        failures: Seq<Option<OperationError>>,
        source: usize,
        batch: ChannelRankBatch,
    )
        requires
            ready.leads(rankings, failures),
            ready@.valid(),
            ready@.batch_size == 1,
            source < ready@.fusion.weights.len(),
            !ready@.fusion.exhausted[source as int],
            pulled@ == ready@,
            after.bank == pulled.bank,
            after.replaced == pulled.replaced,
            ready@.supply_fault(
                source,
                batch.start_rank,
                batch.point_ids@,
                batch.exhausted,
            ) is None ==> after@ == ready@.supplied(
                source,
                batch.point_ids@,
                batch.exhausted,
            ),
            batch.start_rank == ready@.fusion.histories[source as int].len(),
            forall|other: int, ranking: Seq<ExtendedPointId>, failure: Option<OperationError>|
                0 <= other < ready@.fusion.weights.len() && other != source
                    && #[trigger] ready.channel_leads(
                    other,
                    ranking,
                    failure,
                ) ==> pulled.channel_leads(other, ranking, failure),
            ({
                let rank = ready@.fusion.histories[source as int].len();
                let ranking = rankings[source as int];
                if rank < ranking.len() {
                    &&& batch.point_ids@ == seq![ranking[rank as int]]
                    &&& !batch.exhausted
                    &&& pulled.will_lead(source as int, ranking, failures[source as int], rank as int + 1)
                } else {
                    &&& batch.point_ids@ == Seq::<ExtendedPointId>::empty()
                    &&& batch.exhausted
                    &&& pulled.will_lead(source as int, ranking, failures[source as int], rank as int)
                }
            }),
        ensures
            ready@.supply_fault(
                source,
                batch.start_rank,
                batch.point_ids@,
                batch.exhausted,
            ) is None,
            after.leads(rankings, failures),
    {
        let history = ready@.fusion.histories[source as int];
        let ranking = rankings[source as int];
        let rank = history.len() as int;
        let ids = batch.point_ids@;
        assert(history == ranking.take(rank));
        if rank < ranking.len() {
            assert(ids =~= ranking.subrange(rank, rank + 1));
        } else {
            assert(ids =~= ranking.subrange(rank, rank));
            assert(history + ids =~= ranking);
        }
        lemma_supply_follows(ready@, rankings, source, batch);
        assert forall|other: int| 0 <= other < rankings.len() implies after.channel_leads(
            other,
            #[trigger] rankings[other],
            failures[other],
        ) by {
            assert(ready.channel_leads(other, rankings[other], failures[other]));
            if other != source as int {
                assert(pulled.channel_leads(other, rankings[other], failures[other]));
                assert(after@.fusion.histories[other] == ready@.fusion.histories[other]);
            } else {
                assert(after@.fusion.histories[other] == history + ids);
            }
        }
    }

    /// Advances until the Top-K is fixed.
    pub fn run_to_completion<
        T: Fn() -> bool,
        F: Fn(i64, usize, usize, i64) -> i64,
        P: Fn(usize, usize, i64, usize, i64) -> i64,
    >(&mut self, stopped: &T, accumulate: &F, priority: &P) -> (result: OperationResult<
        DynamicRrfExecution,
    >)
        requires
            old(self).wf(),
            old(self)@.batch_size == 1,
            can_stop(*stopped),
            accepts(*accumulate),
            accepts_priority(*priority),
        ensures
            final(self).wf(),
            continues_session(old(self)@, final(self)@),
            old(self).keeps_step(&*final(self), result is Ok),
            producers_descend(old(self).bank(), final(self).bank()),
            result matches Ok(execution) ==> {
                &&& final(self)@.reported(execution)
                &&& exists|rows: Seq<PointBounds>, unseen: i64|
                    #[trigger] is_outcome(
                        final(self)@,
                        *accumulate,
                        rows,
                        unseen,
                        Some(execution.point_ids@),
                    )
            },
            forall|rankings: Seq<Seq<ExtendedPointId>>, failures: Seq<Option<OperationError>>|
                #[trigger] old(self).leads(rankings, failures) ==> match result {
                    Ok(execution) => final(self).leads(rankings, failures) && is_exhaustive_prefix(
                        *accumulate,
                        rankings,
                        old(self)@.fusion.rrf_k,
                        old(self)@.fusion.weights,
                        old(self)@.fusion.top_k,
                        execution.point_ids@,
                    ),
                    Err(error) => failures.contains(Some(error)) || error is Cancelled
                        && stopped.ensures((), true),
                },
            never_stops(*stopped) ==> forall|rankings: Seq<Seq<ExtendedPointId>>| #[trigger]
                old(self).follows(rankings) ==> {
                    &&& final(self).follows(rankings)
                    &&& result matches Ok(execution)
                    &&& is_exhaustive_prefix(
                        *accumulate,
                        rankings,
                        old(self)@.fusion.rrf_k,
                        old(self)@.fusion.weights,
                        old(self)@.fusion.top_k,
                        execution.point_ids@,
                    )
                },
            old(self).state().runs(
                no_targets(old(self)@.fusion.weights.len()),
                *stopped,
                *accumulate,
                *priority,
                completed(result),
                final(self).state(),
            ),
    {
        let targets: Vec<Option<usize>> = repeated(None, self.progress.source_count());
        proof {
            self.lemma_valid();
            assert(targets@ =~= no_targets(self@.fusion.weights.len()));
        }
        match self.advance_until_each(&targets, stopped, accumulate, priority) {
            Ok(DynamicRrfAdvance::Fixed(execution)) => {
                proof {
                    self.lemma_valid();
                    let (rows, unseen) = choose|rows: Seq<PointBounds>, unseen: i64|
                        #[trigger] is_outcome(
                            self@,
                            *accumulate,
                            rows,
                            unseen,
                            Some(execution.point_ids@),
                        );
                    assert forall|
                        rankings: Seq<Seq<ExtendedPointId>>,
                        failures: Seq<Option<OperationError>>,
                    | #[trigger]
                        old(self).leads(rankings, failures) implies is_exhaustive_prefix(
                        *accumulate,
                        rankings,
                        old(self)@.fusion.rrf_k,
                        old(self)@.fusion.weights,
                        old(self)@.fusion.top_k,
                        execution.point_ids@,
                    ) by {
                        assert(self.leads(rankings, failures));
                        lemma_outcome_is_exhaustive(
                            *accumulate,
                            self@,
                            rows,
                            unseen,
                            execution.point_ids@,
                            rankings,
                        );
                    }
                }
                Ok(execution)
            },
            Ok(DynamicRrfAdvance::Paused) => {
                proof {
                    let source = choose|source: int|
                        0 <= source < targets@.len() && (#[trigger] targets@[source]) is Some;
                    assert(targets@[source] is None);
                }
                vstd::pervasive::unreached()
            },
            Err(error) => Err(error),
        }
    }

    /// Replaces the stream of a channel by a ranking in memory, whose beginning must be
    /// what the channel has yielded.
    #[verifier::loop_isolation(false)]
    pub fn replace_source<T: Fn() -> bool>(
        &mut self,
        source: usize,
        ids: Vec<ExtendedPointId>,
        stopped: &T,
    ) -> (result: OperationResult<()>)
        requires
            old(self).wf(),
            can_stop(*stopped),
        ensures
            final(self).wf(),
            final(self)@ == old(self)@,
            final(self).bank() == old(self).bank(),
            old(self).in_step() ==> final(self).in_step(),
            forall|other: int, ranking: Seq<ExtendedPointId>, failure: Option<OperationError>|
                0 <= other < old(self)@.fusion.weights.len() && other != source
                    && #[trigger] old(self).channel_leads(
                    other,
                    ranking,
                    failure,
                ) ==> final(self).channel_leads(other, ranking, failure),
            result is Err ==> *final(self) == *old(self),
            source >= old(self)@.fusion.weights.len() ==> result == refused::<()>(
                Fault::ReplacementOutOfRange { source },
            ),
            source < old(self)@.fusion.weights.len() && old(self)@.fusion.exhausted[source as int]
                ==> result == refused::<()>(Fault::ReplacementExhausted { source }),
            source < old(self)@.fusion.weights.len() && !old(self)@.fusion.exhausted[source as int]
                ==> ends_stopped(*stopped, result) || match replay_fault(
                old(self)@.fusion.histories[source as int],
                ids@,
                source,
                0,
            ) {
                Some(fault) => result == refused::<()>(fault),
                None => {
                    &&& result == Ok::<(), OperationError>(())
                    &&& final(self).completes(source as int, ids@)
                    &&& final(self).state() == old(self).state().replaced_by(source as int, ids@)
                },
            },
    {
        let history = match self.progress.source_history(source) {
            Some(history) => history,
            None => {
                return refuse(Fault::ReplacementOutOfRange { source });
            },
        };
        match self.progress.source_is_exhausted(source) {
            Some(ended) => {
                if ended {
                    return refuse(Fault::ReplacementExhausted { source });
                }
            },
            None => {},
        }
        let ghost given = ids@;
        let mut stream = infallible_exact_rrf_stream(ids);
        let mut rank: usize = 0;
        assert(given.skip(0) =~= given);
        while rank < history.len()
            invariant
                can_stop(*stopped),
                rank <= history@.len(),
                rank <= given.len(),
                ExactRrfStream::rest(&stream) == Some(given.skip(rank as int)),
                forall|i: int| 0 <= i < rank ==> given[i] == history@[i],
                replay_fault(history@, given, source, 0) == replay_fault(
                    history@,
                    given,
                    source,
                    rank as int,
                ),
            decreases history@.len() - rank,
        {
            if stopped() {
                return Err(OperationError::Cancelled);
            }
            let expected = history[rank];
            match ExactRrfStream::next(&mut stream) {
                Ok(Some(actual)) => {
                    if actual != expected {
                        return refuse(
                            Fault::ReplacementDisagrees {
                                source,
                                rank,
                                observed: expected,
                                replacement: actual,
                            },
                        );
                    }
                    assert(given.skip(rank as int).drop_first() =~= given.skip(rank + 1));
                },
                Ok(None) => {
                    return refuse(Fault::ReplacementEnded { source, rank });
                },
                Err(error) => {
                    assert(false);
                    return Err(error);
                },
            }
            rank += 1;
        }
        proof {
            self.progress.lemma_valid();
        }
        self.replaced.set(source, Some(stream));
        proof {
            assert(self.rests() =~= old(self).rests().update(
                source as int,
                Some(given.skip(rank as int)),
            ));
        }
        Ok(())
    }

    /// Whether one of the given channels has not ended.
    pub fn has_unfinished(&self, places: &Vec<usize>) -> (unfinished: bool)
        requires
            self.wf(),
            forall|i: int|
                0 <= i < places@.len() ==> #[trigger] places@[i] < self@.fusion.weights.len(),
        ensures
            unfinished == (exists|i: int|
                0 <= i < places@.len() && !self@.fusion.exhausted[
                #[trigger] places@[i] as int]),
    {
        let mut i: usize = 0;
        while i < places.len()
            invariant
                self.wf(),
                i <= places@.len(),
                forall|k: int|
                    0 <= k < places@.len() ==> #[trigger] places@[k]
                        < self@.fusion.weights.len(),
                forall|k: int|
                    0 <= k < i ==> self@.fusion.exhausted[#[trigger] places@[k] as int],
            decreases places@.len() - i,
        {
            match self.progress.source_is_exhausted(places[i]) {
                Some(ended) => {
                    if !ended {
                        assert(!self@.fusion.exhausted[places@[i as int] as int]);
                        return true;
                    }
                },
                None => {},
            }
            i += 1;
        }
        false
    }

    /// One replacement more.
    proof fn lemma_one_more_replaced(
        &self,
        middle: &Self,
        later: &Self,
        places: Seq<usize>,
        lists: Seq<Vec<u32>>,
        done: int,
    )
        requires
            self.replaces(middle, places, lists, done),
            middle@ == self@,
            done < places.len(),
            done < lists.len(),
            places[done] < self@.fusion.weights.len(),
            replacement_fault(self@, places, lists, done) is None,
            if self@.fusion.exhausted[places[done] as int] {
                later == middle
            } else {
                &&& later.completes(places[done] as int, offset_ids(lists[done]@))
                &&& forall|
                    other: int,
                    ranking: Seq<ExtendedPointId>,
                    failure: Option<OperationError>,
                |
                    0 <= other < self@.fusion.weights.len() && other != places[done]
                        && #[trigger] middle.channel_leads(
                        other,
                        ranking,
                        failure,
                    ) ==> later.channel_leads(other, ranking, failure)
            },
            forall|i: int|
                0 <= i < places.len() ==> #[trigger] places[i] < self@.fusion.weights.len(),
        ensures
            self.replaces(later, places, lists, done + 1),
    {
        assert forall|i: int|
            #![trigger lists[i]]
            0 <= i < done + 1 && !self@.fusion.exhausted[places[i] as int] && !places.subrange(
                i + 1,
                done + 1,
            ).contains(places[i]) implies later.completes(
            places[i] as int,
            offset_ids(lists[i]@),
        ) by {
            if i < done {
                let longer = places.subrange(i + 1, done + 1);
                let shorter = places.subrange(i + 1, done);
                assert(longer[done - i - 1] == places[done]);
                if shorter.contains(places[i]) {
                    let at = choose|at: int| 0 <= at < shorter.len() && shorter[at] == places[i];
                    assert(longer[at] == places[i]);
                }
                assert(middle.completes(places[i] as int, offset_ids(lists[i]@)));
            }
        }
        assert forall|
            other: usize,
            ranking: Seq<ExtendedPointId>,
            failure: Option<OperationError>,
        |
            other < self@.fusion.weights.len() && (self@.fusion.exhausted[other as int]
                || !places.take(done + 1).contains(other)) && #[trigger] self.channel_leads(
                other as int,
                ranking,
                failure,
            ) implies later.channel_leads(other as int, ranking, failure) by {
            let longer = places.take(done + 1);
            let shorter = places.take(done);
            assert(longer[done] == places[done]);
            if shorter.contains(other) {
                let at = choose|at: int| 0 <= at < shorter.len() && shorter[at] == other;
                assert(longer[at] == other);
            }
            assert(middle.channel_leads(other as int, ranking, failure));
        }
    }

    /// Replaces the streams of the given channels that have not ended by rankings of
    /// offsets. Returns how many identities were replayed.
    pub fn replace_all<T: Fn() -> bool>(
        &mut self,
        places: &Vec<usize>,
        lists: &Vec<Vec<u32>>,
        stopped: &T,
    ) -> (result: OperationResult<usize>)
        requires
            old(self).wf(),
            can_stop(*stopped),
            forall|i: int|
                0 <= i < places@.len() ==> #[trigger] places@[i] < old(self)@.fusion.weights.len(),
        ensures
            final(self).wf(),
            final(self)@ == old(self)@,
            final(self).bank() == old(self).bank(),
            old(self).in_step() ==> final(self).in_step(),
            exists|done: int|
                {
                    &&& #[trigger] old(self).replaces(&*final(self), places@, lists@, done)
                    &&& final(self).state() == replaced_after(
                        old(self).state(),
                        places@,
                        lists@,
                        done,
                    )
                    &&& match result {
                        Ok(replayed) => {
                            &&& done == places@.len() || done == lists@.len()
                            &&& replayed == counted(replayed_count(old(self)@, places@, done))
                        },
                        Err(error) => {
                            &&& done < places@.len()
                            &&& done < lists@.len()
                            &&& !old(self)@.fusion.exhausted[places@[done] as int]
                            &&& ends_stopped(*stopped, result) || (replacement_fault(
                                old(self)@,
                                places@,
                                lists@,
                                done,
                            ) matches Some(fault) && result == refused::<usize>(fault))
                        },
                    }
                },
            forall|rankings: Seq<Seq<ExtendedPointId>>, failures: Seq<Option<OperationError>>|
                #[trigger] old(self).leads(rankings, failures) && are_rankings_at(
                    lists@,
                    places@,
                    rankings,
                ) ==> match result {
                    Ok(_) => exists|left: Seq<Option<OperationError>>| #[trigger]
                        final(self).leads(rankings, left) && are_some_of(left, failures),
                    Err(_) => ends_stopped(*stopped, result),
                },
    {
        let ghost first = *self;
        let mut replayed: usize = 0;
        let mut i: usize = 0;
        proof {
            assert forall|
                rankings: Seq<Seq<ExtendedPointId>>,
                failures: Seq<Option<OperationError>>,
            | #[trigger]
                first.leads(rankings, failures) implies exists|left: Seq<Option<OperationError>>|
                #[trigger] self.leads(rankings, left) && are_some_of(left, failures) by {
                assert(self.leads(rankings, failures) && are_some_of(failures, failures));
            }
            first.lemma_valid();
        }
        while i < places.len() && i < lists.len()
            invariant
                self.wf(),
                self@ == first@,
                self.bank() == first.bank(),
                first.in_step() ==> self.in_step(),
                first == *old(self),
                can_stop(*stopped),
                i <= places@.len(),
                i <= lists@.len(),
                first.replaces(&*self, places@, lists@, i as int),
                self.state() == replaced_after(first.state(), places@, lists@, i as int),
                replayed == counted(replayed_count(first@, places@, i as int)),
                forall|k: int|
                    0 <= k < places@.len() ==> #[trigger] places@[k]
                        < self@.fusion.weights.len(),
                forall|rankings: Seq<Seq<ExtendedPointId>>, failures: Seq<Option<OperationError>>|
                    #[trigger] first.leads(rankings, failures) && are_rankings_at(
                        lists@,
                        places@,
                        rankings,
                    ) ==> exists|left: Seq<Option<OperationError>>| #[trigger]
                        self.leads(rankings, left) && are_some_of(left, failures),
            decreases places@.len() - i,
        {
            let source: usize = places[i];
            let ended = match self.progress.source_is_exhausted(source) {
                Some(ended) => ended,
                None => true,
            };
            let ghost so_far = *self;
            if !ended {
                let pulls: usize = match self.progress.source_history(source) {
                    Some(history) => history.len(),
                    None => 0,
                };
                replayed = replayed.saturating_add(pulls);
                let ids = identities_of(&lists[i]);
                let ghost given = ids@;
                let ghost before = *self;
                let result = self.replace_source(source, ids, stopped);
                proof {
                    before.lemma_valid();
                    assert forall|
                        rankings: Seq<Seq<ExtendedPointId>>,
                        failures: Seq<Option<OperationError>>,
                    | #[trigger]
                        first.leads(rankings, failures) && are_rankings_at(
                            lists@,
                            places@,
                            rankings,
                        ) implies (if result is Ok {
                        exists|left: Seq<Option<OperationError>>| #[trigger]
                            self.leads(rankings, left) && are_some_of(left, failures)
                    } else {
                        ends_stopped(*stopped, result)
                    }) by {
                        let held = choose|held: Seq<Option<OperationError>>| #[trigger]
                            before.leads(rankings, held) && are_some_of(held, failures);
                        assert(before.leads(rankings, held));
                        assert(offset_ids(lists@[i as int]@) == rankings[source as int]);
                        let history = before@.fusion.histories[source as int];
                        lemma_prefix_replays(history, given, source, 0);
                        if result is Ok {
                            let left = held.update(source as int, None);
                            assert forall|other: int| 0 <= other < rankings.len() implies
                                self.channel_leads(
                                other,
                                #[trigger] rankings[other],
                                left[other],
                            ) by {
                                assert(before.channel_leads(other, rankings[other], held[other]));
                            }
                            assert(self.leads(rankings, left) && are_some_of(left, failures));
                        }
                    }
                }
                match result {
                    Ok(_) => {},
                    Err(error) => {
                        return Err(error);
                    },
                }
            }
            proof {
                first.lemma_one_more_replaced(&so_far, &*self, places@, lists@, i as int);
            }
            i += 1;
        }
        Ok(replayed)
    }

    /// The producer of the stream of a channel.
    pub fn source(&self, channel: usize) -> (source: Option<&S>)
        requires
            self.wf(),
            channel < self@.fusion.weights.len(),
        ensures
            match source {
                Some(producer) => self.bank().producer(
                    self.bank().groups()[channel as int] as int,
                ) == Some(*producer),
                None => self.bank().producer(
                    self.bank().groups()[channel as int] as int,
                ) is None,
            },
    {
        self.bank.source(channel)
    }

    /// Whether a channel is the first that reads its stream, and what that stream has done.
    pub fn channel_progress(&self, channel: usize) -> (progress: (bool, SharedRankStreamTelemetry))
        requires
            self.wf(),
            channel < self@.fusion.weights.len(),
        ensures
            progress.0 == (self.bank().reader(channel as int) == 0),
            progress.1 == replay_telemetry(
                self.bank().replay(self.bank().groups()[channel as int] as int),
            ),
    {
        self.bank.progress(channel)
    }

    /// What sharing has saved, given the pulls of the channels.
    pub fn sharing_telemetry(&self, source_pulls: &Vec<usize>) -> (telemetry:
        RankStreamSharingTelemetry)
        requires
            self.wf(),
            source_pulls@.len() == self@.fusion.weights.len(),
        ensures
            tallies(self.bank(), source_pulls@, telemetry),
            self.bank().physical() <= usize::MAX,
    {
        let observer = self.bank.observer();
        proof {
            let groups = self.bank.groups();
            assert forall|group: int, i: int|
                0 <= group < observer.members().len() && 0 <= i < observer.members()[group].len()
                implies #[trigger] observer.members()[group][i] < source_pulls@.len() by {
                self.bank.lemma_groups_len();
                crate::n_channel_rank_sharing::lemma_members_are_sources(
                    groups,
                    group,
                    groups.len() as int,
                );
            }
        }
        assert(source_pulls.len() <= usize::MAX);
        proof {
            assert(observer.pulls() =~= Seq::new(
                self.bank.physical(),
                |group: int| self.bank.replay(group).produced.len() as usize,
            ));
            assert(observer.peaks() =~= Seq::new(
                self.bank.physical(),
                |group: int|
                    replay_telemetry(self.bank.replay(group)).peak_buffered_identities,
            ));
        }
        observer.telemetry(source_pulls)
    }
}

/// What a bank saves, given the pulls of its channels.
pub open spec fn tallies<S: ExactRrfStream>(
    bank: RankBank<S>,
    source_pulls: Seq<usize>,
    telemetry: RankStreamSharingTelemetry,
) -> bool {
    let pulls = Seq::new(bank.physical(), |group: int| bank.replay(group).produced.len() as usize);
    let peaks = Seq::new(
        bank.physical(),
        |group: int| replay_telemetry(bank.replay(group)).peak_buffered_identities,
    );
    let (shared, physical, buffered) = tally(
        group_members(bank.groups(), bank.physical()),
        pulls,
        peaks,
        source_pulls,
        bank.physical() as int,
    );
    telemetry == (RankStreamSharingTelemetry {
        logical_streams: source_pulls.len() as usize,
        physical_streams: bank.physical() as usize,
        shared_groups: shared,
        logical_pulls: sum_of(source_pulls, source_pulls.len() as int),
        physical_pulls: physical,
        buffered_identities: buffered,
    })
}

/// Whether rankings can be those of channels: no identity twice in one.
pub open spec fn are_counted(rankings: Seq<Seq<ExtendedPointId>>) -> bool {
    forall|source: int|
        0 <= source < rankings.len() ==> (#[trigger] rankings[source]).no_duplicates()
            && rankings[source].len() <= usize::MAX
}

/// Why a search over channels does not succeed.
#[derive(Clone, Debug, PartialEq, Eq)]
pub enum NChannelExactError {
    IdentityUniverseMismatch,
    EmptyChannels,
    Cancelled,
    Sparse(String),
    SparsePosting(String),
    Dense(DenseQuantizedError),
    Fusion(OperationError),
}

/// How the streams of sparse channels are obtained.
#[derive(Clone, Copy, Debug, PartialEq, Eq, Structural)]
pub enum SparseStreamStrategy {
    DocumentBlock,
    PostingBlock { batch_size: usize },
    AdaptiveNative {
        initial_limit: usize,
        growth_factor: usize,
        batch_size: usize,
        endpoint_trend_router: bool,
    },
    SharedFull,
    AutoShared { batch_size: usize, max_unique_to_logical_milli: u16 },
    ProbeThenShared { batch_size: usize, probe_depth: usize },
    SharedLazy { batch_size: usize },
    AutoSharedLazy { batch_size: usize },
}

/// The strategy of searches that give none.
pub open spec fn default_sparse_strategy() -> SparseStreamStrategy {
    SparseStreamStrategy::AdaptiveNative {
        initial_limit: 4096,
        growth_factor: 2,
        batch_size: 4096,
        endpoint_trend_router: false,
    }
}

impl Default for SparseStreamStrategy {
    fn default() -> (strategy: SparseStreamStrategy)
        ensures
            strategy == default_sparse_strategy(),
    {
        SparseStreamStrategy::AdaptiveNative {
            initial_limit: 4096,
            growth_factor: 2,
            batch_size: 4096,
            endpoint_trend_router: false,
        }
    }
}

/// How the streams of dense channels are obtained.
#[derive(Clone, Copy, Debug, PartialEq, Eq, Structural)]
pub enum DenseStreamStrategy {
    Independent,
    SharedDocumentMajor,
    ReplayIdentical,
}

/// The kind of stream that a channel was searched with, and what a stream of the library
/// has done.
#[derive(Clone, Copy, Debug, Eq, PartialEq)]
pub enum ExactChannelTelemetry {
    Dense(DenseQuantizedTelemetry),
    Sparse,
    SparsePosting,
    SparseAdaptive,
    SparseShared(SharedSparseChannelTelemetry),
    SparseSharedPosting,
}

/// What is said of a sparse channel under a strategy, once it is resolved, where its own
/// stream has yielded a number of identities.
pub open spec fn sparse_report(
    strategy: SparseStreamStrategy,
    yielded: usize,
) -> ExactChannelTelemetry {
    match strategy {
        SparseStreamStrategy::DocumentBlock => ExactChannelTelemetry::Sparse,
        SparseStreamStrategy::PostingBlock { .. } => ExactChannelTelemetry::SparsePosting,
        SparseStreamStrategy::ProbeThenShared { .. } => ExactChannelTelemetry::SparsePosting,
        SparseStreamStrategy::SharedLazy { .. } => ExactChannelTelemetry::SparseSharedPosting,
        SparseStreamStrategy::AutoSharedLazy { .. } => ExactChannelTelemetry::SparseSharedPosting,
        SparseStreamStrategy::AdaptiveNative { .. } => ExactChannelTelemetry::SparseAdaptive,
        SparseStreamStrategy::SharedFull => ExactChannelTelemetry::SparseShared(
            SharedSparseChannelTelemetry { points_emitted: yielded },
        ),
        SparseStreamStrategy::AutoShared { .. } => ExactChannelTelemetry::SparseShared(
            SharedSparseChannelTelemetry { points_emitted: yielded },
        ),
    }
}

/// Whether a stream that is shared was asked for anything.
pub open spec fn is_asked(replay: ReplayView) -> bool {
    replay_telemetry(replay).physical_pulls > 0 || replay.exhausted
}

/// What a dense stream over a number of documents has done.
pub open spec fn dense_report<'a, K: ChannelKeys>(
    documents: usize,
    stream: CertifiedStream<'a, KeyTable, ChannelScores<'a, K>>,
) -> DenseQuantizedTelemetry {
    DenseQuantizedTelemetry {
        quantized_scores: documents,
        exact_scores: stream.scored().len() as usize,
        points_emitted: stream.emitted(),
    }
}

/// What is said of a dense stream that was not asked.
pub open spec fn idle_report() -> DenseQuantizedTelemetry {
    DenseQuantizedTelemetry { quantized_scores: 0, exact_scores: 0, points_emitted: 0 }
}

/// What is said of a channel that is the first of its group or not, where the group has
/// done what `replay` says and `producer` is its stream.
pub open spec fn channel_report<'a, S, K: ChannelKeys>(
    query: ExactChannelQuery,
    strategy: SparseStreamStrategy,
    documents: usize,
    first: bool,
    replay: ReplayView,
    producer: Option<ChannelSource<'a, S, K>>,
) -> ExactChannelTelemetry {
    match query {
        ExactChannelQuery::Dense(_) => ExactChannelTelemetry::Dense(
            match producer {
                Some(ChannelSource::Dense(stream)) => if first && is_asked(replay) {
                    dense_report(documents, stream)
                } else {
                    idle_report()
                },
                _ => idle_report(),
            },
        ),
        ExactChannelQuery::Sparse(_) => sparse_report(
            strategy,
            if first {
                replay_telemetry(replay).physical_pulls
            } else {
                0
            },
        ),
    }
}

/// Whether a dense channel is reported: by what its stream has done since it stood before
/// the first document, and by zeros where it was not asked or another channel stands for it.
pub open spec fn reports_dense<
    'a,
    Q: Fn(&Vec<u32>) -> QuantizedVector,
    C: Fn(i64, &QuantizedVectorMetadata, &QuantizedVectorMetadata, usize) -> i64,
    K: ChannelKeys,
>(
    index: DenseQuantizedIndex,
    dense: DenseChannels<Q, C, K>,
    query: Seq<u32>,
    channel: usize,
    asked: bool,
    report: ExactChannelTelemetry,
) -> bool {
    if asked {
        exists|
            start: CertifiedStream<'a, KeyTable, ChannelScores<'a, K>>,
            stream: CertifiedStream<'a, KeyTable, ChannelScores<'a, K>>,
            pulls: nat,
        |
            {
                &&& streams_channel(index, dense, query, channel, start)
                &&& #[trigger] reaches(start, stream, pulls)
                &&& report == ExactChannelTelemetry::Dense(
                    dense_report(index.documents().len() as usize, stream),
                )
            }
    } else {
        report == ExactChannelTelemetry::Dense(idle_report())
    }
}

/// Whether a channel is reported, where it is the first of its group or not and the group
/// has done what `replay` says.
pub open spec fn reports_channel<
    'a,
    Q: Fn(&Vec<u32>) -> QuantizedVector,
    C: Fn(i64, &QuantizedVectorMetadata, &QuantizedVectorMetadata, usize) -> i64,
    K: ChannelKeys,
>(
    index: DenseQuantizedIndex,
    dense: DenseChannels<Q, C, K>,
    query: ExactChannelQuery,
    channel: usize,
    strategy: SparseStreamStrategy,
    first: bool,
    replay: ReplayView,
    report: ExactChannelTelemetry,
) -> bool {
    match query {
        ExactChannelQuery::Dense(vector) => reports_dense(
            index,
            dense,
            vector@,
            channel,
            first && is_asked(replay),
            report,
        ),
        ExactChannelQuery::Sparse(_) => report == sparse_report(
            strategy,
            if first {
                replay_telemetry(replay).physical_pulls
            } else {
                0
            },
        ),
    }
}

/// What is said of a channel of a session.
fn report_channel<'a, S: ExactRrfStream, K: ChannelKeys>(
    session: &NChannelSession<ChannelSource<'a, S, K>>,
    query: &ExactChannelQuery,
    channel: usize,
    strategy: SparseStreamStrategy,
    documents: usize,
) -> (report: ExactChannelTelemetry)
    requires
        session.wf(),
        channel < session@.fusion.weights.len(),
    ensures
        report == channel_report(
            *query,
            strategy,
            documents,
            session.bank().reader(channel as int) == 0,
            session.bank().replay(session.bank().groups()[channel as int] as int),
            session.bank().producer(session.bank().groups()[channel as int] as int),
        ),
{
    let progress = session.channel_progress(channel);
    match query {
        ExactChannelQuery::Dense(_) => {
            let asked = progress.0 && (progress.1.physical_pulls > 0 || progress.1.exhausted);
            match session.source(channel) {
                Some(ChannelSource::Dense(stream)) if asked => {
                    ExactChannelTelemetry::Dense(
                        DenseQuantizedTelemetry {
                            quantized_scores: documents,
                            exact_scores: stream.work().points_scored,
                            points_emitted: stream.points_emitted(),
                        },
                    )
                },
                _ => ExactChannelTelemetry::Dense(DenseQuantizedTelemetry::default()),
            }
        },
        ExactChannelQuery::Sparse(_) => {
            let yielded: usize = if progress.0 {
                progress.1.physical_pulls
            } else {
                0
            };
            let emitted = SharedSparseChannelTelemetry { points_emitted: yielded };
            match strategy {
                SparseStreamStrategy::DocumentBlock => ExactChannelTelemetry::Sparse,
                SparseStreamStrategy::PostingBlock { .. } => ExactChannelTelemetry::SparsePosting,
                SparseStreamStrategy::ProbeThenShared { .. } => {
                    ExactChannelTelemetry::SparsePosting
                },
                SparseStreamStrategy::SharedLazy { .. } => {
                    ExactChannelTelemetry::SparseSharedPosting
                },
                SparseStreamStrategy::AutoSharedLazy { .. } => {
                    ExactChannelTelemetry::SparseSharedPosting
                },
                SparseStreamStrategy::AdaptiveNative { .. } => {
                    ExactChannelTelemetry::SparseAdaptive
                },
                SparseStreamStrategy::SharedFull => ExactChannelTelemetry::SparseShared(emitted),
                SparseStreamStrategy::AutoShared { .. } => {
                    ExactChannelTelemetry::SparseShared(emitted)
                },
            }
        },
    }
}

/// What is said of the channels of a session.
fn report_channels<'a, S: ExactRrfStream, K: ChannelKeys>(
    session: &NChannelSession<ChannelSource<'a, S, K>>,
    queries: &Vec<ExactChannelQuery>,
    strategy: SparseStreamStrategy,
    documents: usize,
) -> (reports: Vec<ExactChannelTelemetry>)
    requires
        session.wf(),
        queries@.len() == session@.fusion.weights.len(),
    ensures
        reports@.len() == queries@.len(),
        forall|channel: int|
            0 <= channel < queries@.len() ==> #[trigger] reports@[channel] == channel_report(
                queries@[channel],
                strategy,
                documents,
                session.bank().reader(channel) == 0,
                session.bank().replay(session.bank().groups()[channel] as int),
                session.bank().producer(session.bank().groups()[channel] as int),
            ),
{
    let mut reports: Vec<ExactChannelTelemetry> = Vec::new();
    let mut channel: usize = 0;
    while channel < queries.len()
        invariant
            session.wf(),
            queries@.len() == session@.fusion.weights.len(),
            channel <= queries@.len(),
            reports@.len() == channel,
            forall|at: int|
                0 <= at < channel ==> #[trigger] reports@[at] == channel_report(
                    queries@[at],
                    strategy,
                    documents,
                    session.bank().reader(at) == 0,
                    session.bank().replay(session.bank().groups()[at] as int),
                    session.bank().producer(session.bank().groups()[at] as int),
                ),
        decreases queries@.len() - channel,
    {
        reports.push(report_channel(session, &queries[channel], channel, strategy, documents));
        channel += 1;
    }
    reports
}

/// What a channel over a shared evaluation has done.
#[derive(Clone, Copy, Debug, Default, PartialEq, Eq, Structural)]
pub struct SharedSparseChannelTelemetry {
    pub points_emitted: usize,
}

/// How many posting elements a set of sparse queries reads: once each, and for
/// every query.
#[derive(Clone, Copy, Debug, PartialEq, Eq, Structural)]
pub struct SparseCostEstimate {
    pub unique_posting_elements: usize,
    pub logical_posting_elements: usize,
}

/// What was decided for the sparse channels of a search.
#[derive(Clone, Copy, Debug, PartialEq, Eq, Structural)]
pub struct SparseDecision {
    pub strategy: SparseStreamStrategy,
    pub auto_requested: bool,
    pub auto_selected_shared: bool,
    pub probe_then_shared_requested: bool,
    pub estimate: SparseCostEstimate,
    pub estimated_deduplicated_posting_elements: usize,
}

/// Whether sharing is worth its while: the unique elements are at most the given
/// part, in thousandths, of all.
pub open spec fn saves_enough(estimate: SparseCostEstimate, milli: u16) -> bool {
    estimate.logical_posting_elements > 0 && product(estimate.unique_posting_elements, 1000)
        <= product(estimate.logical_posting_elements, milli as usize)
}

/// The decision for a strategy, given the estimates that it asks for.
pub open spec fn decision(
    strategy: SparseStreamStrategy,
    estimate: SparseCostEstimate,
    deduplicated: SparseCostEstimate,
) -> SparseDecision {
    match strategy {
        SparseStreamStrategy::AutoShared { batch_size, max_unique_to_logical_milli } => {
            let shared = saves_enough(estimate, max_unique_to_logical_milli);
            SparseDecision {
                strategy: if shared {
                    SparseStreamStrategy::SharedFull
                } else {
                    SparseStreamStrategy::PostingBlock { batch_size }
                },
                auto_requested: true,
                auto_selected_shared: shared,
                probe_then_shared_requested: false,
                estimate,
                estimated_deduplicated_posting_elements: 0,
            }
        },
        SparseStreamStrategy::AutoSharedLazy { batch_size } => {
            let shared = estimate.unique_posting_elements < deduplicated.logical_posting_elements;
            SparseDecision {
                strategy: if shared {
                    SparseStreamStrategy::SharedLazy { batch_size }
                } else {
                    SparseStreamStrategy::PostingBlock { batch_size }
                },
                auto_requested: true,
                auto_selected_shared: shared,
                probe_then_shared_requested: false,
                estimate,
                estimated_deduplicated_posting_elements: deduplicated.logical_posting_elements,
            }
        },
        SparseStreamStrategy::ProbeThenShared { .. } => SparseDecision {
            strategy,
            auto_requested: false,
            auto_selected_shared: false,
            probe_then_shared_requested: true,
            estimate,
            estimated_deduplicated_posting_elements: 0,
        },
        _ => SparseDecision {
            strategy,
            auto_requested: false,
            auto_selected_shared: strategy == SparseStreamStrategy::SharedFull,
            probe_then_shared_requested: false,
            estimate: SparseCostEstimate {
                unique_posting_elements: 0,
                logical_posting_elements: 0,
            },
            estimated_deduplicated_posting_elements: 0,
        },
    }
}

/// The decision for a strategy, given the estimates that it asks for.
pub fn decide_sparse(
    strategy: SparseStreamStrategy,
    estimate: SparseCostEstimate,
    deduplicated: SparseCostEstimate,
) -> (result: SparseDecision)
    ensures
        result == decision(strategy, estimate, deduplicated),
{
    match strategy {
        SparseStreamStrategy::AutoShared { batch_size, max_unique_to_logical_milli } => {
            let shared = estimate.logical_posting_elements > 0 && saturating_product(
                estimate.unique_posting_elements,
                1000,
            ) <= saturating_product(
                estimate.logical_posting_elements,
                max_unique_to_logical_milli as usize,
            );
            SparseDecision {
                strategy: if shared {
                    SparseStreamStrategy::SharedFull
                } else {
                    SparseStreamStrategy::PostingBlock { batch_size }
                },
                auto_requested: true,
                auto_selected_shared: shared,
                probe_then_shared_requested: false,
                estimate,
                estimated_deduplicated_posting_elements: 0,
            }
        },
        SparseStreamStrategy::AutoSharedLazy { batch_size } => {
            let shared = estimate.unique_posting_elements < deduplicated.logical_posting_elements;
            SparseDecision {
                strategy: if shared {
                    SparseStreamStrategy::SharedLazy { batch_size }
                } else {
                    SparseStreamStrategy::PostingBlock { batch_size }
                },
                auto_requested: true,
                auto_selected_shared: shared,
                probe_then_shared_requested: false,
                estimate,
                estimated_deduplicated_posting_elements: deduplicated.logical_posting_elements,
            }
        },
        SparseStreamStrategy::ProbeThenShared { batch_size, probe_depth } => SparseDecision {
            strategy: SparseStreamStrategy::ProbeThenShared { batch_size, probe_depth },
            auto_requested: false,
            auto_selected_shared: false,
            probe_then_shared_requested: true,
            estimate,
            estimated_deduplicated_posting_elements: 0,
        },
        _ => SparseDecision {
            strategy,
            auto_requested: false,
            auto_selected_shared: strategy == SparseStreamStrategy::SharedFull,
            probe_then_shared_requested: false,
            estimate: SparseCostEstimate {
                unique_posting_elements: 0,
                logical_posting_elements: 0,
            },
            estimated_deduplicated_posting_elements: 0,
        },
    }
}

/// Whether a strategy is one that streams can be obtained by.
pub open spec fn is_resolved(strategy: SparseStreamStrategy) -> bool {
    !(strategy is AutoShared) && !(strategy is AutoSharedLazy)
}

/// A decision leaves nothing to be decided.
pub proof fn law_decision_is_resolved(
    strategy: SparseStreamStrategy,
    estimate: SparseCostEstimate,
    deduplicated: SparseCostEstimate,
)
    ensures
        is_resolved(decision(strategy, estimate, deduplicated).strategy),
{
}

/// Whether sparse channels with the same query share a stream under a strategy.
pub open spec fn replays_sparse(strategy: SparseStreamStrategy) -> bool {
    strategy is DocumentBlock || strategy is PostingBlock || strategy is AdaptiveNative
        || strategy is ProbeThenShared
}

/// Whether sparse channels with the same query share a stream under a strategy.
fn is_sparse_replayed(strategy: SparseStreamStrategy) -> (result: bool)
    ensures
        result == replays_sparse(strategy),
{
    match strategy {
        SparseStreamStrategy::DocumentBlock => true,
        SparseStreamStrategy::PostingBlock { .. } => true,
        SparseStreamStrategy::AdaptiveNative { .. } => true,
        SparseStreamStrategy::ProbeThenShared { .. } => true,
        _ => false,
    }
}

/// What a search has to do and did, as far as the channels decide it.
#[derive(Clone, Copy, Debug, Default, PartialEq, Eq, Structural)]
pub struct NChannelPhysicalTelemetry {
    pub logical_rank_streams: usize,
    pub physical_rank_streams: usize,
    pub shared_rank_stream_groups: usize,
    pub logical_rank_pulls: usize,
    pub physical_rank_pulls: usize,
    pub rank_replay_buffered_identities: usize,
    pub dense_channels: usize,
    pub dense_physical_channels: usize,
    pub dense_document_major_passes: usize,
    pub dense_document_rows_traversed: usize,
    pub dense_logical_dot_products: usize,
    pub dense_physical_dot_products: usize,
    pub sparse_auto_requested: bool,
    pub sparse_auto_selected_shared: bool,
    pub sparse_estimated_unique_posting_elements: usize,
    pub sparse_estimated_logical_posting_elements: usize,
    pub sparse_estimated_deduplicated_posting_elements: usize,
    pub sparse_probe_then_shared_requested: bool,
    pub sparse_probe_selected_shared: bool,
    pub sparse_probe_depth: usize,
    pub sparse_prefix_identities_replayed: usize,
}

/// The number of leading dense channels that are flagged.
pub open spec fn flagged_dense(
    queries: Seq<ExactChannelQuery>,
    flags: Seq<bool>,
    upto: int,
) -> nat
    decreases upto,
{
    if upto <= 0 {
        0
    } else {
        flagged_dense(queries, flags, upto - 1) + (if is_dense(queries[upto - 1]) && flags[upto
            - 1] {
            1nat
        } else {
            0nat
        })
    }
}

/// The number of dense channels that are flagged.
fn count_dense(queries: &Vec<ExactChannelQuery>, flags: &Vec<bool>) -> (count: usize)
    requires
        queries@.len() == flags@.len(),
    ensures
        count == flagged_dense(queries@, flags@, queries@.len() as int),
        count <= queries@.len(),
{
    let mut count: usize = 0;
    let mut i: usize = 0;
    while i < queries.len()
        invariant
            i <= queries@.len(),
            queries@.len() == flags@.len(),
            count <= i,
            count == flagged_dense(queries@, flags@, i as int),
        decreases queries@.len() - i,
    {
        let dense = match &queries[i] {
            ExactChannelQuery::Dense(_) => true,
            ExactChannelQuery::Sparse(_) => false,
        };
        if dense && flags[i] {
            count += 1;
        }
        i += 1;
    }
    count
}

/// How often the dense documents are traversed for a number of channels.
pub open spec fn passes_for(channels: usize, strategy: DenseStreamStrategy) -> usize {
    if channels == 0 {
        0
    } else if strategy is SharedDocumentMajor {
        1
    } else {
        channels
    }
}

/// How often the dense documents are traversed for a number of channels.
pub fn dense_passes(channels: usize, strategy: DenseStreamStrategy) -> (passes: usize)
    ensures
        passes == passes_for(channels, strategy),
{
    if channels == 0 {
        return 0;
    }
    match strategy {
        DenseStreamStrategy::Independent => channels,
        DenseStreamStrategy::ReplayIdentical => channels,
        DenseStreamStrategy::SharedDocumentMajor => 1,
    }
}

/// The places of the sparse channels.
pub open spec fn sparse_places(queries: Seq<ExactChannelQuery>, upto: int) -> Seq<usize>
    decreases upto,
{
    if upto <= 0 {
        Seq::empty()
    } else if is_dense(queries[upto - 1]) {
        sparse_places(queries, upto - 1)
    } else {
        sparse_places(queries, upto - 1).push((upto - 1) as usize)
    }
}

/// Every place is that of a sparse channel.
proof fn lemma_placed_is_sparse(queries: Seq<ExactChannelQuery>, upto: int, i: int)
    requires
        0 <= upto <= queries.len(),
        queries.len() <= usize::MAX,
        0 <= i < sparse_places(queries, upto).len(),
    ensures
        sparse_places(queries, upto)[i] < upto,
        !is_dense(queries[sparse_places(queries, upto)[i] as int]),
    decreases upto,
{
    if upto > 0 {
        if i < sparse_places(queries, upto - 1).len() {
            lemma_placed_is_sparse(queries, upto - 1, i);
        }
    }
}

/// Every sparse channel has its place.
proof fn lemma_sparse_is_placed(queries: Seq<ExactChannelQuery>, upto: int, source: int)
    requires
        0 <= source < upto <= queries.len(),
        queries.len() <= usize::MAX,
        !is_dense(queries[source]),
    ensures
        sparse_places(queries, upto).contains(source as usize),
    decreases upto,
{
    let places = sparse_places(queries, upto - 1);
    if source == upto - 1 {
        assert(sparse_places(queries, upto).last() == source as usize);
    } else {
        lemma_sparse_is_placed(queries, upto - 1, source);
        let i = choose|i: int| 0 <= i < places.len() && places[i] == source as usize;
        assert(sparse_places(queries, upto)[i] == source as usize);
    }
}

/// The places of the sparse channels.
fn sparse_sources(queries: &Vec<ExactChannelQuery>) -> (places: Vec<usize>)
    ensures
        places@ == sparse_places(queries@, queries@.len() as int),
        forall|i: int| 0 <= i < places@.len() ==> #[trigger] places@[i] < queries@.len(),
        forall|i: int, j: int|
            0 <= i < j < places@.len() ==> #[trigger] places@[i] < #[trigger] places@[j],
{
    let mut places: Vec<usize> = Vec::new();
    let mut i: usize = 0;
    while i < queries.len()
        invariant
            i <= queries@.len(),
            places@ == sparse_places(queries@, i as int),
            forall|k: int| 0 <= k < places@.len() ==> #[trigger] places@[k] < i,
            forall|k: int, j: int|
                0 <= k < j < places@.len() ==> #[trigger] places@[k] < #[trigger] places@[j],
        decreases queries@.len() - i,
    {
        match &queries[i] {
            ExactChannelQuery::Dense(_) => {},
            ExactChannelQuery::Sparse(_) => {
                places.push(i);
            },
        }
        i += 1;
    }
    places
}

/// Whether a row holds the queries of the sparse channels, in their order.
pub open spec fn are_sparse_queries(
    row: Seq<RemappedSparseVector>,
    queries: Seq<ExactChannelQuery>,
) -> bool {
    &&& row.len() == sparse_places(queries, queries.len() as int).len()
    &&& forall|i: int|
        0 <= i < row.len() ==> is_sparse_copy(
            #[trigger] row[i],
            queries[sparse_places(queries, queries.len() as int)[i] as int],
        )
}

/// The queries of the sparse channels.
fn sparse_queries(queries: &Vec<ExactChannelQuery>) -> (row: Vec<RemappedSparseVector>)
    ensures
        are_sparse_queries(row@, queries@),
{
    let mut row: Vec<RemappedSparseVector> = Vec::new();
    let mut i: usize = 0;
    while i < queries.len()
        invariant
            i <= queries@.len(),
            row@.len() == sparse_places(queries@, i as int).len(),
            forall|k: int|
                0 <= k < row@.len() ==> is_sparse_copy(
                    #[trigger] row@[k],
                    queries@[sparse_places(queries@, i as int)[k] as int],
                ),
        decreases queries@.len() - i,
    {
        let ghost places = sparse_places(queries@, i as int);
        let ghost following = sparse_places(queries@, i + 1);
        match &queries[i] {
            ExactChannelQuery::Dense(_) => {
                assert(following == places);
            },
            ExactChannelQuery::Sparse(query) => {
                let ghost before = row@;
                let copy = copied_sparse(query);
                assert(is_sparse_copy(copy, queries@[i as int]));
                assert(following == places.push(i));
                row.push(copy);
                proof {
                    assert forall|k: int|
                        0 <= k < row@.len() implies is_sparse_copy(
                        #[trigger] row@[k],
                        queries@[following[k] as int],
                    ) by {
                        if k < before.len() {
                            assert(is_sparse_copy(
                                before[k],
                                queries@[places[k] as int],
                            ));
                        }
                    }
                }
            },
        }
        i += 1;
    }
    row
}

/// Identities as entries that are ordered by identity alone.
pub open spec fn keyed(ids: Seq<u32>) -> Seq<RankEntry> {
    Seq::new(
        ids.len(),
        |i: int| RankEntry { score: 0, id: ExtendedPointId::NumId(ids[i] as u64), slot: 0 },
    )
}

/// Whether two lists hold the same identities equally often.
pub open spec fn same_identities(left: Seq<u32>, right: Seq<u32>) -> bool {
    keyed(left).to_multiset() == keyed(right).to_multiset()
}

/// Identities as entries that are ordered by identity alone.
fn keyed_entries(ids: &Vec<u32>) -> (entries: Vec<RankEntry>)
    ensures
        entries@ == keyed(ids@),
{
    let mut entries: Vec<RankEntry> = Vec::new();
    let mut i: usize = 0;
    while i < ids.len()
        invariant
            i <= ids@.len(),
            entries@ =~= keyed(ids@).take(i as int),
        decreases ids@.len() - i,
    {
        entries.push(
            RankEntry { score: 0, id: ExtendedPointId::NumId(ids[i] as u64), slot: 0 },
        );
        i += 1;
    }
    assert(entries@ =~= keyed(ids@));
    entries
}

/// Whether two lists hold the same identities equally often.
pub fn hold_same_identities(left: &Vec<u32>, right: &Vec<u32>) -> (same: bool)
    ensures
        same == same_identities(left@, right@),
{
    let left_entries = keyed_entries(left);
    let right_entries = keyed_entries(right);
    let ghost left_keyed = left_entries@;
    let ghost right_keyed = right_entries@;
    let left_order = order_entries(left_entries);
    let right_order = order_entries(right_entries);
    proof {
        lemma_ordered(left_keyed);
        lemma_ordered(right_keyed);
        if same_identities(left@, right@) {
            lemma_order_is_unique(left_order@, right_order@);
        }
    }
    if left_order.len() != right_order.len() {
        return false;
    }
    let mut i: usize = 0;
    while i < left_order.len()
        invariant
            i <= left_order@.len(),
            left_order@.len() == right_order@.len(),
            forall|k: int| 0 <= k < i ==> left_order@[k] == right_order@[k],
            same_identities(left@, right@) ==> left_order@ == right_order@,
        decreases left_order@.len() - i,
    {
        if left_order[i] != right_order[i] {
            return false;
        }
        i += 1;
    }
    assert(left_order@ =~= right_order@);
    true
}

/// Whether a number is one more than the largest identity, or 0 where there is none.
pub open spec fn is_capacity(ids: Seq<u32>, capacity: u64) -> bool {
    &&& ids.len() == 0 ==> capacity == 0
    &&& ids.len() > 0 ==> {
        &&& exists|i: int| 0 <= i < ids.len() && #[trigger] ids[i] + 1 == capacity
        &&& forall|i: int| 0 <= i < ids.len() ==> #[trigger] ids[i] < capacity
    }
}

/// One more than the largest identity, or 0 where there is none.
pub fn point_capacity(ids: &Vec<u32>) -> (capacity: u64)
    ensures
        is_capacity(ids@, capacity),
{
    let mut capacity: u64 = 0;
    let mut i: usize = 0;
    while i < ids.len()
        invariant
            i <= ids@.len(),
            i == 0 ==> capacity == 0,
            capacity <= 0x1_0000_0000,
            i > 0 ==> exists|k: int| 0 <= k < i && #[trigger] ids@[k] + 1 == capacity,
            forall|k: int| 0 <= k < i ==> #[trigger] ids@[k] < capacity,
        decreases ids@.len() - i,
    {
        let id: u64 = ids[i] as u64;
        if id >= capacity {
            capacity = id + 1;
            assert(ids@[i as int] + 1 == capacity);
        } else {
            let ghost at = choose|k: int| 0 <= k < i && #[trigger] ids@[k] + 1 == capacity;
            assert(ids@[at] + 1 == capacity);
        }
        i += 1;
    }
    capacity
}

/// What a search reaches outside of itself.
///
/// `open` obtains the stream of a sparse channel under a strategy. `estimate` and
/// `estimate_pair` count posting elements, `shared_rankings` evaluates all sparse queries
/// at once, `dense` is the arithmetic of the dense channels, and `stopped` says whether the
/// search shall end.
pub struct ChannelAccess<O, E, D, R, Q, C, K, T> {
    pub open: O,
    pub estimate: E,
    pub estimate_pair: D,
    pub shared_rankings: R,
    pub dense: DenseChannels<Q, C, K>,
    pub stopped: T,
}

/// Whether everything that a search reaches can be asked.
pub open spec fn answers<
    S,
    O: Fn(usize, SparseStreamStrategy) -> Result<S, NChannelExactError>,
    E: Fn(&Vec<RemappedSparseVector>) -> Result<SparseCostEstimate, String>,
    D: Fn(&Vec<RemappedSparseVector>, &Vec<RemappedSparseVector>) -> Result<
        (SparseCostEstimate, SparseCostEstimate),
        String,
    >,
    R: Fn(&Vec<RemappedSparseVector>) -> Result<Vec<Vec<u32>>, String>,
    Q: Fn(&Vec<u32>) -> QuantizedVector,
    C: Fn(i64, &QuantizedVectorMetadata, &QuantizedVectorMetadata, usize) -> i64,
    K: ChannelKeys,
    T: Fn() -> bool,
>(access: ChannelAccess<O, E, D, R, Q, C, K, T>) -> bool {
    &&& forall|channel: usize, strategy: SparseStreamStrategy| #[trigger]
        access.open.requires((channel, strategy))
    &&& access.dense.answers()
    &&& forall|row: &Vec<RemappedSparseVector>| #[trigger] access.estimate.requires((row,))
    &&& forall|row: &Vec<RemappedSparseVector>, unique: &Vec<RemappedSparseVector>| #[trigger]
        access.estimate_pair.requires((row, unique))
    &&& forall|row: &Vec<RemappedSparseVector>| #[trigger] access.shared_rankings.requires((row,))
    &&& can_stop(access.stopped)
}

/// Whether every sparse stream opens and yields the ranking of its channel.
pub open spec fn opens_rankings<
    S: ExactRrfStream,
    O: Fn(usize, SparseStreamStrategy) -> Result<S, NChannelExactError>,
>(
    open: O,
    strategy: SparseStreamStrategy,
    queries: Seq<ExactChannelQuery>,
    rankings: Seq<Seq<ExtendedPointId>>,
) -> bool {
    forall|channel: usize, result: Result<S, NChannelExactError>| #[trigger]
        open.ensures((channel, strategy), result) && channel < queries.len() && !is_dense(
            queries[channel as int],
        ) ==> {
            &&& result matches Ok(stream)
            &&& stream.rest() == Some(rankings[channel as int])
        }
}

/// Whether the rankings of the dense channels are those of the documents of an index, and
/// their queries fit the documents.
pub open spec fn ranks_dense<
    Q: Fn(&Vec<u32>) -> QuantizedVector,
    C: Fn(i64, &QuantizedVectorMetadata, &QuantizedVectorMetadata, usize) -> i64,
    K: ChannelKeys,
>(
    index: DenseQuantizedIndex,
    dense: DenseChannels<Q, C, K>,
    queries: Seq<ExactChannelQuery>,
    rankings: Seq<Seq<ExtendedPointId>>,
) -> bool {
    forall|channel: int|
        0 <= channel < queries.len() ==> (#[trigger] queries[channel] matches
            ExactChannelQuery::Dense(query) ==> is_query(query@, index.dims()) && ranks_documents(
            index,
            dense,
            query@,
            channel as usize,
            rankings[channel],
        ))
}

/// Whether channels with the same query have the same ranking.
pub open spec fn respects_queries(
    queries: Seq<ExactChannelQuery>,
    rankings: Seq<Seq<ExtendedPointId>>,
) -> bool {
    &&& rankings.len() == queries.len()
    &&& forall|left: int, right: int|
        #![trigger rankings[left], rankings[right]]
        0 <= left < queries.len() && 0 <= right < queries.len() && query_content(queries[left])
            == query_content(queries[right]) ==> rankings[left] == rankings[right]
}

/// Whether channels with the same query fail in the same way.
pub open spec fn respects_failures(
    queries: Seq<ExactChannelQuery>,
    failures: Seq<Option<OperationError>>,
) -> bool {
    &&& failures.len() == queries.len()
    &&& forall|left: int, right: int|
        #![trigger failures[left], failures[right]]
        0 <= left < queries.len() && 0 <= right < queries.len() && query_content(queries[left])
            == query_content(queries[right]) ==> failures[left] == failures[right]
}

/// The identities of a ranking of offsets.
pub open spec fn offset_ids(ranking: Seq<u32>) -> Seq<ExtendedPointId> {
    Seq::new(ranking.len(), |i: int| ExtendedPointId::NumId(ranking[i] as u64))
}

/// Whether an evaluation of all sparse queries gives the rankings of their channels.
pub open spec fn shares_rankings<R: Fn(&Vec<RemappedSparseVector>) -> Result<Vec<Vec<u32>>, String>>(
    shared_rankings: R,
    queries: Seq<ExactChannelQuery>,
    rankings: Seq<Seq<ExtendedPointId>>,
) -> bool {
    let places = sparse_places(queries, queries.len() as int);
    forall|row: &Vec<RemappedSparseVector>, result: Result<Vec<Vec<u32>>, String>| #[trigger]
        shared_rankings.ensures((row,), result) && are_sparse_queries(row@, queries) ==> {
            &&& result matches Ok(lists)
            &&& are_rankings_at(lists@, places, rankings)
        }
}

/// The outcome of a search.
#[derive(Clone, Debug)]
pub struct NChannelExactSearchResult {
    pub execution: DynamicRrfExecution,
    pub channels: Vec<ExactChannelTelemetry>,
    pub physical: NChannelPhysicalTelemetry,
}

/// Whether a decision is what an answered estimate leads to; a failed estimate fails
/// the search.
pub open spec fn follows_estimate(
    strategy: SparseStreamStrategy,
    answer: Result<(SparseCostEstimate, SparseCostEstimate), String>,
    result: Result<SparseDecision, NChannelExactError>,
) -> bool {
    match answer {
        Ok((estimate, deduplicated)) => result == Ok::<SparseDecision, NChannelExactError>(
            decision(strategy, estimate, deduplicated),
        ),
        Err(message) => result == Err::<SparseDecision, NChannelExactError>(
            NChannelExactError::SparsePosting(message),
        ),
    }
}

/// An estimate that stands for the repeated and for the unique queries.
pub open spec fn doubled(answer: Result<SparseCostEstimate, String>) -> Result<
    (SparseCostEstimate, SparseCostEstimate),
    String,
> {
    match answer {
        Ok(estimate) => Ok((estimate, estimate)),
        Err(message) => Err(message),
    }
}

/// Whether a result is what deciding about sparse channels leads to: the strategy itself,
/// or what the estimate for the sparse queries of the request makes of it.
pub open spec fn resolves<
    E: Fn(&Vec<RemappedSparseVector>) -> Result<SparseCostEstimate, String>,
    D: Fn(&Vec<RemappedSparseVector>, &Vec<RemappedSparseVector>) -> Result<
        (SparseCostEstimate, SparseCostEstimate),
        String,
    >,
>(
    queries: Seq<ExactChannelQuery>,
    weight_bits: Option<Seq<u32>>,
    strategy: SparseStreamStrategy,
    estimate: E,
    estimate_pair: D,
    result: Result<SparseDecision, NChannelExactError>,
) -> bool {
    if is_empty_probe(strategy) {
        result == Err::<SparseDecision, NChannelExactError>(
            NChannelExactError::Fusion(OperationError::ValidationError(Fault::ZeroProbeDepth)),
        )
    } else {
        match strategy {
            SparseStreamStrategy::AutoShared { .. }
            | SparseStreamStrategy::ProbeThenShared { .. } => exists|
                row: Vec<RemappedSparseVector>,
                answer: Result<SparseCostEstimate, String>,
            |
                {
                    &&& #[trigger] estimate.ensures((&row,), answer)
                    &&& are_sparse_queries(row@, queries)
                    &&& follows_estimate(strategy, doubled(answer), result)
                },
            SparseStreamStrategy::AutoSharedLazy { .. } => exists|
                row: Vec<RemappedSparseVector>,
                unique: Vec<RemappedSparseVector>,
                answer: Result<(SparseCostEstimate, SparseCostEstimate), String>,
            |
                {
                    &&& #[trigger] estimate_pair.ensures((&row, &unique), answer)
                    &&& are_sparse_queries(row@, queries)
                    &&& are_unique_sparse(unique@, queries, weight_bits)
                    &&& follows_estimate(strategy, answer, result)
                },
            _ => result == Ok::<SparseDecision, NChannelExactError>(
                decision(strategy, no_estimate(), no_estimate()),
            ),
        }
    }
}

/// Decides how sparse channels are obtained.
pub fn resolve_sparse<
    E: Fn(&Vec<RemappedSparseVector>) -> Result<SparseCostEstimate, String>,
    D: Fn(&Vec<RemappedSparseVector>, &Vec<RemappedSparseVector>) -> Result<
        (SparseCostEstimate, SparseCostEstimate),
        String,
    >,
>(
    queries: &Vec<ExactChannelQuery>,
    weight_bits: Option<&Vec<u32>>,
    strategy: SparseStreamStrategy,
    estimate: &E,
    estimate_pair: &D,
) -> (result: Result<SparseDecision, NChannelExactError>)
    requires
        forall|row: &Vec<RemappedSparseVector>| #[trigger] estimate.requires((row,)),
        forall|row: &Vec<RemappedSparseVector>, unique: &Vec<RemappedSparseVector>| #[trigger]
            estimate_pair.requires((row, unique)),
    ensures
        resolves(
            queries@,
            bits_view(weight_bits),
            strategy,
            *estimate,
            *estimate_pair,
            result,
        ),
{
    match strategy {
        SparseStreamStrategy::AutoSharedLazy { batch_size: _ } => {
            let row = sparse_queries(queries);
            let unique = unique_sparse_queries(queries, weight_bits);
            let answer = estimate_pair(&row, &unique);
            assert(estimate_pair.ensures((&row, &unique), answer));
            match answer {
                Ok((all, deduplicated)) => Ok(decide_sparse(strategy, all, deduplicated)),
                Err(message) => Err(NChannelExactError::SparsePosting(message)),
            }
        },
        SparseStreamStrategy::AutoShared { batch_size: _, max_unique_to_logical_milli: _ } => {
            let row = sparse_queries(queries);
            let answer = estimate(&row);
            assert(estimate.ensures((&row,), answer));
            match answer {
                Ok(found) => Ok(decide_sparse(strategy, found, found)),
                Err(message) => Err(NChannelExactError::SparsePosting(message)),
            }
        },
        SparseStreamStrategy::ProbeThenShared { batch_size: _, probe_depth } => {
            if probe_depth == 0 {
                return Err(
                    NChannelExactError::Fusion(
                        OperationError::ValidationError(Fault::ZeroProbeDepth),
                    ),
                );
            }
            let row = sparse_queries(queries);
            let answer = estimate(&row);
            assert(estimate.ensures((&row,), answer));
            match answer {
                Ok(found) => Ok(decide_sparse(strategy, found, found)),
                Err(message) => Err(NChannelExactError::SparsePosting(message)),
            }
        },
        _ => {
            let nothing = SparseCostEstimate {
                unique_posting_elements: 0,
                logical_posting_elements: 0,
            };
            Ok(decide_sparse(strategy, nothing, nothing))
        },
    }
}

/// The estimate of nothing.
pub open spec fn no_estimate() -> SparseCostEstimate {
    SparseCostEstimate { unique_posting_elements: 0, logical_posting_elements: 0 }
}

/// Whether a strategy is a probe of depth zero.
pub open spec fn is_empty_probe(strategy: SparseStreamStrategy) -> bool {
    strategy matches SparseStreamStrategy::ProbeThenShared { batch_size, probe_depth }
        && probe_depth == 0
}

/// A channel of which no earlier one is in its group stands for the group.
proof fn lemma_first_represents(
    sharing: Sharing,
    groups: Seq<usize>,
    representatives: Seq<usize>,
    channel: int,
)
    requires
        sharing.is_grouping(groups, representatives),
        0 <= channel < groups.len(),
        members_of_group(groups, groups[channel] as int, channel).len() == 0,
    ensures
        representatives[groups[channel] as int] == channel,
{
    let group = groups[channel] as int;
    let first = representatives[group] as int;
    assert(groups[first] == group);
    if first < channel {
        lemma_member_counts(groups, group, first, channel);
    }
}

/// A group that an earlier channel is in has members.
proof fn lemma_member_counts(groups: Seq<usize>, group: int, member: int, upto: int)
    requires
        0 <= member < upto <= groups.len(),
        groups[member] == group,
    ensures
        members_of_group(groups, group, upto).len() > 0,
    decreases upto,
{
    if member < upto - 1 {
        lemma_member_counts(groups, group, member, upto - 1);
    }
}

/// What a session says of a channel after its streams were read reports the channel.
proof fn lemma_reports_channel<
    'a,
    S: ExactRrfStream,
    O: Fn(usize, SparseStreamStrategy) -> Result<S, NChannelExactError>,
    Q: Fn(&Vec<u32>) -> QuantizedVector,
    C: Fn(i64, &QuantizedVectorMetadata, &QuantizedVectorMetadata, usize) -> i64,
    K: ChannelKeys,
>(
    index: DenseQuantizedIndex,
    dense: DenseChannels<Q, C, K>,
    open: O,
    strategy: SparseStreamStrategy,
    queries: Seq<ExactChannelQuery>,
    weights: Option<Seq<u32>>,
    dense_strategy: DenseStreamStrategy,
    replay_sparse: bool,
    flags: Seq<bool>,
    sources: Seq<ChannelSource<'a, S, K>>,
    before: RankBank<ChannelSource<'a, S, K>>,
    representatives: Seq<usize>,
    after: RankBank<ChannelSource<'a, S, K>>,
    channel: int,
)
    requires
        0 <= channel < queries.len() <= usize::MAX,
        before.groups().len() == queries.len(),
        after.groups() == before.groups(),
        before.physical() == representatives.len(),
        (Sharing {
            queries,
            weights,
            dense: dense_strategy is ReplayIdentical,
            sparse: replay_sparse,
        }).is_grouping(before.groups(), representatives),
        are_dense_flags(queries, weights, dense_strategy, flags),
        is_channel_source(
            index,
            dense,
            open,
            strategy,
            queries[channel],
            flags[channel],
            channel as usize,
            sources[channel],
        ),
        forall|group: int|
            0 <= group < representatives.len() ==> #[trigger] before.producer(group) == Some(
                sources[representatives[group] as int],
            ),
        before.reader(channel) == members_of_group(
            before.groups(),
            before.groups()[channel] as int,
            channel,
        ).len(),
        producers_descend(before, after),
    ensures
        reports_channel(
            index,
            dense,
            queries[channel],
            channel as usize,
            strategy,
            members_of_group(before.groups(), before.groups()[channel] as int, channel).len() == 0,
            after.replay(before.groups()[channel] as int),
            channel_report(
                queries[channel],
                strategy,
                index.documents().len() as usize,
                after.reader(channel) == 0,
                after.replay(before.groups()[channel] as int),
                after.producer(before.groups()[channel] as int),
            ),
        ),
{
    let groups = before.groups();
    let group = groups[channel] as int;
    let first = members_of_group(groups, group, channel).len() == 0;
    let replay_dense = dense_strategy is ReplayIdentical;
    let sharing = Sharing { queries, weights, dense: replay_dense, sparse: replay_sparse };
    assert(after.reader(channel) == before.reader(channel));
    if first && is_dense(queries[channel]) {
        lemma_first_represents(sharing, groups, representatives, channel);
        assert(flags[channel]) by {
            if replay_dense {
                let partial = Sharing { queries, weights, dense: true, sparse: false };
                let (dense_groups, dense_reps) = choose|
                    dense_groups: Seq<usize>,
                    dense_reps: Seq<usize>,
                |
                    {
                        &&& dense_groups.len() == queries.len()
                        &&& #[trigger] partial.is_grouping(dense_groups, dense_reps)
                        &&& forall|source: int|
                            0 <= source < queries.len() ==> #[trigger] flags[source] == (
                            dense_reps[dense_groups[source] as int] == source)
                    };
                lemma_dense_representative(
                    queries,
                    weights,
                    replay_sparse,
                    groups,
                    representatives,
                    dense_groups,
                    dense_reps,
                    channel,
                );
            }
        }
        assert(before.producer(group) == Some(sources[channel]));
        assert(producer_descends(before.producer(group), after.producer(group)));
        if let (ChannelSource::Dense(start), Some(last)) = (
            sources[channel],
            after.producer(group),
        ) {
            let pulls = choose|pulls: nat| #[trigger] reaches(sources[channel], last, pulls);
            lemma_dense_reaches(start, last, pulls);
        }
    }
}

/// A dense channel that represents its group where sparse channels share does so
/// where they do not.
proof fn lemma_dense_representative(
    queries: Seq<ExactChannelQuery>,
    weights: Option<Seq<u32>>,
    sparse: bool,
    groups: Seq<usize>,
    representatives: Seq<usize>,
    dense_groups: Seq<usize>,
    dense_representatives: Seq<usize>,
    source: int,
)
    requires
        groups.len() == queries.len(),
        dense_groups.len() == queries.len(),
        (Sharing { queries, weights, dense: true, sparse }).is_grouping(groups, representatives),
        (Sharing { queries, weights, dense: true, sparse: false }).is_grouping(
            dense_groups,
            dense_representatives,
        ),
        0 <= source < queries.len(),
        is_dense(queries[source]),
        representatives[groups[source] as int] == source,
    ensures
        dense_representatives[dense_groups[source] as int] == source,
{
    let full = Sharing { queries, weights, dense: true, sparse };
    let partial = Sharing { queries, weights, dense: true, sparse: false };
    let group = groups[source] as int;
    let other = dense_representatives[dense_groups[source] as int] as int;
    if other != source {
        assert(partial.can_use(source, other));
        assert(is_dense(queries[other]));
        let held = groups[other] as int;
        let first = representatives[held] as int;
        assert(first <= other < source);
        assert(full.can_use(source, first)) by {
            if first != other {
                assert(full.can_use(other, first));
            }
        }
        assert(held < group) by {
            if held > group {
                assert(representatives[group] < representatives[held]);
            }
        }
        assert(!full.can_use(source, representatives[held] as int));
    }
}

/// The rankings of offsets as identities.
fn identities_of(ranking: &Vec<u32>) -> (ids: Vec<ExtendedPointId>)
    ensures
        ids@ == offset_ids(ranking@),
{
    let mut ids: Vec<ExtendedPointId> = Vec::new();
    let mut i: usize = 0;
    while i < ranking.len()
        invariant
            i <= ranking@.len(),
            ids@ =~= offset_ids(ranking@).take(i as int),
        decreases ranking@.len() - i,
    {
        ids.push(ExtendedPointId::NumId(ranking[i] as u64));
        i += 1;
    }
    assert(ids@ =~= offset_ids(ranking@));
    ids
}

/// A history that is the beginning of a ranking can be replayed from it.
proof fn lemma_prefix_replays(
    history: Seq<ExtendedPointId>,
    ranking: Seq<ExtendedPointId>,
    source: usize,
    rank: int,
)
    requires
        history.len() <= ranking.len(),
        history == ranking.take(history.len() as int),
        0 <= rank <= history.len(),
    ensures
        replay_fault(history, ranking, source, rank) is None,
    decreases history.len() - rank,
{
    if rank < history.len() {
        assert(ranking[rank] == history[rank]);
        lemma_prefix_replays(history, ranking, source, rank + 1);
    }
}

/// Whether the sources of the channels that are searched, from their beginning, yield the
/// given rankings, or first parts of them up to the given failures.
pub open spec fn sources_lead<S: ExactRrfStream>(
    flags: Seq<bool>,
    sources: Seq<S>,
    rankings: Seq<Seq<ExtendedPointId>>,
    failures: Seq<Option<OperationError>>,
) -> bool {
    &&& rankings.len() == sources.len()
    &&& failures.len() == sources.len()
    &&& forall|source: int|
        0 <= source < sources.len() && #[trigger] flags[source] ==> leads_from_start(
            sources[source].rest(),
            sources[source].failing(),
            rankings[source],
            failures[source],
        )
}

/// Whether a search has ended because it was stopped.
pub open spec fn is_cancelled<T: Fn() -> bool, A>(
    stopped: T,
    result: Result<A, NChannelExactError>,
) -> bool {
    stopped.ensures((), true) && result == Err::<A, NChannelExactError>(
        NChannelExactError::Cancelled,
    )
}

/// Whether a failure is one of the given ones, or that of a search that was stopped.
pub open spec fn is_expected<T: Fn() -> bool>(
    stopped: T,
    failures: Seq<Option<OperationError>>,
    error: NChannelExactError,
) -> bool {
    error matches NChannelExactError::Fusion(reason) && (failures.contains(Some(reason))
        || reason is Cancelled && stopped.ensures((), true))
}

/// Whether the shared evaluation of the sparse queries of a request fails with a message.
pub open spec fn is_failure_of<R: Fn(&Vec<RemappedSparseVector>) -> Result<Vec<Vec<u32>>, String>>(
    shared_rankings: R,
    queries: Seq<ExactChannelQuery>,
    message: String,
) -> bool {
    exists|row: &Vec<RemappedSparseVector>|
        are_sparse_queries(row@, queries) && #[trigger] shared_rankings.ensures(
            (row,),
            Err(message),
        )
}

/// What fusing opened channels returns: what is wrong with the request, or the first
/// identities of the exhaustive fusion of their rankings, whatever a failing channel would
/// have yielded further, or the failure of a channel. The strategies decide only how the
/// rankings are obtained. The sparse queries of the request, and no others, may be
/// evaluated at once.
pub open spec fn fuses_sources<
    S: ExactRrfStream,
    R: Fn(&Vec<RemappedSparseVector>) -> Result<Vec<Vec<u32>>, String>,
    T: Fn() -> bool,
    A: Fn(i64, usize, usize, i64) -> i64,
>(
    queries: Seq<ExactChannelQuery>,
    flags: Seq<bool>,
    sources: Seq<S>,
    top_k: usize,
    rrf_k: usize,
    weights: Option<Seq<i64>>,
    policy: DynamicRrfPolicy,
    strategy: SparseStreamStrategy,
    shared_rankings: R,
    stopped: T,
    accumulate: A,
    result: Result<NChannelExactSearchResult, NChannelExactError>,
) -> bool {
    let count = queries.len() as usize;
    &&& result is Ok ==> stopped.ensures((), false)
    &&& result matches Err(NChannelExactError::SparsePosting(message)) ==> strategy
        is ProbeThenShared && is_failure_of(shared_rankings, queries, message)
    &&& match session_fault(
        count,
        1,
        rrf_k,
        weights,
        Seq::new(queries.len(), |i: int| UNIT_WEIGHT),
        policy,
    ) {
        Some(fault) => is_cancelled(stopped, result) || result == Err::<
            NChannelExactSearchResult,
            NChannelExactError,
        >(NChannelExactError::Fusion(OperationError::ValidationError(fault))),
        None => forall|
            rankings: Seq<Seq<ExtendedPointId>>,
            failures: Seq<Option<OperationError>>,
        |
            are_counted(rankings) && respects_queries(queries, rankings) && respects_failures(
                queries,
                failures,
            ) && (strategy is ProbeThenShared ==> shares_rankings(
                shared_rankings,
                queries,
                rankings,
            )) && #[trigger] sources_lead(flags, sources, rankings, failures) ==> match result {
                Ok(found) => is_exhaustive_prefix(
                    accumulate,
                    rankings,
                    rrf_k,
                    effective_weights(count, weights),
                    top_k,
                    found.execution.point_ids@,
                ),
                Err(error) => is_cancelled(stopped, result) || is_expected(
                    stopped,
                    failures,
                    error,
                ),
            },
    }
}

/// What fusing the channels of a search returns: what opening them leads to, and then what
/// fusing them does.
pub open spec fn fuses_channels<
    'a,
    S: ExactRrfStream,
    O: Fn(usize, SparseStreamStrategy) -> Result<S, NChannelExactError>,
    E,
    D,
    R: Fn(&Vec<RemappedSparseVector>) -> Result<Vec<Vec<u32>>, String>,
    Q: Fn(&Vec<u32>) -> QuantizedVector,
    C: Fn(i64, &QuantizedVectorMetadata, &QuantizedVectorMetadata, usize) -> i64,
    K: ChannelKeys,
    T: Fn() -> bool,
    A: Fn(i64, usize, usize, i64) -> i64,
>(
    index: DenseQuantizedIndex,
    queries: Seq<ExactChannelQuery>,
    top_k: usize,
    rrf_k: usize,
    weights: Option<Seq<i64>>,
    weight_bits: Option<Seq<u32>>,
    policy: DynamicRrfPolicy,
    dense_strategy: DenseStreamStrategy,
    strategy: SparseStreamStrategy,
    access: ChannelAccess<O, E, D, R, Q, C, K, T>,
    accumulate: A,
    result: Result<NChannelExactSearchResult, NChannelExactError>,
) -> bool {
    exists|flags: Seq<bool>, opened: Result<Seq<ChannelSource<'a, S, K>>, NChannelExactError>|
        {
            &&& are_dense_flags(queries, weight_bits, dense_strategy, flags)
            &&& #[trigger] opens_channels(
                index,
                access.dense,
                access.open,
                access.stopped,
                strategy,
                queries,
                flags,
                opened,
            )
            &&& match opened {
                Err(error) => result == Err::<NChannelExactSearchResult, NChannelExactError>(error),
                Ok(sources) => fuses_sources(
                    queries,
                    flags,
                    sources,
                    top_k,
                    rrf_k,
                    weights,
                    policy,
                    strategy,
                    access.shared_rankings,
                    access.stopped,
                    accumulate,
                    result,
                ),
            }
        }
}

/// A search that is not stopped, whose request is proper, whose dense channels rank the
/// documents of the index and whose sparse streams yield rankings returns the first
/// identities of the exhaustive fusion of all rankings, under every strategy.
pub proof fn law_channels_fuse_exhaustively<
    'a,
    S: ExactRrfStream,
    O: Fn(usize, SparseStreamStrategy) -> Result<S, NChannelExactError>,
    E,
    D,
    R: Fn(&Vec<RemappedSparseVector>) -> Result<Vec<Vec<u32>>, String>,
    Q: Fn(&Vec<u32>) -> QuantizedVector,
    C: Fn(i64, &QuantizedVectorMetadata, &QuantizedVectorMetadata, usize) -> i64,
    K: ChannelKeys,
    T: Fn() -> bool,
    A: Fn(i64, usize, usize, i64) -> i64,
>(
    index: DenseQuantizedIndex,
    queries: Seq<ExactChannelQuery>,
    top_k: usize,
    rrf_k: usize,
    weights: Option<Seq<i64>>,
    weight_bits: Option<Seq<u32>>,
    policy: DynamicRrfPolicy,
    dense_strategy: DenseStreamStrategy,
    strategy: SparseStreamStrategy,
    access: ChannelAccess<O, E, D, R, Q, C, K, T>,
    accumulate: A,
    rankings: Seq<Seq<ExtendedPointId>>,
    result: Result<NChannelExactSearchResult, NChannelExactError>,
)
    requires
        fuses_channels::<S, O, E, D, R, Q, C, K, T, A>(
            index,
            queries,
            top_k,
            rrf_k,
            weights,
            weight_bits,
            policy,
            dense_strategy,
            strategy,
            access,
            accumulate,
            result,
        ),
        never_stops(access.stopped),
        session_fault(
            queries.len() as usize,
            1,
            rrf_k,
            weights,
            Seq::new(queries.len(), |i: int| UNIT_WEIGHT),
            policy,
        ) is None,
        are_counted(rankings),
        respects_queries(queries, rankings),
        strategy is ProbeThenShared ==> shares_rankings(access.shared_rankings, queries, rankings),
        opens_rankings::<S, O>(access.open, strategy, queries, rankings),
        ranks_dense(index, access.dense, queries, rankings),
        queries.len() <= usize::MAX,
    ensures
        result matches Ok(found) && is_exhaustive_prefix(
            accumulate,
            rankings,
            rrf_k,
            effective_weights(queries.len() as usize, weights),
            top_k,
            found.execution.point_ids@,
        ),
{
    let (flags, opened) = choose|
        flags: Seq<bool>,
        opened: Result<Seq<ChannelSource<'a, S, K>>, NChannelExactError>,
    |
        {
            &&& are_dense_flags(queries, weight_bits, dense_strategy, flags)
            &&& #[trigger] opens_channels(
                index,
                access.dense,
                access.open,
                access.stopped,
                strategy,
                queries,
                flags,
                opened,
            )
            &&& match opened {
                Err(error) => result == Err::<NChannelExactSearchResult, NChannelExactError>(error),
                Ok(sources) => fuses_sources(
                    queries,
                    flags,
                    sources,
                    top_k,
                    rrf_k,
                    weights,
                    policy,
                    strategy,
                    access.shared_rankings,
                    access.stopped,
                    accumulate,
                    result,
                ),
            }
        };
    assert forall|channel: int| !#[trigger] misfits(index, queries, flags, channel) by {
        if misfits(index, queries, flags, channel) {
            assert(queries[channel] is Dense);
        }
    }
    let sources = opened->Ok_0;
    let failures = no_failures(queries.len());
    assert(sources_lead(flags, sources, rankings, failures)) by {
        assert forall|source: int|
            0 <= source < sources.len() && #[trigger] flags[source] implies leads_from_start(
            sources[source].rest(),
            sources[source].failing(),
            rankings[source],
            failures[source],
        ) by {
            let _ = sources[source];
            match queries[source] {
                ExactChannelQuery::Dense(query) => {
                    assert(queries[source] is Dense);
                    lemma_streams_ranking(
                        index,
                        access.dense,
                        query@,
                        source as usize,
                        sources[source]->Dense_0,
                        rankings[source],
                    );
                },
                ExactChannelQuery::Sparse(_) => {},
            }
        }
    }
}

/// What a session over channels came to, and what its probe of the sparse channels did.
#[derive(Debug)]
pub struct ChannelRun {
    pub execution: DynamicRrfExecution,
    pub probe_selected_shared: bool,
    pub probe_depth: usize,
    pub prefix_replayed: usize,
}

/// What running a session over channels leads to: it ends stopped, with a failure of a
/// channel or of the shared evaluation, or with the first identities of the exhaustive
/// fusion.
pub open spec fn runs_channels<
    S: ExactRrfStream,
    R: Fn(&Vec<RemappedSparseVector>) -> Result<Vec<Vec<u32>>, String>,
    T: Fn() -> bool,
    A: Fn(i64, usize, usize, i64) -> i64,
>(
    session: NChannelSession<S>,
    queries: Seq<ExactChannelQuery>,
    strategy: SparseStreamStrategy,
    shared_rankings: R,
    stopped: T,
    accumulate: A,
    result: Result<ChannelRun, NChannelExactError>,
) -> bool {
    &&& result matches Err(NChannelExactError::SparsePosting(message)) ==> strategy
        is ProbeThenShared && is_failure_of(shared_rankings, queries, message)
    &&& forall|rankings: Seq<Seq<ExtendedPointId>>, failures: Seq<Option<OperationError>>|
        #[trigger] session.leads(rankings, failures) && (strategy is ProbeThenShared
            ==> shares_rankings(shared_rankings, queries, rankings)) ==> match result {
            Ok(run) => is_exhaustive_prefix(
                accumulate,
                rankings,
                session@.fusion.rrf_k,
                session@.fusion.weights,
                session@.fusion.top_k,
                run.execution.point_ids@,
            ),
            Err(error) => is_cancelled(stopped, result) || is_expected(stopped, failures, error),
        }
}

/// The targets of a probe: every sparse channel shall be read to a depth.
pub open spec fn probe_targets(
    queries: Seq<ExactChannelQuery>,
    depth: usize,
) -> Seq<Option<usize>> {
    Seq::new(
        queries.len(),
        |source: int|
            if is_dense(queries[source]) {
                None::<usize>
            } else {
                Some(depth)
            },
    )
}

/// Whether a sparse channel has not ended.
pub open spec fn has_open_sparse(queries: Seq<ExactChannelQuery>, view: ProgressView) -> bool {
    exists|source: int|
        0 <= source < queries.len() && !is_dense(#[trigger] queries[source])
            && !view.fusion.exhausted[source]
}

/// What a run that ends without a probe, or after one, returns.
pub open spec fn ends_run(
    advanced: OperationResult<DynamicRrfExecution>,
    selected: bool,
    depth: usize,
    replayed: usize,
    result: Result<ChannelRun, NChannelExactError>,
) -> bool {
    match advanced {
        Ok(execution) => result == Ok::<ChannelRun, NChannelExactError>(
            ChannelRun {
                execution,
                probe_selected_shared: selected,
                probe_depth: depth,
                prefix_replayed: replayed,
            },
        ),
        Err(error) => result == Err::<ChannelRun, NChannelExactError>(
            NChannelExactError::Fusion(error),
        ),
    }
}

/// How many channels get the rankings that were evaluated for them.
pub open spec fn list_count(places: Seq<usize>, lists: Seq<Vec<u32>>) -> int {
    if lists.len() < places.len() {
        lists.len() as int
    } else {
        places.len() as int
    }
}

/// What handing the sparse channels over to the shared evaluation leads to: the search is
/// stopped, the evaluation fails, a ranking contradicts what a channel has yielded, or the
/// session runs on with the rankings.
pub open spec fn hands_over<
    R: Fn(&Vec<RemappedSparseVector>) -> Result<Vec<Vec<u32>>, String>,
    T: Fn() -> bool,
    A: Fn(i64, usize, usize, i64) -> i64,
    P: Fn(usize, usize, i64, usize, i64) -> i64,
>(
    paused: ChannelState,
    queries: Seq<ExactChannelQuery>,
    depth: usize,
    shared_rankings: R,
    stopped: T,
    accumulate: A,
    priority: P,
    result: Result<ChannelRun, NChannelExactError>,
    after: ChannelState,
) -> bool {
    let places = sparse_places(queries, queries.len() as int);
    ||| is_cancelled(stopped, result)
    ||| result matches Err(NChannelExactError::SparsePosting(message)) && is_failure_of(
        shared_rankings,
        queries,
        message,
    )
    ||| exists|row: &Vec<RemappedSparseVector>, lists: Vec<Vec<u32>>|
        {
            &&& are_sparse_queries(row@, queries)
            &&& #[trigger] shared_rankings.ensures((row,), Ok(lists))
            &&& goes_on_with(
                paused,
                places,
                lists@,
                depth,
                stopped,
                accumulate,
                priority,
                result,
                after,
            )
        }
}

/// What going on with evaluated rankings leads to.
pub open spec fn goes_on_with<
    T: Fn() -> bool,
    A: Fn(i64, usize, usize, i64) -> i64,
    P: Fn(usize, usize, i64, usize, i64) -> i64,
>(
    paused: ChannelState,
    places: Seq<usize>,
    lists: Seq<Vec<u32>>,
    depth: usize,
    stopped: T,
    accumulate: A,
    priority: P,
    result: Result<ChannelRun, NChannelExactError>,
    after: ChannelState,
) -> bool {
    let count = list_count(places, lists);
    ||| exists|at: int|
        {
            &&& 0 <= at < count
            &&& !paused.view.fusion.exhausted[places[at] as int]
            &&& result matches Err(NChannelExactError::Fusion(error)) && (error is Cancelled
                && stopped.ensures((), true) || (#[trigger] replacement_fault(
                paused.view,
                places,
                lists,
                at,
            ) matches Some(fault) && error == OperationError::ValidationError(fault)))
        }
    ||| exists|advanced: OperationResult<DynamicRrfExecution>|
        {
            &&& #[trigger] replaced_after(paused, places, lists, count).runs(
                no_targets(paused.view.fusion.weights.len()),
                stopped,
                accumulate,
                priority,
                completed(advanced),
                after,
            )
            &&& ends_run(
                advanced,
                true,
                depth,
                counted(replayed_count(paused.view, places, count)),
                result,
            )
        }
}

/// What running a session over channels does. Without a probe it runs to its end. A probe
/// runs to its depth; a session that pauses there hands over to the shared evaluation if
/// posting elements are shared and a sparse channel has not ended, and else runs on.
pub open spec fn probes_channels<
    R: Fn(&Vec<RemappedSparseVector>) -> Result<Vec<Vec<u32>>, String>,
    T: Fn() -> bool,
    A: Fn(i64, usize, usize, i64) -> i64,
    P: Fn(usize, usize, i64, usize, i64) -> i64,
>(
    before: ChannelState,
    queries: Seq<ExactChannelQuery>,
    decided: SparseDecision,
    shared_rankings: R,
    stopped: T,
    accumulate: A,
    priority: P,
    result: Result<ChannelRun, NChannelExactError>,
    after: ChannelState,
) -> bool {
    let free = no_targets(before.view.fusion.weights.len());
    let depth = probe_depth_of(decided.strategy);
    if decided.strategy is ProbeThenShared {
        exists|advanced: OperationResult<DynamicRrfAdvance>, paused: ChannelState|
            {
                &&& #[trigger] before.runs(
                    probe_targets(queries, depth),
                    stopped,
                    accumulate,
                    priority,
                    advanced,
                    paused,
                )
                &&& match advanced {
                    Err(error) => ends_run(Err(error), false, depth, 0, result) && after == paused,
                    Ok(DynamicRrfAdvance::Fixed(execution)) => ends_run(
                        Ok(execution),
                        false,
                        depth,
                        0,
                        result,
                    ) && after == paused,
                    Ok(DynamicRrfAdvance::Paused) => if shares_postings(decided)
                        && has_open_sparse(queries, paused.view) {
                        hands_over(
                            paused,
                            queries,
                            depth,
                            shared_rankings,
                            stopped,
                            accumulate,
                            priority,
                            result,
                            after,
                        )
                    } else {
                        exists|completes: OperationResult<DynamicRrfExecution>|
                            {
                                &&& #[trigger] paused.runs(
                                    free,
                                    stopped,
                                    accumulate,
                                    priority,
                                    completed(completes),
                                    after,
                                )
                                &&& ends_run(completes, false, depth, 0, result)
                            }
                    },
                }
            }
    } else {
        exists|completes: OperationResult<DynamicRrfExecution>|
            {
                &&& #[trigger] before.runs(
                    free,
                    stopped,
                    accumulate,
                    priority,
                    completed(completes),
                    after,
                )
                &&& ends_run(completes, false, 0, 0, result)
            }
    }
}

/// Whether sparse queries share posting elements.
pub open spec fn shares_postings(decided: SparseDecision) -> bool {
    decided.estimate.unique_posting_elements < decided.estimate.logical_posting_elements
}

/// Runs a session over channels. A probe reads the sparse channels to a depth; where the
/// request is not decided by then and posting elements are shared, all sparse queries are
/// evaluated at once for the rest.
pub fn run_channels<
    S: ExactRrfStream,
    R: Fn(&Vec<RemappedSparseVector>) -> Result<Vec<Vec<u32>>, String>,
    T: Fn() -> bool,
    A: Fn(i64, usize, usize, i64) -> i64,
    P: Fn(usize, usize, i64, usize, i64) -> i64,
>(
    session: &mut NChannelSession<S>,
    queries: &Vec<ExactChannelQuery>,
    decided: SparseDecision,
    shared_rankings: &R,
    stopped: &T,
    accumulate: &A,
    priority: &P,
) -> (result: Result<ChannelRun, NChannelExactError>)
    requires
        old(session).wf(),
        old(session)@.batch_size == 1,
        old(session)@.fusion.weights.len() == queries@.len(),
        can_stop(*stopped),
        accepts(*accumulate),
        accepts_priority(*priority),
        forall|row: &Vec<RemappedSparseVector>| #[trigger] shared_rankings.requires((row,)),
    ensures
        final(session).wf(),
        continues_session(old(session)@, final(session)@),
        final(session).bank().groups() == old(session).bank().groups(),
        final(session).bank().physical() == old(session).bank().physical(),
        producers_descend(old(session).bank(), final(session).bank()),
        probes_channels(
            old(session).state(),
            queries@,
            decided,
            *shared_rankings,
            *stopped,
            *accumulate,
            *priority,
            result,
            final(session).state(),
        ),
        runs_channels(
            *old(session),
            queries@,
            decided.strategy,
            *shared_rankings,
            *stopped,
            *accumulate,
            result,
        ),
        result matches Ok(run) ==> {
            &&& final(session)@.reported(run.execution)
            &&& run.probe_depth == probe_depth_of(decided.strategy)
            &&& run.probe_selected_shared ==> decided.strategy is ProbeThenShared
                && decided.estimate.unique_posting_elements
                < decided.estimate.logical_posting_elements && probes_to(
                queries@,
                probe_depth_of(decided.strategy),
                final(session)@,
            )
            &&& !run.probe_selected_shared ==> run.prefix_replayed == 0
            &&& old(session).in_step() ==> final(session).in_step()
            &&& old(session).is_direct() && !run.probe_selected_shared
                ==> final(session).is_direct()
        },
{
    let count: usize = queries.len();
    let probe_depth: usize = match decided.strategy {
        SparseStreamStrategy::ProbeThenShared { batch_size: _, probe_depth } => probe_depth,
        _ => {
            let completes = session.run_to_completion(stopped, accumulate, priority);
            let ghost advanced = completes;
            assert(ends_run(
                advanced,
                false,
                0,
                0,
                match advanced {
                    Ok(execution) => Ok(
                        ChannelRun {
                            execution,
                            probe_selected_shared: false,
                            probe_depth: 0,
                            prefix_replayed: 0,
                        },
                    ),
                    Err(error) => Err(NChannelExactError::Fusion(error)),
                },
            ));
            return match completes {
                Ok(execution) => Ok(
                    ChannelRun {
                        execution,
                        probe_selected_shared: false,
                        probe_depth: 0,
                        prefix_replayed: 0,
                    },
                ),
                Err(error) => Err(NChannelExactError::Fusion(error)),
            };
        },
    };
    let places = sparse_sources(queries);
    let mut targets: Vec<Option<usize>> = repeated(None, count);
    let mut k: usize = 0;
    while k < places.len()
        invariant
            k <= places@.len(),
            targets@.len() == count,
            count == queries@.len(),
            forall|i: int| 0 <= i < places@.len() ==> #[trigger] places@[i] < queries@.len(),
            forall|i: int|
                0 <= i < k ==> targets@[#[trigger] places@[i] as int] == Some(probe_depth),
            forall|source: int|
                0 <= source < targets@.len() ==> (#[trigger] targets@[source] is None
                    || targets@[source] == Some(probe_depth) && places@.contains(source as usize)),
        decreases places@.len() - k,
    {
        targets.set(places[k], Some(probe_depth));
        k += 1;
    }
    let ghost first = *session;
    proof {
        assert(queries.len() <= usize::MAX);
        assert forall|source: int| 0 <= source < targets@.len() implies #[trigger] targets@[source]
            == probe_targets(queries@, probe_depth)[source] by {
            if is_dense(queries@[source]) {
                if places@.contains(source as usize) {
                    let i = choose|i: int| 0 <= i < places@.len() && places@[i] == source as usize;
                    lemma_placed_is_sparse(queries@, queries@.len() as int, i);
                }
            } else {
                lemma_sparse_is_placed(queries@, queries@.len() as int, source);
                let i = choose|i: int| 0 <= i < places@.len() && places@[i] == source;
                assert(targets@[places@[i] as int] == Some(probe_depth));
            }
        }
        assert(targets@ =~= probe_targets(queries@, probe_depth));
    }
    let advance = session.advance_until_each(&targets, stopped, accumulate, priority);
    let ghost advanced = advance;
    assert(first.state().runs(
        probe_targets(queries@, probe_depth_of(decided.strategy)),
        *stopped,
        *accumulate,
        *priority,
        advanced,
        session.state(),
    ));
    match advance {
        Err(error) => {
            return Err(NChannelExactError::Fusion(error));
        },
        Ok(DynamicRrfAdvance::Fixed(execution)) => {
            proof {
                session.lemma_valid();
                let (rows, unseen) = choose|rows: Seq<PointBounds>, unseen: i64|
                    #[trigger] is_outcome(
                        session@,
                        *accumulate,
                        rows,
                        unseen,
                        Some(execution.point_ids@),
                    );
                assert forall|
                    rankings: Seq<Seq<ExtendedPointId>>,
                    failures: Seq<Option<OperationError>>,
                | #[trigger] first.leads(rankings, failures) implies is_exhaustive_prefix(
                    *accumulate,
                    rankings,
                    session@.fusion.rrf_k,
                    session@.fusion.weights,
                    session@.fusion.top_k,
                    execution.point_ids@,
                ) by {
                    assert(session.leads(rankings, failures));
                    lemma_outcome_is_exhaustive(
                        *accumulate,
                        session@,
                        rows,
                        unseen,
                        execution.point_ids@,
                        rankings,
                    );
                }
            }
            return Ok(
                ChannelRun {
                    execution,
                    probe_selected_shared: false,
                    probe_depth,
                    prefix_replayed: 0,
                },
            );
        },
        Ok(DynamicRrfAdvance::Paused) => {},
    }
    let ghost paused = *session;
    proof {
        paused.lemma_valid();
        assert forall|source: int|
            0 <= source < queries@.len() && !is_dense(#[trigger] queries@[source]) implies
            paused@.fusion.exhausted[source] || paused@.fusion.histories[source].len()
            >= probe_depth by {
            lemma_sparse_is_placed(queries@, queries@.len() as int, source);
            let i = choose|i: int| 0 <= i < places@.len() && places@[i] == source;
            assert(targets@[places@[i] as int] == Some(probe_depth));
            assert(paused@.target_reached(targets@, source));
        }
    }
    let reusable = decided.estimate.unique_posting_elements
        < decided.estimate.logical_posting_elements;
    let unfinished = session.has_unfinished(&places);
    proof {
        assert(unfinished == has_open_sparse(queries@, paused@)) by {
            if unfinished {
                let i = choose|i: int|
                    0 <= i < places@.len() && !paused@.fusion.exhausted[
                    #[trigger] places@[i] as int];
                lemma_placed_is_sparse(queries@, queries@.len() as int, i);
                assert(!is_dense(queries@[places@[i] as int]));
            }
            if has_open_sparse(queries@, paused@) {
                let source = choose|source: int|
                    0 <= source < queries@.len() && !is_dense(#[trigger] queries@[source])
                        && !paused@.fusion.exhausted[source];
                lemma_sparse_is_placed(queries@, queries@.len() as int, source);
                let i = choose|i: int| 0 <= i < places@.len() && places@[i] == source;
                assert(!paused@.fusion.exhausted[places@[i] as int]);
            }
        }
    }
    if reusable && unfinished {
        if stopped() {
            return Err(NChannelExactError::Cancelled);
        }
        let row = sparse_queries(queries);
        let evaluated = shared_rankings(&row);
        assert(shared_rankings.ensures((&row,), evaluated));
        let lists = match evaluated {
            Ok(lists) => lists,
            Err(message) => {
                proof {
                    let failed = Err::<Vec<Vec<u32>>, String>(message);
                    assert(shared_rankings.ensures((&row,), failed));
                    assert(are_sparse_queries(row@, queries@));
                    assert(is_failure_of(*shared_rankings, queries@, message));
                    assert(hands_over(
                        paused.state(),
                        queries@,
                        probe_depth,
                        *shared_rankings,
                        *stopped,
                        *accumulate,
                        *priority,
                        Err(NChannelExactError::SparsePosting(message)),
                        session.state(),
                    ));
                    assert forall|
                        rankings: Seq<Seq<ExtendedPointId>>,
                        failures: Seq<Option<OperationError>>,
                    | #[trigger] first.leads(rankings, failures) implies !shares_rankings(
                        *shared_rankings,
                        queries@,
                        rankings,
                    ) by {
                        if shares_rankings(*shared_rankings, queries@, rankings) {
                            assert(shared_rankings.ensures((&row,), failed));
                        }
                    }
                }
                return Err(NChannelExactError::SparsePosting(message));
            },
        };
        assert(shared_rankings.ensures((&row,), Ok(lists)));
        if stopped() {
            return Err(NChannelExactError::Cancelled);
        }
        let ghost given = lists@;
        let result = go_on_with_rankings(
            session,
            &places,
            &lists,
            probe_depth,
            stopped,
            accumulate,
            priority,
        );
        let ghost returned = result;
        proof {
            assert(shared_rankings.ensures((&row,), Ok(lists)));
            assert(hands_over(
                paused.state(),
                queries@,
                probe_depth,
                *shared_rankings,
                *stopped,
                *accumulate,
                *priority,
                returned,
                session.state(),
            ));
            lemma_continues_transitive(first@, paused@, session@);
            lemma_producers_descend_twice(first.bank(), paused.bank(), session.bank());
            lemma_probe_is_kept(queries@, probe_depth, paused@, session@);
            assert forall|
                rankings: Seq<Seq<ExtendedPointId>>,
                failures: Seq<Option<OperationError>>,
            | #[trigger] first.leads(rankings, failures) && shares_rankings(
                *shared_rankings,
                queries@,
                rankings,
            ) implies paused.leads(rankings, failures) && are_rankings_at(
                given,
                places@,
                rankings,
            ) by {
                assert(shared_rankings.ensures((&row,), Ok(lists)));
            }
        }
        return result;
    }
    let completes = session.run_to_completion(stopped, accumulate, priority);
    let ghost ended = completes;
    proof {
        lemma_continues_transitive(first@, paused@, session@);
        lemma_producers_descend_twice(first.bank(), paused.bank(), session.bank());
        assert(paused.state().runs(
            no_targets(first@.fusion.weights.len()),
            *stopped,
            *accumulate,
            *priority,
            completed(ended),
            session.state(),
        ));
    }
    match completes {
        Ok(execution) => Ok(
            ChannelRun {
                execution,
                probe_selected_shared: false,
                probe_depth,
                prefix_replayed: 0,
            },
        ),
        Err(error) => Err(NChannelExactError::Fusion(error)),
    }
}

/// What a probe has read stays read.
proof fn lemma_probe_is_kept(
    queries: Seq<ExactChannelQuery>,
    depth: usize,
    paused: ProgressView,
    after: ProgressView,
)
    requires
        probes_to(queries, depth, paused),
        continues_session(paused, after),
        paused.fusion.histories.len() == queries.len(),
    ensures
        probes_to(queries, depth, after),
{
    assert forall|source: int|
        0 <= source < queries.len() && !is_dense(#[trigger] queries[source]) implies
        after.fusion.exhausted[source] || after.fusion.histories[source].len() >= depth by {
        let _ = paused.fusion.histories[source];
    }
}

/// Goes on with a session whose sparse channels get the rankings that were evaluated for
/// them.
fn go_on_with_rankings<
    S: ExactRrfStream,
    T: Fn() -> bool,
    A: Fn(i64, usize, usize, i64) -> i64,
    P: Fn(usize, usize, i64, usize, i64) -> i64,
>(
    session: &mut NChannelSession<S>,
    places: &Vec<usize>,
    lists: &Vec<Vec<u32>>,
    probe_depth: usize,
    stopped: &T,
    accumulate: &A,
    priority: &P,
) -> (result: Result<ChannelRun, NChannelExactError>)
    requires
        old(session).wf(),
        old(session)@.batch_size == 1,
        forall|i: int|
            0 <= i < places@.len() ==> #[trigger] places@[i] < old(session)@.fusion.weights.len(),
        can_stop(*stopped),
        accepts(*accumulate),
        accepts_priority(*priority),
    ensures
        final(session).wf(),
        continues_session(old(session)@, final(session)@),
        final(session).bank().groups() == old(session).bank().groups(),
        final(session).bank().physical() == old(session).bank().physical(),
        producers_descend(old(session).bank(), final(session).bank()),
        goes_on_with(
            old(session).state(),
            places@,
            lists@,
            probe_depth,
            *stopped,
            *accumulate,
            *priority,
            result,
            final(session).state(),
        ),
        result matches Ok(run) ==> {
            &&& final(session)@.reported(run.execution)
            &&& run.probe_depth == probe_depth
            &&& run.probe_selected_shared
            &&& old(session).in_step() ==> final(session).in_step()
        },
        forall|rankings: Seq<Seq<ExtendedPointId>>, failures: Seq<Option<OperationError>>|
            #[trigger] old(session).leads(rankings, failures) && are_rankings_at(
                lists@,
                places@,
                rankings,
            ) ==> match result {
                Ok(run) => is_exhaustive_prefix(
                    *accumulate,
                    rankings,
                    old(session)@.fusion.rrf_k,
                    old(session)@.fusion.weights,
                    old(session)@.fusion.top_k,
                    run.execution.point_ids@,
                ),
                Err(error) => is_expected(*stopped, failures, error),
            },
        result matches Err(error) ==> error is Fusion,
{
    let ghost paused = *session;
    proof {
        paused.lemma_valid();
        lemma_session_continues_itself(paused@);
        lemma_producers_stay(paused.bank());
    }
    let replacement = session.replace_all(places, lists, stopped);
    let ghost replaced = replacement;
    let ghost last = *session;
    proof {
        let done = choose|done: int|
            {
                &&& #[trigger] paused.replaces(&last, places@, lists@, done)
                &&& last.state() == replaced_after(paused.state(), places@, lists@, done)
                &&& match replaced {
                    Ok(replayed) => {
                        &&& done == places@.len() || done == lists@.len()
                        &&& replayed == counted(replayed_count(paused@, places@, done))
                    },
                    Err(error) => {
                        &&& done < places@.len()
                        &&& done < lists@.len()
                        &&& !paused@.fusion.exhausted[places@[done] as int]
                        &&& ends_stopped(*stopped, replaced) || (replacement_fault(
                            paused@,
                            places@,
                            lists@,
                            done,
                        ) matches Some(fault) && replaced == refused::<usize>(fault))
                    },
                }
            };
        if replaced is Ok {
            assert(done == list_count(places@, lists@));
        } else {
            let _ = replacement_fault(paused@, places@, lists@, done);
            assert(0 <= done < list_count(places@, lists@));
        }
    }
    let prefix_replayed: usize = match replacement {
        Ok(replayed) => replayed,
        Err(error) => {
            return Err(NChannelExactError::Fusion(error));
        },
    };
    let completes = session.run_to_completion(stopped, accumulate, priority);
    let ghost ended = completes;
    proof {
        assert(replaced_after(
            paused.state(),
            places@,
            lists@,
            list_count(places@, lists@),
        ).runs(
            no_targets(paused@.fusion.weights.len()),
            *stopped,
            *accumulate,
            *priority,
            completed(ended),
            session.state(),
        ));
        assert forall|rankings: Seq<Seq<ExtendedPointId>>, failures: Seq<Option<OperationError>>|
            #[trigger] paused.leads(rankings, failures) && are_rankings_at(
                lists@,
                places@,
                rankings,
            ) implies match ended {
            Ok(execution) => is_exhaustive_prefix(
                *accumulate,
                rankings,
                paused@.fusion.rrf_k,
                paused@.fusion.weights,
                paused@.fusion.top_k,
                execution.point_ids@,
            ),
            Err(error) => is_expected(*stopped, failures, NChannelExactError::Fusion(error)),
        } by {
            let left = choose|left: Seq<Option<OperationError>>| #[trigger]
                last.leads(rankings, left) && are_some_of(left, failures);
            assert(last.leads(rankings, left));
            if let Err(error) = ended {
                if left.contains(Some(error)) {
                    let at = choose|at: int| 0 <= at < left.len() && left[at] == Some(error);
                    assert(failures[at] == Some(error));
                }
            }
        }
    }
    match completes {
        Ok(execution) => Ok(
            ChannelRun {
                execution,
                probe_selected_shared: true,
                probe_depth,
                prefix_replayed,
            },
        ),
        Err(error) => Err(NChannelExactError::Fusion(error)),
    }
}

/// A session in step describes its streams.
proof fn lemma_describes_streams<S: ExactRrfStream>(
    session: NChannelSession<S>,
    representatives: Seq<usize>,
    sharing: RankStreamSharingTelemetry,
    found: NChannelExactSearchResult,
)
    requires
        session.wf(),
        session.in_step(),
        !found.physical.sparse_probe_selected_shared ==> session.is_direct(),
        session@.reported(found.execution),
        representatives.len() == session.bank().physical(),
        representatives.len() <= usize::MAX,
        tallies(session.bank(), found.execution.source_pulls@, sharing),
        found.physical.physical_rank_streams == sharing.physical_streams,
        found.physical.shared_rank_stream_groups == sharing.shared_groups,
        found.physical.physical_rank_pulls == sharing.physical_pulls,
        found.physical.rank_replay_buffered_identities == sharing.buffered_identities,
    ensures
        exists|pulls: Seq<usize>, peaks: Seq<usize>| #[trigger]
            describes_streams(session.bank().groups(), representatives, pulls, peaks, found),
{
    let bank = session.bank();
    let pulls = Seq::new(bank.physical(), |group: int| bank.replay(group).produced.len() as usize);
    let peaks = Seq::new(
        bank.physical(),
        |group: int| replay_telemetry(bank.replay(group)).peak_buffered_identities,
    );
    let source_pulls = found.execution.source_pulls@;
    session.lemma_valid();
    let lengths = Seq::new(source_pulls.len(), |source: int| source_pulls[source] as nat);
    assert(lengths =~= lengths_of(session@)) by {
        assert forall|source: int| 0 <= source < lengths.len() implies lengths[source]
            == lengths_of(session@)[source] by {
            let _ = session@.fusion.histories[source];
        }
    }
    assert forall|group: int| 0 <= group < representatives.len() implies {
        &&& leads_group(bank.groups(), #[trigger] pulls[group] as nat, lengths, group)
        &&& !found.physical.sparse_probe_selected_shared ==> ends_group(
            bank.groups(),
            pulls[group] as nat,
            lengths,
            group,
        )
    } by {
        session.lemma_in_step(group);
        bank.lemma_produced(group);
    }
    assert(describes_streams(bank.groups(), representatives, pulls, peaks, found));
}

/// Fuses the channels of a search once it is decided how they are obtained.
pub fn fuse_channels<
    S: ExactRrfStream,
    O: Fn(usize, SparseStreamStrategy) -> Result<S, NChannelExactError>,
    E: Fn(&Vec<RemappedSparseVector>) -> Result<SparseCostEstimate, String>,
    D: Fn(&Vec<RemappedSparseVector>, &Vec<RemappedSparseVector>) -> Result<
        (SparseCostEstimate, SparseCostEstimate),
        String,
    >,
    R: Fn(&Vec<RemappedSparseVector>) -> Result<Vec<Vec<u32>>, String>,
    Q: Fn(&Vec<u32>) -> QuantizedVector,
    C: Fn(i64, &QuantizedVectorMetadata, &QuantizedVectorMetadata, usize) -> i64,
    K: ChannelKeys,
    T: Fn() -> bool,
    A: Fn(i64, usize, usize, i64) -> i64,
    P: Fn(usize, usize, i64, usize, i64) -> i64,
>(
    index: &DenseQuantizedIndex,
    queries: &Vec<ExactChannelQuery>,
    top_k: usize,
    rrf_k: usize,
    weights: Option<&Vec<i64>>,
    weight_bits: Option<&Vec<u32>>,
    policy: DynamicRrfPolicy,
    dense_strategy: DenseStreamStrategy,
    decided: SparseDecision,
    access: &ChannelAccess<O, E, D, R, Q, C, K, T>,
    accumulate: &A,
    priority: &P,
) -> (result: Result<NChannelExactSearchResult, NChannelExactError>)
    requires
        fits_products(index.dims() as int),
        answers::<S, O, E, D, R, Q, C, K, T>(*access),
        accepts(*accumulate),
        accepts_priority(*priority),
        queries@.len() > 0,
    ensures
        fuses_channels::<S, O, E, D, R, Q, C, K, T, A>(
            *index,
            queries@,
            top_k,
            rrf_k,
            weights_view(weights),
            bits_view(weight_bits),
            policy,
            dense_strategy,
            decided.strategy,
            *access,
            *accumulate,
            result,
        ),
        result matches Ok(found) ==> describes(
            queries@,
            bits_view(weight_bits),
            dense_strategy,
            decided,
            index.documents().len() as usize,
            found,
        ),
        result matches Ok(found) ==> traces_channels(
            *index,
            access.dense,
            queries@,
            top_k,
            rrf_k,
            weights_view(weights),
            bits_view(weight_bits),
            policy,
            dense_strategy,
            decided,
            access.shared_rankings,
            access.stopped,
            *accumulate,
            *priority,
            found,
        ),
{
    let stopped = &access.stopped;
    let count: usize = queries.len();
    let document_count: usize = index.document_count();
    let replay_dense = match dense_strategy {
        DenseStreamStrategy::ReplayIdentical => true,
        _ => false,
    };
    let every = repeated(true, count);
    let flags = if replay_dense {
        dense_representatives(queries, weight_bits)
    } else {
        repeated(true, count)
    };
    let dense_channels: usize = count_dense(queries, &every);
    let dense_physical_channels: usize = count_dense(queries, &flags);
    let passes: usize = dense_passes(dense_physical_channels, dense_strategy);
    assert(are_dense_flags(queries@, bits_view(weight_bits), dense_strategy, flags@));
    let sources = match open_sources(
        index,
        &access.dense,
        &access.open,
        stopped,
        dense_strategy,
        decided.strategy,
        queries,
        &flags,
    ) {
        Ok(sources) => sources,
        Err(error) => {
            return Err(error);
        },
    };
    let ghost given = sources@;
    let ghost opened = Ok::<Seq<ChannelSource<S, K>>, NChannelExactError>(given);
    assert(opens_channels(
        *index,
        access.dense,
        access.open,
        access.stopped,
        decided.strategy,
        queries@,
        flags@,
        opened,
    ));
    if stopped() {
        return Err(NChannelExactError::Cancelled);
    }
    let replay_sparse = is_sparse_replayed(decided.strategy);
    let bank = share_identical_rank_streams(
        queries,
        sources,
        weight_bits,
        replay_dense,
        replay_sparse,
    );
    let ghost representatives = choose|representatives: Seq<usize>|
        {
            &&& #[trigger] (Sharing {
                queries: queries@,
                weights: bits_view(weight_bits),
                dense: replay_dense,
                sparse: replay_sparse,
            }).is_grouping(bank.groups(), representatives)
            &&& bank.physical() == representatives.len()
            &&& forall|group: int|
                0 <= group < representatives.len() ==> #[trigger] bank.producer(group) == Some(
                    given[representatives[group] as int],
                )
        };
    let ghost opening = bank;
    proof {
        bank.lemma_groups_len();
        assert forall|rankings: Seq<Seq<ExtendedPointId>>, failures: Seq<Option<OperationError>>|
            are_counted(rankings) && respects_queries(queries@, rankings) && respects_failures(
                queries@,
                failures,
            ) && #[trigger] sources_lead(flags@, given, rankings, failures) implies bank_leads(
            bank,
            rankings,
            failures,
        ) by {
            lemma_bank_leads(
                queries@,
                bits_view(weight_bits),
                dense_strategy,
                replay_sparse,
                flags@,
                given,
                bank,
                rankings,
                failures,
            );
        }
    }
    assert(bank.is_led());
    let mut session = match NChannelSession::new(bank, count, top_k, rrf_k, weights, policy) {
        Ok(session) => session,
        Err(error) => {
            return Err(NChannelExactError::Fusion(error));
        },
    };
    let ghost start = session.state();
    proof {
        session.lemma_valid();
        let shared = session.bank();
        shared.lemma_groups_len();
        let fresh = fresh_channels(
            shared.groups(),
            representatives.len(),
            top_k,
            rrf_k,
            weights_view(weights),
            policy,
        );
        assert(start.replays =~= fresh.replays);
        assert(start.rests =~= fresh.rests);
        assert(start.readers =~= fresh.readers) by {
            assert forall|source: int| 0 <= source < start.readers.len() implies
                start.readers[source] == fresh.readers[source] by {
                assert(shared.reader(source) == members_of_group(
                    shared.groups(),
                    shared.groups()[source] as int,
                    source,
                ).len());
            }
        }
        assert(start == fresh);
    }
    let run = match run_channels(
        &mut session,
        queries,
        decided,
        &access.shared_rankings,
        stopped,
        accumulate,
        priority,
    ) {
        Ok(run) => run,
        Err(error) => {
            return Err(error);
        },
    };
    if stopped() {
        return Err(NChannelExactError::Cancelled);
    }
    let ghost came_to = run;
    let ghost after = session.state();
    let execution = run.execution;
    let sharing = session.sharing_telemetry(&execution.source_pulls);
    let physical = NChannelPhysicalTelemetry {
        logical_rank_streams: sharing.logical_streams,
        physical_rank_streams: sharing.physical_streams,
        shared_rank_stream_groups: sharing.shared_groups,
        logical_rank_pulls: sharing.logical_pulls,
        physical_rank_pulls: sharing.physical_pulls,
        rank_replay_buffered_identities: sharing.buffered_identities,
        dense_channels,
        dense_physical_channels,
        dense_document_major_passes: passes,
        dense_document_rows_traversed: saturating_product(document_count, passes),
        dense_logical_dot_products: saturating_product(document_count, dense_channels),
        dense_physical_dot_products: saturating_product(document_count, dense_physical_channels),
        sparse_auto_requested: decided.auto_requested,
        sparse_auto_selected_shared: decided.auto_selected_shared,
        sparse_estimated_unique_posting_elements: decided.estimate.unique_posting_elements,
        sparse_estimated_logical_posting_elements: decided.estimate.logical_posting_elements,
        sparse_estimated_deduplicated_posting_elements:
            decided.estimated_deduplicated_posting_elements,
        sparse_probe_then_shared_requested: decided.probe_then_shared_requested,
        sparse_probe_selected_shared: run.probe_selected_shared,
        sparse_probe_depth: run.probe_depth,
        sparse_prefix_identities_replayed: run.prefix_replayed,
    };
    proof {
        assert(every@ =~= Seq::new(queries@.len(), |i: int| true));
    }
    let channels = report_channels(&session, queries, decided.strategy, document_count);
    let found = NChannelExactSearchResult { execution, channels, physical };
    proof {
        lemma_describes_streams(session, representatives, sharing, found);
        let shared = session.bank();
        assert(Seq::new(
            after.replays.len(),
            |group: int| after.replays[group].produced.len() as usize,
        ) =~= Seq::new(
            shared.physical(),
            |group: int| shared.replay(group).produced.len() as usize,
        ));
        assert(Seq::new(
            after.replays.len(),
            |group: int| replay_telemetry(after.replays[group]).peak_buffered_identities,
        ) =~= Seq::new(
            shared.physical(),
            |group: int| replay_telemetry(shared.replay(group)).peak_buffered_identities,
        ));
        assert forall|channel: int| 0 <= channel < queries@.len() implies reports_channel(
            *index,
            access.dense,
            queries@[channel],
            channel as usize,
            decided.strategy,
            members_of_group(opening.groups(), opening.groups()[channel] as int, channel).len()
                == 0,
            after.replays[opening.groups()[channel] as int],
            #[trigger] found.channels@[channel],
        ) by {
            lemma_reports_channel(
                *index,
                access.dense,
                access.open,
                decided.strategy,
                queries@,
                bits_view(weight_bits),
                dense_strategy,
                replay_sparse,
                flags@,
                given,
                opening,
                representatives,
                shared,
                channel,
            );
        }
        assert(probes_channels(
            start,
            queries@,
            decided,
            access.shared_rankings,
            access.stopped,
            *accumulate,
            *priority,
            Ok(came_to),
            after,
        ));
        assert(traces_channels(
            *index,
            access.dense,
            queries@,
            top_k,
            rrf_k,
            weights_view(weights),
            bits_view(weight_bits),
            policy,
            dense_strategy,
            decided,
            access.shared_rankings,
            access.stopped,
            *accumulate,
            *priority,
            found,
        ));
        session.lemma_valid();
        if found.physical.sparse_probe_selected_shared {
            assert forall|source: int|
                0 <= source < queries@.len() && !is_dense(#[trigger] queries@[source]) implies
                found.execution.source_exhausted@[source] || found.execution.source_pulls@[source]
                >= found.physical.sparse_probe_depth by {
                let _ = session@.fusion.histories[source];
                assert(found.execution.source_pulls@[source]
                    == session@.fusion.histories[source].len());
            }
        }
    }
    Ok(found)
}

/// Whether every sparse channel has ended or was read to a depth.
pub open spec fn probes_to(
    queries: Seq<ExactChannelQuery>,
    depth: usize,
    view: ProgressView,
) -> bool {
    forall|source: int|
        0 <= source < queries.len() && !is_dense(#[trigger] queries[source])
            ==> view.fusion.exhausted[source] || view.fusion.histories[source].len() >= depth
}

/// The depth to which a strategy probes.
pub open spec fn probe_depth_of(strategy: SparseStreamStrategy) -> usize {
    match strategy {
        SparseStreamStrategy::ProbeThenShared { batch_size, probe_depth } => probe_depth,
        _ => 0,
    }
}

/// A session over channels before its first step, where channels of a group share a stream.
pub open spec fn fresh_channels(
    groups: Seq<usize>,
    streams: nat,
    top_k: usize,
    rrf_k: usize,
    weights: Option<Seq<i64>>,
    policy: DynamicRrfPolicy,
) -> ChannelState {
    let count = groups.len();
    ChannelState {
        view: fresh_session(
            count as usize,
            1,
            top_k,
            rrf_k,
            weights,
            Seq::new(count, |i: int| UNIT_WEIGHT),
            policy,
        ),
        replays: Seq::new(
            streams,
            |group: int| unread(members_of_group(groups, group, count as int).len()),
        ),
        rests: Seq::new(count, |source: int| None::<Seq<ExtendedPointId>>),
        groups,
        readers: Seq::new(
            count,
            |source: int|
                members_of_group(groups, groups[source] as int, source).len() as usize,
        ),
    }
}

/// Whether the outcome of a search is that of a session over its channels, from its first
/// step on: what it returns, what its probe did, and what its streams and its channels
/// have done.
pub open spec fn traces_channels<
    'a,
    Q: Fn(&Vec<u32>) -> QuantizedVector,
    C: Fn(i64, &QuantizedVectorMetadata, &QuantizedVectorMetadata, usize) -> i64,
    K: ChannelKeys,
    R: Fn(&Vec<RemappedSparseVector>) -> Result<Vec<Vec<u32>>, String>,
    T: Fn() -> bool,
    A: Fn(i64, usize, usize, i64) -> i64,
    P: Fn(usize, usize, i64, usize, i64) -> i64,
>(
    index: DenseQuantizedIndex,
    dense: DenseChannels<Q, C, K>,
    queries: Seq<ExactChannelQuery>,
    top_k: usize,
    rrf_k: usize,
    weights: Option<Seq<i64>>,
    weight_bits: Option<Seq<u32>>,
    policy: DynamicRrfPolicy,
    dense_strategy: DenseStreamStrategy,
    decided: SparseDecision,
    shared_rankings: R,
    stopped: T,
    accumulate: A,
    priority: P,
    found: NChannelExactSearchResult,
) -> bool {
    exists|groups: Seq<usize>, representatives: Seq<usize>, run: ChannelRun, after: ChannelState|
        {
            &&& groups.len() == queries.len()
            &&& #[trigger] (Sharing {
                queries,
                weights: weight_bits,
                dense: dense_strategy is ReplayIdentical,
                sparse: replays_sparse(decided.strategy),
            }).is_grouping(groups, representatives)
            &&& #[trigger] probes_channels(
                fresh_channels(groups, representatives.len(), top_k, rrf_k, weights, policy),
                queries,
                decided,
                shared_rankings,
                stopped,
                accumulate,
                priority,
                Ok(run),
                after,
            )
            &&& found.execution == run.execution
            &&& found.physical.sparse_probe_selected_shared == run.probe_selected_shared
            &&& found.physical.sparse_prefix_identities_replayed == run.prefix_replayed
            &&& after.replays.len() == representatives.len()
            &&& found.channels@.len() == queries.len()
            &&& forall|channel: int|
                0 <= channel < queries.len() ==> reports_channel(
                    index,
                    dense,
                    queries[channel],
                    channel as usize,
                    decided.strategy,
                    members_of_group(groups, groups[channel] as int, channel).len() == 0,
                    after.replays[groups[channel] as int],
                    #[trigger] found.channels@[channel],
                )
            &&& (
                found.physical.shared_rank_stream_groups,
                found.physical.physical_rank_pulls,
                found.physical.rank_replay_buffered_identities,
            ) == tally(
                group_members(groups, representatives.len()),
                Seq::new(
                    after.replays.len(),
                    |group: int| after.replays[group].produced.len() as usize,
                ),
                Seq::new(
                    after.replays.len(),
                    |group: int| replay_telemetry(after.replays[group]).peak_buffered_identities,
                ),
                found.execution.source_pulls@,
                representatives.len() as int,
            )
        }
}

/// What the telemetry of a search says of the streams beneath its channels, where `pulls`
/// and `peaks` are the identities and the largest buffers of the groups. A group has
/// pulled as many identities as the channel of it that was pulled most; once the shared
/// evaluation took over, it may have pulled fewer.
pub open spec fn describes_streams(
    groups: Seq<usize>,
    representatives: Seq<usize>,
    pulls: Seq<usize>,
    peaks: Seq<usize>,
    found: NChannelExactSearchResult,
) -> bool {
    let count = representatives.len();
    let source_pulls = found.execution.source_pulls@;
    let lengths = Seq::new(source_pulls.len(), |source: int| source_pulls[source] as nat);
    &&& pulls.len() == count
    &&& peaks.len() == count
    &&& found.physical.physical_rank_streams == count
    &&& (
        found.physical.shared_rank_stream_groups,
        found.physical.physical_rank_pulls,
        found.physical.rank_replay_buffered_identities,
    ) == tally(group_members(groups, count), pulls, peaks, source_pulls, count as int)
    &&& forall|group: int|
        0 <= group < count ==> {
            &&& leads_group(groups, #[trigger] pulls[group] as nat, lengths, group)
            &&& !found.physical.sparse_probe_selected_shared ==> ends_group(
                groups,
                pulls[group] as nat,
                lengths,
                group,
            )
        }
}

/// What the telemetry of a search says of its channels and of what was decided.
pub open spec fn describes(
    queries: Seq<ExactChannelQuery>,
    weight_bits: Option<Seq<u32>>,
    dense_strategy: DenseStreamStrategy,
    decided: SparseDecision,
    document_count: usize,
    found: NChannelExactSearchResult,
) -> bool {
    let physical = found.physical;
    let pulls = found.execution.source_pulls@;
    let count = queries.len() as int;
    &&& physical.logical_rank_streams == count
    &&& pulls.len() == count
    &&& physical.logical_rank_pulls == sum_of(pulls, count)
    &&& exists|
        groups: Seq<usize>,
        representatives: Seq<usize>,
        group_pulls: Seq<usize>,
        peaks: Seq<usize>,
    |
        {
            &&& groups.len() == count
            &&& #[trigger] (Sharing {
                queries,
                weights: weight_bits,
                dense: dense_strategy is ReplayIdentical,
                sparse: replays_sparse(decided.strategy),
            }).is_grouping(groups, representatives)
            &&& #[trigger] describes_streams(groups, representatives, group_pulls, peaks, found)
        }
    &&& physical.dense_channels == flagged_dense(queries, Seq::new(queries.len(), |i: int| true), count)
    &&& exists|flags: Seq<bool>|
        {
            &&& #[trigger] are_dense_flags(queries, weight_bits, dense_strategy, flags)
            &&& physical.dense_physical_channels == flagged_dense(queries, flags, count)
        }
    &&& physical.dense_document_major_passes == passes_for(
        physical.dense_physical_channels,
        dense_strategy,
    )
    &&& physical.dense_document_rows_traversed == product(
        document_count,
        physical.dense_document_major_passes,
    )
    &&& physical.dense_logical_dot_products == product(document_count, physical.dense_channels)
    &&& physical.dense_physical_dot_products == product(
        document_count,
        physical.dense_physical_channels,
    )
    &&& physical.sparse_auto_requested == decided.auto_requested
    &&& physical.sparse_auto_selected_shared == decided.auto_selected_shared
    &&& physical.sparse_estimated_unique_posting_elements
        == decided.estimate.unique_posting_elements
    &&& physical.sparse_estimated_logical_posting_elements
        == decided.estimate.logical_posting_elements
    &&& physical.sparse_estimated_deduplicated_posting_elements
        == decided.estimated_deduplicated_posting_elements
    &&& physical.sparse_probe_then_shared_requested == decided.probe_then_shared_requested
    &&& physical.sparse_probe_depth == probe_depth_of(decided.strategy)
    &&& physical.sparse_probe_selected_shared ==> {
        &&& decided.strategy is ProbeThenShared
        &&& decided.estimate.unique_posting_elements < decided.estimate.logical_posting_elements
        &&& forall|source: int|
            0 <= source < count && !is_dense(#[trigger] queries[source])
                ==> found.execution.source_exhausted@[source] || pulls[source]
                >= physical.sparse_probe_depth
    }
    &&& !physical.sparse_probe_selected_shared ==> physical.sparse_prefix_identities_replayed == 0
}

/// Whether flags name the dense channels that are searched: those that represent
/// their group where identical queries are replayed, and otherwise all.
pub open spec fn are_dense_flags(
    queries: Seq<ExactChannelQuery>,
    weight_bits: Option<Seq<u32>>,
    dense_strategy: DenseStreamStrategy,
    flags: Seq<bool>,
) -> bool {
    &&& flags.len() == queries.len()
    &&& if dense_strategy is ReplayIdentical {
        exists|groups: Seq<usize>, representatives: Seq<usize>|
            {
                &&& groups.len() == queries.len()
                &&& #[trigger] (Sharing {
                    queries,
                    weights: weight_bits,
                    dense: true,
                    sparse: false,
                }).is_grouping(groups, representatives)
                &&& forall|source: int|
                    0 <= source < queries.len() ==> #[trigger] flags[source] == (
                    representatives[groups[source] as int] == source)
            }
    } else {
        forall|source: int| 0 <= source < queries.len() ==> #[trigger] flags[source]
    }
}

/// Sources of representatives that lead to the rankings of their channels make a bank
/// that does.
proof fn lemma_bank_leads<S: ExactRrfStream>(
    queries: Seq<ExactChannelQuery>,
    weights: Option<Seq<u32>>,
    dense_strategy: DenseStreamStrategy,
    replay_sparse: bool,
    flags: Seq<bool>,
    sources: Seq<S>,
    bank: RankBank<S>,
    rankings: Seq<Seq<ExtendedPointId>>,
    failures: Seq<Option<OperationError>>,
)
    requires
        are_counted(rankings),
        respects_queries(queries, rankings),
        respects_failures(queries, failures),
        sources.len() == queries.len(),
        bank.count() == queries.len(),
        bank.groups().len() == queries.len(),
        are_dense_flags(queries, weights, dense_strategy, flags),
        sources_lead(flags, sources, rankings, failures),
        exists|representatives: Seq<usize>|
            {
                &&& #[trigger] (Sharing {
                    queries,
                    weights,
                    dense: dense_strategy is ReplayIdentical,
                    sparse: replay_sparse,
                }).is_grouping(bank.groups(), representatives)
                &&& leads_representatives(sources, bank, representatives)
            },
    ensures
        bank_leads(bank, rankings, failures),
{
    let replay_dense = dense_strategy is ReplayIdentical;
    let sharing = Sharing { queries, weights, dense: replay_dense, sparse: replay_sparse };
    let groups = bank.groups();
    let representatives = choose|representatives: Seq<usize>|
        {
            &&& #[trigger] sharing.is_grouping(groups, representatives)
            &&& leads_representatives(sources, bank, representatives)
        };
    assert forall|source: int| 0 <= source < sources.len() implies {
        let stream = sources[representatives[groups[source] as int] as int];
        &&& leads_from_start(
            stream.rest(),
            stream.failing(),
            #[trigger] rankings[source],
            failures[source],
        )
        &&& rankings[source].len() <= usize::MAX
    } by {
        let group = groups[source] as int;
        let first = representatives[group] as int;
        assert(groups[first] == group);
        assert(rankings[first] == rankings[source] && failures[first] == failures[source]) by {
            if first != source {
                assert(sharing.can_use(source, first));
                lemma_same_content(queries[source], queries[first]);
            }
        }
        assert(flags[first]) by {
            if replay_dense {
                let partial = Sharing { queries, weights, dense: true, sparse: false };
                let (dense_groups, dense_reps) = choose|
                    dense_groups: Seq<usize>,
                    dense_reps: Seq<usize>,
                |
                    {
                        &&& dense_groups.len() == queries.len()
                        &&& #[trigger] partial.is_grouping(dense_groups, dense_reps)
                        &&& forall|source: int|
                            0 <= source < queries.len() ==> #[trigger] flags[source] == (
                            dense_reps[dense_groups[source] as int] == source)
                    };
                if is_dense(queries[first]) {
                    lemma_dense_representative(
                        queries,
                        weights,
                        replay_sparse,
                        groups,
                        representatives,
                        dense_groups,
                        dense_reps,
                        first,
                    );
                } else {
                    let other = dense_reps[dense_groups[first] as int] as int;
                    if other != first {
                        assert(partial.can_use(first, other));
                    }
                }
            }
        }
    }
    assert(representatives_lead(sources, groups, representatives, rankings, failures));
}

/// Whether a bank leads wherever its representatives do.
spec fn leads_representatives<S: ExactRrfStream>(
    sources: Seq<S>,
    bank: RankBank<S>,
    representatives: Seq<usize>,
) -> bool {
    forall|rankings: Seq<Seq<ExtendedPointId>>, failures: Seq<Option<OperationError>>| #[trigger]
        representatives_lead(sources, bank.groups(), representatives, rankings, failures)
            ==> forall|source: int|
            0 <= source < rankings.len() ==> bank.source_leads(
                source,
                #[trigger] rankings[source],
                failures[source],
            )
}

/// What a search over the dense documents of an index returns: that it was stopped, what is
/// wrong with the request, the failure of an estimate, or the fusion of its channels with
/// what its telemetry says of them.
pub open spec fn searches<
    S: ExactRrfStream,
    O: Fn(usize, SparseStreamStrategy) -> Result<S, NChannelExactError>,
    E: Fn(&Vec<RemappedSparseVector>) -> Result<SparseCostEstimate, String>,
    D: Fn(&Vec<RemappedSparseVector>, &Vec<RemappedSparseVector>) -> Result<
        (SparseCostEstimate, SparseCostEstimate),
        String,
    >,
    R: Fn(&Vec<RemappedSparseVector>) -> Result<Vec<Vec<u32>>, String>,
    Q: Fn(&Vec<u32>) -> QuantizedVector,
    C: Fn(i64, &QuantizedVectorMetadata, &QuantizedVectorMetadata, usize) -> i64,
    K: ChannelKeys,
    T: Fn() -> bool,
    A: Fn(i64, usize, usize, i64) -> i64,
    P: Fn(usize, usize, i64, usize, i64) -> i64,
>(
    index: DenseQuantizedIndex,
    queries: Seq<ExactChannelQuery>,
    top_k: usize,
    rrf_k: usize,
    weights: Option<Seq<i64>>,
    weight_bits: Option<Seq<u32>>,
    policy: DynamicRrfPolicy,
    dense_strategy: DenseStreamStrategy,
    strategy: SparseStreamStrategy,
    access: ChannelAccess<O, E, D, R, Q, C, K, T>,
    accumulate: A,
    priority: P,
    result: Result<NChannelExactSearchResult, NChannelExactError>,
) -> bool {
    &&& result is Ok ==> access.stopped.ensures((), false)
    &&& always_stops(access.stopped) ==> is_cancelled(access.stopped, result)
    &&& is_cancelled(access.stopped, result) || if queries.len() == 0 {
        result == Err::<NChannelExactSearchResult, NChannelExactError>(
            NChannelExactError::EmptyChannels,
        )
    } else {
        exists|resolved: Result<SparseDecision, NChannelExactError>|
            {
                &&& #[trigger] resolves(
                    queries,
                    weight_bits,
                    strategy,
                    access.estimate,
                    access.estimate_pair,
                    resolved,
                )
                &&& match resolved {
                    Err(error) => result == Err::<NChannelExactSearchResult, NChannelExactError>(
                        error,
                    ),
                    Ok(decided) => {
                        &&& fuses_channels::<S, O, E, D, R, Q, C, K, T, A>(
                            index,
                            queries,
                            top_k,
                            rrf_k,
                            weights,
                            weight_bits,
                            policy,
                            dense_strategy,
                            decided.strategy,
                            access,
                            accumulate,
                            result,
                        )
                        &&& result matches Ok(found) ==> describes(
                            queries,
                            weight_bits,
                            dense_strategy,
                            decided,
                            index.documents().len() as usize,
                            found,
                        ) && traces_channels(
                            index,
                            access.dense,
                            queries,
                            top_k,
                            rrf_k,
                            weights,
                            weight_bits,
                            policy,
                            dense_strategy,
                            decided,
                            access.shared_rankings,
                            access.stopped,
                            accumulate,
                            priority,
                            found,
                        )
                    },
                }
            }
    }
}

/// The dense documents of an index over channels, and how many identities it spans.
#[derive(Debug)]
pub struct NChannelExactIndex {
    dense: DenseQuantizedIndex,
    point_capacity: u64,
}

impl NChannelExactIndex {
    /// The dense documents.
    pub closed spec fn dense(&self) -> DenseQuantizedIndex {
        self.dense
    }

    /// One more than the largest identity.
    pub closed spec fn capacity(&self) -> u64 {
        self.point_capacity
    }

    /// An index over dense documents and sparse documents with the same identities.
    pub fn build<Q: Fn(&Vec<u32>) -> QuantizedVector>(
        dense_documents: Vec<DenseDocument>,
        sparse_ids: &Vec<u32>,
        quantize: &Q,
    ) -> (result: Result<NChannelExactIndex, NChannelExactError>)
        requires
            quantizes(*quantize),
        ensures
            !same_identities(document_ids(dense_documents@), sparse_ids@) ==> result == Err::<
                NChannelExactIndex,
                NChannelExactError,
            >(NChannelExactError::IdentityUniverseMismatch),
            same_identities(document_ids(dense_documents@), sparse_ids@) ==> match documents_fault(
                dense_documents@,
            ) {
                Some(fault) => result == Err::<NChannelExactIndex, NChannelExactError>(
                    NChannelExactError::Dense(quantized_error(fault)),
                ),
                None => {
                    &&& result matches Ok(index)
                    &&& is_sorted_copy(index.dense().documents(), dense_documents@)
                    &&& is_capacity(document_ids(dense_documents@), index.capacity())
                },
            },
    {
        let dense_ids = ids_of_documents(&dense_documents);
        if !hold_same_identities(&dense_ids, sparse_ids) {
            return Err(NChannelExactError::IdentityUniverseMismatch);
        }
        let point_capacity: u64 = point_capacity(&dense_ids);
        match DenseQuantizedIndex::build(dense_documents, quantize) {
            Ok(dense) => Ok(NChannelExactIndex { dense, point_capacity }),
            Err(error) => Err(NChannelExactError::Dense(error)),
        }
    }

    /// The number of documents.
    pub fn document_count(&self) -> (count: usize)
        ensures
            count == self.dense().documents().len(),
    {
        self.dense.document_count()
    }

    /// The dense documents.
    pub fn dense_index(&self) -> (dense: &DenseQuantizedIndex)
        ensures
            *dense == self.dense(),
    {
        &self.dense
    }

    /// Searches under the default policy and strategies.
    pub fn search<
        S: ExactRrfStream,
        O: Fn(usize, SparseStreamStrategy) -> Result<S, NChannelExactError>,
        E: Fn(&Vec<RemappedSparseVector>) -> Result<SparseCostEstimate, String>,
        D: Fn(&Vec<RemappedSparseVector>, &Vec<RemappedSparseVector>) -> Result<
            (SparseCostEstimate, SparseCostEstimate),
            String,
        >,
        R: Fn(&Vec<RemappedSparseVector>) -> Result<Vec<Vec<u32>>, String>,
        Q: Fn(&Vec<u32>) -> QuantizedVector,
        C: Fn(i64, &QuantizedVectorMetadata, &QuantizedVectorMetadata, usize) -> i64,
        K: ChannelKeys,
        T: Fn() -> bool,
        A: Fn(i64, usize, usize, i64) -> i64,
        P: Fn(usize, usize, i64, usize, i64) -> i64,
    >(
        &self,
        queries: &Vec<ExactChannelQuery>,
        top_k: usize,
        rrf_k: usize,
        weights: Option<&Vec<i64>>,
        weight_bits: Option<&Vec<u32>>,
        access: &ChannelAccess<O, E, D, R, Q, C, K, T>,
        accumulate: &A,
        priority: &P,
    ) -> (result: Result<NChannelExactSearchResult, NChannelExactError>)
        requires
            fits_products(self.dense().dims() as int),
            answers::<S, O, E, D, R, Q, C, K, T>(*access),
            accepts(*accumulate),
            accepts_priority(*priority),
        ensures
            searches::<S, O, E, D, R, Q, C, K, T, A, P>(
                self.dense(),
                queries@,
                top_k,
                rrf_k,
                weights_view(weights),
                bits_view(weight_bits),
                default_policy(),
                DenseStreamStrategy::ReplayIdentical,
                default_sparse_strategy(),
                *access,
                *accumulate,
                *priority,
                result,
            ),
    {
        self.search_with_policy(
            queries,
            top_k,
            rrf_k,
            weights,
            weight_bits,
            DynamicRrfPolicy::default(),
            access,
            accumulate,
            priority,
        )
    }

    /// Searches under the default strategies.
    pub fn search_with_policy<
        S: ExactRrfStream,
        O: Fn(usize, SparseStreamStrategy) -> Result<S, NChannelExactError>,
        E: Fn(&Vec<RemappedSparseVector>) -> Result<SparseCostEstimate, String>,
        D: Fn(&Vec<RemappedSparseVector>, &Vec<RemappedSparseVector>) -> Result<
            (SparseCostEstimate, SparseCostEstimate),
            String,
        >,
        R: Fn(&Vec<RemappedSparseVector>) -> Result<Vec<Vec<u32>>, String>,
        Q: Fn(&Vec<u32>) -> QuantizedVector,
        C: Fn(i64, &QuantizedVectorMetadata, &QuantizedVectorMetadata, usize) -> i64,
        K: ChannelKeys,
        T: Fn() -> bool,
        A: Fn(i64, usize, usize, i64) -> i64,
        P: Fn(usize, usize, i64, usize, i64) -> i64,
    >(
        &self,
        queries: &Vec<ExactChannelQuery>,
        top_k: usize,
        rrf_k: usize,
        weights: Option<&Vec<i64>>,
        weight_bits: Option<&Vec<u32>>,
        policy: DynamicRrfPolicy,
        access: &ChannelAccess<O, E, D, R, Q, C, K, T>,
        accumulate: &A,
        priority: &P,
    ) -> (result: Result<NChannelExactSearchResult, NChannelExactError>)
        requires
            fits_products(self.dense().dims() as int),
            answers::<S, O, E, D, R, Q, C, K, T>(*access),
            accepts(*accumulate),
            accepts_priority(*priority),
        ensures
            searches::<S, O, E, D, R, Q, C, K, T, A, P>(
                self.dense(),
                queries@,
                top_k,
                rrf_k,
                weights_view(weights),
                bits_view(weight_bits),
                policy,
                DenseStreamStrategy::ReplayIdentical,
                default_sparse_strategy(),
                *access,
                *accumulate,
                *priority,
                result,
            ),
    {
        self.search_with_sparse_strategy(
            queries,
            top_k,
            rrf_k,
            weights,
            weight_bits,
            policy,
            SparseStreamStrategy::default(),
            access,
            accumulate,
            priority,
        )
    }

    /// Searches with identical dense queries replayed.
    pub fn search_with_sparse_strategy<
        S: ExactRrfStream,
        O: Fn(usize, SparseStreamStrategy) -> Result<S, NChannelExactError>,
        E: Fn(&Vec<RemappedSparseVector>) -> Result<SparseCostEstimate, String>,
        D: Fn(&Vec<RemappedSparseVector>, &Vec<RemappedSparseVector>) -> Result<
            (SparseCostEstimate, SparseCostEstimate),
            String,
        >,
        R: Fn(&Vec<RemappedSparseVector>) -> Result<Vec<Vec<u32>>, String>,
        Q: Fn(&Vec<u32>) -> QuantizedVector,
        C: Fn(i64, &QuantizedVectorMetadata, &QuantizedVectorMetadata, usize) -> i64,
        K: ChannelKeys,
        T: Fn() -> bool,
        A: Fn(i64, usize, usize, i64) -> i64,
        P: Fn(usize, usize, i64, usize, i64) -> i64,
    >(
        &self,
        queries: &Vec<ExactChannelQuery>,
        top_k: usize,
        rrf_k: usize,
        weights: Option<&Vec<i64>>,
        weight_bits: Option<&Vec<u32>>,
        policy: DynamicRrfPolicy,
        sparse_strategy: SparseStreamStrategy,
        access: &ChannelAccess<O, E, D, R, Q, C, K, T>,
        accumulate: &A,
        priority: &P,
    ) -> (result: Result<NChannelExactSearchResult, NChannelExactError>)
        requires
            fits_products(self.dense().dims() as int),
            answers::<S, O, E, D, R, Q, C, K, T>(*access),
            accepts(*accumulate),
            accepts_priority(*priority),
        ensures
            searches::<S, O, E, D, R, Q, C, K, T, A, P>(
                self.dense(),
                queries@,
                top_k,
                rrf_k,
                weights_view(weights),
                bits_view(weight_bits),
                policy,
                DenseStreamStrategy::ReplayIdentical,
                sparse_strategy,
                *access,
                *accumulate,
                *priority,
                result,
            ),
    {
        self.search_with_strategies_and_cancellation(
            queries,
            top_k,
            rrf_k,
            weights,
            weight_bits,
            policy,
            DenseStreamStrategy::ReplayIdentical,
            sparse_strategy,
            access,
            accumulate,
            priority,
        )
    }

    /// Searches with given strategies for both kinds of channels.
    pub fn search_with_strategies<
        S: ExactRrfStream,
        O: Fn(usize, SparseStreamStrategy) -> Result<S, NChannelExactError>,
        E: Fn(&Vec<RemappedSparseVector>) -> Result<SparseCostEstimate, String>,
        D: Fn(&Vec<RemappedSparseVector>, &Vec<RemappedSparseVector>) -> Result<
            (SparseCostEstimate, SparseCostEstimate),
            String,
        >,
        R: Fn(&Vec<RemappedSparseVector>) -> Result<Vec<Vec<u32>>, String>,
        Q: Fn(&Vec<u32>) -> QuantizedVector,
        C: Fn(i64, &QuantizedVectorMetadata, &QuantizedVectorMetadata, usize) -> i64,
        K: ChannelKeys,
        T: Fn() -> bool,
        A: Fn(i64, usize, usize, i64) -> i64,
        P: Fn(usize, usize, i64, usize, i64) -> i64,
    >(
        &self,
        queries: &Vec<ExactChannelQuery>,
        top_k: usize,
        rrf_k: usize,
        weights: Option<&Vec<i64>>,
        weight_bits: Option<&Vec<u32>>,
        policy: DynamicRrfPolicy,
        dense_strategy: DenseStreamStrategy,
        sparse_strategy: SparseStreamStrategy,
        access: &ChannelAccess<O, E, D, R, Q, C, K, T>,
        accumulate: &A,
        priority: &P,
    ) -> (result: Result<NChannelExactSearchResult, NChannelExactError>)
        requires
            fits_products(self.dense().dims() as int),
            answers::<S, O, E, D, R, Q, C, K, T>(*access),
            accepts(*accumulate),
            accepts_priority(*priority),
        ensures
            searches::<S, O, E, D, R, Q, C, K, T, A, P>(
                self.dense(),
                queries@,
                top_k,
                rrf_k,
                weights_view(weights),
                bits_view(weight_bits),
                policy,
                dense_strategy,
                sparse_strategy,
                *access,
                *accumulate,
                *priority,
                result,
            ),
    {
        self.search_with_strategies_and_cancellation(
            queries,
            top_k,
            rrf_k,
            weights,
            weight_bits,
            policy,
            dense_strategy,
            sparse_strategy,
            access,
            accumulate,
            priority,
        )
    }

    /// Searches with a given strategy for sparse channels until it is stopped.
    pub fn search_with_sparse_strategy_and_cancellation<
        S: ExactRrfStream,
        O: Fn(usize, SparseStreamStrategy) -> Result<S, NChannelExactError>,
        E: Fn(&Vec<RemappedSparseVector>) -> Result<SparseCostEstimate, String>,
        D: Fn(&Vec<RemappedSparseVector>, &Vec<RemappedSparseVector>) -> Result<
            (SparseCostEstimate, SparseCostEstimate),
            String,
        >,
        R: Fn(&Vec<RemappedSparseVector>) -> Result<Vec<Vec<u32>>, String>,
        Q: Fn(&Vec<u32>) -> QuantizedVector,
        C: Fn(i64, &QuantizedVectorMetadata, &QuantizedVectorMetadata, usize) -> i64,
        K: ChannelKeys,
        T: Fn() -> bool,
        A: Fn(i64, usize, usize, i64) -> i64,
        P: Fn(usize, usize, i64, usize, i64) -> i64,
    >(
        &self,
        queries: &Vec<ExactChannelQuery>,
        top_k: usize,
        rrf_k: usize,
        weights: Option<&Vec<i64>>,
        weight_bits: Option<&Vec<u32>>,
        policy: DynamicRrfPolicy,
        sparse_strategy: SparseStreamStrategy,
        access: &ChannelAccess<O, E, D, R, Q, C, K, T>,
        accumulate: &A,
        priority: &P,
    ) -> (result: Result<NChannelExactSearchResult, NChannelExactError>)
        requires
            fits_products(self.dense().dims() as int),
            answers::<S, O, E, D, R, Q, C, K, T>(*access),
            accepts(*accumulate),
            accepts_priority(*priority),
        ensures
            searches::<S, O, E, D, R, Q, C, K, T, A, P>(
                self.dense(),
                queries@,
                top_k,
                rrf_k,
                weights_view(weights),
                bits_view(weight_bits),
                policy,
                DenseStreamStrategy::ReplayIdentical,
                sparse_strategy,
                *access,
                *accumulate,
                *priority,
                result,
            ),
    {
        self.search_with_strategies_and_cancellation(
            queries,
            top_k,
            rrf_k,
            weights,
            weight_bits,
            policy,
            DenseStreamStrategy::ReplayIdentical,
            sparse_strategy,
            access,
            accumulate,
            priority,
        )
    }

    /// Searches until the Top-K is fixed. A search that is stopped returns nothing of
    /// what it has found.
    pub fn search_with_strategies_and_cancellation<
        S: ExactRrfStream,
        O: Fn(usize, SparseStreamStrategy) -> Result<S, NChannelExactError>,
        E: Fn(&Vec<RemappedSparseVector>) -> Result<SparseCostEstimate, String>,
        D: Fn(&Vec<RemappedSparseVector>, &Vec<RemappedSparseVector>) -> Result<
            (SparseCostEstimate, SparseCostEstimate),
            String,
        >,
        R: Fn(&Vec<RemappedSparseVector>) -> Result<Vec<Vec<u32>>, String>,
        Q: Fn(&Vec<u32>) -> QuantizedVector,
        C: Fn(i64, &QuantizedVectorMetadata, &QuantizedVectorMetadata, usize) -> i64,
        K: ChannelKeys,
        T: Fn() -> bool,
        A: Fn(i64, usize, usize, i64) -> i64,
        P: Fn(usize, usize, i64, usize, i64) -> i64,
    >(
        &self,
        queries: &Vec<ExactChannelQuery>,
        top_k: usize,
        rrf_k: usize,
        weights: Option<&Vec<i64>>,
        weight_bits: Option<&Vec<u32>>,
        policy: DynamicRrfPolicy,
        dense_strategy: DenseStreamStrategy,
        sparse_strategy: SparseStreamStrategy,
        access: &ChannelAccess<O, E, D, R, Q, C, K, T>,
        accumulate: &A,
        priority: &P,
    ) -> (result: Result<NChannelExactSearchResult, NChannelExactError>)
        requires
            fits_products(self.dense().dims() as int),
            answers::<S, O, E, D, R, Q, C, K, T>(*access),
            accepts(*accumulate),
            accepts_priority(*priority),
        ensures
            searches::<S, O, E, D, R, Q, C, K, T, A, P>(
                self.dense(),
                queries@,
                top_k,
                rrf_k,
                weights_view(weights),
                bits_view(weight_bits),
                policy,
                dense_strategy,
                sparse_strategy,
                *access,
                *accumulate,
                *priority,
                result,
            ),
    {
        let stopped = &access.stopped;
        if stopped() {
            return Err(NChannelExactError::Cancelled);
        }
        if queries.len() == 0 {
            return Err(NChannelExactError::EmptyChannels);
        }
        let decided = match resolve_sparse(
            queries,
            weight_bits,
            sparse_strategy,
            &access.estimate,
            &access.estimate_pair,
        ) {
            Ok(decided) => decided,
            Err(error) => {
                return Err(error);
            },
        };
        assert(resolves(
            queries@,
            bits_view(weight_bits),
            sparse_strategy,
            access.estimate,
            access.estimate_pair,
            Ok(decided),
        ));
        if stopped() {
            return Err(NChannelExactError::Cancelled);
        }
        fuse_channels::<S, O, E, D, R, Q, C, K, T, A, P>(
            &self.dense,
            queries,
            top_k,
            rrf_k,
            weights,
            weight_bits,
            policy,
            dense_strategy,
            decided,
            access,
            accumulate,
            priority,
        )
    }
}

/// Places before a number are finitely many.
pub proof fn lemma_points_finite(count: nat, points: Set<int>)
    requires
        forall|point: int| #[trigger] points.contains(point) ==> 0 <= point < count,
    ensures
        points.finite(),
{
    let all = vstd::set_lib::set_int_range(0, count as int);
    vstd::set_lib::lemma_int_range(0, count as int);
    assert(points.subset_of(all));
    vstd::set_lib::lemma_len_subset(points, all);
}

/// Whether a search is stopped before it starts.
pub open spec fn always_stops<T: Fn() -> bool>(stopped: T) -> bool {
    forall|answer: bool| #[trigger] stopped.ensures((), answer) ==> answer
}

} // verus!
