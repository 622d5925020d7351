//! The streams of the channels of a search: dense ones over the documents of an index,
//! and sparse ones that are supplied.

use crate::dense_quantized::{
    bounds_by, combines, fits_products, is_query, quantizes, within, DenseQuantizedError,
    DenseQuantizedIndex, QuantizedVector, QuantizedVectorMetadata,
};
use crate::frontier::{
    exact_order, ids_of, scores_exactly, CertifiedStream, KeySource, KeyTable,
};
use crate::hybrid_exact::all_points;
use crate::n_channel_exact::{DenseStreamStrategy, NChannelExactError, SparseStreamStrategy};
use crate::n_channel_rank_sharing::{is_dense, ExactChannelQuery};
use crate::operation_error::{OperationError, OperationResult};
use crate::order::ExtendedPointId;
use crate::reciprocal_rank_fusion::session::reaches;
use crate::reciprocal_rank_fusion::types::ExactRrfStream;
use crate::tables::copied;
use vstd::prelude::*;

verus! {

/// The arithmetic of dense channels: how a query is quantized, how a product of codes
/// bounds a score, and the exact score of a document under the query of a channel.
pub struct DenseChannels<Q, C, K> {
    pub quantize: Q,
    pub combine: C,
    pub score: K,
}

impl<
    Q: Fn(&Vec<u32>) -> QuantizedVector,
    C: Fn(i64, &QuantizedVectorMetadata, &QuantizedVectorMetadata, usize) -> i64,
    K: ChannelKeys,
> DenseChannels<Q, C, K> {
    /// Whether everything can be asked.
    pub open spec fn answers(self) -> bool {
        &&& quantizes(self.quantize)
        &&& combines(self.combine)
        &&& self.score.answers()
    }
}

/// The exact scores of documents under the queries of channels.
pub trait ChannelKeys: Sized {
    /// Whether every document can be scored under every channel.
    spec fn answers(&self) -> bool;

    /// Whether a document can have a score under a channel.
    spec fn gives(&self, channel: usize, place: usize, key: i64) -> bool;

    /// The score of a document under a channel.
    fn key_of(&self, channel: usize, place: usize) -> (key: i64)
        requires
            self.answers(),
        ensures
            self.gives(channel, place, key),
    ;
}

impl<F: Fn(usize, usize) -> i64> ChannelKeys for F {
    open spec fn answers(&self) -> bool {
        forall|channel: usize, place: usize| #[trigger] self.requires((channel, place))
    }

    open spec fn gives(&self, channel: usize, place: usize, key: i64) -> bool {
        self.ensures((channel, place), key)
    }

    fn key_of(&self, channel: usize, place: usize) -> (key: i64) {
        self(channel, place)
    }
}

/// Scores that were computed beforehand, channel by channel. What is not there is zero.
pub struct ScoreTables {
    pub keys: Vec<Vec<i64>>,
}

impl ScoreTables {
    /// The score of a document under a channel.
    pub open spec fn at(&self, channel: usize, place: usize) -> i64 {
        if channel < self.keys@.len() && place < self.keys@[channel as int]@.len() {
            self.keys@[channel as int]@[place as int]
        } else {
            0
        }
    }
}

impl ChannelKeys for ScoreTables {
    open spec fn answers(&self) -> bool {
        true
    }

    open spec fn gives(&self, channel: usize, place: usize, key: i64) -> bool {
        key == self.at(channel, place)
    }

    fn key_of(&self, channel: usize, place: usize) -> (key: i64) {
        if channel < self.keys.len() && place < self.keys[channel].len() {
            self.keys[channel][place]
        } else {
            0
        }
    }
}

/// Tables give the scores that they hold, and no others.
pub proof fn law_tables_score_exactly<'a>(
    tables: &'a ScoreTables,
    channel: usize,
    count: nat,
    scores: spec_fn(int) -> Option<i64>,
)
    requires
        count <= usize::MAX,
        forall|place: int|
            0 <= place < count ==> #[trigger] scores(place) == Some(
                tables.at(channel, place as usize),
            ),
    ensures
        scores_exactly(ChannelScores { score: tables, channel }, count, scores),
{
}

/// The exact scores of the documents under the query of one channel.
pub struct ChannelScores<'a, K> {
    pub score: &'a K,
    pub channel: usize,
}

impl<'a, K: ChannelKeys> KeySource for ChannelScores<'a, K> {
    open spec fn defined(&self, place: int) -> bool {
        self.score.answers()
    }

    open spec fn gives(&self, place: int, key: i64) -> bool {
        self.score.gives(self.channel, place as usize, key)
    }

    fn key(&self, place: usize) -> (key: i64) {
        self.score.key_of(self.channel, place)
    }
}

/// The stream of a channel. A dense channel that another one represents is idle.
pub enum ChannelSource<'a, S, K: ChannelKeys> {
    Sparse(S),
    Dense(CertifiedStream<'a, KeyTable, ChannelScores<'a, K>>),
    Idle,
}

impl<'a, S: ExactRrfStream, K: ChannelKeys> ExactRrfStream for ChannelSource<
    'a,
    S,
    K,
> {
    open spec fn rest(&self) -> Option<Seq<ExtendedPointId>> {
        match self {
            ChannelSource::Sparse(stream) => stream.rest(),
            ChannelSource::Dense(stream) => ExactRrfStream::rest(stream),
            ChannelSource::Idle => Some(Seq::empty()),
        }
    }

    open spec fn failing(&self) -> Option<(Seq<ExtendedPointId>, OperationError)> {
        match self {
            ChannelSource::Sparse(stream) => stream.failing(),
            ChannelSource::Dense(stream) => ExactRrfStream::failing(stream),
            ChannelSource::Idle => None,
        }
    }

    open spec fn replies(
        &self,
        result: OperationResult<Option<ExtendedPointId>>,
        later: &Self,
    ) -> bool {
        match (self, later) {
            (ChannelSource::Sparse(stream), ChannelSource::Sparse(next)) => stream.replies(
                result,
                next,
            ),
            (ChannelSource::Dense(stream), ChannelSource::Dense(next)) => ExactRrfStream::replies(
                stream,
                result,
                next,
            ),
            (ChannelSource::Idle, ChannelSource::Idle) => true,
            _ => false,
        }
    }

    fn next(&mut self) -> (result: OperationResult<Option<ExtendedPointId>>) {
        match self {
            ChannelSource::Sparse(stream) => stream.next(),
            ChannelSource::Dense(stream) => ExactRrfStream::next(stream),
            ChannelSource::Idle => Ok(None),
        }
    }
}

/// The exact ranking of the documents of an index under scores.
pub open spec fn document_ranking(
    index: DenseQuantizedIndex,
    scores: spec_fn(int) -> Option<i64>,
) -> Seq<ExtendedPointId> {
    ids_of(index.tree(), exact_order(index.tree(), scores, all_points(index.tree().ids@.len())))
}

/// Whether bounds are those that the codes of a dense query give the documents.
pub open spec fn bounds_query<
    Q: Fn(&Vec<u32>) -> QuantizedVector,
    C: Fn(i64, &QuantizedVectorMetadata, &QuantizedVectorMetadata, usize) -> i64,
    K: ChannelKeys,
>(
    index: DenseQuantizedIndex,
    dense: DenseChannels<Q, C, K>,
    query: Seq<u32>,
    bounds: Seq<i64>,
) -> bool {
    exists|vector: Vec<u32>, prepared: QuantizedVector|
        {
            &&& vector@ == query
            &&& #[trigger] dense.quantize.ensures((&vector,), prepared)
            &&& bounds_by(index, dense.combine, prepared, bounds)
        }
}

/// Whether a stream has scored and yielded nothing yet, and yields the exact ranking of the documents
/// of an index under the query of a channel, wherever no score exceeds its bound.
pub open spec fn streams_channel<
    'a,
    Q: Fn(&Vec<u32>) -> QuantizedVector,
    C: Fn(i64, &QuantizedVectorMetadata, &QuantizedVectorMetadata, usize) -> i64,
    K: ChannelKeys,
>(
    index: DenseQuantizedIndex,
    dense: DenseChannels<Q, C, K>,
    query: Seq<u32>,
    channel: usize,
    stream: CertifiedStream<'a, KeyTable, ChannelScores<'a, K>>,
) -> bool {
    &&& stream.emitted() == 0
    &&& stream.scored() == Set::<int>::empty()
    &&& exists|bounds: Seq<i64>|
        {
            &&& #[trigger] bounds_query(index, dense, query, bounds)
            &&& forall|scores: spec_fn(int) -> Option<i64>| #[trigger]
                scores_exactly(
                    ChannelScores { score: &dense.score, channel },
                    index.tree().ids@.len(),
                    scores,
                ) && within(scores, bounds) ==> ExactRrfStream::rest(&stream) == Some(
                    document_ranking(index, scores),
                )
        }
}

/// Whether a ranking is the exact ranking of the documents of an index under the query of
/// a channel, and no bound that its codes can give is below a score.
pub open spec fn ranks_documents<
    Q: Fn(&Vec<u32>) -> QuantizedVector,
    C: Fn(i64, &QuantizedVectorMetadata, &QuantizedVectorMetadata, usize) -> i64,
    K: ChannelKeys,
>(
    index: DenseQuantizedIndex,
    dense: DenseChannels<Q, C, K>,
    query: Seq<u32>,
    channel: usize,
    ranking: Seq<ExtendedPointId>,
) -> bool {
    exists|scores: spec_fn(int) -> Option<i64>|
        {
            &&& #[trigger] scores_exactly(
                ChannelScores { score: &dense.score, channel },
                index.tree().ids@.len(),
                scores,
            )
            &&& forall|bounds: Seq<i64>| #[trigger]
                bounds_query(index, dense, query, bounds) ==> within(scores, bounds)
            &&& ranking == document_ranking(index, scores)
        }
}

/// A stream over the documents of an index yields the ranking of its channel.
pub proof fn lemma_streams_ranking<
    'a,
    Q: Fn(&Vec<u32>) -> QuantizedVector,
    C: Fn(i64, &QuantizedVectorMetadata, &QuantizedVectorMetadata, usize) -> i64,
    K: ChannelKeys,
>(
    index: DenseQuantizedIndex,
    dense: DenseChannels<Q, C, K>,
    query: Seq<u32>,
    channel: usize,
    stream: CertifiedStream<'a, KeyTable, ChannelScores<'a, K>>,
    ranking: Seq<ExtendedPointId>,
)
    requires
        streams_channel(index, dense, query, channel, stream),
        ranks_documents(index, dense, query, channel, ranking),
    ensures
        ExactRrfStream::rest(&stream) == Some(ranking),
{
}

/// Whether a dense query of a channel that is searched does not fit the documents.
pub open spec fn misfits(
    index: DenseQuantizedIndex,
    queries: Seq<ExactChannelQuery>,
    flags: Seq<bool>,
    channel: int,
) -> bool {
    &&& 0 <= channel < queries.len()
    &&& flags[channel]
    &&& queries[channel] matches ExactChannelQuery::Dense(query)
    &&& !is_query(query@, index.dims())
}

/// The leading dense channels that are searched.
pub open spec fn dense_places(
    queries: Seq<ExactChannelQuery>,
    flags: Seq<bool>,
    upto: int,
) -> Seq<int>
    decreases upto,
{
    if upto <= 0 {
        Seq::empty()
    } else if is_dense(queries[upto - 1]) && flags[upto - 1] {
        dense_places(queries, flags, upto - 1).push(upto - 1)
    } else {
        dense_places(queries, flags, upto - 1)
    }
}

/// The query of a dense channel.
pub open spec fn dense_query(query: ExactChannelQuery) -> Seq<u32> {
    match query {
        ExactChannelQuery::Dense(vector) => vector@,
        ExactChannelQuery::Sparse(_) => Seq::empty(),
    }
}

/// Whether streams are those of the leading dense channels that are searched.
pub open spec fn are_dense_streams<
    'a,
    Q: Fn(&Vec<u32>) -> QuantizedVector,
    C: Fn(i64, &QuantizedVectorMetadata, &QuantizedVectorMetadata, usize) -> i64,
    K: ChannelKeys,
>(
    index: DenseQuantizedIndex,
    dense: DenseChannels<Q, C, K>,
    queries: Seq<ExactChannelQuery>,
    flags: Seq<bool>,
    upto: int,
    streams: Seq<CertifiedStream<'a, KeyTable, ChannelScores<'a, K>>>,
) -> bool {
    let places = dense_places(queries, flags, upto);
    &&& streams.len() == places.len()
    &&& forall|i: int|
        0 <= i < streams.len() ==> streams_channel(
            index,
            dense,
            dense_query(queries[places[i]]),
            places[i] as usize,
            #[trigger] streams[i],
        )
}

/// Whether a vector and scores are those of a dense channel that is searched.
spec fn is_wanted<'a, K: ChannelKeys>(
    queries: Seq<ExactChannelQuery>,
    flags: Seq<bool>,
    score: &'a K,
    place: int,
    vector: Vec<u32>,
    scores: ChannelScores<'a, K>,
) -> bool {
    &&& 0 <= place < queries.len()
    &&& is_dense(queries[place])
    &&& flags[place]
    &&& vector@ == dense_query(queries[place])
    &&& scores == (ChannelScores { score, channel: place as usize })
}

/// Opens the streams of the dense channels, one after the other or document by document
/// for all of them.
fn open_dense<
    'a,
    Q: Fn(&Vec<u32>) -> QuantizedVector,
    C: Fn(i64, &QuantizedVectorMetadata, &QuantizedVectorMetadata, usize) -> i64,
    K: ChannelKeys,
>(
    index: &'a DenseQuantizedIndex,
    queries: &Vec<ExactChannelQuery>,
    flags: &Vec<bool>,
    strategy: DenseStreamStrategy,
    dense: &'a DenseChannels<Q, C, K>,
) -> (result: Result<
    Vec<CertifiedStream<'a, KeyTable, ChannelScores<'a, K>>>,
    NChannelExactError,
>)
    requires
        dense.answers(),
        fits_products(index.dims() as int),
        flags@.len() == queries@.len(),
    ensures
        match result {
            Ok(streams) => {
                &&& forall|channel: int| !#[trigger] misfits(*index, queries@, flags@, channel)
                &&& are_dense_streams(
                    *index,
                    *dense,
                    queries@,
                    flags@,
                    queries@.len() as int,
                    streams@,
                )
            },
            Err(error) => {
                &&& error == NChannelExactError::Dense(DenseQuantizedError::InvalidQuery)
                &&& exists|channel: int| #[trigger] misfits(*index, queries@, flags@, channel)
            },
        },
{
    let mut vectors: Vec<Vec<u32>> = Vec::new();
    let mut scores: Vec<ChannelScores<'a, K>> = Vec::new();
    let mut channel: usize = 0;
    while channel < queries.len()
        invariant
            channel <= queries@.len(),
            flags@.len() == queries@.len(),
            vectors@.len() == dense_places(queries@, flags@, channel as int).len(),
            scores@.len() == vectors@.len(),
            forall|i: int|
                0 <= i < vectors@.len() ==> is_wanted(
                    queries@,
                    flags@,
                    &dense.score,
                    dense_places(queries@, flags@, channel as int)[i],
                    #[trigger] vectors@[i],
                    scores@[i],
                ),
            forall|place: int|
                0 <= place < channel && is_dense(queries@[place]) && #[trigger] flags@[place]
                    ==> dense_places(queries@, flags@, channel as int).contains(place),
        decreases queries@.len() - channel,
    {
        let ghost before = dense_places(queries@, flags@, channel as int);
        let ghost following = dense_places(queries@, flags@, channel + 1);
        let ghost held = vectors@;
        let ghost kept = scores@;
        if flags[channel] {
            match &queries[channel] {
                ExactChannelQuery::Dense(query) => {
                    vectors.push(copied(query));
                    scores.push(ChannelScores { score: &dense.score, channel });
                },
                ExactChannelQuery::Sparse(_) => {},
            }
        }
        proof {
            assert forall|i: int| 0 <= i < vectors@.len() implies is_wanted(
                queries@,
                flags@,
                &dense.score,
                following[i],
                #[trigger] vectors@[i],
                scores@[i],
            ) by {
                if i < held.len() {
                    assert(vectors@[i] == held[i]);
                    assert(scores@[i] == kept[i]);
                    assert(following[i] == before[i]);
                }
            }
            assert forall|place: int|
                0 <= place < channel + 1 && is_dense(queries@[place])
                    && #[trigger] flags@[place] implies following.contains(place) by {
                if place < channel {
                    assert(before.contains(place));
                    let at = choose|at: int| 0 <= at < before.len() && before[at] == place;
                    assert(following[at] == place);
                } else {
                    assert(following[before.len() as int] == place);
                }
            }
        }
        channel += 1;
        assert(dense_places(queries@, flags@, channel as int) == following);
    }
    let ghost places = dense_places(queries@, flags@, queries@.len() as int);
    let ghost wanted = vectors@;
    let ghost asked = scores@;
    proof {
        assert forall|at: int| #[trigger] misfits(*index, queries@, flags@, at) implies exists|
            i: int,
        | 0 <= i < wanted.len() && !is_query((#[trigger] wanted[i])@, index.dims()) by {
            assert(flags@[at]);
            let i = choose|i: int| 0 <= i < places.len() && places[i] == at;
            assert(!is_query(wanted[i]@, index.dims()));
        }
        assert forall|i: int|
            0 <= i < wanted.len() && !is_query((#[trigger] wanted[i])@, index.dims()) implies misfits(
            *index,
            queries@,
            flags@,
            places[i],
        ) by {}
    }
    let mut streams: Vec<CertifiedStream<'a, KeyTable, ChannelScores<'a, K>>> = Vec::new();
    match strategy {
        DenseStreamStrategy::SharedDocumentMajor => {
            assert forall|query: int, point: int|
                0 <= query < scores@.len() && 0 <= point
                    < index.documents().len() implies #[trigger] scores@[query].defined(point) by {
                let _ = wanted[query];
                assert(wanted[query]@ == dense_query(queries@[places[query]]));
            }
            let opened = match index.streams_document_major(
                &vectors,
                &dense.quantize,
                &dense.combine,
                scores,
            ) {
                Ok(opened) => opened,
                Err(error) => {
                    return Err(NChannelExactError::Dense(error));
                },
            };
            let ghost all = opened@;
            let mut left = opened;
            assert(all.skip(0) =~= all);
            while left.len() > 0
                invariant
                    wanted.len() == places.len(),
                    vectors@ == wanted,
                    all.len() == wanted.len(),
                    streams@.len() + left@.len() == all.len(),
                    left@ == all.skip(streams@.len() as int),
                    asked.len() == wanted.len(),
                    forall|i: int|
                        0 <= i < wanted.len() ==> is_wanted(
                            queries@,
                            flags@,
                            &dense.score,
                            places[i],
                            #[trigger] wanted[i],
                            asked[i],
                        ),
                    forall|i: int|
                        0 <= i < wanted.len() ==> {
                            &&& (#[trigger] all[i]).is_fresh(*index)
                            &&& exists|prepared: QuantizedVector|
                                dense.quantize.ensures((&wanted[i],), prepared)
                                    && #[trigger] bounds_by(
                                    *index,
                                    dense.combine,
                                    prepared,
                                    all[i].bounds(),
                                )
                            &&& all[i].is_exact(asked[i])
                        },
                    forall|i: int|
                        0 <= i < streams@.len() ==> streams_channel(
                            *index,
                            *dense,
                            dense_query(queries@[places[i]]),
                            places[i] as usize,
                            #[trigger] streams@[i],
                        ),
                decreases left@.len(),
            {
                let ghost at = streams@.len() as int;
                let ghost before = left@;
                let stream = left.remove(0);
                let ghost opened = stream;
                assert(stream == all[at]);
                assert(before.remove(0) =~= all.skip(at + 1));
                streams.push(stream.into_identities());
                proof {
                    assert(wanted[at]@ == dense_query(queries@[places[at]]));
                    lemma_stream_of_channel(
                        *index,
                        *dense,
                        wanted[at],
                        places[at] as usize,
                        opened,
                    );
                }
            }
        },
        _ => {
            let mut i: usize = 0;
            let mut waiting = scores;
            assert(asked.skip(0) =~= asked);
            while i < vectors.len()
                invariant
                    i <= wanted.len(),
                    wanted.len() == places.len(),
                    dense.answers(),
                    fits_products(index.dims() as int),
                    vectors@ == wanted,
                    asked.len() == wanted.len(),
                    waiting@ == asked.skip(i as int),
                    streams@.len() == i,
                    forall|k: int|
                        0 <= k < wanted.len() ==> is_wanted(
                            queries@,
                            flags@,
                            &dense.score,
                            places[k],
                            #[trigger] wanted[k],
                            asked[k],
                        ),
                    forall|k: int|
                        0 <= k < wanted.len() && !is_query(
                            (#[trigger] wanted[k])@,
                            index.dims(),
                        ) ==> misfits(*index, queries@, flags@, places[k]),
                    forall|k: int| 0 <= k < i ==> is_query((#[trigger] wanted[k])@, index.dims()),
                    forall|k: int|
                        0 <= k < i ==> streams_channel(
                            *index,
                            *dense,
                            dense_query(queries@[places[k]]),
                            places[k] as usize,
                            #[trigger] streams@[k],
                        ),
                decreases wanted.len() - i,
            {
                let ghost before = waiting@;
                assert(wanted[i as int]@ == dense_query(queries@[places[i as int]]));
                let scorer = waiting.remove(0);
                assert(scorer == asked[i as int]);
                assert(before.remove(0) =~= asked.skip(i + 1));
                let stream = match index.stream(
                    &vectors[i],
                    &dense.quantize,
                    &dense.combine,
                    scorer,
                ) {
                    Ok(stream) => stream,
                    Err(error) => {
                        assert(misfits(*index, queries@, flags@, places[i as int]));
                        return Err(NChannelExactError::Dense(error));
                    },
                };
                let ghost opened = stream;
                streams.push(stream.into_identities());
                proof {
                    lemma_stream_of_channel(
                        *index,
                        *dense,
                        wanted[i as int],
                        places[i as int] as usize,
                        opened,
                    );
                }
                i += 1;
            }
        },
    }
    Ok(streams)
}

/// A stream that an index opened for a query is that of the channel.
proof fn lemma_stream_of_channel<
    'a,
    Q: Fn(&Vec<u32>) -> QuantizedVector,
    C: Fn(i64, &QuantizedVectorMetadata, &QuantizedVectorMetadata, usize) -> i64,
    K: ChannelKeys,
>(
    index: DenseQuantizedIndex,
    dense: DenseChannels<Q, C, K>,
    vector: Vec<u32>,
    channel: usize,
    stream: crate::dense_quantized::DenseQuantizedStream<'a, ChannelScores<'a, K>>,
)
    requires
        stream.is_fresh(index),
        stream.is_exact(ChannelScores { score: &dense.score, channel }),
        exists|prepared: QuantizedVector|
            dense.quantize.ensures((&vector,), prepared) && #[trigger] bounds_by(
                index,
                dense.combine,
                prepared,
                stream.bounds(),
            ),
    ensures
        streams_channel(index, dense, vector@, channel, stream.inner()),
{
    let prepared = choose|prepared: QuantizedVector|
        dense.quantize.ensures((&vector,), prepared) && #[trigger] bounds_by(
            index,
            dense.combine,
            prepared,
            stream.bounds(),
        );
    assert(dense.quantize.ensures((&vector,), prepared));
    assert(bounds_query(index, dense, vector@, stream.bounds()));
    assert(stream.inner().held() =~= all_points(index.tree().ids@.len()));
}

/// Whether a source is that of a channel: a dense channel that is searched has a stream over
/// the documents, another is idle, and a sparse one has a stream that was supplied.
pub open spec fn is_channel_source<
    'a,
    S,
    O: Fn(usize, SparseStreamStrategy) -> Result<S, NChannelExactError>,
    Q: Fn(&Vec<u32>) -> QuantizedVector,
    C: Fn(i64, &QuantizedVectorMetadata, &QuantizedVectorMetadata, usize) -> i64,
    K: ChannelKeys,
>(
    index: DenseQuantizedIndex,
    dense: DenseChannels<Q, C, K>,
    open: O,
    strategy: SparseStreamStrategy,
    query: ExactChannelQuery,
    flag: bool,
    channel: usize,
    source: ChannelSource<'a, S, K>,
) -> bool {
    match (query, source) {
        (ExactChannelQuery::Dense(vector), ChannelSource::Dense(stream)) => flag && streams_channel(
            index,
            dense,
            vector@,
            channel,
            stream,
        ),
        (ExactChannelQuery::Dense(_), ChannelSource::Idle) => !flag,
        (ExactChannelQuery::Sparse(_), ChannelSource::Sparse(stream)) => open.ensures(
            (channel, strategy),
            Ok(stream),
        ),
        _ => false,
    }
}

/// Whether opening the channels leads to this: a dense query that does not fit is refused
/// before anything else, a stop signal is looked at next, and the first sparse stream that
/// cannot be opened ends it.
pub open spec fn opens_channels<
    'a,
    S,
    O: Fn(usize, SparseStreamStrategy) -> Result<S, NChannelExactError>,
    Q: Fn(&Vec<u32>) -> QuantizedVector,
    C: Fn(i64, &QuantizedVectorMetadata, &QuantizedVectorMetadata, usize) -> i64,
    K: ChannelKeys,
    T: Fn() -> bool,
>(
    index: DenseQuantizedIndex,
    dense: DenseChannels<Q, C, K>,
    open: O,
    stopped: T,
    strategy: SparseStreamStrategy,
    queries: Seq<ExactChannelQuery>,
    flags: Seq<bool>,
    opened: Result<Seq<ChannelSource<'a, S, K>>, NChannelExactError>,
) -> bool {
    if exists|channel: int| #[trigger] misfits(index, queries, flags, channel) {
        opened == Err::<Seq<ChannelSource<'a, S, K>>, NChannelExactError>(
            NChannelExactError::Dense(DenseQuantizedError::InvalidQuery),
        )
    } else {
        match opened {
            Ok(sources) => {
                &&& stopped.ensures((), false)
                &&& sources.len() == queries.len()
                &&& forall|channel: int|
                    0 <= channel < queries.len() ==> is_channel_source(
                        index,
                        dense,
                        open,
                        strategy,
                        queries[channel],
                        flags[channel],
                        channel as usize,
                        #[trigger] sources[channel],
                    )
            },
            Err(error) => {
                ||| error is Cancelled && stopped.ensures((), true)
                ||| exists|channel: usize|
                    channel < queries.len() && !is_dense(queries[channel as int])
                        && #[trigger] open.ensures((channel, strategy), Err(error))
            },
        }
    }
}

/// Opens the streams of all channels.
pub fn open_sources<
    'a,
    S: ExactRrfStream,
    O: Fn(usize, SparseStreamStrategy) -> Result<S, NChannelExactError>,
    Q: Fn(&Vec<u32>) -> QuantizedVector,
    C: Fn(i64, &QuantizedVectorMetadata, &QuantizedVectorMetadata, usize) -> i64,
    K: ChannelKeys,
    T: Fn() -> bool,
>(
    index: &'a DenseQuantizedIndex,
    dense: &'a DenseChannels<Q, C, K>,
    open: &O,
    stopped: &T,
    dense_strategy: DenseStreamStrategy,
    strategy: SparseStreamStrategy,
    queries: &Vec<ExactChannelQuery>,
    flags: &Vec<bool>,
) -> (result: Result<Vec<ChannelSource<'a, S, K>>, NChannelExactError>)
    requires
        dense.answers(),
        fits_products(index.dims() as int),
        flags@.len() == queries@.len(),
        stopped.requires(()),
        forall|channel: usize, strategy: SparseStreamStrategy| #[trigger]
            open.requires((channel, strategy)),
    ensures
        opens_channels(
            *index,
            *dense,
            *open,
            *stopped,
            strategy,
            queries@,
            flags@,
            match result {
                Ok(sources) => Ok(sources@),
                Err(error) => Err(error),
            },
        ),
{
    let mut waiting = match open_dense(index, queries, flags, dense_strategy, dense) {
        Ok(streams) => streams,
        Err(error) => {
            return Err(error);
        },
    };
    let ghost all = waiting@;
    let stop = stopped();
    assert(stopped.ensures((), stop));
    if stop {
        return Err(NChannelExactError::Cancelled);
    }
    let mut sources: Vec<ChannelSource<'a, S, K>> = Vec::new();
    let mut channel: usize = 0;
    assert(all.skip(0) =~= all);
    while channel < queries.len()
        invariant
            channel <= queries@.len(),
            flags@.len() == queries@.len(),
            sources@.len() == channel,
            stopped.ensures((), false),
            forall|channel: usize, strategy: SparseStreamStrategy| #[trigger]
                open.requires((channel, strategy)),
            forall|at: int| !#[trigger] misfits(*index, queries@, flags@, at),
            are_dense_streams(*index, *dense, queries@, flags@, queries@.len() as int, all),
            dense_places(queries@, flags@, channel as int).len() <= all.len(),
            dense_places(queries@, flags@, channel as int) == dense_places(
                queries@,
                flags@,
                queries@.len() as int,
            ).take(dense_places(queries@, flags@, channel as int).len() as int),
            waiting@ == all.skip(dense_places(queries@, flags@, channel as int).len() as int),
            forall|at: int|
                0 <= at < channel ==> is_channel_source(
                    *index,
                    *dense,
                    *open,
                    strategy,
                    queries@[at],
                    flags@[at],
                    at as usize,
                    #[trigger] sources@[at],
                ),
        decreases queries@.len() - channel,
    {
        let ghost places = dense_places(queries@, flags@, queries@.len() as int);
        let ghost count = dense_places(queries@, flags@, channel as int).len() as int;
        let ghost before = waiting@;
        proof {
            lemma_places_grow(queries@, flags@, channel + 1, queries@.len() as int);
        }
        let source = match &queries[channel] {
            ExactChannelQuery::Dense(_) => {
                if flags[channel] {
                    proof {
                        assert(dense_places(queries@, flags@, channel + 1).len() == count + 1);
                        let longer = dense_places(queries@, flags@, channel + 1);
                        assert(longer[count] == channel);
                        assert(places.take(longer.len() as int)[count] == places[count]);
                        assert(places[count] == channel);
                        assert(before.len() > 0);
                    }
                    let stream = waiting.remove(0);
                    assert(stream == all[count]);
                    assert(before.remove(0) =~= all.skip(count + 1));
                    ChannelSource::Dense(stream)
                } else {
                    ChannelSource::Idle
                }
            },
            ExactChannelQuery::Sparse(_) => {
                let opened = open(channel, strategy);
                assert(open.ensures((channel, strategy), opened));
                match opened {
                    Ok(stream) => ChannelSource::Sparse(stream),
                    Err(error) => {
                        assert(!is_dense(queries@[channel as int]));
                        assert(open.ensures((channel, strategy), Err(error)));
                        return Err(error);
                    },
                }
            },
        };
        sources.push(source);
        channel += 1;
    }
    Ok(sources)
}

/// The places of fewer channels are the first of those of more.
proof fn lemma_places_grow(
    queries: Seq<ExactChannelQuery>,
    flags: Seq<bool>,
    fewer: int,
    more: int,
)
    requires
        0 <= fewer <= more,
    ensures
        dense_places(queries, flags, fewer).len() <= dense_places(queries, flags, more).len(),
        dense_places(queries, flags, fewer) == dense_places(queries, flags, more).take(
            dense_places(queries, flags, fewer).len() as int,
        ),
    decreases more - fewer,
{
    let short = dense_places(queries, flags, fewer);
    let long = dense_places(queries, flags, more);
    if fewer < more {
        lemma_places_grow(queries, flags, fewer, more - 1);
        let middle = dense_places(queries, flags, more - 1);
        assert(middle.take(short.len() as int) =~= long.take(short.len() as int));
    } else {
        assert(long.take(long.len() as int) =~= long);
    }
}

/// A dense source stays dense, and its stream is asked as often as it is.
pub proof fn lemma_dense_reaches<'a, S: ExactRrfStream, K: ChannelKeys>(
    first: CertifiedStream<'a, KeyTable, ChannelScores<'a, K>>,
    last: ChannelSource<'a, S, K>,
    pulls: nat,
)
    requires
        reaches(ChannelSource::<'a, S, K>::Dense(first), last, pulls),
    ensures
        last matches ChannelSource::Dense(stream) && reaches(first, stream, pulls),
    decreases pulls,
{
    if pulls > 0 {
        let source = ChannelSource::<'a, S, K>::Dense(first);
        let (middle, result) = choose|
            middle: ChannelSource<'a, S, K>,
            result: OperationResult<Option<ExtendedPointId>>,
        |
            reaches(source, middle, (pulls - 1) as nat) && #[trigger] middle.replies(
                result,
                &last,
            );
        lemma_dense_reaches(first, middle, (pulls - 1) as nat);
        if let (ChannelSource::Dense(before), ChannelSource::Dense(after)) = (middle, last) {
            assert(reaches(first, before, (pulls - 1) as nat) && ExactRrfStream::replies(
                &before,
                result,
                &after,
            ));
        }
    }
}

} // verus!
