//! Search results of one segment, and what a segment adds to the context of a query.

use crate::n_channel_exact::{can_stop, never_stops};
use crate::dense_certificate::ScoredPointOffset;
use crate::operation_error::{Fault, OperationError, OperationResult};
use crate::order::ExtendedPointId;
use crate::segment_records::{
    are_retrieved, asks_vectors, ends_retrieval, names_view, never_fails, payloads_never_fail, payloads_view,
    retrieve, SegmentRecord,
};
use crate::segment_search::{ascends, asks, tells};
use vstd::prelude::*;

verus! {

/// A search result: a point with its version, its score, and what was asked for of
/// its record.
#[derive(Debug)]
pub struct FoundPoint<V, L> {
    pub id: ExtendedPointId,
    pub version: u64,
    /// The key of the score.
    pub score: i64,
    pub payload: Option<L>,
    pub vectors: Option<Vec<(usize, V)>>,
}

/// A scored point with its identity.
pub struct MappedPoint {
    pub id: ExtendedPointId,
    pub offset: u32,
    pub score: i64,
}

/// The leading points that have an identity.
pub open spec fn mapped_points(
    points: Seq<ScoredPointOffset>,
    external: spec_fn(u32) -> Option<ExtendedPointId>,
    upto: int,
) -> Seq<MappedPoint>
    decreases upto,
{
    if upto <= 0 {
        Seq::empty()
    } else {
        let earlier = mapped_points(points, external, upto - 1);
        let point = points[upto - 1];
        match external(point.idx) {
            Some(id) => earlier.push(MappedPoint { id, offset: point.idx, score: point.score }),
            None => earlier,
        }
    }
}

/// The identities of points.
pub open spec fn mapped_ids(points: Seq<MappedPoint>) -> Seq<ExtendedPointId> {
    Seq::new(points.len(), |i: int| points[i].id)
}

/// The leading places whose identity has a record and does not occur before.
pub open spec fn answered(
    ids: Seq<ExtendedPointId>,
    known: Set<ExtendedPointId>,
    upto: int,
) -> Seq<int>
    decreases upto,
{
    if upto <= 0 {
        Seq::empty()
    } else {
        let earlier = answered(ids, known, upto - 1);
        let id = ids[upto - 1];
        if known.contains(id) && !ids.take(upto - 1).contains(id) {
            earlier.push(upto - 1)
        } else {
            earlier
        }
    }
}

/// Whether results are the points at the given places, with their versions and with
/// what their records hold.
pub open spec fn are_found<V, L>(
    results: Seq<FoundPoint<V, L>>,
    points: Seq<MappedPoint>,
    places: Seq<int>,
    version: spec_fn(u32) -> Option<u64>,
    records: Map<ExtendedPointId, SegmentRecord<V, L>>,
) -> bool {
    &&& results.len() == places.len()
    &&& forall|i: int|
        0 <= i < results.len() ==> is_found(
            #[trigger] results[i],
            points[places[i]],
            version,
            records,
        )
}

/// Whether a result is a point with its version and with what its record holds.
pub open spec fn is_found<V, L>(
    result: FoundPoint<V, L>,
    point: MappedPoint,
    version: spec_fn(u32) -> Option<u64>,
    records: Map<ExtendedPointId, SegmentRecord<V, L>>,
) -> bool {
    &&& result.id == point.id
    &&& result.score == point.score
    &&& version(point.offset) == Some(result.version)
    &&& result.vectors == records[point.id].vectors
    &&& result.payload == records[point.id].payload
}

/// What is read of a segment: identities and versions of points, which identities have
/// a record, and the vectors and payloads of records.
pub struct SegmentReadView<X, Y, R, F, P, T> {
    pub external: X,
    pub version: Y,
    pub resolve: R,
    pub fetch_vector: F,
    pub fetch_payload: P,
    pub stopped: T,
}

/// Whether everything that is read of a segment can be asked, and every resolved
/// identity has an offset.
pub open spec fn reads<
    V,
    L,
    X: Fn(u32) -> Option<ExtendedPointId>,
    Y: Fn(u32) -> Option<u64>,
    R: Fn(&Vec<ExtendedPointId>) -> (Vec<ExtendedPointId>, Vec<u32>),
    F: Fn(usize, u32) -> OperationResult<Option<V>>,
    P: Fn(u32) -> OperationResult<L>,
    T: Fn() -> bool,
>(view: SegmentReadView<X, Y, R, F, P, T>) -> bool {
    &&& asks(view.external)
    &&& asks(view.version)
    &&& forall|ids: &Vec<ExtendedPointId>| #[trigger] view.resolve.requires((ids,))
    &&& forall|ids: &Vec<ExtendedPointId>, resolved: (Vec<ExtendedPointId>, Vec<u32>)| #[trigger]
        view.resolve.ensures((ids,), resolved) ==> resolved.0@.len() == resolved.1@.len()
    &&& asks_vectors::<V, F>(view.fetch_vector)
    &&& asks(view.fetch_payload)
    &&& can_stop(view.stopped)
}

/// How payloads are read, where they are asked for.
pub open spec fn payload_source<P>(fetch: P, with_payload: bool) -> Option<P> {
    if with_payload {
        Some(fetch)
    } else {
        None
    }
}

/// Whether a list of results is what raw results become, where the segment knows the
/// given identities and versions.
pub open spec fn processes<
    V,
    L,
    X,
    Y,
    R: Fn(&Vec<ExtendedPointId>) -> (Vec<ExtendedPointId>, Vec<u32>),
    F: Fn(usize, u32) -> OperationResult<Option<V>>,
    P: Fn(u32) -> OperationResult<L>,
    T: Fn() -> bool,
>(
    view: SegmentReadView<X, Y, R, F, P, T>,
    external: spec_fn(u32) -> Option<ExtendedPointId>,
    version: spec_fn(u32) -> Option<u64>,
    points: Seq<ScoredPointOffset>,
    names: Option<Seq<usize>>,
    with_payload: bool,
    results: Seq<FoundPoint<V, L>>,
) -> bool {
    let mapped = mapped_points(points, external, points.len() as int);
    exists|
        ids: Vec<ExtendedPointId>,
        resolved: (Vec<ExtendedPointId>, Vec<u32>),
        records: Map<ExtendedPointId, SegmentRecord<V, L>>,
    |
        {
            &&& #[trigger] view.resolve.ensures((&ids,), resolved)
            &&& ids@ == mapped_ids(mapped)
            &&& #[trigger] are_retrieved(
                resolved.0@,
                resolved.1@,
                names,
                view.fetch_vector,
                payload_source(view.fetch_payload, with_payload),
                view.stopped,
                records,
            )
            &&& are_found(
                results,
                mapped,
                answered(ids@, resolved.0@.to_set(), mapped.len() as int),
                version,
                records,
            )
        }
}

/// Whether a point of raw results has the identity and no version.
pub open spec fn misses_version<X: Fn(u32) -> Option<ExtendedPointId>, Y: Fn(u32) -> Option<u64>>(
    external: X,
    version: Y,
    points: Seq<ScoredPointOffset>,
    id: ExtendedPointId,
) -> bool {
    forall|known: spec_fn(u32) -> Option<ExtendedPointId>| #[trigger]
        tells(external, known) ==> lacks_version(
            version,
            mapped_points(points, known, points.len() as int),
            id,
        )
}

/// Whether identities are those of raw results.
pub open spec fn are_mapped_ids<X: Fn(u32) -> Option<ExtendedPointId>>(
    external: X,
    points: Seq<ScoredPointOffset>,
    ids: Seq<ExtendedPointId>,
) -> bool {
    forall|known: spec_fn(u32) -> Option<ExtendedPointId>| #[trigger]
        tells(external, known) ==> ids == mapped_ids(
            mapped_points(points, known, points.len() as int),
        )
}

/// Whether turning raw results into results for users can end with an error: a point
/// that was found has no version, or a record cannot be read.
pub open spec fn ends_processing<
    V,
    L,
    X: Fn(u32) -> Option<ExtendedPointId>,
    Y: Fn(u32) -> Option<u64>,
    R: Fn(&Vec<ExtendedPointId>) -> (Vec<ExtendedPointId>, Vec<u32>),
    F: Fn(usize, u32) -> OperationResult<Option<V>>,
    P: Fn(u32) -> OperationResult<L>,
    T: Fn() -> bool,
>(
    view: SegmentReadView<X, Y, R, F, P, T>,
    points: Seq<ScoredPointOffset>,
    names: Option<Seq<usize>>,
    with_payload: bool,
    error: OperationError,
) -> bool {
    (exists|id: ExtendedPointId|
        error == OperationError::ServiceFault(Fault::MissingVersion { id })
            && #[trigger] misses_version(view.external, view.version, points, id)) || (exists|
        ids: Vec<ExtendedPointId>,
        resolved: (Vec<ExtendedPointId>, Vec<u32>),
    |
        #[trigger] view.resolve.ensures((&ids,), resolved) && are_mapped_ids(
            view.external,
            points,
            ids@,
        ) && ends_retrieval::<V, L, F, P, T>(
            resolved.1@,
            names,
            view.fetch_vector,
            payload_source(view.fetch_payload, with_payload),
            view.stopped,
            error,
        ))
}

/// Whether a batch ends with this, where its queries have the given raw results: a stop
/// signal ends it, every list becomes one of results for users, and the error of a list is
/// returned.
pub open spec fn answers_batch<
    V,
    L,
    X: Fn(u32) -> Option<ExtendedPointId>,
    Y: Fn(u32) -> Option<u64>,
    R: Fn(&Vec<ExtendedPointId>) -> (Vec<ExtendedPointId>, Vec<u32>),
    F: Fn(usize, u32) -> OperationResult<Option<V>>,
    P: Fn(u32) -> OperationResult<L>,
    T: Fn() -> bool,
>(
    view: SegmentReadView<X, Y, R, F, P, T>,
    raw: Seq<Vec<ScoredPointOffset>>,
    names: Option<&Vec<usize>>,
    with_payload: bool,
    result: OperationResult<Vec<Vec<FoundPoint<V, L>>>>,
) -> bool {
    &&& crate::n_channel_exact::always_stops(view.stopped) ==> result == Err::<
        Vec<Vec<FoundPoint<V, L>>>,
        OperationError,
    >(OperationError::Cancelled)
    &&& result matches Ok(lists) ==> {
        &&& lists@.len() == raw.len()
        &&& forall|
            external: spec_fn(u32) -> Option<ExtendedPointId>,
            version: spec_fn(u32) -> Option<u64>,
            query: int,
        |
            #![trigger tells(view.external, external), tells(view.version, version), lists@[query]]
            tells(view.external, external) && tells(view.version, version) && 0 <= query
                < lists@.len() ==> processes(
                view,
                external,
                version,
                raw[query]@,
                names_view(names),
                with_payload,
                lists@[query]@,
            )
    }
    &&& never_stops(view.stopped) && never_fails::<V, F>(view.fetch_vector, names)
        && payloads_never_fail::<L, P>(Some(&view.fetch_payload)) && is_versioned(view.version)
        ==> result is Ok
    &&& result matches Err(error) ==> (error == OperationError::Cancelled && view.stopped.ensures(
        (),
        true,
    )) || (exists|query: int|
        0 <= query < raw.len() && ends_processing::<V, L, X, Y, R, F, P, T>(
            view,
            (#[trigger] raw[query])@,
            names_view(names),
            with_payload,
            error,
        ))
}

/// Whether a search for several queries ends with this: queries that do not fit are refused
/// first, then a name that the segment does not have; an index that fails ends it, and what
/// the index found is turned into results for users.
pub open spec fn searches_batch<
    V,
    L,
    X: Fn(u32) -> Option<ExtendedPointId>,
    Y: Fn(u32) -> Option<u64>,
    R: Fn(&Vec<ExtendedPointId>) -> (Vec<ExtendedPointId>, Vec<u32>),
    F: Fn(usize, u32) -> OperationResult<Option<V>>,
    P: Fn(u32) -> OperationResult<L>,
    T: Fn() -> bool,
    I: Fn() -> OperationResult<Vec<Vec<ScoredPointOffset>>>,
>(
    view: SegmentReadView<X, Y, R, F, P, T>,
    vector_name: Seq<char>,
    checked: OperationResult<()>,
    known: bool,
    search: I,
    names: Option<&Vec<usize>>,
    with_payload: bool,
    result: OperationResult<Vec<Vec<FoundPoint<V, L>>>>,
) -> bool {
    match checked {
        Err(error) => result == Err::<Vec<Vec<FoundPoint<V, L>>>, OperationError>(error),
        Ok(_) => if !known {
            result matches Err(OperationError::VectorNameNotExists { name }) && name@
                == vector_name
        } else {
            exists|found: OperationResult<Vec<Vec<ScoredPointOffset>>>|
                {
                    &&& #[trigger] search.ensures((), found)
                    &&& match found {
                        Err(error) => result == Err::<Vec<Vec<FoundPoint<V, L>>>, OperationError>(
                            error,
                        ),
                        Ok(raw) => answers_batch(view, raw@, names, with_payload, result),
                    }
                }
        },
    }
}

impl<
    X: Fn(u32) -> Option<ExtendedPointId>,
    Y: Fn(u32) -> Option<u64>,
    R: Fn(&Vec<ExtendedPointId>) -> (Vec<ExtendedPointId>, Vec<u32>),
    F,
    P,
    T: Fn() -> bool,
> SegmentReadView<X, Y, R, F, P, T> {
    /// Turns raw results into results for users. A point without an identity or
    /// without a record is left out, and so is one that was found before.
    pub fn process_search_result<V, L>(
        &self,
        internal_result: &Vec<ScoredPointOffset>,
        names: Option<&Vec<usize>>,
        with_payload: bool,
    ) -> (result: OperationResult<Vec<FoundPoint<V, L>>>) where
        F: Fn(usize, u32) -> OperationResult<Option<V>>,
        P: Fn(u32) -> OperationResult<L>,

        requires
            reads::<V, L, X, Y, R, F, P, T>(*self),
        ensures
            result matches Ok(results) ==> forall|
                external: spec_fn(u32) -> Option<ExtendedPointId>,
                version: spec_fn(u32) -> Option<u64>,
            |
                #![trigger tells(self.external, external), tells(self.version, version)]
                tells(self.external, external) && tells(self.version, version) ==> processes(
                    *self,
                    external,
                    version,
                    internal_result@,
                    names_view(names),
                    with_payload,
                    results@,
                ),
            never_stops(self.stopped) && never_fails::<V, F>(
                self.fetch_vector,
                names,
            ) && payloads_never_fail::<L, P>(Some(&self.fetch_payload)) && is_versioned(
                self.version,
            ) ==> result is Ok,
            never_stops(self.stopped) && never_fails::<V, F>(
                self.fetch_vector,
                names,
            ) && payloads_never_fail::<L, P>(Some(&self.fetch_payload)) ==> (result matches Err(
                error,
            ) ==> {
                &&& error matches OperationError::ServiceFault(Fault::MissingVersion { id })
                &&& forall|external: spec_fn(u32) -> Option<ExtendedPointId>| #[trigger]
                    tells(self.external, external) ==> lacks_version(
                        self.version,
                        mapped_points(internal_result@, external, internal_result@.len() as int),
                        id,
                    )
            }),
            result matches Err(error) ==> ends_processing::<V, L, X, Y, R, F, P, T>(
                *self,
                internal_result@,
                names_view(names),
                with_payload,
                error,
            ),
    {
        let external = &self.external;
        let mut ids: Vec<ExtendedPointId> = Vec::new();
        let mut kept: Vec<ScoredPointOffset> = Vec::new();
        let mut i: usize = 0;
        while i < internal_result.len()
            invariant
                i <= internal_result@.len(),
                asks(self.external),
                external == &self.external,
                ids@.len() == kept@.len(),
                forall|known: spec_fn(u32) -> Option<ExtendedPointId>| #[trigger]
                    tells(self.external, known) ==> is_mapped(
                        mapped_points(internal_result@, known, i as int),
                        ids@,
                        kept@,
                    ),
            decreases internal_result@.len() - i,
        {
            let point = internal_result[i];
            let answer = external(point.idx);
            let ghost before_ids = ids@;
            let ghost before_kept = kept@;
            match answer {
                Some(id) => {
                    ids.push(id);
                    kept.push(point);
                },
                None => {},
            }
            proof {
                assert forall|known: spec_fn(u32) -> Option<ExtendedPointId>| #[trigger]
                    tells(self.external, known) implies is_mapped(
                    mapped_points(internal_result@, known, i + 1),
                    ids@,
                    kept@,
                ) by {
                    let earlier = mapped_points(internal_result@, known, i as int);
                    assert(is_mapped(earlier, before_ids, before_kept));
                    assert(self.external.ensures((point.idx,), answer));
                    assert(answer == known(point.idx));
                }
            }
            i += 1;
        }
        let resolve = &self.resolve;
        let resolved = resolve(&ids);
        assert(self.resolve.ensures((&ids,), resolved));
        let ghost told = resolved;
        let (resolved_ids, resolved_offsets) = resolved;
        let payloads: Option<&P> = if with_payload {
            Some(&self.fetch_payload)
        } else {
            None
        };
        let mut records = match retrieve::<V, L, F, P, T>(
            &resolved_ids,
            &resolved_offsets,
            names,
            &self.fetch_vector,
            payloads,
            &self.stopped,
        ) {
            Ok(records) => records,
            Err(error) => {
                proof {
                    assert(payloads_view(payloads) == payload_source(
                        self.fetch_payload,
                        with_payload,
                    ));
                    assert forall|external: spec_fn(u32) -> Option<ExtendedPointId>| #[trigger]
                        tells(self.external, external) implies ids@ == mapped_ids(
                        mapped_points(internal_result@, external, internal_result@.len() as int),
                    ) by {
                        assert(ids@ =~= mapped_ids(
                            mapped_points(
                                internal_result@,
                                external,
                                internal_result@.len() as int,
                            ),
                        ));
                    }
                    assert(are_mapped_ids(self.external, internal_result@, ids@));
                    assert(self.resolve.ensures((&ids,), told));
                }
                return Err(error);
            },
        };
        let ghost known = resolved_ids@.to_set();
        let ghost all = records.known();
        let ghost fetched = payload_source(self.fetch_payload, with_payload);
        assert(payloads_view(payloads) == fetched);
        let version = &self.version;
        let mut results: Vec<FoundPoint<V, L>> = Vec::new();
        let mut k: usize = 0;
        while k < ids.len()
            invariant
                k <= ids@.len(),
                ids@.len() == kept@.len(),
                asks(self.version),
                version == &self.version,
                forall|known: spec_fn(u32) -> Option<ExtendedPointId>| #[trigger]
                    tells(self.external, known) ==> is_mapped(
                        mapped_points(internal_result@, known, internal_result@.len() as int),
                        ids@,
                        kept@,
                    ),
                records.wf(),
                forall|id: ExtendedPointId| #[trigger]
                    records.known().contains_key(id) <==> known.contains(id) && !ids@.take(
                        k as int,
                    ).contains(id),
                forall|id: ExtendedPointId| #[trigger]
                    records.known().contains_key(id) ==> records.known()[id] == all[id],
                forall|known_version: spec_fn(u32) -> Option<u64>| #[trigger]
                    tells(self.version, known_version) ==> are_results(
                        results@,
                        ids@,
                        kept@,
                        answered(ids@, known, k as int),
                        known_version,
                        all,
                    ),
            decreases ids@.len() - k,
        {
            let id = ids[k];
            let point = kept[k];
            let ghost held = records.known();
            let ghost earlier = results@;
            let record = records.remove(id);
            proof {
                let shorter = ids@.take(k as int);
                let longer = ids@.take(k + 1);
                assert(longer =~= shorter.push(id));
                assert forall|other: ExtendedPointId| #[trigger]
                    records.known().contains_key(other) <==> known.contains(other)
                        && !longer.contains(other) by {
                    if shorter.contains(other) {
                        let at = choose|at: int| 0 <= at < shorter.len() && shorter[at] == other;
                        assert(longer[at] == other);
                    }
                    assert(longer[k as int] == id);
                    if longer.contains(other) && other != id {
                        let at = choose|at: int| 0 <= at < longer.len() && longer[at] == other;
                        assert(shorter[at] == other);
                    }
                    assert(held.contains_key(other) == (known.contains(other)
                        && !shorter.contains(other)));
                }
                assert(record is Some <==> held.contains_key(id));
            }
            match record {
                Some(record) => {
                    let answer = version(point.idx);
                    assert(self.version.ensures((point.idx,), answer));
                    match answer {
                        Some(found) => {
                            let SegmentRecord { id: own, vectors, payload } = record;
                            results.push(
                                FoundPoint {
                                    id,
                                    version: found,
                                    score: point.score,
                                    payload,
                                    vectors,
                                },
                            );
                            proof {
                                assert forall|known_version: spec_fn(u32) -> Option<u64>|
                                    #[trigger] tells(
                                        self.version,
                                        known_version,
                                    ) implies are_results(
                                    results@,
                                    ids@,
                                    kept@,
                                    answered(ids@, known, k + 1),
                                    known_version,
                                    all,
                                ) by {
                                    let places = answered(ids@, known, k as int);
                                    let more = answered(ids@, known, k + 1);
                                    assert(more == places.push(k as int));
                                    assert(are_results(
                                        earlier,
                                        ids@,
                                        kept@,
                                        places,
                                        known_version,
                                        all,
                                    ));
                                    assert(known_version(point.idx) == Some(found));
                                    assert forall|at: int| 0 <= at < results@.len() implies {
                                        let place = more[at];
                                        &&& (#[trigger] results@[at]).id == ids@[place]
                                        &&& results@[at].score == kept@[place].score
                                        &&& known_version(kept@[place].idx) == Some(
                                            results@[at].version,
                                        )
                                        &&& results@[at].vectors == all[ids@[place]].vectors
                                        &&& results@[at].payload == all[ids@[place]].payload
                                    } by {
                                        if at < earlier.len() {
                                            assert(results@[at] == earlier[at]);
                                        }
                                    }
                                }
                            }
                        },
                        None => {
                            proof {
                                assert forall|known_external: spec_fn(u32) -> Option<
                                    ExtendedPointId,
                                >| #[trigger]
                                    tells(self.external, known_external) implies lacks_version(
                                    self.version,
                                    mapped_points(
                                        internal_result@,
                                        known_external,
                                        internal_result@.len() as int,
                                    ),
                                    id,
                                ) by {
                                    let mapped = mapped_points(
                                        internal_result@,
                                        known_external,
                                        internal_result@.len() as int,
                                    );
                                    assert(is_mapped(mapped, ids@, kept@));
                                    assert(mapped[k as int].id == id);
                                }
                            }
                            assert(misses_version(
                                self.external,
                                self.version,
                                internal_result@,
                                id,
                            ));
                            return Err(
                                OperationError::ServiceFault(Fault::MissingVersion { id }),
                            );
                        },
                    }
                },
                None => {
                    proof {
                        assert(answered(ids@, known, k + 1) == answered(ids@, known, k as int));
                    }
                },
            }
            k += 1;
        }
        proof {
            assert forall|
                external: spec_fn(u32) -> Option<ExtendedPointId>,
                version: spec_fn(u32) -> Option<u64>,
            |
                #![trigger tells(self.external, external), tells(self.version, version)]
                tells(self.external, external) && tells(self.version, version) implies processes(
                *self,
                external,
                version,
                internal_result@,
                names_view(names),
                with_payload,
                results@,
            ) by {
                let mapped = mapped_points(internal_result@, external, internal_result@.len() as int);
                assert(is_mapped(mapped, ids@, kept@));
                assert(ids@ =~= mapped_ids(mapped));
                let places = answered(ids@, known, mapped.len() as int);
                lemma_answered(ids@, known, mapped.len() as int);
                assert(are_results(results@, ids@, kept@, places, version, all));
                assert forall|at: int| 0 <= at < results@.len() implies is_found(
                    #[trigger] results@[at],
                    mapped[places[at]],
                    version,
                    all,
                ) by {
                    let place = places[at];
                    assert(0 <= place < mapped.len());
                    assert(mapped[place].id == ids@[place]);
                }
                assert(self.resolve.ensures((&ids,), told));
                assert(are_retrieved(
                    told.0@,
                    told.1@,
                    names_view(names),
                    self.fetch_vector,
                    fetched,
                    self.stopped,
                    all,
                ));
                assert(are_found(results@, mapped, places, version, all));
            }
        }
        Ok(results)
    }

    /// Searches the vectors of a name for several queries, where `checked` says whether the
    /// queries fit, `known` whether the segment has the name, and `search` asks its index.
    pub fn search_batch<V, L, I>(
        &self,
        vector_name: &String,
        checked: OperationResult<()>,
        known: bool,
        search: &I,
        names: Option<&Vec<usize>>,
        with_payload: bool,
    ) -> (result: OperationResult<Vec<Vec<FoundPoint<V, L>>>>) where
        F: Fn(usize, u32) -> OperationResult<Option<V>>,
        P: Fn(u32) -> OperationResult<L>,
        I: Fn() -> OperationResult<Vec<Vec<ScoredPointOffset>>>,

        requires
            reads::<V, L, X, Y, R, F, P, T>(*self),
            search.requires(()),
        ensures
            searches_batch(
                *self,
                vector_name@,
                checked,
                known,
                *search,
                names,
                with_payload,
                result,
            ),
    {
        match checked {
            Ok(_) => {},
            Err(error) => {
                return Err(error);
            },
        }
        if !known {
            return Err(OperationError::VectorNameNotExists { name: vector_name.clone() });
        }
        let found = search();
        let ghost outcome = found;
        assert(search.ensures((), outcome));
        match found {
            Ok(raw) => self.process_search_results(&raw, names, with_payload),
            Err(error) => Err(error),
        }
    }

    /// Turns the raw results of several queries into results for users.
    pub fn process_search_results<V, L>(
        &self,
        internal_results: &Vec<Vec<ScoredPointOffset>>,
        names: Option<&Vec<usize>>,
        with_payload: bool,
    ) -> (result: OperationResult<Vec<Vec<FoundPoint<V, L>>>>) where
        F: Fn(usize, u32) -> OperationResult<Option<V>>,
        P: Fn(u32) -> OperationResult<L>,

        requires
            reads::<V, L, X, Y, R, F, P, T>(*self),
        ensures
            answers_batch(*self, internal_results@, names, with_payload, result),
    {
        let stopped = &self.stopped;
        if stopped() {
            return Err(OperationError::Cancelled);
        }
        let mut lists: Vec<Vec<FoundPoint<V, L>>> = Vec::new();
        let mut i: usize = 0;
        while i < internal_results.len()
            invariant
                reads::<V, L, X, Y, R, F, P, T>(*self),
                !crate::n_channel_exact::always_stops(self.stopped),
                i <= internal_results@.len(),
                lists@.len() == i,
                forall|
                    external: spec_fn(u32) -> Option<ExtendedPointId>,
                    version: spec_fn(u32) -> Option<u64>,
                    query: int,
                |
                    #![trigger tells(self.external, external), tells(self.version, version), lists@[query]]
                    tells(self.external, external) && tells(self.version, version) && 0 <= query
                        < i ==> processes(
                        *self,
                        external,
                        version,
                        internal_results@[query]@,
                        names_view(names),
                        with_payload,
                        lists@[query]@,
                    ),
            decreases internal_results@.len() - i,
        {
            match self.process_search_result(&internal_results[i], names, with_payload) {
                Ok(list) => {
                    lists.push(list);
                },
                Err(error) => {
                    return Err(error);
                },
            }
            i += 1;
        }
        Ok(lists)
    }

    /// Adds the segment to the context of a query: its points that are not deferred,
    /// and for every vector that it knows the number of those that it has indexed. After each
    /// `fill` adds the statistics of that vector; where it fails, the rest is left out.
    pub fn fill_query_context<I: Fn(usize) -> OperationResult<()>>(
        &self,
        context: &mut QueryContext,
        available_points: usize,
        indexed: &Vec<Option<usize>>,
        fill: &I,
    ) -> (result: OperationResult<()>)
        requires
            asks_statistics(*fill),
            old(context).available_point_count + available_points <= usize::MAX,
            indexed@.len() == old(context).indexed_vectors@.len(),
            forall|vector: int|
                0 <= vector < indexed@.len() ==> indexed_sum(
                    old(context).indexed_vectors@[vector],
                    #[trigger] indexed@[vector],
                ) <= usize::MAX,
        ensures
            final(context).available_point_count == old(context).available_point_count
                + available_points,
            match result {
                Ok(_) => {
                    &&& final(context).indexed_vectors@ == indexed_up_to(
                        old(context).indexed_vectors@,
                        indexed@,
                        indexed@.len() as int,
                    )
                    &&& forall|vector: int|
                        0 <= vector < indexed@.len() && (#[trigger] indexed@[vector]) is Some
                            ==> fill.ensures((vector as usize,), Ok(()))
                },
                Err(error) => exists|vector: usize|
                    {
                        &&& vector < indexed@.len()
                        &&& indexed@[vector as int] is Some
                        &&& #[trigger] fill.ensures((vector,), Err(error))
                        &&& final(context).indexed_vectors@ == indexed_up_to(
                            old(context).indexed_vectors@,
                            indexed@,
                            vector + 1,
                        )
                    },
            },
    {
        context.available_point_count = context.available_point_count + available_points;
        let ghost before = context.indexed_vectors@;
        let mut vector: usize = 0;
        while vector < indexed.len()
            invariant
                asks_statistics(*fill),
                vector <= indexed@.len(),
                forall|other: int|
                    0 <= other < vector && (#[trigger] indexed@[other]) is Some ==> fill.ensures(
                        (other as usize,),
                        Ok(()),
                    ),
                indexed@.len() == before.len(),
                context.indexed_vectors@.len() == before.len(),
                before == old(context).indexed_vectors@,
                forall|other: int|
                    0 <= other < indexed@.len() ==> indexed_sum(
                        before[other],
                        #[trigger] indexed@[other],
                    ) <= usize::MAX,
                context.available_point_count == old(context).available_point_count
                    + available_points,
                forall|other: int|
                    0 <= other < vector ==> #[trigger] context.indexed_vectors@[other]
                        == indexed_after(before[other], indexed@[other]),
                forall|other: int|
                    vector <= other < before.len() ==> #[trigger] context.indexed_vectors@[other]
                        == before[other],
            decreases indexed@.len() - vector,
        {
            match indexed[vector] {
                Some(count) => {
                    assert(indexed@[vector as int] == Some(count));
                    let total: usize = match context.indexed_vectors[vector] {
                        Some(known) => known + count,
                        None => count,
                    };
                    context.indexed_vectors.set(vector, Some(total));
                    match fill(vector) {
                        Ok(unit) => {
                            assert(unit == ());
                            assert(fill.ensures((vector,), Ok(unit)));
                        },
                        Err(error) => {
                            assert(context.indexed_vectors@ =~= indexed_up_to(
                                before,
                                indexed@,
                                vector + 1,
                            ));
                            return Err(error);
                        },
                    }
                },
                None => {},
            }
            vector += 1;
        }
        assert(context.indexed_vectors@ =~= indexed_up_to(before, indexed@, vector as int));
        Ok(())
    }
}

/// Whether every point has a version.
pub open spec fn is_versioned<Y: Fn(u32) -> Option<u64>>(version: Y) -> bool {
    forall|offset: u32, answer: Option<u64>| #[trigger]
        version.ensures((offset,), answer) ==> answer is Some
}

/// Whether one of the points has the identity and no version.
pub open spec fn lacks_version<Y: Fn(u32) -> Option<u64>>(
    version: Y,
    points: Seq<MappedPoint>,
    id: ExtendedPointId,
) -> bool {
    exists|i: int|
        {
            &&& 0 <= i < points.len()
            &&& (#[trigger] points[i]).id == id
            &&& version.ensures((points[i].offset,), None)
        }
}

/// Whether identities and raw points are those of mapped points.
spec fn is_mapped(
    mapped: Seq<MappedPoint>,
    ids: Seq<ExtendedPointId>,
    kept: Seq<ScoredPointOffset>,
) -> bool {
    &&& mapped.len() == ids.len()
    &&& mapped.len() == kept.len()
    &&& forall|i: int|
        0 <= i < mapped.len() ==> {
            &&& (#[trigger] mapped[i]).id == ids[i]
            &&& mapped[i].offset == kept[i].idx
            &&& mapped[i].score == kept[i].score
        }
}

/// Whether results are those of raw points at the given places.
spec fn are_results<V, L>(
    results: Seq<FoundPoint<V, L>>,
    ids: Seq<ExtendedPointId>,
    kept: Seq<ScoredPointOffset>,
    places: Seq<int>,
    version: spec_fn(u32) -> Option<u64>,
    records: Map<ExtendedPointId, SegmentRecord<V, L>>,
) -> bool {
    &&& results.len() == places.len()
    &&& forall|i: int|
        0 <= i < results.len() ==> {
            let place = places[i];
            &&& (#[trigger] results[i]).id == ids[place]
            &&& results[i].score == kept[place].score
            &&& version(kept[place].idx) == Some(results[i].version)
            &&& results[i].vectors == records[ids[place]].vectors
            &&& results[i].payload == records[ids[place]].payload
        }
}

proof fn lemma_answered(ids: Seq<ExtendedPointId>, known: Set<ExtendedPointId>, upto: int)
    requires
        0 <= upto <= ids.len(),
    ensures
        forall|i: int|
            0 <= i < answered(ids, known, upto).len() ==> 0 <= #[trigger] answered(
                ids,
                known,
                upto,
            )[i] < upto,
    decreases upto,
{
    if upto > 0 {
        lemma_answered(ids, known, upto - 1);
        let shorter = answered(ids, known, upto - 1);
        let longer = answered(ids, known, upto);
        assert forall|i: int| 0 <= i < longer.len() implies 0 <= #[trigger] longer[i] < upto by {
            if i < shorter.len() {
                assert(0 <= shorter[i] < upto - 1);
            }
        }
    }
}

/// What the segments of a query add up to: how many points there are, and for every
/// vector whose document frequencies are asked for, how many of them are indexed.
#[derive(Debug)]
pub struct QueryContext {
    pub available_point_count: usize,
    pub indexed_vectors: Vec<Option<usize>>,
}

/// The sum of a number of indexed vectors and that of a segment.
pub open spec fn indexed_sum(before: Option<usize>, count: Option<usize>) -> int {
    (match before {
        Some(known) => known as int,
        None => 0,
    }) + (match count {
        Some(count) => count as int,
        None => 0,
    })
}

/// Whether the statistics of every vector can be asked for.
pub open spec fn asks_statistics<I: Fn(usize) -> OperationResult<()>>(fill: I) -> bool {
    forall|vector: usize| #[trigger] fill.requires((vector,))
}

/// The numbers of indexed vectors after a segment whose leading vectors were added.
pub open spec fn indexed_up_to(
    before: Seq<Option<usize>>,
    indexed: Seq<Option<usize>>,
    upto: int,
) -> Seq<Option<usize>> {
    Seq::new(
        before.len(),
        |vector: int|
            if vector < upto {
                indexed_after(before[vector], indexed[vector])
            } else {
                before[vector]
            },
    )
}

/// The number of indexed vectors after a segment that holds a number of them, or does
/// not know the vector.
pub open spec fn indexed_after(before: Option<usize>, count: Option<usize>) -> Option<usize> {
    match count {
        Some(_) => Some(indexed_sum(before, count) as usize),
        None => before,
    }
}

/// The points that have an identity, in their order, each with its own score: none is left
/// out for another reason.
pub proof fn law_points_with_an_identity_are_kept(
    points: Seq<ScoredPointOffset>,
    external: spec_fn(u32) -> Option<ExtendedPointId>,
    upto: int,
) -> (places: Seq<int>)
    requires
        0 <= upto <= points.len(),
    ensures
        ascends(places, upto),
        places.len() == mapped_points(points, external, upto).len(),
        forall|i: int|
            0 <= i < places.len() ==> {
                let mapped = mapped_points(points, external, upto)[i];
                let point = points[#[trigger] places[i]];
                &&& external(point.idx) == Some(mapped.id)
                &&& mapped.offset == point.idx
                &&& mapped.score == point.score
            },
        forall|place: int|
            0 <= place < upto && external((#[trigger] points[place]).idx) is Some
                ==> places.contains(place),
    decreases upto,
{
    if upto == 0 {
        Seq::empty()
    } else {
        let earlier = law_points_with_an_identity_are_kept(points, external, upto - 1);
        let last = upto - 1;
        let list = mapped_points(points, external, upto);
        let shorter = mapped_points(points, external, last);
        let places = if external(points[last].idx) is Some {
            earlier.push(last)
        } else {
            earlier
        };
        assert forall|i: int| 0 <= i < places.len() implies {
            let mapped = list[i];
            let point = points[#[trigger] places[i]];
            &&& external(point.idx) == Some(mapped.id)
            &&& mapped.offset == point.idx
            &&& mapped.score == point.score
        } by {
            if i < earlier.len() {
                assert(places[i] == earlier[i]);
                assert(list[i] == shorter[i]);
            }
        }
        assert forall|place: int|
            0 <= place < upto && external((#[trigger] points[place]).idx) is Some implies
            places.contains(place) by {
            if place < last {
                let k = choose|k: int| 0 <= k < earlier.len() && earlier[k] == place;
                assert(places[k] == place);
            } else {
                assert(places[earlier.len() as int] == last);
            }
        }
        places
    }
}

/// The identities that are answered: every one that has a record, where it occurs first, in
/// the order of the list.
pub proof fn law_identities_with_a_record_are_answered(
    ids: Seq<ExtendedPointId>,
    known: Set<ExtendedPointId>,
    upto: int,
)
    requires
        0 <= upto <= ids.len(),
    ensures
        ascends(answered(ids, known, upto), upto),
        forall|place: int| #[trigger]
            answered(ids, known, upto).contains(place) <==> 0 <= place < upto && known.contains(
                ids[place],
            ) && forall|before: int| 0 <= before < place ==> ids[before] != ids[place],
    decreases upto,
{
    if upto > 0 {
        law_identities_with_a_record_are_answered(ids, known, upto - 1);
        let last = upto - 1;
        let earlier = answered(ids, known, last);
        let all = answered(ids, known, upto);
        let leading = ids.take(last);
        let is_first = forall|before: int| 0 <= before < last ==> ids[before] != ids[last];
        assert(leading.contains(ids[last]) <==> !is_first) by {
            if !is_first {
                let before = choose|before: int| 0 <= before < last && ids[before] == ids[last];
                assert(leading[before] == ids[last]);
            }
            if leading.contains(ids[last]) {
                let k = choose|k: int| 0 <= k < leading.len() && leading[k] == ids[last];
                assert(ids[k] == ids[last]);
            }
        }
        assert forall|place: int| #[trigger] all.contains(place) <==> 0 <= place < upto
            && known.contains(ids[place]) && forall|before: int|
            0 <= before < place ==> ids[before] != ids[place] by {
            assert(earlier.contains(place) <==> 0 <= place < last && known.contains(ids[place])
                && forall|before: int| 0 <= before < place ==> ids[before] != ids[place]);
            if earlier.contains(place) {
                let k = choose|k: int| 0 <= k < earlier.len() && earlier[k] == place;
                assert(all[k] == place);
            }
            if known.contains(ids[last]) && is_first {
                assert(all[earlier.len() as int] == last);
            }
            if all.contains(place) && place != last {
                let k = choose|k: int| 0 <= k < all.len() && all[k] == place;
                assert(earlier[k] == place);
            }
        }
        assert(ascends(all, upto)) by {
            assert forall|i: int| 0 <= i < all.len() implies 0 <= #[trigger] all[i] < upto by {
                if i < earlier.len() {
                    assert(all[i] == earlier[i]);
                }
            }
            assert forall|i: int, j: int| 0 <= i < j < all.len() implies #[trigger] all[i]
                < #[trigger] all[j] by {
                assert(all[i] == earlier[i]);
                if j < earlier.len() {
                    assert(all[j] == earlier[j]);
                }
            }
        }
    }
}

/// Whether a segment has a record of an identity whenever it is asked for it.
pub open spec fn always_resolves<
    R: Fn(&Vec<ExtendedPointId>) -> (Vec<ExtendedPointId>, Vec<u32>),
>(resolve: R, id: ExtendedPointId) -> bool {
    forall|ids: Vec<ExtendedPointId>, resolved: (Vec<ExtendedPointId>, Vec<u32>)| #[trigger]
        resolve.ensures((&ids,), resolved) && ids@.contains(id) ==> resolved.0@.contains(id)
}

/// Results come from raw points, in the order of the raw points, each with the identity, the
/// score and the version of its own, and no identity comes twice. A raw point is left out only
/// where it has no identity, no record, or was found before.
pub proof fn law_results_follow_raw_points<
    V,
    L,
    X,
    Y,
    R: Fn(&Vec<ExtendedPointId>) -> (Vec<ExtendedPointId>, Vec<u32>),
    F: Fn(usize, u32) -> OperationResult<Option<V>>,
    P: Fn(u32) -> OperationResult<L>,
    T: Fn() -> bool,
>(
    view: SegmentReadView<X, Y, R, F, P, T>,
    external: spec_fn(u32) -> Option<ExtendedPointId>,
    version: spec_fn(u32) -> Option<u64>,
    points: Seq<ScoredPointOffset>,
    names: Option<Seq<usize>>,
    with_payload: bool,
    results: Seq<FoundPoint<V, L>>,
) -> (places: Seq<int>)
    requires
        processes(view, external, version, points, names, with_payload, results),
    ensures
        ascends(places, points.len() as int),
        places.len() == results.len(),
        forall|i: int|
            0 <= i < places.len() ==> {
                let point = points[#[trigger] places[i]];
                &&& external(point.idx) == Some(results[i].id)
                &&& results[i].score == point.score
                &&& version(point.idx) == Some(results[i].version)
            },
        forall|i: int, j: int|
            #![trigger results[i], results[j]]
            0 <= i < j < results.len() ==> results[i].id != results[j].id,
        forall|place: int|
            0 <= place < points.len() && (external((#[trigger] points[place]).idx) matches Some(id)
                && always_resolves(view.resolve, id) && forall|before: int|
                0 <= before < place ==> external(points[before].idx) != Some(id))
                ==> places.contains(place),
{
    let count = points.len() as int;
    let mapped = mapped_points(points, external, count);
    let (ids, resolved, records) = choose|
        ids: Vec<ExtendedPointId>,
        resolved: (Vec<ExtendedPointId>, Vec<u32>),
        records: Map<ExtendedPointId, SegmentRecord<V, L>>,
    |
        {
            &&& #[trigger] view.resolve.ensures((&ids,), resolved)
            &&& ids@ == mapped_ids(mapped)
            &&& #[trigger] are_retrieved(
                resolved.0@,
                resolved.1@,
                names,
                view.fetch_vector,
                payload_source(view.fetch_payload, with_payload),
                view.stopped,
                records,
            )
            &&& are_found(
                results,
                mapped,
                answered(ids@, resolved.0@.to_set(), mapped.len() as int),
                version,
                records,
            )
        };
    let known = resolved.0@.to_set();
    let origins = law_points_with_an_identity_are_kept(points, external, count);
    law_identities_with_a_record_are_answered(ids@, known, mapped.len() as int);
    let kept = answered(ids@, known, mapped.len() as int);
    let places = Seq::new(kept.len(), |i: int| origins[kept[i]]);
    assert forall|i: int| 0 <= i < places.len() implies {
        let point = points[#[trigger] places[i]];
        &&& external(point.idx) == Some(results[i].id)
        &&& results[i].score == point.score
        &&& version(point.idx) == Some(results[i].version)
    } by {
        let at = kept[i];
        assert(is_found(results[i], mapped[at], version, records));
        assert(places[i] == origins[at]);
    }
    assert forall|i: int, j: int|
        #![trigger results[i], results[j]]
        0 <= i < j < results.len() implies results[i].id != results[j].id by {
        assert(is_found(results[i], mapped[kept[i]], version, records));
        assert(is_found(results[j], mapped[kept[j]], version, records));
        assert(kept.contains(kept[j]));
        assert(ids@[kept[i]] != ids@[kept[j]]);
    }
    assert forall|place: int|
        0 <= place < points.len() && (external((#[trigger] points[place]).idx) matches Some(id)
            && always_resolves(view.resolve, id) && forall|before: int|
            0 <= before < place ==> external(points[before].idx) != Some(id)) implies
        places.contains(place) by {
        let id = external(points[place].idx)->0;
        assert(origins.contains(place));
        let at = choose|at: int| 0 <= at < origins.len() && origins[at] == place;
        assert(mapped[at].id == id);
        assert(ids@[at] == id);
        assert(ids@.contains(id));
        assert(known.contains(id));
        assert forall|before: int| 0 <= before < at implies ids@[before] != ids@[at] by {
            let origin = origins[before];
            assert(origin < place);
            assert(external(points[origin].idx) == Some(mapped[before].id));
        }
        assert(kept.contains(at));
        let k = choose|k: int| 0 <= k < kept.len() && kept[k] == at;
        assert(places[k] == place);
    }
    assert(ascends(places, count)) by {
        assert forall|i: int, j: int| 0 <= i < j < places.len() implies #[trigger] places[i]
            < #[trigger] places[j] by {
            assert(kept[i] < kept[j]);
        }
    }
    places
}

/// Where all raw points have identities that differ and have records, there are as many
/// results as raw points, each with the identity, the score and the version of the raw point
/// at its place, whatever the scores.
pub proof fn law_every_raw_point_is_answered<
    V,
    L,
    X,
    Y,
    R: Fn(&Vec<ExtendedPointId>) -> (Vec<ExtendedPointId>, Vec<u32>),
    F: Fn(usize, u32) -> OperationResult<Option<V>>,
    P: Fn(u32) -> OperationResult<L>,
    T: Fn() -> bool,
>(
    view: SegmentReadView<X, Y, R, F, P, T>,
    external: spec_fn(u32) -> Option<ExtendedPointId>,
    version: spec_fn(u32) -> Option<u64>,
    points: Seq<ScoredPointOffset>,
    names: Option<Seq<usize>>,
    with_payload: bool,
    results: Seq<FoundPoint<V, L>>,
)
    requires
        processes(view, external, version, points, names, with_payload, results),
        forall|i: int|
            0 <= i < points.len() ==> (external((#[trigger] points[i]).idx) matches Some(id)
                && always_resolves(view.resolve, id)),
        forall|i: int, j: int|
            0 <= i < j < points.len() ==> external((#[trigger] points[i]).idx) != external(
                (#[trigger] points[j]).idx,
            ),
    ensures
        results.len() == points.len(),
        forall|i: int|
            0 <= i < points.len() ==> {
                &&& external(points[i].idx) == Some((#[trigger] results[i]).id)
                &&& results[i].score == points[i].score
                &&& version(points[i].idx) == Some(results[i].version)
            },
{
    let places = law_results_follow_raw_points(
        view,
        external,
        version,
        points,
        names,
        with_payload,
        results,
    );
    assert forall|place: int| 0 <= place < points.len() implies places.contains(place) by {
        let _ = points[place];
        assert forall|before: int| 0 <= before < place implies external(points[before].idx)
            != Some(external(points[place].idx)->0) by {
            let _ = points[before];
        }
    }
    lemma_all_places(places, points.len() as int);
    assert forall|i: int| 0 <= i < points.len() implies {
        &&& external(points[i].idx) == Some((#[trigger] results[i]).id)
        &&& results[i].score == points[i].score
        &&& version(points[i].idx) == Some(results[i].version)
    } by {
        assert(places[i] == i);
    }
}

/// Places in ascending order that leave out none are all places.
proof fn lemma_all_places(places: Seq<int>, count: int)
    requires
        0 <= count,
        ascends(places, count),
        forall|place: int| 0 <= place < count ==> places.contains(place),
    ensures
        places.len() == count,
        forall|i: int| 0 <= i < count ==> #[trigger] places[i] == i,
    decreases count,
{
    if count == 0 {
        if places.len() > 0 {
            let first = places[0];
            assert(0 <= first && first < count);
        }
    } else {
        assert(places.contains(count - 1));
        let at = choose|at: int| 0 <= at < places.len() && places[at] == count - 1;
        if at < places.len() - 1 {
            assert(places[at] < places[at + 1]);
        }
        let shorter = places.drop_last();
        assert(places.last() == count - 1);
        assert forall|place: int| 0 <= place < count - 1 implies shorter.contains(place) by {
            assert(places.contains(place));
            let k = choose|k: int| 0 <= k < places.len() && places[k] == place;
            assert(shorter[k] == place);
        }
        assert(ascends(shorter, count - 1)) by {
            assert forall|i: int| 0 <= i < shorter.len() implies 0 <= #[trigger] shorter[i] < count
                - 1 by {
                assert(places[i] < places[places.len() - 1]);
            }
        }
        lemma_all_places(shorter, count - 1);
        assert forall|i: int| 0 <= i < count implies #[trigger] places[i] == i by {
            if i < count - 1 {
                assert(shorter[i] == places[i]);
            }
        }
    }
}

/// The number of indexed points of a vector grows by what a segment has indexed; a segment
/// that does not know the vector leaves it as it was.
pub proof fn law_indexed_counts_add_up(known: usize, count: usize, before: Option<usize>)
    requires
        known + count <= usize::MAX,
    ensures
        indexed_after(Some(known), Some(count)) == Some((known + count) as usize),
        indexed_after(None, Some(count)) == Some(count),
        indexed_after(before, None) == before,
{
}

/// The counts of all vectors are added each to its own, and those behind a failure are
/// left as they were.
pub proof fn law_counts_up_to_a_vector(
    before: Seq<Option<usize>>,
    indexed: Seq<Option<usize>>,
    upto: int,
    vector: int,
)
    requires
        0 <= vector < before.len(),
    ensures
        indexed_up_to(before, indexed, upto).len() == before.len(),
        vector < upto ==> indexed_up_to(before, indexed, upto)[vector] == indexed_after(
            before[vector],
            indexed[vector],
        ),
        vector >= upto ==> indexed_up_to(before, indexed, upto)[vector] == before[vector],
{
}

/// A result carries the identity, the score and the version of its point, and what the
/// record of the identity holds; payloads are read only where they are asked for.
pub proof fn law_results_carry_their_point<V, L, P>(
    results: Seq<FoundPoint<V, L>>,
    points: Seq<MappedPoint>,
    places: Seq<int>,
    version: spec_fn(u32) -> Option<u64>,
    records: Map<ExtendedPointId, SegmentRecord<V, L>>,
    at: int,
    fetch: P,
)
    requires
        are_found(results, points, places, version, records),
        0 <= at < results.len(),
    ensures
        results.len() == places.len(),
        results[at].id == points[places[at]].id,
        results[at].score == points[places[at]].score,
        version(points[places[at]].offset) == Some(results[at].version),
        results[at].vectors == records[results[at].id].vectors,
        results[at].payload == records[results[at].id].payload,
        payload_source(fetch, true) == Some(fetch),
        payload_source(fetch, false) is None,
{
    let result = results[at];
}

/// A version is missing where a point of the identity has none.
pub proof fn law_missing_versions<Y: Fn(u32) -> Option<u64>>(
    version: Y,
    points: Seq<MappedPoint>,
    id: ExtendedPointId,
)
    requires
        lacks_version(version, points, id),
    ensures
        mapped_ids(points).contains(id),
        exists|i: int|
            0 <= i < points.len() && (#[trigger] points[i]).id == id && version.ensures(
                (points[i].offset,),
                None,
            ),
{
    let i = choose|i: int|
        {
            &&& 0 <= i < points.len()
            &&& (#[trigger] points[i]).id == id
            &&& version.ensures((points[i].offset,), None)
        };
    assert(mapped_ids(points)[i] == id);
}

/// A batch of searches is refused as its check says, for a vector that is not known, and as
/// its searches fail, in this order; else every search has its own list of results.
pub proof fn law_answered_batches<
    V,
    L,
    X: Fn(u32) -> Option<ExtendedPointId>,
    Y: Fn(u32) -> Option<u64>,
    R: Fn(&Vec<ExtendedPointId>) -> (Vec<ExtendedPointId>, Vec<u32>),
    F: Fn(usize, u32) -> OperationResult<Option<V>>,
    P: Fn(u32) -> OperationResult<L>,
    T: Fn() -> bool,
    I: Fn() -> OperationResult<Vec<Vec<ScoredPointOffset>>>,
>(
    view: SegmentReadView<X, Y, R, F, P, T>,
    vector_name: Seq<char>,
    checked: OperationResult<()>,
    known: bool,
    search: I,
    names: Option<&Vec<usize>>,
    with_payload: bool,
    result: OperationResult<Vec<Vec<FoundPoint<V, L>>>>,
)
    requires
        searches_batch(
            view,
            vector_name,
            checked,
            known,
            search,
            names,
            with_payload,
            result,
        ),
    ensures
        checked matches Err(error) ==> result == Err::<Vec<Vec<FoundPoint<V, L>>>, OperationError>(
            error,
        ),
        checked is Ok && !known ==> (result matches Err(OperationError::VectorNameNotExists { name })
            && name@ == vector_name),
        result is Ok ==> checked is Ok && known,
        result matches Ok(lists) ==> exists|raw: Vec<Vec<ScoredPointOffset>>|
            #[trigger] search.ensures((), Ok(raw)) && raw@.len() == lists@.len(),
        checked is Ok && known && (forall|found: OperationResult<Vec<Vec<ScoredPointOffset>>>|
            #[trigger] search.ensures((), found) ==> found is Err) ==> result is Err,
{
    if checked is Ok && known {
        let found = choose|found: OperationResult<Vec<Vec<ScoredPointOffset>>>|
            {
                &&& #[trigger] search.ensures((), found)
                &&& match found {
                    Err(error) => result == Err::<Vec<Vec<FoundPoint<V, L>>>, OperationError>(
                        error,
                    ),
                    Ok(raw) => answers_batch(view, raw@, names, with_payload, result),
                }
            };
        if found is Ok {
            assert(search.ensures((), Ok(found->Ok_0)));
        }
    }
}

} // verus!
