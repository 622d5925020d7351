//! The records of a segment that belong to search results.

use crate::id_index::IdIndex;
use crate::n_channel_exact::{can_stop, never_stops};
use crate::operation_error::{OperationError, OperationResult};
use crate::order::ExtendedPointId;
use crate::segment_search::asks;

use vstd::prelude::*;

verus! {

/// What is stored of a point; vectors carry the number of their name.
#[derive(Debug)]
pub struct SegmentRecord<V, L> {
    pub id: ExtendedPointId,
    pub vectors: Option<Vec<(usize, V)>>,
    pub payload: Option<L>,
}

/// Whether everything about vectors can be asked.
pub open spec fn asks_vectors<V, F: Fn(usize, u32) -> OperationResult<Option<V>>>(fetch: F) -> bool {
    forall|name: usize, offset: u32| #[trigger] fetch.requires((name, offset))
}

/// The vectors of one name that the leading answers give a point.
pub open spec fn row_of<V>(
    ids: Seq<ExtendedPointId>,
    name: usize,
    answers: Seq<Option<V>>,
    id: ExtendedPointId,
    upto: int,
) -> Seq<(usize, V)>
    decreases upto,
{
    if upto <= 0 {
        Seq::empty()
    } else {
        let earlier = row_of(ids, name, answers, id, upto - 1);
        if ids[upto - 1] == id && answers[upto - 1] is Some {
            earlier.push((name, answers[upto - 1]->0))
        } else {
            earlier
        }
    }
}

/// The vectors of the leading names that answers give a point.
pub open spec fn collected<V>(
    ids: Seq<ExtendedPointId>,
    names: Seq<usize>,
    answers: Seq<Seq<Option<V>>>,
    id: ExtendedPointId,
    upto: int,
) -> Seq<(usize, V)>
    decreases upto,
{
    if upto <= 0 {
        Seq::empty()
    } else {
        collected(ids, names, answers, id, upto - 1) + row_of(
            ids,
            names[upto - 1],
            answers[upto - 1],
            id,
            answers[upto - 1].len() as int,
        )
    }
}

/// Whether answers are those of a storage, for the leading points of every name.
pub open spec fn are_answers<V, F: Fn(usize, u32) -> OperationResult<Option<V>>>(
    fetch: F,
    names: Seq<usize>,
    offsets: Seq<u32>,
    answers: Seq<Seq<Option<V>>>,
) -> bool {
    &&& answers.len() == names.len()
    &&& forall|n: int| 0 <= n < names.len() ==> (#[trigger] answers[n]).len() <= offsets.len()
    &&& forall|n: int, i: int|
        0 <= n < names.len() && 0 <= i < answers[n].len() ==> fetch.ensures(
            (names[n], offsets[i]),
            Ok(#[trigger] answers[n][i]),
        )
}

/// The records of a set of points, one for each.
pub struct Records<V, L> {
    index: IdIndex,
    records: Vec<Option<SegmentRecord<V, L>>>,
}

impl<V, L> Records<V, L> {
    /// The records by identity.
    pub closed spec fn known(&self) -> Map<ExtendedPointId, SegmentRecord<V, L>> {
        Map::new(
            |id: ExtendedPointId|
                self.index@.dom().contains(id) && self.records@[self.index@[id] as int] is Some,
            |id: ExtendedPointId| self.records@[self.index@[id] as int]->0,
        )
    }

    /// Whether every identity has a place of its own.
    pub closed spec fn wf(&self) -> bool {
        &&& forall|id: ExtendedPointId| #[trigger]
            self.index@.dom().contains(id) ==> self.index@[id] < self.records@.len()
        &&& forall|left: ExtendedPointId, right: ExtendedPointId| #[trigger]
            self.index@.dom().contains(left) && #[trigger] self.index@.dom().contains(right) && left
                != right ==> self.index@[left] != self.index@[right]
        &&& forall|id: ExtendedPointId| #[trigger]
            self.index@.dom().contains(id) ==> (self.records@[self.index@[id] as int] matches Some(
                record,
            ) ==> record.id == id)
    }

    /// Takes the record of a point out.
    pub fn remove(&mut self, id: ExtendedPointId) -> (record: Option<SegmentRecord<V, L>>)
        requires
            old(self).wf(),
        ensures
            final(self).wf(),
            record == (if old(self).known().contains_key(id) {
                Some(old(self).known()[id])
            } else {
                None
            }),
            final(self).known() == old(self).known().remove(id),
    {
        match self.index.get(id) {
            Some(slot) => {
                let mut taken: Option<SegmentRecord<V, L>> = None;
                let place = &mut self.records[slot];
                std::mem::swap(place, &mut taken);
                proof {
                    assert(self.known() =~= old(self).known().remove(id));
                }
                taken
            },
            None => {
                proof {
                    assert(self.known() =~= old(self).known().remove(id));
                }
                None
            },
        }
    }
}

/// Whether a record holds what was asked for of a point.
pub open spec fn is_record<
    V,
    L,
    P: Fn(u32) -> OperationResult<L>,
>(
    ids: Seq<ExtendedPointId>,
    offsets: Seq<u32>,
    names: Option<Seq<usize>>,
    answers: Seq<Seq<Option<V>>>,
    payloads: Option<P>,
    id: ExtendedPointId,
    record: SegmentRecord<V, L>,
) -> bool {
    &&& record.id == id
    &&& match names {
        Some(names) => record.vectors matches Some(vectors) && vectors@ == collected(
            ids,
            names,
            answers,
            id,
            names.len() as int,
        ),
        None => record.vectors is None,
    }
    &&& match payloads {
        Some(fetch) => record.payload matches Some(payload) && exists|at: int|
            {
                &&& 0 <= at < ids.len()
                &&& #[trigger] ids[at] == id
                &&& fetch.ensures((offsets[at],), Ok(payload))
                &&& forall|later: int| at < later < ids.len() ==> #[trigger] ids[later] != id
            },
        None => record.payload is None,
    }
}

/// The names of the vectors that are asked for.
pub open spec fn names_view(names: Option<&Vec<usize>>) -> Option<Seq<usize>> {
    match names {
        Some(names) => Some(names@),
        None => None,
    }
}

/// How payloads are read, where they are asked for.
pub open spec fn payloads_view<P>(fetch: Option<&P>) -> Option<P> {
    match fetch {
        Some(fetch) => Some(*fetch),
        None => None,
    }
}

/// Whether records hold what the given answers of a storage say; the answers are
/// complete where nothing was stopped.
pub open spec fn holds_records<
    V,
    L,
    F: Fn(usize, u32) -> OperationResult<Option<V>>,
    P: Fn(u32) -> OperationResult<L>,
    T: Fn() -> bool,
>(
    ids: Seq<ExtendedPointId>,
    offsets: Seq<u32>,
    names: Option<Seq<usize>>,
    fetch_vector: F,
    fetch_payload: Option<P>,
    stopped: T,
    answers: Seq<Seq<Option<V>>>,
    known: Map<ExtendedPointId, SegmentRecord<V, L>>,
) -> bool {
    &&& names matches Some(names) ==> are_answers(fetch_vector, names, offsets, answers) && (
    never_stops(stopped) ==> forall|n: int| 0 <= n < names.len() ==> (#[trigger] answers[n]).len() == ids.len())
    &&& forall|id: ExtendedPointId| #[trigger]
        known.contains_key(id) ==> is_record::<V, L, P>(
            ids,
            offsets,
            names,
            answers,
            fetch_payload,
            id,
            known[id],
        )
}

/// Whether records hold what a storage has answered.
pub open spec fn are_retrieved<
    V,
    L,
    F: Fn(usize, u32) -> OperationResult<Option<V>>,
    P: Fn(u32) -> OperationResult<L>,
    T: Fn() -> bool,
>(
    ids: Seq<ExtendedPointId>,
    offsets: Seq<u32>,
    names: Option<Seq<usize>>,
    fetch_vector: F,
    fetch_payload: Option<P>,
    stopped: T,
    known: Map<ExtendedPointId, SegmentRecord<V, L>>,
) -> bool {
    exists|answers: Seq<Seq<Option<V>>>| #[trigger]
        holds_records(
            ids,
            offsets,
            names,
            fetch_vector,
            fetch_payload,
            stopped,
            answers,
            known,
        )
}

/// Whether a storage answers a question about a vector with an error.
pub open spec fn refuses_vector<V, F: Fn(usize, u32) -> OperationResult<Option<V>>>(
    fetch: F,
    names: Seq<usize>,
    offsets: Seq<u32>,
    error: OperationError,
) -> bool {
    exists|n: int, i: int|
        {
            &&& 0 <= n < names.len()
            &&& 0 <= i < offsets.len()
            &&& fetch.ensures((#[trigger] names[n], #[trigger] offsets[i]), Err(error))
        }
}

/// Whether a storage answers a question about a payload with an error.
pub open spec fn refuses_payload<L, P: Fn(u32) -> OperationResult<L>>(
    fetch: P,
    offsets: Seq<u32>,
    error: OperationError,
) -> bool {
    exists|i: int| 0 <= i < offsets.len() && fetch.ensures((#[trigger] offsets[i],), Err(error))
}

/// Whether reading records can end with an error: the storage answers it to a question
/// about a vector or a payload, or the operation is stopped before a payload is read.
pub open spec fn ends_retrieval<
    V,
    L,
    F: Fn(usize, u32) -> OperationResult<Option<V>>,
    P: Fn(u32) -> OperationResult<L>,
    T: Fn() -> bool,
>(
    offsets: Seq<u32>,
    names: Option<Seq<usize>>,
    fetch_vector: F,
    fetch_payload: Option<P>,
    stopped: T,
    error: OperationError,
) -> bool {
    ||| names is Some && refuses_vector(fetch_vector, names->0, offsets, error)
    ||| fetch_payload is Some && refuses_payload(fetch_payload->0, offsets, error)
    ||| fetch_payload is Some && error == OperationError::Cancelled && stopped.ensures((), true)
}

/// The records of points, with the vectors of the given names and with payloads where
/// they are asked for. Reading vectors ends early, and reading payloads fails, once
/// the operation is stopped.
#[verifier::rlimit(100)]
#[verifier::loop_isolation(false)]
pub fn retrieve<
    V,
    L,
    F: Fn(usize, u32) -> OperationResult<Option<V>>,
    P: Fn(u32) -> OperationResult<L>,
    T: Fn() -> bool,
>(
    ids: &Vec<ExtendedPointId>,
    offsets: &Vec<u32>,
    names: Option<&Vec<usize>>,
    fetch_vector: &F,
    fetch_payload: Option<&P>,
    stopped: &T,
) -> (result: OperationResult<Records<V, L>>)
    requires
        ids@.len() == offsets@.len(),
        asks_vectors::<V, F>(*fetch_vector),
        fetch_payload matches Some(fetch) ==> asks(*fetch),
        can_stop(*stopped),
    ensures
        result matches Ok(records) ==> records.wf(),
        result matches Ok(records) ==> forall|id: ExtendedPointId| #[trigger]
            records.known().contains_key(id) <==> ids@.contains(id),
        result matches Ok(records) ==> are_retrieved(
            ids@,
            offsets@,
            names_view(names),
            *fetch_vector,
            payloads_view(fetch_payload),
            *stopped,
            records.known(),
        ),
        never_stops(*stopped) && never_fails(*fetch_vector, names) && payloads_never_fail(
            fetch_payload,
        ) ==> result is Ok,
        result matches Err(error) ==> ends_retrieval::<V, L, F, P, T>(
            offsets@,
            names_view(names),
            *fetch_vector,
            payloads_view(fetch_payload),
            *stopped,
            error,
        ),
{
    let mut index = IdIndex::new();
    let mut records: Vec<Option<SegmentRecord<V, L>>> = Vec::new();
    let mut i: usize = 0;
    while i < ids.len()
        invariant
            i <= ids@.len(),
            records@.len() <= i,
            forall|id: ExtendedPointId| #[trigger]
                index@.dom().contains(id) <==> ids@.take(i as int).contains(id),
            forall|id: ExtendedPointId| #[trigger]
                index@.dom().contains(id) ==> index@[id] < records@.len(),
            forall|left: ExtendedPointId, right: ExtendedPointId| #[trigger]
                index@.dom().contains(left) && #[trigger] index@.dom().contains(right) && left
                    != right ==> index@[left] != index@[right],
            forall|id: ExtendedPointId| #[trigger]
                index@.dom().contains(id) ==> {
                    &&& records@[index@[id] as int] matches Some(record)
                    &&& record.id == id
                    &&& record.payload is None
                    &&& names is None ==> record.vectors is None
                    &&& names is Some ==> (record.vectors matches Some(vectors) && vectors@
                        == Seq::<(usize, V)>::empty())
                },
        decreases ids@.len() - i,
    {
        let id = ids[i];
        let ghost before = index@;
        let ghost held = records@;
        let known = index.get(id);
        if known.is_none() {
            let vectors: Option<Vec<(usize, V)>> = match names {
                Some(_) => Some(Vec::new()),
                None => None,
            };
            let slot: usize = records.len();
            records.push(Some(SegmentRecord { id, vectors, payload: None }));
            index.insert(id, slot);
        }
        proof {
            let shorter = ids@.take(i as int);
            let longer = ids@.take(i + 1);
            assert(longer =~= shorter.push(id));
            assert forall|other: ExtendedPointId| #[trigger] index@.dom().contains(other)
                <==> longer.contains(other) by {
                if shorter.contains(other) {
                    let at = choose|at: int| 0 <= at < shorter.len() && shorter[at] == other;
                    assert(longer[at] == other);
                }
                assert(longer[i as int] == id);
                if longer.contains(other) && other != id {
                    let at = choose|at: int| 0 <= at < longer.len() && longer[at] == other;
                    assert(shorter[at] == other);
                }
                assert(before.dom().contains(other) == shorter.contains(other));
            }
            assert forall|other: ExtendedPointId| #[trigger]
                index@.dom().contains(other) implies {
                &&& index@[other] < records@.len()
                &&& records@[index@[other] as int] matches Some(record)
                &&& record.id == other
                &&& record.payload is None
                &&& names is None ==> record.vectors is None
                &&& names is Some ==> (record.vectors matches Some(vectors) && vectors@ == Seq::<
                    (usize, V),
                >::empty())
            } by {
                if before.dom().contains(other) {
                    assert(records@[before[other] as int] == held[before[other] as int]);
                }
            }
        }
        i += 1;
    }
    assert(ids@.take(i as int) =~= ids@);
    let ghost slots = index@;
    let ghost mut answers: Seq<Seq<Option<V>>> = Seq::empty();
    match names {
        Some(listed) => {
            let mut n: usize = 0;
            while n < listed.len()
                invariant
                    n <= listed@.len(),
                    names == Some(listed),
                    ids@.len() == offsets@.len(),
                    asks_vectors::<V, F>(*fetch_vector),
                    can_stop(*stopped),
                    index@ == slots,
                    answers.len() == n,
                    forall|k: int| 0 <= k < n ==> (#[trigger] answers[k]).len() <= ids@.len(),
                    never_stops(*stopped) ==> forall|k: int|
                        0 <= k < n ==> (#[trigger] answers[k]).len() == ids@.len(),
                    forall|k: int, j: int|
                        0 <= k < n && 0 <= j < answers[k].len() ==> fetch_vector.ensures(
                            (listed@[k], offsets@[j]),
                            Ok(#[trigger] answers[k][j]),
                        ),
                    forall|id: ExtendedPointId| #[trigger]
                        slots.dom().contains(id) <==> ids@.contains(id),
                    places_are_distinct(slots, records@.len() as int),
                    forall|id: ExtendedPointId| #[trigger]
                        slots.dom().contains(id) ==> holds_vectors(
                            records@[slots[id] as int],
                            id,
                            collected(ids@, listed@, answers, id, n as int),
                        ),
                decreases listed@.len() - n,
            {
                let name: usize = listed[n];
                let ghost mut row: Seq<Option<V>> = Seq::empty();
                let ghost earlier = answers;
                let mut j: usize = 0;
                let mut going = true;
                proof {
                    assert forall|id: ExtendedPointId| #[trigger]
                        slots.dom().contains(id) implies holds_vectors(
                        records@[slots[id] as int],
                        id,
                        collected(ids@, listed@, earlier, id, n as int) + row_of(
                            ids@,
                            name,
                            row,
                            id,
                            0,
                        ),
                    ) by {
                        assert(collected(ids@, listed@, earlier, id, n as int) + row_of(
                            ids@,
                            name,
                            row,
                            id,
                            0,
                        ) =~= collected(ids@, listed@, earlier, id, n as int));
                    }
                }
                while going && j < ids.len()
                    invariant
                        n < listed@.len(),
                        names == Some(listed),
                        name == listed@[n as int],
                        j <= ids@.len(),
                        ids@.len() == offsets@.len(),
                        asks_vectors::<V, F>(*fetch_vector),
                        can_stop(*stopped),
                        never_stops(*stopped) ==> going,
                        index@ == slots,
                        row.len() == j,
                        forall|k: int|
                            0 <= k < j ==> fetch_vector.ensures(
                                (name, offsets@[k]),
                                Ok(#[trigger] row[k]),
                            ),
                        forall|id: ExtendedPointId| #[trigger]
                            slots.dom().contains(id) <==> ids@.contains(id),
                        places_are_distinct(slots, records@.len() as int),
                        forall|id: ExtendedPointId| #[trigger]
                            slots.dom().contains(id) ==> holds_vectors(
                                records@[slots[id] as int],
                                id,
                                collected(ids@, listed@, earlier, id, n as int) + row_of(
                                    ids@,
                                    name,
                                    row,
                                    id,
                                    j as int,
                                ),
                            ),
                    decreases ids@.len() - j, (if going { 1int } else { 0int }),
                {
                    if stopped() {
                        going = false;
                    } else {
                        let answer = fetch_vector(name, offsets[j]);
                        assert(fetch_vector.ensures((name, offsets@[j as int]), answer));
                        match answer {
                            Err(error) => {
                                proof {
                                    assert(!never_fails(*fetch_vector, names));
                                    let asked = listed@;
                                    assert(names_view(names) == Some(asked));
                                    assert(0 <= n < asked.len() && 0 <= j < offsets@.len());
                                    assert((*fetch_vector).ensures(
                                        (asked[n as int], offsets@[j as int]),
                                        Err(error),
                                    ));
                                    assert(refuses_vector(*fetch_vector, asked, offsets@, error));
                                }
                                return Err(error);
                            },
                            Ok(found) => {
                                let ghost given = found;
                                let ghost held = records@;
                                let ghost before = row;
                                let id = ids[j];
                                assert(ids@.contains(id));
                                match found {
                                    Some(vector) => {
                                        match index.get(id) {
                                            Some(slot) => {
                                                let place = &mut records[slot];
                                                let ghost kept = *place;
                                                push_vector(place, name, vector);
                                            },
                                            None => {},
                                        }
                                    },
                                    None => {},
                                }
                                proof {
                                    row = before.push(given);
                                    assert forall|other: ExtendedPointId| #[trigger]
                                        slots.dom().contains(other) implies holds_vectors(
                                        records@[slots[other] as int],
                                        other,
                                        collected(ids@, listed@, earlier, other, n as int)
                                            + row_of(ids@, name, row, other, j + 1),
                                    ) by {
                                        lemma_row_extends(ids@, name, before, given, other, j as int);
                                        let done = collected(
                                            ids@,
                                            listed@,
                                            earlier,
                                            other,
                                            n as int,
                                        );
                                        let shorter = row_of(ids@, name, before, other, j as int);
                                        assert(holds_vectors(
                                            held[slots[other] as int],
                                            other,
                                            done + shorter,
                                        ));
                                        if other == id && given is Some {
                                            assert(done + shorter.push((name, given->0)) =~= (done
                                                + shorter).push((name, given->0)));
                                        }
                                    }
                                    assert forall|k: int| 0 <= k < j + 1 implies fetch_vector.ensures(
                                        (name, offsets@[k]),
                                        Ok(#[trigger] row[k]),
                                    ) by {
                                        if k < j {
                                            assert(row[k] == before[k]);
                                        }
                                    }
                                }
                                j += 1;
                            },
                        }
                    }
                }
                proof {
                    answers = earlier.push(row);
                    assert forall|id: ExtendedPointId| #[trigger]
                        slots.dom().contains(id) implies holds_vectors(
                        records@[slots[id] as int],
                        id,
                        collected(ids@, listed@, answers, id, n + 1),
                    ) by {
                        lemma_collected_extends(ids@, listed@, earlier, row, id, n as int);
                    }
                    assert forall|k: int, m: int|
                        0 <= k < n + 1 && 0 <= m < answers[k].len() implies fetch_vector.ensures(
                        (listed@[k], offsets@[m]),
                        Ok(#[trigger] answers[k][m]),
                    ) by {
                        if k < n {
                            assert(answers[k] == earlier[k]);
                            assert(earlier[k][m] == answers[k][m]);
                        } else {
                            assert(row[m] == answers[k][m]);
                        }
                    }
                    assert forall|k: int| 0 <= k < n + 1 implies (#[trigger] answers[k]).len()
                        <= ids@.len() by {
                        if k < n {
                            assert(answers[k] == earlier[k]);
                        }
                    }
                    if never_stops(*stopped) {
                        assert forall|k: int| 0 <= k < n + 1 implies (#[trigger] answers[k]).len()
                            == ids@.len() by {
                            if k < n {
                                assert(answers[k] == earlier[k]);
                            }
                        }
                    }
                }
                n += 1;
            }
        },
        None => {},
    }
    let ghost gathered = records@;
    match fetch_payload {
        Some(fetch) => {
            let mut j: usize = 0;
            while j < ids.len()
                invariant
                    j <= ids@.len(),
                    ids@.len() == offsets@.len(),
                    asks(*fetch),
                    can_stop(*stopped),
                    fetch_payload == Some(fetch),
                    index@ == slots,
                    gathered.len() == records@.len(),
                    forall|id: ExtendedPointId| #[trigger]
                        slots.dom().contains(id) <==> ids@.contains(id),
                    places_are_distinct(slots, records@.len() as int),
                    forall|id: ExtendedPointId| #[trigger]
                        slots.dom().contains(id) ==> gathered[slots[id] as int] is Some,
                    forall|id: ExtendedPointId| #[trigger]
                        slots.dom().contains(id) ==> has_payload(
                            *fetch,
                            ids@,
                            offsets@,
                            id,
                            j as int,
                            gathered[slots[id] as int]->0,
                            records@[slots[id] as int],
                        ),
                decreases ids@.len() - j,
            {
                if stopped() {
                    return Err(OperationError::Cancelled);
                }
                let answer = fetch(offsets[j]);
                assert(fetch.ensures((offsets@[j as int],), answer));
                match answer {
                    Err(error) => {
                        return Err(error);
                    },
                    Ok(payload) => {
                        let ghost given = payload;
                        let ghost held = records@;
                        let id = ids[j];
                        assert(ids@.contains(id));
                        match index.get(id) {
                            Some(slot) => {
                                let place = &mut records[slot];
                                set_payload(place, payload);
                            },
                            None => {},
                        }
                        proof {
                            assert forall|other: ExtendedPointId| #[trigger]
                                slots.dom().contains(other) implies has_payload(
                                *fetch,
                                ids@,
                                offsets@,
                                other,
                                j + 1,
                                gathered[slots[other] as int]->0,
                                records@[slots[other] as int],
                            ) by {
                                assert(has_payload(
                                    *fetch,
                                    ids@,
                                    offsets@,
                                    other,
                                    j as int,
                                    gathered[slots[other] as int]->0,
                                    held[slots[other] as int],
                                ));
                                if other == id {
                                    assert(ids@[j as int] == other);
                                } else {
                                    assert(records@[slots[other] as int]
                                        == held[slots[other] as int]);
                                    if is_listed_before(ids@, other, j + 1) {
                                        let at = choose|at: int|
                                            0 <= at < j + 1 && #[trigger] ids@[at] == other;
                                        assert(at < j);
                                        assert(is_listed_before(ids@, other, j as int));
                                    }
                                    if is_listed_before(ids@, other, j as int) {
                                        let at = choose|at: int|
                                            {
                                                &&& 0 <= at < j
                                                &&& #[trigger] ids@[at] == other
                                                &&& fetch.ensures(
                                                    (offsets@[at],),
                                                    Ok(
                                                        held[slots[other] as int]->0.payload->0,
                                                    ),
                                                )
                                                &&& forall|later: int|
                                                    at < later < j ==> #[trigger] ids@[later]
                                                        != other
                                            };
                                        assert(ids@[at] == other);
                                    }
                                }
                            }
                        }
                    },
                }
                j += 1;
            }
        },
        None => {},
    }
    let found = Records { index, records };
    proof {
        assert forall|id: ExtendedPointId| #[trigger] found.known().contains_key(id)
            <==> ids@.contains(id) by {
            if ids@.contains(id) {
                assert(slots.dom().contains(id));
            }
        }
        assert forall|id: ExtendedPointId| #[trigger]
            found.known().contains_key(id) implies is_record::<V, L, P>(
            ids@,
            offsets@,
            names_view(names),
            answers,
            payloads_view(fetch_payload),
            id,
            found.known()[id],
        ) by {
            assert(slots.dom().contains(id));
            if fetch_payload is Some {
                let fetch = fetch_payload->0;
                let at = choose|at: int| 0 <= at < ids@.len() && ids@[at] == id;
                assert(ids@[at] == id);
                assert(is_listed_before(ids@, id, ids@.len() as int));
            }
        }
        if names is Some {
            assert(are_answers(*fetch_vector, names->0@, offsets@, answers));
        }
        assert(holds_records(
            ids@,
            offsets@,
            names_view(names),
            *fetch_vector,
            payloads_view(fetch_payload),
            *stopped,
            answers,
            found.known(),
        ));
    }
    assert(found.wf());
    assert(are_retrieved(
        ids@,
        offsets@,
        names_view(names),
        *fetch_vector,
        payloads_view(fetch_payload),
        *stopped,
        found.known(),
    ));
    Ok(found)
}

/// Whether every identity has a place of its own.
spec fn places_are_distinct(slots: Map<ExtendedPointId, usize>, count: int) -> bool {
    &&& forall|id: ExtendedPointId| #[trigger] slots.dom().contains(id) ==> slots[id] < count
    &&& forall|left: ExtendedPointId, right: ExtendedPointId| #[trigger]
        slots.dom().contains(left) && #[trigger] slots.dom().contains(right) && left != right
            ==> slots[left] != slots[right]
}

/// Whether a record of a point holds the given vectors and no payload.
spec fn holds_vectors<V, L>(
    record: Option<SegmentRecord<V, L>>,
    id: ExtendedPointId,
    vectors: Seq<(usize, V)>,
) -> bool {
    &&& record matches Some(record)
    &&& record.id == id
    &&& record.payload is None
    &&& record.vectors matches Some(held)
    &&& held@ == vectors
}

/// Whether an identity occurs before a place.
spec fn is_listed_before(ids: Seq<ExtendedPointId>, id: ExtendedPointId, upto: int) -> bool {
    exists|at: int| 0 <= at < upto && #[trigger] ids[at] == id
}

/// Whether a record has the payload of the last leading occurrence of its point, and is
/// otherwise what it was.
spec fn has_payload<V, L, P: Fn(u32) -> OperationResult<L>>(
    fetch: P,
    ids: Seq<ExtendedPointId>,
    offsets: Seq<u32>,
    id: ExtendedPointId,
    upto: int,
    before: SegmentRecord<V, L>,
    record: Option<SegmentRecord<V, L>>,
) -> bool {
    &&& record matches Some(record)
    &&& record.id == before.id
    &&& record.vectors == before.vectors
    &&& if is_listed_before(ids, id, upto) {
        record.payload matches Some(payload) && exists|at: int|
            {
                &&& 0 <= at < upto
                &&& #[trigger] ids[at] == id
                &&& fetch.ensures((offsets[at],), Ok(payload))
                &&& forall|later: int| at < later < upto ==> #[trigger] ids[later] != id
            }
    } else {
        record.payload == before.payload
    }
}

/// Adds a vector to a record.
fn push_vector<V, L>(place: &mut Option<SegmentRecord<V, L>>, name: usize, vector: V)
    ensures
        match *old(place) {
            Some(record) => match record.vectors {
                Some(vectors) => {
                    &&& *final(place) matches Some(after)
                    &&& after.id == record.id
                    &&& after.payload == record.payload
                    &&& after.vectors matches Some(longer)
                    &&& longer@ == vectors@.push((name, vector))
                },
                None => *final(place) == *old(place),
            },
            None => *final(place) == *old(place),
        },
{
    match place {
        Some(record) => {
            match &mut record.vectors {
                Some(vectors) => {
                    vectors.push((name, vector));
                },
                None => {},
            }
        },
        None => {},
    }
}

/// Gives a record its payload.
fn set_payload<V, L>(place: &mut Option<SegmentRecord<V, L>>, payload: L)
    ensures
        match *old(place) {
            Some(record) => {
                &&& *final(place) matches Some(after)
                &&& after.id == record.id
                &&& after.vectors == record.vectors
                &&& after.payload == Some(payload)
            },
            None => *final(place) == *old(place),
        },
{
    match place {
        Some(record) => {
            record.payload = Some(payload);
        },
        None => {},
    }
}

proof fn lemma_row_extends<V>(
    ids: Seq<ExtendedPointId>,
    name: usize,
    answers: Seq<Option<V>>,
    answer: Option<V>,
    id: ExtendedPointId,
    upto: int,
)
    requires
        0 <= upto == answers.len(),
    ensures
        row_of(ids, name, answers.push(answer), id, upto) == row_of(ids, name, answers, id, upto),
        row_of(ids, name, answers.push(answer), id, upto + 1) == (if ids[upto] == id
            && answer is Some {
            row_of(ids, name, answers, id, upto).push((name, answer->0))
        } else {
            row_of(ids, name, answers, id, upto)
        }),
{
    lemma_row_agrees(ids, name, answers.push(answer), answers, id, upto);
}

proof fn lemma_row_agrees<V>(
    ids: Seq<ExtendedPointId>,
    name: usize,
    left: Seq<Option<V>>,
    right: Seq<Option<V>>,
    id: ExtendedPointId,
    upto: int,
)
    requires
        upto <= left.len(),
        upto <= right.len(),
        forall|i: int| 0 <= i < upto ==> #[trigger] left[i] == right[i],
    ensures
        row_of(ids, name, left, id, upto) == row_of(ids, name, right, id, upto),
    decreases upto,
{
    if upto > 0 {
        lemma_row_agrees(ids, name, left, right, id, upto - 1);
        assert(left[upto - 1] == right[upto - 1]);
    }
}

proof fn lemma_collected_extends<V>(
    ids: Seq<ExtendedPointId>,
    names: Seq<usize>,
    answers: Seq<Seq<Option<V>>>,
    row: Seq<Option<V>>,
    id: ExtendedPointId,
    upto: int,
)
    requires
        0 <= upto == answers.len(),
    ensures
        collected(ids, names, answers.push(row), id, upto + 1) == collected(
            ids,
            names,
            answers,
            id,
            upto,
        ) + row_of(ids, names[upto], row, id, row.len() as int),
{
    lemma_collected_agrees(ids, names, answers.push(row), answers, id, upto);
}

proof fn lemma_collected_agrees<V>(
    ids: Seq<ExtendedPointId>,
    names: Seq<usize>,
    left: Seq<Seq<Option<V>>>,
    right: Seq<Seq<Option<V>>>,
    id: ExtendedPointId,
    upto: int,
)
    requires
        upto <= left.len(),
        upto <= right.len(),
        forall|i: int| 0 <= i < upto ==> #[trigger] left[i] == right[i],
    ensures
        collected(ids, names, left, id, upto) == collected(ids, names, right, id, upto),
    decreases upto,
{
    if upto > 0 {
        lemma_collected_agrees(ids, names, left, right, id, upto - 1);
        assert(left[upto - 1] == right[upto - 1]);
    }
}

/// Whether reading vectors never fails.
pub open spec fn never_fails<V, F: Fn(usize, u32) -> OperationResult<Option<V>>>(
    fetch: F,
    names: Option<&Vec<usize>>,
) -> bool {
    names is Some ==> forall|name: usize, offset: u32, answer: OperationResult<Option<V>>|
        #[trigger] fetch.ensures((name, offset), answer) ==> answer is Ok
}

/// Whether reading payloads never fails.
pub open spec fn payloads_never_fail<L, P: Fn(u32) -> OperationResult<L>>(
    fetch: Option<&P>,
) -> bool {
    fetch matches Some(fetch) ==> forall|offset: u32, answer: OperationResult<L>| #[trigger]
        fetch.ensures((offset,), answer) ==> answer is Ok
}

/// A point that was asked for once has, of each name, the one vector that the storage
/// answers, and none where it answers none.
pub proof fn law_row_of_a_point<V>(
    ids: Seq<ExtendedPointId>,
    name: usize,
    answers: Seq<Option<V>>,
    at: int,
)
    requires
        ids.no_duplicates(),
        answers.len() <= ids.len(),
        0 <= at < ids.len(),
    ensures
        row_of(ids, name, answers, ids[at], answers.len() as int) == (if at < answers.len()
            && answers[at] is Some {
            seq![(name, answers[at]->0)]
        } else {
            Seq::<(usize, V)>::empty()
        }),
{
    lemma_row_of_a_point(ids, name, answers, at, answers.len() as int);
}

proof fn lemma_row_of_a_point<V>(
    ids: Seq<ExtendedPointId>,
    name: usize,
    answers: Seq<Option<V>>,
    at: int,
    upto: int,
)
    requires
        ids.no_duplicates(),
        0 <= upto <= answers.len() <= ids.len(),
        0 <= at < ids.len(),
    ensures
        row_of(ids, name, answers, ids[at], upto) == (if at < upto && answers[at] is Some {
            seq![(name, answers[at]->0)]
        } else {
            Seq::<(usize, V)>::empty()
        }),
    decreases upto,
{
    if upto > 0 {
        lemma_row_of_a_point(ids, name, answers, at, upto - 1);
        if upto - 1 == at && answers[at] is Some {
            assert(row_of(ids, name, answers, ids[at], upto) =~= seq![(name, answers[at]->0)]);
        }
    }
}

/// The vectors of a point are those that the storage answers for it, and all of them.
pub proof fn law_collected_vectors_are_the_answers<V>(
    ids: Seq<ExtendedPointId>,
    names: Seq<usize>,
    answers: Seq<Seq<Option<V>>>,
    id: ExtendedPointId,
    name: usize,
    vector: V,
)
    requires
        answers.len() == names.len(),
    ensures
        collected(ids, names, answers, id, names.len() as int).contains((name, vector)) <==> exists|
            n: int,
            i: int,
        |
            {
                &&& 0 <= n < names.len()
                &&& 0 <= i < answers[n].len()
                &&& names[n] == name
                &&& ids[i] == id
                &&& #[trigger] answers[n][i] == Some(vector)
            },
{
    lemma_collected_holds(ids, names, answers, id, names.len() as int, name, vector);
}

proof fn lemma_row_holds<V>(
    ids: Seq<ExtendedPointId>,
    name: usize,
    answers: Seq<Option<V>>,
    id: ExtendedPointId,
    upto: int,
    vector: V,
)
    requires
        0 <= upto <= answers.len(),
    ensures
        row_of(ids, name, answers, id, upto).contains((name, vector)) <==> exists|i: int|
            0 <= i < upto && ids[i] == id && #[trigger] answers[i] == Some(vector),
        forall|other: usize, held: V| #[trigger]
            row_of(ids, name, answers, id, upto).contains((other, held)) ==> other == name,
    decreases upto,
{
    if upto > 0 {
        lemma_row_holds(ids, name, answers, id, upto - 1, vector);
        let earlier = row_of(ids, name, answers, id, upto - 1);
        let row = row_of(ids, name, answers, id, upto);
        let last = answers[upto - 1];
        if ids[upto - 1] == id && last is Some {
            assert forall|other: usize, held: V| #[trigger] row.contains((other, held)) implies
                other == name by {
                let at = choose|at: int| 0 <= at < row.len() && row[at] == (other, held);
                if at < earlier.len() {
                    assert(earlier[at] == (other, held));
                    assert(earlier.contains((other, held)));
                }
            }
            if row.contains((name, vector)) {
                let at = choose|at: int| 0 <= at < row.len() && row[at] == (name, vector);
                if at < earlier.len() {
                    assert(earlier[at] == (name, vector));
                    assert(earlier.contains((name, vector)));
                } else {
                    assert(answers[upto - 1] == Some(vector));
                }
            }
            if earlier.contains((name, vector)) {
                let at = choose|at: int| 0 <= at < earlier.len() && earlier[at] == (name, vector);
                assert(row[at] == (name, vector));
            }
            assert(row[earlier.len() as int] == (name, last->0));
        }
    }
}

proof fn lemma_collected_holds<V>(
    ids: Seq<ExtendedPointId>,
    names: Seq<usize>,
    answers: Seq<Seq<Option<V>>>,
    id: ExtendedPointId,
    upto: int,
    name: usize,
    vector: V,
)
    requires
        0 <= upto <= answers.len() == names.len(),
    ensures
        collected(ids, names, answers, id, upto).contains((name, vector)) <==> exists|
            n: int,
            i: int,
        |
            {
                &&& 0 <= n < upto
                &&& 0 <= i < answers[n].len()
                &&& names[n] == name
                &&& ids[i] == id
                &&& #[trigger] answers[n][i] == Some(vector)
            },
    decreases upto,
{
    if upto > 0 {
        lemma_collected_holds(ids, names, answers, id, upto - 1, name, vector);
        let last = answers[upto - 1];
        lemma_row_holds(ids, names[upto - 1], last, id, last.len() as int, vector);
        let earlier = collected(ids, names, answers, id, upto - 1);
        let row = row_of(ids, names[upto - 1], last, id, last.len() as int);
        let all = collected(ids, names, answers, id, upto);
        assert(all =~= earlier + row);
        if all.contains((name, vector)) {
            let at = choose|at: int| 0 <= at < all.len() && all[at] == (name, vector);
            if at < earlier.len() {
                assert(earlier[at] == (name, vector));
                assert(earlier.contains((name, vector)));
                let (n, i) = choose|n: int, i: int|
                    {
                        &&& 0 <= n < upto - 1
                        &&& 0 <= i < answers[n].len()
                        &&& names[n] == name
                        &&& ids[i] == id
                        &&& #[trigger] answers[n][i] == Some(vector)
                    };
                assert(answers[n][i] == Some(vector));
            } else {
                assert(row[at - earlier.len()] == (name, vector));
                assert(row.contains((name, vector)));
                let i = choose|i: int|
                    0 <= i < last.len() && ids[i] == id && #[trigger] last[i] == Some(vector);
                assert(answers[upto - 1][i] == Some(vector));
            }
        }
        if exists|n: int, i: int|
            {
                &&& 0 <= n < upto
                &&& 0 <= i < answers[n].len()
                &&& names[n] == name
                &&& ids[i] == id
                &&& #[trigger] answers[n][i] == Some(vector)
            } {
            let (n, i) = choose|n: int, i: int|
                {
                    &&& 0 <= n < upto
                    &&& 0 <= i < answers[n].len()
                    &&& names[n] == name
                    &&& ids[i] == id
                    &&& #[trigger] answers[n][i] == Some(vector)
                };
            if n < upto - 1 {
                assert(answers[n][i] == Some(vector));
                assert(earlier.contains((name, vector)));
                let at = choose|at: int| 0 <= at < earlier.len() && earlier[at] == (name, vector);
                assert(all[at] == (name, vector));
            } else {
                assert(last[i] == Some(vector));
                assert(row.contains((name, vector)));
                let at = choose|at: int| 0 <= at < row.len() && row[at] == (name, vector);
                assert(all[earlier.len() + at] == (name, vector));
            }
        }
    }
}

/// A record is the point's own, and holds vectors and a payload exactly where they were
/// asked for. Where nothing stops the reading, every vector and the payload are what the
/// storage answers for the point.
pub proof fn law_records_hold_what_was_asked_for<
    V,
    L,
    F: Fn(usize, u32) -> OperationResult<Option<V>>,
    P: Fn(u32) -> OperationResult<L>,
    T: Fn() -> bool,
>(
    ids: Seq<ExtendedPointId>,
    offsets: Seq<u32>,
    names: Option<Seq<usize>>,
    fetch_vector: F,
    fetch_payload: Option<P>,
    stopped: T,
    known: Map<ExtendedPointId, SegmentRecord<V, L>>,
    at: int,
)
    requires
        ids.no_duplicates(),
        ids.len() == offsets.len(),
        0 <= at < ids.len(),
        known.contains_key(ids[at]),
        never_stops(stopped),
        are_retrieved(ids, offsets, names, fetch_vector, fetch_payload, stopped, known),
    ensures
        known[ids[at]].id == ids[at],
        known[ids[at]].vectors is Some <==> names is Some,
        known[ids[at]].payload is Some <==> fetch_payload is Some,
        fetch_payload is Some ==> fetch_payload->0.ensures(
            (offsets[at],),
            Ok(known[ids[at]].payload->0),
        ),
        names is Some ==> forall|n: int|
            0 <= n < names->0.len() ==> exists|answer: Option<V>| #[trigger]
                fetch_vector.ensures((#[trigger] names->0[n], offsets[at]), Ok(answer)) && (
                answer matches Some(vector) ==> known[ids[at]].vectors->0@.contains(
                    (names->0[n], vector),
                )),
        names is Some ==> forall|k: int|
            0 <= k < known[ids[at]].vectors->0@.len() ==> {
                let (name, vector) = #[trigger] known[ids[at]].vectors->0@[k];
                &&& names->0.contains(name)
                &&& fetch_vector.ensures((name, offsets[at]), Ok(Some(vector)))
            },
{
    let answers = choose|answers: Seq<Seq<Option<V>>>| #[trigger]
        holds_records(
            ids,
            offsets,
            names,
            fetch_vector,
            fetch_payload,
            stopped,
            answers,
            known,
        );
    let id = ids[at];
    let record = known[id];
    assert(is_record::<V, L, P>(ids, offsets, names, answers, fetch_payload, id, record));
    if fetch_payload is Some {
        let place = choose|place: int|
            {
                &&& 0 <= place < ids.len()
                &&& #[trigger] ids[place] == id
                &&& fetch_payload->0.ensures((offsets[place],), Ok(record.payload->0))
                &&& forall|later: int| place < later < ids.len() ==> #[trigger] ids[later] != id
            };
        assert(place == at);
    }
    if names is Some {
        let listed = names->0;
        let vectors = record.vectors->0@;
        assert forall|n: int| 0 <= n < listed.len() implies exists|answer: Option<V>| #[trigger]
            fetch_vector.ensures((#[trigger] listed[n], offsets[at]), Ok(answer)) && (
            answer matches Some(vector) ==> vectors.contains((listed[n], vector))) by {
            assert(answers[n].len() == ids.len());
            let answer = answers[n][at];
            assert(fetch_vector.ensures((listed[n], offsets[at]), Ok(answer)));
            if answer is Some {
                law_collected_vectors_are_the_answers(
                    ids,
                    listed,
                    answers,
                    id,
                    listed[n],
                    answer->0,
                );
            }
        }
        assert forall|k: int| 0 <= k < vectors.len() implies {
            let (name, vector) = #[trigger] vectors[k];
            &&& listed.contains(name)
            &&& fetch_vector.ensures((name, offsets[at]), Ok(Some(vector)))
        } by {
            let (name, vector) = vectors[k];
            assert(vectors.contains((name, vector)));
            law_collected_vectors_are_the_answers(ids, listed, answers, id, name, vector);
            let (n, i) = choose|n: int, i: int|
                {
                    &&& 0 <= n < listed.len()
                    &&& 0 <= i < answers[n].len()
                    &&& listed[n] == name
                    &&& ids[i] == id
                    &&& #[trigger] answers[n][i] == Some(vector)
                };
            assert(answers[n].len() == ids.len());
            assert(i == at);
            assert(fetch_vector.ensures((listed[n], offsets[i]), Ok(answers[n][i])));
        }
    }
}

/// Reading records ends with an error that the storage answers to a question about a vector
/// of a name that is asked for, or about a payload where payloads are, or because it was
/// stopped.
pub proof fn law_ended_retrievals<
    V,
    L,
    F: Fn(usize, u32) -> OperationResult<Option<V>>,
    P: Fn(u32) -> OperationResult<L>,
    T: Fn() -> bool,
>(
    offsets: Seq<u32>,
    names: Option<Seq<usize>>,
    fetch_vector: F,
    fetch_payload: Option<P>,
    stopped: T,
    error: OperationError,
)
    requires
        ends_retrieval::<V, L, F, P, T>(
            offsets,
            names,
            fetch_vector,
            fetch_payload,
            stopped,
            error,
        ),
        never_stops(stopped),
    ensures
        (names is Some && exists|name: usize, offset: u32|
            names->0.contains(name) && offsets.contains(offset) && #[trigger] fetch_vector.ensures(
                (name, offset),
                Err(error),
            )) || (fetch_payload is Some && exists|offset: u32|
            offsets.contains(offset) && #[trigger] fetch_payload->0.ensures((offset,), Err(error))),
{
    if names is Some && refuses_vector(fetch_vector, names->0, offsets, error) {
        let listed = names->0;
        let (n, i) = choose|n: int, i: int|
            {
                &&& 0 <= n < listed.len()
                &&& 0 <= i < offsets.len()
                &&& fetch_vector.ensures((#[trigger] listed[n], #[trigger] offsets[i]), Err(error))
            };
        assert(listed.contains(listed[n]) && offsets.contains(offsets[i]));
        assert(fetch_vector.ensures((listed[n], offsets[i]), Err(error)));
    } else if fetch_payload is Some && refuses_payload(fetch_payload->0, offsets, error) {
        let fetch = fetch_payload->0;
        let i = choose|i: int|
            0 <= i < offsets.len() && fetch.ensures((#[trigger] offsets[i],), Err(error));
        assert(offsets.contains(offsets[i]));
        assert(fetch.ensures((offsets[i],), Err(error)));
    }
}

} // verus!
