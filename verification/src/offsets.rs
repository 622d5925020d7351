//! Sets of point offsets.

use crate::dense_certificate::{is_interval, valid_bounds, PendingBound};
use crate::operation_error::{inconsistency, inconsistent, Fault, OperationResult};
use crate::order::{is_finite_key, ExtendedPointId};
use crate::rank_queue::{lemma_ordered, order_entries, RankEntry};
use vstd::prelude::*;

verus! {

/// Whether `places` lists every index of `ids` once, by ascending offset.
pub open spec fn is_ascending(ids: Seq<u32>, places: Seq<usize>) -> bool {
    &&& places.len() == ids.len()
    &&& places.no_duplicates()
    &&& forall|i: int| 0 <= i < places.len() ==> #[trigger] places[i] < ids.len()
    &&& forall|i: int, j: int|
        0 <= i < j < places.len() ==> ids[#[trigger] places[i] as int]
            <= ids[#[trigger] places[j] as int]
}

/// The indices of some offsets, by ascending offset.
pub fn ascending(ids: &Vec<u32>) -> (places: Vec<usize>)
    ensures
        is_ascending(ids@, places@),
        forall|i: int| 0 <= i < ids@.len() ==> #[trigger] places@.contains(i as usize),
{
    let mut entries: Vec<RankEntry> = Vec::new();
    let ghost all = Seq::new(
        ids@.len(),
        |i: int| RankEntry {
            score: 0,
            id: ExtendedPointId::NumId(ids@[i] as u64),
            slot: i as usize,
        },
    );
    let mut i: usize = 0;
    while i < ids.len()
        invariant
            i <= ids@.len(),
            all == Seq::new(
                ids@.len(),
                |i: int| RankEntry {
                    score: 0,
                    id: ExtendedPointId::NumId(ids@[i] as u64),
                    slot: i as usize,
                },
            ),
            entries@ =~= all.take(i as int),
        decreases ids@.len() - i,
    {
        entries.push(RankEntry { score: 0, id: ExtendedPointId::NumId(ids[i] as u64), slot: i });
        i += 1;
    }
    assert(entries@ =~= all);
    let order = order_entries(entries);
    proof {
        lemma_ordered(all);
        assert(all.no_duplicates()) by {
            assert forall|i: int, j: int| 0 <= i < all.len() && 0 <= j < all.len() && i != j implies all[i]
                != all[j] by {
                assert(all[i].slot == i && all[j].slot == j);
            }
        }
        crate::reciprocal_rank_fusion::certificate::lemma_order_no_duplicates(all);
        assert forall|i: int| 0 <= i < order@.len() implies {
            &&& (#[trigger] order@[i]).slot < ids@.len()
            &&& order@[i] == all[order@[i].slot as int]
        } by {
            assert(order@.contains(order@[i]));
            assert(all.contains(order@[i]));
        }
    }
    let mut places: Vec<usize> = Vec::new();
    let mut place: usize = 0;
    while place < order.len()
        invariant
            place <= order@.len(),
            places@ =~= Seq::new(place as nat, |i: int| order@[i].slot),
        decreases order@.len() - place,
    {
        places.push(order[place].slot);
        place += 1;
    }
    proof {
        assert forall|i: int, j: int| 0 <= i < places@.len() && 0 <= j < places@.len() && i != j implies places@[i]
            != places@[j] by {
            assert(order@[i] != order@[j]);
            assert(order@[i] == all[order@[i].slot as int]);
            assert(order@[j] == all[order@[j].slot as int]);
        }
        assert forall|i: int, j: int| 0 <= i < j < places@.len() implies ids@[
        #[trigger] places@[i] as int] <= ids@[#[trigger] places@[j] as int] by {
            assert(!order@[j].precedes(order@[i]));
            assert(order@[i] == all[order@[i].slot as int]);
            assert(order@[j] == all[order@[j].slot as int]);
        }
        assert forall|i: int| 0 <= i < ids@.len() implies #[trigger] places@.contains(
            i as usize,
        ) by {
            assert(all.contains(all[i]));
            assert(order@.contains(all[i]));
            let at = choose|at: int| 0 <= at < order@.len() && order@[at] == all[i];
            assert(places@[at] == i as usize);
        }
    }
    places
}

/// Whether offsets are strictly ascending.
pub open spec fn strictly_ascending(ids: Seq<u32>) -> bool {
    forall|i: int, j: int| 0 <= i < j < ids.len() ==> #[trigger] ids[i] < #[trigger] ids[j]
}

/// Whether one sequence lists the same offsets as another that has none twice.
pub open spec fn same_offsets(left: Seq<u32>, right: Seq<u32>) -> bool {
    &&& left.len() == right.len()
    &&& forall|i: int| 0 <= i < left.len() ==> right.contains(#[trigger] left[i])
}

/// The offsets in ascending order, where none occurs twice.
pub fn sorted_unique(ids: &Vec<u32>) -> (result: Option<Vec<u32>>)
    ensures
        result is Some <==> ids@.no_duplicates(),
        result matches Some(sorted) ==> {
            &&& strictly_ascending(sorted@)
            &&& sorted@.len() == ids@.len()
            &&& forall|id: u32| #[trigger] sorted@.contains(id) <==> ids@.contains(id)
        },
{
    let places = ascending(ids);
    let mut sorted: Vec<u32> = Vec::new();
    let mut place: usize = 0;
    while place < places.len()
        invariant
            is_ascending(ids@, places@),
            place <= places@.len(),
            sorted@ =~= Seq::new(place as nat, |i: int| ids@[places@[i] as int]),
            strictly_ascending(sorted@),
        decreases places@.len() - place,
    {
        assert(places@[place as int] < ids@.len());
        let id: u32 = ids[places[place]];
        if place > 0 {
            let last: u32 = sorted[place - 1];
            proof {
                assert(places@[place - 1] < ids@.len());
                assert(last == ids@[places@[place - 1] as int]);
                assert(ids@[places@[place - 1] as int] <= ids@[places@[place as int] as int]);
            }
            if last == id {
                proof {
                    let a = places@[place - 1] as int;
                    let b = places@[place as int] as int;
                    assert(places@[place - 1] != places@[place as int]);
                    assert(ids@[a] == ids@[b]);
                }
                return None;
            }
            proof {
                assert forall|i: int| 0 <= i < sorted@.len() implies #[trigger] sorted@[i] < id by {
                    if i < place - 1 {
                        assert(sorted@[i] < sorted@[place - 1]);
                    }
                }
            }
        }
        sorted.push(id);
        place += 1;
    }
    proof {
        assert forall|id: u32| #[trigger] sorted@.contains(id) <==> ids@.contains(id) by {
            if sorted@.contains(id) {
                let i = choose|i: int| 0 <= i < sorted@.len() && sorted@[i] == id;
                assert(places@[i] < ids@.len());
                assert(ids@[places@[i] as int] == id);
            }
            if ids@.contains(id) {
                let i = choose|i: int| 0 <= i < ids@.len() && ids@[i] == id;
                assert(places@.contains(i as usize));
                let at = choose|at: int| 0 <= at < places@.len() && places@[at] == i as usize;
                assert(sorted@[at] == id);
            }
        }
        assert(ids@.no_duplicates()) by {
            assert forall|i: int, j: int| 0 <= i < ids@.len() && 0 <= j < ids@.len() && i != j implies ids@[i]
                != ids@[j] by {
                assert(places@.contains(i as usize));
                assert(places@.contains(j as usize));
                let a = choose|a: int| 0 <= a < places@.len() && places@[a] == i as usize;
                let b = choose|b: int| 0 <= b < places@.len() && places@[b] == j as usize;
                assert(sorted@[a] == ids@[i] && sorted@[b] == ids@[j]);
                if a < b {
                    assert(sorted@[a] < sorted@[b]);
                } else {
                    assert(sorted@[b] < sorted@[a]);
                }
            }
        }
    }
    Some(sorted)
}

/// Whether sorted offsets hold one.
pub fn holds(sorted: &Vec<u32>, id: u32) -> (result: bool)
    requires
        strictly_ascending(sorted@),
    ensures
        result == sorted@.contains(id),
{
    let mut low: usize = 0;
    let mut high: usize = sorted.len();
    while low < high
        invariant
            strictly_ascending(sorted@),
            low <= high <= sorted@.len(),
            forall|other: int| 0 <= other < low ==> #[trigger] sorted@[other] < id,
            forall|other: int| high <= other < sorted@.len() ==> #[trigger] sorted@[other] > id,
        decreases high - low,
    {
        let middle: usize = low + (high - low) / 2;
        let found: u32 = sorted[middle];
        if found == id {
            return true;
        }
        if found < id {
            low = middle + 1;
        } else {
            high = middle;
        }
    }
    proof {
        if sorted@.contains(id) {
            let at = choose|at: int| 0 <= at < sorted@.len() && sorted@[at] == id;
            assert(sorted@[at] == id);
        }
    }
    false
}

/// The points of bounds.
pub open spec fn bound_ids(bounds: Seq<PendingBound>) -> Seq<u32> {
    Seq::new(bounds.len(), |i: int| bounds[i].id)
}

/// Whether every bound is an interval.
pub open spec fn all_intervals(bounds: Seq<PendingBound>) -> bool {
    forall|i: int| 0 <= i < bounds.len() ==> is_interval(#[trigger] bounds[i])
}

/// Why bounds cannot certify the ranking of a universe.
pub open spec fn universe_fault(eligible: Seq<u32>, bounds: Seq<PendingBound>) -> Option<Fault> {
    if !eligible.no_duplicates() {
        Some(Fault::DuplicateEligible)
    } else if !same_offsets(eligible, bound_ids(bounds)) || !all_intervals(bounds) {
        Some(Fault::BoundsMismatch)
    } else {
        None
    }
}

/// A list that holds every element of an equally long one without duplicates has
/// no duplicates itself.
proof fn lemma_same_length_is_exact(part: Seq<u32>, whole: Seq<u32>)
    requires
        part.no_duplicates(),
        same_offsets(part, whole),
    ensures
        whole.no_duplicates(),
        forall|i: int| 0 <= i < whole.len() ==> part.contains(#[trigger] whole[i]),
{
    broadcast use vstd::seq_lib::seq_to_set_is_finite;

    assert(part.to_set().subset_of(whole.to_set())) by {
        assert forall|x: u32| part.to_set().contains(x) implies whole.to_set().contains(x) by {
            let i = choose|i: int| 0 <= i < part.len() && part[i] == x;
            assert(whole.contains(part[i]));
        }
    }
    part.unique_seq_to_set();
    whole.lemma_cardinality_of_set();
    vstd::set_lib::lemma_len_subset(part.to_set(), whole.to_set());
    whole.lemma_no_dup_set_cardinality();
    vstd::set_lib::lemma_subset_equality(part.to_set(), whole.to_set());
    assert forall|i: int| 0 <= i < whole.len() implies part.contains(#[trigger] whole[i]) by {
        assert(whole.to_set().contains(whole[i]));
        assert(part.to_set().contains(whole[i]));
    }
}

/// Two strictly ascending lists of the same offsets are the same list.
proof fn lemma_ascending_is_unique(left: Seq<u32>, right: Seq<u32>)
    requires
        strictly_ascending(left),
        strictly_ascending(right),
        forall|id: u32| #[trigger] left.contains(id) <==> right.contains(id),
    ensures
        left == right,
    decreases left.len(),
{
    if left.len() == 0 {
        if right.len() > 0 {
            assert(right.contains(right[0]));
            assert(left.contains(right[0]));
        }
        assert(left =~= right);
    } else {
        assert(left.contains(left.last()));
        assert(right.contains(left.last()));
        let i = choose|i: int| 0 <= i < right.len() && right[i] == left.last();
        assert(right.contains(right.last()));
        assert(left.contains(right.last()));
        let j = choose|j: int| 0 <= j < left.len() && left[j] == right.last();
        assert(left.last() == right.last()) by {
            if i < right.len() - 1 {
                assert(right[i] < right[right.len() - 1]);
            }
            if j < left.len() - 1 {
                assert(left[j] < left[left.len() - 1]);
            }
        }
        let short_left = left.drop_last();
        let short_right = right.drop_last();
        assert forall|id: u32| #[trigger] short_left.contains(id) <==> short_right.contains(id) by {
            if short_left.contains(id) {
                let k = choose|k: int| 0 <= k < short_left.len() && short_left[k] == id;
                assert(left[k] == id && left[k] < left[left.len() - 1]);
                assert(left.contains(id));
                assert(right.contains(id));
                let m = choose|m: int| 0 <= m < right.len() && right[m] == id;
                assert(m < right.len() - 1);
                assert(short_right[m] == id);
            }
            if short_right.contains(id) {
                let k = choose|k: int| 0 <= k < short_right.len() && short_right[k] == id;
                assert(right[k] == id && right[k] < right[right.len() - 1]);
                assert(right.contains(id));
                assert(left.contains(id));
                let m = choose|m: int| 0 <= m < left.len() && left[m] == id;
                assert(m < left.len() - 1);
                assert(short_left[m] == id);
            }
        }
        assert forall|i: int, j: int| 0 <= i < j < short_left.len() implies
            #[trigger] short_left[i] < #[trigger] short_left[j] by {
            assert(left[i] < left[j]);
        }
        assert forall|i: int, j: int| 0 <= i < j < short_right.len() implies
            #[trigger] short_right[i] < #[trigger] short_right[j] by {
            assert(right[i] < right[j]);
        }
        lemma_ascending_is_unique(short_left, short_right);
        assert(left =~= short_left.push(left.last()));
        assert(right =~= short_right.push(right.last()));
    }
}

/// Whether a list of bounds is another in ascending order of its points.
pub open spec fn sorts_bounds(given: Seq<PendingBound>, sorted: Seq<PendingBound>) -> bool {
    &&& sorted.len() == given.len()
    &&& valid_bounds(sorted)
    &&& forall|i: int| 0 <= i < sorted.len() ==> given.contains(#[trigger] sorted[i])
    &&& forall|i: int| 0 <= i < given.len() ==> sorted.contains(#[trigger] given[i])
}

/// Checks that bounds certify the ranking of a universe, and sorts them.
pub fn check_universe(eligible: &Vec<u32>, bounds: &Vec<PendingBound>) -> (result: OperationResult<
    Vec<PendingBound>,
>)
    ensures
        match universe_fault(eligible@, bounds@) {
            Some(fault) => result == inconsistent::<Vec<PendingBound>>(fault),
            None => result matches Ok(sorted) && sorts_bounds(bounds@, sorted@) && forall|id: u32|
                bound_ids(sorted@).contains(id) <==> #[trigger] eligible@.contains(id),
        },
{
    let universe = match sorted_unique(eligible) {
        Some(universe) => universe,
        None => {
            return inconsistency(Fault::DuplicateEligible);
        },
    };
    let ghost all_ids = bound_ids(bounds@);
    let mut ids: Vec<u32> = Vec::new();
    let mut intervals = true;
    let mut i: usize = 0;
    while i < bounds.len()
        invariant
            i <= bounds@.len(),
            all_ids == bound_ids(bounds@),
            ids@ =~= all_ids.take(i as int),
            intervals == forall|k: int| 0 <= k < i ==> is_interval(#[trigger] bounds@[k]),
        decreases bounds@.len() - i,
    {
        let bound = bounds[i];
        ids.push(bound.id);
        if !is_finite_key(bound.lower) || !is_finite_key(bound.value) || bound.lower > bound.value {
            assert(!is_interval(bounds@[i as int]));
            intervals = false;
        }
        i += 1;
    }
    assert(ids@ =~= all_ids);
    if !intervals || ids.len() != universe.len() {
        return inconsistency(Fault::BoundsMismatch);
    }
    let places = ascending(&ids);
    let mut sorted: Vec<PendingBound> = Vec::new();
    let mut place: usize = 0;
    while place < places.len()
        invariant
            is_ascending(ids@, places@),
            forall|i: int| 0 <= i < ids@.len() ==> #[trigger] places@.contains(i as usize),
            ids@ == bound_ids(bounds@),
            eligible@.no_duplicates(),
            strictly_ascending(universe@),
            universe@.len() == ids@.len(),
            universe@.len() == eligible@.len(),
            all_intervals(bounds@),
            forall|id: u32| #[trigger] universe@.contains(id) <==> eligible@.contains(id),
            place <= places@.len(),
            sorted@ =~= Seq::new(place as nat, |i: int| bounds@[places@[i] as int]),
            bound_ids(sorted@) =~= universe@.take(place as int),
        decreases places@.len() - place,
    {
        assert(places@[place as int] < ids@.len());
        let bound = bounds[places[place]];
        if bound.id != universe[place] {
            proof {
                if same_offsets(eligible@, bound_ids(bounds@)) {
                    lemma_same_length_is_exact(eligible@, ids@);
                    let listed = Seq::new(places@.len(), |i: int| ids@[places@[i] as int]);
                    assert(strictly_ascending(listed)) by {
                        assert forall|i: int, j: int| 0 <= i < j < listed.len() implies
                            #[trigger] listed[i] < #[trigger] listed[j] by {
                            assert(ids@[places@[i] as int] <= ids@[places@[j] as int]);
                            assert(places@[i] != places@[j]);
                        }
                    }
                    assert forall|id: u32| #[trigger]
                        listed.contains(id) <==> universe@.contains(id) by {
                        if listed.contains(id) {
                            let k = choose|k: int| 0 <= k < listed.len() && listed[k] == id;
                            assert(places@[k] < ids@.len());
                            assert(eligible@.contains(ids@[places@[k] as int]));
                        }
                        if universe@.contains(id) {
                            assert(eligible@.contains(id));
                            let k = choose|k: int| 0 <= k < eligible@.len() && eligible@[k] == id;
                            assert(ids@.contains(eligible@[k]));
                            let m = choose|m: int| 0 <= m < ids@.len() && ids@[m] == id;
                            assert(places@.contains(m as usize));
                            let at = choose|at: int|
                                0 <= at < places@.len() && places@[at] == m as usize;
                            assert(listed[at] == id);
                        }
                    }
                    lemma_ascending_is_unique(listed, universe@);
                    assert(listed[place as int] == bound.id);
                }
            }
            return inconsistency(Fault::BoundsMismatch);
        }
        sorted.push(bound);
        place += 1;
    }
    proof {
        assert(bound_ids(sorted@) =~= universe@);
        assert(valid_bounds(sorted@)) by {
            assert forall|left: int, right: int| 0 <= left < right < sorted@.len() implies (
            #[trigger] sorted@[left]).id < (#[trigger] sorted@[right]).id by {
                assert(universe@[left] < universe@[right]);
                assert(bound_ids(sorted@)[left] == universe@[left]);
                assert(bound_ids(sorted@)[right] == universe@[right]);
            }
            assert forall|slot: int| 0 <= slot < sorted@.len() implies is_interval(
                #[trigger] sorted@[slot],
            ) by {
                assert(places@[slot] < ids@.len());
                assert(is_interval(bounds@[places@[slot] as int]));
            }
            assert(sorted.len() <= usize::MAX);
        }
        assert forall|i: int| 0 <= i < sorted@.len() implies bounds@.contains(
            #[trigger] sorted@[i],
        ) by {
            assert(places@[i] < ids@.len());
            assert(bounds@[places@[i] as int] == sorted@[i]);
        }
        assert forall|i: int| 0 <= i < bounds@.len() implies sorted@.contains(
            #[trigger] bounds@[i],
        ) by {
            assert(places@.contains(i as usize));
            let at = choose|at: int| 0 <= at < places@.len() && places@[at] == i as usize;
            assert(sorted@[at] == bounds@[i]);
        }
        assert(same_offsets(eligible@, all_ids)) by {
            assert forall|i: int| 0 <= i < eligible@.len() implies all_ids.contains(
                #[trigger] eligible@[i],
            ) by {
                assert(eligible@.contains(eligible@[i]));
                assert(universe@.contains(eligible@[i]));
                let k = choose|k: int| 0 <= k < universe@.len() && universe@[k] == eligible@[i];
                assert(bound_ids(sorted@)[k] == eligible@[i]);
                assert(places@[k] < ids@.len());
                assert(all_ids[places@[k] as int] == eligible@[i]);
            }
        }
    }
    Ok(sorted)
}

} // verus!
