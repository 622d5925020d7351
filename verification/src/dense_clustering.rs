//! Balanced clustering of dense documents.
//!
//! Clustering changes only which documents stand together: every document is kept,
//! no cluster is empty and none is larger than its capacity. Distances are computed
//! by the caller's geometry; the assignments are decided here.

use crate::dense_documents::DenseDocument;
use crate::order::{ExtendedPointId, INFINITE_KEY};
use crate::rank_queue::{lemma_ordered, order_entries, RankEntry};
use crate::tables::repeated;
use vstd::prelude::*;

verus! {

/// The arithmetic of vectors and centres. Centres are double-precision bit patterns,
/// distances and gaps are keys.
pub struct BallGeometry<M, Z, H, U> {
    /// The squared distance of a vector from a centre.
    pub squared_distance: M,
    /// The mean of the documents at the given places.
    pub centroid: Z,
    /// A vector as a centre.
    pub as_center: H,
    /// How much farther the second distance is than the first.
    pub gap: U,
}

impl<
    M: Fn(&Vec<u32>, &Vec<u64>) -> i64,
    Z: Fn(&Vec<DenseDocument>, &Vec<usize>) -> Vec<u64>,
    H: Fn(&Vec<u32>) -> Vec<u64>,
    U: Fn(i64, i64) -> i64,
> BallGeometry<M, Z, H, U> {
    /// Whether the arithmetic can be called on everything.
    pub open spec fn answers(self) -> bool {
        &&& forall|vector: &Vec<u32>, center: &Vec<u64>| #[trigger]
            self.squared_distance.requires((vector, center))
        &&& forall|documents: &Vec<DenseDocument>, places: &Vec<usize>| #[trigger]
            self.centroid.requires((documents, places))
        &&& forall|vector: &Vec<u32>| #[trigger] self.as_center.requires((vector,))
        &&& forall|first: i64, second: i64| #[trigger] self.gap.requires((first, second))
    }

    /// Whether a distance is that of a vector from a centre.
    pub open spec fn measures(self, vector: Vec<u32>, center: Vec<u64>, distance: i64) -> bool {
        self.squared_distance.ensures((&vector, &center), distance)
    }

    /// Whether a gap is that of a row of distances: between its two smallest, or without
    /// end where there is only one.
    pub open spec fn is_gap(self, row: Seq<i64>, gap: i64) -> bool {
        if row.len() >= 2 {
            exists|first: i64, second: i64|
                are_smallest_two(row, first, second) && #[trigger] self.gap.ensures(
                    (first, second),
                    gap,
                )
        } else {
            gap == INFINITE_KEY
        }
    }

    /// The squared distance of a vector from a centre.
    fn distance(&self, vector: &Vec<u32>, center: &Vec<u64>) -> (distance: i64)
        requires
            self.answers(),
        ensures
            self.measures(*vector, *center, distance),
    {
        let measure = &self.squared_distance;
        measure(vector, center)
    }

    /// The gap of a row of distances.
    fn gap_of(&self, row: &Vec<i64>) -> (gap: i64)
        requires
            self.answers(),
        ensures
            self.is_gap(row@, gap),
    {
        if row.len() >= 2 {
            let (first, second) = smallest_two(row);
            let subtract = &self.gap;
            let gap: i64 = subtract(first, second);
            assert(self.gap.ensures((first, second), gap));
            gap
        } else {
            INFINITE_KEY
        }
    }
}

/// Whether a place holds the largest key of those that are open, of equal keys the
/// one with the smallest identity.
pub open spec fn is_farthest(
    keys: Seq<i64>,
    open: Seq<bool>,
    ids: Seq<u32>,
    place: int,
) -> bool {
    &&& 0 <= place < keys.len()
    &&& open[place]
    &&& forall|other: int|
        0 <= other < keys.len() && #[trigger] open[other] ==> keys[other] < keys[place]
            || keys[other] == keys[place] && ids[place] <= ids[other]
}

/// The place with the largest key of those that are open.
pub fn farthest(keys: &Vec<i64>, open: &Vec<bool>, ids: &Vec<u32>) -> (result: Option<usize>)
    requires
        keys@.len() == open@.len(),
        keys@.len() == ids@.len(),
    ensures
        match result {
            Some(place) => is_farthest(keys@, open@, ids@, place as int),
            None => forall|place: int| 0 <= place < open@.len() ==> !#[trigger] open@[place],
        },
{
    let mut best: Option<usize> = None;
    let mut place: usize = 0;
    while place < keys.len()
        invariant
            place <= keys@.len(),
            keys@.len() == open@.len(),
            keys@.len() == ids@.len(),
            match best {
                Some(at) => {
                    &&& at < place
                    &&& open@[at as int]
                    &&& forall|other: int|
                        0 <= other < place && #[trigger] open@[other] ==> keys@[other]
                            < keys@[at as int] || keys@[other] == keys@[at as int]
                            && ids@[at as int] <= ids@[other]
                },
                None => forall|other: int| 0 <= other < place ==> !#[trigger] open@[other],
            },
        decreases keys@.len() - place,
    {
        if open[place] {
            let better = match best {
                Some(at) => keys[place] > keys[at] || (keys[place] == keys[at] && ids[place]
                    < ids[at]),
                None => true,
            };
            if better {
                best = Some(place);
            }
        }
        place += 1;
    }
    best
}

/// Which places were not picked.
pub open spec fn left_open(picked: Seq<usize>, count: nat) -> Seq<bool> {
    Seq::new(count, |place: int| !picked.contains(place as usize))
}

/// Whether keys are the distances of documents from a centre.
pub open spec fn are_distances<
    M: Fn(&Vec<u32>, &Vec<u64>) -> i64,
    Z: Fn(&Vec<DenseDocument>, &Vec<usize>) -> Vec<u64>,
    H: Fn(&Vec<u32>) -> Vec<u64>,
    U: Fn(i64, i64) -> i64,
>(
    geometry: BallGeometry<M, Z, H, U>,
    documents: Seq<DenseDocument>,
    places: Seq<usize>,
    center: Vec<u64>,
    keys: Seq<i64>,
) -> bool {
    &&& keys.len() == places.len()
    &&& forall|k: int|
        0 <= k < keys.len() ==> geometry.measures(
            documents[places[k] as int].vector,
            center,
            #[trigger] keys[k],
        )
}

/// The smaller keys of two rows.
pub open spec fn nearer(left: Seq<i64>, right: Seq<i64>) -> Seq<i64> {
    Seq::new(
        left.len(),
        |k: int|
            if right[k] < left[k] {
                right[k]
            } else {
                left[k]
            },
    )
}

/// Whether keys become others when a document is picked: its distances, or the smaller
/// of the keys so far and its distances.
pub open spec fn narrows_keys<
    M: Fn(&Vec<u32>, &Vec<u64>) -> i64,
    Z: Fn(&Vec<DenseDocument>, &Vec<usize>) -> Vec<u64>,
    H: Fn(&Vec<u32>) -> Vec<u64>,
    U: Fn(i64, i64) -> i64,
>(
    geometry: BallGeometry<M, Z, H, U>,
    documents: Seq<DenseDocument>,
    places: Seq<usize>,
    pick: usize,
    first: bool,
    before: Seq<i64>,
    after: Seq<i64>,
) -> bool {
    exists|center: Vec<u64>, distances: Seq<i64>|
        {
            &&& geometry.as_center.ensures(
                (&documents[places[pick as int] as int].vector,),
                center,
            )
            &&& #[trigger] are_distances(geometry, documents, places, center, distances)
            &&& after == (if first {
                distances
            } else {
                nearer(before, distances)
            })
        }
}

/// Whether keys are those by which the next document is picked: the distances from the
/// mean of all, and later those from the nearest of the documents that were picked.
pub open spec fn are_next_keys<
    M: Fn(&Vec<u32>, &Vec<u64>) -> i64,
    Z: Fn(&Vec<DenseDocument>, &Vec<usize>) -> Vec<u64>,
    H: Fn(&Vec<u32>) -> Vec<u64>,
    U: Fn(i64, i64) -> i64,
>(
    geometry: BallGeometry<M, Z, H, U>,
    documents: Vec<DenseDocument>,
    places: Vec<usize>,
    picked: Seq<usize>,
    rows: Seq<Seq<i64>>,
    keys: Seq<i64>,
) -> bool {
    if picked.len() == 0 {
        exists|center: Vec<u64>|
            geometry.centroid.ensures((&documents, &places), center) && #[trigger] are_distances(
                geometry,
                documents@,
                places@,
                center,
                keys,
            )
    } else {
        narrows_keys(
            geometry,
            documents@,
            places@,
            picked.last(),
            picked.len() == 1,
            rows.last(),
            keys,
        )
    }
}

/// Whether documents were picked by the given rows of keys, each the farthest of those
/// that were left.
pub open spec fn are_picked_by<
    M: Fn(&Vec<u32>, &Vec<u64>) -> i64,
    Z: Fn(&Vec<DenseDocument>, &Vec<usize>) -> Vec<u64>,
    H: Fn(&Vec<u32>) -> Vec<u64>,
    U: Fn(i64, i64) -> i64,
>(
    geometry: BallGeometry<M, Z, H, U>,
    documents: Vec<DenseDocument>,
    places: Vec<usize>,
    picked: Seq<usize>,
    rows: Seq<Seq<i64>>,
) -> bool {
    let ids = Seq::new(places@.len(), |k: int| documents@[places@[k] as int].id);
    &&& rows.len() == picked.len()
    &&& forall|n: int|
        0 <= n < picked.len() ==> {
            &&& are_next_keys(
                geometry,
                documents,
                places,
                picked.take(n),
                rows.take(n),
                #[trigger] rows[n],
            )
            &&& is_farthest(
                rows[n],
                left_open(picked.take(n), places@.len()),
                ids,
                picked[n] as int,
            )
        }
}

/// Whether positions among places are those of documents that are far apart: the first
/// is the farthest from the mean, and every next one the farthest from those before it.
pub open spec fn are_far_apart<
    M: Fn(&Vec<u32>, &Vec<u64>) -> i64,
    Z: Fn(&Vec<DenseDocument>, &Vec<usize>) -> Vec<u64>,
    H: Fn(&Vec<u32>) -> Vec<u64>,
    U: Fn(i64, i64) -> i64,
>(
    geometry: BallGeometry<M, Z, H, U>,
    documents: Vec<DenseDocument>,
    places: Vec<usize>,
    picked: Seq<usize>,
) -> bool {
    exists|rows: Seq<Seq<i64>>| #[trigger]
        are_picked_by(geometry, documents, places, picked, rows)
}

/// The documents that are farthest apart, one after the other: the first is the
/// farthest from the mean, and every next one the farthest from those before it.
/// Returns their positions among the given places.
pub fn farthest_first<
    M: Fn(&Vec<u32>, &Vec<u64>) -> i64,
    Z: Fn(&Vec<DenseDocument>, &Vec<usize>) -> Vec<u64>,
    H: Fn(&Vec<u32>) -> Vec<u64>,
    U: Fn(i64, i64) -> i64,
>(
    documents: &Vec<DenseDocument>,
    places: &Vec<usize>,
    cluster_count: usize,
    geometry: &BallGeometry<M, Z, H, U>,
) -> (picked: Vec<usize>)
    requires
        geometry.answers(),
        forall|i: int| 0 <= i < places@.len() ==> #[trigger] places@[i] < documents@.len(),
        0 < cluster_count <= places@.len(),
    ensures
        picked@.len() == cluster_count,
        picked@.no_duplicates(),
        forall|i: int| 0 <= i < picked@.len() ==> #[trigger] picked@[i] < places@.len(),
        are_far_apart(*geometry, *documents, *places, picked@),
{
    let count: usize = places.len();
    let ids = ids_at(documents, places);
    assert(ids@ =~= Seq::new(places@.len(), |k: int| documents@[places@[k] as int].id));
    let average = &geometry.centroid;
    let global = average(documents, places);
    let mut keys: Vec<i64> = Vec::new();
    let mut i: usize = 0;
    while i < count
        invariant
            geometry.answers(),
            i <= count,
            count == places@.len(),
            keys@.len() == i,
            forall|k: int| 0 <= k < places@.len() ==> #[trigger] places@[k] < documents@.len(),
            forall|k: int|
                0 <= k < i ==> geometry.measures(
                    documents@[places@[k] as int].vector,
                    global,
                    #[trigger] keys@[k],
                ),
        decreases count - i,
    {
        keys.push(geometry.distance(&documents[places[i]].vector, &global));
        i += 1;
    }
    assert(are_distances(*geometry, documents@, places@, global, keys@));
    let ghost mut rows = Seq::<Seq<i64>>::empty();
    let mut open = repeated(true, count);
    let mut picked: Vec<usize> = Vec::new();
    while picked.len() < cluster_count
        invariant
            geometry.answers(),
            count == places@.len(),
            0 < cluster_count <= count,
            picked@.len() <= cluster_count,
            keys@.len() == count,
            open@.len() == count,
            ids@ == Seq::new(places@.len(), |k: int| documents@[places@[k] as int].id),
            picked@.no_duplicates(),
            forall|k: int| 0 <= k < places@.len() ==> #[trigger] places@[k] < documents@.len(),
            forall|k: int| 0 <= k < picked@.len() ==> #[trigger] picked@[k] < count,
            forall|k: int|
                0 <= k < count ==> (#[trigger] open@[k] <==> !picked@.contains(k as usize)),
            geometry.centroid.ensures((documents, places), global),
            are_next_keys(*geometry, *documents, *places, picked@, rows, keys@),
            are_picked_by(*geometry, *documents, *places, picked@, rows),
        decreases cluster_count - picked@.len(),
    {
        let place: usize = match farthest(&keys, &open, &ids) {
            Some(place) => place,
            None => {
                proof {
                    lemma_some_place_is_open(picked@, count as int);
                    let free = choose|free: int|
                        0 <= free < count && !#[trigger] picked@.contains(free as usize);
                    assert(open@[free]);
                }
                return picked;
            },
        };
        let ghost before = picked@;
        let ghost before_keys = keys@;
        let first = picked.len() == 0;
        assert(open@ =~= left_open(before, places@.len()));
        open.set(place, false);
        picked.push(place);
        proof {
            assert(!before.contains(place));
            assert forall|k: int| 0 <= k < count implies (#[trigger] open@[k]
                <==> !picked@.contains(k as usize)) by {
                if before.contains(k as usize) {
                    let at = choose|at: int| 0 <= at < before.len() && before[at] == k as usize;
                    assert(picked@[at] == k as usize);
                }
                assert(picked@[before.len() as int] == place);
                if picked@.contains(k as usize) && k != place {
                    let at = choose|at: int|
                        0 <= at < picked@.len() && picked@[at] == k as usize;
                    assert(before[at] == k as usize);
                }
            }
            let earlier = rows;
            rows = earlier.push(before_keys);
            assert forall|n: int| 0 <= n < picked@.len() implies {
                &&& are_next_keys(
                    *geometry,
                    *documents,
                    *places,
                    picked@.take(n),
                    rows.take(n),
                    #[trigger] rows[n],
                )
                &&& is_farthest(
                    rows[n],
                    left_open(picked@.take(n), places@.len()),
                    ids@,
                    picked@[n] as int,
                )
            } by {
                if n < before.len() {
                    assert(picked@.take(n) =~= before.take(n));
                    assert(rows.take(n) =~= earlier.take(n));
                    assert(rows[n] == earlier[n]);
                } else {
                    assert(picked@.take(n) =~= before);
                    assert(rows.take(n) =~= earlier);
                }
            }
        }
        let convert = &geometry.as_center;
        let center = convert(&documents[places[place]].vector);
        let ghost mut distances = Seq::<i64>::empty();
        let mut k: usize = 0;
        while k < count
            invariant
                geometry.answers(),
                k <= count,
                count == places@.len(),
                keys@.len() == count,
                before_keys.len() == count,
                distances.len() == k,
                forall|j: int|
                    0 <= j < places@.len() ==> #[trigger] places@[j] < documents@.len(),
                forall|j: int|
                    0 <= j < k ==> geometry.measures(
                        documents@[places@[j] as int].vector,
                        center,
                        #[trigger] distances[j],
                    ),
                forall|j: int|
                    0 <= j < k ==> #[trigger] keys@[j] == (if first || distances[j]
                        < before_keys[j] {
                        distances[j]
                    } else {
                        before_keys[j]
                    }),
                forall|j: int| k <= j < count ==> #[trigger] keys@[j] == before_keys[j],
            decreases count - k,
        {
            let distance: i64 = geometry.distance(&documents[places[k]].vector, &center);
            proof {
                distances = distances.push(distance);
            }
            if first || distance < keys[k] {
                keys.set(k, distance);
            }
            k += 1;
        }
        proof {
            assert(are_distances(*geometry, documents@, places@, center, distances));
            if first {
                assert(keys@ =~= distances);
            } else {
                assert(keys@ =~= nearer(before_keys, distances));
            }
            assert(narrows_keys(
                *geometry,
                documents@,
                places@,
                picked@.last(),
                picked@.len() == 1,
                rows.last(),
                keys@,
            ));
        }
    }
    picked
}

/// Fewer picks than places leave a place open.
proof fn lemma_some_place_is_open(picked: Seq<usize>, count: int)
    requires
        picked.len() < count,
        count <= usize::MAX,
    ensures
        exists|free: int| 0 <= free < count && !#[trigger] picked.contains(free as usize),
{
    if forall|free: int| 0 <= free < count ==> #[trigger] picked.contains(free as usize) {
        let values = picked.map_values(|place: usize| place as int);
        let all = vstd::set_lib::set_int_range(0, count);
        vstd::set_lib::lemma_int_range(0, count);
        assert(all.subset_of(values.to_set())) by {
            assert forall|free: int| all.contains(free) implies values.to_set().contains(free) by {
                assert(picked.contains(free as usize));
                let at = choose|at: int| 0 <= at < picked.len() && picked[at] == free as usize;
                assert(values[at] == free);
            }
        }
        values.lemma_cardinality_of_set();
        vstd::set_lib::lemma_len_subset(all, values.to_set());
        assert(false);
    }
}

/// The identities of the documents at the given places.
fn ids_at(documents: &Vec<DenseDocument>, places: &Vec<usize>) -> (ids: Vec<u32>)
    requires
        forall|i: int| 0 <= i < places@.len() ==> #[trigger] places@[i] < documents@.len(),
    ensures
        ids@.len() == places@.len(),
        forall|i: int|
            0 <= i < places@.len() ==> #[trigger] ids@[i] == documents@[places@[i] as int].id,
{
    let mut ids: Vec<u32> = Vec::new();
    let mut i: usize = 0;
    while i < places.len()
        invariant
            i <= places@.len(),
            ids@.len() == i,
            forall|k: int| 0 <= k < places@.len() ==> #[trigger] places@[k] < documents@.len(),
            forall|k: int|
                0 <= k < i ==> #[trigger] ids@[k] == documents@[places@[k] as int].id,
        decreases places@.len() - i,
    {
        ids.push(documents[places[i]].id);
        i += 1;
    }
    ids
}

/// Whether a cluster is the nearest of those that are not full, of equal distances
/// the first.
pub open spec fn is_nearest_open(
    row: Seq<i64>,
    sizes: Seq<usize>,
    capacity: usize,
    cluster: int,
) -> bool {
    &&& 0 <= cluster < row.len()
    &&& sizes[cluster] < capacity
    &&& forall|other: int|
        0 <= other < row.len() && #[trigger] sizes[other] < capacity ==> row[cluster] < row[other]
            || row[cluster] == row[other] && cluster <= other
}

/// The nearest cluster that is not full.
pub fn nearest_open(row: &Vec<i64>, sizes: &Vec<usize>, capacity: usize) -> (result: Option<usize>)
    requires
        row@.len() == sizes@.len(),
    ensures
        match result {
            Some(cluster) => is_nearest_open(row@, sizes@, capacity, cluster as int),
            None => forall|cluster: int|
                0 <= cluster < sizes@.len() ==> #[trigger] sizes@[cluster] >= capacity,
        },
{
    let mut best: Option<usize> = None;
    let mut cluster: usize = 0;
    while cluster < row.len()
        invariant
            cluster <= row@.len(),
            row@.len() == sizes@.len(),
            match best {
                Some(at) => {
                    &&& at < cluster
                    &&& sizes@[at as int] < capacity
                    &&& forall|other: int|
                        0 <= other < cluster && #[trigger] sizes@[other] < capacity
                            ==> row@[at as int] < row@[other] || row@[at as int] == row@[other]
                            && at <= other
                },
                None => forall|other: int|
                    0 <= other < cluster ==> #[trigger] sizes@[other] >= capacity,
            },
        decreases row@.len() - cluster,
    {
        if sizes[cluster] < capacity {
            let better = match best {
                Some(at) => row[cluster] < row[at],
                None => true,
            };
            if better {
                best = Some(cluster);
            }
        }
        cluster += 1;
    }
    best
}

/// The two smallest distances of a row, where it has two.
pub open spec fn are_smallest_two(row: Seq<i64>, first: i64, second: i64) -> bool {
    exists|i: int, j: int|
        {
            &&& 0 <= i < row.len()
            &&& 0 <= j < row.len()
            &&& i != j
            &&& #[trigger] row[i] == first
            &&& #[trigger] row[j] == second
            &&& forall|k: int| 0 <= k < row.len() ==> first <= #[trigger] row[k]
            &&& forall|k: int| 0 <= k < row.len() && k != i ==> second <= #[trigger] row[k]
        }
}

/// The two smallest distances of a row.
pub fn smallest_two(row: &Vec<i64>) -> (result: (i64, i64))
    requires
        row@.len() >= 2,
    ensures
        are_smallest_two(row@, result.0, result.1),
{
    let mut i: usize = 0;
    let mut j: usize = 1;
    if row[1] < row[0] {
        i = 1;
        j = 0;
    }
    let mut k: usize = 2;
    while k < row.len()
        invariant
            2 <= k <= row@.len(),
            i < k,
            j < k,
            i != j,
            forall|other: int| 0 <= other < k ==> row@[i as int] <= #[trigger] row@[other],
            forall|other: int|
                0 <= other < k && other != i ==> row@[j as int] <= #[trigger] row@[other],
        decreases row@.len() - k,
    {
        if row[k] < row[i] {
            j = i;
            i = k;
        } else if row[k] < row[j] {
            j = k;
        }
        k += 1;
    }
    (row[i], row[j])
}

/// How many of the leading entries name a cluster.
pub open spec fn size_of(assignments: Seq<usize>, cluster: int, upto: int) -> int
    decreases upto,
{
    if upto <= 0 {
        0
    } else {
        size_of(assignments, cluster, upto - 1) + (if assignments[upto - 1] == cluster {
            1int
        } else {
            0int
        })
    }
}

proof fn lemma_size_after(assignments: Seq<usize>, at: int, cluster: usize, other: int, upto: int)
    requires
        0 <= at < assignments.len(),
        0 <= upto <= assignments.len(),
    ensures
        size_of(assignments.update(at, cluster), other, upto) == size_of(
            assignments,
            other,
            upto,
        ) + (if at < upto && cluster == other {
            1int
        } else {
            0int
        }) - (if at < upto && assignments[at] == other {
            1int
        } else {
            0int
        }),
    decreases upto,
{
    if upto > 0 {
        lemma_size_after(assignments, at, cluster, other, upto - 1);
    }
}

/// The sum of the leading sizes.
pub open spec fn total(sizes: Seq<usize>, upto: int) -> int
    decreases upto,
{
    if upto <= 0 {
        0
    } else {
        total(sizes, upto - 1) + sizes[upto - 1]
    }
}

proof fn lemma_total_after(sizes: Seq<usize>, at: int, size: usize, upto: int)
    requires
        0 <= at < sizes.len(),
        0 <= upto <= sizes.len(),
    ensures
        total(sizes.update(at, size), upto) == total(sizes, upto) + (if at < upto {
            size - sizes[at]
        } else {
            0
        }),
    decreases upto,
{
    if upto > 0 {
        lemma_total_after(sizes, at, size, upto - 1);
    }
}

proof fn lemma_full_total(sizes: Seq<usize>, capacity: int, upto: int)
    requires
        0 <= upto <= sizes.len(),
        capacity >= 0,
        forall|cluster: int| 0 <= cluster < upto ==> #[trigger] sizes[cluster] >= capacity,
    ensures
        total(sizes, upto) >= upto * capacity,
    decreases upto,
{
    if upto > 0 {
        lemma_full_total(sizes, capacity, upto - 1);
        assert(upto * capacity == (upto - 1) * capacity + capacity) by (nonlinear_arith);
    } else {
        assert(upto * capacity == 0) by (nonlinear_arith)
            requires
                upto == 0,
        ;
    }
}

proof fn lemma_small_total(sizes: Seq<usize>, empty: int, upto: int)
    requires
        0 <= upto <= sizes.len(),
        0 <= empty < sizes.len(),
        sizes[empty] == 0,
        forall|cluster: int| 0 <= cluster < upto ==> #[trigger] sizes[cluster] <= 1,
    ensures
        total(sizes, upto) <= upto - (if empty < upto {
            1int
        } else {
            0int
        }),
    decreases upto,
{
    if upto > 0 {
        lemma_small_total(sizes, empty, upto - 1);
    }
}

proof fn lemma_positive_size_has_member(assignments: Seq<usize>, cluster: int, upto: int)
    requires
        0 <= upto <= assignments.len(),
        size_of(assignments, cluster, upto) > 0,
    ensures
        exists|at: int| 0 <= at < upto && #[trigger] assignments[at] == cluster,
    decreases upto,
{
    if assignments[upto - 1] != cluster {
        lemma_positive_size_has_member(assignments, cluster, upto - 1);
        let at = choose|at: int| 0 <= at < upto - 1 && #[trigger] assignments[at] == cluster;
        assert(assignments[at] == cluster);
    }
}

proof fn lemma_no_sizes(assignments: Seq<usize>, cluster: int, upto: int)
    requires
        0 <= upto <= assignments.len(),
        forall|at: int| 0 <= at < upto ==> #[trigger] assignments[at] != cluster,
    ensures
        size_of(assignments, cluster, upto) == 0,
    decreases upto,
{
    if upto > 0 {
        lemma_no_sizes(assignments, cluster, upto - 1);
    }
}

/// Whether assignments fill clusters: none is empty, none holds more than the
/// capacity, and every entry names a cluster.
pub open spec fn is_balanced(assignments: Seq<usize>, clusters: int, capacity: int) -> bool {
    &&& forall|at: int|
        0 <= at < assignments.len() ==> #[trigger] assignments[at] < clusters
    &&& forall|cluster: int|
        0 <= cluster < clusters ==> 0 < #[trigger] size_of(
            assignments,
            cluster,
            assignments.len() as int,
        ) <= capacity
}

/// How many rows each cluster holds.
pub open spec fn cluster_sizes(assignments: Seq<usize>, clusters: nat) -> Seq<usize> {
    Seq::new(
        clusters,
        |cluster: int| size_of(assignments, cluster, assignments.len() as int) as usize,
    )
}

/// Whether rows are served in order: the largest gap first, equal gaps by identity.
pub open spec fn is_service_order(gaps: Seq<i64>, ids: Seq<u32>, order: Seq<usize>) -> bool {
    &&& order.len() == gaps.len()
    &&& order.no_duplicates()
    &&& forall|i: int| 0 <= i < order.len() ==> #[trigger] order[i] < gaps.len()
    &&& forall|i: int, j: int|
        0 <= i < j < order.len() ==> {
            let left = #[trigger] order[i] as int;
            let right = #[trigger] order[j] as int;
            gaps[left] > gaps[right] || gaps[left] == gaps[right] && ids[left] <= ids[right]
        }
}

/// Whether the rows that are served got their nearest cluster that was not full by
/// then.
pub open spec fn serves_nearest(
    rows: Seq<Vec<i64>>,
    clusters: nat,
    capacity: usize,
    order: Seq<usize>,
    chosen: Seq<usize>,
) -> bool {
    &&& chosen.len() <= order.len()
    &&& forall|k: int|
        0 <= k < chosen.len() ==> is_nearest_open(
            rows[order[k] as int]@,
            cluster_sizes(chosen.take(k), clusters),
            capacity,
            #[trigger] chosen[k] as int,
        )
}

/// Whether assignments become others when a cluster is kept from being empty: it takes
/// the row that is farthest from its own cluster, where it holds none.
pub open spec fn fills_cluster(
    rows: Seq<Vec<i64>>,
    ids: Seq<u32>,
    clusters: nat,
    cluster: int,
    before: Seq<usize>,
    after: Seq<usize>,
) -> bool {
    if cluster_sizes(before, clusters)[cluster] > 0 {
        after == before
    } else {
        exists|row: int|
            {
                &&& #[trigger] is_donor(rows, ids, before, cluster_sizes(before, clusters), row)
                &&& after == before.update(row, cluster as usize)
            }
    }
}

/// Whether stages lead from the served assignments to the final ones, one cluster after
/// the other.
pub open spec fn fills_clusters(
    rows: Seq<Vec<i64>>,
    ids: Seq<u32>,
    clusters: nat,
    stages: Seq<Seq<usize>>,
) -> bool {
    forall|cluster: int|
        0 <= cluster < stages.len() - 1 ==> fills_cluster(
            rows,
            ids,
            clusters,
            cluster,
            #[trigger] stages[cluster],
            stages[cluster + 1],
        )
}

/// Whether assignments are those of serving all rows in an order and filling the
/// clusters that stay empty.
pub open spec fn is_assigned_by(
    rows: Seq<Vec<i64>>,
    ids: Seq<u32>,
    clusters: nat,
    capacity: usize,
    order: Seq<usize>,
    chosen: Seq<usize>,
    stages: Seq<Seq<usize>>,
    assignments: Seq<usize>,
) -> bool {
    &&& chosen.len() == order.len()
    &&& serves_nearest(rows, clusters, capacity, order, chosen)
    &&& stages.len() == clusters + 1
    &&& stages[0].len() == order.len()
    &&& forall|k: int| 0 <= k < order.len() ==> stages[0][#[trigger] order[k] as int] == chosen[k]
    &&& fills_clusters(rows, ids, clusters, stages)
    &&& assignments == stages[clusters as int]
}

/// Whether assignments are the balanced ones for rows of distances with given gaps.
pub open spec fn is_assigned(
    rows: Seq<Vec<i64>>,
    gaps: Seq<i64>,
    ids: Seq<u32>,
    clusters: nat,
    capacity: usize,
    assignments: Seq<usize>,
) -> bool {
    exists|order: Seq<usize>, chosen: Seq<usize>, stages: Seq<Seq<usize>>|
        is_service_order(gaps, ids, order) && #[trigger] is_assigned_by(
            rows,
            ids,
            clusters,
            capacity,
            order,
            chosen,
            stages,
            assignments,
        )
}

proof fn lemma_size_of_prefix(assignments: Seq<usize>, last: usize, cluster: int, upto: int)
    requires
        0 <= upto <= assignments.len(),
    ensures
        size_of(assignments.push(last), cluster, upto) == size_of(assignments, cluster, upto),
    decreases upto,
{
    if upto > 0 {
        lemma_size_of_prefix(assignments, last, cluster, upto - 1);
    }
}

/// Assigns every row of distances to a cluster. The rows with the largest gaps are
/// served first; each goes to its nearest cluster that is not full. A cluster that
/// stays empty takes the row that is farthest from its own, of those that do not
/// stand alone.
pub fn capacity_bounded_assignments(
    rows: &Vec<Vec<i64>>,
    gaps: &Vec<i64>,
    ids: &Vec<u32>,
    clusters: usize,
    capacity: usize,
) -> (assignments: Vec<usize>)
    requires
        gaps@.len() == rows@.len(),
        ids@.len() == rows@.len(),
        0 < clusters <= rows@.len(),
        rows@.len() <= clusters * capacity,
        forall|i: int| 0 <= i < rows@.len() ==> (#[trigger] rows@[i])@.len() == clusters,
    ensures
        assignments@.len() == rows@.len(),
        is_balanced(assignments@, clusters as int, capacity as int),
        is_assigned(rows@, gaps@, ids@, clusters as nat, capacity, assignments@),
{
    let count: usize = rows.len();
    let served = service_order(gaps, ids);
    let ghost mut chosen = Seq::<usize>::empty();
    let mut sizes = repeated(0usize, clusters);
    let mut assignments = repeated(clusters, count);
    proof {
        assert forall|cluster: int| 0 <= cluster < clusters implies #[trigger] size_of(
            assignments@,
            cluster,
            count as int,
        ) == 0 by {
            lemma_no_sizes(assignments@, cluster, count as int);
        }
        lemma_zero_total(sizes@, clusters as int);
    }
    let mut i: usize = 0;
    while i < served.len()
        invariant
            i <= served@.len(),
            served@.len() == count,
            served@.no_duplicates(),
            forall|k: int| 0 <= k < count ==> #[trigger] served@[k] < count,
            count == rows@.len(),
            0 < clusters <= count,
            count <= clusters * capacity,
            forall|k: int| 0 <= k < rows@.len() ==> (#[trigger] rows@[k])@.len() == clusters,
            sizes@.len() == clusters,
            assignments@.len() == count,
            total(sizes@, clusters as int) == i,
            chosen.len() == i,
            sizes@ == cluster_sizes(chosen, clusters as nat),
            serves_nearest(rows@, clusters as nat, capacity, served@, chosen),
            forall|cluster: int|
                0 <= cluster < clusters ==> #[trigger] size_of(chosen, cluster, i as int)
                    == sizes@[cluster],
            forall|k: int|
                0 <= k < i ==> assignments@[#[trigger] served@[k] as int] == chosen[k],
            forall|k: int| 0 <= k < i ==> assignments@[#[trigger] served@[k] as int] < clusters,
            forall|k: int|
                i <= k < count ==> assignments@[#[trigger] served@[k] as int] == clusters,
            forall|cluster: int|
                0 <= cluster < clusters ==> #[trigger] size_of(
                    assignments@,
                    cluster,
                    count as int,
                ) == sizes@[cluster] && sizes@[cluster] <= capacity,
        decreases served@.len() - i,
    {
        let row: usize = served[i];
        let cluster: usize = match nearest_open(&rows[row], &sizes, capacity) {
            Some(cluster) => cluster,
            None => {
                proof {
                    lemma_full_total(sizes@, capacity as int, clusters as int);
                }
                return assignments;
            },
        };
        let ghost before = assignments@;
        let ghost before_sizes = sizes@;
        assert(before[served@[i as int] as int] == clusters);
        sizes.set(cluster, sizes[cluster] + 1);
        assignments.set(row, cluster);
        proof {
            lemma_total_after(
                before_sizes,
                cluster as int,
                (before_sizes[cluster as int] + 1) as usize,
                clusters as int,
            );
            assert forall|other: int| 0 <= other < clusters implies #[trigger] size_of(
                assignments@,
                other,
                count as int,
            ) == sizes@[other] && sizes@[other] <= capacity by {
                lemma_size_after(before, row as int, cluster, other, count as int);
                assert(size_of(before, other, count as int) == before_sizes[other]);
            }
            assert forall|k: int| 0 <= k < i + 1 implies assignments@[
            #[trigger] served@[k] as int] < clusters by {
                if k < i {
                    assert(served@[k] != served@[i as int]);
                }
            }
            assert forall|k: int| i + 1 <= k < count implies assignments@[
            #[trigger] served@[k] as int] == clusters by {
                assert(served@[k] != served@[i as int]);
            }
            let earlier = chosen;
            chosen = earlier.push(cluster);
            assert forall|other: int| 0 <= other < clusters implies #[trigger] size_of(
                chosen,
                other,
                i + 1,
            ) == sizes@[other] by {
                lemma_size_of_prefix(earlier, cluster, other, i as int);
                assert(size_of(earlier, other, i as int) == before_sizes[other]);
            }
            assert(sizes@ =~= cluster_sizes(chosen, clusters as nat));
            assert forall|k: int| 0 <= k < chosen.len() implies is_nearest_open(
                rows@[served@[k] as int]@,
                cluster_sizes(chosen.take(k), clusters as nat),
                capacity,
                #[trigger] chosen[k] as int,
            ) by {
                if k < i {
                    assert(chosen.take(k) =~= earlier.take(k));
                    assert(earlier[k] == chosen[k]);
                } else {
                    assert(chosen.take(k) =~= earlier);
                }
            }
            assert forall|k: int| 0 <= k < i + 1 implies assignments@[
            #[trigger] served@[k] as int] == chosen[k] by {
                if k < i {
                    assert(served@[k] != served@[i as int]);
                }
            }
        }
        i += 1;
    }
    let ghost mut stages = seq![assignments@];
    proof {
        assert forall|at: int| 0 <= at < count implies #[trigger] assignments@[at] < clusters by {
            lemma_all_served(served@, count as int, at);
            let k = choose|k: int| 0 <= k < served@.len() && served@[k] == at as usize;
            assert(assignments@[served@[k] as int] < clusters);
        }
    }
    let mut empty: usize = 0;
    while empty < clusters
        invariant
            empty <= clusters,
            ids@.len() == count,
            count == rows@.len(),
            0 < clusters <= count,
            forall|k: int| 0 <= k < rows@.len() ==> (#[trigger] rows@[k])@.len() == clusters,
            sizes@.len() == clusters,
            assignments@.len() == count,
            total(sizes@, clusters as int) == count,
            forall|at: int| 0 <= at < count ==> #[trigger] assignments@[at] < clusters,
            forall|cluster: int|
                0 <= cluster < clusters ==> #[trigger] size_of(
                    assignments@,
                    cluster,
                    count as int,
                ) == sizes@[cluster] && sizes@[cluster] <= capacity,
            forall|cluster: int| 0 <= cluster < empty ==> #[trigger] sizes@[cluster] > 0,
            capacity > 0,
            served@.len() == count,
            stages.len() == empty + 1,
            stages[empty as int] == assignments@,
            stages[0].len() == count,
            forall|k: int|
                0 <= k < count ==> stages[0][#[trigger] served@[k] as int] == chosen[k],
            fills_clusters(rows@, ids@, clusters as nat, stages),
        decreases clusters - empty,
    {
        let ghost stage = assignments@;
        assert(sizes@ =~= cluster_sizes(stage, clusters as nat)) by {
            assert forall|cluster: int| 0 <= cluster < clusters implies sizes@[cluster]
                == #[trigger] cluster_sizes(stage, clusters as nat)[cluster] by {
                assert(size_of(stage, cluster, count as int) == sizes@[cluster]);
            }
        }
        if sizes[empty] == 0 {
            let row: usize = match donor(rows, ids, &assignments, &sizes) {
                Some(row) => row,
                None => {
                    proof {
                        if forall|cluster: int|
                            0 <= cluster < clusters ==> #[trigger] sizes@[cluster] <= 1 {
                            lemma_small_total(sizes@, empty as int, clusters as int);
                        } else {
                            let crowded = choose|crowded: int|
                                0 <= crowded < clusters && #[trigger] sizes@[crowded] > 1;
                            assert(size_of(assignments@, crowded, count as int)
                                == sizes@[crowded]);
                            lemma_positive_size_has_member(
                                assignments@,
                                crowded,
                                count as int,
                            );
                            let at = choose|at: int|
                                0 <= at < count && #[trigger] assignments@[at] == crowded;
                            assert(can_leave(assignments@, sizes@, at));
                        }
                    }
                    return assignments;
                },
            };
            let donor_cluster: usize = assignments[row];
            let ghost before = assignments@;
            let ghost before_sizes = sizes@;
            assert(can_leave(before, before_sizes, row as int));
            assert(donor_cluster != empty);
            sizes.set(donor_cluster, sizes[donor_cluster] - 1);
            let ghost reduced = sizes@;
            sizes.set(empty, 1);
            assignments.set(row, empty);
            proof {
                lemma_total_after(
                    before_sizes,
                    donor_cluster as int,
                    (before_sizes[donor_cluster as int] - 1) as usize,
                    clusters as int,
                );
                lemma_total_after(reduced, empty as int, 1, clusters as int);
                assert forall|other: int| 0 <= other < clusters implies #[trigger] size_of(
                    assignments@,
                    other,
                    count as int,
                ) == sizes@[other] && sizes@[other] <= capacity by {
                    lemma_size_after(before, row as int, empty, other, count as int);
                    assert(size_of(before, other, count as int) == before_sizes[other]);
                    if other == empty {
                        assert(sizes@[other] == 1);
                    } else if other == donor_cluster {
                        assert(sizes@[other] == before_sizes[other] - 1);
                    } else {
                        assert(sizes@[other] == before_sizes[other]);
                    }
                }
            }
        }
        proof {
            let longer = stages.push(assignments@);
            assert(fills_cluster(
                rows@,
                ids@,
                clusters as nat,
                empty as int,
                stage,
                assignments@,
            ));
            assert forall|cluster: int| 0 <= cluster < longer.len() - 1 implies fills_cluster(
                rows@,
                ids@,
                clusters as nat,
                cluster,
                #[trigger] longer[cluster],
                longer[cluster + 1],
            ) by {
                if cluster < empty {
                    assert(stages[cluster] == longer[cluster]);
                }
            }
            stages = longer;
        }
        empty += 1;
    }
    assert(is_service_order(gaps@, ids@, served@));
    assert(is_assigned_by(
        rows@,
        ids@,
        clusters as nat,
        capacity,
        served@,
        chosen,
        stages,
        assignments@,
    ));
    assignments
}

proof fn lemma_zero_total(sizes: Seq<usize>, upto: int)
    requires
        0 <= upto <= sizes.len(),
        forall|cluster: int| 0 <= cluster < upto ==> #[trigger] sizes[cluster] == 0,
    ensures
        total(sizes, upto) == 0,
    decreases upto,
{
    if upto > 0 {
        lemma_zero_total(sizes, upto - 1);
    }
}

proof fn lemma_all_served(served: Seq<usize>, count: int, at: int)
    requires
        served.len() == count,
        count <= usize::MAX,
        served.no_duplicates(),
        forall|k: int| 0 <= k < count ==> #[trigger] served[k] < count,
        0 <= at < count,
    ensures
        served.contains(at as usize),
{
    let values = served.map_values(|place: usize| place as int);
    let all = vstd::set_lib::set_int_range(0, count);
    vstd::set_lib::lemma_int_range(0, count);
    assert forall|i: int, j: int| 0 <= i < values.len() && 0 <= j < values.len() && i != j implies values[i]
        != values[j] by {
        assert(served[i] != served[j]);
    }
    values.unique_seq_to_set();
    assert(values.to_set().subset_of(all)) by {
        assert forall|value: int| values.to_set().contains(value) implies all.contains(value) by {
            let i = choose|i: int| 0 <= i < values.len() && values[i] == value;
            assert(served[i] < count);
        }
    }
    vstd::set_lib::lemma_subset_equality(values.to_set(), all);
    assert(values.to_set().contains(at));
    let i = choose|i: int| 0 <= i < values.len() && values[i] == at;
    assert(served[i] == at as usize);
}

/// The order in which rows are served: the largest gap first, equal gaps by
/// ascending identity.
pub fn service_order(gaps: &Vec<i64>, ids: &Vec<u32>) -> (order: Vec<usize>)
    requires
        gaps@.len() == ids@.len(),
    ensures
        is_service_order(gaps@, ids@, order@),
{
    let mut entries: Vec<RankEntry> = Vec::new();
    let mut i: usize = 0;
    while i < gaps.len()
        invariant
            i <= gaps@.len(),
            gaps@.len() == ids@.len(),
            entries@.len() == i,
            forall|k: int|
                0 <= k < i ==> #[trigger] entries@[k] == (RankEntry {
                    score: gaps@[k],
                    id: ExtendedPointId::NumId(ids@[k] as u64),
                    slot: k as usize,
                }),
        decreases gaps@.len() - i,
    {
        entries.push(
            RankEntry { score: gaps[i], id: ExtendedPointId::NumId(ids[i] as u64), slot: i },
        );
        i += 1;
    }
    let ghost given = entries@;
    let sorted = order_entries(entries);
    proof {
        lemma_ordered(given);
    }
    let mut order: Vec<usize> = Vec::new();
    let mut k: usize = 0;
    while k < sorted.len()
        invariant
            k <= sorted@.len(),
            order@.len() == k,
            forall|j: int| 0 <= j < k ==> #[trigger] order@[j] == sorted@[j].slot,
        decreases sorted@.len() - k,
    {
        order.push(sorted[k].slot);
        k += 1;
    }
    proof {
        let count = gaps@.len();
        assert(gaps.len() <= usize::MAX);
        assert forall|j: int| 0 <= j < sorted@.len() implies (#[trigger] sorted@[j]).slot < count
            && sorted@[j] == given[sorted@[j].slot as int] by {
            assert(sorted@.contains(sorted@[j]));
            assert(given.contains(sorted@[j]));
            let at = choose|at: int| 0 <= at < given.len() && given[at] == sorted@[j];
        }
        assert forall|a: int, b: int| 0 <= a < b < order@.len() implies {
            let left = #[trigger] order@[a] as int;
            let right = #[trigger] order@[b] as int;
            gaps@[left] > gaps@[right] || gaps@[left] == gaps@[right] && ids@[left] <= ids@[right]
        } by {
            assert(!sorted@[b].precedes(sorted@[a]));
        }
        assert forall|at: int| 0 <= at < count implies #[trigger] order@.contains(
            at as usize,
        ) by {
            assert(given.contains(given[at]));
            assert(sorted@.contains(given[at]));
            let j = choose|j: int| 0 <= j < sorted@.len() && sorted@[j] == given[at];
            assert(order@[j] == at as usize);
        }
        crate::dense_documents::lemma_all_places(order@, count);
    }
    order
}

/// Whether a row does not stand alone in its cluster.
pub open spec fn can_leave(assignments: Seq<usize>, sizes: Seq<usize>, row: int) -> bool {
    sizes[assignments[row] as int] > 1
}

/// Whether a row is the farthest from its cluster of those that do not stand alone.
pub open spec fn is_donor(
    rows: Seq<Vec<i64>>,
    ids: Seq<u32>,
    assignments: Seq<usize>,
    sizes: Seq<usize>,
    row: int,
) -> bool {
    &&& 0 <= row < assignments.len()
    &&& can_leave(assignments, sizes, row)
    &&& forall|other: int|
        0 <= other < assignments.len() && #[trigger] can_leave(assignments, sizes, other) ==> {
            let mine = rows[row]@[assignments[row] as int];
            let its = rows[other]@[assignments[other] as int];
            its < mine || its == mine && ids[row] <= ids[other]
        }
}

/// The row that is farthest from its cluster of those that do not stand alone.
pub fn donor(
    rows: &Vec<Vec<i64>>,
    ids: &Vec<u32>,
    assignments: &Vec<usize>,
    sizes: &Vec<usize>,
) -> (result: Option<usize>)
    requires
        rows@.len() == assignments@.len(),
        ids@.len() == assignments@.len(),
        forall|at: int| 0 <= at < assignments@.len() ==> #[trigger] assignments@[at] < sizes@.len(),
        forall|at: int| 0 <= at < rows@.len() ==> (#[trigger] rows@[at])@.len() == sizes@.len(),
    ensures
        match result {
            Some(row) => is_donor(rows@, ids@, assignments@, sizes@, row as int),
            None => forall|row: int|
                0 <= row < assignments@.len() ==> !#[trigger] can_leave(
                    assignments@,
                    sizes@,
                    row,
                ),
        },
{
    let mut best: Option<usize> = None;
    let mut row: usize = 0;
    while row < assignments.len()
        invariant
            row <= assignments@.len(),
            rows@.len() == assignments@.len(),
            ids@.len() == assignments@.len(),
            forall|at: int|
                0 <= at < assignments@.len() ==> #[trigger] assignments@[at] < sizes@.len(),
            forall|at: int| 0 <= at < rows@.len() ==> (#[trigger] rows@[at])@.len() == sizes@.len(),
            match best {
                Some(at) => {
                    &&& at < row
                    &&& can_leave(assignments@, sizes@, at as int)
                    &&& forall|other: int|
                        0 <= other < row && #[trigger] can_leave(assignments@, sizes@, other) ==> {
                            let mine = rows@[at as int]@[assignments@[at as int] as int];
                            let its = rows@[other]@[assignments@[other] as int];
                            its < mine || its == mine && ids@[at as int] <= ids@[other]
                        }
                },
                None => forall|other: int|
                    0 <= other < row ==> !#[trigger] can_leave(assignments@, sizes@, other),
            },
        decreases assignments@.len() - row,
    {
        if sizes[assignments[row]] > 1 {
            assert(can_leave(assignments@, sizes@, row as int));
            let better = match best {
                Some(at) => {
                    let mine: i64 = rows[at][assignments[at]];
                    let its: i64 = rows[row][assignments[row]];
                    its > mine || (its == mine && ids[row] < ids[at])
                },
                None => true,
            };
            if better {
                best = Some(row);
            }
        }
        row += 1;
    }
    best
}

/// The places whose entries name a cluster, in their order.
pub open spec fn picked(
    places: Seq<usize>,
    assignments: Seq<usize>,
    cluster: int,
    upto: int,
) -> Seq<usize>
    decreases upto,
{
    if upto <= 0 {
        Seq::empty()
    } else if assignments[upto - 1] == cluster {
        picked(places, assignments, cluster, upto - 1).push(places[upto - 1])
    } else {
        picked(places, assignments, cluster, upto - 1)
    }
}

/// Whether places stand in ascending order.
pub open spec fn ascend(places: Seq<usize>) -> bool {
    forall|i: int, j: int|
        0 <= i < j < places.len() ==> #[trigger] places[i] < #[trigger] places[j]
}

proof fn lemma_picked_length(
    places: Seq<usize>,
    assignments: Seq<usize>,
    cluster: int,
    upto: int,
)
    requires
        assignments.len() == places.len(),
        0 <= upto <= places.len(),
    ensures
        picked(places, assignments, cluster, upto).len() == size_of(assignments, cluster, upto),
    decreases upto,
{
    if upto > 0 {
        lemma_picked_length(places, assignments, cluster, upto - 1);
    }
}

proof fn lemma_picked(places: Seq<usize>, assignments: Seq<usize>, cluster: int, upto: int)
    requires
        ascend(places),
        assignments.len() == places.len(),
        0 <= upto <= places.len(),
    ensures
        ascend(picked(places, assignments, cluster, upto)),
        picked(places, assignments, cluster, upto).len() == size_of(assignments, cluster, upto),
        forall|place: usize| #[trigger]
            picked(places, assignments, cluster, upto).contains(place) <==> exists|at: int|
                0 <= at < upto && #[trigger] places[at] == place && assignments[at] == cluster,
    decreases upto,
{
    if upto > 0 {
        lemma_picked(places, assignments, cluster, upto - 1);
        let shorter = picked(places, assignments, cluster, upto - 1);
        let longer = picked(places, assignments, cluster, upto);
        if assignments[upto - 1] == cluster {
            assert forall|i: int, j: int| 0 <= i < j < longer.len() implies #[trigger] longer[i]
                < #[trigger] longer[j] by {
                if j == shorter.len() {
                    assert(shorter.contains(shorter[i]));
                    let at = choose|at: int|
                        0 <= at < upto - 1 && #[trigger] places[at] == shorter[i]
                            && assignments[at] == cluster;
                    assert(places[at] < places[upto - 1]);
                } else {
                    assert(shorter[i] < shorter[j]);
                }
            }
        }
        assert forall|place: usize| #[trigger] longer.contains(place) <==> exists|at: int|
            0 <= at < upto && #[trigger] places[at] == place && assignments[at] == cluster by {
            if longer.contains(place) {
                let i = choose|i: int| 0 <= i < longer.len() && longer[i] == place;
                if i < shorter.len() {
                    assert(shorter[i] == place);
                    assert(shorter.contains(place));
                    let at = choose|at: int|
                        0 <= at < upto - 1 && #[trigger] places[at] == place && assignments[at]
                            == cluster;
                    assert(places[at] == place);
                } else {
                    assert(places[upto - 1] == place);
                }
            }
            if exists|at: int|
                0 <= at < upto && #[trigger] places[at] == place && assignments[at] == cluster {
                let at = choose|at: int|
                    0 <= at < upto && #[trigger] places[at] == place && assignments[at] == cluster;
                if at < upto - 1 {
                    assert(shorter.contains(place));
                    let i = choose|i: int| 0 <= i < shorter.len() && shorter[i] == place;
                    assert(longer[i] == place);
                } else {
                    assert(longer[longer.len() - 1] == place);
                }
            }
        }
    }
}

/// Whether parts are places by balanced assignments.
pub open spec fn is_partition(
    places: Seq<usize>,
    parts: Seq<Vec<usize>>,
    capacity: int,
) -> bool {
    exists|assignments: Seq<usize>| #[trigger]
        partitions_by(places, assignments, parts, capacity)
}

/// Whether parts are places by the given assignments.
pub open spec fn partitions_by(
    places: Seq<usize>,
    assignments: Seq<usize>,
    parts: Seq<Vec<usize>>,
    capacity: int,
) -> bool {
    &&& assignments.len() == places.len()
    &&& is_balanced(assignments, parts.len() as int, capacity)
    &&& forall|cluster: int|
        0 <= cluster < parts.len() ==> (#[trigger] parts[cluster])@ == picked(
            places,
            assignments,
            cluster,
            places.len() as int,
        )
}

/// The parts of a partition are not empty, not larger than the capacity, in order,
/// share nothing and hold all places.
pub proof fn law_partition_keeps_places(
    places: Seq<usize>,
    parts: Seq<Vec<usize>>,
    capacity: int,
)
    requires
        ascend(places),
        is_partition(places, parts, capacity),
    ensures
        forall|cluster: int|
            0 <= cluster < parts.len() ==> {
                &&& 0 < (#[trigger] parts[cluster])@.len() <= capacity
                &&& ascend(parts[cluster]@)
            },
        forall|place: usize| #[trigger]
            places.contains(place) <==> exists|cluster: int|
                0 <= cluster < parts.len() && (#[trigger] parts[cluster])@.contains(place),
        forall|left: int, right: int, place: usize|
            0 <= left < parts.len() && 0 <= right < parts.len() && #[trigger] parts[left]@.contains(
                place,
            ) && #[trigger] parts[right]@.contains(place) ==> left == right,
{
    let assignments = choose|assignments: Seq<usize>| #[trigger]
        partitions_by(places, assignments, parts, capacity);
    let count = places.len() as int;
    assert forall|cluster: int| 0 <= cluster < parts.len() implies {
        &&& 0 < (#[trigger] parts[cluster])@.len() <= capacity
        &&& ascend(parts[cluster]@)
    } by {
        lemma_picked(places, assignments, cluster, count);
        assert(size_of(assignments, cluster, count) > 0);
    }
    assert forall|place: usize| #[trigger] places.contains(place) <==> exists|cluster: int|
        0 <= cluster < parts.len() && (#[trigger] parts[cluster])@.contains(place) by {
        if places.contains(place) {
            let at = choose|at: int| 0 <= at < places.len() && places[at] == place;
            let cluster = assignments[at] as int;
            lemma_picked(places, assignments, cluster, count);
            assert(parts[cluster]@.contains(place));
        }
        if exists|cluster: int|
            0 <= cluster < parts.len() && (#[trigger] parts[cluster])@.contains(place) {
            let cluster = choose|cluster: int|
                0 <= cluster < parts.len() && (#[trigger] parts[cluster])@.contains(place);
            lemma_picked(places, assignments, cluster, count);
            let at = choose|at: int|
                0 <= at < count && #[trigger] places[at] == place && assignments[at] == cluster;
            assert(places[at] == place);
        }
    }
    assert forall|left: int, right: int, place: usize|
        0 <= left < parts.len() && 0 <= right < parts.len() && #[trigger] parts[left]@.contains(
            place,
        ) && #[trigger] parts[right]@.contains(place) implies left == right by {
        lemma_picked(places, assignments, left, count);
        lemma_picked(places, assignments, right, count);
        let at = choose|at: int|
            0 <= at < count && #[trigger] places[at] == place && assignments[at] == left;
        let other = choose|other: int|
            0 <= other < count && #[trigger] places[other] == place && assignments[other] == right;
        if at < other {
            assert(places[at] < places[other]);
        } else if other < at {
            assert(places[other] < places[at]);
        }
    }
}

/// Parts places by their assignments.
fn partition(places: &Vec<usize>, assignments: &Vec<usize>, clusters: usize) -> (parts: Vec<
    Vec<usize>,
>)
    requires
        assignments@.len() == places@.len(),
        forall|at: int| 0 <= at < assignments@.len() ==> #[trigger] assignments@[at] < clusters,
    ensures
        parts@.len() == clusters,
        forall|cluster: int|
            0 <= cluster < clusters ==> (#[trigger] parts@[cluster])@ == picked(
                places@,
                assignments@,
                cluster,
                places@.len() as int,
            ),
{
    let mut parts: Vec<Vec<usize>> = Vec::new();
    while parts.len() < clusters
        invariant
            parts@.len() <= clusters,
            forall|cluster: int|
                0 <= cluster < parts@.len() ==> (#[trigger] parts@[cluster])@ == Seq::<
                    usize,
                >::empty(),
        decreases clusters - parts@.len(),
    {
        parts.push(Vec::new());
    }
    let mut i: usize = 0;
    while i < places.len()
        invariant
            i <= places@.len(),
            assignments@.len() == places@.len(),
            parts@.len() == clusters,
            forall|at: int|
                0 <= at < assignments@.len() ==> #[trigger] assignments@[at] < clusters,
            forall|cluster: int|
                0 <= cluster < clusters ==> (#[trigger] parts@[cluster])@ == picked(
                    places@,
                    assignments@,
                    cluster,
                    i as int,
                ),
        decreases places@.len() - i,
    {
        let cluster: usize = assignments[i];
        let ghost before = parts@;
        let part = &mut parts[cluster];
        part.push(places[i]);
        proof {
            assert forall|other: int| 0 <= other < clusters implies (#[trigger] parts@[other])@
                == picked(places@, assignments@, other, i + 1) by {
                assert(before[other]@ == picked(places@, assignments@, other, i as int));
            }
        }
        i += 1;
    }
    parts
}

/// Whether rows hold the distances of documents from all centres.
pub open spec fn are_distance_rows<
    M: Fn(&Vec<u32>, &Vec<u64>) -> i64,
    Z: Fn(&Vec<DenseDocument>, &Vec<usize>) -> Vec<u64>,
    H: Fn(&Vec<u32>) -> Vec<u64>,
    U: Fn(i64, i64) -> i64,
>(
    geometry: BallGeometry<M, Z, H, U>,
    documents: Seq<DenseDocument>,
    places: Seq<usize>,
    centers: Seq<Vec<u64>>,
    rows: Seq<Vec<i64>>,
) -> bool {
    &&& rows.len() == places.len()
    &&& forall|i: int| 0 <= i < rows.len() ==> (#[trigger] rows[i])@.len() == centers.len()
    &&& forall|i: int, cluster: int|
        0 <= i < rows.len() && 0 <= cluster < centers.len() ==> geometry.measures(
            documents[places[i] as int].vector,
            centers[cluster],
            #[trigger] rows[i]@[cluster],
        )
}

/// The distances of the documents at the given places from all centres.
fn distance_rows<
    M: Fn(&Vec<u32>, &Vec<u64>) -> i64,
    Z: Fn(&Vec<DenseDocument>, &Vec<usize>) -> Vec<u64>,
    H: Fn(&Vec<u32>) -> Vec<u64>,
    U: Fn(i64, i64) -> i64,
>(
    documents: &Vec<DenseDocument>,
    places: &Vec<usize>,
    centers: &Vec<Vec<u64>>,
    geometry: &BallGeometry<M, Z, H, U>,
) -> (rows: Vec<Vec<i64>>)
    requires
        geometry.answers(),
        forall|i: int| 0 <= i < places@.len() ==> #[trigger] places@[i] < documents@.len(),
    ensures
        are_distance_rows(*geometry, documents@, places@, centers@, rows@),
{
    let mut rows: Vec<Vec<i64>> = Vec::new();
    let mut i: usize = 0;
    while i < places.len()
        invariant
            geometry.answers(),
            i <= places@.len(),
            rows@.len() == i,
            forall|k: int| 0 <= k < places@.len() ==> #[trigger] places@[k] < documents@.len(),
            forall|k: int| 0 <= k < rows@.len() ==> (#[trigger] rows@[k])@.len() == centers@.len(),
            forall|k: int, cluster: int|
                0 <= k < i && 0 <= cluster < centers@.len() ==> geometry.measures(
                    documents@[places@[k] as int].vector,
                    centers@[cluster],
                    #[trigger] rows@[k]@[cluster],
                ),
        decreases places@.len() - i,
    {
        let mut row: Vec<i64> = Vec::new();
        let mut cluster: usize = 0;
        while cluster < centers.len()
            invariant
                geometry.answers(),
                cluster <= centers@.len(),
                row@.len() == cluster,
                i < places@.len(),
                places@[i as int] < documents@.len(),
                forall|c: int|
                    0 <= c < cluster ==> geometry.measures(
                        documents@[places@[i as int] as int].vector,
                        centers@[c],
                        #[trigger] row@[c],
                    ),
            decreases centers@.len() - cluster,
        {
            row.push(geometry.distance(&documents[places[i]].vector, &centers[cluster]));
            cluster += 1;
        }
        rows.push(row);
        i += 1;
    }
    rows
}

/// Whether assignments are the balanced ones of documents around centres.
pub open spec fn assigns_around<
    M: Fn(&Vec<u32>, &Vec<u64>) -> i64,
    Z: Fn(&Vec<DenseDocument>, &Vec<usize>) -> Vec<u64>,
    H: Fn(&Vec<u32>) -> Vec<u64>,
    U: Fn(i64, i64) -> i64,
>(
    geometry: BallGeometry<M, Z, H, U>,
    documents: Seq<DenseDocument>,
    places: Seq<usize>,
    centers: Seq<Vec<u64>>,
    capacity: usize,
    assignments: Seq<usize>,
) -> bool {
    let ids = Seq::new(places.len(), |k: int| documents[places[k] as int].id);
    exists|rows: Seq<Vec<i64>>, gaps: Seq<i64>|
        {
            &&& #[trigger] are_distance_rows(geometry, documents, places, centers, rows)
            &&& gaps.len() == rows.len()
            &&& forall|i: int| 0 <= i < rows.len() ==> geometry.is_gap(rows[i]@, #[trigger] gaps[i])
            &&& #[trigger] is_assigned(rows, gaps, ids, centers.len(), capacity, assignments)
        }
}

/// Assigns documents to their centres.
fn assign<
    M: Fn(&Vec<u32>, &Vec<u64>) -> i64,
    Z: Fn(&Vec<DenseDocument>, &Vec<usize>) -> Vec<u64>,
    H: Fn(&Vec<u32>) -> Vec<u64>,
    U: Fn(i64, i64) -> i64,
>(
    documents: &Vec<DenseDocument>,
    places: &Vec<usize>,
    centers: &Vec<Vec<u64>>,
    capacity: usize,
    geometry: &BallGeometry<M, Z, H, U>,
) -> (assignments: Vec<usize>)
    requires
        geometry.answers(),
        forall|i: int| 0 <= i < places@.len() ==> #[trigger] places@[i] < documents@.len(),
        0 < centers@.len() <= places@.len(),
        places@.len() <= centers@.len() * capacity,
    ensures
        assignments@.len() == places@.len(),
        is_balanced(assignments@, centers@.len() as int, capacity as int),
        assigns_around(
            *geometry,
            documents@,
            places@,
            centers@,
            capacity,
            assignments@,
        ),
{
    let rows = distance_rows(documents, places, centers, geometry);
    let mut gaps: Vec<i64> = Vec::new();
    let mut i: usize = 0;
    while i < rows.len()
        invariant
            geometry.answers(),
            i <= rows@.len(),
            gaps@.len() == i,
            forall|k: int| 0 <= k < i ==> geometry.is_gap(rows@[k]@, #[trigger] gaps@[k]),
        decreases rows@.len() - i,
    {
        gaps.push(geometry.gap_of(&rows[i]));
        i += 1;
    }
    let ids = ids_at(documents, places);
    assert(ids@ =~= Seq::new(places@.len(), |k: int| documents@[places@[k] as int].id));
    capacity_bounded_assignments(&rows, &gaps, &ids, centers.len(), capacity)
}

/// Whether centres are the picked documents.
pub open spec fn are_first_centers<
    M: Fn(&Vec<u32>, &Vec<u64>) -> i64,
    Z: Fn(&Vec<DenseDocument>, &Vec<usize>) -> Vec<u64>,
    H: Fn(&Vec<u32>) -> Vec<u64>,
    U: Fn(i64, i64) -> i64,
>(
    geometry: BallGeometry<M, Z, H, U>,
    documents: Seq<DenseDocument>,
    places: Seq<usize>,
    picked: Seq<usize>,
    centers: Seq<Vec<u64>>,
) -> bool {
    &&& centers.len() == picked.len()
    &&& forall|i: int|
        0 <= i < centers.len() ==> geometry.as_center.ensures(
            (&documents[places[picked[i] as int] as int].vector,),
            #[trigger] centers[i],
        )
}

/// Whether a centre is the mean of the documents of a cluster.
pub open spec fn is_mean<
    M: Fn(&Vec<u32>, &Vec<u64>) -> i64,
    Z: Fn(&Vec<DenseDocument>, &Vec<usize>) -> Vec<u64>,
    H: Fn(&Vec<u32>) -> Vec<u64>,
    U: Fn(i64, i64) -> i64,
>(
    geometry: BallGeometry<M, Z, H, U>,
    documents: Vec<DenseDocument>,
    members: Seq<usize>,
    center: Vec<u64>,
) -> bool {
    exists|part: Vec<usize>|
        part@ == members && #[trigger] geometry.centroid.ensures((&documents, &part), center)
}

/// Whether centres move to the means of the documents that are assigned to them.
pub open spec fn moves_centers<
    M: Fn(&Vec<u32>, &Vec<u64>) -> i64,
    Z: Fn(&Vec<DenseDocument>, &Vec<usize>) -> Vec<u64>,
    H: Fn(&Vec<u32>) -> Vec<u64>,
    U: Fn(i64, i64) -> i64,
>(
    geometry: BallGeometry<M, Z, H, U>,
    documents: Vec<DenseDocument>,
    places: Seq<usize>,
    capacity: usize,
    before: Seq<Vec<u64>>,
    after: Seq<Vec<u64>>,
) -> bool {
    exists|assignments: Seq<usize>|
        {
            &&& #[trigger] assigns_around(
                geometry,
                documents@,
                places,
                before,
                capacity,
                assignments,
            )
            &&& after.len() == before.len()
            &&& forall|cluster: int|
                0 <= cluster < after.len() ==> is_mean(
                    geometry,
                    documents,
                    picked(places, assignments, cluster, places.len() as int),
                    #[trigger] after[cluster],
                )
        }
}

/// Whether rounds of centres start far apart and move to the means of their clusters.
pub open spec fn are_rounds<
    M: Fn(&Vec<u32>, &Vec<u64>) -> i64,
    Z: Fn(&Vec<DenseDocument>, &Vec<usize>) -> Vec<u64>,
    H: Fn(&Vec<u32>) -> Vec<u64>,
    U: Fn(i64, i64) -> i64,
>(
    geometry: BallGeometry<M, Z, H, U>,
    documents: Vec<DenseDocument>,
    places: Vec<usize>,
    capacity: usize,
    first: Seq<usize>,
    rounds: Seq<Seq<Vec<u64>>>,
) -> bool {
    &&& rounds.len() > 0
    &&& are_far_apart(geometry, documents, places, first)
    &&& are_first_centers(geometry, documents@, places@, first, rounds[0])
    &&& forall|round: int|
        0 <= round < rounds.len() - 1 ==> moves_centers(
            geometry,
            documents,
            places@,
            capacity,
            #[trigger] rounds[round],
            rounds[round + 1],
        )
}

/// Whether parts are the clusters that documents form after a number of rounds.
pub open spec fn are_clusters<
    M: Fn(&Vec<u32>, &Vec<u64>) -> i64,
    Z: Fn(&Vec<DenseDocument>, &Vec<usize>) -> Vec<u64>,
    H: Fn(&Vec<u32>) -> Vec<u64>,
    U: Fn(i64, i64) -> i64,
>(
    geometry: BallGeometry<M, Z, H, U>,
    documents: Vec<DenseDocument>,
    places: Vec<usize>,
    cluster_count: usize,
    capacity: usize,
    iterations: usize,
    parts: Seq<Vec<usize>>,
) -> bool {
    exists|first: Seq<usize>, rounds: Seq<Seq<Vec<u64>>>, assignments: Seq<usize>|
        {
            &&& first.len() == cluster_count
            &&& rounds.len() == iterations + 1
            &&& #[trigger] are_rounds(geometry, documents, places, capacity, first, rounds)
            &&& assigns_around(
                geometry,
                documents@,
                places@,
                rounds[iterations as int],
                capacity,
                assignments,
            )
            &&& #[trigger] partitions_by(places@, assignments, parts, capacity as int)
        }
}

/// Parts documents into clusters of nearly equal size: centres start far apart, and
/// move to the means of their clusters.
pub fn balanced_kmeans_partitions<
    M: Fn(&Vec<u32>, &Vec<u64>) -> i64,
    Z: Fn(&Vec<DenseDocument>, &Vec<usize>) -> Vec<u64>,
    H: Fn(&Vec<u32>) -> Vec<u64>,
    U: Fn(i64, i64) -> i64,
>(
    documents: &Vec<DenseDocument>,
    places: &Vec<usize>,
    cluster_count: usize,
    capacity: usize,
    iterations: usize,
    geometry: &BallGeometry<M, Z, H, U>,
) -> (parts: Vec<Vec<usize>>)
    requires
        geometry.answers(),
        forall|i: int| 0 <= i < places@.len() ==> #[trigger] places@[i] < documents@.len(),
        0 < cluster_count <= places@.len(),
        places@.len() <= cluster_count * capacity,
    ensures
        parts@.len() == cluster_count,
        is_partition(places@, parts@, capacity as int),
        are_clusters(
            *geometry,
            *documents,
            *places,
            cluster_count,
            capacity,
            iterations,
            parts@,
        ),
{
    let first = farthest_first(documents, places, cluster_count, geometry);
    let mut centers: Vec<Vec<u64>> = Vec::new();
    let convert = &geometry.as_center;
    let mut i: usize = 0;
    while i < first.len()
        invariant
            geometry.answers(),
            convert == &geometry.as_center,
            i <= first@.len(),
            centers@.len() == i,
            forall|k: int| 0 <= k < first@.len() ==> #[trigger] first@[k] < places@.len(),
            forall|k: int| 0 <= k < places@.len() ==> #[trigger] places@[k] < documents@.len(),
            forall|k: int|
                0 <= k < i ==> geometry.as_center.ensures(
                    (&documents@[places@[first@[k] as int] as int].vector,),
                    #[trigger] centers@[k],
                ),
        decreases first@.len() - i,
    {
        centers.push(convert(&documents[places[first[i]]].vector));
        i += 1;
    }
    let ghost mut rounds = seq![centers@];
    let average = &geometry.centroid;
    let mut round: usize = 0;
    while round < iterations
        invariant
            geometry.answers(),
            average == &geometry.centroid,
            round <= iterations,
            centers@.len() == cluster_count,
            0 < cluster_count <= places@.len(),
            places@.len() <= cluster_count * capacity,
            forall|k: int| 0 <= k < places@.len() ==> #[trigger] places@[k] < documents@.len(),
            rounds.len() == round + 1,
            rounds[round as int] == centers@,
            are_rounds(*geometry, *documents, *places, capacity, first@, rounds),
        decreases iterations - round,
    {
        let ghost before = centers@;
        let assignments = assign(documents, places, &centers, capacity, geometry);
        let parts = partition(places, &assignments, cluster_count);
        let mut cluster: usize = 0;
        while cluster < cluster_count
            invariant
                geometry.answers(),
                average == &geometry.centroid,
                cluster <= cluster_count,
                centers@.len() == cluster_count,
                parts@.len() == cluster_count,
                assignments@.len() == places@.len(),
                is_balanced(assignments@, cluster_count as int, capacity as int),
                forall|c: int|
                    0 <= c < cluster_count ==> (#[trigger] parts@[c])@ == picked(
                        places@,
                        assignments@,
                        c,
                        places@.len() as int,
                    ),
                forall|c: int|
                    0 <= c < cluster ==> is_mean(
                        *geometry,
                        *documents,
                        picked(places@, assignments@, c, places@.len() as int),
                        #[trigger] centers@[c],
                    ),
            decreases cluster_count - cluster,
        {
            proof {
                assert(size_of(assignments@, cluster as int, assignments@.len() as int) > 0);
                lemma_picked_length(
                    places@,
                    assignments@,
                    cluster as int,
                    places@.len() as int,
                );
            }
            if parts[cluster].len() > 0 {
                let center = average(documents, &parts[cluster]);
                let ghost earlier = centers@;
                assert(geometry.centroid.ensures((documents, &parts@[cluster as int]), center));
                centers.set(cluster, center);
                proof {
                    assert(is_mean(
                        *geometry,
                        *documents,
                        picked(places@, assignments@, cluster as int, places@.len() as int),
                        centers@[cluster as int],
                    ));
                    assert forall|c: int| 0 <= c < cluster + 1 implies is_mean(
                        *geometry,
                        *documents,
                        picked(places@, assignments@, c, places@.len() as int),
                        #[trigger] centers@[c],
                    ) by {
                        if c < cluster {
                            assert(centers@[c] == earlier[c]);
                        }
                    }
                }
            }
            cluster += 1;
        }
        proof {
            assert(moves_centers(
                *geometry,
                *documents,
                places@,
                capacity,
                before,
                centers@,
            ));
            let longer = rounds.push(centers@);
            assert forall|at: int| 0 <= at < longer.len() - 1 implies moves_centers(
                *geometry,
                *documents,
                places@,
                capacity,
                #[trigger] longer[at],
                longer[at + 1],
            ) by {
                if at < round {
                    assert(rounds[at] == longer[at]);
                }
            }
            rounds = longer;
        }
        round += 1;
    }
    let assignments = assign(documents, places, &centers, capacity, geometry);
    let parts = partition(places, &assignments, cluster_count);
    assert(partitions_by(places@, assignments@, parts@, capacity as int));
    assert(are_rounds(*geometry, *documents, *places, capacity, first@, rounds));
    parts
}

/// The smallest number of groups of the given size that hold a number of things.
pub fn groups(count: usize, size: usize) -> (result: usize)
    requires
        count > 0,
        size > 0,
    ensures
        result > 0,
        result <= count,
        count <= result * size,
        (result - 1) * size < count,
{
    let result: usize = (count - 1) / size + 1;
    proof {
        let q = (count - 1) / size as int;
        vstd::arithmetic::div_mod::lemma_fundamental_div_mod(count - 1, size as int);
        assert((q + 1) * size == size * q + size) by (nonlinear_arith);
        assert(q * size == size * q) by (nonlinear_arith);
        assert(q <= count - 1) by (nonlinear_arith)
            requires
                q == (count - 1) / size as int,
                size >= 1,
                count >= 1,
        ;
    }
    result
}

} // verus!
