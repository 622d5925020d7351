//! Routing by cost, neutral to correctness.
//!
//! Every choice names an exact implementation: a bad estimate can only add work.

use crate::id_index::IdSet;
use crate::order::{finite_key, is_finite_key, ExtendedPointId, INFINITE_KEY};
use crate::reciprocal_rank_fusion::progress::{product, saturating_product};
use crate::reciprocal_rank_fusion::types::DynamicRrfScheduler;
use vstd::prelude::*;

verus! {

/// The key of 1.
pub const ONE_KEY: i64 = 0x3ff0_0000_0000_0000;

/// The key of 1.25.
pub const DEFAULT_RATIO_KEY: i64 = 0x3ff4_0000_0000_0000;

/// How sparse postings are decoded; both plans are exact.
#[derive(Clone, Copy, Debug, PartialEq, Eq, Structural)]
pub enum ExactSparseDecodePlan {
    IndependentNative,
    SharedNative,
}

impl Default for ExactSparseDecodePlan {
    fn default() -> (plan: ExactSparseDecodePlan)
        ensures
            plan == ExactSparseDecodePlan::IndependentNative,
    {
        ExactSparseDecodePlan::IndependentNative
    }
}

/// How a search is scheduled and decoded.
#[derive(Clone, Copy, Debug, PartialEq, Eq, Structural)]
pub struct SafeExactPlan {
    pub scheduler: DynamicRrfScheduler,
    pub sparse_decode: ExactSparseDecodePlan,
}

/// A router over exact plans.
#[derive(Clone, Copy, Debug, PartialEq, Eq, Structural)]
pub struct SafeExactRouter {
    cost_ratio_for_competitor_scheduler: i64,
    shared_sparse_max_unique_to_independent_milli: u16,
}

/// Whether a cost is positive and finite.
pub open spec fn is_cost(key: i64) -> bool {
    finite_key(key) && key > 0
}

/// The smallest and the largest of the leading costs that are positive and finite;
/// infinity and zero where there is none.
pub open spec fn cost_range(costs: Seq<i64>, upto: int) -> (i64, i64)
    decreases upto,
{
    if upto <= 0 {
        (INFINITE_KEY, 0)
    } else {
        let (minimum, maximum) = cost_range(costs, upto - 1);
        let cost = costs[upto - 1];
        if is_cost(cost) {
            (
                if cost < minimum {
                    cost
                } else {
                    minimum
                },
                if cost > maximum {
                    cost
                } else {
                    maximum
                },
            )
        } else {
            (minimum, maximum)
        }
    }
}

impl Default for SafeExactRouter {
    fn default() -> (router: SafeExactRouter)
        ensures
            router.ratio() == DEFAULT_RATIO_KEY,
            router.milli() == 950,
    {
        SafeExactRouter {
            cost_ratio_for_competitor_scheduler: DEFAULT_RATIO_KEY,
            shared_sparse_max_unique_to_independent_milli: 950,
        }
    }
}

impl SafeExactRouter {
    /// The ratio of costs from which the scheduler minds them.
    pub closed spec fn ratio(&self) -> i64 {
        self.cost_ratio_for_competitor_scheduler
    }

    /// The part, in thousandths, up to which decoding is shared.
    pub closed spec fn milli(&self) -> u16 {
        self.shared_sparse_max_unique_to_independent_milli
    }

    /// A router with the given thresholds.
    pub fn new(
        cost_ratio_for_competitor_scheduler: i64,
        shared_sparse_max_unique_to_independent_milli: u16,
    ) -> (router: SafeExactRouter)
        requires
            finite_key(cost_ratio_for_competitor_scheduler),
            cost_ratio_for_competitor_scheduler >= ONE_KEY,
            shared_sparse_max_unique_to_independent_milli <= 1000,
        ensures
            router.ratio() == cost_ratio_for_competitor_scheduler,
            router.milli() == shared_sparse_max_unique_to_independent_milli,
    {
        SafeExactRouter {
            cost_ratio_for_competitor_scheduler,
            shared_sparse_max_unique_to_independent_milli,
        }
    }

    /// Decides how a search is scheduled and decoded. `divide` gives the ratio of two
    /// costs.
    pub fn decide<V: Fn(i64, i64) -> i64>(
        &self,
        source_costs: &Vec<i64>,
        scheduler_costs_are_incremental: bool,
        sparse_unique_posting_elements: usize,
        sparse_independent_posting_elements: usize,
        divide: &V,
    ) -> (plan: SafeExactPlan)
        requires
            forall|left: i64, right: i64| #[trigger] divide.requires((left, right)),
        ensures
            ({
                let (minimum, maximum) = cost_range(source_costs@, source_costs@.len() as int);
                let may_differ = scheduler_costs_are_incremental && source_costs@.len() > 1
                    && finite_key(minimum);
                &&& !may_differ ==> plan.scheduler == DynamicRrfScheduler::MaxNextContribution
                &&& may_differ ==> exists|ratio: i64|
                    {
                        &&& #[trigger] divide.ensures((maximum, minimum), ratio)
                        &&& plan.scheduler == (if ratio >= self.ratio() {
                            DynamicRrfScheduler::CompetitorCostAware
                        } else {
                            DynamicRrfScheduler::MaxNextContribution
                        })
                    }
            }),
            plan.sparse_decode == (if sparse_independent_posting_elements > 0 && product(
                sparse_unique_posting_elements,
                1000,
            ) <= product(sparse_independent_posting_elements, self.milli() as usize) {
                ExactSparseDecodePlan::SharedNative
            } else {
                ExactSparseDecodePlan::IndependentNative
            }),
    {
        let mut minimum: i64 = INFINITE_KEY;
        let mut maximum: i64 = 0;
        let mut i: usize = 0;
        while i < source_costs.len()
            invariant
                i <= source_costs@.len(),
                (minimum, maximum) == cost_range(source_costs@, i as int),
            decreases source_costs@.len() - i,
        {
            let cost: i64 = source_costs[i];
            if is_finite_key(cost) && cost > 0 {
                if cost < minimum {
                    minimum = cost;
                }
                if cost > maximum {
                    maximum = cost;
                }
            }
            i += 1;
        }
        let heterogeneous = if scheduler_costs_are_incremental && source_costs.len() > 1
            && is_finite_key(minimum) {
            let ratio: i64 = divide(maximum, minimum);
            assert(divide.ensures((maximum, minimum), ratio));
            ratio >= self.cost_ratio_for_competitor_scheduler
        } else {
            false
        };
        let share = sparse_independent_posting_elements > 0 && saturating_product(
            sparse_unique_posting_elements,
            1000,
        ) <= saturating_product(
            sparse_independent_posting_elements,
            self.shared_sparse_max_unique_to_independent_milli as usize,
        );
        SafeExactPlan {
            scheduler: if heterogeneous {
                DynamicRrfScheduler::CompetitorCostAware
            } else {
                DynamicRrfScheduler::MaxNextContribution
            },
            sparse_decode: if share {
                ExactSparseDecodePlan::SharedNative
            } else {
                ExactSparseDecodePlan::IndependentNative
            },
        }
    }
}

/// Whether a search stops early or reads its channels to their end.
#[derive(Clone, Copy, Debug, PartialEq, Eq, Structural)]
pub enum PrefixExecutionChoice {
    Dynamic,
    Exhaustive,
}

/// What the overlap of prefixes decides; the overlaps are keys.
#[derive(Clone, Copy, Debug, PartialEq, Eq, Structural)]
pub struct PrefixAgreementDecision {
    pub choice: PrefixExecutionChoice,
    pub average_pairwise_overlap: i64,
    pub minimum_pairwise_overlap: i64,
}

/// A router by the overlap of channel prefixes.
#[derive(Clone, Copy, Debug, PartialEq, Eq, Structural)]
pub struct PrefixAgreementRouter {
    minimum_overlap: i64,
}

/// How many identities two prefixes share, and how many the smaller one holds.
pub open spec fn overlap_counts(
    left: Seq<ExtendedPointId>,
    right: Seq<ExtendedPointId>,
) -> (nat, nat) {
    let smaller = if left.to_set().len() <= right.to_set().len() {
        left.to_set().len()
    } else {
        right.to_set().len()
    };
    (left.to_set().intersect(right.to_set()).len(), smaller)
}

/// The identities of a prefix.
fn identities(prefix: &Vec<ExtendedPointId>) -> (result: (IdSet, usize))
    ensures
        result.0@ == prefix@.to_set(),
        result.1 == prefix@.to_set().len(),
{
    let mut set = IdSet::new();
    let mut count: usize = 0;
    let mut i: usize = 0;
    assert(prefix@.take(0).to_set() =~= Set::<ExtendedPointId>::empty());
    while i < prefix.len()
        invariant
            i <= prefix@.len(),
            count <= i,
            set@ == prefix@.take(i as int).to_set(),
            set@.finite(),
            count == set@.len(),
        decreases prefix@.len() - i,
    {
        let ghost before = prefix@.take(i as int);
        let added = set.insert(prefix[i]);
        if added {
            count += 1;
        }
        proof {
            let longer = prefix@.take(i + 1);
            assert(longer =~= before.push(prefix@[i as int]));
            assert(longer.to_set() =~= before.to_set().insert(prefix@[i as int])) by {
                assert forall|id: ExtendedPointId| longer.to_set().contains(id)
                    <==> before.to_set().insert(prefix@[i as int]).contains(id) by {
                    if before.contains(id) {
                        let at = choose|at: int| 0 <= at < before.len() && before[at] == id;
                        assert(longer[at] == id);
                    }
                    assert(longer[i as int] == prefix@[i as int]);
                    if longer.contains(id) && id != prefix@[i as int] {
                        let at = choose|at: int| 0 <= at < longer.len() && longer[at] == id;
                        assert(before[at] == id);
                    }
                }
            }
        }
        i += 1;
    }
    assert(prefix@.take(i as int) =~= prefix@);
    (set, count)
}

/// How many identities two prefixes share, and how many the smaller one holds.
pub fn overlap(left: &Vec<ExtendedPointId>, right: &Vec<ExtendedPointId>) -> (counts: (usize, usize))
    ensures
        counts.0 == overlap_counts(left@, right@).0,
        counts.1 == overlap_counts(left@, right@).1,
{
    let (_, left_count) = identities(left);
    let (right_set, right_count) = identities(right);
    let mut common = IdSet::new();
    let mut shared: usize = 0;
    let mut i: usize = 0;
    assert(left@.take(0).to_set().intersect(right@.to_set()) =~= Set::<ExtendedPointId>::empty());
    while i < left.len()
        invariant
            i <= left@.len(),
            shared <= i,
            right_set@ == right@.to_set(),
            common@ == left@.take(i as int).to_set().intersect(right@.to_set()),
            common@.finite(),
            shared == common@.len(),
        decreases left@.len() - i,
    {
        let id = left[i];
        let ghost before = left@.take(i as int);
        let ghost held = common@;
        if right_set.contains(id) {
            let added = common.insert(id);
            if added {
                shared += 1;
            }
        }
        proof {
            let longer = left@.take(i + 1);
            assert(longer =~= before.push(id));
            assert(common@ =~= longer.to_set().intersect(right@.to_set())) by {
                assert forall|other: ExtendedPointId| common@.contains(other)
                    <==> longer.to_set().intersect(right@.to_set()).contains(other) by {
                    if before.contains(other) {
                        let at = choose|at: int| 0 <= at < before.len() && before[at] == other;
                        assert(longer[at] == other);
                    }
                    assert(longer[i as int] == id);
                    if longer.contains(other) && other != id {
                        let at = choose|at: int| 0 <= at < longer.len() && longer[at] == other;
                        assert(before[at] == other);
                    }
                }
            }
        }
        i += 1;
    }
    assert(left@.take(i as int) =~= left@);
    (
        shared,
        if left_count <= right_count {
            left_count
        } else {
            right_count
        },
    )
}

/// Whether a key is the overlap of two prefixes: their ratio, or zero where one holds
/// nothing.
pub open spec fn is_overlap<V: Fn(usize, usize) -> i64>(
    ratio: V,
    left: Seq<ExtendedPointId>,
    right: Seq<ExtendedPointId>,
    key: i64,
) -> bool {
    let (shared, smaller) = overlap_counts(left, right);
    if smaller == 0 {
        key == 0
    } else {
        ratio.ensures((shared as usize, smaller as usize), key)
    }
}

/// The pairs of a place with the later ones before the given place.
pub open spec fn pairs_of(left: int, right: int) -> Seq<(int, int)>
    decreases right - left,
{
    if right <= left + 1 {
        Seq::empty()
    } else {
        pairs_of(left, right - 1).push((left, right - 1))
    }
}

/// All pairs whose first place is before the given one, in ascending order.
pub open spec fn pairs_upto(count: int, left: int) -> Seq<(int, int)>
    decreases left,
{
    if left <= 0 {
        Seq::empty()
    } else {
        pairs_upto(count, left - 1) + pairs_of(left - 1, count)
    }
}

/// Whether keys are the overlaps of prefixes at the given pairs.
pub open spec fn overlaps_at<V: Fn(usize, usize) -> i64>(
    ratio: V,
    prefixes: Seq<Vec<ExtendedPointId>>,
    pairs: Seq<(int, int)>,
    overlaps: Seq<i64>,
) -> bool {
    &&& overlaps.len() == pairs.len()
    &&& forall|i: int|
        0 <= i < pairs.len() ==> is_overlap(
            ratio,
            prefixes[pairs[i].0]@,
            prefixes[pairs[i].1]@,
            #[trigger] overlaps[i],
        )
}

/// Whether keys are the overlaps of all pairs of prefixes, or the one overlap 1 where
/// there is no pair.
pub open spec fn are_overlaps<V: Fn(usize, usize) -> i64>(
    ratio: V,
    prefixes: Seq<Vec<ExtendedPointId>>,
    overlaps: Seq<i64>,
) -> bool {
    if prefixes.len() <= 1 {
        overlaps == seq![ONE_KEY]
    } else {
        overlaps_at(
            ratio,
            prefixes,
            pairs_upto(prefixes.len() as int, prefixes.len() as int),
            overlaps,
        )
    }
}

/// The overlaps of all pairs of prefixes, or the one overlap 1 where there is no
/// pair.
pub fn pairwise_overlaps<V: Fn(usize, usize) -> i64>(
    prefixes: &Vec<Vec<ExtendedPointId>>,
    ratio: &V,
) -> (overlaps: Vec<i64>)
    requires
        forall|shared: usize, smaller: usize| #[trigger] ratio.requires((shared, smaller)),
    ensures
        are_overlaps(*ratio, prefixes@, overlaps@),
        overlaps@.len() > 0,
{
    let mut overlaps: Vec<i64> = Vec::new();
    let count: usize = prefixes.len();
    if count <= 1 {
        overlaps.push(ONE_KEY);
        assert(overlaps@ =~= seq![ONE_KEY]);
        return overlaps;
    }
    let mut left: usize = 0;
    while left < count
        invariant
            left <= count,
            count == prefixes@.len(),
            count > 1,
            forall|shared: usize, smaller: usize| #[trigger] ratio.requires((shared, smaller)),
            overlaps_at(*ratio, prefixes@, pairs_upto(count as int, left as int), overlaps@),
            left > 0 ==> overlaps@.len() > 0,
        decreases count - left,
    {
        let mut right: usize = left + 1;
        let ghost earlier = pairs_upto(count as int, left as int);
        assert(earlier + pairs_of(left as int, right as int) =~= earlier);
        while right < count
            invariant
                left < right <= count,
                count == prefixes@.len(),
                count > 1,
                forall|shared: usize, smaller: usize| #[trigger]
                    ratio.requires((shared, smaller)),
                overlaps_at(
                    *ratio,
                    prefixes@,
                    earlier + pairs_of(left as int, right as int),
                    overlaps@,
                ),
                left > 0 || right > left + 1 ==> overlaps@.len() > 0,
            decreases count - right,
        {
            let (shared, smaller) = overlap(&prefixes[left], &prefixes[right]);
            let key: i64 = if smaller == 0 {
                0
            } else {
                ratio(shared, smaller)
            };
            let ghost before = overlaps@;
            assert(is_overlap(
                *ratio,
                prefixes@[left as int]@,
                prefixes@[right as int]@,
                key,
            ));
            overlaps.push(key);
            proof {
                let known = earlier + pairs_of(left as int, right as int);
                let longer = earlier + pairs_of(left as int, right + 1);
                assert(longer =~= known.push((left as int, right as int)));
                assert forall|i: int| 0 <= i < longer.len() implies is_overlap(
                    *ratio,
                    prefixes@[longer[i].0]@,
                    prefixes@[longer[i].1]@,
                    #[trigger] overlaps@[i],
                ) by {
                    if i < known.len() {
                        assert(overlaps@[i] == before[i]);
                        assert(longer[i] == known[i]);
                    }
                }
            }
            right += 1;
        }
        left += 1;
    }
    overlaps
}

/// The smallest overlap of two prefixes; 1 where there is no pair.
pub fn minimum_pairwise_overlap<V: Fn(usize, usize) -> i64>(
    prefixes: &Vec<Vec<ExtendedPointId>>,
    ratio: &V,
) -> (minimum: i64)
    requires
        forall|shared: usize, smaller: usize| #[trigger] ratio.requires((shared, smaller)),
    ensures
        prefixes@.len() <= 1 ==> minimum == ONE_KEY,
        exists|overlaps: Seq<i64>|
            {
                &&& #[trigger] are_overlaps(*ratio, prefixes@, overlaps)
                &&& is_minimum(overlaps, minimum)
            },
{
    let overlaps = pairwise_overlaps(prefixes, ratio);
    assert(are_overlaps(*ratio, prefixes@, overlaps@));
    smallest(&overlaps)
}

/// The mean overlap of two prefixes; 1 where there is no pair.
pub fn average_pairwise_overlap<V: Fn(usize, usize) -> i64, M: Fn(&Vec<i64>) -> i64>(
    prefixes: &Vec<Vec<ExtendedPointId>>,
    ratio: &V,
    mean: &M,
) -> (average: i64)
    requires
        forall|shared: usize, smaller: usize| #[trigger] ratio.requires((shared, smaller)),
        forall|overlaps: &Vec<i64>| #[trigger] mean.requires((overlaps,)),
    ensures
        prefixes@.len() <= 1 ==> average == ONE_KEY,
        prefixes@.len() > 1 ==> exists|overlaps: Vec<i64>|
            #[trigger] are_overlaps(*ratio, prefixes@, overlaps@) && mean.ensures(
                (&overlaps,),
                average,
            ),
{
    if prefixes.len() <= 1 {
        return ONE_KEY;
    }
    let overlaps = pairwise_overlaps(prefixes, ratio);
    assert(are_overlaps(*ratio, prefixes@, overlaps@));
    mean(&overlaps)
}

/// Whether a key is the smallest of a row.
pub open spec fn is_minimum(keys: Seq<i64>, minimum: i64) -> bool {
    &&& exists|i: int| 0 <= i < keys.len() && #[trigger] keys[i] == minimum
    &&& forall|i: int| 0 <= i < keys.len() ==> minimum <= #[trigger] keys[i]
}

/// The smallest key of a row.
fn smallest(keys: &Vec<i64>) -> (minimum: i64)
    requires
        keys@.len() > 0,
    ensures
        is_minimum(keys@, minimum),
{
    let mut minimum: i64 = keys[0];
    let mut i: usize = 1;
    while i < keys.len()
        invariant
            1 <= i <= keys@.len(),
            exists|k: int| 0 <= k < i && #[trigger] keys@[k] == minimum,
            forall|k: int| 0 <= k < i ==> minimum <= #[trigger] keys@[k],
        decreases keys@.len() - i,
    {
        if keys[i] < minimum {
            minimum = keys[i];
            assert(keys@[i as int] == minimum);
        } else {
            let ghost at = choose|k: int| 0 <= k < i && #[trigger] keys@[k] == minimum;
            assert(keys@[at] == minimum);
        }
        i += 1;
    }
    minimum
}

impl PrefixAgreementRouter {
    /// The overlap from which a search stops early.
    pub closed spec fn threshold(&self) -> i64 {
        self.minimum_overlap
    }

    /// A router with the given threshold.
    pub fn new(minimum_overlap: i64) -> (router: PrefixAgreementRouter)
        requires
            0 <= minimum_overlap <= ONE_KEY,
        ensures
            router.threshold() == minimum_overlap,
    {
        PrefixAgreementRouter { minimum_overlap }
    }

    /// Decides by the smallest overlap. `ratio` divides counts, `mean` gives the mean
    /// of keys.
    pub fn decide<V: Fn(usize, usize) -> i64, M: Fn(&Vec<i64>) -> i64>(
        &self,
        prefixes: &Vec<Vec<ExtendedPointId>>,
        ratio: &V,
        mean: &M,
    ) -> (decision: PrefixAgreementDecision)
        requires
            forall|shared: usize, smaller: usize| #[trigger] ratio.requires((shared, smaller)),
            forall|overlaps: &Vec<i64>| #[trigger] mean.requires((overlaps,)),
        ensures
            decision.choice == (if decision.minimum_pairwise_overlap >= self.threshold() {
                PrefixExecutionChoice::Dynamic
            } else {
                PrefixExecutionChoice::Exhaustive
            }),
            exists|overlaps: Vec<i64>|
                {
                    &&& #[trigger] are_overlaps(*ratio, prefixes@, overlaps@)
                    &&& is_minimum(overlaps@, decision.minimum_pairwise_overlap)
                    &&& if prefixes@.len() <= 1 {
                        decision.average_pairwise_overlap == ONE_KEY
                    } else {
                        mean.ensures((&overlaps,), decision.average_pairwise_overlap)
                    }
                },
    {
        let overlaps = pairwise_overlaps(prefixes, ratio);
        let minimum_pairwise_overlap: i64 = smallest(&overlaps);
        let average_pairwise_overlap: i64 = if prefixes.len() <= 1 {
            ONE_KEY
        } else {
            mean(&overlaps)
        };
        assert(are_overlaps(*ratio, prefixes@, overlaps@));
        PrefixAgreementDecision {
            choice: if minimum_pairwise_overlap >= self.minimum_overlap {
                PrefixExecutionChoice::Dynamic
            } else {
                PrefixExecutionChoice::Exhaustive
            },
            average_pairwise_overlap,
            minimum_pairwise_overlap,
        }
    }
}

/// The smallest and the largest cost that count are costs of sources, and no cost of a
/// source that counts lies outside of them. Without such a cost there is no range.
pub proof fn law_cost_range_holds_every_cost(costs: Seq<i64>)
    ensures
        ({
            let (minimum, maximum) = cost_range(costs, costs.len() as int);
            &&& forall|i: int|
                0 <= i < costs.len() && 0 < #[trigger] costs[i] < 0x7ff0_0000_0000_0000
                    ==> minimum <= costs[i] <= maximum
            &&& if exists|i: int|
                0 <= i < costs.len() && 0 < #[trigger] costs[i] < 0x7ff0_0000_0000_0000 {
                &&& costs.contains(minimum)
                &&& costs.contains(maximum)
                &&& 0 < minimum <= maximum < 0x7ff0_0000_0000_0000
            } else {
                minimum == 0x7ff0_0000_0000_0000 && maximum == 0
            }
        }),
{
    lemma_cost_range(costs, costs.len() as int);
}

proof fn lemma_cost_range(costs: Seq<i64>, upto: int)
    requires
        0 <= upto <= costs.len(),
    ensures
        ({
            let (minimum, maximum) = cost_range(costs, upto);
            &&& forall|i: int|
                0 <= i < upto && 0 < #[trigger] costs[i] < 0x7ff0_0000_0000_0000 ==> minimum
                    <= costs[i] <= maximum
            &&& if exists|i: int|
                0 <= i < upto && 0 < #[trigger] costs[i] < 0x7ff0_0000_0000_0000 {
                &&& costs.contains(minimum)
                &&& costs.contains(maximum)
                &&& 0 < minimum <= maximum < 0x7ff0_0000_0000_0000
            } else {
                minimum == 0x7ff0_0000_0000_0000 && maximum == 0
            }
        }),
    decreases upto,
{
    if upto > 0 {
        lemma_cost_range(costs, upto - 1);
        let last = costs[upto - 1];
        assert(costs.contains(last));
        let (minimum, maximum) = cost_range(costs, upto - 1);
        let (smallest, largest) = cost_range(costs, upto);
        assert forall|i: int|
            0 <= i < upto && 0 < #[trigger] costs[i] < 0x7ff0_0000_0000_0000 implies smallest
            <= costs[i] <= largest by {
            if i < upto - 1 {
                assert(minimum <= costs[i] <= maximum);
            }
        }
        if exists|i: int| 0 <= i < upto - 1 && 0 < #[trigger] costs[i] < 0x7ff0_0000_0000_0000 {
            let at = choose|i: int|
                0 <= i < upto - 1 && 0 < #[trigger] costs[i] < 0x7ff0_0000_0000_0000;
            assert(0 <= at < upto && 0 < costs[at]);
        }
    }
}

/// The overlap of two prefixes does not mind their order, is never larger than either,
/// is all of a prefix that the other holds, and nothing where they share no identity.
pub proof fn law_overlap_counts_shared_identities(
    left: Seq<ExtendedPointId>,
    right: Seq<ExtendedPointId>,
)
    ensures
        overlap_counts(left, right) == overlap_counts(right, left),
        overlap_counts(left, right).0 <= overlap_counts(left, right).1,
        overlap_counts(left, right).1 <= left.to_set().len(),
        overlap_counts(left, right).1 <= right.to_set().len(),
        left.no_duplicates() && right.no_duplicates() && left.len() <= right.len()
            ==> overlap_counts(left, right).1 == left.len(),
        left.no_duplicates() && right.no_duplicates() && (forall|id: ExtendedPointId| #[trigger]
            left.contains(id) ==> right.contains(id)) ==> overlap_counts(left, right) == (
            left.len(),
            left.len(),
        ),
        (forall|id: ExtendedPointId| #[trigger] left.contains(id) ==> !right.contains(id))
            ==> overlap_counts(left, right).0 == 0,
{
    broadcast use vstd::seq_lib::seq_to_set_is_finite;

    let first = left.to_set();
    let second = right.to_set();
    assert(first.intersect(second) =~= second.intersect(first));
    vstd::set_lib::lemma_len_intersect(first, second);
    vstd::set_lib::lemma_len_intersect(second, first);
    if left.no_duplicates() && right.no_duplicates() {
        left.unique_seq_to_set();
        right.unique_seq_to_set();
        if forall|id: ExtendedPointId| #[trigger] left.contains(id) ==> right.contains(id) {
            assert(first.intersect(second) =~= first) by {
                assert forall|id: ExtendedPointId| first.contains(id) implies second.contains(
                    id,
                ) by {
                    assert(left.contains(id));
                }
            }
            vstd::set_lib::lemma_len_subset(first, second);
        }
    }
    if forall|id: ExtendedPointId| #[trigger] left.contains(id) ==> !right.contains(id) {
        assert(first.intersect(second) =~= Set::<ExtendedPointId>::empty()) by {
            assert forall|id: ExtendedPointId| !first.intersect(second).contains(id) by {
                if first.contains(id) {
                    assert(left.contains(id));
                }
            }
        }
    }
}

/// A prefix without identities overlaps with nothing; other prefixes overlap by the ratio
/// of what they share to what the smaller one holds.
pub proof fn law_overlap_is_a_ratio<V: Fn(usize, usize) -> i64>(
    ratio: V,
    left: Seq<ExtendedPointId>,
    right: Seq<ExtendedPointId>,
    key: i64,
)
    requires
        left.len() <= usize::MAX,
        is_overlap(ratio, left, right, key),
    ensures
        left.len() == 0 || right.len() == 0 ==> key == 0,
        left.len() > 0 && left.no_duplicates() && right == left ==> ratio.ensures(
            (left.len() as usize, left.len() as usize),
            key,
        ),
{
    broadcast use vstd::seq_lib::seq_to_set_is_finite;

    law_overlap_counts_shared_identities(left, right);
    if left.len() == 0 {
        left.unique_seq_to_set();
    }
    if right.len() == 0 {
        right.unique_seq_to_set();
    }
}

/// Every pair of different places is looked at once, the earlier place first.
pub proof fn law_every_pair_is_looked_at_once(count: int)
    requires
        count >= 0,
    ensures
        forall|left: int, right: int| #[trigger]
            pairs_upto(count, count).contains((left, right)) <==> 0 <= left < right < count,
        pairs_upto(count, count).no_duplicates(),
{
    lemma_pairs_upto(count, count);
}

proof fn lemma_pairs_of(left: int, right: int)
    ensures
        forall|a: int, b: int| #[trigger]
            pairs_of(left, right).contains((a, b)) <==> a == left && left < b < right,
        pairs_of(left, right).no_duplicates(),
    decreases right - left,
{
    if right > left + 1 {
        lemma_pairs_of(left, right - 1);
        let shorter = pairs_of(left, right - 1);
        let longer = pairs_of(left, right);
        assert forall|a: int, b: int| #[trigger] longer.contains((a, b)) <==> a == left && left < b
            < right by {
            if longer.contains((a, b)) {
                let at = choose|at: int| 0 <= at < longer.len() && longer[at] == (a, b);
                if at < shorter.len() {
                    assert(shorter[at] == (a, b));
                    assert(shorter.contains((a, b)));
                }
            }
            if a == left && left < b < right {
                if b == right - 1 {
                    assert(longer[shorter.len() as int] == (a, b));
                } else {
                    assert(shorter.contains((a, b)));
                    let at = choose|at: int| 0 <= at < shorter.len() && shorter[at] == (a, b);
                    assert(longer[at] == (a, b));
                }
            }
        }
        assert(longer.no_duplicates()) by {
            assert forall|i: int, j: int|
                0 <= i < longer.len() && 0 <= j < longer.len() && i != j implies longer[i]
                != longer[j] by {
                if i < shorter.len() && j == shorter.len() {
                    assert(shorter.contains((shorter[i].0, shorter[i].1)));
                }
                if j < shorter.len() && i == shorter.len() {
                    assert(shorter.contains((shorter[j].0, shorter[j].1)));
                }
            }
        }
    }
}

proof fn lemma_pairs_upto(count: int, upto: int)
    requires
        0 <= upto <= count,
    ensures
        forall|left: int, right: int| #[trigger]
            pairs_upto(count, upto).contains((left, right)) <==> 0 <= left < upto && left < right
                < count,
        pairs_upto(count, upto).no_duplicates(),
    decreases upto,
{
    if upto > 0 {
        lemma_pairs_upto(count, upto - 1);
        lemma_pairs_of(upto - 1, count);
        let first = pairs_upto(count, upto - 1);
        let second = pairs_of(upto - 1, count);
        let all = pairs_upto(count, upto);
        assert forall|left: int, right: int| #[trigger] all.contains((left, right)) <==> 0 <= left
            < upto && left < right < count by {
            if all.contains((left, right)) {
                let at = choose|at: int| 0 <= at < all.len() && all[at] == (left, right);
                if at < first.len() {
                    assert(first[at] == (left, right));
                    assert(first.contains((left, right)));
                } else {
                    assert(second[at - first.len()] == (left, right));
                    assert(second.contains((left, right)));
                }
            }
            if 0 <= left < upto && left < right < count {
                if left == upto - 1 {
                    assert(second.contains((left, right)));
                    let at = choose|at: int| 0 <= at < second.len() && second[at] == (left, right);
                    assert(all[first.len() + at] == (left, right));
                } else {
                    assert(first.contains((left, right)));
                    let at = choose|at: int| 0 <= at < first.len() && first[at] == (left, right);
                    assert(all[at] == (left, right));
                }
            }
        }
        assert(all.no_duplicates()) by {
            assert forall|i: int, j: int|
                0 <= i < all.len() && 0 <= j < all.len() && i != j implies all[i] != all[j] by {
                if i < first.len() && j >= first.len() {
                    assert(first.contains((first[i].0, first[i].1)));
                    assert(second.contains((second[j - first.len()].0, second[j - first.len()].1)));
                } else if j < first.len() && i >= first.len() {
                    assert(first.contains((first[j].0, first[j].1)));
                    assert(second.contains((second[i - first.len()].0, second[i - first.len()].1)));
                } else if i >= first.len() {
                    assert(second[i - first.len()] != second[j - first.len()]);
                }
            }
        }
    }
}

/// A row has one smallest key, and no key of the row is below it.
pub proof fn law_smallest_overlap_is_one(keys: Seq<i64>, minimum: i64, other: i64)
    requires
        is_minimum(keys, minimum),
    ensures
        keys.contains(minimum),
        forall|i: int| 0 <= i < keys.len() ==> minimum <= #[trigger] keys[i],
        is_minimum(keys, other) ==> other == minimum,
{
}

/// Every pair of prefixes has its overlap; a single prefix overlaps fully, and so does none.
pub proof fn law_overlaps_of_all_pairs<V: Fn(usize, usize) -> i64>(
    ratio: V,
    prefixes: Seq<Vec<ExtendedPointId>>,
    overlaps: Seq<i64>,
    left: int,
    right: int,
)
    requires
        are_overlaps(ratio, prefixes, overlaps),
    ensures
        prefixes.len() <= 1 ==> overlaps == seq![0x3ff0_0000_0000_0000i64],
        prefixes.len() > 1 && 0 <= left < right < prefixes.len() ==> exists|i: int|
            0 <= i < overlaps.len() && is_overlap(
                ratio,
                prefixes[left]@,
                prefixes[right]@,
                #[trigger] overlaps[i],
            ),
{
    if prefixes.len() > 1 && 0 <= left < right < prefixes.len() {
        let count = prefixes.len() as int;
        law_every_pair_is_looked_at_once(count);
        let pairs = pairs_upto(count, count);
        assert(pairs.contains((left, right)));
        let i = choose|i: int| 0 <= i < pairs.len() && pairs[i] == (left, right);
        let overlap = overlaps[i];
    }
}

} // verus!
