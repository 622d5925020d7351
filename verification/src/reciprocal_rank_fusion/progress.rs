//! The decisions of a fusion session: when to check the certificate, when to
//! pause, and which source to pull next.

use super::scoring::accepts;
use super::state::{
    all_ended, first_of, fixed_ids, ids_view, missing_counts, setup_fault, weights_view,
    effective_weights, DynamicRrfState, FusionView, PointBounds,
};
use super::types::{
    ChannelRankBatch, DynamicRrfExecution, DynamicRrfPolicy, DynamicRrfScheduler,
    DynamicRrfStopReason,
};
use crate::operation_error::{refuse, refused, Fault, OperationError, OperationResult};
use crate::order::{finite_key, is_finite_key, ExtendedPointId};
use crate::tables::{copied, copied_prefix, extend_copied, repeated};
use vstd::prelude::*;

verus! {

/// The fewest pulls between two checks once a session is warm.
pub const MIN_CERTIFICATION_INTERVAL: usize = 64;

/// The most pulls between two checks.
pub const MAX_CERTIFICATION_INTERVAL: usize = 1_024;

/// A product that stops at the largest number.
pub open spec fn product(left: usize, right: usize) -> usize {
    if left * right > usize::MAX {
        usize::MAX
    } else {
        (left * right) as usize
    }
}

/// A product that stops at the largest number.
pub fn saturating_product(left: usize, right: usize) -> (result: usize)
    ensures
        result == product(left, right),
{
    match left.checked_mul(right) {
        Some(result) => result,
        None => usize::MAX,
    }
}

/// Whether a number is a power of two.
pub open spec fn power_of_two(number: nat) -> bool
    decreases number,
{
    number == 1 || number > 1 && number % 2 == 0 && power_of_two(number / 2)
}

/// Whether a number is a power of two.
pub fn is_power_of_two(number: usize) -> (result: bool)
    ensures
        result == power_of_two(number as nat),
{
    let mut rest: usize = number;
    while rest > 1 && rest % 2 == 0
        invariant
            power_of_two(number as nat) == power_of_two(rest as nat),
        decreases rest,
    {
        rest = rest / 2;
    }
    rest == 1
}

/// Whether the scheduler's arithmetic can be called on every argument. It takes
/// a position, the rank constant, a weight, the live competitors and a cost.
pub open spec fn accepts_priority<P: Fn(usize, usize, i64, usize, i64) -> i64>(
    priority: P,
) -> bool {
    forall|position: usize, rrf_k: usize, weight: i64, live: usize, cost: i64|
        call_requires(priority, (position, rrf_k, weight, live, cost))
}

/// Everything that the decisions of a session depend on.
pub struct ProgressView {
    /// What the sources have yielded.
    pub fusion: FusionView,
    /// The most identities that one pull asks for.
    pub batch_size: usize,
    /// The key of what one action on every source costs.
    pub costs: Seq<i64>,
    /// The action in which every source was last pulled.
    pub last_advanced: Seq<usize>,
    /// The source of every action so far.
    pub schedule: Seq<usize>,
    /// The live competitors that miss every source.
    pub missing: Seq<usize>,
    /// The policy of the session.
    pub policy: DynamicRrfPolicy,
    /// The pulls until the session is warm.
    pub warmup_pulls: usize,
    /// The identities pulled.
    pub total_pulls: usize,
    /// The identities pulled since the last check.
    pub pulls_since_check: usize,
    /// The checks made.
    pub checks: usize,
    /// Whether the next action must be preceded by a check.
    pub force_check: bool,
    /// The complete order, once it was computed.
    pub order: Option<Seq<ExtendedPointId>>,
}

/// Whether a cost is finite and positive.
pub open spec fn valid_cost(cost: i64) -> bool {
    finite_key(cost) && cost > 0
}

/// Whether every source has a valid cost.
pub open spec fn valid_costs(costs: Seq<i64>) -> bool {
    forall|source: int| 0 <= source < costs.len() ==> valid_cost(#[trigger] costs[source])
}

impl ProgressView {
    /// Whether the parts belong together.
    pub open spec fn valid(self) -> bool {
        let count = self.fusion.weights.len();
        &&& self.fusion.valid()
        &&& self.batch_size > 0
        &&& self.costs.len() == count
        &&& valid_costs(self.costs)
        &&& self.last_advanced.len() == count
        &&& self.missing.len() == count
        &&& self.schedule.len() <= usize::MAX
        &&& forall|source: int|
            0 <= source < count ==> #[trigger] self.last_advanced[source] <= self.schedule.len()
        &&& self.order is Some ==> all_ended(self.fusion.exhausted)
    }

    /// The number of sources.
    pub open spec fn count(self) -> usize {
        self.fusion.weights.len() as usize
    }

    /// Whether the pull budget is spent and the sources are drained.
    pub open spec fn draining(self) -> bool {
        match self.policy.exhaustive_after_pulls_per_source {
            Some(budget) => self.total_pulls >= product(budget, self.count()),
            None => false,
        }
    }

    /// The pulls between two checks.
    pub open spec fn check_interval(self) -> usize {
        if self.total_pulls <= self.warmup_pulls {
            match self.policy.warmup_check_interval {
                Some(interval) => interval,
                None => self.count(),
            }
        } else if self.total_pulls / 8 < MIN_CERTIFICATION_INTERVAL {
            MIN_CERTIFICATION_INTERVAL
        } else if self.total_pulls / 8 > MAX_CERTIFICATION_INTERVAL {
            MAX_CERTIFICATION_INTERVAL
        } else {
            (self.total_pulls / 8) as usize
        }
    }

    /// Whether a check is due.
    pub open spec fn check_due(self) -> bool {
        all_ended(self.fusion.exhausted) || !self.draining() && (self.force_check
            || self.pulls_since_check >= self.check_interval())
    }

    /// Whether a source has reached its pause target.
    pub open spec fn target_reached(self, targets: Seq<Option<usize>>, source: int) -> bool {
        match targets[source] {
            Some(target) => self.fusion.histories[source].len() >= target
                || self.fusion.exhausted[source],
            None => true,
        }
    }

    /// Whether the session has reached its pause boundary.
    pub open spec fn pause_reached(self, targets: Seq<Option<usize>>) -> bool {
        &&& exists|source: int|
            0 <= source < targets.len() && (#[trigger] targets[source]) is Some
        &&& forall|source: int|
            0 <= source < targets.len() ==> #[trigger] self.target_reached(targets, source)
    }

    /// The session after one more check.
    pub open spec fn checked(self) -> ProgressView {
        ProgressView { checks: self.checks.saturating_add(1), ..self }
    }

    /// Whether the check just made also refreshes the competitors.
    pub open spec fn refreshes(self) -> bool {
        self.policy.scheduler == DynamicRrfScheduler::CompetitorCostAware && (self.checks <= 4
            || power_of_two(self.checks as nat))
    }

    /// The session after a check that fixed nothing.
    pub open spec fn unfixed(self, rows: Seq<PointBounds>, unseen: i64) -> ProgressView {
        let checked = self.checked();
        if checked.refreshes() {
            ProgressView { missing: missing_counts(self.fusion, rows, unseen), ..checked }
        } else {
            checked
        }
    }

    /// The session at the point of choosing a source.
    pub open spec fn after_due_check(self, rows: Seq<PointBounds>, unseen: i64) -> ProgressView {
        ProgressView { pulls_since_check: 0, force_check: false, ..self.unfixed(rows, unseen) }
    }

    /// Whether a source may be pulled.
    pub open spec fn eligible(self, targets: Seq<Option<usize>>, source: int) -> bool {
        &&& 0 <= source < self.fusion.weights.len()
        &&& !self.fusion.exhausted[source]
        &&& match targets[source] {
            Some(target) => self.fusion.histories[source].len() < target,
            None => true,
        }
    }

    /// How many actions a source has waited.
    pub open spec fn waited(self, source: int) -> int {
        self.schedule.len() - self.last_advanced[source]
    }

    /// Whether a source has waited longer than fairness allows.
    pub open spec fn starving(self, targets: Seq<Option<usize>>, source: int) -> bool {
        &&& self.eligible(targets, source)
        &&& match self.policy.fairness_after_actions_per_source {
            Some(fairness) => self.waited(source) >= product(fairness, self.count()),
            None => false,
        }
    }

    /// Whether some source has waited longer than fairness allows.
    pub open spec fn has_starving(self, targets: Seq<Option<usize>>) -> bool {
        exists|source: int| self.starving(targets, source)
    }

    /// Whether the arithmetic gave the source this bound and this priority.
    pub open spec fn is_offer<
        F: Fn(i64, usize, usize, i64) -> i64,
        P: Fn(usize, usize, i64, usize, i64) -> i64,
    >(self, accumulate: F, priority: P, source: int, bound: i64, rank: i64) -> bool {
        let position = self.fusion.histories[source].len() as usize;
        let rrf_k = self.fusion.rrf_k;
        let weight = self.fusion.weights[source];
        &&& call_ensures(accumulate, (0i64, position, rrf_k, weight), bound)
        &&& match self.policy.scheduler {
            DynamicRrfScheduler::MaxNextContribution => rank == bound,
            DynamicRrfScheduler::CompetitorCostAware => call_ensures(
                priority,
                (
                    position,
                    rrf_k,
                    weight,
                    if self.missing[source] == 0 {
                        1usize
                    } else {
                        self.missing[source]
                    },
                    self.costs[source],
                ),
                rank,
            ),
        }
    }

    /// Whether the source is the next to pull: the one that has starved longest,
    /// else the one with the best offer, the first of equals either way.
    pub open spec fn selects<
        F: Fn(i64, usize, usize, i64) -> i64,
        P: Fn(usize, usize, i64, usize, i64) -> i64,
    >(self, targets: Seq<Option<usize>>, accumulate: F, priority: P, source: int) -> bool {
        &&& self.eligible(targets, source)
        &&& if self.has_starving(targets) {
            &&& self.starving(targets, source)
            &&& forall|other: int|
                #[trigger] self.starving(targets, other) ==> self.waited(other) < self.waited(
                    source,
                ) || self.waited(other) == self.waited(source) && source <= other
        } else {
            exists|offers: Seq<(i64, i64)>|
                #[trigger] self.best_offer(targets, accumulate, priority, offers, source)
        }
    }

    /// Whether `offers` holds the priority and the bound of every eligible
    /// source, and the given source has the best.
    pub open spec fn best_offer<
        F: Fn(i64, usize, usize, i64) -> i64,
        P: Fn(usize, usize, i64, usize, i64) -> i64,
    >(
        self,
        targets: Seq<Option<usize>>,
        accumulate: F,
        priority: P,
        offers: Seq<(i64, i64)>,
        source: int,
    ) -> bool {
        &&& offers.len() == self.fusion.weights.len()
        &&& forall|other: int|
            #[trigger] self.eligible(targets, other) ==> {
                &&& self.is_offer(
                    accumulate,
                    priority,
                    other,
                    offers[other].1,
                    offers[other].0,
                )
                &&& !better_offer(offers, other, source)
            }
    }

    /// The session after choosing a source.
    pub open spec fn advanced(self, source: int) -> ProgressView {
        ProgressView {
            schedule: self.schedule.push(source as usize),
            last_advanced: self.last_advanced.update(
                source,
                (self.schedule.len() + 1) as usize,
            ),
            ..self
        }
    }

    /// Why a pulled batch is refused.
    pub open spec fn supply_fault(
        self,
        source: usize,
        start_rank: usize,
        ids: Seq<ExtendedPointId>,
        ends: bool,
    ) -> Option<Fault> {
        if ids.len() > self.batch_size {
            Some(Fault::BatchTooLarge { source, len: ids.len() as usize, max: self.batch_size })
        } else {
            self.fusion.batch_fault(source, start_rank, ids, ends)
        }
    }

    /// The session after an accepted batch.
    pub open spec fn supplied(
        self,
        source: usize,
        ids: Seq<ExtendedPointId>,
        ends: bool,
    ) -> ProgressView {
        ProgressView {
            fusion: self.fusion.after_batch(source, ids, ends),
            total_pulls: self.total_pulls.saturating_add(ids.len() as usize),
            pulls_since_check: self.pulls_since_check.saturating_add(ids.len() as usize),
            force_check: self.force_check || ends,
            ..self
        }
    }

    /// The session after its prefix target was raised.
    pub open spec fn raised(self, top_k: usize) -> ProgressView {
        let warmup = product(product(top_k, self.count()), 2);
        ProgressView {
            fusion: FusionView { top_k, ..self.fusion },
            warmup_pulls: if warmup > self.warmup_pulls {
                warmup
            } else {
                self.warmup_pulls
            },
            force_check: true,
            ..self
        }
    }

    /// Whether an execution reports this session.
    pub open spec fn reported(self, execution: DynamicRrfExecution) -> bool {
        &&& execution.source_pulls@ == Seq::new(
            self.fusion.histories.len(),
            |source: int| self.fusion.histories[source].len() as usize,
        )
        &&& execution.source_exhausted@ == self.fusion.exhausted
        &&& execution.certification_checks == self.checks
        &&& execution.stop_reason == (if all_ended(self.fusion.exhausted) {
            DynamicRrfStopReason::AllSourcesExhausted
        } else {
            DynamicRrfStopReason::TopKFixed
        })
    }
}

/// Whether one source's offer beats another's: the higher priority, then the
/// higher bound, then the first source.
pub open spec fn better_offer(offers: Seq<(i64, i64)>, left: int, right: int) -> bool {
    ||| offers[left].0 > offers[right].0
    ||| offers[left].0 == offers[right].0 && offers[left].1 > offers[right].1
    ||| offers[left].0 == offers[right].0 && offers[left].1 == offers[right].1 && left < right
}

/// What a session wants next.
#[derive(Debug)]
pub enum SessionStep {
    /// The Top-K is fixed.
    Fixed(DynamicRrfExecution),
    /// The pause boundary is reached.
    Paused,
    /// The next batch of a source is wanted.
    Pull(usize),
}

/// Why a session cannot be set up.
pub open spec fn session_fault(
    source_count: usize,
    source_batch_size: usize,
    rrf_k: usize,
    weights: Option<Seq<i64>>,
    costs: Seq<i64>,
    policy: DynamicRrfPolicy,
) -> Option<Fault> {
    if source_batch_size == 0 {
        Some(Fault::ZeroBatchSize)
    } else if policy.warmup_check_interval == Some(0usize) {
        Some(Fault::ZeroWarmupInterval)
    } else if policy.exhaustive_after_pulls_per_source == Some(0usize) {
        Some(Fault::ZeroExhaustiveBudget)
    } else if policy.fairness_after_actions_per_source == Some(0usize) {
        Some(Fault::ZeroFairnessInterval)
    } else if costs.len() != source_count {
        Some(Fault::CostCount { got: costs.len() as usize, expected: source_count })
    } else if !valid_costs(costs) {
        Some(Fault::InvalidCost)
    } else {
        setup_fault(source_count, rrf_k, weights)
    }
}

/// A session that has pulled nothing.
pub open spec fn fresh_session(
    source_count: usize,
    source_batch_size: usize,
    top_k: usize,
    rrf_k: usize,
    weights: Option<Seq<i64>>,
    costs: Seq<i64>,
    policy: DynamicRrfPolicy,
) -> ProgressView {
    ProgressView {
        fusion: FusionView {
            rrf_k,
            top_k,
            weights: effective_weights(source_count, weights),
            histories: Seq::new(
                source_count as nat,
                |source: int| Seq::<ExtendedPointId>::empty(),
            ),
            exhausted: Seq::new(source_count as nat, |source: int| false),
        },
        batch_size: source_batch_size,
        costs,
        last_advanced: Seq::new(source_count as nat, |source: int| 0usize),
        schedule: Seq::empty(),
        missing: Seq::new(
            source_count as nat,
            |source: int|
                if top_k == 0 {
                    1usize
                } else {
                    top_k
                },
        ),
        policy,
        warmup_pulls: product(product(top_k, source_count), 2),
        total_pulls: 0,
        pulls_since_check: 0,
        checks: 0,
        force_check: true,
        order: None,
    }
}

/// Whether every cost is finite and positive.
fn costs_are_valid(costs: &Vec<i64>) -> (valid: bool)
    ensures
        valid == valid_costs(costs@),
{
    let mut source: usize = 0;
    while source < costs.len()
        invariant
            source <= costs@.len(),
            forall|i: int| 0 <= i < source ==> valid_cost(#[trigger] costs@[i]),
        decreases costs@.len() - source,
    {
        if !is_finite_key(costs[source]) || costs[source] <= 0 {
            assert(!valid_cost(costs@[source as int]));
            return false;
        }
        source += 1;
    }
    true
}

/// Whether a policy interval is zero.
fn is_zero(interval: Option<usize>) -> (result: bool)
    ensures
        result == (interval == Some(0usize)),
{
    match interval {
        Some(value) => value == 0,
        None => false,
    }
}

/// The state of a fusion session without its streams.
pub struct RrfProgress {
    state: DynamicRrfState,
    source_batch_size: usize,
    source_history: Vec<Vec<ExtendedPointId>>,
    source_costs: Vec<i64>,
    source_last_advanced: Vec<usize>,
    source_schedule: Vec<usize>,
    competitive_missing: Vec<usize>,
    policy: DynamicRrfPolicy,
    warmup_pulls: usize,
    total_pulls: usize,
    pulls_since_check: usize,
    certification_checks: usize,
    force_check: bool,
    exhausted_order: Option<Vec<ExtendedPointId>>,
}

impl View for RrfProgress {
    type V = ProgressView;

    closed spec fn view(&self) -> ProgressView {
        ProgressView {
            fusion: self.state@,
            batch_size: self.source_batch_size,
            costs: self.source_costs@,
            last_advanced: self.source_last_advanced@,
            schedule: self.source_schedule@,
            missing: self.competitive_missing@,
            policy: self.policy,
            warmup_pulls: self.warmup_pulls,
            total_pulls: self.total_pulls,
            pulls_since_check: self.pulls_since_check,
            checks: self.certification_checks,
            force_check: self.force_check,
            order: ids_view(self.exhausted_order),
        }
    }
}

impl RrfProgress {
    /// Whether the parts belong together.
    pub closed spec fn wf(&self) -> bool {
        &&& self@.valid()
        &&& self.state.wf()
        &&& self.source_history@.len() == self@.fusion.histories.len()
        &&& forall|source: int|
            0 <= source < self.source_history@.len() ==> (#[trigger] self.source_history@[source])@
                == self@.fusion.histories[source]
    }

    /// A session that has pulled nothing.
    pub fn new(
        source_count: usize,
        source_batch_size: usize,
        top_k: usize,
        rrf_k: usize,
        weights: Option<&Vec<i64>>,
        source_costs: &Vec<i64>,
        policy: DynamicRrfPolicy,
    ) -> (result: OperationResult<RrfProgress>)
        ensures
            match session_fault(
                source_count,
                source_batch_size,
                rrf_k,
                weights_view(weights),
                source_costs@,
                policy,
            ) {
                Some(fault) => result == refused::<RrfProgress>(fault),
                None => result matches Ok(progress) && progress.wf() && progress@
                    == fresh_session(
                    source_count,
                    source_batch_size,
                    top_k,
                    rrf_k,
                    weights_view(weights),
                    source_costs@,
                    policy,
                ),
            },
    {
        if source_batch_size == 0 {
            return refuse(Fault::ZeroBatchSize);
        }
        if is_zero(policy.warmup_check_interval) {
            return refuse(Fault::ZeroWarmupInterval);
        }
        if is_zero(policy.exhaustive_after_pulls_per_source) {
            return refuse(Fault::ZeroExhaustiveBudget);
        }
        if is_zero(policy.fairness_after_actions_per_source) {
            return refuse(Fault::ZeroFairnessInterval);
        }
        if source_costs.len() != source_count {
            return refuse(Fault::CostCount { got: source_costs.len(), expected: source_count });
        }
        if !costs_are_valid(source_costs) {
            return refuse(Fault::InvalidCost);
        }
        let state = match DynamicRrfState::new(source_count, top_k, rrf_k, weights) {
            Ok(state) => state,
            Err(error) => {
                return Err(error);
            },
        };
        let mut source_history: Vec<Vec<ExtendedPointId>> = Vec::new();
        while source_history.len() < source_count
            invariant
                source_history@.len() <= source_count,
                forall|source: int|
                    0 <= source < source_history@.len() ==> (#[trigger] source_history@[source])@
                        == Seq::<ExtendedPointId>::empty(),
            decreases source_count - source_history@.len(),
        {
            source_history.push(Vec::new());
        }
        let progress = RrfProgress {
            state,
            source_batch_size,
            source_history,
            source_costs: copied(source_costs),
            source_last_advanced: repeated(0, source_count),
            source_schedule: Vec::new(),
            competitive_missing: repeated(
                if top_k == 0 {
                    1
                } else {
                    top_k
                },
                source_count,
            ),
            policy,
            warmup_pulls: saturating_product(saturating_product(top_k, source_count), 2),
            total_pulls: 0,
            pulls_since_check: 0,
            certification_checks: 0,
            force_check: true,
            exhausted_order: None,
        };
        proof {
            let fresh = fresh_session(
                source_count,
                source_batch_size,
                top_k,
                rrf_k,
                weights_view(weights),
                source_costs@,
                policy,
            );
            assert(progress@.missing =~= fresh.missing);
            assert(progress@.schedule =~= fresh.schedule);
        }
        Ok(progress)
    }

    /// The number of sources.
    pub fn source_count(&self) -> (count: usize)
        requires
            self.wf(),
        ensures
            count == self@.fusion.weights.len(),
    {
        self.state.source_count()
    }

    /// The most identities that one pull asks for.
    pub fn batch_size(&self) -> (size: usize)
        ensures
            size == self@.batch_size,
    {
        self.source_batch_size
    }

    /// How many identities every source has yielded.
    pub fn source_pulls(&self) -> (pulls: Vec<usize>)
        requires
            self.wf(),
        ensures
            pulls@ == Seq::new(
                self@.fusion.histories.len(),
                |source: int| self@.fusion.histories[source].len() as usize,
            ),
    {
        let mut pulls: Vec<usize> = Vec::new();
        let mut source: usize = 0;
        let ghost expected = Seq::new(
            self@.fusion.histories.len(),
            |source: int| self@.fusion.histories[source].len() as usize,
        );
        while source < self.source_history.len()
            invariant
                self.wf(),
                source <= self.source_history@.len(),
                expected == Seq::new(
                    self@.fusion.histories.len(),
                    |source: int| self@.fusion.histories[source].len() as usize,
                ),
                pulls@ =~= expected.take(source as int),
            decreases self.source_history@.len() - source,
        {
            pulls.push(self.source_history[source].len());
            source += 1;
        }
        assert(pulls@ =~= expected);
        pulls
    }

    /// What a source has yielded.
    pub fn source_history(&self, source: usize) -> (history: Option<&Vec<ExtendedPointId>>)
        requires
            self.wf(),
        ensures
            history is Some <==> source < self@.fusion.weights.len(),
            history matches Some(ids) ==> ids@ == self@.fusion.histories[source as int],
    {
        if source < self.source_history.len() {
            Some(&self.source_history[source])
        } else {
            None
        }
    }

    /// The source of every action so far.
    pub fn source_schedule(&self) -> (schedule: &Vec<usize>)
        ensures
            schedule@ == self@.schedule,
    {
        &self.source_schedule
    }

    /// Whether a source has ended, for a source that exists.
    pub fn source_is_exhausted(&self, source: usize) -> (result: Option<bool>)
        requires
            self.wf(),
        ensures
            result == (if source < self@.fusion.weights.len() {
                Some(self@.fusion.exhausted[source as int])
            } else {
                None
            }),
    {
        self.state.source_exhausted(source)
    }

    /// Raises the prefix target. What was certified and observed stays valid;
    /// a smaller target is refused.
    pub fn extend_top_k(&mut self, top_k: usize) -> (result: OperationResult<()>)
        requires
            old(self).wf(),
        ensures
            final(self).wf(),
            top_k < old(self)@.fusion.top_k ==> {
                &&& result == refused::<()>(
                    Fault::PrefixDecrease { from: old(self)@.fusion.top_k, to: top_k },
                )
                &&& final(self)@ == old(self)@
            },
            top_k >= old(self)@.fusion.top_k ==> result == Ok::<(), OperationError>(()) && final(self)@ == old(self)@.raised(top_k),
    {
        let current: usize = self.state.top_k();
        if top_k < current {
            return refuse(Fault::PrefixDecrease { from: current, to: top_k });
        }
        let count: usize = self.state.source_count();
        self.state.set_top_k(top_k);
        let warmup: usize = saturating_product(saturating_product(top_k, count), 2);
        if warmup > self.warmup_pulls {
            self.warmup_pulls = warmup;
        }
        self.force_check = true;
        Ok(())
    }

    /// Whether the pull budget is spent and the sources are drained.
    fn is_draining(&self) -> (result: bool)
        requires
            self.wf(),
        ensures
            result == self@.draining(),
    {
        match self.policy.exhaustive_after_pulls_per_source {
            Some(budget) => self.total_pulls >= saturating_product(
                budget,
                self.state.source_count(),
            ),
            None => false,
        }
    }

    /// The pulls between two checks.
    fn check_interval(&self) -> (interval: usize)
        requires
            self.wf(),
        ensures
            interval == self@.check_interval(),
    {
        if self.total_pulls <= self.warmup_pulls {
            match self.policy.warmup_check_interval {
                Some(interval) => interval,
                None => self.state.source_count(),
            }
        } else {
            let interval: usize = self.total_pulls / 8;
            if interval < MIN_CERTIFICATION_INTERVAL {
                MIN_CERTIFICATION_INTERVAL
            } else if interval > MAX_CERTIFICATION_INTERVAL {
                MAX_CERTIFICATION_INTERVAL
            } else {
                interval
            }
        }
    }

    /// Whether a check is due.
    fn is_check_due(&self) -> (result: bool)
        requires
            self.wf(),
        ensures
            result == self@.check_due(),
    {
        self.state.all_sources_exhausted() || !self.is_draining() && (self.force_check
            || self.pulls_since_check >= self.check_interval())
    }

    /// Whether the session has reached its pause boundary.
    fn is_pause_reached(&self, targets: &Vec<Option<usize>>) -> (result: bool)
        requires
            self.wf(),
            targets@.len() == self@.fusion.weights.len(),
        ensures
            result == self@.pause_reached(targets@),
    {
        let mut enabled = false;
        let mut source: usize = 0;
        while source < targets.len()
            invariant
                self.wf(),
                targets@.len() == self@.fusion.weights.len(),
                source <= targets@.len(),
                enabled == exists|i: int| 0 <= i < source && (#[trigger] targets@[i]) is Some,
                forall|i: int|
                    0 <= i < source ==> #[trigger] self@.target_reached(targets@, i),
            decreases targets@.len() - source,
        {
            assert(self.source_history@[source as int]@ == self@.fusion.histories[source as int]);
            match targets[source] {
                Some(target) => {
                    assert(targets@[source as int] is Some);
                    enabled = true;
                    let ended = match self.state.source_exhausted(source) {
                        Some(ended) => ended,
                        None => false,
                    };
                    if self.source_history[source].len() < target && !ended {
                        assert(!self@.target_reached(targets@, source as int));
                        return false;
                    }
                },
                None => {},
            }
            source += 1;
        }
        enabled
    }

    /// Whether a source may be pulled.
    fn is_eligible(&self, targets: &Vec<Option<usize>>, source: usize) -> (result: bool)
        requires
            self.wf(),
            targets@.len() == self@.fusion.weights.len(),
            source < targets@.len(),
        ensures
            result == self@.eligible(targets@, source as int),
    {
        assert(self.source_history@[source as int]@ == self@.fusion.histories[source as int]);
        let ended = match self.state.source_exhausted(source) {
            Some(ended) => ended,
            None => false,
        };
        !ended && match targets[source] {
            Some(target) => self.source_history[source].len() < target,
            None => true,
        }
    }

    /// The source that has waited longest beyond what fairness allows.
    fn starving_source(&self, targets: &Vec<Option<usize>>) -> (result: Option<usize>)
        requires
            self.wf(),
            targets@.len() == self@.fusion.weights.len(),
        ensures
            result is Some <==> self@.has_starving(targets@),
            result matches Some(source) ==> {
                &&& self@.starving(targets@, source as int)
                &&& forall|other: int|
                    #[trigger] self@.starving(targets@, other) ==> self@.waited(other)
                        < self@.waited(source as int) || self@.waited(other) == self@.waited(
                        source as int,
                    ) && source <= other
            },
    {
        let fairness: usize = match self.policy.fairness_after_actions_per_source {
            Some(fairness) => fairness,
            None => {
                return None;
            },
        };
        let count: usize = self.state.source_count();
        let window: usize = saturating_product(fairness, count);
        let actions: usize = self.source_schedule.len();
        let mut best: Option<usize> = None;
        let mut source: usize = 0;
        while source < count
            invariant
                self.wf(),
                targets@.len() == self@.fusion.weights.len(),
                count == self@.fusion.weights.len(),
                actions == self@.schedule.len(),
                self@.policy.fairness_after_actions_per_source == Some(fairness),
                window == product(fairness, self@.count()),
                source <= count,
                best is None ==> forall|other: int|
                    0 <= other < source ==> !#[trigger] self@.starving(targets@, other),
                best matches Some(chosen) ==> {
                    &&& chosen < source
                    &&& self@.starving(targets@, chosen as int)
                    &&& forall|other: int|
                        0 <= other < source && #[trigger] self@.starving(targets@, other)
                            ==> self@.waited(other) < self@.waited(chosen as int) || self@.waited(
                            other,
                        ) == self@.waited(chosen as int) && chosen <= other
                },
            decreases count - source,
        {
            let wait: usize = actions - self.source_last_advanced[source];
            if wait >= window && self.is_eligible(targets, source) {
                assert(self@.starving(targets@, source as int));
                let longer = match best {
                    Some(chosen) => wait > actions - self.source_last_advanced[chosen],
                    None => true,
                };
                if longer {
                    best = Some(source);
                }
            } else {
                assert(!self@.starving(targets@, source as int));
            }
            source += 1;
        }
        best
    }

    /// The source to pull next.
    fn select_source_to_advance<
        F: Fn(i64, usize, usize, i64) -> i64,
        P: Fn(usize, usize, i64, usize, i64) -> i64,
    >(&self, targets: &Vec<Option<usize>>, accumulate: &F, priority: &P) -> (source: usize)
        requires
            self.wf(),
            accepts(*accumulate),
            accepts_priority(*priority),
            targets@.len() == self@.fusion.weights.len(),
            exists|source: int| self@.eligible(targets@, source),
        ensures
            self@.selects(targets@, *accumulate, *priority, source as int),
    {
        match self.starving_source(targets) {
            Some(source) => {
                return source;
            },
            None => {},
        }
        let count: usize = self.state.source_count();
        let mut best: Option<usize> = None;
        let mut offers: Vec<(i64, i64)> = Vec::new();
        let mut source: usize = 0;
        while source < count
            invariant
                self.wf(),
                accepts(*accumulate),
                accepts_priority(*priority),
                targets@.len() == self@.fusion.weights.len(),
                count == self@.fusion.weights.len(),
                source <= count,
                offers@.len() == source,
                best is None ==> forall|other: int|
                    0 <= other < source ==> !#[trigger] self@.eligible(targets@, other),
                best matches Some(chosen) ==> chosen < source && self@.eligible(
                    targets@,
                    chosen as int,
                ) && forall|other: int|
                    0 <= other < source && #[trigger] self@.eligible(targets@, other)
                        ==> !better_offer(offers@, other, chosen as int),
                forall|other: int|
                    0 <= other < source && #[trigger] self@.eligible(targets@, other)
                        ==> self@.is_offer(
                        *accumulate,
                        *priority,
                        other,
                        offers@[other].1,
                        offers@[other].0,
                    ),
            decreases count - source,
        {
            let ghost before = offers@;
            if self.is_eligible(targets, source) {
                let bound: i64 = match self.state.next_possible_contribution(source, accumulate) {
                    Some(bound) => bound,
                    None => 0,
                };
                let rank: i64 = match self.policy.scheduler {
                    DynamicRrfScheduler::MaxNextContribution => bound,
                    DynamicRrfScheduler::CompetitorCostAware => {
                        let live: usize = if self.competitive_missing[source] == 0 {
                            1
                        } else {
                            self.competitive_missing[source]
                        };
                        self.state.pull_priority(source, live, self.source_costs[source], priority)
                    },
                };
                offers.push((rank, bound));
                let beats = match best {
                    Some(chosen) => rank > offers[chosen].0 || rank == offers[chosen].0 && bound
                        > offers[chosen].1,
                    None => true,
                };
                if beats {
                    best = Some(source);
                }
            } else {
                offers.push((0, 0));
            }
            source += 1;
        }
        match best {
            Some(source) => {
                assert(self@.best_offer(
                    targets@,
                    *accumulate,
                    *priority,
                    offers@,
                    source as int,
                ));
                source
            },
            None => {
                proof {
                    let source = choose|source: int| self@.eligible(targets@, source);
                    assert(!self@.eligible(targets@, source));
                }
                0
            },
        }
    }

    /// The parts of a session belong together.
    pub proof fn lemma_valid(&self)
        requires
            self.wf(),
        ensures
            self@.valid(),
    {
    }

    /// Reports the session with the given identities.
    fn report(&self, point_ids: Vec<ExtendedPointId>) -> (execution: DynamicRrfExecution)
        requires
            self.wf(),
        ensures
            execution.point_ids == point_ids,
            self@.reported(execution),
    {
        let stop_reason = if self.state.all_sources_exhausted() {
            DynamicRrfStopReason::AllSourcesExhausted
        } else {
            DynamicRrfStopReason::TopKFixed
        };
        DynamicRrfExecution {
            point_ids,
            source_pulls: self.source_pulls(),
            source_exhausted: self.state.exhausted_sources(),
            certification_checks: self.certification_checks,
            stop_reason,
        }
    }

    /// Counts a check that fixed nothing.
    fn count_unfixed(&mut self, rows: &Vec<PointBounds>, unseen: i64)
        requires
            old(self).wf(),
            old(self)@.fusion.top_k > 0,
            old(self).aligned(rows@),
        ensures
            final(self).wf(),
            final(self).aligned(rows@),
            final(self)@ == old(self)@.unfixed(rows@, unseen),
    {
        self.certification_checks = self.certification_checks.saturating_add(1);
        if self.policy.scheduler == DynamicRrfScheduler::CompetitorCostAware && (
        self.certification_checks <= 4 || is_power_of_two(self.certification_checks)) {
            self.competitive_missing = self.state.missing_by(rows, unseen);
        }
    }

    /// Whether the rows stand in the order of the table of points.
    closed spec fn aligned(&self, rows: Seq<PointBounds>) -> bool {
        self.state.aligned(rows)
    }

    /// Decides what the session wants next: to report a fixed Top-K, to pause,
    /// or to pull a source.
    pub fn next_step<
        F: Fn(i64, usize, usize, i64) -> i64,
        P: Fn(usize, usize, i64, usize, i64) -> i64,
    >(&mut self, targets: &Vec<Option<usize>>, accumulate: &F, priority: &P) -> (step: SessionStep)
        requires
            old(self).wf(),
            accepts(*accumulate),
            accepts_priority(*priority),
            targets@.len() == old(self)@.fusion.weights.len(),
        ensures
            final(self).wf(),
            steps_to(old(self)@, targets@, *accumulate, *priority, step, final(self)@),
    {
        let due = self.is_check_due();
        let pause = self.is_pause_reached(targets);
        let ghost before = self@;
        let ghost mut middle = self@;
        if due || pause {
            let rows = self.state.point_bounds(accumulate);
            let unseen = self.state.unseen_bound(accumulate);
            match self.state.fixed_by(&rows, unseen) {
                Some(point_ids) => {
                    self.certification_checks = self.certification_checks.saturating_add(1);
                    let execution = self.report(point_ids);
                    let step = SessionStep::Fixed(execution);
                    assert(is_outcome(before, *accumulate, rows@, unseen, Some(point_ids@)));
                    return step;
                },
                None => {},
            }
            assert(is_outcome(before, *accumulate, rows@, unseen, None));
            if due {
                self.count_unfixed(&rows, unseen);
                self.pulls_since_check = 0;
                self.force_check = false;
                proof {
                    middle = self@;
                    assert(middle == before.after_due_check(rows@, unseen));
                }
            }
            if pause {
                self.count_unfixed(&rows, unseen);
                return SessionStep::Paused;
            }
        }
        proof {
            assert(exists|source: int| self@.eligible(targets@, source)) by {
                assert(!all_ended(before.fusion.exhausted));
                if exists|source: int| 0 <= source < targets@.len() && (
                #[trigger] targets@[source]) is Some {
                    let source = choose|source: int|
                        0 <= source < targets@.len() && !#[trigger] before.target_reached(
                            targets@,
                            source,
                        );
                    assert(self@.eligible(targets@, source));
                } else {
                    let source = choose|source: int|
                        0 <= source < before.fusion.exhausted.len()
                            && !#[trigger] before.fusion.exhausted[source];
                    assert(targets@[source] is None);
                    assert(self@.eligible(targets@, source));
                }
            }
        }
        let source = self.select_source_to_advance(targets, accumulate, priority);
        self.source_schedule.push(source);
        let action: usize = self.source_schedule.len();
        self.source_last_advanced[source] = action;
        proof {
            assert(self@.schedule =~= middle.advanced(source as int).schedule);
            assert(self@ == middle.advanced(source as int));
        }
        SessionStep::Pull(source)
    }

    /// Takes a batch that was pulled from a source, or refuses it.
    pub fn supply(&mut self, source: usize, batch: &ChannelRankBatch) -> (result: OperationResult<
        (),
    >)
        requires
            old(self).wf(),
        ensures
            final(self).wf(),
            match old(self)@.supply_fault(
                source,
                batch.start_rank,
                batch.point_ids@,
                batch.exhausted,
            ) {
                Some(fault) => result == refused::<()>(fault) && final(self)@ == old(self)@,
                None => result == Ok::<(), OperationError>(()) && final(self)@ == old(self)@.supplied(source, batch.point_ids@, batch.exhausted),
            },
    {
        if batch.point_ids.len() > self.source_batch_size {
            return refuse(
                Fault::BatchTooLarge {
                    source,
                    len: batch.point_ids.len(),
                    max: self.source_batch_size,
                },
            );
        }
        match self.state.observe_batch(source, batch) {
            Ok(_) => {},
            Err(error) => {
                return Err(error);
            },
        }
        proof {
            self.state.lemma_valid();
            assert forall|other: int|
                0 <= other < self@.fusion.histories.len() && other != source implies (
            #[trigger] self.source_history@[other])@ == self@.fusion.histories[other] by {
                assert(self.source_history@[other]@ == old(self)@.fusion.histories[other]);
            }
            assert(self.source_history@[source as int]@
                == old(self)@.fusion.histories[source as int]);
        }
        let count: usize = batch.point_ids.len();
        extend_copied(&mut self.source_history[source], &batch.point_ids);
        self.total_pulls = self.total_pulls.saturating_add(count);
        self.pulls_since_check = self.pulls_since_check.saturating_add(count);
        if batch.exhausted {
            self.force_check = true;
        }
        Ok(())
    }

    /// The first identities of the complete order, once it was computed.
    pub fn known_prefix(&self, top_k: usize) -> (execution: Option<DynamicRrfExecution>)
        requires
            self.wf(),
        ensures
            execution is Some <==> self@.order is Some,
            execution matches Some(report) ==> {
                &&& report.point_ids@ == first_of(self@.order->0, top_k)
                &&& self@.reported(report)
            },
    {
        match &self.exhausted_order {
            Some(order) => Some(self.report(copied_prefix(order, top_k))),
            None => None,
        }
    }

    /// Keeps the complete order of a session whose sources have all ended.
    pub fn keep_order<F: Fn(i64, usize, usize, i64) -> i64>(&mut self, accumulate: &F)
        requires
            old(self).wf(),
            accepts(*accumulate),
            all_ended(old(self)@.fusion.exhausted),
        ensures
            final(self).wf(),
            final(self)@.order matches Some(order) && final(self)@ == (ProgressView {
                order: Some(order),
                ..old(self)@
            }) && exists|rows: Seq<PointBounds>|
                old(self)@.fusion.bounded_by(*accumulate, rows) && order
                    == #[trigger] super::state::complete_ids(rows),
    {
        let order = self.state.complete_order(accumulate);
        self.exhausted_order = Some(order);
    }
}

/// Whether the arithmetic gave the observed points these bounds, and the bounds
/// fix these identities.
pub open spec fn is_outcome<F: Fn(i64, usize, usize, i64) -> i64>(
    view: ProgressView,
    accumulate: F,
    rows: Seq<PointBounds>,
    unseen: i64,
    fixed: Option<Seq<ExtendedPointId>>,
) -> bool {
    &&& view.fusion.bounded_by(accumulate, rows)
    &&& view.fusion.unseen_by(accumulate, unseen)
    &&& fixed == fixed_ids(rows, unseen, view.fusion.exhausted, view.fusion.top_k)
}

/// What one step does to a session. A check comes first where it is due or the
/// pause boundary is reached; what is fixed is reported. Otherwise the session
/// pauses at its boundary, and else it chooses a source.
pub open spec fn steps_to<
    F: Fn(i64, usize, usize, i64) -> i64,
    P: Fn(usize, usize, i64, usize, i64) -> i64,
>(
    before: ProgressView,
    targets: Seq<Option<usize>>,
    accumulate: F,
    priority: P,
    step: SessionStep,
    after: ProgressView,
) -> bool {
    match step {
        SessionStep::Fixed(execution) => {
            &&& before.check_due() || before.pause_reached(targets)
            &&& after == before.checked()
            &&& after.reported(execution)
            &&& exists|rows: Seq<PointBounds>, unseen: i64|
                #[trigger] is_outcome(
                    before,
                    accumulate,
                    rows,
                    unseen,
                    Some(execution.point_ids@),
                )
        },
        SessionStep::Paused => {
            &&& before.pause_reached(targets)
            &&& exists|rows: Seq<PointBounds>, unseen: i64|
                {
                    &&& #[trigger] is_outcome(before, accumulate, rows, unseen, None)
                    &&& after == (if before.check_due() {
                        before.after_due_check(rows, unseen)
                    } else {
                        before
                    }).unfixed(rows, unseen)
                }
        },
        SessionStep::Pull(source) => {
            &&& !before.pause_reached(targets)
            &&& if before.check_due() {
                exists|rows: Seq<PointBounds>, unseen: i64|
                    {
                        let middle = before.after_due_check(rows, unseen);
                        &&& #[trigger] is_outcome(before, accumulate, rows, unseen, None)
                        &&& middle.selects(targets, accumulate, priority, source as int)
                        &&& after == middle.advanced(source as int)
                    }
            } else {
                &&& before.selects(targets, accumulate, priority, source as int)
                &&& after == before.advanced(source as int)
            }
        },
    }
}

} // verus!
