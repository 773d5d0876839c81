//! Order sizing by bisection: the decision core of the share search.
//!
//! Turning a budget into a share quantity means finding the quantity
//! whose cost equals the budget. The cost function is continuous math
//! evaluated outside the core; what is verified here is the search
//! itself, over fixed-point share quantities. The driver asks for the
//! next candidate, evaluates its cost, and reports whether that cost is
//! still below the budget; each step then halves the bracket around the
//! answer. A fixed number of steps bounds latency, at the price of a
//! residual error no wider than the final bracket.

use vstd::prelude::*;

use crate::errors::MarketError;

verus! {

/// The bracket `[low, high]` that the share search has narrowed down
/// to, in the caller's fixed-point share scale.
#[derive(Debug, Clone, Copy)]
pub struct OrderSizer {
    low: u64,
    high: u64,
}

impl OrderSizer {
    /// The bracket's lower end.
    pub closed spec fn low_model(self) -> u64 {
        self.low
    }

    /// The bracket's upper end.
    pub closed spec fn high_model(self) -> u64 {
        self.high
    }

    /// The sizer's invariant: a non-empty bracket.
    pub open spec fn wf(self) -> bool {
        self.low_model() <= self.high_model()
    }

    /// Opens the search bracket `[0, budget × bound_factor]` for a
    /// budget in the caller's fixed-point money scale. A zero budget
    /// yields the degenerate bracket `[0, 0]`: zero shares, no error.
    /// A budget too large to bound the search in the fixed-point range
    /// is refused as `InvalidAmount`.
    pub fn new(budget: u64, bound_factor: u64) -> (r: Result<OrderSizer, MarketError>)
        ensures
            r is Ok <==> budget * bound_factor <= u64::MAX,
            r matches Ok(s) ==> ({
                &&& s.wf()
                &&& s.low_model() == 0
                &&& s.high_model() == budget * bound_factor
            }),
            r matches Err(e) ==> e == MarketError::InvalidAmount,
    {
        match budget.checked_mul(bound_factor) {
            Some(bound) => Ok(OrderSizer { low: 0, high: bound }),
            None => Err(MarketError::InvalidAmount),
        }
    }

    /// The candidate share quantity to price next: the bracket's
    /// midpoint.
    pub fn candidate(&self) -> (r: u64)
        requires
            self.wf(),
        ensures
            r == self.low_model() + (self.high_model() - self.low_model()) / 2,
            self.low_model() <= r <= self.high_model(),
    {
        self.low + (self.high - self.low) / 2
    }

    /// Narrows the bracket around the answer, given whether the
    /// candidate's cost came out below the budget: a too-cheap candidate
    /// raises the floor, any other lowers the ceiling. Each step at
    /// least halves the bracket, so the residual error after `k` steps
    /// is bounded by `initial width / 2^k`, rounded up.
    pub fn step(&mut self, cost_below_budget: bool)
        requires
            old(self).wf(),
        ensures
            final(self).wf(),
            old(self).low_model() <= final(self).low_model(),
            final(self).high_model() <= old(self).high_model(),
            cost_below_budget ==> final(self).low_model() == old(self).low_model() + (old(
                self,
            ).high_model() - old(self).low_model()) / 2 && final(self).high_model() == old(
                self,
            ).high_model(),
            !cost_below_budget ==> final(self).high_model() == old(self).low_model() + (old(
                self,
            ).high_model() - old(self).low_model()) / 2 && final(self).low_model() == old(
                self,
            ).low_model(),
            final(self).high_model() - final(self).low_model() <= (old(self).high_model() - old(
                self,
            ).low_model() + 1) / 2,
    {
        let mid = self.low + (self.high - self.low) / 2;
        if cost_below_budget {
            self.low = mid;
        } else {
            self.high = mid;
        }
    }

    /// Whether the bracket has narrowed to within `tolerance`. A driver
    /// that stops after its fixed step count asks this before trusting
    /// [`Self::result`], and reports non-convergence instead of
    /// returning a silently under-converged quantity.
    pub fn converged(&self, tolerance: u64) -> (r: bool)
        requires
            self.wf(),
        ensures
            r == (self.high_model() - self.low_model() <= tolerance),
    {
        self.high - self.low <= tolerance
    }

    /// The share quantity the search settles on: the midpoint of the
    /// final bracket.
    pub fn result(&self) -> (r: u64)
        requires
            self.wf(),
        ensures
            r == self.low_model() + (self.high_model() - self.low_model()) / 2,
            self.low_model() <= r <= self.high_model(),
    {
        self.low + (self.high - self.low) / 2
    }
}

/// The bracket that `steps` halving steps reach from `[low, high]`,
/// when each candidate midpoint is judged by the integer cost oracle
/// `cost` against `budget`: exactly the rule that [`OrderSizer::step`]'s
/// contract pins for one step.
pub open spec fn search_run(
    cost: spec_fn(u64) -> int,
    budget: int,
    low: u64,
    high: u64,
    steps: nat,
) -> (u64, u64)
    recommends
        low <= high,
    decreases steps,
{
    if steps == 0 {
        (low, high)
    } else {
        let mid = ((low + (high - low) / 2) as u64);
        if cost(mid) < budget {
            search_run(cost, budget, mid, high, (steps - 1) as nat)
        } else {
            search_run(cost, budget, low, mid, (steps - 1) as nat)
        }
    }
}

/// The midpoint the search settles on, as [`OrderSizer::result`] takes
/// it from the final bracket.
pub open spec fn search_result(
    cost: spec_fn(u64) -> int,
    budget: int,
    low: u64,
    high: u64,
    steps: nat,
) -> int {
    let bracket = search_run(cost, budget, low, high, steps);
    bracket.0 + (bracket.1 - bracket.0) / 2
}

/// Order sizing is monotone in the budget: over one bracket, judged by
/// one cost oracle for one affected outcome set, a larger budget never
/// settles on fewer shares. (Brackets that themselves scale with the
/// budget can disagree by the residual rounding of the final bracket,
/// so the law is stated for a common bracket.)
pub proof fn lemma_search_monotone_in_budget(
    cost: spec_fn(u64) -> int,
    budget_small: int,
    budget_large: int,
    low: u64,
    high: u64,
    steps: nat,
)
    requires
        budget_small <= budget_large,
        low <= high,
    ensures
        search_result(cost, budget_small, low, high, steps) <= search_result(
            cost,
            budget_large,
            low,
            high,
            steps,
        ),
{
    lemma_search_runs_ordered(cost, budget_small, budget_large, low, high, low, high, steps);
    let run_small = search_run(cost, budget_small, low, high, steps);
    let run_large = search_run(cost, budget_large, low, high, steps);
    lemma_search_run_bounds(cost, budget_small, low, high, steps);
    lemma_search_run_bounds(cost, budget_large, low, high, steps);
}

/// The search never leaves its bracket.
proof fn lemma_search_run_bounds(
    cost: spec_fn(u64) -> int,
    budget: int,
    low: u64,
    high: u64,
    steps: nat,
)
    requires
        low <= high,
    ensures
        low <= search_run(cost, budget, low, high, steps).0,
        search_run(cost, budget, low, high, steps).0 <= search_run(
            cost,
            budget,
            low,
            high,
            steps,
        ).1,
        search_run(cost, budget, low, high, steps).1 <= high,
    decreases steps,
{
    if steps > 0 {
        let mid = ((low + (high - low) / 2) as u64);
        if cost(mid) < budget {
            lemma_search_run_bounds(cost, budget, mid, high, (steps - 1) as nat);
        } else {
            lemma_search_run_bounds(cost, budget, low, mid, (steps - 1) as nat);
        }
    }
}

/// Two searches under ordered budgets keep ordered brackets: they agree
/// until the smaller budget turns down a candidate the larger accepts,
/// and from that step on the whole of the smaller budget's bracket lies
/// at or below the larger's.
proof fn lemma_search_runs_ordered(
    cost: spec_fn(u64) -> int,
    budget_small: int,
    budget_large: int,
    low_s: u64,
    high_s: u64,
    low_l: u64,
    high_l: u64,
    steps: nat,
)
    requires
        budget_small <= budget_large,
        low_s <= high_s,
        low_l <= high_l,
        (low_s == low_l && high_s == high_l) || high_s <= low_l,
    ensures
        ({
            let run_s = search_run(cost, budget_small, low_s, high_s, steps);
            let run_l = search_run(cost, budget_large, low_l, high_l, steps);
            (run_s.0 == run_l.0 && run_s.1 == run_l.1) || run_s.1 <= run_l.0
        }),
    decreases steps,
{
    if steps > 0 {
        if low_s == low_l && high_s == high_l {
            let mid = ((low_s + (high_s - low_s) / 2) as u64);
            if cost(mid) < budget_small {
                // Cheap for both: both raise the floor.
                lemma_search_runs_ordered(
                    cost,
                    budget_small,
                    budget_large,
                    mid,
                    high_s,
                    mid,
                    high_l,
                    (steps - 1) as nat,
                );
            } else if cost(mid) < budget_large {
                // The parting step: the smaller budget caps at the
                // midpoint that the larger budget still affords.
                lemma_search_runs_ordered(
                    cost,
                    budget_small,
                    budget_large,
                    low_s,
                    mid,
                    mid,
                    high_l,
                    (steps - 1) as nat,
                );
            } else {
                // Dear for both: both lower the ceiling.
                lemma_search_runs_ordered(
                    cost,
                    budget_small,
                    budget_large,
                    low_s,
                    mid,
                    low_l,
                    mid,
                    (steps - 1) as nat,
                );
            }
        } else {
            lemma_search_run_bounds(cost, budget_small, low_s, high_s, steps);
            lemma_search_run_bounds(cost, budget_large, low_l, high_l, steps);
        }
    }
}

} // verus!
