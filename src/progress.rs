use vstd::prelude::*;

verus! {

/// The byte position implied by having handled `count` of `budget` events of
/// a file of `total` bytes.
pub open spec fn budget_position(count: nat, budget: nat, total: nat) -> nat {
    if budget == 0 {
        total
    } else {
        (count * total) / budget
    }
}

/// The position to report: the larger of the budget-implied position and
/// the tokenizer's own byte cursor.
pub open spec fn estimate(count: nat, budget: nat, total: nat, cursor: nat) -> nat {
    let b = budget_position(count, budget, total);
    if b >= cursor {
        b
    } else {
        cursor
    }
}

/// The position reported after `last` when `count` events are handled and
/// the cursor stands at `cursor`: the estimate, but never less than `last`.
pub open spec fn next_position(last: nat, count: nat, budget: nat, total: nat, cursor: nat) -> nat {
    let e = estimate(count, budget, total, cursor);
    if e >= last {
        e
    } else {
        last
    }
}

/// The position reported by a fresh estimator after updates with the
/// (count, cursor) pairs of `steps`, in order.
pub open spec fn position_after(budget: nat, total: nat, steps: Seq<(nat, nat)>) -> nat
    decreases steps.len(),
{
    if steps.len() == 0 {
        0
    } else {
        let (count, cursor) = steps.last();
        next_position(position_after(budget, total, steps.drop_last()), count, budget, total, cursor)
    }
}

/// Over any run of updates, the reported position never falls.
pub proof fn lemma_positions_non_decreasing(budget: nat, total: nat, steps: Seq<(nat, nat)>, i: int, j: int)
    requires
        0 <= i <= j <= steps.len(),
    ensures
        position_after(budget, total, steps.take(i)) <= position_after(budget, total, steps.take(j)),
    decreases j - i,
{
    if i < j {
        lemma_positions_non_decreasing(budget, total, steps, i, j - 1);
        assert(steps.take(j).drop_last() =~= steps.take(j - 1));
    }
}

/// When the handled events and the cursor never fall, every reported
/// position is exactly the estimate for the latest update.
pub proof fn lemma_position_is_estimate(budget: nat, total: nat, steps: Seq<(nat, nat)>)
    requires
        steps.len() > 0,
        forall|k: int| 0 < k < steps.len() ==> steps[k - 1].0 <= #[trigger] steps[k].0 && steps[k - 1].1 <= steps[k].1,
    ensures
        position_after(budget, total, steps) == estimate(steps.last().0, budget, total, steps.last().1),
    decreases steps.len(),
{
    let before = steps.drop_last();
    assert(position_after(budget, total, steps) == next_position(
        position_after(budget, total, before),
        steps.last().0,
        budget,
        total,
        steps.last().1,
    ));
    if before.len() > 0 {
        assert forall|k: int| 0 < k < before.len() implies before[k - 1].0 <= #[trigger] before[k].0 && before[k - 1].1 <= before[k].1 by {
            assert(steps[k] == before[k]);
        }
        lemma_position_is_estimate(budget, total, before);
        let n = steps.len() - 1;
        assert(steps[n - 1].0 <= steps[n].0);
        lemma_estimate_monotonic(before.last().0, steps.last().0, budget, total, before.last().1, steps.last().1);
    }
}

/// The estimate never falls while the handled events and the cursor do not.
pub proof fn lemma_estimate_monotonic(
    count1: nat,
    count2: nat,
    budget: nat,
    total: nat,
    cursor1: nat,
    cursor2: nat,
)
    requires
        count1 <= count2,
        cursor1 <= cursor2,
    ensures
        estimate(count1, budget, total, cursor1) <= estimate(count2, budget, total, cursor2),
{
    if budget > 0 {
        assert(count1 * total <= count2 * total) by (nonlinear_arith)
            requires
                count1 <= count2,
        ;
        lemma_div_monotonic(count1 * total, count2 * total, budget);
    }
}

proof fn lemma_div_monotonic(a: nat, b: nat, d: nat)
    requires
        a <= b,
        d > 0,
    ensures
        a / d <= b / d,
{
    vstd::arithmetic::div_mod::lemma_div_is_ordered(a as int, b as int, d as int);
}

/// Derives a byte position for a progress display from the events handled
/// and the tokenizer's cursor, and never reports less than it reported
/// before.
pub struct ProgressEstimator {
    total: u64,
    budget: u64,
    position: u64,
}

impl ProgressEstimator {
    pub closed spec fn spec_total(&self) -> nat {
        self.total as nat
    }

    pub closed spec fn spec_budget(&self) -> nat {
        self.budget as nat
    }

    /// The last position reported.
    pub closed spec fn spec_position(&self) -> nat {
        self.position as nat
    }

    /// An estimator for a file of `total` bytes and an event budget of `budget`.
    pub fn new(total: u64, budget: u64) -> (r: ProgressEstimator)
        ensures
            r.spec_total() == total,
            r.spec_budget() == budget,
            r.spec_position() == 0,
    {
        ProgressEstimator { total, budget, position: 0 }
    }

    pub fn position(&self) -> (r: u64)
        ensures
            r == self.spec_position(),
    {
        self.position
    }

    /// Takes in the count of handled events and the tokenizer's byte
    /// cursor, and reports the larger of the estimate and the position
    /// reported before.
    pub fn update(&mut self, count: u64, cursor: u64) -> (r: u64)
        requires
            count <= old(self).spec_budget(),
        ensures
            r as nat == next_position(
                old(self).spec_position(),
                count as nat,
                old(self).spec_budget(),
                old(self).spec_total(),
                cursor as nat,
            ),
            r >= old(self).spec_position(),
            final(self).spec_position() == r,
            final(self).spec_total() == old(self).spec_total(),
            final(self).spec_budget() == old(self).spec_budget(),
    {
        let by_budget: u64 = if self.budget == 0 {
            self.total
        } else {
            let c = count as u128;
            let t = self.total as u128;
            let b = self.budget as u128;
            assert(c * t <= u64::MAX as int * u64::MAX as int) by (nonlinear_arith)
                requires
                    c <= u64::MAX,
                    t <= u64::MAX,
            ;
            let q = (c * t) / b;
            assert(q <= t) by {
                assert(c * t <= b * t) by (nonlinear_arith)
                    requires
                        c <= b,
                ;
                lemma_div_monotonic((c * t) as nat, (b * t) as nat, b as nat);
                vstd::arithmetic::div_mod::lemma_div_by_multiple(t as int, b as int);
                assert((b * t) as int == t as int * b as int) by (nonlinear_arith);
            }
            q as u64
        };
        let e = if by_budget >= cursor {
            by_budget
        } else {
            cursor
        };
        if e > self.position {
            self.position = e;
        }
        self.position
    }
}

} // verus!
