//! Per-player score accumulation and the rounded mean.

use vstd::prelude::*;

verus! {

/// How a mean that lies exactly halfway between two integers is rounded.
#[derive(Clone, Copy, Debug, PartialEq, Eq, Structural)]
pub enum TiePolicy {
    /// A half rounds to the integer of larger magnitude: 2.5 becomes 3.
    HalfAwayFromZero,
    /// A half rounds to the even neighbour: 2.5 becomes 2, 3.5 becomes 4.
    HalfToEven,
}

/// The rounding rule the leaderboard is computed with.
pub const TIE_POLICY: TiePolicy = TiePolicy::HalfAwayFromZero;

/// Running total of one player's scores.
#[derive(Clone, Copy, Debug, PartialEq, Eq, Structural)]
pub struct ScoreData {
    pub sum: u64,
    pub count: u64,
}

/// The quotient `sum / count` rounded to the nearest integer, a tie going
/// where `policy` sends it. Meaningful for `count > 0`.
pub open spec fn rounded_mean(sum: nat, count: nat, policy: TiePolicy) -> nat
    recommends
        count > 0,
{
    let floor = sum / count;
    let rest = sum % count;
    if 2 * rest < count {
        floor
    } else if 2 * rest > count {
        floor + 1
    } else {
        match policy {
            TiePolicy::HalfAwayFromZero => floor + 1,
            TiePolicy::HalfToEven => if floor % 2 == 0 {
                floor
            } else {
                floor + 1
            },
        }
    }
}

/// `rounded_mean` is the integer nearest to `sum / count`: it is off by at
/// most one half. Where two integers are equally near, the policy decides:
/// away from zero takes the upper one, to-even the even one. Rounding half
/// away from zero is the floor of `sum / count + 1/2`.
pub proof fn lemma_rounded_mean_is_nearest(sum: nat, count: nat, policy: TiePolicy)
    requires
        count > 0,
    ensures
        2 * rounded_mean(sum, count, policy) * count <= 2 * sum + count,
        2 * sum <= 2 * rounded_mean(sum, count, policy) * count + count,
        2 * (sum % count) == count && policy == TiePolicy::HalfAwayFromZero ==> rounded_mean(
            sum,
            count,
            policy,
        ) == sum / count + 1,
        2 * (sum % count) == count && policy == TiePolicy::HalfToEven ==> rounded_mean(
            sum,
            count,
            policy,
        ) % 2 == 0,
        rounded_mean(sum, count, TiePolicy::HalfAwayFromZero) == (2 * sum + count) / (2 * count),
        rounded_mean(sum, count, policy) <= sum,
{
    let total = sum as int;
    let divisor = count as int;
    let floor = total / divisor;
    let rest = total % divisor;
    let mean = rounded_mean(sum, count, policy) as int;
    vstd::arithmetic::div_mod::lemma_fundamental_div_mod(total, divisor);
    vstd::arithmetic::div_mod::lemma_mod_pos_bound(total, divisor);
    assert(total == divisor * floor + rest);
    assert(0 <= rest < divisor);
    assert(0 <= floor) by (nonlinear_arith)
        requires
            total == divisor * floor + rest,
            0 <= total,
            0 <= rest < divisor,
    ;
    assert(mean == floor || mean == floor + 1);
    assert(mean == floor + 1 ==> 2 * rest >= divisor);
    assert(mean == floor ==> 2 * rest <= divisor);
    assert(2 * mean * divisor <= 2 * total + divisor && 2 * total <= 2 * mean * divisor + divisor
        && mean <= total) by (nonlinear_arith)
        requires
            total == divisor * floor + rest,
            0 <= rest < divisor,
            0 <= floor,
            mean == floor || mean == floor + 1,
            mean == floor + 1 ==> 2 * rest >= divisor,
            mean == floor ==> 2 * rest <= divisor,
    ;
    let shifted = 2 * total + divisor;
    let doubled = 2 * divisor;
    if 2 * rest < divisor {
        let left = 2 * rest + divisor;
        assert(shifted == floor * doubled + left) by (nonlinear_arith)
            requires
                shifted == 2 * total + divisor,
                doubled == 2 * divisor,
                left == 2 * rest + divisor,
                total == divisor * floor + rest,
        ;
        vstd::arithmetic::div_mod::lemma_fundamental_div_mod_converse(shifted, doubled, floor, left);
    } else {
        let left = 2 * rest - divisor;
        assert(shifted == (floor + 1) * doubled + left) by (nonlinear_arith)
            requires
                shifted == 2 * total + divisor,
                doubled == 2 * divisor,
                left == 2 * rest - divisor,
                total == divisor * floor + rest,
        ;
        vstd::arithmetic::div_mod::lemma_fundamental_div_mod_converse(shifted, doubled, floor + 1, left);
    }
}

/// Rounds `sum / count` to the nearest integer under `policy`.
pub fn round_mean(sum: u64, count: u64, policy: TiePolicy) -> (mean: u64)
    requires
        count > 0,
    ensures
        mean == rounded_mean(sum as nat, count as nat, policy),
{
    let floor = sum / count;
    let rest = sum % count;
    // `rest < count`, so comparing `rest` with `count - rest` compares
    // `2 * rest` with `count` without leaving `u64`.
    let gap = count - rest;
    let up = if rest < gap {
        false
    } else if rest > gap {
        true
    } else {
        match policy {
            TiePolicy::HalfAwayFromZero => true,
            TiePolicy::HalfToEven => floor % 2 != 0,
        }
    };
    proof {
        lemma_rounded_mean_is_nearest(sum as nat, count as nat, policy);
    }
    if up {
        floor + 1
    } else {
        floor
    }
}

impl ScoreData {
    /// An accumulator that has seen no record yet.
    pub fn new() -> (data: Self)
        ensures
            data.sum == 0,
            data.count == 0,
    {
        Self { sum: 0, count: 0 }
    }

    /// Accounts for one more record carrying `score`.
    pub fn add(&mut self, score: u64)
        requires
            old(self).sum + score <= u64::MAX,
            old(self).count < u64::MAX,
        ensures
            final(self).sum == old(self).sum + score,
            final(self).count == old(self).count + 1,
    {
        self.sum = self.sum + score;
        self.count = self.count + 1;
    }

    /// The mean this accumulator stands for, as a mathematical value.
    pub open spec fn spec_mean_score(self) -> nat {
        rounded_mean(self.sum as nat, self.count as nat, TIE_POLICY)
    }

    /// The player's mean score, rounded under [`TIE_POLICY`].
    pub fn mean_score(&self) -> (mean: u64)
        requires
            self.count > 0,
        ensures
            mean == self.spec_mean_score(),
    {
        round_mean(self.sum, self.count, TIE_POLICY)
    }
}

} // verus!
