//! The pool initializer / replenisher: calibrate a per-coin target cost
//! from a dev-inspect run, plan how each oversized sponsor coin is split
//! into a fleet of small uniform coins, and refuse to start
//! under-provisioned.
//!
//! The splitting transactions themselves are chain work; this module
//! holds the arithmetic and the planning decisions, so they can be
//! verified.
use vstd::prelude::*;

use crate::errors::GasStationError;
use crate::types::GasCoin;

verus! {

/// How many outputs the calibration dev-inspect splits a coin into.
pub const CALIBRATION_SPLIT_COUNT: u64 = 500;

/// The most outputs a single split transaction may produce.
pub const MAX_SPLITS_PER_TX: u64 = 500;

/// The per-output gas cost derived from a calibration run that split one
/// coin into `CALIBRATION_SPLIT_COUNT` outputs: twice the measured gas,
/// divided by the output count — the doubling is a deliberate safety
/// margin against dev-inspect precision loss, applied before the
/// division so no margin is lost to truncation.
pub fn calibrate_cost_per_object(gas_used: u64) -> (r: u64)
    ensures
        r == 2 * (gas_used as int) / (CALIBRATION_SPLIT_COUNT as int),
        r == gas_used as int / 250,
{
    proof {
        assert(2 * (gas_used as int) / 500 == gas_used as int / 250) by (nonlinear_arith);
    }
    gas_used / 250
}

/// How many outputs a coin of the given balance is split into: one per
/// target balance, capped by the per-transaction limit.
pub open spec fn spec_split_count(balance: u64, target_balance: u64) -> int {
    let q = balance as int / target_balance as int;
    if q < MAX_SPLITS_PER_TX {
        q
    } else {
        MAX_SPLITS_PER_TX as int
    }
}

/// The number of outputs to split a coin into.
pub fn split_count_for(balance: u64, target_balance: u64) -> (r: u64)
    requires
        target_balance >= 1,
    ensures
        r == spec_split_count(balance, target_balance),
{
    let q = balance / target_balance;
    if q < MAX_SPLITS_PER_TX {
        q
    } else {
        MAX_SPLITS_PER_TX
    }
}

/// The split plan for one discovery pass: each coin at or above the split
/// threshold that yields at least two outputs, paired with its output
/// count.
pub fn plan_splits(coins: &Vec<GasCoin>, target_balance: u64, min_split_balance: u64) -> (r: Vec<
    (GasCoin, u64),
>)
    requires
        target_balance >= 1,
    ensures
        r@.len() <= coins@.len(),
        forall|k: int|
            0 <= k < r@.len() ==> ({
                let c = (#[trigger] r@[k]).0;
                &&& coins@.contains(c)
                &&& c.balance >= min_split_balance
                &&& r@[k].1 == spec_split_count(c.balance, target_balance)
                &&& r@[k].1 >= 2
            }),
        forall|k: int|
            0 <= k < coins@.len() ==> ({
                let c = #[trigger] coins@[k];
                (c.balance >= min_split_balance && spec_split_count(c.balance, target_balance) >= 2)
                    ==> r@.contains((c, spec_split_count(c.balance, target_balance) as u64))
            }),
{
    let mut r: Vec<(GasCoin, u64)> = Vec::new();
    let mut i: usize = 0;
    while i < coins.len()
        invariant
            i <= coins@.len(),
            target_balance >= 1,
            r@.len() <= i,
            forall|k: int|
                0 <= k < r@.len() ==> ({
                    let c = (#[trigger] r@[k]).0;
                    &&& coins@.contains(c)
                    &&& c.balance >= min_split_balance
                    &&& r@[k].1 == spec_split_count(c.balance, target_balance)
                    &&& r@[k].1 >= 2
                }),
            forall|k: int|
                0 <= k < i ==> ({
                    let c = #[trigger] coins@[k];
                    (c.balance >= min_split_balance && spec_split_count(
                        c.balance,
                        target_balance,
                    ) >= 2) ==> r@.contains((c, spec_split_count(c.balance, target_balance) as u64))
                }),
        decreases coins@.len() - i,
    {
        let c = coins[i];
        let ghost pre = r@;
        if c.balance >= min_split_balance {
            let n = split_count_for(c.balance, target_balance);
            if n >= 2 {
                r.push((c, n));
                proof {
                    assert(coins@.contains(c)) by {
                        assert(coins@[i as int] == c);
                    }
                    assert(r@[pre.len() as int] == (c, n));
                    assert forall|k: int| 0 <= k < i + 1 implies ({
                        let c2 = #[trigger] coins@[k];
                        (c2.balance >= min_split_balance && spec_split_count(
                            c2.balance,
                            target_balance,
                        ) >= 2) ==> r@.contains(
                            (c2, spec_split_count(c2.balance, target_balance) as u64),
                        )
                    }) by {
                        if k < i as int {
                            let c2 = coins@[k];
                            if c2.balance >= min_split_balance && spec_split_count(
                                c2.balance,
                                target_balance,
                            ) >= 2 {
                                let m = choose|m: int|
                                    0 <= m < pre.len() && pre[m] == (
                                    c2,
                                    spec_split_count(c2.balance, target_balance) as u64,
                                );
                                assert(r@[m] == (
                                    c2,
                                    spec_split_count(c2.balance, target_balance) as u64,
                                ));
                            }
                        }
                    }
                }
            } else {
                proof {
                    lemma_plan_skip(pre, r@, coins@, i as int, target_balance, min_split_balance);
                }
            }
        } else {
            proof {
                lemma_plan_skip(pre, r@, coins@, i as int, target_balance, min_split_balance);
            }
        }
        i += 1;
    }
    r
}

/// Skipping a coin that needs no split keeps the completeness invariant.
proof fn lemma_plan_skip(
    pre: Seq<(GasCoin, u64)>,
    post: Seq<(GasCoin, u64)>,
    coins: Seq<GasCoin>,
    i: int,
    target_balance: u64,
    min_split_balance: u64,
)
    requires
        pre == post,
        0 <= i < coins.len(),
        target_balance >= 1,
        !(coins[i].balance >= min_split_balance && spec_split_count(
            coins[i].balance,
            target_balance,
        ) >= 2),
        forall|k: int|
            0 <= k < i ==> ({
                let c = #[trigger] coins[k];
                (c.balance >= min_split_balance && spec_split_count(c.balance, target_balance)
                    >= 2) ==> pre.contains((c, spec_split_count(c.balance, target_balance) as u64))
            }),
    ensures
        forall|k: int|
            0 <= k < i + 1 ==> ({
                let c = #[trigger] coins[k];
                (c.balance >= min_split_balance && spec_split_count(c.balance, target_balance)
                    >= 2) ==> post.contains((c, spec_split_count(c.balance, target_balance) as u64))
            }),
{
}

/// Refuse to hand over an under-provisioned pool: fail fast when fewer
/// coins than the configured minimum would be available.
pub fn check_min_pool_count(coin_count: usize, min_pool_count: usize) -> (r: Result<
    (),
    GasStationError,
>)
    ensures
        r is Ok <==> coin_count >= min_pool_count,
        r is Err ==> r == Result::<(), GasStationError>::Err(GasStationError::InsufficientPool),
{
    if coin_count >= min_pool_count {
        Ok(())
    } else {
        Err(GasStationError::InsufficientPool)
    }
}

} // verus!
