//! Per-round parameters of the throughput ramp: how many transactions a
//! round sends, and how much stake the surviving validators are gifted
//! before the next one.

use vstd::prelude::*;

verus! {

/// Powers of two.
pub open spec fn pow2(n: nat) -> int
    decreases n,
{
    if n == 0 {
        1
    } else {
        2 * pow2((n - 1) as nat)
    }
}

/// Powers of two are monotone.
proof fn lemma_pow2_mono(a: nat, b: nat)
    requires
        a <= b,
    ensures
        0 < pow2(a) <= pow2(b),
    decreases b,
{
    if b > 0 {
        if a == b {
            lemma_pow2_mono((b - 1) as nat, (b - 1) as nat);
        } else {
            lemma_pow2_mono(a, (b - 1) as nat);
        }
    }
}

/// The transaction count of a round: the baseline plus one increment per
/// completed round.
pub fn tx_count_for_round(tps_round: u32, base: u64, incr: u64) -> (r: u64)
    requires
        tps_round >= 1,
        base + ((tps_round - 1) as int) * (incr as int) <= u64::MAX as int,
    ensures
        r as int == base + ((tps_round - 1) as int) * (incr as int),
{
    proof {
        assert(((tps_round - 1) as int) * (incr as int) >= 0) by (nonlinear_arith)
            requires
                tps_round >= 1,
                incr >= 0,
        ;
    }
    base + ((tps_round - 1) as u64) * incr
}

/// The stake gift of a round: nothing before the second round, then the
/// initial balance doubled each round.
pub fn gift_for_round(tps_round: u32, initial_balance: u64) -> (r: u64)
    requires
        tps_round > 1 ==> tps_round - 2 <= 63,
        tps_round > 1 ==> (initial_balance as int) * pow2((tps_round - 2) as nat) <= u64::MAX
            as int,
    ensures
        r as int == if tps_round > 1 {
            (initial_balance as int) * pow2((tps_round - 2) as nat)
        } else {
            0
        },
{
    if tps_round > 1 {
        let e: u32 = tps_round - 2;
        let mut p: u64 = 1;
        let mut k: u32 = 0;
        while k < e
            invariant
                k <= e,
                e <= 63,
                p as int == pow2(k as nat),
            decreases e - k,
        {
            proof {
                lemma_pow2_mono((k + 1) as nat, 63);
                reveal_with_fuel(pow2, 64);
                assert(pow2(63) == 0x8000_0000_0000_0000);
            }
            p = p * 2;
            k = k + 1;
        }
        proof {
            if initial_balance > 0 {
                assert((initial_balance as int) * (p as int) <= u64::MAX as int);
            } else {
                assert((initial_balance as int) * (p as int) == 0) by (nonlinear_arith)
                    requires
                        initial_balance == 0,
                ;
            }
        }
        initial_balance * p
    } else {
        0
    }
}

} // verus!
