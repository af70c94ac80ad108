//! Stake warm-up/cool-down simulation for orchestration timing.
//!
//! Given one epoch's stake-history entry, the simulator predicts how many
//! further epochs must pass until less than five percent of the effective
//! stake is still activating and less than five percent still
//! deactivating.  Each simulated epoch moves at most `rate` of the
//! effective stake in each direction, activation applied before cooldown.

use vstd::prelude::*;

verus! {

/// One epoch's stake totals, as the chain's stake-history sysvar reports
/// them.
#[derive(Debug, Clone, Copy, Default, PartialEq, Eq, Structural)]
pub struct StakeHistoryEntry {
    pub effective: u64,
    pub activating: u64,
    pub deactivating: u64,
}

/// The warm-up/cool-down rate, an exact fraction in `(0, 1]`.
#[derive(Debug, Clone, Copy, PartialEq, Eq, Structural)]
pub struct Rate {
    pub num: u64,
    pub den: u64,
}

impl Rate {
    pub open spec fn wf(self) -> bool {
        0 < self.num <= self.den
    }
}

/// The simulation failed to make progress: the effective stake is too
/// small for the rate to move anything, so the ratios can never settle.
#[derive(Debug, Clone, Copy, PartialEq, Eq, Structural)]
pub enum WarmupError {
    Stalled,
}

/// The divisor of the settle test: the effective stake, floored at one.
pub open spec fn max1_effective(e: StakeHistoryEntry) -> int {
    if e.effective >= 1 {
        e.effective as int
    } else {
        1
    }
}

/// Both the activating and the deactivating stake are under five percent
/// of the effective stake.
pub open spec fn entry_converged(e: StakeHistoryEntry) -> bool {
    &&& 20 * (e.activating as int) < max1_effective(e)
    &&& 20 * (e.deactivating as int) < max1_effective(e)
}

/// The most stake the rate lets transition against the given effective
/// stake, rounded down.
pub open spec fn rate_cap(effective: int, r: Rate) -> int {
    effective * (r.num as int) / (r.den as int)
}

/// One simulated epoch: activating stake warms up first, then deactivating
/// stake cools down against the already-raised effective stake.
pub open spec fn warmup_step(e: StakeHistoryEntry, r: Rate) -> StakeHistoryEntry {
    let cap_in = rate_cap(e.effective as int, r);
    let move_in = if cap_in < 0 {
        0
    } else if e.activating as int <= cap_in {
        e.activating as int
    } else {
        cap_in
    };
    let eff2 = e.effective + move_in;
    let cap_out = rate_cap(eff2, r);
    let move_out = if cap_out < 0 {
        0
    } else if e.deactivating as int <= cap_out {
        e.deactivating as int
    } else {
        cap_out
    };
    StakeHistoryEntry {
        effective: ((eff2 - move_out) as u64),
        activating: ((e.activating - move_in) as u64),
        deactivating: ((e.deactivating - move_out) as u64),
    }
}

/// The rate moves at most the whole effective stake, and never a negative
/// amount.
pub proof fn lemma_rate_cap_bounds(effective: int, r: Rate)
    requires
        r.wf(),
        effective >= 0,
    ensures
        0 <= rate_cap(effective, r) <= effective,
{
    assert(effective * (r.num as int) <= effective * (r.den as int)) by (nonlinear_arith)
        requires
            effective >= 0,
            r.num <= r.den,
    ;
    assert(effective * (r.num as int) >= 0) by (nonlinear_arith)
        requires
            effective >= 0,
            r.num >= 0,
    ;
    vstd::arithmetic::div_mod::lemma_div_is_ordered(
        effective * (r.num as int),
        effective * (r.den as int),
        r.den as int,
    );
    vstd::arithmetic::div_mod::lemma_div_multiples_vanish(effective, r.den as int);
    vstd::arithmetic::div_mod::lemma_div_pos_is_pos(effective * (r.num as int), r.den as int);
}

/// How many epochs until the entry settles; `None` when an epoch passes
/// without moving any stake while the ratios are still too high.
pub open spec fn spec_warmup_epochs(e: StakeHistoryEntry, r: Rate) -> Option<int>
    decreases e.activating + e.deactivating,
{
    if entry_converged(e) {
        Some(0)
    } else {
        let e2 = warmup_step(e, r);
        if e2.activating == e.activating && e2.deactivating == e.deactivating {
            None
        } else {
            match spec_warmup_epochs(e2, r) {
                Some(n) => Some(n + 1),
                None => None,
            }
        }
    }
}

/// The state the simulation stops in.
pub open spec fn warmup_final(e: StakeHistoryEntry, r: Rate) -> StakeHistoryEntry
    decreases e.activating + e.deactivating,
{
    if entry_converged(e) {
        e
    } else {
        let e2 = warmup_step(e, r);
        if e2.activating == e.activating && e2.deactivating == e.deactivating {
            e
        } else {
            warmup_final(e2, r)
        }
    }
}

/// When the simulation reports convergence, the state it stopped in really
/// has both the activating and the deactivating ratio under five percent.
pub proof fn lemma_warmup_converged(e: StakeHistoryEntry, r: Rate)
    requires
        spec_warmup_epochs(e, r) is Some,
    ensures
        entry_converged(warmup_final(e, r)),
    decreases e.activating + e.deactivating,
{
    if !entry_converged(e) {
        let e2 = warmup_step(e, r);
        if !(e2.activating == e.activating && e2.deactivating == e.deactivating) {
            lemma_warmup_converged(e2, r);
        }
    }
}

/// Simulates stake warm-up: the number of epochs until at least 95% of the
/// in-flight stake has settled relative to the effective stake.
pub fn predict_warmup_epochs(stake_entry: StakeHistoryEntry, rate: Rate) -> (r: Result<
    u64,
    WarmupError,
>)
    requires
        rate.wf(),
        stake_entry.effective + stake_entry.activating <= u64::MAX as int,
        stake_entry.activating + stake_entry.deactivating <= u64::MAX as int,
    ensures
        (r matches Ok(n) ==> spec_warmup_epochs(stake_entry, rate) == Some(n as int)),
        (r is Err ==> spec_warmup_epochs(stake_entry, rate) is None && r == Err::<
            u64,
            WarmupError,
        >(WarmupError::Stalled)),
        (r is Ok <==> spec_warmup_epochs(stake_entry, rate) is Some),
{
    let mut e = stake_entry;
    let mut epochs: u64 = 0;
    loop
        invariant
            rate.wf(),
            e.effective + e.activating <= u64::MAX as int,
            (e.activating + e.deactivating) + epochs <= stake_entry.activating
                + stake_entry.deactivating,
            stake_entry.activating + stake_entry.deactivating <= u64::MAX as int,
            spec_warmup_epochs(stake_entry, rate) == (match spec_warmup_epochs(e, rate) {
                Some(n) => Some(n + epochs),
                None => None::<int>,
            }),
        decreases e.activating + e.deactivating,
    {
        let eff_floor: u64 = if e.effective >= 1 {
            e.effective
        } else {
            1
        };
        let act_scaled: u128 = 20u128 * (e.activating as u128);
        let deact_scaled: u128 = 20u128 * (e.deactivating as u128);
        if act_scaled < (eff_floor as u128) && deact_scaled < (eff_floor as u128) {
            return Ok(epochs);
        }
        proof {
            lemma_rate_cap_bounds(e.effective as int, rate);
            assert((e.effective as int) * (rate.num as int) <= u128::MAX as int)
                by (nonlinear_arith)
                requires
                    e.effective <= u64::MAX,
                    rate.num <= u64::MAX,
            ;
        }
        let cap_in: u64 = (((e.effective as u128) * (rate.num as u128)) / (rate.den as u128))
            as u64;
        let move_in: u64 = if e.activating <= cap_in {
            e.activating
        } else {
            cap_in
        };
        let eff2: u64 = e.effective + move_in;
        proof {
            lemma_rate_cap_bounds(eff2 as int, rate);
            assert((eff2 as int) * (rate.num as int) <= u128::MAX as int) by (nonlinear_arith)
                requires
                    eff2 <= u64::MAX,
                    rate.num <= u64::MAX,
            ;
        }
        let cap_out: u64 = (((eff2 as u128) * (rate.num as u128)) / (rate.den as u128)) as u64;
        let move_out: u64 = if e.deactivating <= cap_out {
            e.deactivating
        } else {
            cap_out
        };
        if move_in == 0 && move_out == 0 {
            return Err(WarmupError::Stalled);
        }
        e =
        StakeHistoryEntry {
            effective: eff2 - move_out,
            activating: e.activating - move_in,
            deactivating: e.deactivating - move_out,
        };
        epochs = epochs + 1;
    }
}

/// What to do next while waiting for delegated stake to finish warming up.
#[derive(Debug, Clone, Copy, PartialEq, Eq, Structural)]
pub enum PollAction {
    /// The stake has warmed up; stop waiting.
    Done,
    /// Sleep through the rest of the epoch: this many slots.
    WaitSlots(u64),
    /// The stake-history entry was unavailable; retry after a short pause.
    RetryFetch,
    /// The simulation cannot settle; waiting longer will not help.
    Stalled,
}

/// How many slots to sleep so that the activation epoch has finished:
/// the remaining whole epochs, less the progress into the current one.
pub fn activation_sleep_slots(
    activation_epoch: u64,
    current_epoch: u64,
    slot_index: u64,
    slots_per_epoch: u64,
) -> (r: u64)
    requires
        activation_epoch < u64::MAX,
        ((activation_epoch + 1 - current_epoch) as int) * (slots_per_epoch as int) <= u64::MAX
            as int || current_epoch > activation_epoch + 1,
        current_epoch <= activation_epoch + 1 ==> slot_index as int <= ((activation_epoch + 1
            - current_epoch) as int) * (slots_per_epoch as int),
    ensures
        r as int == if current_epoch <= activation_epoch + 1 {
            ((activation_epoch + 1 - current_epoch) as int) * (slots_per_epoch as int)
                - slot_index
        } else {
            0
        },
{
    let sleep_epochs = if current_epoch <= activation_epoch + 1 {
        activation_epoch + 1 - current_epoch
    } else {
        0
    };
    if sleep_epochs > 0 {
        sleep_epochs * slots_per_epoch - slot_index
    } else {
        proof {
            assert(current_epoch <= activation_epoch + 1 ==> activation_epoch + 1 - current_epoch
                == 0);
            if current_epoch <= activation_epoch + 1 {
                assert(((activation_epoch + 1 - current_epoch) as int) * (slots_per_epoch as int)
                    == 0) by (nonlinear_arith)
                    requires
                        activation_epoch + 1 - current_epoch == 0,
                ;
            }
        }
        0
    }
}

/// Whether the chain advanced between two slot readings.  A poll whose
/// slot did not move means the cluster is stuck, and the caller gives up
/// instead of waiting for stake that can never settle.
pub fn slot_advanced(slot_before: u64, slot_after: u64) -> (r: bool)
    ensures
        r == (slot_after != slot_before),
{
    slot_after != slot_before
}

/// Decides one polling round of the stake-activation wait: retry when the
/// stake-history entry is unavailable, sleep out the epoch while warm-up
/// still reaches past the current epoch, and stop once it does not.
pub fn stake_poll_step(
    current_epoch: u64,
    stake_entry: Option<StakeHistoryEntry>,
    rate: Rate,
    slots_in_epoch: u64,
    slot_index: u64,
) -> (r: PollAction)
    requires
        rate.wf(),
        current_epoch >= 1,
        slot_index <= slots_in_epoch,
        stake_entry matches Some(e) ==> e.effective + e.activating <= u64::MAX as int
            && e.activating + e.deactivating <= u64::MAX as int && (
        match spec_warmup_epochs(e, rate) {
            Some(n) => current_epoch - 1 + n <= u64::MAX as int,
            None => true,
        }),
    ensures
        stake_entry is None ==> r == PollAction::RetryFetch,
        (stake_entry matches Some(e) ==> match spec_warmup_epochs(e, rate) {
            Some(n) => if current_epoch - 1 + n > current_epoch as int {
                r == PollAction::WaitSlots(((slots_in_epoch - slot_index) as u64))
            } else {
                r == PollAction::Done
            },
            None => r == PollAction::Stalled,
        }),
{
    match stake_entry {
        None => PollAction::RetryFetch,
        Some(e) => {
            match predict_warmup_epochs(e, rate) {
                Err(_) => PollAction::Stalled,
                Ok(warm_up_epochs) => {
                    let latest_epoch = current_epoch - 1;
                    let stake_warmed_up_epoch = latest_epoch + warm_up_epochs;
                    if stake_warmed_up_epoch > current_epoch {
                        PollAction::WaitSlots(slots_in_epoch - slot_index)
                    } else {
                        PollAction::Done
                    }
                },
            }
        },
    }
}

} // verus!
