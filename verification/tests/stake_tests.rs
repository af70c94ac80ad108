use winner_tool::rounds::gift_for_round;
use winner_tool::rounds::tx_count_for_round;
use winner_tool::slack::Logger;
use winner_tool::stake::PollAction;
use winner_tool::stake::Rate;
use winner_tool::stake::StakeHistoryEntry;
use winner_tool::stake::WarmupError;
use winner_tool::stake::activation_sleep_slots;
use winner_tool::stake::predict_warmup_epochs;
use winner_tool::stake::slot_advanced;
use winner_tool::stake::stake_poll_step;

fn quarter() -> Rate {
    Rate { num: 1, den: 4 }
}

#[test]
fn warmup_converges_in_finitely_many_epochs() {
    // effective=100, activating=100: 25, 31 and 39 stake warm up over three
    // epochs, leaving 5 activating against 195 effective -- under 5%.
    let entry = StakeHistoryEntry { effective: 100, activating: 100, deactivating: 0 };
    assert_eq!(predict_warmup_epochs(entry, quarter()), Ok(3));
}

#[test]
fn warmup_handles_cooldown_in_flight() {
    let entry = StakeHistoryEntry { effective: 1000, activating: 100, deactivating: 100 };
    // Epoch one: 100 warms up (cap 250), then 100 cools down against 1100.
    assert_eq!(predict_warmup_epochs(entry, quarter()), Ok(1));
}

#[test]
fn warmup_already_converged_takes_no_epochs() {
    let entry = StakeHistoryEntry { effective: 1000, activating: 49, deactivating: 0 };
    assert_eq!(predict_warmup_epochs(entry, quarter()), Ok(0));
}

#[test]
fn warmup_without_effective_stake_stalls() {
    let entry = StakeHistoryEntry { effective: 0, activating: 100, deactivating: 0 };
    assert_eq!(predict_warmup_epochs(entry, quarter()), Err(WarmupError::Stalled));
}

#[test]
fn stake_poll_decisions() {
    // No stake-history entry: fetch again later.
    assert_eq!(stake_poll_step(5, None, quarter(), 8192, 100), PollAction::RetryFetch);
    // Warm-up reaches past the current epoch: sleep out the epoch.
    let warming = StakeHistoryEntry { effective: 100, activating: 100, deactivating: 0 };
    assert_eq!(
        stake_poll_step(5, Some(warming), quarter(), 8192, 100),
        PollAction::WaitSlots(8092)
    );
    // Already settled: done.
    let settled = StakeHistoryEntry { effective: 1000, activating: 0, deactivating: 0 };
    assert_eq!(stake_poll_step(5, Some(settled), quarter(), 8192, 100), PollAction::Done);
    // No progress possible: report the stall instead of waiting forever.
    let stuck = StakeHistoryEntry { effective: 0, activating: 100, deactivating: 0 };
    assert_eq!(stake_poll_step(5, Some(stuck), quarter(), 8192, 100), PollAction::Stalled);
}

#[test]
fn stalled_slots_mean_giving_up() {
    assert!(slot_advanced(100, 101));
    assert!(!slot_advanced(100, 100));
}

#[test]
fn activation_wait_spans_whole_epochs() {
    // Two epochs of 8192 slots left, already 100 slots into this one.
    assert_eq!(activation_sleep_slots(4, 3, 100, 8192), 16284);
    // The activation epoch has long finished.
    assert_eq!(activation_sleep_slots(2, 7, 100, 8192), 0);
}

#[test]
fn round_parameters() {
    assert_eq!(tx_count_for_round(1, 5000, 5000), 5000);
    assert_eq!(tx_count_for_round(3, 5000, 5000), 15000);
    assert_eq!(gift_for_round(1, 8), 0);
    assert_eq!(gift_for_round(2, 8), 8);
    assert_eq!(gift_for_round(5, 8), 64);
}

#[test]
fn logger_queues_only_while_connected() {
    let mut logger = Logger::new();
    assert!(!logger.connected());
    logger.info(String::from("dropped"));
    assert!(logger.take_outbox().is_empty());

    logger.set_connected(true);
    assert!(logger.connected());
    logger.info(String::from("first"));
    logger.info(String::from("second"));
    let outbox = logger.take_outbox();
    assert_eq!(outbox, vec![String::from("first"), String::from("second")]);
    assert!(logger.take_outbox().is_empty());

    logger.set_connected(false);
    logger.info(String::from("late"));
    assert!(logger.take_outbox().is_empty());
}
