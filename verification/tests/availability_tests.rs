use winner_tool::account::VoteAccountSnapshot;
use winner_tool::availability::AvailabilityError;
use winner_tool::availability::LeaderStat;
use winner_tool::availability::compute_winners;
use winner_tool::availability::validator_credits;
use winner_tool::availability::validator_results;
use winner_tool::availability::weighted_availability;
use winner_tool::keymap::KeyMap;
use winner_tool::score::Score;
use winner_tool::winner::Bucket;
use winner_tool::winner::Category;

fn credit_account(voter_id: u64, node_id: u64, credits: u64) -> VoteAccountSnapshot {
    VoteAccountSnapshot {
        voter_id,
        node_id,
        stake: 0,
        credits,
        lamports: 0,
        vote_queue: Vec::new(),
        last_hash: 0,
    }
}

#[test]
fn availability_test_validator_results() {
    let top_validator = 1u64;
    let bottom_validator = 2u64;
    let excluded_validator = 3u64;

    let mut credits_map: KeyMap<u64> = KeyMap::new();
    credits_map.set(top_validator, 1000);
    credits_map.set(bottom_validator, 100);
    credits_map.set(excluded_validator, 10);
    let total_credits = 1000u64;

    let excluded_set = vec![excluded_validator];

    let mut validator_leader_stats: KeyMap<LeaderStat> = KeyMap::new();
    validator_leader_stats.set(top_validator, LeaderStat { missed_slots: 0, total_slots: 1000 });
    validator_leader_stats.set(
        bottom_validator,
        LeaderStat { missed_slots: 100, total_slots: 1000 },
    );

    let results = validator_results(
        &credits_map,
        &excluded_set,
        total_credits,
        &validator_leader_stats,
    );
    assert_eq!(results.len(), 2);
    assert_eq!(results[0].0, top_validator);
    assert!(results[0].1.eq_value(&Score::from_int(1)));
    assert_eq!(results[1].0, bottom_validator);
    assert!(results[1].1.eq_value(&Score::new(5, 100)));
}

#[test]
fn availability_test_validator_credits() {
    let validator1 = 10u64;
    let validator2 = 20u64;

    let vote_accounts = vec![
        credit_account(101, validator1, 25),
        credit_account(102, validator2, 10),
        credit_account(103, validator2, 15),
    ];

    let credits = validator_credits(&vote_accounts);
    assert_eq!(credits.len(), 2);
    assert_eq!(credits.get_copy(validator1), Some(25));
    assert_eq!(credits.get_copy(validator2), Some(15));
}

#[test]
fn availability_score_with_heavy_missed_slots() {
    // Zero missed slots and credits equal to the baseline total give a
    // perfect score of one.
    let perfect = weighted_availability(1000, 0, 1000);
    assert!(perfect.eq_value(&Score::from_int(1)));
    // A thousand missed slots at weight ten turn 100 credits into
    // 100 / 11000.
    let poor = weighted_availability(100, 1000, 1000);
    assert!(poor.eq_value(&Score::new(100, 11000)));
    assert_eq!(poor, Score { num: 100, den: 11000 });
}

#[test]
fn leader_stat_new_counts_one_slot() {
    assert_eq!(LeaderStat::new(false), LeaderStat { missed_slots: 0, total_slots: 1 });
    assert_eq!(LeaderStat::new(true), LeaderStat { missed_slots: 1, total_slots: 1 });
}

#[test]
fn availability_compute_winners_walks_the_chain() {
    let node_a = 1u64;
    let node_b = 2u64;
    // Slots 1 and 2 belong to A, slots 3 and 4 to B; slot 3 was skipped.
    let leaders = vec![0u64, node_a, node_a, node_b, node_b];
    let block_chain = vec![0u64, 1, 2, 4];
    let current_slot = 4u64;
    let block_height = 40u64;
    let vote_accounts = vec![credit_account(11, node_a, 40), credit_account(12, node_b, 50)];
    let excluded_set: Vec<u64> = Vec::new();

    let winners = compute_winners(
        current_slot,
        block_height,
        &vote_accounts,
        &block_chain,
        node_b,
        &excluded_set,
        &leaders,
    )
    .unwrap();

    // total_credits = 40 - 31 = 9; baseline B missed one slot: 50/19.
    assert_eq!(winners.category, Category::Availability(Score { num: 50, den: 19 }));
    assert_eq!(winners.top_winners.len(), 1);
    assert_eq!(winners.top_winners[0], (node_a, Score { num: 40, den: 9 }));
    // 40/9 clears 95% of 50/19, so A lands in the high bucket.
    assert_eq!(winners.bucket_winners[0].0, Bucket::High);
    assert_eq!(winners.bucket_winners[0].1, vec![(node_a, Score { num: 40, den: 9 })]);
    assert!(winners.bucket_winners[1].1.is_empty());
    assert!(winners.bucket_winners[2].1.is_empty());
    assert!(winners.bucket_winners[3].1.is_empty());
}

#[test]
fn availability_missing_baseline_is_fatal() {
    let node_a = 1u64;
    let absent = 99u64;
    let leaders = vec![0u64, node_a, node_a, node_a, node_a];
    let block_chain = vec![0u64, 1, 2, 3, 4];
    let vote_accounts = vec![credit_account(11, node_a, 40)];
    let excluded_set: Vec<u64> = Vec::new();

    // Not in the credit map at all.
    let r = compute_winners(4, 40, &vote_accounts, &block_chain, absent, &excluded_set, &leaders);
    assert_eq!(r, Err(AvailabilityError::BaselineCreditsMissing));

    // Has credits, but never led a slot.
    let node_b = 2u64;
    let accounts2 = vec![credit_account(11, node_a, 40), credit_account(12, node_b, 50)];
    let r2 = compute_winners(4, 40, &accounts2, &block_chain, node_b, &excluded_set, &leaders);
    assert_eq!(r2, Err(AvailabilityError::BaselineLeaderStatsMissing));
}

#[test]
fn availability_small_chain_saturates_total_credits() {
    // Block height below the haircut: the credit total saturates at zero,
    // and every score rests on the missed-slot penalty alone.
    let node_a = 1u64;
    let node_b = 2u64;
    let leaders = vec![0u64, node_a, node_a, node_b, node_b];
    // Slots 1 (A's) and 3 (B's) were skipped.
    let block_chain = vec![0u64, 2, 4];
    let vote_accounts = vec![credit_account(11, node_a, 40), credit_account(12, node_b, 50)];
    let excluded_set: Vec<u64> = Vec::new();

    let winners =
        compute_winners(4, 10, &vote_accounts, &block_chain, node_b, &excluded_set, &leaders)
            .unwrap();
    // total_credits = 0; each validator missed one slot: denominator 10.
    assert_eq!(winners.category, Category::Availability(Score { num: 50, den: 10 }));
    assert_eq!(winners.top_winners, vec![(node_a, Score { num: 40, den: 10 })]);
}

#[test]
fn availability_zero_denominator_is_reported() {
    // Zero credit total and a scored validator that missed nothing: its
    // score has no denominator, and the run fails instead of dividing by
    // zero.
    let node_a = 1u64;
    let node_b = 2u64;
    let leaders = vec![0u64, node_a, node_a, node_b, node_b];
    // Only B's slot 3 was skipped; A produced all of its slots.
    let block_chain = vec![0u64, 1, 2, 4];
    let vote_accounts = vec![credit_account(11, node_a, 40), credit_account(12, node_b, 50)];
    let excluded_set: Vec<u64> = Vec::new();

    let r = compute_winners(4, 10, &vote_accounts, &block_chain, node_b, &excluded_set, &leaders);
    assert_eq!(r, Err(AvailabilityError::ZeroScoreDenominator));
}
