use winner_tool::account::Delegation;
use winner_tool::account::VoteAccountSnapshot;
use winner_tool::keymap::KeyMap;
use winner_tool::rewards_earned::bucket_winners;
use winner_tool::rewards_earned::compute_winners;
use winner_tool::rewards_earned::validator_results;
use winner_tool::rewards_earned::validator_rewards;
use winner_tool::rewards_earned::voter_stake_rewards;
use winner_tool::score::Score;
use winner_tool::winner::Category;

fn reward_account(voter_id: u64, node_id: u64, lamports: u64) -> VoteAccountSnapshot {
    VoteAccountSnapshot {
        voter_id,
        node_id,
        stake: 0,
        credits: 0,
        lamports,
        vote_queue: Vec::new(),
        last_hash: 0,
    }
}

fn scored(results: &[(u64, i64)]) -> Vec<(u64, Score)> {
    results.iter().map(|(id, v)| (*id, Score { num: *v, den: 1 })).collect()
}

#[test]
fn rewards_earned_test_validator_results() {
    let top_validator = 1u64;
    let bottom_validator = 2u64;
    let excluded_validator = 3u64;
    let mut rewards_map: KeyMap<u64> = KeyMap::new();
    rewards_map.set(top_validator, 1000);
    rewards_map.set(bottom_validator, 10);
    rewards_map.set(excluded_validator, 100);

    let excluded_set = vec![excluded_validator];

    let results = validator_results(&rewards_map, &excluded_set, 100);
    assert_eq!(results[0], (top_validator, Score { num: 900, den: 1 }));
    assert_eq!(results[1], (bottom_validator, Score { num: -90, den: 1 }));
}

#[test]
fn test_validator_rewards() {
    let validator1 = 10u64;
    let validator2 = 20u64;
    let voter1 = 1u64;

    let vote_accounts = vec![
        reward_account(voter1, validator1, 100),
        reward_account(2, validator2, 100),
        reward_account(3, validator2, 200),
    ];

    let mut stake_rewards: KeyMap<u64> = KeyMap::new();
    stake_rewards.set(voter1, 1000);

    let rewards = validator_rewards(stake_rewards, &vote_accounts);
    assert_eq!(rewards.len(), 2);
    assert_eq!(rewards.get_copy(validator1), Some(1100));
    assert_eq!(rewards.get_copy(validator2), Some(200));
}

#[test]
fn test_voter_stake_rewards() {
    let voter_pubkey1 = 1u64;
    let voter_pubkey2 = 2u64;

    let stake_delegations = vec![
        Delegation { voter_id: voter_pubkey1, stake: 100 },
        Delegation { voter_id: voter_pubkey2, stake: 100 },
        Delegation { voter_id: voter_pubkey2, stake: 100 },
    ];

    let sums = voter_stake_rewards(&stake_delegations);
    assert_eq!(sums.len(), 2);
    assert_eq!(sums.get_copy(voter_pubkey1), Some(100));
    assert_eq!(sums.get_copy(voter_pubkey2), Some(200));
}

#[test]
fn rewards_earned_test_bucket_winners() {
    let expected_high_bucket = [(1u64, 8_000i64), (2, 7_000)];
    let expected_medium_bucket = [(3u64, 6_000i64), (4, 5_000)];
    let expected_low_bucket = [(5u64, 4_000i64), (6, 3_000), (7, 2_000)];
    let expected_bottom_bucket = [(8u64, 1_000i64)];

    let mut results = Vec::new();
    results.extend(scored(&expected_high_bucket));
    results.extend(scored(&expected_medium_bucket));
    results.extend(scored(&expected_low_bucket));
    results.extend(scored(&expected_bottom_bucket));

    let buckets = bucket_winners(&results);
    assert_eq!(buckets[0].1, scored(&expected_high_bucket));
    assert_eq!(buckets[1].1, scored(&expected_medium_bucket));
    assert_eq!(buckets[2].1, scored(&expected_low_bucket));
    assert_eq!(buckets[3].1, scored(&expected_bottom_bucket));
}

#[test]
fn test_bucket_winners_with_ties() {
    // Ties should all get bucketed together.
    let expected_high_bucket = [(1u64, 8_000i64), (2, 7_000), (3, 7_000), (4, 7_000)];
    let expected_medium_bucket: [(u64, i64); 0] = [];
    let expected_low_bucket = [(5u64, 4_000i64), (6, 3_000), (7, 2_000)];
    let expected_bottom_bucket = [(8u64, 1_000i64)];

    let mut results = Vec::new();
    results.extend(scored(&expected_high_bucket));
    results.extend(scored(&expected_medium_bucket));
    results.extend(scored(&expected_low_bucket));
    results.extend(scored(&expected_bottom_bucket));

    let buckets = bucket_winners(&results);
    assert_eq!(buckets[0].1, scored(&expected_high_bucket));
    assert_eq!(buckets[1].1, scored(&expected_medium_bucket));
    assert_eq!(buckets[2].1, scored(&expected_low_bucket));
    assert_eq!(buckets[3].1, scored(&expected_bottom_bucket));
}

#[test]
fn rewards_compute_winners_report() {
    let vote_accounts = vec![
        reward_account(1, 10, 500),
        reward_account(2, 20, 300),
        reward_account(3, 30, 200),
        reward_account(4, 40, 100),
    ];
    let stake_delegations = vec![
        Delegation { voter_id: 1, stake: 500 },
        Delegation { voter_id: 2, stake: 200 },
    ];
    let excluded_set: Vec<u64> = Vec::new();

    let winners = compute_winners(&vote_accounts, &stake_delegations, &excluded_set, 100);
    assert_eq!(winners.category, Category::RewardsEarned);
    // Earned totals less the starting balance of 100: 900, 400, 100, 0.
    assert_eq!(
        winners.top_winners,
        vec![
            (10u64, Score { num: 900, den: 1 }),
            (20u64, Score { num: 400, den: 1 }),
            (30u64, Score { num: 100, den: 1 }),
        ]
    );
    // Four validators: one per bucket except the third, which spans two.
    assert_eq!(winners.bucket_winners[0].1, vec![(10u64, Score { num: 900, den: 1 })]);
    assert_eq!(winners.bucket_winners[1].1, vec![(20u64, Score { num: 400, den: 1 })]);
    assert_eq!(winners.bucket_winners[2].1, vec![(30u64, Score { num: 100, den: 1 })]);
    assert_eq!(winners.bucket_winners[3].1, vec![(40u64, Score { num: 0, den: 1 })]);
}
