use winner_tool::account::VoteAccountSnapshot;
use winner_tool::confirmation_latency::Checkpoint;
use winner_tool::confirmation_latency::LatencyError;
use winner_tool::confirmation_latency::MAX_VOTE_DELAY;
use winner_tool::confirmation_latency::VoterEntry;
use winner_tool::confirmation_latency::VoterRecord;
use winner_tool::confirmation_latency::compute_winners;
use winner_tool::confirmation_latency::on_entry;
use winner_tool::confirmation_latency::replay;
use winner_tool::confirmation_latency::score_voters;
use winner_tool::confirmation_latency::validator_results;
use winner_tool::confirmation_latency::voter_checkpoint;
use winner_tool::score::SCORE_NUM_BOUND;
use winner_tool::score::Score;
use winner_tool::slots::SlotVoterSegments;
use winner_tool::winner::Category;

fn vote_account(voter_id: u64, node_id: u64, vote_slots: (u64, u64), hash: u64) -> VoteAccountSnapshot {
    let mut vote_queue = Vec::new();
    let mut s = vote_slots.0;
    while s < vote_slots.1 {
        vote_queue.push(s);
        s += 1;
    }
    VoteAccountSnapshot {
        voter_id,
        node_id,
        stake: 0,
        credits: 0,
        lamports: 0,
        vote_queue,
        last_hash: hash,
    }
}

#[test]
fn test_voter_checkpoint() {
    let current_slot = 100u64;
    let voter1 = 1u64;
    let voter2 = 2u64;
    let voter3 = 3u64;

    // Discard too-old votes and add to the voter record.
    let too_old_slot = current_slot - MAX_VOTE_DELAY - 1;
    let voter1_account = vote_account(voter1, 0, (too_old_slot, current_slot + 1), 11);

    // Count only slots newer than the recorded last slot.
    let voter2_account = vote_account(voter2, 0, (0, current_slot + 1), 12);

    // Ignore an unchanged fingerprint.
    let voter3_account = vote_account(voter3, 0, (current_slot, current_slot + 1), 13);
    let voter3_entry = VoterEntry { last_hash: 13, ..VoterEntry::default() };

    let vote_accounts = vec![voter1_account, voter2_account, voter3_account];
    let mut voter_record: VoterRecord = VoterRecord::new();
    voter_record.set(voter2, VoterEntry { last_slot: current_slot - 1, ..VoterEntry::default() });
    voter_record.set(voter3, voter3_entry);

    let checkpoint = voter_checkpoint(current_slot, &vote_accounts, &mut voter_record);
    assert_eq!(checkpoint.len(), (MAX_VOTE_DELAY + 1) as usize);
    let mut slot = current_slot - MAX_VOTE_DELAY;
    while slot <= current_slot {
        let voters = checkpoint.get(slot).unwrap();
        if slot == current_slot {
            // Expected voter 1 and voter 2 for the current slot.
            assert_eq!(voters, &vec![voter1, voter2]);
        } else {
            // Expected only voter 1 for the other slots.
            assert_eq!(voters, &vec![voter1]);
        }
        slot += 1;
    }

    // Voter 1 should be added to the voter record.
    assert_eq!(
        voter_record.get_copy(voter1),
        Some(VoterEntry { last_slot: current_slot, last_hash: 11, ..VoterEntry::default() })
    );
    // Voter 2 should be updated.
    assert_eq!(
        voter_record.get_copy(voter2),
        Some(VoterEntry { last_slot: current_slot, last_hash: 12, ..VoterEntry::default() })
    );
    // Voter 3 should not be updated.
    assert_eq!(
        voter_record.get_copy(voter3),
        Some(VoterEntry { last_hash: 13, ..VoterEntry::default() })
    );
}

#[test]
fn test_score_voters() {
    let voters = vec![1u64, 2, 3, 4];
    let low_latency_set = vec![voters[0], voters[1], voters[2]];
    let high_latency_set = vec![voters[3]];
    let voter_sets = vec![low_latency_set, high_latency_set];

    let mut voter_record: VoterRecord = VoterRecord::new();
    for voter in &voters {
        voter_record.set(*voter, VoterEntry::default());
    }

    score_voters(&voter_sets, &mut voter_record).unwrap();

    for voter in &voters[..voters.len() - 1] {
        assert_eq!(voter_record.get_copy(*voter).unwrap().latency_score, 1);
    }
    let last_voter = voters[voters.len() - 1];
    assert_eq!(voter_record.get_copy(last_voter).unwrap().latency_score, -1);
}

#[test]
fn test_on_entry() {
    let current_slot = 100u64;
    let recent_slot = 99u64;
    let old_slot = current_slot - MAX_VOTE_DELAY - 1;
    let voter1 = 1u64;
    let voter2 = 2u64;
    let voter3 = 3u64;

    let vote_accounts = vec![
        vote_account(voter1, 0, (current_slot, current_slot + 1), 21),
        vote_account(voter2, 0, (current_slot, current_slot + 1), 22),
        vote_account(voter3, 0, (recent_slot, current_slot + 1), 23),
    ];

    let recent_slot_first_voter_set = vec![voter1, voter2];
    let old_slot_voter_set = vec![voter1];

    let mut slot_voter_segments = SlotVoterSegments::new();
    slot_voter_segments.push_segment(old_slot, old_slot_voter_set);
    slot_voter_segments.push_segment(recent_slot, recent_slot_first_voter_set.clone());

    let mut voter_record: VoterRecord = VoterRecord::new();
    on_entry(current_slot, &vote_accounts, &mut voter_record, &mut slot_voter_segments).unwrap();
    assert_eq!(slot_voter_segments.len(), 2);

    // Should periodically purge and score slot_voter_segments.
    assert!(slot_voter_segments.get(old_slot).is_none());
    assert_eq!(voter_record.get_copy(voter1).unwrap().latency_score, 1);

    // Should push back a new voter set after the latest checkpoint.
    assert_eq!(
        slot_voter_segments.get(recent_slot).unwrap(),
        &vec![recent_slot_first_voter_set, vec![voter3]]
    );

    // Should create a new voter segment for the new slot.
    assert_eq!(
        slot_voter_segments.get(current_slot).unwrap(),
        &vec![vec![voter1, voter2, voter3]]
    );
}

#[test]
fn confirmation_latency_test_validator_results() {
    let validator1 = 10u64;
    let validator2 = 20u64;
    let bootstrap_leader = 30u64;
    let baseline_validator = 40u64;

    let voter1 = 1u64;
    let voter2 = 2u64;
    let voter3 = 3u64;

    let vote_accounts = vec![
        vote_account(voter1, validator1, (0, 1), 1),
        vote_account(voter2, validator2, (0, 1), 2),
        vote_account(voter3, baseline_validator, (0, 1), 3),
    ];

    let mut voter_record: VoterRecord = VoterRecord::new();
    voter_record.set(voter1, VoterEntry { latency_score: 100, ..VoterEntry::default() });
    voter_record.set(voter2, VoterEntry { latency_score: 200, ..VoterEntry::default() });
    voter_record.set(voter3, VoterEntry { latency_score: 300, ..VoterEntry::default() });

    let excluded_set = vec![bootstrap_leader, baseline_validator];

    let (results, baseline) = validator_results(
        baseline_validator,
        &excluded_set,
        &vote_accounts,
        &voter_record,
    )
    .unwrap();
    assert_eq!(results.len(), 2);
    assert_eq!(results[0], (validator2, Score { num: 200, den: 1 }));
    assert_eq!(results[1], (validator1, Score { num: 100, den: 1 }));
    assert_eq!(baseline, Score { num: 300, den: 1 });
}

#[test]
fn two_segment_scoring_follows_the_half_rule() {
    // Segments {v1, v2} then {v3}: total 3, so the second segment starts
    // after 2 of 3 voters were seen, at or past max(1, 3/2) = 1: late.
    let mut voter_record: VoterRecord = VoterRecord::new();
    voter_record.set(1, VoterEntry::default());
    voter_record.set(2, VoterEntry::default());
    voter_record.set(3, VoterEntry::default());
    let segments = vec![vec![1u64, 2], vec![3u64]];
    score_voters(&segments, &mut voter_record).unwrap();
    assert_eq!(voter_record.get_copy(1).unwrap().latency_score, 1);
    assert_eq!(voter_record.get_copy(2).unwrap().latency_score, 1);
    assert_eq!(voter_record.get_copy(3).unwrap().latency_score, -1);
}

#[test]
fn score_voters_reports_missing_voters() {
    let mut voter_record: VoterRecord = VoterRecord::new();
    voter_record.set(1, VoterEntry::default());
    let segments = vec![vec![1u64, 2]];
    let r = score_voters(&segments, &mut voter_record);
    assert_eq!(r, Err(LatencyError::MissingVoter));
    // Nothing was scored.
    assert_eq!(voter_record.get_copy(1).unwrap().latency_score, 0);
}

fn small_scenario() -> (Vec<VoteAccountSnapshot>, VoterRecord, SlotVoterSegments) {
    let baseline_node = 40u64;
    let vote_accounts = vec![
        vote_account(1, 10, (99, 101), 1),
        vote_account(2, 20, (99, 101), 2),
        vote_account(3, baseline_node, (100, 101), 3),
    ];
    let mut voter_record: VoterRecord = VoterRecord::new();
    let mut segments = SlotVoterSegments::new();
    on_entry(100, &vote_accounts, &mut voter_record, &mut segments).unwrap();
    (vote_accounts, voter_record, segments)
}

#[test]
fn compute_winners_is_idempotent() {
    let (vote_accounts, voter_record, segments) = small_scenario();
    let excluded_set: Vec<u64> = Vec::new();
    let first = compute_winners(&vote_accounts, 40, &excluded_set, &voter_record, &segments);
    let second = compute_winners(&vote_accounts, 40, &excluded_set, &voter_record, &segments);
    assert!(first.is_ok());
    assert_eq!(first, second);
}

#[test]
fn replay_reproduces_identical_scores() {
    let checkpoints = vec![
        Checkpoint {
            slot: 100,
            vote_accounts: vec![
                vote_account(1, 10, (99, 101), 1),
                vote_account(2, 20, (99, 101), 2),
                vote_account(3, 40, (100, 101), 3),
            ],
        },
        Checkpoint {
            slot: 120,
            vote_accounts: vec![
                vote_account(1, 10, (99, 121), 4),
                vote_account(2, 20, (99, 121), 5),
                vote_account(3, 40, (100, 121), 6),
            ],
        },
    ];
    let excluded_set: Vec<u64> = Vec::new();

    let (rec1, segs1) = replay(&checkpoints).unwrap();
    let (rec2, segs2) = replay(&checkpoints).unwrap();
    let w1 = compute_winners(&checkpoints[1].vote_accounts, 40, &excluded_set, &rec1, &segs1);
    let w2 = compute_winners(&checkpoints[1].vote_accounts, 40, &excluded_set, &rec2, &segs2);
    assert!(w1.is_ok());
    assert_eq!(w1, w2);
}

#[test]
fn latency_winner_report_shape() {
    let (vote_accounts, voter_record, segments) = small_scenario();
    let excluded_set: Vec<u64> = Vec::new();
    let winners = compute_winners(&vote_accounts, 40, &excluded_set, &voter_record, &segments)
        .unwrap();
    // The baseline voted only for the final slot, which was scored during
    // finalization along with everything else.
    assert!(matches!(winners.category, Category::ConfirmationLatency(_)));
    assert_eq!(winners.top_winners.len(), 2);
    assert_eq!(winners.bucket_winners.len(), 4);
}

#[test]
fn latency_missing_baseline_is_fatal() {
    let (vote_accounts, voter_record, segments) = small_scenario();
    let excluded_set: Vec<u64> = Vec::new();
    let r = compute_winners(&vote_accounts, 999, &excluded_set, &voter_record, &segments);
    assert_eq!(r, Err(LatencyError::MissingBaseline));
}

#[test]
fn latency_negative_baseline_is_rejected() {
    let baseline_node = 40u64;
    let vote_accounts = vec![vote_account(3, baseline_node, (0, 1), 3)];
    let mut voter_record: VoterRecord = VoterRecord::new();
    voter_record.set(3, VoterEntry { latency_score: -5, ..VoterEntry::default() });
    let segments = SlotVoterSegments::new();
    let excluded_set: Vec<u64> = Vec::new();
    let r = compute_winners(&vote_accounts, baseline_node, &excluded_set, &voter_record, &segments);
    assert_eq!(r, Err(LatencyError::NegativeBaseline));
}

#[test]
fn latency_scores_stop_at_the_ceiling() {
    let mut voter_record: VoterRecord = VoterRecord::new();
    voter_record.set(1, VoterEntry { latency_score: SCORE_NUM_BOUND, ..VoterEntry::default() });
    voter_record.set(2, VoterEntry { latency_score: -SCORE_NUM_BOUND, ..VoterEntry::default() });
    let segments = vec![vec![1u64], vec![2u64]];
    score_voters(&segments, &mut voter_record).unwrap();
    // Voter 1 was early but already at the ceiling; voter 2 was late and
    // already at the floor: neither moves.
    assert_eq!(voter_record.get_copy(1).unwrap().latency_score, SCORE_NUM_BOUND);
    assert_eq!(voter_record.get_copy(2).unwrap().latency_score, -SCORE_NUM_BOUND);
}

#[test]
fn checkpoint_skips_accounts_with_default_fingerprint() {
    // A brand-new voter whose fingerprint equals the default entry's is
    // only registered; its queue is not walked.
    let mut voter_record: VoterRecord = VoterRecord::new();
    let accounts = vec![vote_account(7, 0, (100, 101), 0)];
    let checkpoint = voter_checkpoint(100, &accounts, &mut voter_record);
    assert_eq!(checkpoint.len(), 0);
    assert_eq!(voter_record.get_copy(7), Some(VoterEntry::default()));
}

#[test]
fn on_entry_rejects_untracked_voters_and_changes_nothing() {
    let mut slot_voter_segments = SlotVoterSegments::new();
    // Voter 9 appears in an old slot's segments but was never tracked.
    slot_voter_segments.push_segment(80, vec![9u64]);
    let mut voter_record: VoterRecord = VoterRecord::new();
    let accounts = vec![vote_account(1, 10, (99, 101), 1)];
    let r = on_entry(100, &accounts, &mut voter_record, &mut slot_voter_segments);
    assert_eq!(r, Err(LatencyError::MissingVoter));
    // The failed checkpoint left both structures exactly as they were.
    assert_eq!(slot_voter_segments.len(), 1);
    assert!(slot_voter_segments.get(80).is_some());
    assert!(voter_record.get_copy(1).is_none());
}

#[test]
fn checkpoint_leaves_unchanged_accounts_unread() {
    // An account whose fingerprint did not change is skipped outright, so
    // its vote queue -- here empty -- is never walked.
    let mut voter_record: VoterRecord = VoterRecord::new();
    voter_record.set(7, VoterEntry { last_hash: 5, ..VoterEntry::default() });
    let account = VoteAccountSnapshot {
        voter_id: 7,
        node_id: 0,
        stake: 0,
        credits: 0,
        lamports: 0,
        vote_queue: Vec::new(),
        last_hash: 5,
    };
    let checkpoint = voter_checkpoint(100, &vec![account], &mut voter_record);
    assert_eq!(checkpoint.len(), 0);
    assert_eq!(
        voter_record.get_copy(7),
        Some(VoterEntry { last_hash: 5, ..VoterEntry::default() })
    );
}
