use winner_tool::score::Score;
use winner_tool::utils::bucket_winners;
use winner_tool::utils::slots_to_secs;
use winner_tool::winner::Bucket;

#[test]
fn utils_test_bucket_winners() {
    let expected_hi_bucket = vec![(1u64, Score::new(100, 100)), (2, Score::new(96, 100))];
    let expected_md_bucket: Vec<(u64, Score)> = vec![];
    let expected_lo_bucket = vec![
        (3u64, Score::new(75, 100)),
        (4, Score::new(75, 100)),
        (5, Score::new(51, 100)),
    ];

    let mut results = Vec::new();
    results.extend(expected_hi_bucket.iter().cloned());
    results.extend(expected_md_bucket.iter().cloned());
    results.extend(expected_lo_bucket.iter().cloned());
    results.push((6u64, Score::new(50, 100)));

    let baseline = Score::from_int(1);
    let buckets = bucket_winners(&results, &baseline);

    assert_eq!(buckets[0].1, expected_hi_bucket);
    assert_eq!(buckets[1].1, expected_md_bucket);
    assert_eq!(buckets[2].1, expected_lo_bucket);
}

#[test]
fn bucket_winners_bottom_extends_to_the_end() {
    // Latency scores: everything under 50% of the baseline lands in the
    // trailing bucket, however negative, down to the end of the list.
    let results = vec![
        (1u64, Score::from_int(4)),
        (2, Score::from_int(1)),
        (3, Score::from_int(0)),
        (4, Score::from_int(-1)),
        (5, Score::from_int(-3)),
    ];
    let baseline = Score::from_int(4);
    let buckets = bucket_winners(&results, &baseline);
    assert_eq!(buckets[0], (Bucket::High, vec![(1u64, Score::from_int(4))]));
    assert_eq!(buckets[1], (Bucket::Medium, vec![]));
    assert_eq!(buckets[2], (Bucket::Low, vec![]));
    assert_eq!(
        buckets[3],
        (
            Bucket::Bottom,
            vec![
                (2u64, Score::from_int(1)),
                (3, Score::from_int(0)),
                (4, Score::from_int(-1)),
                (5, Score::from_int(-3)),
            ]
        )
    );
}

#[test]
fn bucket_winners_of_nothing_is_empty() {
    let results: Vec<(u64, Score)> = Vec::new();
    let baseline = Score::from_int(1);
    let buckets = bucket_winners(&results, &baseline);
    assert_eq!(buckets.len(), 4);
    for (_, members) in &buckets {
        assert!(members.is_empty());
    }
}

#[test]
fn test_slots_to_secs() {
    // Ten ticks per slot at half a second each: two slots last ten seconds.
    assert_eq!(slots_to_secs(2, 10, 500), 10);
    assert_eq!(slots_to_secs(1, 1, 500), 1);
    assert_eq!(slots_to_secs(10, 0, 500), 0);
}
