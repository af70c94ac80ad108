//! Output types shared by the three scoring categories.

use vstd::prelude::*;

use crate::score::Score;

verus! {

/// The category a set of winners was computed for.  Availability and latency
/// carry the baseline validator's score that the buckets were measured
/// against.
#[derive(Debug, Clone, Copy, PartialEq, Eq, Structural)]
pub enum Category {
    Availability(Score),
    ConfirmationLatency(Score),
    RewardsEarned,
}

/// The label of one prize bucket, from best to worst.
#[derive(Debug, Clone, Copy, PartialEq, Eq, Structural)]
pub enum Bucket {
    High,
    Medium,
    Low,
    Bottom,
}

/// One ranked validator with its score.  Rendering the score for display is
/// the caller's concern.
pub type Winner = (u64, Score);

/// The result of one scoring category: the top three plus the bucketed field.
#[derive(Debug, PartialEq)]
pub struct Winners {
    pub category: Category,
    pub top_winners: Vec<Winner>,
    pub bucket_winners: Vec<(Bucket, Vec<Winner>)>,
}

/// The abstract view of a bucket list.
pub open spec fn buckets_view(s: Seq<(Bucket, Vec<Winner>)>) -> Seq<(Bucket, Seq<Winner>)> {
    Seq::new(s.len(), |i: int| (s[i].0, s[i].1@))
}

} // verus!
