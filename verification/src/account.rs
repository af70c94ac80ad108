//! Plain-value snapshots of chain state, as handed in by the ledger-replay
//! driver.
//!
//! The scorers never decode accounts themselves: the driver resolves each
//! vote account into this snapshot (identities as integer ids, the decoded
//! vote state's fields as plain numbers) and re-fetches the whole set at
//! every checkpoint.

use vstd::prelude::*;

verus! {

/// One vote account as observed at a checkpoint.
#[derive(Debug)]
pub struct VoteAccountSnapshot {
    /// The vote account's own identity.
    pub voter_id: u64,
    /// The validator node the account votes for; several accounts may share
    /// one node.
    pub node_id: u64,
    /// The stake delegated to the account.
    pub stake: u64,
    /// The account's vote-credit counter.
    pub credits: u64,
    /// The account's balance, which holds the validator's commission.
    pub lamports: u64,
    /// The lockout queue: slots voted for, oldest to newest, strictly
    /// increasing.
    pub vote_queue: Vec<u64>,
    /// A fingerprint of the account's content; it changes whenever the
    /// account does.
    pub last_hash: u64,
}

impl VoteAccountSnapshot {
    /// The vote queue is non-empty and strictly increasing.
    pub open spec fn queue_ok(&self) -> bool {
        &&& self.vote_queue@.len() > 0
        &&& forall|i: int, j: int|
            0 <= i < j < self.vote_queue@.len() ==> #[trigger] self.vote_queue@[i]
                < #[trigger] self.vote_queue@[j]
    }
}

/// No two snapshots describe the same vote account.
pub open spec fn distinct_voters(s: Seq<VoteAccountSnapshot>) -> bool {
    forall|i: int, j: int|
        0 <= i < j < s.len() ==> (#[trigger] s[i]).voter_id != (#[trigger] s[j]).voter_id
}

/// Every snapshot has a well-formed vote queue.
pub open spec fn queues_ok(s: Seq<VoteAccountSnapshot>) -> bool {
    forall|i: int| 0 <= i < s.len() ==> (#[trigger] s[i]).queue_ok()
}

/// One stake delegation: the vote account it delegates to and its amount.
#[derive(Debug, Clone, Copy, PartialEq, Eq, Structural)]
pub struct Delegation {
    pub voter_id: u64,
    pub stake: u64,
}

} // verus!
