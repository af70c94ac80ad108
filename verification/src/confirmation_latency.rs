//! The "confirmation latency" category: tracks the order in which
//! validators' votes for each slot arrive over a stream of checkpoints.
//! Voters whose votes arrive before half of a slot's voters have been seen
//! earn a point; later voters lose one.

use vstd::prelude::*;

use crate::account::VoteAccountSnapshot;
use crate::account::distinct_voters;
use crate::account::queues_ok;
use crate::keymap::KeyMap;
use crate::keymap::lemma_spec_set_get;
use crate::keymap::spec_get;
use crate::keymap::spec_remove;
use crate::keymap::spec_set;
use crate::score::SCORE_NUM_BOUND;
use crate::score::Score;
use crate::score::all_wf;
use crate::score::sort_desc;
use crate::score::sort_desc_exec;
use crate::slots::SlotVoterSegments;
use crate::slots::SlotVoters;
use crate::slots::segs_view;
use crate::slots::spec_add_voter;
use crate::slots::spec_evicted;
use crate::slots::spec_kept;
use crate::slots::spec_push_segment;
use crate::utils::vec_contains_u64;
use crate::winner::Winners;

verus! {

/// Why a latency computation failed.
#[derive(Debug, Clone, Copy, PartialEq, Eq, Structural)]
pub enum LatencyError {
    /// A voter referenced by a slot's segments has no tracked entry: the
    /// checkpoints were applied out of order.
    MissingVoter,
    /// The baseline validator has no latency score.
    MissingBaseline,
    /// The baseline validator's score is negative, so no baseline-relative
    /// thresholds exist.
    NegativeBaseline,
}

/// Votes arriving more than this many slots after the current slot are an
/// availability problem, not a latency signal, and are not tracked.
pub const MAX_VOTE_DELAY: u64 = 10;

/// The latency-tracking state of one vote account.
#[derive(Debug, Clone, Copy, Default, PartialEq, Eq, Structural)]
pub struct VoterEntry {
    /// One point earned per low-latency segment, one lost per late one.
    pub latency_score: i64,
    /// The newest queue slot already counted; never decreases.
    pub last_slot: u64,
    /// The account fingerprint at the previous checkpoint.
    pub last_hash: u64,
}

/// The latency-tracking state of every vote account, keyed by voter id.
pub type VoterRecord = KeyMap<VoterEntry>;

/// The state a voter starts in when first observed.
pub open spec fn default_voter_entry() -> VoterEntry {
    VoterEntry { latency_score: 0, last_slot: 0, last_hash: 0 }
}

/// The oldest slot still tracked for latency at the given current slot.
pub open spec fn vote_floor(current_slot: u64) -> u64 {
    if current_slot >= MAX_VOTE_DELAY {
        (current_slot - MAX_VOTE_DELAY) as u64
    } else {
        0
    }
}

/// Walks the vote queue from index `j` down, newest to oldest: each slot
/// newer than `last_slot` and no older than `floor` records the voter; the
/// walk stops at the first already-counted slot.
pub open spec fn fold_queue(
    sv: Seq<(u64, Seq<u64>)>,
    queue: Seq<u64>,
    j: int,
    last_slot: u64,
    floor: u64,
    voter: u64,
) -> Seq<(u64, Seq<u64>)>
    decreases j + 1,
{
    if j < 0 {
        sv
    } else if queue[j] <= last_slot {
        sv
    } else {
        let sv2 = if queue[j] < floor {
            sv
        } else {
            spec_add_voter(sv, queue[j], voter)
        };
        fold_queue(sv2, queue, j - 1, last_slot, floor, voter)
    }
}

/// One vote account folded into the checkpoint: an unchanged fingerprint
/// only ensures the voter has an entry; a changed one walks the queue for
/// new votes and advances the entry to the newest queue slot.
pub open spec fn checkpoint_step(
    rec: Seq<(u64, VoterEntry)>,
    sv: Seq<(u64, Seq<u64>)>,
    acc: VoteAccountSnapshot,
    current_slot: u64,
) -> (Seq<(u64, VoterEntry)>, Seq<(u64, Seq<u64>)>) {
    let entry = match spec_get(rec, acc.voter_id) {
        Some(e) => e,
        None => default_voter_entry(),
    };
    if entry.last_hash == acc.last_hash {
        (
            if spec_get(rec, acc.voter_id) is Some {
                rec
            } else {
                spec_set(rec, acc.voter_id, entry)
            },
            sv,
        )
    } else {
        let sv2 = fold_queue(
            sv,
            acc.vote_queue@,
            acc.vote_queue@.len() - 1,
            entry.last_slot,
            vote_floor(current_slot),
            acc.voter_id,
        );
        let entry2 = VoterEntry {
            latency_score: entry.latency_score,
            last_slot: acc.vote_queue@.last(),
            last_hash: acc.last_hash,
        };
        (spec_set(rec, acc.voter_id, entry2), sv2)
    }
}

/// The whole checkpoint: every vote account folded in, in order, starting
/// from an empty per-slot voter collection.
pub open spec fn spec_checkpoint(
    rec: Seq<(u64, VoterEntry)>,
    accs: Seq<VoteAccountSnapshot>,
    current_slot: u64,
) -> (Seq<(u64, VoterEntry)>, Seq<(u64, Seq<u64>)>)
    decreases accs.len(),
{
    if accs.len() == 0 {
        (rec, Seq::empty())
    } else {
        let prev = spec_checkpoint(rec, accs.drop_last(), current_slot);
        checkpoint_step(prev.0, prev.1, accs.last(), current_slot)
    }
}

/// Only accounts whose fingerprint changed have their vote queue walked:
/// each such queue must be well formed in the record state it is checked
/// against (an unchanged account's queue is never read).
pub open spec fn checkpoint_queues_ok(
    rec: Seq<(u64, VoterEntry)>,
    accs: Seq<VoteAccountSnapshot>,
    current_slot: u64,
) -> bool
    decreases accs.len(),
{
    if accs.len() == 0 {
        true
    } else {
        let prev = spec_checkpoint(rec, accs.drop_last(), current_slot);
        let acc = accs.last();
        let entry_hash = match spec_get(prev.0, acc.voter_id) {
            Some(e) => e.last_hash,
            None => 0u64,
        };
        checkpoint_queues_ok(rec, accs.drop_last(), current_slot) && (entry_hash == acc.last_hash
            || acc.queue_ok())
    }
}

/// The queue condition holds of every prefix of the accounts.
proof fn lemma_checkpoint_queues_ok_prefix(
    rec: Seq<(u64, VoterEntry)>,
    accs: Seq<VoteAccountSnapshot>,
    current_slot: u64,
    j: int,
)
    requires
        checkpoint_queues_ok(rec, accs, current_slot),
        0 <= j <= accs.len(),
    ensures
        checkpoint_queues_ok(rec, accs.subrange(0, j), current_slot),
    decreases accs.len() - j,
{
    if j == accs.len() {
        assert(accs.subrange(0, j) =~= accs);
    } else {
        lemma_checkpoint_queues_ok_prefix(rec, accs, current_slot, j + 1);
        let pre1 = accs.subrange(0, j + 1);
        assert(pre1.drop_last() =~= accs.subrange(0, j));
    }
}

/// Well-formed queues on every account satisfy the checkpoint's queue
/// condition outright.
pub proof fn lemma_queues_ok_checkpoint(
    rec: Seq<(u64, VoterEntry)>,
    accs: Seq<VoteAccountSnapshot>,
    current_slot: u64,
)
    requires
        queues_ok(accs),
    ensures
        checkpoint_queues_ok(rec, accs, current_slot),
    decreases accs.len(),
{
    if accs.len() > 0 {
        let t = accs.drop_last();
        assert(forall|i: int| 0 <= i < t.len() ==> t[i] == accs[i]);
        lemma_queues_ok_checkpoint(rec, t, current_slot);
        assert(accs[accs.len() - 1] == accs.last());
        assert(accs.last().queue_ok());
    }
}

/// Checks each vote account against its tracked entry.  An account whose
/// fingerprint changed has its new votes recorded per slot; its entry
/// advances to the newest queue slot.  Returns the voters newly observed
/// for each slot during this checkpoint.
pub fn voter_checkpoint(
    slot: u64,
    vote_accounts: &Vec<VoteAccountSnapshot>,
    voter_record: &mut VoterRecord,
) -> (r: SlotVoters)
    requires
        distinct_voters(vote_accounts@),
        checkpoint_queues_ok(old(voter_record)@, vote_accounts@, slot),
    ensures
        (final(voter_record)@, r@) == spec_checkpoint(old(voter_record)@, vote_accounts@, slot),
        r.wf(),
{
    let mut slot_voters = SlotVoters::new();
    let floor: u64 = if slot >= MAX_VOTE_DELAY {
        slot - MAX_VOTE_DELAY
    } else {
        0
    };
    let n = vote_accounts.len();
    let mut i: usize = 0;
    proof {
        assert(vote_accounts@.subrange(0, 0) =~= Seq::<VoteAccountSnapshot>::empty());
    }
    while i < n
        invariant
            n == vote_accounts@.len(),
            i <= n,
            checkpoint_queues_ok(old(voter_record)@, vote_accounts@, slot),
            floor == vote_floor(slot),
            (voter_record@, slot_voters@) == spec_checkpoint(
                old(voter_record)@,
                vote_accounts@.subrange(0, i as int),
                slot,
            ),
            slot_voters.wf(),
        decreases n - i,
    {
        let ghost pre = vote_accounts@.subrange(0, i as int);
        let ghost pre1 = vote_accounts@.subrange(0, i as int + 1);
        proof {
            assert(pre1.drop_last() =~= pre);
            assert(pre1.last() == vote_accounts@[i as int]);
            lemma_checkpoint_queues_ok_prefix(
                old(voter_record)@,
                vote_accounts@,
                slot,
                i as int + 1,
            );
        }
        let acc = &vote_accounts[i];
        let got = voter_record.get_copy(acc.voter_id);
        let entry = match got {
            Some(e) => e,
            None => VoterEntry { latency_score: 0, last_slot: 0, last_hash: 0 },
        };
        if entry.last_hash != acc.last_hash {
            let q = &acc.vote_queue;
            let qlen = q.len();
            proof {
                assert(vote_accounts@[i as int].queue_ok());
            }
            let ghost target = fold_queue(
                slot_voters@,
                q@,
                q@.len() - 1,
                entry.last_slot,
                floor,
                acc.voter_id,
            );
            let mut j: usize = qlen;
            while j > 0 && q[j - 1] > entry.last_slot
                invariant
                    j <= qlen,
                    qlen == q@.len(),
                    floor == vote_floor(slot),
                    slot_voters.wf(),
                    target == fold_queue(
                        slot_voters@,
                        q@,
                        j as int - 1,
                        entry.last_slot,
                        floor,
                        acc.voter_id,
                    ),
                decreases j,
            {
                let s = q[j - 1];
                if s >= floor {
                    slot_voters.add_voter(s, acc.voter_id);
                }
                j -= 1;
            }
            proof {
                assert(slot_voters@ == target);
            }
            voter_record.set(
                acc.voter_id,
                VoterEntry {
                    latency_score: entry.latency_score,
                    last_slot: q[qlen - 1],
                    last_hash: acc.last_hash,
                },
            );
        } else {
            match got {
                Some(_) => {},
                None => {
                    voter_record.set(acc.voter_id, entry);
                },
            }
        }
        i += 1;
    }
    proof {
        assert(vote_accounts@.subrange(0, n as int) =~= vote_accounts@);
    }
    slot_voters
}

/// The number of voters across all of a slot's segments.
pub open spec fn seg_total(segs: Seq<Seq<u64>>) -> int
    decreases segs.len(),
{
    if segs.len() == 0 {
        0
    } else {
        seg_total(segs.drop_last()) + segs.last().len()
    }
}

/// Totals of segments are never negative.
proof fn lemma_seg_total_nonneg(segs: Seq<Seq<u64>>)
    ensures
        seg_total(segs) >= 0,
    decreases segs.len(),
{
    if segs.len() > 0 {
        lemma_seg_total_nonneg(segs.drop_last());
    }
}

/// A prefix's total never exceeds the whole total.
proof fn lemma_seg_total_prefix(segs: Seq<Seq<u64>>, j: int)
    requires
        0 <= j <= segs.len(),
    ensures
        0 <= seg_total(segs.subrange(0, j)) <= seg_total(segs),
    decreases segs.len() - j,
{
    lemma_seg_total_nonneg(segs.subrange(0, j));
    if j == segs.len() {
        assert(segs.subrange(0, j) =~= segs);
    } else {
        lemma_seg_total_prefix(segs, j + 1);
        let pre1 = segs.subrange(0, j + 1);
        assert(pre1.drop_last() =~= segs.subrange(0, j));
        assert(pre1.last() == segs[j]);
    }
}

/// A segment is low latency while fewer than `max(1, total/2)` of the
/// slot's voters have been counted.
pub open spec fn low_latency(seen: int, total: int) -> bool {
    seen < if total / 2 > 1 {
        total / 2
    } else {
        1
    }
}

/// A score step of one point, pinned to the score ceiling.
pub open spec fn sat_add_unit(x: int, up: bool) -> int {
    if up {
        if x < SCORE_NUM_BOUND as int {
            x + 1
        } else {
            x
        }
    } else {
        if x > -(SCORE_NUM_BOUND as int) {
            x - 1
        } else {
            x
        }
    }
}

/// One segment's voters each gain or lose a point, in order; a voter
/// without an entry is skipped (the callers rule that out beforehand).
pub open spec fn apply_seg(
    rec: Seq<(u64, VoterEntry)>,
    voters: Seq<u64>,
    up: bool,
) -> Seq<(u64, VoterEntry)>
    decreases voters.len(),
{
    if voters.len() == 0 {
        rec
    } else {
        let r2 = apply_seg(rec, voters.drop_last(), up);
        match spec_get(r2, voters.last()) {
            Some(e) => spec_set(
                r2,
                voters.last(),
                VoterEntry {
                    latency_score: (sat_add_unit(e.latency_score as int, up) as i64),
                    last_slot: e.last_slot,
                    last_hash: e.last_hash,
                },
            ),
            None => r2,
        }
    }
}

/// All of a slot's segments applied in arrival order, the low-latency test
/// evaluated against the running count of voters already seen.
pub open spec fn apply_segments(
    rec: Seq<(u64, VoterEntry)>,
    segs: Seq<Seq<u64>>,
    seen: int,
    total: int,
) -> Seq<(u64, VoterEntry)>
    decreases segs.len(),
{
    if segs.len() == 0 {
        rec
    } else {
        apply_segments(
            apply_seg(rec, segs.first(), low_latency(seen, total)),
            segs.drop_first(),
            seen + segs.first().len(),
            total,
        )
    }
}

/// What scoring one slot's segments does to the voter record.
pub open spec fn spec_score_voters(
    rec: Seq<(u64, VoterEntry)>,
    segs: Seq<Seq<u64>>,
) -> Seq<(u64, VoterEntry)> {
    apply_segments(rec, segs, 0, seg_total(segs))
}

/// Every voter of the segment has a tracked entry.
pub open spec fn seg_present(seg: Seq<u64>, rec: Seq<(u64, VoterEntry)>) -> bool {
    forall|q: int| 0 <= q < seg.len() ==> spec_get(rec, #[trigger] seg[q]) is Some
}

/// Every voter of every segment has a tracked entry.
pub open spec fn all_segments_present(segs: Seq<Seq<u64>>, rec: Seq<(u64, VoterEntry)>) -> bool {
    forall|si: int| 0 <= si < segs.len() ==> seg_present(#[trigger] segs[si], rec)
}

/// One point, saturating at the score ceiling.
fn sat_add_unit_exec(x: i64, up: bool) -> (r: i64)
    ensures
        r as int == sat_add_unit(x as int, up),
{
    if up {
        if x < SCORE_NUM_BOUND {
            x + 1
        } else {
            x
        }
    } else {
        if x > -SCORE_NUM_BOUND {
            x - 1
        } else {
            x
        }
    }
}

/// Assigns latency scores for one slot: every voter of a low-latency
/// segment gains a point, every later voter loses one.  Segments are
/// indivisible: all members of a segment move the same way.  A voter
/// without a tracked entry is a checkpoint-ordering bug: nothing is scored
/// and the error is reported.
pub fn score_voters(voters: &Vec<Vec<u64>>, voter_record: &mut VoterRecord) -> (r: Result<
    (),
    LatencyError,
>)
    ensures
        r is Ok <==> all_segments_present(segs_view(voters@), old(voter_record)@),
        r is Ok ==> final(voter_record)@ == spec_score_voters(
            old(voter_record)@,
            segs_view(voters@),
        ),
        r is Err ==> final(voter_record)@ == old(voter_record)@ && r == Err::<
            (),
            LatencyError,
        >(LatencyError::MissingVoter),
{
    let ghost segs = segs_view(voters@);
    let n = voters.len();
    // First pass: every referenced voter must have an entry.
    let mut si: usize = 0;
    while si < n
        invariant
            n == voters@.len(),
            si <= n,
            voter_record@ == old(voter_record)@,
            forall|p: int| 0 <= p < si ==> seg_present(#[trigger] segs_view(voters@)[p], voter_record@),
        decreases n - si,
    {
        let seg = &voters[si];
        let m = seg.len();
        let mut q: usize = 0;
        while q < m
            invariant
                si < voters@.len(),
                m == seg@.len(),
                seg@ == voters@[si as int]@,
                q <= m,
                voter_record@ == old(voter_record)@,
                forall|p: int| 0 <= p < q ==> spec_get(voter_record@, #[trigger] seg@[p]) is Some,
            decreases m - q,
        {
            if voter_record.get_copy(seg[q]).is_none() {
                proof {
                    assert(!seg_present(segs_view(voters@)[si as int], voter_record@));
                    assert(!all_segments_present(segs_view(voters@), voter_record@));
                }
                return Err(LatencyError::MissingVoter);
            }
            q += 1;
        }
        proof {
            assert(seg_present(segs_view(voters@)[si as int], voter_record@));
        }
        si += 1;
    }
    proof {
        assert(all_segments_present(segs_view(voters@), voter_record@));
    }
    // Total voters across segments, for the low-latency threshold.
    let mut total: u128 = 0;
    let mut ti: usize = 0;
    proof {
        assert(segs_view(voters@).subrange(0, 0) =~= Seq::<Seq<u64>>::empty());
    }
    while ti < n
        invariant
            n == voters@.len(),
            ti <= n,
            total as int == seg_total(segs_view(voters@).subrange(0, ti as int)),
            total as int <= (ti as int) * 0x1_0000_0000_0000_0000,
        decreases n - ti,
    {
        proof {
            let pre = segs_view(voters@).subrange(0, ti as int);
            let pre1 = segs_view(voters@).subrange(0, ti as int + 1);
            assert(pre1.drop_last() =~= pre);
            assert(pre1.last() == segs_view(voters@)[ti as int]);
        }
        total = total + (voters[ti].len() as u128);
        ti += 1;
    }
    proof {
        assert(segs_view(voters@).subrange(0, n as int) =~= segs_view(voters@));
    }
    let half: u128 = total / 2;
    let threshold: u128 = if half > 1 {
        half
    } else {
        1
    };
    // Second pass: apply the per-segment differential.
    let ghost rec0 = voter_record@;
    let mut seen: u128 = 0;
    let mut si2: usize = 0;
    proof {
        assert(segs_view(voters@).subrange(0, 0) =~= Seq::<Seq<u64>>::empty());
        assert(segs.skip(0) =~= segs);
    }
    while si2 < n
        invariant
            n == voters@.len(),
            si2 <= n,
            segs == segs_view(voters@),
            seen as int == seg_total(segs.subrange(0, si2 as int)),
            seen <= total,
            total as int == seg_total(segs),
            threshold as int == if seg_total(segs) / 2 > 1 {
                seg_total(segs) / 2
            } else {
                1
            },
            all_segments_present(segs, voter_record@),
            spec_score_voters(rec0, segs) == apply_segments(
                voter_record@,
                segs.skip(si2 as int),
                seen as int,
                total as int,
            ),
        decreases n - si2,
    {
        let up = seen < threshold;
        let seg = &voters[si2];
        let m = seg.len();
        let ghost rec_seg = voter_record@;
        proof {
            assert(seg@ == segs[si2 as int]);
            assert(segs.skip(si2 as int).first() == segs[si2 as int]);
            assert(segs.skip(si2 as int).drop_first() =~= segs.skip(si2 as int + 1));
            assert(seg@.subrange(0, 0) =~= Seq::<u64>::empty());
        }
        let mut q: usize = 0;
        while q < m
            invariant
                si2 < voters@.len(),
                m == seg@.len(),
                seg@ == segs[si2 as int],
                segs == segs_view(voters@),
                q <= m,
                up == low_latency(seg_total(segs.subrange(0, si2 as int)), seg_total(segs)),
                all_segments_present(segs, voter_record@),
                voter_record@ == apply_seg(rec_seg, seg@.subrange(0, q as int), up),
            decreases m - q,
        {
            let ghost rec_pre = voter_record@;
            proof {
                assert(seg@.subrange(0, q as int + 1).drop_last() =~= seg@.subrange(0, q as int));
                assert(seg@.subrange(0, q as int + 1).last() == seg@[q as int]);
            }
            let v = seg[q];
            match voter_record.get_copy(v) {
                Some(e) => {
                    let bumped = VoterEntry {
                        latency_score: sat_add_unit_exec(e.latency_score, up),
                        last_slot: e.last_slot,
                        last_hash: e.last_hash,
                    };
                    voter_record.set(v, bumped);
                    proof {
                        assert forall|sj: int, vq: int|
                            0 <= sj < segs.len() && 0 <= vq < segs[sj].len() implies spec_get(
                            voter_record@,
                            segs[sj][vq],
                        ) is Some by {
                            assert(seg_present(segs[sj], rec_pre));
                            assert(spec_get(rec_pre, segs[sj][vq]) is Some);
                            lemma_spec_set_get(rec_pre, v, bumped, segs[sj][vq]);
                        }
                        assert(all_segments_present(segs, voter_record@));
                    }
                },
                None => {
                    proof {
                        assert(seg_present(segs[si2 as int], rec_pre));
                        assert(spec_get(rec_pre, seg@[q as int]) is Some);
                        assert(false);
                    }
                    return Err(LatencyError::MissingVoter);
                },
            }
            q += 1;
        }
        proof {
            assert(seg@.subrange(0, m as int) =~= seg@);
            let pre = segs.subrange(0, si2 as int);
            let pre1 = segs.subrange(0, si2 as int + 1);
            assert(pre1.drop_last() =~= pre);
            assert(pre1.last() == segs[si2 as int]);
            assert(seen as int + seg@.len() == seg_total(pre1));
            lemma_seg_total_prefix(segs, si2 as int + 1);
        }
        seen = seen + (seg.len() as u128);
        si2 += 1;
    }
    proof {
        assert(segs.skip(n as int) =~= Seq::<Seq<u64>>::empty());
        assert(segs.subrange(0, n as int) =~= segs);
    }
    Ok(())
}

/// The checkpoint's per-slot voter sets merged into the segment history:
/// one new segment per touched slot, in slot order.
pub open spec fn merge_segments(
    segs: Seq<(u64, Seq<Seq<u64>>)>,
    sv: Seq<(u64, Seq<u64>)>,
) -> Seq<(u64, Seq<Seq<u64>>)>
    decreases sv.len(),
{
    if sv.len() == 0 {
        segs
    } else {
        merge_segments(spec_push_segment(segs, sv.first().0, sv.first().1), sv.drop_first())
    }
}

/// The evicted slots scored into the record, oldest first.
pub open spec fn score_evicted(
    rec: Seq<(u64, VoterEntry)>,
    evicted: Seq<(u64, Seq<Seq<u64>>)>,
) -> Seq<(u64, VoterEntry)>
    decreases evicted.len(),
{
    if evicted.len() == 0 {
        rec
    } else {
        score_evicted(spec_score_voters(rec, evicted.first().1), evicted.drop_first())
    }
}

/// Every voter of every evicted slot's segments has a tracked entry.
pub open spec fn evicted_all_present(
    evicted: Seq<(u64, Seq<Seq<u64>>)>,
    rec: Seq<(u64, VoterEntry)>,
) -> bool {
    forall|ei: int|
        0 <= ei < evicted.len() ==> all_segments_present((#[trigger] evicted[ei]).1, rec)
}

/// Scoring a segment never adds or removes voters from the record.
proof fn lemma_apply_seg_domain(rec: Seq<(u64, VoterEntry)>, voters: Seq<u64>, up: bool, k: u64)
    ensures
        spec_get(apply_seg(rec, voters, up), k) is Some <==> spec_get(rec, k) is Some,
    decreases voters.len(),
{
    if voters.len() > 0 {
        lemma_apply_seg_domain(rec, voters.drop_last(), up, k);
        let r2 = apply_seg(rec, voters.drop_last(), up);
        match spec_get(r2, voters.last()) {
            Some(e) => {
                lemma_spec_set_get(
                    r2,
                    voters.last(),
                    VoterEntry {
                        latency_score: (sat_add_unit(e.latency_score as int, up) as i64),
                        last_slot: e.last_slot,
                        last_hash: e.last_hash,
                    },
                    k,
                );
            },
            None => {},
        }
    }
}

/// Scoring a slot never adds or removes voters from the record.
proof fn lemma_apply_segments_domain(
    rec: Seq<(u64, VoterEntry)>,
    segs: Seq<Seq<u64>>,
    seen: int,
    total: int,
    k: u64,
)
    ensures
        spec_get(apply_segments(rec, segs, seen, total), k) is Some <==> spec_get(rec, k) is Some,
    decreases segs.len(),
{
    if segs.len() > 0 {
        lemma_apply_seg_domain(rec, segs.first(), low_latency(seen, total), k);
        lemma_apply_segments_domain(
            apply_seg(rec, segs.first(), low_latency(seen, total)),
            segs.drop_first(),
            seen + segs.first().len(),
            total,
            k,
        );
    }
}

/// Tracks voter latency over one checkpoint: records each account's new
/// votes as one segment per slot, then evicts and scores every slot that
/// has fallen out of the tracking window.  On error -- a scored voter
/// without a tracked entry -- nothing is changed.
pub fn on_entry(
    bank_slot: u64,
    vote_accounts: &Vec<VoteAccountSnapshot>,
    voter_record: &mut VoterRecord,
    slot_voter_segments: &mut SlotVoterSegments,
) -> (r: Result<(), LatencyError>)
    requires
        distinct_voters(vote_accounts@),
        checkpoint_queues_ok(old(voter_record)@, vote_accounts@, bank_slot),
        old(slot_voter_segments).wf(),
    ensures
        final(slot_voter_segments).wf(),
        ({
            let cp = spec_checkpoint(old(voter_record)@, vote_accounts@, bank_slot);
            let merged = merge_segments(old(slot_voter_segments)@, cp.1);
            let evicted = spec_evicted(merged, vote_floor(bank_slot));
            &&& (r is Ok <==> evicted_all_present(evicted, cp.0))
            &&& (r is Ok ==> final(voter_record)@ == score_evicted(cp.0, evicted)
                && final(slot_voter_segments)@ == spec_kept(merged, vote_floor(bank_slot)))
            &&& (r is Err ==> final(voter_record)@ == old(voter_record)@
                && final(slot_voter_segments)@ == old(slot_voter_segments)@ && r == Err::<
                (),
                LatencyError,
            >(LatencyError::MissingVoter))
        }),
{
    let ghost rec_orig = voter_record@;
    let ghost segs_orig = slot_voter_segments@;
    let mut rec_work = voter_record.duplicated();
    let mut segs_work = slot_voter_segments.duplicated();
    let sv = voter_checkpoint(bank_slot, vote_accounts, &mut rec_work);
    let ghost cp = spec_checkpoint(rec_orig, vote_accounts@, bank_slot);
    let ghost merged = merge_segments(segs_orig, cp.1);
    let svn = sv.len();
    let mut i: usize = 0;
    proof {
        assert(sv@.skip(0) =~= sv@);
    }
    while i < svn
        invariant
            svn == sv@.len(),
            i <= svn,
            sv.wf(),
            segs_work.wf(),
            merged == merge_segments(segs_work@, sv@.skip(i as int)),
        decreases svn - i,
    {
        let entry = sv.entry_at(i);
        let seg = crate::utils::copy_u64_vec(entry.1);
        proof {
            assert(sv@.skip(i as int).first() == sv@[i as int]);
            assert(sv@.skip(i as int).drop_first() =~= sv@.skip(i as int + 1));
        }
        segs_work.push_segment(entry.0, seg);
        i += 1;
    }
    proof {
        assert(sv@.skip(svn as int) =~= Seq::<(u64, Seq<u64>)>::empty());
        assert(segs_work@ == merged);
    }
    let floor: u64 = if bank_slot >= MAX_VOTE_DELAY {
        bank_slot - MAX_VOTE_DELAY
    } else {
        0
    };
    let evicted = segs_work.evict_below(floor);
    let ghost ev = crate::slots::entries_view(evicted@);
    let en = evicted.len();
    let mut k: usize = 0;
    proof {
        assert(ev.skip(0) =~= ev);
    }
    while k < en
        invariant
            en == evicted@.len(),
            k <= en,
            voter_record@ == old(voter_record)@,
            slot_voter_segments@ == old(slot_voter_segments)@,
            slot_voter_segments.wf(),
            cp == spec_checkpoint(old(voter_record)@, vote_accounts@, bank_slot),
            merged == merge_segments(old(slot_voter_segments)@, cp.1),
            ev == crate::slots::entries_view(evicted@),
            ev == spec_evicted(merged, vote_floor(bank_slot)),
            score_evicted(cp.0, ev) == score_evicted(rec_work@, ev.skip(k as int)),
            forall|x: u64| spec_get(rec_work@, x) is Some <==> spec_get(cp.0, x) is Some,
            forall|ei: int| 0 <= ei < k ==> all_segments_present((#[trigger] ev[ei]).1, cp.0),
        decreases en - k,
    {
        let ghost rec_pre = rec_work@;
        proof {
            assert(ev.skip(k as int).first() == ev[k as int]);
            assert(ev.skip(k as int).drop_first() =~= ev.skip(k as int + 1));
            assert(ev[k as int].1 == segs_view(evicted@[k as int].1@));
        }
        match score_voters(&evicted[k].1, &mut rec_work) {
            Ok(()) => {
                proof {
                    assert forall|x: u64|
                        spec_get(rec_work@, x) is Some <==> spec_get(cp.0, x) is Some by {
                        lemma_apply_segments_domain(
                            rec_pre,
                            ev[k as int].1,
                            0,
                            seg_total(ev[k as int].1),
                            x,
                        );
                    }
                    assert forall|q: int|
                        0 <= q < ev[k as int].1.len() implies seg_present(
                        #[trigger] ev[k as int].1[q],
                        cp.0,
                    ) by {
                        assert(seg_present(ev[k as int].1[q], rec_pre));
                        assert forall|vq: int|
                            0 <= vq < ev[k as int].1[q].len() implies spec_get(
                            cp.0,
                            #[trigger] ev[k as int].1[q][vq],
                        ) is Some by {
                            assert(spec_get(rec_pre, ev[k as int].1[q][vq]) is Some);
                        }
                    }
                    assert(all_segments_present(ev[k as int].1, cp.0));
                }
            },
            Err(e) => {
                proof {
                    assert(!all_segments_present(ev[k as int].1, rec_pre));
                    let badseg = choose|si: int|
                        0 <= si < ev[k as int].1.len() && !seg_present(
                            #[trigger] ev[k as int].1[si],
                            rec_pre,
                        );
                    let badv = choose|vq: int|
                        0 <= vq < ev[k as int].1[badseg].len() && !(spec_get(
                            rec_pre,
                            #[trigger] ev[k as int].1[badseg][vq],
                        ) is Some);
                    assert(!(spec_get(cp.0, ev[k as int].1[badseg][badv]) is Some));
                    assert(!seg_present(ev[k as int].1[badseg], cp.0));
                    assert(!all_segments_present(ev[k as int].1, cp.0));
                    assert(!evicted_all_present(ev, cp.0));
                }
                return Err(e);
            },
        }
        k += 1;
    }
    proof {
        assert(ev.skip(en as int) =~= Seq::<(u64, Seq<Seq<u64>>)>::empty());
        assert(rec_work@ == score_evicted(cp.0, ev));
        assert(evicted_all_present(ev, cp.0));
    }
    *voter_record = rec_work;
    *slot_voter_segments = segs_work;
    Ok(())
}

/// Every tracked latency score lies within the score bounds.
pub open spec fn scores_bounded(rec: Seq<(u64, VoterEntry)>) -> bool {
    forall|i: int|
        0 <= i < rec.len() ==> -(SCORE_NUM_BOUND as int) <= ((#[trigger] rec[i]).1.latency_score
            as int) <= SCORE_NUM_BOUND as int
}

/// Every vote account's voter has a tracked entry.
pub open spec fn accounts_present(
    accs: Seq<VoteAccountSnapshot>,
    rec: Seq<(u64, VoterEntry)>,
) -> bool {
    forall|i: int| 0 <= i < accs.len() ==> spec_get(rec, (#[trigger] accs[i]).voter_id) is Some
}

/// One vote account folded into the per-node best latency score: a node
/// with several vote accounts keeps its largest score.
pub open spec fn node_latency_step(
    m: Seq<(u64, i64)>,
    rec: Seq<(u64, VoterEntry)>,
    acc: VoteAccountSnapshot,
) -> Seq<(u64, i64)> {
    let sc: i64 = match spec_get(rec, acc.voter_id) {
        Some(e) => e.latency_score,
        None => 0,
    };
    match spec_get(m, acc.node_id) {
        Some(x) => spec_set(
            m,
            acc.node_id,
            if x >= sc {
                x
            } else {
                sc
            },
        ),
        None => spec_set(m, acc.node_id, sc),
    }
}

/// The per-node best latency scores over all vote accounts.
pub open spec fn spec_node_latency(
    rec: Seq<(u64, VoterEntry)>,
    accs: Seq<VoteAccountSnapshot>,
) -> Seq<(u64, i64)>
    decreases accs.len(),
{
    if accs.len() == 0 {
        Seq::empty()
    } else {
        node_latency_step(spec_node_latency(rec, accs.drop_last()), rec, accs.last())
    }
}

/// The non-excluded nodes' latency scores as rationals, in map order.
pub open spec fn spec_latency_filtered(m: Seq<(u64, i64)>, excluded: Seq<u64>) -> Seq<(u64, Score)>
    decreases m.len(),
{
    if m.len() == 0 {
        Seq::empty()
    } else {
        let prev = spec_latency_filtered(m.drop_last(), excluded);
        let p = m.last();
        if excluded.contains(p.0) {
            prev
        } else {
            prev.push((p.0, Score { num: p.1, den: 1u64 }))
        }
    }
}

/// Node scores within the bound give well-formed filtered scores.
proof fn lemma_latency_filtered_wf(m: Seq<(u64, i64)>, excluded: Seq<u64>)
    requires
        forall|i: int|
            0 <= i < m.len() ==> -(SCORE_NUM_BOUND as int) <= ((#[trigger] m[i]).1 as int)
                <= SCORE_NUM_BOUND as int,
    ensures
        all_wf(spec_latency_filtered(m, excluded)),
    decreases m.len(),
{
    if m.len() > 0 {
        let t = m.drop_last();
        assert(forall|q: int| 0 <= q < t.len() ==> t[q] == m[q]);
        lemma_latency_filtered_wf(t, excluded);
        let full = spec_latency_filtered(m, excluded);
        let prev = spec_latency_filtered(t, excluded);
        assert forall|q: int| 0 <= q < full.len() implies (#[trigger] full[q]).1.wf() by {
            if !excluded.contains(m.last().0) {
                if q < prev.len() {
                    assert(full[q] == prev[q]);
                } else {
                    assert(full[q] == (m.last().0, Score { num: m.last().1, den: 1u64 }));
                    assert(m[m.len() - 1] == m.last());
                }
            }
        }
    }
}

/// Resolves each vote account to its node, keeps the best latency score per
/// node, removes the baseline validator's score, filters the excluded set
/// and sorts descending.  Fails if a vote account's voter was never tracked
/// or the baseline validator has no score.
pub fn validator_results(
    baseline_id: u64,
    excluded_set: &Vec<u64>,
    vote_accounts: &Vec<VoteAccountSnapshot>,
    voter_record: &VoterRecord,
) -> (r: Result<(Vec<(u64, Score)>, Score), LatencyError>)
    requires
        scores_bounded(voter_record@),
    ensures
        ({
            let nm = spec_node_latency(voter_record@, vote_accounts@);
            &&& (r is Ok <==> accounts_present(vote_accounts@, voter_record@) && spec_get(
                nm,
                baseline_id,
            ) is Some)
            &&& (r matches Ok(p) ==> p.0@ == sort_desc(
                spec_latency_filtered(spec_remove(nm, baseline_id), excluded_set@),
            ) && p.1 == (Score { num: spec_get(nm, baseline_id)->Some_0, den: 1u64 }) && all_wf(
                p.0@,
            ) && crate::score::sorted_desc(p.0@) && p.1.wf())
            &&& (r == Err::<(Vec<(u64, Score)>, Score), LatencyError>(LatencyError::MissingVoter)
                <==> !accounts_present(vote_accounts@, voter_record@))
            &&& (r == Err::<(Vec<(u64, Score)>, Score), LatencyError>(
                LatencyError::MissingBaseline,
            ) <==> accounts_present(vote_accounts@, voter_record@) && spec_get(
                nm,
                baseline_id,
            ) is None)
        }),
{
    let ghost bound = |x: i64| -(SCORE_NUM_BOUND as int) <= x as int <= SCORE_NUM_BOUND as int;
    let mut nm: KeyMap<i64> = KeyMap::new();
    let n = vote_accounts.len();
    let mut i: usize = 0;
    proof {
        assert(vote_accounts@.subrange(0, 0) =~= Seq::<VoteAccountSnapshot>::empty());
    }
    while i < n
        invariant
            n == vote_accounts@.len(),
            i <= n,
            scores_bounded(voter_record@),
            bound == (|x: i64| -(SCORE_NUM_BOUND as int) <= x as int <= SCORE_NUM_BOUND as int),
            nm@ == spec_node_latency(voter_record@, vote_accounts@.subrange(0, i as int)),
            forall|q: int| 0 <= q < i ==> spec_get(
                voter_record@,
                (#[trigger] vote_accounts@[q]).voter_id,
            ) is Some,
            forall|q: int| 0 <= q < nm@.len() ==> bound((#[trigger] nm@[q]).1),
        decreases n - i,
    {
        let ghost pre = vote_accounts@.subrange(0, i as int);
        let ghost pre1 = vote_accounts@.subrange(0, i as int + 1);
        proof {
            assert(pre1.drop_last() =~= pre);
            assert(pre1.last() == vote_accounts@[i as int]);
        }
        let acc = &vote_accounts[i];
        let sc: i64 = match voter_record.get_copy(acc.voter_id) {
            Some(e) => {
                proof {
                    crate::keymap::lemma_spec_get_preserves(
                        voter_record@,
                        acc.voter_id,
                        |e: VoterEntry|
                            -(SCORE_NUM_BOUND as int) <= e.latency_score as int <= SCORE_NUM_BOUND
                                as int,
                    );
                }
                e.latency_score
            },
            None => {
                proof {
                    assert(!accounts_present(vote_accounts@, voter_record@));
                }
                return Err(LatencyError::MissingVoter);
            },
        };
        let ghost nm_pre = nm@;
        match nm.get_copy(acc.node_id) {
            Some(x) => {
                let kept = if x >= sc {
                    x
                } else {
                    sc
                };
                proof {
                    crate::keymap::lemma_spec_get_preserves(nm_pre, acc.node_id, bound);
                }
                nm.set(acc.node_id, kept);
                proof {
                    crate::keymap::lemma_spec_set_preserves(nm_pre, acc.node_id, kept, bound);
                }
            },
            None => {
                nm.set(acc.node_id, sc);
                proof {
                    crate::keymap::lemma_spec_set_preserves(nm_pre, acc.node_id, sc, bound);
                }
            },
        }
        i += 1;
    }
    proof {
        assert(vote_accounts@.subrange(0, n as int) =~= vote_accounts@);
    }
    let ghost nm_full = nm@;
    let baseline_raw = match nm.remove(baseline_id) {
        Some(x) => x,
        None => {
            return Err(LatencyError::MissingBaseline);
        },
    };
    proof {
        crate::keymap::lemma_spec_get_preserves(nm_full, baseline_id, bound);
        assert forall|q: int| 0 <= q < nm@.len() implies bound((#[trigger] nm@[q]).1) by {
            lemma_remove_keeps_bound(nm_full, baseline_id, bound, q);
        }
    }
    let baseline = Score::from_int(baseline_raw);
    let mut filtered: Vec<(u64, Score)> = Vec::new();
    let m = nm.len();
    let mut j: usize = 0;
    proof {
        assert(nm@.subrange(0, 0) =~= Seq::<(u64, i64)>::empty());
        assert(filtered@ =~= spec_latency_filtered(nm@.subrange(0, 0), excluded_set@));
    }
    while j < m
        invariant
            m == nm@.len(),
            j <= m,
            forall|q: int| 0 <= q < nm@.len() ==> -(SCORE_NUM_BOUND as int) <= ((
            #[trigger] nm@[q]).1 as int) <= SCORE_NUM_BOUND as int,
            filtered@ == spec_latency_filtered(nm@.subrange(0, j as int), excluded_set@),
            all_wf(filtered@),
        decreases m - j,
    {
        let ghost pre = nm@.subrange(0, j as int);
        let ghost pre1 = nm@.subrange(0, j as int + 1);
        proof {
            assert(pre1.drop_last() =~= pre);
            assert(pre1.last() == nm@[j as int]);
        }
        let p = nm.pair_at(j);
        if !vec_contains_u64(excluded_set, p.0) {
            filtered.push((p.0, Score::from_int(p.1)));
        }
        j += 1;
    }
    proof {
        assert(nm@.subrange(0, m as int) =~= nm@);
    }
    let results = sort_desc_exec(&filtered);
    Ok((results, baseline))
}

/// Scoring one segment keeps every latency score within bounds.
proof fn lemma_apply_seg_bounded(rec: Seq<(u64, VoterEntry)>, voters: Seq<u64>, up: bool)
    requires
        scores_bounded(rec),
    ensures
        scores_bounded(apply_seg(rec, voters, up)),
    decreases voters.len(),
{
    let p = |e: VoterEntry|
        -(SCORE_NUM_BOUND as int) <= e.latency_score as int <= SCORE_NUM_BOUND as int;
    if voters.len() > 0 {
        lemma_apply_seg_bounded(rec, voters.drop_last(), up);
        let r2 = apply_seg(rec, voters.drop_last(), up);
        match spec_get(r2, voters.last()) {
            Some(e) => {
                let bumped = VoterEntry {
                    latency_score: (sat_add_unit(e.latency_score as int, up) as i64),
                    last_slot: e.last_slot,
                    last_hash: e.last_hash,
                };
                assert(forall|i: int| 0 <= i < r2.len() ==> p((#[trigger] r2[i]).1));
                crate::keymap::lemma_spec_get_preserves(r2, voters.last(), p);
                crate::keymap::lemma_spec_set_preserves(r2, voters.last(), bumped, p);
            },
            None => {},
        }
    }
}

/// Scoring a slot keeps every latency score within bounds.
proof fn lemma_apply_segments_bounded(
    rec: Seq<(u64, VoterEntry)>,
    segs: Seq<Seq<u64>>,
    seen: int,
    total: int,
)
    requires
        scores_bounded(rec),
    ensures
        scores_bounded(apply_segments(rec, segs, seen, total)),
    decreases segs.len(),
{
    if segs.len() > 0 {
        lemma_apply_seg_bounded(rec, segs.first(), low_latency(seen, total));
        lemma_apply_segments_bounded(
            apply_seg(rec, segs.first(), low_latency(seen, total)),
            segs.drop_first(),
            seen + segs.first().len(),
            total,
        );
    }
}

/// Computes the confirmation-latency winners.
///
/// Nothing is mutated: all still-open segments are scored into a private
/// copy of the voter record, so calling this twice without an intervening
/// checkpoint yields identical output.  Each vote account's voter resolves
/// to its node, a node keeps its best score, the baseline validator's score
/// sets the bucket thresholds, and the baseline and excluded validators
/// leave the results.
pub fn compute_winners(
    vote_accounts: &Vec<VoteAccountSnapshot>,
    baseline_id: u64,
    excluded_set: &Vec<u64>,
    voter_record: &VoterRecord,
    slot_voter_segments: &SlotVoterSegments,
) -> (r: Result<Winners, LatencyError>)
    requires
        scores_bounded(voter_record@),
    ensures
        ({
            let rec1 = score_evicted(voter_record@, slot_voter_segments@);
            let nm = spec_node_latency(rec1, vote_accounts@);
            let ok_path = evicted_all_present(slot_voter_segments@, voter_record@)
                && accounts_present(vote_accounts@, rec1);
            &&& (r == Err::<Winners, LatencyError>(LatencyError::MissingVoter) <==> !ok_path)
            &&& (r == Err::<Winners, LatencyError>(LatencyError::MissingBaseline) <==> ok_path
                && spec_get(nm, baseline_id) is None)
            &&& (r == Err::<Winners, LatencyError>(LatencyError::NegativeBaseline) <==> ok_path
                && spec_get(nm, baseline_id) is Some && spec_get(nm, baseline_id)->Some_0 < 0)
            &&& (r is Ok <==> ok_path && spec_get(nm, baseline_id) is Some && spec_get(
                nm,
                baseline_id,
            )->Some_0 >= 0)
            &&& (r matches Ok(w) ==> {
                let baseline = Score { num: spec_get(nm, baseline_id)->Some_0, den: 1u64 };
                let results = sort_desc(
                    spec_latency_filtered(spec_remove(nm, baseline_id), excluded_set@),
                );
                &&& w.category == crate::winner::Category::ConfirmationLatency(baseline)
                &&& w.top_winners@ == results.subrange(
                    0,
                    if results.len() < 3 {
                        results.len() as int
                    } else {
                        3
                    },
                )
                &&& crate::winner::buckets_view(w.bucket_winners@)
                    == crate::utils::spec_bucket_winners(results, baseline)
            })
        }),
{
    let ghost rec0 = voter_record@;
    let ghost segs = slot_voter_segments@;
    let mut rec_work = voter_record.duplicated();
    let en = slot_voter_segments.len();
    let mut k: usize = 0;
    proof {
        assert(segs.skip(0) =~= segs);
    }
    while k < en
        invariant
            en == slot_voter_segments@.len(),
            k <= en,
            segs == slot_voter_segments@,
            rec0 == voter_record@,
            scores_bounded(rec_work@),
            score_evicted(rec0, segs) == score_evicted(rec_work@, segs.skip(k as int)),
            forall|x: u64| spec_get(rec_work@, x) is Some <==> spec_get(rec0, x) is Some,
            forall|ei: int| 0 <= ei < k ==> all_segments_present((#[trigger] segs[ei]).1, rec0),
        decreases en - k,
    {
        let ghost rec_pre = rec_work@;
        proof {
            assert(segs.skip(k as int).first() == segs[k as int]);
            assert(segs.skip(k as int).drop_first() =~= segs.skip(k as int + 1));
        }
        let entry = slot_voter_segments.entry_at(k);
        match score_voters(entry.1, &mut rec_work) {
            Ok(()) => {
                proof {
                    lemma_apply_segments_bounded(
                        rec_pre,
                        segs[k as int].1,
                        0,
                        seg_total(segs[k as int].1),
                    );
                    assert forall|x: u64|
                        spec_get(rec_work@, x) is Some <==> spec_get(rec0, x) is Some by {
                        lemma_apply_segments_domain(
                            rec_pre,
                            segs[k as int].1,
                            0,
                            seg_total(segs[k as int].1),
                            x,
                        );
                    }
                    assert forall|q: int|
                        0 <= q < segs[k as int].1.len() implies seg_present(
                        #[trigger] segs[k as int].1[q],
                        rec0,
                    ) by {
                        assert(seg_present(segs[k as int].1[q], rec_pre));
                        assert forall|vq: int|
                            0 <= vq < segs[k as int].1[q].len() implies spec_get(
                            rec0,
                            #[trigger] segs[k as int].1[q][vq],
                        ) is Some by {
                            assert(spec_get(rec_pre, segs[k as int].1[q][vq]) is Some);
                        }
                    }
                    assert(all_segments_present(segs[k as int].1, rec0));
                }
            },
            Err(e) => {
                proof {
                    assert(!all_segments_present(segs[k as int].1, rec_pre));
                    let badseg = choose|si: int|
                        0 <= si < segs[k as int].1.len() && !seg_present(
                            #[trigger] segs[k as int].1[si],
                            rec_pre,
                        );
                    let badv = choose|vq: int|
                        0 <= vq < segs[k as int].1[badseg].len() && !(spec_get(
                            rec_pre,
                            #[trigger] segs[k as int].1[badseg][vq],
                        ) is Some);
                    assert(!(spec_get(rec0, segs[k as int].1[badseg][badv]) is Some));
                    assert(!seg_present(segs[k as int].1[badseg], rec0));
                    assert(!all_segments_present(segs[k as int].1, rec0));
                    assert(!evicted_all_present(segs, rec0));
                }
                return Err(e);
            },
        }
        k += 1;
    }
    proof {
        assert(segs.skip(en as int) =~= Seq::<(u64, Seq<Seq<u64>>)>::empty());
        assert(rec_work@ == score_evicted(rec0, segs));
        assert(evicted_all_present(segs, rec0));
    }
    let pair = match validator_results(baseline_id, excluded_set, vote_accounts, &rec_work) {
        Ok(p) => p,
        Err(e) => {
            return Err(e);
        },
    };
    let results = pair.0;
    let baseline = pair.1;
    if baseline.num < 0 {
        return Err(LatencyError::NegativeBaseline);
    }
    let n = results.len();
    let cut = if n < 3 {
        n
    } else {
        3
    };
    let top_winners = crate::utils::copy_range(&results, 0, cut);
    let bucket_winners = crate::utils::bucket_winners(&results, &baseline);
    Ok(
        Winners {
            category: crate::winner::Category::ConfirmationLatency(baseline),
            top_winners,
            bucket_winners,
        },
    )
}

/// Removing a binding keeps every remaining value satisfying `p`.
proof fn lemma_remove_keeps_bound(m: Seq<(u64, i64)>, k: u64, p: spec_fn(i64) -> bool, q: int)
    requires
        forall|i: int| 0 <= i < m.len() ==> p((#[trigger] m[i]).1),
        0 <= q < spec_remove(m, k).len(),
    ensures
        p(spec_remove(m, k)[q].1),
    decreases m.len(),
{
    if m.len() > 0 {
        if m[0].0 == k {
        } else {
            if q >= 1 {
                assert(forall|i: int|
                    0 <= i < m.drop_first().len() ==> m.drop_first()[i] == m[i + 1]);
                lemma_remove_keeps_bound(m.drop_first(), k, p, q - 1);
                assert(spec_remove(m, k)[q] == spec_remove(m.drop_first(), k)[q - 1]);
            }
        }
    }
}

/// One checkpoint of the replay stream: the slot and the full vote-account
/// snapshot observed there.
#[derive(Debug)]
pub struct Checkpoint {
    pub slot: u64,
    pub vote_accounts: Vec<VoteAccountSnapshot>,
}

/// Every checkpoint's accounts carry well-formed vote queues and describe
/// each vote account once.
pub open spec fn checkpoints_ok(cps: Seq<Checkpoint>) -> bool {
    forall|i: int|
        0 <= i < cps.len() ==> queues_ok((#[trigger] cps[i]).vote_accounts@) && distinct_voters(
            cps[i].vote_accounts@,
        )
}

/// What applying the remaining checkpoints, in order, does to the latency
/// state; `None` when a scored voter was never tracked.
pub open spec fn spec_replay_from(
    rec: Seq<(u64, VoterEntry)>,
    segs: Seq<(u64, Seq<Seq<u64>>)>,
    cps: Seq<Checkpoint>,
) -> Option<(Seq<(u64, VoterEntry)>, Seq<(u64, Seq<Seq<u64>>)>)>
    decreases cps.len(),
{
    if cps.len() == 0 {
        Some((rec, segs))
    } else {
        let c = cps.first();
        let cp = spec_checkpoint(rec, c.vote_accounts@, c.slot);
        let merged = merge_segments(segs, cp.1);
        let evicted = spec_evicted(merged, vote_floor(c.slot));
        if evicted_all_present(evicted, cp.0) {
            spec_replay_from(
                score_evicted(cp.0, evicted),
                spec_kept(merged, vote_floor(c.slot)),
                cps.drop_first(),
            )
        } else {
            None
        }
    }
}

/// Replays a whole checkpoint sequence from an empty state.
///
/// The final state is a function of the checkpoint sequence alone, so
/// re-running the same sequence from scratch reproduces identical final
/// scores.
pub fn replay(checkpoints: &Vec<Checkpoint>) -> (r: Result<
    (VoterRecord, SlotVoterSegments),
    LatencyError,
>)
    requires
        checkpoints_ok(checkpoints@),
    ensures
        ({
            let outcome = spec_replay_from(
                Seq::empty(),
                Seq::empty(),
                checkpoints@,
            );
            &&& (r is Ok <==> outcome is Some)
            &&& (r matches Ok(p) ==> outcome == Some((p.0@, p.1@)) && p.1.wf())
            &&& (r is Err ==> r == Err::<(VoterRecord, SlotVoterSegments), LatencyError>(
                LatencyError::MissingVoter,
            ))
        }),
{
    let mut record: VoterRecord = KeyMap::new();
    let mut segments: SlotVoterSegments = SlotVoterSegments::new();
    let n = checkpoints.len();
    let mut i: usize = 0;
    proof {
        assert(checkpoints@.skip(0) =~= checkpoints@);
    }
    while i < n
        invariant
            n == checkpoints@.len(),
            i <= n,
            checkpoints_ok(checkpoints@),
            segments.wf(),
            spec_replay_from(Seq::empty(), Seq::empty(), checkpoints@) == spec_replay_from(
                record@,
                segments@,
                checkpoints@.skip(i as int),
            ),
        decreases n - i,
    {
        proof {
            assert(checkpoints@.skip(i as int).first() == checkpoints@[i as int]);
            assert(checkpoints@.skip(i as int).drop_first() =~= checkpoints@.skip(i as int + 1));
            lemma_queues_ok_checkpoint(
                record@,
                checkpoints@[i as int].vote_accounts@,
                checkpoints@[i as int].slot,
            );
        }
        let c = &checkpoints[i];
        match on_entry(c.slot, &c.vote_accounts, &mut record, &mut segments) {
            Ok(()) => {},
            Err(e) => {
                return Err(e);
            },
        }
        i += 1;
    }
    proof {
        assert(checkpoints@.skip(n as int) =~= Seq::<Checkpoint>::empty());
    }
    Ok((record, segments))
}

/// Replay is deterministic: two runs over equal checkpoint sequences from
/// equal starting states end in the same state.  With the exec `replay`
/// pinned to `spec_replay_from`, re-running the same sequence from scratch
/// must reproduce identical final scores.
pub proof fn lemma_replay_deterministic(
    rec1: Seq<(u64, VoterEntry)>,
    segs1: Seq<(u64, Seq<Seq<u64>>)>,
    cps1: Seq<Checkpoint>,
    rec2: Seq<(u64, VoterEntry)>,
    segs2: Seq<(u64, Seq<Seq<u64>>)>,
    cps2: Seq<Checkpoint>,
)
    requires
        rec1 == rec2,
        segs1 == segs2,
        cps1 == cps2,
    ensures
        spec_replay_from(rec1, segs1, cps1) == spec_replay_from(rec2, segs2, cps2),
{
}

/// Computing winners is idempotent: the outcome is a function of the
/// record view, the segment view and the arguments alone, and the state is
/// taken by shared reference, so two calls without an intervening
/// checkpoint see the same views and return identical output.
pub proof fn lemma_compute_winners_idempotent(
    rec1: Seq<(u64, VoterEntry)>,
    segs1: Seq<(u64, Seq<Seq<u64>>)>,
    rec2: Seq<(u64, VoterEntry)>,
    segs2: Seq<(u64, Seq<Seq<u64>>)>,
    accs: Seq<VoteAccountSnapshot>,
)
    requires
        rec1 == rec2,
        segs1 == segs2,
    ensures
        score_evicted(rec1, segs1) == score_evicted(rec2, segs2),
        spec_node_latency(score_evicted(rec1, segs1), accs) == spec_node_latency(
            score_evicted(rec2, segs2),
            accs,
        ),
{
}

/// No sequence of distinct voters holds the same voter twice.
pub open spec fn distinct_seq(s: Seq<u64>) -> bool {
    forall|i: int, j: int| 0 <= i < j < s.len() ==> s[i] != s[j]
}

/// What one segment does to one voter: a present voter named once moves by
/// exactly one point; an unnamed voter is untouched.
proof fn lemma_apply_seg_effect(
    rec: Seq<(u64, VoterEntry)>,
    voters: Seq<u64>,
    up: bool,
    v: u64,
)
    requires
        distinct_seq(voters),
        seg_present(voters, rec),
    ensures
        voters.contains(v) ==> spec_get(rec, v) is Some && spec_get(apply_seg(rec, voters, up), v)
            == Some(
            VoterEntry {
                latency_score: (sat_add_unit(
                    spec_get(rec, v)->Some_0.latency_score as int,
                    up,
                ) as i64),
                last_slot: spec_get(rec, v)->Some_0.last_slot,
                last_hash: spec_get(rec, v)->Some_0.last_hash,
            },
        ),
        !voters.contains(v) ==> spec_get(apply_seg(rec, voters, up), v) == spec_get(rec, v),
    decreases voters.len(),
{
    if voters.len() > 0 {
        let t = voters.drop_last();
        let w = voters.last();
        assert(forall|q: int| 0 <= q < t.len() ==> t[q] == voters[q]);
        assert(seg_present(t, rec));
        lemma_apply_seg_effect(rec, t, up, v);
        lemma_apply_seg_effect(rec, t, up, w);
        let r2 = apply_seg(rec, t, up);
        assert(voters[voters.len() - 1] == w);
        assert(voters.contains(w));
        assert(!t.contains(w)) by {
            if t.contains(w) {
                let q = choose|q: int| 0 <= q < t.len() && t[q] == w;
                assert(voters[q] == voters[voters.len() - 1]);
                assert(false);
            }
        }
        assert(spec_get(r2, w) == spec_get(rec, w));
        assert(spec_get(rec, w) is Some);
        let e = spec_get(r2, w)->Some_0;
        let bumped = VoterEntry {
            latency_score: (sat_add_unit(e.latency_score as int, up) as i64),
            last_slot: e.last_slot,
            last_hash: e.last_hash,
        };
        lemma_spec_set_get(r2, w, bumped, v);
        if voters.contains(v) {
            if v != w {
                assert(t.contains(v)) by {
                    let q = choose|q: int| 0 <= q < voters.len() && voters[q] == v;
                    assert(q < voters.len() - 1);
                    assert(t[q] == v);
                }
            }
        } else {
            assert(!t.contains(v)) by {
                if t.contains(v) {
                    let q = choose|q: int| 0 <= q < t.len() && t[q] == v;
                    assert(voters[q] == v);
                }
            }
            assert(v != w);
        }
    }
}

/// The two-segment scoring law.  For a slot observed as exactly two
/// segments, every voter of the first segment earns one point -- the first
/// segment is always low latency -- and every voter of the second earns a
/// point when the first segment holds fewer than `max(1, total/2)` voters,
/// and loses one otherwise: the segment moves as a whole.
pub proof fn lemma_two_segment_scores(
    rec: Seq<(u64, VoterEntry)>,
    s1: Seq<u64>,
    s2: Seq<u64>,
    v: u64,
)
    requires
        distinct_seq(s1),
        distinct_seq(s2),
        forall|i: int, j: int|
            0 <= i < s1.len() && 0 <= j < s2.len() ==> #[trigger] s1[i] != #[trigger] s2[j],
        seg_present(s1, rec),
        seg_present(s2, rec),
    ensures
        s1.contains(v) ==> spec_get(rec, v) is Some && spec_get(
            spec_score_voters(rec, seq![s1, s2]),
            v,
        ) is Some && (spec_get(spec_score_voters(rec, seq![s1, s2]), v)->Some_0.latency_score
            as int) == sat_add_unit(spec_get(rec, v)->Some_0.latency_score as int, true),
        s2.contains(v) ==> spec_get(rec, v) is Some && spec_get(
            spec_score_voters(rec, seq![s1, s2]),
            v,
        ) is Some && (spec_get(spec_score_voters(rec, seq![s1, s2]), v)->Some_0.latency_score
            as int) == sat_add_unit(
            spec_get(rec, v)->Some_0.latency_score as int,
            low_latency(s1.len() as int, s1.len() + s2.len() as int),
        ),
{
    let segs = seq![s1, s2];
    reveal_with_fuel(seg_total, 4);
    reveal_with_fuel(apply_segments, 4);
    assert(seg_total(segs) == s1.len() + s2.len()) by {
        assert(segs.drop_last() =~= seq![s1]);
        assert(seq![s1].drop_last() =~= Seq::<Seq<u64>>::empty());
        assert(seg_total(Seq::<Seq<u64>>::empty()) == 0);
    }
    let total = s1.len() + s2.len() as int;
    assert(low_latency(0, seg_total(segs)));
    let r1 = apply_seg(rec, s1, true);
    assert(segs.first() == s1);
    assert(segs.drop_first() =~= seq![s2]);
    assert(seq![s2].first() == s2);
    assert(seq![s2].drop_first() =~= Seq::<Seq<u64>>::empty());
    let up2 = low_latency(s1.len() as int, seg_total(segs));
    let r2 = apply_seg(r1, s2, up2);
    assert(spec_score_voters(rec, segs) == r2);
    assert(seg_present(s2, r1)) by {
        assert forall|q: int| 0 <= q < s2.len() implies spec_get(r1, #[trigger] s2[q]) is Some by {
            lemma_apply_seg_effect(rec, s1, true, s2[q]);
        }
    }
    if s1.contains(v) {
        lemma_apply_seg_effect(rec, s1, true, v);
        lemma_apply_seg_effect(r1, s2, up2, v);
        assert(!s2.contains(v)) by {
            if s2.contains(v) {
                let q = choose|q: int| 0 <= q < s2.len() && s2[q] == v;
                let p = choose|p: int| 0 <= p < s1.len() && s1[p] == v;
                assert(s1[p] != s2[q]);
            }
        }
    }
    if s2.contains(v) {
        assert(!s1.contains(v)) by {
            if s1.contains(v) {
                let q = choose|q: int| 0 <= q < s2.len() && s2[q] == v;
                let p = choose|p: int| 0 <= p < s1.len() && s1[p] == v;
                assert(s1[p] != s2[q]);
            }
        }
        lemma_apply_seg_effect(rec, s1, true, v);
        lemma_apply_seg_effect(r1, s2, up2, v);
    }
}

} // verus!
