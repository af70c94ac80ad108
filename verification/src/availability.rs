//! The "highest availability" category: each validator's vote credits
//! divided by a baseline credit total plus a weighted penalty for every
//! leader slot it missed.
//!
//! The realized block chain is walked newest to oldest; every slot between
//! two consecutive chain entries was skipped by its scheduled leader and
//! counts as missed.

use vstd::prelude::*;

use crate::account::VoteAccountSnapshot;
use crate::keymap::KeyMap;
use crate::keymap::lemma_spec_get_preserves;
use crate::keymap::lemma_spec_get_value_le;
use crate::keymap::lemma_spec_remove_values_le;
use crate::keymap::lemma_spec_set_preserves;
use crate::keymap::lemma_spec_set_values_le;
use crate::keymap::spec_get;
use crate::keymap::spec_remove;
use crate::keymap::spec_set;
use crate::keymap::values_le;
use crate::score::SCORE_DEN_BOUND;
use crate::score::SCORE_NUM_BOUND;
use crate::score::Score;
use crate::score::all_nums_nonneg;
use crate::score::all_wf;
use crate::score::lemma_sort_desc_nonneg;
use crate::score::lemma_sort_desc_sorted;
use crate::score::sort_desc;
use crate::score::sort_desc_exec;
use crate::utils::copy_range;
use crate::utils::vec_contains_u64;
use crate::winner::Category;
use crate::winner::Winners;
use crate::winner::buckets_view;

verus! {

/// One missed leader slot weighs as heavily as this many missed votes.
pub const MISSED_LEADER_SLOT_WEIGHT: u64 = 10;

/// A validator's record as slot leader: how many of its scheduled slots it
/// missed, out of how many in total.
#[derive(Debug, Clone, Copy, PartialEq, Eq, Structural)]
pub struct LeaderStat {
    pub missed_slots: u64,
    pub total_slots: u64,
}

impl LeaderStat {
    /// A record with one scheduled slot, missed or not.
    pub fn new(missed: bool) -> (r: LeaderStat)
        ensures
            r == (LeaderStat {
                missed_slots: if missed {
                    1u64
                } else {
                    0u64
                },
                total_slots: 1u64,
            }),
    {
        LeaderStat { missed_slots: if missed { 1 } else { 0 }, total_slots: 1 }
    }
}

/// One vote account folded into the per-node credit map: a node with
/// several vote accounts keeps its largest credit count, never a sum.
pub open spec fn credits_step(m: Seq<(u64, u64)>, acc: VoteAccountSnapshot) -> Seq<(u64, u64)> {
    match spec_get(m, acc.node_id) {
        Some(c) => spec_set(
            m,
            acc.node_id,
            if c >= acc.credits {
                c
            } else {
                acc.credits
            },
        ),
        None => spec_set(m, acc.node_id, acc.credits),
    }
}

/// The per-node vote credits over all vote accounts.
pub open spec fn spec_validator_credits(accs: Seq<VoteAccountSnapshot>) -> Seq<(u64, u64)>
    decreases accs.len(),
{
    if accs.len() == 0 {
        Seq::empty()
    } else {
        credits_step(spec_validator_credits(accs.drop_last()), accs.last())
    }
}

/// Collects each node's largest vote-credit count.
pub fn validator_credits(vote_accounts: &Vec<VoteAccountSnapshot>) -> (r: KeyMap<u64>)
    ensures
        r@ == spec_validator_credits(vote_accounts@),
{
    let mut r: KeyMap<u64> = KeyMap::new();
    let n = vote_accounts.len();
    let mut i: usize = 0;
    proof {
        assert(vote_accounts@.subrange(0, 0) =~= Seq::<VoteAccountSnapshot>::empty());
    }
    while i < n
        invariant
            n == vote_accounts@.len(),
            i <= n,
            r@ == spec_validator_credits(vote_accounts@.subrange(0, i as int)),
        decreases n - i,
    {
        let ghost pre = vote_accounts@.subrange(0, i as int);
        let ghost pre1 = vote_accounts@.subrange(0, i as int + 1);
        proof {
            assert(pre1.drop_last() =~= pre);
            assert(pre1.last() == vote_accounts@[i as int]);
        }
        let acc = &vote_accounts[i];
        match r.get_copy(acc.node_id) {
            Some(c) => {
                let kept = if c >= acc.credits {
                    c
                } else {
                    acc.credits
                };
                r.set(acc.node_id, kept);
            },
            None => {
                r.set(acc.node_id, acc.credits);
            },
        }
        i += 1;
    }
    proof {
        assert(vote_accounts@.subrange(0, n as int) =~= vote_accounts@);
    }
    r
}

/// The skipped slots strictly between `p` and `last`, newest first, each
/// marked missed.
pub open spec fn gap_slots(p: int, last: int) -> Seq<(u64, bool)>
    decreases last - p,
{
    if last > p + 1 {
        seq![(((last - 1) as u64), true)] + gap_slots(p, last - 1)
    } else {
        Seq::empty()
    }
}

/// The slots the chain walk counts, newest to oldest: each realized block
/// (but slot 0), unmarked, and each gap slot, marked missed.
pub open spec fn spec_counted_slots(chain: Seq<u64>, last: u64) -> Seq<(u64, bool)>
    decreases chain.len(),
{
    if chain.len() == 0 {
        Seq::empty()
    } else {
        let p = chain.last();
        (if p > 0 {
            seq![(p, false)]
        } else {
            Seq::empty()
        }) + gap_slots(p as int, last as int) + spec_counted_slots(chain.drop_last(), p)
    }
}

/// Shrinking a gap from the low end removes its lowest slot.
proof fn lemma_gap_slots_snoc(p: int, last: int)
    requires
        0 <= p,
        last <= u64::MAX as int,
        last >= p + 2,
    ensures
        gap_slots(p, last) == gap_slots(p + 1, last).push((((p + 1) as u64), true)),
    decreases last - p,
{
    if last == p + 2 {
        assert(gap_slots(p, last) == seq![(((last - 1) as u64), true)] + gap_slots(p, last - 1));
        assert(gap_slots(p, last - 1) == Seq::<(u64, bool)>::empty());
        assert(gap_slots(p + 1, last) == Seq::<(u64, bool)>::empty());
        assert(gap_slots(p, last) =~= gap_slots(p + 1, last).push((((p + 1) as u64), true)));
    } else {
        lemma_gap_slots_snoc(p, last - 1);
        assert(gap_slots(p, last) == seq![(((last - 1) as u64), true)] + gap_slots(p, last - 1));
        assert(gap_slots(p + 1, last) == seq![(((last - 1) as u64), true)] + gap_slots(
            p + 1,
            last - 1,
        ));
        assert(gap_slots(p, last) =~= gap_slots(p + 1, last).push((((p + 1) as u64), true)));
    }
}

/// A gap holds one entry per skipped slot.
proof fn lemma_gap_slots_len(p: int, last: int)
    ensures
        gap_slots(p, last).len() == if last > p + 1 {
            last - p - 1
        } else {
            0
        },
    decreases last - p,
{
    if last > p + 1 {
        lemma_gap_slots_len(p, last - 1);
    }
}

/// When every chain slot is strictly below `last`, the walk counts fewer
/// than `last` slots.
proof fn lemma_counted_slots_len_strict(chain: Seq<u64>, last: u64)
    requires
        forall|i: int, j: int|
            0 <= i < j < chain.len() ==> #[trigger] chain[i] < #[trigger] chain[j],
        forall|i: int| 0 <= i < chain.len() ==> #[trigger] chain[i] < last,
    ensures
        spec_counted_slots(chain, last).len() <= if last > 0 {
            last as int - 1
        } else {
            0
        },
    decreases chain.len(),
{
    if chain.len() > 0 {
        let p = chain.last();
        let t = chain.drop_last();
        assert(forall|i: int| 0 <= i < t.len() ==> #[trigger] t[i] == chain[i]);
        lemma_counted_slots_len_strict(t, p);
        lemma_gap_slots_len(p as int, last as int);
    }
}

/// The walk counts at most `last` slots: every counted slot is distinct and
/// lies in `(0, last]`.
proof fn lemma_counted_slots_len(chain: Seq<u64>, last: u64)
    requires
        forall|i: int, j: int|
            0 <= i < j < chain.len() ==> #[trigger] chain[i] < #[trigger] chain[j],
        forall|i: int| 0 <= i < chain.len() ==> #[trigger] chain[i] <= last,
    ensures
        spec_counted_slots(chain, last).len() <= last,
    decreases chain.len(),
{
    if chain.len() > 0 {
        let p = chain.last();
        let t = chain.drop_last();
        assert(forall|i: int| 0 <= i < t.len() ==> #[trigger] t[i] == chain[i]);
        lemma_gap_slots_len(p as int, last as int);
        if p < last {
            lemma_counted_slots_len_strict(chain, last);
        } else {
            lemma_counted_slots_len_strict(t, p);
        }
    }
}

/// Walks the chain newest to oldest and lists every counted slot: each
/// realized block above slot 0 and, between consecutive chain entries,
/// every skipped slot marked missed.
pub fn counted_slots(current_slot: u64, block_chain: &Vec<u64>) -> (r: Vec<(u64, bool)>)
    requires
        current_slot < u64::MAX,
        forall|i: int, j: int|
            0 <= i < j < block_chain@.len() ==> #[trigger] block_chain@[i]
                < #[trigger] block_chain@[j],
        forall|i: int| 0 <= i < block_chain@.len() ==> #[trigger] block_chain@[i] <= current_slot,
    ensures
        r@ == spec_counted_slots(block_chain@, current_slot),
{
    let mut r: Vec<(u64, bool)> = Vec::new();
    let mut j: usize = block_chain.len();
    let mut last: u64 = current_slot;
    proof {
        assert(block_chain@.subrange(0, j as int) =~= block_chain@);
        assert(spec_counted_slots(block_chain@, current_slot) =~= r@ + spec_counted_slots(
            block_chain@.subrange(0, j as int),
            last,
        ));
    }
    while j > 0
        invariant
            j <= block_chain@.len(),
            current_slot < u64::MAX,
            last <= current_slot,
            forall|i: int, jj: int|
                0 <= i < jj < block_chain@.len() ==> #[trigger] block_chain@[i]
                    < #[trigger] block_chain@[jj],
            forall|i: int| 0 <= i < j ==> #[trigger] block_chain@[i] <= last,
            spec_counted_slots(block_chain@, current_slot) == r@ + spec_counted_slots(
                block_chain@.subrange(0, j as int),
                last,
            ),
        decreases j,
    {
        let ghost pre = block_chain@.subrange(0, j as int);
        let ghost rpre = r@;
        let p = block_chain[j - 1];
        proof {
            assert(pre.last() == p);
            assert(pre.drop_last() =~= block_chain@.subrange(0, j as int - 1));
        }
        if p > 0 {
            r.push((p, false));
        }
        let ghost rbase = r@;
        proof {
            assert(rbase =~= rpre + (if p > 0 {
                seq![(p, false)]
            } else {
                Seq::<(u64, bool)>::empty()
            }));
            assert(gap_slots(last as int - 1, last as int) =~= Seq::<(u64, bool)>::empty());
        }
        let mut g: u64 = last;
        while g > p + 1
            invariant
                p <= last <= current_slot,
                current_slot < u64::MAX,
                p < g <= last || (g == last && last <= p + 1),
                r@ == rbase + gap_slots(g as int - 1, last as int),
            decreases g,
        {
            g = g - 1;
            r.push((g, true));
            proof {
                lemma_gap_slots_snoc(g as int - 1, last as int);
            }
        }
        proof {
            if last > p + 1 {
                assert(g == p + 1);
                assert(r@ == rbase + gap_slots(p as int, last as int));
            } else {
                assert(gap_slots(p as int, last as int) =~= Seq::<(u64, bool)>::empty());
                assert(r@ =~= rbase + gap_slots(p as int, last as int));
            }
            assert(r@ =~= rpre + ((if p > 0 {
                seq![(p, false)]
            } else {
                Seq::<(u64, bool)>::empty()
            }) + gap_slots(p as int, last as int)));
            assert(spec_counted_slots(pre, last) == ((if p > 0 {
                seq![(p, false)]
            } else {
                Seq::<(u64, bool)>::empty()
            }) + gap_slots(p as int, last as int)) + spec_counted_slots(pre.drop_last(), p));
            assert(spec_counted_slots(block_chain@, current_slot) =~= r@ + spec_counted_slots(
                block_chain@.subrange(0, j as int - 1),
                p,
            ));
        }
        last = p;
        j -= 1;
    }
    proof {
        assert(block_chain@.subrange(0, 0) =~= Seq::<u64>::empty());
        assert(spec_counted_slots(Seq::<u64>::empty(), last) =~= Seq::<(u64, bool)>::empty());
        assert(spec_counted_slots(block_chain@, current_slot) =~= r@);
    }
    r
}

/// The number of trailing blocks whose vote credits cannot yet have
/// finalized; they are discounted from the baseline credit total.
pub const CONFIRMATION_DEPTH: u64 = 31;

/// Every stat covers at most `b` slots, missed ones included.
pub open spec fn stats_bounded(m: Seq<(u64, LeaderStat)>, b: int) -> bool {
    forall|i: int|
        0 <= i < m.len() ==> ((#[trigger] m[i]).1.total_slots as int) <= b
            && m[i].1.missed_slots <= m[i].1.total_slots
}

/// One counted slot folded into the per-leader stats.
pub open spec fn tally_step(m: Seq<(u64, LeaderStat)>, leader: u64, missed: bool) -> Seq<
    (u64, LeaderStat),
> {
    match spec_get(m, leader) {
        Some(st) => spec_set(
            m,
            leader,
            LeaderStat {
                missed_slots: if missed {
                    ((st.missed_slots + 1) as u64)
                } else {
                    st.missed_slots
                },
                total_slots: ((st.total_slots + 1) as u64),
            },
        ),
        None => spec_set(
            m,
            leader,
            LeaderStat {
                missed_slots: if missed {
                    1u64
                } else {
                    0u64
                },
                total_slots: 1u64,
            },
        ),
    }
}

/// The per-leader stats over a list of counted slots.
pub open spec fn spec_tally(counted: Seq<(u64, bool)>, leaders: Seq<u64>) -> Seq<(u64, LeaderStat)>
    decreases counted.len(),
{
    if counted.len() == 0 {
        Seq::empty()
    } else {
        let c = counted.last();
        tally_step(spec_tally(counted.drop_last(), leaders), leaders[c.0 as int], c.1)
    }
}

/// The per-leader stats for the whole chain walk.
pub open spec fn spec_leader_stats(chain: Seq<u64>, current_slot: u64, leaders: Seq<u64>) -> Seq<
    (u64, LeaderStat),
> {
    spec_tally(spec_counted_slots(chain, current_slot), leaders)
}

/// A tally over `n` counted slots gives no leader more than `n` slots.
proof fn lemma_tally_bounded(counted: Seq<(u64, bool)>, leaders: Seq<u64>)
    requires
        counted.len() <= u64::MAX as int,
    ensures
        stats_bounded(spec_tally(counted, leaders), counted.len() as int),
    decreases counted.len(),
{
    if counted.len() > 0 {
        let t = counted.drop_last();
        let c = counted.last();
        let leader = leaders[c.0 as int];
        lemma_tally_bounded(t, leaders);
        let prev = spec_tally(t, leaders);
        let p = |st: LeaderStat|
            (st.total_slots as int) <= counted.len() as int && st.missed_slots <= st.total_slots;
        assert(forall|i: int| 0 <= i < prev.len() ==> p((#[trigger] prev[i]).1));
        match spec_get(prev, leader) {
            Some(st) => {
                lemma_spec_get_preserves(
                    prev,
                    leader,
                    |st: LeaderStat|
                        (st.total_slots as int) <= t.len() as int && st.missed_slots
                            <= st.total_slots,
                );
                lemma_spec_set_preserves(
                    prev,
                    leader,
                    LeaderStat {
                        missed_slots: if c.1 {
                            ((st.missed_slots + 1) as u64)
                        } else {
                            st.missed_slots
                        },
                        total_slots: ((st.total_slots + 1) as u64),
                    },
                    p,
                );
            },
            None => {
                lemma_spec_set_preserves(
                    prev,
                    leader,
                    LeaderStat {
                        missed_slots: if c.1 {
                            1u64
                        } else {
                            0u64
                        },
                        total_slots: 1u64,
                    },
                    p,
                );
            },
        }
    }
}

/// Every counted slot lies within the walked range.
proof fn lemma_counted_slots_range(chain: Seq<u64>, last: u64)
    requires
        forall|i: int, j: int|
            0 <= i < j < chain.len() ==> #[trigger] chain[i] < #[trigger] chain[j],
        forall|i: int| 0 <= i < chain.len() ==> #[trigger] chain[i] <= last,
    ensures
        forall|q: int|
            0 <= q < spec_counted_slots(chain, last).len() ==> (#[trigger] spec_counted_slots(
                chain,
                last,
            )[q]).0 <= last,
    decreases chain.len(),
{
    if chain.len() > 0 {
        let p = chain.last();
        let t = chain.drop_last();
        assert(forall|i: int| 0 <= i < t.len() ==> #[trigger] t[i] == chain[i]);
        lemma_counted_slots_range(t, p);
        lemma_gap_slots_le(p as int, last as int);
        assert forall|q: int| 0 <= q < spec_counted_slots(chain, last).len() implies (
        #[trigger] spec_counted_slots(chain, last)[q]).0 <= last by {
            let head = (if p > 0 {
                seq![(p, false)]
            } else {
                Seq::<(u64, bool)>::empty()
            }) + gap_slots(p as int, last as int);
            if q >= head.len() {
                assert(spec_counted_slots(chain, last)[q] == spec_counted_slots(t, p)[q
                    - head.len()]);
            }
        }
    }
}

/// Every gap slot is below `last`.
proof fn lemma_gap_slots_le(p: int, last: int)
    requires
        0 <= p,
        last <= u64::MAX as int,
    ensures
        forall|q: int|
            0 <= q < gap_slots(p, last).len() ==> ((#[trigger] gap_slots(p, last)[q]).0 as int)
                < last,
    decreases last - p,
{
    if last > p + 1 {
        lemma_gap_slots_le(p, last - 1);
        assert forall|q: int| 0 <= q < gap_slots(p, last).len() implies ((#[trigger] gap_slots(
            p,
            last,
        )[q]).0 as int) < last by {
            if q >= 1 {
                assert(gap_slots(p, last)[q] == gap_slots(p, last - 1)[q - 1]);
            }
        }
    }
}

/// Folds the counted slots into per-leader totals.
fn tally_leader_stats(counted: &Vec<(u64, bool)>, leaders: &Vec<u64>) -> (r: KeyMap<LeaderStat>)
    requires
        counted@.len() <= u64::MAX as int,
        forall|q: int| 0 <= q < counted@.len() ==> ((#[trigger] counted@[q]).0 as int) < leaders@.len(),
    ensures
        r@ == spec_tally(counted@, leaders@),
{
    let mut r: KeyMap<LeaderStat> = KeyMap::new();
    let n = counted.len();
    let llen = leaders.len();
    let mut i: usize = 0;
    proof {
        assert(counted@.subrange(0, 0) =~= Seq::<(u64, bool)>::empty());
    }
    while i < n
        invariant
            n == counted@.len(),
            llen == leaders@.len(),
            i <= n,
            n <= u64::MAX as int,
            forall|q: int|
                0 <= q < counted@.len() ==> ((#[trigger] counted@[q]).0 as int) < leaders@.len(),
            r@ == spec_tally(counted@.subrange(0, i as int), leaders@),
            stats_bounded(r@, i as int),
        decreases n - i,
    {
        let ghost pre = counted@.subrange(0, i as int);
        let ghost pre1 = counted@.subrange(0, i as int + 1);
        proof {
            assert(pre1.drop_last() =~= pre);
            assert(pre1.last() == counted@[i as int]);
            lemma_tally_bounded(pre1, leaders@);
        }
        let (slot, missed) = counted[i];
        proof {
            assert((slot as int) < leaders@.len());
            assert((slot as usize) as int == slot as int);
        }
        let leader = leaders[slot as usize];
        match r.get_copy(leader) {
            Some(st) => {
                proof {
                    lemma_spec_get_preserves(
                        r@,
                        leader,
                        |st: LeaderStat|
                            (st.total_slots as int) <= i as int && st.missed_slots
                                <= st.total_slots,
                    );
                }
                let bumped = LeaderStat {
                    missed_slots: if missed {
                        st.missed_slots + 1
                    } else {
                        st.missed_slots
                    },
                    total_slots: st.total_slots + 1,
                };
                r.set(leader, bumped);
            },
            None => {
                r.set(leader, LeaderStat::new(missed));
            },
        }
        i += 1;
    }
    proof {
        assert(counted@.subrange(0, n as int) =~= counted@);
    }
    r
}

/// Builds each validator's leader record by walking the realized chain:
/// slots it led and produced, and slots it was scheduled for but skipped.
/// `leaders` gives the scheduled leader of every slot up to `current_slot`.
pub fn validator_leader_stats(
    current_slot: u64,
    block_chain: &Vec<u64>,
    leaders: &Vec<u64>,
) -> (r: KeyMap<LeaderStat>)
    requires
        current_slot < u64::MAX,
        current_slot < leaders@.len(),
        forall|i: int, j: int|
            0 <= i < j < block_chain@.len() ==> #[trigger] block_chain@[i]
                < #[trigger] block_chain@[j],
        forall|i: int| 0 <= i < block_chain@.len() ==> #[trigger] block_chain@[i] <= current_slot,
    ensures
        r@ == spec_leader_stats(block_chain@, current_slot, leaders@),
        stats_bounded(r@, current_slot as int),
{
    let counted = counted_slots(current_slot, block_chain);
    proof {
        lemma_counted_slots_len(block_chain@, current_slot);
        lemma_counted_slots_range(block_chain@, current_slot);
        lemma_tally_bounded(counted@, leaders@);
    }
    tally_leader_stats(&counted, leaders)
}

/// A validator's availability score: vote credits over the weighted missed
/// leader slots plus the baseline credit total.
pub fn weighted_availability(credits: u64, missed_slots: u64, total_credits: u64) -> (r: Score)
    requires
        credits <= SCORE_NUM_BOUND as u64,
        1 <= (MISSED_LEADER_SLOT_WEIGHT as int) * missed_slots + total_credits
            <= SCORE_DEN_BOUND as int,
    ensures
        r == avail_score(credits, missed_slots, total_credits),
        r.wf(),
{
    Score::new(credits as i64, MISSED_LEADER_SLOT_WEIGHT * missed_slots + total_credits)
}

/// The availability score as a rational.
pub open spec fn avail_score(credits: u64, missed: u64, total: u64) -> Score {
    Score {
        num: credits as i64,
        den: (((MISSED_LEADER_SLOT_WEIGHT as int) * missed + total) as u64),
    }
}

/// Every missed-slot count in the stats keeps the score denominator within
/// the score bound for the given credit total.
pub open spec fn stats_fit(stats: Seq<(u64, LeaderStat)>, total: int) -> bool {
    forall|q: int|
        0 <= q < stats.len() ==> (MISSED_LEADER_SLOT_WEIGHT as int) * ((
        #[trigger] stats[q]).1.missed_slots as int) + total <= SCORE_DEN_BOUND as int
}

/// The score denominator of one node: its weighted missed slots plus the
/// credit total; a node with no leader record missed nothing.
pub open spec fn node_den(key: u64, total: u64, stats: Seq<(u64, LeaderStat)>) -> int {
    let missed: u64 = match spec_get(stats, key) {
        Some(st) => st.missed_slots,
        None => 0,
    };
    (MISSED_LEADER_SLOT_WEIGHT as int) * (missed as int) + total
}

/// Every node that will be scored -- in the credit map and not excluded --
/// has a positive score denominator.  With a saturated credit total of zero
/// this fails exactly for a scored node that missed no leader slot.
pub open spec fn scored_dens_pos(
    credits_m: Seq<(u64, u64)>,
    excluded: Seq<u64>,
    total: u64,
    stats: Seq<(u64, LeaderStat)>,
) -> bool {
    forall|i: int|
        0 <= i < credits_m.len() && !excluded.contains((#[trigger] credits_m[i]).0)
            ==> node_den(credits_m[i].0, total, stats) >= 1
}

/// The non-excluded nodes' availability scores, in credit-map order.
pub open spec fn spec_avail_filtered(
    credits_m: Seq<(u64, u64)>,
    excluded: Seq<u64>,
    total: u64,
    stats: Seq<(u64, LeaderStat)>,
) -> Seq<(u64, Score)>
    decreases credits_m.len(),
{
    if credits_m.len() == 0 {
        Seq::empty()
    } else {
        let prev = spec_avail_filtered(credits_m.drop_last(), excluded, total, stats);
        let p = credits_m.last();
        if excluded.contains(p.0) {
            prev
        } else {
            let missed: u64 = match spec_get(stats, p.0) {
                Some(st) => st.missed_slots,
                None => 0,
            };
            prev.push((p.0, avail_score(p.1, missed, total)))
        }
    }
}

/// The availability results: non-excluded nodes scored and sorted
/// descending.
pub open spec fn spec_avail_results(
    credits_m: Seq<(u64, u64)>,
    excluded: Seq<u64>,
    total: u64,
    stats: Seq<(u64, LeaderStat)>,
) -> Seq<(u64, Score)> {
    sort_desc(spec_avail_filtered(credits_m, excluded, total, stats))
}

/// Filtered availability scores are well-formed and non-negative.
proof fn lemma_avail_filtered_wf(
    credits_m: Seq<(u64, u64)>,
    excluded: Seq<u64>,
    total: u64,
    stats: Seq<(u64, LeaderStat)>,
)
    requires
        values_le(credits_m, SCORE_NUM_BOUND as int),
        total <= SCORE_DEN_BOUND as u64,
        stats_fit(stats, total as int),
        scored_dens_pos(credits_m, excluded, total, stats),
    ensures
        all_wf(spec_avail_filtered(credits_m, excluded, total, stats)),
        all_nums_nonneg(spec_avail_filtered(credits_m, excluded, total, stats)),
    decreases credits_m.len(),
{
    if credits_m.len() > 0 {
        let t = credits_m.drop_last();
        assert(forall|q: int| 0 <= q < t.len() ==> t[q] == credits_m[q]);
        lemma_avail_filtered_wf(t, excluded, total, stats);
        let p = credits_m.last();
        assert(credits_m[credits_m.len() - 1] == p);
        assert(p.1 <= SCORE_NUM_BOUND as int);
        if !excluded.contains(p.0) {
            let missed: u64 = match spec_get(stats, p.0) {
                Some(st) => st.missed_slots,
                None => 0,
            };
            assert(node_den(p.0, total, stats) >= 1);
            match spec_get(stats, p.0) {
                Some(st) => {
                    lemma_spec_get_preserves(
                        stats,
                        p.0,
                        |st: LeaderStat|
                            (MISSED_LEADER_SLOT_WEIGHT as int) * (st.missed_slots as int)
                                + total <= SCORE_DEN_BOUND as int,
                    );
                },
                None => {},
            }
            let sc = avail_score(p.1, missed, total);
            assert(sc.wf());
            assert(sc.num >= 0);
            let full = spec_avail_filtered(credits_m, excluded, total, stats);
            let prev = spec_avail_filtered(t, excluded, total, stats);
            assert(full == prev.push((p.0, sc)));
            assert forall|q: int| 0 <= q < full.len() implies (#[trigger] full[q]).1.wf() && full[q].1.num
                >= 0 by {
                if q < prev.len() {
                    assert(full[q] == prev[q]);
                } else {
                    assert(full[q] == (p.0, sc));
                }
            }
        }
    }
}

/// Scores every non-excluded node and sorts the results descending.
pub fn validator_results(
    validator_credits: &KeyMap<u64>,
    excluded_set: &Vec<u64>,
    total_credits: u64,
    validator_leader_stats: &KeyMap<LeaderStat>,
) -> (r: Vec<(u64, Score)>)
    requires
        values_le(validator_credits@, SCORE_NUM_BOUND as int),
        total_credits <= SCORE_DEN_BOUND as u64,
        stats_fit(validator_leader_stats@, total_credits as int),
        scored_dens_pos(validator_credits@, excluded_set@, total_credits, validator_leader_stats@),
    ensures
        r@ == spec_avail_results(
            validator_credits@,
            excluded_set@,
            total_credits,
            validator_leader_stats@,
        ),
        all_wf(r@),
        all_nums_nonneg(r@),
        crate::score::sorted_desc(r@),
{
    let mut filtered: Vec<(u64, Score)> = Vec::new();
    let n = validator_credits.len();
    let mut i: usize = 0;
    proof {
        assert(validator_credits@.subrange(0, 0) =~= Seq::<(u64, u64)>::empty());
        assert(filtered@ =~= spec_avail_filtered(
            validator_credits@.subrange(0, 0),
            excluded_set@,
            total_credits,
            validator_leader_stats@,
        ));
    }
    while i < n
        invariant
            n == validator_credits@.len(),
            i <= n,
            values_le(validator_credits@, SCORE_NUM_BOUND as int),
            total_credits <= SCORE_DEN_BOUND as u64,
            stats_fit(validator_leader_stats@, total_credits as int),
            scored_dens_pos(
                validator_credits@,
                excluded_set@,
                total_credits,
                validator_leader_stats@,
            ),
            filtered@ == spec_avail_filtered(
                validator_credits@.subrange(0, i as int),
                excluded_set@,
                total_credits,
                validator_leader_stats@,
            ),
            all_wf(filtered@),
            all_nums_nonneg(filtered@),
        decreases n - i,
    {
        let ghost pre = validator_credits@.subrange(0, i as int);
        let ghost pre1 = validator_credits@.subrange(0, i as int + 1);
        proof {
            assert(pre1.drop_last() =~= pre);
            assert(pre1.last() == validator_credits@[i as int]);
        }
        let p = validator_credits.pair_at(i);
        proof {
            assert(validator_credits@[i as int] == p);
            assert(p.1 <= SCORE_NUM_BOUND as int);
        }
        if !vec_contains_u64(excluded_set, p.0) {
            proof {
                assert(node_den(p.0, total_credits, validator_leader_stats@) >= 1);
            }
            let missed: u64 = match validator_leader_stats.get_copy(p.0) {
                Some(st) => {
                    proof {
                        lemma_spec_get_preserves(
                            validator_leader_stats@,
                            p.0,
                            |st: LeaderStat|
                                (MISSED_LEADER_SLOT_WEIGHT as int) * (st.missed_slots as int)
                                    + total_credits <= SCORE_DEN_BOUND as int,
                        );
                    }
                    st.missed_slots
                },
                None => 0,
            };
            filtered.push((p.0, weighted_availability(p.1, missed, total_credits)));
        }
        i += 1;
    }
    proof {
        assert(validator_credits@.subrange(0, n as int) =~= validator_credits@);
        lemma_sort_desc_nonneg(filtered@);
    }
    sort_desc_exec(&filtered)
}

/// Why availability winners could not be computed.
#[derive(Debug, Clone, Copy, PartialEq, Eq, Structural)]
pub enum AvailabilityError {
    /// The baseline validator has no vote credits.
    BaselineCreditsMissing,
    /// The baseline validator never held a leader slot.
    BaselineLeaderStatsMissing,
    /// A scored validator's denominator vanished: the saturated credit
    /// total is zero and it missed no leader slot, so no score exists.
    ZeroScoreDenominator,
}

/// The baseline credit total: the block height less the trailing-block
/// haircut, saturating at zero.
pub open spec fn total_credits_of(block_height: u64) -> u64 {
    if block_height > CONFIRMATION_DEPTH {
        (block_height - CONFIRMATION_DEPTH) as u64
    } else {
        0
    }
}

/// Checks that every node to be scored has a positive score denominator.
fn check_scored_dens(
    credits_map: &KeyMap<u64>,
    excluded_set: &Vec<u64>,
    total_credits: u64,
    stats_map: &KeyMap<LeaderStat>,
) -> (r: bool)
    requires
        stats_fit(stats_map@, total_credits as int),
    ensures
        r == scored_dens_pos(credits_map@, excluded_set@, total_credits, stats_map@),
{
    let n = credits_map.len();
    let mut i: usize = 0;
    while i < n
        invariant
            n == credits_map@.len(),
            i <= n,
            stats_fit(stats_map@, total_credits as int),
            forall|q: int|
                0 <= q < i && !excluded_set@.contains((#[trigger] credits_map@[q]).0)
                    ==> node_den(credits_map@[q].0, total_credits, stats_map@) >= 1,
        decreases n - i,
    {
        let p = credits_map.pair_at(i);
        if !vec_contains_u64(excluded_set, p.0) {
            let missed: u64 = match stats_map.get_copy(p.0) {
                Some(st) => {
                    proof {
                        lemma_spec_get_preserves(
                            stats_map@,
                            p.0,
                            |st: LeaderStat|
                                (MISSED_LEADER_SLOT_WEIGHT as int) * (st.missed_slots as int)
                                    + total_credits <= SCORE_DEN_BOUND as int,
                        );
                    }
                    st.missed_slots
                },
                None => 0,
            };
            if MISSED_LEADER_SLOT_WEIGHT * missed + total_credits == 0 {
                proof {
                    assert(node_den(credits_map@[i as int].0, total_credits, stats_map@) < 1);
                }
                return false;
            }
        }
        i += 1;
    }
    true
}

/// Computes the availability winners over the replayed chain.
///
/// The baseline credit total is the block height less the trailing-block
/// haircut, saturating at zero.  The baseline validator's own score,
/// computed with the same formula, sets the bucket thresholds; the baseline
/// and the excluded validators do not appear in the results.  The run fails
/// if the baseline validator is missing from the credit map or the leader
/// stats, or if any score's denominator vanishes (a zero credit total
/// against a validator that missed nothing).
pub fn compute_winners(
    current_slot: u64,
    block_height: u64,
    vote_accounts: &Vec<VoteAccountSnapshot>,
    block_chain: &Vec<u64>,
    baseline_id: u64,
    excluded_set: &Vec<u64>,
    leaders: &Vec<u64>,
) -> (r: Result<Winners, AvailabilityError>)
    requires
        current_slot < u64::MAX,
        current_slot < leaders@.len(),
        forall|i: int, j: int|
            0 <= i < j < block_chain@.len() ==> #[trigger] block_chain@[i]
                < #[trigger] block_chain@[j],
        forall|i: int| 0 <= i < block_chain@.len() ==> #[trigger] block_chain@[i] <= current_slot,
        forall|i: int|
            0 <= i < vote_accounts@.len() ==> (#[trigger] vote_accounts@[i]).credits
                <= SCORE_NUM_BOUND as u64,
        (MISSED_LEADER_SLOT_WEIGHT as int) * (current_slot as int) + block_height
            <= SCORE_DEN_BOUND as int,
    ensures
        ({
            let credits_m = spec_validator_credits(vote_accounts@);
            let stats = spec_leader_stats(block_chain@, current_slot, leaders@);
            let total = total_credits_of(block_height);
            let dens_ok = node_den(baseline_id, total, stats) >= 1 && scored_dens_pos(
                spec_remove(credits_m, baseline_id),
                excluded_set@,
                total,
                spec_remove(stats, baseline_id),
            );
            &&& (r is Ok <==> spec_get(credits_m, baseline_id) is Some && spec_get(
                stats,
                baseline_id,
            ) is Some && dens_ok)
            &&& (r == Err::<Winners, AvailabilityError>(
                AvailabilityError::BaselineCreditsMissing,
            ) <==> spec_get(credits_m, baseline_id) is None)
            &&& (r == Err::<Winners, AvailabilityError>(
                AvailabilityError::BaselineLeaderStatsMissing,
            ) <==> spec_get(credits_m, baseline_id) is Some && spec_get(stats, baseline_id) is None)
            &&& (r == Err::<Winners, AvailabilityError>(
                AvailabilityError::ZeroScoreDenominator,
            ) <==> spec_get(credits_m, baseline_id) is Some && spec_get(
                stats,
                baseline_id,
            ) is Some && !dens_ok)
            &&& (r matches Ok(w) ==> {
                let baseline = avail_score(
                    spec_get(credits_m, baseline_id)->Some_0,
                    spec_get(stats, baseline_id)->Some_0.missed_slots,
                    total,
                );
                let results = spec_avail_results(
                    spec_remove(credits_m, baseline_id),
                    excluded_set@,
                    total,
                    spec_remove(stats, baseline_id),
                );
                &&& w.category == Category::Availability(baseline)
                &&& w.top_winners@ == results.subrange(
                    0,
                    if results.len() < 3 {
                        results.len() as int
                    } else {
                        3
                    },
                )
                &&& buckets_view(w.bucket_winners@) == crate::utils::spec_bucket_winners(
                    results,
                    baseline,
                )
            })
        }),
{
    let mut credits_map = validator_credits(vote_accounts);
    proof {
        lemma_credits_values(vote_accounts@);
    }
    let ghost credits0 = credits_map@;
    let baseline_credits = match credits_map.remove(baseline_id) {
        Some(c) => c,
        None => {
            return Err(AvailabilityError::BaselineCreditsMissing);
        },
    };
    let mut stats_map = validator_leader_stats(current_slot, block_chain, leaders);
    let ghost stats0 = stats_map@;
    let baseline_stat = match stats_map.remove(baseline_id) {
        Some(st) => st,
        None => {
            return Err(AvailabilityError::BaselineLeaderStatsMissing);
        },
    };
    let total_credits: u64 = if block_height > CONFIRMATION_DEPTH {
        block_height - CONFIRMATION_DEPTH
    } else {
        0
    };
    proof {
        lemma_spec_remove_values_le(credits0, baseline_id, SCORE_NUM_BOUND as int);
        lemma_spec_get_value_le(credits0, baseline_id, SCORE_NUM_BOUND as int);
        assert(stats_fit(stats0, total_credits as int)) by {
            assert forall|q: int| 0 <= q < stats0.len() implies (
            MISSED_LEADER_SLOT_WEIGHT as int) * ((#[trigger] stats0[q]).1.missed_slots as int)
                + total_credits <= SCORE_DEN_BOUND as int by {
                assert(stats0[q].1.missed_slots <= stats0[q].1.total_slots);
                assert((stats0[q].1.total_slots as int) <= current_slot as int);
            }
        }
        assert forall|q: int| 0 <= q < stats_map@.len() implies (
        MISSED_LEADER_SLOT_WEIGHT as int) * ((#[trigger] stats_map@[q]).1.missed_slots as int)
            + total_credits <= SCORE_DEN_BOUND as int by {
            lemma_remove_keeps_fit(stats0, baseline_id, total_credits as int, q);
        }
        lemma_stat_get_bounded(stats0, baseline_id, current_slot as int);
    }
    if MISSED_LEADER_SLOT_WEIGHT * baseline_stat.missed_slots + total_credits == 0 {
        return Err(AvailabilityError::ZeroScoreDenominator);
    }
    if !check_scored_dens(&credits_map, excluded_set, total_credits, &stats_map) {
        return Err(AvailabilityError::ZeroScoreDenominator);
    }
    let baseline = weighted_availability(baseline_credits, baseline_stat.missed_slots, total_credits);
    let results = validator_results(&credits_map, excluded_set, total_credits, &stats_map);
    let n = results.len();
    let k = if n < 3 {
        n
    } else {
        3
    };
    let top_winners = copy_range(&results, 0, k);
    let bucket_winners = crate::utils::bucket_winners(&results, &baseline);
    Ok(Winners { category: Category::Availability(baseline), top_winners, bucket_winners })
}

/// Credit-map values never exceed the largest account credit bound.
proof fn lemma_credits_values(accs: Seq<VoteAccountSnapshot>)
    requires
        forall|i: int|
            0 <= i < accs.len() ==> (#[trigger] accs[i]).credits <= SCORE_NUM_BOUND as u64,
    ensures
        values_le(spec_validator_credits(accs), SCORE_NUM_BOUND as int),
    decreases accs.len(),
{
    if accs.len() > 0 {
        let t = accs.drop_last();
        assert(forall|i: int| 0 <= i < t.len() ==> t[i] == accs[i]);
        lemma_credits_values(t);
        let prev = spec_validator_credits(t);
        let acc = accs.last();
        match spec_get(prev, acc.node_id) {
            Some(c) => {
                lemma_spec_get_value_le(prev, acc.node_id, SCORE_NUM_BOUND as int);
                lemma_spec_set_values_le(
                    prev,
                    acc.node_id,
                    if c >= acc.credits {
                        c
                    } else {
                        acc.credits
                    },
                    SCORE_NUM_BOUND as int,
                );
            },
            None => {
                lemma_spec_set_values_le(prev, acc.node_id, acc.credits, SCORE_NUM_BOUND as int);
            },
        }
    }
}

/// Removing an entry keeps the remaining stats within their score bound.
proof fn lemma_remove_keeps_fit(stats: Seq<(u64, LeaderStat)>, k: u64, total: int, q: int)
    requires
        stats_fit(stats, total),
        0 <= q < spec_remove(stats, k).len(),
    ensures
        (MISSED_LEADER_SLOT_WEIGHT as int) * ((spec_remove(stats, k)[q]).1.missed_slots as int)
            + total <= SCORE_DEN_BOUND as int,
    decreases stats.len(),
{
    if stats.len() > 0 {
        if stats[0].0 == k {
        } else {
            if q >= 1 {
                assert(forall|i: int|
                    0 <= i < stats.drop_first().len() ==> stats.drop_first()[i] == stats[i + 1]);
                lemma_remove_keeps_fit(stats.drop_first(), k, total, q - 1);
                assert(spec_remove(stats, k)[q] == spec_remove(stats.drop_first(), k)[q - 1]);
            }
        }
    }
}

/// The baseline's own stat respects the slot bound.
proof fn lemma_stat_get_bounded(stats: Seq<(u64, LeaderStat)>, k: u64, b: int)
    requires
        stats_bounded(stats, b),
        spec_get(stats, k) is Some,
    ensures
        (spec_get(stats, k)->Some_0.missed_slots as int) <= b,
    decreases stats.len(),
{
    if stats.len() > 0 && stats[0].0 != k {
        lemma_stat_get_bounded(stats.drop_first(), k, b);
    }
}

} // verus!
