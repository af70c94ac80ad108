//! The "most rewards earned" category: sums the balances of the stake and
//! vote accounts attributed to each validator, subtracts the starting
//! balance, and buckets the result by absolute percentile with
//! tie-extension.

use vstd::prelude::*;

use crate::account::Delegation;
use crate::account::VoteAccountSnapshot;
use crate::keymap::KeyMap;
use crate::keymap::spec_get;
use crate::keymap::spec_remove;
use crate::keymap::lemma_spec_get_value_le;
use crate::keymap::lemma_spec_remove_values_le;
use crate::keymap::lemma_spec_set_values_le;
use crate::keymap::spec_set;
use crate::keymap::values_le;
use crate::score::SCORE_NUM_BOUND;
use crate::score::Score;
use crate::score::all_nums_nonneg;
use crate::score::all_wf;
use crate::score::lemma_sort_desc_nonneg;
use crate::score::lemma_sort_desc_sorted;
use crate::score::score_eqv;
use crate::score::sort_desc;
use crate::score::sort_desc_exec;
use crate::utils::copy_range;
use crate::utils::vec_contains_u64;
use crate::winner::Bucket;
use crate::winner::Category;
use crate::winner::Winner;
use crate::winner::Winners;
use crate::winner::buckets_view;

verus! {

/// Total stake across all delegations.
pub open spec fn sum_stakes(dels: Seq<Delegation>) -> int
    decreases dels.len(),
{
    if dels.len() == 0 {
        0
    } else {
        sum_stakes(dels.drop_last()) + dels.last().stake
    }
}

/// Total balance across all vote accounts.
pub open spec fn sum_lamports(accs: Seq<VoteAccountSnapshot>) -> int
    decreases accs.len(),
{
    if accs.len() == 0 {
        0
    } else {
        sum_lamports(accs.drop_last()) + accs.last().lamports
    }
}

/// One delegation folded into the per-voter stake sums.
pub open spec fn stake_rewards_step(m: Seq<(u64, u64)>, d: Delegation) -> Seq<(u64, u64)> {
    match spec_get(m, d.voter_id) {
        Some(x) => spec_set(m, d.voter_id, ((x + d.stake) as u64)),
        None => spec_set(m, d.voter_id, d.stake),
    }
}

/// The per-voter sum of delegated stake, keyed by the vote account the
/// delegation names.
pub open spec fn spec_voter_stake_rewards(dels: Seq<Delegation>) -> Seq<(u64, u64)>
    decreases dels.len(),
{
    if dels.len() == 0 {
        Seq::empty()
    } else {
        stake_rewards_step(spec_voter_stake_rewards(dels.drop_last()), dels.last())
    }
}

/// One vote account folded into the per-node reward map.  The account's
/// stake reward is taken out of the per-voter map; the node keeps the
/// largest total seen across its vote accounts.
pub open spec fn rewards_step(
    rew: Seq<(u64, u64)>,
    stake: Seq<(u64, u64)>,
    acc: VoteAccountSnapshot,
) -> (Seq<(u64, u64)>, Seq<(u64, u64)>) {
    let sr: u64 = match spec_get(stake, acc.voter_id) {
        Some(x) => x,
        None => 0,
    };
    let total: u64 = ((acc.lamports + sr) as u64);
    let rew2 = match spec_get(rew, acc.node_id) {
        Some(prev) => spec_set(
            rew,
            acc.node_id,
            if prev >= total {
                prev
            } else {
                total
            },
        ),
        None => spec_set(rew, acc.node_id, total),
    };
    (rew2, spec_remove(stake, acc.voter_id))
}

/// The per-node reward totals (stake rewards plus commission), and what is
/// left of the per-voter stake map, after folding all vote accounts.
pub open spec fn spec_validator_rewards(
    stake0: Seq<(u64, u64)>,
    accs: Seq<VoteAccountSnapshot>,
) -> (Seq<(u64, u64)>, Seq<(u64, u64)>)
    decreases accs.len(),
{
    if accs.len() == 0 {
        (Seq::empty(), stake0)
    } else {
        let prev = spec_validator_rewards(stake0, accs.drop_last());
        rewards_step(prev.0, prev.1, accs.last())
    }
}

/// Stake totals never go negative.
proof fn lemma_sum_stakes_nonneg(dels: Seq<Delegation>)
    ensures
        sum_stakes(dels) >= 0,
    decreases dels.len(),
{
    if dels.len() > 0 {
        lemma_sum_stakes_nonneg(dels.drop_last());
    }
}

/// A prefix's stake total is at most the whole total.
proof fn lemma_sum_stakes_prefix(dels: Seq<Delegation>, j: int)
    requires
        0 <= j <= dels.len(),
    ensures
        sum_stakes(dels.subrange(0, j)) <= sum_stakes(dels),
    decreases dels.len() - j,
{
    if j == dels.len() {
        assert(dels.subrange(0, j) =~= dels);
    } else {
        lemma_sum_stakes_prefix(dels, j + 1);
        let s1 = dels.subrange(0, j + 1);
        assert(s1.drop_last() =~= dels.subrange(0, j));
        assert(s1.last() == dels[j]);
    }
}

/// Balance totals never go negative.
proof fn lemma_sum_lamports_nonneg(accs: Seq<VoteAccountSnapshot>)
    ensures
        sum_lamports(accs) >= 0,
    decreases accs.len(),
{
    if accs.len() > 0 {
        lemma_sum_lamports_nonneg(accs.drop_last());
    }
}

/// Each account's balance is at most the total.
proof fn lemma_sum_lamports_element(accs: Seq<VoteAccountSnapshot>, i: int)
    requires
        0 <= i < accs.len(),
    ensures
        accs[i].lamports <= sum_lamports(accs),
    decreases accs.len(),
{
    if i == accs.len() - 1 {
        lemma_sum_lamports_nonneg(accs.drop_last());
    } else {
        lemma_sum_lamports_element(accs.drop_last(), i);
        assert(accs.drop_last()[i] == accs[i]);
    }
}

/// Per-voter stake sums never exceed the total delegated stake.
pub proof fn lemma_stake_rewards_values(dels: Seq<Delegation>)
    ensures
        values_le(spec_voter_stake_rewards(dels), sum_stakes(dels)),
    decreases dels.len(),
{
    if dels.len() > 0 {
        let t = dels.drop_last();
        let d = dels.last();
        lemma_stake_rewards_values(t);
        let prev = spec_voter_stake_rewards(t);
        assert(values_le(prev, sum_stakes(dels)));
        match spec_get(prev, d.voter_id) {
            Some(x) => {
                lemma_spec_get_value_le(prev, d.voter_id, sum_stakes(t));
                assert(((x + d.stake) as u64) <= sum_stakes(dels));
                lemma_spec_set_values_le(
                    prev,
                    d.voter_id,
                    ((x + d.stake) as u64),
                    sum_stakes(dels),
                );
            },
            None => {
                lemma_sum_stakes_nonneg(t);
                lemma_spec_set_values_le(prev, d.voter_id, d.stake, sum_stakes(dels));
            },
        }
    }
}

/// Sums each validator vote account's delegated stake, keyed by vote
/// account.
pub fn voter_stake_rewards(stake_delegations: &Vec<Delegation>) -> (r: KeyMap<u64>)
    requires
        sum_stakes(stake_delegations@) <= u64::MAX as int,
    ensures
        r@ == spec_voter_stake_rewards(stake_delegations@),
{
    let mut r: KeyMap<u64> = KeyMap::new();
    let n = stake_delegations.len();
    let mut i: usize = 0;
    proof {
        assert(stake_delegations@.subrange(0, 0) =~= Seq::<Delegation>::empty());
    }
    while i < n
        invariant
            n == stake_delegations@.len(),
            i <= n,
            sum_stakes(stake_delegations@) <= u64::MAX as int,
            r@ == spec_voter_stake_rewards(stake_delegations@.subrange(0, i as int)),
        decreases n - i,
    {
        let ghost pre = stake_delegations@.subrange(0, i as int);
        let ghost pre1 = stake_delegations@.subrange(0, i as int + 1);
        proof {
            assert(pre1.drop_last() =~= pre);
            assert(pre1.last() == stake_delegations@[i as int]);
            lemma_stake_rewards_values(pre);
            lemma_sum_stakes_prefix(stake_delegations@, i as int + 1);
        }
        let d = stake_delegations[i];
        match r.get_copy(d.voter_id) {
            Some(x) => {
                proof {
                    lemma_spec_get_value_le(r@, d.voter_id, sum_stakes(pre));
                }
                r.set(d.voter_id, x + d.stake);
            },
            None => {
                r.set(d.voter_id, d.stake);
            },
        }
        i += 1;
    }
    proof {
        assert(stake_delegations@.subrange(0, n as int) =~= stake_delegations@);
    }
    r
}

/// Sums each validator's earned rewards: its vote account's balance
/// (commission) plus its delegated-stake rewards.  A validator with several
/// vote accounts keeps the largest total.
pub fn validator_rewards(
    voter_stake_rewards: KeyMap<u64>,
    vote_accounts: &Vec<VoteAccountSnapshot>,
) -> (r: KeyMap<u64>)
    requires
        values_le(voter_stake_rewards@, u64::MAX as int - sum_lamports(vote_accounts@)),
    ensures
        r@ == spec_validator_rewards(voter_stake_rewards@, vote_accounts@).0,
{
    let ghost stake0 = voter_stake_rewards@;
    let ghost bound = u64::MAX as int - sum_lamports(vote_accounts@);
    let mut stake = voter_stake_rewards;
    let mut r: KeyMap<u64> = KeyMap::new();
    let n = vote_accounts.len();
    let mut i: usize = 0;
    proof {
        assert(vote_accounts@.subrange(0, 0) =~= Seq::<VoteAccountSnapshot>::empty());
    }
    while i < n
        invariant
            n == vote_accounts@.len(),
            i <= n,
            values_le(stake@, bound),
            bound == u64::MAX as int - sum_lamports(vote_accounts@),
            (r@, stake@) == spec_validator_rewards(stake0, vote_accounts@.subrange(0, i as int)),
        decreases n - i,
    {
        let ghost pre = vote_accounts@.subrange(0, i as int);
        let ghost pre1 = vote_accounts@.subrange(0, i as int + 1);
        proof {
            assert(pre1.drop_last() =~= pre);
            assert(pre1.last() == vote_accounts@[i as int]);
            lemma_sum_lamports_element(vote_accounts@, i as int);
            lemma_sum_lamports_nonneg(vote_accounts@);
        }
        let acc = &vote_accounts[i];
        let ghost stake_pre = stake@;
        let got = stake.remove(acc.voter_id);
        let sr: u64 = match got {
            Some(x) => {
                proof {
                    lemma_spec_get_value_le(stake_pre, acc.voter_id, bound);
                }
                x
            },
            None => 0,
        };
        let total: u64 = acc.lamports + sr;
        match r.get_copy(acc.node_id) {
            Some(prev) => {
                let kept = if prev >= total {
                    prev
                } else {
                    total
                };
                r.set(acc.node_id, kept);
            },
            None => {
                r.set(acc.node_id, total);
            },
        }
        proof {
            lemma_spec_remove_values_le(stake_pre, acc.voter_id, bound);
        }
        i += 1;
    }
    proof {
        assert(vote_accounts@.subrange(0, n as int) =~= vote_accounts@);
    }
    r
}

/// Reward totals are bounded by the account balances plus whatever bound the
/// incoming stake map obeys.
pub proof fn lemma_validator_rewards_values(
    stake0: Seq<(u64, u64)>,
    accs: Seq<VoteAccountSnapshot>,
    x: int,
)
    requires
        values_le(stake0, x),
        x >= 0,
    ensures
        values_le(spec_validator_rewards(stake0, accs).0, sum_lamports(accs) + x),
        values_le(spec_validator_rewards(stake0, accs).1, x),
    decreases accs.len(),
{
    if accs.len() > 0 {
        let t = accs.drop_last();
        let acc = accs.last();
        lemma_validator_rewards_values(stake0, t, x);
        lemma_sum_lamports_nonneg(t);
        let prev = spec_validator_rewards(stake0, t);
        let sr: u64 = match spec_get(prev.1, acc.voter_id) {
            Some(v) => v,
            None => 0,
        };
        if spec_get(prev.1, acc.voter_id) is Some {
            lemma_spec_get_value_le(prev.1, acc.voter_id, x);
        }
        let total: u64 = ((acc.lamports + sr) as u64);
        assert(total <= sum_lamports(accs) + x);
        assert(values_le(prev.0, sum_lamports(accs) + x));
        match spec_get(prev.0, acc.node_id) {
            Some(p) => {
                lemma_spec_get_value_le(prev.0, acc.node_id, sum_lamports(accs) + x);
                lemma_spec_set_values_le(
                    prev.0,
                    acc.node_id,
                    if p >= total {
                        p
                    } else {
                        total
                    },
                    sum_lamports(accs) + x,
                );
            },
            None => {
                lemma_spec_set_values_le(prev.0, acc.node_id, total, sum_lamports(accs) + x);
            },
        }
        lemma_spec_remove_values_le(prev.1, acc.voter_id, x);
    }
}

/// The non-excluded rewards as integer scores, in map order.
pub open spec fn spec_filtered(rewards: Seq<(u64, u64)>, excluded: Seq<u64>) -> Seq<(u64, Score)>
    decreases rewards.len(),
{
    if rewards.len() == 0 {
        Seq::empty()
    } else {
        let prev = spec_filtered(rewards.drop_last(), excluded);
        let p = rewards.last();
        if excluded.contains(p.0) {
            prev
        } else {
            prev.push((p.0, Score { num: p.1 as i64, den: 1u64 }))
        }
    }
}

/// Subtracts the starting balance from every score.
pub open spec fn shift_scores(s: Seq<(u64, Score)>, starting: u64) -> Seq<(u64, Score)> {
    s.map_values(
        |p: (u64, Score)| (p.0, Score { num: ((p.1.num - starting) as i64), den: 1u64 }),
    )
}

/// The final results: non-excluded validators, sorted descending by balance,
/// each score the earned balance less the starting balance.
pub open spec fn spec_validator_results(
    rewards: Seq<(u64, u64)>,
    excluded: Seq<u64>,
    starting: u64,
) -> Seq<(u64, Score)> {
    shift_scores(sort_desc(spec_filtered(rewards, excluded)), starting)
}

/// Filtered balances are well-formed, non-negative scores.
proof fn lemma_filtered_wf(rewards: Seq<(u64, u64)>, excluded: Seq<u64>, b: int)
    requires
        values_le(rewards, b),
        b <= SCORE_NUM_BOUND as int,
    ensures
        all_wf(spec_filtered(rewards, excluded)),
        all_nums_nonneg(spec_filtered(rewards, excluded)),
    decreases rewards.len(),
{
    if rewards.len() > 0 {
        let t = rewards.drop_last();
        assert(forall|q: int| 0 <= q < t.len() ==> t[q] == rewards[q]);
        lemma_filtered_wf(t, excluded, b);
    }
}

/// Sorts the non-excluded validators by earned balance, descending, and
/// subtracts the starting balance from each.
pub fn validator_results(
    validator_reward_map: &KeyMap<u64>,
    excluded_set: &Vec<u64>,
    starting_balance: u64,
) -> (r: Vec<(u64, Score)>)
    requires
        values_le(validator_reward_map@, SCORE_NUM_BOUND as int),
        starting_balance <= SCORE_NUM_BOUND as u64,
    ensures
        r@ == spec_validator_results(validator_reward_map@, excluded_set@, starting_balance),
        all_wf(r@),
{
    let mut filtered: Vec<(u64, Score)> = Vec::new();
    let n = validator_reward_map.len();
    let mut i: usize = 0;
    proof {
        assert(validator_reward_map@.subrange(0, 0) =~= Seq::<(u64, u64)>::empty());
        assert(filtered@ =~= spec_filtered(
            validator_reward_map@.subrange(0, 0),
            excluded_set@,
        ));
    }
    while i < n
        invariant
            n == validator_reward_map@.len(),
            i <= n,
            values_le(validator_reward_map@, SCORE_NUM_BOUND as int),
            filtered@ == spec_filtered(
                validator_reward_map@.subrange(0, i as int),
                excluded_set@,
            ),
            all_wf(filtered@),
            all_nums_nonneg(filtered@),
        decreases n - i,
    {
        let ghost pre = validator_reward_map@.subrange(0, i as int);
        let ghost pre1 = validator_reward_map@.subrange(0, i as int + 1);
        proof {
            assert(pre1.drop_last() =~= pre);
            assert(pre1.last() == validator_reward_map@[i as int]);
        }
        let p = validator_reward_map.pair_at(i);
        if !vec_contains_u64(excluded_set, p.0) {
            filtered.push((p.0, Score::from_int(p.1 as i64)));
        }
        i += 1;
    }
    proof {
        assert(validator_reward_map@.subrange(0, n as int) =~= validator_reward_map@);
    }
    let sorted = sort_desc_exec(&filtered);
    proof {
        lemma_sort_desc_nonneg(filtered@);
    }
    let m = sorted.len();
    let mut r: Vec<(u64, Score)> = Vec::new();
    let mut j: usize = 0;
    proof {
        assert(r@ =~= shift_scores(sorted@, starting_balance).subrange(0, 0));
    }
    while j < m
        invariant
            m == sorted@.len(),
            j <= m,
            all_wf(sorted@),
            all_nums_nonneg(sorted@),
            starting_balance <= SCORE_NUM_BOUND as u64,
            r@ == shift_scores(sorted@, starting_balance).subrange(0, j as int),
            all_wf(r@),
        decreases m - j,
    {
        let p = sorted[j];
        r.push((p.0, Score::from_int(p.1.num - (starting_balance as i64))));
        proof {
            assert(r@ =~= shift_scores(sorted@, starting_balance).subrange(0, j as int + 1));
        }
        j += 1;
    }
    proof {
        assert(shift_scores(sorted@, starting_balance).subrange(
            0,
            m as int,
        ) =~= shift_scores(sorted@, starting_balance));
    }
    r
}

/// Extends `index` forward while the next result carries an equal score, so
/// a bucket cut never separates tied validators.
pub open spec fn spec_handle_ties(s: Seq<(u64, Score)>, index: int) -> int
    decreases s.len() - index,
{
    if 0 <= index && index + 1 < s.len() && score_eqv(s[index].1, s[index + 1].1) {
        spec_handle_ties(s, index + 1)
    } else {
        index
    }
}

/// A tie-extended index stays in range and stops only at the end of a run
/// of equal scores.
pub proof fn lemma_handle_ties_props(s: Seq<(u64, Score)>, index: int)
    requires
        0 <= index < s.len(),
    ensures
        index <= spec_handle_ties(s, index) < s.len(),
        spec_handle_ties(s, index) + 1 == s.len() || !score_eqv(
            s[spec_handle_ties(s, index)].1,
            s[spec_handle_ties(s, index) + 1].1,
        ),
    decreases s.len() - index,
{
    if index + 1 < s.len() && score_eqv(s[index].1, s[index + 1].1) {
        lemma_handle_ties_props(s, index + 1);
    }
}

/// Tie extension is monotone in its starting index.
pub proof fn lemma_handle_ties_monotone(s: Seq<(u64, Score)>, i: int, j: int)
    requires
        0 <= i <= j < s.len(),
    ensures
        spec_handle_ties(s, i) <= spec_handle_ties(s, j),
    decreases s.len() - i,
{
    lemma_handle_ties_props(s, j);
    if i < j && i + 1 < s.len() && score_eqv(s[i].1, s[i + 1].1) {
        lemma_handle_ties_monotone(s, i + 1, j);
    }
}

/// The base index of each percentile cut, clamped to stay in a non-empty
/// list.
pub open spec fn pct_base(n: int, num: int, den: int) -> int {
    let raw = num * n / den;
    (if raw > 1 {
        raw
    } else {
        1
    }) - 1
}

/// What the percentile partitioner produces: top 25%, 25-50%, 50-90% and
/// bottom 10%, each cut extended over ties.
pub open spec fn spec_bucket_rewards(s: Seq<(u64, Score)>) -> Seq<(Bucket, Seq<(u64, Score)>)> {
    let n = s.len() as int;
    let h = spec_handle_ties(s, pct_base(n, 1, 4));
    let m = spec_handle_ties(s, pct_base(n, 1, 2));
    let l = spec_handle_ties(s, pct_base(n, 9, 10));
    let b = spec_handle_ties(s, n - 1);
    seq![
        (Bucket::High, s.subrange(0, h + 1)),
        (Bucket::Medium, s.subrange(h + 1, m + 1)),
        (Bucket::Low, s.subrange(m + 1, l + 1)),
        (Bucket::Bottom, s.subrange(l + 1, b + 1)),
    ]
}

/// The three percentile base indices are ordered and in range.
proof fn lemma_pct_bases_ordered(n: int)
    requires
        n >= 1,
    ensures
        0 <= pct_base(n, 1, 4) <= pct_base(n, 1, 2) <= pct_base(n, 9, 10) <= n - 1,
{
    vstd::arithmetic::div_mod::lemma_div_is_ordered_by_denominator(n, 2, 4);
    vstd::arithmetic::div_mod::lemma_fundamental_div_mod(n, 2);
    vstd::arithmetic::div_mod::lemma_fundamental_div_mod(9 * n, 10);
    vstd::arithmetic::div_mod::lemma_fundamental_div_mod(n, 10);
    assert(n / 2 <= 9 * n / 10) by {
        let a = n / 2;
        let b = 9 * n / 10;
        assert(n == 2 * a + n % 2);
        assert(9 * n == 10 * b + (9 * n) % 10);
        assert(0 <= n % 2 < 2);
        assert(0 <= (9 * n) % 10 < 10);
    }
    assert(9 * n / 10 <= n - 1 || 9 * n / 10 <= 1) by {
        let b = 9 * n / 10;
        assert(9 * n == 10 * b + (9 * n) % 10);
        assert(0 <= (9 * n) % 10 < 10);
    }
}

/// Extends `index` forward over a run of equal scores.
fn handle_ties(results: &Vec<(u64, Score)>, index: usize) -> (r: usize)
    requires
        index < results@.len(),
        all_wf(results@),
    ensures
        r == spec_handle_ties(results@, index as int),
        index <= r < results@.len(),
{
    proof {
        lemma_handle_ties_props(results@, index as int);
    }
    let n = results.len();
    let mut idx: usize = index;
    while idx + 1 < n && results[idx].1.eq_value(&results[idx + 1].1)
        invariant
            n == results@.len(),
            index <= idx < n,
            all_wf(results@),
            spec_handle_ties(results@, index as int) == spec_handle_ties(results@, idx as int),
        decreases n - idx,
    {
        idx += 1;
    }
    idx
}

/// Buckets the sorted results into top 25%, 25-50%, 50-90% and bottom 10%,
/// extending each cut over tied scores so ties never split across buckets.
pub fn bucket_winners(results: &Vec<(u64, Score)>) -> (r: Vec<(Bucket, Vec<Winner>)>)
    requires
        all_wf(results@),
        results@.len() >= 1,
        results@.len() * 9 <= usize::MAX as int,
    ensures
        buckets_view(r@) == spec_bucket_rewards(results@),
{
    let n = results.len();
    proof {
        lemma_pct_bases_ordered(n as int);
        lemma_handle_ties_monotone(results@, pct_base(n as int, 1, 4), pct_base(n as int, 1, 2));
        lemma_handle_ties_monotone(results@, pct_base(n as int, 1, 2), pct_base(n as int, 9, 10));
        lemma_handle_ties_monotone(results@, pct_base(n as int, 9, 10), n as int - 1);
        lemma_handle_ties_props(results@, n as int - 1);
        lemma_handle_ties_props(results@, pct_base(n as int, 9, 10));
    }
    let quarter = n / 4;
    let hbase = (if quarter > 1 {
        quarter
    } else {
        1
    }) - 1;
    let half = n / 2;
    let mbase = (if half > 1 {
        half
    } else {
        1
    }) - 1;
    let ninety = 9 * n / 10;
    let lbase = (if ninety > 1 {
        ninety
    } else {
        1
    }) - 1;
    let h = handle_ties(results, hbase);
    let m = handle_ties(results, mbase);
    let l = handle_ties(results, lbase);
    let b = handle_ties(results, n - 1);
    let high = copy_range(results, 0, h + 1);
    let medium = copy_range(results, h + 1, m + 1);
    let low = copy_range(results, m + 1, l + 1);
    let bottom = copy_range(results, l + 1, b + 1);
    let mut r: Vec<(Bucket, Vec<Winner>)> = Vec::new();
    r.push((Bucket::High, high));
    r.push((Bucket::Medium, medium));
    r.push((Bucket::Low, low));
    r.push((Bucket::Bottom, bottom));
    proof {
        assert(buckets_view(r@) =~= spec_bucket_rewards(results@));
    }
    r
}

/// The percentile buckets, concatenated, are exactly the results: every
/// validator lands in exactly one bucket, in order.
pub proof fn lemma_rewards_buckets_concat(s: Seq<(u64, Score)>)
    requires
        s.len() >= 1,
    ensures
        spec_bucket_rewards(s)[0].1 + spec_bucket_rewards(s)[1].1 + spec_bucket_rewards(s)[2].1
            + spec_bucket_rewards(s)[3].1 =~= s,
{
    let n = s.len() as int;
    lemma_pct_bases_ordered(n);
    lemma_handle_ties_monotone(s, pct_base(n, 1, 4), pct_base(n, 1, 2));
    lemma_handle_ties_monotone(s, pct_base(n, 1, 2), pct_base(n, 9, 10));
    lemma_handle_ties_monotone(s, pct_base(n, 9, 10), n - 1);
    lemma_handle_ties_props(s, n - 1);
    lemma_handle_ties_props(s, pct_base(n, 1, 4));
}

/// A percentile cut never lands between two results of equal score.
pub proof fn lemma_rewards_buckets_never_split_ties(s: Seq<(u64, Score)>, i: int)
    requires
        s.len() >= 1,
        0 <= i,
        i + 1 < s.len(),
        score_eqv(s[i].1, s[i + 1].1),
    ensures
        spec_handle_ties(s, pct_base(s.len() as int, 1, 4)) != i,
        spec_handle_ties(s, pct_base(s.len() as int, 1, 2)) != i,
        spec_handle_ties(s, pct_base(s.len() as int, 9, 10)) != i,
{
    let n = s.len() as int;
    lemma_pct_bases_ordered(n);
    lemma_handle_ties_props(s, pct_base(n, 1, 4));
    lemma_handle_ties_props(s, pct_base(n, 1, 2));
    lemma_handle_ties_props(s, pct_base(n, 9, 10));
}

/// What the rewards category reports for the given chain state: results
/// sorted descending, top three, and percentile buckets.
pub open spec fn spec_rewards_results(
    accs: Seq<VoteAccountSnapshot>,
    dels: Seq<Delegation>,
    excluded: Seq<u64>,
    starting: u64,
) -> Seq<(u64, Score)> {
    spec_validator_results(
        spec_validator_rewards(spec_voter_stake_rewards(dels), accs).0,
        excluded,
        starting,
    )
}

/// Computes the rewards-earned winners: the top three and the percentile
/// buckets over all non-excluded validators.
pub fn compute_winners(
    vote_accounts: &Vec<VoteAccountSnapshot>,
    stake_delegations: &Vec<Delegation>,
    excluded_set: &Vec<u64>,
    starting_balance: u64,
) -> (r: Winners)
    requires
        sum_stakes(stake_delegations@) + sum_lamports(vote_accounts@) <= SCORE_NUM_BOUND as int,
        starting_balance <= SCORE_NUM_BOUND as u64,
        spec_rewards_results(
            vote_accounts@,
            stake_delegations@,
            excluded_set@,
            starting_balance,
        ).len() >= 1,
        spec_rewards_results(
            vote_accounts@,
            stake_delegations@,
            excluded_set@,
            starting_balance,
        ).len() * 9 <= usize::MAX as int,
    ensures
        r.category == Category::RewardsEarned,
        ({
            let results = spec_rewards_results(
                vote_accounts@,
                stake_delegations@,
                excluded_set@,
                starting_balance,
            );
            &&& r.top_winners@ == results.subrange(
                0,
                if results.len() < 3 {
                    results.len() as int
                } else {
                    3
                },
            )
            &&& buckets_view(r.bucket_winners@) == spec_bucket_rewards(results)
        }),
{
    proof {
        lemma_sum_stakes_nonneg(stake_delegations@);
        lemma_sum_lamports_nonneg(vote_accounts@);
        lemma_stake_rewards_values(stake_delegations@);
        lemma_validator_rewards_values(
            spec_voter_stake_rewards(stake_delegations@),
            vote_accounts@,
            sum_stakes(stake_delegations@),
        );
    }
    let stake_map = voter_stake_rewards(stake_delegations);
    let reward_map = validator_rewards(stake_map, vote_accounts);
    let results = validator_results(&reward_map, excluded_set, starting_balance);
    let n = results.len();
    let k = if n < 3 {
        n
    } else {
        3
    };
    let top_winners = copy_range(&results, 0, k);
    let bucket_winners = bucket_winners(&results);
    Winners { category: Category::RewardsEarned, top_winners, bucket_winners }
}

} // verus!
