//! Baseline-relative bucketing, shared by the availability and latency
//! scorers, and small timing helpers.
//!
//! Given a list of results sorted descending by score and the baseline
//! validator's score, the partitioner cuts the list into contiguous buckets
//! at the 95%, 75% and 50% thresholds of the baseline; everything below the
//! 50% threshold forms the trailing bucket, which runs to the end of the
//! list.

use vstd::prelude::*;

use crate::score::Score;
use crate::score::all_wf;
use crate::score::score_exceeds_pct;
use crate::score::sorted_desc;
use crate::winner::Bucket;
use crate::winner::Winner;
use crate::winner::buckets_view;

verus! {

/// One past the index of the last element above the `pct`% threshold of
/// `baseline`, scanning from the back; 0 when no element clears it.  On a
/// descending-sorted list this is the length of the prefix that clears the
/// threshold.
pub open spec fn boundary_pct(s: Seq<(u64, Score)>, baseline: Score, pct: int) -> int
    decreases s.len(),
{
    if s.len() == 0 {
        0
    } else if score_exceeds_pct(s.last().1, baseline, pct) {
        s.len() as int
    } else {
        boundary_pct(s.drop_last(), baseline, pct)
    }
}

/// What `bucket_winners` produces: the four threshold buckets, cut at the
/// 95/75/50 boundaries; the bottom bucket runs from the 50% cut to the end
/// of the list.
pub open spec fn spec_bucket_winners(s: Seq<(u64, Score)>, baseline: Score) -> Seq<
    (Bucket, Seq<(u64, Score)>),
> {
    let b95 = boundary_pct(s, baseline, 95);
    let b75 = boundary_pct(s, baseline, 75);
    let b50 = boundary_pct(s, baseline, 50);
    seq![
        (Bucket::High, s.subrange(0, b95)),
        (Bucket::Medium, s.subrange(b95, b75)),
        (Bucket::Low, s.subrange(b75, b50)),
        (Bucket::Bottom, s.subrange(b50, s.len() as int)),
    ]
}

/// A percentage boundary lies within the list; everything at or past it
/// fails the threshold; the element just before it clears it.
pub proof fn lemma_boundary_pct_props(s: Seq<(u64, Score)>, baseline: Score, pct: int)
    ensures
        0 <= boundary_pct(s, baseline, pct) <= s.len(),
        forall|q: int|
            boundary_pct(s, baseline, pct) <= q < s.len() ==> !score_exceeds_pct(
                (#[trigger] s[q]).1,
                baseline,
                pct,
            ),
        boundary_pct(s, baseline, pct) > 0 ==> score_exceeds_pct(
            s[boundary_pct(s, baseline, pct) - 1].1,
            baseline,
            pct,
        ),
    decreases s.len(),
{
    if s.len() > 0 && !score_exceeds_pct(s.last().1, baseline, pct) {
        lemma_boundary_pct_props(s.drop_last(), baseline, pct);
        assert forall|q: int|
            boundary_pct(s, baseline, pct) <= q < s.len() implies !score_exceeds_pct(
            (#[trigger] s[q]).1,
            baseline,
            pct,
        ) by {
            if q < s.len() - 1 {
                assert(s.drop_last()[q] == s[q]);
            }
        }
    }
}

/// Clearing a higher percentage of a non-negative baseline clears any lower
/// one.
pub proof fn lemma_exceeds_pct_weaken(sc: Score, baseline: Score, hi: int, lo: int)
    requires
        sc.wf(),
        baseline.wf(),
        baseline.num >= 0,
        0 <= lo <= hi,
        score_exceeds_pct(sc, baseline, hi),
    ensures
        score_exceeds_pct(sc, baseline, lo),
{
    assert(lo * (baseline.num as int) * (sc.den as int) <= hi * (baseline.num as int) * (
    sc.den as int)) by (nonlinear_arith)
        requires
            0 <= lo <= hi,
            baseline.num >= 0,
            sc.den > 0,
    ;
}

/// A lower percentage of a non-negative baseline admits at least as long a
/// prefix.
pub proof fn lemma_boundary_pct_monotone(s: Seq<(u64, Score)>, baseline: Score, hi: int, lo: int)
    requires
        all_wf(s),
        baseline.wf(),
        baseline.num >= 0,
        0 <= lo <= hi,
    ensures
        boundary_pct(s, baseline, hi) <= boundary_pct(s, baseline, lo),
    decreases s.len(),
{
    if s.len() > 0 {
        if score_exceeds_pct(s.last().1, baseline, hi) {
            lemma_exceeds_pct_weaken(s.last().1, baseline, hi, lo);
            lemma_boundary_pct_props(s, baseline, lo);
        } else {
            lemma_boundary_pct_monotone(s.drop_last(), baseline, hi, lo);
            lemma_boundary_pct_props(s.drop_last(), baseline, lo);
        }
    }
}

/// With a non-negative baseline the three boundaries are nested within the
/// list, so the four buckets tile the whole of the results.
pub proof fn lemma_boundaries_nested(s: Seq<(u64, Score)>, baseline: Score)
    requires
        all_wf(s),
        baseline.wf(),
        baseline.num >= 0,
    ensures
        0 <= boundary_pct(s, baseline, 95) <= boundary_pct(s, baseline, 75),
        boundary_pct(s, baseline, 75) <= boundary_pct(s, baseline, 50),
        boundary_pct(s, baseline, 50) <= s.len(),
{
    lemma_boundary_pct_monotone(s, baseline, 95, 75);
    lemma_boundary_pct_monotone(s, baseline, 75, 50);
    lemma_boundary_pct_props(s, baseline, 95);
    lemma_boundary_pct_props(s, baseline, 50);
}

/// Finds `boundary_pct`: the cut index for the `pct`% threshold.
fn find_boundary_pct(results: &Vec<(u64, Score)>, baseline: &Score, pct: u64) -> (r: usize)
    requires
        all_wf(results@),
        baseline.wf(),
        pct <= 100,
    ensures
        r == boundary_pct(results@, *baseline, pct as int),
{
    let mut idx: usize = results.len();
    proof {
        assert(results@.subrange(0, results@.len() as int) =~= results@);
    }
    while idx > 0
        invariant
            idx <= results.len(),
            all_wf(results@),
            baseline.wf(),
            pct <= 100,
            boundary_pct(results@, *baseline, pct as int) == boundary_pct(
                results@.subrange(0, idx as int),
                *baseline,
                pct as int,
            ),
        decreases idx,
    {
        let above = results[idx - 1].1.exceeds_pct_of(baseline, pct);
        proof {
            let pre = results@.subrange(0, idx as int);
            assert(pre.last() == results@[idx - 1]);
            if !above {
                assert(pre.drop_last() =~= results@.subrange(0, idx as int - 1));
            }
        }
        if above {
            return idx;
        }
        idx -= 1;
    }
    0
}

/// Copies `v[lo..hi]` into a fresh vector.
pub fn copy_range(v: &Vec<(u64, Score)>, lo: usize, hi: usize) -> (r: Vec<(u64, Score)>)
    requires
        lo <= hi <= v@.len(),
    ensures
        r@ == v@.subrange(lo as int, hi as int),
{
    let mut r: Vec<(u64, Score)> = Vec::new();
    let mut i: usize = lo;
    proof {
        assert(r@ =~= v@.subrange(lo as int, lo as int));
    }
    while i < hi
        invariant
            lo <= i <= hi <= v@.len(),
            r@ == v@.subrange(lo as int, i as int),
        decreases hi - i,
    {
        r.push(v[i]);
        proof {
            assert(v@.subrange(lo as int, i as int).push(v@[i as int]) =~= v@.subrange(
                lo as int,
                i as int + 1,
            ));
        }
        i += 1;
    }
    r
}

/// Buckets winners relative to the baseline validator's score.
///
/// The input must already be sorted descending by score; the partitioner
/// does not sort.  The four buckets cover, in order: above 95% of the
/// baseline, 95% to 75%, 75% to 50%, and everything under 50%, down to the
/// end of the list.
pub fn bucket_winners(results: &Vec<(u64, Score)>, baseline: &Score) -> (r: Vec<
    (Bucket, Vec<Winner>),
>)
    requires
        all_wf(results@),
        sorted_desc(results@),
        baseline.wf(),
        baseline.num >= 0,
    ensures
        buckets_view(r@) == spec_bucket_winners(results@, *baseline),
{
    proof {
        lemma_boundaries_nested(results@, *baseline);
    }
    let b95 = find_boundary_pct(results, baseline, 95);
    let b75 = find_boundary_pct(results, baseline, 75);
    let b50 = find_boundary_pct(results, baseline, 50);
    let high = copy_range(results, 0, b95);
    let medium = copy_range(results, b95, b75);
    let low = copy_range(results, b75, b50);
    let bottom = copy_range(results, b50, results.len());
    let mut r: Vec<(Bucket, Vec<Winner>)> = Vec::new();
    r.push((Bucket::High, high));
    r.push((Bucket::Medium, medium));
    r.push((Bucket::Low, low));
    r.push((Bucket::Bottom, bottom));
    proof {
        assert(buckets_view(r@) =~= spec_bucket_winners(results@, *baseline));
    }
    r
}

/// Bucketing never splits a tie: two adjacent results of equal score always
/// land in the same bucket, because no threshold boundary falls between
/// them.
pub proof fn lemma_buckets_never_split_ties(s: Seq<(u64, Score)>, baseline: Score, i: int)
    requires
        all_wf(s),
        baseline.wf(),
        0 <= i,
        i + 1 < s.len(),
        crate::score::score_eqv(s[i].1, s[i + 1].1),
    ensures
        boundary_pct(s, baseline, 95) != i + 1,
        boundary_pct(s, baseline, 75) != i + 1,
        boundary_pct(s, baseline, 50) != i + 1,
{
    let a = s[i].1;
    let b = s[i + 1].1;
    lemma_eqv_same_exceeds(a, b, baseline, 95);
    lemma_eqv_same_exceeds(a, b, baseline, 75);
    lemma_eqv_same_exceeds(a, b, baseline, 50);
    lemma_boundary_pct_props(s, baseline, 95);
    lemma_boundary_pct_props(s, baseline, 75);
    lemma_boundary_pct_props(s, baseline, 50);
}

/// Equal rational values clear exactly the same percentage thresholds.
proof fn lemma_eqv_same_exceeds(a: Score, b: Score, baseline: Score, pct: int)
    requires
        a.wf(),
        b.wf(),
        baseline.wf(),
        crate::score::score_eqv(a, b),
    ensures
        score_exceeds_pct(a, baseline, pct) == score_exceeds_pct(b, baseline, pct),
{
    assert((100 * (a.num as int) * (baseline.den as int) > pct * (baseline.num as int) * (
    a.den as int)) == (100 * (b.num as int) * (baseline.den as int) > pct * (baseline.num as int)
        * (b.den as int))) by (nonlinear_arith)
        requires
            (a.num as int) * (b.den as int) == (b.num as int) * (a.den as int),
            a.den > 0,
            b.den > 0,
            baseline.den > 0,
    ;
}

/// The buckets, concatenated, are exactly the results: every entry appears
/// in exactly one bucket, in order and without duplication.
pub proof fn lemma_buckets_concat(s: Seq<(u64, Score)>, baseline: Score)
    requires
        all_wf(s),
        baseline.wf(),
        baseline.num >= 0,
    ensures
        spec_bucket_winners(s, baseline)[0].1 + spec_bucket_winners(s, baseline)[1].1
            + spec_bucket_winners(s, baseline)[2].1 + spec_bucket_winners(s, baseline)[3].1
            =~= s,
{
    lemma_boundaries_nested(s, baseline);
}

/// Copies a vector of ids.
pub fn copy_u64_vec(v: &Vec<u64>) -> (r: Vec<u64>)
    ensures
        r@ == v@,
{
    let mut r: Vec<u64> = Vec::new();
    let n = v.len();
    let mut i: usize = 0;
    proof {
        assert(r@ =~= v@.subrange(0, 0));
    }
    while i < n
        invariant
            n == v@.len(),
            i <= n,
            r@ == v@.subrange(0, i as int),
        decreases n - i,
    {
        r.push(v[i]);
        proof {
            assert(v@.subrange(0, i as int).push(v@[i as int]) =~= v@.subrange(0, i as int + 1));
        }
        i += 1;
    }
    proof {
        assert(v@.subrange(0, n as int) =~= v@);
    }
    r
}

/// Whether `x` occurs in `v`.
pub fn vec_contains_u64(v: &Vec<u64>, x: u64) -> (r: bool)
    ensures
        r == v@.contains(x),
{
    let n = v.len();
    let mut i: usize = 0;
    while i < n
        invariant
            n == v@.len(),
            i <= n,
            forall|q: int| 0 <= q < i ==> v@[q] != x,
        decreases n - i,
    {
        if v[i] == x {
            return true;
        }
        i += 1;
    }
    false
}

/// How long `n` slots take, in whole seconds, rounded up: derived from the
/// tick length and the tick count per slot.
pub fn slots_to_secs(num_slots: u64, ticks_per_slot: u64, tick_millis: u64) -> (r: u64)
    requires
        0 < tick_millis <= 1000,
        (num_slots as int) * (ticks_per_slot as int) + 1000int / (tick_millis as int)
            <= u64::MAX as int,
    ensures
        r == ((num_slots as int) * (ticks_per_slot as int) + 1000int / (tick_millis as int) - 1)
            / (1000int / (tick_millis as int)),
{
    let ticks_per_second: u64 = 1000 / tick_millis;
    proof {
        assert((num_slots as int) * (ticks_per_slot as int) >= 0) by (nonlinear_arith);
        assert(1000int / (tick_millis as int) >= 1) by (nonlinear_arith)
            requires
                0 < tick_millis <= 1000,
        ;
    }
    let num_ticks: u64 = num_slots * ticks_per_slot;
    (num_ticks + (ticks_per_second - 1)) / ticks_per_second
}

} // verus!
