//! Exact rational scores.
//!
//! Every scorer produces `(validator_id, score)` pairs.  A score is kept as
//! an exact rational `num / den` so that comparisons and baseline thresholds
//! are decided exactly; availability scores are true fractions, while
//! latency and rewards scores are integers with denominator 1.

use vstd::prelude::*;

verus! {

/// Largest magnitude allowed for a score numerator (2^60).
pub const SCORE_NUM_BOUND: i64 = 0x1000_0000_0000_0000;

/// Largest value allowed for a score denominator (2^60).
pub const SCORE_DEN_BOUND: u64 = 0x1000_0000_0000_0000;

/// An exact rational score `num / den` with `den > 0`.
#[derive(Clone, Copy, Debug, PartialEq, Eq, Structural)]
pub struct Score {
    pub num: i64,
    pub den: u64,
}

impl Score {
    /// Bounds that keep every cross product used by comparisons within `i128`.
    pub open spec fn wf(self) -> bool {
        &&& -(SCORE_NUM_BOUND as int) <= self.num as int <= SCORE_NUM_BOUND as int
        &&& 0 < self.den as int <= SCORE_DEN_BOUND as int
    }

    pub fn new(num: i64, den: u64) -> (r: Score)
        requires
            -(SCORE_NUM_BOUND as int) <= num as int <= SCORE_NUM_BOUND as int,
            0 < den as int <= SCORE_DEN_BOUND as int,
        ensures
            r == (Score { num, den }),
            r.wf(),
    {
        Score { num, den }
    }

    /// The score of a plain integer quantity.
    pub fn from_int(num: i64) -> (r: Score)
        requires
            -(SCORE_NUM_BOUND as int) <= num as int <= SCORE_NUM_BOUND as int,
        ensures
            r == (Score { num, den: 1u64 }),
            r.wf(),
    {
        Score { num, den: 1 }
    }

    /// Exact comparison `self < other`.
    pub fn lt(&self, other: &Score) -> (r: bool)
        requires
            self.wf(),
            other.wf(),
        ensures
            r == score_lt(*self, *other),
    {
        proof {
            lemma_mul_bounds(self.num as int, other.den as int);
            lemma_mul_bounds(other.num as int, self.den as int);
        }
        (self.num as i128) * (other.den as i128) < (other.num as i128) * (self.den as i128)
    }

    /// Exact value equality: `self` and `other` denote the same rational.
    pub fn eq_value(&self, other: &Score) -> (r: bool)
        requires
            self.wf(),
            other.wf(),
        ensures
            r == score_eqv(*self, *other),
    {
        proof {
            lemma_mul_bounds(self.num as int, other.den as int);
            lemma_mul_bounds(other.num as int, self.den as int);
        }
        (self.num as i128) * (other.den as i128) == (other.num as i128) * (self.den as i128)
    }

    /// Exact test `self > (pct/100) * baseline`, for `pct <= 100`.
    pub fn exceeds_pct_of(&self, baseline: &Score, pct: u64) -> (r: bool)
        requires
            self.wf(),
            baseline.wf(),
            pct <= 100,
        ensures
            r == score_exceeds_pct(*self, *baseline, pct as int),
    {
        proof {
            lemma_mul_bounds(self.num as int, baseline.den as int);
            lemma_mul_bounds(baseline.num as int, self.den as int);
            lemma_mul_scale((baseline.num as int) * (self.den as int), pct as int);
        }
        let lhs: i128 = (self.num as i128) * (baseline.den as i128);
        let rhs: i128 = (baseline.num as i128) * (self.den as i128);
        let r = 100i128 * lhs > (pct as i128) * rhs;
        proof {
            assert(100 * ((self.num as int) * (baseline.den as int))
                == 100 * (self.num as int) * (baseline.den as int)) by (nonlinear_arith);
            assert((pct as int) * ((baseline.num as int) * (self.den as int))
                == (pct as int) * (baseline.num as int) * (self.den as int)) by (nonlinear_arith);
        }
        r
    }
}

/// `a < b` as rationals (denominators are positive).
pub open spec fn score_lt(a: Score, b: Score) -> bool {
    (a.num as int) * (b.den as int) < (b.num as int) * (a.den as int)
}

/// `a <= b` as rationals.
pub open spec fn score_le(a: Score, b: Score) -> bool {
    (a.num as int) * (b.den as int) <= (b.num as int) * (a.den as int)
}

/// `a` and `b` denote the same rational value.
pub open spec fn score_eqv(a: Score, b: Score) -> bool {
    (a.num as int) * (b.den as int) == (b.num as int) * (a.den as int)
}

/// `a > (pct/100) * b` as rationals.
pub open spec fn score_exceeds_pct(a: Score, b: Score, pct: int) -> bool {
    100 * (a.num as int) * (b.den as int) > pct * (b.num as int) * (a.den as int)
}

/// Every score in a `(validator_id, score)` sequence is well formed.
pub open spec fn all_wf(s: Seq<(u64, Score)>) -> bool {
    forall|i: int| 0 <= i < s.len() ==> (#[trigger] s[i]).1.wf()
}

/// The sequence is sorted by score, largest first.
pub open spec fn sorted_desc(s: Seq<(u64, Score)>) -> bool {
    forall|i: int, j: int|
        0 <= i < j < s.len() ==> score_le((#[trigger] s[j]).1, (#[trigger] s[i]).1)
}

/// Stable descending insertion: the new pair goes after existing pairs of
/// equal score, before the first strictly smaller one.
pub open spec fn insert_desc(x: (u64, Score), s: Seq<(u64, Score)>) -> Seq<(u64, Score)>
    decreases s.len(),
{
    if s.len() == 0 {
        seq![x]
    } else if score_lt(s[0].1, x.1) {
        seq![x] + s
    } else {
        seq![s[0]] + insert_desc(x, s.drop_first())
    }
}

/// Stable insertion sort, descending by score.
pub open spec fn sort_desc(s: Seq<(u64, Score)>) -> Seq<(u64, Score)>
    decreases s.len(),
{
    if s.len() == 0 {
        s
    } else {
        insert_desc(s.last(), sort_desc(s.drop_last()))
    }
}

/// Rational `<=` followed by `<` stays strict.
pub proof fn lemma_score_le_lt_trans(a: Score, b: Score, c: Score)
    requires
        a.wf(),
        b.wf(),
        c.wf(),
        score_le(a, b),
        score_lt(b, c),
    ensures
        score_lt(a, c),
{
    assert(score_lt(a, c)) by (nonlinear_arith)
        requires
            a.den > 0,
            b.den > 0,
            c.den > 0,
            (a.num as int) * (b.den as int) <= (b.num as int) * (a.den as int),
            (b.num as int) * (c.den as int) < (c.num as int) * (b.den as int),
    ;
}

/// Inserting into a descending-sorted sequence keeps it sorted.
proof fn lemma_insert_desc_sorted(x: (u64, Score), s: Seq<(u64, Score)>)
    requires
        x.1.wf(),
        all_wf(s),
        sorted_desc(s),
    ensures
        sorted_desc(insert_desc(x, s)),
        all_wf(insert_desc(x, s)),
        insert_desc(x, s).len() == s.len() + 1,
    decreases s.len(),
{
    let r = insert_desc(x, s);
    if s.len() == 0 {
    } else if score_lt(s[0].1, x.1) {
        assert forall|i: int, j: int| 0 <= i < j < r.len() implies score_le(r[j].1, r[i].1) by {
            if i == 0 && j >= 2 {
                assert(r[j] == s[j - 1]);
                assert(score_le(s[j - 1].1, s[0].1));
                lemma_score_le_lt_trans(s[j - 1].1, s[0].1, x.1);
            } else if i >= 1 {
                assert(r[i] == s[i - 1]);
                assert(r[j] == s[j - 1]);
            }
        }
    } else {
        let t = s.drop_first();
        lemma_insert_desc_sorted(x, t);
        let rt = insert_desc(x, t);
        // every element of rt is <= s[0]
        assert forall|j: int| 0 <= j < rt.len() implies score_le(rt[j].1, s[0].1) by {
            lemma_insert_desc_le_bound(x, t, s[0].1, j);
        }
        assert forall|i: int, j: int| 0 <= i < j < r.len() implies score_le(r[j].1, r[i].1) by {
            if i >= 1 {
                assert(r[i] == rt[i - 1]);
                assert(r[j] == rt[j - 1]);
            } else {
                assert(r[j] == rt[j - 1]);
            }
        }
    }
}

/// Helper: if a bound dominates `x` and every element of `s`, it dominates
/// every element of the insertion of `x` into `s`.
proof fn lemma_insert_desc_le_bound(x: (u64, Score), s: Seq<(u64, Score)>, bound: Score, j: int)
    requires
        x.1.wf(),
        all_wf(s),
        bound.wf(),
        score_le(x.1, bound),
        forall|i: int| 0 <= i < s.len() ==> score_le((#[trigger] s[i]).1, bound),
        0 <= j < insert_desc(x, s).len(),
    ensures
        score_le(insert_desc(x, s)[j].1, bound),
    decreases s.len(),
{
    if s.len() == 0 {
    } else if score_lt(s[0].1, x.1) {
    } else {
        if j >= 1 {
            lemma_insert_desc_le_bound(x, s.drop_first(), bound, j - 1);
        }
    }
}

/// Insertion adds exactly the new pair to the sequence's multiset.
proof fn lemma_insert_desc_multiset(x: (u64, Score), s: Seq<(u64, Score)>)
    ensures
        insert_desc(x, s).to_multiset() =~= s.to_multiset().insert(x),
    decreases s.len(),
{
    broadcast use vstd::seq_lib::group_to_multiset_ensures;

    if s.len() == 0 {
        assert(insert_desc(x, s) =~= Seq::<(u64, Score)>::empty().push(x));
    } else if score_lt(s[0].1, x.1) {
        lemma_multiset_prepend(x, s);
    } else {
        let t = s.drop_first();
        lemma_insert_desc_multiset(x, t);
        lemma_multiset_prepend(s[0], t);
        lemma_multiset_prepend(s[0], insert_desc(x, t));
        assert(s =~= seq![s[0]] + t);
    }
}

/// Prepending one element inserts it into the multiset.
proof fn lemma_multiset_prepend(x: (u64, Score), s: Seq<(u64, Score)>)
    ensures
        (seq![x] + s).to_multiset() =~= s.to_multiset().insert(x),
    decreases s.len(),
{
    broadcast use vstd::seq_lib::group_to_multiset_ensures;

    if s.len() == 0 {
        assert(seq![x] + s =~= Seq::<(u64, Score)>::empty().push(x));
    } else {
        let t = s.drop_last();
        lemma_multiset_prepend(x, t);
        assert(seq![x] + s =~= (seq![x] + t).push(s.last()));
        assert(s =~= t.push(s.last()));
        assert((seq![x] + s).to_multiset() =~= (seq![x] + t).to_multiset().insert(s.last()));
        assert(s.to_multiset() =~= t.to_multiset().insert(s.last()));
    }
}

/// The sort's output is sorted, descending by score.
pub proof fn lemma_sort_desc_sorted(s: Seq<(u64, Score)>)
    requires
        all_wf(s),
    ensures
        sorted_desc(sort_desc(s)),
        all_wf(sort_desc(s)),
        sort_desc(s).len() == s.len(),
    decreases s.len(),
{
    if s.len() > 0 {
        lemma_sort_desc_sorted(s.drop_last());
        lemma_insert_desc_sorted(s.last(), sort_desc(s.drop_last()));
    }
}

/// The sort's output holds exactly the input pairs: it is a permutation.
pub proof fn lemma_sort_desc_multiset(s: Seq<(u64, Score)>)
    ensures
        sort_desc(s).to_multiset() =~= s.to_multiset(),
    decreases s.len(),
{
    broadcast use vstd::seq_lib::group_to_multiset_ensures;

    if s.len() > 0 {
        let t = s.drop_last();
        lemma_sort_desc_multiset(t);
        lemma_insert_desc_multiset(s.last(), sort_desc(t));
        assert(s =~= t.push(s.last()));
    }
}

/// Every score numerator in the sequence is non-negative.
pub open spec fn all_nums_nonneg(s: Seq<(u64, Score)>) -> bool {
    forall|i: int| 0 <= i < s.len() ==> (#[trigger] s[i]).1.num >= 0
}

/// Insertion keeps every numerator non-negative.
proof fn lemma_insert_desc_nonneg(x: (u64, Score), s: Seq<(u64, Score)>, j: int)
    requires
        x.1.num >= 0,
        all_nums_nonneg(s),
        0 <= j < insert_desc(x, s).len(),
    ensures
        insert_desc(x, s)[j].1.num >= 0,
    decreases s.len(),
{
    if s.len() == 0 {
    } else if score_lt(s[0].1, x.1) {
    } else {
        if j >= 1 {
            lemma_insert_desc_nonneg(x, s.drop_first(), j - 1);
        }
    }
}

/// Sorting keeps every numerator non-negative.
pub proof fn lemma_sort_desc_nonneg(s: Seq<(u64, Score)>)
    requires
        all_nums_nonneg(s),
    ensures
        all_nums_nonneg(sort_desc(s)),
    decreases s.len(),
{
    if s.len() > 0 {
        let t = s.drop_last();
        assert(forall|q: int| 0 <= q < t.len() ==> t[q] == s[q]);
        lemma_sort_desc_nonneg(t);
        assert forall|j: int| 0 <= j < sort_desc(s).len() implies (#[trigger] sort_desc(
            s,
        )[j]).1.num >= 0 by {
            lemma_insert_desc_nonneg(s.last(), sort_desc(t), j);
        }
    }
}

/// Characterizes where an insertion lands: splitting at the first strictly
/// smaller element reproduces `insert_desc`.
proof fn lemma_insert_desc_split(x: (u64, Score), s: Seq<(u64, Score)>, p: int)
    requires
        0 <= p <= s.len(),
        forall|q: int| 0 <= q < p ==> !score_lt((#[trigger] s[q]).1, x.1),
        p < s.len() ==> score_lt(s[p].1, x.1),
    ensures
        insert_desc(x, s) == s.subrange(0, p).push(x) + s.subrange(p, s.len() as int),
    decreases s.len(),
{
    if s.len() == 0 {
        assert(insert_desc(x, s) =~= s.subrange(0, p).push(x) + s.subrange(p, s.len() as int));
    } else if score_lt(s[0].1, x.1) {
        assert(p == 0);
        assert(s.subrange(0, 0).push(x) + s.subrange(0, s.len() as int) =~= seq![x] + s);
    } else {
        let t = s.drop_first();
        assert(forall|q: int| 0 <= q < p - 1 ==> !score_lt((#[trigger] t[q]).1, x.1)) by {
            assert(forall|q: int| 0 <= q < p - 1 ==> t[q] == s[q + 1]);
        }
        lemma_insert_desc_split(x, t, if p == 0 { 0 } else { p - 1 });
        if p == 0 {
            assert(seq![s[0]] + (t.subrange(0, 0).push(x) + t.subrange(0, t.len() as int))
                =~= s.subrange(0, 0).push(x) + s.subrange(0, s.len() as int));
        } else {
            assert(seq![s[0]] + (t.subrange(0, p - 1).push(x) + t.subrange(p - 1, t.len() as int))
                =~= s.subrange(0, p).push(x) + s.subrange(p, s.len() as int));
        }
    }
}

/// Sorts `(validator_id, score)` pairs descending by score; ties keep their
/// input order.
pub fn sort_desc_exec(input: &Vec<(u64, Score)>) -> (r: Vec<(u64, Score)>)
    requires
        all_wf(input@),
    ensures
        r@ == sort_desc(input@),
        all_wf(r@),
        sorted_desc(r@),
{
    let mut r: Vec<(u64, Score)> = Vec::new();
    let n = input.len();
    let mut i: usize = 0;
    while i < n
        invariant
            n == input.len(),
            i <= n,
            all_wf(input@),
            r@ == sort_desc(input@.subrange(0, i as int)),
            all_wf(r@),
            sorted_desc(r@),
        decreases n - i,
    {
        let x = input[i];
        let mut p: usize = 0;
        loop
            invariant
                p <= r.len(),
                all_wf(r@),
                x.1.wf(),
                forall|q: int| 0 <= q < p ==> !score_lt((#[trigger] r@[q]).1, x.1),
            ensures
                p <= r.len(),
                forall|q: int| 0 <= q < p ==> !score_lt((#[trigger] r@[q]).1, x.1),
                p < r.len() ==> score_lt(r@[p as int].1, x.1),
            decreases r.len() - p,
        {
            if p == r.len() {
                break;
            }
            if r[p].1.lt(&x.1) {
                break;
            }
            p += 1;
        }
        proof {
            lemma_insert_desc_split(x, r@, p as int);
        }
        r.insert(p, x);
        proof {
            let prefix = input@.subrange(0, i as int);
            let prefix1 = input@.subrange(0, i as int + 1);
            assert(prefix1.drop_last() =~= prefix);
            assert(prefix1.last() == input@[i as int]);
            assert(r@ =~= insert_desc(x, sort_desc(prefix)));
            lemma_sort_desc_sorted(prefix1);
        }
        i += 1;
    }
    proof {
        assert(input@.subrange(0, n as int) =~= input@);
    }
    r
}

/// Cross products of well-formed scores stay far inside `i128`.
proof fn lemma_mul_bounds(a: int, b: int)
    requires
        -(SCORE_NUM_BOUND as int) <= a <= SCORE_NUM_BOUND as int,
        -(SCORE_DEN_BOUND as int) <= b <= SCORE_DEN_BOUND as int,
    ensures
        -(0x1000000000000000000000000000000 as int) <= a * b
            <= 0x1000000000000000000000000000000 as int,
{
    assert(-(0x1000000000000000000000000000000 as int) <= a * b
        <= 0x1000000000000000000000000000000 as int) by (nonlinear_arith)
        requires
            -(0x1000_0000_0000_0000 as int) <= a <= 0x1000_0000_0000_0000 as int,
            -(0x1000_0000_0000_0000 as int) <= b <= 0x1000_0000_0000_0000 as int,
    ;
}

/// Scaling a bounded cross product by at most 100 stays inside `i128`.
proof fn lemma_mul_scale(p: int, c: int)
    requires
        -(0x1000000000000000000000000000000 as int) <= p
            <= 0x1000000000000000000000000000000 as int,
        0 <= c <= 100,
    ensures
        -(100 * 0x1000000000000000000000000000000 as int) <= c * p
            <= 100 * 0x1000000000000000000000000000000 as int,
{
    assert(-(100 * 0x1000000000000000000000000000000 as int) <= c * p
        <= 100 * 0x1000000000000000000000000000000 as int) by (nonlinear_arith)
        requires
            -(0x1000000000000000000000000000000 as int) <= p
                <= 0x1000000000000000000000000000000 as int,
            0 <= c <= 100,
    ;
}

} // verus!
