//! Ordered per-slot collections for the latency scorer.
//!
//! `SlotVoters` collects, during one checkpoint, the voters newly observed
//! for each slot.  `SlotVoterSegments` is the windowed history: for each
//! slot, the ordered list of segments (one per checkpoint) of voters that
//! appeared for it.  Both keep their entries sorted by slot, strictly
//! increasing, so the eviction watermark removes exactly a prefix.

use vstd::prelude::*;

use crate::keymap::spec_get;

verus! {

/// Keys are strictly increasing.
pub open spec fn keys_sorted<V>(s: Seq<(u64, V)>) -> bool {
    forall|i: int, j: int| 0 <= i < j < s.len() ==> (#[trigger] s[i]).0 < (#[trigger] s[j]).0
}

/// The sequence-of-sequences view of a list of voter lists.
pub open spec fn segs_view(v: Seq<Vec<u64>>) -> Seq<Seq<u64>> {
    Seq::new(v.len(), |i: int| v[i]@)
}

/// The abstract view of raw `(slot, segments)` entries.
pub open spec fn entries_view(s: Seq<(u64, Vec<Vec<u64>>)>) -> Seq<(u64, Seq<Seq<u64>>)> {
    Seq::new(s.len(), |i: int| (s[i].0, segs_view(s[i].1@)))
}

/// Appends `voter` to the list for `slot`, creating the slot's entry at its
/// sorted position when absent.
pub open spec fn spec_add_voter(s: Seq<(u64, Seq<u64>)>, slot: u64, voter: u64) -> Seq<
    (u64, Seq<u64>),
>
    decreases s.len(),
{
    if s.len() == 0 {
        seq![(slot, seq![voter])]
    } else if s[0].0 == slot {
        seq![(s[0].0, s[0].1.push(voter))] + s.drop_first()
    } else if slot < s[0].0 {
        seq![(slot, seq![voter])] + s
    } else {
        seq![s[0]] + spec_add_voter(s.drop_first(), slot, voter)
    }
}

/// Appends one segment to the list for `slot`, creating the slot's entry at
/// its sorted position when absent.
pub open spec fn spec_push_segment(
    s: Seq<(u64, Seq<Seq<u64>>)>,
    slot: u64,
    seg: Seq<u64>,
) -> Seq<(u64, Seq<Seq<u64>>)>
    decreases s.len(),
{
    if s.len() == 0 {
        seq![(slot, seq![seg])]
    } else if s[0].0 == slot {
        seq![(s[0].0, s[0].1.push(seg))] + s.drop_first()
    } else if slot < s[0].0 {
        seq![(slot, seq![seg])] + s
    } else {
        seq![s[0]] + spec_push_segment(s.drop_first(), slot, seg)
    }
}

/// The entries whose slot lies strictly below the watermark.
pub open spec fn spec_evicted(s: Seq<(u64, Seq<Seq<u64>>)>, watermark: u64) -> Seq<
    (u64, Seq<Seq<u64>>),
>
    decreases s.len(),
{
    if s.len() > 0 && s[0].0 < watermark {
        seq![s[0]] + spec_evicted(s.drop_first(), watermark)
    } else {
        Seq::empty()
    }
}

/// The entries that survive the watermark.
pub open spec fn spec_kept(s: Seq<(u64, Seq<Seq<u64>>)>, watermark: u64) -> Seq<
    (u64, Seq<Seq<u64>>),
>
    decreases s.len(),
{
    if s.len() > 0 && s[0].0 < watermark {
        spec_kept(s.drop_first(), watermark)
    } else {
        s
    }
}

/// The voters newly observed for each slot during one checkpoint, sorted by
/// slot.
pub struct SlotVoters {
    entries: Vec<(u64, Vec<u64>)>,
}

impl View for SlotVoters {
    type V = Seq<(u64, Seq<u64>)>;

    closed spec fn view(&self) -> Seq<(u64, Seq<u64>)> {
        Seq::new(self.entries@.len(), |i: int| (self.entries@[i].0, self.entries@[i].1@))
    }
}

impl SlotVoters {
    pub open spec fn wf(&self) -> bool {
        keys_sorted(self@)
    }

    pub fn new() -> (r: Self)
        ensures
            r@ == Seq::<(u64, Seq<u64>)>::empty(),
            r.wf(),
    {
        let r = SlotVoters { entries: Vec::new() };
        proof {
            assert(r@ =~= Seq::<(u64, Seq<u64>)>::empty());
        }
        r
    }

    pub fn len(&self) -> (r: usize)
        ensures
            r == self@.len(),
    {
        self.entries.len()
    }

    /// The entry at position `i`, slots ascending.
    pub fn entry_at(&self, i: usize) -> (r: (u64, &Vec<u64>))
        requires
            i < self@.len(),
        ensures
            r.0 == self@[i as int].0,
            r.1@ == self@[i as int].1,
    {
        (self.entries[i].0, &self.entries[i].1)
    }

    /// The voters recorded for `slot`, if any.
    pub fn get(&self, slot: u64) -> (r: Option<&Vec<u64>>)
        ensures
            match r {
                Some(v) => spec_get(self@, slot) == Some(v@),
                None => spec_get(self@, slot) is None,
            },
    {
        let n = self.entries.len();
        let mut i: usize = 0;
        while i < n
            invariant
                n == self.entries.len(),
                i <= n,
                forall|q: int| 0 <= q < i ==> (#[trigger] self@[q]).0 != slot,
            decreases n - i,
        {
            if self.entries[i].0 == slot {
                proof {
                    lemma_spec_get_found_at(self@, slot, i as int);
                }
                return Some(&self.entries[i].1);
            }
            i += 1;
        }
        proof {
            lemma_spec_get_absent_all(self@, slot);
        }
        None
    }

    /// Records that `voter` was newly observed voting for `slot`.
    #[verifier::loop_isolation(false)]
    pub fn add_voter(&mut self, slot: u64, voter: u64)
        requires
            old(self).wf(),
        ensures
            final(self)@ == spec_add_voter(old(self)@, slot, voter),
            final(self).wf(),
    {
        let ghost orig = self@;
        let n = self.entries.len();
        let mut i: usize = 0;
        while i < n && self.entries[i].0 < slot
            invariant
                self@ == orig,
                i <= n,
                forall|q: int| 0 <= q < i ==> (#[trigger] self@[q]).0 < slot,
            decreases n - i,
        {
            i += 1;
        }
        if i < n && self.entries[i].0 == slot {
            let mut pair = self.entries.remove(i);
            pair.1.push(voter);
            self.entries.insert(i, pair);
            proof {
                assert(self@ =~= orig.update(i as int, (slot, orig[i as int].1.push(voter))));
                lemma_add_voter_update(orig, slot, voter, i as int);
                lemma_keys_sorted_update(orig, i as int, (slot, orig[i as int].1.push(voter)));
            }
        } else {
            let mut fresh: Vec<u64> = Vec::new();
            fresh.push(voter);
            self.entries.insert(i, (slot, fresh));
            proof {
                assert(self@ =~= orig.insert(i as int, (slot, seq![voter])));
                lemma_add_voter_insert(orig, slot, voter, i as int);
                lemma_keys_sorted_insert(orig, i as int, (slot, seq![voter]));
            }
        }
    }
}

/// The ordered record of voter segments per slot: one segment per checkpoint
/// that observed new votes for the slot, in checkpoint order.
pub struct SlotVoterSegments {
    entries: Vec<(u64, Vec<Vec<u64>>)>,
}

impl View for SlotVoterSegments {
    type V = Seq<(u64, Seq<Seq<u64>>)>;

    closed spec fn view(&self) -> Seq<(u64, Seq<Seq<u64>>)> {
        entries_view(self.entries@)
    }
}

impl SlotVoterSegments {
    pub open spec fn wf(&self) -> bool {
        keys_sorted(self@)
    }

    pub fn new() -> (r: Self)
        ensures
            r@ == Seq::<(u64, Seq<Seq<u64>>)>::empty(),
            r.wf(),
    {
        let r = SlotVoterSegments { entries: Vec::new() };
        proof {
            assert(r@ =~= Seq::<(u64, Seq<Seq<u64>>)>::empty());
        }
        r
    }

    pub fn len(&self) -> (r: usize)
        ensures
            r == self@.len(),
    {
        self.entries.len()
    }

    /// The entry at position `i`, slots ascending.
    pub fn entry_at(&self, i: usize) -> (r: (u64, &Vec<Vec<u64>>))
        requires
            i < self@.len(),
        ensures
            r.0 == self@[i as int].0,
            segs_view(r.1@) == self@[i as int].1,
    {
        (self.entries[i].0, &self.entries[i].1)
    }

    /// The segments recorded for `slot`, if any.
    pub fn get(&self, slot: u64) -> (r: Option<&Vec<Vec<u64>>>)
        ensures
            match r {
                Some(v) => spec_get(self@, slot) == Some(segs_view(v@)),
                None => spec_get(self@, slot) is None,
            },
    {
        let n = self.entries.len();
        let mut i: usize = 0;
        while i < n
            invariant
                n == self.entries.len(),
                i <= n,
                forall|q: int| 0 <= q < i ==> (#[trigger] self@[q]).0 != slot,
            decreases n - i,
        {
            if self.entries[i].0 == slot {
                proof {
                    lemma_spec_get_found_at(self@, slot, i as int);
                }
                return Some(&self.entries[i].1);
            }
            i += 1;
        }
        proof {
            lemma_spec_get_absent_all(self@, slot);
        }
        None
    }

    /// Appends one checkpoint's segment of voters for `slot`.
    #[verifier::loop_isolation(false)]
    pub fn push_segment(&mut self, slot: u64, seg: Vec<u64>)
        requires
            old(self).wf(),
        ensures
            final(self)@ == spec_push_segment(old(self)@, slot, seg@),
            final(self).wf(),
    {
        let ghost orig = self@;
        let ghost segq = seg@;
        let n = self.entries.len();
        let mut i: usize = 0;
        while i < n && self.entries[i].0 < slot
            invariant
                self@ == orig,
                i <= n,
                forall|q: int| 0 <= q < i ==> (#[trigger] self@[q]).0 < slot,
            decreases n - i,
        {
            i += 1;
        }
        if i < n && self.entries[i].0 == slot {
            let mut pair = self.entries.remove(i);
            pair.1.push(seg);
            self.entries.insert(i, pair);
            proof {
                assert(segs_view(pair.1@) =~= orig[i as int].1.push(segq));
                assert(self@ =~= orig.update(i as int, (slot, orig[i as int].1.push(segq))));
                lemma_push_segment_update(orig, slot, segq, i as int);
                lemma_keys_sorted_update(orig, i as int, (slot, orig[i as int].1.push(segq)));
            }
        } else {
            let mut fresh: Vec<Vec<u64>> = Vec::new();
            fresh.push(seg);
            self.entries.insert(i, (slot, fresh));
            proof {
                assert(segs_view(fresh@) =~= seq![segq]);
                assert(self@ =~= orig.insert(i as int, (slot, seq![segq])));
                lemma_push_segment_insert(orig, slot, segq, i as int);
                lemma_keys_sorted_insert(orig, i as int, (slot, seq![segq]));
            }
        }
    }

    /// An independent copy with the same entries.
    pub fn duplicated(&self) -> (r: Self)
        ensures
            r@ == self@,
            r.wf() == self.wf(),
    {
        let mut entries: Vec<(u64, Vec<Vec<u64>>)> = Vec::new();
        let n = self.entries.len();
        let mut i: usize = 0;
        proof {
            assert(entries_view(entries@) =~= entries_view(self.entries@).subrange(0, 0));
        }
        while i < n
            invariant
                n == self.entries.len(),
                i <= n,
                entries@.len() == i,
                entries_view(entries@) == entries_view(self.entries@).subrange(0, i as int),
            decreases n - i,
        {
            let slot = self.entries[i].0;
            let src = &self.entries[i].1;
            let mut segs: Vec<Vec<u64>> = Vec::new();
            let m = src.len();
            let mut j: usize = 0;
            proof {
                assert(segs_view(segs@) =~= segs_view(src@).subrange(0, 0));
            }
            while j < m
                invariant
                    m == src@.len(),
                    j <= m,
                    segs@.len() == j,
                    segs_view(segs@) == segs_view(src@).subrange(0, j as int),
                decreases m - j,
            {
                let mut seg: Vec<u64> = Vec::new();
                let l = src[j].len();
                let mut t: usize = 0;
                while t < l
                    invariant
                        j < src@.len(),
                        l == src@[j as int]@.len(),
                        t <= l,
                        seg@ == src@[j as int]@.subrange(0, t as int),
                    decreases l - t,
                {
                    seg.push(src[j][t]);
                    proof {
                        assert(src@[j as int]@.subrange(0, t as int).push(src@[j as int]@[t as int])
                            =~= src@[j as int]@.subrange(0, t as int + 1));
                    }
                    t += 1;
                }
                proof {
                    assert(src@[j as int]@.subrange(0, l as int) =~= src@[j as int]@);
                }
                let ghost segs_pre = segs@;
                segs.push(seg);
                proof {
                    assert(seg@ == src@[j as int]@);
                    assert(segs@ == segs_pre.push(seg));
                    assert(segs_pre.len() == j);
                    assert(forall|q: int| 0 <= q < j ==> segs_pre.push(seg)[q] == segs_pre[q]);
                    assert forall|q: int| 0 <= q < j + 1 implies segs_view(segs@)[q] == segs_view(
                        src@,
                    ).subrange(0, j as int + 1)[q] by {
                        if q < j {
                            assert(segs@[q] == segs_pre[q]);
                            assert(segs_view(segs_pre)[q] == segs_pre[q]@);
                            assert(segs_view(src@).subrange(0, j as int)[q] == segs_view(src@)[q]);
                        } else {
                            assert(segs_view(segs@)[q] == seg@);
                            assert(segs_view(src@)[q] == src@[q]@);
                        }
                    }
                    assert(segs_view(segs@) =~= segs_view(src@).subrange(0, j as int + 1));
                }
                j += 1;
            }
            proof {
                assert(segs_view(segs@) =~= segs_view(src@));
            }
            let ghost entries_pre = entries@;
            entries.push((slot, segs));
            proof {
                assert(entries@ == entries_pre.push((slot, segs)));
                assert(entries_pre.len() == i);
                assert(forall|q: int|
                    0 <= q < i ==> entries_pre.push((slot, segs))[q] == entries_pre[q]);
                assert forall|q: int| 0 <= q < i + 1 implies entries_view(entries@)[q]
                    == entries_view(self.entries@).subrange(0, i as int + 1)[q] by {
                    if q < i {
                        assert(entries@[q] == entries_pre[q]);
                        assert(entries_view(entries_pre)[q] == (entries_pre[q].0, segs_view(
                            entries_pre[q].1@,
                        )));
                        assert(entries_view(self.entries@).subrange(0, i as int)[q]
                            == entries_view(self.entries@)[q]);
                    } else {
                        assert(entries_view(entries@)[q] == (slot, segs_view(segs@)));
                        assert(entries_view(self.entries@)[q] == (self.entries@[q].0, segs_view(
                            self.entries@[q].1@,
                        )));
                    }
                }
                assert(entries_view(entries@) =~= entries_view(self.entries@).subrange(
                    0,
                    i as int + 1,
                ));
            }
            i += 1;
        }
        proof {
            assert(entries_view(entries@) =~= entries_view(self.entries@));
        }
        SlotVoterSegments { entries }
    }

    /// Removes and returns the entries for all slots strictly below the
    /// watermark (oldest first); they are due for scoring.
    pub fn evict_below(&mut self, watermark: u64) -> (r: Vec<(u64, Vec<Vec<u64>>)>)
        requires
            old(self).wf(),
        ensures
            entries_view(r@) == spec_evicted(old(self)@, watermark),
            final(self)@ == spec_kept(old(self)@, watermark),
            final(self).wf(),
            forall|q: int|
                0 <= q < entries_view(r@).len() ==> (#[trigger] entries_view(r@)[q]).0
                    < watermark,
    {
        let ghost orig = self@;
        let mut r: Vec<(u64, Vec<Vec<u64>>)> = Vec::new();
        proof {
            assert(entries_view(r@) =~= Seq::<(u64, Seq<Seq<u64>>)>::empty());
        }
        loop
            invariant
                keys_sorted(self@),
                spec_evicted(orig, watermark) =~= entries_view(r@) + spec_evicted(
                    self@,
                    watermark,
                ),
                spec_kept(orig, watermark) == spec_kept(self@, watermark),
                forall|q: int|
                    0 <= q < entries_view(r@).len() ==> (#[trigger] entries_view(r@)[q]).0
                        < watermark,
            ensures
                keys_sorted(self@),
                entries_view(r@) == spec_evicted(orig, watermark),
                self@ == spec_kept(orig, watermark),
                forall|q: int|
                    0 <= q < entries_view(r@).len() ==> (#[trigger] entries_view(r@)[q]).0
                        < watermark,
            decreases self@.len(),
        {
            if self.entries.len() == 0 {
                proof {
                    assert(self@.len() == 0);
                    assert(spec_evicted(self@, watermark) =~= Seq::<
                        (u64, Seq<Seq<u64>>),
                    >::empty());
                    assert(entries_view(r@) + spec_evicted(self@, watermark) =~= entries_view(
                        r@,
                    ));
                    assert(spec_kept(self@, watermark) == self@);
                }
                break ;
            }
            if self.entries[0].0 >= watermark {
                proof {
                    assert(spec_evicted(self@, watermark) =~= Seq::<
                        (u64, Seq<Seq<u64>>),
                    >::empty());
                    assert(entries_view(r@) + spec_evicted(self@, watermark) =~= entries_view(
                        r@,
                    ));
                    assert(spec_kept(self@, watermark) == self@);
                }
                break ;
            }
            let ghost pre = self@;
            let ghost rpre = r@;
            let head = self.entries.remove(0);
            r.push(head);
            proof {
                assert(self@ =~= pre.drop_first());
                assert(entries_view(r@) =~= entries_view(rpre).push(pre[0]));
                assert(entries_view(rpre) + spec_evicted(pre, watermark) =~= entries_view(r@)
                    + spec_evicted(self@, watermark));
                assert(keys_sorted(self@)) by {
                    assert(forall|q: int|
                        0 <= q < pre.drop_first().len() ==> pre.drop_first()[q] == pre[q + 1]);
                }
            }
        }
        r
    }
}

/// `spec_get` finds the entry at a matching index with no earlier match.
proof fn lemma_spec_get_found_at<V>(s: Seq<(u64, V)>, k: u64, i: int)
    requires
        0 <= i < s.len(),
        s[i].0 == k,
        forall|q: int| 0 <= q < i ==> (#[trigger] s[q]).0 != k,
    ensures
        spec_get(s, k) == Some(s[i].1),
    decreases i,
{
    if i > 0 {
        lemma_spec_get_found_at(s.drop_first(), k, i - 1);
    }
}

/// `spec_get` finds nothing when no key matches.
proof fn lemma_spec_get_absent_all<V>(s: Seq<(u64, V)>, k: u64)
    requires
        forall|q: int| 0 <= q < s.len() ==> (#[trigger] s[q]).0 != k,
    ensures
        spec_get(s, k) is None,
    decreases s.len(),
{
    if s.len() > 0 {
        lemma_spec_get_absent_all(s.drop_first(), k);
    }
}

/// Updating in place at the first slot that is not smaller realizes
/// `spec_add_voter` when that slot matches.
proof fn lemma_add_voter_update(s: Seq<(u64, Seq<u64>)>, slot: u64, voter: u64, i: int)
    requires
        0 <= i < s.len(),
        s[i].0 == slot,
        forall|q: int| 0 <= q < i ==> (#[trigger] s[q]).0 < slot,
    ensures
        spec_add_voter(s, slot, voter) == s.update(i, (slot, s[i].1.push(voter))),
    decreases i,
{
    if i == 0 {
        assert(spec_add_voter(s, slot, voter) =~= s.update(0, (slot, s[0].1.push(voter))));
    } else {
        lemma_add_voter_update(s.drop_first(), slot, voter, i - 1);
        assert(seq![s[0]] + s.drop_first().update(i - 1, (slot, s[i].1.push(voter))) =~= s.update(
            i,
            (slot, s[i].1.push(voter)),
        ));
    }
}

/// Inserting before the first larger slot realizes `spec_add_voter` when the
/// slot is absent.
proof fn lemma_add_voter_insert(s: Seq<(u64, Seq<u64>)>, slot: u64, voter: u64, i: int)
    requires
        0 <= i <= s.len(),
        forall|q: int| 0 <= q < i ==> (#[trigger] s[q]).0 < slot,
        i < s.len() ==> s[i].0 > slot,
    ensures
        spec_add_voter(s, slot, voter) == s.insert(i, (slot, seq![voter])),
    decreases i,
{
    if i == 0 {
        assert(spec_add_voter(s, slot, voter) =~= s.insert(0, (slot, seq![voter])));
    } else {
        lemma_add_voter_insert(s.drop_first(), slot, voter, i - 1);
        assert(seq![s[0]] + s.drop_first().insert(i - 1, (slot, seq![voter])) =~= s.insert(
            i,
            (slot, seq![voter]),
        ));
    }
}

/// Updating in place realizes `spec_push_segment` when the slot matches.
proof fn lemma_push_segment_update(s: Seq<(u64, Seq<Seq<u64>>)>, slot: u64, seg: Seq<u64>, i: int)
    requires
        0 <= i < s.len(),
        s[i].0 == slot,
        forall|q: int| 0 <= q < i ==> (#[trigger] s[q]).0 < slot,
    ensures
        spec_push_segment(s, slot, seg) == s.update(i, (slot, s[i].1.push(seg))),
    decreases i,
{
    if i == 0 {
        assert(spec_push_segment(s, slot, seg) =~= s.update(0, (slot, s[0].1.push(seg))));
    } else {
        lemma_push_segment_update(s.drop_first(), slot, seg, i - 1);
        assert(seq![s[0]] + s.drop_first().update(i - 1, (slot, s[i].1.push(seg))) =~= s.update(
            i,
            (slot, s[i].1.push(seg)),
        ));
    }
}

/// Inserting before the first larger slot realizes `spec_push_segment` when
/// the slot is absent.
proof fn lemma_push_segment_insert(s: Seq<(u64, Seq<Seq<u64>>)>, slot: u64, seg: Seq<u64>, i: int)
    requires
        0 <= i <= s.len(),
        forall|q: int| 0 <= q < i ==> (#[trigger] s[q]).0 < slot,
        i < s.len() ==> s[i].0 > slot,
    ensures
        spec_push_segment(s, slot, seg) == s.insert(i, (slot, seq![seg])),
    decreases i,
{
    if i == 0 {
        assert(spec_push_segment(s, slot, seg) =~= s.insert(0, (slot, seq![seg])));
    } else {
        lemma_push_segment_insert(s.drop_first(), slot, seg, i - 1);
        assert(seq![s[0]] + s.drop_first().insert(i - 1, (slot, seq![seg])) =~= s.insert(
            i,
            (slot, seq![seg]),
        ));
    }
}

/// Updating one entry without changing its key keeps the keys sorted.
proof fn lemma_keys_sorted_update<V>(s: Seq<(u64, V)>, i: int, p: (u64, V))
    requires
        keys_sorted(s),
        0 <= i < s.len(),
        p.0 == s[i].0,
    ensures
        keys_sorted(s.update(i, p)),
{
    let t = s.update(i, p);
    assert forall|a: int, b: int| 0 <= a < b < t.len() implies (#[trigger] t[a]).0
        < (#[trigger] t[b]).0 by {
        assert(s[a].0 < s[b].0);
    }
}

/// Inserting a key larger than everything before it and smaller than
/// everything from its position on keeps the keys sorted.
proof fn lemma_keys_sorted_insert<V>(s: Seq<(u64, V)>, i: int, p: (u64, V))
    requires
        keys_sorted(s),
        0 <= i <= s.len(),
        forall|q: int| 0 <= q < i ==> (#[trigger] s[q]).0 < p.0,
        i < s.len() ==> s[i].0 > p.0,
    ensures
        keys_sorted(s.insert(i, p)),
{
    let t = s.insert(i, p);
    assert forall|a: int, b: int| 0 <= a < b < t.len() implies (#[trigger] t[a]).0
        < (#[trigger] t[b]).0 by {
        if a < i && b > i {
            assert(t[a] == s[a]);
            assert(t[b] == s[b - 1]);
            if i < s.len() {
                if b - 1 > i {
                    assert(s[i].0 < s[b - 1].0);
                }
            }
        } else if a == i && b > i {
            assert(t[b] == s[b - 1]);
            if b - 1 > i {
                assert(s[i].0 < s[b - 1].0);
            }
        } else if a < i && b == i {
            assert(t[a] == s[a]);
        } else if b < i {
            assert(t[a] == s[a]);
            assert(t[b] == s[b]);
        } else if a > i {
            assert(t[a] == s[a - 1]);
            assert(t[b] == s[b - 1]);
        }
    }
}

} // verus!
