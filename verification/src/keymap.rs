//! A small association map from `u64` keys to values.
//!
//! The scorers key every per-validator statistic by an integer identity.
//! Entries keep their insertion order, so iteration (and therefore every
//! result list built from a map) is deterministic.  The view is the plain
//! sequence of `(key, value)` pairs; `spec_get`, `spec_set` and
//! `spec_remove` give the first-occurrence semantics of the operations.

use vstd::prelude::*;

verus! {

/// The value bound to `k`: the first pair of `s` whose key is `k`.
pub open spec fn spec_get<V>(s: Seq<(u64, V)>, k: u64) -> Option<V>
    decreases s.len(),
{
    if s.len() == 0 {
        None
    } else if s[0].0 == k {
        Some(s[0].1)
    } else {
        spec_get(s.drop_first(), k)
    }
}

/// Binds `k` to `v`: updates the first pair with key `k` in place, or
/// appends a new pair when `k` is absent.
pub open spec fn spec_set<V>(s: Seq<(u64, V)>, k: u64, v: V) -> Seq<(u64, V)>
    decreases s.len(),
{
    if s.len() == 0 {
        seq![(k, v)]
    } else if s[0].0 == k {
        seq![(k, v)] + s.drop_first()
    } else {
        seq![s[0]] + spec_set(s.drop_first(), k, v)
    }
}

/// Removes the first pair with key `k`, if any.
pub open spec fn spec_remove<V>(s: Seq<(u64, V)>, k: u64) -> Seq<(u64, V)>
    decreases s.len(),
{
    if s.len() == 0 {
        s
    } else if s[0].0 == k {
        s.drop_first()
    } else {
        seq![s[0]] + spec_remove(s.drop_first(), k)
    }
}

/// An insertion-ordered map from `u64` keys to `V` values.
pub struct KeyMap<V> {
    pairs: Vec<(u64, V)>,
}

impl<V> View for KeyMap<V> {
    type V = Seq<(u64, V)>;

    closed spec fn view(&self) -> Seq<(u64, V)> {
        self.pairs@
    }
}

impl<V: Copy> KeyMap<V> {
    pub fn new() -> (r: Self)
        ensures
            r@ == Seq::<(u64, V)>::empty(),
    {
        KeyMap { pairs: Vec::new() }
    }

    pub fn len(&self) -> (r: usize)
        ensures
            r == self@.len(),
    {
        self.pairs.len()
    }

    /// The pair stored at position `i`, in insertion order.
    pub fn pair_at(&self, i: usize) -> (r: (u64, V))
        requires
            i < self@.len(),
        ensures
            r == self@[i as int],
    {
        self.pairs[i]
    }

    /// Looks the key up, returning a copy of its value.
    pub fn get_copy(&self, k: u64) -> (r: Option<V>)
        ensures
            r == spec_get(self@, k),
    {
        let n = self.pairs.len();
        let mut i: usize = 0;
        while i < n
            invariant
                n == self.pairs.len(),
                i <= n,
                forall|q: int| 0 <= q < i ==> (#[trigger] self.pairs@[q]).0 != k,
            decreases n - i,
        {
            if self.pairs[i].0 == k {
                proof {
                    lemma_spec_get_found(self.pairs@, k, i as int);
                }
                return Some(self.pairs[i].1);
            }
            i += 1;
        }
        proof {
            lemma_spec_get_absent(self.pairs@, k);
        }
        None
    }

    /// Binds `k` to `v`, updating in place or appending.
    pub fn set(&mut self, k: u64, v: V)
        ensures
            final(self)@ == spec_set(old(self)@, k, v),
    {
        let n = self.pairs.len();
        let mut i: usize = 0;
        while i < n
            invariant
                n == self.pairs.len(),
                i <= n,
                self.pairs@ == old(self).pairs@,
                forall|q: int| 0 <= q < i ==> (#[trigger] self.pairs@[q]).0 != k,
            decreases n - i,
        {
            if self.pairs[i].0 == k {
                proof {
                    lemma_spec_set_found(self.pairs@, k, v, i as int);
                }
                self.pairs.set(i, (k, v));
                return;
            }
            i += 1;
        }
        proof {
            lemma_spec_set_absent(self.pairs@, k, v);
        }
        self.pairs.push((k, v));
    }

    /// An independent copy with the same entries.
    pub fn duplicated(&self) -> (r: Self)
        ensures
            r@ == self@,
    {
        let mut pairs: Vec<(u64, V)> = Vec::new();
        let n = self.pairs.len();
        let mut i: usize = 0;
        while i < n
            invariant
                n == self.pairs.len(),
                i <= n,
                pairs@ == self.pairs@.subrange(0, i as int),
            decreases n - i,
        {
            pairs.push(self.pairs[i]);
            proof {
                assert(self.pairs@.subrange(0, i as int).push(self.pairs@[i as int])
                    =~= self.pairs@.subrange(0, i as int + 1));
            }
            i += 1;
        }
        proof {
            assert(self.pairs@.subrange(0, n as int) =~= self.pairs@);
        }
        KeyMap { pairs }
    }

    /// Removes the binding of `k`, returning the removed value.
    pub fn remove(&mut self, k: u64) -> (r: Option<V>)
        ensures
            r == spec_get(old(self)@, k),
            final(self)@ == spec_remove(old(self)@, k),
    {
        let n = self.pairs.len();
        let mut i: usize = 0;
        while i < n
            invariant
                n == self.pairs.len(),
                i <= n,
                self.pairs@ == old(self).pairs@,
                forall|q: int| 0 <= q < i ==> (#[trigger] self.pairs@[q]).0 != k,
            decreases n - i,
        {
            if self.pairs[i].0 == k {
                proof {
                    lemma_spec_get_found(self.pairs@, k, i as int);
                    lemma_spec_remove_found(self.pairs@, k, i as int);
                }
                let pair = self.pairs.remove(i);
                return Some(pair.1);
            }
            i += 1;
        }
        proof {
            lemma_spec_get_absent(self.pairs@, k);
            lemma_spec_remove_absent(self.pairs@, k);
        }
        None
    }
}

/// Every value in the map is at most `b`.
pub open spec fn values_le(m: Seq<(u64, u64)>, b: int) -> bool {
    forall|i: int| 0 <= i < m.len() ==> (#[trigger] m[i]).1 <= b
}

/// Binding one bounded value keeps all values bounded.
pub proof fn lemma_spec_set_values_le(m: Seq<(u64, u64)>, k: u64, v: u64, b: int)
    requires
        values_le(m, b),
        v <= b,
    ensures
        values_le(spec_set(m, k, v), b),
    decreases m.len(),
{
    if m.len() > 0 && m[0].0 != k {
        lemma_spec_set_values_le(m.drop_first(), k, v, b);
    }
}

/// Removing a binding keeps all values bounded.
pub proof fn lemma_spec_remove_values_le(m: Seq<(u64, u64)>, k: u64, b: int)
    requires
        values_le(m, b),
    ensures
        values_le(spec_remove(m, k), b),
    decreases m.len(),
{
    if m.len() > 0 && m[0].0 != k {
        lemma_spec_remove_values_le(m.drop_first(), k, b);
    }
}

/// A value found in a bounded map is bounded.
pub proof fn lemma_spec_get_value_le(m: Seq<(u64, u64)>, k: u64, b: int)
    requires
        values_le(m, b),
        spec_get(m, k) is Some,
    ensures
        spec_get(m, k)->Some_0 <= b,
    decreases m.len(),
{
    if m.len() > 0 && m[0].0 != k {
        lemma_spec_get_value_le(m.drop_first(), k, b);
    }
}

/// What a lookup finds after a binding: the new value at that key, the old
/// answer elsewhere.
pub proof fn lemma_spec_set_get<V>(s: Seq<(u64, V)>, k: u64, v: V, k2: u64)
    ensures
        spec_get(spec_set(s, k, v), k2) == if k2 == k {
            Some(v)
        } else {
            spec_get(s, k2)
        },
    decreases s.len(),
{
    if s.len() == 0 {
        let r = spec_set(s, k, v);
        assert(r == seq![(k, v)]);
        if k2 != k {
            assert(r.drop_first() =~= Seq::<(u64, V)>::empty());
            assert(spec_get(r.drop_first(), k2) is None);
        }
    } else if s[0].0 == k {
        let r = spec_set(s, k, v);
        assert(r[0] == (k, v));
        assert(r.drop_first() =~= s.drop_first());
    } else {
        lemma_spec_set_get(s.drop_first(), k, v, k2);
        let r = spec_set(s, k, v);
        assert(r[0] == s[0]);
        assert(r.drop_first() =~= spec_set(s.drop_first(), k, v));
    }
}

/// Binding a value that satisfies `p` keeps `p` true of every value.
pub proof fn lemma_spec_set_preserves<V>(s: Seq<(u64, V)>, k: u64, v: V, p: spec_fn(V) -> bool)
    requires
        forall|i: int| 0 <= i < s.len() ==> p((#[trigger] s[i]).1),
        p(v),
    ensures
        forall|i: int|
            0 <= i < spec_set(s, k, v).len() ==> p((#[trigger] spec_set(s, k, v)[i]).1),
    decreases s.len(),
{
    if s.len() > 0 && s[0].0 != k {
        assert(forall|i: int|
            0 <= i < s.drop_first().len() ==> p((#[trigger] s.drop_first()[i]).1));
        lemma_spec_set_preserves(s.drop_first(), k, v, p);
    }
    assert forall|i: int| 0 <= i < spec_set(s, k, v).len() implies p(
        (#[trigger] spec_set(s, k, v)[i]).1,
    ) by {
        if s.len() == 0 {
        } else if s[0].0 == k {
            if i >= 1 {
                assert(spec_set(s, k, v)[i] == s[i]);
            }
        } else {
            if i >= 1 {
                assert(spec_set(s, k, v)[i] == spec_set(s.drop_first(), k, v)[i - 1]);
            } else {
                assert(spec_set(s, k, v)[0] == s[0]);
            }
        }
    }
}

/// A value found in the map satisfies whatever every value satisfies.
pub proof fn lemma_spec_get_preserves<V>(s: Seq<(u64, V)>, k: u64, p: spec_fn(V) -> bool)
    requires
        forall|i: int| 0 <= i < s.len() ==> p((#[trigger] s[i]).1),
        spec_get(s, k) is Some,
    ensures
        p(spec_get(s, k)->Some_0),
    decreases s.len(),
{
    if s.len() > 0 && s[0].0 != k {
        lemma_spec_get_preserves(s.drop_first(), k, p);
    }
}

/// A key that matches at `i`, with no earlier match, is what `spec_get` finds.
proof fn lemma_spec_get_found<V>(s: Seq<(u64, V)>, k: u64, i: int)
    requires
        0 <= i < s.len(),
        s[i].0 == k,
        forall|q: int| 0 <= q < i ==> (#[trigger] s[q]).0 != k,
    ensures
        spec_get(s, k) == Some(s[i].1),
    decreases i,
{
    if i > 0 {
        lemma_spec_get_found(s.drop_first(), k, i - 1);
    }
}

/// Without a match, `spec_get` finds nothing.
proof fn lemma_spec_get_absent<V>(s: Seq<(u64, V)>, k: u64)
    requires
        forall|q: int| 0 <= q < s.len() ==> (#[trigger] s[q]).0 != k,
    ensures
        spec_get(s, k) is None,
    decreases s.len(),
{
    if s.len() > 0 {
        lemma_spec_get_absent(s.drop_first(), k);
    }
}

/// `spec_set` on the first matching index is an in-place update.
proof fn lemma_spec_set_found<V>(s: Seq<(u64, V)>, k: u64, v: V, i: int)
    requires
        0 <= i < s.len(),
        s[i].0 == k,
        forall|q: int| 0 <= q < i ==> (#[trigger] s[q]).0 != k,
    ensures
        spec_set(s, k, v) == s.update(i, (k, v)),
    decreases i,
{
    if i == 0 {
        assert(spec_set(s, k, v) =~= s.update(0, (k, v)));
    } else {
        lemma_spec_set_found(s.drop_first(), k, v, i - 1);
        assert(seq![s[0]] + s.drop_first().update(i - 1, (k, v)) =~= s.update(i, (k, v)));
    }
}

/// Without a match, `spec_set` appends.
proof fn lemma_spec_set_absent<V>(s: Seq<(u64, V)>, k: u64, v: V)
    requires
        forall|q: int| 0 <= q < s.len() ==> (#[trigger] s[q]).0 != k,
    ensures
        spec_set(s, k, v) == s.push((k, v)),
    decreases s.len(),
{
    if s.len() == 0 {
        assert(spec_set(s, k, v) =~= s.push((k, v)));
    } else {
        lemma_spec_set_absent(s.drop_first(), k, v);
        assert(seq![s[0]] + s.drop_first().push((k, v)) =~= s.push((k, v)));
    }
}

/// `spec_remove` on the first matching index removes exactly that pair.
proof fn lemma_spec_remove_found<V>(s: Seq<(u64, V)>, k: u64, i: int)
    requires
        0 <= i < s.len(),
        s[i].0 == k,
        forall|q: int| 0 <= q < i ==> (#[trigger] s[q]).0 != k,
    ensures
        spec_remove(s, k) == s.remove(i),
    decreases i,
{
    if i == 0 {
        assert(spec_remove(s, k) =~= s.remove(0));
    } else {
        lemma_spec_remove_found(s.drop_first(), k, i - 1);
        assert(seq![s[0]] + s.drop_first().remove(i - 1) =~= s.remove(i));
    }
}

/// Without a match, `spec_remove` changes nothing.
proof fn lemma_spec_remove_absent<V>(s: Seq<(u64, V)>, k: u64)
    requires
        forall|q: int| 0 <= q < s.len() ==> (#[trigger] s[q]).0 != k,
    ensures
        spec_remove(s, k) == s,
    decreases s.len(),
{
    if s.len() == 0 {
    } else {
        lemma_spec_remove_absent(s.drop_first(), k);
        assert(seq![s[0]] + s.drop_first() =~= s);
    }
}

} // verus!
