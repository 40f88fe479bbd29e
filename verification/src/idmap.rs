//! A map from 64-bit identifiers to values, kept sorted by key. Iteration
//! order is therefore a function of the contents alone, which keeps every
//! derived computation reproducible.

use vstd::prelude::*;

verus! {

/// The value under key `k`, if any.
pub open spec fn id_find<T>(s: Seq<(i64, T)>, k: i64) -> Option<T>
    decreases s.len(),
{
    if s.len() == 0 {
        None
    } else if s[0].0 == k {
        Some(s[0].1)
    } else {
        id_find(s.drop_first(), k)
    }
}

pub open spec fn id_has<T>(s: Seq<(i64, T)>, k: i64) -> bool {
    id_find(s, k) is Some
}

/// The entry sequence after binding `k` to `v`, keeping keys sorted:
/// replaces in place if the key is present, else inserts at the sorted
/// position.
pub open spec fn id_set<T>(s: Seq<(i64, T)>, k: i64, v: T) -> Seq<(i64, T)>
    decreases s.len(),
{
    if s.len() == 0 {
        seq![(k, v)]
    } else if s[0].0 == k {
        seq![(k, v)] + s.drop_first()
    } else if k < s[0].0 {
        seq![(k, v)] + s
    } else {
        seq![s[0]] + id_set(s.drop_first(), k, v)
    }
}

/// Keys strictly increase.
pub open spec fn id_sorted<T>(s: Seq<(i64, T)>) -> bool {
    forall|i: int, j: int| 0 <= i < j < s.len() ==> s[i].0 < s[j].0
}

/// Binding a key, then looking one up: the bound key reads back the new
/// value, others are untouched.
pub proof fn lemma_id_find_set<T>(s: Seq<(i64, T)>, k: i64, v: T, q: i64)
    ensures
        id_find(id_set(s, k, v), q) == if q == k {
            Some(v)
        } else {
            id_find(s, q)
        },
    decreases s.len(),
{
    if s.len() == 0 {
        let u = id_set(s, k, v);
        assert(u.drop_first() =~= Seq::<(i64, T)>::empty());
        if q != k {
            assert(id_find(u, q) == id_find(u.drop_first(), q));
        }
    } else if s[0].0 == k {
        let u = id_set(s, k, v);
        assert(u[0] == (k, v));
        assert(u.drop_first() =~= s.drop_first());
        if q != k {
            assert(id_find(u, q) == id_find(u.drop_first(), q));
            assert(id_find(s, q) == id_find(s.drop_first(), q));
        }
    } else if k < s[0].0 {
        let u = id_set(s, k, v);
        assert(u[0] == (k, v));
        assert(u.drop_first() =~= s);
        if q != k {
            assert(id_find(u, q) == id_find(u.drop_first(), q));
        }
    } else {
        lemma_id_find_set(s.drop_first(), k, v, q);
        let u = id_set(s, k, v);
        assert(u[0] == s[0]);
        assert(u.drop_first() =~= id_set(s.drop_first(), k, v));
        if q == s[0].0 {
            assert(id_find(u, q) == Some(s[0].1));
        } else {
            assert(id_find(u, q) == id_find(u.drop_first(), q));
            assert(id_find(s, q) == id_find(s.drop_first(), q));
        }
    }
}

/// When position i holds the key, and no earlier one does, `id_set` updates
/// exactly that entry.
proof fn lemma_id_set_found<T>(s: Seq<(i64, T)>, k: i64, v: T, i: int)
    requires
        0 <= i < s.len(),
        s[i].0 == k,
        forall|j: int| 0 <= j < i ==> s[j].0 < k,
    ensures
        id_set(s, k, v) == s.update(i, (k, v)),
    decreases s.len(),
{
    if i == 0 {
        assert(seq![(k, v)] + s.drop_first() =~= s.update(0, (k, v)));
    } else {
        assert(s[0].0 < k);
        lemma_id_set_found(s.drop_first(), k, v, i - 1);
        assert(s.drop_first().update(i - 1, (k, v)) =~= s.update(i, (k, v)).drop_first());
        assert(seq![s[0]] + s.update(i, (k, v)).drop_first() =~= s.update(i, (k, v)));
    }
}

/// When entries before i have smaller keys and the one at i (if any) has a
/// larger one, `id_set` inserts the new entry at position i.
proof fn lemma_id_set_inserted<T>(s: Seq<(i64, T)>, k: i64, v: T, i: int)
    requires
        0 <= i <= s.len(),
        forall|j: int| 0 <= j < i ==> s[j].0 < k,
        i < s.len() ==> k < s[i].0,
    ensures
        id_set(s, k, v) == s.insert(i, (k, v)),
    decreases s.len(),
{
    if s.len() == 0 {
        assert(id_set(s, k, v) =~= s.insert(0, (k, v)));
    } else if i == 0 {
        assert(k < s[0].0);
        assert(seq![(k, v)] + s =~= s.insert(0, (k, v)));
    } else {
        assert(s[0].0 < k);
        lemma_id_set_inserted(s.drop_first(), k, v, i - 1);
        assert(s.drop_first().insert(i - 1, (k, v)) =~= s.insert(i, (k, v)).drop_first());
        assert(seq![s[0]] + s.insert(i, (k, v)).drop_first() =~= s.insert(i, (k, v)));
    }
}


/// Binding a key greater than every present key appends the entry.
pub proof fn lemma_id_set_is_push<T>(s: Seq<(i64, T)>, k: i64, v: T)
    requires
        forall|e: int| 0 <= e < s.len() ==> (#[trigger] s[e]).0 < k,
    ensures
        id_set(s, k, v) == s.push((k, v)),
    decreases s.len(),
{
    if s.len() == 0 {
        assert(id_set(s, k, v) =~= s.push((k, v)));
    } else {
        assert(s[0].0 < k);
        lemma_id_set_is_push(s.drop_first(), k, v);
        assert(seq![s[0]] + s.drop_first().push((k, v)) =~= s.push((k, v)));
    }
}

/// A value with a deep copy operation that provably preserves the view.
pub trait DupView: View + Sized {
    fn dup(&self) -> (r: Self)
        ensures
            r@ == self@,
    ;
}

pub struct IdMap<V> {
    entries: Vec<(i64, V)>,
}

impl<V: View> View for IdMap<V> {
    type V = Seq<(i64, <V as View>::V)>;

    closed spec fn view(&self) -> Seq<(i64, <V as View>::V)> {
        self.entries@.map_values(|e: (i64, V)| (e.0, e.1@))
    }
}

impl<V: View> IdMap<V> {
    pub open spec fn wf(&self) -> bool {
        id_sorted(self@)
    }

    pub fn new() -> (r: Self)
        ensures
            r@ == Seq::<(i64, <V as View>::V)>::empty(),
            r.wf(),
    {
        let r = IdMap { entries: Vec::new() };
        proof {
            assert(r@ =~= Seq::<(i64, <V as View>::V)>::empty());
        }
        r
    }

    pub fn len(&self) -> (n: usize)
        ensures
            n == self@.len(),
    {
        self.entries.len()
    }

    pub fn key_at(&self, i: usize) -> (k: i64)
        requires
            i < self@.len(),
        ensures
            k == self@[i as int].0,
    {
        self.entries[i].0
    }

    pub fn value_at(&self, i: usize) -> (v: &V)
        requires
            i < self@.len(),
        ensures
            v@ == self@[i as int].1,
    {
        &self.entries[i].1
    }

    pub fn get(&self, k: i64) -> (r: Option<&V>)
        ensures
            match r {
                Some(v) => id_find(self@, k) == Some(v@),
                None => id_find(self@, k) is None,
            },
    {
        let n = self.entries.len();
        let mut i: usize = 0;
        proof {
            assert(self@.skip(0) =~= self@);
        }
        while i < n
            invariant
                n == self@.len(),
                n == self.entries@.len(),
                i <= n,
                id_find(self@, k) == id_find(self@.skip(i as int), k),
            decreases n - i,
        {
            proof {
                assert(self@.skip(i as int)[0] == self@[i as int]);
                assert(self@.skip(i as int).drop_first() =~= self@.skip(i as int + 1));
            }
            if self.entries[i].0 == k {
                return Some(&self.entries[i].1);
            }
            i += 1;
        }
        proof {
            assert(self@.skip(n as int) =~= Seq::<(i64, <V as View>::V)>::empty());
        }
        None
    }

    /// Replace the value at entry position i, keeping its key.
    pub fn set_value_at(&mut self, i: usize, v: V)
        requires
            i < old(self)@.len(),
        ensures
            final(self)@ == old(self)@.update(i as int, (old(self)@[i as int].0, v@)),
            final(self)@.len() == old(self)@.len(),
    {
        let k = self.entries[i].0;
        self.entries.set(i, (k, v));
        proof {
            assert(self@ =~= old(self)@.update(i as int, (old(self)@[i as int].0, v@)));
        }
    }

    pub fn contains_key(&self, k: i64) -> (r: bool)
        ensures
            r == id_has(self@, k),
    {
        self.get(k).is_some()
    }

    pub fn insert(&mut self, k: i64, v: V)
        requires
            old(self).wf(),
        ensures
            final(self)@ == id_set(old(self)@, k, v@),
            final(self).wf(),
    {
        let ghost orig = self@;
        let n = self.entries.len();
        let mut i: usize = 0;
        while i < n
            invariant
                self@ == orig,
                orig == old(self)@,
                id_sorted(orig),
                n == orig.len(),
                n == self.entries@.len(),
                i <= n,
                forall|j: int| 0 <= j < i ==> orig[j].0 < k,
            decreases n - i,
        {
            if self.entries[i].0 == k {
                self.entries.set(i, (k, v));
                proof {
                    lemma_id_set_found(orig, k, v@, i as int);
                    assert(self@ =~= orig.update(i as int, (k, v@)));
                    assert forall|a: int, b: int|
                        0 <= a < b < self@.len() implies self@[a].0 < self@[b].0 by {
                        assert(orig[a].0 < orig[b].0);
                    }
                }
                return;
            }
            if self.entries[i].0 > k {
                let ghost fi = i as int;
                self.entries.insert(i, (k, v));
                proof {
                    lemma_id_set_inserted(orig, k, v@, fi);
                    assert(self@ =~= orig.insert(fi, (k, v@)));
                    let u = self@;
                    assert forall|a: int, b: int| 0 <= a < b < u.len() implies u[a].0 < u[b].0 by {
                        if a < fi {
                            assert(u[a] == orig[a]);
                        } else if a > fi {
                            assert(u[a] == orig[a - 1]);
                        }
                        if b < fi {
                            assert(u[b] == orig[b]);
                        } else if b > fi {
                            assert(u[b] == orig[b - 1]);
                        }
                    }
                }
                return;
            }
            i += 1;
        }
        self.entries.push((k, v));
        proof {
            lemma_id_set_inserted(orig, k, v@, orig.len() as int);
            assert(orig.insert(orig.len() as int, (k, v@)) =~= orig.push((k, v@)));
            assert(self@ =~= orig.push((k, v@)));
            let u = self@;
            assert forall|a: int, b: int| 0 <= a < b < u.len() implies u[a].0 < u[b].0 by {
                if b < orig.len() {
                    assert(orig[a].0 < orig[b].0);
                } else {
                    assert(orig[a].0 < k);
                }
            }
        }
    }
}

impl<V: DupView> IdMap<V> {
    /// A copy with the same contents.
    pub fn duplicate(&self) -> (r: Self)
        ensures
            r@ == self@,
    {
        let n = self.entries.len();
        let mut entries: Vec<(i64, V)> = Vec::new();
        let mut i: usize = 0;
        while i < n
            invariant
                n == self@.len(),
                n == self.entries@.len(),
                i <= n,
                entries@.len() == i,
                forall|j: int|
                    0 <= j < i ==> (#[trigger] entries@[j]).0 == self@[j].0 && entries@[j].1@
                        == self@[j].1,
            decreases n - i,
        {
            entries.push((self.entries[i].0, self.entries[i].1.dup()));
            i += 1;
        }
        let r = IdMap { entries };
        proof {
            assert(r@ =~= self@);
        }
        r
    }
}

} // verus!
