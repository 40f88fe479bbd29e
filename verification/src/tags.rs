//! Tags: an ordered string-key to string-value map. Keys are unique and
//! insertion order is preserved, so output built from tags is stable.

use vstd::prelude::*;
use crate::strutil::{str_eq, spec_starts_with, str_starts_with};

verus! {

/// What a key maps to, if anything: the value of the first (and, when keys
/// are unique, only) pair holding the key.
pub open spec fn tag_get(t: Seq<(Seq<char>, Seq<char>)>, k: Seq<char>) -> Option<Seq<char>>
    decreases t.len(),
{
    if t.len() == 0 {
        None
    } else if t[0].0 == k {
        Some(t[0].1)
    } else {
        tag_get(t.drop_first(), k)
    }
}

pub open spec fn tag_has(t: Seq<(Seq<char>, Seq<char>)>, k: Seq<char>) -> bool {
    tag_get(t, k) is Some
}

pub open spec fn tag_is(t: Seq<(Seq<char>, Seq<char>)>, k: Seq<char>, v: Seq<char>) -> bool {
    tag_get(t, k) == Some(v)
}

/// The pair sequence after setting `k` to `v`: replaces the value in place if
/// the key is present, else appends the pair at the end.
pub open spec fn tag_set(
    t: Seq<(Seq<char>, Seq<char>)>,
    k: Seq<char>,
    v: Seq<char>,
) -> Seq<(Seq<char>, Seq<char>)>
    decreases t.len(),
{
    if t.len() == 0 {
        seq![(k, v)]
    } else if t[0].0 == k {
        seq![(k, v)] + t.drop_first()
    } else {
        seq![t[0]] + tag_set(t.drop_first(), k, v)
    }
}

/// The pair sequence with every pair holding key `k` removed.
pub open spec fn tag_remove(
    t: Seq<(Seq<char>, Seq<char>)>,
    k: Seq<char>,
) -> Seq<(Seq<char>, Seq<char>)>
    decreases t.len(),
{
    if t.len() == 0 {
        t
    } else if t[0].0 == k {
        tag_remove(t.drop_first(), k)
    } else {
        seq![t[0]] + tag_remove(t.drop_first(), k)
    }
}

/// Keys are unique.
pub open spec fn tags_wf(t: Seq<(Seq<char>, Seq<char>)>) -> bool {
    forall|i: int, j: int| 0 <= i < j < t.len() ==> t[i].0 != t[j].0
}

pub struct Tags {
    pairs: Vec<(String, String)>,
}

impl View for Tags {
    type V = Seq<(Seq<char>, Seq<char>)>;

    closed spec fn view(&self) -> Seq<(Seq<char>, Seq<char>)> {
        self.pairs@.map_values(|p: (String, String)| (p.0@, p.1@))
    }
}

impl Tags {
    pub open spec fn wf(&self) -> bool {
        tags_wf(self@)
    }

    pub fn empty() -> (r: Tags)
        ensures
            r@ == Seq::<(Seq<char>, Seq<char>)>::empty(),
            r.wf(),
    {
        let r = Tags { pairs: Vec::new() };
        proof {
            assert(r@ =~= Seq::<(Seq<char>, Seq<char>)>::empty());
        }
        r
    }

    pub fn len(&self) -> (n: usize)
        ensures
            n == self@.len(),
    {
        self.pairs.len()
    }

    pub fn key_at(&self, i: usize) -> (k: &String)
        requires
            i < self@.len(),
        ensures
            k@ == self@[i as int].0,
    {
        &self.pairs[i].0
    }

    pub fn value_at(&self, i: usize) -> (v: &String)
        requires
            i < self@.len(),
        ensures
            v@ == self@[i as int].1,
    {
        &self.pairs[i].1
    }

    pub fn get(&self, k: &str) -> (r: Option<&String>)
        ensures
            match r {
                Some(v) => tag_get(self@, k@) == Some(v@),
                None => tag_get(self@, k@) is None,
            },
    {
        let n = self.pairs.len();
        let mut i: usize = 0;
        proof {
            assert(self@.skip(0) =~= self@);
        }
        while i < n
            invariant
                n == self@.len(),
                i <= n,
                tag_get(self@, k@) == tag_get(self@.skip(i as int), k@),
            decreases n - i,
        {
            proof {
                assert(self@.skip(i as int)[0] == self@[i as int]);
                assert(self@.skip(i as int).drop_first() =~= self@.skip(i as int + 1));
            }
            if str_eq(self.pairs[i].0.as_str(), k) {
                return Some(&self.pairs[i].1);
            }
            i += 1;
        }
        proof {
            assert(self@.skip(n as int) =~= Seq::<(Seq<char>, Seq<char>)>::empty());
        }
        None
    }

    pub fn has(&self, k: &str) -> (r: bool)
        ensures
            r == tag_has(self@, k@),
    {
        self.get(k).is_some()
    }

    pub fn is(&self, k: &str, v: &str) -> (r: bool)
        ensures
            r == tag_is(self@, k@, v@),
    {
        match self.get(k) {
            Some(value) => str_eq(value.as_str(), v),
            None => false,
        }
    }

    /// Is the key set to any of the given values?
    pub fn is_any(&self, k: &str, vs: &[&str]) -> (r: bool)
        ensures
            r == exists|i: int| 0 <= i < vs@.len() && tag_is(self@, k@, #[trigger] vs@[i]@),
    {
        match self.get(k) {
            Some(value) => {
                let n = vs.len();
                let mut i: usize = 0;
                while i < n
                    invariant
                        n == vs@.len(),
                        i <= n,
                        tag_get(self@, k@) == Some(value@),
                        forall|j: int| 0 <= j < i ==> !tag_is(self@, k@, #[trigger] vs@[j]@),
                    decreases n - i,
                {
                    if str_eq(value.as_str(), vs[i]) {
                        proof {
                            assert(tag_is(self@, k@, vs@[i as int]@));
                        }
                        return true;
                    }
                    i += 1;
                }
                false
            },
            None => false,
        }
    }

    /// Does some key start with the given prefix?
    pub fn any_key_starts_with(&self, prefix: &str) -> (r: bool)
        ensures
            r == exists|i: int|
                0 <= i < self@.len() && spec_starts_with(#[trigger] self@[i].0, prefix@),
    {
        let n = self.pairs.len();
        let mut i: usize = 0;
        while i < n
            invariant
                n == self@.len(),
                i <= n,
                forall|j: int| 0 <= j < i ==> !spec_starts_with(#[trigger] self@[j].0, prefix@),
            decreases n - i,
        {
            if str_starts_with(self.pairs[i].0.as_str(), prefix) {
                proof {
                    assert(spec_starts_with(self@[i as int].0, prefix@));
                }
                return true;
            }
            i += 1;
        }
        false
    }

    pub fn insert(&mut self, k: &str, v: &str)
        requires
            old(self).wf(),
        ensures
            final(self)@ == tag_set(old(self)@, k@, v@),
            final(self).wf(),
    {
        let ghost orig = self@;
        let n = self.pairs.len();
        let mut i: usize = 0;
        while i < n
            invariant
                self@ == orig,
                orig == old(self)@,
                tags_wf(orig),
                n == orig.len(),
                i <= n,
                forall|j: int| 0 <= j < i ==> orig[j].0 != k@,
            decreases n - i,
        {
            if str_eq(self.pairs[i].0.as_str(), k) {
                self.pairs.set(i, (k.to_owned(), v.to_owned()));
                proof {
                    lemma_tag_set_found(orig, k@, v@, i as int);
                    assert(self@ =~= orig.update(i as int, (k@, v@)));
                    lemma_tags_wf_update(orig, k@, v@, i as int);
                }
                return;
            }
            i += 1;
        }
        self.pairs.push((k.to_owned(), v.to_owned()));
        proof {
            lemma_tag_set_missing(orig, k@, v@);
            assert(self@ =~= orig.push((k@, v@)));
            assert forall|a: int, b: int| 0 <= a < b < self@.len() implies self@[a].0 != self@[b].0 by {
                if b == orig.len() {
                    assert(orig[a].0 != k@);
                }
            }
        }
    }

    pub fn remove(&mut self, k: &str)
        requires
            old(self).wf(),
        ensures
            final(self)@ == tag_remove(old(self)@, k@),
            final(self).wf(),
    {
        let ghost orig = self@;
        let n = self.pairs.len();
        let mut i: usize = 0;
        while i < n
            invariant
                self@ == orig,
                orig == old(self)@,
                tags_wf(orig),
                n == orig.len(),
                i <= n,
                forall|j: int| 0 <= j < i ==> orig[j].0 != k@,
            decreases n - i,
        {
            if str_eq(self.pairs[i].0.as_str(), k) {
                let ghost fi = i as int;
                self.pairs.remove(i);
                proof {
                    assert forall|j: int| 0 <= j < orig.len() && j != fi implies orig[j].0 != k@ by {
                        if j > fi {
                            assert(orig[fi].0 != orig[j].0);
                        }
                    }
                    lemma_tag_remove_found(orig, k@, fi);
                    assert(self@ =~= orig.subrange(0, fi) + orig.subrange(
                        fi + 1,
                        orig.len() as int,
                    ));
                    let u = self@;
                    assert forall|a: int, b: int| 0 <= a < b < u.len() implies u[a].0 != u[b].0 by {
                        let a0 = if a < fi { a } else { a + 1 };
                        let b0 = if b < fi { b } else { b + 1 };
                        assert(u[a] == orig[a0]);
                        assert(u[b] == orig[b0]);
                        assert(orig[a0].0 != orig[b0].0);
                    }
                }
                return;
            }
            i += 1;
        }
        proof {
            lemma_tag_remove_missing(orig, k@);
        }
    }

    /// A copy with the same contents.
    pub fn duplicate(&self) -> (r: Tags)
        ensures
            r@ == self@,
    {
        let n = self.pairs.len();
        let mut pairs: Vec<(String, String)> = Vec::new();
        let mut i: usize = 0;
        while i < n
            invariant
                n == self@.len(),
                i <= n,
                pairs@.len() == i,
                forall|j: int|
                    0 <= j < i ==> (#[trigger] pairs@[j]).0@ == self@[j].0 && pairs@[j].1@
                        == self@[j].1,
            decreases n - i,
        {
            pairs.push((self.pairs[i].0.clone(), self.pairs[i].1.clone()));
            i += 1;
        }
        let r = Tags { pairs };
        proof {
            assert(r@ =~= self@);
        }
        r
    }
}

/// Removing a key that no pair holds changes nothing.
pub proof fn lemma_tag_remove_missing(t: Seq<(Seq<char>, Seq<char>)>, k: Seq<char>)
    requires
        forall|j: int| 0 <= j < t.len() ==> t[j].0 != k,
    ensures
        tag_remove(t, k) == t,
    decreases t.len(),
{
    if t.len() > 0 {
        lemma_tag_remove_missing(t.drop_first(), k);
        assert(seq![t[0]] + t.drop_first() =~= t);
    } else {
        assert(tag_remove(t, k) =~= t);
    }
}

/// When only position i holds the key, removing it deletes exactly that pair.
pub proof fn lemma_tag_remove_found(t: Seq<(Seq<char>, Seq<char>)>, k: Seq<char>, i: int)
    requires
        0 <= i < t.len(),
        t[i].0 == k,
        forall|j: int| 0 <= j < t.len() && j != i ==> t[j].0 != k,
    ensures
        tag_remove(t, k) == t.subrange(0, i) + t.subrange(i + 1, t.len() as int),
    decreases t.len(),
{
    if i == 0 {
        lemma_tag_remove_missing(t.drop_first(), k);
        assert(t.subrange(0, 0) + t.subrange(1, t.len() as int) =~= t.drop_first());
    } else {
        lemma_tag_remove_found(t.drop_first(), k, i - 1);
        assert(t.drop_first().subrange(0, i - 1) =~= t.subrange(1, i));
        assert(t.drop_first().subrange(i, t.drop_first().len() as int) =~= t.subrange(
            i + 1,
            t.len() as int,
        ));
        assert(seq![t[0]] + (t.subrange(1, i) + t.subrange(i + 1, t.len() as int)) =~= t.subrange(
            0,
            i,
        ) + t.subrange(i + 1, t.len() as int));
    }
}

/// When only position i holds the key, setting it updates exactly that pair.
pub proof fn lemma_tag_set_found(t: Seq<(Seq<char>, Seq<char>)>, k: Seq<char>, v: Seq<char>, i: int)
    requires
        0 <= i < t.len(),
        t[i].0 == k,
        forall|j: int| 0 <= j < i ==> t[j].0 != k,
    ensures
        tag_set(t, k, v) == t.update(i, (k, v)),
    decreases t.len(),
{
    if i == 0 {
        assert(seq![(k, v)] + t.drop_first() =~= t.update(0, (k, v)));
    } else {
        lemma_tag_set_found(t.drop_first(), k, v, i - 1);
        assert(t.drop_first().update(i - 1, (k, v)) =~= t.update(i, (k, v)).drop_first());
        assert(seq![t[0]] + t.update(i, (k, v)).drop_first() =~= t.update(i, (k, v)));
    }
}

/// Setting a key that no pair holds appends the new pair.
pub proof fn lemma_tag_set_missing(t: Seq<(Seq<char>, Seq<char>)>, k: Seq<char>, v: Seq<char>)
    requires
        forall|j: int| 0 <= j < t.len() ==> t[j].0 != k,
    ensures
        tag_set(t, k, v) == t.push((k, v)),
    decreases t.len(),
{
    if t.len() == 0 {
        assert(tag_set(t, k, v) =~= t.push((k, v)));
    } else {
        lemma_tag_set_missing(t.drop_first(), k, v);
        assert(seq![t[0]] + t.drop_first().push((k, v)) =~= t.push((k, v)));
    }
}

pub proof fn lemma_tags_wf_update(t: Seq<(Seq<char>, Seq<char>)>, k: Seq<char>, v: Seq<char>, i: int)
    requires
        tags_wf(t),
        0 <= i < t.len(),
        t[i].0 == k,
    ensures
        tags_wf(t.update(i, (k, v))),
{
    let u = t.update(i, (k, v));
    assert forall|a: int, b: int| 0 <= a < b < u.len() implies u[a].0 != u[b].0 by {
        assert(t[a].0 != t[b].0);
    }
}

/// Where the first '=' sits in a string, if anywhere.
pub open spec fn spec_eq_pos(s: Seq<char>) -> Option<int>
    decreases s.len(),
{
    if s.len() == 0 {
        None
    } else if s[0] == '=' {
        Some(0)
    } else {
        match spec_eq_pos(s.drop_first()) {
            Some(i) => Some(i + 1),
            None => None,
        }
    }
}

/// A "key=value" pair split at its first '='.
pub open spec fn spec_split_kv(s: Seq<char>) -> Option<(Seq<char>, Seq<char>)> {
    match spec_eq_pos(s) {
        Some(i) => Some((s.subrange(0, i), s.subrange(i + 1, s.len() as int))),
        None => None,
    }
}

/// A tag set built from "key=value" strings, set in order; entries without
/// an '=' are ignored.
pub open spec fn spec_tags_from_pairs(ps: Seq<Seq<char>>) -> Seq<(Seq<char>, Seq<char>)>
    decreases ps.len(),
{
    if ps.len() == 0 {
        Seq::empty()
    } else {
        let t = spec_tags_from_pairs(ps.drop_last());
        match spec_split_kv(ps.last()) {
            Some((k, v)) => tag_set(t, k, v),
            None => t,
        }
    }
}

impl Tags {
    /// Build a tag set from "key=value" strings.
    pub fn new_from_pairs(pairs: &Vec<&str>) -> (r: Tags)
        ensures
            r@ == spec_tags_from_pairs(pairs@.map_values(|p: &str| p@)),
            r.wf(),
    {
        let ghost pv = pairs@.map_values(|p: &str| p@);
        let mut r = Tags::empty();
        let n = pairs.len();
        let mut i: usize = 0;
        proof {
            assert(pv.subrange(0, 0) =~= Seq::<Seq<char>>::empty());
        }
        while i < n
            invariant
                n == pv.len(),
                pv == pairs@.map_values(|p: &str| p@),
                i <= n,
                r.wf(),
                r@ == spec_tags_from_pairs(pv.subrange(0, i as int)),
            decreases n - i,
        {
            proof {
                let cur = pv.subrange(0, i as int + 1);
                assert(cur.drop_last() =~= pv.subrange(0, i as int));
                assert(cur.last() == pv[i as int]);
            }
            let s = pairs[i];
            let len = s.unicode_len();
            let mut p: usize = 0;
            let mut found = false;
            proof {
                assert(s@.skip(0) =~= s@);
            }
            while p < len && !found
                invariant
                    len == s@.len(),
                    p <= len,
                    found ==> p < len && spec_eq_pos(s@) == Some(p as int) && s@[p as int] == '=',
                    !found ==> spec_eq_pos(s@) == match spec_eq_pos(s@.skip(p as int)) {
                        Some(q) => Some(q + p),
                        None => None,
                    },
                decreases len - p + (if found {
                    0int
                } else {
                    1int
                }),
            {
                proof {
                    assert(s@.skip(p as int)[0] == s@[p as int]);
                    assert(s@.skip(p as int).drop_first() =~= s@.skip(p as int + 1));
                }
                if s.get_char(p) == '=' {
                    found = true;
                } else {
                    p += 1;
                }
            }
            if found {
                let k = s.substring_char(0, p);
                let v = s.substring_char(p + 1, len);
                proof {
                    assert(k@ == s@.subrange(0, p as int));
                    assert(v@ == s@.subrange(p as int + 1, s@.len() as int));
                    assert(pv[i as int] == pairs@[i as int]@);
                    assert(spec_split_kv(pv[i as int]) == Some((k@, v@)));
                }
                r.insert(k, v);
            } else {
                proof {
                    assert(s@.skip(len as int) =~= Seq::<char>::empty());
                    assert(spec_eq_pos(s@) is None);
                    assert(pv[i as int] == pairs@[i as int]@);
                    assert(spec_split_kv(pv[i as int]) is None);
                }
            }
            i += 1;
        }
        proof {
            assert(pv.subrange(0, n as int) =~= pv);
        }
        r
    }
}

} // verus!
