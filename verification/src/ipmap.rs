//! An insertion-ordered map keyed by IPv4 addresses (`u32`), held as an
//! association list with unique keys. Iteration order is the insertion order,
//! so renderings of the map are deterministic.

use vstd::prelude::*;

verus! {

/// The value at the first entry with key `k`, if any.
pub open spec fn spec_get<V>(s: Seq<(u32, V)>, k: u32) -> Option<V>
    decreases s.len(),
{
    if s.len() == 0 {
        None
    } else if s[0].0 == k {
        Some(s[0].1)
    } else {
        spec_get(s.drop_first(), k)
    }
}

/// The index of the first entry with key `k`; the length if there is none.
pub open spec fn key_index<V>(s: Seq<(u32, V)>, k: u32) -> int
    decreases s.len(),
{
    if s.len() == 0 {
        0
    } else if s[0].0 == k {
        0
    } else {
        1 + key_index(s.drop_first(), k)
    }
}

/// How [`spec_get`] and [`key_index`] relate to the entries themselves.
pub proof fn lemma_get_props<V>(s: Seq<(u32, V)>, k: u32)
    ensures
        match spec_get(s, k) {
            Some(v) => {
                &&& 0 <= key_index(s, k) < s.len()
                &&& s[key_index(s, k)].0 == k
                &&& s[key_index(s, k)].1 == v
                &&& forall|j: int| 0 <= j < key_index(s, k) ==> s[j].0 != k
            },
            None => {
                &&& key_index(s, k) == s.len()
                &&& forall|j: int| 0 <= j < s.len() ==> s[j].0 != k
            },
        },
    decreases s.len(),
{
    if s.len() > 0 && s[0].0 != k {
        lemma_get_props(s.drop_first(), k);
        assert forall|j: int| 1 <= j < s.len() implies s.drop_first()[j - 1] == s[j] by {}
    }
}

/// If `s[i]` is the first entry with key `k`, the lookup finds it.
pub proof fn lemma_get_at<V>(s: Seq<(u32, V)>, k: u32, i: int)
    requires
        0 <= i < s.len(),
        s[i].0 == k,
        forall|j: int| 0 <= j < i ==> s[j].0 != k,
    ensures
        spec_get(s, k) == Some(s[i].1),
        key_index(s, k) == i,
    decreases s.len(),
{
    if i > 0 {
        assert forall|j: int| 0 <= j < i - 1 implies s.drop_first()[j].0 != k by {
            assert(s.drop_first()[j] == s[j + 1]);
        }
        assert(s.drop_first()[i - 1] == s[i]);
        lemma_get_at(s.drop_first(), k, i - 1);
    }
}

/// If no entry has key `k`, the lookup misses.
pub proof fn lemma_get_none<V>(s: Seq<(u32, V)>, k: u32)
    requires
        forall|j: int| 0 <= j < s.len() ==> s[j].0 != k,
    ensures
        spec_get(s, k) == None::<V>,
        key_index(s, k) == s.len(),
    decreases s.len(),
{
    if s.len() > 0 {
        assert forall|j: int| 0 <= j < s.len() - 1 implies s.drop_first()[j].0 != k by {
            assert(s.drop_first()[j] == s[j + 1]);
        }
        lemma_get_none(s.drop_first(), k);
    }
}

/// Two entry lists with the same keys answer the same lookups, as far as
/// presence goes.
pub proof fn lemma_get_some_same_keys<V, W>(a: Seq<(u32, V)>, b: Seq<(u32, W)>, q: u32)
    requires
        a.len() == b.len(),
        forall|i: int| 0 <= i < a.len() ==> (#[trigger] a[i]).0 == b[i].0,
    ensures
        (spec_get(a, q) is Some) == (spec_get(b, q) is Some),
    decreases a.len(),
{
    if a.len() > 0 && a[0].0 != q {
        assert forall|i: int|
            0 <= i < a.drop_first().len() implies (#[trigger] a.drop_first()[i]).0
            == b.drop_first()[i].0 by {
            assert(a.drop_first()[i] == a[i + 1]);
            assert(b.drop_first()[i] == b[i + 1]);
        }
        lemma_get_some_same_keys(a.drop_first(), b.drop_first(), q);
    }
}

/// Two entry lists with the same keys and view-equal values answer
/// view-equal lookups.
pub proof fn lemma_get_view_same_keys<V: View>(a: Seq<(u32, V)>, b: Seq<(u32, V)>, q: u32)
    requires
        a.len() == b.len(),
        forall|i: int| 0 <= i < a.len() ==> (#[trigger] a[i]).0 == b[i].0,
        forall|i: int| 0 <= i < a.len() ==> (#[trigger] a[i]).1@ == b[i].1@,
    ensures
        match (spec_get(a, q), spec_get(b, q)) {
            (Some(x), Some(y)) => x@ == y@,
            (None, None) => true,
            _ => false,
        },
    decreases a.len(),
{
    if a.len() > 0 && a[0].0 != q {
        assert forall|i: int|
            0 <= i < a.drop_first().len() implies (#[trigger] a.drop_first()[i]).0
            == b.drop_first()[i].0 && a.drop_first()[i].1@ == b.drop_first()[i].1@ by {
            assert(a.drop_first()[i] == a[i + 1]);
            assert(b.drop_first()[i] == b[i + 1]);
        }
        lemma_get_view_same_keys(a.drop_first(), b.drop_first(), q);
    }
}

/// An insertion-ordered association list with unique `u32` keys.
#[derive(Debug)]
pub struct IpMap<V> {
    entries: Vec<(u32, V)>,
}

impl<V> IpMap<V> {
    /// The entries in insertion order: the map's mathematical model.
    pub closed spec fn kvs(&self) -> Seq<(u32, V)> {
        self.entries@
    }

    /// Well-formed: no key occurs twice.
    pub open spec fn wf(&self) -> bool {
        forall|i: int, j: int| 0 <= i < j < self.kvs().len() ==> self.kvs()[i].0 != self.kvs()[j].0
    }

    /// The value bound to `k`, if any.
    pub open spec fn get_spec(&self, k: u32) -> Option<V> {
        spec_get(self.kvs(), k)
    }

    /// Whether `k` is bound.
    pub open spec fn contains_spec(&self, k: u32) -> bool {
        self.get_spec(k) is Some
    }

    /// The keys in insertion order.
    pub open spec fn keys(&self) -> Seq<u32> {
        self.kvs().map_values(|e: (u32, V)| e.0)
    }

    /// The empty map.
    pub fn new() -> (r: Self)
        ensures
            r.kvs() =~= Seq::<(u32, V)>::empty(),
            r.wf(),
    {
        IpMap { entries: Vec::new() }
    }

    pub fn len(&self) -> (n: usize)
        ensures
            n == self.kvs().len(),
    {
        self.entries.len()
    }

    pub fn key_at(&self, i: usize) -> (k: u32)
        requires
            i < self.kvs().len(),
        ensures
            k == self.kvs()[i as int].0,
    {
        self.entries[i].0
    }

    pub fn val_at(&self, i: usize) -> (v: &V)
        requires
            i < self.kvs().len(),
        ensures
            *v == self.kvs()[i as int].1,
    {
        &self.entries[i].1
    }

    /// The position of `k`'s entry, if `k` is bound.
    pub fn find(&self, k: u32) -> (r: Option<usize>)
        ensures
            match r {
                Some(i) => i == key_index(self.kvs(), k) && i < self.kvs().len()
                    && self.kvs()[i as int].0 == k && self.get_spec(k) == Some(
                    self.kvs()[i as int].1,
                ),
                None => self.get_spec(k) is None,
            },
    {
        let n = self.entries.len();
        let mut i: usize = 0;
        while i < n
            invariant
                n == self.kvs().len(),
                0 <= i <= n,
                forall|j: int| 0 <= j < i ==> self.kvs()[j].0 != k,
            decreases n - i,
        {
            if self.entries[i].0 == k {
                proof {
                    lemma_get_at(self.kvs(), k, i as int);
                }
                return Some(i);
            }
            i = i + 1;
        }
        proof {
            lemma_get_none(self.kvs(), k);
        }
        None
    }

    /// The value bound to `k`, if any.
    pub fn get(&self, k: u32) -> (r: Option<&V>)
        ensures
            match r {
                Some(v) => self.get_spec(k) == Some(*v),
                None => self.get_spec(k) is None,
            },
    {
        match self.find(k) {
            Some(i) => Some(&self.entries[i].1),
            None => None,
        }
    }

    pub fn contains(&self, k: u32) -> (r: bool)
        ensures
            r == self.contains_spec(k),
    {
        self.find(k).is_some()
    }

    /// Binds a key that is not yet bound; the entry goes to the end.
    pub fn insert_new(&mut self, k: u32, v: V)
        requires
            !old(self).contains_spec(k),
            old(self).wf(),
        ensures
            final(self).kvs() == old(self).kvs().push((k, v)),
            final(self).wf(),
            final(self).get_spec(k) == Some(v),
            forall|q: u32| q != k ==> final(self).get_spec(q) == old(self).get_spec(q),
    {
        proof {
            lemma_get_props(self.kvs(), k);
        }
        let ghost olds = self.kvs();
        self.entries.push((k, v));
        proof {
            assert forall|i: int, j: int|
                0 <= i < j < self.kvs().len() implies self.kvs()[i].0 != self.kvs()[j].0 by {
                if j < olds.len() {
                } else {
                    assert(self.kvs()[j] == (k, v));
                    assert(self.kvs()[i] == olds[i]);
                }
            }
            assert forall|q: u32| q != k implies spec_get(self.kvs(), q) == spec_get(olds, q) by {
                lemma_get_push(olds, k, v, q);
            }
            lemma_get_push(olds, k, v, k);
        }
    }

    /// Rebinds a key that is already bound, in place.
    pub fn set_value(&mut self, k: u32, v: V)
        requires
            old(self).contains_spec(k),
            old(self).wf(),
        ensures
            final(self).kvs() == old(self).kvs().update(key_index(old(self).kvs(), k), (k, v)),
            final(self).wf(),
            final(self).get_spec(k) == Some(v),
            forall|q: u32| q != k ==> final(self).get_spec(q) == old(self).get_spec(q),
    {
        let ghost olds = self.kvs();
        let i = match self.find(k) {
            Some(i) => i,
            None => {
                // never reached: the key is bound
                proof {
                    assert(false);
                }
                0
            },
        };
        self.entries[i] = (k, v);
        proof {
            assert forall|ii: int, jj: int|
                0 <= ii < jj < self.kvs().len() implies self.kvs()[ii].0 != self.kvs()[jj].0 by {
                assert(self.kvs()[ii].0 == olds[ii].0);
                assert(self.kvs()[jj].0 == olds[jj].0);
            }
            lemma_get_update(olds, k, v, i as int, k);
            assert forall|q: u32| q != k implies spec_get(self.kvs(), q) == spec_get(olds, q) by {
                lemma_get_update(olds, k, v, i as int, q);
            }
        }
    }
}

/// What a lookup sees after a push: the new binding for its own key, the old
/// ones elsewhere.
pub proof fn lemma_get_push<V>(s: Seq<(u32, V)>, k: u32, v: V, q: u32)
    requires
        spec_get(s, k) is None,
    ensures
        q == k ==> spec_get(s.push((k, v)), q) == Some(v),
        q != k ==> spec_get(s.push((k, v)), q) == spec_get(s, q),
    decreases s.len(),
{
    if s.len() == 0 {
        assert(s.push((k, v)).drop_first() =~= Seq::<(u32, V)>::empty());
    } else {
        assert(s.push((k, v)).drop_first() =~= s.drop_first().push((k, v)));
        if s[0].0 != k {
            lemma_get_push(s.drop_first(), k, v, q);
        }
    }
}

/// What a lookup sees after an in-place update of the first entry for `k`.
pub proof fn lemma_get_update<V>(s: Seq<(u32, V)>, k: u32, v: V, i: int, q: u32)
    requires
        0 <= i < s.len(),
        s[i].0 == k,
        forall|j: int| 0 <= j < i ==> s[j].0 != k,
        forall|a: int, b: int| 0 <= a < b < s.len() ==> s[a].0 != s[b].0,
    ensures
        q == k ==> spec_get(s.update(i, (k, v)), q) == Some(v),
        q != k ==> spec_get(s.update(i, (k, v)), q) == spec_get(s, q),
    decreases s.len(),
{
    let t = s.update(i, (k, v));
    if i == 0 {
        if q != k {
            assert(t.drop_first() =~= s.drop_first());
        }
    } else {
        assert(t.drop_first() =~= s.drop_first().update(i - 1, (k, v)));
        assert(s.drop_first()[i - 1] == s[i]);
        assert forall|j: int| 0 <= j < i - 1 implies s.drop_first()[j].0 != k by {
            assert(s.drop_first()[j] == s[j + 1]);
        }
        assert forall|a: int, b: int|
            0 <= a < b < s.drop_first().len() implies s.drop_first()[a].0
            != s.drop_first()[b].0 by {
            assert(s.drop_first()[a] == s[a + 1]);
            assert(s.drop_first()[b] == s[b + 1]);
        }
        lemma_get_update(s.drop_first(), k, v, i - 1, q);
    }
}

} // verus!
