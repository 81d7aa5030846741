//! A small table from keys to values that remembers in which order its keys came.
use crate::endpoint::EndpointId;
use crate::lists::{first_at, first_at_absent, first_at_found, first_at_is_first};
use vstd::prelude::*;

verus! {

/// Keys that can be told apart.
pub trait Key: Copy {
    fn same(&self, other: &Self) -> (r: bool)
        ensures
            r == (*self == *other),
    ;
}

impl Key for u32 {
    fn same(&self, other: &Self) -> (r: bool) {
        *self == *other
    }
}

impl Key for EndpointId {
    fn same(&self, other: &Self) -> (r: bool) {
        *self == *other
    }
}

/// A table: each key at most once, in the order in which they were first set.
pub struct Table<K: Key, V> {
    entries: Vec<(K, V)>,
}

spec fn keys_of<K, V>(s: Seq<(K, V)>) -> Seq<K> {
    s.map_values(|e: (K, V)| e.0)
}

spec fn map_of<K, V>(s: Seq<(K, V)>) -> Map<K, V> {
    Map::new(|k: K| keys_of(s).contains(k), |k: K| s[first_at(keys_of(s), k) as int].1)
}

proof fn lemma_map_of_set<K, V>(s: Seq<(K, V)>, i: int, v: V)
    requires
        0 <= i < s.len(),
        keys_of(s).no_duplicates(),
    ensures
        keys_of(s.update(i, (s[i].0, v))) == keys_of(s),
        map_of(s.update(i, (s[i].0, v))) == map_of(s).insert(s[i].0, v),
{
    let t = s.update(i, (s[i].0, v));
    assert(keys_of(t) =~= keys_of(s));
    assert forall|k: K| #[trigger] map_of(t).dom().contains(k) implies map_of(t)[k] == map_of(
        s,
    ).insert(s[i].0, v)[k] by {
        first_at_is_first(keys_of(s), k);
        let f = first_at(keys_of(s), k) as int;
        assert(keys_of(s)[f] == k && keys_of(s)[i] == s[i].0);
        if k == s[i].0 {
            assert(f == i);
        }
    }
    assert(keys_of(s)[i] == s[i].0);
    assert(map_of(t) =~= map_of(s).insert(s[i].0, v));
}

proof fn lemma_map_of_push<K, V>(s: Seq<(K, V)>, k: K, v: V)
    requires
        !keys_of(s).contains(k),
        keys_of(s).no_duplicates(),
    ensures
        keys_of(s.push((k, v))) == keys_of(s).push(k),
        keys_of(s.push((k, v))).no_duplicates(),
        map_of(s.push((k, v))) == map_of(s).insert(k, v),
{
    let t = s.push((k, v));
    assert(keys_of(t) =~= keys_of(s).push(k));
    assert(keys_of(t)[s.len() as int] == k);
    assert forall|x: K| #[trigger] keys_of(t).contains(x) <==> keys_of(s).contains(x) || x == k by {
        if keys_of(s).contains(x) {
            let i = choose|i: int| 0 <= i < keys_of(s).len() && keys_of(s)[i] == x;
            assert(keys_of(t)[i] == x);
        }
    }
    assert forall|x: K| #[trigger] map_of(t).dom().contains(x) implies map_of(t)[x] == map_of(
        s,
    ).insert(k, v)[x] by {
        first_at_is_first(keys_of(t), x);
        first_at_is_first(keys_of(s), x);
        if x == k {
            first_at_found(keys_of(t), k, s.len() as int);
        } else {
            first_at_found(keys_of(t), x, first_at(keys_of(s), x) as int);
        }
    }
    assert(map_of(t) =~= map_of(s).insert(k, v));
}

proof fn lemma_map_of_remove<K, V>(s: Seq<(K, V)>, i: int)
    requires
        0 <= i < s.len(),
        keys_of(s).no_duplicates(),
    ensures
        keys_of(s.remove(i)) == keys_of(s).remove(i),
        keys_of(s.remove(i)).no_duplicates(),
        map_of(s.remove(i)) == map_of(s).remove(s[i].0),
{
    let t = s.remove(i);
    let a = keys_of(s);
    let b = keys_of(t);
    assert(b =~= a.remove(i));
    assert(a[i] == s[i].0);
    assert forall|x: K| #[trigger] b.contains(x) <==> a.contains(x) && x != s[i].0 by {
        if b.contains(x) {
            let j = choose|j: int| 0 <= j < b.len() && b[j] == x;
            if j < i {
                assert(a[j] == x);
            } else {
                assert(a[j + 1] == x);
            }
        }
        if a.contains(x) && x != s[i].0 {
            let j = choose|j: int| 0 <= j < a.len() && a[j] == x;
            if j < i {
                assert(b[j] == x);
            } else {
                assert(b[j - 1] == x);
            }
        }
    }
    assert forall|x: K| #[trigger] map_of(t).dom().contains(x) implies map_of(t)[x] == map_of(
        s,
    ).remove(s[i].0)[x] by {
        first_at_is_first(b, x);
        first_at_is_first(a, x);
        let j = first_at(b, x) as int;
        if j < i {
            assert(a[j] == x);
            assert(a[first_at(a, x) as int] == x);
            assert(first_at(a, x) == j);
        } else {
            assert(a[j + 1] == x);
            assert(a[first_at(a, x) as int] == x);
            assert(first_at(a, x) == j + 1);
        }
    }
    assert(map_of(t) =~= map_of(s).remove(s[i].0));
}

/// A table without the entries for which `keep` does not hold.
pub open spec fn kept<K, V>(m: Map<K, V>, keep: spec_fn(V) -> bool) -> Map<K, V> {
    Map::new(|k: K| m.dom().contains(k) && keep(m[k]), |k: K| m[k])
}

/// A table after the entries of some keys were looked at and, where `keep` does not
/// hold, dropped.
spec fn swept<K, V>(m: Map<K, V>, keys: Seq<K>, keep: spec_fn(V) -> bool) -> Map<
    K,
    V,
> {
    Map::new(
        |k: K| m.dom().contains(k) && (keys.contains(k) ==> keep(m[k])),
        |k: K| m[k],
    )
}

proof fn lemma_swept_step<K, V>(
    m: Map<K, V>,
    keys: Seq<K>,
    i: int,
    keep: spec_fn(V) -> bool,
)
    requires
        0 <= i < keys.len(),
        keys.no_duplicates(),
        m.dom().contains(keys[i]),
    ensures
        swept(m, keys.take(i), keep).dom().contains(keys[i]),
        swept(m, keys.take(i + 1), keep) == (if keep(m[keys[i]]) {
            swept(m, keys.take(i), keep)
        } else {
            swept(m, keys.take(i), keep).remove(keys[i])
        }),
{
    let a = keys.take(i);
    let b = keys.take(i + 1);
    assert(!a.contains(keys[i]));
    assert forall|x: K| #[trigger] b.contains(x) <==> a.contains(x) || x == keys[i] by {
        assert(b[i] == keys[i]);
        if a.contains(x) {
            let k = choose|k: int| 0 <= k < a.len() && a[k] == x;
            assert(b[k] == x);
        }
        if b.contains(x) && x != keys[i] {
            let k = choose|k: int| 0 <= k < b.len() && b[k] == x;
            assert(a[k] == x);
        }
    }
    if keep(m[keys[i]]) {
        assert(swept(m, b, keep) =~= swept(m, a, keep));
    } else {
        assert(swept(m, b, keep) =~= swept(m, a, keep).remove(keys[i]));
    }
}

impl<K: Key, V> View for Table<K, V> {
    type V = Map<K, V>;

    closed spec fn view(&self) -> Map<K, V> {
        map_of(self.entries@)
    }
}

impl<K: Key, V> Table<K, V> {
    #[verifier::type_invariant]
    spec fn each_key_once(&self) -> bool {
        keys_of(self.entries@).no_duplicates()
    }

    /// The keys, in the order in which they were first set.
    pub closed spec fn order(&self) -> Seq<K> {
        keys_of(self.entries@)
    }

    pub fn new() -> (t: Self)
        ensures
            t@ == Map::<K, V>::empty(),
            t.order() == Seq::<K>::empty(),
    {
        let t = Table { entries: Vec::new() };
        assert(t@ =~= Map::<K, V>::empty());
        assert(t.order() =~= Seq::<K>::empty());
        t
    }

    fn find(&self, k: &K) -> (i: usize)
        ensures
            i == first_at(self.order(), *k),
            i <= self.entries@.len(),
            i < self.entries@.len() <==> self@.dom().contains(*k),
            i < self.entries@.len() ==> self.entries@[i as int].0 == *k && self.entries@[i as int].1
                == self@[*k],
    {
        let mut i: usize = 0;
        while i < self.entries.len()
            invariant
                i <= self.entries@.len(),
                forall|j: int| 0 <= j < i ==> self.order()[j] != *k,
            decreases self.entries@.len() - i,
        {
            assert(self.order()[i as int] == self.entries@[i as int].0);
            if self.entries[i].0.same(k) {
                proof {
                    first_at_found(self.order(), *k, i as int);
                    assert(self.order().contains(*k));
                }
                return i;
            }
            i += 1;
        }
        proof {
            first_at_absent(self.order(), *k);
            first_at_is_first(self.order(), *k);
        }
        i
    }

    pub fn get(&self, k: &K) -> (r: Option<&V>)
        ensures
            match r {
                Some(v) => self@.dom().contains(*k) && self@[*k] == *v,
                None => !self@.dom().contains(*k),
            },
    {
        let i: usize = self.find(k);
        if i < self.entries.len() {
            Some(&self.entries[i].1)
        } else {
            None
        }
    }

    pub fn contains(&self, k: &K) -> (r: bool)
        ensures
            r == self@.dom().contains(*k),
    {
        self.find(k) < self.entries.len()
    }

    pub fn is_empty(&self) -> (r: bool)
        ensures
            r == (self@.dom() =~= Set::<K>::empty()),
            r == (self.order().len() == 0),
    {
        proof {
            if self.entries@.len() > 0 {
                assert(self.order()[0] == self.entries@[0].0);
                assert(self@.dom().contains(self.entries@[0].0));
            }
        }
        self.entries.len() == 0
    }

    /// Sets the value of a key: in its place if the key is there, else at the end.
    pub fn set(&mut self, k: K, v: V)
        ensures
            final(self)@ == old(self)@.insert(k, v),
            final(self).order() == (if old(self)@.dom().contains(k) {
                old(self).order()
            } else {
                old(self).order().push(k)
            }),
    {
        proof {
            use_type_invariant(&*self);
        }
        let i: usize = self.find(&k);
        let ghost before = self.entries@;
        let mut entries: Vec<(K, V)> = Vec::new();
        std::mem::swap(&mut entries, &mut self.entries);
        if i < entries.len() {
            entries.remove(i);
            entries.insert(i, (k, v));
            proof {
                assert(entries@ =~= before.update(i as int, (before[i as int].0, v)));
                lemma_map_of_set(before, i as int, v);
            }
        } else {
            entries.push((k, v));
            proof {
                lemma_map_of_push(before, k, v);
            }
        }
        self.entries = entries;
    }

    /// Takes a key and its value out; the others keep their order.
    pub fn remove(&mut self, k: &K) -> (r: Option<V>)
        ensures
            match r {
                Some(v) => old(self)@.dom().contains(*k) && old(self)@[*k] == v,
                None => !old(self)@.dom().contains(*k),
            },
            final(self)@ == old(self)@.remove(*k),
            final(self).order() == (if old(self)@.dom().contains(*k) {
                old(self).order().remove(first_at(old(self).order(), *k) as int)
            } else {
                old(self).order()
            }),
    {
        proof {
            use_type_invariant(&*self);
        }
        let i: usize = self.find(k);
        let ghost before = self.entries@;
        let mut entries: Vec<(K, V)> = Vec::new();
        std::mem::swap(&mut entries, &mut self.entries);
        let r: Option<V> = if i < entries.len() {
            proof {
                lemma_map_of_remove(before, i as int);
            }
            let (_, v) = entries.remove(i);
            Some(v)
        } else {
            assert(map_of(before) =~= map_of(before).remove(*k));
            None
        };
        self.entries = entries;
        r
    }

    /// Drops the entries whose value `keep` turns down.
    pub(crate) fn retain<F: Fn(&V) -> bool>(&mut self, keep: F, p: Ghost<spec_fn(V) -> bool>)
        requires
            forall|v: &V| #[trigger] call_requires(keep, (v,)),
            forall|v: &V, r: bool| #[trigger] call_ensures(keep, (v,), r) ==> r == p@(*v),
        ensures
            final(self)@ == kept(old(self)@, p@),
    {
        let ghost was = self@;
        let keys: Vec<K> = self.keys();
        let mut i: usize = 0;
        assert(self@ =~= swept(was, keys@.take(0), p@));
        while i < keys.len()
            invariant
                i <= keys@.len(),
                keys@.no_duplicates(),
                forall|k: K| #[trigger] keys@.contains(k) <==> was.dom().contains(k),
                forall|v: &V| #[trigger] call_requires(keep, (v,)),
                forall|v: &V, r: bool| #[trigger] call_ensures(keep, (v,), r) ==> r == p@(*v),
                self@ == swept(was, keys@.take(i as int), p@),
            decreases keys@.len() - i,
        {
            let k: K = keys[i];
            assert(keys@.contains(k));
            proof {
                lemma_swept_step(was, keys@, i as int, p@);
            }
            let stays: bool = match self.get(&k) {
                Some(v) => keep(v),
                None => true,
            };
            if !stays {
                self.remove(&k);
            }
            i += 1;
        }
        assert(keys@.take(i as int) =~= keys@);
        assert(self@ =~= kept(was, p@));
    }

    /// The keys, in order.
    pub fn keys(&self) -> (r: Vec<K>)
        ensures
            r@ == self.order(),
            r@.no_duplicates(),
            forall|k: K| #[trigger] r@.contains(k) <==> self@.dom().contains(k),
    {
        proof {
            use_type_invariant(self);
        }
        let mut r: Vec<K> = Vec::new();
        let mut i: usize = 0;
        while i < self.entries.len()
            invariant
                i <= self.entries@.len(),
                r@ == self.order().take(i as int),
            decreases self.entries@.len() - i,
        {
            r.push(self.entries[i].0);
            assert(self.order().take(i + 1) =~= self.order().take(i as int).push(
                self.entries@[i as int].0,
            ));
            i += 1;
        }
        assert(self.order().take(i as int) =~= self.order());
        r
    }
}

/// What is kept of a table is exactly what is to be kept, unchanged.
pub proof fn what_is_kept_is_unchanged<K, V>(m: Map<K, V>, keep: spec_fn(V) -> bool, k: K)
    ensures
        kept(m, keep).dom().contains(k) <==> m.dom().contains(k) && keep(m[k]),
        kept(m, keep).dom().contains(k) ==> kept(m, keep)[k] == m[k],
{
}

} // verus!
