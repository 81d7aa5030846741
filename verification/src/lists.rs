//! Sequences of keys: where one first occurs, and which is the first to occur twice.
use vstd::prelude::*;

verus! {

/// The place where `k` first occurs, or the length where it does not.
pub open spec fn first_at<K>(keys: Seq<K>, k: K) -> nat
    decreases keys.len(),
{
    if keys.len() == 0 || keys[0] == k {
        0
    } else {
        1 + first_at(keys.skip(1), k)
    }
}

/// The first key that repeats an earlier one.
pub open spec fn first_repeat<K>(keys: Seq<K>) -> Option<K>
    decreases keys.len(),
{
    if keys.len() == 0 {
        None
    } else {
        match first_repeat(keys.drop_last()) {
            Some(k) => Some(k),
            None => if keys.drop_last().contains(keys.last()) {
                Some(keys.last())
            } else {
                None
            },
        }
    }
}

/// What [`first_at`] is: a place within reach, none before it, and it unless the
/// key is absent.
pub proof fn first_at_is_first<K>(keys: Seq<K>, k: K)
    ensures
        first_at(keys, k) <= keys.len(),
        forall|j: int| 0 <= j < first_at(keys, k) ==> keys[j] != k,
        first_at(keys, k) < keys.len() ==> keys[first_at(keys, k) as int] == k,
        first_at(keys, k) < keys.len() <==> keys.contains(k),
    decreases keys.len(),
{
    if keys.len() > 0 && keys[0] != k {
        let t = keys.skip(1);
        first_at_is_first(t, k);
        assert forall|j: int| 0 <= j < first_at(keys, k) implies keys[j] != k by {
            if j > 0 {
                assert(keys[j] == t[j - 1]);
            }
        }
        if keys.contains(k) {
            let j = choose|j: int| 0 <= j < keys.len() && keys[j] == k;
            assert(t[j - 1] == k);
        }
        if first_at(keys, k) < keys.len() {
            assert(keys[first_at(keys, k) as int] == t[first_at(t, k) as int]);
        }
    } else if keys.len() > 0 {
        assert(keys[0] == k);
    }
}

pub proof fn first_at_found<K>(keys: Seq<K>, k: K, i: int)
    requires
        0 <= i < keys.len(),
        keys[i] == k,
        forall|j: int| 0 <= j < i ==> keys[j] != k,
    ensures
        first_at(keys, k) == i,
{
    first_at_is_first(keys, k);
}

pub proof fn first_at_absent<K>(keys: Seq<K>, k: K)
    requires
        forall|j: int| 0 <= j < keys.len() ==> keys[j] != k,
    ensures
        first_at(keys, k) == keys.len(),
{
    first_at_is_first(keys, k);
}

/// No key repeats exactly where all are distinct; one that is reported does.
pub proof fn first_repeat_finds_repeats<K>(keys: Seq<K>)
    ensures
        first_repeat(keys) is None <==> keys.no_duplicates(),
    decreases keys.len(),
{
    if keys.len() > 0 {
        let t = keys.drop_last();
        first_repeat_finds_repeats(t);
        if first_repeat(keys) is None {
            assert forall|i: int, j: int|
                0 <= i < keys.len() && 0 <= j < keys.len() && i != j implies keys[i] != keys[j] by {
                if i < t.len() && j < t.len() {
                    assert(t[i] != t[j]);
                } else if i < t.len() {
                    assert(t.contains(t[i]));
                } else {
                    assert(t.contains(t[j]));
                }
            }
        }
        if keys.no_duplicates() {
            assert(t.no_duplicates());
            if t.contains(keys.last()) {
                let i = choose|i: int| 0 <= i < t.len() && t[i] == keys.last();
                assert(keys[i] == keys[keys.len() - 1]);
            }
        }
    }
}

/// Scanning further never changes the first repeat found.
pub proof fn first_repeat_stays<K>(keys: Seq<K>, i: int)
    requires
        0 <= i <= keys.len(),
        first_repeat(keys.take(i)) is Some,
    ensures
        first_repeat(keys) == first_repeat(keys.take(i)),
    decreases keys.len() - i,
{
    if i == keys.len() {
        assert(keys.take(i) =~= keys);
    } else {
        assert(keys.take(i + 1).drop_last() =~= keys.take(i));
        first_repeat_stays(keys, i + 1);
    }
}

/// Two entries that a filter lets through stand in the same order before it.
pub(crate) proof fn filter_keeps_order<A>(s: Seq<A>, p: spec_fn(A) -> bool, i: int, j: int)
    requires
        0 <= i < j < s.filter(p).len(),
    ensures
        exists|a: int, b: int|
            0 <= a < b < s.len() && #[trigger] s[a] == s.filter(p)[i] && #[trigger] s[b]
                == s.filter(p)[j],
    decreases s.len(),
{
    reveal(Seq::filter);
    let t = s.drop_last();
    if j < t.filter(p).len() {
        filter_keeps_order(t, p, i, j);
        let (a, b) = choose|a: int, b: int|
            0 <= a < b < t.len() && #[trigger] t[a] == t.filter(p)[i] && #[trigger] t[b]
                == t.filter(p)[j];
        assert(s[a] == s.filter(p)[i] && s[b] == s.filter(p)[j]);
    } else {
        t.lemma_filter_pred(p, i);
        assert(t.filter(p).contains(t.filter(p)[i]));
        t.lemma_filter_contains_rev(p, t.filter(p)[i]);
        let a = choose|a: int| 0 <= a < t.len() && t[a] == t.filter(p)[i];
        assert(s[a] == s.filter(p)[i] && s[s.len() - 1] == s.filter(p)[j]);
    }
}

/// A filter that lets everything through changes nothing.
pub(crate) proof fn filter_of_all<A>(s: Seq<A>, p: spec_fn(A) -> bool)
    requires
        forall|i: int| 0 <= i < s.len() ==> p(#[trigger] s[i]),
    ensures
        s.filter(p) == s,
    decreases s.len(),
{
    reveal(Seq::filter);
    if s.len() > 0 {
        let t = s.drop_last();
        assert forall|i: int| 0 <= i < t.len() implies p(#[trigger] t[i]) by {
            assert(t[i] == s[i]);
        }
        filter_of_all(t, p);
        assert(p(s[s.len() - 1]));
        assert(s =~= t.push(s.last()));
    }
}

/// A filter judges the last entry by itself.
pub(crate) proof fn filter_of_push<A>(s: Seq<A>, x: A, p: spec_fn(A) -> bool)
    ensures
        s.push(x).filter(p) == (if p(x) {
            s.filter(p).push(x)
        } else {
            s.filter(p)
        }),
{
    reveal(Seq::filter);
    assert(s.push(x).drop_last() =~= s);
}

/// Where a key first occurs does not depend on what comes later.
pub(crate) proof fn first_at_of_push<K>(s: Seq<K>, x: K, k: K)
    ensures
        first_at(s.push(x), k) == (if s.contains(k) {
            first_at(s, k)
        } else if x == k {
            s.len()
        } else {
            s.len() + 1
        }),
{
    let t = s.push(x);
    first_at_is_first(s, k);
    if s.contains(k) {
        first_at_found(t, k, first_at(s, k) as int);
    } else if x == k {
        first_at_found(t, k, s.len() as int);
    } else {
        assert forall|j: int| 0 <= j < t.len() implies t[j] != k by {
            if j < s.len() {
                assert(t[j] == s[j]);
            }
        }
        first_at_absent(t, k);
    }
}

/// The key that is reported as repeating occurs a second time, and no key before it
/// does.
pub proof fn first_repeat_is_the_first<K>(keys: Seq<K>)
    ensures
        first_repeat(keys) matches Some(k) ==> exists|i: int, j: int|
            0 <= i < j < keys.len() && #[trigger] keys[i] == k && #[trigger] keys[j] == k
                && keys.take(j).no_duplicates(),
    decreases keys.len(),
{
    if keys.len() > 0 {
        let front = keys.drop_last();
        first_repeat_is_the_first(front);
        if first_repeat(front) is Some {
            let k = first_repeat(front)->Some_0;
            let (i, j) = choose|i: int, j: int|
                0 <= i < j < front.len() && #[trigger] front[i] == k && #[trigger] front[j] == k
                    && front.take(j).no_duplicates();
            assert(keys.take(j) =~= front.take(j));
            assert(keys[i] == k && keys[j] == k);
        } else if front.contains(keys.last()) {
            first_repeat_finds_repeats(front);
            let i = choose|i: int| 0 <= i < front.len() && front[i] == keys.last();
            let j = keys.len() - 1;
            assert(keys.take(j) =~= front);
            assert(keys[i] == keys.last() && keys[j] == keys.last());
        }
    }
}

} // verus!
