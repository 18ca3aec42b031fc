//! Stable sorting by a numeric key, as `sort_by_key` does it.

use vstd::prelude::*;

verus! {

/// A value that sorts by a numeric key read from its view.
pub trait Keyed: View + Sized {
    spec fn key_of(v: Self::V) -> nat;

    fn key(&self) -> (k: usize)
        ensures
            k == Self::key_of(self@),
    ;
}

/// The views of a sequence of keyed values.
pub open spec fn views<T: View>(s: Seq<T>) -> Seq<T::V> {
    s.map_values(|x: T| x@)
}

/// `x` placed into `s` after every element whose key is at most its own,
/// scanning from the back: into a sorted `s` this keeps `x` behind its equals.
pub open spec fn insert_spec<V>(s: Seq<V>, x: V, key: spec_fn(V) -> nat) -> Seq<V>
    decreases s.len(),
{
    if s.len() == 0 || key(s.last()) <= key(x) {
        s.push(x)
    } else {
        insert_spec(s.drop_last(), x, key).push(s.last())
    }
}

/// The stable sort of `s` by `key`: equal keys keep their order.
pub open spec fn stable_sort<V>(s: Seq<V>, key: spec_fn(V) -> nat) -> Seq<V>
    decreases s.len(),
{
    if s.len() == 0 {
        s
    } else {
        insert_spec(stable_sort(s.drop_last(), key), s.last(), key)
    }
}

/// Whether `s` is in ascending order of `key`.
pub open spec fn sorted_by<V>(s: Seq<V>, key: spec_fn(V) -> nat) -> bool {
    forall|i: int, j: int| 0 <= i < j < s.len() ==> key(#[trigger] s[i]) <= key(#[trigger] s[j])
}

proof fn lemma_insert_sorted<V>(s: Seq<V>, x: V, key: spec_fn(V) -> nat)
    requires
        sorted_by(s, key),
    ensures
        sorted_by(insert_spec(s, x, key), key),
        insert_spec(s, x, key).len() == s.len() + 1,
        insert_spec(s, x, key).to_multiset() =~= s.to_multiset().insert(x),
    decreases s.len(),
{
    broadcast use vstd::seq_lib::group_to_multiset_ensures;
    if s.len() == 0 || key(s.last()) <= key(x) {
    } else {
        let t = s.drop_last();
        assert(sorted_by(t, key)) by {
            assert forall|i: int, j: int| 0 <= i < j < t.len() implies key(#[trigger] t[i]) <= key(#[trigger] t[j]) by {
                assert(t[i] == s[i] && t[j] == s[j]);
            }
        }
        lemma_insert_sorted(t, x, key);
        let r = insert_spec(t, x, key);
        assert forall|i: int| 0 <= i < r.len() implies key(#[trigger] r[i]) <= key(s.last()) by {
            assert(r.to_multiset().count(r[i]) > 0);
            assert(t.to_multiset().insert(x).count(r[i]) > 0);
            if r[i] != x {
                assert(t.to_multiset().count(r[i]) > 0);
                let k = choose|k: int| 0 <= k < t.len() && t[k] == r[i];
                assert(t[k] == s[k]);
            }
        }
        assert(s =~= t.push(s.last()));
    }
}

/// The stable sort is in ascending order of the key, as long as its input,
/// and holds the same elements.
pub proof fn lemma_stable_sort_sorted<V>(s: Seq<V>, key: spec_fn(V) -> nat)
    ensures
        sorted_by(stable_sort(s, key), key),
        stable_sort(s, key).len() == s.len(),
        stable_sort(s, key).to_multiset() =~= s.to_multiset(),
    decreases s.len(),
{
    broadcast use vstd::seq_lib::group_to_multiset_ensures;
    if s.len() > 0 {
        lemma_stable_sort_sorted(s.drop_last(), key);
        lemma_insert_sorted(stable_sort(s.drop_last(), key), s.last(), key);
        assert(s =~= s.drop_last().push(s.last()));
    }
}

/// Sort `v` by key, keeping equal keys in their order.
pub fn sort_by_key<T: Keyed>(v: Vec<T>) -> (r: Vec<T>)
    ensures
        views(r@) == stable_sort(views(v@), |x: T::V| T::key_of(x)),
        sorted_by(views(r@), |x: T::V| T::key_of(x)),
{
    let ghost key = |x: T::V| T::key_of(x);
    let mut r: Vec<T> = Vec::new();
    let mut rest = v;
    let ghost orig = views(rest@);
    let mut i: usize = 0;
    let n = rest.len();
    let mut src: Vec<T> = Vec::new();
    // Move the input into `src` in reverse order so that popping yields it
    // front to back.
    while rest.len() > 0
        invariant
            rest@.len() + src@.len() == n,
            n == orig.len(),
            views(rest@) == orig.take(rest@.len() as int),
            forall|k: int| 0 <= k < src@.len() ==> (#[trigger] src@[k])@ == orig[n - 1 - k],
        decreases rest@.len(),
    {
        let ghost rest_before = rest@;
        let ghost src_before = src@;
        let x = rest.pop().unwrap();
        assert(x@ == views(rest_before)[rest_before.len() - 1]);
        src.push(x);
        assert(views(rest@) =~= orig.take(rest@.len() as int));
        assert forall|k: int| 0 <= k < src@.len() implies (#[trigger] src@[k])@ == orig[n - 1 - k] by {
            if k < src_before.len() {
                assert(src@[k] == src_before[k]);
            }
        }
    }
    while src.len() > 0
        invariant
            i + src@.len() == n,
            n == orig.len(),
            key == (|x: T::V| T::key_of(x)),
            views(r@) == stable_sort(orig.take(i as int), key),
            forall|k: int| 0 <= k < src@.len() ==> (#[trigger] src@[k])@ == orig[n - 1 - k],
        decreases src@.len(),
    {
        let ghost src_before = src@;
        let x = src.pop().unwrap();
        assert(x@ == orig[i as int]);
        assert forall|k: int| 0 <= k < src@.len() implies (#[trigger] src@[k])@ == orig[n - 1 - k] by {
            assert(src@[k] == src_before[k]);
        }
        let kx = x.key();
        let mut p = r.len();
        proof {
            lemma_stable_sort_sorted(orig.take(i as int), key);
        }
        let ghost base = views(r@);
        assert(base.take(p as int) =~= base);
        assert(base.skip(p as int) =~= Seq::<T::V>::empty());
        assert(insert_spec(base, x@, key) =~= insert_spec(base, x@, key) + Seq::<T::V>::empty());
        while p > 0 && r[p - 1].key() > kx
            invariant
                p <= r@.len(),
                key == (|x: T::V| T::key_of(x)),
                kx == T::key_of(x@),
                views(r@) == base,
                sorted_by(base, key),
                insert_spec(base, x@, key) == insert_spec(base.take(p as int), x@, key) + base.skip(p as int),
            decreases p,
        {
            let ghost t = base.take(p as int);
            assert(r@[p - 1]@ == base[p - 1]);
            assert(key(base[p - 1]) == T::key_of(base[p - 1]));
            assert(key(x@) == T::key_of(x@));
            assert(key(base[p - 1]) > key(x@));
            assert(t.len() > 0);
            assert(t.last() == base[p - 1]);
            assert(t.drop_last() =~= base.take(p - 1));
            assert(t.last() == base[p - 1]);
            assert(base.skip(p - 1) =~= seq![base[p - 1]] + base.skip(p as int));
            assert(insert_spec(t, x@, key) == insert_spec(base.take(p - 1), x@, key).push(base[p - 1]));
            assert(insert_spec(base.take(p - 1), x@, key).push(base[p - 1]) + base.skip(p as int)
                =~= insert_spec(base.take(p - 1), x@, key) + base.skip(p - 1));
            p -= 1;
        }
        proof {
            let t = base.take(p as int);
            if p > 0 {
                assert(t.last() == base[p - 1]);
                assert(r@[p - 1]@ == base[p - 1]);
                assert(key(base[p - 1]) == T::key_of(base[p - 1]));
                assert(key(x@) == T::key_of(x@));
            }
            assert(insert_spec(t, x@, key) == t.push(x@));
        }
        r.insert(p, x);
        assert(views(r@) =~= base.take(p as int).push(x@) + base.skip(p as int));
        assert(orig.take(i as int + 1).drop_last() =~= orig.take(i as int));
        i += 1;
    }
    assert(orig.take(n as int) =~= orig);
    proof {
        lemma_stable_sort_sorted(orig, key);
    }
    r
}

} // verus!

verus! {

/// Every element of the stable sort comes from its input.
pub proof fn lemma_stable_sort_elements<V>(s: Seq<V>, key: spec_fn(V) -> nat)
    ensures
        forall|i: int| 0 <= i < stable_sort(s, key).len() ==> s.contains(#[trigger] stable_sort(s, key)[i]),
{
    broadcast use vstd::seq_lib::group_to_multiset_ensures;
    lemma_stable_sort_sorted(s, key);
    let t = stable_sort(s, key);
    assert forall|i: int| 0 <= i < t.len() implies s.contains(#[trigger] t[i]) by {
        assert(t.to_multiset().count(t[i]) > 0);
        assert(s.to_multiset().count(t[i]) > 0);
    }
}

} // verus!
