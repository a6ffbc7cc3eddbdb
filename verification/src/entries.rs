use crate::order::{lawful, lemma_lt_laws, lemma_lt_transitive, lt};
use vstd::prelude::*;

verus! {

/// The keys of `s` ascend strictly from front to back.
#[verifier::opaque]
pub open spec fn sorted<K: Ord, V>(s: Seq<(K, V)>) -> bool {
    forall|i: int, j: int| 0 <= i < j < s.len() ==> lt(#[trigger] s[i].0, #[trigger] s[j].0)
}

/// Every key of `s` sorts before `k`.
#[verifier::opaque]
pub open spec fn all_below<K: Ord, V>(s: Seq<(K, V)>, k: K) -> bool {
    forall|i: int| 0 <= i < s.len() ==> lt(#[trigger] s[i].0, k)
}

/// Every key of `s` sorts after `k`.
#[verifier::opaque]
pub open spec fn all_above<K: Ord, V>(s: Seq<(K, V)>, k: K) -> bool {
    forall|i: int| 0 <= i < s.len() ==> lt(k, #[trigger] s[i].0)
}

/// Some entry of `s` has the key `k`.
pub open spec fn has_key<K, V>(s: Seq<(K, V)>, k: K) -> bool {
    exists|i: int| 0 <= i < s.len() && (#[trigger] s[i]).0 == k
}

/// A position at which `s` holds the key `k`, when there is one.
pub open spec fn position<K, V>(s: Seq<(K, V)>, k: K) -> int {
    choose|i: int| 0 <= i < s.len() && (#[trigger] s[i]).0 == k
}

/// The entries of `s` read as a map from key to value.
pub open spec fn as_map<K, V>(s: Seq<(K, V)>) -> Map<K, V> {
    Map::new(|k: K| has_key(s, k), |k: K| s[position(s, k)].1)
}

/// The test that an entry's key sorts before `k`.
pub open spec fn before<K: Ord, V>(k: K) -> spec_fn((K, V)) -> bool {
    |e: (K, V)| lt(e.0, k)
}

/// The test that an entry's key sorts after `k`.
pub open spec fn after<K: Ord, V>(k: K) -> spec_fn((K, V)) -> bool {
    |e: (K, V)| lt(k, e.0)
}

/// The entries of `s` whose key sorts before `k`, in the order of `s`.
#[verifier::opaque]
pub open spec fn below<K: Ord, V>(s: Seq<(K, V)>, k: K) -> Seq<(K, V)> {
    s.filter(before(k))
}

/// The entries of `s` whose key sorts after `k`, in the order of `s`.
#[verifier::opaque]
pub open spec fn above<K: Ord, V>(s: Seq<(K, V)>, k: K) -> Seq<(K, V)> {
    s.filter(after(k))
}

/// `s` with the entry `(k, v)` in the place that the order gives it; an entry
/// that `s` held under `k` is gone.
pub open spec fn put<K: Ord, V>(s: Seq<(K, V)>, k: K, v: V) -> Seq<(K, V)> {
    below(s, k) + seq![(k, v)] + above(s, k)
}

/// `s` without the entry under `k`.
pub open spec fn cut<K: Ord, V>(s: Seq<(K, V)>, k: K) -> Seq<(K, V)> {
    below(s, k) + above(s, k)
}

/// `s` with `v` for the value of the entry under `k`, every key in its place.
pub open spec fn set_value<K, V>(s: Seq<(K, V)>, k: K, v: V) -> Seq<(K, V)> {
    Seq::new(s.len(), |i: int| if s[i].0 == k { (k, v) } else { s[i] })
}

/// The three parts of a sorted sequence around one entry: both sides are
/// sorted, the front lies below the entry's key and the back above it.
pub proof fn lemma_sorted_parts<K: Ord, V>(a: Seq<(K, V)>, e: (K, V), b: Seq<(K, V)>)
    requires
        sorted(a + seq![e] + b),
    ensures
        sorted(a),
        sorted(b),
        all_below(a, e.0),
        all_above(b, e.0),
{
    reveal(all_below);
    reveal(all_above);
    reveal(sorted);
    let s = a + seq![e] + b;
    assert(s[a.len() as int] == e);
    assert forall|i: int, j: int| 0 <= i < j < a.len() implies lt(
        #[trigger] a[i].0,
        #[trigger] a[j].0,
    ) by {
        assert(s[i] == a[i] && s[j] == a[j]);
    }
    assert forall|i: int, j: int| 0 <= i < j < b.len() implies lt(
        #[trigger] b[i].0,
        #[trigger] b[j].0,
    ) by {
        assert(s[a.len() + 1 + i] == b[i] && s[a.len() + 1 + j] == b[j]);
    }
    assert forall|i: int| 0 <= i < a.len() implies lt(#[trigger] a[i].0, e.0) by {
        assert(s[i] == a[i]);
    }
    assert forall|i: int| 0 <= i < b.len() implies lt(e.0, #[trigger] b[i].0) by {
        assert(s[a.len() + 1 + i] == b[i]);
    }
}

/// Two sorted sequences around an entry that lies between them make a sorted
/// sequence.
pub proof fn lemma_sorted_join<K: Ord, V>(a: Seq<(K, V)>, e: (K, V), b: Seq<(K, V)>)
    requires
        lawful::<K>(),
        sorted(a),
        sorted(b),
        all_below(a, e.0),
        all_above(b, e.0),
    ensures
        sorted(a + seq![e] + b),
{
    reveal(all_below);
    reveal(all_above);
    reveal(sorted);
    lemma_lt_laws::<K>();
    let s = a + seq![e] + b;
    assert forall|i: int, j: int| 0 <= i < j < s.len() implies lt(
        #[trigger] s[i].0,
        #[trigger] s[j].0,
    ) by {
        let n = a.len() as int;
        if j < n {
            assert(s[i] == a[i] && s[j] == a[j]);
        } else if j == n {
            assert(s[i] == a[i] && s[j] == e);
        } else {
            assert(s[j] == b[j - n - 1]);
            if i < n {
                assert(s[i] == a[i]);
                assert(lt(a[i].0, e.0) && lt(e.0, b[j - n - 1].0));
            } else if i == n {
                assert(s[i] == e);
            } else {
                assert(s[i] == b[i - n - 1]);
            }
        }
    }
}

/// A sorted sequence without one of its entries is sorted.
pub proof fn lemma_sorted_without<K: Ord, V>(a: Seq<(K, V)>, e: (K, V), b: Seq<(K, V)>)
    requires
        sorted(a + seq![e] + b),
    ensures
        sorted(a + b),
{
    reveal(sorted);
    let s = a + seq![e] + b;
    let t = a + b;
    assert forall|i: int, j: int| 0 <= i < j < t.len() implies lt(
        #[trigger] t[i].0,
        #[trigger] t[j].0,
    ) by {
        let i2 = if i < a.len() { i } else { i + 1 };
        let j2 = if j < a.len() { j } else { j + 1 };
        assert(s[i2] == t[i] && s[j2] == t[j]);
    }
}

/// A sorted sequence without its first entry is sorted, and lies above the
/// key of that entry.
pub proof fn lemma_sorted_rest<K: Ord, V>(s: Seq<(K, V)>)
    requires
        sorted(s),
        s.len() > 0,
    ensures
        sorted(s.drop_first()),
        all_above(s.drop_first(), s[0].0),
{
    reveal(all_below);
    reveal(all_above);
    reveal(sorted);
    let t = s.drop_first();
    assert forall|i: int, j: int| 0 <= i < j < t.len() implies lt(
        #[trigger] t[i].0,
        #[trigger] t[j].0,
    ) by {
        assert(s[i + 1] == t[i] && s[j + 1] == t[j]);
    }
    assert forall|i: int| 0 <= i < t.len() implies lt(s[0].0, #[trigger] t[i].0) by {
        assert(s[i + 1] == t[i]);
    }
}

/// A filter that every element passes keeps the sequence.
pub proof fn lemma_keep_all<A>(s: Seq<A>, p: spec_fn(A) -> bool)
    requires
        forall|i: int| 0 <= i < s.len() ==> p(#[trigger] s[i]),
    ensures
        s.filter(p) == s,
    decreases s.len(),
{
    reveal(Seq::filter);
    if s.len() > 0 {
        let t = s.drop_last();
        assert forall|i: int| 0 <= i < t.len() implies p(#[trigger] t[i]) by {
            assert(t[i] == s[i]);
        }
        lemma_keep_all(t, p);
        assert(p(s[s.len() - 1]));
        assert(t.push(s.last()) =~= s);
    }
}

/// A filter that no element passes leaves nothing.
pub proof fn lemma_keep_none<A>(s: Seq<A>, p: spec_fn(A) -> bool)
    requires
        forall|i: int| 0 <= i < s.len() ==> !p(#[trigger] s[i]),
    ensures
        s.filter(p) == Seq::<A>::empty(),
    decreases s.len(),
{
    reveal(Seq::filter);
    if s.len() > 0 {
        let t = s.drop_last();
        assert forall|i: int| 0 <= i < t.len() implies !p(#[trigger] t[i]) by {
            assert(t[i] == s[i]);
        }
        lemma_keep_none(t, p);
        assert(!p(s[s.len() - 1]));
    }
}

/// Nothing has no parts, lies below and above every key, and is what is left
/// when a key is cut from it.
pub proof fn lemma_nothing<K: Ord, V>(k: K)
    requires
        lawful::<K>(),
    ensures
        all_below(Seq::<(K, V)>::empty(), k),
        all_above(Seq::<(K, V)>::empty(), k),
        sorted(Seq::<(K, V)>::empty()),
        below(Seq::<(K, V)>::empty(), k) == Seq::<(K, V)>::empty(),
        above(Seq::<(K, V)>::empty(), k) == Seq::<(K, V)>::empty(),
        cut(Seq::<(K, V)>::empty(), k) == Seq::<(K, V)>::empty(),
        !has_key(Seq::<(K, V)>::empty(), k),
{
    reveal(all_below);
    reveal(all_above);
    reveal(sorted);
    let none = Seq::<(K, V)>::empty();
    lemma_lies_below(none, k);
    assert(cut(none, k) =~= none);
}

/// A sequence that lies below `k` is its own part below `k` and has no part
/// above it.
pub proof fn lemma_lies_below<K: Ord, V>(s: Seq<(K, V)>, k: K)
    requires
        lawful::<K>(),
        all_below(s, k),
    ensures
        below(s, k) == s,
        above(s, k) == Seq::<(K, V)>::empty(),
        !has_key(s, k),
{
    reveal(all_below);
    reveal(all_above);
    reveal(below);
    reveal(above);
    lemma_lt_laws::<K>();
    lemma_keep_all(s, before(k));
    lemma_keep_none(s, after(k));
}

/// A sequence that lies above `k` is its own part above `k` and has no part
/// below it.
pub proof fn lemma_lies_above<K: Ord, V>(s: Seq<(K, V)>, k: K)
    requires
        lawful::<K>(),
        all_above(s, k),
    ensures
        above(s, k) == s,
        below(s, k) == Seq::<(K, V)>::empty(),
        !has_key(s, k),
{
    reveal(all_below);
    reveal(all_above);
    reveal(below);
    reveal(above);
    lemma_lt_laws::<K>();
    lemma_keep_all(s, after(k));
    lemma_keep_none(s, before(k));
}

/// In a sorted sequence a key stands at one position only, and the map holds
/// the value that stands beside it.
pub proof fn lemma_lookup<K: Ord, V>(s: Seq<(K, V)>, i: int)
    requires
        lawful::<K>(),
        sorted(s),
        0 <= i < s.len(),
    ensures
        has_key(s, s[i].0),
        position(s, s[i].0) == i,
        as_map(s).contains_key(s[i].0),
        as_map(s)[s[i].0] == s[i].1,
{
    reveal(sorted);
    lemma_lt_laws::<K>();
    let j = position(s, s[i].0);
    assert(0 <= j < s.len() && s[j].0 == s[i].0);
    if j < i {
        assert(lt(s[j].0, s[i].0));
    } else if i < j {
        assert(lt(s[i].0, s[j].0));
    }
}

/// `[e] + b` lies above whatever sorts before `e`, and `a + [e]` below
/// whatever sorts after it, where `a + [e] + b` is sorted.
pub proof fn lemma_sides<K: Ord, V>(a: Seq<(K, V)>, e: (K, V), b: Seq<(K, V)>, k: K)
    requires
        lawful::<K>(),
        sorted(a + seq![e] + b),
    ensures
        lt(k, e.0) ==> all_above(seq![e] + b, k),
        lt(e.0, k) ==> all_below(a + seq![e], k),
{
    reveal(all_below);
    reveal(all_above);
    lemma_sorted_parts(a, e, b);
    if lt(k, e.0) {
        let right = seq![e] + b;
        assert forall|i: int| 0 <= i < right.len() implies lt(k, #[trigger] right[i].0) by {
            if i > 0 {
                assert(right[i] == b[i - 1]);
                lemma_lt_transitive(k, e.0, b[i - 1].0);
            }
        }
    }
    if lt(e.0, k) {
        let left = a + seq![e];
        assert forall|i: int| 0 <= i < left.len() implies lt(#[trigger] left[i].0, k) by {
            if i < a.len() {
                assert(left[i] == a[i]);
                lemma_lt_transitive(a[i].0, e.0, k);
            }
        }
    }
}

/// An entry of `a` is found in `a + b` where it is found in `a`, if both are
/// sorted.
pub proof fn lemma_lookup_front<K: Ord, V>(a: Seq<(K, V)>, b: Seq<(K, V)>, k: K)
    requires
        lawful::<K>(),
        sorted(a),
        sorted(a + b),
        has_key(a, k),
    ensures
        has_key(a + b, k),
        as_map(a + b)[k] == as_map(a)[k],
{
    let i = position(a, k);
    assert((a + b)[i] == a[i]);
    lemma_lookup(a + b, i);
    lemma_lookup(a, i);
}

/// An entry of `b` is found in `a + b` where it is found in `b`, if both are
/// sorted.
pub proof fn lemma_lookup_back<K: Ord, V>(a: Seq<(K, V)>, b: Seq<(K, V)>, k: K)
    requires
        lawful::<K>(),
        sorted(b),
        sorted(a + b),
        has_key(b, k),
    ensures
        has_key(a + b, k),
        as_map(a + b)[k] == as_map(b)[k],
{
    let i = position(b, k);
    assert((a + b)[a.len() + i] == b[i]);
    lemma_lookup(a + b, a.len() + i);
    lemma_lookup(b, i);
}

/// A key of `a + b` is a key of `a` or of `b`.
pub proof fn lemma_has_key_add<K, V>(a: Seq<(K, V)>, b: Seq<(K, V)>, k: K)
    ensures
        has_key(a + b, k) == (has_key(a, k) || has_key(b, k)),
{
    let s = a + b;
    if has_key(s, k) {
        let j = position(s, k);
        if j < a.len() {
            assert(a[j] == s[j]);
        } else {
            assert(b[j - a.len()] == s[j]);
        }
    }
    if has_key(a, k) {
        let j = position(a, k);
        assert(s[j] == a[j]);
    }
    if has_key(b, k) {
        let j = position(b, k);
        assert(s[a.len() + j] == b[j]);
    }
}

/// The parts of `a + b` around `k` are those of `a` followed by those of `b`.
pub proof fn lemma_parts_add<K: Ord, V>(a: Seq<(K, V)>, b: Seq<(K, V)>, k: K)
    ensures
        below(a + b, k) == below(a, k) + below(b, k),
        above(a + b, k) == above(a, k) + above(b, k),
{
    reveal(below);
    reveal(above);
    Seq::filter_distributes_over_add(a, b, before(k));
    Seq::filter_distributes_over_add(a, b, after(k));
}

/// The parts of `a + [e] + b` around a key `k` that sorts before `e` are the
/// parts of `a`, with `[e] + b` behind the upper one.
pub proof fn lemma_parts_left<K: Ord, V>(a: Seq<(K, V)>, e: (K, V), b: Seq<(K, V)>, k: K)
    requires
        lawful::<K>(),
        sorted(a + seq![e] + b),
        lt(k, e.0),
    ensures
        below(a + seq![e] + b, k) == below(a, k),
        above(a + seq![e] + b, k) == above(a, k) + seq![e] + b,
{
    let right = seq![e] + b;
    lemma_sides(a, e, b, k);
    lemma_lies_above(right, k);
    lemma_parts_add(a, right, k);
    assert(a + seq![e] + b =~= a + right);
    assert(below(a, k) + Seq::<(K, V)>::empty() =~= below(a, k));
    assert(above(a, k) + right =~= above(a, k) + seq![e] + b);
}

/// The mirror image of `lemma_parts_left`.
pub proof fn lemma_parts_right<K: Ord, V>(a: Seq<(K, V)>, e: (K, V), b: Seq<(K, V)>, k: K)
    requires
        lawful::<K>(),
        sorted(a + seq![e] + b),
        lt(e.0, k),
    ensures
        below(a + seq![e] + b, k) == a + seq![e] + below(b, k),
        above(a + seq![e] + b, k) == above(b, k),
{
    let left = a + seq![e];
    lemma_sides(a, e, b, k);
    lemma_lies_below(left, k);
    lemma_parts_add(left, b, k);
    assert(Seq::<(K, V)>::empty() + above(b, k) =~= above(b, k));
}

/// A key that sorts before `e` is a key of the sorted `a + [e] + b` where it
/// is one of `a`, with the same value.
pub proof fn lemma_key_left<K: Ord, V>(a: Seq<(K, V)>, e: (K, V), b: Seq<(K, V)>, k: K)
    requires
        lawful::<K>(),
        sorted(a + seq![e] + b),
        lt(k, e.0),
    ensures
        has_key(a + seq![e] + b, k) == has_key(a, k),
        has_key(a, k) ==> as_map(a + seq![e] + b)[k] == as_map(a)[k],
{
    let right = seq![e] + b;
    lemma_sides(a, e, b, k);
    lemma_lies_above(right, k);
    assert(a + seq![e] + b =~= a + right);
    lemma_has_key_add(a, right, k);
    if has_key(a, k) {
        lemma_sorted_parts(a, e, b);
        lemma_lookup_front(a, right, k);
    }
}

/// The mirror image of `lemma_key_left`.
pub proof fn lemma_key_right<K: Ord, V>(a: Seq<(K, V)>, e: (K, V), b: Seq<(K, V)>, k: K)
    requires
        lawful::<K>(),
        sorted(a + seq![e] + b),
        lt(e.0, k),
    ensures
        has_key(a + seq![e] + b, k) == has_key(b, k),
        has_key(b, k) ==> as_map(a + seq![e] + b)[k] == as_map(b)[k],
{
    let left = a + seq![e];
    lemma_sides(a, e, b, k);
    lemma_lies_below(left, k);
    lemma_has_key_add(left, b, k);
    if has_key(b, k) {
        lemma_sorted_parts(a, e, b);
        lemma_lookup_back(left, b, k);
    }
}

/// The parts of `a + [e] + b` around the key of `e`: `a` lies below it, `b`
/// above it, and the map holds the value of `e` under it.
pub proof fn lemma_key_here<K: Ord, V>(a: Seq<(K, V)>, e: (K, V), b: Seq<(K, V)>)
    requires
        lawful::<K>(),
        sorted(a + seq![e] + b),
    ensures
        below(a + seq![e] + b, e.0) == a,
        above(a + seq![e] + b, e.0) == b,
        has_key(a + seq![e] + b, e.0),
        as_map(a + seq![e] + b)[e.0] == e.1,
{
    lemma_sorted_parts(a, e, b);
    let s = a + seq![e] + b;
    let k = e.0;
    lemma_lies_below(a, k);
    lemma_lies_above(b, k);
    lemma_single(e, k);
    assert(!lt(k, k)) by {
        lemma_lt_laws::<K>();
    }
    lemma_parts_add(a, seq![e], k);
    lemma_parts_add(a + seq![e], b, k);
    assert(a + Seq::<(K, V)>::empty() + Seq::<(K, V)>::empty() =~= a);
    assert(Seq::<(K, V)>::empty() + Seq::<(K, V)>::empty() + b =~= b);
    assert(s[a.len() as int] == e);
    lemma_lookup(s, a.len() as int);
}

/// The parts of the one entry `e` around `k`: `e` itself or nothing.
pub proof fn lemma_single<K: Ord, V>(e: (K, V), k: K)
    ensures
        below(seq![e], k) == if lt(e.0, k) { seq![e] } else { Seq::<(K, V)>::empty() },
        above(seq![e], k) == if lt(k, e.0) { seq![e] } else { Seq::<(K, V)>::empty() },
{
    reveal(below);
    reveal(above);
    if lt(e.0, k) {
        lemma_keep_all(seq![e], before(k));
    } else {
        lemma_keep_none(seq![e], before(k));
    }
    if lt(k, e.0) {
        lemma_keep_all(seq![e], after(k));
    } else {
        lemma_keep_none(seq![e], after(k));
    }
}

/// What lies below a bound still does once an entry below that bound is put
/// in.
pub proof fn lemma_put_below<K: Ord, V>(s: Seq<(K, V)>, k: K, v: V, bound: K)
    requires
        all_below(s, bound),
        lt(k, bound),
    ensures
        all_below(put(s, k, v), bound),
{
    reveal(all_below);
    reveal(all_above);
    lemma_parts_within(s, k);
    let t = put(s, k, v);
    assert forall|i: int| 0 <= i < t.len() implies lt(#[trigger] t[i].0, bound) by {
        let n = below(s, k).len();
        if i < n {
            assert(t[i] == below(s, k)[i]);
            assert(s.contains(below(s, k)[i]));
        } else if i > n {
            assert(t[i] == above(s, k)[i - n - 1]);
            assert(s.contains(above(s, k)[i - n - 1]));
        }
    }
}

/// What lies above a bound still does once an entry above that bound is put
/// in.
pub proof fn lemma_put_above<K: Ord, V>(s: Seq<(K, V)>, k: K, v: V, bound: K)
    requires
        all_above(s, bound),
        lt(bound, k),
    ensures
        all_above(put(s, k, v), bound),
{
    reveal(all_below);
    reveal(all_above);
    lemma_parts_within(s, k);
    let t = put(s, k, v);
    assert forall|i: int| 0 <= i < t.len() implies lt(bound, #[trigger] t[i].0) by {
        let n = below(s, k).len();
        if i < n {
            assert(t[i] == below(s, k)[i]);
            assert(s.contains(below(s, k)[i]));
        } else if i > n {
            assert(t[i] == above(s, k)[i - n - 1]);
            assert(s.contains(above(s, k)[i - n - 1]));
        }
    }
}

/// What lies below or above a bound still does once an entry is cut out.
pub proof fn lemma_cut_within<K: Ord, V>(s: Seq<(K, V)>, k: K, bound: K)
    ensures
        all_below(s, bound) ==> all_below(cut(s, k), bound),
        all_above(s, bound) ==> all_above(cut(s, k), bound),
{
    reveal(all_below);
    reveal(all_above);
    lemma_parts_within(s, k);
    let t = cut(s, k);
    let n = below(s, k).len();
    assert forall|i: int| 0 <= i < t.len() implies s.contains(#[trigger] t[i]) by {
        if i < n {
            assert(t[i] == below(s, k)[i]);
        } else {
            assert(t[i] == above(s, k)[i - n]);
        }
    }
}

/// Each entry of the two parts of `s` around `k` is an entry of `s`.
pub proof fn lemma_parts_within<K: Ord, V>(s: Seq<(K, V)>, k: K)
    ensures
        forall|i: int| 0 <= i < below(s, k).len() ==> s.contains(#[trigger] below(s, k)[i]),
        forall|i: int| 0 <= i < above(s, k).len() ==> s.contains(#[trigger] above(s, k)[i]),
{
    reveal(below);
    reveal(above);
    assert forall|i: int| 0 <= i < below(s, k).len() implies s.contains(
        #[trigger] below(s, k)[i],
    ) by {
        assert(below(s, k).contains(below(s, k)[i]));
        s.lemma_filter_contains_rev(before(k), below(s, k)[i]);
    }
    assert forall|i: int| 0 <= i < above(s, k).len() implies s.contains(
        #[trigger] above(s, k)[i],
    ) by {
        assert(above(s, k).contains(above(s, k)[i]));
        s.lemma_filter_contains_rev(after(k), above(s, k)[i]);
    }
}

/// A new value under a key that `s` does not hold changes nothing.
pub proof fn lemma_set_value_absent<K, V>(s: Seq<(K, V)>, k: K, v: V)
    requires
        !has_key(s, k),
    ensures
        set_value(s, k, v) == s,
{
    assert forall|i: int| 0 <= i < s.len() implies s[i].0 != k by {
        if (#[trigger] s[i]).0 == k {
            assert(has_key(s, k));
        }
    }
    assert(set_value(s, k, v) =~= s);
}

/// A new value goes to the entries of `a + b` as it goes to those of `a` and
/// to those of `b`.
pub proof fn lemma_set_value_add<K, V>(a: Seq<(K, V)>, b: Seq<(K, V)>, k: K, v: V)
    ensures
        set_value(a + b, k, v) == set_value(a, k, v) + set_value(b, k, v),
{
    assert(set_value(a + b, k, v) =~= set_value(a, k, v) + set_value(b, k, v));
}

/// A new value under a key that sorts before `e` goes to `a` alone.
pub proof fn lemma_set_value_left<K: Ord, V>(
    a: Seq<(K, V)>,
    e: (K, V),
    b: Seq<(K, V)>,
    k: K,
    v: V,
)
    requires
        lawful::<K>(),
        sorted(a + seq![e] + b),
        lt(k, e.0),
    ensures
        set_value(a + seq![e] + b, k, v) == set_value(a, k, v) + seq![e] + b,
{
    let right = seq![e] + b;
    lemma_sides(a, e, b, k);
    lemma_lies_above(right, k);
    lemma_set_value_absent(right, k, v);
    lemma_set_value_add(a, right, k, v);
    assert(a + seq![e] + b =~= a + right);
    assert(set_value(a, k, v) + right =~= set_value(a, k, v) + seq![e] + b);
}

/// A new value under a key that sorts after `e` goes to `b` alone.
pub proof fn lemma_set_value_right<K: Ord, V>(
    a: Seq<(K, V)>,
    e: (K, V),
    b: Seq<(K, V)>,
    k: K,
    v: V,
)
    requires
        lawful::<K>(),
        sorted(a + seq![e] + b),
        lt(e.0, k),
    ensures
        set_value(a + seq![e] + b, k, v) == a + seq![e] + set_value(b, k, v),
{
    let left = a + seq![e];
    lemma_sides(a, e, b, k);
    lemma_lies_below(left, k);
    lemma_set_value_absent(left, k, v);
    lemma_set_value_add(left, b, k, v);
}

/// A new value under the key of `e` goes to `e` alone.
pub proof fn lemma_set_value_here<K: Ord, V>(a: Seq<(K, V)>, e: (K, V), b: Seq<(K, V)>, v: V)
    requires
        lawful::<K>(),
        sorted(a + seq![e] + b),
    ensures
        set_value(a + seq![e] + b, e.0, v) == a + seq![(e.0, v)] + b,
{
    lemma_sorted_parts(a, e, b);
    lemma_lies_below(a, e.0);
    lemma_lies_above(b, e.0);
    lemma_set_value_absent(a, e.0, v);
    lemma_set_value_absent(b, e.0, v);
    lemma_set_value_add(a, seq![e], e.0, v);
    lemma_set_value_add(a + seq![e], b, e.0, v);
    assert(set_value(seq![e], e.0, v) =~= seq![(e.0, v)]);
}

} // verus!
