use crate::entries::{
    above, after, all_above, all_below, as_map, before, below, cut, has_key, lemma_key_here,
    lemma_lies_below, lemma_lookup, lemma_nothing, lemma_parts_add, lemma_parts_within,
    lemma_set_value_here, lemma_single, lemma_sorted_join, lemma_sorted_parts,
    lemma_sorted_without, position, put, set_value, sorted,
};
use crate::order::{lawful, lemma_lt_laws, lt};
use vstd::prelude::*;

verus! {

/// An entry is in `a + b` where it is in `a` or in `b`.
pub proof fn lemma_contains_add<A>(a: Seq<A>, b: Seq<A>, p: A)
    ensures
        (a + b).contains(p) == (a.contains(p) || b.contains(p)),
{
    let s = a + b;
    if s.contains(p) {
        let i = choose|i: int| 0 <= i < s.len() && s[i] == p;
        if i < a.len() {
            assert(a[i] == p);
        } else {
            assert(b[i - a.len()] == p);
        }
    }
    if a.contains(p) {
        let i = choose|i: int| 0 <= i < a.len() && a[i] == p;
        assert(s[i] == p);
    }
    if b.contains(p) {
        let i = choose|i: int| 0 <= i < b.len() && b[i] == p;
        assert(s[a.len() + i] == p);
    }
}

/// The part of `s` below `k` holds the entries of `s` whose key sorts before
/// `k`, and the part above `k` those whose key sorts after it.
pub proof fn lemma_part_pair<K: Ord, V>(s: Seq<(K, V)>, k: K, p: (K, V))
    ensures
        below(s, k).contains(p) == (s.contains(p) && lt(p.0, k)),
        above(s, k).contains(p) == (s.contains(p) && lt(k, p.0)),
{
    reveal(below);
    reveal(above);
    if below(s, k).contains(p) {
        s.lemma_filter_contains_rev(before(k), p);
        let i = choose|i: int| 0 <= i < below(s, k).len() && below(s, k)[i] == p;
        s.lemma_filter_pred(before(k), i);
    }
    if above(s, k).contains(p) {
        s.lemma_filter_contains_rev(after(k), p);
        let i = choose|i: int| 0 <= i < above(s, k).len() && above(s, k)[i] == p;
        s.lemma_filter_pred(after(k), i);
    }
    if s.contains(p) {
        let i = choose|i: int| 0 <= i < s.len() && s[i] == p;
        if lt(p.0, k) {
            s.lemma_filter_contains(before(k), i);
        }
        if lt(k, p.0) {
            s.lemma_filter_contains(after(k), i);
        }
    }
}

/// The entries of `put(s, k, v)` are `(k, v)` and the entries of `s` under
/// other keys.
pub proof fn lemma_put_pair<K: Ord, V>(s: Seq<(K, V)>, k: K, v: V, p: (K, V))
    requires
        lawful::<K>(),
    ensures
        put(s, k, v).contains(p) == (p == (k, v) || (s.contains(p) && p.0 != k)),
{
    lemma_lt_laws::<K>();
    lemma_part_pair(s, k, p);
    lemma_contains_add(below(s, k), seq![(k, v)], p);
    lemma_contains_add(below(s, k) + seq![(k, v)], above(s, k), p);
    if p == (k, v) {
        assert(seq![(k, v)][0] == p);
    }
}

/// The entries of `cut(s, k)` are the entries of `s` under other keys.
pub proof fn lemma_cut_pair<K: Ord, V>(s: Seq<(K, V)>, k: K, p: (K, V))
    requires
        lawful::<K>(),
    ensures
        cut(s, k).contains(p) == (s.contains(p) && p.0 != k),
{
    lemma_lt_laws::<K>();
    lemma_part_pair(s, k, p);
    lemma_contains_add(below(s, k), above(s, k), p);
}

/// The keys of a sequence are the keys of its entries.
pub proof fn lemma_has_key_pair<K, V>(s: Seq<(K, V)>, k: K)
    ensures
        has_key(s, k) ==> s.contains(s[position(s, k)]) && s[position(s, k)].0 == k && 0
            <= position(s, k) < s.len(),
        forall|v: V| s.contains((k, v)) ==> has_key(s, k),
{
    assert forall|v: V| s.contains((k, v)) implies has_key(s, k) by {
        let i = choose|i: int| 0 <= i < s.len() && s[i] == (k, v);
        assert(s[i].0 == k);
    }
}

/// In a sorted sequence the map holds under a key the value of the one entry
/// with that key.
pub proof fn lemma_pair_value<K: Ord, V>(s: Seq<(K, V)>, p: (K, V))
    requires
        lawful::<K>(),
        sorted(s),
        s.contains(p),
    ensures
        has_key(s, p.0),
        as_map(s)[p.0] == p.1,
{
    let i = choose|i: int| 0 <= i < s.len() && s[i] == p;
    lemma_lookup(s, i);
}

/// The two parts of a sorted sequence around a key are sorted, and lie below
/// and above the key.
pub proof fn lemma_parts_sorted<K: Ord, V>(s: Seq<(K, V)>, k: K)
    requires
        lawful::<K>(),
        sorted(s),
    ensures
        sorted(below(s, k)),
        sorted(above(s, k)),
        all_below(below(s, k), k),
        all_above(above(s, k), k),
    decreases s.len(),
{
    if s.len() == 0 {
        lemma_nothing::<K, V>(k);
        assert(s =~= Seq::<(K, V)>::empty());
    } else {
        let t = s.drop_last();
        let x = s.last();
        let none = Seq::<(K, V)>::empty();
        assert(s =~= t + seq![x] + none);
        assert(s =~= t + seq![x]);
        lemma_sorted_parts(t, x, none);
        lemma_parts_sorted(t, k);
        lemma_parts_add(t, seq![x], k);
        lemma_single(x, k);
        lemma_nothing::<K, V>(x.0);
        assert(below(t, k) + none =~= below(t, k));
        assert(above(t, k) + none =~= above(t, k));
        lemma_part_bounds(t, k, x.0);
        if lt(x.0, k) {
            lemma_sorted_join(below(t, k), x, none);
            assert(below(t, k) + seq![x] + none =~= below(t, k) + seq![x]);
            lemma_below_push(below(t, k), x, k);
        }
        if lt(k, x.0) {
            lemma_sorted_join(above(t, k), x, none);
            assert(above(t, k) + seq![x] + none =~= above(t, k) + seq![x]);
            lemma_above_push(above(t, k), x, k);
        }
    }
}

/// What lies below a bound has its two parts around any key below that bound.
pub proof fn lemma_part_bounds<K: Ord, V>(s: Seq<(K, V)>, k: K, bound: K)
    requires
        all_below(s, bound),
    ensures
        all_below(below(s, k), bound),
        all_below(above(s, k), bound),
{
    reveal(all_below);
    lemma_parts_within(s, k);
    assert forall|i: int| 0 <= i < below(s, k).len() implies lt(
        (#[trigger] below(s, k)[i]).0,
        bound,
    ) by {
        assert(s.contains(below(s, k)[i]));
    }
    assert forall|i: int| 0 <= i < above(s, k).len() implies lt(
        (#[trigger] above(s, k)[i]).0,
        bound,
    ) by {
        assert(s.contains(above(s, k)[i]));
    }
}

/// One more entry below `k` behind what lies below `k` lies below `k`.
pub proof fn lemma_below_push<K: Ord, V>(s: Seq<(K, V)>, x: (K, V), k: K)
    requires
        all_below(s, k),
        lt(x.0, k),
    ensures
        all_below(s + seq![x], k),
{
    reveal(all_below);
}

/// One more entry above `k` behind what lies above `k` lies above `k`.
pub proof fn lemma_above_push<K: Ord, V>(s: Seq<(K, V)>, x: (K, V), k: K)
    requires
        all_above(s, k),
        lt(k, x.0),
    ensures
        all_above(s + seq![x], k),
{
    reveal(all_above);
}

/// Putting an entry into a sorted sequence leaves it sorted.
pub proof fn lemma_put_sorted<K: Ord, V>(s: Seq<(K, V)>, k: K, v: V)
    requires
        lawful::<K>(),
        sorted(s),
    ensures
        sorted(put(s, k, v)),
{
    lemma_parts_sorted(s, k);
    lemma_sorted_join(below(s, k), (k, v), above(s, k));
}

/// Cutting a key out of a sorted sequence leaves it sorted.
pub proof fn lemma_cut_sorted<K: Ord, V>(s: Seq<(K, V)>, k: K)
    requires
        lawful::<K>(),
        sorted(s),
    ensures
        sorted(cut(s, k)),
{
    lemma_parts_sorted(s, k);
    lemma_sorted_join(below(s, k), (k, arbitrary::<V>()), above(s, k));
    lemma_sorted_without(below(s, k), (k, arbitrary::<V>()), above(s, k));
}

/// Read as a map, putting an entry into a sorted sequence is inserting it.
pub proof fn lemma_put_map<K: Ord, V>(s: Seq<(K, V)>, k: K, v: V)
    requires
        lawful::<K>(),
        sorted(s),
    ensures
        as_map(put(s, k, v)) == as_map(s).insert(k, v),
{
    let t = put(s, k, v);
    lemma_put_sorted(s, k, v);
    assert forall|j: K| #[trigger] has_key(t, j) == (j == k || has_key(s, j)) by {
        lemma_has_key_pair(t, j);
        lemma_has_key_pair(s, j);
        if has_key(t, j) {
            lemma_put_pair(s, k, v, t[position(t, j)]);
        }
        if j == k {
            lemma_put_pair(s, k, v, (k, v));
        } else if has_key(s, j) {
            lemma_put_pair(s, k, v, s[position(s, j)]);
        }
    }
    assert forall|j: K| has_key(t, j) implies #[trigger] as_map(t)[j] == as_map(s).insert(
        k,
        v,
    )[j] by {
        lemma_has_key_pair(t, j);
        let p = t[position(t, j)];
        lemma_put_pair(s, k, v, p);
        lemma_pair_value(t, p);
        if p != (k, v) {
            lemma_pair_value(s, p);
        }
    }
    assert(as_map(t) =~= as_map(s).insert(k, v));
}

/// Read as a map, cutting a key out of a sorted sequence is removing it.
pub proof fn lemma_cut_map<K: Ord, V>(s: Seq<(K, V)>, k: K)
    requires
        lawful::<K>(),
        sorted(s),
    ensures
        as_map(cut(s, k)) == as_map(s).remove(k),
{
    let t = cut(s, k);
    lemma_cut_sorted(s, k);
    assert forall|j: K| #[trigger] has_key(t, j) == (j != k && has_key(s, j)) by {
        lemma_has_key_pair(t, j);
        lemma_has_key_pair(s, j);
        if has_key(t, j) {
            lemma_cut_pair(s, k, t[position(t, j)]);
        }
        if j != k && has_key(s, j) {
            lemma_cut_pair(s, k, s[position(s, j)]);
        }
    }
    assert forall|j: K| has_key(t, j) implies #[trigger] as_map(t)[j] == as_map(s)[j] by {
        lemma_has_key_pair(t, j);
        let p = t[position(t, j)];
        lemma_cut_pair(s, k, p);
        lemma_pair_value(t, p);
        lemma_pair_value(s, p);
    }
    assert(as_map(t) =~= as_map(s).remove(k));
}

/// In a sorted sequence that holds `k`, a new value for `k` is the entry
/// `(k, v)` put in.
pub proof fn lemma_set_value_put<K: Ord, V>(s: Seq<(K, V)>, k: K, v: V)
    requires
        lawful::<K>(),
        sorted(s),
        has_key(s, k),
    ensures
        set_value(s, k, v) == put(s, k, v),
{
    let i = position(s, k);
    let a = s.take(i);
    let b = s.skip(i + 1);
    let e = s[i];
    assert(s =~= a + seq![e] + b);
    lemma_key_here(a, e, b);
    lemma_set_value_here(a, e, b, v);
}

/// The map of a sorted sequence has as many keys as the sequence has entries.
pub proof fn lemma_map_len<K: Ord, V>(s: Seq<(K, V)>)
    requires
        lawful::<K>(),
        sorted(s),
    ensures
        as_map(s).dom().finite(),
        as_map(s).len() == s.len(),
    decreases s.len(),
{
    if s.len() == 0 {
        assert(as_map(s).dom() =~= Set::<K>::empty());
    } else {
        let t = s.drop_last();
        let x = s.last();
        let none = Seq::<(K, V)>::empty();
        assert(s =~= t + seq![x] + none);
        lemma_sorted_parts(t, x, none);
        lemma_map_len(t);
        lemma_lies_below(t, x.0);
        assert(put(t, x.0, x.1) =~= s);
        lemma_put_map(t, x.0, x.1);
    }
}

/// Along a sorted sequence the keys ascend strictly: of two entries the one
/// in front has the key that sorts before the other, and no key comes twice.
pub proof fn lemma_ascending<K: Ord, V>(s: Seq<(K, V)>, i: int, j: int)
    requires
        lawful::<K>(),
        sorted(s),
        0 <= i < j < s.len(),
    ensures
        lt(s[i].0, s[j].0),
        s[i].0 != s[j].0,
{
    reveal(sorted);
    lemma_lt_laws::<K>();
}

/// After `(k, v)` is put in, the map holds `v` under `k` and, under every
/// other key, what it held before.
pub proof fn lemma_put_then_get<K: Ord, V>(s: Seq<(K, V)>, k: K, v: V, j: K)
    requires
        lawful::<K>(),
        sorted(s),
    ensures
        as_map(put(s, k, v)).contains_key(k),
        as_map(put(s, k, v))[k] == v,
        j != k ==> as_map(put(s, k, v)).contains_key(j) == as_map(s).contains_key(j),
        j != k && as_map(s).contains_key(j) ==> as_map(put(s, k, v))[j] == as_map(s)[j],
{
    lemma_put_map(s, k, v);
}

/// After `k` is cut out, the map holds nothing under `k` and, under every
/// other key, what it held before.
pub proof fn lemma_cut_then_get<K: Ord, V>(s: Seq<(K, V)>, k: K, j: K)
    requires
        lawful::<K>(),
        sorted(s),
    ensures
        !as_map(cut(s, k)).contains_key(k),
        j != k ==> as_map(cut(s, k)).contains_key(j) == as_map(s).contains_key(j),
        j != k && as_map(s).contains_key(j) ==> as_map(cut(s, k))[j] == as_map(s)[j],
{
    lemma_cut_map(s, k);
}

/// A sorted sequence is determined by the map that it stands for: two sorted
/// sequences with the same map are the same sequence.
pub proof fn lemma_sorted_unique<K: Ord, V>(s: Seq<(K, V)>, t: Seq<(K, V)>)
    requires
        lawful::<K>(),
        sorted(s),
        sorted(t),
        as_map(s) == as_map(t),
    ensures
        s == t,
    decreases s.len(),
{
    lemma_map_len(s);
    lemma_map_len(t);
    if s.len() > 0 {
        let n = s.len() - 1;
        let none = Seq::<(K, V)>::empty();
        let s1 = s.drop_last();
        let t1 = t.drop_last();
        lemma_last_key(s, t);
        lemma_last_key(t, s);
        lemma_lt_laws::<K>();
        let k = s[n].0;
        assert(t[n].0 == k);
        lemma_lookup(s, n);
        lemma_lookup(t, n);
        assert(s[n] == t[n]);
        assert(s =~= s1 + seq![s[n]] + none);
        assert(t =~= t1 + seq![t[n]] + none);
        lemma_key_here(s1, s[n], none);
        lemma_key_here(t1, t[n], none);
        assert(cut(s, k) =~= s1);
        assert(cut(t, k) =~= t1);
        lemma_cut_map(s, k);
        lemma_cut_map(t, k);
        lemma_sorted_parts(s1, s[n], none);
        lemma_sorted_parts(t1, t[n], none);
        lemma_sorted_unique(s1, t1);
        assert(s =~= t);
    }
    assert(s =~= t);
}

/// The last key of a sorted sequence does not sort before the last key of
/// another sorted sequence with the same map.
proof fn lemma_last_key<K: Ord, V>(s: Seq<(K, V)>, t: Seq<(K, V)>)
    requires
        lawful::<K>(),
        sorted(s),
        sorted(t),
        as_map(s) == as_map(t),
        s.len() > 0,
        s.len() == t.len(),
    ensures
        !lt(s.last().0, t.last().0),
{
    let n = s.len() - 1;
    reveal(sorted);
    lemma_lt_laws::<K>();
    lemma_lookup(t, n);
    assert(as_map(s).contains_key(t[n].0));
    let i = position(s, t[n].0);
    assert(s[i].0 == t[n].0);
    if i < n {
        assert(lt(s[i].0, s[n].0));
    }
}

/// The sequence that putting the entries of `ins` into `s`, one after the
/// other, leaves.
pub open spec fn put_all<K: Ord, V>(s: Seq<(K, V)>, ins: Seq<(K, V)>) -> Seq<(K, V)>
    decreases ins.len(),
{
    if ins.len() == 0 {
        s
    } else {
        put(put_all(s, ins.drop_last()), ins.last().0, ins.last().1)
    }
}

/// The sequence that cutting the keys of `del` out of `s`, one after the
/// other, leaves.
pub open spec fn cut_all<K: Ord, V>(s: Seq<(K, V)>, del: Seq<K>) -> Seq<(K, V)>
    decreases del.len(),
{
    if del.len() == 0 {
        s
    } else {
        cut(cut_all(s, del.drop_last()), del.last())
    }
}

/// What has been put into nothing is sorted and holds keys of `ins` only.
pub proof fn lemma_put_all<K: Ord, V>(ins: Seq<(K, V)>, k: K)
    requires
        lawful::<K>(),
    ensures
        sorted(put_all(Seq::<(K, V)>::empty(), ins)),
        has_key(put_all(Seq::<(K, V)>::empty(), ins), k) ==> has_key(ins, k),
    decreases ins.len(),
{
    let none = Seq::<(K, V)>::empty();
    if ins.len() == 0 {
        lemma_nothing::<K, V>(k);
    } else {
        let rest = ins.drop_last();
        let s = put_all(none, rest);
        let e = ins.last();
        lemma_put_all(rest, k);
        lemma_put_sorted(s, e.0, e.1);
        let t = put(s, e.0, e.1);
        if has_key(t, k) {
            lemma_has_key_pair(t, k);
            lemma_put_pair(s, e.0, e.1, t[position(t, k)]);
            if k == e.0 {
                assert(ins[ins.len() - 1].0 == k);
            } else {
                lemma_has_key_pair(s, k);
                let i = position(rest, k);
                assert(ins[i] == rest[i]);
            }
        }
    }
}

/// What is left once the keys of `del` are cut out of a sorted sequence is
/// sorted, and holds keys of the sequence that are not in `del`.
pub proof fn lemma_cut_all<K: Ord, V>(s: Seq<(K, V)>, del: Seq<K>, k: K)
    requires
        lawful::<K>(),
        sorted(s),
    ensures
        sorted(cut_all(s, del)),
        has_key(cut_all(s, del), k) ==> has_key(s, k) && !del.contains(k),
    decreases del.len(),
{
    if del.len() > 0 {
        let rest = del.drop_last();
        let r = cut_all(s, rest);
        let d = del.last();
        lemma_cut_all(s, rest, k);
        lemma_cut_sorted(r, d);
        let t = cut(r, d);
        if has_key(t, k) {
            lemma_has_key_pair(t, k);
            lemma_cut_pair(r, d, t[position(t, k)]);
            lemma_has_key_pair(r, k);
            if del.contains(k) {
                let i = choose|i: int| 0 <= i < del.len() && del[i] == k;
                assert(rest[i] == k);
            }
        }
    }
}

/// Once every key that was put into an empty map has been cut out again, in
/// whatever order, nothing is left.
pub proof fn lemma_all_cut<K: Ord, V>(ins: Seq<(K, V)>, del: Seq<K>)
    requires
        lawful::<K>(),
        forall|i: int| 0 <= i < ins.len() ==> del.contains(#[trigger] ins[i].0),
    ensures
        cut_all(put_all(Seq::<(K, V)>::empty(), ins), del) == Seq::<(K, V)>::empty(),
{
    let none = Seq::<(K, V)>::empty();
    let s = put_all(none, ins);
    let t = cut_all(s, del);
    if t.len() > 0 {
        let k = t[0].0;
        assert(has_key(t, k));
        lemma_put_all(ins, k);
        lemma_cut_all(s, del, k);
        let i = position(ins, k);
        assert(del.contains(ins[i].0));
    } else {
        assert(t =~= none);
    }
}

/// What is left of `s` after one pull for each item of `ends`, from the back
/// where the item is `true` and from the front where it is `false`.
pub open spec fn pulled<A>(s: Seq<A>, ends: Seq<bool>) -> Seq<A>
    decreases ends.len(),
{
    if ends.len() == 0 {
        s
    } else if ends.last() {
        pulled(s, ends.drop_last()).drop_last()
    } else {
        pulled(s, ends.drop_last()).drop_first()
    }
}

/// The number of pulls from the back among `ends`.
pub open spec fn backs(ends: Seq<bool>) -> nat
    decreases ends.len(),
{
    if ends.len() == 0 {
        0
    } else if ends.last() {
        backs(ends.drop_last()) + 1
    } else {
        backs(ends.drop_last())
    }
}

/// Pulls from the two ends, in whatever order, take the sequence apart without
/// overlap: what is left is the stretch between the entries that went out
/// at the front and those that went out at the back, and each pull has made
/// it shorter by one.
pub proof fn lemma_pulled<A>(s: Seq<A>, ends: Seq<bool>)
    requires
        ends.len() <= s.len(),
    ensures
        backs(ends) <= ends.len(),
        pulled(s, ends) == s.subrange(ends.len() - backs(ends), s.len() - backs(ends)),
        pulled(s, ends).len() == s.len() - ends.len(),
    decreases ends.len(),
{
    if ends.len() == 0 {
        assert(pulled(s, ends) =~= s.subrange(0, s.len() as int));
    } else {
        let rest = ends.drop_last();
        lemma_pulled(s, rest);
        let f = rest.len() - backs(rest);
        let r = s.subrange(f, s.len() - backs(rest));
        if ends.last() {
            assert(r.drop_last() =~= s.subrange(f, s.len() - backs(rest) - 1));
        } else {
            assert(r.drop_first() =~= s.subrange(f + 1, s.len() - backs(rest)));
        }
    }
}

} // verus!
