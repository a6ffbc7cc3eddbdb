use vstd::prelude::*;
use vstd::std_specs::cmp::{OrdSpec, PartialEqSpec, PartialOrdSpec};
use core::cmp::Ordering;
use vstd::laws_cmp::obeys_cmp;
use vstd::laws_eq::obeys_concrete_eq;

verus! {

/// `a` sorts strictly before `b` in the order that `Ord` gives to `K`.
pub open spec fn lt<K: Ord>(a: K, b: K) -> bool {
    a.cmp_spec(&b) == Ordering::Less
}

/// The comparison of `K` returns what `cmp_spec` says, `cmp_spec` is a strict
/// total order, and two keys compare as equal exactly when they are the same
/// value.
pub open spec fn lawful<K: Ord>() -> bool {
    obeys_cmp::<K>() && obeys_concrete_eq::<K>()
}

/// In a lawful order `lt` is irreflexive, asymmetric, transitive and total.
pub proof fn lemma_lt_laws<K: Ord>()
    requires
        lawful::<K>(),
    ensures
        forall|a: K| !#[trigger] lt(a, a),
        forall|a: K, b: K| #[trigger] lt(a, b) ==> !lt(b, a),
        forall|a: K, b: K| a == b || #[trigger] lt(a, b) || lt(b, a),
        forall|a: K, b: K, c: K| #[trigger] lt(a, b) && #[trigger] lt(b, c) ==> lt(a, c),
{
    lemma_three_way::<K>();
    reveal(obeys_cmp);
    reveal(vstd::laws_cmp::obeys_cmp_ord);
    reveal(vstd::laws_cmp::obeys_partial_cmp_spec_properties);
    assert forall|a: K, b: K, c: K| #[trigger] lt(a, b) && #[trigger] lt(b, c) implies lt(a, c) by {
        assert(a.partial_cmp_spec(&b) == Some(a.cmp_spec(&b)));
        assert(b.partial_cmp_spec(&c) == Some(b.cmp_spec(&c)));
        assert(a.partial_cmp_spec(&c) == Some(a.cmp_spec(&c)));
    }
    assert forall|a: K, b: K| #[trigger] lt(a, b) implies !lt(b, a) by {
        assert(b.cmp_spec(&a) == Ordering::Greater <==> lt(a, b));
    }
    assert forall|a: K| !#[trigger] lt(a, a) by {
        assert(a.cmp_spec(&a) == Ordering::Equal <==> a == a);
    }
    assert forall|a: K, b: K| a == b || #[trigger] lt(a, b) || lt(b, a) by {
        assert(a.cmp_spec(&b) == Ordering::Equal <==> a == b);
        assert(a.cmp_spec(&b) == Ordering::Greater <==> lt(b, a));
    }
}

/// In a lawful order a comparison returns what `cmp_spec` says, and its three
/// outcomes mean: before, the same key, after.
pub proof fn lemma_three_way<K: Ord>()
    requires
        lawful::<K>(),
    ensures
        K::obeys_cmp_spec(),
        forall|a: K, b: K| #[trigger] a.cmp_spec(&b) == Ordering::Less <==> lt(a, b),
        forall|a: K, b: K| #[trigger] a.cmp_spec(&b) == Ordering::Equal <==> a == b,
        forall|a: K, b: K| #[trigger] a.cmp_spec(&b) == Ordering::Greater <==> lt(b, a),
{
    reveal(obeys_cmp);
    reveal(vstd::laws_cmp::obeys_cmp_ord);
    reveal(vstd::laws_cmp::obeys_cmp_partial_ord);
    reveal(vstd::laws_cmp::obeys_partial_cmp_spec_properties);
    reveal(obeys_concrete_eq);
    assert forall|a: K, b: K| #[trigger] a.cmp_spec(&b) == Ordering::Equal <==> a == b by {
        assert(a.partial_cmp_spec(&b) == Some(a.cmp_spec(&b)));
        assert(a.eq_spec(&b) <==> a == b);
    }
    assert forall|a: K, b: K| #[trigger] a.cmp_spec(&b) == Ordering::Greater <==> lt(b, a) by {
        assert(a.partial_cmp_spec(&b) == Some(a.cmp_spec(&b)));
        assert(b.partial_cmp_spec(&a) == Some(b.cmp_spec(&a)));
    }
}

/// What sorts before a key sorts before all that the key sorts before.
pub proof fn lemma_lt_transitive<K: Ord>(a: K, b: K, c: K)
    requires
        lawful::<K>(),
        lt(a, b),
        lt(b, c),
    ensures
        lt(a, c),
{
    lemma_lt_laws::<K>();
}

} // verus!
