//! What the ordered store asks of its keys.

use std::cmp::Ordering;
use vstd::laws_cmp::obeys_cmp;
use vstd::laws_eq::obeys_concrete_eq;
use vstd::prelude::*;
use vstd::std_specs::cmp::OrdSpec;
use vstd::std_specs::cmp::PartialEqSpec;
use vstd::std_specs::cmp::PartialOrdSpec;

verus! {

/// The comparison of `K` is a total order, and its equality is that of specifications.
/// For the integer types this follows from `vstd::laws_cmp::group_laws_cmp` and
/// `vstd::laws_eq::group_laws_eq`.
pub open spec fn lawful<K: Ord>() -> bool {
    obeys_cmp::<K>() && obeys_concrete_eq::<K>()
}

/// `a` comes strictly before `b`.
pub open spec fn below<K: Ord>(a: K, b: K) -> bool {
    a.cmp_spec(&b) == Ordering::Less
}

/// How a key stands to another.
#[derive(Clone, Copy, Debug, PartialEq, Eq)]
pub enum Rank {
    Before,
    Same,
    After,
}

/// Of two keys exactly one holds: the first is before the second, they are the same, or
/// the second is before the first.
pub proof fn lemma_trichotomy<K: Ord>(a: K, b: K)
    requires
        lawful::<K>(),
    ensures
        below(a, b) || a == b || below(b, a),
        !(below(a, b) && a == b),
        !(below(a, b) && below(b, a)),
        !(a == b && below(b, a)),
{
    reveal(vstd::laws_cmp::obeys_cmp_partial_ord);
    reveal(vstd::laws_cmp::obeys_cmp_ord);
    reveal(vstd::laws_cmp::obeys_partial_cmp_spec_properties);
    reveal(vstd::laws_eq::obeys_eq_spec_properties);
    reveal(vstd::laws_eq::obeys_concrete_eq);
    assert(a.partial_cmp_spec(&b) == Some(a.cmp_spec(&b)));
    assert(b.partial_cmp_spec(&a) == Some(b.cmp_spec(&a)));
}

/// What is before a key is before all that the key is before.
pub proof fn lemma_transitive<K: Ord>(a: K, b: K, c: K)
    requires
        lawful::<K>(),
        below(a, b),
        below(b, c),
    ensures
        below(a, c),
{
    reveal(vstd::laws_cmp::obeys_cmp_partial_ord);
    reveal(vstd::laws_cmp::obeys_cmp_ord);
    reveal(vstd::laws_cmp::obeys_partial_cmp_spec_properties);
    assert(a.partial_cmp_spec(&b) == Some(a.cmp_spec(&b)));
    assert(b.partial_cmp_spec(&c) == Some(b.cmp_spec(&c)));
    assert(a.partial_cmp_spec(&c) == Some(a.cmp_spec(&c)));
}

/// Compares two keys.
pub fn rank<K: Ord>(a: &K, b: &K) -> (r: Rank)
    requires
        lawful::<K>(),
    ensures
        match r {
            Rank::Before => below(*a, *b),
            Rank::Same => *a == *b,
            Rank::After => below(*b, *a),
        },
{
    proof {
        lemma_trichotomy(*a, *b);
        reveal(vstd::laws_cmp::obeys_cmp_partial_ord);
        reveal(vstd::laws_cmp::obeys_cmp_ord);
        reveal(vstd::laws_cmp::obeys_partial_cmp_spec_properties);
        reveal(vstd::laws_eq::obeys_concrete_eq);
        assert(a.partial_cmp_spec(b) == Some(a.cmp_spec(b)));
        assert(b.partial_cmp_spec(a) == Some(b.cmp_spec(a)));
    }
    match a.cmp(b) {
        Ordering::Less => Rank::Before,
        Ordering::Equal => Rank::Same,
        Ordering::Greater => Rank::After,
    }
}

} // verus!
