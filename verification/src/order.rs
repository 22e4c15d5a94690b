//! The order on keys.
//!
//! Keys are ordered by their `Ord`. What the store relies on is that this is a total order
//! in which two keys are equal exactly when they are the same value, and that cloning a key
//! gives that same key. [`key_laws`] says so, and [`before`] is the order itself.

use vstd::laws_cmp::*;
use vstd::laws_eq::*;
use vstd::prelude::*;
use vstd::std_specs::cmp::*;

verus! {

/// What the store asks of a key type: `Ord` is a total order, its equality is equality of
/// values, and `clone` returns the value that it is given.
///
/// [`lemma_integer_keys`] shows it for the integer types. It holds of strings too, but it
/// cannot be shown of them: vstd does not say how `str` is ordered. Verified code can have
/// a store with string keys only where it takes these laws as a precondition of its own.
pub open spec fn key_laws<K: Ord + Clone>() -> bool {
    &&& obeys_cmp::<K>()
    &&& obeys_concrete_eq::<K>()
    &&& forall|a: K, b: K| #[trigger] cloned(a, b) ==> a == b
}

/// `a` comes strictly before `b` in the order on keys.
#[verifier::opaque]
pub open spec fn before<K: Ord>(a: K, b: K) -> bool {
    a.is_lt(&b)
}

/// The keys of `s` are in strictly ascending order.
pub open spec fn ascending<K: Ord>(s: Seq<K>) -> bool {
    forall|i: int, j: int| #![trigger s[i], s[j]] 0 <= i < j < s.len() ==> before(s[i], s[j])
}

/// `before` is a strict total order on keys.
pub proof fn lemma_before_is_total_order<K: Ord + Clone>()
    requires
        key_laws::<K>(),
    ensures
        forall|a: K| !#[trigger] before(a, a),
        forall|a: K, b: K| #[trigger] before(a, b) ==> !before(b, a),
        forall|a: K, b: K| a == b || #[trigger] before(a, b) || before(b, a),
        forall|a: K, b: K, c: K| #[trigger] before(a, b) && #[trigger] before(b, c) ==> before(a, c),
{
    reveal(before);
    reveal(obeys_concrete_eq);
    reveal(obeys_cmp_ord);
    reveal(obeys_cmp_partial_ord);
    reveal(obeys_partial_cmp_spec_properties);
    reveal(obeys_eq_spec_properties);
}

/// The integer types can be keys.
pub proof fn lemma_integer_keys()
    ensures
        key_laws::<u8>(),
        key_laws::<u16>(),
        key_laws::<u32>(),
        key_laws::<u64>(),
        key_laws::<u128>(),
        key_laws::<usize>(),
        key_laws::<i8>(),
        key_laws::<i16>(),
        key_laws::<i32>(),
        key_laws::<i64>(),
        key_laws::<i128>(),
        key_laws::<isize>(),
{
    broadcast use {group_laws_cmp, group_laws_eq};
}

/// On `u64` keys the order is that of the numbers.
pub proof fn lemma_u64_keys()
    ensures
        key_laws::<u64>(),
        forall|a: u64, b: u64| #[trigger] before(a, b) <==> a < b,
{
    broadcast use {group_laws_cmp, group_laws_eq};
    reveal(before);
}

/// Whether `a` comes strictly before `b`.
pub fn precedes<K: Ord + Clone>(a: &K, b: &K) -> (r: bool)
    requires
        key_laws::<K>(),
    ensures
        r == before(*a, *b),
{
    proof {
        reveal(before);
        reveal(obeys_cmp_partial_ord);
    }
    a < b
}

} // verus!
