//! Comparing the keys by which answers are told apart.

use std::cmp::Ordering;

use vstd::prelude::*;
use vstd::std_specs::cmp::OrdSpec;

verus! {

/// Whether the order of a key type is a total order, as `Ord` asks for.
pub open spec fn totally_ordered<K: Ord>() -> bool {
    vstd::laws_cmp::obeys_cmp::<K>()
}

/// Whether two keys compare as equal.
pub open spec fn same_key<K: Ord>(a: K, b: K) -> bool {
    a.cmp_spec(&b) is Equal
}

/// Whether one key compares as less than another.
pub open spec fn key_below<K: Ord>(a: K, b: K) -> bool {
    a.cmp_spec(&b) is Less
}

/// How one key stands to another.
#[derive(Clone, Copy, Debug, PartialEq, Eq, Structural)]
pub enum KeyOrder {
    Below,
    Same,
    Above,
}

/// Compares two keys by their order.
pub fn key_order<K: Ord>(a: &K, b: &K) -> (r: KeyOrder)
    ensures
        totally_ordered::<K>() ==> {
            &&& r is Below <==> key_below(*a, *b)
            &&& r is Same <==> same_key(*a, *b)
            &&& r is Above <==> key_below(*b, *a)
        },
{
    proof {
        if totally_ordered::<K>() {
            lemma_key_order(*a, *b, *b);
            reveal(vstd::laws_cmp::obeys_cmp_ord);
        }
    }
    match a.cmp(b) {
        Ordering::Less => KeyOrder::Below,
        Ordering::Equal => KeyOrder::Same,
        Ordering::Greater => KeyOrder::Above,
    }
}

/// Equal keys form classes, and the classes stand in a strict total order.
pub proof fn lemma_key_order<K: Ord>(a: K, b: K, c: K)
    requires
        totally_ordered::<K>(),
    ensures
        same_key(a, a),
        same_key(a, b) ==> same_key(b, a),
        same_key(a, b) && same_key(b, c) ==> same_key(a, c),
        !key_below(a, a),
        key_below(a, b) || same_key(a, b) || key_below(b, a),
        key_below(a, b) ==> !same_key(a, b) && !key_below(b, a),
        key_below(a, b) && key_below(b, c) ==> key_below(a, c),
        same_key(a, b) && key_below(b, c) ==> key_below(a, c),
        key_below(a, b) && same_key(b, c) ==> key_below(a, c),
{
    reveal(vstd::laws_cmp::obeys_cmp_ord);
    reveal(vstd::laws_cmp::obeys_cmp_partial_ord);
    reveal(vstd::laws_cmp::obeys_partial_cmp_spec_properties);
    reveal(vstd::laws_eq::obeys_eq_spec_properties);
}

} // verus!
