//! What the alignment assumes of a token type.

use std::hash::Hash;
use vstd::prelude::*;
use vstd::std_specs::cmp::PartialEqSpec;
use vstd::std_specs::hash::obeys_key_model;

verus! {

/// The token type behaves like a plain value: it can key a hash map, its
/// `==` holds exactly of identical tokens, and a clone is identical to the
/// token it was made from.
pub open spec fn token_model<T: Eq + Hash + Clone>() -> bool {
    &&& obeys_key_model::<T>()
    &&& T::obeys_eq_spec()
    &&& forall|a: T, b: T| #[trigger] a.eq_spec(&b) <==> a == b
    &&& forall|a: T, b: T| #[trigger] call_ensures(T::clone, (&a,), b) ==> a == b
}

/// Unsigned 64-bit integers are tokens.
pub proof fn lemma_u64_is_token()
    ensures
        token_model::<u64>(),
{
    broadcast use vstd::std_specs::hash::group_hash_axioms;
}

} // verus!
