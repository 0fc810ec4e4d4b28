//! The two mappings of an alignment, and what can hold of them.

use crate::entry::Reference;
use vstd::prelude::*;

verus! {

/// The mapping of the old sequence and the mapping of the new sequence, one
/// entry per position.
pub struct Mappings {
    pub old: Seq<Reference>,
    pub new: Seq<Reference>,
}

/// A mapping of `len` positions, none of them resolved.
pub open spec fn unresolved(len: nat) -> Seq<Reference> {
    Seq::new(len, |i: int| Reference::Unknown)
}

/// Every entry of `m` that is confirmed with a position `j` has position
/// `j` of `other` confirmed with its own position.
pub open spec fn confirmed_back(m: Seq<Reference>, other: Seq<Reference>) -> bool {
    forall|i: int|
        0 <= i < m.len() ==> ((#[trigger] m[i]) matches Reference::Confirmed(j) ==> j < other.len()
            && other[j as int] == Reference::Confirmed(i as usize))
}

/// Correspondences come in pairs: position `i` of the old sequence is
/// confirmed with position `j` of the new one if and only if `j` is
/// confirmed with `i`.
pub open spec fn symmetric(m: Mappings) -> bool {
    confirmed_back(m.old, m.new) && confirmed_back(m.new, m.old)
}

/// Every position that `m` confirms holds the same token as the position
/// of `other_seq` that it is confirmed with.
pub open spec fn agrees<T>(seq: Seq<T>, other_seq: Seq<T>, m: Seq<Reference>) -> bool {
    forall|i: int|
        0 <= i < m.len() ==> ((#[trigger] m[i]) matches Reference::Confirmed(j) ==> j
            < other_seq.len() && seq[i] == other_seq[j as int])
}

/// The invariant of an alignment in progress: each mapping has one entry
/// per position of its sequence, correspondences come in pairs, and the two
/// positions of a pair hold the same token.
pub open spec fn paired<T>(old: Seq<T>, new: Seq<T>, m: Mappings) -> bool {
    &&& m.old.len() == old.len()
    &&& m.new.len() == new.len()
    &&& symmetric(m)
    &&& agrees(old, new, m.old)
}

/// Every entry of `m` is either unresolved or confirmed.
pub open spec fn resolving(m: Seq<Reference>) -> bool {
    forall|i: int| 0 <= i < m.len() ==> (#[trigger] m[i]) is Unknown || m[i] is Confirmed
}

/// Every entry of an old mapping is confirmed or deleted.
pub open spec fn classified_old(m: Seq<Reference>) -> bool {
    forall|i: int| 0 <= i < m.len() ==> (#[trigger] m[i]) is Confirmed || m[i] is Delete
}

/// Every entry of a new mapping is confirmed or inserted.
pub open spec fn classified_new(m: Seq<Reference>) -> bool {
    forall|i: int| 0 <= i < m.len() ==> (#[trigger] m[i]) is Confirmed || m[i] is Insert
}

/// The mapping `m` with `verdict` in place of every unresolved entry.
pub open spec fn classify(m: Seq<Reference>, verdict: Reference) -> Seq<Reference> {
    Seq::new(
        m.len(),
        |i: int|
            if m[i] is Unknown {
                verdict
            } else {
                m[i]
            },
    )
}

/// The two mappings after what was left unresolved has been settled: as
/// deleted on the old side, as inserted on the new side.
pub open spec fn settle(m: Mappings) -> Mappings {
    Mappings {
        old: classify(m.old, Reference::Delete),
        new: classify(m.new, Reference::Insert),
    }
}

/// Nothing is confirmed in mappings that are still unresolved, so they are
/// paired.
pub proof fn lemma_unresolved_paired<T>(old: Seq<T>, new: Seq<T>)
    ensures
        paired(old, new, Mappings { old: unresolved(old.len()), new: unresolved(new.len()) }),
        resolving(unresolved(old.len())),
        resolving(unresolved(new.len())),
{
}

/// Settling touches no confirmed entry, so correspondences stay paired.
pub proof fn lemma_settle_paired<T>(old: Seq<T>, new: Seq<T>, m: Mappings)
    requires
        paired(old, new, m),
    ensures
        paired(old, new, settle(m)),
{
}

/// Settling mappings that hold only unresolved and confirmed entries leaves
/// every position confirmed, deleted (old side) or inserted (new side).
pub proof fn lemma_settle_total(m: Mappings)
    requires
        resolving(m.old),
        resolving(m.new),
    ensures
        classified_old(settle(m).old),
        classified_new(settle(m).new),
{
}

} // verus!
