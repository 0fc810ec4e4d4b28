//! Anchors: tokens that occur exactly once in both sequences.

use crate::entry::{DiffError, Reference};
use crate::mapping::{paired, resolving, Mappings};
use crate::symbols::{
    lemma_confirmed_entry, lemma_entry_of_unique, occurs_once, symbol_table, unique_at,
};
use vstd::prelude::*;

verus! {

/// Both tables record a single position for the token `t`.
pub open spec fn is_anchor_token<T>(
    table_old: Map<T, Reference>,
    table_new: Map<T, Reference>,
    t: T,
) -> bool {
    &&& table_new.contains_key(t)
    &&& table_new[t] is Confirmed
    &&& table_old.contains_key(t)
    &&& table_old[t] is Confirmed
}

/// Reads back the positions that the two symbol tables record for an anchor
/// token, the old one first. Anything but two single positions is a
/// violation.
pub fn anchor_lines(
    entry_old: Option<&Reference>,
    entry_new: Option<&Reference>,
) -> (lines: Result<(usize, usize), DiffError>)
    ensures
        lines == match (entry_old, entry_new) {
            (Some(Reference::Confirmed(line_old)), Some(Reference::Confirmed(line_new))) => Ok(
                (*line_old, *line_new),
            ),
            _ => Err(DiffError::AnchorConsistencyViolation),
        },
{
    match (entry_old, entry_new) {
        (Some(Reference::Confirmed(line_old)), Some(Reference::Confirmed(line_new))) => Ok(
            (*line_old, *line_new),
        ),
        _ => Err(DiffError::AnchorConsistencyViolation),
    }
}

/// Position `i` of `a` is an anchor towards `b`: its token occurs nowhere
/// else in `a`, and exactly once in `b`.
pub open spec fn is_anchor<T>(a: Seq<T>, b: Seq<T>, i: int) -> bool {
    unique_at(a, i) && occurs_once(b, a[i])
}

/// The mapping `m` of sequence `a` after every anchor of `a` towards `b`
/// has been confirmed with the position of its token in `b`. The other
/// entries are those of `m`.
pub open spec fn anchor_mapping<T>(a: Seq<T>, b: Seq<T>, m: Seq<Reference>) -> Seq<Reference> {
    Seq::new(
        m.len(),
        |i: int|
            if is_anchor(a, b, i) {
                Reference::Confirmed(b.index_of(a[i]) as usize)
            } else {
                m[i]
            },
    )
}

/// The tokens that the symbol tables of two sequences both record with a
/// single position are the tokens that occur exactly once in each.
pub proof fn lemma_anchor_tokens<T>(old: Seq<T>, new: Seq<T>, t: T)
    ensures
        is_anchor_token(symbol_table(old), symbol_table(new), t) <==> occurs_once(old, t)
            && occurs_once(new, t),
{
    if occurs_once(old, t) {
        assert(old.contains(t));
    }
    if occurs_once(new, t) {
        assert(new.contains(t));
    }
}

/// The positions that the two symbol tables record for an anchor token are
/// anchors towards each other.
pub proof fn lemma_anchor_lines<T>(old: Seq<T>, new: Seq<T>, t: T, line_old: usize, line_new: usize)
    requires
        old.len() <= usize::MAX,
        new.len() <= usize::MAX,
        symbol_table(old).contains_key(t),
        symbol_table(old)[t] == Reference::Confirmed(line_old),
        symbol_table(new).contains_key(t),
        symbol_table(new)[t] == Reference::Confirmed(line_new),
    ensures
        is_anchor(old, new, line_old as int),
        is_anchor(new, old, line_new as int),
        old[line_old as int] == t,
        new[line_new as int] == t,
        new.index_of(t) == line_new,
        old.index_of(t) == line_old,
{
    lemma_confirmed_entry(old, t, line_old);
    lemma_confirmed_entry(new, t, line_new);
    lemma_entry_of_unique(old, line_old as int);
    lemma_entry_of_unique(new, line_new as int);
}

/// The two mappings after every anchor has been confirmed.
pub open spec fn anchored<T>(old: Seq<T>, new: Seq<T>, m: Mappings) -> Mappings {
    Mappings { old: anchor_mapping(old, new, m.old), new: anchor_mapping(new, old, m.new) }
}

/// An anchor of `a` towards `b` is confirmed with an anchor of `b` towards
/// `a` that holds the same token, and that one is confirmed with it.
pub proof fn lemma_anchor_partner<T>(a: Seq<T>, b: Seq<T>, i: int)
    requires
        is_anchor(a, b, i),
    ensures
        is_anchor(b, a, b.index_of(a[i])),
        b[b.index_of(a[i])] == a[i],
        a.index_of(a[i]) == i,
{
    let w = choose|w: int| #[trigger] unique_at(b, w) && b[w] == a[i];
    lemma_entry_of_unique(b, w);
    lemma_entry_of_unique(a, i);
    assert(unique_at(a, i) && a[i] == b[w]);
}

/// Confirming the anchors keeps correspondences paired, and the tokens of
/// each pair equal.
pub proof fn lemma_anchored_paired<T>(old: Seq<T>, new: Seq<T>, m: Mappings)
    requires
        paired(old, new, m),
        old.len() <= usize::MAX,
        new.len() <= usize::MAX,
    ensures
        paired(old, new, anchored(old, new, m)),
{
    let after = anchored(old, new, m);
    assert forall|i: int| 0 <= i < after.old.len() implies (
    (#[trigger] after.old[i]) matches Reference::Confirmed(j) ==> j < after.new.len()
        && after.new[j as int] == Reference::Confirmed(i as usize) && old[i] == new[j as int]) by {
        if is_anchor(old, new, i) {
            lemma_anchor_partner(old, new, i);
        } else if let Reference::Confirmed(j) = m.old[i] {
            assert(m.new[j as int] == Reference::Confirmed(i as usize));
            if is_anchor(new, old, j as int) {
                lemma_anchor_partner(new, old, j as int);
                let w = old.index_of(new[j as int]);
                assert(old[w] == old[i]);
                assert(unique_at(new, j as int) && new[j as int] == old[i]);
                assert(false);
            }
        }
    }
    assert forall|j: int| 0 <= j < after.new.len() implies (
    (#[trigger] after.new[j]) matches Reference::Confirmed(i) ==> i < after.old.len()
        && after.old[i as int] == Reference::Confirmed(j as usize)) by {
        if is_anchor(new, old, j) {
            lemma_anchor_partner(new, old, j);
        } else if let Reference::Confirmed(i) = m.new[j] {
            assert(m.old[i as int] == Reference::Confirmed(j as usize));
            if is_anchor(old, new, i as int) {
                lemma_anchor_partner(old, new, i as int);
                let w = new.index_of(old[i as int]);
                assert(new[w] == new[j]);
                assert(unique_at(old, i as int) && old[i as int] == new[j]);
                assert(false);
            }
        }
    }
}

/// Confirming the anchors resolves nothing but by confirming it.
pub proof fn lemma_anchored_resolving<T>(old: Seq<T>, new: Seq<T>, m: Mappings)
    requires
        resolving(m.old),
        resolving(m.new),
    ensures
        resolving(anchored(old, new, m).old),
        resolving(anchored(old, new, m).new),
{
}

} // verus!
