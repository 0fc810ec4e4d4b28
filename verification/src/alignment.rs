//! The alignment of two sequences as a whole, and what holds of it.

use crate::anchors::{
    anchored, is_anchor, lemma_anchor_partner, lemma_anchored_paired, lemma_anchored_resolving,
};
use crate::blocks::{blocks, lemma_blocks_of_one_match};
use crate::entry::{BlockReference, Reference};
use crate::expand::{can_extend, expand, extend_at, lemma_expand_keeps, sweep, Direction};
use crate::mapping::{
    classified_new, classified_old, lemma_settle_paired, lemma_settle_total,
    lemma_unresolved_paired, paired, settle, unresolved, Mappings,
};
use crate::symbols::unique_at;
use vstd::prelude::*;

verus! {

/// The mappings that an alignment starts from: nothing is resolved.
pub open spec fn blank<T>(old: Seq<T>, new: Seq<T>) -> Mappings {
    Mappings { old: unresolved(old.len()), new: unresolved(new.len()) }
}

/// The alignment of `old` and `new`: the anchors are confirmed, the
/// confirmed correspondences are grown over adjacent equal tokens, and what
/// is left is settled as deleted or inserted.
pub open spec fn alignment<T>(old: Seq<T>, new: Seq<T>) -> Mappings {
    settle(expand(old, new, anchored(old, new, blank(old, new))))
}

/// In the alignment of two sequences, correspondences come in pairs of
/// positions that hold the same token, and every position is settled: it
/// is confirmed, or else deleted on the old side and inserted on the new
/// side.
pub proof fn lemma_alignment_paired_and_total<T>(old: Seq<T>, new: Seq<T>)
    requires
        old.len() <= usize::MAX,
        new.len() <= usize::MAX,
    ensures
        paired(old, new, alignment(old, new)),
        classified_old(alignment(old, new).old),
        classified_new(alignment(old, new).new),
{
    let start = blank(old, new);
    lemma_unresolved_paired(old, new);
    let with_anchors = anchored(old, new, start);
    lemma_anchored_paired(old, new, start);
    lemma_anchored_resolving(old, new, start);
    let grown = expand(old, new, with_anchors);
    lemma_expand_keeps(old, new, with_anchors);
    lemma_settle_paired(old, new, grown);
    lemma_settle_total(grown);
}

/// The mapping that confirms each of `len` positions with itself.
pub open spec fn identity_mapping(len: nat) -> Seq<Reference> {
    Seq::new(len, |i: int| Reference::Confirmed(i as usize))
}

/// Both mappings are the same, and confirm a position with nothing but
/// itself.
pub open spec fn diagonal(m: Mappings) -> bool {
    &&& m.new == m.old
    &&& forall|i: int|
        0 <= i < m.old.len() ==> (#[trigger] m.old[i]) is Unknown || m.old[i]
            == Reference::Confirmed(i as usize)
}

/// `m` is diagonal, and confirms the positions up to `upto` and the last
/// one.
pub open spec fn diagonal_upto(m: Mappings, upto: int) -> bool {
    &&& diagonal(m)
    &&& forall|i: int| 0 <= i <= upto && i < m.old.len() ==> (#[trigger] m.old[i]) is Confirmed
    &&& m.old.len() > 0 ==> m.old[m.old.len() - 1] is Confirmed
}

/// On a sequence aligned with itself, a step keeps the mappings diagonal
/// and every confirmed position confirmed; a forward step at a confirmed
/// position confirms the next one.
pub proof fn lemma_extend_diagonal<T>(s: Seq<T>, m: Mappings, i: int, d: Direction, upto: int)
    requires
        s.len() <= usize::MAX,
        m.old.len() == s.len(),
        0 <= upto,
        diagonal_upto(m, upto),
    ensures
        diagonal_upto(extend_at(s, s, m, i, d), upto),
        d == Direction::Forward && i == upto ==> diagonal_upto(extend_at(s, s, m, i, d), upto + 1),
{
    let after = extend_at(s, s, m, i, d);
    assert(after.new =~= after.old);
    if d == Direction::Forward && i == upto && 0 <= i && i + 1 < m.old.len() {
        if m.old[i + 1] is Unknown {
            assert(can_extend(s, s, m, i, d));
        }
    }
}

/// On a sequence aligned with itself, `rounds` rounds keep the mappings
/// diagonal and confirm the positions up to `rounds`.
pub proof fn lemma_sweep_diagonal<T>(s: Seq<T>, m: Mappings, rounds: nat)
    requires
        s.len() <= usize::MAX,
        m.old.len() == s.len(),
        diagonal_upto(m, 0),
    ensures
        sweep(s, s, m, rounds).old.len() == s.len(),
        diagonal_upto(sweep(s, s, m, rounds), rounds as int),
    decreases rounds,
{
    if rounds > 0 {
        lemma_sweep_diagonal(s, m, (rounds - 1) as nat);
        let before = sweep(s, s, m, (rounds - 1) as nat);
        lemma_extend_diagonal(s, before, rounds - 1, Direction::Forward, rounds - 1);
        let forward = extend_at(s, s, before, rounds - 1, Direction::Forward);
        lemma_extend_diagonal(s, forward, m.old.len() - rounds, Direction::Backward, rounds as int);
    }
}

/// A sequence whose first and last token occur nowhere else in it is
/// aligned with itself position by position, and its blocks are a single
/// match that spans everything between the first and the last position.
pub proof fn lemma_identity<T>(s: Seq<T>)
    requires
        s.len() <= usize::MAX,
        s.len() > 0 ==> unique_at(s, 0) && unique_at(s, s.len() - 1),
    ensures
        alignment(s, s).old == identity_mapping(s.len()),
        alignment(s, s).new == identity_mapping(s.len()),
        blocks(alignment(s, s).old) == if s.len() >= 3 {
            seq![BlockReference::Match { new_line_begin: 1, count: (s.len() - 2) as usize }]
        } else {
            Seq::<BlockReference>::empty()
        },
{
    let n = s.len() as int;
    let with_anchors = anchored(s, s, blank(s, s));
    assert(with_anchors.new =~= with_anchors.old);
    assert forall|i: int| 0 <= i < n implies (#[trigger] with_anchors.old[i]) is Unknown
        || with_anchors.old[i] == Reference::Confirmed(i as usize) by {
        if is_anchor(s, s, i) {
            lemma_anchor_partner(s, s, i);
        }
    }
    if n > 0 {
        assert(is_anchor(s, s, 0));
        assert(is_anchor(s, s, n - 1));
    }
    assert(diagonal_upto(with_anchors, 0));
    let grown = expand(s, s, with_anchors);
    if n >= 2 {
        lemma_sweep_diagonal(s, with_anchors, (n - 2) as nat);
    }
    assert(diagonal_upto(grown, n - 2));
    let settled = alignment(s, s);
    assert(settled.old =~= identity_mapping(s.len()));
    assert(settled.new =~= identity_mapping(s.len()));
    if n >= 3 {
        lemma_blocks_of_one_match(settled.old, n - 1);
    }
}

} // verus!
