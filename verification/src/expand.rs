//! Growing confirmed correspondences over adjacent equal tokens.

use crate::entry::Reference;
use crate::mapping::{paired, resolving, Mappings};
use vstd::prelude::*;

verus! {

/// The side on which a neighbour is looked for.
#[derive(Debug, Clone, Copy, PartialEq, Eq, Structural)]
pub enum Direction {
    /// Towards the next position.
    Forward,
    /// Towards the previous position.
    Backward,
}

impl Direction {
    /// The distance to the neighbour: `1` forward, `-1` backward.
    pub open spec fn step(self) -> int {
        match self {
            Direction::Forward => 1,
            Direction::Backward => -1,
        }
    }

    /// The position next to `x` on this side, if it lies below `len`.
    pub open spec fn spec_neighbor(self, x: usize, len: usize) -> Option<usize> {
        if 0 <= x + self.step() < len {
            Some((x + self.step()) as usize)
        } else {
            None
        }
    }

    /// The position next to `x` on this side, if it lies below `len`.
    #[verifier::when_used_as_spec(spec_neighbor)]
    pub fn neighbor(self, x: usize, len: usize) -> (n: Option<usize>)
        ensures
            n == self.spec_neighbor(x, len),
    {
        match self {
            Direction::Forward => if x < len && x + 1 < len {
                Some(x + 1)
            } else {
                None
            },
            Direction::Backward => if 1 <= x && x - 1 < len {
                Some(x - 1)
            } else {
                None
            },
        }
    }
}

/// Old position `i` is confirmed, and its neighbour on side `d` can be
/// confirmed with the neighbour of its counterpart: both neighbours exist,
/// both are unresolved, and they hold the same token.
pub open spec fn can_extend<T>(
    old: Seq<T>,
    new: Seq<T>,
    m: Mappings,
    i: int,
    d: Direction,
) -> bool {
    &&& 0 <= i < m.old.len()
    &&& m.old[i] matches Reference::Confirmed(l)
    &&& 0 <= i + d.step() < m.old.len()
    &&& 0 <= l + d.step() < m.new.len()
    &&& m.old[i + d.step()] is Unknown
    &&& m.new[l + d.step()] is Unknown
    &&& old[i + d.step()] == new[l + d.step()]
}

/// One step of the expansion: if old position `i` can be extended on side
/// `d`, the two neighbours are confirmed with each other; otherwise nothing
/// changes.
pub open spec fn extend_at<T>(
    old: Seq<T>,
    new: Seq<T>,
    m: Mappings,
    i: int,
    d: Direction,
) -> Mappings {
    if can_extend(old, new, m, i, d) {
        let l = m.old[i]->Confirmed_0;
        Mappings {
            old: m.old.update(i + d.step(), Reference::Confirmed((l + d.step()) as usize)),
            new: m.new.update(l + d.step(), Reference::Confirmed((i + d.step()) as usize)),
        }
    } else {
        m
    }
}

/// The first `rounds` rounds of the expansion. Round `r` (counted from 0)
/// extends old position `r` forward and then old position `len - 1 - r`
/// backward, so that a pair confirmed in one round can be extended in a
/// later one.
pub open spec fn sweep<T>(old: Seq<T>, new: Seq<T>, m: Mappings, rounds: nat) -> Mappings
    decreases rounds,
{
    if rounds == 0 {
        m
    } else {
        let before = sweep(old, new, m, (rounds - 1) as nat);
        let forward = extend_at(old, new, before, rounds - 1, Direction::Forward);
        extend_at(old, new, forward, m.old.len() - rounds, Direction::Backward)
    }
}

/// The whole expansion: `len - 2` rounds, where `len` is the length of the
/// old mapping. With fewer than two old positions nothing changes.
pub open spec fn expand<T>(old: Seq<T>, new: Seq<T>, m: Mappings) -> Mappings {
    if m.old.len() < 2 {
        m
    } else {
        sweep(old, new, m, (m.old.len() - 2) as nat)
    }
}

/// No step of the first `rounds` rounds can extend anything in `m`.
pub open spec fn settled<T>(old: Seq<T>, new: Seq<T>, m: Mappings, rounds: nat) -> bool {
    &&& forall|i: int|
        0 <= i < rounds ==> !#[trigger] can_extend(old, new, m, i, Direction::Forward)
    &&& forall|i: int|
        m.old.len() - rounds <= i < m.old.len() ==> !#[trigger] can_extend(
            old,
            new,
            m,
            i,
            Direction::Backward,
        )
}

/// A step keeps correspondences paired, and the tokens of each pair equal.
pub proof fn lemma_extend_paired<T>(old: Seq<T>, new: Seq<T>, m: Mappings, i: int, d: Direction)
    requires
        paired(old, new, m),
        old.len() <= usize::MAX,
        new.len() <= usize::MAX,
    ensures
        paired(old, new, extend_at(old, new, m, i, d)),
{
    let after = extend_at(old, new, m, i, d);
    if can_extend(old, new, m, i, d) {
        let l = m.old[i]->Confirmed_0;
        let x = i + d.step();
        let y = l + d.step();
        assert forall|a: int| 0 <= a < after.old.len() implies (
        (#[trigger] after.old[a]) matches Reference::Confirmed(b) ==> b < after.new.len()
            && after.new[b as int] == Reference::Confirmed(a as usize) && old[a]
            == new[b as int]) by {
            if a != x {
                assert(after.old[a] == m.old[a]);
                if let Reference::Confirmed(b) = m.old[a] {
                    assert(m.new[b as int] == Reference::Confirmed(a as usize));
                    assert(b != y);
                }
            }
        }
        assert forall|b: int| 0 <= b < after.new.len() implies (
        (#[trigger] after.new[b]) matches Reference::Confirmed(a) ==> a < after.old.len()
            && after.old[a as int] == Reference::Confirmed(b as usize)) by {
            if b != y {
                assert(after.new[b] == m.new[b]);
                if let Reference::Confirmed(a) = m.new[b] {
                    assert(m.old[a as int] == Reference::Confirmed(b as usize));
                    assert(a != x);
                }
            }
        }
    }
}

/// A step resolves nothing but by confirming it.
pub proof fn lemma_extend_resolving<T>(old: Seq<T>, new: Seq<T>, m: Mappings, i: int, d: Direction)
    requires
        resolving(m.old),
        resolving(m.new),
    ensures
        resolving(extend_at(old, new, m, i, d).old),
        resolving(extend_at(old, new, m, i, d).new),
{
}

/// Rounds of the expansion change no length.
pub proof fn lemma_sweep_len<T>(old: Seq<T>, new: Seq<T>, m: Mappings, rounds: nat)
    ensures
        sweep(old, new, m, rounds).old.len() == m.old.len(),
        sweep(old, new, m, rounds).new.len() == m.new.len(),
    decreases rounds,
{
    if rounds > 0 {
        lemma_sweep_len(old, new, m, (rounds - 1) as nat);
    }
}

/// Rounds of the expansion keep correspondences paired with equal tokens,
/// and resolve nothing but by confirming it.
pub proof fn lemma_sweep_keeps<T>(old: Seq<T>, new: Seq<T>, m: Mappings, rounds: nat)
    requires
        old.len() <= usize::MAX,
        new.len() <= usize::MAX,
    ensures
        paired(old, new, m) ==> paired(old, new, sweep(old, new, m, rounds)),
        resolving(m.old) && resolving(m.new) ==> resolving(sweep(old, new, m, rounds).old)
            && resolving(sweep(old, new, m, rounds).new),
    decreases rounds,
{
    if rounds > 0 {
        lemma_sweep_keeps(old, new, m, (rounds - 1) as nat);
        let before = sweep(old, new, m, (rounds - 1) as nat);
        let forward = extend_at(old, new, before, rounds - 1, Direction::Forward);
        let last = m.old.len() - rounds;
        if paired(old, new, m) {
            lemma_extend_paired(old, new, before, rounds - 1, Direction::Forward);
            lemma_extend_paired(old, new, forward, last, Direction::Backward);
        }
        if resolving(m.old) && resolving(m.new) {
            lemma_extend_resolving(old, new, before, rounds - 1, Direction::Forward);
            lemma_extend_resolving(old, new, forward, last, Direction::Backward);
        }
    }
}

/// The expansion changes no length, keeps correspondences paired with equal
/// tokens, and resolves nothing but by confirming it.
pub proof fn lemma_expand_keeps<T>(old: Seq<T>, new: Seq<T>, m: Mappings)
    requires
        old.len() <= usize::MAX,
        new.len() <= usize::MAX,
    ensures
        expand(old, new, m).old.len() == m.old.len(),
        expand(old, new, m).new.len() == m.new.len(),
        paired(old, new, m) ==> paired(old, new, expand(old, new, m)),
        resolving(m.old) && resolving(m.new) ==> resolving(expand(old, new, m).old)
            && resolving(expand(old, new, m).new),
{
    if m.old.len() >= 2 {
        lemma_sweep_len(old, new, m, (m.old.len() - 2) as nat);
        lemma_sweep_keeps(old, new, m, (m.old.len() - 2) as nat);
    }
}

/// After a step at `i`, that step can extend nothing more.
pub proof fn lemma_extend_quiets<T>(old: Seq<T>, new: Seq<T>, m: Mappings, i: int, d: Direction)
    ensures
        !can_extend(old, new, extend_at(old, new, m, i, d), i, d),
{
}

/// A step at `q` does not enable a step at `i` that could extend nothing
/// before, unless it is a step in the same direction that confirms `i`.
pub proof fn lemma_extend_keeps_quiet<T>(
    old: Seq<T>,
    new: Seq<T>,
    m: Mappings,
    q: int,
    dq: Direction,
    i: int,
    di: Direction,
)
    requires
        !can_extend(old, new, m, i, di),
        dq == di ==> q + dq.step() != i,
    ensures
        !can_extend(old, new, extend_at(old, new, m, q, dq), i, di),
{
}

/// Once the first `rounds` rounds have run, none of their steps can extend
/// anything: a position confirmed after its own step was confirmed from
/// the neighbour that this step would look at.
pub proof fn lemma_sweep_settles<T>(old: Seq<T>, new: Seq<T>, m: Mappings, rounds: nat)
    ensures
        settled(old, new, sweep(old, new, m, rounds), rounds),
    decreases rounds,
{
    if rounds > 0 {
        let first = rounds - 1;
        let last = m.old.len() - rounds;
        let fwd = Direction::Forward;
        let bwd = Direction::Backward;
        lemma_sweep_settles(old, new, m, first as nat);
        lemma_sweep_len(old, new, m, first as nat);
        let before = sweep(old, new, m, first as nat);
        let forward = extend_at(old, new, before, first, fwd);
        let after = extend_at(old, new, forward, last, bwd);
        assert(after == sweep(old, new, m, rounds));
        assert forall|i: int| 0 <= i < rounds implies !#[trigger] can_extend(
            old,
            new,
            after,
            i,
            fwd,
        ) by {
            if i < first {
                lemma_extend_keeps_quiet(old, new, before, first, fwd, i, fwd);
            } else {
                lemma_extend_quiets(old, new, before, first, fwd);
            }
            lemma_extend_keeps_quiet(old, new, forward, last, bwd, i, fwd);
        }
        assert forall|i: int| last <= i < m.old.len() implies !#[trigger] can_extend(
            old,
            new,
            after,
            i,
            bwd,
        ) by {
            if i > last {
                lemma_extend_keeps_quiet(old, new, before, first, fwd, i, bwd);
                lemma_extend_keeps_quiet(old, new, forward, last, bwd, i, bwd);
            } else {
                lemma_extend_quiets(old, new, forward, last, bwd);
            }
        }
    }
}

/// Where no step of the first `rounds` rounds can extend anything, those
/// rounds change nothing.
pub proof fn lemma_settled_sweep<T>(old: Seq<T>, new: Seq<T>, m: Mappings, rounds: nat)
    requires
        settled(old, new, m, rounds),
        rounds <= m.old.len(),
    ensures
        sweep(old, new, m, rounds) == m,
    decreases rounds,
{
    if rounds > 0 {
        lemma_settled_sweep(old, new, m, (rounds - 1) as nat);
        assert(!can_extend(old, new, m, rounds - 1, Direction::Forward));
        assert(!can_extend(old, new, m, m.old.len() - rounds, Direction::Backward));
    }
}

/// The expansion has converged when it ends: none of its steps can extend
/// anything in its result.
pub proof fn lemma_expand_settles<T>(old: Seq<T>, new: Seq<T>, m: Mappings)
    requires
        m.old.len() >= 2,
    ensures
        settled(old, new, expand(old, new, m), (m.old.len() - 2) as nat),
{
    lemma_sweep_settles(old, new, m, (m.old.len() - 2) as nat);
}

/// Expanding once more changes nothing.
pub proof fn lemma_expand_idempotent<T>(old: Seq<T>, new: Seq<T>, m: Mappings)
    ensures
        expand(old, new, expand(old, new, m)) == expand(old, new, m),
{
    if m.old.len() >= 2 {
        let rounds = (m.old.len() - 2) as nat;
        lemma_sweep_len(old, new, m, rounds);
        lemma_expand_settles(old, new, m);
        lemma_settled_sweep(old, new, expand(old, new, m), rounds);
    }
}

} // verus!
