//! Runs of matched and of deleted old positions.

use crate::entry::{BlockReference, Reference};
use vstd::prelude::*;

verus! {

/// Every old position but the first and the last is confirmed or deleted.
pub open spec fn aggregable(m: Seq<Reference>) -> bool {
    forall|i: int| 1 <= i < m.len() - 1 ==> (#[trigger] m[i]) is Confirmed || m[i] is Delete
}

/// Two entries belong to the same run: both are confirmed, or both are
/// deleted.
pub open spec fn same_kind(a: Reference, b: Reference) -> bool {
    (a is Confirmed && b is Confirmed) || (a is Delete && b is Delete)
}

/// The block of the given kind and length that begins at old position
/// `begin`: a match records where its first position is confirmed to, a
/// deletion records `begin` itself.
pub open spec fn run_block(m: Seq<Reference>, begin: int, count: int) -> BlockReference {
    match m[begin] {
        Reference::Confirmed(new_line) => BlockReference::Match {
            new_line_begin: new_line,
            count: count as usize,
        },
        _ => BlockReference::Delete { old_line_begin: begin as usize, count: count as usize },
    }
}

/// Where the run that ends at old position `last` begins: the smallest
/// position from which on every entry up to `last` is of the same kind.
/// Position 0 belongs to no run.
pub open spec fn run_begin(m: Seq<Reference>, last: int) -> int
    decreases last,
{
    if last > 1 && same_kind(m[last - 1], m[last]) {
        run_begin(m, last - 1)
    } else {
        last
    }
}

/// The blocks of the old positions `1 .. end`, in order: one block for
/// each maximal run of confirmed positions and for each maximal run of
/// deleted positions.
pub open spec fn blocks_upto(m: Seq<Reference>, end: int) -> Seq<BlockReference>
    decreases end,
{
    if end <= 1 {
        Seq::empty()
    } else {
        let begin = run_begin(m, end - 1);
        proof {
            lemma_run_begin_bounds(m, end - 1);
        }
        blocks_upto(m, begin).push(run_block(m, begin, end - begin))
    }
}

/// The blocks of an old mapping. Its first and its last position are left
/// out, so a mapping of fewer than three positions has no blocks.
pub open spec fn blocks(m: Seq<Reference>) -> Seq<BlockReference> {
    blocks_upto(m, m.len() - 1)
}

/// A run begins after position 0 and not after the position it ends at.
pub proof fn lemma_run_begin_bounds(m: Seq<Reference>, last: int)
    requires
        1 <= last,
    ensures
        1 <= run_begin(m, last) <= last,
    decreases last,
{
    if last > 1 && same_kind(m[last - 1], m[last]) {
        lemma_run_begin_bounds(m, last - 1);
    }
}

/// The position at which a run begins is of the same kind as the position
/// at which it ends.
pub proof fn lemma_run_kind(m: Seq<Reference>, last: int)
    requires
        1 <= last,
        m[last] is Confirmed || m[last] is Delete,
    ensures
        same_kind(m[run_begin(m, last)], m[last]),
    decreases last,
{
    if last > 1 && same_kind(m[last - 1], m[last]) {
        lemma_run_kind(m, last - 1);
    }
}

/// Where every old position from 1 to `end - 1` is confirmed, they form a
/// single match block, which records where position 1 is confirmed to.
pub proof fn lemma_blocks_of_one_match(m: Seq<Reference>, end: int)
    requires
        2 <= end,
        forall|i: int| 1 <= i < end ==> (#[trigger] m[i]) is Confirmed,
    ensures
        blocks_upto(m, end) == seq![
            BlockReference::Match { new_line_begin: m[1]->Confirmed_0, count: (end - 1) as usize },
        ],
{
    lemma_run_begin_of_match(m, end - 1);
    assert(blocks_upto(m, 1) == Seq::<BlockReference>::empty());
    assert(blocks_upto(m, end) == blocks_upto(m, 1).push(run_block(m, 1, end - 1)));
    assert(blocks_upto(m, end) =~= seq![
        BlockReference::Match { new_line_begin: m[1]->Confirmed_0, count: (end - 1) as usize },
    ]);
}

/// A run of confirmed positions that reaches back to position 1 begins
/// there.
pub proof fn lemma_run_begin_of_match(m: Seq<Reference>, last: int)
    requires
        1 <= last,
        forall|i: int| 1 <= i <= last ==> (#[trigger] m[i]) is Confirmed,
    ensures
        run_begin(m, last) == 1,
    decreases last,
{
    if last > 1 {
        assert(same_kind(m[last - 1], m[last]));
        lemma_run_begin_of_match(m, last - 1);
    }
}

/// The number of old positions that a block stands for.
pub open spec fn block_count(b: BlockReference) -> nat {
    match b {
        BlockReference::Match { count, .. } => count as nat,
        BlockReference::Delete { count, .. } => count as nat,
    }
}

/// The number of old positions that a sequence of blocks stands for.
pub open spec fn total_count(bs: Seq<BlockReference>) -> nat
    decreases bs.len(),
{
    if bs.len() == 0 {
        0
    } else {
        total_count(bs.drop_last()) + block_count(bs.last())
    }
}

/// The blocks of the old positions `1 .. end` stand for each of these
/// positions once: no block is empty, the counts add up to `end - 1`, and
/// the last block is of the kind of position `end - 1`.
pub proof fn lemma_blocks_cover(m: Seq<Reference>, end: int)
    requires
        1 <= end <= usize::MAX,
        forall|i: int| 1 <= i < end ==> (#[trigger] m[i]) is Confirmed || m[i] is Delete,
    ensures
        total_count(blocks_upto(m, end)) == end - 1,
        forall|k: int|
            0 <= k < blocks_upto(m, end).len() ==> block_count(#[trigger] blocks_upto(m, end)[k])
                >= 1,
        end >= 2 ==> blocks_upto(m, end).len() >= 1 && (blocks_upto(m, end).last() is Match
            <==> m[end - 1] is Confirmed),
    decreases end,
{
    if end >= 2 {
        let begin = run_begin(m, end - 1);
        lemma_run_begin_bounds(m, end - 1);
        lemma_run_kind(m, end - 1);
        lemma_blocks_cover(m, begin);
        let earlier = blocks_upto(m, begin);
        let all = blocks_upto(m, end);
        assert(all == earlier.push(run_block(m, begin, end - begin)));
        assert(all.drop_last() =~= earlier);
    }
}

/// Blocks are maximal: of two blocks that follow each other, one is a
/// match and the other a deletion.
pub proof fn lemma_blocks_alternate(m: Seq<Reference>, end: int)
    requires
        1 <= end <= usize::MAX,
        forall|i: int| 1 <= i < end ==> (#[trigger] m[i]) is Confirmed || m[i] is Delete,
    ensures
        forall|k: int|
            1 <= k < blocks_upto(m, end).len() ==> ((#[trigger] blocks_upto(m, end)[k]) is Match
                <==> blocks_upto(m, end)[k - 1] is Delete),
    decreases end,
{
    if end >= 2 {
        let begin = run_begin(m, end - 1);
        lemma_run_begin_bounds(m, end - 1);
        lemma_run_kind(m, end - 1);
        lemma_run_begin_is_maximal(m, end - 1);
        lemma_blocks_alternate(m, begin);
        lemma_blocks_cover(m, begin);
        let earlier = blocks_upto(m, begin);
        let all = blocks_upto(m, end);
        assert(all == earlier.push(run_block(m, begin, end - begin)));
        assert forall|k: int| 1 <= k < all.len() implies ((#[trigger] all[k]) is Match <==> all[k
            - 1] is Delete) by {
            if k < earlier.len() {
                assert(all[k] == earlier[k]);
                assert(all[k - 1] == earlier[k - 1]);
            } else {
                assert(all[k - 1] == earlier.last());
            }
        }
    }
}

/// The position before the one at which a run begins is not of the kind of
/// the run.
pub proof fn lemma_run_begin_is_maximal(m: Seq<Reference>, last: int)
    requires
        1 <= last,
    ensures
        run_begin(m, last) > 1 ==> !same_kind(m[run_begin(m, last) - 1], m[run_begin(m, last)]),
    decreases last,
{
    if last > 1 && same_kind(m[last - 1], m[last]) {
        lemma_run_begin_is_maximal(m, last - 1);
    }
}

} // verus!
