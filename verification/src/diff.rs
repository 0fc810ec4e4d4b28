//! The aligner: two sequences, their symbol tables and their mappings.

use crate::alignment::{alignment, blank, lemma_alignment_paired_and_total};
use crate::anchors::{
    anchor_lines, anchored, is_anchor, is_anchor_token, lemma_anchor_lines, lemma_anchor_tokens,
    lemma_anchored_paired,
};
use crate::blocks::{
    aggregable, blocks, blocks_upto, lemma_blocks_cover, lemma_run_begin_bounds, lemma_run_kind,
    run_begin, run_block, total_count,
};
use crate::entry::{BlockReference, DiffError, Reference};
use crate::expand::{expand, extend_at, lemma_expand_keeps, lemma_extend_paired, sweep, Direction};
use crate::mapping::{
    classified_new, classified_old, classify, lemma_settle_paired, lemma_settle_total, paired,
    resolving, settle, unresolved, Mappings,
};
use crate::symbols::{lemma_symbol_table_push, symbol_table};
use crate::token::token_model;
use std::collections::HashMap;
use std::hash::Hash;
use vstd::prelude::*;
use vstd::seq_lib::lemma_seq_contains_after_push;
use vstd::std_specs::iter::IteratorSpec;

verus! {

/// A token's entry in a symbol table, keyed by the token.
pub type SymbolTable<T> = HashMap<T, Reference>;

/// One alignment of an old and a new sequence of tokens.
pub struct Diff<'a, T: 'a> {
    /// The symbol table of the old sequence.
    pub symbol_table_old: SymbolTable<T>,
    /// The symbol table of the new sequence.
    pub symbol_table_new: SymbolTable<T>,
    /// What is known of each position of the old sequence.
    pub old_mapping: Vec<Reference>,
    /// What is known of each position of the new sequence.
    pub new_mapping: Vec<Reference>,
    /// The old sequence.
    pub old_file: &'a Vec<T>,
    /// The new sequence.
    pub new_file: &'a Vec<T>,
}

impl<'a, T: Eq + Hash + Clone> Diff<'a, T> {
    /// Each mapping has one entry per position of its sequence.
    pub open spec fn is_sized(&self) -> bool {
        &&& self.old_mapping@.len() == self.old_file@.len()
        &&& self.new_mapping@.len() == self.new_file@.len()
    }

    /// Each mapping has one entry per position of its sequence, and each
    /// symbol table is that of its sequence.
    pub open spec fn wf(&self) -> bool {
        &&& self.is_sized()
        &&& self.symbol_table_old@ == symbol_table(self.old_file@)
        &&& self.symbol_table_new@ == symbol_table(self.new_file@)
    }

    /// The two mappings as they stand.
    pub open spec fn mappings(&self) -> Mappings {
        Mappings { old: self.old_mapping@, new: self.new_mapping@ }
    }

    /// Correspondences come in pairs of positions that hold the same token.
    pub open spec fn is_paired(&self) -> bool {
        paired(self.old_file@, self.new_file@, self.mappings())
    }

    /// Every entry of both mappings is either unresolved or confirmed.
    pub open spec fn is_resolving(&self) -> bool {
        resolving(self.old_mapping@) && resolving(self.new_mapping@)
    }

    /// Every position is settled: confirmed, or else deleted on the old
    /// side and inserted on the new side.
    pub open spec fn is_settled(&self) -> bool {
        classified_old(self.old_mapping@) && classified_new(self.new_mapping@)
    }

    /// The mappings are the alignment of the two sequences.
    pub open spec fn is_alignment(&self) -> bool {
        self.mappings() == alignment(self.old_file@, self.new_file@)
    }

    /// The sequences and symbol tables of `self` are those of `other`.
    pub open spec fn same_input(&self, other: &Self) -> bool {
        &&& self.old_file == other.old_file
        &&& self.new_file == other.new_file
        &&& self.symbol_table_old@ == other.symbol_table_old@
        &&& self.symbol_table_new@ == other.symbol_table_new@
    }

    /// Aligns `old_file` and `new_file`: builds both symbol tables, confirms
    /// the anchors, grows them over adjacent equal tokens and settles the
    /// rest.
    pub fn new(old_file: &'a Vec<T>, new_file: &'a Vec<T>) -> (diff: Diff<'a, T>)
        requires
            token_model::<T>(),
        ensures
            diff.wf(),
            diff.old_file == old_file,
            diff.new_file == new_file,
            diff.is_alignment(),
            diff.is_paired(),
            diff.is_settled(),
    {
        let mut diff = Diff {
            symbol_table_old: Self::create_symbol_table(old_file),
            symbol_table_new: Self::create_symbol_table(new_file),
            old_mapping: Self::unknown_mapping(old_file.len()),
            new_mapping: Self::unknown_mapping(new_file.len()),
            old_file: old_file,
            new_file: new_file,
        };
        assert(diff.mappings() == blank(old_file@, new_file@));
        diff.update_unique_mappings();
        diff.update_neighbors();
        diff.replace_unknown();
        proof {
            assert(old_file@.len() == old_file.len() && new_file@.len() == new_file.len());
            lemma_alignment_paired_and_total(old_file@, new_file@);
        }
        diff
    }

    /// A mapping of `len` positions, none of them resolved.
    fn unknown_mapping(len: usize) -> (mapping: Vec<Reference>)
        ensures
            mapping@ == unresolved(len as nat),
    {
        let mut mapping: Vec<Reference> = Vec::new();
        for i in 0..len
            invariant
                mapping@ == unresolved(i as nat),
        {
            mapping.push(Reference::Unknown);
            assert(mapping@ =~= unresolved((i + 1) as nat));
        }
        mapping
    }

    /// Builds the symbol table of `file` in one pass.
    pub fn create_symbol_table(file: &Vec<T>) -> (table: SymbolTable<T>)
        requires
            token_model::<T>(),
        ensures
            table@ == symbol_table(file@),
    {
        broadcast use vstd::std_specs::hash::group_hash_axioms;

        let mut s: SymbolTable<T> = HashMap::new();
        assert(s@ =~= symbol_table(file@.take(0)));
        for line in 0..file.len()
            invariant
                token_model::<T>(),
                s@ == symbol_table(file@.take(line as int)),
        {
            let symbol = &file[line];
            let new = match s.get(symbol) {
                Some(_) => Reference::Multiple,
                _ => Reference::Confirmed(line),
            };
            proof {
                lemma_symbol_table_push(file@.take(line as int), *symbol);
                assert(file@.take(line as int).push(*symbol) =~= file@.take(line + 1));
            }
            s.insert(symbol.clone(), new);
        }
        assert(file@.take(file.len() as int) =~= file@);
        s
    }

    /// The tokens for which both symbol tables record a single position,
    /// each once, in no particular order.
    pub fn get_unique_symbols(&self) -> (out: Vec<T>)
        requires
            token_model::<T>(),
        ensures
            out@.no_duplicates(),
            forall|t: T|
                out@.contains(t) <==> is_anchor_token(
                    self.symbol_table_old@,
                    self.symbol_table_new@,
                    t,
                ),
    {
        broadcast use vstd::std_specs::hash::group_hash_axioms;

        let mut out: Vec<T> = Vec::new();
        let ghost told = self.symbol_table_old@;
        let ghost tnew = self.symbol_table_new@;
        let ghost entries = self.symbol_table_new.iter().remaining();
        let ghost mut seen: int = 0;
        for (symbol, reference) in it: self.symbol_table_new.iter()
            invariant
                token_model::<T>(),
                told == self.symbol_table_old@,
                tnew == self.symbol_table_new@,
                it.seq() == entries,
                seen == it.index(),
                entries.no_duplicates(),
                forall|j: int|
                    0 <= j < entries.len() ==> tnew.contains_key(*(#[trigger] entries[j]).0)
                        && tnew[*entries[j].0] == *entries[j].1,
                out@.no_duplicates(),
                forall|t: T| #[trigger] out@.contains(t) ==> is_anchor_token(told, tnew, t),
                forall|t: T| #[trigger]
                    out@.contains(t) ==> exists|j: int|
                        0 <= j < seen && *(#[trigger] entries[j]).0 == t,
                forall|j: int|
                    0 <= j < seen && is_anchor_token(told, tnew, *(#[trigger] entries[j]).0)
                        ==> out@.contains(*entries[j].0),
        {
            assert(entries[seen] == (symbol, reference));
            // No entry walked before this one has the same key.
            assert forall|t: T| out@.contains(t) implies t != *symbol by {
                let j = choose|j: int| 0 <= j < seen && *(#[trigger] entries[j]).0 == t;
                if t == *symbol {
                    assert(entries[j] == entries[seen]);
                }
            }
            if let Reference::Confirmed(_) = reference {
                if let Some(Reference::Confirmed(_)) = self.symbol_table_old.get(symbol) {
                    let ghost before = out@;
                    out.push(symbol.clone());
                    assert(out@ == before.push(*symbol));
                    assert forall|t: T| #[trigger]
                        out@.contains(t) <==> before.contains(t) || t == *symbol by {
                        lemma_seq_contains_after_push(before, *symbol, t);
                    }
                    assert forall|i: int, j: int|
                        0 <= i < j < out@.len() implies out@[i] != out@[j] by {
                        assert(before.contains(before[i]));
                    }
                }
            }
            proof {
                seen = seen + 1;
            }
        }
        out
    }

    /// Confirms every anchor: the two positions of a token that occurs
    /// exactly once in each sequence are mapped to each other. All other
    /// entries stay as they are.
    pub fn update_unique_mappings(&mut self)
        requires
            token_model::<T>(),
            old(self).wf(),
        ensures
            final(self).wf(),
            final(self).same_input(old(self)),
            final(self).mappings() == anchored(
                old(self).old_file@,
                old(self).new_file@,
                old(self).mappings(),
            ),
            old(self).is_paired() ==> final(self).is_paired(),
            old(self).is_resolving() ==> final(self).is_resolving(),
    {
        broadcast use vstd::std_specs::hash::group_hash_axioms;

        let symbols = self.get_unique_symbols();
        let ghost old_seq = self.old_file@;
        let ghost new_seq = self.new_file@;
        let ghost old_start = self.old_mapping@;
        let ghost new_start = self.new_mapping@;
        for k in 0..symbols.len()
            invariant
                token_model::<T>(),
                self.wf(),
                self.same_input(old(self)),
                old_seq == self.old_file@,
                new_seq == self.new_file@,
                old_start == old(self).old_mapping@,
                new_start == old(self).new_mapping@,
                symbols@.no_duplicates(),
                forall|t: T|
                    symbols@.contains(t) <==> is_anchor_token(
                        self.symbol_table_old@,
                        self.symbol_table_new@,
                        t,
                    ),
                forall|i: int|
                    0 <= i < old_seq.len() ==> #[trigger] self.old_mapping@[i] == if is_anchor(
                        old_seq,
                        new_seq,
                        i,
                    ) && symbols@.take(k as int).contains(old_seq[i]) {
                        Reference::Confirmed(new_seq.index_of(old_seq[i]) as usize)
                    } else {
                        old_start[i]
                    },
                forall|j: int|
                    0 <= j < new_seq.len() ==> #[trigger] self.new_mapping@[j] == if is_anchor(
                        new_seq,
                        old_seq,
                        j,
                    ) && symbols@.take(k as int).contains(new_seq[j]) {
                        Reference::Confirmed(old_seq.index_of(new_seq[j]) as usize)
                    } else {
                        new_start[j]
                    },
        {
            let symbol = &symbols[k];
            proof {
                assert(symbols@.contains(*symbol));
                assert(symbols@.take(k + 1) == symbols@.take(k as int).push(*symbol));
                assert forall|t: T| #[trigger]
                    symbols@.take(k + 1).contains(t) <==> symbols@.take(k as int).contains(t) || t
                        == *symbol by {
                    lemma_seq_contains_after_push(symbols@.take(k as int), *symbol, t);
                }
            }
            match anchor_lines(
                self.symbol_table_old.get(symbol),
                self.symbol_table_new.get(symbol),
            ) {
                Ok((line_old, line_new)) => {
                    proof {
                        assert(old_seq.len() == self.old_mapping.len());
                        assert(new_seq.len() == self.new_mapping.len());
                        lemma_anchor_lines(old_seq, new_seq, *symbol, line_old, line_new);
                    }
                    self.old_mapping.set(line_old, Reference::Confirmed(line_new));
                    self.new_mapping.set(line_new, Reference::Confirmed(line_old));
                },
                Err(_) => {
                    proof {
                        assert(false);
                    }
                },
            }
        }
        proof {
            assert(symbols@.take(symbols.len() as int) == symbols@);
            assert forall|i: int| 0 <= i < old_seq.len() && is_anchor(
                old_seq,
                new_seq,
                i,
            ) implies symbols@.contains(#[trigger] old_seq[i]) by {
                lemma_anchor_tokens(old_seq, new_seq, old_seq[i]);
            }
            assert forall|j: int| 0 <= j < new_seq.len() && is_anchor(
                new_seq,
                old_seq,
                j,
            ) implies symbols@.contains(#[trigger] new_seq[j]) by {
                lemma_anchor_tokens(old_seq, new_seq, new_seq[j]);
            }
            assert(self.old_mapping@ =~= anchored(old_seq, new_seq, old(self).mappings()).old);
            assert(self.new_mapping@ =~= anchored(old_seq, new_seq, old(self).mappings()).new);
            if old(self).is_paired() {
                assert(old_seq.len() == self.old_file.len());
                assert(new_seq.len() == self.new_file.len());
                lemma_anchored_paired(old_seq, new_seq, old(self).mappings());
            }
        }
    }

    /// Settles what is left unresolved: in the old mapping as deleted, in
    /// the new mapping as inserted. No other entry changes.
    pub fn replace_unknown(&mut self)
        ensures
            final(self).same_input(old(self)),
            final(self).mappings() == settle(old(self).mappings()),
            old(self).is_sized() ==> final(self).is_sized(),
            old(self).is_paired() ==> final(self).is_paired(),
            old(self).is_resolving() ==> final(self).is_settled(),
    {
        Self::replace_unknown_in(&mut self.old_mapping, Reference::Delete);
        Self::replace_unknown_in(&mut self.new_mapping, Reference::Insert);
        proof {
            if old(self).is_paired() {
                lemma_settle_paired(self.old_file@, self.new_file@, old(self).mappings());
            }
            if old(self).is_resolving() {
                lemma_settle_total(old(self).mappings());
            }
        }
    }

    /// Puts `verdict` in place of every unresolved entry of `mapping`.
    fn replace_unknown_in(mapping: &mut Vec<Reference>, verdict: Reference)
        ensures
            final(mapping)@ == classify(old(mapping)@, verdict),
    {
        let len = mapping.len();
        for i in 0..len
            invariant
                len == mapping@.len(),
                len == old(mapping)@.len(),
                forall|j: int|
                    0 <= j < i ==> #[trigger] mapping@[j] == classify(old(mapping)@, verdict)[j],
                forall|j: int| i <= j < len ==> #[trigger] mapping@[j] == old(mapping)@[j],
        {
            if let Reference::Unknown = mapping[i] {
                mapping.set(i, verdict);
            }
        }
        assert(mapping@ =~= classify(old(mapping)@, verdict));
    }

    /// One step of the expansion. If old position `i` is confirmed and its
    /// neighbour on the given side is unresolved, as is the neighbour of
    /// its counterpart, and the two neighbours hold the same token, they
    /// are confirmed with each other.
    pub fn update_neighbor(&mut self, i: usize, direction: Direction)
        requires
            token_model::<T>(),
            old(self).is_sized(),
            i < old(self).old_mapping@.len(),
        ensures
            final(self).is_sized(),
            final(self).same_input(old(self)),
            final(self).mappings() == extend_at(
                old(self).old_file@,
                old(self).new_file@,
                old(self).mappings(),
                i as int,
                direction,
            ),
            old(self).is_paired() ==> final(self).is_paired(),
            old(self).is_resolving() ==> final(self).is_resolving(),
    {
        proof {
            if old(self).is_paired() {
                assert(self.old_file@.len() == self.old_file.len());
                assert(self.new_file@.len() == self.new_file.len());
                lemma_extend_paired(
                    self.old_file@,
                    self.new_file@,
                    self.mappings(),
                    i as int,
                    direction,
                );
            }
        }
        let new_neighbor = match self.old_mapping[i] {
            Reference::Confirmed(l) => match direction.neighbor(l, self.new_mapping.len()) {
                Some(n) => n,
                None => return ,
            },
            _ => return ,
        };
        let old_neighbor = match direction.neighbor(i, self.old_mapping.len()) {
            Some(n) => n,
            None => return ,
        };
        match self.old_mapping[old_neighbor] {
            Reference::Unknown => {},
            _ => return ,
        }
        match self.new_mapping[new_neighbor] {
            Reference::Unknown => if self.new_file[new_neighbor] != self.old_file[old_neighbor] {
                return ;
            },
            _ => return ,
        }
        self.old_mapping.set(old_neighbor, Reference::Confirmed(new_neighbor));
        self.new_mapping.set(new_neighbor, Reference::Confirmed(old_neighbor));
    }

    /// Grows the confirmed correspondences: in round `r`, old position `r`
    /// is extended forward and old position `len - 1 - r` backward, for
    /// `len - 2` rounds. Sequences of fewer than two tokens are left as
    /// they are.
    pub fn update_neighbors(&mut self)
        requires
            token_model::<T>(),
            old(self).is_sized(),
        ensures
            final(self).is_sized(),
            final(self).same_input(old(self)),
            final(self).mappings() == expand(
                old(self).old_file@,
                old(self).new_file@,
                old(self).mappings(),
            ),
            old(self).is_paired() ==> final(self).is_paired(),
            old(self).is_resolving() ==> final(self).is_resolving(),
    {
        proof {
            assert(self.old_file@.len() == self.old_file.len());
            assert(self.new_file@.len() == self.new_file.len());
            lemma_expand_keeps(self.old_file@, self.new_file@, self.mappings());
        }
        let old_file_len = self.old_file.len();
        if old_file_len < 2 {
            return ;
        }
        for i in 0..old_file_len - 2
            invariant
                token_model::<T>(),
                self.is_sized(),
                self.same_input(old(self)),
                old_file_len == self.old_file@.len(),
                old_file_len >= 2,
                old_file_len == old(self).old_mapping@.len(),
                self.mappings() == sweep(
                    old(self).old_file@,
                    old(self).new_file@,
                    old(self).mappings(),
                    i as nat,
                ),
        {
            self.update_neighbor(i, Direction::Forward);
            self.update_neighbor(old_file_len - i - 1, Direction::Backward);
        }
    }

    /// Summarises the old mapping as blocks, one for each maximal run of
    /// confirmed positions and for each maximal run of deleted positions.
    /// The first and the last position are left out; the blocks stand for
    /// each of the others once. An entry of another kind among these is a
    /// violation.
    pub fn aggregate(&self) -> (result: Result<Vec<BlockReference>, DiffError>)
        ensures
            match result {
                Ok(out) => {
                    &&& aggregable(self.old_mapping@)
                    &&& out@ == blocks(self.old_mapping@)
                    &&& total_count(out@) == if self.old_mapping@.len() >= 2 {
                        self.old_mapping@.len() - 2
                    } else {
                        0
                    }
                },
                Err(e) => e == DiffError::AggregationStateViolation && !aggregable(
                    self.old_mapping@,
                ),
            },
    {
        let mut out_old: Vec<BlockReference> = Vec::new();
        let len = self.old_mapping.len();
        if len < 2 {
            return Ok(out_old);
        }
        let ghost m = self.old_mapping@;
        let mut last_block: Option<BlockReference> = None;
        for line in 1..len - 1
            invariant
                m == self.old_mapping@,
                len == m.len(),
                len >= 2,
                forall|i: int| 1 <= i < line ==> (#[trigger] m[i]) is Confirmed || m[i] is Delete,
                line == 1 ==> last_block is None && out_old@ == Seq::<BlockReference>::empty(),
                line > 1 ==> last_block == Some(
                    run_block(m, run_begin(m, line - 1), line - run_begin(m, line - 1)),
                ) && out_old@ == blocks_upto(m, run_begin(m, line - 1)),
        {
            proof {
                if line > 1 {
                    lemma_run_begin_bounds(m, line - 1);
                    lemma_run_kind(m, line - 1);
                }
            }
            match self.old_mapping[line] {
                Reference::Confirmed(new_line) => {
                    if let Some(
                        BlockReference::Match { new_line_begin: prev_line, count: prev_count },
                    ) = last_block {
                        last_block = Some(
                            BlockReference::Match {
                                new_line_begin: prev_line,
                                count: prev_count + 1,
                            },
                        );
                    } else {
                        if let Some(block) = last_block {
                            out_old.push(block);
                        }
                        last_block = Some(
                            BlockReference::Match { new_line_begin: new_line, count: 1 },
                        );
                    }
                },
                Reference::Delete => {
                    if let Some(
                        BlockReference::Delete { old_line_begin: prev_line, count: prev_count },
                    ) = last_block {
                        last_block = Some(
                            BlockReference::Delete {
                                old_line_begin: prev_line,
                                count: prev_count + 1,
                            },
                        );
                    } else {
                        if let Some(block) = last_block {
                            out_old.push(block);
                        }
                        last_block = Some(
                            BlockReference::Delete { old_line_begin: line, count: 1 },
                        );
                    }
                },
                _ => {
                    return Err(DiffError::AggregationStateViolation);
                },
            }
        }
        if let Some(block) = last_block {
            out_old.push(block);
        }
        proof {
            lemma_blocks_cover(m, len - 1);
        }
        Ok(out_old)
    }
}

/// Two alignments of the same sequences hold the same mappings and give
/// the same blocks, whatever the order in which either walked its symbol
/// tables.
pub proof fn lemma_alignment_is_determined<'a, 'b, T: Eq + Hash + Clone>(
    first: Diff<'a, T>,
    second: Diff<'b, T>,
)
    requires
        first.is_alignment(),
        second.is_alignment(),
        first.old_file@ == second.old_file@,
        first.new_file@ == second.new_file@,
    ensures
        first.old_mapping@ == second.old_mapping@,
        first.new_mapping@ == second.new_mapping@,
        blocks(first.old_mapping@) == blocks(second.old_mapping@),
{
}

} // verus!
