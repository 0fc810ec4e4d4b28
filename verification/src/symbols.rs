//! Symbol tables: for each token of a sequence, whether it occurs once, and
//! where.

use crate::entry::Reference;
use vstd::prelude::*;

verus! {

/// The token at position `p` of `s` occurs nowhere else in `s`.
pub open spec fn unique_at<T>(s: Seq<T>, p: int) -> bool {
    &&& 0 <= p < s.len()
    &&& forall|q: int| 0 <= q < s.len() && #[trigger] s[q] == s[p] ==> q == p
}

/// The token `t` occurs exactly once in `s`.
pub open spec fn occurs_once<T>(s: Seq<T>, t: T) -> bool {
    exists|p: int| #[trigger] unique_at(s, p) && s[p] == t
}

/// What the symbol table of `s` records for a token `t` that occurs in `s`:
/// its position if it occurs once, `Multiple` otherwise.
pub open spec fn symbol_entry<T>(s: Seq<T>, t: T) -> Reference {
    if occurs_once(s, t) {
        Reference::Confirmed(s.index_of(t) as usize)
    } else {
        Reference::Multiple
    }
}

/// The symbol table of `s`: one entry for each token that occurs in `s`.
pub open spec fn symbol_table<T>(s: Seq<T>) -> Map<T, Reference> {
    Map::new(|t: T| s.contains(t), |t: T| symbol_entry(s, t))
}

/// A token that occurs once in `s` is recorded with the position at which
/// it stands.
pub proof fn lemma_entry_of_unique<T>(s: Seq<T>, p: int)
    requires
        unique_at(s, p),
    ensures
        occurs_once(s, s[p]),
        s.index_of(s[p]) == p,
        symbol_entry(s, s[p]) == Reference::Confirmed(p as usize),
{
    let q = s.index_of(s[p]);
    assert(0 <= q < s.len() && s[q] == s[p]);
}

/// An entry `Confirmed(p)` of a symbol table names the one position of its
/// token.
pub proof fn lemma_confirmed_entry<T>(s: Seq<T>, t: T, p: usize)
    requires
        s.len() <= usize::MAX,
        s.contains(t),
        symbol_entry(s, t) == Reference::Confirmed(p),
    ensures
        unique_at(s, p as int),
        s[p as int] == t,
{
    let w = choose|w: int| #[trigger] unique_at(s, w) && s[w] == t;
    lemma_entry_of_unique(s, w);
}

/// Appending a token to a sequence records it at the new position if it is
/// new to the sequence, and marks it `Multiple` otherwise; the other
/// entries stay.
pub proof fn lemma_symbol_table_push<T>(s: Seq<T>, x: T)
    requires
        s.len() < usize::MAX,
    ensures
        symbol_table(s.push(x)) == symbol_table(s).insert(
            x,
            if s.contains(x) {
                Reference::Multiple
            } else {
                Reference::Confirmed(s.len() as usize)
            },
        ),
{
    let s2 = s.push(x);
    let v = if s.contains(x) {
        Reference::Multiple
    } else {
        Reference::Confirmed(s.len() as usize)
    };
    let lhs = symbol_table(s2);
    let rhs = symbol_table(s).insert(x, v);
    assert(s2[s.len() as int] == x);
    assert forall|t: T| lhs.contains_key(t) <==> rhs.contains_key(t) by {
        if s2.contains(t) {
            let i = choose|i: int| 0 <= i < s2.len() && s2[i] == t;
            if i < s.len() {
                assert(s[i] == t);
            }
        }
        if s.contains(t) {
            let i = choose|i: int| 0 <= i < s.len() && s[i] == t;
            assert(s2[i] == t);
        }
    }
    assert forall|t: T| lhs.contains_key(t) implies lhs[t] == rhs[t] by {
        if t == x {
            if s.contains(x) {
                let i = choose|i: int| 0 <= i < s.len() && s[i] == x;
                assert(s2[i] == x);
                if occurs_once(s2, x) {
                    let p = choose|p: int| #[trigger] unique_at(s2, p) && s2[p] == x;
                    assert(s2[i] == s2[p]);
                    assert(s2[s.len() as int] == s2[p]);
                    assert(false);
                }
            } else {
                assert forall|q: int| 0 <= q < s2.len() && #[trigger] s2[q] == s2[s.len() as int]
                    implies q == s.len() by {
                    if q < s.len() {
                        assert(s[q] == x);
                    }
                }
                assert(unique_at(s2, s.len() as int));
                lemma_entry_of_unique(s2, s.len() as int);
            }
        } else {
            assert(s.contains(t));
            if occurs_once(s, t) {
                let p = choose|p: int| #[trigger] unique_at(s, p) && s[p] == t;
                lemma_entry_of_unique(s, p);
                assert forall|q: int| 0 <= q < s2.len() && #[trigger] s2[q] == s2[p] implies q
                    == p by {
                    if q < s.len() {
                        assert(s[q] == s[p]);
                    }
                }
                assert(unique_at(s2, p));
                lemma_entry_of_unique(s2, p);
            } else {
                if occurs_once(s2, t) {
                    let p = choose|p: int| #[trigger] unique_at(s2, p) && s2[p] == t;
                    assert(p < s.len());
                    assert forall|q: int| 0 <= q < s.len() && #[trigger] s[q] == s[p] implies q
                        == p by {
                        assert(s2[q] == s2[p]);
                    }
                    assert(unique_at(s, p));
                    assert(false);
                }
            }
        }
    }
    assert(lhs =~= rhs);
}

} // verus!
