//! Nullable analysis: which non-terminals can derive the empty string.
//!
//! The table is characterized exactly as the least assignment closed under
//! the rule "a non-terminal with an alternative made only of nullable
//! symbols is nullable"; a terminal is never nullable and an empty
//! alternative is nullable. The computation is a monotone fixed point over
//! repeated full scans of the productions.

use vstd::prelude::*;

use crate::bitrows::{count_true, lemma_count_true_bounds, row_le};
use crate::symbols::{nt_in_bounds, prods_nt_wf, Production, Symbol};

verus! {

/// Whether a single symbol is nullable under a nullable assignment for the
/// non-terminals.
pub open spec fn sym_nullable(nul: Seq<bool>, s: Symbol) -> bool {
    match s {
        Symbol::Terminal(_) => false,
        Symbol::NonTerminal(a) => nul[a as int],
    }
}

/// Whether every symbol of `rhs[from..to]` is nullable.
pub open spec fn all_nullable_range(nul: Seq<bool>, rhs: Seq<Symbol>, from: int, to: int) -> bool {
    forall|j: int| from <= j < to ==> sym_nullable(nul, #[trigger] rhs[j])
}

/// Whether every symbol of the suffix `rhs[from..]` is nullable (vacuously
/// true of the empty suffix).
pub open spec fn all_nullable_from(nul: Seq<bool>, rhs: Seq<Symbol>, from: int) -> bool {
    all_nullable_range(nul, rhs, from, rhs.len() as int)
}

/// The assignment is closed under the productions: an alternative of
/// nullable symbols makes its left-hand side nullable.
pub open spec fn nullable_closed(prods: Seq<Production>, nul: Seq<bool>) -> bool {
    forall|i: int|
        #![trigger prods[i]]
        0 <= i < prods.len() && all_nullable_from(nul, prods[i].rhs@, 0) ==> nul[prods[i].lhs as int]
}

/// `a` marks nullable only what `b` marks nullable.
pub open spec fn nullable_le(a: Seq<bool>, b: Seq<bool>) -> bool {
    row_le(a, b)
}

/// The table is exactly the least closed assignment.
pub open spec fn nullable_exact(prods: Seq<Production>, n_nt: int, nul: Seq<bool>) -> bool {
    &&& nul.len() == n_nt
    &&& nullable_closed(prods, nul)
    &&& forall|cand: Seq<bool>|
        cand.len() == n_nt && #[trigger] nullable_closed(prods, cand) ==> nullable_le(nul, cand)
}

/// Growing the assignment keeps a nullable alternative nullable.
pub proof fn lemma_all_nullable_mono(a: Seq<bool>, b: Seq<bool>, rhs: Seq<Symbol>, from: int)
    requires
        a.len() == b.len(),
        nullable_le(a, b),
        all_nullable_from(a, rhs, from),
        forall|j: int| from <= j < rhs.len() ==> nt_in_bounds(#[trigger] rhs[j], a.len() as int),
    ensures
        all_nullable_from(b, rhs, from),
{
    assert forall|j: int| from <= j < rhs.len() implies sym_nullable(b, #[trigger] rhs[j]) by {
        assert(sym_nullable(a, rhs[j]));
    }
}

/// Whether every symbol of `rhs[from..]` is nullable, by scan.
pub fn rhs_all_nullable(nul: &Vec<bool>, rhs: &Vec<Symbol>, from: usize) -> (r: bool)
    requires
        from <= rhs@.len(),
        forall|j: int| 0 <= j < rhs@.len() ==> nt_in_bounds(#[trigger] rhs@[j], nul@.len() as int),
    ensures
        r == all_nullable_from(nul@, rhs@, from as int),
{
    let mut k: usize = from;
    while k < rhs.len()
        invariant
            from <= k <= rhs@.len(),
            forall|j: int|
                0 <= j < rhs@.len() ==> nt_in_bounds(#[trigger] rhs@[j], nul@.len() as int),
            all_nullable_range(nul@, rhs@, from as int, k as int),
        decreases rhs@.len() - k,
    {
        match rhs[k] {
            Symbol::Terminal(_) => {
                assert(!sym_nullable(nul@, rhs@[k as int]));
                return false;
            },
            Symbol::NonTerminal(a) => {
                if !nul[a] {
                    assert(!sym_nullable(nul@, rhs@[k as int]));
                    return false;
                }
            },
        }
        k = k + 1;
    }
    true
}

/// One full scan of the productions; marks newly nullable left-hand sides.
fn nullable_pass(nul: &mut Vec<bool>, prods: &Vec<Production>) -> (changed: bool)
    requires
        prods_nt_wf(prods@, old(nul)@.len() as int),
    ensures
        final(nul)@.len() == old(nul)@.len(),
        nullable_le(old(nul)@, final(nul)@),
        changed ==> count_true(final(nul)@) > count_true(old(nul)@),
        !changed ==> final(nul)@ == old(nul)@ && nullable_closed(prods@, final(nul)@),
        forall|cand: Seq<bool>|
            cand.len() == old(nul)@.len() && #[trigger] nullable_closed(prods@, cand)
                && nullable_le(old(nul)@, cand) ==> nullable_le(final(nul)@, cand),
{
    let ghost nul0 = nul@;
    let n_nt = nul.len();
    let mut changed = false;
    let mut i: usize = 0;
    while i < prods.len()
        invariant
            i <= prods@.len(),
            prods_nt_wf(prods@, nul0.len() as int),
            nul@.len() == nul0.len(),
            nullable_le(nul0, nul@),
            changed ==> count_true(nul@) > count_true(nul0),
            !changed ==> nul@ == nul0 && forall|p: int|
                #![trigger prods@[p]]
                0 <= p < i && all_nullable_from(nul@, prods@[p].rhs@, 0) ==> nul@[prods@[p].lhs as int],
            forall|cand: Seq<bool>|
                cand.len() == nul0.len() && #[trigger] nullable_closed(prods@, cand)
                    && nullable_le(nul0, cand) ==> nullable_le(nul@, cand),
        decreases prods@.len() - i,
    {
        let lhs = prods[i].lhs;
        if !nul[lhs] {
            if rhs_all_nullable(nul, &prods[i].rhs, 0) {
                let ghost before = nul@;
                nul.set(lhs, true);
                proof {
                    crate::bitrows::lemma_count_true_le(nul0, before);
                    assert(count_true(before.update(lhs as int, true)) == count_true(before) + 1)
                        by {
                        lemma_count_set_bit(before, lhs as int);
                    }
                    assert forall|cand: Seq<bool>|
                        cand.len() == nul0.len() && #[trigger] nullable_closed(prods@, cand)
                            && nullable_le(nul0, cand) implies nullable_le(nul@, cand) by {
                        assert(nullable_le(before, cand));
                        lemma_all_nullable_mono(before, cand, prods@[i as int].rhs@, 0);
                        assert(cand[prods@[i as int].lhs as int]);
                        assert forall|t: int| 0 <= t < nul@.len() && #[trigger] nul@[t]
                            implies cand[t] by {
                            if t != lhs as int {
                                assert(before[t]);
                            }
                        }
                    }
                }
                changed = true;
            }
        }
        i = i + 1;
    }
    changed
}

proof fn lemma_count_set_bit(s: Seq<bool>, j: int)
    requires
        0 <= j < s.len(),
        !s[j],
    ensures
        count_true(s.update(j, true)) == count_true(s) + 1,
    decreases s.len(),
{
    let s2 = s.update(j, true);
    if j == s.len() - 1 {
        assert(s2.drop_last() =~= s.drop_last());
    } else {
        assert(s2.drop_last() =~= s.drop_last().update(j, true));
        assert(s2.last() == s.last());
        lemma_count_set_bit(s.drop_last(), j);
    }
}

/// The nullable table of the grammar: the least closed assignment over its
/// non-terminals.
pub fn compute_nullable(n_nt: usize, prods: &Vec<Production>) -> (nul: Vec<bool>)
    requires
        prods_nt_wf(prods@, n_nt as int),
    ensures
        nullable_exact(prods@, n_nt as int, nul@),
{
    let mut nul = crate::bitrows::false_row(n_nt);
    proof {
        assert forall|cand: Seq<bool>|
            cand.len() == n_nt && #[trigger] nullable_closed(prods@, cand) implies nullable_le(
            nul@,
            cand,
        ) by {}
    }
    loop
        invariant
            nul@.len() == n_nt,
            prods_nt_wf(prods@, n_nt as int),
            forall|cand: Seq<bool>|
                cand.len() == n_nt && #[trigger] nullable_closed(prods@, cand) ==> nullable_le(
                    nul@,
                    cand,
                ),
        ensures
            nullable_exact(prods@, n_nt as int, nul@),
        decreases n_nt - count_true(nul@),
    {
        proof {
            lemma_count_true_bounds(nul@);
        }
        let changed = nullable_pass(&mut nul, prods);
        proof {
            lemma_count_true_bounds(nul@);
        }
        if !changed {
            break;
        }
    }
    nul
}

} // verus!
