//! FIRST analysis: which terminals can begin a derivation.
//!
//! The table has one row per non-terminal over the terminal alphabet and is
//! characterized exactly as the least table closed under "the FIRST set of
//! an alternative feeds the FIRST set of its left-hand side", where the
//! FIRST set of a symbol sequence scans left to right and stops at the first
//! symbol that is not nullable. The computation is a monotone fixed point.

use vstd::prelude::*;

use crate::bitrows::{
    count_true, grid_count, grid_dims, grid_le, grid_view, lemma_grid_count_bounds,
    lemma_grid_count_update, merged_row,
};
use crate::symbols::{prods_wf, sym_in_bounds, Production, Symbol};
use crate::nullable::{all_nullable_from, all_nullable_range, sym_nullable};

verus! {

/// Whether terminal `t` is in the FIRST set of one symbol, under a FIRST
/// table for the non-terminals.
pub open spec fn sym_first(first: Seq<Seq<bool>>, s: Symbol, t: int) -> bool {
    match s {
        Symbol::Terminal(u) => u == t,
        Symbol::NonTerminal(a) => first[a as int][t],
    }
}

/// Whether terminal `t` is in the FIRST set of the suffix `rhs[k..]`: it is
/// in the FIRST set of some symbol of the suffix, every symbol before which
/// (within the suffix) is nullable.
pub open spec fn seq_first_from(
    nul: Seq<bool>,
    first: Seq<Seq<bool>>,
    rhs: Seq<Symbol>,
    k: int,
    t: int,
) -> bool
    decreases rhs.len() - k,
{
    if k < 0 || k >= rhs.len() {
        false
    } else {
        sym_first(first, rhs[k], t) || (sym_nullable(nul, rhs[k]) && seq_first_from(
            nul,
            first,
            rhs,
            k + 1,
            t,
        ))
    }
}

/// Midpoint of a left-to-right FIRST scan of `rhs[from..]`: the bits
/// accumulated so far, joined with what the unscanned suffix still adds,
/// are exactly the suffix's FIRST set.
pub open spec fn first_scan_inv(
    nul: Seq<bool>,
    g: Seq<Seq<bool>>,
    rhs: Seq<Symbol>,
    from: int,
    k: int,
    n_t: int,
    acc: Seq<bool>,
) -> bool {
    forall|t: int|
        0 <= t < n_t ==> seq_first_from(nul, g, rhs, from, t) == (acc[t] || seq_first_from(
            nul,
            g,
            rhs,
            k,
            t,
        ))
}

/// Closure of one production: its alternative's FIRST set is inside its
/// left-hand side's row.
pub open spec fn prod_first_closed(
    prods: Seq<Production>,
    nul: Seq<bool>,
    first: Seq<Seq<bool>>,
    n_t: int,
    i: int,
) -> bool {
    forall|t: int|
        0 <= t < n_t && #[trigger] seq_first_from(nul, first, prods[i].rhs@, 0, t)
            ==> first[prods[i].lhs as int][t]
}

/// The table is closed under every production.
pub open spec fn first_closed(
    prods: Seq<Production>,
    nul: Seq<bool>,
    first: Seq<Seq<bool>>,
    n_t: int,
) -> bool {
    forall|i: int| 0 <= i < prods.len() ==> #[trigger] prod_first_closed(prods, nul, first, n_t, i)
}

/// The table is exactly the least closed one.
pub open spec fn first_exact(
    prods: Seq<Production>,
    nul: Seq<bool>,
    first: Seq<Seq<bool>>,
    n_t: int,
    n_nt: int,
) -> bool {
    &&& grid_dims(first, n_nt, n_t)
    &&& first_closed(prods, nul, first, n_t)
    &&& forall|cand: Seq<Seq<bool>>|
        grid_dims(cand, n_nt, n_t) && #[trigger] first_closed(prods, nul, cand, n_t) ==> grid_le(
            first,
            cand,
        )
}

/// Growing the FIRST table keeps a suffix's FIRST membership.
pub proof fn lemma_seq_first_mono(
    nul: Seq<bool>,
    a: Seq<Seq<bool>>,
    b: Seq<Seq<bool>>,
    rhs: Seq<Symbol>,
    k: int,
    t: int,
    n_t: int,
    n_nt: int,
)
    requires
        grid_dims(a, n_nt, n_t),
        grid_dims(b, n_nt, n_t),
        grid_le(a, b),
        0 <= t < n_t,
        forall|j: int| 0 <= j < rhs.len() ==> sym_in_bounds(#[trigger] rhs[j], n_t, n_nt),
        seq_first_from(nul, a, rhs, k, t),
    ensures
        seq_first_from(nul, b, rhs, k, t),
    decreases rhs.len() - k,
{
    if 0 <= k < rhs.len() {
        if !sym_first(a, rhs[k], t) || (sym_nullable(nul, rhs[k]) && seq_first_from(
            nul,
            a,
            rhs,
            k + 1,
            t,
        )) {
            if sym_nullable(nul, rhs[k]) && seq_first_from(nul, a, rhs, k + 1, t) {
                lemma_seq_first_mono(nul, a, b, rhs, k + 1, t, n_t, n_nt);
            }
        }
    }
}

/// The FIRST set of the suffix `rhs[from..]`, as a row over the terminals,
/// together with whether the whole suffix is nullable.
pub fn first_from_bits(
    nul: &Vec<bool>,
    first: &Vec<Vec<bool>>,
    rhs: &Vec<Symbol>,
    from: usize,
    n_t: usize,
) -> (res: (Vec<bool>, bool))
    requires
        from <= rhs@.len(),
        grid_dims(grid_view(first@), nul@.len() as int, n_t as int),
        forall|j: int|
            0 <= j < rhs@.len() ==> sym_in_bounds(#[trigger] rhs@[j], n_t as int, nul@.len() as int),
    ensures
        res.0@.len() == n_t,
        forall|t: int|
            0 <= t < n_t ==> res.0@[t] == seq_first_from(
                nul@,
                grid_view(first@),
                rhs@,
                from as int,
                t,
            ),
        res.1 == all_nullable_from(nul@, rhs@, from as int),
{
    let ghost g = grid_view(first@);
    let mut acc = crate::bitrows::false_row(n_t);
    let mut k: usize = from;
    proof {
        assert(first_scan_inv(nul@, g, rhs@, from as int, from as int, n_t as int, acc@));
    }
    while k < rhs.len()
        invariant
            from <= k <= rhs@.len(),
            acc@.len() == n_t,
            grid_dims(g, nul@.len() as int, n_t as int),
            g == grid_view(first@),
            forall|j: int|
                0 <= j < rhs@.len() ==> sym_in_bounds(
                    #[trigger] rhs@[j],
                    n_t as int,
                    nul@.len() as int,
                ),
            all_nullable_range(nul@, rhs@, from as int, k as int),
            first_scan_inv(nul@, g, rhs@, from as int, k as int, n_t as int, acc@),
        decreases rhs@.len() - k,
    {
        let ghost acc_old = acc@;
        match rhs[k] {
            Symbol::Terminal(u) => {
                acc.set(u, true);
                proof {
                    assert(!sym_nullable(nul@, rhs@[k as int]));
                    assert forall|t: int| 0 <= t < n_t implies acc@[t] == seq_first_from(
                        nul@,
                        g,
                        rhs@,
                        from as int,
                        t,
                    ) by {
                        assert(first_scan_inv(nul@, g, rhs@, from as int, k as int, n_t as int, acc_old));
                        assert(seq_first_from(nul@, g, rhs@, from as int, t) == (acc_old[t]
                            || seq_first_from(nul@, g, rhs@, k as int, t)));
                        assert(seq_first_from(nul@, g, rhs@, k as int, t) == (u == t));
                        if t != u {
                            assert(acc@[t] == acc_old[t]);
                        }
                    }
                    assert(!all_nullable_from(nul@, rhs@, from as int));
                }
                return (acc, false);
            },
            Symbol::NonTerminal(b) => {
                proof {
                    assert(g[b as int] == first@[b as int]@);
                    assert(g[b as int].len() == n_t as int);
                }
                let (merged, _ch) = merged_row(&acc, &first[b]);
                acc = merged;
                proof {
                    assert(first@[b as int]@ == g[b as int]);
                    assert forall|t: int| 0 <= t < n_t implies acc@[t] == (acc_old[t]
                        || g[b as int][t]) by {
                        assert(acc@[t] == (acc_old[t] || (t < first@[b as int]@.len()
                            && first@[b as int]@[t])));
                    }
                }
                if !nul[b] {
                    proof {
                        assert(!sym_nullable(nul@, rhs@[k as int]));
                        assert forall|t: int| 0 <= t < n_t implies acc@[t] == seq_first_from(
                            nul@,
                            g,
                            rhs@,
                            from as int,
                            t,
                        ) by {
                            assert(seq_first_from(nul@, g, rhs@, from as int, t) == (acc_old[t]
                                || seq_first_from(nul@, g, rhs@, k as int, t)));
                            assert(seq_first_from(nul@, g, rhs@, k as int, t) == g[b as int][t]);
                            assert(acc@[t] == (acc_old[t] || g[b as int][t]));
                        }
                        assert(!all_nullable_from(nul@, rhs@, from as int));
                    }
                    return (acc, false);
                }
                proof {
                    assert(sym_nullable(nul@, rhs@[k as int]));
                    assert forall|t: int| 0 <= t < n_t implies seq_first_from(
                        nul@,
                        g,
                        rhs@,
                        from as int,
                        t,
                    ) == (acc@[t] || seq_first_from(nul@, g, rhs@, k as int + 1, t)) by {
                        assert(seq_first_from(nul@, g, rhs@, from as int, t) == (acc_old[t]
                            || seq_first_from(nul@, g, rhs@, k as int, t)));
                        assert(seq_first_from(nul@, g, rhs@, k as int, t) == (g[b as int][t] || (
                        sym_nullable(nul@, rhs@[k as int]) && seq_first_from(
                            nul@,
                            g,
                            rhs@,
                            k as int + 1,
                            t,
                        ))));
                        assert(acc@[t] == (acc_old[t] || g[b as int][t]));
                    }
                }
            },
        }
        let ghost k_prev = k as int;
        k = k + 1;
        proof {
            assert(k as int == k_prev + 1);
            assert(first_scan_inv(nul@, g, rhs@, from as int, k_prev + 1, n_t as int, acc@)) by {
                assert forall|t: int| 0 <= t < n_t implies seq_first_from(
                    nul@,
                    g,
                    rhs@,
                    from as int,
                    t,
                ) == (acc@[t] || seq_first_from(nul@, g, rhs@, k_prev + 1, t)) by {
                    assert(seq_first_from(nul@, g, rhs@, from as int, t) == (acc@[t]
                        || seq_first_from(nul@, g, rhs@, k_prev + 1, t)));
                }
            }
            assert(first_scan_inv(nul@, g, rhs@, from as int, k as int, n_t as int, acc@));
        }
    }
    proof {
        assert forall|t: int| 0 <= t < n_t implies acc@[t] == seq_first_from(
            nul@,
            g,
            rhs@,
            from as int,
            t,
        ) by {
            assert(first_scan_inv(nul@, g, rhs@, from as int, k as int, n_t as int, acc@));
            assert(seq_first_from(nul@, g, rhs@, from as int, t) == (acc@[t] || seq_first_from(
                nul@,
                g,
                rhs@,
                k as int,
                t,
            )));
            assert(!seq_first_from(nul@, g, rhs@, k as int, t));
        }
    }
    (acc, true)
}

/// One full scan of the productions; unions each alternative's FIRST set
/// into its left-hand side's row.
fn first_pass(
    first: &mut Vec<Vec<bool>>,
    nul: &Vec<bool>,
    prods: &Vec<Production>,
    n_t: usize,
) -> (changed: bool)
    requires
        grid_dims(grid_view(old(first)@), nul@.len() as int, n_t as int),
        prods_wf(prods@, n_t as int, nul@.len() as int),
    ensures
        grid_dims(grid_view(final(first)@), nul@.len() as int, n_t as int),
        grid_le(grid_view(old(first)@), grid_view(final(first)@)),
        changed ==> grid_count(grid_view(final(first)@)) > grid_count(grid_view(old(first)@)),
        !changed ==> grid_view(final(first)@) == grid_view(old(first)@) && first_closed(
            prods@,
            nul@,
            grid_view(final(first)@),
            n_t as int,
        ),
        forall|cand: Seq<Seq<bool>>|
            grid_dims(cand, nul@.len() as int, n_t as int) && #[trigger] first_closed(
                prods@,
                nul@,
                cand,
                n_t as int,
            ) && grid_le(grid_view(old(first)@), cand) ==> grid_le(
                grid_view(final(first)@),
                cand,
            ),
{
    let ghost n_nt = nul@.len() as int;
    let ghost g0 = grid_view(first@);
    let mut changed = false;
    let mut i: usize = 0;
    while i < prods.len()
        invariant
            i <= prods@.len(),
            prods_wf(prods@, n_t as int, n_nt),
            n_nt == nul@.len() as int,
            grid_dims(g0, n_nt, n_t as int),
            grid_dims(grid_view(first@), n_nt, n_t as int),
            grid_le(g0, grid_view(first@)),
            changed ==> grid_count(grid_view(first@)) > grid_count(g0),
            !changed ==> grid_view(first@) == g0 && forall|p: int|
                0 <= p < i ==> #[trigger] prod_first_closed(
                    prods@,
                    nul@,
                    grid_view(first@),
                    n_t as int,
                    p,
                ),
            forall|cand: Seq<Seq<bool>>|
                grid_dims(cand, n_nt, n_t as int) && #[trigger] first_closed(
                    prods@,
                    nul@,
                    cand,
                    n_t as int,
                ) && grid_le(g0, cand) ==> grid_le(grid_view(first@), cand),
        decreases prods@.len() - i,
    {
        let ghost gcur = grid_view(first@);
        let lhs = prods[i].lhs;
        let (bits, _all) = first_from_bits(nul, first, &prods[i].rhs, 0, n_t);
        proof {
            assert(gcur[lhs as int] == first@[lhs as int]@);
            assert(gcur[lhs as int].len() == n_t as int);
        }
        let (newrow, ch) = merged_row(&first[lhs], &bits);
        if ch {
            let ghost oldrow = first@[lhs as int]@;
            first.set(lhs, newrow);
            changed = true;
            proof {
                let gnew = grid_view(first@);
                assert(gnew =~= gcur.update(lhs as int, newrow@));
                lemma_grid_count_update(gcur, lhs as int, newrow@);
                if grid_count(gcur) > grid_count(g0) {
                } else {
                    crate::bitrows::lemma_grid_count_le(g0, gcur, n_nt, n_t as int);
                }
                assert(grid_count(gnew) > grid_count(g0));
                assert(grid_dims(gnew, n_nt, n_t as int));
                assert(grid_le(g0, gnew)) by {
                    assert forall|a: int, t: int|
                        0 <= a < g0.len() && 0 <= t < g0[a].len() && #[trigger] g0[a][t]
                        implies gnew[a][t] by {
                        assert(gcur[a][t]);
                        if a == lhs as int {
                            assert(newrow@[t]);
                        }
                    }
                }
                assert forall|cand: Seq<Seq<bool>>|
                    grid_dims(cand, n_nt, n_t as int) && #[trigger] first_closed(
                        prods@,
                        nul@,
                        cand,
                        n_t as int,
                    ) && grid_le(g0, cand) implies grid_le(gnew, cand) by {
                    assert(grid_le(gcur, cand));
                    assert forall|a: int, t: int|
                        0 <= a < gnew.len() && 0 <= t < gnew[a].len() && #[trigger] gnew[a][t]
                        implies cand[a][t] by {
                        if a == lhs as int && !gcur[a][t] {
                            assert(bits@[t]);
                            assert(seq_first_from(nul@, gcur, prods@[i as int].rhs@, 0, t));
                            lemma_seq_first_mono(
                                nul@,
                                gcur,
                                cand,
                                prods@[i as int].rhs@,
                                0,
                                t,
                                n_t as int,
                                n_nt,
                            );
                            assert(prod_first_closed(prods@, nul@, cand, n_t as int, i as int));
                        } else {
                            assert(gcur[a][t]);
                        }
                    }
                }
            }
        } else {
            proof {
                assert forall|t: int|
                    0 <= t < n_t && #[trigger] seq_first_from(
                        nul@,
                        grid_view(first@),
                        prods@[i as int].rhs@,
                        0,
                        t,
                    ) implies grid_view(first@)[prods@[i as int].lhs as int][t] by {
                    assert(bits@[t]);
                    assert(first@[lhs as int]@[t]);
                }
                assert(prod_first_closed(prods@, nul@, grid_view(first@), n_t as int, i as int));
            }
        }
        i = i + 1;
    }
    changed
}

/// The FIRST table of the grammar: the least closed table over its
/// non-terminals, given its nullable table.
pub fn compute_first(n_nt: usize, n_t: usize, prods: &Vec<Production>, nul: &Vec<bool>) -> (first:
    Vec<Vec<bool>>)
    requires
        nul@.len() == n_nt,
        prods_wf(prods@, n_t as int, n_nt as int),
    ensures
        first_exact(prods@, nul@, grid_view(first@), n_t as int, n_nt as int),
{
    let mut first: Vec<Vec<bool>> = Vec::new();
    let mut r: usize = 0;
    while r < n_nt
        invariant
            r <= n_nt,
            first@.len() == r,
            forall|a: int|
                0 <= a < r ==> (#[trigger] first@[a]@).len() == n_t && count_true(first@[a]@) == 0
                    && forall|t: int| 0 <= t < n_t ==> !first@[a]@[t],
        decreases n_nt - r,
    {
        first.push(crate::bitrows::false_row(n_t));
        r = r + 1;
    }
    proof {
        assert(grid_dims(grid_view(first@), n_nt as int, n_t as int));
        lemma_grid_count_zero(grid_view(first@));
    }
    loop
        invariant
            nul@.len() == n_nt,
            prods_wf(prods@, n_t as int, n_nt as int),
            grid_dims(grid_view(first@), n_nt as int, n_t as int),
            forall|cand: Seq<Seq<bool>>|
                grid_dims(cand, n_nt as int, n_t as int) && #[trigger] first_closed(
                    prods@,
                    nul@,
                    cand,
                    n_t as int,
                ) ==> grid_le(grid_view(first@), cand),
        ensures
            first_exact(prods@, nul@, grid_view(first@), n_t as int, n_nt as int),
        decreases n_nt * n_t - grid_count(grid_view(first@)),
    {
        proof {
            lemma_grid_count_bounds(grid_view(first@), n_nt as int, n_t as int);
        }
        let changed = first_pass(&mut first, nul, prods, n_t);
        proof {
            lemma_grid_count_bounds(grid_view(first@), n_nt as int, n_t as int);
        }
        if !changed {
            break;
        }
    }
    first
}

proof fn lemma_grid_count_zero(g: Seq<Seq<bool>>)
    requires
        forall|a: int| 0 <= a < g.len() ==> count_true(#[trigger] g[a]) == 0,
    ensures
        grid_count(g) == 0,
    decreases g.len(),
{
    if g.len() > 0 {
        lemma_grid_count_zero(g.drop_last());
    }
}

} // verus!
