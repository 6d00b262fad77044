//! FOLLOW analysis: which terminals can immediately follow a non-terminal
//! in some sentential form reachable from the start symbol.
//!
//! Rows are over the terminal alphabet plus one extra column, the
//! end-of-input marker. The table is characterized exactly as the least
//! table that holds the marker in the start symbol's row and is closed
//! under every occurrence of a non-terminal in a right-hand side: the FIRST
//! set of the suffix after the occurrence feeds its row, and when that
//! suffix is nullable so does the whole row of the producing left-hand
//! side.

use vstd::prelude::*;

use crate::bitrows::{
    grid_count, grid_dims, grid_le, grid_view, lemma_grid_count_bounds, lemma_grid_count_update,
    merged_row,
};
use crate::first::{first_from_bits, seq_first_from};
use crate::nullable::all_nullable_from;
use crate::symbols::{is_terminal, prods_wf, sym_index, Production, Symbol};

verus! {

/// Closure at one occurrence: production `i`, position `k` of its
/// right-hand side. Nothing is demanded where the symbol there is a
/// terminal.
pub open spec fn pos_follow_closed(
    prods: Seq<Production>,
    nul: Seq<bool>,
    first: Seq<Seq<bool>>,
    follow: Seq<Seq<bool>>,
    n_t: int,
    i: int,
    k: int,
) -> bool {
    !is_terminal(prods[i].rhs@[k]) ==> {
        let b = sym_index(prods[i].rhs@[k]);
        &&& forall|t: int|
            0 <= t < n_t && #[trigger] seq_first_from(nul, first, prods[i].rhs@, k + 1, t)
                ==> follow[b][t]
        &&& (all_nullable_from(nul, prods[i].rhs@, k + 1) ==> forall|u: int|
            0 <= u <= n_t && #[trigger] follow[prods[i].lhs as int][u] ==> follow[b][u])
    }
}

/// Closure at every position of one production.
pub open spec fn prod_follow_closed(
    prods: Seq<Production>,
    nul: Seq<bool>,
    first: Seq<Seq<bool>>,
    follow: Seq<Seq<bool>>,
    n_t: int,
    i: int,
) -> bool {
    forall|k: int|
        0 <= k < prods[i].rhs@.len() ==> #[trigger] pos_follow_closed(
            prods,
            nul,
            first,
            follow,
            n_t,
            i,
            k,
        )
}

/// Closure under every production (the start-symbol seed is stated apart).
pub open spec fn follow_rules_closed(
    prods: Seq<Production>,
    nul: Seq<bool>,
    first: Seq<Seq<bool>>,
    follow: Seq<Seq<bool>>,
    n_t: int,
) -> bool {
    forall|i: int|
        0 <= i < prods.len() ==> #[trigger] prod_follow_closed(prods, nul, first, follow, n_t, i)
}

/// The table is exactly the least one that seeds the end marker into the
/// start symbol's row and is closed under the rules.
pub open spec fn follow_exact(
    prods: Seq<Production>,
    nul: Seq<bool>,
    first: Seq<Seq<bool>>,
    follow: Seq<Seq<bool>>,
    n_t: int,
    n_nt: int,
    start: int,
) -> bool {
    &&& grid_dims(follow, n_nt, n_t + 1)
    &&& follow[start][n_t]
    &&& follow_rules_closed(prods, nul, first, follow, n_t)
    &&& forall|cand: Seq<Seq<bool>>|
        grid_dims(cand, n_nt, n_t + 1) && cand[start][n_t] && #[trigger] follow_rules_closed(
            prods,
            nul,
            first,
            cand,
            n_t,
        ) ==> grid_le(follow, cand)
}

/// One full scan of every occurrence in every production.
fn follow_pass(
    follow: &mut Vec<Vec<bool>>,
    nul: &Vec<bool>,
    first: &Vec<Vec<bool>>,
    prods: &Vec<Production>,
    n_t: usize,
) -> (changed: bool)
    requires
        n_t < usize::MAX,
        grid_dims(grid_view(first@), nul@.len() as int, n_t as int),
        grid_dims(grid_view(old(follow)@), nul@.len() as int, n_t as int + 1),
        prods_wf(prods@, n_t as int, nul@.len() as int),
    ensures
        grid_dims(grid_view(final(follow)@), nul@.len() as int, n_t as int + 1),
        grid_le(grid_view(old(follow)@), grid_view(final(follow)@)),
        changed ==> grid_count(grid_view(final(follow)@)) > grid_count(grid_view(old(follow)@)),
        !changed ==> grid_view(final(follow)@) == grid_view(old(follow)@) && follow_rules_closed(
            prods@,
            nul@,
            grid_view(first@),
            grid_view(final(follow)@),
            n_t as int,
        ),
        forall|cand: Seq<Seq<bool>>|
            grid_dims(cand, nul@.len() as int, n_t as int + 1) && #[trigger] follow_rules_closed(
                prods@,
                nul@,
                grid_view(first@),
                cand,
                n_t as int,
            ) && grid_le(grid_view(old(follow)@), cand) ==> grid_le(
                grid_view(final(follow)@),
                cand,
            ),
{
    let ghost n_nt = nul@.len() as int;
    let ghost gf = grid_view(first@);
    let ghost g0 = grid_view(follow@);
    let mut changed = false;
    let mut i: usize = 0;
    while i < prods.len()
        invariant
            i <= prods@.len(),
            n_t < usize::MAX,
            prods_wf(prods@, n_t as int, n_nt),
            n_nt == nul@.len() as int,
            gf == grid_view(first@),
            grid_dims(gf, n_nt, n_t as int),
            grid_dims(g0, n_nt, n_t as int + 1),
            grid_dims(grid_view(follow@), n_nt, n_t as int + 1),
            grid_le(g0, grid_view(follow@)),
            changed ==> grid_count(grid_view(follow@)) > grid_count(g0),
            !changed ==> grid_view(follow@) == g0 && forall|p: int|
                0 <= p < i ==> #[trigger] prod_follow_closed(
                    prods@,
                    nul@,
                    gf,
                    grid_view(follow@),
                    n_t as int,
                    p,
                ),
            forall|cand: Seq<Seq<bool>>|
                grid_dims(cand, n_nt, n_t as int + 1) && #[trigger] follow_rules_closed(
                    prods@,
                    nul@,
                    gf,
                    cand,
                    n_t as int,
                ) && grid_le(g0, cand) ==> grid_le(grid_view(follow@), cand),
        decreases prods@.len() - i,
    {
        let lhs = prods[i].lhs;
        let rhs_len = prods[i].rhs.len();
        let mut k: usize = 0;
        while k < rhs_len
            invariant
                k <= rhs_len,
                i < prods@.len(),
                rhs_len == prods@[i as int].rhs@.len(),
                lhs == prods@[i as int].lhs,
                n_t < usize::MAX,
                prods_wf(prods@, n_t as int, n_nt),
                n_nt == nul@.len() as int,
                gf == grid_view(first@),
                grid_dims(gf, n_nt, n_t as int),
                grid_dims(g0, n_nt, n_t as int + 1),
                grid_dims(grid_view(follow@), n_nt, n_t as int + 1),
                grid_le(g0, grid_view(follow@)),
                changed ==> grid_count(grid_view(follow@)) > grid_count(g0),
                !changed ==> grid_view(follow@) == g0 && (forall|p: int|
                    0 <= p < i ==> #[trigger] prod_follow_closed(
                        prods@,
                        nul@,
                        gf,
                        grid_view(follow@),
                        n_t as int,
                        p,
                    )) && (forall|q: int|
                    0 <= q < k ==> #[trigger] pos_follow_closed(
                        prods@,
                        nul@,
                        gf,
                        grid_view(follow@),
                        n_t as int,
                        i as int,
                        q,
                    )),
                forall|cand: Seq<Seq<bool>>|
                    grid_dims(cand, n_nt, n_t as int + 1) && #[trigger] follow_rules_closed(
                        prods@,
                        nul@,
                        gf,
                        cand,
                        n_t as int,
                    ) && grid_le(g0, cand) ==> grid_le(grid_view(follow@), cand),
            decreases rhs_len - k,
        {
            match prods[i].rhs[k] {
                Symbol::Terminal(_) => {
                    proof {
                        assert(is_terminal(prods@[i as int].rhs@[k as int]));
                        assert(pos_follow_closed(
                            prods@,
                            nul@,
                            gf,
                            grid_view(follow@),
                            n_t as int,
                            i as int,
                            k as int,
                        ));
                    }
                },
                Symbol::NonTerminal(b) => {
                    let ghost gcur = grid_view(follow@);
                    let (bits, allnul) = first_from_bits(nul, first, &prods[i].rhs, k + 1, n_t);
                    proof {
                        assert(gcur[b as int] == follow@[b as int]@);
                        assert(gcur[b as int].len() == n_t as int + 1);
                    }
                    let (nr1, ch1) = merged_row(&follow[b], &bits);
                    if ch1 {
                        follow.set(b, nr1);
                        changed = true;
                        proof {
                            let gnew = grid_view(follow@);
                            assert(gnew =~= gcur.update(b as int, nr1@));
                            lemma_grid_count_update(gcur, b as int, nr1@);
                            if grid_count(gcur) > grid_count(g0) {
                            } else {
                                crate::bitrows::lemma_grid_count_le(
                                    g0,
                                    gcur,
                                    n_nt,
                                    n_t as int + 1,
                                );
                            }
                            assert(grid_le(g0, gnew)) by {
                                assert forall|a: int, u: int|
                                    0 <= a < g0.len() && 0 <= u < g0[a].len() && #[trigger] g0[a][u]
                                    implies gnew[a][u] by {
                                    assert(gcur[a][u]);
                                    if a == b as int {
                                        assert(nr1@[u]);
                                    }
                                }
                            }
                            assert forall|cand: Seq<Seq<bool>>|
                                grid_dims(cand, n_nt, n_t as int + 1)
                                    && #[trigger] follow_rules_closed(
                                    prods@,
                                    nul@,
                                    gf,
                                    cand,
                                    n_t as int,
                                ) && grid_le(g0, cand) implies grid_le(gnew, cand) by {
                                assert(grid_le(gcur, cand));
                                assert(prod_follow_closed(prods@, nul@, gf, cand, n_t as int, i as int));
                                assert(pos_follow_closed(
                                    prods@,
                                    nul@,
                                    gf,
                                    cand,
                                    n_t as int,
                                    i as int,
                                    k as int,
                                ));
                                assert forall|a: int, u: int|
                                    0 <= a < gnew.len() && 0 <= u < gnew[a].len()
                                        && #[trigger] gnew[a][u] implies cand[a][u] by {
                                    if a == b as int && !gcur[a][u] {
                                        assert(nr1@[u]);
                                        assert(u < n_t && bits@[u]);
                                        assert(seq_first_from(
                                            nul@,
                                            gf,
                                            prods@[i as int].rhs@,
                                            k as int + 1,
                                            u,
                                        ));
                                    } else {
                                        assert(gcur[a][u]);
                                    }
                                }
                            }
                        }
                    }
                    let ghost gmid = grid_view(follow@);
                    if allnul {
                        proof {
                            assert(gmid[lhs as int] == follow@[lhs as int]@);
                            assert(gmid[b as int] == follow@[b as int]@);
                            assert(gmid[lhs as int].len() == n_t as int + 1);
                            assert(gmid[b as int].len() == n_t as int + 1);
                        }
                        let (nr2, ch2) = merged_row(&follow[b], &follow[lhs]);
                        if ch2 {
                            follow.set(b, nr2);
                            changed = true;
                            proof {
                                let gnew = grid_view(follow@);
                                assert(gnew =~= gmid.update(b as int, nr2@));
                                lemma_grid_count_update(gmid, b as int, nr2@);
                                if grid_count(gmid) > grid_count(g0) {
                                } else {
                                    crate::bitrows::lemma_grid_count_le(
                                        g0,
                                        gmid,
                                        n_nt,
                                        n_t as int + 1,
                                    );
                                }
                                assert(grid_le(g0, gnew)) by {
                                    assert forall|a: int, u: int|
                                        0 <= a < g0.len() && 0 <= u < g0[a].len()
                                            && #[trigger] g0[a][u] implies gnew[a][u] by {
                                        assert(gmid[a][u]);
                                        if a == b as int {
                                            assert(nr2@[u]);
                                        }
                                    }
                                }
                                assert forall|cand: Seq<Seq<bool>>|
                                    grid_dims(cand, n_nt, n_t as int + 1)
                                        && #[trigger] follow_rules_closed(
                                        prods@,
                                        nul@,
                                        gf,
                                        cand,
                                        n_t as int,
                                    ) && grid_le(g0, cand) implies grid_le(gnew, cand) by {
                                    assert(grid_le(gmid, cand));
                                    assert(prod_follow_closed(
                                        prods@,
                                        nul@,
                                        gf,
                                        cand,
                                        n_t as int,
                                        i as int,
                                    ));
                                    assert(pos_follow_closed(
                                        prods@,
                                        nul@,
                                        gf,
                                        cand,
                                        n_t as int,
                                        i as int,
                                        k as int,
                                    ));
                                    assert forall|a: int, u: int|
                                        0 <= a < gnew.len() && 0 <= u < gnew[a].len()
                                            && #[trigger] gnew[a][u] implies cand[a][u] by {
                                        if a == b as int && !gmid[a][u] {
                                            assert(nr2@[u]);
                                            assert(gmid[lhs as int][u]);
                                            assert(cand[lhs as int][u]);
                                        } else {
                                            assert(gmid[a][u]);
                                        }
                                    }
                                }
                            }
                        } else {
                            proof {
                                assert forall|u: int|
                                    0 <= u <= n_t && #[trigger] grid_view(follow@)[lhs as int][u]
                                    implies grid_view(follow@)[b as int][u] by {
                                    assert(gmid[lhs as int][u]);
                                }
                            }
                        }
                    }
                    proof {
                        let gend = grid_view(follow@);
                        if !changed {
                            assert(gend == gcur);
                            assert(pos_follow_closed(
                                prods@,
                                nul@,
                                gf,
                                gend,
                                n_t as int,
                                i as int,
                                k as int,
                            )) by {
                                assert forall|t: int|
                                    0 <= t < n_t && #[trigger] seq_first_from(
                                        nul@,
                                        gf,
                                        prods@[i as int].rhs@,
                                        k as int + 1,
                                        t,
                                    ) implies gend[b as int][t] by {
                                    assert(bits@[t]);
                                    assert(follow@[b as int]@[t]);
                                }
                            }
                        }
                    }
                },
            }
            k = k + 1;
        }
        i = i + 1;
    }
    changed
}

/// The FOLLOW table of the grammar: seeded with the end marker for the
/// start symbol, then the least closed table, given the nullable and FIRST
/// tables.
pub fn compute_follow(
    n_nt: usize,
    n_t: usize,
    prods: &Vec<Production>,
    nul: &Vec<bool>,
    first: &Vec<Vec<bool>>,
    start: usize,
) -> (follow: Vec<Vec<bool>>)
    requires
        n_t < usize::MAX,
        nul@.len() == n_nt,
        start < n_nt,
        grid_dims(grid_view(first@), n_nt as int, n_t as int),
        prods_wf(prods@, n_t as int, n_nt as int),
    ensures
        follow_exact(
            prods@,
            nul@,
            grid_view(first@),
            grid_view(follow@),
            n_t as int,
            n_nt as int,
            start as int,
        ),
{
    let ghost gf = grid_view(first@);
    let mut follow: Vec<Vec<bool>> = Vec::new();
    let mut r: usize = 0;
    while r < n_nt
        invariant
            r <= n_nt,
            n_t < usize::MAX,
            follow@.len() == r,
            forall|a: int|
                0 <= a < r ==> (#[trigger] follow@[a]@).len() == n_t + 1 && forall|u: int|
                    0 <= u < n_t + 1 ==> !follow@[a]@[u],
        decreases n_nt - r,
    {
        follow.push(crate::bitrows::false_row(n_t + 1));
        r = r + 1;
    }
    let mut seed = crate::bitrows::false_row(n_t + 1);
    seed.set(n_t, true);
    let ghost pre = grid_view(follow@);
    follow.set(start, seed);
    proof {
        let g1 = grid_view(follow@);
        assert(g1 =~= pre.update(start as int, seed@));
        assert(grid_dims(g1, n_nt as int, n_t as int + 1));
        assert(g1[start as int][n_t as int]);
        assert forall|cand: Seq<Seq<bool>>|
            grid_dims(cand, n_nt as int, n_t as int + 1) && cand[start as int][n_t as int]
                && #[trigger] follow_rules_closed(prods@, nul@, gf, cand, n_t as int)
            implies grid_le(g1, cand) by {
            assert forall|a: int, u: int|
                0 <= a < g1.len() && 0 <= u < g1[a].len() && #[trigger] g1[a][u]
                implies cand[a][u] by {
                if a == start as int {
                    assert(seed@[u]);
                    assert(u == n_t);
                } else {
                    assert(pre[a][u]);
                    assert(false);
                }
            }
        }
    }
    loop
        invariant
            n_t < usize::MAX,
            nul@.len() == n_nt,
            start < n_nt,
            gf == grid_view(first@),
            grid_dims(gf, n_nt as int, n_t as int),
            prods_wf(prods@, n_t as int, n_nt as int),
            grid_dims(grid_view(follow@), n_nt as int, n_t as int + 1),
            grid_view(follow@)[start as int][n_t as int],
            forall|cand: Seq<Seq<bool>>|
                grid_dims(cand, n_nt as int, n_t as int + 1) && cand[start as int][n_t as int]
                    && #[trigger] follow_rules_closed(prods@, nul@, gf, cand, n_t as int)
                    ==> grid_le(grid_view(follow@), cand),
        ensures
            follow_exact(
                prods@,
                nul@,
                gf,
                grid_view(follow@),
                n_t as int,
                n_nt as int,
                start as int,
            ),
        decreases n_nt * (n_t + 1) - grid_count(grid_view(follow@)),
    {
        proof {
            lemma_grid_count_bounds(grid_view(follow@), n_nt as int, n_t as int + 1);
        }
        let ghost gpre = grid_view(follow@);
        let changed = follow_pass(&mut follow, nul, first, prods, n_t);
        proof {
            lemma_grid_count_bounds(grid_view(follow@), n_nt as int, n_t as int + 1);
            assert(grid_view(follow@)[start as int][n_t as int]) by {
                assert(gpre[start as int][n_t as int]);
            }
        }
        if !changed {
            break;
        }
    }
    follow
}

} // verus!
