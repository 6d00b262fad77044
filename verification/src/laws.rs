//! Properties of the analyses, stated and proved over the exact tables of
//! a well-formed grammar.

use vstd::prelude::*;

use crate::bitrows::{grid_dims, grid_le, grid_view};
use crate::first::{first_closed, lemma_seq_first_mono, prod_first_closed, seq_first_from};
use crate::follow::{pos_follow_closed, prod_follow_closed};
use crate::grammar::ECFG;
use crate::nullable::{all_nullable_from, nullable_closed};
use crate::symbols::{is_terminal, sym_index, Production};

verus! {

/// Nullable monotonicity: a production whose right-hand side consists only
/// of nullable symbols (or is empty) makes its left-hand non-terminal
/// nullable.
pub proof fn lemma_nullable_monotonicity(g: ECFG, i: int)
    requires
        g.wf(),
        0 <= i < g.productions@.len(),
        all_nullable_from(g.nullable@, g.productions@[i].rhs@, 0),
    ensures
        g.nullable@[g.productions@[i].lhs as int],
{
    assert(nullable_closed(g.productions@, g.nullable@));
}

/// FIRST soundness: every terminal in a non-terminal's FIRST set is
/// contributed by some alternative of that non-terminal whose expansion
/// can begin with it.
pub proof fn lemma_first_soundness(g: ECFG, a: int, t: int)
    requires
        g.wf(),
        0 <= a < g.n_nt(),
        0 <= t < g.n_t(),
        grid_view(g.first@)[a][t],
    ensures
        exists|i: int|
            0 <= i < g.productions@.len() && (#[trigger] g.productions@[i]).lhs == a
                && seq_first_from(
                g.nullable@,
                grid_view(g.first@),
                g.productions@[i].rhs@,
                0,
                t,
            ),
{
    let gf = grid_view(g.first@);
    let prods = g.productions@;
    let nul = g.nullable@;
    let n_t = g.n_t();
    let n_nt = g.n_nt();
    // the table of justified entries: what some alternative explains
    let cand = Seq::new(
        n_nt as nat,
        |x: int|
            Seq::new(
                n_t as nat,
                |y: int|
                    exists|i: int|
                        0 <= i < prods.len() && (#[trigger] prods[i]).lhs == x && seq_first_from(
                            nul,
                            gf,
                            prods[i].rhs@,
                            0,
                            y,
                        ),
            ),
    );
    assert(grid_dims(cand, n_nt, n_t));
    assert(grid_le(cand, gf)) by {
        assert forall|x: int, y: int|
            0 <= x < cand.len() && 0 <= y < cand[x].len() && #[trigger] cand[x][y]
            implies gf[x][y] by {
            let i = choose|i: int|
                0 <= i < prods.len() && (#[trigger] prods[i]).lhs == x && seq_first_from(
                    nul,
                    gf,
                    prods[i].rhs@,
                    0,
                    y,
                );
            assert(prod_first_closed(prods, nul, gf, n_t, i));
        }
    }
    assert(first_closed(prods, nul, cand, n_t)) by {
        assert forall|i: int| 0 <= i < prods.len() implies #[trigger] prod_first_closed(
            prods,
            nul,
            cand,
            n_t,
            i,
        ) by {
            assert forall|y: int|
                0 <= y < n_t && #[trigger] seq_first_from(nul, cand, prods[i].rhs@, 0, y)
                implies cand[prods[i].lhs as int][y] by {
                lemma_seq_first_mono(nul, cand, gf, prods[i].rhs@, 0, y, n_t, n_nt);
                assert(seq_first_from(nul, gf, prods[i].rhs@, 0, y));
            }
        }
    }
    assert(grid_le(gf, cand));
    assert(cand[a][t]);
}

/// FOLLOW closure: for every occurrence of a non-terminal in a right-hand
/// side, the FIRST set of the suffix after it is inside its FOLLOW set;
/// and when that suffix is nullable, the whole FOLLOW set of the producing
/// left-hand side is inside it too.
pub proof fn lemma_follow_closure(g: ECFG, i: int, k: int)
    requires
        g.wf(),
        0 <= i < g.productions@.len(),
        0 <= k < g.productions@[i].rhs@.len(),
        !is_terminal(g.productions@[i].rhs@[k]),
    ensures
        forall|t: int|
            0 <= t < g.n_t() && #[trigger] seq_first_from(
                g.nullable@,
                grid_view(g.first@),
                g.productions@[i].rhs@,
                k + 1,
                t,
            ) ==> grid_view(g.follow@)[sym_index(g.productions@[i].rhs@[k])][t],
        all_nullable_from(g.nullable@, g.productions@[i].rhs@, k + 1) ==> forall|u: int|
            0 <= u <= g.n_t() && #[trigger] grid_view(g.follow@)[g.productions@[i].lhs as int][u]
                ==> grid_view(g.follow@)[sym_index(g.productions@[i].rhs@[k])][u],
{
    assert(prod_follow_closed(
        g.productions@,
        g.nullable@,
        grid_view(g.first@),
        grid_view(g.follow@),
        g.n_t(),
        i,
    ));
    assert(pos_follow_closed(
        g.productions@,
        g.nullable@,
        grid_view(g.first@),
        grid_view(g.follow@),
        g.n_t(),
        i,
        k,
    ));
}

/// Two productions carry the same rule.
pub open spec fn prod_eq(a: Production, b: Production) -> bool {
    a.lhs == b.lhs && a.rhs@ == b.rhs@
}

/// Two grammars whose production lists differ only by swapping the
/// entries at `p` and `q`.
pub open spec fn swapped_grammars(g1: ECFG, g2: ECFG, p: int, q: int) -> bool {
    &&& g1.terminals@ == g2.terminals@
    &&& g1.non_terminals@ == g2.non_terminals@
    &&& g1.start == g2.start
    &&& 0 <= p < g1.productions@.len()
    &&& 0 <= q < g1.productions@.len()
    &&& g2.productions@.len() == g1.productions@.len()
    &&& prod_eq(g2.productions@[p], g1.productions@[q])
    &&& prod_eq(g2.productions@[q], g1.productions@[p])
    &&& forall|i: int|
        0 <= i < g1.productions@.len() && i != p && i != q ==> prod_eq(
            #[trigger] g2.productions@[i],
            g1.productions@[i],
        )
}

/// Where the swapped entry of the other list stands.
pub open spec fn swap_index(p: int, q: int, i: int) -> int {
    if i == p {
        q
    } else if i == q {
        p
    } else {
        i
    }
}

proof fn lemma_swap_nullable_closed(g1: ECFG, g2: ECFG, p: int, q: int, x: Seq<bool>)
    requires
        swapped_grammars(g1, g2, p, q),
        nullable_closed(g1.productions@, x),
    ensures
        nullable_closed(g2.productions@, x),
{
    let pr1 = g1.productions@;
    let pr2 = g2.productions@;
    assert forall|i: int|
        #![trigger pr2[i]]
        0 <= i < pr2.len() && all_nullable_from(x, pr2[i].rhs@, 0)
        implies x[pr2[i].lhs as int] by {
        let j = swap_index(p, q, i);
        assert(prod_eq(pr2[i], pr1[j]));
        assert(all_nullable_from(x, pr1[j].rhs@, 0));
    }
}

proof fn lemma_swap_first_closed(g1: ECFG, g2: ECFG, p: int, q: int, x: Seq<Seq<bool>>)
    requires
        swapped_grammars(g1, g2, p, q),
        first_closed(g1.productions@, g1.nullable@, x, g1.n_t()),
        g2.nullable@ == g1.nullable@,
    ensures
        first_closed(g2.productions@, g2.nullable@, x, g2.n_t()),
{
    let pr1 = g1.productions@;
    let pr2 = g2.productions@;
    let nul = g1.nullable@;
    assert forall|i: int| 0 <= i < pr2.len() implies #[trigger] prod_first_closed(
        pr2,
        nul,
        x,
        g1.n_t(),
        i,
    ) by {
        let j = swap_index(p, q, i);
        assert(prod_eq(pr2[i], pr1[j]));
        assert(prod_first_closed(pr1, nul, x, g1.n_t(), j));
        assert forall|t: int|
            0 <= t < g1.n_t() && #[trigger] seq_first_from(nul, x, pr2[i].rhs@, 0, t)
            implies x[pr2[i].lhs as int][t] by {
            assert(seq_first_from(nul, x, pr1[j].rhs@, 0, t));
        }
    }
}

proof fn lemma_swap_follow_closed(g1: ECFG, g2: ECFG, p: int, q: int, x: Seq<Seq<bool>>)
    requires
        swapped_grammars(g1, g2, p, q),
        crate::follow::follow_rules_closed(
            g1.productions@,
            g1.nullable@,
            grid_view(g1.first@),
            x,
            g1.n_t(),
        ),
        g2.nullable@ == g1.nullable@,
        grid_view(g2.first@) == grid_view(g1.first@),
    ensures
        crate::follow::follow_rules_closed(
            g2.productions@,
            g2.nullable@,
            grid_view(g2.first@),
            x,
            g2.n_t(),
        ),
{
    let pr1 = g1.productions@;
    let pr2 = g2.productions@;
    let nul = g1.nullable@;
    let gf = grid_view(g1.first@);
    let n_t = g1.n_t();
    assert forall|i: int| 0 <= i < pr2.len() implies #[trigger] prod_follow_closed(
        pr2,
        nul,
        gf,
        x,
        n_t,
        i,
    ) by {
        let j = swap_index(p, q, i);
        assert(prod_eq(pr2[i], pr1[j]));
        assert(prod_follow_closed(pr1, nul, gf, x, n_t, j));
        assert forall|k: int| 0 <= k < pr2[i].rhs@.len() implies #[trigger] pos_follow_closed(
            pr2,
            nul,
            gf,
            x,
            n_t,
            i,
            k,
        ) by {
            assert(pos_follow_closed(pr1, nul, gf, x, n_t, j, k));
            if !is_terminal(pr2[i].rhs@[k]) {
                assert(pr2[i].rhs@[k] == pr1[j].rhs@[k]);
                assert(pr2[i].lhs == pr1[j].lhs);
            }
        }
    }
}

/// Swapping two productions leaves all three tables unchanged.
proof fn lemma_swap_tables_equal(g1: ECFG, g2: ECFG, p: int, q: int)
    requires
        g1.wf(),
        g2.wf(),
        swapped_grammars(g1, g2, p, q),
    ensures
        g2.nullable@ == g1.nullable@,
        grid_view(g2.first@) == grid_view(g1.first@),
        grid_view(g2.follow@) == grid_view(g1.follow@),
{
    // the swap is its own inverse
    assert(swapped_grammars(g2, g1, p, q)) by {
        assert forall|i: int|
            0 <= i < g2.productions@.len() && i != p && i != q implies prod_eq(
            #[trigger] g1.productions@[i],
            g2.productions@[i],
        ) by {
            assert(prod_eq(g2.productions@[i], g1.productions@[i]));
        }
    }
    // nullable
    lemma_swap_nullable_closed(g1, g2, p, q, g1.nullable@);
    lemma_swap_nullable_closed(g2, g1, p, q, g2.nullable@);
    assert(crate::nullable::nullable_le(g2.nullable@, g1.nullable@));
    assert(crate::nullable::nullable_le(g1.nullable@, g2.nullable@));
    assert(g2.nullable@ =~= g1.nullable@) by {
        assert forall|i: int| 0 <= i < g1.nullable@.len() implies g2.nullable@[i]
            == g1.nullable@[i] by {
            if g1.nullable@[i] {
                assert(g2.nullable@[i]);
            }
            if g2.nullable@[i] {
                assert(g1.nullable@[i]);
            }
        }
    }
    // FIRST
    let f1 = grid_view(g1.first@);
    let f2 = grid_view(g2.first@);
    lemma_swap_first_closed(g1, g2, p, q, f1);
    lemma_swap_first_closed(g2, g1, p, q, f2);
    assert(grid_le(f2, f1));
    assert(grid_le(f1, f2));
    assert(f2 =~~= f1) by {
        assert forall|a: int, t: int|
            0 <= a < g1.n_nt() && 0 <= t < g1.n_t() implies f2[a][t] == f1[a][t] by {
            if f1[a][t] {
                assert(f2[a][t]);
            }
            if f2[a][t] {
                assert(f1[a][t]);
            }
        }
        assert(f1.len() == f2.len());
        assert forall|a: int| 0 <= a < f1.len() implies f1[a] =~= f2[a] by {
            assert forall|t: int| 0 <= t < f1[a].len() implies f1[a][t] == f2[a][t] by {
                if f1[a][t] {
                    assert(f2[a][t]);
                }
                if f2[a][t] {
                    assert(f1[a][t]);
                }
            }
        }
    }
    // FOLLOW
    let w1 = grid_view(g1.follow@);
    let w2 = grid_view(g2.follow@);
    lemma_swap_follow_closed(g1, g2, p, q, w1);
    lemma_swap_follow_closed(g2, g1, p, q, w2);
    assert(grid_le(w2, w1));
    assert(grid_le(w1, w2));
    assert(w2 =~~= w1) by {
        assert(w1.len() == w2.len());
        assert forall|a: int| 0 <= a < w1.len() implies w1[a] =~= w2[a] by {
            assert forall|t: int| 0 <= t < w1[a].len() implies w1[a][t] == w2[a][t] by {
                if w1[a][t] {
                    assert(w2[a][t]);
                }
                if w2[a][t] {
                    assert(w1[a][t]);
                }
            }
        }
    }
}

/// Director-set order independence: swapping the declaration order of two
/// productions never changes the LL(1) verdict. In particular a
/// non-terminal's alternatives with disjoint director sets may be declared
/// in either order.
pub proof fn lemma_ll1_order_independent(g1: ECFG, g2: ECFG, p: int, q: int)
    requires
        g1.wf(),
        g2.wf(),
        swapped_grammars(g1, g2, p, q),
    ensures
        g1.spec_is_ell1() == g2.spec_is_ell1(),
{
    lemma_swap_tables_equal(g1, g2, p, q);
    assert forall|i: int, u: int|
        0 <= i < g1.productions@.len() implies #[trigger] g2.director_contains(i, u)
        == g1.director_contains(swap_index(p, q, i), u) by {
        let j = swap_index(p, q, i);
        assert(prod_eq(g2.productions@[i], g1.productions@[j]));
    }
    if !g1.spec_is_ell1() {
        let (x, y) = choose|x: int, y: int|
            #![trigger g1.productions@[x], g1.productions@[y]]
            0 <= x < y < g1.productions@.len() && g1.productions@[x].lhs == g1.productions@[y].lhs
                && !g1.directors_disjoint(x, y);
        let u = choose|u: int|
            0 <= u <= g1.n_t() && #[trigger] g1.director_contains(x, u) && g1.director_contains(
                y,
                u,
            );
        let x2 = swap_index(p, q, x);
        let y2 = swap_index(p, q, y);
        assert(g2.director_contains(x2, u) == g1.director_contains(x, u));
        assert(g2.director_contains(y2, u) == g1.director_contains(y, u));
        assert(prod_eq(g2.productions@[x2], g1.productions@[x]));
        assert(prod_eq(g2.productions@[y2], g1.productions@[y]));
        assert(x2 != y2);
        let lo = if x2 < y2 { x2 } else { y2 };
        let hi = if x2 < y2 { y2 } else { x2 };
        assert(g2.productions@[lo].lhs == g2.productions@[hi].lhs);
        assert(!g2.directors_disjoint(lo, hi)) by {
            assert(g2.director_contains(lo, u) && g2.director_contains(hi, u));
        }
        assert(!g2.spec_is_ell1());
    }
    if !g2.spec_is_ell1() {
        let (x, y) = choose|x: int, y: int|
            #![trigger g2.productions@[x], g2.productions@[y]]
            0 <= x < y < g2.productions@.len() && g2.productions@[x].lhs == g2.productions@[y].lhs
                && !g2.directors_disjoint(x, y);
        let u = choose|u: int|
            0 <= u <= g2.n_t() && #[trigger] g2.director_contains(x, u) && g2.director_contains(
                y,
                u,
            );
        assert(g2.director_contains(x, u) == g1.director_contains(swap_index(p, q, x), u));
        assert(g2.director_contains(y, u) == g1.director_contains(swap_index(p, q, y), u));
        let x1 = swap_index(p, q, x);
        let y1 = swap_index(p, q, y);
        assert(prod_eq(g2.productions@[x], g1.productions@[x1]));
        assert(prod_eq(g2.productions@[y], g1.productions@[y1]));
        assert(x1 != y1);
        let lo = if x1 < y1 { x1 } else { y1 };
        let hi = if x1 < y1 { y1 } else { x1 };
        assert(g1.productions@[lo].lhs == g1.productions@[hi].lhs);
        assert(!g1.directors_disjoint(lo, hi)) by {
            assert(g1.director_contains(lo, u) && g1.director_contains(hi, u));
        }
        assert(!g1.spec_is_ell1());
    }
}

/// Idempotence: each query's contract determines its result from the
/// grammar and the arguments alone, so repeated calls agree. Stated here
/// for the FIRST-set query; the other queries' contracts pin their
/// results by the same shape.
pub proof fn lemma_first_set_idempotent(
    g: ECFG,
    symbols: Seq<String>,
    v1: Seq<Seq<char>>,
    v2: Seq<Seq<char>>,
)
    requires
        g.wf(),
        v1 == crate::queries::names_where(
            g.terminals@,
            g.spec_first_bits(g.spec_intern_seq(symbols)),
            g.n_t(),
        ),
        v2 == crate::queries::names_where(
            g.terminals@,
            g.spec_first_bits(g.spec_intern_seq(symbols)),
            g.n_t(),
        ),
    ensures
        v1 == v2,
{
}

/// Idempotence of the nullable query: its result is a function of the
/// grammar and the named sequence alone.
pub proof fn lemma_nullable_idempotent(g: ECFG, symbols: Seq<String>, b1: bool, b2: bool)
    requires
        g.wf(),
        b1 == all_nullable_from(g.nullable@, g.spec_intern_seq(symbols), 0),
        b2 == all_nullable_from(g.nullable@, g.spec_intern_seq(symbols), 0),
    ensures
        b1 == b2,
{
}

/// Idempotence of the FOLLOW-set query: its result is a function of the
/// grammar and the queried non-terminal alone.
pub proof fn lemma_follow_set_idempotent(g: ECFG, a: int, v1: Seq<Seq<char>>, v2: Seq<Seq<char>>)
    requires
        g.wf(),
        v1 == g.spec_follow_names(a),
        v2 == g.spec_follow_names(a),
    ensures
        v1 == v2,
{
}

/// Idempotence of the LL(1) query: its result is a function of the
/// grammar alone.
pub proof fn lemma_is_ell1_idempotent(g: ECFG, r1: bool, r2: bool)
    requires
        g.wf(),
        r1 == g.spec_is_ell1(),
        r2 == g.spec_is_ell1(),
    ensures
        r1 == r2,
{
}

/// Idempotence of the director-set query: each reported alternative and
/// its director set are functions of the grammar and the queried
/// non-terminal alone.
pub proof fn lemma_director_set_idempotent(
    g: ECFG,
    a: int,
    e: int,
    v1: (Seq<Seq<char>>, Seq<Seq<char>>),
    v2: (Seq<Seq<char>>, Seq<Seq<char>>),
)
    requires
        g.wf(),
        v1.0 == g.rhs_names(e) && v1.1 == g.director_names(e),
        v2.0 == g.rhs_names(e) && v2.1 == g.director_names(e),
    ensures
        v1 == v2,
{
}

/// What a returned FIRST set lists, as a set: a name appears exactly when
/// it names a terminal that the queried sequence's FIRST set holds.
pub proof fn lemma_first_set_membership(g: ECFG, symbols: Seq<String>, n: Seq<char>)
    requires
        g.wf(),
    ensures
        crate::queries::names_where(
            g.terminals@,
            g.spec_first_bits(g.spec_intern_seq(symbols)),
            g.n_t(),
        ).contains(n) == exists|t: int|
            0 <= t < g.n_t() && #[trigger] seq_first_from(
                g.nullable@,
                grid_view(g.first@),
                g.spec_intern_seq(symbols),
                0,
                t,
            ) && g.terminals@[t]@ == n,
{
    let bits = g.spec_first_bits(g.spec_intern_seq(symbols));
    crate::queries::lemma_names_where_membership(g.terminals@, bits, g.n_t(), n);
    assert forall|t: int| 0 <= t < g.n_t() implies #[trigger] bits[t] == seq_first_from(
        g.nullable@,
        grid_view(g.first@),
        g.spec_intern_seq(symbols),
        0,
        t,
    ) by {}
    if exists|t: int| 0 <= t < g.n_t() && #[trigger] bits[t] && g.terminals@[t]@ == n {
        let t = choose|t: int| 0 <= t < g.n_t() && #[trigger] bits[t] && g.terminals@[t]@ == n;
        assert(seq_first_from(
            g.nullable@,
            grid_view(g.first@),
            g.spec_intern_seq(symbols),
            0,
            t,
        ) && g.terminals@[t]@ == n);
    }
    if exists|t: int|
        0 <= t < g.n_t() && #[trigger] seq_first_from(
            g.nullable@,
            grid_view(g.first@),
            g.spec_intern_seq(symbols),
            0,
            t,
        ) && g.terminals@[t]@ == n {
        let t = choose|t: int|
            0 <= t < g.n_t() && #[trigger] seq_first_from(
                g.nullable@,
                grid_view(g.first@),
                g.spec_intern_seq(symbols),
                0,
                t,
            ) && g.terminals@[t]@ == n;
        assert(bits[t] && g.terminals@[t]@ == n);
    }
}

} // verus!
