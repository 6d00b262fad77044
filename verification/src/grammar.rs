//! The grammar aggregate and its validating constructor.
//!
//! An `ECFG` holds the deduplicated symbol catalogs, the interned
//! productions, the start symbol, and the three analysis tables, computed
//! eagerly at construction as least fixed points. A value that came out of
//! `new` satisfies `wf`, and every query's contract builds on that.

use vstd::prelude::*;

use crate::bitrows::grid_view;
use crate::first::first_exact;
use crate::follow::follow_exact;
use crate::nullable::nullable_exact;
use crate::symbols::{
    dedup_names, disjoint_names, distinct_names, find_name, is_terminal, lemma_prods_wf_nt,
    name_at, name_in, prods_wf, GrammarError, Production, Symbol,
};

verus! {

/// A context-free grammar with its analyses; immutable once constructed.
pub struct ECFG {
    pub terminals: Vec<String>,
    pub non_terminals: Vec<String>,
    pub productions: Vec<Production>,
    pub start: usize,
    pub nullable: Vec<bool>,
    pub first: Vec<Vec<bool>>,
    pub follow: Vec<Vec<bool>>,
}

/// Some terminal name is also a non-terminal name.
pub open spec fn has_shared_name(ts: Seq<String>, ns: Seq<String>) -> bool {
    exists|i: int, j: int|
        0 <= i < ts.len() && 0 <= j < ns.len() && (#[trigger] ts[i])@ == (#[trigger] ns[j])@
}

/// Every production's left-hand-side name is a declared non-terminal.
pub open spec fn all_lhs_declared(ns: Seq<String>, prods: Seq<(String, Vec<String>)>) -> bool {
    forall|p: int| 0 <= p < prods.len() ==> name_in(ns, (#[trigger] prods[p]).0@)
}

/// Every right-hand-side name is declared, as a terminal or a non-terminal.
pub open spec fn all_rhs_declared(
    ts: Seq<String>,
    ns: Seq<String>,
    prods: Seq<(String, Vec<String>)>,
) -> bool {
    forall|p: int, k: int|
        0 <= p < prods.len() && 0 <= k < (#[trigger] prods[p]).1@.len() ==> name_in(
            ts,
            (#[trigger] prods[p].1@[k])@,
        ) || name_in(ns, prods[p].1@[k]@)
}

impl ECFG {
    /// The size of the terminal alphabet.
    pub open spec fn n_t(self) -> int {
        self.terminals@.len() as int
    }

    /// How many non-terminals the grammar declares.
    pub open spec fn n_nt(self) -> int {
        self.non_terminals@.len() as int
    }

    /// The name a symbol stands for.
    pub open spec fn sym_name(self, s: Symbol) -> Seq<char> {
        match s {
            Symbol::Terminal(u) => self.terminals@[u as int]@,
            Symbol::NonTerminal(a) => self.non_terminals@[a as int]@,
        }
    }

    /// Whether a name is declared at all.
    pub open spec fn declared(self, n: Seq<char>) -> bool {
        name_in(self.terminals@, n) || name_in(self.non_terminals@, n)
    }

    /// The symbol a declared name stands for.
    pub open spec fn spec_intern(self, n: Seq<char>) -> Symbol {
        if name_in(self.terminals@, n) {
            Symbol::Terminal(name_at(self.terminals@, n) as usize)
        } else {
            Symbol::NonTerminal(name_at(self.non_terminals@, n) as usize)
        }
    }

    /// The symbols a sequence of declared names stands for.
    pub open spec fn spec_intern_seq(self, names: Seq<String>) -> Seq<Symbol> {
        Seq::new(names.len(), |i: int| self.spec_intern(names[i]@))
    }

    /// Whether every name of the sequence is declared.
    pub open spec fn all_declared(self, names: Seq<String>) -> bool {
        forall|i: int| 0 <= i < names.len() ==> self.declared((#[trigger] names[i])@)
    }

    /// Well-formedness: validated structure and exact analysis tables.
    pub open spec fn wf(self) -> bool {
        &&& self.n_t() < usize::MAX
        &&& distinct_names(self.terminals@)
        &&& distinct_names(self.non_terminals@)
        &&& disjoint_names(self.terminals@, self.non_terminals@)
        &&& self.start < self.n_nt()
        &&& prods_wf(self.productions@, self.n_t(), self.n_nt())
        &&& nullable_exact(self.productions@, self.n_nt(), self.nullable@)
        &&& first_exact(
            self.productions@,
            self.nullable@,
            grid_view(self.first@),
            self.n_t(),
            self.n_nt(),
        )
        &&& follow_exact(
            self.productions@,
            self.nullable@,
            grid_view(self.first@),
            grid_view(self.follow@),
            self.n_t(),
            self.n_nt(),
            self.start as int,
        )
    }

    /// Build and validate a grammar from name catalogs, named productions
    /// and a start-symbol name, then compute its analysis tables.
    ///
    /// Exactly one error is reported, checked in this order: a name in both
    /// catalogs, a start symbol that is no declared non-terminal, a
    /// production whose left-hand side is no declared non-terminal, a
    /// right-hand-side name declared nowhere.
    pub fn new(
        terminals: Vec<String>,
        non_terminals: Vec<String>,
        productions: Vec<(String, Vec<String>)>,
        start_symbol: String,
    ) -> (r: Result<ECFG, GrammarError>)
        requires
            terminals@.len() < usize::MAX,
        ensures
            (r matches Err(GrammarError::AmbiguousSymbolKind)) == has_shared_name(
                terminals@,
                non_terminals@,
            ),
            (r matches Err(GrammarError::InvalidStartSymbol)) == (!has_shared_name(
                terminals@,
                non_terminals@,
            ) && !name_in(non_terminals@, start_symbol@)),
            (r matches Err(GrammarError::UnknownLhs)) == (!has_shared_name(
                terminals@,
                non_terminals@,
            ) && name_in(non_terminals@, start_symbol@) && !all_lhs_declared(
                non_terminals@,
                productions@,
            )),
            (r matches Err(GrammarError::UndeclaredSymbol)) == (!has_shared_name(
                terminals@,
                non_terminals@,
            ) && name_in(non_terminals@, start_symbol@) && all_lhs_declared(
                non_terminals@,
                productions@,
            ) && !all_rhs_declared(terminals@, non_terminals@, productions@)),
            (r matches Ok(g) ==> {
                &&& g.wf()
                &&& g.terminals.deep_view() == crate::symbols::dedup_views(terminals@)
                &&& g.non_terminals.deep_view() == crate::symbols::dedup_views(non_terminals@)
                &&& forall|n: Seq<char>| name_in(g.terminals@, n) == name_in(terminals@, n)
                &&& forall|n: Seq<char>| name_in(g.non_terminals@, n) == name_in(non_terminals@, n)
                &&& g.non_terminals@[g.start as int]@ == start_symbol@
                &&& g.productions@.len() == productions@.len()
                &&& forall|p: int|
                    0 <= p < productions@.len() ==> {
                        &&& g.non_terminals@[(#[trigger] g.productions@[p]).lhs as int]@
                            == productions@[p].0@
                        &&& g.productions@[p].rhs@.len() == productions@[p].1@.len()
                        &&& forall|k: int|
                            0 <= k < productions@[p].1@.len() ==> g.sym_name(
                                #[trigger] g.productions@[p].rhs@[k],
                            ) == productions@[p].1@[k]@ && is_terminal(g.productions@[p].rhs@[k])
                                == name_in(terminals@, productions@[p].1@[k]@)
                    }
            }),
            (r matches Ok(g)) == (!has_shared_name(terminals@, non_terminals@) && name_in(
                non_terminals@,
                start_symbol@,
            ) && all_lhs_declared(non_terminals@, productions@) && all_rhs_declared(
                terminals@,
                non_terminals@,
                productions@,
            )),
    {
        let ts = dedup_names(&terminals);
        let ns = dedup_names(&non_terminals);

        // a name in both catalogs?
        let mut i: usize = 0;
        while i < ts.len()
            invariant
                i <= ts@.len(),
                distinct_names(ts@),
                distinct_names(ns@),
                forall|n: Seq<char>| name_in(ts@, n) == name_in(terminals@, n),
                forall|n: Seq<char>| name_in(ns@, n) == name_in(non_terminals@, n),
                forall|a: int, b: int|
                    0 <= a < i && 0 <= b < ns@.len() ==> (#[trigger] ts@[a])@ != (#[trigger] ns@[b])@,
            decreases ts@.len() - i,
        {
            match find_name(&ns, &ts[i]) {
                Some(j) => {
                    proof {
                        assert(name_in(terminals@, ts@[i as int]@)) by {
                            assert(name_in(ts@, ts@[i as int]@));
                        }
                        assert(name_in(non_terminals@, ts@[i as int]@)) by {
                            assert(ns@[j as int]@ == ts@[i as int]@);
                            assert(name_in(ns@, ts@[i as int]@));
                        }
                        let a = choose|a: int|
                            0 <= a < terminals@.len() && #[trigger] terminals@[a]@ == ts@[i as int]@;
                        let b = choose|b: int|
                            0 <= b < non_terminals@.len() && #[trigger] non_terminals@[b]@ == ts@[
                                i as int
                            ]@;
                        assert(has_shared_name(terminals@, non_terminals@));
                    }
                    return Err(GrammarError::AmbiguousSymbolKind);
                },
                None => {},
            }
            i = i + 1;
        }
        proof {
            assert(!has_shared_name(terminals@, non_terminals@)) by {
                if has_shared_name(terminals@, non_terminals@) {
                    let (a, b) = choose|a: int, b: int|
                        0 <= a < terminals@.len() && 0 <= b < non_terminals@.len() && (
                        #[trigger] terminals@[a])@ == (#[trigger] non_terminals@[b])@;
                    assert(name_in(terminals@, terminals@[a]@));
                    assert(name_in(ts@, terminals@[a]@));
                    let x = choose|x: int|
                        0 <= x < ts@.len() && #[trigger] ts@[x]@ == terminals@[a]@;
                    assert(name_in(non_terminals@, terminals@[a]@)) by {
                        assert(non_terminals@[b]@ == terminals@[a]@);
                    }
                    assert(name_in(ns@, terminals@[a]@));
                    let y = choose|y: int|
                        0 <= y < ns@.len() && #[trigger] ns@[y]@ == terminals@[a]@;
                    assert(ts@[x]@ != ns@[y]@);
                    assert(false);
                }
            }
            assert(disjoint_names(ts@, ns@));
        }

        // the start symbol
        let start = match find_name(&ns, &start_symbol) {
            Some(s) => {
                proof {
                    assert(name_in(ns@, start_symbol@));
                }
                s
            },
            None => {
                proof {
                    assert(!name_in(non_terminals@, start_symbol@));
                }
                return Err(GrammarError::InvalidStartSymbol);
            },
        };

        // every production's left-hand side
        let mut lhs_idx: Vec<usize> = Vec::new();
        let mut p: usize = 0;
        while p < productions.len()
            invariant
                p <= productions@.len(),
                lhs_idx@.len() == p,
                !has_shared_name(terminals@, non_terminals@),
                name_in(non_terminals@, start_symbol@),
                forall|n: Seq<char>| name_in(ns@, n) == name_in(non_terminals@, n),
                forall|q: int|
                    0 <= q < p ==> lhs_idx@[q] < ns@.len() && ns@[(#[trigger] lhs_idx@[q]) as int]@
                        == productions@[q].0@,
            decreases productions@.len() - p,
        {
            match find_name(&ns, &productions[p].0) {
                Some(li) => {
                    lhs_idx.push(li);
                },
                None => {
                    proof {
                        assert(!name_in(non_terminals@, productions@[p as int].0@));
                        assert(!all_lhs_declared(non_terminals@, productions@));
                    }
                    return Err(GrammarError::UnknownLhs);
                },
            }
            p = p + 1;
        }
        proof {
            assert(all_lhs_declared(non_terminals@, productions@)) by {
                assert forall|q: int| 0 <= q < productions@.len() implies name_in(
                    non_terminals@,
                    (#[trigger] productions@[q]).0@,
                ) by {
                    assert(ns@[lhs_idx@[q] as int]@ == productions@[q].0@);
                    assert(name_in(ns@, productions@[q].0@));
                }
            }
        }

        // every right-hand side, interned
        let mut prods: Vec<Production> = Vec::new();
        let mut p2: usize = 0;
        while p2 < productions.len()
            invariant
                p2 <= productions@.len(),
                prods@.len() == p2,
                !has_shared_name(terminals@, non_terminals@),
                name_in(non_terminals@, start_symbol@),
                all_lhs_declared(non_terminals@, productions@),
                lhs_idx@.len() == productions@.len(),
                distinct_names(ts@),
                distinct_names(ns@),
                forall|n: Seq<char>| name_in(ts@, n) == name_in(terminals@, n),
                forall|n: Seq<char>| name_in(ns@, n) == name_in(non_terminals@, n),
                forall|q: int|
                    0 <= q < productions@.len() ==> lhs_idx@[q] < ns@.len() && ns@[(
                    #[trigger] lhs_idx@[q]) as int]@ == productions@[q].0@,
                forall|q: int|
                    #![trigger prods@[q]]
                    0 <= q < p2 ==> {
                        &&& prods@[q].lhs == lhs_idx@[q]
                        &&& prods@[q].rhs@.len() == productions@[q].1@.len()
                        &&& forall|k: int|
                            0 <= k < productions@[q].1@.len() ==> {
                                &&& crate::symbols::sym_in_bounds(
                                    #[trigger] prods@[q].rhs@[k],
                                    ts@.len() as int,
                                    ns@.len() as int,
                                )
                                &&& (match prods@[q].rhs@[k] {
                                    Symbol::Terminal(u) => ts@[u as int]@ == productions@[q].1@[k]@
                                        && name_in(ts@, productions@[q].1@[k]@),
                                    Symbol::NonTerminal(a) => ns@[a as int]@ == productions@[q].1@[
                                        k
                                    ]@ && !name_in(ts@, productions@[q].1@[k]@) && name_in(
                                        ns@,
                                        productions@[q].1@[k]@,
                                    ),
                                })
                            }
                    },
            decreases productions@.len() - p2,
        {
            let mut rhs: Vec<Symbol> = Vec::new();
            let names = &productions[p2].1;
            let mut k: usize = 0;
            while k < names.len()
                invariant
                    k <= names@.len(),
                    rhs@.len() == k,
                    !has_shared_name(terminals@, non_terminals@),
                    name_in(non_terminals@, start_symbol@),
                    all_lhs_declared(non_terminals@, productions@),
                    names@ == productions@[p2 as int].1@,
                    p2 < productions@.len(),
                    distinct_names(ts@),
                    distinct_names(ns@),
                    forall|n: Seq<char>| name_in(ts@, n) == name_in(terminals@, n),
                    forall|n: Seq<char>| name_in(ns@, n) == name_in(non_terminals@, n),
                    forall|j: int|
                        0 <= j < k ==> {
                            &&& crate::symbols::sym_in_bounds(
                                #[trigger] rhs@[j],
                                ts@.len() as int,
                                ns@.len() as int,
                            )
                            &&& (match rhs@[j] {
                                Symbol::Terminal(u) => ts@[u as int]@ == names@[j]@ && name_in(
                                    ts@,
                                    names@[j]@,
                                ),
                                Symbol::NonTerminal(a) => ns@[a as int]@ == names@[j]@ && !name_in(
                                    ts@,
                                    names@[j]@,
                                ) && name_in(ns@, names@[j]@),
                            })
                        },
                decreases names@.len() - k,
            {
                match find_name(&ts, &names[k]) {
                    Some(u) => {
                        rhs.push(Symbol::Terminal(u));
                        proof {
                            assert(name_in(ts@, names@[k as int]@));
                        }
                    },
                    None => {
                        match find_name(&ns, &names[k]) {
                            Some(a) => {
                                rhs.push(Symbol::NonTerminal(a));
                                proof {
                                    assert(name_in(ns@, names@[k as int]@));
                                }
                            },
                            None => {
                                proof {
                                    assert(!name_in(terminals@, names@[k as int]@));
                                    assert(!name_in(non_terminals@, names@[k as int]@));
                                    assert(!all_rhs_declared(terminals@, non_terminals@,
                                    productions@));
                                }
                                return Err(GrammarError::UndeclaredSymbol);
                            },
                        }
                    },
                }
                k = k + 1;
            }
            let li = lhs_idx[p2];
            prods.push(Production { lhs: li, rhs });
            p2 = p2 + 1;
        }
        proof {
            assert(all_rhs_declared(terminals@, non_terminals@, productions@)) by {
                assert forall|q: int, k: int|
                    0 <= q < productions@.len() && 0 <= k < (#[trigger] productions@[q]).1@.len()
                    implies name_in(terminals@, (#[trigger] productions@[q].1@[k])@) || name_in(
                    non_terminals@,
                    productions@[q].1@[k]@,
                ) by {
                    assert(prods@[q].rhs@.len() == productions@[q].1@.len());
                    let s = prods@[q].rhs@[k];
                    assert(crate::symbols::sym_in_bounds(s, ts@.len() as int, ns@.len() as int));
                }
            }
            assert(prods_wf(prods@, ts@.len() as int, ns@.len() as int));
        }

        // the analysis tables
        let n_nt = ns.len();
        let n_t = ts.len();
        proof {
            lemma_prods_wf_nt(prods@, n_t as int, n_nt as int);
        }
        let nullable = crate::nullable::compute_nullable(n_nt, &prods);
        let first = crate::first::compute_first(n_nt, n_t, &prods, &nullable);
        let follow = crate::follow::compute_follow(n_nt, n_t, &prods, &nullable, &first, start);

        let g = ECFG { terminals: ts, non_terminals: ns, productions: prods, start, nullable, first, follow };
        proof {
            assert(g.wf());
            assert forall|p: int| 0 <= p < productions@.len() implies {
                &&& g.non_terminals@[(#[trigger] g.productions@[p]).lhs as int]@
                    == productions@[p].0@
                &&& g.productions@[p].rhs@.len() == productions@[p].1@.len()
                &&& forall|k: int|
                    0 <= k < productions@[p].1@.len() ==> g.sym_name(
                        #[trigger] g.productions@[p].rhs@[k],
                    ) == productions@[p].1@[k]@ && is_terminal(g.productions@[p].rhs@[k])
                        == name_in(terminals@, productions@[p].1@[k]@)
            } by {
                assert(prods@[p].lhs == lhs_idx@[p]);
                assert forall|k: int| 0 <= k < productions@[p].1@.len() implies g.sym_name(
                    #[trigger] g.productions@[p].rhs@[k],
                ) == productions@[p].1@[k]@ && is_terminal(g.productions@[p].rhs@[k]) == name_in(
                    terminals@,
                    productions@[p].1@[k]@,
                ) by {
                    let s = prods@[p].rhs@[k];
                    match s {
                        Symbol::Terminal(u) => {},
                        Symbol::NonTerminal(a) => {},
                    }
                }
            }
        }
        Ok(g)
    }
}

} // verus!
