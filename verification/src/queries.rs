//! The read-only queries over a constructed grammar.
//!
//! Each query speaks in names: inputs are looked up in the catalogs (an
//! unknown name is an error, never an empty default), and resulting
//! terminal sets come back as name lists in catalog order, with the
//! end-of-input marker rendered as `$`.

use vstd::prelude::*;

use crate::bitrows::grid_view;
use crate::first::{first_from_bits, seq_first_from};
use crate::grammar::ECFG;
use crate::nullable::{all_nullable_from, rhs_all_nullable};
use crate::symbols::{
    find_name, lemma_name_at_unique, name_at, name_in, nt_in_bounds, sym_in_bounds, GrammarError,
    Production, Symbol,
};

verus! {

/// The names of the catalog entries whose bit is set among the first
/// `upto`, in catalog order.
pub open spec fn names_where(names: Seq<String>, bits: Seq<bool>, upto: int) -> Seq<Seq<char>>
    decreases upto,
{
    if upto <= 0 {
        Seq::empty()
    } else {
        names_where(names, bits, upto - 1) + if bits[upto - 1] {
            seq![names[upto - 1]@]
        } else {
            Seq::empty()
        }
    }
}

/// A name is listed exactly when its bit is set.
pub proof fn lemma_names_where_membership(
    names: Seq<String>,
    bits: Seq<bool>,
    upto: int,
    n: Seq<char>,
)
    requires
        upto <= names.len(),
        upto <= bits.len(),
    ensures
        names_where(names, bits, upto).contains(n) == exists|t: int|
            0 <= t < upto && #[trigger] bits[t] && names[t]@ == n,
    decreases upto,
{
    if upto > 0 {
        lemma_names_where_membership(names, bits, upto - 1, n);
        let pre = names_where(names, bits, upto - 1);
        let whole = names_where(names, bits, upto);
        if pre.contains(n) {
            let x = choose|x: int| 0 <= x < pre.len() && pre[x] == n;
            assert(whole[x] == n);
        }
        if bits[upto - 1] && names[upto - 1]@ == n {
            assert(whole[whole.len() - 1] == n);
        }
        if whole.contains(n) {
            let x = choose|x: int| 0 <= x < whole.len() && whole[x] == n;
            if x < pre.len() {
                assert(pre[x] == n);
            } else {
                assert(bits[upto - 1] && names[upto - 1]@ == n);
            }
        }
    }
}

/// The names whose bit is set among the first `upto`, in catalog order.
pub fn collect_names(names: &Vec<String>, bits: &Vec<bool>, upto: usize) -> (out: Vec<String>)
    requires
        upto <= names@.len(),
        upto <= bits@.len(),
    ensures
        out.deep_view() == names_where(names@, bits@, upto as int),
{
    let mut out: Vec<String> = Vec::new();
    let mut t: usize = 0;
    while t < upto
        invariant
            t <= upto,
            upto <= names@.len(),
            upto <= bits@.len(),
            out.deep_view() == names_where(names@, bits@, t as int),
        decreases upto - t,
    {
        let ghost pre = out.deep_view();
        if bits[t] {
            out.push(names[t].clone());
            proof {
                assert(out.deep_view() =~= pre + seq![names@[t as int]@]);
            }
        }
        let ghost t_prev = t as int;
        t = t + 1;
        proof {
            assert(t as int == t_prev + 1);
            assert(names_where(names@, bits@, t_prev + 1) == names_where(names@, bits@, t_prev)
                + if bits@[t_prev] {
                seq![names@[t_prev]@]
            } else {
                Seq::empty()
            });
            if !bits@[t_prev] {
                assert(out.deep_view() =~= pre + Seq::<Seq<char>>::empty());
            }
        }
    }
    out
}

/// What the end-of-input marker is rendered as in returned sets.
pub open spec fn end_marker_view() -> Seq<char> {
    seq!['$']
}

/// The end-of-input marker as a string.
pub fn end_marker() -> (s: String)
    ensures
        s@ == end_marker_view(),
{
    let s: &str = "$";
    proof {
        reveal_strlit("$");
    }
    s.to_owned()
}

impl ECFG {
    /// Whether terminal `t` selects production `p`'s alternative: it is in
    /// the alternative's FIRST set, or the alternative is nullable and it
    /// is in the left-hand side's FOLLOW set. Index `n_t` stands for the
    /// end-of-input marker.
    pub open spec fn director_contains(self, p: int, u: int) -> bool {
        ||| (u < self.n_t() && seq_first_from(
            self.nullable@,
            grid_view(self.first@),
            self.productions@[p].rhs@,
            0,
            u,
        ))
        ||| (all_nullable_from(self.nullable@, self.productions@[p].rhs@, 0) && grid_view(
            self.follow@,
        )[self.productions@[p].lhs as int][u])
    }

    /// No lookahead selects both alternatives.
    pub open spec fn directors_disjoint(self, p: int, q: int) -> bool {
        forall|u: int|
            0 <= u <= self.n_t() ==> !(#[trigger] self.director_contains(p, u)
                && self.director_contains(q, u))
    }

    /// The LL(1) property: any two distinct alternatives of one
    /// non-terminal have disjoint director sets.
    pub open spec fn spec_is_ell1(self) -> bool {
        forall|p: int, q: int|
            #![trigger self.productions@[p], self.productions@[q]]
            0 <= p < q < self.productions@.len() && self.productions@[p].lhs
                == self.productions@[q].lhs ==> self.directors_disjoint(p, q)
    }

    /// The FIRST bits of an interned symbol sequence.
    pub open spec fn spec_first_bits(self, syms: Seq<Symbol>) -> Seq<bool> {
        Seq::new(self.n_t() as nat, |t: int| seq_first_from(
            self.nullable@,
            grid_view(self.first@),
            syms,
            0,
            t,
        ))
    }

    /// Look every name up; an undeclared one is the caller's error.
    fn intern_names(&self, names: &Vec<String>) -> (r: Result<Vec<Symbol>, GrammarError>)
        requires
            self.wf(),
        ensures
            (r matches Ok(syms)) == self.all_declared(names@),
            (r matches Err(GrammarError::UnknownSymbol)) == !self.all_declared(names@),
            r matches Ok(syms) ==> syms@ == self.spec_intern_seq(names@) && forall|j: int|
                0 <= j < syms@.len() ==> sym_in_bounds(#[trigger] syms@[j], self.n_t(), self.n_nt()),
    {
        let mut syms: Vec<Symbol> = Vec::new();
        let mut i: usize = 0;
        while i < names.len()
            invariant
                i <= names@.len(),
                syms@.len() == i,
                self.wf(),
                forall|j: int| 0 <= j < i ==> self.declared((#[trigger] names@[j])@),
                forall|j: int|
                    0 <= j < i ==> #[trigger] syms@[j] == self.spec_intern(names@[j]@)
                        && sym_in_bounds(syms@[j], self.n_t(), self.n_nt()),
            decreases names@.len() - i,
        {
            match find_name(&self.terminals, &names[i]) {
                Some(u) => {
                    proof {
                        lemma_name_at_unique(self.terminals@, names@[i as int]@, u as int);
                    }
                    syms.push(Symbol::Terminal(u));
                },
                None => {
                    match find_name(&self.non_terminals, &names[i]) {
                        Some(a) => {
                            proof {
                                lemma_name_at_unique(self.non_terminals@, names@[i as int]@, a as int);
                            }
                            syms.push(Symbol::NonTerminal(a));
                        },
                        None => {
                            proof {
                                assert(!self.declared(names@[i as int]@));
                            }
                            return Err(GrammarError::UnknownSymbol);
                        },
                    }
                },
            }
            i = i + 1;
        }
        Ok(syms)
    }

    /// Whether the named symbol sequence can derive the empty string.
    /// The empty sequence is nullable; any undeclared name is
    /// `UnknownSymbol`.
    pub fn calculate_nullable(&self, symbols: &Vec<String>) -> (r: Result<bool, GrammarError>)
        requires
            self.wf(),
        ensures
            (r matches Ok(b)) == self.all_declared(symbols@),
            (r matches Err(GrammarError::UnknownSymbol)) == !self.all_declared(symbols@),
            r matches Ok(b) ==> b == all_nullable_from(
                self.nullable@,
                self.spec_intern_seq(symbols@),
                0,
            ),
    {
        let syms = match self.intern_names(symbols) {
            Ok(s) => s,
            Err(e) => {
                return Err(e);
            },
        };
        proof {
            assert forall|j: int| 0 <= j < syms@.len() implies nt_in_bounds(
                #[trigger] syms@[j],
                self.nullable@.len() as int,
            ) by {
                assert(sym_in_bounds(syms@[j], self.n_t(), self.n_nt()));
            }
        }
        Ok(rhs_all_nullable(&self.nullable, &syms, 0))
    }

    /// The FIRST set of the named symbol sequence, as terminal names in
    /// catalog order. Any undeclared name is `UnknownSymbol`; the set of a
    /// nullable or empty sequence does not include the marker.
    pub fn calculate_first_set(&self, symbols: &Vec<String>) -> (r: Result<
        Vec<String>,
        GrammarError,
    >)
        requires
            self.wf(),
        ensures
            (r matches Ok(v)) == self.all_declared(symbols@),
            (r matches Err(GrammarError::UnknownSymbol)) == !self.all_declared(symbols@),
            r matches Ok(v) ==> v.deep_view() == names_where(
                self.terminals@,
                self.spec_first_bits(self.spec_intern_seq(symbols@)),
                self.n_t(),
            ),
    {
        let syms = match self.intern_names(symbols) {
            Ok(s) => s,
            Err(e) => {
                return Err(e);
            },
        };
        let n_t = self.terminals.len();
        let (bits, _all) = first_from_bits(&self.nullable, &self.first, &syms, 0, n_t);
        let out = collect_names(&self.terminals, &bits, n_t);
        proof {
            assert(bits@ =~= self.spec_first_bits(self.spec_intern_seq(symbols@)));
        }
        Ok(out)
    }
}

/// The declaration indices of the alternatives of non-terminal `a` among
/// the first `upto` productions, in declaration order.
pub open spec fn alts_of(prods: Seq<Production>, a: int, upto: int) -> Seq<int>
    decreases upto,
{
    if upto <= 0 {
        Seq::empty()
    } else {
        alts_of(prods, a, upto - 1) + if prods[upto - 1].lhs == a {
            seq![upto - 1]
        } else {
            Seq::empty()
        }
    }
}

/// Whether no index is set in both rows.
fn rows_disjoint(a: &Vec<bool>, b: &Vec<bool>) -> (r: bool)
    requires
        a@.len() == b@.len(),
    ensures
        r == forall|u: int| 0 <= u < a@.len() ==> !(#[trigger] a@[u] && b@[u]),
{
    let mut u: usize = 0;
    while u < a.len()
        invariant
            u <= a@.len(),
            a@.len() == b@.len(),
            forall|j: int| 0 <= j < u ==> !(#[trigger] a@[j] && b@[j]),
        decreases a@.len() - u,
    {
        if a[u] && b[u] {
            return false;
        }
        u = u + 1;
    }
    true
}

impl ECFG {
    /// The FOLLOW row of non-terminal `a` as returned names: terminals in
    /// catalog order, then the end-of-input marker if present.
    pub open spec fn spec_follow_names(self, a: int) -> Seq<Seq<char>> {
        names_where(self.terminals@, grid_view(self.follow@)[a], self.n_t()) + if grid_view(
            self.follow@,
        )[a][self.n_t()] {
            seq![end_marker_view()]
        } else {
            Seq::empty()
        }
    }

    /// The director set of production `p`, as a row over the terminals
    /// plus the end-of-input marker.
    pub open spec fn director_row(self, p: int) -> Seq<bool> {
        Seq::new((self.n_t() + 1) as nat, |u: int| self.director_contains(p, u))
    }

    /// Production `p`'s director set as returned names.
    pub open spec fn director_names(self, p: int) -> Seq<Seq<char>> {
        names_where(self.terminals@, self.director_row(p), self.n_t()) + if self.director_row(
            p,
        )[self.n_t()] {
            seq![end_marker_view()]
        } else {
            Seq::empty()
        }
    }

    /// The names of production `p`'s right-hand side, in order.
    pub open spec fn rhs_names(self, p: int) -> Seq<Seq<char>> {
        Seq::new(self.productions@[p].rhs@.len(), |k: int| self.sym_name(
            self.productions@[p].rhs@[k],
        ))
    }

    /// Alternatives `p` and `q` conflict only if they share a left-hand
    /// side and a lookahead.
    pub open spec fn pair_ok(self, p: int, q: int) -> bool {
        self.productions@[p].lhs == self.productions@[q].lhs ==> self.directors_disjoint(p, q)
    }

    /// The FOLLOW set of the named non-terminal, as names. A name that is
    /// no declared non-terminal is `UnknownSymbol`.
    pub fn calculate_follow_set(&self, symbol: &String) -> (r: Result<Vec<String>, GrammarError>)
        requires
            self.wf(),
        ensures
            (r matches Ok(v)) == name_in(self.non_terminals@, symbol@),
            (r matches Err(GrammarError::UnknownSymbol)) == !name_in(self.non_terminals@, symbol@),
            r matches Ok(v) ==> v.deep_view() == self.spec_follow_names(
                name_at(self.non_terminals@, symbol@),
            ),
    {
        let a = match find_name(&self.non_terminals, symbol) {
            Some(a) => {
                proof {
                    lemma_name_at_unique(self.non_terminals@, symbol@, a as int);
                }
                a
            },
            None => {
                return Err(GrammarError::UnknownSymbol);
            },
        };
        let n_t = self.terminals.len();
        proof {
            assert(grid_view(self.follow@)[a as int] == self.follow@[a as int]@);
            assert(grid_view(self.follow@)[a as int].len() == n_t + 1);
        }
        let mut out = collect_names(&self.terminals, &self.follow[a], n_t);
        let ghost pre = out.deep_view();
        if self.follow[a][n_t] {
            out.push(end_marker());
            proof {
                assert(out.deep_view() =~= pre + seq![end_marker_view()]);
            }
        } else {
            proof {
                assert(out.deep_view() =~= pre + Seq::<Seq<char>>::empty());
            }
        }
        Ok(out)
    }

    /// The director row of production `p`, as bits.
    fn director_row_bits(&self, p: usize) -> (dr: Vec<bool>)
        requires
            self.wf(),
            p < self.productions@.len(),
        ensures
            dr@ =~= self.director_row(p as int),
    {
        let n_t = self.terminals.len();
        proof {
            assert(crate::symbols::prods_wf(self.productions@, self.n_t(), self.n_nt()));
            assert forall|j: int| 0 <= j < self.productions@[p as int].rhs@.len()
                implies sym_in_bounds(
                #[trigger] self.productions@[p as int].rhs@[j],
                self.n_t(),
                self.n_nt(),
            ) by {}
        }
        let (bits, allnul) = first_from_bits(
            &self.nullable,
            &self.first,
            &self.productions[p].rhs,
            0,
            n_t,
        );
        let ghost bits0 = bits@;
        let mut dr = bits;
        dr.push(false);
        let ghost base = dr@;
        let lhs = self.productions[p].lhs;
        let ghost frow = grid_view(self.follow@)[lhs as int];
        proof {
            assert(grid_view(self.follow@)[lhs as int] == self.follow@[lhs as int]@);
            assert(frow.len() == n_t + 1);
        }
        if allnul {
            let (m, _c) = crate::bitrows::merged_row(&dr, &self.follow[lhs]);
            dr = m;
        }
        proof {
            let rhs = self.productions@[p as int].rhs@;
            assert forall|u: int| 0 <= u < dr@.len() implies dr@[u] == self.director_contains(
                p as int,
                u,
            ) by {
                assert(base.len() == n_t + 1);
                if u < n_t {
                    assert(base[u] == bits0[u]);
                    assert(bits0[u] == seq_first_from(
                        self.nullable@,
                        grid_view(self.first@),
                        rhs,
                        0,
                        u,
                    ));
                } else {
                    assert(!base[u]);
                }
                if allnul {
                    assert(dr@[u] == (base[u] || (u < frow.len() && frow[u])));
                } else {
                    assert(dr@ == base);
                    assert(!all_nullable_from(self.nullable@, rhs, 0));
                }
            }
        }
        dr
    }

    /// The right-hand side of production `p`, as names.
    fn rhs_names_vec(&self, p: usize) -> (out: Vec<String>)
        requires
            self.wf(),
            p < self.productions@.len(),
        ensures
            out.deep_view() == self.rhs_names(p as int),
    {
        let rhs = &self.productions[p].rhs;
        let mut out: Vec<String> = Vec::new();
        let mut k: usize = 0;
        proof {
            assert(crate::symbols::prods_wf(self.productions@, self.n_t(), self.n_nt()));
        }
        while k < rhs.len()
            invariant
                k <= rhs@.len(),
                self.wf(),
                p < self.productions@.len(),
                rhs@ == self.productions@[p as int].rhs@,
                out@.len() == k,
                forall|j: int|
                    0 <= j < k ==> (#[trigger] out@[j])@ == self.sym_name(rhs@[j]),
            decreases rhs@.len() - k,
        {
            proof {
                assert(sym_in_bounds(rhs@[k as int], self.n_t(), self.n_nt()));
            }
            match rhs[k] {
                Symbol::Terminal(u) => {
                    out.push(self.terminals[u].clone());
                },
                Symbol::NonTerminal(a) => {
                    out.push(self.non_terminals[a].clone());
                },
            }
            k = k + 1;
        }
        proof {
            assert(out.deep_view() =~= self.rhs_names(p as int));
        }
        out
    }

    /// The ordered right-hand-side alternatives of the named non-terminal.
    /// A name that is no declared non-terminal is `UnknownSymbol`.
    pub fn productions_for(&self, symbol: &String) -> (r: Result<Vec<Vec<String>>, GrammarError>)
        requires
            self.wf(),
        ensures
            (r matches Ok(v)) == name_in(self.non_terminals@, symbol@),
            (r matches Err(GrammarError::UnknownSymbol)) == !name_in(self.non_terminals@, symbol@),
            r matches Ok(v) ==> {
                let alts = alts_of(
                    self.productions@,
                    name_at(self.non_terminals@, symbol@),
                    self.productions@.len() as int,
                );
                &&& v@.len() == alts.len()
                &&& forall|e: int|
                    0 <= e < alts.len() ==> (#[trigger] v@[e]).deep_view() == self.rhs_names(
                        alts[e],
                    )
            },
    {
        let a = match find_name(&self.non_terminals, symbol) {
            Some(a) => {
                proof {
                    lemma_name_at_unique(self.non_terminals@, symbol@, a as int);
                }
                a
            },
            None => {
                return Err(GrammarError::UnknownSymbol);
            },
        };
        let mut out: Vec<Vec<String>> = Vec::new();
        let mut p: usize = 0;
        while p < self.productions.len()
            invariant
                p <= self.productions@.len(),
                self.wf(),
                a < self.n_nt(),
                out@.len() == alts_of(self.productions@, a as int, p as int).len(),
                forall|e: int|
                    0 <= e < out@.len() ==> (#[trigger] out@[e]).deep_view() == self.rhs_names(
                        alts_of(self.productions@, a as int, p as int)[e],
                    ),
            decreases self.productions@.len() - p,
        {
            let ghost alts_pre = alts_of(self.productions@, a as int, p as int);
            if self.productions[p].lhs == a {
                let entry = self.rhs_names_vec(p);
                out.push(entry);
            }
            let ghost p_prev = p as int;
            p = p + 1;
            proof {
                assert(p as int == p_prev + 1);
                assert(alts_of(self.productions@, a as int, p_prev + 1) == alts_pre
                    + if self.productions@[p_prev].lhs == a as int {
                    seq![p_prev]
                } else {
                    Seq::empty()
                });
                if self.productions@[p_prev].lhs == a as int {
                    assert(alts_of(self.productions@, a as int, p as int)[out@.len() - 1]
                        == p_prev);
                } else {
                    assert(alts_of(self.productions@, a as int, p as int) =~= alts_pre);
                }
            }
        }
        Ok(out)
    }

    /// The director set of each alternative of the named non-terminal, in
    /// declaration order: the alternative's names paired with its director
    /// set's names. A name that is no declared non-terminal is
    /// `UnknownSymbol`.
    pub fn calculate_director_set(&self, symbol: &String) -> (r: Result<
        Vec<(Vec<String>, Vec<String>)>,
        GrammarError,
    >)
        requires
            self.wf(),
        ensures
            (r matches Ok(v)) == name_in(self.non_terminals@, symbol@),
            (r matches Err(GrammarError::UnknownSymbol)) == !name_in(self.non_terminals@, symbol@),
            r matches Ok(v) ==> {
                let alts = alts_of(
                    self.productions@,
                    name_at(self.non_terminals@, symbol@),
                    self.productions@.len() as int,
                );
                &&& v@.len() == alts.len()
                &&& forall|e: int|
                    0 <= e < alts.len() ==> (#[trigger] v@[e]).0.deep_view() == self.rhs_names(
                        alts[e],
                    ) && v@[e].1.deep_view() == self.director_names(alts[e])
            },
    {
        let a = match find_name(&self.non_terminals, symbol) {
            Some(a) => {
                proof {
                    lemma_name_at_unique(self.non_terminals@, symbol@, a as int);
                }
                a
            },
            None => {
                return Err(GrammarError::UnknownSymbol);
            },
        };
        let n_t = self.terminals.len();
        let mut out: Vec<(Vec<String>, Vec<String>)> = Vec::new();
        let mut p: usize = 0;
        while p < self.productions.len()
            invariant
                p <= self.productions@.len(),
                self.wf(),
                a < self.n_nt(),
                n_t == self.n_t(),
                out@.len() == alts_of(self.productions@, a as int, p as int).len(),
                forall|e: int|
                    0 <= e < out@.len() ==> (#[trigger] out@[e]).0.deep_view() == self.rhs_names(
                        alts_of(self.productions@, a as int, p as int)[e],
                    ) && out@[e].1.deep_view() == self.director_names(
                        alts_of(self.productions@, a as int, p as int)[e],
                    ),
            decreases self.productions@.len() - p,
        {
            let ghost alts_pre = alts_of(self.productions@, a as int, p as int);
            if self.productions[p].lhs == a {
                let rhs_entry = self.rhs_names_vec(p);
                let dr = self.director_row_bits(p);
                let mut dnames = collect_names(&self.terminals, &dr, n_t);
                let ghost pre = dnames.deep_view();
                if dr[n_t] {
                    dnames.push(end_marker());
                    proof {
                        assert(dnames.deep_view() =~= pre + seq![end_marker_view()]);
                    }
                } else {
                    proof {
                        assert(dnames.deep_view() =~= pre + Seq::<Seq<char>>::empty());
                    }
                }
                proof {
                    assert(names_where(self.terminals@, dr@, n_t as int) =~= names_where(
                        self.terminals@,
                        self.director_row(p as int),
                        n_t as int,
                    )) by {
                        lemma_names_where_bits_eq(
                            self.terminals@,
                            dr@,
                            self.director_row(p as int),
                            n_t as int,
                        );
                    }
                    assert(dnames.deep_view() == self.director_names(p as int));
                }
                out.push((rhs_entry, dnames));
            }
            let ghost p_prev = p as int;
            p = p + 1;
            proof {
                assert(p as int == p_prev + 1);
                assert(alts_of(self.productions@, a as int, p_prev + 1) == alts_pre
                    + if self.productions@[p_prev].lhs == a as int {
                    seq![p_prev]
                } else {
                    Seq::empty()
                });
                if self.productions@[p_prev].lhs == a as int {
                    assert(alts_of(self.productions@, a as int, p as int)[out@.len() - 1]
                        == p_prev);
                } else {
                    assert(alts_of(self.productions@, a as int, p as int) =~= alts_pre);
                }
            }
        }
        Ok(out)
    }

    /// Whether the grammar is LL(1): every pair of distinct alternatives
    /// of one non-terminal has disjoint director sets. Never fails on a
    /// constructed grammar.
    pub fn is_ell1(&self) -> (r: bool)
        requires
            self.wf(),
        ensures
            r == self.spec_is_ell1(),
    {
        let n_p = self.productions.len();
        let mut drows: Vec<Vec<bool>> = Vec::new();
        let mut p0: usize = 0;
        while p0 < n_p
            invariant
                p0 <= n_p,
                n_p == self.productions@.len(),
                self.wf(),
                drows@.len() == p0,
                forall|q: int| 0 <= q < p0 ==> (#[trigger] drows@[q])@ =~= self.director_row(q),
            decreases n_p - p0,
        {
            let dr = self.director_row_bits(p0);
            drows.push(dr);
            p0 = p0 + 1;
        }
        let mut p: usize = 0;
        while p < n_p
            invariant
                p <= n_p,
                n_p == self.productions@.len(),
                self.wf(),
                drows@.len() == n_p,
                forall|q: int| 0 <= q < n_p ==> (#[trigger] drows@[q])@ =~= self.director_row(q),
                forall|x: int, y: int|
                    #![trigger self.productions@[x], self.productions@[y]]
                    0 <= x < y < n_p && x < p ==> self.pair_ok(x, y),
            decreases n_p - p,
        {
            let mut q = p + 1;
            while q < n_p
                invariant
                    p < q <= n_p,
                    p < n_p,
                    n_p == self.productions@.len(),
                    self.wf(),
                    drows@.len() == n_p,
                    forall|y: int| 0 <= y < n_p ==> (#[trigger] drows@[y])@ =~= self.director_row(y),
                    forall|y: int|
                        #![trigger self.productions@[y]]
                        p < y < q ==> self.pair_ok(p as int, y),
                decreases n_p - q,
            {
                if self.productions[p].lhs == self.productions[q].lhs {
                    proof {
                        assert(drows@[p as int]@.len() == self.n_t() + 1);
                        assert(drows@[q as int]@.len() == self.n_t() + 1);
                    }
                    if !rows_disjoint(&drows[p], &drows[q]) {
                        proof {
                            let u = choose|u: int|
                                0 <= u < drows@[p as int]@.len() && #[trigger] drows@[p as int]@[u]
                                    && drows@[q as int]@[u];
                            assert(self.director_contains(p as int, u));
                            assert(self.director_contains(q as int, u));
                            assert(!self.directors_disjoint(p as int, q as int));
                            assert(!self.spec_is_ell1()) by {
                                assert(self.productions@[p as int].lhs == self.productions@[
                                    q as int
                                ].lhs);
                            }
                        }
                        return false;
                    }
                    proof {
                        assert(self.directors_disjoint(p as int, q as int)) by {
                            assert forall|u: int| 0 <= u <= self.n_t() implies !(
                            #[trigger] self.director_contains(p as int, u)
                                && self.director_contains(q as int, u)) by {
                                assert(drows@[p as int]@[u] == self.director_contains(p as int, u));
                                assert(drows@[q as int]@[u] == self.director_contains(q as int, u));
                            }
                        }
                    }
                }
                q = q + 1;
            }
            p = p + 1;
        }
        proof {
            assert forall|x: int, y: int|
                0 <= x < y < self.productions@.len() && (#[trigger] self.productions@[x]).lhs == (
                #[trigger] self.productions@[y]).lhs implies self.directors_disjoint(x, y) by {
                assert(self.pair_ok(x, y));
            }
        }
        true
    }
}

/// Equal bit prefixes list equal names.
proof fn lemma_names_where_bits_eq(names: Seq<String>, a: Seq<bool>, b: Seq<bool>, upto: int)
    requires
        forall|t: int| 0 <= t < upto ==> a[t] == b[t],
    ensures
        names_where(names, a, upto) == names_where(names, b, upto),
    decreases upto,
{
    if upto > 0 {
        lemma_names_where_bits_eq(names, a, b, upto - 1);
    }
}

} // verus!
