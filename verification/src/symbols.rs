//! Symbols, productions and errors.
//!
//! Internally a symbol is an index into the grammar's terminal or
//! non-terminal catalog, tagged with its kind; the public interface speaks
//! in names, so this module also holds name lookup and deduplication.

use vstd::prelude::*;

verus! {

/// A grammar symbol: an index into the terminal catalog or into the
/// non-terminal catalog.
#[derive(Clone, Copy, PartialEq, Eq, Structural, Debug)]
pub enum Symbol {
    Terminal(usize),
    NonTerminal(usize),
}

/// One production: a left-hand non-terminal (by index) and the ordered
/// right-hand side. An empty right-hand side derives the empty string.
pub struct Production {
    pub lhs: usize,
    pub rhs: Vec<Symbol>,
}

/// Why a grammar could not be built, or a query could not be answered.
#[derive(Clone, Copy, PartialEq, Eq, Structural, Debug)]
pub enum GrammarError {
    /// A production's right-hand side names a symbol in neither catalog.
    UndeclaredSymbol,
    /// A name is declared both as a terminal and as a non-terminal.
    AmbiguousSymbolKind,
    /// A production's left-hand side is not a declared non-terminal.
    UnknownLhs,
    /// The start symbol is not a declared non-terminal.
    InvalidStartSymbol,
    /// A query names a symbol outside the constructed grammar's catalogs.
    UnknownSymbol,
}

pub open spec fn is_terminal(s: Symbol) -> bool {
    match s {
        Symbol::Terminal(_) => true,
        Symbol::NonTerminal(_) => false,
    }
}

/// The index a symbol carries, whichever catalog it points into.
pub open spec fn sym_index(s: Symbol) -> int {
    match s {
        Symbol::Terminal(t) => t as int,
        Symbol::NonTerminal(a) => a as int,
    }
}

pub open spec fn sym_in_bounds(s: Symbol, n_t: int, n_nt: int) -> bool {
    match s {
        Symbol::Terminal(t) => t < n_t,
        Symbol::NonTerminal(a) => a < n_nt,
    }
}

/// Bounds that matter to the nullable analysis alone: non-terminal indices
/// stay inside the catalog (a terminal's index plays no part there).
pub open spec fn nt_in_bounds(s: Symbol, n_nt: int) -> bool {
    match s {
        Symbol::Terminal(_) => true,
        Symbol::NonTerminal(a) => a < n_nt,
    }
}

/// Every production has its left-hand side and every right-hand symbol
/// inside the catalogs' bounds.
pub open spec fn prods_wf(prods: Seq<Production>, n_t: int, n_nt: int) -> bool {
    forall|i: int|
        #![trigger prods[i]]
        0 <= i < prods.len() ==> prods[i].lhs < n_nt && forall|k: int|
            0 <= k < prods[i].rhs@.len() ==> sym_in_bounds(#[trigger] prods[i].rhs@[k], n_t, n_nt)
}

/// The part of `prods_wf` the nullable analysis needs.
pub open spec fn prods_nt_wf(prods: Seq<Production>, n_nt: int) -> bool {
    forall|i: int|
        #![trigger prods[i]]
        0 <= i < prods.len() ==> prods[i].lhs < n_nt && forall|k: int|
            0 <= k < prods[i].rhs@.len() ==> nt_in_bounds(#[trigger] prods[i].rhs@[k], n_nt)
}

pub proof fn lemma_prods_wf_nt(prods: Seq<Production>, n_t: int, n_nt: int)
    requires
        prods_wf(prods, n_t, n_nt),
    ensures
        prods_nt_wf(prods, n_nt),
{
    assert forall|i: int| #![trigger prods[i]] 0 <= i < prods.len() implies prods[i].lhs < n_nt
        && forall|k: int|
        0 <= k < prods[i].rhs@.len() ==> nt_in_bounds(#[trigger] prods[i].rhs@[k], n_nt) by {
        assert forall|k: int| 0 <= k < prods[i].rhs@.len() implies nt_in_bounds(
            #[trigger] prods[i].rhs@[k],
            n_nt,
        ) by {
            assert(sym_in_bounds(prods[i].rhs@[k], n_t, n_nt));
        }
    }
}

/// Some catalog entry has this name.
pub open spec fn name_in(names: Seq<String>, n: Seq<char>) -> bool {
    exists|i: int| 0 <= i < names.len() && #[trigger] names[i]@ == n
}

/// The catalog index of a name (unique when the catalog has no duplicates).
pub open spec fn name_at(names: Seq<String>, n: Seq<char>) -> int {
    choose|i: int| 0 <= i < names.len() && #[trigger] names[i]@ == n
}

pub open spec fn distinct_names(names: Seq<String>) -> bool {
    forall|i: int, j: int| 0 <= i < j < names.len() ==> #[trigger] names[i]@ != #[trigger] names[j]@
}

pub open spec fn disjoint_names(a: Seq<String>, b: Seq<String>) -> bool {
    forall|i: int, j: int|
        0 <= i < a.len() && 0 <= j < b.len() ==> #[trigger] a[i]@ != #[trigger] b[j]@
}

/// The index of the first catalog entry with this name, if any.
pub fn find_name(names: &Vec<String>, n: &String) -> (r: Option<usize>)
    ensures
        match r {
            Some(i) => i < names@.len() && names@[i as int]@ == n@ && forall|j: int|
                0 <= j < i ==> names@[j]@ != n@,
            None => !name_in(names@, n@),
        },
{
    let mut i: usize = 0;
    while i < names.len()
        invariant
            i <= names@.len(),
            forall|j: int| 0 <= j < i ==> names@[j]@ != n@,
        decreases names@.len() - i,
    {
        if names[i].eq(n) {
            return Some(i);
        }
        i = i + 1;
    }
    None
}

/// With no duplicate names, the index `find_name` returns is `name_at`.
pub proof fn lemma_name_at_unique(names: Seq<String>, n: Seq<char>, i: int)
    requires
        distinct_names(names),
        0 <= i < names.len(),
        names[i]@ == n,
    ensures
        name_at(names, n) == i,
        name_in(names, n),
{
    assert(name_in(names, n));
    let j = name_at(names, n);
    assert(0 <= j < names.len() && names[j]@ == n);
    if i < j {
        assert(names[i]@ != names[j]@);
    } else if j < i {
        assert(names[j]@ != names[i]@);
    }
}

/// The input's names in first-occurrence order, each once.
pub open spec fn dedup_views(s: Seq<String>) -> Seq<Seq<char>>
    decreases s.len(),
{
    if s.len() == 0 {
        Seq::empty()
    } else if name_in(s.drop_last(), s.last()@) {
        dedup_views(s.drop_last())
    } else {
        dedup_views(s.drop_last()).push(s.last()@)
    }
}

pub proof fn lemma_dedup_views_membership(s: Seq<String>, n: Seq<char>)
    ensures
        dedup_views(s).contains(n) == name_in(s, n),
    decreases s.len(),
{
    if s.len() > 0 {
        let d = s.drop_last();
        lemma_dedup_views_membership(d, n);
        if name_in(d, n) {
            let i = choose|i: int| 0 <= i < d.len() && #[trigger] d[i]@ == n;
            assert(s[i]@ == n);
            assert(name_in(s, n));
        }
        if name_in(s, n) && !name_in(d, n) {
            let i = choose|i: int| 0 <= i < s.len() && #[trigger] s[i]@ == n;
            if i < s.len() - 1 {
                assert(d[i]@ == n);
                assert(false);
            }
            assert(s.last()@ == n);
        }
        if name_in(d, s.last()@) {
            // dedup_views(s) == dedup_views(d): membership carries over
            if name_in(s, n) && !name_in(d, n) {
                assert(s.last()@ == n);
                let i = choose|i: int| 0 <= i < d.len() && #[trigger] d[i]@ == s.last()@;
                assert(d[i]@ == n);
                assert(false);
            }
        } else {
            let dv = dedup_views(d);
            assert(dedup_views(s) == dv.push(s.last()@));
            if name_in(s, n) {
                if !name_in(d, n) {
                    assert(dv.push(s.last()@)[dv.len() as int] == n);
                    assert(dedup_views(s).contains(n));
                } else {
                    let k = choose|k: int| 0 <= k < dv.len() && dv[k] == n;
                    assert(dv.push(s.last()@)[k] == n);
                    assert(dedup_views(s).contains(n));
                }
            } else {
                if dedup_views(s).contains(n) {
                    let k = choose|k: int|
                        0 <= k < dedup_views(s).len() && dedup_views(s)[k] == n;
                    if k < dv.len() {
                        assert(dv.contains(n));
                        assert(name_in(d, n));
                        let i = choose|i: int| 0 <= i < d.len() && #[trigger] d[i]@ == n;
                        assert(s[i]@ == n);
                        assert(false);
                    } else {
                        assert(s.last()@ == n);
                        assert(s[s.len() - 1]@ == n);
                        assert(false);
                    }
                }
            }
        }
    }
}

/// Keep the first occurrence of each name, in order.
pub fn dedup_names(names: &Vec<String>) -> (out: Vec<String>)
    ensures
        out.deep_view() == dedup_views(names@),
        out@.len() <= names@.len(),
        distinct_names(out@),
        forall|n: Seq<char>| name_in(out@, n) == name_in(names@, n),
{
    let mut out: Vec<String> = Vec::new();
    let mut i: usize = 0;
    while i < names.len()
        invariant
            i <= names@.len(),
            out.deep_view() == dedup_views(names@.subrange(0, i as int)),
            out@.len() <= i,
            distinct_names(out@),
        decreases names@.len() - i,
    {
        let ghost pre = names@.subrange(0, i as int);
        let ghost post = names@.subrange(0, i as int + 1);
        proof {
            assert(post.drop_last() =~= pre);
            assert(post.last() == names@[i as int]);
            lemma_dedup_views_membership(pre, names@[i as int]@);
            // membership in `out` matches membership in its deep view
            assert forall|n: Seq<char>| name_in(out@, n) == out.deep_view().contains(n) by {
                if name_in(out@, n) {
                    let k = choose|k: int| 0 <= k < out@.len() && #[trigger] out@[k]@ == n;
                    assert(out.deep_view()[k] == n);
                }
                if out.deep_view().contains(n) {
                    let k = choose|k: int| 0 <= k < out.deep_view().len()
                        && out.deep_view()[k] == n;
                    assert(out@[k]@ == n);
                }
            }
        }
        match find_name(&out, &names[i]) {
            Some(j) => {
                proof {
                    assert(out@[j as int]@ == names@[i as int]@);
                    assert(name_in(out@, names@[i as int]@));
                    assert(dedup_views(post) == dedup_views(pre));
                }
            },
            None => {
                out.push(names[i].clone());
                proof {
                    assert(out.deep_view() =~= dedup_views(pre).push(names@[i as int]@));
                    assert(dedup_views(post) == dedup_views(pre).push(names@[i as int]@));
                    assert(distinct_names(out@)) by {
                        let m = out@.len() - 1;
                        assert forall|a: int, b: int| 0 <= a < b < out@.len()
                            implies #[trigger] out@[a]@ != #[trigger] out@[b]@ by {
                            if b == m {
                                assert(!name_in(out@.subrange(0, m), out@[m]@));
                                assert(out@.subrange(0, m)[a]@ == out@[a]@);
                            }
                        }
                    }
                }
            },
        }
        i = i + 1;
    }
    proof {
        assert(names@.subrange(0, names@.len() as int) =~= names@);
        assert forall|n: Seq<char>| name_in(out@, n) == name_in(names@, n) by {
            lemma_dedup_views_membership(names@, n);
            if name_in(out@, n) {
                let k = choose|k: int| 0 <= k < out@.len() && #[trigger] out@[k]@ == n;
                assert(out.deep_view()[k] == n);
            }
            if dedup_views(names@).contains(n) {
                let k = choose|k: int| 0 <= k < out.deep_view().len() && out.deep_view()[k] == n;
                assert(out@[k]@ == n);
            }
        }
    }
    out
}

} // verus!
