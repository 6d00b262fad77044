use ll1_checker::grammar::ECFG;
use ll1_checker::symbols::GrammarError;

fn names(xs: &[&str]) -> Vec<String> {
    xs.iter().map(|s| s.to_string()).collect()
}

fn prods(ps: &[(&str, &[&str])]) -> Vec<(String, Vec<String>)> {
    ps.iter().map(|(l, r)| (l.to_string(), names(r))).collect()
}

/// Scenario: terminals {a, b}, non-terminal S, S -> a | b.
fn grammar_a() -> ECFG {
    ECFG::new(
        names(&["a", "b"]),
        names(&["S"]),
        prods(&[("S", &["a"]), ("S", &["b"])]),
        "S".to_string(),
    )
    .unwrap()
}

/// Scenario: terminals {a, b}, non-terminals {S, A}, S -> A b, A -> a | empty.
fn grammar_b() -> ECFG {
    ECFG::new(
        names(&["a", "b"]),
        names(&["S", "A"]),
        prods(&[("S", &["A", "b"]), ("A", &["a"]), ("A", &[])]),
        "S".to_string(),
    )
    .unwrap()
}

/// Scenario B plus the conflicting S -> a.
fn grammar_c() -> ECFG {
    ECFG::new(
        names(&["a", "b"]),
        names(&["S", "A"]),
        prods(&[("S", &["A", "b"]), ("A", &["a"]), ("A", &[]), ("S", &["a"])]),
        "S".to_string(),
    )
    .unwrap()
}

#[test]
fn scenario_a_first_set() {
    let g = grammar_a();
    assert_eq!(g.calculate_first_set(&names(&["S"])).unwrap(), names(&["a", "b"]));
}

#[test]
fn scenario_a_is_ll1() {
    let g = grammar_a();
    assert!(g.is_ell1());
}

#[test]
fn scenario_b_nullable() {
    let g = grammar_b();
    assert!(g.calculate_nullable(&names(&["A"])).unwrap());
    assert!(!g.calculate_nullable(&names(&["S"])).unwrap());
    assert!(!g.calculate_nullable(&names(&["A", "b"])).unwrap());
    // the empty sequence is nullable
    assert!(g.calculate_nullable(&names(&[])).unwrap());
}

#[test]
fn scenario_b_follow() {
    let g = grammar_b();
    assert_eq!(g.calculate_follow_set(&"A".to_string()).unwrap(), names(&["b"]));
    assert_eq!(g.calculate_follow_set(&"S".to_string()).unwrap(), names(&["$"]));
}

#[test]
fn scenario_b_director_sets() {
    let g = grammar_b();
    let ds = g.calculate_director_set(&"A".to_string()).unwrap();
    assert_eq!(ds.len(), 2);
    assert_eq!(ds[0].0, names(&["a"]));
    assert_eq!(ds[0].1, names(&["a"]));
    assert_eq!(ds[1].0, names(&[]));
    assert_eq!(ds[1].1, names(&["b"]));
}

#[test]
fn scenario_b_is_ll1() {
    let g = grammar_b();
    assert!(g.is_ell1());
}

#[test]
fn scenario_c_conflict() {
    let g = grammar_c();
    let ds = g.calculate_director_set(&"S".to_string()).unwrap();
    assert_eq!(ds.len(), 2);
    // director set of S -> A b contains a (through FIRST(A)) and b (A nullable)
    assert_eq!(ds[0].1, names(&["a", "b"]));
    // director set of S -> a is {a}: they overlap
    assert_eq!(ds[1].1, names(&["a"]));
    assert!(!g.is_ell1());
}

#[test]
fn unknown_symbol_in_first_set_query() {
    let g = grammar_a();
    assert_eq!(g.calculate_first_set(&names(&["z"])), Err(GrammarError::UnknownSymbol));
    assert_eq!(g.calculate_first_set(&names(&["a", "z"])), Err(GrammarError::UnknownSymbol));
}

#[test]
fn unknown_symbol_in_other_queries() {
    let g = grammar_b();
    assert_eq!(g.calculate_nullable(&names(&["z"])), Err(GrammarError::UnknownSymbol));
    assert_eq!(
        g.calculate_follow_set(&"z".to_string()),
        Err(GrammarError::UnknownSymbol)
    );
    assert_eq!(
        g.calculate_director_set(&"z".to_string()),
        Err(GrammarError::UnknownSymbol)
    );
    // a terminal has no FOLLOW entry
    assert!(g.calculate_follow_set(&"a".to_string()).is_err());
}

#[test]
fn construction_error_ambiguous_kind() {
    let r = ECFG::new(
        names(&["a", "S"]),
        names(&["S"]),
        prods(&[("S", &["a"])]),
        "S".to_string(),
    );
    assert_eq!(r.err().unwrap(), GrammarError::AmbiguousSymbolKind);
}

#[test]
fn construction_error_invalid_start() {
    let r = ECFG::new(names(&["a"]), names(&["S"]), prods(&[("S", &["a"])]), "T".to_string());
    assert_eq!(r.err().unwrap(), GrammarError::InvalidStartSymbol);
    // a terminal as start symbol is rejected too
    let r2 = ECFG::new(names(&["a"]), names(&["S"]), prods(&[("S", &["a"])]), "a".to_string());
    assert_eq!(r2.err().unwrap(), GrammarError::InvalidStartSymbol);
}

#[test]
fn construction_error_unknown_lhs() {
    let r = ECFG::new(
        names(&["a"]),
        names(&["S"]),
        prods(&[("S", &["a"]), ("T", &["a"])]),
        "S".to_string(),
    );
    assert_eq!(r.err().unwrap(), GrammarError::UnknownLhs);
}

#[test]
fn construction_error_undeclared_rhs() {
    let r = ECFG::new(names(&["a"]), names(&["S"]), prods(&[("S", &["a", "z"])]), "S".to_string());
    assert_eq!(r.err().unwrap(), GrammarError::UndeclaredSymbol);
}

#[test]
fn nullable_monotonicity_concrete() {
    // B -> C, C -> empty: both become nullable through the fixed point
    let g = ECFG::new(
        names(&["x"]),
        names(&["B", "C"]),
        prods(&[("B", &["C"]), ("C", &[])]),
        "B".to_string(),
    )
    .unwrap();
    assert!(g.calculate_nullable(&names(&["C"])).unwrap());
    assert!(g.calculate_nullable(&names(&["B"])).unwrap());
    assert!(g.calculate_nullable(&names(&["B", "C"])).unwrap());
}

#[test]
fn first_soundness_concrete() {
    // every terminal of FIRST(E) begins some alternative's expansion
    let g = ECFG::new(
        names(&["x", "y"]),
        names(&["E", "F"]),
        prods(&[("E", &["F", "x"]), ("F", &["y"]), ("F", &[])]),
        "E".to_string(),
    )
    .unwrap();
    // F nullable, so FIRST(E) = {y} from F plus {x} past it
    assert_eq!(g.calculate_first_set(&names(&["E"])).unwrap(), names(&["x", "y"]));
    assert_eq!(g.calculate_first_set(&names(&["F"])).unwrap(), names(&["y"]));
}

#[test]
fn follow_closure_concrete() {
    // E -> F x: FIRST(x) = {x} flows into FOLLOW(F);
    // G -> F: FOLLOW(G) flows into FOLLOW(F) through the nullable suffix
    let g = ECFG::new(
        names(&["x", "y"]),
        names(&["E", "F", "G"]),
        prods(&[("E", &["F", "x"]), ("E", &["G", "y"]), ("G", &["F"]), ("F", &["x"])]),
        "E".to_string(),
    )
    .unwrap();
    assert_eq!(g.calculate_follow_set(&"G".to_string()).unwrap(), names(&["y"]));
    let follow_f = g.calculate_follow_set(&"F".to_string()).unwrap();
    assert_eq!(follow_f, names(&["x", "y"]));
}

#[test]
fn director_order_independence_concrete() {
    // the verdict does not depend on the declaration order of alternatives
    let g1 = ECFG::new(
        names(&["a", "b"]),
        names(&["S"]),
        prods(&[("S", &["a"]), ("S", &["b"])]),
        "S".to_string(),
    )
    .unwrap();
    let g2 = ECFG::new(
        names(&["a", "b"]),
        names(&["S"]),
        prods(&[("S", &["b"]), ("S", &["a"])]),
        "S".to_string(),
    )
    .unwrap();
    assert_eq!(g1.is_ell1(), g2.is_ell1());
    let g3 = grammar_c();
    let g4 = ECFG::new(
        names(&["a", "b"]),
        names(&["S", "A"]),
        prods(&[("S", &["a"]), ("A", &["a"]), ("A", &[]), ("S", &["A", "b"])]),
        "S".to_string(),
    )
    .unwrap();
    assert_eq!(g3.is_ell1(), g4.is_ell1());
}

#[test]
fn queries_idempotent() {
    let g = grammar_b();
    let s = names(&["S"]);
    assert_eq!(g.calculate_first_set(&s).unwrap(), g.calculate_first_set(&s).unwrap());
    assert_eq!(
        g.calculate_follow_set(&"A".to_string()).unwrap(),
        g.calculate_follow_set(&"A".to_string()).unwrap()
    );
    assert_eq!(
        g.calculate_director_set(&"A".to_string()).unwrap(),
        g.calculate_director_set(&"A".to_string()).unwrap()
    );
    assert_eq!(g.is_ell1(), g.is_ell1());
    assert_eq!(
        g.calculate_nullable(&s).unwrap(),
        g.calculate_nullable(&s).unwrap()
    );
}

#[test]
fn productions_for_lists_alternatives_in_order() {
    let g = grammar_b();
    let alts = g.productions_for(&"A".to_string()).unwrap();
    assert_eq!(alts, vec![names(&["a"]), names(&[])]);
    assert_eq!(
        g.productions_for(&"z".to_string()),
        Err(GrammarError::UnknownSymbol)
    );
}

#[test]
fn duplicate_catalog_names_are_one_symbol() {
    let g = ECFG::new(
        names(&["a", "a", "b"]),
        names(&["S", "S"]),
        prods(&[("S", &["a"]), ("S", &["b"])]),
        "S".to_string(),
    )
    .unwrap();
    assert_eq!(g.calculate_first_set(&names(&["S"])).unwrap(), names(&["a", "b"]));
    assert!(g.is_ell1());
}

#[test]
fn empty_production_list() {
    let g = ECFG::new(names(&["a"]), names(&["S"]), prods(&[]), "S".to_string()).unwrap();
    assert_eq!(g.calculate_first_set(&names(&["S"])).unwrap(), names(&[]));
    assert!(!g.calculate_nullable(&names(&["S"])).unwrap());
    assert_eq!(g.calculate_follow_set(&"S".to_string()).unwrap(), names(&["$"]));
    assert!(g.is_ell1());
}

#[test]
fn left_recursive_grammar_terminates() {
    // direct left recursion: E -> E x | y
    let g = ECFG::new(
        names(&["x", "y"]),
        names(&["E"]),
        prods(&[("E", &["E", "x"]), ("E", &["y"])]),
        "E".to_string(),
    )
    .unwrap();
    // the least fixed point: only y can begin a derivation of E
    assert_eq!(g.calculate_first_set(&names(&["E"])).unwrap(), names(&["y"]));
    assert_eq!(g.calculate_follow_set(&"E".to_string()).unwrap(), names(&["x", "$"]));
    // both alternatives are selected by y alone
    assert!(!g.is_ell1());
}

#[test]
fn first_of_sequence_stops_at_non_nullable() {
    let g = grammar_b();
    // FIRST(S) = FIRST(A b) = {a} plus {b} since A is nullable
    assert_eq!(g.calculate_first_set(&names(&["S"])).unwrap(), names(&["a", "b"]));
    // FIRST(b A) = {b}: the scan stops at the terminal
    assert_eq!(g.calculate_first_set(&names(&["b", "A"])).unwrap(), names(&["b"]));
}

#[test]
fn mutually_recursive_nullable() {
    // B and C are nullable only through each other's empty derivation
    let g = ECFG::new(
        names(&["x"]),
        names(&["B", "C"]),
        prods(&[("B", &["C", "C"]), ("C", &["B"]), ("C", &[])]),
        "B".to_string(),
    )
    .unwrap();
    assert!(g.calculate_nullable(&names(&["B"])).unwrap());
    assert!(g.calculate_nullable(&names(&["C"])).unwrap());
    assert!(!g.calculate_nullable(&names(&["B", "x"])).unwrap());
}

#[test]
fn director_set_includes_end_marker() {
    // A -> empty at the end of every derivation: FOLLOW(A) holds the marker,
    // so the empty alternative's director set reports it
    let g = ECFG::new(
        names(&["a"]),
        names(&["S", "A"]),
        prods(&[("S", &["a", "A"]), ("A", &[])]),
        "S".to_string(),
    )
    .unwrap();
    assert_eq!(g.calculate_follow_set(&"A".to_string()).unwrap(), names(&["$"]));
    let ds = g.calculate_director_set(&"A".to_string()).unwrap();
    assert_eq!(ds.len(), 1);
    assert_eq!(ds[0].1, names(&["$"]));
    assert!(g.is_ell1());
}
