use plaza::truthtable::{Factor, TruthTable};
use plaza::var::Var;

fn explicit(names: &[&str], table: &[bool]) -> TruthTable {
    TruthTable::Explicit {
        vars: names.iter().map(|n| Var::from(n)).collect(),
        table: table.to_vec(),
    }
}

fn same(a: &TruthTable, b: &TruthTable) -> bool {
    a.equals(b).unwrap()
}

#[test]
fn variable_is_a_two_row_table() {
    match TruthTable::from("a") {
        TruthTable::Explicit { vars, table } => {
            assert_eq!(vars.len(), 1);
            assert_eq!(vars[0].as_str(), "a");
            assert_eq!(table, vec![false, true]);
        }
        _ => panic!("a variable is a table"),
    }
}

#[test]
fn and_joins_names_in_ascending_order() {
    let a = TruthTable::from("a");
    let b = TruthTable::from("b");
    match b.and(&a) {
        TruthTable::Explicit { vars, table } => {
            assert_eq!(vars.len(), 2);
            assert_eq!(vars[0].as_str(), "a");
            assert_eq!(vars[1].as_str(), "b");
            assert_eq!(table, vec![false, false, false, true]);
        }
        _ => panic!("a conjunction of variables is a table"),
    }
}

#[test]
fn or_and_xor_tables() {
    let a = TruthTable::from("a");
    let b = TruthTable::from("b");
    match a.or(&b) {
        TruthTable::Explicit { table, .. } => assert_eq!(table, vec![false, true, true, true]),
        _ => panic!("a table"),
    }
    match a.xor(&b) {
        TruthTable::Explicit { table, .. } => assert_eq!(table, vec![false, true, true, false]),
        _ => panic!("a table"),
    }
}

#[test]
fn constants_combine_to_constants() {
    let t = TruthTable::always();
    let f = TruthTable::never();
    assert!(matches!(t.and(&f), TruthTable::AlwaysFalse));
    assert!(matches!(t.or(&f), TruthTable::AlwaysTrue));
    assert!(matches!(t.xor(&t), TruthTable::AlwaysFalse));
    assert!(matches!(f.not(), TruthTable::AlwaysTrue));
}

#[test]
fn constant_and_variable() {
    let a = TruthTable::from("a");
    match TruthTable::always().and(&a) {
        TruthTable::Explicit { vars, table } => {
            assert_eq!(vars.len(), 1);
            assert_eq!(table, vec![false, true]);
        }
        _ => panic!("a table"),
    }
    match TruthTable::never().or(&a.not()) {
        TruthTable::Explicit { table, .. } => assert_eq!(table, vec![true, false]),
        _ => panic!("a table"),
    }
}

#[test]
fn double_negation() {
    let f = TruthTable::from("a").and(&TruthTable::from("b").not());
    assert!(same(&f.not().not(), &f));
}

#[test]
fn and_commutes() {
    let a = TruthTable::from("a");
    let b = TruthTable::from("b");
    assert!(same(&a.and(&b), &b.and(&a)));
}

#[test]
fn excluded_middle_and_contradiction() {
    let f = TruthTable::from("x").xor(&TruthTable::from("y"));
    assert!(same(&f.or(&f.not()), &TruthTable::always()));
    assert!(same(&f.and(&f.not()), &TruthTable::never()));
}

#[test]
fn de_morgan() {
    let a = TruthTable::from("a");
    let b = TruthTable::from("b");
    assert!(same(&a.and(&b).not(), &a.not().or(&b.not())));
    assert!(same(&a.or(&b).not(), &a.not().and(&b.not())));
}

#[test]
fn equality_does_not_depend_on_variable_order() {
    // a AND NOT b, once over [a, b] and once over [b, a]
    let ab = explicit(&["a", "b"], &[false, true, false, false]);
    let ba = explicit(&["b", "a"], &[false, false, true, false]);
    assert!(same(&ab, &ba));
    let other = explicit(&["b", "a"], &[false, true, false, false]);
    assert!(!same(&ab, &other));
}

#[test]
fn equality_over_different_variable_sets() {
    let a = TruthTable::from("a");
    let b = TruthTable::from("b");
    // (a AND b) OR (a AND NOT b) is a
    let f = a.and(&b).or(&a.and(&b.not()));
    assert!(same(&f, &a));
    assert!(!same(&f, &b));
    assert!(!same(&a, &TruthTable::always()));
}

#[test]
fn table_without_variables_is_rejected_by_equals() {
    let empty = explicit(&[], &[true]);
    assert!(empty.equals(&TruthTable::always()).is_err());
    assert!(TruthTable::from("a").equals(&empty).is_err());
    assert!(empty.is_degenerate());
    assert!(!TruthTable::from("a").is_degenerate());
}

#[test]
fn true_rows_counts_true_entries() {
    let a = TruthTable::from("a");
    let b = TruthTable::from("b");
    assert_eq!(a.or(&b).true_rows(), 3);
    assert_eq!(a.and(&b).true_rows(), 1);
    assert_eq!(TruthTable::always().true_rows(), 0);
    assert_eq!(TruthTable::never().true_rows(), 0);
}

#[test]
fn var_gives_the_variable_at_a_position() {
    let f = TruthTable::from("q").and(&TruthTable::from("p"));
    assert_eq!(f.var(0).as_str(), "p");
    assert_eq!(f.var(1).as_str(), "q");
    assert_eq!(f.var(1).len(), 1);
    assert_eq!(Var::from("héllo").len(), 6);
}

#[test]
fn variables_compare_by_name() {
    let a = Var::from("alpha");
    let b = Var::from("beta");
    assert!(a.same(&a.clone()));
    assert!(a.same(&Var::from("alpha")));
    assert!(!a.same(&b));
    assert!(a.precedes(&b));
    assert!(!b.precedes(&a));
    assert!(!a.precedes(&a));
    assert!(Var::from("ab").precedes(&Var::from("abc")));
    assert!(Var::from("Z").precedes(&Var::from("a")));
    let long = Var::from("a name that is too long to be stored inline");
    assert!(long.same(&Var::from("a name that is too long to be stored inline")));
}

#[test]
fn never_and_always_minimise_to_no_terms() {
    let n = TruthTable::never().dnf();
    assert!(!n.invert);
    assert!(n.terms.is_empty());
    let a = TruthTable::always().dnf();
    assert!(a.invert);
    assert!(a.terms.is_empty());
}

#[test]
fn conjunction_minimises_to_one_term() {
    let f = TruthTable::from("a").and(&TruthTable::from("b"));
    let p = f.dnf();
    assert!(!p.invert);
    assert_eq!(p.terms, vec![vec![Factor::IsTrue, Factor::IsTrue]]);
}

#[test]
fn disjunction_minimises_to_two_terms() {
    let f = TruthTable::from("a").or(&TruthTable::from("b"));
    let p = f.dnf();
    assert!(!p.invert);
    assert_eq!(
        p.terms,
        vec![vec![Factor::DontCare, Factor::IsTrue], vec![Factor::IsTrue, Factor::DontCare]]
    );
}

#[test]
fn redundant_variable_is_dropped_from_the_cover() {
    let a = TruthTable::from("a");
    let b = TruthTable::from("b");
    let f = a.and(&b).or(&a.and(&b.not()));
    let p = f.dnf();
    assert_eq!(p.terms, vec![vec![Factor::IsTrue, Factor::DontCare]]);
}

fn holds(term: &[Factor], row: usize) -> bool {
    term.iter().enumerate().all(|(i, f)| match f {
        Factor::DontCare => true,
        Factor::IsFalse => row & (1 << i) == 0,
        Factor::IsTrue => row & (1 << i) != 0,
    })
}

#[test]
fn cover_reproduces_the_function() {
    let a = TruthTable::from("a");
    let b = TruthTable::from("b");
    let c = TruthTable::from("c");
    let f = a.xor(&b).or(&c.and(&a.not()));
    let table = match &f {
        TruthTable::Explicit { table, .. } => table.clone(),
        _ => panic!("a table"),
    };
    let p = f.dnf();
    for (row, value) in table.iter().enumerate() {
        let sum = p.terms.iter().any(|t| holds(t, row));
        assert_eq!(sum != p.invert, *value);
        for t in &p.terms {
            assert!(!holds(t, row) || *value);
        }
    }
}

#[test]
fn table_that_is_true_everywhere_is_covered_in_two_steps() {
    // Joined with nothing covered, the empty term scores no row, so the
    // first term taken is a literal; after that the empty term wins.
    let a = TruthTable::from("a");
    let f = a.or(&a.not());
    let p = f.dnf();
    assert!(!p.invert);
    assert_eq!(p.terms, vec![vec![Factor::IsFalse], vec![Factor::DontCare]]);
}

#[test]
fn well_formed_tables() {
    assert!(TruthTable::always().is_well_formed());
    assert!(TruthTable::from("a").xor(&TruthTable::from("b")).is_well_formed());
    assert!(explicit(&[], &[true]).is_well_formed());
    assert!(!explicit(&[], &[]).is_well_formed());
    assert!(!explicit(&["a"], &[true]).is_well_formed());
    assert!(!explicit(&["a", "b"], &[true, false, true]).is_well_formed());
    assert!(!explicit(&["a", "a"], &[true, false, true, false]).is_well_formed());
    assert!(explicit(&["b", "a"], &[true, false, true, false]).is_well_formed());
}

#[test]
fn joint_tables_that_fit() {
    let a = TruthTable::from("a");
    assert!(a.fits_with(&a));
    assert!(a.fits_with(&TruthTable::never()));
    let names: Vec<String> = (0..70).map(|i| format!("v{}", i)).collect();
    let wide = TruthTable::Explicit {
        vars: names.iter().map(|n| Var::from(n)).collect(),
        table: vec![],
    };
    assert!(!wide.fits_with(&a));
    assert!(!a.fits_with(&wide));
}
