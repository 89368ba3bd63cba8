use sat_solver::{Clause, Satisfiability, Solver};

fn clause(literals: &[(&str, bool)]) -> Clause {
    let mut c = Clause::new();
    for (v, negated) in literals {
        c.add(v, *negated);
    }
    c
}

fn labels(names: &[&str]) -> Vec<String> {
    names.iter().map(|s| s.to_string()).collect()
}

#[test]
fn three_variables_unique_solution() {
    let mut solver = Solver::new();
    solver.add(clause(&[("A", false), ("B", false), ("C", true)]));
    solver.add(clause(&[("B", false), ("C", false)]));
    solver.add(clause(&[("B", true)]));
    solver.add(clause(&[("A", true), ("C", false)]));
    assert_eq!(solver.variable_order(), labels(&["A", "B", "C"]));
    assert_eq!(solver.solve(), Satisfiability::Satisfiable(vec![vec![true, false, true]]));
}

#[test]
fn no_clauses_gives_one_empty_assignment() {
    let mut solver = Solver::new();
    assert_eq!(solver.solve(), Satisfiability::Satisfiable(vec![vec![]]));
}

#[test]
fn contradiction_is_not_satisfiable() {
    let mut solver = Solver::new();
    solver.add(clause(&[("x", false)]));
    solver.add(clause(&[("x", true)]));
    assert_eq!(solver.solve(), Satisfiability::NotSatisfiable);
}

#[test]
fn single_disjunction_has_three_solutions() {
    let mut solver = Solver::new();
    solver.add(clause(&[("A", false), ("B", false)]));
    assert_eq!(
        solver.solve(),
        Satisfiability::Satisfiable(vec![vec![true, true], vec![true, false], vec![false, true]])
    );
}

#[test]
fn later_literal_overwrites_earlier() {
    let mut c = Clause::new();
    c.add("v", true);
    c.add("v", false);
    let order = labels(&["v"]);
    assert!(c.test(&order, &vec![true]));
    assert!(!c.test(&order, &vec![false]));

    let mut only_second = Clause::new();
    only_second.add("v", false);
    for value in [true, false] {
        assert_eq!(c.test(&order, &vec![value]), only_second.test(&order, &vec![value]));
    }
}

#[test]
fn negated_literal_holds_on_false() {
    let c = clause(&[("p", true)]);
    let order = labels(&["p"]);
    assert!(c.test(&order, &vec![false]));
    assert!(!c.test(&order, &vec![true]));
}

#[test]
fn test_skips_variables_outside_the_clause() {
    let c = clause(&[("b", false)]);
    let order = labels(&["a", "b", "c"]);
    assert!(!c.test(&order, &vec![true, false, true]));
    assert!(c.test(&order, &vec![false, true, false]));
}

#[test]
fn test_reads_only_positions_both_cover() {
    let c = clause(&[("b", false)]);
    let order = labels(&["a", "b"]);
    assert!(!c.test(&order, &vec![true]));
    assert!(!c.test(&labels(&["a"]), &vec![true, true]));
}

#[test]
fn empty_clause_rejects_everything() {
    let c = Clause::new();
    assert!(!c.test(&labels(&["a"]), &vec![true]));
    let mut solver = Solver::new();
    solver.add(clause(&[("a", false)]));
    solver.add(Clause::new());
    assert_eq!(solver.solve(), Satisfiability::NotSatisfiable);
}

#[test]
fn order_is_sorted_and_deduplicated() {
    let mut solver = Solver::new();
    solver.add(clause(&[("c", false), ("a", true)]));
    solver.add(clause(&[("b", false), ("a", false)]));
    solver.add(clause(&[("c", true)]));
    assert_eq!(solver.variable_order(), labels(&["a", "b", "c"]));
}

#[test]
fn order_compares_by_code_point() {
    let mut solver = Solver::new();
    solver.add(clause(&[("b", false), ("ab", false), ("a", false), ("B", false), ("\u{e9}", false), ("z", false)]));
    assert_eq!(solver.variable_order(), labels(&["B", "a", "ab", "b", "z", "\u{e9}"]));
}

#[test]
fn solving_twice_gives_the_same_result() {
    let mut solver = Solver::new();
    solver.add(clause(&[("y", false), ("x", true)]));
    solver.add(clause(&[("x", false)]));
    let first = solver.solve();
    let second = solver.solve();
    assert_eq!(first, Satisfiability::Satisfiable(vec![vec![true, true]]));
    assert_eq!(first, second);
    assert_eq!(solver.variable_order(), labels(&["x", "y"]));
}

#[test]
fn tautology_free_clauses_keep_count_below_all_assignments() {
    let mut solver = Solver::new();
    solver.add(clause(&[("a", false), ("b", false), ("c", false)]));
    match solver.solve() {
        Satisfiability::Satisfiable(s) => {
            assert_eq!(s.len(), 7);
            assert!(!s.contains(&vec![false, false, false]));
        }
        Satisfiability::NotSatisfiable => panic!("expected solutions"),
    }
}

#[test]
fn solutions_are_sound_and_complete() {
    let clauses: Vec<Vec<(&str, bool)>> = vec![
        vec![("a", false), ("b", true)],
        vec![("b", false), ("c", false)],
        vec![("a", true), ("c", true)],
    ];
    let mut solver = Solver::new();
    for c in &clauses {
        solver.add(clause(c));
    }
    let order = solver.variable_order();
    let found = match solver.solve() {
        Satisfiability::Satisfiable(s) => s,
        Satisfiability::NotSatisfiable => vec![],
    };
    for bits in 0..8u32 {
        let a: Vec<bool> = (0..3).map(|i| bits & (4 >> i) == 0).collect();
        let all_hold = clauses.iter().all(|c| clause(c).test(&order, &a));
        assert_eq!(found.contains(&a), all_hold);
    }
    assert_eq!(found, vec![vec![true, true, false], vec![false, false, true]]);
}
