use dpll_sat::formula::SatResult;
use dpll_sat::solver::DpllSolver;

/// Evaluate the formula under a full assignment indexed by variable id.
fn satisfied_by(formula: &Vec<Vec<i32>>, assignment: &Vec<bool>) -> bool {
    formula.iter().all(|clause| {
        clause.iter().any(|&l| {
            let v = l.unsigned_abs() as usize;
            if l > 0 {
                assignment[v]
            } else {
                !assignment[v]
            }
        })
    })
}

/// Exhaustive check over all 2^num_vars assignments.
fn brute_force_satisfiable(formula: &Vec<Vec<i32>>, num_vars: usize) -> bool {
    for mask in 0u32..(1u32 << num_vars) {
        let mut a = vec![false; num_vars + 1];
        for v in 1..=num_vars {
            a[v] = (mask >> (v - 1)) & 1 == 1;
        }
        if satisfied_by(formula, &a) {
            return true;
        }
    }
    false
}

#[test]
fn test_simple_sat() {
    let formula = vec![vec![1], vec![-1, 2]];
    let mut solver = DpllSolver::new(formula, 2);
    assert_eq!(solver.dpll_solve(), SatResult::SAT);
}

#[test]
fn test_simple_unsat() {
    let formula = vec![vec![1], vec![-1]];
    let mut solver = DpllSolver::new(formula, 1);
    assert_eq!(solver.dpll_solve(), SatResult::UNSAT);
}

#[test]
fn test_pure_literal_elimination() {
    let formula = vec![vec![1, 2], vec![-2]];
    let mut solver = DpllSolver::new(formula, 2);
    assert_eq!(solver.dpll_solve(), SatResult::SAT);
}

#[test]
fn test_unit_propagation() {
    let formula = vec![vec![1], vec![-1, 2], vec![-2, 3]];
    let mut solver = DpllSolver::new(formula, 3);
    assert_eq!(solver.dpll_solve(), SatResult::SAT);
}

#[test]
fn test_contradiction_after_propagation() {
    let formula = vec![vec![1], vec![-1, 2], vec![-1, -2]];
    let mut solver = DpllSolver::new(formula, 2);
    assert_eq!(solver.dpll_solve(), SatResult::UNSAT);
}

#[test]
fn test_backtracking() {
    let formula = vec![vec![1, 2], vec![1, -2], vec![-1, 3], vec![-1, -3]];
    let mut solver = DpllSolver::new(formula, 3);
    assert_eq!(solver.dpll_solve(), SatResult::UNSAT);
}

#[test]
fn test_empty_formula() {
    let formula: Vec<Vec<i32>> = vec![];
    let mut solver = DpllSolver::new(formula, 0);
    assert_eq!(solver.dpll_solve(), SatResult::SAT);
}

#[test]
fn test_empty_clause() {
    let formula = vec![vec![], vec![1, 2]];
    let mut solver = DpllSolver::new(formula, 2);
    assert_eq!(solver.dpll_solve(), SatResult::UNSAT);
}

#[test]
fn sat_verdict_is_witnessed_by_solver_state() {
    // On SAT every variable is assigned and the recorded values satisfy the
    // original formula directly.
    let formula = vec![vec![1], vec![-1, 2], vec![-2, 3]];
    let mut solver = DpllSolver::new(formula.clone(), 3);
    assert_eq!(solver.dpll_solve(), SatResult::SAT);
    assert_eq!(solver.unassigned(), 0);
    assert_eq!(solver.stack_len(), 3);
    let mut assignment = vec![false; 4];
    for v in 1..=3usize {
        let x = solver.assigned_value(v);
        assert_ne!(x, 0);
        assignment[v] = x > 0;
    }
    assert!(satisfied_by(&formula, &assignment));
    // the forced chain of unit propagation
    assert_eq!(assignment[1], true);
    assert_eq!(assignment[2], true);
    assert_eq!(assignment[3], true);
}

#[test]
fn unsat_verdict_agrees_with_brute_force() {
    let formulas: Vec<(Vec<Vec<i32>>, usize)> = vec![
        (vec![vec![1], vec![-1]], 1),
        (vec![vec![1], vec![-1, 2], vec![-1, -2]], 2),
        (vec![vec![1, 2], vec![1, -2], vec![-1, 3], vec![-1, -3]], 3),
        (vec![vec![], vec![1, 2]], 2),
    ];
    for (formula, num_vars) in formulas {
        let mut solver = DpllSolver::new(formula.clone(), num_vars);
        assert_eq!(solver.dpll_solve(), SatResult::UNSAT);
        assert!(!brute_force_satisfiable(&formula, num_vars));
    }
}

#[test]
fn sat_verdict_agrees_with_brute_force() {
    let formulas: Vec<(Vec<Vec<i32>>, usize)> = vec![
        (vec![vec![1], vec![-1, 2]], 2),
        (vec![vec![1, 2], vec![-2]], 2),
        (vec![vec![1, 2], vec![-1, 2], vec![1, -2]], 2),
        (vec![vec![-1, -2, -3], vec![1, 2], vec![2, 3], vec![1, 3]], 3),
    ];
    for (formula, num_vars) in formulas {
        let mut solver = DpllSolver::new(formula.clone(), num_vars);
        assert_eq!(solver.dpll_solve(), SatResult::SAT);
        assert!(brute_force_satisfiable(&formula, num_vars));
    }
}

#[test]
fn reassigning_an_assigned_variable_is_a_no_op() {
    let formula = vec![vec![1, 2], vec![-1, 2]];
    let mut solver = DpllSolver::new(formula, 2);
    solver.set_and_recalculate_params(1, true);
    assert_eq!(solver.stack_len(), 1);
    assert_eq!(solver.unassigned(), 1);
    assert_eq!(solver.assigned_value(1), 1);
    // same value again: nothing changes
    solver.set_and_recalculate_params(1, true);
    assert_eq!(solver.stack_len(), 1);
    assert_eq!(solver.unassigned(), 1);
    assert_eq!(solver.assigned_value(1), 1);
    // opposite value on an assigned variable is also ignored
    solver.set_and_recalculate_params(1, false);
    assert_eq!(solver.stack_len(), 1);
    assert_eq!(solver.unassigned(), 1);
    assert_eq!(solver.assigned_value(1), 1);
}

#[test]
fn backtrack_zero_is_a_no_op_and_overlong_backtrack_empties_the_stack() {
    let formula = vec![vec![1, 2], vec![-1, 2]];
    let mut solver = DpllSolver::new(formula, 2);
    solver.backtrack(0);
    assert_eq!(solver.stack_len(), 0);
    assert_eq!(solver.unassigned(), 2);
    solver.set_and_recalculate_params(1, true);
    solver.set_and_recalculate_params(2, false);
    solver.backtrack(0);
    assert_eq!(solver.stack_len(), 2);
    assert_eq!(solver.unassigned(), 0);
    // more than the stack holds: everything is undone, nothing panics
    solver.backtrack(17);
    assert_eq!(solver.stack_len(), 0);
    assert_eq!(solver.unassigned(), 2);
    assert_eq!(solver.assigned_value(1), 0);
    assert_eq!(solver.assigned_value(2), 0);
}

#[test]
fn simplification_counts_are_reported() {
    // variable 2 is forced false by the unit clause, then variable 1 is pure
    let formula = vec![vec![1, 2], vec![-2]];
    let mut solver = DpllSolver::new(formula, 2);
    let pure = solver.pure_literal_elimination();
    assert_eq!(pure, 1);
    let units = solver.unit_propagation();
    assert_eq!(units, 1);
    assert_eq!(solver.unassigned(), 0);
    assert!(solver.check_sat());
}

#[test]
fn find_next_variable_picks_the_lowest_unassigned() {
    let formula = vec![vec![1, 2, 3]];
    let mut solver = DpllSolver::new(formula, 3);
    assert_eq!(solver.find_next_variable_to_set(), 1);
    solver.set_and_recalculate_params(1, true);
    assert_eq!(solver.find_next_variable_to_set(), 2);
    solver.set_and_recalculate_params(2, true);
    solver.set_and_recalculate_params(3, true);
    assert_eq!(solver.find_next_variable_to_set(), 0);
}

#[test]
fn pure_literal_elimination_is_idempotent() {
    // variable 1 is pure positive; a repeated call finds nothing left to do
    let formula = vec![vec![1, 2], vec![-2]];
    let mut solver = DpllSolver::new(formula, 2);
    assert_eq!(solver.pure_literal_elimination(), 1);
    let stack = solver.stack_len();
    let unassigned = solver.unassigned();
    assert_eq!(solver.pure_literal_elimination(), 0);
    assert_eq!(solver.stack_len(), stack);
    assert_eq!(solver.unassigned(), unassigned);
}

#[test]
fn unit_propagation_is_idempotent() {
    // the unit clause forces 1, which makes the second clause a unit for 2
    let formula = vec![vec![1], vec![-1, 2]];
    let mut solver = DpllSolver::new(formula, 2);
    assert_eq!(solver.unit_propagation(), 2);
    assert_eq!(solver.assigned_value(1), 1);
    assert_eq!(solver.assigned_value(2), 1);
    let stack = solver.stack_len();
    assert_eq!(solver.unit_propagation(), 0);
    assert_eq!(solver.stack_len(), stack);
    assert_eq!(solver.unassigned(), 0);
}
