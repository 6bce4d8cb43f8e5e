use sat_nexus::lbool::LBool;
use sat_nexus::lit::Lit;
use sat_nexus::solver::{ActivityEvent, SearchStep, SolveResult, Solver};
use sat_nexus::trie::build_trie;
use sat_nexus::var::Var;

#[test]
fn test_propcheck() {
    let mut solver = Solver::default();

    let x1 = solver.new_lit();
    let x2 = solver.new_lit();
    let g1 = solver.new_lit();

    // g1 <=> x1 AND x2
    solver.add_clause(&[g1, -x1, -x2]);
    solver.add_clause(&[-g1, x1]);
    solver.add_clause(&[-g1, x2]);

    // Forbid (x1 AND ~x2)
    solver.add_clause(&[-x1, x2]);

    let variables = vec![x1.var(), x2.var()];

    let count = solver.propcheck_all(&variables);

    let mut learnts = Vec::new();
    let count_tree = solver.propcheck_all_tree(&variables, 0, false, &mut learnts);

    assert_eq!(count, count_tree);

    let cubes = vec![vec![false, false], vec![true, true], vec![true, false], vec![false, true]];
    let trie = build_trie(&cubes);
    let mut valid = Vec::new();
    let count_trie = solver.propcheck_all_trie(&variables, &trie, &mut valid);

    assert_eq!(count, count_trie);
}

#[test]
fn test_propcheck_tieshirt() {
    let mut solver = Solver::default();

    let tie = Lit::new(solver.new_var(), false);
    let shirt = Lit::new(solver.new_var(), false);

    solver.add_clause(&[-tie, shirt]);
    solver.add_clause(&[tie, shirt]);
    solver.add_clause(&[-tie, -shirt]);

    let variables = vec![tie.var(), shirt.var()];
    let count = solver.propcheck_all(&variables);
    assert_eq!(count, 1);
}

fn tie_shirt() -> (Solver, Lit, Lit) {
    let mut solver = Solver::new();
    let tie = solver.new_lit();
    let shirt = solver.new_lit();
    solver.add_clause(&[-tie, shirt]);
    solver.add_clause(&[tie, shirt]);
    solver.add_clause(&[-tie, -shirt]);
    (solver, tie, shirt)
}

#[test]
fn add_clause_creates_variables() {
    let mut solver = Solver::new();
    assert_eq!(solver.num_vars(), 0);
    solver.add_clause_external(&[-1, 2]);
    solver.add_clause_external(&[1, 2]);
    solver.add_clause_external(&[-1, -2]);
    assert_eq!(solver.num_vars(), 2);
    assert_eq!(solver.num_clauses(), 3);
    assert_eq!(solver.num_learnts(), 0);
    // A clause over a larger variable creates every variable up to it.
    solver.add_clause_external(&[5, -4]);
    assert_eq!(solver.num_vars(), 5);
    let last = solver.original_clauses()[3];
    assert_eq!(solver.clause(last).lits(), &[Lit::from_external(5), Lit::from_external(-4)]);
}

#[test]
fn add_clause_unit_and_empty() {
    let mut solver = Solver::new();
    let a = solver.new_lit();
    assert!(solver.add_clause(&[a]));
    assert_eq!(solver.value(a), LBool::True);
    assert_eq!(solver.trail_len(), 1);
    assert_eq!(solver.num_clauses(), 0);
    // The opposite unit fails and makes the solver inconsistent.
    assert!(!solver.add_clause(&[-a]));
    assert!(!solver.is_ok());
    // Nothing is added any more.
    let b = solver.new_lit();
    assert!(!solver.add_clause(&[a, b]));
    assert_eq!(solver.num_clauses(), 0);

    let mut other = Solver::new();
    assert!(!other.add_clause(&[]));
    assert!(!other.is_ok());
}

#[test]
fn propagate_assigns_units() {
    let (mut solver, tie, shirt) = tie_shirt();
    // Deciding tie makes shirt true (clause -tie v shirt) and then (-tie v -shirt) conflicts.
    assert!(solver.is_propagated());
    solver.push_decision(tie);
    assert_eq!(solver.decision_level(), 1);
    let conflict = solver.propagate();
    assert!(conflict.is_some());
    let c = conflict.unwrap();
    for &l in solver.clause(c).lits() {
        assert_eq!(solver.value(l), LBool::False);
    }
    assert_eq!(solver.value(shirt), LBool::True);
    assert_eq!(solver.num_propagations(), 1);
    // Analysis learns the unit -tie, to be asserted at level 0.
    let (lemma, level) = solver.analyze(c);
    assert_eq!(lemma, vec![-tie]);
    assert_eq!(level, 0);
    // Going back to level 0 undoes the decision and what it implied.
    solver.backtrack(0);
    assert_eq!(solver.decision_level(), 0);
    assert_eq!(solver.value(tie), LBool::Undef);
    assert_eq!(solver.value(shirt), LBool::Undef);
    assert_eq!(solver.trail_len(), 0);
}

#[test]
fn conflict_handling_learns_and_backjumps() {
    let (mut solver, tie, shirt) = tie_shirt();
    solver.push_decision(tie);
    assert!(solver.propagate_analyze_backtrack());
    // The learnt unit -tie is asserted at level 0, and propagation gives shirt.
    assert_eq!(solver.decision_level(), 0);
    assert_eq!(solver.num_conflicts(), 1);
    assert_eq!(solver.value(tie), LBool::False);
    assert_eq!(solver.value(shirt), LBool::True);
    assert!(solver.is_propagated());
    let events = solver.take_events();
    assert!(events.contains(&ActivityEvent::Decay));
    assert!(events.contains(&ActivityEvent::BumpVar(tie.var())));
    assert!(solver.take_events().is_empty());
}

#[test]
fn root_conflict_is_unsat() {
    let mut solver = Solver::new();
    let a = solver.new_lit();
    let b = solver.new_lit();
    solver.add_clause(&[a, b]);
    solver.add_clause(&[a, -b]);
    solver.add_clause(&[-a, b]);
    solver.add_clause(&[-a, -b]);
    solver.push_decision(a);
    // Conflict at level 1 learns -a; then at level 0, b and -b conflict.
    assert!(!solver.propagate_analyze_backtrack());
    assert_eq!(solver.decision_level(), 0);
    assert_eq!(solver.num_conflicts(), 2);
}

#[test]
fn propcheck_restores_state() {
    let (mut solver, tie, shirt) = tie_shirt();
    let trail = solver.trail_len();
    let (ok, propagated) = solver.propcheck_save_propagated(&[tie]);
    assert!(!ok);
    // The decision tie, its consequence shirt, and the first literal of the conflict clause.
    assert_eq!(propagated.len(), 3);
    assert_eq!(propagated[0], tie);
    assert_eq!(propagated[1], shirt);
    assert_eq!(solver.decision_level(), 0);
    assert_eq!(solver.trail_len(), trail);
    assert_eq!(solver.value(tie), LBool::Undef);

    let (ok, num) = solver.propcheck_num_propagated(&[-tie]);
    assert!(ok);
    // -tie, then shirt from (tie v shirt).
    assert_eq!(num, 2);
    assert_eq!(solver.value(shirt), LBool::Undef);

    let mut out = vec![tie];
    let mut n = 7u64;
    assert!(solver.propcheck(&[-tie, shirt], Some(&mut out), Some(&mut n)));
    assert_eq!(out, vec![-tie, shirt]);
    assert_eq!(n, 2);
    assert!(solver.is_ok());
}

#[test]
fn propcheck_all_counts() {
    let mut solver = Solver::new();
    let a = solver.new_lit();
    let b = solver.new_lit();
    let c = solver.new_lit();
    // a -> b
    solver.add_clause(&[-a, b]);
    let vars = vec![a.var(), b.var(), c.var()];
    // Of the 8 sign vectors, (a, -b) is refuted: 6 remain.
    assert_eq!(solver.propcheck_all(&vars), 6);
    let mut learnts = Vec::new();
    assert_eq!(solver.propcheck_all_tree(&vars, 0, false, &mut learnts), 6);
    assert!(learnts.is_empty());
    // With a limit the walk stops once the count exceeds it.
    assert_eq!(solver.propcheck_all_tree(&vars, 2, false, &mut learnts), 3);
    assert_eq!(solver.propcheck_all(&[]), 1);
    assert_eq!(solver.propcheck_all_tree(&[], 0, false, &mut learnts), 0);
}

#[test]
fn propcheck_all_tree_learns() {
    let (mut solver, tie, shirt) = tie_shirt();
    let mut learnts = Vec::new();
    let count = solver.propcheck_all_tree(&[tie.var(), shirt.var()], 0, true, &mut learnts);
    assert_eq!(count, 1);
    assert_eq!(learnts, vec![vec![-tie]]);
    // The learnt unit is now fixed.
    assert_eq!(solver.value(tie), LBool::False);
    assert_eq!(solver.value(shirt), LBool::True);
    assert_eq!(solver.decision_level(), 0);
}

#[test]
fn propcheck_all_trie_reports_valid_cubes() {
    let mut solver = Solver::new();
    let a = solver.new_lit();
    let b = solver.new_lit();
    solver.add_clause(&[-a, b]);
    let vars = vec![a.var(), b.var()];
    // Only the cubes in the trie are tried: (a, -b) is refuted, (a, b) passes.
    let trie = build_trie(&[vec![false, true], vec![false, false]]);
    let mut valid = Vec::new();
    let n = solver.propcheck_all_trie(&vars, &trie, &mut valid);
    assert_eq!(n, 1);
    assert_eq!(valid, vec![vec![a, b]]);
    let trie = build_trie(&[vec![false, true]]);
    let mut valid = Vec::new();
    assert_eq!(solver.propcheck_all_trie(&vars, &trie, &mut valid), 0);
    assert!(valid.is_empty());
}

#[test]
fn decisions_follow_assumptions() {
    let (mut solver, tie, shirt) = tie_shirt();
    // The first assumption is unassigned: it is the next decision.
    assert_eq!(solver.decide(&[tie]), Ok(Some(tie)));
    solver.push_decision(-tie);
    assert!(solver.propagate().is_none());
    assert_eq!(solver.value(shirt), LBool::True);
    // -tie holds (an empty level is opened for it); shirt holds too; then none is left.
    assert_eq!(solver.decide(&[-tie, -tie, shirt]), Ok(None));
    assert_eq!(solver.decision_level(), 3);
    solver.backtrack(0);
    solver.push_decision(-tie);
    solver.propagate();
    // A false assumption is explained by the decisions it depends on.
    let res = solver.decide(&[-tie, -shirt]);
    assert_eq!(res, Err(vec![shirt, tie]));
    solver.restart();
    assert_eq!(solver.num_restarts(), 1);
    assert_eq!(solver.decision_level(), 0);
    let v = Var::new(0);
    assert_eq!(solver.pick_phase(v), Lit::new(v, true));
    assert_eq!(solver.branch(Some(v)), Some(Lit::new(v, true)));
    assert_eq!(solver.branch(None), None);
    assert_eq!(solver.num_decisions(), 1);
}

#[test]
fn learnt_clauses_and_reduction() {
    let mut solver = Solver::new();
    let a = solver.new_lit();
    let b = solver.new_lit();
    let c = solver.new_lit();
    assert!(solver.add_learnt(&[a, b, c]));
    assert!(solver.add_learnt(&[-a, b]));
    assert_eq!(solver.num_learnts(), 2);
    let learnts: Vec<_> = solver.learnt_clauses().to_vec();
    // Reduce: the long learnt clause is a candidate and goes, the binary one stays.
    solver.reduce_db(&learnts, &[true, true]);
    assert_eq!(solver.num_reduces(), 1);
    assert_eq!(solver.learnt_clauses(), &[learnts[1]]);
    assert!(solver.clause(learnts[0]).is_deleted());
    // A unit learnt is assigned and propagated.
    assert!(solver.add_learnt(&[a]));
    assert_eq!(solver.value(b), LBool::True);
    assert!(solver.num_simplifies() >= 1);
}

#[test]
fn simplify_removes_satisfied_clauses() {
    let mut solver = Solver::new();
    let a = solver.new_lit();
    let b = solver.new_lit();
    let c = solver.new_lit();
    solver.add_clause(&[a, b]);
    solver.add_clause(&[b, c, -a]);
    solver.add_clause(&[a]);
    assert!(solver.propagate().is_none());
    solver.simplify();
    let first = solver.original_clauses()[0];
    let second = solver.original_clauses()[1];
    assert!(solver.clause(first).is_deleted());
    assert!(!solver.clause(second).is_deleted());
    assert_eq!(solver.clause(second).lits(), &[b, c]);
    assert_eq!(solver.num_free_vars(), 2);
}

#[test]
fn solve_result_names() {
    assert_eq!(SolveResult::Sat.as_str(), "SAT");
    assert_eq!(SolveResult::Unsat.as_str(), "UNSAT");
    assert_eq!(SolveResult::Unknown.as_str(), "UNKNOWN");
}

#[test]
fn reset_empties_the_solver() {
    let (mut solver, _, _) = tie_shirt();
    solver.reset();
    assert_eq!(solver.num_vars(), 0);
    assert_eq!(solver.num_clauses(), 0);
    assert!(solver.is_ok());
}

/// Runs the library's own search steps (propagate, learn, backjump, branch on the first
/// unassigned variable) until every variable is assigned or the formula is refuted.
fn search(solver: &mut Solver) -> bool {
    loop {
        if !solver.propagate_analyze_backtrack() {
            return false;
        }
        let mut next = None;
        for v in 0..solver.num_vars() {
            let var = Var::new(v as u32);
            if solver.value_var(var) == LBool::Undef {
                next = Some(var);
                break;
            }
        }
        match solver.branch(next) {
            None => return true,
            Some(lit) => solver.push_decision(lit),
        }
    }
}

fn satisfies_all(solver: &Solver, clauses: &[Vec<i32>]) -> bool {
    clauses.iter().all(|c| c.iter().any(|&l| solver.value(Lit::from_external(l)) == LBool::True))
}

#[test]
fn model_satisfies_every_clause() {
    // A satisfiable formula with implications that force several propagations.
    let clauses: Vec<Vec<i32>> = vec![
        vec![1, 2, 3],
        vec![-1, 4],
        vec![-4, 5],
        vec![-5, -2],
        vec![2, -3, 6],
        vec![-6, 1],
        vec![3, 4, -5],
        vec![-2, -3],
    ];
    let mut solver = Solver::new();
    for c in &clauses {
        solver.add_clause_external(c);
    }
    assert!(search(&mut solver));
    for v in 0..solver.num_vars() {
        assert_ne!(solver.value_var(Var::new(v as u32)), LBool::Undef);
    }
    assert!(satisfies_all(&solver, &clauses));
}

#[test]
fn model_after_simplification() {
    // Units fixed at level 0 let `simplify` delete and shrink clauses; the model still
    // satisfies every clause as given.
    let clauses: Vec<Vec<i32>> = vec![vec![1], vec![1, 2, 3], vec![-1, 2, 4], vec![-2, -4], vec![3, -4, 5], vec![-5, -3]];
    let mut solver = Solver::new();
    for c in &clauses {
        solver.add_clause_external(c);
    }
    assert!(solver.propagate().is_none());
    solver.simplify();
    assert!(search(&mut solver));
    assert!(satisfies_all(&solver, &clauses));
}

#[test]
fn refuted_formula_is_reported() {
    // Every sign pattern over two variables is forbidden.
    let clauses: Vec<Vec<i32>> = vec![vec![1, 2], vec![-1, 2], vec![1, -2], vec![-1, -2]];
    let mut solver = Solver::new();
    for c in &clauses {
        solver.add_clause_external(c);
    }
    assert!(!search(&mut solver));
    assert_eq!(solver.decision_level(), 0);
}

#[test]
fn model_after_cube_walks() {
    // The cube walks leave propagation complete: a later search still ends in a model.
    let clauses: Vec<Vec<i32>> = vec![vec![1, 2], vec![-1, 3], vec![-2, 3, 4], vec![-3, -4], vec![2, 4, 5]];
    let mut solver = Solver::new();
    for c in &clauses {
        solver.add_clause_external(c);
    }
    let variables = vec![Var::new(0), Var::new(1)];
    let count = solver.propcheck_all(&variables);
    let mut learnts = Vec::new();
    assert_eq!(solver.propcheck_all_tree(&variables, 0, false, &mut learnts), count);
    let cubes = vec![vec![false, true], vec![true, false], vec![true, true]];
    let trie = build_trie(&cubes);
    let mut valid = Vec::new();
    solver.propcheck_all_trie(&variables, &trie, &mut valid);
    assert!(search(&mut solver));
    assert!(satisfies_all(&solver, &clauses));
}

fn model_satisfies(model: u32, clause: &[Lit]) -> bool {
    clause.iter().any(|l| ((model >> l.var().index()) & 1 == 1) != l.negated())
}

#[test]
fn learnt_clause_follows_from_formula() {
    // Two decisions lead to a conflict at level 2; the learnt clause holds in every
    // assignment that satisfies the formula.
    let clauses: Vec<Vec<i32>> = vec![vec![-1, 3], vec![-2, -3, 4], vec![-2, 5], vec![-4, -5, 6], vec![-4, -5, -6]];
    let mut solver = Solver::new();
    for c in &clauses {
        solver.add_clause_external(c);
    }
    solver.push_decision(Lit::from_external(1));
    assert!(solver.propagate().is_none());
    solver.push_decision(Lit::from_external(2));
    let conflict = solver.propagate();
    assert!(conflict.is_some());
    let (lemma, level) = solver.analyze(conflict.unwrap());
    assert_eq!(solver.value(lemma[0]), LBool::False);
    assert!(lemma.len() >= 2);
    assert_eq!(level, 1);
    let lits: Vec<Vec<Lit>> = clauses.iter().map(|c| c.iter().map(|&l| Lit::from_external(l)).collect()).collect();
    let n = solver.num_vars() as u32;
    let mut models = 0;
    for model in 0..(1u32 << n) {
        if lits.iter().all(|c| model_satisfies(model, c)) {
            models += 1;
            assert!(model_satisfies(model, &lemma));
        }
    }
    assert!(models > 0);
}

#[test]
fn root_literals_hold_in_every_model() {
    // Units and the literals they force at level 0 are true in every model of the formula.
    let clauses: Vec<Vec<i32>> = vec![vec![1], vec![-1, 2], vec![-2, -3], vec![3, 4, 5], vec![-4, 6]];
    let mut solver = Solver::new();
    for c in &clauses {
        solver.add_clause_external(c);
    }
    assert!(solver.propagate().is_none());
    assert_eq!(solver.decision_level(), 0);
    assert_eq!(solver.trail_len(), 3);
    let lits: Vec<Vec<Lit>> = clauses.iter().map(|c| c.iter().map(|&l| Lit::from_external(l)).collect()).collect();
    let n = solver.num_vars() as u32;
    let mut models = 0;
    for model in 0..(1u32 << n) {
        if lits.iter().all(|c| model_satisfies(model, c)) {
            models += 1;
            for v in 0..n {
                let var = Var::new(v);
                let value = solver.value_var(var);
                if value != LBool::Undef {
                    assert_eq!((model >> v) & 1 == 1, value == LBool::True);
                }
            }
        }
    }
    assert!(models > 0);
}

#[test]
fn refutation_has_no_model() {
    // The search reports a refutation only for a formula without a model.
    let clauses: Vec<Vec<i32>> = vec![vec![1, 2], vec![-1, 3], vec![-2, 3], vec![-3, 4], vec![-3, -4]];
    let mut solver = Solver::new();
    for c in &clauses {
        solver.add_clause_external(c);
    }
    assert!(!search(&mut solver));
    let lits: Vec<Vec<Lit>> = clauses.iter().map(|c| c.iter().map(|&l| Lit::from_external(l)).collect()).collect();
    let n = solver.num_vars() as u32;
    for model in 0..(1u32 << n) {
        assert!(!lits.iter().all(|c| model_satisfies(model, c)));
    }
}

#[test]
fn rejected_cubes_have_no_model() {
    // A cube that the check rejects has no model together with the formula; one it accepts
    // here does.
    let clauses: Vec<Vec<i32>> = vec![vec![-1, 2], vec![-2, 3], vec![-1, -3, 4], vec![-4, -5], vec![5, 6]];
    let mut solver = Solver::new();
    for c in &clauses {
        solver.add_clause_external(c);
    }
    let lits: Vec<Vec<Lit>> = clauses.iter().map(|c| c.iter().map(|&l| Lit::from_external(l)).collect()).collect();
    let n = solver.num_vars() as u32;
    let cubes: Vec<Vec<i32>> = vec![vec![1, 5], vec![1, -5], vec![1, 6], vec![-6, 4]];
    let mut rejected = 0;
    for cube in &cubes {
        let assumptions: Vec<Lit> = cube.iter().map(|&l| Lit::from_external(l)).collect();
        let ok = solver.propcheck(&assumptions, None, None);
        assert_eq!(solver.decision_level(), 0);
        let has_model = (0..(1u32 << n)).any(|model| {
            lits.iter().all(|c| model_satisfies(model, c)) && assumptions.iter().all(|l| model_satisfies(model, &[*l]))
        });
        if !ok {
            rejected += 1;
            assert!(!has_model);
        } else {
            assert!(has_model);
        }
    }
    assert_eq!(rejected, 2);
}

#[test]
fn final_conflict_follows_from_formula() {
    // The explanation of a false assumption holds in every model of the formula.
    let clauses: Vec<Vec<i32>> = vec![vec![-1, 2], vec![-2, -4, 5], vec![-5, -3], vec![3, 6]];
    let mut solver = Solver::new();
    for c in &clauses {
        solver.add_clause_external(c);
    }
    let a = [Lit::from_external(1), Lit::from_external(4), Lit::from_external(3)];
    assert_eq!(solver.decide(&a), Ok(Some(a[0])));
    solver.push_decision(a[0]);
    assert!(solver.propagate().is_none());
    assert_eq!(solver.decide(&a), Ok(Some(a[1])));
    solver.push_decision(a[1]);
    assert!(solver.propagate().is_none());
    let res = solver.decide(&a);
    let c = match res {
        Err(c) => c,
        _ => panic!("the last assumption is false"),
    };
    assert_eq!(c[0], Lit::from_external(-3));
    assert_eq!(c.len(), 3);
    let lits: Vec<Vec<Lit>> = clauses.iter().map(|c| c.iter().map(|&l| Lit::from_external(l)).collect()).collect();
    let n = solver.num_vars() as u32;
    for model in 0..(1u32 << n) {
        if lits.iter().all(|cl| model_satisfies(model, cl)) {
            assert!(model_satisfies(model, &c));
        }
    }
}

#[test]
fn cube_count_covers_consistent_cubes() {
    // Every cube that has a model together with the formula is counted.
    let clauses: Vec<Vec<i32>> = vec![vec![-1, 2], vec![-2, 3], vec![-1, -3, 4], vec![-4, -5], vec![5, 6]];
    let mut solver = Solver::new();
    for c in &clauses {
        solver.add_clause_external(c);
    }
    let lits: Vec<Vec<Lit>> = clauses.iter().map(|c| c.iter().map(|&l| Lit::from_external(l)).collect()).collect();
    let n = solver.num_vars() as u32;
    let variables = vec![Var::new(0), Var::new(4), Var::new(5)];
    let count = solver.propcheck_all(&variables);
    let mut consistent = 0u64;
    for signs in 0..8u32 {
        let cube: Vec<Lit> = (0..3).map(|i| Lit::new(variables[i], (signs >> (2 - i)) & 1 == 1)).collect();
        let has_model = (0..(1u32 << n)).any(|model| {
            lits.iter().all(|c| model_satisfies(model, c)) && cube.iter().all(|l| model_satisfies(model, &[*l]))
        });
        if has_model {
            consistent += 1;
        }
    }
    assert!(consistent > 0);
    assert!(count >= consistent);
}

#[test]
fn tree_count_covers_consistent_cubes() {
    // Every cube that has a model together with the formula survives the tree walk.
    let clauses: Vec<Vec<i32>> = vec![vec![-1, 2], vec![-2, 3], vec![-1, -3, 4], vec![-4, -5], vec![5, 6]];
    let mut solver = Solver::new();
    for c in &clauses {
        solver.add_clause_external(c);
    }
    let lits: Vec<Vec<Lit>> = clauses.iter().map(|c| c.iter().map(|&l| Lit::from_external(l)).collect()).collect();
    let n = solver.num_vars() as u32;
    let variables = vec![Var::new(0), Var::new(4), Var::new(5)];
    let mut learnts: Vec<Vec<Lit>> = Vec::new();
    let count = solver.propcheck_all_tree(&variables, 0, false, &mut learnts);
    let mut consistent = 0u64;
    for signs in 0..8u32 {
        let cube: Vec<Lit> = (0..3).map(|i| Lit::new(variables[i], (signs >> (2 - i)) & 1 == 1)).collect();
        let has_model = (0..(1u32 << n)).any(|model| {
            lits.iter().all(|c| model_satisfies(model, c)) && cube.iter().all(|l| model_satisfies(model, &[*l]))
        });
        if has_model {
            consistent += 1;
        }
    }
    assert!(consistent > 0);
    assert!(count >= consistent);
    assert!(learnts.is_empty());
}

#[test]
fn trie_count_covers_consistent_cubes_in_trie() {
    // Every cube of the trie that has a model together with the formula is reported.
    let clauses: Vec<Vec<i32>> = vec![vec![-1, 2], vec![-2, 3], vec![-1, -3, 4], vec![-4, -5], vec![5, 6]];
    let mut solver = Solver::new();
    for c in &clauses {
        solver.add_clause_external(c);
    }
    let lits: Vec<Vec<Lit>> = clauses.iter().map(|c| c.iter().map(|&l| Lit::from_external(l)).collect()).collect();
    let n = solver.num_vars() as u32;
    let variables = vec![Var::new(0), Var::new(4), Var::new(5)];
    let cubes = vec![vec![false, true, true], vec![true, true, false], vec![true, false, true], vec![false, false, false]];
    let trie = build_trie(&cubes);
    let mut valid = Vec::new();
    let count = solver.propcheck_all_trie(&variables, &trie, &mut valid);
    let mut consistent = 0u64;
    for signs in &cubes {
        let cube: Vec<Lit> = (0..3).map(|i| Lit::new(variables[i], signs[i])).collect();
        let has_model = (0..(1u32 << n)).any(|model| {
            lits.iter().all(|c| model_satisfies(model, c)) && cube.iter().all(|l| model_satisfies(model, &[*l]))
        });
        if has_model {
            consistent += 1;
            assert!(valid.contains(&cube));
        }
    }
    assert!(consistent > 0);
    assert!(count >= consistent);
    assert_eq!(valid.len() as u64, count);
}

/// Runs the search steps without restarts or heuristics, branching on the first unassigned
/// variable.
fn solve_by_steps(solver: &mut Solver, assumptions: &[Lit]) -> SolveResult {
    if !solver.is_ok() {
        return SolveResult::Unsat;
    }
    loop {
        match solver.search_propagate(usize::MAX) {
            SearchStep::Unsat => return SolveResult::Unsat,
            SearchStep::Restart => return SolveResult::Unknown,
            _ => {}
        }
        let mut step = solver.search_assume(assumptions);
        if let SearchStep::Branch = step {
            step = solver.search_branch(None);
        }
        match step {
            SearchStep::Sat => return SolveResult::Sat,
            SearchStep::AssumptionsConflict(_) => return SolveResult::Unsat,
            _ => {}
        }
    }
}

#[test]
fn test_auto_create_variables() {
    let mut solver = Solver::default();
    assert_eq!(solver.num_vars(), 0);
    solver.add_clause_external(&[-1, 2]);
    solver.add_clause_external(&[1, 2]);
    solver.add_clause_external(&[-1, -2]);
    assert_eq!(solver.num_vars(), 2);

    let res = solve_by_steps(&mut solver, &[]);
    assert_eq!(res, SolveResult::Sat);

    assert_eq!(solver.value(Lit::from_external(1)), LBool::False);
    assert_eq!(solver.value(Lit::from_external(2)), LBool::True);
}

#[test]
fn search_steps_refute_and_report_assumption_conflicts() {
    let (mut solver, tie, shirt) = tie_shirt();
    assert_eq!(solve_by_steps(&mut solver, &[tie]), SolveResult::Unsat);
    solver.backtrack(0);
    // The assumption `tie` is false after propagation: its negation is the conflict clause.
    assert!(matches!(solver.search_propagate(usize::MAX), SearchStep::Continue));
    match solver.search_assume(&[tie]) {
        SearchStep::AssumptionsConflict(c) => assert_eq!(c[0], -tie),
        other => panic!("unexpected step {:?}", other),
    }
    solver.backtrack(0);
    assert_eq!(solve_by_steps(&mut solver, &[shirt]), SolveResult::Sat);
    solver.add_clause(&[-shirt]);
    assert_eq!(solve_by_steps(&mut solver, &[]), SolveResult::Unsat);
}

#[test]
fn search_branch_takes_first_unassigned_variable() {
    let mut solver = Solver::new();
    let a = solver.new_lit();
    let b = solver.new_lit();
    solver.add_clause(&[a, b]);
    assert!(matches!(solver.search_propagate(usize::MAX), SearchStep::Continue));
    assert!(matches!(solver.search_assume(&[]), SearchStep::Branch));
    // `b` is unassigned: it is taken as given.
    assert!(matches!(solver.search_branch(Some(b.var())), SearchStep::Continue));
    assert_eq!(solver.decision_level(), 1);
    assert!(solver.value(b) != LBool::Undef);
}

#[test]
fn conflict_above_level_zero_is_learnt() {
    let mut solver = Solver::new();
    let a = solver.new_lit();
    let b = solver.new_lit();
    let c = solver.new_lit();
    solver.add_clause(&[-a, b]);
    solver.add_clause(&[-a, -b, c]);
    solver.add_clause(&[-a, -b, -c]);
    assert!(solver.propagate_analyze_backtrack());
    let learnts = solver.num_learnts();
    let conflicts = solver.num_conflicts();
    solver.push_decision(a);
    assert!(solver.propagate_analyze_backtrack());
    // The conflict after deciding `a` is learnt as the unit `-a`, fixed at level 0.
    assert!(solver.num_conflicts() > conflicts);
    assert_eq!(solver.decision_level(), 0);
    assert_eq!(solver.value(a), LBool::False);
    assert!(solver.num_learnts() >= learnts);
}

#[test]
fn propcheck_lists_forced_literals() {
    let mut solver = Solver::new();
    let a = solver.new_lit();
    let b = solver.new_lit();
    let c = solver.new_lit();
    let d = solver.new_lit();
    // a -> b -> c; d is free.
    solver.add_clause(&[-a, b]);
    solver.add_clause(&[-b, c]);
    let (ok, propagated) = solver.propcheck_save_propagated(&[a]);
    assert!(ok);
    assert_eq!(propagated.len(), 3);
    assert!(propagated.contains(&a) && propagated.contains(&b) && propagated.contains(&c));
    assert!(!propagated.contains(&d) && !propagated.contains(&-d));
    assert_eq!(solver.propcheck_num_propagated(&[a]), (true, 3));
    assert_eq!(solver.propcheck_num_propagated(&[b]), (true, 2));
    assert_eq!(solver.propcheck_num_propagated(&[c, d]), (true, 2));
    assert_eq!(solver.value(a), LBool::Undef);
}
