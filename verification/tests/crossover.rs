use optopus::graph::Graph;
use optopus::qubo::Qubo;
use optopus::qubo_crossover::QuboUniformCrossover;
use optopus::qubo_sub::make_sub_problem_from;
use optopus::qubo_solution::QuboSolution;
use optopus::sat::{Sat, SatSolution};
use optopus::sat_crossover::SatUniformCrossover;
use optopus::vertex_cover::VertexCover;
use optopus::vertex_cover_moves::VertexCoverUniformCrossover;
use rand::rngs::SmallRng;
use rand::SeedableRng;

fn make_qubo() -> Qubo {
    let mut q = Qubo::new();
    q.set_q(0, 1, 1);
    q.set_q(1, 2, 2);
    q.set_q(0, 2, 3);
    q.set_q(2, 2, 1);
    q
}

fn make_qubo_sol(qubo: &Qubo, assignments: &[(usize, bool)]) -> QuboSolution {
    let n = qubo.iter_on_variables().iter().copied().max().map(|m| m + 1).unwrap_or(0);
    let mut x = vec![false; n];
    for &(i, v) in assignments {
        x[i] = v;
    }
    QuboSolution::new_from_assignment(qubo, x)
}

fn make_sat() -> Sat {
    let mut sat = Sat::new(3);
    sat.add_clause(&[1, 2]);
    sat.add_clause(&[-1, 3]);
    sat.add_clause(&[-2, -3]);
    sat
}

fn make_sat_sol(sat: &Sat, x: Vec<bool>) -> SatSolution {
    let gain: Vec<i64> = (0..sat.n_vars()).map(|i| sat.calc_gain(&x, i)).collect();
    let n_satisfied = sat.calc_satisfied(&x);
    SatSolution { x, gain, n_satisfied }
}

fn make_vc() -> VertexCover {
    let mut g = Graph::new();
    g.add_edge(0, 1);
    g.add_edge(1, 2);
    g.add_edge(0, 2);
    VertexCover::new(g)
}

#[test]
fn crossover_test_extract_sub_problem_size() {
    let qubo = make_qubo();
    let s = make_qubo_sol(&qubo, &[(0, false), (1, true), (2, false)]);
    let sub_same = qubo.extract_sub_problem(&s, &s);
    assert_eq!(sub_same.num_of_variables(), 0, "identical parents → 0 free variables");
    let all_f = make_qubo_sol(&qubo, &[(0, false), (1, false), (2, false)]);
    let all_t = make_qubo_sol(&qubo, &[(0, true), (1, true), (2, true)]);
    let sub_diff = qubo.extract_sub_problem(&all_f, &all_t);
    assert_eq!(sub_diff.num_of_variables(), 3, "all-different parents → 3 free variables");

    let sat = make_sat();
    let s = make_sat_sol(&sat, vec![true, false, true]);
    let sub_same = sat.extract_sub_problem(&s, &s);
    assert_eq!(sub_same.n_vars(), 0, "identical parents → 0 free variables");
    let all_f = make_sat_sol(&sat, vec![false, false, false]);
    let all_t = make_sat_sol(&sat, vec![true, true, true]);
    let sub_diff = sat.extract_sub_problem(&all_f, &all_t);
    assert_eq!(sub_diff.n_vars(), 3, "all-different parents → 3 free variables");

    let vc = make_vc();
    let s = vc.solution_from_assignment(&[true, false, true]);
    let sub_same = vc.extract_sub_problem(&s, &s);
    assert_eq!(sub_same.graph.len(), 0);
    let all_f = vc.solution_from_assignment(&[false, false, false]);
    let all_t = vc.solution_from_assignment(&[true, true, true]);
    let sub_diff = vc.extract_sub_problem(&all_f, &all_t);
    assert_eq!(sub_diff.graph.len(), 3);
}

#[test]
fn crossover_test_lift_solution() {
    let qubo = make_qubo();
    let parent_a = make_qubo_sol(&qubo, &[(0, false), (1, false), (2, false)]);
    let parent_b = make_qubo_sol(&qubo, &[(0, true), (1, true), (2, false)]);
    let sub = qubo.extract_sub_problem(&parent_a, &parent_b);
    let sub_sol = make_qubo_sol(&sub, &[(0, true), (1, false)]);
    let lifted = qubo.lift_solution(&parent_a, &parent_b, &sub_sol);
    assert_eq!(lifted.x[2], parent_a.x[2], "fixed var 2 inherits from parent_a");
    assert_eq!(lifted.x[0], sub_sol.x[0], "free var 0 comes from sub_solution");
    assert_eq!(lifted.x[1], sub_sol.x[1], "free var 1 comes from sub_solution");
    for &i in qubo.iter_on_variables() {
        let g = lifted.gain[i];
        let mut flipped = lifted.x.clone();
        flipped[i] = !flipped[i];
        let expected = qubo.calculate_energy(&flipped) - lifted.objective;
        assert_eq!(g, expected, "lifted gain[{i}] mismatch");
    }

    let sat = make_sat();
    let parent_a = make_sat_sol(&sat, vec![false, false, false]);
    let parent_b = make_sat_sol(&sat, vec![false, true, true]);
    let sub = sat.extract_sub_problem(&parent_a, &parent_b);
    let sub_sol = make_sat_sol(&sub, vec![true, false]);
    let lifted = sat.lift_solution(&parent_a, &parent_b, &sub_sol);
    assert_eq!(lifted.x[0], parent_a.x[0], "fixed var 0 inherits from parent_a");
    assert_eq!(lifted.x[1], sub_sol.x[0], "free var 1 (sub idx 0) from sub_solution");
    assert_eq!(lifted.x[2], sub_sol.x[1], "free var 2 (sub idx 1) from sub_solution");
    assert_eq!(lifted.n_satisfied, sat.calc_satisfied(&lifted.x));

    let vc = make_vc();
    let parent_a = vc.solution_from_assignment(&[false, false, false]);
    let parent_b = vc.solution_from_assignment(&[false, true, true]);
    let sub = vc.extract_sub_problem(&parent_a, &parent_b);
    let sub_sol = sub.solution_from_assignment(&[false, true, false]);
    let lifted = vc.lift_solution(&parent_a, &parent_b, &sub_sol);
    assert_eq!(lifted.cover[0], parent_a.cover[0]);
    assert_eq!(lifted.cover[1], sub_sol.cover[1]);
    assert_eq!(lifted.cover[2], sub_sol.cover[2]);
    let (gain, obj, cs, ue) = vc.calculate_state(&lifted.cover);
    assert_eq!(lifted.gain, gain);
    assert_eq!(lifted.objective, obj);
    assert_eq!(lifted.cover_size, cs);
    assert_eq!(lifted.uncovered_edges, ue);
}

#[test]
fn crossover_test_uniform_crossover_identical_parents() {
    let mut rng = SmallRng::seed_from_u64(0);
    let qubo = make_qubo();
    let s = make_qubo_sol(&qubo, &[(0, false), (1, true), (2, false)]);
    let offspring = QuboUniformCrossover.crossover(&qubo, &s, &s, &mut rng);
    assert_eq!(offspring.x, s.x);
    assert_eq!(offspring.objective, s.objective);

    let sat = make_sat();
    let s = make_sat_sol(&sat, vec![true, false, true]);
    let offspring = SatUniformCrossover.crossover(&sat, &s, &s, &mut rng);
    assert_eq!(offspring.x, s.x);
    assert_eq!(offspring.n_satisfied, s.n_satisfied);

    let vc = make_vc();
    let s = vc.solution_from_assignment(&[true, false, true]);
    let offspring = VertexCoverUniformCrossover.crossover(&vc, &s, &s, &mut rng);
    assert_eq!(offspring.cover, s.cover);
    assert_eq!(offspring.objective, s.objective);
}

#[test]
fn crossover_test_uniform_crossover_gain_consistency() {
    let mut rng = SmallRng::seed_from_u64(0);
    let qubo = make_qubo();
    let a = make_qubo_sol(&qubo, &[(0, false), (1, true), (2, false)]);
    let b = make_qubo_sol(&qubo, &[(0, true), (1, false), (2, true)]);
    let offspring = QuboUniformCrossover.crossover(&qubo, &a, &b, &mut rng);
    for &i in qubo.iter_on_variables() {
        let mut flipped = offspring.x.clone();
        flipped[i] = !flipped[i];
        assert_eq!(offspring.gain[i], qubo.calculate_energy(&flipped) - offspring.objective);
    }

    let sat = make_sat();
    let a = make_sat_sol(&sat, vec![true, false, true]);
    let b = make_sat_sol(&sat, vec![false, true, false]);
    let offspring = SatUniformCrossover.crossover(&sat, &a, &b, &mut rng);
    for i in 0..sat.n_vars() {
        let mut flipped = offspring.x.clone();
        flipped[i] = !flipped[i];
        assert_eq!(offspring.gain[i], sat.calc_satisfied(&flipped) as i64 - offspring.n_satisfied as i64);
    }

    let vc = make_vc();
    let a = vc.solution_from_assignment(&[true, false, true]);
    let b = vc.solution_from_assignment(&[false, true, false]);
    let offspring = VertexCoverUniformCrossover.crossover(&vc, &a, &b, &mut rng);
    let (gain, obj, cs, ue) = vc.calculate_state(&offspring.cover);
    assert_eq!(offspring.gain, gain);
    assert_eq!(offspring.objective, obj);
    assert_eq!(offspring.cover_size, cs);
    assert_eq!(offspring.uncovered_edges, ue);
}

#[test]
fn crossover_with_follows_the_picks() {
    let qubo = make_qubo();
    let a = make_qubo_sol(&qubo, &[(0, false), (1, true), (2, false)]);
    let b = make_qubo_sol(&qubo, &[(0, true), (1, false), (2, true)]);
    let child = QuboUniformCrossover::crossover_with(&qubo, &a, &b, &[true, false, true]);
    assert_eq!(child.x, vec![true, true, true]);
    assert_eq!(child.objective, qubo.calculate_energy(&child.x));

    let sat = make_sat();
    let a = make_sat_sol(&sat, vec![true, false, true]);
    let b = make_sat_sol(&sat, vec![false, true, false]);
    let child = SatUniformCrossover::crossover_with(&sat, &a, &b, &[false, false, true]);
    assert_eq!(child.x, vec![true, false, false]);
    assert_eq!(child.n_satisfied, sat.calc_satisfied(&child.x));
}

#[test]
fn qubo_sub_problem_energy_splits_into_free_and_fixed_parts() {
    let mut qubo = make_qubo();
    qubo.set_q(0, 0, -2);
    qubo.set_q(1, 3, 4);
    qubo.set_q(3, 3, -1);
    qubo.set_q(2, 3, -5);
    let p1 = QuboSolution::new_from_assignment(&qubo, vec![true, false, true, true]);
    let p2 = QuboSolution::new_from_assignment(&qubo, vec![true, true, false, true]);
    let sub = make_sub_problem_from(&qubo, &[&p1, &p2]);
    let mut sub_vars = sub.iter_on_variables().to_vec();
    sub_vars.sort();
    assert_eq!(sub_vars, vec![1, 2]);
    let fixed = vec![true, false, false, true];
    for (a, b) in [(false, false), (false, true), (true, false), (true, true)] {
        let z = vec![true, a, b, true];
        assert_eq!(qubo.calculate_energy(&z), sub.calculate_energy(&z) + qubo.calculate_energy(&fixed));
    }
}

#[test]
fn sat_sub_problem_counts_fixed_clauses_plus_its_own() {
    let mut sat = Sat::new(4);
    sat.add_clause(&[1, 2]);
    sat.add_clause(&[-1, 3]);
    sat.add_clause(&[-2, -3]);
    sat.add_clause(&[4, -2]);
    sat.add_clause(&[-4, 3]);
    let x1 = vec![true, false, true, true];
    let x2 = vec![true, true, false, true];
    let s1 = make_sat_sol(&sat, x1.clone());
    let s2 = make_sat_sol(&sat, x2.clone());
    let sub = sat.extract_sub_problem(&s1, &s2);
    assert_eq!(sub.n_vars(), 2);
    // Under x1 the agreed variables 0 and 3 satisfy [1, 2] and [4, -2].
    let fixed = 2;
    for (a, b) in [(false, false), (false, true), (true, false), (true, true)] {
        let z = vec![true, a, b, true];
        assert_eq!(sat.calc_satisfied(&z), fixed + sub.calc_satisfied(&[a, b]));
    }
}

#[test]
fn qubo_sub_problem_with_large_cancelling_coefficients() {
    let mut qubo = Qubo::new();
    qubo.set_q(0, 0, 2_000_000_000);
    qubo.set_q(1, 1, 2_000_000_000);
    qubo.set_q(0, 1, -2_000_000_000);
    let p1 = QuboSolution::new_from_assignment(&qubo, vec![true, false]);
    let p2 = QuboSolution::new_from_assignment(&qubo, vec![true, true]);
    let sub = make_sub_problem_from(&qubo, &[&p1, &p2]);
    assert_eq!(sub.iter_on_variables(), &[1]);
    assert_eq!(sub.get_q(1, 1), 0);
    let fixed = vec![true, false];
    for z in [vec![true, false], vec![true, true]] {
        assert_eq!(qubo.calculate_energy(&z), sub.calculate_energy(&z) + qubo.calculate_energy(&fixed));
    }
    let sub2 = qubo.extract_sub_problem(&p1, &p2);
    assert_eq!(sub2.get_q(1, 1), 0);
}
