use optopus::qubo::Qubo;
use optopus::qubo_moves::{QuboFlipNeighbor, QuboSwapNeighbor};
use optopus::qubo_solution::QuboSolution;
use optopus::sat::{Sat, SatSolution};
use optopus::sat_moves::{SatFlipNeighbor, SatSwapNeighbor};
use optopus::job_shop::{JobShopScheduling, JobShopSolution};
use optopus::job_shop_moves::{JobShopRelocateNeighbor, JobShopSwapNeighbor};
use rand::rngs::SmallRng;
use rand::SeedableRng;

fn make_qubo() -> Qubo {
    let mut q = Qubo::new();
    // 3-variable QUBO: Q[0][1]=1, Q[1][2]=2, Q[0][2]=3, Q[2][2]=1
    q.set_q(0, 1, 1);
    q.set_q(1, 2, 2);
    q.set_q(0, 2, 3);
    q.set_q(2, 2, 1);
    q
}

fn make_qubo_solution(qubo: &Qubo, assignments: &[(usize, bool)]) -> QuboSolution {
    let n = qubo.iter_on_variables().iter().copied().max().map(|m| m + 1).unwrap_or(0);
    let mut x = vec![false; n];
    for &(i, v) in assignments {
        x[i] = v;
    }
    QuboSolution::new_from_assignment(qubo, x)
}

/// (x1 ∨ x2), (¬x1 ∨ x3), (¬x2 ∨ ¬x3)
fn make_sat() -> Sat {
    let mut sat = Sat::new(3);
    sat.add_clause(&[1, 2]);
    sat.add_clause(&[-1, 3]);
    sat.add_clause(&[-2, -3]);
    sat
}

/// job 0: M0(2) → M1(3); job 1: M1(1) → M0(4)
fn make_jssp() -> JobShopScheduling {
    JobShopScheduling::new("tiny".to_string(), 2, vec![vec![(0, 2), (1, 3)], vec![(1, 1), (0, 4)]])
}

fn make_jssp_solution(inst: &JobShopScheduling, ops: Vec<usize>) -> JobShopSolution {
    let (objective, completion_times) = inst.decode(&ops).unwrap();
    JobShopSolution { operations: ops, objective, completion_times }
}

fn make_sat_solution(sat: &Sat, x: Vec<bool>) -> SatSolution {
    let gain: Vec<i64> = (0..sat.n_vars()).map(|i| sat.calc_gain(&x, i)).collect();
    let n_satisfied = sat.calc_satisfied(&x);
    SatSolution { x, gain, n_satisfied }
}

#[test]
fn neighbor_test_flip_apply_consistency() {
    let qubo = make_qubo();
    let sol = make_qubo_solution(&qubo, &[(0, true), (1, false), (2, true)]);
    for neighbor in QuboFlipNeighbor::iter(&qubo, &sol) {
        let mut s = sol.clone();
        neighbor.apply_to_solution(&qubo, &mut s);
        let expected_obj = qubo.calculate_energy(&s.x);
        assert_eq!(s.objective, expected_obj, "flip {}: objective={} expected={}", neighbor.i, s.objective, expected_obj);
        for &i in qubo.iter_on_variables() {
            let expected_gain = qubo.calculate_gain(&s.x, i);
            assert_eq!(s.gain[i], expected_gain, "flip {}: gain[{}]={} expected={}", neighbor.i, i, s.gain[i], expected_gain);
        }
    }

    let sat = make_sat();
    let sol = make_sat_solution(&sat, vec![true, false, true]);
    for neighbor in SatFlipNeighbor::iter(&sat, &sol) {
        let mut s = sol.clone();
        neighbor.apply_to_solution(&sat, &mut s);
        let expected_n_sat = sat.calc_satisfied(&s.x);
        assert_eq!(s.n_satisfied, expected_n_sat, "flip {}: n_satisfied={} expected={}", neighbor.i, s.n_satisfied, expected_n_sat);
        for i in 0..sat.n_vars() {
            let expected_gain = sat.calc_gain(&s.x, i);
            assert_eq!(s.gain[i], expected_gain, "flip {}: gain[{}]={} expected={}", neighbor.i, i, s.gain[i], expected_gain);
        }
    }
}

#[test]
fn neighbor_test_flip_gain_matches_energy_delta() {
    let qubo = make_qubo();
    let sol = make_qubo_solution(&qubo, &[(0, true), (1, false), (2, true)]);
    for neighbor in QuboFlipNeighbor::iter(&qubo, &sol) {
        let mut flipped_x = sol.x.clone();
        flipped_x[neighbor.i] = !flipped_x[neighbor.i];
        let expected_delta = qubo.calculate_energy(&flipped_x) - sol.objective;
        assert_eq!(neighbor.gain, expected_delta, "flip {}: gain={} expected delta={}", neighbor.i, neighbor.gain, expected_delta);
    }

    let sat = make_sat();
    let sol = make_sat_solution(&sat, vec![true, false, true]);
    for neighbor in SatFlipNeighbor::iter(&sat, &sol) {
        let mut x2 = sol.x.clone();
        x2[neighbor.i] = !x2[neighbor.i];
        let expected_delta = sat.calc_satisfied(&x2) as i64 - sol.n_satisfied as i64;
        assert_eq!(neighbor.gain, expected_delta, "flip {}: gain={} expected={}", neighbor.i, neighbor.gain, expected_delta);
    }
}

#[test]
fn neighbor_test_swap_apply_consistency() {
    let qubo = make_qubo();
    let sol = make_qubo_solution(&qubo, &[(0, true), (1, false), (2, true)]);
    for neighbor in QuboSwapNeighbor::iter(&qubo, &sol) {
        let mut s = sol.clone();
        neighbor.apply_to_solution(&qubo, &mut s);
        let expected_obj = qubo.calculate_energy(&s.x);
        assert_eq!(s.objective, expected_obj, "swap ({},{}): objective={} expected={}", neighbor.i, neighbor.j, s.objective, expected_obj);
    }

    let sat = make_sat();
    let sol = make_sat_solution(&sat, vec![true, false, true]);
    for neighbor in SatSwapNeighbor::iter(&sat, &sol) {
        let mut s = sol.clone();
        neighbor.apply_to_solution(&sat, &mut s);
        let expected_n_sat = sat.calc_satisfied(&s.x);
        assert_eq!(s.n_satisfied, expected_n_sat, "swap ({},{}): n_satisfied={} expected={}", neighbor.i, neighbor.j, s.n_satisfied, expected_n_sat);
    }

    let inst = make_jssp();
    let sol = make_jssp_solution(&inst, vec![0, 1, 1, 0]);
    for n in JobShopSwapNeighbor::iter(&inst, &sol) {
        let mut s = sol.clone();
        let before = s.objective;
        n.apply_to_solution(&inst, &mut s).unwrap();
        let recomputed = inst.decode(&s.operations).unwrap().0;
        assert_eq!(s.objective, recomputed);
        assert_eq!(n.gain, s.objective as i64 - before as i64, "swap gain inconsistent at i={}", n.i);
        let mut counts = vec![0usize; inst.n_jobs];
        for &j in &s.operations {
            counts[j] += 1;
        }
        assert_eq!(counts, vec![inst.n_machines, inst.n_machines]);
    }
}

#[test]
fn neighbor_test_swap_gain_matches_energy_delta() {
    let qubo = make_qubo();
    let sol = make_qubo_solution(&qubo, &[(0, true), (1, false), (2, true)]);
    for neighbor in QuboSwapNeighbor::iter(&qubo, &sol) {
        let mut flipped_x = sol.x.clone();
        flipped_x[neighbor.i] = !flipped_x[neighbor.i];
        flipped_x[neighbor.j] = !flipped_x[neighbor.j];
        let expected_delta = qubo.calculate_energy(&flipped_x) - sol.objective;
        assert_eq!(neighbor.gain, expected_delta, "swap ({},{}): gain={} expected delta={}", neighbor.i, neighbor.j, neighbor.gain, expected_delta);
    }

    let sat = make_sat();
    let sol = make_sat_solution(&sat, vec![true, false, true]);
    for neighbor in SatSwapNeighbor::iter(&sat, &sol) {
        let mut x2 = sol.x.clone();
        x2[neighbor.i] = !x2[neighbor.i];
        x2[neighbor.j] = !x2[neighbor.j];
        let expected_delta = sat.calc_satisfied(&x2) as i64 - sol.n_satisfied as i64;
        assert_eq!(neighbor.gain, expected_delta, "swap ({},{}): gain={} expected={}", neighbor.i, neighbor.j, neighbor.gain, expected_delta);
    }
}

#[test]
fn neighbor_test_search_state_new() {
    let mut rng = SmallRng::seed_from_u64(0);
    let qubo = make_qubo();
    let sol = qubo.new_solution(&mut rng);
    assert_eq!(sol.x.len(), qubo.len());
    assert_eq!(sol.objective, qubo.calculate_energy(&sol.x));

    let sat = make_sat();
    let sol = sat.new_solution(&mut rng);
    assert_eq!(sol.x.len(), sat.n_vars());
    assert_eq!(sol.n_satisfied, sat.calc_satisfied(&sol.x));
}

#[test]
fn swap_neighbors_pair_opposite_values() {
    let qubo = make_qubo();
    let sol = make_qubo_solution(&qubo, &[(0, true), (1, false), (2, true)]);
    let swaps = QuboSwapNeighbor::iter(&qubo, &sol);
    assert!(!swaps.is_empty());
    for s in &swaps {
        assert_ne!(sol.x[s.i], sol.x[s.j]);
    }
    let sat = make_sat();
    let sol = make_sat_solution(&sat, vec![true, false, true]);
    for s in SatSwapNeighbor::iter(&sat, &sol) {
        assert_ne!(s.i, s.j);
    }
}

#[test]
fn flip_move_reads_the_gain_and_distance_counts_flips() {
    let qubo = make_qubo();
    let sol = make_qubo_solution(&qubo, &[(0, true), (1, false), (2, true)]);
    let m = Qubo::flip_move(&sol, 2);
    assert_eq!((m.i, m.gain), (2, sol.gain[2]));
    let mut s = sol.clone();
    m.apply_to_solution(&qubo, &mut s);
    assert_eq!(sol.distance(&s), 1);

    let sat = make_sat();
    let sol = make_sat_solution(&sat, vec![true, false, true]);
    let m = Sat::flip_move(&sol, 1);
    assert_eq!((m.i, m.gain), (1, sol.gain[1]));
    let mut s = sol.clone();
    m.apply_to_solution(&sat, &mut s);
    assert_eq!(sol.distance(&s), 1);
}

#[test]
fn neighbor_test_relocate_apply_consistency() {
    let inst = make_jssp();
    let sol = make_jssp_solution(&inst, vec![0, 1, 0, 1]);
    let moves = JobShopRelocateNeighbor::iter(&inst, &sol);
    assert_eq!(moves.len(), 12);
    for n in moves {
        let mut s = sol.clone();
        let before = s.objective;
        n.apply_to_solution(&inst, &mut s).unwrap();
        let recomputed = inst.decode(&s.operations).unwrap().0;
        assert_eq!(s.objective, recomputed);
        assert_eq!(n.gain, s.objective as i64 - before as i64);
        let mut counts = vec![0usize; inst.n_jobs];
        for &j in &s.operations {
            counts[j] += 1;
        }
        assert_eq!(counts, vec![inst.n_machines, inst.n_machines]);
    }
}

#[test]
fn test_swap_skips_same_job_pairs() {
    let inst = make_jssp();
    let sol = make_jssp_solution(&inst, vec![0, 0, 1, 1]);
    let moves = JobShopSwapNeighbor::iter(&inst, &sol);
    assert_eq!(moves.len(), 1);
    assert_eq!(moves[0].i, 1);
}

#[test]
fn test_swap_finds_improvement_when_available() {
    let inst = make_jssp();
    let sol = make_jssp_solution(&inst, vec![0, 0, 1, 1]);
    assert_eq!(sol.objective, 10);
    let best = JobShopSwapNeighbor::iter(&inst, &sol).iter().map(|n| n.gain).min().unwrap();
    assert!(best < 0);
}

#[test]
fn test_swap_move_to_be_better_than_matches_default() {
    let inst = make_jssp();
    for ops in [vec![0, 1, 1, 0], vec![0, 0, 1, 1], vec![1, 0, 0, 1]] {
        let src = make_jssp_solution(&inst, ops);
        let other_alt = make_jssp_solution(&inst, vec![1, 1, 0, 0]);
        for other in [src.clone(), other_alt.clone()] {
            for n in JobShopSwapNeighbor::iter(&inst, &src) {
                let mut cloned = src.clone();
                n.apply_to_solution(&inst, &mut cloned).unwrap();
                let expected = cloned.objective < other.objective;
                let got = n.move_to_be_better_than(&inst, &src, &other);
                assert_eq!(got, expected, "swap i={} disagrees", n.i);
            }
        }
    }
}

#[test]
fn test_relocate_move_to_be_better_than_matches_default() {
    let inst = make_jssp();
    for ops in [vec![0, 1, 0, 1], vec![0, 0, 1, 1], vec![1, 0, 1, 0]] {
        let src = make_jssp_solution(&inst, ops);
        let other_alt = make_jssp_solution(&inst, vec![1, 1, 0, 0]);
        for other in [src.clone(), other_alt.clone()] {
            for n in JobShopRelocateNeighbor::iter(&inst, &src) {
                let mut cloned = src.clone();
                n.apply_to_solution(&inst, &mut cloned).unwrap();
                let expected = cloned.objective < other.objective;
                let got = n.move_to_be_better_than(&inst, &src, &other);
                assert_eq!(got, expected, "relocate from={} to={} disagrees", n.from, n.to);
            }
        }
    }
}

#[test]
fn test_random_neighbor() {
    let qubo = Qubo::from_entries(&[(0, 1, 1), (1, 2, 2), (0, 2, 3)]);
    let mut rng = SmallRng::seed_from_u64(7);
    let sol = qubo.new_solution(&mut rng);
    for _ in 0..20 {
        let flip = QuboFlipNeighbor::random_neighbor(&qubo, &sol, &mut rng);
        assert!(flip.i < qubo.len(), "random neighbor index out of bounds");
        assert_eq!(flip.gain, sol.gain[flip.i]);
    }
}
