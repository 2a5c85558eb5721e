use optopus::job_shop::{DecodeError, JobShopPpxCrossover, JobShopScheduling, JobShopSolution};
use rand::rngs::SmallRng;
use rand::SeedableRng;

/// job 0: M0(2) → M1(3)
/// job 1: M1(1) → M0(4)
fn make_small_instance() -> JobShopScheduling {
    JobShopScheduling::new("tiny".to_string(), 2, vec![vec![(0, 2), (1, 3)], vec![(1, 1), (0, 4)]])
}

#[test]
fn test_decode_optimal_sequence() {
    let inst = make_small_instance();
    let (makespan, completions) = inst.decode(&[1, 0, 0, 1]).unwrap();
    assert_eq!(makespan, 6);
    assert_eq!(completions, vec![1, 2, 5, 6]);
}

#[test]
fn test_decode_invalid_length() {
    let inst = make_small_instance();
    assert!(inst.decode(&[0, 1, 0]).is_err());
}

#[test]
fn test_decode_invalid_count() {
    let inst = make_small_instance();
    assert!(inst.decode(&[0, 0, 0, 1]).is_err());
}

#[test]
fn decode_errors_name_the_fault() {
    let inst = make_small_instance();
    assert!(matches!(inst.decode(&[0, 1, 0]), Err(DecodeError::LengthMismatch { .. })));
    assert!(!matches!(inst.decode(&[0, 0, 0, 1]), Err(DecodeError::LengthMismatch { .. })));
    assert!(inst.decode(&[0, 2, 1, 1]).is_err());
}

#[test]
fn makespan_matches_decode() {
    let inst = make_small_instance();
    for ops in [[0, 0, 1, 1], [0, 1, 0, 1], [1, 1, 0, 0], [1, 0, 1, 0]] {
        let (m, _) = inst.decode(&ops).unwrap();
        assert_eq!(inst.compute_makespan(&ops).unwrap(), m);
    }
    assert_eq!(inst.compute_makespan(&[0, 0, 1, 1]).unwrap(), 10);
}

#[test]
fn random_solutions_and_children_are_valid() {
    let inst = make_small_instance();
    let mut rng = SmallRng::seed_from_u64(3);
    let a = inst.new_solution(&mut rng);
    let b = inst.new_solution(&mut rng);
    assert_eq!(inst.decode(&a.operations).unwrap().0, a.objective);
    let child = JobShopPpxCrossover.crossover(&inst, &a, &b, &mut rng).unwrap();
    let (m, c) = inst.decode(&child.operations).unwrap();
    assert_eq!(child.objective, m);
    assert_eq!(child.completion_times, c);
}

#[test]
fn ppx_child_takes_the_next_unused_job_of_the_picked_parent() {
    let child = JobShopPpxCrossover::child_with(&[0, 0, 1, 1], &[1, 1, 0, 0], &[false, true, true, false]);
    assert_eq!(child, vec![1, 0, 0, 1]);
}

#[test]
fn distance_counts_differing_positions() {
    let inst = make_small_instance();
    let mut rng = SmallRng::seed_from_u64(9);
    let a = inst.new_solution(&mut rng);
    assert_eq!(a.distance(&a), 0);
    let mut b = a.clone();
    b.operations.swap(0, 3);
    let expected = if a.operations[0] == a.operations[3] { 0 } else { 2 };
    assert_eq!(a.distance(&b), expected);
}

fn make_three() -> JobShopScheduling {
    JobShopScheduling::new(
        "tiny".to_string(),
        3,
        vec![vec![(0, 3), (1, 2), (2, 4)], vec![(1, 1), (0, 5), (2, 3)], vec![(0, 2), (2, 1), (1, 4)]],
    )
}

fn make_sol(inst: &JobShopScheduling, ops: Vec<usize>) -> JobShopSolution {
    let (objective, completion_times) = inst.decode(&ops).unwrap();
    JobShopSolution { operations: ops, objective, completion_times }
}

#[test]
fn test_ppx_child_is_valid_permutation() {
    let inst = make_three();
    let a = make_sol(&inst, vec![0, 1, 2, 0, 1, 2, 0, 1, 2]);
    let b = make_sol(&inst, vec![2, 1, 0, 2, 0, 1, 1, 2, 0]);
    let mut cx = JobShopPpxCrossover;
    let mut rng = SmallRng::seed_from_u64(0);
    for _ in 0..20 {
        let child = cx.crossover(&inst, &a, &b, &mut rng).unwrap();
        assert_eq!(child.operations.len(), 9);
        let mut counts = vec![0usize; inst.n_jobs];
        for &j in &child.operations {
            counts[j] += 1;
        }
        assert_eq!(counts, vec![inst.n_machines; inst.n_jobs]);
    }
}

#[test]
fn test_ppx_identical_parents_yields_same_sequence() {
    let inst = make_three();
    let a = make_sol(&inst, vec![0, 1, 2, 0, 1, 2, 0, 1, 2]);
    let mut cx = JobShopPpxCrossover;
    let mut rng = SmallRng::seed_from_u64(0);
    let child = cx.crossover(&inst, &a, &a, &mut rng).unwrap();
    assert_eq!(child.operations, a.operations);
}

#[test]
fn test_ppx_random_parents_random_inst() {
    let inst = make_three();
    let mut rng = SmallRng::seed_from_u64(0);
    let a = inst.new_solution(&mut rng);
    let b = inst.new_solution(&mut rng);
    let mut cx = JobShopPpxCrossover;
    let child = cx.crossover(&inst, &a, &b, &mut rng).unwrap();
    assert_eq!(child.operations.len(), inst.n_jobs * inst.n_machines);
}

#[test]
fn test_new_solution_is_valid() {
    let inst = make_small_instance();
    let mut rng = SmallRng::seed_from_u64(17);
    let sol = inst.new_solution(&mut rng);
    assert_eq!(sol.operations.len(), 4);
    let mut counts = vec![0usize; inst.n_jobs];
    for &j in &sol.operations {
        counts[j] += 1;
    }
    assert_eq!(counts, vec![2, 2]);
}

#[test]
fn test_load_file_basic() {
    let contents = "2 2\n0 2 1 3\n1 1 0 4\n";
    let inst = JobShopScheduling::parse_text("basic".to_string(), contents.as_bytes()).unwrap();
    assert_eq!(inst.n_jobs, 2);
    assert_eq!(inst.n_machines, 2);
    assert_eq!(inst.jobs[0], vec![(0, 2), (1, 3)]);
    assert_eq!(inst.jobs[1], vec![(1, 1), (0, 4)]);
}

#[test]
fn test_load_file_with_comments_and_blank_lines() {
    let contents = "# tiny instance\n2 2\n\n0 2 1 3\n# comment in the middle\n1 1 0 4\n";
    let inst = JobShopScheduling::parse_text("tiny".to_string(), contents.as_bytes()).unwrap();
    assert_eq!(inst.n_jobs, 2);
    assert_eq!(inst.jobs[1], vec![(1, 1), (0, 4)]);
}

#[test]
fn test_load_file_machine_out_of_range() {
    let contents = "2 2\n0 2 5 3\n1 1 0 4\n";
    let result = JobShopScheduling::parse_text("bad".to_string(), contents.as_bytes());
    assert!(result.is_err());
}

#[test]
fn parallel_long_operations_decode_when_each_finish_time_fits() {
    let inst = JobShopScheduling::new(
        "parallel".to_string(),
        2,
        vec![vec![(0, 3_000_000_000), (1, 1)], vec![(1, 3_000_000_000), (0, 1)]],
    );
    let (makespan, completions) = inst.decode(&[0, 1, 0, 1]).unwrap();
    assert_eq!(makespan, 3_000_000_001);
    assert_eq!(completions, vec![3_000_000_000, 3_000_000_000, 3_000_000_001, 3_000_000_001]);
    assert_eq!(inst.compute_makespan(&[0, 1, 0, 1]), Ok(3_000_000_001));
}

#[test]
fn the_first_position_that_stops_decoding_names_the_error() {
    let inst = make_small_instance();
    assert_eq!(inst.decode(&[0, 0, 0, 5]), Err(DecodeError::TooManyOperations { job: 0 }));
    assert_eq!(inst.decode(&[0, 5, 0, 0]), Err(DecodeError::JobOutOfRange { index: 1, job: 5 }));
    assert_eq!(inst.decode(&[1, 1, 1, 0]), Err(DecodeError::TooManyOperations { job: 1 }));
    assert_eq!(inst.decode(&[0, 1, 1, 3]), Err(DecodeError::JobOutOfRange { index: 3, job: 3 }));
    assert_eq!(inst.decode(&[0, 1, 1, 0, 0]), Err(DecodeError::LengthMismatch { len: 5, expected: 4 }));
}

#[test]
fn compute_makespan_reports_the_errors_of_decode() {
    let inst = make_small_instance();
    for ops in [vec![0, 0, 0, 5], vec![0, 5, 0, 0], vec![1, 1, 1, 0], vec![0, 1], vec![0, 1, 1, 0]] {
        assert_eq!(inst.compute_makespan(&ops), inst.decode(&ops).map(|(m, _)| m));
    }
}
