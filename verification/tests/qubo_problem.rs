use optopus::qubo::Qubo;
use optopus::qubo_moves::QuboFlipNeighbor;
use optopus::qubo_solution::QuboSolution;
use optopus::text::InstanceError;

type Coefficient = i32;

#[test]
fn test_qubo() {
    let mut qubo = Qubo::new();
    qubo.set_q(0, 1, 1);
    qubo.set_q(1, 2, 2);
    qubo.set_q(2, 0, 3);
    assert_eq!(qubo.get_q(0, 1), 1);
    assert_eq!(qubo.get_q(1, 2), 2);
    assert_eq!(qubo.get_q(0, 2), 3);
    assert_eq!(qubo.num_of_variables(), 3);
}

#[test]
fn problem_test_load_file() {
    let text = "3 4\n1 2 2\n2 3 -6\n1 1 -1\n3 3 3\n";
    let qubo = Qubo::parse_text(text.as_bytes()).unwrap();
    assert_eq!(qubo.get_q(0, 1), 2);
    assert_eq!(qubo.get_q(1, 2), -6);
    assert_eq!(qubo.get_q(0, 0), -1);
    assert_eq!(qubo.get_q(1, 1), 0);
    assert_eq!(qubo.get_q(2, 2), 3);
    assert_eq!(qubo.get_q(2, 1), -6); // symmetric
    assert_eq!(qubo.num_of_variables(), 3);
}

#[test]
fn test_calc_energy() {
    let mut qubo = Qubo::new();
    qubo.set_q(0, 1, 1);
    qubo.set_q(1, 2, 2);
    qubo.set_q(2, 0, 3);
    qubo.set_q(2, 2, 1);
    {
        let x = vec![true, false, true];
        assert_eq!(qubo.calculate_energy(&x), 4);
    }
    {
        let x = vec![false, true, false];
        assert_eq!(qubo.calculate_energy(&x), 0);
    }
    {
        let x = vec![true, true, true];
        assert_eq!(qubo.calculate_energy(&x), 7);
    }
    {
        let x = vec![false, false, false];
        assert_eq!(qubo.calculate_energy(&x), 0);
    }
}

#[test]
fn test_calc_gain() {
    let mut qubo = Qubo::new();
    qubo.set_q(0, 1, 1);
    qubo.set_q(1, 2, 2);
    qubo.set_q(2, 0, 3);
    qubo.set_q(2, 2, 1);
    {
        let x = vec![true, false, true];
        assert_eq!(qubo.calculate_energy(&x), 4);
        for i in 0..3 {
            let mut flipped = x.clone();
            flipped[i] = !flipped[i];
            assert_eq!(
                qubo.calculate_gain(&x, i) + qubo.calculate_energy(&x),
                qubo.calculate_energy(&flipped)
            );
        }
    }
    {
        let x = vec![false, true, false];
        assert_eq!(qubo.calculate_energy(&x), 0);
        for i in 0..3 {
            let mut flipped = x.clone();
            flipped[i] = !flipped[i];
            assert_eq!(
                qubo.calculate_gain(&x, i) + qubo.calculate_energy(&x),
                qubo.calculate_energy(&flipped)
            );
        }
    }
}

#[test]
fn test_from_entries() {
    let qubo = Qubo::from_entries(&[(0, 1, 1), (0, 2, 2), (1, 2, 3)]);
    assert_eq!(qubo.get_q(0, 1), 1);
    assert_eq!(qubo.get_q(0, 2), 2);
    assert_eq!(qubo.get_q(1, 2), 3);
    assert_eq!(qubo.num_of_variables(), 3);
}

#[test]
fn test_from_entries_duplicate_last_wins() {
    let qubo = Qubo::from_entries(&[(0, 1, 1), (0, 1, 5)]);
    assert_eq!(qubo.get_q(0, 1), 5);
}

#[test]
fn test_add_q_accumulation() {
    let mut qubo = Qubo::new();
    qubo.add_q(0, 1, 1);
    qubo.add_q(0, 1, 2);
    assert_eq!(qubo.get_q(0, 1), 3); // 1 + 2
    assert_eq!(qubo.get_q(1, 0), 3); // symmetric
}

#[test]
fn test_add_q_and_set_q_interaction() {
    let mut qubo = Qubo::new();
    qubo.set_q(0, 1, 5);
    qubo.add_q(0, 1, 2);
    assert_eq!(qubo.get_q(0, 1), 7); // 5 + 2

    qubo.set_q(0, 1, 1); // overwrite back
    assert_eq!(qubo.get_q(0, 1), 1);
}

#[test]
fn test_set_q_overwrites() {
    let mut qubo = Qubo::new();
    qubo.set_q(0, 1, 5);
    assert_eq!(qubo.get_q(0, 1), 5);

    qubo.set_q(0, 1, 3);
    assert_eq!(qubo.get_q(0, 1), 3); // overwritten, not 8
    assert_eq!(qubo.get_q(1, 0), 3); // symmetric
}

#[test]
fn test_len() {
    let mut qubo = Qubo::new();
    assert_eq!(qubo.len(), 0);

    qubo.set_q(0, 1, 1);
    assert_eq!(qubo.len(), 2);

    qubo.set_q(0, 5, 1);
    assert_eq!(qubo.len(), 6);
}

#[test]
fn test_num_entries() {
    let qubo = Qubo::from_entries(&[(0, 1, 1), (0, 2, 2), (1, 2, 3)]);
    assert_eq!(qubo.num_entries(), 3); // 3 off-diagonal pairs

    let qubo = Qubo::from_entries(&[(0, 1, 1), (0, 0, 5)]);
    assert_eq!(qubo.num_entries(), 2); // 1 off-diagonal + 1 diagonal
}

#[test]
fn problem_test_is_empty() {
    let qubo = Qubo::new();
    assert!(qubo.is_empty());

    let qubo = Qubo::from_entries(&[(0, 1, 1)]);
    assert!(!qubo.is_empty());
}

#[test]
fn test_neighbors() {
    let qubo = Qubo::from_entries(&[(0, 1, 1), (0, 2, 2)]);
    let coeffs: Vec<Coefficient> = qubo.neighbors(0).iter().map(|&(_, v)| v).collect();
    assert_eq!(coeffs, vec![1, 2]);
}

#[test]
fn problem_test_degree() {
    let qubo = Qubo::from_entries(&[(0, 1, 1), (0, 2, 1), (1, 2, 1)]);
    assert_eq!(qubo.degree(0), 2);
    assert_eq!(qubo.degree(1), 2);
    assert_eq!(qubo.degree(2), 2);
    assert_eq!(qubo.degree(99), 0); // out of bounds
}

#[test]
fn test_entries_iterator() {
    let qubo = Qubo::from_entries(&[(0, 1, 1), (0, 2, 2), (1, 2, 3)]);
    let mut entries: Vec<_> = qubo.entries();
    entries.sort_by_key(|&(i, j, _)| (i, j));
    assert_eq!(entries, vec![(0, 1, 1), (0, 2, 2), (1, 2, 3)]);
}

#[test]
fn test_has_entry() {
    let qubo = Qubo::from_entries(&[(0, 1, 1)]);
    assert!(qubo.has_entry(0, 1));
    assert!(qubo.has_entry(1, 0)); // symmetric
    assert!(!qubo.has_entry(0, 2));
    assert!(!qubo.has_entry(5, 6)); // out of bounds
}

#[test]
fn test_index_existing() {
    let qubo = Qubo::from_entries(&[(0, 1, 3), (1, 2, 7)]);
    assert_eq!(qubo.get_q(0, 1), 3);
    assert_eq!(qubo.get_q(1, 0), 3);
    assert_eq!(qubo.get_q(1, 2), 7);
}

#[test]
fn test_index_missing() {
    let qubo = Qubo::from_entries(&[(0, 1, 1)]);
    assert_eq!(qubo.get_q(0, 2), 0);
    assert_eq!(qubo.get_q(5, 6), 0); // out of bounds
}

#[test]
fn test_get_q_default_zero() {
    let qubo = Qubo::from_entries(&[(0, 1, 1)]);
    assert_eq!(qubo.get_q(0, 1), 1);
    assert_eq!(qubo.get_q(0, 2), 0);
    assert_eq!(qubo.get_q(99, 100), 0);
}

#[test]
fn problem_test_display_empty() {
    let qubo = Qubo::new();
    assert_eq!(qubo.display(), "Qubo(empty)");
}

#[test]
fn problem_test_display_nonempty() {
    let qubo = Qubo::from_entries(&[(0, 1, 1), (0, 2, 1), (1, 2, 1)]);
    assert_eq!(qubo.display(), "Qubo(variables: 3, entries: 3)");
}

#[test]
fn test_new_from_assignment() {
    let qubo = Qubo::from_entries(&[(0, 1, 1), (1, 2, 2), (0, 2, 3)]);
    let sol = QuboSolution::new_from_assignment(&qubo, vec![true, false, true]);
    assert_eq!(sol.objective, qubo.calculate_energy(&sol.x));
    for &i in qubo.iter_on_variables() {
        assert_eq!(sol.gain[i], qubo.calculate_gain(&sol.x, i));
    }
}

#[test]
fn test_new_from_parts() {
    let qubo = Qubo::from_entries(&[(0, 1, 1), (1, 2, 2), (0, 2, 3)]);
    let x = vec![true, false, true];
    let gain: Vec<Coefficient> = (0..3).map(|i| qubo.calculate_gain(&x, i)).collect();
    let objective = qubo.calculate_energy(&x);
    let sol = QuboSolution::new_from_parts(x.clone(), gain.clone(), objective);
    assert_eq!(sol.x, x);
    assert_eq!(sol.gain, gain);
    assert_eq!(sol.objective, objective);
}

fn make_qubo_and_solution() -> (Qubo, QuboSolution) {
    let qubo = Qubo::from_entries(&[(0, 1, 1), (1, 2, 1), (0, 2, 1)]);
    let n = qubo.len();
    let x = vec![false; n];
    let sol = QuboSolution::new_from_assignment(&qubo, x);
    (qubo, sol)
}

#[test]
fn test_from_parts_index_disabled_by_default() {
    let (_qubo, sol) = make_qubo_and_solution();
    assert!(!sol.negative_gain.is_enabled(), "index should be disabled after construction");
    assert!(sol.negative_gain.is_empty());
}

#[test]
fn test_enable_negative_gain_index_builds_correctly() {
    let (_qubo, mut sol) = make_qubo_and_solution();
    sol.enable_negative_gain_index();

    assert!(sol.negative_gain.is_enabled());
    for &v in sol.negative_gain.as_slice() {
        assert!(sol.gain[v] < 0, "all entries in negative_gain must have gain < 0");
    }
}

#[test]
fn test_enable_negative_gain_index_with_negative_gains() {
    let qubo = Qubo::from_entries(&[(0, 1, 1), (1, 2, 1), (0, 2, 1)]);
    let x = vec![true, true, true];
    let mut sol = QuboSolution::new_from_assignment(&qubo, x);
    sol.enable_negative_gain_index();

    assert!(sol.negative_gain.is_enabled());
    let mut listed = sol.negative_gain.as_slice().to_vec();
    listed.sort();
    assert_eq!(listed, vec![0, 1, 2], "all variables should have gain < 0");
}

#[test]
fn test_enable_negative_gain_index_excludes_non_negative() {
    let qubo = Qubo::from_entries(&[(0, 1, 1), (1, 2, 1), (0, 2, 1)]);
    let x = vec![false, false, false];
    let mut sol = QuboSolution::new_from_assignment(&qubo, x);
    sol.enable_negative_gain_index();

    assert!(sol.negative_gain.is_empty(), "no variable has gain < 0; negative_gain must be empty");
    for v in 0..sol.gain.len() {
        assert!(!sol.negative_gain.contains(v));
    }
}

#[test]
fn test_enable_negative_gain_index_idempotent() {
    let qubo = Qubo::from_entries(&[(0, 1, 1), (1, 2, 1), (0, 2, 1)]);
    let mut sol = QuboSolution::new_from_assignment(&qubo, vec![true, true, true]);
    sol.enable_negative_gain_index();
    let ng_after_first = sol.negative_gain.as_slice().to_vec();

    sol.enable_negative_gain_index();

    assert_eq!(sol.negative_gain.as_slice(), ng_after_first);
}

#[test]
fn test_update_negative_gain_membership_noop_when_disabled() {
    let (_qubo, mut sol) = make_qubo_and_solution();
    sol.update_negative_gain_membership(0, -5);
    assert!(sol.negative_gain.is_empty());
}

#[test]
fn test_update_negative_gain_membership_maintains_index() {
    let qubo = Qubo::from_entries(&[(0, 1, 1), (1, 2, 1), (0, 2, 1)]);
    let mut sol = QuboSolution::new_from_assignment(&qubo, vec![true, true, true]);
    sol.enable_negative_gain_index();
    assert_eq!(sol.negative_gain.len(), 3);

    sol.update_negative_gain_membership(0, 1);
    sol.gain[0] = 1;
    assert!(
        !sol.negative_gain.contains(0),
        "variable 0 must leave negative_gain when gain becomes non-negative"
    );
    assert_eq!(sol.negative_gain.len(), 2);

    sol.update_negative_gain_membership(0, -3);
    sol.gain[0] = -3;
    assert!(sol.negative_gain.contains(0));
    assert_eq!(sol.negative_gain.len(), 3);
}

#[test]
fn test_negative_gain_index_consistent_after_flip() {
    let qubo = Qubo::from_entries(&[(0, 1, 1), (1, 2, 1), (0, 2, 1)]);
    let mut sol = QuboSolution::new_from_assignment(&qubo, vec![true, true, true]);
    sol.enable_negative_gain_index();
    assert_eq!(sol.negative_gain.len(), 3);

    let flip = QuboFlipNeighbor { i: 1, gain: sol.gain[1] };
    flip.apply_to_solution(&qubo, &mut sol);

    for &v in qubo.iter_on_variables() {
        let in_index = sol.negative_gain.contains(v);
        let has_negative_gain = sol.gain[v] < 0;
        assert_eq!(
            in_index, has_negative_gain,
            "variable {v}: in_index={in_index} but gain={} (negative={})",
            sol.gain[v], has_negative_gain
        );
    }
}

#[test]
fn test_clone_preserves_negative_gain_index() {
    let qubo = Qubo::from_entries(&[(0, 1, 1), (1, 2, 1), (0, 2, 1)]);
    let mut sol = QuboSolution::new_from_assignment(&qubo, vec![true, true, true]);
    sol.enable_negative_gain_index();

    let cloned = sol.clone();

    assert!(cloned.negative_gain.is_enabled());
    let mut orig_sorted = sol.negative_gain.as_slice().to_vec();
    orig_sorted.sort();
    let mut clone_sorted = cloned.negative_gain.as_slice().to_vec();
    clone_sorted.sort();
    assert_eq!(orig_sorted, clone_sorted);
}

#[test]
fn test_clone_preserves_disabled_state() {
    let (_qubo, sol) = make_qubo_and_solution();
    assert!(!sol.negative_gain.is_enabled());

    let cloned = sol.clone();
    assert!(!cloned.negative_gain.is_enabled());
    assert!(cloned.negative_gain.is_empty());
}

#[test]
fn parse_text_refuses_bad_input() {
    assert_eq!(Qubo::parse_text(b"").unwrap_err(), InstanceError::MissingHeader);
    assert_eq!(Qubo::parse_text(b"# only a comment\n\n").unwrap_err(), InstanceError::MissingHeader);
    assert_eq!(Qubo::parse_text(b"3\n").unwrap_err(), InstanceError::BadHeader);
    assert_eq!(Qubo::parse_text(b"3 x\n").unwrap_err(), InstanceError::BadHeader);
    assert_eq!(Qubo::parse_text(b"3 1\n0 1 5\n").unwrap_err(), InstanceError::BadLine(1));
    assert_eq!(Qubo::parse_text(b"3 2\n1 2 5\n1 2\n").unwrap_err(), InstanceError::BadLine(2));
    assert_eq!(Qubo::parse_text(b"3 1\n1 2 3000000000\n").unwrap_err(), InstanceError::BadLine(1));
}

#[test]
fn parse_text_skips_comments_and_keeps_declared_variables() {
    let qubo = Qubo::parse_text(b"# header follows\n5 1\n\n  2 4   -7  \n# done").unwrap();
    assert_eq!(qubo.get_q(1, 3), -7);
    assert_eq!(qubo.get_q(3, 1), -7);
    assert_eq!(qubo.num_of_variables(), 5);
    assert_eq!(qubo.len(), 5);
}

#[test]
fn parse_text_dimension_is_the_header_or_the_largest_index() {
    let qubo = Qubo::parse_text(b"5 1\n1 2 3\n").unwrap();
    assert_eq!(qubo.len(), 5);
    let qubo = Qubo::parse_text(b"2 1\n1 4 3\n").unwrap();
    assert_eq!(qubo.len(), 4);
    assert_eq!(qubo.get_q(3, 0), 3);
}

#[test]
fn enable_negative_gain_index_twice_keeps_it_consistent() {
    let mut qubo = Qubo::new();
    qubo.set_q(0, 0, -1);
    qubo.set_q(1, 1, 2);
    qubo.set_q(2, 2, -3);
    let mut sol = QuboSolution::new_from_assignment(&qubo, vec![false, false, false]);
    sol.enable_negative_gain_index();
    sol.enable_negative_gain_index();
    let mut members = sol.negative_gain.as_slice().to_vec();
    members.sort();
    assert_eq!(members, vec![0, 2]);
}

#[test]
fn energy_is_exact_when_only_partial_sums_leave_the_coefficient_range() {
    let mut qubo = Qubo::new();
    qubo.set_q(0, 0, i32::MAX);
    qubo.set_q(1, 1, i32::MAX);
    qubo.set_q(0, 1, i32::MIN);
    assert_eq!(qubo.calculate_energy(&[true, true]), 2147483646);
    assert_eq!(qubo.calculate_energy(&[true, false]), i32::MAX);
    assert_eq!(qubo.calculate_gain(&[true, false], 1), -1);
}

#[test]
fn from_entries_dimension_is_one_past_the_largest_index() {
    let qubo = Qubo::from_entries(&[(0, 1, 1), (0, 2, 2), (1, 2, 3)]);
    assert_eq!(qubo.len(), 3);
    let x = vec![true, false, true];
    let sol = QuboSolution::new_from_assignment(&qubo, x.clone());
    assert_eq!(sol.objective, 2);
    assert_eq!(sol.x, x);
    assert_eq!(sol.objective, qubo.calculate_energy(&sol.x));
    for &i in qubo.iter_on_variables() {
        assert_eq!(sol.gain[i], qubo.calculate_gain(&sol.x, i));
    }
    assert_eq!(Qubo::from_entries(&[(4, 1, 7)]).len(), 5);
    assert_eq!(Qubo::from_entries(&[]).len(), 0);
}
