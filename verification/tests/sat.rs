use optopus::sat::Sat;

/// (x1 ∨ x2), (¬x1 ∨ x3), (¬x2 ∨ ¬x3)
fn make_sat() -> Sat {
    let mut sat = Sat::new(3);
    sat.add_clause(&[1, 2]);
    sat.add_clause(&[-1, 3]);
    sat.add_clause(&[-2, -3]);
    sat
}

#[test]
fn definition_test_calc_satisfied() {
    let sat = make_sat();
    assert_eq!(sat.calc_satisfied(&[true, false, true]), 3);
    assert_eq!(sat.calc_satisfied(&[false, false, false]), 2);
}

#[test]
fn definition_test_calc_gain_matches_delta() {
    let sat = make_sat();
    let x = vec![true, false, true];
    let n_sat = sat.calc_satisfied(&x);
    for i in 0..3 {
        let mut x2 = x.clone();
        x2[i] = !x2[i];
        let expected_delta = sat.calc_satisfied(&x2) as i64 - n_sat as i64;
        assert_eq!(sat.calc_gain(&x, i), expected_delta, "gain[{}] mismatch", i);
    }
}

#[test]
fn definition_test_n_clauses() {
    let sat = make_sat();
    assert_eq!(sat.n_clauses(), 3);
    assert_eq!(sat.n_vars(), 3);
}

#[test]
fn problem_test_calc_satisfied() {
    let sat = make_sat();
    // x = [true, false, true]: all satisfied
    assert_eq!(sat.calc_satisfied(&[true, false, true]), 3);
    // x = [false, false, false]: 2 satisfied
    assert_eq!(sat.calc_satisfied(&[false, false, false]), 2);
}

#[test]
fn problem_test_calc_gain_matches_delta() {
    let sat = make_sat();
    let x = vec![true, false, true];
    let n_sat = sat.calc_satisfied(&x);
    for i in 0..3 {
        let mut x2 = x.clone();
        x2[i] = !x2[i];
        let expected_delta = sat.calc_satisfied(&x2) as i64 - n_sat as i64;
        assert_eq!(sat.calc_gain(&x, i), expected_delta, "gain[{}] mismatch", i);
    }
}

#[test]
fn problem_test_n_clauses() {
    let sat = make_sat();
    assert_eq!(sat.n_clauses(), 3);
    assert_eq!(sat.n_vars(), 3);
}

#[test]
fn test_var_neighbors_construction() {
    let sat = make_sat();
    assert_eq!(sat.var_neighbors(0), &[1, 2]);
    assert_eq!(sat.var_neighbors(1), &[0, 2]);
    assert_eq!(sat.var_neighbors(2), &[0, 1]);

    let mut sat2 = Sat::new(3);
    sat2.add_clause(&[1, 2]);
    sat2.add_clause(&[1, 2, 3]);
    sat2.add_clause(&[-1, -2]);
    assert_eq!(sat2.var_neighbors(0), &[1, 2]);
    assert_eq!(sat2.var_neighbors(1), &[0, 2]);
    assert_eq!(sat2.var_neighbors(2), &[0, 1]);

    let mut sat3 = Sat::new(3);
    sat3.add_clause(&[1]);
    sat3.add_clause(&[-2, 3]);
    assert_eq!(sat3.var_neighbors(0), &[] as &[usize]);
    assert_eq!(sat3.var_neighbors(1), &[2]);
    assert_eq!(sat3.var_neighbors(2), &[1]);
}

#[test]
fn clause_lookups_follow_the_clauses() {
    let sat = make_sat();
    assert_eq!(sat.clause(1), &[-1, 3]);
    assert_eq!(sat.clause_indices_of_var(0), &[0, 1]);
    assert_eq!(sat.clause_indices_of_var(2), &[1, 2]);
    let of_var = sat.clauses_of_var(1);
    assert_eq!(of_var, vec![&[1i64, 2][..], &[-2i64, -3][..]]);
    assert!(Sat::is_clause_satisfied(&[-1, 3], &[false, false, false]));
    assert!(!Sat::is_clause_satisfied(&[1, 2], &[false, false, true]));
}

#[test]
fn virtual_flip_gain_is_the_gain_after_the_flip() {
    let sat = make_sat();
    let x = vec![true, false, true];
    for f in 0..3 {
        let mut y = x.clone();
        y[f] = !y[f];
        for j in 0..3 {
            assert_eq!(sat.calc_gain_with_virtual_flip(&x, f, j), sat.calc_gain(&y, j));
        }
    }
}

#[test]
fn repeated_literal_counts_once() {
    let mut sat = Sat::new(2);
    sat.add_clause(&[1, 1]);
    sat.add_clause(&[1, -1]);
    let x = vec![false, false];
    assert_eq!(sat.calc_satisfied(&x), 1);
    let mut y = x.clone();
    y[0] = true;
    assert_eq!(sat.calc_gain(&x, 0), sat.calc_satisfied(&y) as i64 - 1);
}
