use optopus::int_vars::{IntVar, IntVars, ValueError};
use rand::rngs::SmallRng;
use rand::SeedableRng;

#[test]
fn variable_ranges_and_changes() {
    let v = IntVar::new(-2, 3);
    assert_eq!(v.lower(), -2);
    assert_eq!(v.upper(), 3);
    assert!(v.contains(0));
    assert!(!v.contains(4));
    assert_eq!(v.num_changes(), 5);
    assert_eq!(IntVar::binary().num_changes(), 1);
}

#[test]
fn collections_lay_out_changes_in_order() {
    let vars = IntVars::new(vec![IntVar::new(0, 2), IntVar::new(5, 6), IntVar::new(-1, 1)]);
    assert_eq!(vars.len(), 3);
    assert_eq!(vars.total_changes(), 5);
    assert!(!vars.same_range());
    assert_eq!(vars.flip_sum(), None);
    assert_eq!(vars.var_of_change(0), 0);
    assert_eq!(vars.var_of_change(1), 0);
    assert_eq!(vars.var_of_change(2), 1);
    assert_eq!(vars.var_of_change(3), 2);
    assert_eq!(vars.var_of_change(4), 2);

    let bins = IntVars::new(vec![IntVar::binary(), IntVar::binary()]);
    assert!(bins.same_range());
    assert_eq!(bins.flip_sum(), Some(1));
}

#[test]
fn check_reports_each_fault() {
    let vars = IntVars::new(vec![IntVar::new(0, 2), IntVar::new(5, 6)]);
    assert_eq!(vars.check(&[1, 6]), Ok(()));
    assert_eq!(vars.check(&[1]), Err(ValueError::WrongLength { values: 1, vars: 2 }));
    assert!(matches!(vars.check(&[3, 5]), Err(ValueError::OutOfRange { index: 0, .. })));
    let perm = IntVars::permutation(3);
    assert!(perm.is_permutation());
    assert_eq!(perm.check(&[2, 0, 1]), Ok(()));
    assert!(matches!(perm.check(&[2, 0, 2]), Err(ValueError::Repeated { .. })));
}

#[test]
fn random_values_respect_the_variables() {
    let mut rng = SmallRng::seed_from_u64(5);
    let vars = IntVars::new(vec![IntVar::new(-3, 3), IntVar::new(10, 12), IntVar::binary()]);
    for _ in 0..20 {
        let vals = vars.random_values(&mut rng);
        assert_eq!(vars.check(&vals), Ok(()));
    }
    let perm = IntVars::permutation(6);
    for _ in 0..20 {
        let mut vals = perm.random_values(&mut rng);
        assert_eq!(perm.check(&vals), Ok(()));
        vals.sort();
        assert_eq!(vals, vec![0, 1, 2, 3, 4, 5]);
    }
}
