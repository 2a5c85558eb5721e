use optopus::tsp_ox::TspOrderCrossover;
use std::collections::HashSet;

#[test]
fn test_order_crossover_valid_tour() {
    let a = vec![0, 1, 2, 3];
    let b = vec![2, 0, 3, 1];
    let mut cx = TspOrderCrossover;
    for _ in 0..20 {
        let offspring = cx.crossover_tour(&a, &b);
        let cities: HashSet<usize> = offspring.iter().copied().collect();
        assert_eq!(offspring.len(), 4);
        assert_eq!(cities, (0..4).collect::<HashSet<usize>>(), "offspring must visit all 4 cities exactly once");
    }
}

#[test]
fn test_order_crossover_identical_parents() {
    let s = vec![0, 1, 2, 3];
    let mut cx = TspOrderCrossover;
    let offspring = cx.crossover_tour(&s, &s);
    assert_eq!(offspring, s);
}

#[test]
fn order_crossover_keeps_the_segment_and_fills_in_the_second_order() {
    // Segment 3..=5 of the first tour stays; from position 6 on, the other
    // cities follow in the second tour's order read from position 6 on.
    let a = vec![0, 1, 2, 3, 4, 5, 6, 7];
    let b = vec![7, 6, 5, 4, 3, 2, 1, 0];
    let child = TspOrderCrossover::child_tour(&a, &b, 3, 5);
    assert_eq!(child, vec![7, 6, 2, 3, 4, 5, 1, 0]);
    let whole = TspOrderCrossover::child_tour(&a, &b, 0, 7);
    assert_eq!(whole, a);
    assert!(TspOrderCrossover.crossover_tour(&[], &[]).is_empty());
}
