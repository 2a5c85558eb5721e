use rand::rngs::SmallRng;
use rand::{Rng, SeedableRng};
use optopus::graph::Graph;
use optopus::vertex_cover::{VertexCover, VertexCoverSolution};
use optopus::vertex_cover_moves::{VertexCoverFlipNeighbor, VertexCoverSwapNeighbor};

/// Triangle graph: vertices 0,1,2 with edges (0,1), (0,2), (1,2). Min VC = 2.
fn make_triangle() -> VertexCover {
    let mut vc = VertexCover::new(Graph::new());
    vc.graph.add_edge(0, 1);
    vc.graph.add_edge(0, 2);
    vc.graph.add_edge(1, 2);
    vc
}

/// Path P4: 0-1-2-3 with edges (0,1), (1,2), (2,3). Min VC = 2.
fn make_path4() -> VertexCover {
    let mut vc = VertexCover::new(Graph::new());
    vc.graph.add_edge(0, 1);
    vc.graph.add_edge(1, 2);
    vc.graph.add_edge(2, 3);
    vc
}

/// Best-improvement descent with flip moves until no flip lowers the
/// objective; ties go to the lowest vertex.
fn descend(vc: &VertexCover, mut sol: VertexCoverSolution) -> VertexCoverSolution {
    for _ in 0..1000 {
        let moves = VertexCoverFlipNeighbor::iter(vc, &sol);
        let mut best: Option<VertexCoverFlipNeighbor> = None;
        for m in moves {
            if m.gain < 0 && best.map_or(true, |b| m.gain < b.gain) {
                best = Some(m);
            }
        }
        match best {
            Some(m) => m.apply_to_solution(vc, &mut sol),
            None => break,
        }
    }
    sol
}

#[test]
fn problem_test_blank_graph() {
    let vc = VertexCover::new(Graph::new());
    assert_eq!(vc.graph.len(), 0);
}

#[test]
fn test_add_edge_and_has_edge() {
    let vc = make_triangle();
    assert_eq!(vc.graph.len(), 3);
    assert!(vc.graph.has_edge(0, 1));
    assert!(vc.graph.has_edge(1, 2));
    assert!(vc.graph.has_edge(0, 2));
    assert!(!vc.graph.has_edge(0, 0));
}

#[test]
fn test_calculate_state_triangle_all_false() {
    let vc = make_triangle();
    let (gain, obj, cover_size, uncov) = vc.calculate_state(&[false, false, false]);
    assert_eq!(cover_size, 0);
    assert_eq!(uncov, 3);
    let pw = vc.penalty_weight();
    assert_eq!(pw, 4);
    for &g in &gain {
        assert_eq!(g, 1 - 4 * 2);
    }
    assert_eq!(obj, 4 * 3);
}

#[test]
fn test_calculate_state_triangle_one_in() {
    let vc = make_triangle();
    let (gain, obj, cover_size, uncov) = vc.calculate_state(&[true, false, false]);
    assert_eq!(cover_size, 1);
    assert_eq!(uncov, 1);
    let pw = vc.penalty_weight();
    assert_eq!(gain[0], -1 + pw * 2);
    assert_eq!(gain[1], 1 - pw);
    assert_eq!(gain[2], 1 - pw);
    assert_eq!(obj, 1 + pw);
}

#[test]
fn test_local_search_finds_min_cover_triangle() {
    let vc = make_triangle();
    let start = vc.solution_from_assignment(&[false, false, false]);
    let best = descend(&vc, start);
    assert_eq!(best.uncovered_edges, 0);
    assert_eq!(best.cover_size, 2);
    assert_eq!(best.objective, 2);
}

#[test]
fn test_local_search_finds_min_cover_path4() {
    let vc = make_path4();
    let start = vc.solution_from_assignment(&[false, false, false, false]);
    let best = descend(&vc, start);
    assert_eq!(best.uncovered_edges, 0);
    assert_eq!(best.cover_size, 2);
}

#[test]
fn test_flip_neighbor_apply() {
    let vc = make_triangle();
    let mut sol = vc.solution_from_assignment(&[false, false, false]);
    let n = VertexCoverFlipNeighbor { i: 0, gain: sol.gain[0] };
    n.apply_to_solution(&vc, &mut sol);

    assert!(sol.cover[0]);
    assert_eq!(sol.cover_size, 1);
    assert_eq!(sol.uncovered_edges, 1);

    let (gain, obj, cs, ue) = vc.calculate_state(&sol.cover);
    assert_eq!(sol.gain, gain);
    assert_eq!(sol.objective, obj);
    assert_eq!(sol.cover_size, cs);
    assert_eq!(sol.uncovered_edges, ue);
}

#[test]
fn test_swap_neighbor_apply_and_gain() {
    let vc = make_triangle();
    let mut sol = vc.solution_from_assignment(&[true, false, false]);
    let swap = VertexCoverSwapNeighbor {
        i: 1,
        j: 0,
        gain: sol.gain[1] + sol.gain[0] - vc.penalty_weight(),
    };
    let predicted_gain = swap.gain;
    swap.apply_to_solution(&vc, &mut sol);

    let (gain, obj, cs, ue) = vc.calculate_state(&sol.cover);
    assert_eq!(sol.gain, gain);
    assert_eq!(sol.objective, obj);
    assert_eq!(sol.cover_size, cs);
    assert_eq!(sol.uncovered_edges, ue);
    assert_eq!(predicted_gain, 0);
}

#[test]
fn test_swap_iter_only_mixed_pairs() {
    let vc = make_triangle();
    let sol = vc.solution_from_assignment(&[true, false, false]);
    let pairs: Vec<_> = VertexCoverSwapNeighbor::iter(&vc, &sol);
    assert_eq!(pairs.len(), 2);
    for p in &pairs {
        assert_ne!(sol.cover[p.i], sol.cover[p.j]);
        assert!(p.j < p.i);
    }
}

#[test]
fn flip_changes_the_objective_by_the_gain() {
    let vc = make_path4();
    let mut sol = vc.solution_from_assignment(&[true, false, true, false]);
    for i in 0..4 {
        let before = sol.objective;
        let g = sol.gain[i];
        VertexCoverFlipNeighbor { i, gain: g }.apply_to_solution(&vc, &mut sol);
        assert_eq!(sol.objective, before + g);
        let (gain, obj, cs, ue) = vc.calculate_state(&sol.cover);
        assert_eq!((sol.gain.clone(), sol.objective, sol.cover_size, sol.uncovered_edges), (gain, obj, cs, ue));
    }
}

#[test]
fn graph_counts_edges_once_and_ignores_loops() {
    let mut g = Graph::new();
    g.add_edge(0, 1);
    g.add_edge(1, 0);
    g.add_edge(2, 2);
    g.add_edge(1, 3);
    assert_eq!(g.num_edges(), 2);
    assert_eq!(g.degree(1), 2);
    assert!(g.has_edge(3, 1));
    assert!(!g.has_edge(2, 2));
}

#[test]
fn test_random_walk_gain_consistency() {
    let vc = make_path4();
    let mut rng = SmallRng::seed_from_u64(42);
    let mut sol = vc.new_solution(&mut rng);
    for _ in 0..200 {
        let i = rng.random_range(0..vc.graph.len());
        let neighbor = VertexCoverFlipNeighbor { i, gain: sol.gain[i] };
        neighbor.apply_to_solution(&vc, &mut sol);
        let (gain, obj, cs, ue) = vc.calculate_state(&sol.cover);
        assert_eq!(sol.gain, gain, "gain drift");
        assert_eq!(sol.objective, obj, "objective drift");
        assert_eq!(sol.cover_size, cs, "cover_size drift");
        assert_eq!(sol.uncovered_edges, ue, "uncovered_edges drift");
    }
}
