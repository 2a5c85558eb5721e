use optopus::graph::Graph;
use optopus::job_shop::JobShopScheduling;
use optopus::job_shop_text::JobShopTextError;
use optopus::sat::Sat;
use optopus::sat_text::DimacsError;
use optopus::text::{parse_i32, parse_u32, parse_usize, split_data_lines, split_tokens, InstanceError};
use optopus::vertex_cover::VertexCover;

#[test]
fn tokens_and_data_lines() {
    assert_eq!(split_tokens(b"  a\tbc \r"), vec![b"a".to_vec(), b"bc".to_vec()]);
    assert!(split_tokens(b" \t ").is_empty());
    let dl = split_data_lines(b"1 2\n\n# note\n  #x y\n3\n4 5");
    assert_eq!(dl, vec![vec![b"1".to_vec(), b"2".to_vec()], vec![b"3".to_vec()], vec![b"4".to_vec(), b"5".to_vec()]]);
}

#[test]
fn numbers_read_as_rust_reads_them() {
    assert_eq!(parse_usize(b"+17"), Some(17));
    assert_eq!(parse_usize(b"-0"), None);
    assert_eq!(parse_usize(b""), None);
    assert_eq!(parse_usize(b"18446744073709551615"), Some(usize::MAX));
    assert_eq!(parse_usize(b"18446744073709551616"), None);
    assert_eq!(parse_i32(b"-2147483648"), Some(i32::MIN));
    assert_eq!(parse_i32(b"2147483648"), None);
    assert_eq!(parse_i32(b"+5"), Some(5));
    assert_eq!(parse_i32(b"5x"), None);
    assert_eq!(parse_u32(b"4294967295"), Some(u32::MAX));
    assert_eq!(parse_u32(b"4294967296"), None);
}

#[test]
fn dimacs_reads_clauses() {
    let text = b"c example\np cnf 3 2\n1 -2 0\n2 -3 0\n%\n0\n";
    let sat = Sat::parse_dimacs(text).unwrap();
    assert_eq!(sat.n_vars(), 3);
    assert_eq!(sat.n_clauses(), 2);
    assert_eq!(sat.clause(0), &[1, -2]);
    assert_eq!(sat.clause(1), &[2, -3]);
}

#[test]
fn dimacs_refusals() {
    assert_eq!(Sat::parse_dimacs(b"p cnf 3 2\n1 -2 0\n2 -4 0\n").unwrap_err(), DimacsError::LiteralOutOfRange(2));
    assert_eq!(Sat::parse_dimacs(b"1 2 0\np cnf 2 1\n").unwrap_err(), DimacsError::ClauseBeforeHeader(0));
    assert_eq!(Sat::parse_dimacs(b"p cnf 2\n").unwrap_err(), DimacsError::BadHeader(0));
    assert_eq!(Sat::parse_dimacs(b"p cnf 2 1\n1 x 0\n").unwrap_err(), DimacsError::BadLiteral(1));
    assert_eq!(Sat::parse_dimacs(b"c nothing\n").unwrap_err(), DimacsError::MissingHeader);
    assert_eq!(
        Sat::parse_dimacs(b"p cnf 2 3\n1 2 0\n").unwrap_err(),
        DimacsError::ClauseCountMismatch { declared: 3, found: 1 }
    );
}

#[test]
fn job_shop_reads_operations_across_lines() {
    let text = b"2 2\n# jobs follow\n0 2 1 3\n1 1\n0 4\n";
    let inst = JobShopScheduling::parse_text("tiny".to_string(), text).unwrap();
    assert_eq!(inst.name, "tiny");
    assert_eq!(inst.n_jobs, 2);
    assert_eq!(inst.n_machines, 2);
    assert_eq!(inst.jobs, vec![vec![(0, 2), (1, 3)], vec![(1, 1), (0, 4)]]);
    assert_eq!(inst.decode(&[1, 0, 0, 1]).unwrap().0, 6);
}

#[test]
fn job_shop_refusals() {
    let parse = |t: &[u8]| JobShopScheduling::parse_text("x".to_string(), t).unwrap_err();
    assert_eq!(parse(b""), JobShopTextError::BadHeader);
    assert_eq!(parse(b"2 x\n"), JobShopTextError::BadHeader);
    assert_eq!(parse(b"1 2\n0 5 2 5\n"), JobShopTextError::BadOperation(1));
    assert_eq!(parse(b"2 1\n0 5\n"), JobShopTextError::BadOperation(1));
    assert_eq!(parse(b"1 1\n0 -5\n"), JobShopTextError::BadOperation(0));
}

#[test]
fn edge_list_reads_a_graph() {
    let g = Graph::parse_edge_list(b"3 3\n1 2 1\n1 3 1\n2 3 1\n").unwrap();
    let vc = VertexCover::new(g);
    assert_eq!(vc.graph.num_vertices(), 3);
    assert_eq!(vc.graph.num_edges(), 3);
    let g = Graph::parse_edge_list(b"5 2\n1 1\n2 4\n").unwrap();
    assert_eq!(g.num_vertices(), 5);
    assert_eq!(g.num_edges(), 1);
    assert!(g.has_edge(3, 1));
}

#[test]
fn edge_list_refusals() {
    assert_eq!(Graph::parse_edge_list(b"").unwrap_err(), InstanceError::MissingHeader);
    assert_eq!(Graph::parse_edge_list(b"3\n").unwrap_err(), InstanceError::BadHeader);
    assert_eq!(Graph::parse_edge_list(b"3 1\n0 2\n").unwrap_err(), InstanceError::BadLine(1));
    assert_eq!(Graph::parse_edge_list(b"3 1\n1 2\n2\n").unwrap_err(), InstanceError::BadLine(2));
}

#[test]
fn test_load_file_rejects_literal_exceeding_n_vars() {
    let text = "p cnf 3 2\n1 -2 0\n2 -4 0\n";
    let err = Sat::parse_dimacs(text.as_bytes()).expect_err("literal exceeding n_vars must be rejected");
    assert_eq!(err, DimacsError::LiteralOutOfRange(2));
}

#[test]
fn problem_test_load_file_roundtrip() {
    let text = "3 3\n1 2 1\n1 3 1\n2 3 1\n";
    let vc = VertexCover::new(Graph::parse_edge_list(text.as_bytes()).expect("edge list should parse"));
    assert_eq!(vc.graph.num_vertices(), 3);
    assert_eq!(vc.graph.num_edges(), 3);
}

#[test]
fn edge_list_dimension_is_the_header_or_the_largest_endpoint() {
    let g = Graph::parse_edge_list(b"5 1\n1 2\n").unwrap();
    assert_eq!(g.len(), 5);
    let g = Graph::parse_edge_list(b"2 1\n1 4\n").unwrap();
    assert_eq!(g.len(), 4);
}

#[test]
fn white_space_of_every_kind_separates_tokens() {
    assert_eq!(split_tokens(b"1\x0b2\x0c3"), vec![b"1".to_vec(), b"2".to_vec(), b"3".to_vec()]);
    let g = Graph::parse_edge_list("3\u{3000}1\n1\u{00a0}2\n".as_bytes()).unwrap();
    assert_eq!(g.num_edges(), 1);
    assert!(g.has_edge(0, 1));
    let sat = Sat::parse_dimacs("p cnf 2 1\n1\u{2003}-2 0\n".as_bytes()).unwrap();
    assert_eq!(sat.n_vars(), 2);
}

#[test]
fn decimal_text_writes_the_digits() {
    assert_eq!(optopus::text::decimal_text(0), "0");
    assert_eq!(optopus::text::decimal_text(7), "7");
    assert_eq!(optopus::text::decimal_text(10), "10");
    assert_eq!(optopus::text::decimal_text(1234567), "1234567");
    assert_eq!(optopus::text::decimal_text(usize::MAX), usize::MAX.to_string());
}
