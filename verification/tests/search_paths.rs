use bhandari_rs::graph::{Edge, GraphModel};
use bhandari_rs::potential::{check_potential, find_potential, value_at};
use bhandari_rs::search::same_node;

fn edge(from: u32, to: u32, weight: i32) -> Edge {
    Edge { from, to, weight }
}

#[test]
fn shortest_path_prefers_cheaper_detour() {
    let g = GraphModel::new(4, vec![edge(0, 3, 10), edge(0, 1, 2), edge(1, 2, 3), edge(2, 3, 4)])
        .unwrap();
    assert_eq!(g.shortest_path(0, 3), Some((vec![0, 1, 2, 3], 9)));
}

#[test]
fn shortest_path_reports_unreachable_target() {
    let g = GraphModel::new(3, vec![edge(0, 1, 1), edge(2, 1, 1)]).unwrap();
    assert_eq!(g.shortest_path(0, 2), None);
}

#[test]
fn shortest_path_from_a_node_to_itself() {
    let g = GraphModel::new(2, vec![edge(0, 1, 1)]).unwrap();
    assert_eq!(g.shortest_path(1, 1), Some((vec![1], 0)));
}

#[test]
fn shortest_path_sums_beyond_32_bits() {
    let g = GraphModel::new(3, vec![edge(0, 1, i32::MAX), edge(1, 2, i32::MAX)]).unwrap();
    assert_eq!(g.shortest_path(0, 2), Some((vec![0, 1, 2], 2 * (i32::MAX as i64))));
}

#[test]
fn same_node_compares() {
    assert!(same_node(3, 3));
    assert!(!same_node(3, 4));
}

#[test]
fn potential_of_non_negative_graph_is_zero() {
    let edges = vec![edge(0, 1, 3), edge(1, 2, 0)];
    assert_eq!(find_potential(&edges, 3), Some(vec![0, 0, 0]));
}

#[test]
fn potential_with_negative_edges() {
    let edges = vec![edge(0, 1, 4), edge(1, 2, -3), edge(2, 0, 1)];
    let d = find_potential(&edges, 3).unwrap();
    assert_eq!(d, vec![-2, 0, -3]);
    assert!(check_potential(&edges, &d));
}

#[test]
fn no_potential_with_negative_cycle() {
    let edges = vec![edge(0, 1, 1), edge(1, 0, -2)];
    assert_eq!(find_potential(&edges, 2), None);
}

#[test]
fn check_potential_refuses_relaxable_edge() {
    let edges = vec![edge(0, 1, -1)];
    assert!(!check_potential(&edges, &vec![0, 0]));
    assert!(check_potential(&edges, &vec![0, -1]));
    assert!(check_potential(&edges, &vec![5, 4]));
}

#[test]
fn check_potential_counts_missing_nodes_as_zero() {
    let edges = vec![edge(0, 3, 2)];
    assert!(check_potential(&edges, &vec![0]));
    assert!(!check_potential(&edges, &vec![-3]));
    assert_eq!(value_at(&vec![7, 8], 1), 8);
    assert_eq!(value_at(&vec![7, 8], 2), 0);
}
