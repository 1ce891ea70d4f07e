use bhandari_rs::graph::{contains_pair, outgoing, Edge, GraphError, GraphModel};

fn edge(from: u32, to: u32, weight: i32) -> Edge {
    Edge { from, to, weight }
}

#[test]
fn new_keeps_edges_in_order() {
    let g = GraphModel::new(3, vec![edge(0, 1, 4), edge(1, 2, 0), edge(2, 0, 7)]).unwrap();
    assert_eq!(g.node_count(), 3);
    assert_eq!(g.edges(), &vec![edge(0, 1, 4), edge(1, 2, 0), edge(2, 0, 7)]);
}

#[test]
fn new_accepts_no_edges_and_no_nodes() {
    let g = GraphModel::new(0, vec![]).unwrap();
    assert_eq!(g.node_count(), 0);
    assert!(g.edges().is_empty());
}

#[test]
fn new_refuses_node_out_of_range() {
    assert_eq!(GraphModel::new(2, vec![edge(0, 2, 1)]), Err(GraphError::NodeOutOfRange));
    assert_eq!(GraphModel::new(2, vec![edge(2, 0, 1)]), Err(GraphError::NodeOutOfRange));
    assert_eq!(GraphModel::new(0, vec![edge(0, 0, 1)]), Err(GraphError::NodeOutOfRange));
}

#[test]
fn new_refuses_negative_weight() {
    assert_eq!(
        GraphModel::new(2, vec![edge(0, 1, 1), edge(1, 0, -1)]),
        Err(GraphError::NegativeWeight)
    );
}

#[test]
fn out_of_range_is_reported_before_negative_weight() {
    assert_eq!(
        GraphModel::new(2, vec![edge(0, 1, -1), edge(0, 5, 1)]),
        Err(GraphError::NodeOutOfRange)
    );
}

#[test]
fn duplicate_pair_first_occurrence_wins() {
    let g = GraphModel::new(3, vec![edge(0, 1, 5), edge(0, 1, 1), edge(1, 2, 1), edge(0, 1, 9)])
        .unwrap();
    assert_eq!(g.edges(), &vec![edge(0, 1, 5), edge(1, 2, 1)]);
    let (path, cost) = g.shortest_path(0, 2).unwrap();
    assert_eq!(path, vec![0, 1, 2]);
    assert_eq!(cost, 6);
}

#[test]
fn opposite_edges_are_not_duplicates() {
    let g = GraphModel::new(2, vec![edge(0, 1, 5), edge(1, 0, 3)]).unwrap();
    assert_eq!(g.edges().len(), 2);
}

#[test]
fn successors_lists_neighbours_with_weights() {
    let g = GraphModel::new(4, vec![edge(0, 1, 4), edge(1, 2, 1), edge(0, 3, 7), edge(0, 2, 0)])
        .unwrap();
    assert_eq!(g.successors(0), vec![(1, 4i64), (3, 7), (2, 0)]);
    assert_eq!(g.successors(1), vec![(2, 1i64)]);
    assert_eq!(g.successors(2), Vec::<(u32, i64)>::new());
    assert_eq!(g.successors(9), Vec::<(u32, i64)>::new());
}

#[test]
fn outgoing_keeps_negative_weights() {
    let edges = vec![edge(1, 0, -3), edge(1, 2, 2)];
    assert_eq!(outgoing(&edges, 1), vec![(0, -3i64), (2, 2)]);
}

#[test]
fn contains_pair_is_directed() {
    let edges = vec![edge(0, 1, 1), edge(2, 3, 1)];
    assert!(contains_pair(&edges, 0, 1));
    assert!(contains_pair(&edges, 2, 3));
    assert!(!contains_pair(&edges, 1, 0));
    assert!(!contains_pair(&edges, 0, 3));
    assert!(!contains_pair(&vec![], 0, 0));
}
