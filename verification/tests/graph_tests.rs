use tsp_solver::graph_defs::GraphError;
use tsp_solver::graph_defs::UndirectedPerformantGraph;

#[test]
fn new_graph_is_empty() {
    let g = UndirectedPerformantGraph::new();
    assert!(g.get_vertices().is_none());
    assert!(g.get_key_vertex().is_none());
    assert!(g.get_neighbors(1).is_none());
    assert!(g.get_label(1).is_none());
}

#[test]
fn add_vertex_and_look_up() {
    let mut g = UndirectedPerformantGraph::new();
    g.add_vertex(1, String::from("A")).unwrap();
    g.add_vertex(2, String::from("B")).unwrap();
    assert_eq!(g.get_vertices(), Some(vec![1, 2]));
    assert_eq!(g.get_label(1), Some(String::from("A")));
    assert_eq!(g.get_label(2), Some(String::from("B")));
    assert_eq!(g.find_vertex_id(String::from("B")), Some(2));
    assert_eq!(g.find_vertex_id(String::from("C")), None);
}

#[test]
fn duplicate_vertex_id_is_skipped() {
    let mut g = UndirectedPerformantGraph::new();
    g.add_vertex(1, String::from("A")).unwrap();
    let r = g.add_vertex(1, String::from("B"));
    assert_eq!(r, Err(GraphError::DuplicateVertex));
    assert_eq!(g.get_vertices(), Some(vec![1]));
    assert_eq!(g.get_label(1), Some(String::from("A")));
}

#[test]
fn duplicate_label_keeps_only_the_first() {
    let mut g = UndirectedPerformantGraph::new();
    g.add_vertex(1, String::from("A")).unwrap();
    let r = g.add_vertex(2, String::from("A"));
    assert_eq!(r, Err(GraphError::DuplicateLabel));
    // The vertex count is unchanged by the duplicate insert attempt.
    assert_eq!(g.get_vertices(), Some(vec![1]));
    assert_eq!(g.get_label(2), None);
}

#[test]
fn add_edge_records_both_directions() {
    let mut g = UndirectedPerformantGraph::new();
    g.add_vertex(1, String::from("A")).unwrap();
    g.add_vertex(2, String::from("B")).unwrap();
    g.add_edge(String::from("A"), String::from("B"), 7).unwrap();
    assert_eq!(g.get_neighbors(1), Some(&vec![(2, 7)]));
    assert_eq!(g.get_neighbors(2), Some(&vec![(1, 7)]));
}

#[test]
fn add_edge_with_unknown_label_is_skipped() {
    let mut g = UndirectedPerformantGraph::new();
    g.add_vertex(1, String::from("A")).unwrap();
    let r = g.add_edge(String::from("A"), String::from("Z"), 3);
    assert_eq!(r, Err(GraphError::UnknownLabel));
    assert!(g.get_neighbors(1).is_none());
}

#[test]
fn set_key_vertex_resolves_label() {
    let mut g = UndirectedPerformantGraph::new();
    g.add_vertex(1, String::from("A")).unwrap();
    g.add_vertex(2, String::from("B")).unwrap();
    g.set_key_vertex(String::from("B")).unwrap();
    assert_eq!(g.get_key_vertex(), Some(2));
}

#[test]
fn set_key_vertex_unknown_label_leaves_start_unset() {
    let mut g = UndirectedPerformantGraph::new();
    g.add_vertex(1, String::from("A")).unwrap();
    let r = g.set_key_vertex(String::from("Z"));
    assert_eq!(r, Err(GraphError::UnknownLabel));
    assert_eq!(g.get_key_vertex(), None);
}

#[test]
fn neighbor_lists_keep_insertion_order() {
    let mut g = UndirectedPerformantGraph::new();
    g.add_vertex(1, String::from("A")).unwrap();
    g.add_vertex(2, String::from("B")).unwrap();
    g.add_vertex(3, String::from("C")).unwrap();
    g.add_edge(String::from("A"), String::from("B"), 1).unwrap();
    g.add_edge(String::from("A"), String::from("C"), 2).unwrap();
    assert_eq!(g.get_neighbors(1), Some(&vec![(2, 1), (3, 2)]));
}
