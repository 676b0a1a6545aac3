use tsp_solver::graph_defs::Edge;
use tsp_solver::graph_defs::Graph;
use tsp_solver::graph_defs::Node;
use tsp_solver::graph_defs::UndirectedPerformantGraph;
use tsp_solver::search::search_optimal_tour;
use tsp_solver::search::solve_tsp;
use tsp_solver::search::TspError;

fn node(id: &str) -> Node {
    Node { id: String::from(id), label: String::from(id) }
}

fn edge(from: &str, to: &str, weight: u32) -> Edge {
    Edge {
        from: String::from(from),
        to: String::from(to),
        weight,
        label: String::from(""),
        id: String::from(""),
    }
}

fn triangle_graph() -> UndirectedPerformantGraph {
    let mut g = UndirectedPerformantGraph::new();
    g.add_vertex(1, String::from("A")).unwrap();
    g.add_vertex(2, String::from("B")).unwrap();
    g.add_vertex(3, String::from("C")).unwrap();
    g.add_edge(String::from("A"), String::from("B"), 1).unwrap();
    g.add_edge(String::from("B"), String::from("C"), 2).unwrap();
    g.add_edge(String::from("A"), String::from("C"), 3).unwrap();
    g.set_key_vertex(String::from("A")).unwrap();
    g
}

#[test]
fn triangle_has_weight_six() {
    let g = triangle_graph();
    let out = search_optimal_tour(&g);
    let sol = out.result.expect("the triangle has a tour");
    assert_eq!(sol.total_weight, 6);
    // The tour starts and ends at the start vertex and visits all three.
    assert_eq!(sol.path.len(), 4);
    assert_eq!(sol.path[0], 1);
    assert_eq!(sol.path[3], 1);
    assert_eq!(sol.labels.first().map(String::as_str), Some("A"));
    assert_eq!(sol.labels.last().map(String::as_str), Some("A"));
    assert!(out.iterations > 0);
    assert!(out.instruction_count > 0);
}

#[test]
fn triangle_tie_break_follows_insertion_order() {
    // With the neighbour lists above, A's first neighbour is B, and both
    // tours weigh 6, so the deterministic exploration keeps A->B->C->A.
    let g = triangle_graph();
    let out = search_optimal_tour(&g);
    let sol = out.result.unwrap();
    let labels: Vec<&str> = sol.labels.iter().map(String::as_str).collect();
    assert_eq!(labels, vec!["A", "B", "C", "A"]);
}

#[test]
fn complete_graph_uniform_weight() {
    // Complete graph on 4 vertices, every edge weighing 5: optimal is 4 * 5.
    let w = 5;
    let names = ["A", "B", "C", "D"];
    let mut g = UndirectedPerformantGraph::new();
    for (i, name) in names.iter().enumerate() {
        g.add_vertex((i + 1) as u32, String::from(*name)).unwrap();
    }
    for i in 0..names.len() {
        for j in (i + 1)..names.len() {
            g.add_edge(String::from(names[i]), String::from(names[j]), w).unwrap();
        }
    }
    g.set_key_vertex(String::from("A")).unwrap();
    let out = search_optimal_tour(&g);
    let sol = out.result.unwrap();
    assert_eq!(sol.total_weight, 4 * w);
}

#[test]
fn disconnected_vertices_report_no_solution() {
    let mut g = UndirectedPerformantGraph::new();
    g.add_vertex(1, String::from("A")).unwrap();
    g.add_vertex(2, String::from("B")).unwrap();
    g.set_key_vertex(String::from("A")).unwrap();
    let out = search_optimal_tour(&g);
    assert_eq!(out.result.err(), Some(TspError::NoSolution));
}

#[test]
fn missing_start_vertex_is_fatal() {
    let mut g = UndirectedPerformantGraph::new();
    g.add_vertex(1, String::from("A")).unwrap();
    let out = search_optimal_tour(&g);
    assert_eq!(out.result.err(), Some(TspError::NoStartVertex));
}

#[test]
fn rerunning_the_search_is_deterministic() {
    let g = triangle_graph();
    let first = search_optimal_tour(&g);
    let second = search_optimal_tour(&g);
    let w1 = first.result.unwrap().total_weight;
    let w2 = second.result.unwrap().total_weight;
    assert_eq!(w1, w2);
}

#[test]
fn vertex_without_adjacency_abandons_the_branch() {
    // A is in the vertex set but has no recorded adjacency: the branch that
    // reaches it is abandoned as incomplete, and since no tour can exist the
    // search ends with no solution — without fabricating a best pair.
    let mut g = UndirectedPerformantGraph::new();
    g.add_vertex(1, String::from("A")).unwrap();
    g.add_vertex(2, String::from("B")).unwrap();
    g.add_vertex(3, String::from("C")).unwrap();
    g.add_edge(String::from("B"), String::from("C"), 2).unwrap();
    g.set_key_vertex(String::from("A")).unwrap();
    let out = search_optimal_tour(&g);
    assert_eq!(out.result.err(), Some(TspError::NoSolution));
    assert!(out.incomplete_branches >= 1);
}

#[test]
fn solve_tsp_from_description() {
    let graph = Graph {
        nodes: vec![node("A"), node("B"), node("C")],
        edges: vec![edge("A", "B", 1), edge("B", "C", 2), edge("A", "C", 3)],
        starting_node: String::from("A"),
    };
    let out = solve_tsp(graph);
    let sol = out.result.unwrap();
    assert_eq!(sol.total_weight, 6);
    let labels: Vec<&str> = sol.labels.iter().map(String::as_str).collect();
    assert_eq!(labels, vec!["A", "B", "C", "A"]);
}

#[test]
fn solve_tsp_skips_bad_rows_and_still_solves() {
    // A duplicate node id, a duplicated label, an edge to an unknown label:
    // all skipped with a diagnostic, and the rest still solves.
    let graph = Graph {
        nodes: vec![node("A"), node("B"), node("A"), node("C")],
        edges: vec![
            edge("A", "B", 1),
            edge("B", "C", 2),
            edge("A", "C", 3),
            edge("A", "Z", 1),
        ],
        starting_node: String::from("A"),
    };
    let out = solve_tsp(graph);
    let sol = out.result.unwrap();
    assert_eq!(sol.total_weight, 6);
}

#[test]
fn solve_tsp_unknown_start_is_fatal() {
    let graph = Graph {
        nodes: vec![node("A"), node("B")],
        edges: vec![edge("A", "B", 1)],
        starting_node: String::from("Z"),
    };
    let out = solve_tsp(graph);
    assert_eq!(out.result.err(), Some(TspError::NoStartVertex));
}

#[test]
fn solve_tsp_empty_description_has_no_start() {
    let graph = Graph { nodes: vec![], edges: vec![], starting_node: String::from("A") };
    let out = solve_tsp(graph);
    assert_eq!(out.result.err(), Some(TspError::NoStartVertex));
}

// Brute-force cross-check: on a small graph the reported weight equals the
// true minimum over all permutations starting and ending at the start.
fn brute_force_minimum(
    adjacency: &[Vec<(u32, u32)>],
    start: u32,
    rest: &mut Vec<u32>,
    current: u32,
    acc: u64,
    best: &mut Option<u64>,
) {
    let weight_to = |from: u32, to: u32| -> Option<u32> {
        adjacency[from as usize - 1].iter().find(|&&(v, _)| v == to).map(|&(_, w)| w)
    };
    if rest.is_empty() {
        if let Some(w) = weight_to(current, start) {
            let total = acc + w as u64;
            if best.map_or(true, |b| total < b) {
                *best = Some(total);
            }
        }
        return;
    }
    for i in 0..rest.len() {
        let next = rest.remove(i);
        if let Some(w) = weight_to(current, next) {
            brute_force_minimum(adjacency, start, rest, next, acc + w as u64, best);
        }
        rest.insert(i, next);
    }
}

#[test]
fn search_matches_brute_force_on_small_graph() {
    let names = ["A", "B", "C", "D", "E"];
    let weights = [
        ("A", "B", 4),
        ("A", "C", 7),
        ("A", "D", 3),
        ("A", "E", 9),
        ("B", "C", 2),
        ("B", "D", 8),
        ("B", "E", 5),
        ("C", "D", 6),
        ("C", "E", 1),
        ("D", "E", 10),
    ];
    let mut g = UndirectedPerformantGraph::new();
    for (i, name) in names.iter().enumerate() {
        g.add_vertex((i + 1) as u32, String::from(*name)).unwrap();
    }
    for (a, b, w) in weights.iter() {
        g.add_edge(String::from(*a), String::from(*b), *w).unwrap();
    }
    g.set_key_vertex(String::from("A")).unwrap();

    let mut adjacency: Vec<Vec<(u32, u32)>> = Vec::new();
    for i in 0..names.len() {
        adjacency.push(g.get_neighbors((i + 1) as u32).cloned().unwrap_or_default());
    }
    let mut rest: Vec<u32> = (2..=names.len() as u32).collect();
    let mut best: Option<u64> = None;
    brute_force_minimum(&adjacency, 1, &mut rest, 1, 0, &mut best);

    let out = search_optimal_tour(&g);
    let sol = out.result.unwrap();
    assert_eq!(Some(sol.total_weight as u64), best);
}

#[test]
fn single_vertex_with_self_loop_closes_immediately() {
    let mut g = UndirectedPerformantGraph::new();
    g.add_vertex(1, String::from("A")).unwrap();
    g.add_edge(String::from("A"), String::from("A"), 4).unwrap();
    g.set_key_vertex(String::from("A")).unwrap();
    let out = search_optimal_tour(&g);
    let sol = out.result.unwrap();
    assert_eq!(sol.total_weight, 4);
    assert_eq!(sol.path, vec![1, 1]);
}

#[test]
fn single_vertex_without_edges_is_incomplete() {
    let mut g = UndirectedPerformantGraph::new();
    g.add_vertex(1, String::from("A")).unwrap();
    g.set_key_vertex(String::from("A")).unwrap();
    let out = search_optimal_tour(&g);
    assert_eq!(out.result.err(), Some(TspError::NoSolution));
    assert_eq!(out.incomplete_branches, 1);
}

#[test]
fn large_weights_do_not_overflow() {
    // The only tour weighs 6_000_000_000, beyond any expressible bound, so
    // nothing ever improves on the initial bound and no solution is found.
    let mut g = UndirectedPerformantGraph::new();
    g.add_vertex(1, String::from("A")).unwrap();
    g.add_vertex(2, String::from("B")).unwrap();
    g.add_edge(String::from("A"), String::from("B"), 3_000_000_000).unwrap();
    g.set_key_vertex(String::from("A")).unwrap();
    let out = search_optimal_tour(&g);
    assert_eq!(out.result.err(), Some(TspError::NoSolution));
}

#[test]
fn large_weights_that_fit_are_solved() {
    let mut g = UndirectedPerformantGraph::new();
    g.add_vertex(1, String::from("A")).unwrap();
    g.add_vertex(2, String::from("B")).unwrap();
    g.add_edge(String::from("A"), String::from("B"), 2_000_000_000).unwrap();
    g.set_key_vertex(String::from("A")).unwrap();
    let out = search_optimal_tour(&g);
    let sol = out.result.unwrap();
    assert_eq!(sol.total_weight, 4_000_000_000);
}
