use rustyring::cycles::{find_cycles, select_cycles, CircularDependency};
use rustyring::graph::DependencyGraph;

fn graph_of(nodes: &[&str], edges: &[(usize, usize)]) -> DependencyGraph {
    let mut graph = DependencyGraph::new();
    for node in nodes {
        graph.ensure_node(node);
    }
    for (from, to) in edges {
        graph.add_edge(*from, *to);
    }
    graph
}

fn sorted(cycle: &CircularDependency) -> Vec<String> {
    let mut files = cycle.cycle.clone();
    files.sort();
    files
}

fn edge_between(graph: &DependencyGraph, from: &str, to: &str) -> bool {
    let from = graph.node_index(from).unwrap();
    let to = graph.node_index(to).unwrap();
    graph.has_edge(from, to)
}

#[test]
fn an_empty_graph() {
    let graph = DependencyGraph::new();
    assert_eq!(graph.node_count(), 0);
    assert_eq!(graph.edge_count(), 0);
    assert_eq!(graph.node_index("a.ts"), None);
    assert!(graph.components().is_empty());
    assert!(find_cycles(&graph).is_empty());
}

#[test]
fn a_path_has_one_node() {
    let mut graph = DependencyGraph::new();
    assert_eq!(graph.ensure_node("a.ts"), 0);
    assert_eq!(graph.ensure_node("b.ts"), 1);
    assert_eq!(graph.ensure_node("a.ts"), 0);
    assert_eq!(graph.node_count(), 2);
    assert_eq!(graph.node_index("b.ts"), Some(1));
    assert_eq!(graph.node_index("c.ts"), None);
    assert_eq!(graph.node_path(0), "a.ts");
    assert_eq!(graph.node_path(1), "b.ts");
}

#[test]
fn edges_are_directed_and_may_repeat() {
    let mut graph = graph_of(&["a.ts", "b.ts"], &[(0, 1)]);
    assert!(graph.has_edge(0, 1));
    assert!(!graph.has_edge(1, 0));
    assert!(!graph.has_edge(0, 0));
    graph.add_edge(0, 1);
    assert_eq!(graph.edge_count(), 2);
    assert_eq!(graph.node_count(), 2);
}

#[test]
fn components_cover_every_node_once() {
    let graph = graph_of(&["a", "b", "c", "d"], &[(0, 1), (1, 0), (1, 2), (2, 3)]);
    let components = graph.components();
    let mut all: Vec<usize> = components.iter().flatten().copied().collect();
    all.sort();
    assert_eq!(all, vec![0, 1, 2, 3]);
    let mut sizes: Vec<usize> = components.iter().map(|c| c.len()).collect();
    sizes.sort();
    assert_eq!(sizes, vec![1, 1, 2]);
}

#[test]
fn a_cycle_of_three_is_reported_once() {
    let graph = graph_of(&["a.ts", "b.ts", "c.ts"], &[(0, 1), (1, 2), (2, 0)]);
    let cycles = find_cycles(&graph);
    assert_eq!(cycles.len(), 1);
    assert_eq!(sorted(&cycles[0]), vec!["a.ts", "b.ts", "c.ts"]);
}

#[test]
fn a_graph_without_a_cycle_reports_nothing() {
    let graph = graph_of(&["a.ts", "b.ts", "c.ts"], &[(0, 1), (1, 2), (0, 2)]);
    assert!(find_cycles(&graph).is_empty());
}

#[test]
fn a_cycle_of_two_has_both_edges() {
    let graph = graph_of(&["a.ts", "b.ts", "c.ts"], &[(0, 1), (1, 0), (1, 2)]);
    let cycles = find_cycles(&graph);
    assert_eq!(cycles.len(), 1);
    let cycle = &cycles[0].cycle;
    assert_eq!(cycle.len(), 2);
    for i in 0..cycle.len() {
        assert!(edge_between(&graph, &cycle[i], &cycle[(i + 1) % cycle.len()]));
    }
}

#[test]
fn a_ring_is_listed_along_its_edges_or_against_them() {
    let graph = graph_of(&["a", "b", "c", "d"], &[(0, 1), (1, 2), (2, 3), (3, 0)]);
    let cycles = find_cycles(&graph);
    assert_eq!(cycles.len(), 1);
    assert_eq!(sorted(&cycles[0]), vec!["a", "b", "c", "d"]);
}

#[test]
fn a_longer_cycle_need_not_follow_the_imports() {
    // a <-> b and a <-> c: one component of three files, and no way to list
    // them so that each imports the next.
    let graph = graph_of(&["a", "b", "c"], &[(0, 1), (1, 0), (0, 2), (2, 0)]);
    let cycles = find_cycles(&graph);
    assert_eq!(cycles.len(), 1);
    let cycle = &cycles[0].cycle;
    assert_eq!(sorted(&cycles[0]), vec!["a", "b", "c"]);
    let follows = (0..3).all(|i| edge_between(&graph, &cycle[i], &cycle[(i + 1) % 3]));
    assert!(!follows);
}

#[test]
fn a_file_that_imports_itself_is_a_cycle() {
    let graph = graph_of(&["a.ts", "b.ts"], &[(0, 0), (0, 1)]);
    let cycles = find_cycles(&graph);
    assert_eq!(cycles.len(), 1);
    assert_eq!(cycles[0].cycle, vec!["a.ts".to_string()]);
}

#[test]
fn a_lone_file_is_no_cycle() {
    let graph = graph_of(&["a.ts"], &[]);
    assert!(find_cycles(&graph).is_empty());
}

#[test]
fn two_cycles_are_two_reports() {
    let graph = graph_of(&["a", "b", "c", "d"], &[(0, 1), (1, 0), (1, 2), (2, 3), (3, 2)]);
    let cycles = find_cycles(&graph);
    let mut found: Vec<Vec<String>> = cycles.iter().map(sorted).collect();
    found.sort();
    assert_eq!(
        found,
        vec![vec!["a".to_string(), "b".to_string()], vec!["c".to_string(), "d".to_string()]]
    );
}

#[test]
fn cycles_are_picked_from_given_components() {
    let graph = graph_of(&["a", "b", "c"], &[(0, 1), (1, 0), (2, 2)]);
    let cycles = select_cycles(&graph, &vec![vec![2], vec![1, 0]]);
    assert_eq!(cycles.len(), 2);
    assert_eq!(cycles[0].cycle, vec!["c".to_string()]);
    assert_eq!(cycles[1].cycle, vec!["b".to_string(), "a".to_string()]);
    let none = select_cycles(&graph, &vec![vec![0], vec![1], vec![]]);
    assert!(none.is_empty());
}

#[test]
fn the_component_search_lists_a_cycle_of_two_last_found_first() {
    let graph = graph_of(&["a.ts", "b.ts"], &[(0, 1), (1, 0)]);
    assert_eq!(graph.components(), vec![vec![1, 0]]);
}

#[test]
fn a_cycle_is_copied_with_its_files() {
    let cycle = CircularDependency { cycle: vec!["a".to_string(), "b".to_string()] };
    assert_eq!(cycle.clone().cycle, cycle.cycle);
}
