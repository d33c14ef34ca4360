use flight_graph::graph::Graph;
use flight_graph::traversal::UNREACHABLE;

#[test]
fn diamond_has_two_shortest_paths() {
    let mut g = Graph::with_direction(true);
    g.add_edge("A", "B", 1);
    g.add_edge("A", "C", 1);
    g.add_edge("B", "D", 1);
    g.add_edge("C", "D", 1);
    g.add_edge("A", "D", 1);
    g.add_edge("D", "E", 1);
    let (dist, counts) = g.shortest_path_counts(0);
    assert_eq!(dist, vec![0, 1, 1, 1, 2]);
    assert_eq!(counts, vec![1, 1, 1, 1, 1]);

    let mut h = Graph::with_direction(true);
    h.add_edge("A", "B", 1);
    h.add_edge("A", "C", 1);
    h.add_edge("B", "D", 1);
    h.add_edge("C", "D", 1);
    h.add_edge("D", "E", 1);
    let (_, c2) = h.shortest_path_counts(0);
    assert_eq!(c2, vec![1, 1, 1, 2, 2]);
}

#[test]
fn parallel_entries_count_as_separate_paths() {
    let mut g = Graph::new();
    g.add_edge("A", "B", 1);
    g.add_edge("A", "B", 2);
    g.add_edge("B", "C", 1);
    g.add_edge("X", "Y", 1);
    let (dist, counts) = g.shortest_path_counts(0);
    assert_eq!(dist, vec![0, 1, 2, UNREACHABLE, UNREACHABLE]);
    assert_eq!(counts, vec![1, 2, 2, 0, 0]);
}

#[test]
fn path_counts_grow_along_a_ladder() {
    let mut g = Graph::with_direction(true);
    let names = ["N0", "N1", "N2", "N3", "N4"];
    for w in names.windows(2) {
        g.add_edge(w[0], w[1], 1);
        g.add_edge(w[0], w[1], 1);
        g.add_edge(w[0], w[1], 1);
    }
    let (_, counts) = g.shortest_path_counts(0);
    assert_eq!(counts, vec![1, 3, 9, 27, 81]);
}

#[test]
fn ends_of_a_path_have_no_betweenness_terms() {
    let mut g = Graph::new();
    g.add_edge("A", "B", 1);
    g.add_edge("B", "C", 1);
    g.add_edge("C", "D", 1);
    assert!(g.betweenness_terms(0).is_empty());
    assert!(g.betweenness_terms(3).is_empty());
    let b = g.betweenness_terms(1);
    assert_eq!(b, vec![(1, 1), (1, 1), (1, 1), (1, 1)]);
}

#[test]
fn diamond_splits_betweenness_between_two_middles() {
    let mut g = Graph::with_direction(true);
    g.add_edge("A", "B", 1);
    g.add_edge("A", "C", 1);
    g.add_edge("B", "D", 1);
    g.add_edge("C", "D", 1);
    assert_eq!(g.betweenness_terms(1), vec![(1, 2)]);
    assert_eq!(g.betweenness_terms(2), vec![(1, 2)]);
    assert!(g.betweenness_terms(0).is_empty());
    assert!(g.betweenness_terms(3).is_empty());
}

#[test]
fn isolated_node_has_no_betweenness_terms() {
    let mut g = Graph::new();
    g.add_edge("A", "B", 1);
    g.add_edge("C", "C", 1);
    assert!(g.betweenness_terms(2).is_empty());
}
