use flight_graph::flights::{build_graph, FlightData};
use flight_graph::graph::Graph;
use flight_graph::metrics::closeness_parts;
use flight_graph::traversal::UNREACHABLE;

fn idx(g: &Graph, label: &str) -> usize {
    g.node_index(label).unwrap()
}

fn path_graph() -> Graph {
    let mut graph = Graph::new();
    graph.add_edge("A", "B", 1);
    graph.add_edge("B", "C", 1);
    graph.add_edge("C", "D", 1);
    graph
}

#[test]
fn test_graph_add_edge() {
    let mut graph = Graph::new();
    graph.add_edge("A", "B", 10);
    graph.add_edge("B", "C", 5);

    assert_eq!(graph.node_count(), 3);
    assert_eq!(graph.degree("A"), 1);
    assert_eq!(graph.degree("B"), 2);
    assert_eq!(graph.degree("C"), 1);
}

#[test]
fn test_graph_bfs_shortest_paths() {
    let mut graph = Graph::new();
    graph.add_edge("A", "B", 1);
    graph.add_edge("B", "C", 1);
    graph.add_edge("A", "C", 2);

    let distances = graph.bfs_shortest_paths("A").unwrap();

    assert_eq!(distances[idx(&graph, "A")], 0);
    assert_eq!(distances[idx(&graph, "B")], 1);
    assert_eq!(distances[idx(&graph, "C")], 1);
}

#[test]
fn test_connected_components() {
    let mut graph = Graph::new();
    graph.add_edge("A", "B", 1);
    graph.add_edge("B", "C", 1);
    graph.add_edge("D", "E", 1);

    let components = graph.connected_components();
    let has = |c: &Vec<String>, s: &str| c.iter().any(|x| x == s);

    assert_eq!(components.len(), 2);
    assert!(components.iter().any(|c| has(c, "A") && has(c, "B") && has(c, "C")));
    assert!(components.iter().any(|c| has(c, "D") && has(c, "E")));
}

#[test]
fn test_largest_component() {
    let mut graph = Graph::new();
    graph.add_edge("A", "B", 1);
    graph.add_edge("B", "C", 1);
    graph.add_edge("D", "E", 1);

    let largest_component = graph.largest_component();
    let has = |s: &str| largest_component.iter().any(|x| x == s);

    assert_eq!(largest_component.len(), 3);
    assert!(has("A"));
    assert!(has("B"));
    assert!(has("C"));
}

#[test]
fn unknown_label_has_no_distances_and_no_degree() {
    let graph = path_graph();
    assert!(graph.bfs_shortest_paths("Z").is_none());
    assert_eq!(graph.degree("Z"), 0);
    assert!(graph.node_index("Z").is_none());
}

#[test]
fn start_is_at_distance_zero_everywhere() {
    let graph = path_graph();
    for s in ["A", "B", "C", "D"] {
        let d = graph.bfs_shortest_paths(s).unwrap();
        assert_eq!(d[idx(&graph, s)], 0);
    }
}

#[test]
fn directed_hops_ignore_weight() {
    let mut graph = Graph::with_direction(true);
    graph.add_edge("A", "B", 5);
    graph.add_edge("B", "C", 10);
    graph.add_edge("A", "C", 20);
    let d = graph.bfs_shortest_paths("A").unwrap();
    assert_eq!(d[idx(&graph, "A")], 0);
    assert_eq!(d[idx(&graph, "B")], 1);
    assert_eq!(d[idx(&graph, "C")], 1);
    let from_c = graph.bfs_shortest_paths("C").unwrap();
    assert_eq!(from_c[idx(&graph, "A")], UNREACHABLE);
    assert_eq!(from_c[idx(&graph, "B")], UNREACHABLE);
}

#[test]
fn path_distances_count_hops() {
    let graph = path_graph();
    let d = graph.bfs_shortest_paths("A").unwrap();
    assert_eq!(d[idx(&graph, "D")], 3);
    assert_eq!(d[idx(&graph, "C")], 2);
}

#[test]
fn components_cover_every_node_once() {
    let mut graph = Graph::new();
    graph.add_edge("A", "B", 1);
    graph.add_edge("B", "C", 1);
    graph.add_edge("D", "E", 1);
    graph.add_edge("F", "F", 1);
    let comps = graph.component_indices();
    let mut seen = vec![0; graph.node_count()];
    for c in &comps {
        for &v in c {
            seen[v] += 1;
        }
    }
    assert!(seen.iter().all(|&k| k == 1));
    let mut sizes: Vec<usize> = comps.iter().map(|c| c.len()).collect();
    sizes.sort();
    assert_eq!(sizes, vec![1, 2, 3]);
}

#[test]
fn largest_component_is_one_of_the_components() {
    let mut graph = Graph::new();
    graph.add_edge("D", "E", 1);
    graph.add_edge("A", "B", 1);
    graph.add_edge("B", "C", 1);
    let comps = graph.component_indices();
    let largest = graph.largest_component_indices();
    assert!(comps.contains(&largest));
    assert!(comps.iter().all(|c| c.len() <= largest.len()));
    assert_eq!(largest.len(), 3);
}

#[test]
fn empty_graph_has_no_components() {
    let graph = Graph::new();
    assert!(graph.connected_components().is_empty());
    assert!(graph.largest_component().is_empty());
    assert!(graph.degree_centrality().is_empty());
}

#[test]
fn degrees_sum_to_stored_entries() {
    let mut directed = Graph::with_direction(true);
    directed.add_edge("A", "B", 1);
    directed.add_edge("A", "B", 1);
    directed.add_edge("B", "C", 3);
    let d = directed.degree_centrality();
    assert_eq!(d.iter().sum::<usize>(), 3);
    assert_eq!(d[idx(&directed, "A")], 2);

    let undirected = path_graph();
    let u = undirected.degree_centrality();
    assert_eq!(u.iter().sum::<usize>(), 6);
    assert_eq!(u, vec![1, 2, 2, 1]);
}

#[test]
fn closeness_terms_of_single_edge() {
    let mut graph = Graph::with_direction(true);
    graph.add_edge("A", "B", 7);
    let from_a = graph.bfs_shortest_paths("A").unwrap();
    assert_eq!(closeness_parts(&from_a), (2, 1));
    let from_b = graph.bfs_shortest_paths("B").unwrap();
    assert_eq!(closeness_parts(&from_b), (1, 0));
}

#[test]
fn closeness_sum_saturates() {
    let d = vec![UNREACHABLE - 1, 5, UNREACHABLE, 0];
    assert_eq!(closeness_parts(&d), (3, UNREACHABLE));
    assert_eq!(closeness_parts(&vec![]), (0, 0));
}

#[test]
fn build_graph_adds_one_edge_per_record() {
    let rec = |a: &str, b: &str, n: u32| FlightData {
        year: 2020,
        month: 1,
        us_airport: a.to_string(),
        foreign_airport: b.to_string(),
        carrier: "XX".to_string(),
        flight_type: "Passenger".to_string(),
        total_flights: n,
    };
    let flights = vec![rec("JFK", "LHR", 3), rec("JFK", "LHR", 4), rec("LAX", "NRT", 2)];
    let graph = build_graph(&flights);
    assert_eq!(graph.node_count(), 4);
    assert_eq!(graph.degree("JFK"), 2);
    assert_eq!(graph.degree("LHR"), 2);
    assert_eq!(graph.degree("NRT"), 1);
    assert_eq!(graph.connected_components().len(), 2);
}

#[test]
fn neighbors_list_entries_in_insertion_order() {
    let mut graph = Graph::new();
    graph.add_edge("A", "B", 10);
    graph.add_edge("A", "C", 5);
    graph.add_edge("A", "B", 7);
    let b = idx(&graph, "B");
    let c = idx(&graph, "C");
    assert_eq!(graph.neighbors("A"), vec![(b, 10), (c, 5), (b, 7)]);
    assert_eq!(graph.neighbors("B"), vec![(0, 10), (0, 7)]);
    assert!(graph.neighbors("Q").is_empty());
}
