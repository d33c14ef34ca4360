use flight_graph::graph::Graph;
use flight_graph::metrics::closeness_parts;
use flight_graph::traversal::UNREACHABLE;

fn idx(g: &Graph, label: &str) -> usize {
    g.node_index(label).unwrap()
}

fn harmonic(g: &Graph, v: usize) -> f64 {
    g.hop_distance(v)
        .iter()
        .filter(|&&d| d > 0 && d != UNREACHABLE)
        .map(|&d| 1.0 / d as f64)
        .sum()
}

#[test]
fn weighted_distance_adds_weights() {
    let mut g = Graph::with_direction(true);
    g.add_edge("A", "B", 5);
    g.add_edge("B", "C", 10);
    g.add_edge("A", "C", 20);
    let a = idx(&g, "A");
    let d = g.weighted_distance(a);
    assert_eq!(d, vec![0, 5, 15]);
    let hops = g.hop_distance(a);
    assert_eq!(hops, vec![0, 1, 1]);
    let from_c = g.weighted_distance(idx(&g, "C"));
    assert_eq!(from_c, vec![UNREACHABLE, UNREACHABLE, 0]);
}

#[test]
fn weighted_distance_relaxes_a_later_cheaper_path() {
    let mut g = Graph::new();
    g.add_edge("S", "X", 100);
    g.add_edge("S", "Y", 1);
    g.add_edge("Y", "Z", 1);
    g.add_edge("Z", "X", 1);
    g.add_edge("X", "W", 1);
    let d = g.weighted_distance(idx(&g, "S"));
    assert_eq!(d[idx(&g, "X")], 3);
    assert_eq!(d[idx(&g, "W")], 4);
}

#[test]
fn weighted_distance_keeps_parallel_cheapest() {
    let mut g = Graph::with_direction(true);
    g.add_edge("A", "B", 9);
    g.add_edge("A", "B", 2);
    g.add_edge("B", "B", 0);
    assert_eq!(g.weighted_distance(0), vec![0, 2]);
}

#[test]
fn unit_weights_make_both_distances_agree() {
    let edges = vec![
        ("A".to_string(), "B".to_string(), 1),
        ("B".to_string(), "C".to_string(), 1),
        ("C".to_string(), "A".to_string(), 1),
        ("C".to_string(), "D".to_string(), 1),
        ("E".to_string(), "E".to_string(), 1),
    ];
    for directed in [true, false] {
        let g = Graph::build(&edges, directed);
        for s in 0..g.node_count() {
            assert_eq!(g.hop_distance(s), g.weighted_distance(s));
        }
    }
}

#[test]
fn harmonic_of_a_path_favours_the_middle() {
    let mut g = Graph::new();
    g.add_edge("A", "B", 1);
    g.add_edge("B", "C", 1);
    g.add_edge("C", "D", 1);
    let (a, b, c, d) = (idx(&g, "A"), idx(&g, "B"), idx(&g, "C"), idx(&g, "D"));
    assert_eq!(harmonic(&g, b), harmonic(&g, c));
    assert!(harmonic(&g, b) > harmonic(&g, a));
    assert!(harmonic(&g, c) > harmonic(&g, d));
    assert!((harmonic(&g, b) - 2.5).abs() < 1e-12);
}

#[test]
fn closeness_of_single_weighted_edge() {
    let mut g = Graph::with_direction(true);
    g.add_edge("A", "B", 7);
    let (reached, total) = closeness_parts(&g.weighted_distance(idx(&g, "A")));
    assert_eq!((reached, total), (2, 7));
    let (reached_b, total_b) = closeness_parts(&g.weighted_distance(idx(&g, "B")));
    assert_eq!((reached_b, total_b), (1, 0));
}

#[test]
fn build_directed_keeps_one_entry_per_edge() {
    let edges = vec![
        ("A".to_string(), "B".to_string(), 4),
        ("A".to_string(), "B".to_string(), 4),
    ];
    let g = Graph::build(&edges, true);
    assert_eq!(g.node_count(), 2);
    assert_eq!(g.degree("A"), 2);
    assert_eq!(g.degree("B"), 0);
    let u = Graph::build(&edges, false);
    assert_eq!(u.degree("B"), 2);
}

#[test]
fn two_components_have_sizes_three_and_two() {
    let mut g = Graph::new();
    g.add_edge("A", "B", 1);
    g.add_edge("B", "C", 1);
    g.add_edge("D", "E", 1);
    let mut sizes: Vec<usize> = g.connected_components().iter().map(|c| c.len()).collect();
    sizes.sort();
    assert_eq!(sizes, vec![2, 3]);
    assert_eq!(g.largest_component().len(), 3);
}
