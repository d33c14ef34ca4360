use flight_graph::flights::{airport_totals, top_busiest_airports, FlightData};
use flight_graph::graph::Graph;
use flight_graph::ranking::rank_descending;

fn rec(a: &str, b: &str, n: u32) -> FlightData {
    FlightData {
        year: 2021,
        month: 6,
        us_airport: a.to_string(),
        foreign_airport: b.to_string(),
        carrier: "ZZ".to_string(),
        flight_type: "Cargo".to_string(),
        total_flights: n,
    }
}

#[test]
fn test_busiest_routes() {
    let mut graph = Graph::new();
    graph.add_edge("A", "B", 100);
    graph.add_edge("B", "C", 200);
    graph.add_edge("C", "D", 50);

    let busiest_routes = graph.busiest_routes();

    assert_eq!(busiest_routes[0].0, ("B".to_string(), "C".to_string()));
    assert_eq!(busiest_routes[0].1, 200);
}

#[test]
fn busiest_routes_lists_each_undirected_edge_once() {
    let mut graph = Graph::new();
    graph.add_edge("A", "B", 100);
    graph.add_edge("B", "C", 200);
    graph.add_edge("C", "D", 50);
    let weights: Vec<u32> = graph.busiest_routes().iter().map(|r| r.1).collect();
    assert_eq!(weights, vec![200, 100, 50]);
}

#[test]
fn directed_routes_keep_every_entry() {
    let mut graph = Graph::with_direction(true);
    graph.add_edge("B", "A", 3);
    graph.add_edge("A", "B", 3);
    let r = graph.busiest_routes();
    assert_eq!(r.len(), 2);
    assert_eq!(r[0].0, ("B".to_string(), "A".to_string()));
    assert_eq!(r[1].0, ("A".to_string(), "B".to_string()));
}

#[test]
fn ranking_is_descending_and_stable() {
    assert_eq!(rank_descending(&vec![3, 9, 3, 1, 9]), vec![1, 4, 0, 2, 3]);
    assert_eq!(rank_descending(&vec![]), Vec::<usize>::new());
}

#[test]
fn airport_totals_add_up_per_airport() {
    let flights = vec![rec("JFK", "LHR", 10), rec("LAX", "NRT", 7), rec("JFK", "CDG", 5)];
    let (names, totals) = airport_totals(&flights);
    assert_eq!(names, vec!["JFK".to_string(), "LAX".to_string()]);
    assert_eq!(totals, vec![15, 7]);
}

#[test]
fn airport_totals_saturate() {
    let flights = vec![rec("A", "X", u32::MAX), rec("A", "Y", u32::MAX)];
    let (_, totals) = airport_totals(&flights);
    assert_eq!(totals, vec![2 * u32::MAX as u64]);
}

#[test]
fn top_airports_keep_five_busiest() {
    let flights = vec![
        rec("A", "X", 1),
        rec("B", "X", 6),
        rec("C", "X", 3),
        rec("D", "X", 6),
        rec("E", "X", 2),
        rec("F", "X", 5),
        rec("A", "Y", 1),
    ];
    let top = top_busiest_airports(&flights);
    let names: Vec<&str> = top.iter().map(|t| t.0.as_str()).collect();
    assert_eq!(names, vec!["B", "D", "F", "C", "A"]);
    assert_eq!(top[4].1, 2);
    assert!(top_busiest_airports(&vec![]).is_empty());
}
