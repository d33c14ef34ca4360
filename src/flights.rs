use vstd::prelude::*;
use crate::graph::{Adjacency, Graph, after_edge, has_label, labels_distinct, with_label};
use crate::ranking::{is_ranking, rank_descending};

verus! {

/// One record of departures: a route between an airport at home and one abroad
/// in a given month, flown by a carrier, with its number of flights.
pub struct FlightData {
    pub year: u32,
    pub month: u32,
    pub us_airport: String,
    pub foreign_airport: String,
    pub carrier: String,
    pub flight_type: String,
    pub total_flights: u32,
}

/// Labels and adjacency of the undirected graph holding one edge per record of `fs`,
/// inserted in order.
pub open spec fn built(fs: Seq<FlightData>) -> (Seq<Seq<char>>, Adjacency)
    decreases fs.len(),
{
    if fs.len() == 0 {
        (Seq::empty(), Seq::empty())
    } else {
        let prev = built(fs.drop_last());
        let f = fs.last();
        after_edge(prev.0, prev.1, false, f.us_airport@, f.foreign_airport@, f.total_flights)
    }
}

/// The undirected graph with an edge between the two airports of each record,
/// weighted by its number of flights.
pub fn build_graph(flights: &Vec<FlightData>) -> (g: Graph)
    ensures
        g.wf(),
        !g.directed,
        g.inserted@ == flights@.len(),
        (g.label_view(), g.adj()) == built(flights@),
{
    let mut g = Graph::new();
    let mut i: usize = 0;
    proof {
        assert(g.label_view() =~= Seq::<Seq<char>>::empty());
        assert(g.adj() =~= Seq::<Seq<(usize, u32)>>::empty());
    }
    while i < flights.len()
        invariant
            i <= flights@.len(),
            g.wf(),
            !g.directed,
            g.inserted@ == i,
            (g.label_view(), g.adj()) == built(flights@.subrange(0, i as int)),
        decreases flights@.len() - i,
    {
        let f = &flights[i];
        g.add_edge(f.us_airport.as_str(), f.foreign_airport.as_str(), f.total_flights);
        proof {
            let fs = flights@.subrange(0, i + 1);
            assert(fs.drop_last() =~= flights@.subrange(0, i as int));
        }
        i = i + 1;
    }
    proof {
        assert(flights@.subrange(0, flights@.len() as int) =~= flights@);
    }
    g
}

/// The character sequences of a list of names.
pub open spec fn name_views(v: Seq<String>) -> Seq<Seq<char>> {
    v.map_values(|s: String| s@)
}

/// How many airports the busiest-airport list holds at most.
pub const TOP_COUNT: usize = 5;

/// The home airports of `fs`, each once, in order of first appearance.
pub open spec fn airport_names(fs: Seq<FlightData>) -> Seq<Seq<char>>
    decreases fs.len(),
{
    if fs.len() == 0 {
        Seq::empty()
    } else {
        with_label(airport_names(fs.drop_last()), fs.last().us_airport@)
    }
}

/// The number of flights of `fs` from the home airport `name`.
pub open spec fn flights_from(fs: Seq<FlightData>, name: Seq<char>) -> int
    decreases fs.len(),
{
    if fs.len() == 0 {
        0
    } else {
        flights_from(fs.drop_last(), name) + if fs.last().us_airport@ == name {
            fs.last().total_flights as int
        } else {
            0int
        }
    }
}

/// `x`, held at `u64::MAX` when it would pass it.
pub open spec fn capped(x: int) -> int {
    if x < u64::MAX { x } else { u64::MAX as int }
}

/// The capped flight total of each airport of `airport_names(fs)`, in the same order.
pub open spec fn airport_totals_of(fs: Seq<FlightData>) -> Seq<u64> {
    let names = airport_names(fs);
    Seq::new(names.len(), |k: int| capped(flights_from(fs, names[k])) as u64)
}

proof fn lemma_flights_from_nonneg(fs: Seq<FlightData>, name: Seq<char>)
    ensures
        flights_from(fs, name) >= 0,
    decreases fs.len(),
{
    if fs.len() > 0 {
        lemma_flights_from_nonneg(fs.drop_last(), name);
    }
}

/// The home airports of `flights`, each once in order of first appearance, with
/// the number of flights from each, capped at `u64::MAX`.
pub fn airport_totals(flights: &Vec<FlightData>) -> (r: (Vec<String>, Vec<u64>))
    ensures
        name_views(r.0@) == airport_names(flights@),
        r.1@ == airport_totals_of(flights@),
{
    let mut names: Vec<String> = Vec::new();
    let mut totals: Vec<u64> = Vec::new();
    let mut i: usize = 0;
    while i < flights.len()
        invariant
            i <= flights@.len(),
            name_views(names@) == airport_names(flights@.subrange(0, i as int)),
            labels_distinct(name_views(names@)),
            totals@.len() == names@.len(),
            forall|k: int| 0 <= k < totals@.len() ==> #[trigger] totals@[k] == capped(
                flights_from(flights@.subrange(0, i as int), names@[k]@),
            ),
        decreases flights@.len() - i,
    {
        let ghost pre = flights@.subrange(0, i as int);
        let ghost cur = flights@.subrange(0, i + 1);
        let ghost old_names = name_views(names@);
        let ghost old_totals = totals@;
        proof {
            assert(cur.drop_last() =~= pre);
            assert(cur.last() == flights@[i as int]);
        }
        let f = &flights[i];
        let mut k: usize = 0;
        while k < names.len() && names[k] != f.us_airport
            invariant
                k <= names@.len(),
                forall|j: int| 0 <= j < k ==> names@[j]@ != f.us_airport@,
            decreases names@.len() - k,
        {
            k = k + 1;
        }
        if k < names.len() {
            proof {
                assert(old_names[k as int] == f.us_airport@);
                assert(has_label(old_names, f.us_airport@));
                lemma_flights_from_nonneg(pre, names@[k as int]@);
            }
            let t = totals[k].saturating_add(f.total_flights as u64);
            totals.set(k, t);
        } else {
            proof {
                assert(!has_label(old_names, f.us_airport@));
                assert(flights_from(pre, f.us_airport@) == 0) by {
                    lemma_not_named_zero(pre, f.us_airport@);
                };
            }
            names.push(f.us_airport.clone());
            totals.push(f.total_flights as u64);
            proof {
                assert(name_views(names@) =~= old_names.push(f.us_airport@));
            }
        }
        proof {
            assert forall|j: int| 0 <= j < totals@.len() implies #[trigger] totals@[j] == capped(flights_from(cur, names@[j]@)) by {
                lemma_flights_from_nonneg(pre, names@[j]@);
                if j < old_totals.len() {
                    assert(names@[j]@ == old_names[j]);
                }
            };
        }
        i = i + 1;
    }
    proof {
        assert(flights@.subrange(0, flights@.len() as int) =~= flights@);
        assert(totals@ =~= airport_totals_of(flights@));
    }
    (names, totals)
}

proof fn lemma_not_named_zero(fs: Seq<FlightData>, name: Seq<char>)
    requires
        !has_label(airport_names(fs), name),
    ensures
        flights_from(fs, name) == 0,
    decreases fs.len(),
{
    if fs.len() > 0 {
        let prev = airport_names(fs.drop_last());
        if has_label(prev, name) {
            let i = choose|i: int| 0 <= i < prev.len() && prev[i] == name;
            assert(airport_names(fs)[i] == name);
        }
        if fs.last().us_airport@ == name {
            assert(has_label(with_label(prev, name), name)) by {
                if !has_label(prev, name) {
                    assert(prev.push(name)[prev.len() as int] == name);
                }
            };
        }
        lemma_not_named_zero(fs.drop_last(), name);
    }
}

/// The busiest home airports: at most `TOP_COUNT` of them with their flight
/// totals, from the highest total down, ties in order of first appearance.
pub fn top_busiest_airports(flights: &Vec<FlightData>) -> (r: Vec<(String, u64)>)
    ensures
        ({
            let names = airport_names(flights@);
            let totals = airport_totals_of(flights@);
            exists|rank: Seq<usize>|
                #[trigger] is_ranking(totals, rank) && r@.len() == if rank.len() < TOP_COUNT { rank.len() as int } else { TOP_COUNT as int }
                    && forall|i: int| 0 <= i < r@.len() ==> #[trigger] r@[i].0@ == names[rank[i] as int] && r@[i].1 == totals[rank[i] as int]
        }),
{
    let (names, totals) = airport_totals(flights);
    let rank = rank_descending(&totals);
    let ghost nv = name_views(names@);
    let mut r: Vec<(String, u64)> = Vec::new();
    let mut i: usize = 0;
    while i < rank.len() && i < TOP_COUNT
        invariant
            is_ranking(totals@, rank@),
            nv == name_views(names@),
            nv.len() == totals@.len(),
            i <= rank@.len(),
            i <= TOP_COUNT,
            r@.len() == i,
            forall|j: int| 0 <= j < i ==> #[trigger] r@[j].0@ == nv[rank@[j] as int] && r@[j].1 == totals@[rank@[j] as int],
        decreases rank@.len() - i,
    {
        let k = rank[i];
        r.push((names[k].clone(), totals[k]));
        i = i + 1;
    }
    proof {
        assert(is_ranking(airport_totals_of(flights@), rank@));
        assert(nv == airport_names(flights@));
    }
    r
}

} // verus!
