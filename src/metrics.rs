use vstd::prelude::*;
use crate::graph::{Adjacency, Graph, arc_total};
use crate::traversal::UNREACHABLE;

verus! {

/// The sum of `s`.
pub open spec fn count_sum(s: Seq<usize>) -> int
    decreases s.len(),
{
    if s.len() == 0 {
        0
    } else {
        count_sum(s.drop_last()) + s.last()
    }
}

/// The sum of the entries of `d` that are not `UNREACHABLE`.
pub open spec fn finite_sum(d: Seq<u64>) -> int
    decreases d.len(),
{
    if d.len() == 0 {
        0
    } else {
        finite_sum(d.drop_last()) + if d.last() == UNREACHABLE { 0int } else { d.last() as int }
    }
}

/// How many entries of `d` are not `UNREACHABLE`.
pub open spec fn finite_count(d: Seq<u64>) -> int
    decreases d.len(),
{
    if d.len() == 0 {
        0
    } else {
        finite_count(d.drop_last()) + if d.last() == UNREACHABLE { 0int } else { 1int }
    }
}

/// `r` lists the number of entries of each node of `a`.
pub open spec fn is_degree_list(a: Adjacency, r: Seq<usize>) -> bool {
    r.len() == a.len() && forall|v: int| 0 <= v < a.len() ==> #[trigger] r[v] == a[v].len()
}

proof fn lemma_degree_total(a: Adjacency, r: Seq<usize>)
    requires
        is_degree_list(a, r),
    ensures
        count_sum(r) == arc_total(a),
    decreases a.len(),
{
    if a.len() > 0 {
        let a2 = a.drop_last();
        let r2 = r.drop_last();
        assert(is_degree_list(a2, r2)) by {
            assert forall|v: int| 0 <= v < a2.len() implies #[trigger] r2[v] == a2[v].len() by {
                assert(r[v] == a[v].len());
            };
        };
        lemma_degree_total(a2, r2);
        assert(r[a.len() - 1] == a[a.len() - 1].len());
    }
}

/// The degrees of a well-formed graph add up to the number of stored entries:
/// one per inserted edge when directed, two when undirected.
pub proof fn lemma_degree_sum(g: &Graph, r: Seq<usize>)
    requires
        g.wf(),
        is_degree_list(g.adj(), r),
    ensures
        count_sum(r) == g.arcs_per_edge() * g.inserted@,
{
    lemma_degree_total(g.adj(), r);
}

impl Graph {
    /// The degree centrality of every node, by node index: its number of outgoing entries.
    pub fn degree_centrality(&self) -> (r: Vec<usize>)
        requires
            self.wf(),
        ensures
            is_degree_list(self.adj(), r@),
            count_sum(r@) == self.arcs_per_edge() * self.inserted@,
    {
        let mut r: Vec<usize> = Vec::new();
        let mut v: usize = 0;
        while v < self.adjacency.len()
            invariant
                self.wf(),
                v <= self.adjacency@.len(),
                r@.len() == v,
                forall|u: int| 0 <= u < v ==> #[trigger] r@[u] == self.adj()[u].len(),
            decreases self.adjacency@.len() - v,
        {
            r.push(self.adjacency[v].len());
            v = v + 1;
        }
        proof {
            lemma_degree_sum(self, r@);
        }
        r
    }
}

/// The number of finite entries of `dist` and their sum, the sum held at
/// `UNREACHABLE` when it would pass it. These are the two terms of closeness.
pub fn closeness_parts(dist: &Vec<u64>) -> (r: (usize, u64))
    ensures
        r.0 == finite_count(dist@),
        r.1 == if finite_sum(dist@) < UNREACHABLE { finite_sum(dist@) } else { UNREACHABLE as int },
{
    let mut count: usize = 0;
    let mut total: u64 = 0;
    let mut i: usize = 0;
    while i < dist.len()
        invariant
            i <= dist@.len(),
            count == finite_count(dist@.subrange(0, i as int)),
            total == if finite_sum(dist@.subrange(0, i as int)) < UNREACHABLE {
                finite_sum(dist@.subrange(0, i as int))
            } else {
                UNREACHABLE as int
            },
            count <= i,
        decreases dist@.len() - i,
    {
        proof {
            let s = dist@.subrange(0, i + 1);
            assert(s.drop_last() =~= dist@.subrange(0, i as int));
            lemma_finite_sum_nonneg(dist@.subrange(0, i as int));
        }
        if dist[i] != UNREACHABLE {
            total = total.saturating_add(dist[i]);
            count = count + 1;
        }
        i = i + 1;
    }
    proof {
        assert(dist@.subrange(0, dist@.len() as int) =~= dist@);
    }
    (count, total)
}

proof fn lemma_finite_sum_nonneg(d: Seq<u64>)
    ensures
        finite_sum(d) >= 0,
    decreases d.len(),
{
    if d.len() > 0 {
        lemma_finite_sum_nonneg(d.drop_last());
    }
}

} // verus!
