use vstd::prelude::*;
use crate::graph::{Adjacency, Graph};

verus! {

/// Index `x` comes before index `y` when ranking by `keys` from high to low,
/// equal keys keeping the order of their indices.
pub open spec fn ranks_before(keys: Seq<u64>, x: int, y: int) -> bool {
    keys[x] > keys[y] || (keys[x] == keys[y] && x < y)
}

/// `r` lists each index of `keys` once, from the highest key to the lowest,
/// equal keys in the order of their indices.
pub open spec fn is_ranking(keys: Seq<u64>, r: Seq<usize>) -> bool {
    &&& r.len() == keys.len()
    &&& forall|i: int| 0 <= i < r.len() ==> (#[trigger] r[i] as int) < keys.len()
    &&& forall|i: int, j: int| 0 <= i < j < r.len() ==> ranks_before(keys, #[trigger] r[i] as int, #[trigger] r[j] as int)
}

/// The indices of `keys` ordered from the highest key to the lowest; ties keep
/// the order of their indices.
pub fn rank_descending(keys: &Vec<u64>) -> (r: Vec<usize>)
    ensures
        is_ranking(keys@, r@),
{
    let mut r: Vec<usize> = Vec::new();
    let mut i: usize = 0;
    while i < keys.len()
        invariant
            i <= keys@.len(),
            r@.len() == i,
            forall|a: int| 0 <= a < r@.len() ==> (#[trigger] r@[a] as int) < i,
            forall|a: int, b: int| 0 <= a < b < r@.len() ==> ranks_before(keys@, #[trigger] r@[a] as int, #[trigger] r@[b] as int),
        decreases keys@.len() - i,
    {
        let mut p: usize = 0;
        while p < r.len() && keys[r[p]] >= keys[i]
            invariant
                p <= r@.len(),
                i < keys@.len(),
                forall|a: int| 0 <= a < r@.len() ==> (#[trigger] r@[a] as int) < i,
                forall|a: int| 0 <= a < p ==> keys@[#[trigger] r@[a] as int] >= keys@[i as int],
            decreases r@.len() - p,
        {
            p = p + 1;
        }
        let ghost old_r = r@;
        r.insert(p, i);
        proof {
            assert(r@ =~= old_r.insert(p as int, i));
            assert forall|a: int, b: int| 0 <= a < b < r@.len() implies ranks_before(keys@, #[trigger] r@[a] as int, #[trigger] r@[b] as int) by {
                if a < p && b == p {
                    assert(keys@[old_r[a] as int] >= keys@[i as int]);
                } else if a == p && b > p {
                    assert(keys@[old_r[p as int] as int] < keys@[i as int]);
                    if b - 1 > p {
                        assert(ranks_before(keys@, old_r[p as int] as int, old_r[b - 1] as int));
                    }
                } else if a < p && b > p {
                    assert(ranks_before(keys@, old_r[a] as int, old_r[b - 1] as int));
                } else if a > p {
                    assert(ranks_before(keys@, old_r[a - 1] as int, old_r[b - 1] as int));
                } else {
                    assert(ranks_before(keys@, old_r[a] as int, old_r[b] as int));
                }
            };
        }
        i = i + 1;
    }
    r
}

/// The routes held in the entry list `es` of node `u`, in order: every entry when
/// `directed`, else only those whose target is not below `u`, so that each
/// undirected edge is listed once.
pub open spec fn node_routes(u: usize, es: Seq<(usize, u32)>, directed: bool) -> Seq<(usize, usize, u32)>
    decreases es.len(),
{
    if es.len() == 0 {
        Seq::empty()
    } else {
        let e = es.last();
        node_routes(u, es.drop_last(), directed) + if directed || u <= e.0 {
            seq![(u, e.0, e.1)]
        } else {
            Seq::empty()
        }
    }
}

/// The routes of the first `n` nodes of `a`, node by node.
pub open spec fn route_list(a: Adjacency, directed: bool, n: nat) -> Seq<(usize, usize, u32)>
    decreases n,
{
    if n == 0 || n > a.len() {
        Seq::empty()
    } else {
        route_list(a, directed, (n - 1) as nat) + node_routes((n - 1) as usize, a[n - 1], directed)
    }
}

/// The weights of `rs`.
pub open spec fn route_weights(rs: Seq<(usize, usize, u32)>) -> Seq<u64> {
    Seq::new(rs.len(), |i: int| rs[i].2 as u64)
}

impl Graph {
    /// Every route of the graph as `(source, target, weight)` node indices, node by
    /// node; an undirected edge is listed once, from its lower index.
    pub fn routes(&self) -> (r: Vec<(usize, usize, u32)>)
        requires
            self.wf(),
        ensures
            r@ == route_list(self.adj(), self.directed, self.node_total()),
    {
        let ghost a = self.adj();
        let mut r: Vec<(usize, usize, u32)> = Vec::new();
        let mut u: usize = 0;
        while u < self.adjacency.len()
            invariant
                self.wf(),
                a == self.adj(),
                u <= a.len(),
                r@ == route_list(a, self.directed, u as nat),
            decreases a.len() - u,
        {
            let ghost base = r@;
            let mut j: usize = 0;
            while j < self.adjacency[u].len()
                invariant
                    self.wf(),
                    a == self.adj(),
                    u < a.len(),
                    j <= a[u as int].len(),
                    r@ == base + node_routes(u, a[u as int].subrange(0, j as int), self.directed),
                decreases a[u as int].len() - j,
            {
                let e = self.adjacency[u][j];
                proof {
                    assert(a[u as int][j as int] == e);
                    assert(a[u as int].subrange(0, j + 1).drop_last() =~= a[u as int].subrange(0, j as int));
                }
                if self.directed || u <= e.0 {
                    r.push((u, e.0, e.1));
                    proof {
                        assert(r@ =~= base + node_routes(u, a[u as int].subrange(0, j + 1), self.directed));
                    }
                } else {
                    proof {
                        assert(r@ =~= base + node_routes(u, a[u as int].subrange(0, j + 1), self.directed));
                    }
                }
                j = j + 1;
            }
            proof {
                assert(a[u as int].subrange(0, a[u as int].len() as int) =~= a[u as int]);
            }
            u = u + 1;
        }
        r
    }

    /// Every route with its endpoints' labels, from the heaviest down; equal
    /// weights keep the order of `routes`.
    pub fn busiest_routes(&self) -> (r: Vec<((String, String), u32)>)
        requires
            self.wf(),
        ensures
            ({
                let rs = route_list(self.adj(), self.directed, self.node_total());
                exists|rank: Seq<usize>|
                    #[trigger] is_ranking(route_weights(rs), rank) && r@.len() == rank.len() && forall|i: int|
                        0 <= i < r@.len() ==> {
                            let e = rs[rank[i] as int];
                            &&& (#[trigger] r@[i]).0.0@ == self.label_view()[e.0 as int]
                            &&& r@[i].0.1@ == self.label_view()[e.1 as int]
                            &&& r@[i].1 == e.2
                        }
            }),
    {
        let rs = self.routes();
        let ghost a = self.adj();
        proof {
            lemma_routes_in_range(a, self.directed, self.node_total());
        }
        let mut weights: Vec<u64> = Vec::new();
        let mut i: usize = 0;
        while i < rs.len()
            invariant
                i <= rs@.len(),
                weights@ == route_weights(rs@).subrange(0, i as int),
            decreases rs@.len() - i,
        {
            weights.push(rs[i].2 as u64);
            proof {
                assert(weights@ =~= route_weights(rs@).subrange(0, i + 1));
            }
            i = i + 1;
        }
        proof {
            assert(weights@ =~= route_weights(rs@));
        }
        let rank = rank_descending(&weights);
        let mut r: Vec<((String, String), u32)> = Vec::new();
        let mut k: usize = 0;
        while k < rank.len()
            invariant
                self.wf(),
                a == self.adj(),
                rs@ == route_list(a, self.directed, self.node_total()),
                forall|x: int| 0 <= x < rs@.len() ==> (#[trigger] rs@[x]).0 < a.len() && rs@[x].1 < a.len(),
                is_ranking(weights@, rank@),
                weights@ == route_weights(rs@),
                k <= rank@.len(),
                r@.len() == k,
                forall|x: int|
                    0 <= x < k ==> {
                        let e = rs@[rank@[x] as int];
                        &&& (#[trigger] r@[x]).0.0@ == self.label_view()[e.0 as int]
                        &&& r@[x].0.1@ == self.label_view()[e.1 as int]
                        &&& r@[x].1 == e.2
                    },
            decreases rank@.len() - k,
        {
            let e = rs[rank[k]];
            proof {
                assert(rs@[rank@[k as int] as int] == e);
            }
            let from = self.labels[e.0].clone();
            let to = self.labels[e.1].clone();
            r.push(((from, to), e.2));
            k = k + 1;
        }
        r
    }
}

proof fn lemma_node_routes_in_range(u: usize, es: Seq<(usize, u32)>, directed: bool, n: int)
    requires
        u < n,
        forall|i: int| 0 <= i < es.len() ==> (#[trigger] es[i]).0 < n,
    ensures
        forall|x: int| 0 <= x < node_routes(u, es, directed).len() ==> (#[trigger] node_routes(u, es, directed)[x]).0 < n
            && node_routes(u, es, directed)[x].1 < n,
    decreases es.len(),
{
    if es.len() > 0 {
        let p = es.drop_last();
        assert forall|i: int| 0 <= i < p.len() implies (#[trigger] p[i]).0 < n by {
            assert(p[i] == es[i]);
        };
        lemma_node_routes_in_range(u, p, directed, n);
        assert(es[es.len() - 1].0 < n);
        let pre = node_routes(u, p, directed);
        let all = node_routes(u, es, directed);
        assert forall|x: int| 0 <= x < all.len() implies (#[trigger] all[x]).0 < n && all[x].1 < n by {
            if x < pre.len() {
                assert(all[x] == pre[x]);
            }
        };
    }
}

proof fn lemma_routes_in_range(a: Adjacency, directed: bool, n: nat)
    requires
        crate::graph::targets_in_range(a),
    ensures
        forall|x: int| 0 <= x < route_list(a, directed, n).len() ==> (#[trigger] route_list(a, directed, n)[x]).0 < a.len()
            && route_list(a, directed, n)[x].1 < a.len(),
    decreases n,
{
    if n > 0 && n <= a.len() {
        lemma_routes_in_range(a, directed, (n - 1) as nat);
        let es = a[n - 1];
        assert forall|i: int| 0 <= i < es.len() implies (#[trigger] es[i]).0 < a.len() by {
            assert(a[n - 1][i].0 < a.len());
        };
        lemma_node_routes_in_range((n - 1) as usize, es, directed, a.len() as int);
        let pre = route_list(a, directed, (n - 1) as nat);
        let tail = node_routes((n - 1) as usize, es, directed);
        let all = route_list(a, directed, n);
        assert(all == pre + tail);
        assert forall|x: int| 0 <= x < all.len() implies (#[trigger] all[x]).0 < a.len() && all[x].1 < a.len() by {
            if x < pre.len() {
                assert(all[x] == pre[x]);
            } else {
                assert(all[x] == tail[x - pre.len()]);
            }
        };
    }
}

} // verus!
