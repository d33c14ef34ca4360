use vstd::prelude::*;
use crate::flights::capped;
use crate::graph::{Adjacency, Graph, has_arc};
use crate::traversal::{UNREACHABLE, is_hop_distance, is_walk, within};

verus! {

/// The number of shortest walks from `s` to `v`, given the hop distances `dist`
/// from `s`: one for `s` itself; for a node at distance `k > 0`, the sum of the
/// counts of the nodes at distance `k - 1`, once per entry that leads to `v`;
/// none for a node that is not reached.
pub open spec fn path_count(a: Adjacency, dist: Seq<u64>, s: int, v: int) -> int
    decreases (if 0 <= v < dist.len() { dist[v] as int } else { 0 }), a.len() + 1, 0int,
{
    if v == s {
        1
    } else if !(0 <= v < dist.len()) || dist[v] == 0 || dist[v] == UNREACHABLE {
        0
    } else {
        incoming(a, dist, s, v, 0, 0)
    }
}

/// The part of `path_count(a, dist, s, v)` owed to the entries from entry `j`
/// of node `x` on, node by node.
pub open spec fn incoming(a: Adjacency, dist: Seq<u64>, s: int, v: int, x: int, j: int) -> int
    decreases (if 0 <= v < dist.len() { dist[v] as int } else { 0 }), a.len() - x, (if 0 <= x < a.len() { a[x].len() - j } else { 0 }),
{
    if !(0 <= x < a.len()) || !(0 <= v < dist.len()) || j < 0 || a.len() != dist.len() {
        0
    } else if j >= a[x].len() {
        incoming(a, dist, s, v, x + 1, 0)
    } else {
        (if a[x][j].0 as int == v && dist[x] as int + 1 == dist[v] as int {
            path_count(a, dist, s, x)
        } else {
            0
        }) + incoming(a, dist, s, v, x, j + 1)
    }
}

proof fn lemma_path_count_nonneg(a: Adjacency, dist: Seq<u64>, s: int, v: int)
    ensures
        path_count(a, dist, s, v) >= 0,
    decreases (if 0 <= v < dist.len() { dist[v] as int } else { 0 }), a.len() + 1, 0int,
{
    if v != s && 0 <= v < dist.len() && dist[v] != 0 && dist[v] != UNREACHABLE {
        lemma_incoming_nonneg(a, dist, s, v, 0, 0);
    }
}

proof fn lemma_incoming_nonneg(a: Adjacency, dist: Seq<u64>, s: int, v: int, x: int, j: int)
    ensures
        incoming(a, dist, s, v, x, j) >= 0,
    decreases (if 0 <= v < dist.len() { dist[v] as int } else { 0 }), a.len() - x, (if 0 <= x < a.len() { a[x].len() - j } else { 0 }),
{
    if 0 <= x < a.len() && 0 <= v < dist.len() && j >= 0 && a.len() == dist.len() {
        if j >= a[x].len() {
            lemma_incoming_nonneg(a, dist, s, v, x + 1, 0);
        } else {
            lemma_incoming_nonneg(a, dist, s, v, x, j + 1);
            if a[x][j].0 as int == v && dist[x] as int + 1 == dist[v] as int {
                lemma_path_count_nonneg(a, dist, s, x);
            }
        }
    }
}

proof fn lemma_capped_add(p: int, q: int)
    requires
        p >= 0,
        q >= 0,
    ensures
        (if capped(p) + capped(q) > u64::MAX { u64::MAX as int } else { capped(p) + capped(q) }) == capped(p + q),
{
}

/// Some walk from `s` to `t` with the fewest edges passes through `v` strictly
/// between its two ends.
pub open spec fn lies_between(a: Adjacency, s: int, t: int, v: int) -> bool {
    exists|p: Seq<int>|
        #[trigger] is_walk(a, s, p) && p.len() >= 2 && p.last() == t && !within(a, s, (p.len() - 2) as nat, t)
            && exists|i: int| 0 < i < p.len() - 1 && p[i] == v
}

proof fn lemma_within_mono(a: Adjacency, s: int, k1: nat, k2: nat, v: int)
    requires
        within(a, s, k1, v),
        k1 <= k2,
    ensures
        within(a, s, k2, v),
{
    let p = choose|p: Seq<int>| #[trigger] is_walk(a, s, p) && p.len() <= k1 + 1 && p.last() == v;
    assert(is_walk(a, s, p));
}

/// A hop distance is at most the length of any walk.
proof fn lemma_hop_le(a: Adjacency, s: int, k: nat, v: int, d: u64)
    requires
        is_hop_distance(a, s, v, d),
        within(a, s, k, v),
    ensures
        d != UNREACHABLE,
        d <= k,
{
    if d == UNREACHABLE {
        assert(crate::traversal::reachable(a, s, v));
    } else if d > k {
        lemma_within_mono(a, s, k, (d - 1) as nat, v);
    }
}

proof fn lemma_walk_concat(a: Adjacency, s: int, u: int, v: int, k1: nat, k2: nat)
    requires
        within(a, s, k1, u),
        within(a, u, k2, v),
    ensures
        within(a, s, k1 + k2, v),
{
    let p = choose|p: Seq<int>| #[trigger] is_walk(a, s, p) && p.len() <= k1 + 1 && p.last() == u;
    let q = choose|p: Seq<int>| #[trigger] is_walk(a, u, p) && p.len() <= k2 + 1 && p.last() == v;
    let r = p + q.drop_first();
    assert forall|i: int| 0 <= i < r.len() - 1 implies #[trigger] has_arc(a, r[i], r[i + 1]) by {
        if i < p.len() - 1 {
            assert(has_arc(a, p[i], p[i + 1]));
        } else {
            let j = i - p.len() + 1;
            assert(has_arc(a, q[j], q[j + 1]));
        }
    };
    assert(is_walk(a, s, r));
    if q.len() == 1 {
        assert(r =~= p);
    }
}

/// `v` lies between `s` and `t` exactly when the hop distances add up through it.
proof fn lemma_between_iff(a: Adjacency, s: int, t: int, v: int, dsv: u64, dvt: u64, dst: u64)
    requires
        s != v,
        t != v,
        is_hop_distance(a, s, v, dsv),
        is_hop_distance(a, v, t, dvt),
        is_hop_distance(a, s, t, dst),
    ensures
        lies_between(a, s, t, v) <==> (dsv != UNREACHABLE && dvt != UNREACHABLE && dst != UNREACHABLE
            && dsv + dvt == dst),
{
    if lies_between(a, s, t, v) {
        let p = choose|p: Seq<int>|
            #[trigger] is_walk(a, s, p) && p.len() >= 2 && p.last() == t && !within(a, s, (p.len() - 2) as nat, t)
                && exists|i: int| 0 < i < p.len() - 1 && p[i] == v;
        let i = choose|i: int| 0 < i < p.len() - 1 && p[i] == v;
        let pre = p.subrange(0, i + 1);
        let suf = p.subrange(i, p.len() as int);
        assert forall|j: int| 0 <= j < pre.len() - 1 implies #[trigger] has_arc(a, pre[j], pre[j + 1]) by {
            assert(has_arc(a, p[j], p[j + 1]));
        };
        assert forall|j: int| 0 <= j < suf.len() - 1 implies #[trigger] has_arc(a, suf[j], suf[j + 1]) by {
            assert(has_arc(a, p[i + j], p[i + j + 1]));
        };
        assert(is_walk(a, s, pre));
        assert(is_walk(a, v, suf));
        assert(within(a, s, i as nat, v));
        assert(within(a, v, (p.len() - 1 - i) as nat, t));
        assert(within(a, s, (p.len() - 1) as nat, t));
        lemma_hop_le(a, s, i as nat, v, dsv);
        lemma_hop_le(a, v, (p.len() - 1 - i) as nat, t, dvt);
        lemma_hop_le(a, s, (p.len() - 1) as nat, t, dst);
        if dst < p.len() - 1 {
            lemma_within_mono(a, s, dst as nat, (p.len() - 2) as nat, t);
        }
        lemma_walk_concat(a, s, v, t, dsv as nat, dvt as nat);
        lemma_hop_le(a, s, (dsv + dvt) as nat, t, dst);
    }
    if dsv != UNREACHABLE && dvt != UNREACHABLE && dst != UNREACHABLE && dsv + dvt == dst {
        let p1 = choose|p: Seq<int>| #[trigger] is_walk(a, s, p) && p.len() <= dsv + 1 && p.last() == v;
        let p2 = choose|p: Seq<int>| #[trigger] is_walk(a, v, p) && p.len() <= dvt + 1 && p.last() == t;
        if p1.len() < dsv + 1 {
            assert(is_walk(a, s, p1));
            assert(within(a, s, (dsv - 1) as nat, v));
        }
        if p2.len() < dvt + 1 {
            assert(is_walk(a, v, p2));
            assert(within(a, v, (dvt - 1) as nat, t));
        }
        if dsv == 0 {
            assert(p1.len() == 1);
        }
        if dvt == 0 {
            assert(p2.len() == 1);
        }
        let r = p1 + p2.drop_first();
        assert forall|i: int| 0 <= i < r.len() - 1 implies #[trigger] has_arc(a, r[i], r[i + 1]) by {
            if i < p1.len() - 1 {
                assert(has_arc(a, p1[i], p1[i + 1]));
            } else {
                let j = i - p1.len() + 1;
                assert(has_arc(a, p2[j], p2[j + 1]));
            }
        };
        assert(is_walk(a, s, r));
        assert(r[dsv as int] == v);
        assert(r.len() == dst + 1);
        assert(!within(a, s, (r.len() - 2) as nat, t));
        assert(lies_between(a, s, t, v));
    }
}

/// The hop distances from `s` to every node of `a`.
pub open spec fn hop_table(a: Adjacency, s: int) -> Seq<u64> {
    Seq::new(a.len(), |v: int| choose|d: u64| is_hop_distance(a, s, v, d))
}

/// The betweenness term that the pair `s`, `t` gives `v`: the shortest walks
/// from `s` to `t` through `v`, and all shortest walks from `s` to `t`, each held
/// at `UNREACHABLE`.
pub open spec fn pair_term(a: Adjacency, s: int, t: int, v: int) -> (u64, u64) {
    let ds = hop_table(a, s);
    let dv = hop_table(a, v);
    (
        capped(path_count(a, ds, s, v) * path_count(a, dv, v, t)) as u64,
        capped(path_count(a, ds, s, t)) as u64,
    )
}

proof fn lemma_hop_unique(a: Adjacency, s: int, v: int, d1: u64, d2: u64)
    requires
        is_hop_distance(a, s, v, d1),
        is_hop_distance(a, s, v, d2),
    ensures
        d1 == d2,
{
    if d1 != UNREACHABLE {
        lemma_hop_le(a, s, d1 as nat, v, d2);
    }
    if d2 != UNREACHABLE {
        lemma_hop_le(a, s, d2 as nat, v, d1);
    }
}

proof fn lemma_hop_table(a: Adjacency, s: int, d: Seq<u64>)
    requires
        d.len() == a.len(),
        forall|x: int| 0 <= x < d.len() ==> is_hop_distance(a, s, x, #[trigger] d[x]),
    ensures
        hop_table(a, s) == d,
{
    assert forall|x: int| 0 <= x < d.len() implies hop_table(a, s)[x] == d[x] by {
        assert(is_hop_distance(a, s, x, d[x]));
        let c = choose|c: u64| is_hop_distance(a, s, x, c);
        lemma_hop_unique(a, s, x, c, d[x]);
    };
    assert(hop_table(a, s) =~= d);
}

proof fn lemma_mul_at_least(p: int, q: int, m: int)
    requires
        p >= 1,
        q >= 1,
        p >= m || q >= m,
    ensures
        p * q >= m,
{
    assert(p * q >= p && p * q >= q) by (nonlinear_arith)
        requires p >= 1, q >= 1;
}

proof fn lemma_capped_mul(x: int, y: int)
    requires
        x >= 0,
        y >= 0,
    ensures
        capped(capped(x) * capped(y)) == capped(x * y),
{
    let m = UNREACHABLE as int;
    let cx = capped(x);
    let cy = capped(y);
    if x < m && y < m {
    } else if x == 0 || y == 0 {
        assert(x * y == 0 && cx * cy == 0) by (nonlinear_arith)
            requires x == 0 || y == 0, cx == 0 || cy == 0;
    } else {
        lemma_mul_at_least(cx, cy, m);
        lemma_mul_at_least(x, y, m);
    }
}

impl Graph {
    /// Hop distances from `start`, and for every node the number of shortest
    /// walks from `start` to it, held at `UNREACHABLE` when it would pass it.
    /// Counts are accumulated level by level: each entry from a node at distance
    /// `k - 1` to a node at distance `k` adds the count of its source.
    pub fn shortest_path_counts(&self, start: usize) -> (r: (Vec<u64>, Vec<u64>))
        requires
            self.wf(),
            start < self.node_total(),
        ensures
            r.0@.len() == self.node_total(),
            r.0@[start as int] == 0,
            forall|v: int| 0 <= v < r.0@.len() ==> is_hop_distance(self.adj(), start as int, v, #[trigger] r.0@[v]),
            r.1@.len() == self.node_total(),
            forall|v: int|
                0 <= v < r.1@.len() ==> #[trigger] r.1@[v] == capped(path_count(self.adj(), r.0@, start as int, v)),
    {
        let ghost a = self.adj();
        let ghost s = start as int;
        let dist = self.hop_distance(start);
        let n = self.adjacency.len();
        let mut count: Vec<u64> = Vec::new();
        while count.len() < n
            invariant
                count@.len() <= n,
                forall|v: int| 0 <= v < count@.len() ==> count@[v] == 0,
            decreases n - count@.len(),
        {
            count.push(0);
        }
        count.set(start, 1);
        let mut k: usize = 1;
        while k < n
            invariant
                n == a.len(),
                a == self.adj(),
                self.wf(),
                s == start as int,
                start < n,
                1 <= k <= n,
                dist@.len() == n,
                dist@[s] == 0,
                forall|v: int| 0 <= v < n && #[trigger] dist@[v] != UNREACHABLE ==> dist@[v] < n,
                count@.len() == n,
                forall|v: int|
                    0 <= v < n ==> #[trigger] count@[v] == if v != s && dist@[v] != UNREACHABLE && dist@[v] >= k {
                        0
                    } else {
                        capped(path_count(a, dist@, s, v))
                    },
            decreases n - k,
        {
            let mut x: usize = 0;
            while x < n
                invariant
                    n == a.len(),
                    a == self.adj(),
                    self.wf(),
                    s == start as int,
                    start < n,
                    1 <= k < n,
                    x <= n,
                    dist@.len() == n,
                    dist@[s] == 0,
                    count@.len() == n,
                    forall|v: int|
                        0 <= v < n && dist@[v] != k ==> #[trigger] count@[v] == if v != s && dist@[v] != UNREACHABLE
                            && dist@[v] >= k {
                            0
                        } else {
                            capped(path_count(a, dist@, s, v))
                        },
                    forall|v: int|
                        0 <= v < n && dist@[v] == k ==> #[trigger] count@[v] == capped(
                            incoming(a, dist@, s, v, 0, 0) - incoming(a, dist@, s, v, x as int, 0),
                        ) && incoming(a, dist@, s, v, 0, 0) - incoming(a, dist@, s, v, x as int, 0) >= 0,
                decreases n - x,
            {
                let mut j: usize = 0;
                while j < self.adjacency[x].len()
                    invariant
                        n == a.len(),
                        a == self.adj(),
                        self.wf(),
                        s == start as int,
                        start < n,
                        1 <= k < n,
                        x < n,
                        j <= a[x as int].len(),
                        dist@.len() == n,
                        dist@[s] == 0,
                        count@.len() == n,
                        forall|v: int|
                            0 <= v < n && dist@[v] != k ==> #[trigger] count@[v] == if v != s && dist@[v]
                                != UNREACHABLE && dist@[v] >= k {
                                0
                            } else {
                                capped(path_count(a, dist@, s, v))
                            },
                        forall|v: int|
                            0 <= v < n && dist@[v] == k ==> #[trigger] count@[v] == capped(
                                incoming(a, dist@, s, v, 0, 0) - incoming(a, dist@, s, v, x as int, j as int),
                            ) && incoming(a, dist@, s, v, 0, 0) - incoming(a, dist@, s, v, x as int, j as int) >= 0,
                    decreases a[x as int].len() - j,
                {
                    let t = self.adjacency[x][j].0;
                    proof {
                        assert(a[x as int][j as int].0 == t);
                    }
                    let ghost old_count = count@;
                    proof {
                        assert forall|v: int| 0 <= v < n && dist@[v] == k implies #[trigger] old_count[v] == capped(
                            incoming(a, dist@, s, v, 0, 0) - incoming(a, dist@, s, v, x as int, j as int),
                        ) && incoming(a, dist@, s, v, 0, 0) - incoming(a, dist@, s, v, x as int, j as int) >= 0 by {
                            assert(count@[v] == old_count[v]);
                        };
                    }
                    if dist[x] != UNREACHABLE && dist[x] + 1 == k as u64 && dist[t] == k as u64 {
                        proof {
                            assert(old_count[x as int] == capped(path_count(a, dist@, s, x as int)));
                            lemma_path_count_nonneg(a, dist@, s, x as int);
                        }
                        let c = count[t].saturating_add(count[x]);
                        count.set(t, c);
                        proof {
                            assert forall|v: int| 0 <= v < n && dist@[v] == k implies #[trigger] count@[v] == capped(
                                incoming(a, dist@, s, v, 0, 0) - incoming(a, dist@, s, v, x as int, j + 1),
                            ) && incoming(a, dist@, s, v, 0, 0) - incoming(a, dist@, s, v, x as int, j + 1) >= 0 by {
                                let before = incoming(a, dist@, s, v, 0, 0) - incoming(a, dist@, s, v, x as int, j as int);
                                assert(0 <= v < n && dist@[v] == k);
                                assert(old_count[v] == capped(
                                    incoming(a, dist@, s, v, 0, 0) - incoming(a, dist@, s, v, x as int, j as int)));
                                assert(before >= 0);
                                if v == t as int {
                                    lemma_capped_add(before, path_count(a, dist@, s, x as int));
                                } else {
                                    assert(count@[v] == old_count[v]);
                                }
                                assert(incoming(a, dist@, s, v, x as int, j as int) == (if a[x as int][j as int].0 as int == v
                                    && dist@[x as int] as int + 1 == dist@[v] as int {
                                    path_count(a, dist@, s, x as int)
                                } else {
                                    0
                                }) + incoming(a, dist@, s, v, x as int, j + 1));
                            };
                        }
                    } else {
                        proof {
                            assert forall|v: int| 0 <= v < n && dist@[v] == k implies #[trigger] count@[v] == capped(
                                incoming(a, dist@, s, v, 0, 0) - incoming(a, dist@, s, v, x as int, j + 1),
                            ) && incoming(a, dist@, s, v, 0, 0) - incoming(a, dist@, s, v, x as int, j + 1) >= 0 by {
                                assert(old_count[v] == capped(incoming(a, dist@, s, v, 0, 0) - incoming(a, dist@, s, v, x as int, j as int)));
                                if a[x as int][j as int].0 as int == v {
                                    assert(dist@[t as int] == k);
                                }
                                assert(incoming(a, dist@, s, v, x as int, j as int) == (if a[x as int][j as int].0 as int == v
                                    && dist@[x as int] as int + 1 == dist@[v] as int {
                                    path_count(a, dist@, s, x as int)
                                } else {
                                    0
                                }) + incoming(a, dist@, s, v, x as int, j + 1));
                            };
                        }
                    }
                    assert(forall|v: int| 0 <= v < n && dist@[v] == k ==> #[trigger] count@[v] == capped(
                        incoming(a, dist@, s, v, 0, 0) - incoming(a, dist@, s, v, x as int, j + 1),
                    ) && incoming(a, dist@, s, v, 0, 0) - incoming(a, dist@, s, v, x as int, j + 1) >= 0);
                    j = j + 1;
                }
                proof {
                    assert forall|v: int| 0 <= v < n && dist@[v] == k implies incoming(a, dist@, s, v, x as int, j as int)
                        == incoming(a, dist@, s, v, x + 1, 0) by {};
                }
                x = x + 1;
            }
            proof {
                assert forall|v: int| 0 <= v < n implies #[trigger] count@[v] == if v != s && dist@[v] != UNREACHABLE
                    && dist@[v] >= k + 1 {
                    0
                } else {
                    capped(path_count(a, dist@, s, v))
                } by {
                    if dist@[v] == k {
                        assert(incoming(a, dist@, s, v, n as int, 0) == 0);
                        assert(v != s);
                    }
                };
            }
            k = k + 1;
        }
        proof {
            assert forall|v: int| 0 <= v < n implies #[trigger] count@[v] == capped(path_count(a, dist@, s, v)) by {
                assert(count@[v] == if v != s && dist@[v] != UNREACHABLE && dist@[v] >= k {
                    0
                } else {
                    capped(path_count(a, dist@, s, v))
                });
            };
        }
        (dist, count)
    }
    /// The terms of the betweenness of `v`: one `(paths through v, all shortest
    /// paths)` pair for each ordered pair of other nodes `s`, `t` such that a
    /// shortest walk from `s` to `t` passes through `v`, taken by `s`, then `t`.
    /// Path counts and their products are held at `UNREACHABLE` when they would
    /// pass it. The betweenness is the sum of the quotients of the terms; it is 0
    /// exactly when there is no term.
    pub fn betweenness_terms(&self, v: usize) -> (r: Vec<(u64, u64)>)
        requires
            self.wf(),
            v < self.node_total(),
        ensures
            r@.len() == 0 <==> forall|s: int, t: int|
                0 <= s < self.node_total() && 0 <= t < self.node_total() && s != v && t != v && s != t
                    ==> !#[trigger] lies_between(self.adj(), s, t, v as int),
            forall|i: int| #![trigger r@[i]] 0 <= i < r@.len() ==> exists|s: int, t: int|
                0 <= s < self.node_total() && 0 <= t < self.node_total() && s != v && t != v && s != t
                    && #[trigger] lies_between(self.adj(), s, t, v as int) && r@[i] == pair_term(self.adj(), s, t, v as int),
    {
        let ghost a = self.adj();
        let n = self.adjacency.len();
        let (dv, cv) = self.shortest_path_counts(v);
        proof {
            lemma_hop_table(a, v as int, dv@);
        }
        let mut r: Vec<(u64, u64)> = Vec::new();
        let mut s: usize = 0;
        while s < n
            invariant
                n == a.len(),
                a == self.adj(),
                self.wf(),
                v < n,
                s <= n,
                dv@.len() == n,
                cv@.len() == n,
                forall|x: int| 0 <= x < n ==> is_hop_distance(a, v as int, x, #[trigger] dv@[x]),
                forall|x: int| 0 <= x < n ==> #[trigger] cv@[x] == capped(path_count(a, dv@, v as int, x)),
                hop_table(a, v as int) == dv@,
                forall|i: int| #![trigger r@[i]] 0 <= i < r@.len() ==> exists|s2: int, t2: int|
                    0 <= s2 < n && 0 <= t2 < n && s2 != v && t2 != v && s2 != t2
                        && #[trigger] lies_between(a, s2, t2, v as int) && r@[i] == pair_term(a, s2, t2, v as int),
                (r@.len() == 0) == (forall|s2: int, t2: int|
                    0 <= s2 < s && 0 <= t2 < n && s2 != v && t2 != v && s2 != t2
                        ==> !#[trigger] lies_between(a, s2, t2, v as int)),
            decreases n - s,
        {
            if s != v {
                let (ds, cs) = self.shortest_path_counts(s);
                proof {
                    lemma_hop_table(a, s as int, ds@);
                }
                let mut t: usize = 0;
                while t < n
                    invariant
                        n == a.len(),
                        a == self.adj(),
                        self.wf(),
                        v < n,
                        s < n,
                        s != v,
                        t <= n,
                        dv@.len() == n,
                        cv@.len() == n,
                        ds@.len() == n,
                        cs@.len() == n,
                        forall|x: int| 0 <= x < n ==> is_hop_distance(a, v as int, x, #[trigger] dv@[x]),
                        forall|x: int| 0 <= x < n ==> is_hop_distance(a, s as int, x, #[trigger] ds@[x]),
                        forall|x: int| 0 <= x < n ==> #[trigger] cv@[x] == capped(path_count(a, dv@, v as int, x)),
                        forall|x: int| 0 <= x < n ==> #[trigger] cs@[x] == capped(path_count(a, ds@, s as int, x)),
                        hop_table(a, v as int) == dv@,
                        hop_table(a, s as int) == ds@,
                        forall|i: int| #![trigger r@[i]] 0 <= i < r@.len() ==> exists|s2: int, t2: int|
                            0 <= s2 < n && 0 <= t2 < n && s2 != v && t2 != v && s2 != t2
                                && #[trigger] lies_between(a, s2, t2, v as int) && r@[i] == pair_term(a, s2, t2, v as int),
                        (r@.len() == 0) == (forall|s2: int, t2: int|
                            (0 <= s2 < s || (s2 == s && t2 < t)) && 0 <= t2 < n && s2 != v && t2 != v && s2 != t2
                                ==> !#[trigger] lies_between(a, s2, t2, v as int)),
                    decreases n - t,
                {
                    if t != v && t != s {
                        proof {
                            lemma_between_iff(a, s as int, t as int, v as int, ds@[v as int], dv@[t as int], ds@[t as int]);
                        }
                        if ds[v] != UNREACHABLE && dv[t] != UNREACHABLE && ds[t] != UNREACHABLE && ds[v] <= ds[t]
                            && dv[t] == ds[t] - ds[v] {
                            let through = match cs[v].checked_mul(cv[t]) {
                                Some(m) => m,
                                None => UNREACHABLE,
                            };
                            let ghost old_r = r@;
                            r.push((through, cs[t]));
                            proof {
                                assert(lies_between(a, s as int, t as int, v as int));
                                lemma_path_count_nonneg(a, ds@, s as int, v as int);
                                lemma_path_count_nonneg(a, dv@, v as int, t as int);
                                lemma_capped_mul(path_count(a, ds@, s as int, v as int), path_count(a, dv@, v as int, t as int));
                                assert(r@[old_r.len() as int] == pair_term(a, s as int, t as int, v as int));
                                assert forall|i: int| #![trigger r@[i]] 0 <= i < r@.len() implies exists|s2: int, t2: int|
                                    0 <= s2 < n && 0 <= t2 < n && s2 != v && t2 != v && s2 != t2
                                        && #[trigger] lies_between(a, s2, t2, v as int) && r@[i] == pair_term(a, s2, t2, v as int) by {
                                    if i < old_r.len() {
                                        assert(r@[i] == old_r[i]);
                                    }
                                };
                            }
                        }
                    }
                    t = t + 1;
                }
            } else {
                proof {
                    assert forall|s2: int, t2: int|
                        (0 <= s2 < s + 1) && 0 <= t2 < n && s2 != v && t2 != v && s2 != t2 && #[trigger] lies_between(a, s2, t2, v as int)
                        implies 0 <= s2 < s by {};
                }
            }
            s = s + 1;
        }
        r
    }
}

} // verus!
