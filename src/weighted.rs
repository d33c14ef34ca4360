use vstd::prelude::*;
use crate::graph::{Adjacency, Graph, has_arc};
use crate::traversal::{UNREACHABLE, is_hop_distance, is_walk, reachable, within};

verus! {

/// Some entry of `u`'s list points to `v` with weight `w`.
pub open spec fn has_entry(a: Adjacency, u: int, v: int, w: int) -> bool {
    0 <= u < a.len() && exists|j: int| 0 <= j < a[u].len() && a[u][j].0 as int == v && a[u][j].1 as int == w
}

/// The sum of `ws`.
pub open spec fn total(ws: Seq<int>) -> int
    decreases ws.len(),
{
    if ws.len() == 0 {
        0
    } else {
        total(ws.drop_last()) + ws.last()
    }
}

/// `p` is a walk from `s` whose step `i` follows an entry of weight `ws[i]`.
pub open spec fn is_weighted_walk(a: Adjacency, s: int, p: Seq<int>, ws: Seq<int>) -> bool {
    &&& p.len() >= 1
    &&& p[0] == s
    &&& ws.len() == p.len() - 1
    &&& forall|i: int| 0 <= i < ws.len() ==> #[trigger] has_entry(a, p[i], p[i + 1], ws[i])
}

/// Some walk from `s` to `v` weighs at most `c` in all.
pub open spec fn within_cost(a: Adjacency, s: int, c: int, v: int) -> bool {
    exists|p: Seq<int>, ws: Seq<int>| #[trigger] is_weighted_walk(a, s, p, ws) && p.last() == v && total(ws) <= c
}

/// `d` is the least total weight of a walk from `s` to `v`; `UNREACHABLE` when
/// there is none or when that weight does not stay below `UNREACHABLE`.
pub open spec fn is_weighted_distance(a: Adjacency, s: int, v: int, d: u64) -> bool {
    if d == UNREACHABLE {
        !within_cost(a, s, UNREACHABLE - 1, v)
    } else {
        within_cost(a, s, d as int, v) && !within_cost(a, s, d - 1, v)
    }
}

/// Every entry of `a` has weight 1.
pub open spec fn unit_weights(a: Adjacency) -> bool {
    forall|u: int, j: int| 0 <= u < a.len() && 0 <= j < a[u].len() ==> (#[trigger] a[u][j]).1 == 1
}

/// `dist[v]` does not exceed the saturated weight through `u`'s entry `j`.
pub open spec fn relaxed(a: Adjacency, dist: Seq<u64>, u: int, j: int) -> bool {
    dist[a[u][j].0 as int] as int <= capped_sum(dist[u] as int, a[u][j].1 as int)
}

/// `x + y`, held at `UNREACHABLE` when it would pass it.
pub open spec fn capped_sum(x: int, y: int) -> int {
    if x + y < UNREACHABLE { x + y } else { UNREACHABLE as int }
}

/// The sum of all entries of `d`.
pub open spec fn dist_sum(d: Seq<u64>) -> int
    decreases d.len(),
{
    if d.len() == 0 {
        0
    } else {
        dist_sum(d.drop_last()) + d.last()
    }
}

proof fn lemma_dist_sum_update(d: Seq<u64>, i: int, x: u64)
    requires
        0 <= i < d.len(),
    ensures
        dist_sum(d.update(i, x)) == dist_sum(d) - d[i] + x,
        dist_sum(d) >= 0,
    decreases d.len(),
{
    let e = d.update(i, x);
    if i == d.len() - 1 {
        assert(e.drop_last() =~= d.drop_last());
        lemma_dist_sum_nonneg(d.drop_last());
    } else {
        lemma_dist_sum_update(d.drop_last(), i, x);
        assert(e.drop_last() =~= d.drop_last().update(i, x));
    }
}

proof fn lemma_dist_sum_nonneg(d: Seq<u64>)
    ensures
        dist_sum(d) >= 0,
    decreases d.len(),
{
    if d.len() > 0 {
        lemma_dist_sum_nonneg(d.drop_last());
    }
}

proof fn lemma_total_push(ws: Seq<int>, w: int)
    ensures
        total(ws.push(w)) == total(ws) + w,
{
    assert(ws.push(w).drop_last() =~= ws);
}

proof fn lemma_cost_start(a: Adjacency, s: int)
    ensures
        within_cost(a, s, 0, s),
{
    assert(is_weighted_walk(a, s, seq![s], Seq::<int>::empty()));
}

proof fn lemma_cost_step(a: Adjacency, s: int, c: int, u: int, v: int, w: int)
    requires
        within_cost(a, s, c, u),
        has_entry(a, u, v, w),
    ensures
        within_cost(a, s, c + w, v),
{
    let (p, ws) = choose|p: Seq<int>, ws: Seq<int>| #[trigger] is_weighted_walk(a, s, p, ws) && p.last() == u && total(ws) <= c;
    let p2 = p.push(v);
    let ws2 = ws.push(w);
    assert forall|i: int| 0 <= i < ws2.len() implies #[trigger] has_entry(a, p2[i], p2[i + 1], ws2[i]) by {
        if i < ws.len() {
            assert(has_entry(a, p[i], p[i + 1], ws[i]));
        }
    };
    lemma_total_push(ws, w);
    assert(is_weighted_walk(a, s, p2, ws2));
}

/// With every entry relaxed, no walk weighs less than the distance of its end.
proof fn lemma_walk_bound(a: Adjacency, s: int, dist: Seq<u64>, p: Seq<int>, ws: Seq<int>)
    requires
        dist.len() == a.len(),
        0 <= s < a.len(),
        dist[s] == 0,
        crate::graph::targets_in_range(a),
        forall|u: int, j: int| 0 <= u < a.len() && 0 <= j < a[u].len() ==> #[trigger] relaxed(a, dist, u, j),
        is_weighted_walk(a, s, p, ws),
    ensures
        0 <= p.last() < a.len(),
        dist[p.last()] <= total(ws),
    decreases p.len(),
{
    if p.len() > 1 {
        let p1 = p.drop_last();
        let ws1 = ws.drop_last();
        assert forall|i: int| 0 <= i < ws1.len() implies #[trigger] has_entry(a, p1[i], p1[i + 1], ws1[i]) by {
            assert(has_entry(a, p[i], p[i + 1], ws[i]));
        };
        lemma_walk_bound(a, s, dist, p1, ws1);
        let k = ws.len() - 1;
        assert(has_entry(a, p[k], p[k + 1], ws[k]));
        let u = p[k];
        let j = choose|j: int| 0 <= j < a[u].len() && a[u][j].0 as int == p[k + 1] && a[u][j].1 as int == ws[k];
        assert(relaxed(a, dist, u, j));
        assert(a[u][j].0 < a.len());
        assert(ws =~= ws1.push(ws[k]));
        lemma_total_push(ws1, ws[k]);
    }
}

proof fn lemma_unit_total(ws: Seq<int>)
    requires
        forall|i: int| 0 <= i < ws.len() ==> #[trigger] ws[i] == 1,
    ensures
        total(ws) == ws.len(),
    decreases ws.len(),
{
    if ws.len() > 0 {
        let w1 = ws.drop_last();
        assert forall|i: int| 0 <= i < w1.len() implies #[trigger] w1[i] == 1 by {
            assert(ws[i] == 1);
        };
        lemma_unit_total(w1);
    }
}

/// With unit weights, a walk of at most `k` edges is a walk of weight at most `k`.
proof fn lemma_unit_cost_iff(a: Adjacency, s: int, k: nat, v: int)
    requires
        unit_weights(a),
    ensures
        within(a, s, k, v) <==> within_cost(a, s, k as int, v),
{
    if within(a, s, k, v) {
        let p = choose|p: Seq<int>| #[trigger] is_walk(a, s, p) && p.len() <= k + 1 && p.last() == v;
        let ws = Seq::new((p.len() - 1) as nat, |i: int| 1int);
        assert forall|i: int| 0 <= i < ws.len() implies #[trigger] has_entry(a, p[i], p[i + 1], ws[i]) by {
            assert(has_arc(a, p[i], p[i + 1]));
            let j = choose|j: int| 0 <= j < a[p[i]].len() && a[p[i]][j].0 as int == p[i + 1];
            assert(a[p[i]][j].1 == 1);
        };
        lemma_unit_total(ws);
        assert(is_weighted_walk(a, s, p, ws));
    }
    if within_cost(a, s, k as int, v) {
        let (p, ws) = choose|p: Seq<int>, ws: Seq<int>| #[trigger] is_weighted_walk(a, s, p, ws) && p.last() == v && total(ws) <= k;
        assert forall|i: int| 0 <= i < ws.len() implies #[trigger] ws[i] == 1 by {
            assert(has_entry(a, p[i], p[i + 1], ws[i]));
            let j = choose|j: int| 0 <= j < a[p[i]].len() && a[p[i]][j].0 as int == p[i + 1] && a[p[i]][j].1 as int == ws[i];
            assert(a[p[i]][j].1 == 1);
        };
        lemma_unit_total(ws);
        assert forall|i: int| 0 <= i < p.len() - 1 implies #[trigger] has_arc(a, p[i], p[i + 1]) by {
            assert(has_entry(a, p[i], p[i + 1], ws[i]));
        };
        assert(is_walk(a, s, p));
    }
}

/// When every edge weighs 1, hop counts and weighted distances from the same
/// start agree on every node.
pub proof fn lemma_unit_weights_agree(a: Adjacency, s: int, v: int, dh: u64, dw: u64)
    requires
        unit_weights(a),
        is_hop_distance(a, s, v, dh),
        is_weighted_distance(a, s, v, dw),
    ensures
        dh == dw,
{
    if dh != UNREACHABLE {
        lemma_unit_cost_iff(a, s, dh as nat, v);
        if dh > 0 {
            lemma_unit_cost_iff(a, s, (dh - 1) as nat, v);
        } else {
            lemma_no_negative_cost(a, s, v);
        }
        if dw != UNREACHABLE {
            if dw < dh {
                lemma_cost_mono(a, s, dw as int, dh - 1, v);
            } else if dw > dh {
                lemma_cost_mono(a, s, dh as int, dw - 1, v);
            }
        } else {
            lemma_cost_mono(a, s, dh as int, UNREACHABLE - 1, v);
        }
    } else if dw != UNREACHABLE {
        lemma_unit_cost_iff(a, s, dw as nat, v);
        assert(reachable(a, s, v));
    }
}

proof fn lemma_cost_mono(a: Adjacency, s: int, c1: int, c2: int, v: int)
    requires
        within_cost(a, s, c1, v),
        c1 <= c2,
    ensures
        within_cost(a, s, c2, v),
{
    let (p, ws) = choose|p: Seq<int>, ws: Seq<int>| #[trigger] is_weighted_walk(a, s, p, ws) && p.last() == v && total(ws) <= c1;
    assert(is_weighted_walk(a, s, p, ws));
}

proof fn lemma_total_nonneg(a: Adjacency, s: int, p: Seq<int>, ws: Seq<int>)
    requires
        is_weighted_walk(a, s, p, ws),
    ensures
        total(ws) >= 0,
    decreases ws.len(),
{
    if ws.len() > 0 {
        let p1 = p.drop_last();
        let ws1 = ws.drop_last();
        assert forall|i: int| 0 <= i < ws1.len() implies #[trigger] has_entry(a, p1[i], p1[i + 1], ws1[i]) by {
            assert(has_entry(a, p[i], p[i + 1], ws[i]));
        };
        lemma_total_nonneg(a, s, p1, ws1);
        let k = ws.len() - 1;
        assert(has_entry(a, p[k], p[k + 1], ws[k]));
    }
}

proof fn lemma_no_negative_cost(a: Adjacency, s: int, v: int)
    ensures
        !within_cost(a, s, -1, v),
{
    if within_cost(a, s, -1, v) {
        let (p, ws) = choose|p: Seq<int>, ws: Seq<int>| #[trigger] is_weighted_walk(a, s, p, ws) && p.last() == v && total(ws) <= -1;
        lemma_total_nonneg(a, s, p, ws);
    }
}

/// When every edge of a well-formed graph weighs 1, the hop counts and the
/// weighted distances from one start are the same list.
pub proof fn lemma_unit_weight_distances(g: &Graph, s: int, dh: Seq<u64>, dw: Seq<u64>)
    requires
        g.wf(),
        unit_weights(g.adj()),
        dh.len() == g.node_total(),
        dw.len() == g.node_total(),
        forall|v: int| 0 <= v < dh.len() ==> is_hop_distance(g.adj(), s, v, #[trigger] dh[v]),
        forall|v: int| 0 <= v < dw.len() ==> is_weighted_distance(g.adj(), s, v, #[trigger] dw[v]),
    ensures
        dh == dw,
{
    assert forall|v: int| 0 <= v < dh.len() implies dh[v] == dw[v] by {
        lemma_unit_weights_agree(g.adj(), s, v, dh[v], dw[v]);
    };
    assert(dh =~= dw);
}

impl Graph {
    /// Least total edge weight from `start` to every node, found by repeated
    /// relaxation from a first-in first-out queue: a node whose distance drops is
    /// queued again. Sums saturate at `UNREACHABLE`, which also marks nodes that
    /// no path reaches.
    pub fn weighted_distance(&self, start: usize) -> (dist: Vec<u64>)
        requires
            self.wf(),
            start < self.node_total(),
        ensures
            dist@.len() == self.node_total(),
            dist@[start as int] == 0,
            forall|v: int|
                0 <= v < dist@.len() ==> is_weighted_distance(self.adj(), start as int, v, #[trigger] dist@[v]),
    {
        let ghost a = self.adj();
        let ghost s = start as int;
        let n = self.adjacency.len();
        let mut dist: Vec<u64> = Vec::new();
        while dist.len() < n
            invariant
                dist@.len() <= n,
                forall|v: int| 0 <= v < dist@.len() ==> dist@[v] == UNREACHABLE,
            decreases n - dist@.len(),
        {
            dist.push(UNREACHABLE);
        }
        dist.set(start, 0);
        let mut queue: Vec<usize> = Vec::new();
        queue.push(start);
        let mut head: usize = 0;
        proof {
            lemma_cost_start(a, s);
            lemma_dist_sum_nonneg(dist@);
            assert(queue@.subrange(0, 1).contains(start)) by {
                assert(queue@.subrange(0, 1)[0] == start);
            };
        }
        while head < queue.len()
            invariant
                n == a.len(),
                a == self.adj(),
                self.wf(),
                s == start as int,
                start < n,
                dist@.len() == n,
                dist@[s] == 0,
                head <= queue@.len(),
                forall|i: int| 0 <= i < queue@.len() ==> (#[trigger] queue@[i] as int) < n,
                forall|v: int| 0 <= v < n && dist@[v] != UNREACHABLE ==> within_cost(a, s, dist@[v] as int, v),
                forall|u: int, j: int|
                    0 <= u < n && 0 <= j < a[u].len() && !queue@.subrange(head as int, queue@.len() as int).contains(u as usize)
                        ==> #[trigger] relaxed(a, dist@, u, j),
                dist_sum(dist@) >= 0,
            decreases dist_sum(dist@), queue@.len() - head,
        {
            let u = queue[head];
            head = head + 1;
            proof {
                let old_pend = queue@.subrange(head - 1, queue@.len() as int);
                let pend = queue@.subrange(head as int, queue@.len() as int);
                assert forall|x: int, k: int|
                    0 <= x < n && x != u && 0 <= k < a[x].len() && !pend.contains(x as usize)
                        implies #[trigger] relaxed(a, dist@, x, k) by {
                    if old_pend.contains(x as usize) {
                        let i = choose|i: int| 0 <= i < old_pend.len() && old_pend[i] == x as usize;
                        assert(i != 0);
                        assert(pend[i - 1] == x as usize);
                    }
                };
            }
            let du = dist[u];
            let ghost sum0 = dist_sum(dist@);
            let ghost qlen0 = queue@.len();
            let ghost mut changed = false;
            let mut j: usize = 0;
            while j < self.adjacency[u].len()
                invariant
                    n == a.len(),
                    a == self.adj(),
                    self.wf(),
                    s == start as int,
                    start < n,
                    u < n,
                    dist@.len() == n,
                    dist@[s] == 0,
                    dist@[u as int] == du,
                    1 <= head <= queue@.len(),
                    j <= a[u as int].len(),
                    forall|i: int| 0 <= i < queue@.len() ==> (#[trigger] queue@[i] as int) < n,
                    forall|v: int| 0 <= v < n && dist@[v] != UNREACHABLE ==> within_cost(a, s, dist@[v] as int, v),
                    forall|x: int, k: int|
                        0 <= x < n && x != u && 0 <= k < a[x].len() && !queue@.subrange(head as int, queue@.len() as int).contains(x as usize)
                            ==> #[trigger] relaxed(a, dist@, x, k),
                    forall|k: int| 0 <= k < j ==> #[trigger] relaxed(a, dist@, u as int, k),
                    dist_sum(dist@) >= 0,
                    changed ==> dist_sum(dist@) < sum0,
                    !changed ==> dist_sum(dist@) == sum0 && queue@.len() == qlen0,
                    qlen0 - head < queue@.len() - head || queue@.len() == qlen0,
                decreases a[u as int].len() - j,
            {
                let (v, w) = self.adjacency[u][j];
                proof {
                    assert(a[u as int][j as int] == (v, w));
                }
                let cand = du.saturating_add(w as u64);
                if cand < dist[v] {
                    let ghost old_dist = dist@;
                    let ghost old_queue = queue@;
                    proof {
                        assert(has_entry(a, u as int, v as int, w as int));
                        lemma_cost_step(a, s, du as int, u as int, v as int, w as int);
                        lemma_dist_sum_update(dist@, v as int, cand);
                    }
                    dist.set(v, cand);
                    queue.push(v);
                    proof {
                        lemma_dist_sum_nonneg(dist@);
                        changed = true;
                        let pend = queue@.subrange(head as int, queue@.len() as int);
                        let old_pend = old_queue.subrange(head as int, old_queue.len() as int);
                        assert(pend =~= old_pend.push(v));
                        assert(pend[pend.len() - 1] == v);
                        assert forall|x: int, k: int|
                            0 <= x < n && x != u && 0 <= k < a[x].len() && !pend.contains(x as usize)
                                implies #[trigger] relaxed(a, dist@, x, k) by {
                            if old_pend.contains(x as usize) {
                                let i = choose|i: int| 0 <= i < old_pend.len() && old_pend[i] == x as usize;
                                assert(pend[i] == x as usize);
                            }
                            assert(relaxed(a, old_dist, x, k));
                            assert(x != v as int);
                        };
                        assert forall|k: int| 0 <= k < j + 1 implies #[trigger] relaxed(a, dist@, u as int, k) by {
                            if k < j {
                                assert(relaxed(a, old_dist, u as int, k));
                            }
                        };
                    }
                } else {
                    proof {
                        assert(relaxed(a, dist@, u as int, j as int));
                    }
                }
                j = j + 1;
            }
            proof {
                assert forall|x: int, k: int|
                    0 <= x < n && 0 <= k < a[x].len() && !queue@.subrange(head as int, queue@.len() as int).contains(x as usize)
                        implies #[trigger] relaxed(a, dist@, x, k) by {
                    if x == u as int {
                        assert(relaxed(a, dist@, u as int, k));
                    }
                };
            }
        }
        proof {
            assert forall|v: int| 0 <= v < n implies is_weighted_distance(a, s, v, #[trigger] dist@[v]) by {
                assert forall|c: int| #[trigger] within_cost(a, s, c, v) implies dist@[v] <= c by {
                    let (p, ws) = choose|p: Seq<int>, ws: Seq<int>| #[trigger] is_weighted_walk(a, s, p, ws) && p.last() == v && total(ws) <= c;
                    lemma_walk_bound(a, s, dist@, p, ws);
                };
                if dist@[v] != UNREACHABLE && within_cost(a, s, dist@[v] - 1, v) {
                    assert(dist@[v] <= dist@[v] - 1);
                }
                if dist@[v] == UNREACHABLE && within_cost(a, s, UNREACHABLE - 1, v) {
                    assert(dist@[v] <= UNREACHABLE - 1);
                }
            };
        }
        dist
    }
}

} // verus!
