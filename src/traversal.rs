use vstd::prelude::*;
use vstd::set_lib::{lemma_len_subset, lemma_int_range, set_int_range};
use crate::graph::{Adjacency, Graph, has_arc, has_label, label_index, targets_in_range};

verus! {

/// The distance given to a node that no path reaches.
pub const UNREACHABLE: u64 = 18446744073709551615;

/// `p` is a walk that starts at `s` and follows an entry of the adjacency at each step.
pub open spec fn is_walk(a: Adjacency, s: int, p: Seq<int>) -> bool {
    &&& p.len() >= 1
    &&& p[0] == s
    &&& forall|i: int| 0 <= i < p.len() - 1 ==> #[trigger] has_arc(a, p[i], p[i + 1])
}

/// Some walk of at most `k` edges leads from `s` to `v`.
pub open spec fn within(a: Adjacency, s: int, k: nat, v: int) -> bool {
    exists|p: Seq<int>| #[trigger] is_walk(a, s, p) && p.len() <= k + 1 && p.last() == v
}

/// Some walk leads from `s` to `v`.
pub open spec fn reachable(a: Adjacency, s: int, v: int) -> bool {
    exists|k: nat| #[trigger] within(a, s, k, v)
}

/// `d` is the fewest edges on a walk from `s` to `v`, or `UNREACHABLE` when there is none.
pub open spec fn is_hop_distance(a: Adjacency, s: int, v: int, d: u64) -> bool {
    if d == UNREACHABLE {
        !reachable(a, s, v)
    } else {
        within(a, s, d as nat, v) && (d > 0 ==> !within(a, s, (d - 1) as nat, v))
    }
}

proof fn lemma_within_start(a: Adjacency, s: int)
    ensures
        within(a, s, 0, s),
{
    assert(is_walk(a, s, seq![s]));
}

proof fn lemma_within_step(a: Adjacency, s: int, k: nat, u: int, v: int)
    requires
        within(a, s, k, u),
        has_arc(a, u, v),
    ensures
        within(a, s, k + 1, v),
{
    let p = choose|p: Seq<int>| #[trigger] is_walk(a, s, p) && p.len() <= k + 1 && p.last() == u;
    let q = p.push(v);
    assert forall|i: int| 0 <= i < q.len() - 1 implies #[trigger] has_arc(a, q[i], q[i + 1]) by {
        if i < p.len() - 1 {
            assert(has_arc(a, p[i], p[i + 1]));
        }
    };
    assert(is_walk(a, s, q));
}

proof fn lemma_within_back(a: Adjacency, s: int, k: nat, v: int) -> (u: int)
    requires
        within(a, s, k + 1, v),
        !within(a, s, k, v),
    ensures
        within(a, s, k, u),
        has_arc(a, u, v),
{
    let p = choose|p: Seq<int>| #[trigger] is_walk(a, s, p) && p.len() <= k + 2 && p.last() == v;
    assert(p.len() == k + 2);
    let q = p.drop_last();
    assert forall|i: int| 0 <= i < q.len() - 1 implies #[trigger] has_arc(a, q[i], q[i + 1]) by {
        assert(has_arc(a, p[i], p[i + 1]));
    };
    assert(is_walk(a, s, q));
    assert(has_arc(a, p[p.len() - 2], p[p.len() - 2 + 1]));
    q.last()
}

proof fn lemma_within_zero(a: Adjacency, s: int, v: int)
    requires
        within(a, s, 0, v),
    ensures
        v == s,
{
}

/// Every node that has a distance passes one on to each of its successors.
proof fn lemma_closed_reach(a: Adjacency, s: int, dist: Seq<u64>, k: nat, v: int)
    requires
        dist.len() == a.len(),
        0 <= s < a.len(),
        dist[s] != UNREACHABLE,
        targets_in_range(a),
        forall|u: int, i: int|
            0 <= u < a.len() && dist[u] != UNREACHABLE && 0 <= i < a[u].len() ==> dist[
                #[trigger] a[u][i].0 as int] != UNREACHABLE,
        within(a, s, k, v),
    ensures
        0 <= v < a.len(),
        dist[v] != UNREACHABLE,
    decreases k,
{
    if k == 0 {
        lemma_within_zero(a, s, v);
    } else {
        if within(a, s, (k - 1) as nat, v) {
            lemma_closed_reach(a, s, dist, (k - 1) as nat, v);
        } else {
            let u = lemma_within_back(a, s, (k - 1) as nat, v);
            lemma_closed_reach(a, s, dist, (k - 1) as nat, u);
            let i = choose|i: int| 0 <= i < a[u].len() && a[u][i].0 as int == v;
            assert(dist[a[u][i].0 as int] != UNREACHABLE);
        }
    }
}

impl Graph {
    /// Breadth-first hop counts from `start`: for every node, the fewest edges on a
    /// path to it, edge weights ignored, or `UNREACHABLE`.
    pub fn hop_distance(&self, start: usize) -> (dist: Vec<u64>)
        requires
            self.wf(),
            start < self.node_total(),
        ensures
            dist@.len() == self.node_total(),
            dist@[start as int] == 0,
            forall|v: int|
                0 <= v < dist@.len() ==> is_hop_distance(self.adj(), start as int, v, #[trigger] dist@[v]),
            forall|v: int| 0 <= v < dist@.len() && #[trigger] dist@[v] != UNREACHABLE ==> dist@[v] < dist@.len(),
    {
        let ghost a = self.adj();
        let ghost s = start as int;
        let n = self.adjacency.len();
        let mut dist: Vec<u64> = Vec::new();
        while dist.len() < n
            invariant
                dist@.len() <= n,
                forall|v: int| 0 <= v < dist@.len() ==> dist@[v] == UNREACHABLE,
            decreases n - dist@.len(),
        {
            dist.push(UNREACHABLE);
        }
        dist.set(start, 0);
        let mut frontier: Vec<usize> = Vec::new();
        frontier.push(start);
        let mut level: u64 = 0;
        let mut count: usize = 1;
        let ghost mut seen: Set<int> = set![s];
        proof {
            lemma_int_range(0, n as int);
            assert(seen =~= Set::new(|v: int| 0 <= v < n && dist@[v] != UNREACHABLE));
            assert(frontier@[0] == start);
            lemma_within_start(a, s);
            assert(frontier@.contains(start));
        }
        loop
            invariant
                n == a.len(),
                a == self.adj(),
                self.wf(),
                s == start as int,
                start < n,
                dist@.len() == n,
                dist@[s] == 0,
                forall|v: int|
                    0 <= v < n && dist@[v] != UNREACHABLE ==> dist@[v] <= level && within(
                        a, s, dist@[v] as nat, v) && (dist@[v] > 0 ==> !within(
                        a, s, (dist@[v] - 1) as nat, v)),
                forall|v: int| 0 <= v < n && within(a, s, level as nat, v) ==> dist@[v] != UNREACHABLE,
                forall|i: int| 0 <= i < frontier@.len() ==> frontier@[i] < n && dist@[frontier@[i] as int] == level,
                forall|v: int| 0 <= v < n && dist@[v] == level ==> frontier@.contains(v as usize),
                forall|u: int, i: int|
                    0 <= u < n && dist@[u] != UNREACHABLE && dist@[u] < level && 0 <= i < a[u].len()
                        ==> dist@[#[trigger] a[u][i].0 as int] != UNREACHABLE,
                seen == Set::new(|v: int| 0 <= v < n && dist@[v] != UNREACHABLE),
                seen.finite(),
                count == seen.len(),
                level < count,
                count <= n,
            decreases n - count,
        {
            let ghost count0 = count;
            assert forall|v: int| 0 <= v < n implies dist@[v] != level + 1 by {
                if dist@[v] == UNREACHABLE {
                    lemma_int_range(0, n as int);
                    assert(seen.insert(v).subset_of(set_int_range(0, n as int)));
                    lemma_len_subset(seen.insert(v), set_int_range(0, n as int));
                    assert(usize::MAX as int <= u64::MAX as int);
                }
            };
            let mut next: Vec<usize> = Vec::new();
            let mut i: usize = 0;
            while i < frontier.len()
                invariant
                    n == a.len(),
                    a == self.adj(),
                    self.wf(),
                    s == start as int,
                    start < n,
                    dist@.len() == n,
                    dist@[s] == 0,
                    i <= frontier@.len(),
                    forall|v: int|
                        0 <= v < n && dist@[v] != UNREACHABLE ==> dist@[v] <= level + 1 && within(
                            a, s, dist@[v] as nat, v) && (dist@[v] > 0 ==> !within(
                            a, s, (dist@[v] - 1) as nat, v)),
                    forall|v: int| 0 <= v < n && within(a, s, level as nat, v) ==> dist@[v] != UNREACHABLE,
                    forall|p: int| 0 <= p < frontier@.len() ==> frontier@[p] < n && dist@[frontier@[p] as int] == level,
                    forall|v: int| 0 <= v < n && dist@[v] == level ==> frontier@.contains(v as usize),
                    forall|p: int| 0 <= p < next@.len() ==> next@[p] < n && dist@[next@[p] as int] == level + 1,
                    forall|v: int| 0 <= v < n && dist@[v] == level + 1 ==> next@.contains(v as usize),
                    forall|u: int, j: int|
                        0 <= u < n && dist@[u] != UNREACHABLE && dist@[u] < level && 0 <= j < a[u].len()
                            ==> dist@[#[trigger] a[u][j].0 as int] != UNREACHABLE,
                    forall|p: int, j: int|
                        0 <= p < i && 0 <= j < a[frontier@[p] as int].len()
                            ==> dist@[#[trigger] a[frontier@[p] as int][j].0 as int] != UNREACHABLE,
                    seen == Set::new(|v: int| 0 <= v < n && dist@[v] != UNREACHABLE),
                    seen.finite(),
                    count == seen.len(),
                    level < count0 <= count,
                    count <= n,
                    count == count0 + next@.len(),
                decreases frontier@.len() - i,
            {
                let u = frontier[i];
                let mut j: usize = 0;
                while j < self.adjacency[u].len()
                    invariant
                        n == a.len(),
                        a == self.adj(),
                        self.wf(),
                        s == start as int,
                        start < n,
                        u < n,
                        u == frontier@[i as int],
                        dist@[u as int] == level,
                        dist@.len() == n,
                        dist@[s] == 0,
                        i < frontier@.len(),
                        j <= a[u as int].len(),
                        forall|v: int|
                            0 <= v < n && dist@[v] != UNREACHABLE ==> dist@[v] <= level + 1 && within(
                                a, s, dist@[v] as nat, v) && (dist@[v] > 0 ==> !within(
                                a, s, (dist@[v] - 1) as nat, v)),
                        forall|v: int| 0 <= v < n && within(a, s, level as nat, v) ==> dist@[v] != UNREACHABLE,
                        forall|p: int| 0 <= p < frontier@.len() ==> frontier@[p] < n && dist@[frontier@[p] as int] == level,
                        forall|v: int| 0 <= v < n && dist@[v] == level ==> frontier@.contains(v as usize),
                        forall|p: int| 0 <= p < next@.len() ==> next@[p] < n && dist@[next@[p] as int] == level + 1,
                        forall|v: int| 0 <= v < n && dist@[v] == level + 1 ==> next@.contains(v as usize),
                        forall|w: int, k: int|
                            0 <= w < n && dist@[w] != UNREACHABLE && dist@[w] < level && 0 <= k < a[w].len()
                                ==> dist@[#[trigger] a[w][k].0 as int] != UNREACHABLE,
                        forall|p: int, k: int|
                            0 <= p < i && 0 <= k < a[frontier@[p] as int].len()
                                ==> dist@[#[trigger] a[frontier@[p] as int][k].0 as int] != UNREACHABLE,
                        forall|k: int| 0 <= k < j ==> dist@[#[trigger] a[u as int][k].0 as int] != UNREACHABLE,
                        seen == Set::new(|v: int| 0 <= v < n && dist@[v] != UNREACHABLE),
                        seen.finite(),
                        count == seen.len(),
                        level < count0 <= count,
                        count <= n,
                        count == count0 + next@.len(),
                    decreases a[u as int].len() - j,
                {
                    let v = self.adjacency[u][j].0;
                    assert(a[u as int][j as int] == self.adjacency@[u as int]@[j as int]);
                    if dist[v] == UNREACHABLE {
                        proof {
                            assert(within(a, s, level as nat, u as int));
                            assert(has_arc(a, u as int, v as int));
                            lemma_within_step(a, s, level as nat, u as int, v as int);
                            lemma_int_range(0, n as int);
                            let seen2 = seen.insert(v as int);
                            assert(seen2.subset_of(set_int_range(0, n as int)));
                            lemma_len_subset(seen2, set_int_range(0, n as int));
                            assert(usize::MAX as int <= u64::MAX as int);
                        }
                        let ghost old_next = next@;
                        let ghost old_dist = dist@;
                        dist.set(v, level + 1);
                        next.push(v);
                        count = count + 1;
                        proof {
                            seen = seen.insert(v as int);
                            assert(seen =~= Set::new(|x: int| 0 <= x < n && dist@[x] != UNREACHABLE));
                            assert(next@[next@.len() - 1] == v);
                            assert forall|x: int| 0 <= x < n && dist@[x] == level + 1 implies next@.contains(x as usize) by {
                                if x != v as int {
                                    assert(old_dist[x] == level + 1);
                                    assert(old_next.contains(x as usize));
                                    let p = choose|p: int| 0 <= p < old_next.len() && old_next[p] == x as usize;
                                    assert(next@[p] == x as usize);
                                }
                            };
                            assert forall|x: int| 0 <= x < n && dist@[x] == level implies frontier@.contains(x as usize) by {
                                assert(x != v as int);
                            };
                        }
                    }
                    j = j + 1;
                }
                i = i + 1;
            }
            if next.len() == 0 {
                proof {
                    assert forall|u: int, k: int|
                        0 <= u < n && dist@[u] != UNREACHABLE && 0 <= k < a[u].len() implies dist@[
                            #[trigger] a[u][k].0 as int] != UNREACHABLE by {
                        if dist@[u] == level {
                            assert(frontier@.contains(u as usize));
                            let p = choose|p: int| 0 <= p < frontier@.len() && frontier@[p] == u as usize;
                            assert(a[frontier@[p] as int][k] == a[u][k]);
                        }
                    };
                    assert forall|v: int| 0 <= v < n implies is_hop_distance(a, s, v, #[trigger] dist@[v]) by {
                        if dist@[v] == UNREACHABLE {
                            assert forall|k: nat| !#[trigger] within(a, s, k, v) by {
                                if within(a, s, k, v) {
                                    lemma_closed_reach(a, s, dist@, k, v);
                                }
                            };
                        }
                    };
                }
                return dist;
            }
            proof {
                assert forall|v: int| 0 <= v < n && within(a, s, (level + 1) as nat, v) implies dist@[v] != UNREACHABLE by {
                    if !within(a, s, level as nat, v) {
                        let u = lemma_within_back(a, s, level as nat, v);
                        let k = choose|k: int| 0 <= k < a[u].len() && a[u][k].0 as int == v;
                        assert(0 <= u < n);
                        if dist@[u] == level {
                            assert(frontier@.contains(u as usize));
                            let p = choose|p: int| 0 <= p < frontier@.len() && frontier@[p] == u as usize;
                            assert(a[frontier@[p] as int][k] == a[u][k]);
                        } else {
                            assert(dist@[a[u][k].0 as int] != UNREACHABLE);
                        }
                    }
                };
                assert forall|u: int, k: int|
                    0 <= u < n && dist@[u] != UNREACHABLE && dist@[u] < level + 1 && 0 <= k < a[u].len() implies dist@[
                        #[trigger] a[u][k].0 as int] != UNREACHABLE by {
                    if dist@[u] == level {
                        assert(frontier@.contains(u as usize));
                        let p = choose|p: int| 0 <= p < frontier@.len() && frontier@[p] == u as usize;
                        assert(a[frontier@[p] as int][k] == a[u][k]);
                    }
                };
            }
            frontier = next;
            level = level + 1;
        }
    }
    /// Hop counts from the node named `start` to every node, by node index;
    /// `None` when no node has that name.
    pub fn bfs_shortest_paths(&self, start: &str) -> (r: Option<Vec<u64>>)
        requires
            self.wf(),
        ensures
            r is Some <==> has_label(self.label_view(), start@),
            r is Some ==> ({
                let s = label_index(self.label_view(), start@);
                let dist = r->0@;
                &&& dist.len() == self.node_total()
                &&& dist[s] == 0
                &&& forall|v: int| 0 <= v < dist.len() ==> is_hop_distance(self.adj(), s, v, #[trigger] dist[v])
            }),
    {
        match self.node_index(start) {
            Some(s) => Some(self.hop_distance(s)),
            None => None,
        }
    }
}

} // verus!
