use vstd::prelude::*;
use crate::graph::{Adjacency, Graph, has_arc, is_mirrored};
use crate::traversal::{UNREACHABLE, is_walk, reachable, within};

verus! {

/// The views of a list of node groups.
pub open spec fn groups(comps: Seq<Vec<usize>>) -> Seq<Seq<usize>> {
    comps.map_values(|c: Vec<usize>| c@)
}

/// `v` is held by `c`.
pub open spec fn holds(c: Seq<usize>, v: int) -> bool {
    exists|i: int| 0 <= i < c.len() && #[trigger] c[i] as int == v
}

/// `v` is held by one of the groups of `comps`.
pub open spec fn held(comps: Seq<Seq<usize>>, v: int) -> bool {
    exists|c: int| 0 <= c < comps.len() && #[trigger] holds(comps[c], v)
}

/// `comps` splits the nodes `0..n` into groups that hold each node exactly once,
/// each group being every node reachable from its first member.
pub open spec fn is_component_split(a: Adjacency, comps: Seq<Seq<usize>>) -> bool {
    &&& forall|c: int, i: int|
        0 <= c < comps.len() && 0 <= i < comps[c].len() ==> (#[trigger] comps[c][i] as int) < a.len()
    &&& forall|v: int| 0 <= v < a.len() ==> #[trigger] held(comps, v)
    &&& forall|c1: int, i1: int, c2: int, i2: int|
        0 <= c1 < comps.len() && 0 <= i1 < comps[c1].len() && 0 <= c2 < comps.len() && 0 <= i2
            < comps[c2].len() && #[trigger] comps[c1][i1] == #[trigger] comps[c2][i2] ==> c1 == c2
            && i1 == i2
    &&& forall|c: int| 0 <= c < comps.len() ==> #[trigger] comps[c].len() > 0
    &&& forall|c: int, i: int|
        0 <= c < comps.len() && 0 <= i < comps[c].len() ==> reachable(
            a,
            comps[c][0] as int,
            #[trigger] comps[c][i] as int,
        )
    &&& forall|c: int, v: int|
        0 <= c < comps.len() && 0 <= v < a.len() && #[trigger] reachable(a, comps[c][0] as int, v)
            ==> holds(comps[c], v)
}

proof fn lemma_reachable_trans(a: Adjacency, s: int, u: int, v: int)
    requires
        reachable(a, s, u),
        reachable(a, u, v),
    ensures
        reachable(a, s, v),
{
    let k1 = choose|k: nat| #[trigger] within(a, s, k, u);
    let k2 = choose|k: nat| #[trigger] within(a, u, k, v);
    let p = choose|p: Seq<int>| #[trigger] is_walk(a, s, p) && p.len() <= k1 + 1 && p.last() == u;
    let q = choose|p: Seq<int>| #[trigger] is_walk(a, u, p) && p.len() <= k2 + 1 && p.last() == v;
    let r = p + q.drop_first();
    assert forall|i: int| 0 <= i < r.len() - 1 implies #[trigger] has_arc(a, r[i], r[i + 1]) by {
        if i < p.len() - 1 {
            assert(has_arc(a, p[i], p[i + 1]));
        } else {
            let j = i - p.len() + 1;
            assert(has_arc(a, q[j], q[j + 1]));
        }
    };
    assert(is_walk(a, s, r));
    if q.len() == 1 {
        assert(r =~= p);
    }
    assert(within(a, s, (k1 + k2) as nat, v));
}

proof fn lemma_reachable_sym(a: Adjacency, s: int, v: int)
    requires
        is_mirrored(a),
        reachable(a, s, v),
    ensures
        reachable(a, v, s),
{
    let k = choose|k: nat| #[trigger] within(a, s, k, v);
    let p = choose|p: Seq<int>| #[trigger] is_walk(a, s, p) && p.len() <= k + 1 && p.last() == v;
    let r = p.reverse();
    assert forall|i: int| 0 <= i < r.len() - 1 implies #[trigger] has_arc(a, r[i], r[i + 1]) by {
        let j = p.len() - 2 - i;
        assert(has_arc(a, p[j], p[j + 1]));
        let e = choose|e: int| 0 <= e < a[p[j]].len() && a[p[j]][e].0 as int == p[j + 1];
        assert(has_arc(a, a[p[j]][e].0 as int, p[j]));
    };
    assert(is_walk(a, v, r));
    assert(within(a, v, k, s));
}

impl Graph {
    /// Splits the nodes of an undirected graph into its connected components,
    /// found by a traversal from each node that no earlier component holds.
    pub fn component_indices(&self) -> (comps: Vec<Vec<usize>>)
        requires
            self.wf(),
            !self.directed,
        ensures
            is_component_split(self.adj(), groups(comps@)),
    {
        let ghost a = self.adj();
        let n = self.adjacency.len();
        let mut assigned: Vec<bool> = Vec::new();
        while assigned.len() < n
            invariant
                assigned@.len() <= n,
                forall|v: int| 0 <= v < assigned@.len() ==> !assigned@[v],
            decreases n - assigned@.len(),
        {
            assigned.push(false);
        }
        let mut comps: Vec<Vec<usize>> = Vec::new();
        let mut seed: usize = 0;
        while seed < n
            invariant
                n == a.len(),
                a == self.adj(),
                self.wf(),
                !self.directed,
                seed <= n,
                assigned@.len() == n,
                forall|v: int| 0 <= v < seed ==> assigned@[v],
                forall|c: int, i: int|
                    0 <= c < comps@.len() && 0 <= i < comps@[c]@.len() ==> (#[trigger] comps@[c]@[i] as int) < n
                        && assigned@[comps@[c]@[i] as int],
                forall|v: int| 0 <= v < n && #[trigger] assigned@[v] ==> held(groups(comps@), v),
                forall|c1: int, i1: int, c2: int, i2: int|
                    0 <= c1 < comps@.len() && 0 <= i1 < comps@[c1]@.len() && 0 <= c2 < comps@.len() && 0 <= i2
                        < comps@[c2]@.len() && #[trigger] comps@[c1]@[i1] == #[trigger] comps@[c2]@[i2] ==> c1 == c2
                        && i1 == i2,
                forall|c: int| 0 <= c < comps@.len() ==> #[trigger] comps@[c]@.len() > 0,
                forall|c: int, i: int|
                    0 <= c < comps@.len() && 0 <= i < comps@[c]@.len() ==> reachable(
                        a,
                        comps@[c]@[0] as int,
                        #[trigger] comps@[c]@[i] as int,
                    ),
                forall|c: int, v: int|
                    0 <= c < comps@.len() && 0 <= v < n && #[trigger] reachable(a, comps@[c]@[0] as int, v)
                        ==> holds(comps@[c]@, v),
            decreases n - seed,
        {
            if !assigned[seed] {
                let dist = self.hop_distance(seed);
                let ghost s = seed as int;
                let mut comp: Vec<usize> = Vec::new();
                let ghost cs = groups(comps@);
                proof {
                    assert forall|c: int, i: int| 0 <= c < comps@.len() && 0 <= i < comps@[c]@.len()
                        implies !reachable(a, s, #[trigger] comps@[c]@[i] as int) by {
                        let x = comps@[c]@[i] as int;
                        if reachable(a, s, x) {
                            assert(reachable(a, comps@[c]@[0] as int, x));
                            lemma_reachable_sym(a, s, x);
                            lemma_reachable_trans(a, comps@[c]@[0] as int, x, s);
                            assert(holds(comps@[c]@, s));
                            let k = choose|k: int| 0 <= k < comps@[c]@.len() && #[trigger] comps@[c]@[k] as int == s;
                            assert(assigned@[comps@[c]@[k] as int]);
                        }
                    };
                }
                let mut v: usize = 0;
                while v < n
                    invariant
                        n == a.len(),
                        a == self.adj(),
                        self.wf(),
                        !self.directed,
                        seed < n,
                        s == seed as int,
                        !assigned@[s] || v > s,
                        cs == groups(comps@),
                        v <= n,
                        dist@.len() == n,
                        dist@[s] == 0,
                        forall|x: int| 0 <= x < n ==> crate::traversal::is_hop_distance(a, s, x, #[trigger] dist@[x]),
                        assigned@.len() == n,
                        forall|x: int| 0 <= x < seed ==> assigned@[x],
                        forall|i: int| 0 <= i < comp@.len() ==> (#[trigger] comp@[i] as int) < v
                            && assigned@[comp@[i] as int] && reachable(a, s, comp@[i] as int),
                        forall|i: int, j: int| 0 <= i < j < comp@.len() ==> #[trigger] comp@[i] < #[trigger] comp@[j],
                        forall|x: int| 0 <= x < v && #[trigger] reachable(a, s, x) ==> holds(comp@, x),
                        comp@.len() > 0 ==> comp@[0] == seed,
                        v <= s ==> comp@.len() == 0,
                        v > s ==> comp@.len() > 0,
                        forall|c: int, i: int|
                            0 <= c < comps@.len() && 0 <= i < comps@[c]@.len() ==> (#[trigger] comps@[c]@[i] as int) < n
                                && assigned@[comps@[c]@[i] as int] && !reachable(a, s, comps@[c]@[i] as int),
                        forall|x: int| 0 <= x < n && #[trigger] assigned@[x] ==> held(groups(comps@), x) || holds(comp@, x),
                    decreases n - v,
                {
                    if dist[v] != UNREACHABLE {
                        proof {
                            assert(within(a, s, dist@[v as int] as nat, v as int));
                            assert(reachable(a, s, v as int));
                            if assigned@[v as int] {
                                if held(cs, v as int) {
                                    let c = choose|c: int| 0 <= c < cs.len() && #[trigger] holds(cs[c], v as int);
                                    let i = choose|i: int| 0 <= i < cs[c].len() && #[trigger] cs[c][i] as int == v as int;
                                    assert(comps@[c]@[i] == cs[c][i]);
                                } else {
                                    let i = choose|i: int| 0 <= i < comp@.len() && #[trigger] comp@[i] as int == v as int;
                                }
                            }
                            if v < seed {
                                assert(assigned@[v as int]);
                            }
                        }
                        let ghost old_comp = comp@;
                        let ghost old_assigned = assigned@;
                        comp.push(v);
                        assigned.set(v, true);
                        proof {
                            assert(holds(comp@, v as int)) by {
                                assert(comp@[comp@.len() - 1] as int == v as int);
                            };
                            assert forall|x: int| 0 <= x < n && #[trigger] assigned@[x] implies held(cs, x) || holds(comp@, x) by {
                                if x != v as int && !held(cs, x) {
                                    assert(old_assigned[x]);
                                    assert(holds(old_comp, x));
                                    let i = choose|i: int| 0 <= i < old_comp.len() && #[trigger] old_comp[i] as int == x;
                                    assert(comp@[i] == old_comp[i]);
                                }
                            };
                            assert forall|x: int| 0 <= x < v + 1 && #[trigger] reachable(a, s, x) implies holds(comp@, x) by {
                                if x != v as int {
                                    let i = choose|i: int| 0 <= i < old_comp.len() && #[trigger] old_comp[i] as int == x;
                                    assert(comp@[i] == old_comp[i]);
                                }
                            };
                        }
                    } else {
                        proof {
                            assert(!reachable(a, s, v as int));
                        }
                    }
                    v = v + 1;
                }
                let ghost old_comps = comps@;
                comps.push(comp);
                proof {
                    let cs2 = groups(comps@);
                    let last = (comps@.len() - 1) as int;
                    assert(cs2 =~= cs.push(comp@));
                    assert forall|x: int| 0 <= x < n && #[trigger] assigned@[x] implies held(cs2, x) by {
                        if held(cs, x) {
                            let c = choose|c: int| 0 <= c < cs.len() && #[trigger] holds(cs[c], x);
                            assert(cs2[c] == cs[c]);
                        } else {
                            assert(cs2[last] == comp@);
                        }
                    };
                    assert forall|c: int, x: int| 0 <= c < comps@.len() && 0 <= x < n && #[trigger] reachable(a, comps@[c]@[0] as int, x)
                        implies holds(comps@[c]@, x) by {
                        if c < last {
                            assert(comps@[c] == old_comps[c]);
                        }
                    };
                    assert(holds(comp@, s)) by {
                        assert(comp@[0] as int == s);
                    };
                    assert(assigned@[s]);
                }
            }
            seed = seed + 1;
        }
        proof {
            let cs = groups(comps@);
            assert forall|c: int, v: int|
                0 <= c < cs.len() && 0 <= v < a.len() && #[trigger] reachable(a, cs[c][0] as int, v)
                implies holds(cs[c], v) by {
                assert(reachable(a, comps@[c]@[0] as int, v));
            };
            assert forall|v: int| 0 <= v < a.len() implies #[trigger] held(cs, v) by {
                assert(assigned@[v]);
            };
        }
        comps
    }

    /// The largest connected component of an undirected graph, the first one
    /// found among those of the greatest size; empty when the graph has no node.
    pub fn largest_component_indices(&self) -> (r: Vec<usize>)
        requires
            self.wf(),
            !self.directed,
        ensures
            exists|comps: Seq<Seq<usize>>|
                #[trigger] is_component_split(self.adj(), comps) && (comps.len() == 0 ==> r@.len() == 0)
                    && (comps.len() > 0 ==> comps.contains(r@)) && forall|c: int|
                    0 <= c < comps.len() ==> comps[c].len() <= r@.len(),
            self.node_total() == 0 <==> r@.len() == 0,
    {
        let mut comps = self.component_indices();
        let ghost cs = groups(comps@);
        if comps.len() == 0 {
            proof {
                if self.node_total() > 0 {
                    assert(held(cs, 0));
                }
            }
            return Vec::new();
        }
        let mut best: usize = 0;
        let mut c: usize = 1;
        while c < comps.len()
            invariant
                cs == groups(comps@),
                1 <= c <= comps@.len(),
                best < comps@.len(),
                forall|k: int| 0 <= k < c ==> comps@[k]@.len() <= comps@[best as int]@.len(),
            decreases comps@.len() - c,
        {
            if comps[c].len() > comps[best].len() {
                best = c;
            }
            c = c + 1;
        }
        let ghost before = comps@;
        let r = comps.swap_remove(best);
        proof {
            assert(cs[best as int] == r@);
            assert(cs.contains(r@));
            assert forall|k: int| 0 <= k < cs.len() implies cs[k].len() <= r@.len() by {
                assert(cs[k] == before[k]@);
            };
            assert(cs[best as int].len() > 0);
            if self.node_total() == 0 {
                assert(cs[0][0] < 0);
            }
        }
        r
    }
    /// The connected components of an undirected graph, as lists of labels.
    pub fn connected_components(&self) -> (r: Vec<Vec<String>>)
        requires
            self.wf(),
            !self.directed,
        ensures
            exists|comps: Seq<Seq<usize>>|
                #[trigger] is_component_split(self.adj(), comps) && r@.len() == comps.len() && forall|c: int|
                    0 <= c < comps.len() ==> #[trigger] r@[c]@.len() == comps[c].len() && forall|i: int|
                        0 <= i < comps[c].len() ==> #[trigger] r@[c]@[i]@ == self.label_view()[comps[c][i] as int],
    {
        let comps = self.component_indices();
        let ghost cs = groups(comps@);
        let mut r: Vec<Vec<String>> = Vec::new();
        let mut c: usize = 0;
        while c < comps.len()
            invariant
                self.wf(),
                cs == groups(comps@),
                is_component_split(self.adj(), cs),
                c <= comps@.len(),
                r@.len() == c,
                forall|k: int|
                    0 <= k < c ==> #[trigger] r@[k]@.len() == cs[k].len() && forall|i: int|
                        0 <= i < cs[k].len() ==> #[trigger] r@[k]@[i]@ == self.label_view()[cs[k][i] as int],
            decreases comps@.len() - c,
        {
            proof {
                assert forall|i: int| 0 <= i < comps@[c as int]@.len() implies (comps@[c as int]@[i] as int) < self.node_total() by {
                    assert(cs[c as int][i] == comps@[c as int]@[i]);
                };
            }
            let names = self.labels_of(&comps[c]);
            r.push(names);
            proof {
                assert(cs[c as int] == comps@[c as int]@);
            }
            c = c + 1;
        }
        r
    }

    /// The labels of the largest connected component of an undirected graph.
    pub fn largest_component(&self) -> (r: Vec<String>)
        requires
            self.wf(),
            !self.directed,
        ensures
            self.node_total() > 0 ==> exists|comps: Seq<Seq<usize>>, k: int|
                #![trigger is_component_split(self.adj(), comps), comps[k]]
                is_component_split(self.adj(), comps) && 0 <= k < comps.len() && r@.len()
                    == comps[k].len() && (forall|c: int| 0 <= c < comps.len() ==> comps[c].len() <= comps[k].len())
                    && forall|i: int| 0 <= i < comps[k].len() ==> #[trigger] r@[i]@ == self.label_view()[comps[k][i] as int],
            self.node_total() == 0 <==> r@.len() == 0,
    {
        let nodes = self.largest_component_indices();
        let ghost comps = choose|comps: Seq<Seq<usize>>|
            #[trigger] is_component_split(self.adj(), comps) && (comps.len() == 0 ==> nodes@.len() == 0)
                && (comps.len() > 0 ==> comps.contains(nodes@)) && forall|c: int|
                0 <= c < comps.len() ==> comps[c].len() <= nodes@.len();
        if nodes.len() == 0 {
            return Vec::new();
        }
        let ghost k = choose|k: int| 0 <= k < comps.len() && comps[k] == nodes@;
        proof {
            assert forall|i: int| 0 <= i < nodes@.len() implies (nodes@[i] as int) < self.node_total() by {
                assert(comps[k][i] == nodes@[i]);
            };
        }
        let r = self.labels_of(&nodes);
        proof {
            assert(is_component_split(self.adj(), comps) && comps[k] == nodes@);
        }
        r
    }
}

} // verus!
