use vstd::prelude::*;

verus! {

/// An adjacency list: for each node index, its outgoing `(target, weight)` entries.
pub type Adjacency = Seq<Seq<(usize, u32)>>;

/// Whether `s` occurs in `ls`.
pub open spec fn has_label(ls: Seq<Seq<char>>, s: Seq<char>) -> bool {
    exists|i: int| 0 <= i < ls.len() && ls[i] == s
}

/// The index at which `s` occurs in `ls`, or -1 when it does not occur.
pub open spec fn label_index(ls: Seq<Seq<char>>, s: Seq<char>) -> int {
    if has_label(ls, s) {
        choose|i: int| 0 <= i < ls.len() && ls[i] == s
    } else {
        -1
    }
}

/// `ls` with `s` appended unless it is already there.
pub open spec fn with_label(ls: Seq<Seq<char>>, s: Seq<char>) -> Seq<Seq<char>> {
    if has_label(ls, s) {
        ls
    } else {
        ls.push(s)
    }
}

/// No label occurs twice.
pub open spec fn labels_distinct(ls: Seq<Seq<char>>) -> bool {
    forall|i: int, j: int| 0 <= i < ls.len() && 0 <= j < ls.len() && i != j ==> ls[i] != ls[j]
}

/// `a` grown with empty entry lists up to `n` nodes.
pub open spec fn grown(a: Adjacency, n: nat) -> Adjacency {
    Seq::new(n, |v: int| if v < a.len() { a[v] } else { Seq::empty() })
}

/// `a` with the entry `(v, w)` appended to the list of `u`.
pub open spec fn with_arc(a: Adjacency, u: int, v: usize, w: u32) -> Adjacency {
    a.update(u, a[u].push((v, w)))
}

/// The number of entries over all lists of `a`.
pub open spec fn arc_total(a: Adjacency) -> nat
    decreases a.len(),
{
    if a.len() == 0 {
        0
    } else {
        arc_total(a.drop_last()) + a.last().len()
    }
}

/// Every target of `a` is a node of `a`.
pub open spec fn targets_in_range(a: Adjacency) -> bool {
    forall|u: int, i: int| 0 <= u < a.len() && 0 <= i < a[u].len() ==> (a[u][i].0 as int) < a.len()
}

/// `a` holds, for each entry `(v, w)` in the list of `u`, an entry `(u, w)` in the list of `v`.
pub open spec fn is_mirrored(a: Adjacency) -> bool {
    forall|u: int, i: int|
        0 <= u < a.len() && 0 <= i < a[u].len() ==> #[trigger] has_arc(a, a[u][i].0 as int, u)
}

/// Some entry of `u`'s list points to `v`.
pub open spec fn has_arc(a: Adjacency, u: int, v: int) -> bool {
    0 <= u < a.len() && exists|i: int| 0 <= i < a[u].len() && a[u][i].0 as int == v
}

/// Labels and adjacency after inserting the edge `from -> to` with weight `w`.
pub open spec fn after_edge(
    ls: Seq<Seq<char>>,
    a: Adjacency,
    directed: bool,
    from: Seq<char>,
    to: Seq<char>,
    w: u32,
) -> (Seq<Seq<char>>, Adjacency) {
    let ls2 = with_label(with_label(ls, from), to);
    let fi = label_index(ls2, from);
    let ti = label_index(ls2, to);
    let a1 = with_arc(grown(a, ls2.len()), fi, ti as usize, w);
    (ls2, if directed { a1 } else { with_arc(a1, ti, fi as usize, w) })
}

/// With distinct labels, the index of a label is where it stands.
pub proof fn lemma_label_index(ls: Seq<Seq<char>>, i: int)
    requires
        labels_distinct(ls),
        0 <= i < ls.len(),
    ensures
        label_index(ls, ls[i]) == i,
{
    assert(has_label(ls, ls[i]));
}

proof fn lemma_arc_total_with_arc(a: Adjacency, u: int, v: usize, w: u32)
    requires
        0 <= u < a.len(),
    ensures
        arc_total(with_arc(a, u, v, w)) == arc_total(a) + 1,
    decreases a.len(),
{
    let b = with_arc(a, u, v, w);
    if u == a.len() - 1 {
        assert(b.drop_last() =~= a.drop_last());
    } else {
        lemma_arc_total_with_arc(a.drop_last(), u, v, w);
        assert(b.drop_last() =~= with_arc(a.drop_last(), u, v, w));
    }
}

proof fn lemma_has_arc_kept(a: Adjacency, u: int, v: usize, w: u32, x: int, y: int)
    requires
        0 <= u < a.len(),
        has_arc(a, x, y),
    ensures
        has_arc(with_arc(a, u, v, w), x, y),
{
    let k = choose|k: int| 0 <= k < a[x].len() && a[x][k].0 as int == y;
    assert(with_arc(a, u, v, w)[x][k] == a[x][k]);
}

/// Labels and adjacency of the graph, directed or not, holding one edge per
/// triple `(from, to, weight)` of `es`, inserted in order.
pub open spec fn built_from(es: Seq<(String, String, u32)>, directed: bool) -> (Seq<Seq<char>>, Adjacency)
    decreases es.len(),
{
    if es.len() == 0 {
        (Seq::empty(), Seq::empty())
    } else {
        let prev = built_from(es.drop_last(), directed);
        let e = es.last();
        after_edge(prev.0, prev.1, directed, e.0@, e.1@, e.2)
    }
}

/// A multigraph over nodes `0..labels.len()`, each named by a distinct label.
/// In undirected mode every inserted edge is also stored in the reverse direction.
pub struct Graph {
    pub labels: Vec<String>,
    pub adjacency: Vec<Vec<(usize, u32)>>,
    pub directed: bool,
    /// How many edges were inserted.
    pub inserted: Ghost<nat>,
}

impl Graph {
    pub open spec fn label_view(&self) -> Seq<Seq<char>> {
        self.labels@.map_values(|s: String| s@)
    }

    pub open spec fn adj(&self) -> Adjacency {
        self.adjacency@.map_values(|l: Vec<(usize, u32)>| l@)
    }

    pub open spec fn node_total(&self) -> nat {
        self.labels@.len()
    }

    /// Entries stored per inserted edge.
    pub open spec fn arcs_per_edge(&self) -> nat {
        if self.directed { 1 } else { 2 }
    }

    pub open spec fn wf(&self) -> bool {
        &&& self.adjacency@.len() == self.labels@.len()
        &&& labels_distinct(self.label_view())
        &&& targets_in_range(self.adj())
        &&& !self.directed ==> is_mirrored(self.adj())
        &&& arc_total(self.adj()) == self.arcs_per_edge() * self.inserted@
    }

    /// An empty undirected graph.
    pub fn new() -> (g: Graph)
        ensures
            g.wf(),
            !g.directed,
            g.node_total() == 0,
            g.inserted@ == 0,
    {
        Graph::with_direction(false)
    }

    /// An empty graph, directed or undirected.
    pub fn with_direction(directed: bool) -> (g: Graph)
        ensures
            g.wf(),
            g.directed == directed,
            g.node_total() == 0,
            g.inserted@ == 0,
    {
        let g = Graph { labels: Vec::new(), adjacency: Vec::new(), directed, inserted: Ghost(0) };
        assert(g.adj() =~= Seq::<Seq<(usize, u32)>>::empty());
        g
    }

    /// The graph holding one edge per triple `(from, to, weight)` of `edges`.
    pub fn build(edges: &Vec<(String, String, u32)>, directed: bool) -> (g: Graph)
        ensures
            g.wf(),
            g.directed == directed,
            g.inserted@ == edges@.len(),
            (g.label_view(), g.adj()) == built_from(edges@, directed),
    {
        let mut g = Graph::with_direction(directed);
        let mut i: usize = 0;
        proof {
            assert(g.label_view() =~= Seq::<Seq<char>>::empty());
            assert(g.adj() =~= Seq::<Seq<(usize, u32)>>::empty());
        }
        while i < edges.len()
            invariant
                i <= edges@.len(),
                g.wf(),
                g.directed == directed,
                g.inserted@ == i,
                (g.label_view(), g.adj()) == built_from(edges@.subrange(0, i as int), directed),
            decreases edges@.len() - i,
        {
            let e = &edges[i];
            g.add_edge(e.0.as_str(), e.1.as_str(), e.2);
            proof {
                let es = edges@.subrange(0, i + 1);
                assert(es.drop_last() =~= edges@.subrange(0, i as int));
            }
            i = i + 1;
        }
        proof {
            assert(edges@.subrange(0, edges@.len() as int) =~= edges@);
        }
        g
    }

    /// The number of nodes.
    pub fn node_count(&self) -> (n: usize)
        ensures
            n == self.node_total(),
    {
        self.labels.len()
    }

    /// The index of the node named `label`, if there is one.
    pub fn node_index(&self, label: &str) -> (r: Option<usize>)
        requires
            self.wf(),
        ensures
            r is Some <==> has_label(self.label_view(), label@),
            r is Some ==> r->0 as int == label_index(self.label_view(), label@),
    {
        let key = label.to_owned();
        let mut i: usize = 0;
        while i < self.labels.len()
            invariant
                i <= self.labels@.len(),
                self.wf(),
                key@ == label@,
                forall|j: int| 0 <= j < i ==> self.label_view()[j] != label@,
            decreases self.labels@.len() - i,
        {
            if self.labels[i] == key {
                let ghost ls = self.label_view();
                assert(ls[i as int] == label@);
                assert(has_label(ls, label@));
                return Some(i);
            }
            i = i + 1;
        }
        None
    }

    /// Inserts the edge `from -> to` with `weight`, creating either node when it
    /// is new; in undirected mode the reverse entry `to -> from` is stored too.
    /// Earlier edges are kept, duplicates included.
    pub fn add_edge(&mut self, from: &str, to: &str, weight: u32)
        requires
            old(self).wf(),
        ensures
            final(self).wf(),
            final(self).directed == old(self).directed,
            final(self).inserted@ == old(self).inserted@ + 1,
            (final(self).label_view(), final(self).adj()) == after_edge(
                old(self).label_view(),
                old(self).adj(),
                old(self).directed,
                from@,
                to@,
                weight,
            ),
    {
        let ghost a_old = self.adj();
        let fi = self.ensure_node(from);
        let ghost ls1 = self.label_view();
        let ti = self.ensure_node(to);
        let ghost ls = self.label_view();
        let ghost a0 = self.adj();
        proof {
            assert(ls1[fi as int] == from@);
            if !has_label(ls1, to@) {
                assert(ls[fi as int] == ls1[fi as int]);
            }
            assert(ls[fi as int] == from@);
            lemma_label_index(ls, fi as int);
            assert(grown(grown(a_old, ls1.len()), ls.len()) =~= grown(a_old, ls.len()));
        }
        self.adjacency[fi].push((ti, weight));
        let ghost a1 = self.adj();
        proof {
            assert(a1 =~= with_arc(a0, fi as int, ti, weight));
            lemma_arc_total_with_arc(a0, fi as int, ti, weight);
        }
        if !self.directed {
            self.adjacency[ti].push((fi, weight));
            let ghost a2 = self.adj();
            proof {
                assert(a2 =~= with_arc(a1, ti as int, fi, weight));
                lemma_arc_total_with_arc(a1, ti as int, fi, weight);
                assert forall|u: int, i: int| 0 <= u < a2.len() && 0 <= i < a2[u].len() implies
                    #[trigger] has_arc(a2, a2[u][i].0 as int, u) by {
                    if u == fi && i == a0[u].len() {
                        assert(a2[ti as int][a1[ti as int].len() as int].0 == fi);
                    } else if u == ti && i == a1[u].len() {
                        assert(a1[fi as int][a0[fi as int].len() as int].0 == ti);
                        lemma_has_arc_kept(a1, ti as int, fi, weight, fi as int, ti as int);
                    } else {
                        assert(a2[u][i] == a0[u][i]);
                        lemma_has_arc_kept(a0, fi as int, ti, weight, a0[u][i].0 as int, u);
                        lemma_has_arc_kept(a1, ti as int, fi, weight, a0[u][i].0 as int, u);
                    }
                };
            }
        }
        self.inserted = Ghost(self.inserted@ + 1);
        proof {
            let k = self.inserted@;
            let m = self.arcs_per_edge();
            assert(m * k == m * (k - 1) + m) by (nonlinear_arith);
        }
    }

    /// The number of outgoing entries of the node named `label`; 0 for an unknown label.
    pub fn degree(&self, label: &str) -> (d: usize)
        requires
            self.wf(),
        ensures
            has_label(self.label_view(), label@) ==> d == self.adj()[label_index(self.label_view(), label@)].len(),
            !has_label(self.label_view(), label@) ==> d == 0,
    {
        match self.node_index(label) {
            Some(i) => self.adjacency[i].len(),
            None => 0,
        }
    }

    /// The outgoing `(target, weight)` entries of the node named `label`, in
    /// insertion order; empty for an unknown label.
    pub fn neighbors(&self, label: &str) -> (r: Vec<(usize, u32)>)
        requires
            self.wf(),
        ensures
            has_label(self.label_view(), label@) ==> r@ == self.adj()[label_index(self.label_view(), label@)],
            !has_label(self.label_view(), label@) ==> r@.len() == 0,
    {
        let mut r: Vec<(usize, u32)> = Vec::new();
        match self.node_index(label) {
            Some(u) => {
                let mut j: usize = 0;
                while j < self.adjacency[u].len()
                    invariant
                        self.wf(),
                        u < self.adjacency@.len(),
                        j <= self.adjacency@[u as int]@.len(),
                        r@ == self.adjacency@[u as int]@.subrange(0, j as int),
                    decreases self.adjacency@[u as int]@.len() - j,
                {
                    r.push(self.adjacency[u][j]);
                    proof {
                        assert(r@ =~= self.adjacency@[u as int]@.subrange(0, j + 1));
                    }
                    j = j + 1;
                }
                proof {
                    assert(r@ =~= self.adjacency@[u as int]@);
                }
            },
            None => {},
        }
        r
    }

    /// The labels of `nodes`, in the same order.
    pub fn labels_of(&self, nodes: &Vec<usize>) -> (r: Vec<String>)
        requires
            self.wf(),
            forall|i: int| 0 <= i < nodes@.len() ==> (nodes@[i] as int) < self.node_total(),
        ensures
            r@.len() == nodes@.len(),
            forall|i: int| 0 <= i < nodes@.len() ==> #[trigger] r@[i]@ == self.label_view()[nodes@[i] as int],
    {
        let mut r: Vec<String> = Vec::new();
        let mut i: usize = 0;
        while i < nodes.len()
            invariant
                self.wf(),
                i <= nodes@.len(),
                r@.len() == i,
                forall|j: int| 0 <= j < nodes@.len() ==> (nodes@[j] as int) < self.node_total(),
                forall|j: int| 0 <= j < i ==> #[trigger] r@[j]@ == self.label_view()[nodes@[j] as int],
            decreases nodes@.len() - i,
        {
            r.push(self.labels[nodes[i]].clone());
            i = i + 1;
        }
        r
    }

    /// The index of the node named `label`, created when it is new.
    fn ensure_node(&mut self, label: &str) -> (r: usize)
        requires
            old(self).wf(),
        ensures
            final(self).wf(),
            final(self).directed == old(self).directed,
            final(self).inserted == old(self).inserted,
            final(self).label_view() == with_label(old(self).label_view(), label@),
            final(self).adj() == grown(old(self).adj(), final(self).node_total()),
            r as int == label_index(final(self).label_view(), label@),
            r < final(self).node_total(),
    {
        match self.node_index(label) {
            Some(i) => {
                assert(self.adj() =~= grown(self.adj(), self.node_total()));
                i
            },
            None => {
                let ghost old_adj = self.adj();
                let ghost old_ls = self.label_view();
                let n = self.labels.len();
                self.labels.push(label.to_owned());
                self.adjacency.push(Vec::new());
                let ghost ls = self.label_view();
                assert(ls =~= old_ls.push(label@));
                assert(self.adj() =~= grown(old_adj, self.node_total()));
                assert(self.adj() =~= old_adj.push(Seq::empty()));
                assert(arc_total(self.adj().drop_last()) == arc_total(old_adj)) by {
                    assert(self.adj().drop_last() =~= old_adj);
                }
                assert(ls[n as int] == label@);
                assert(has_label(ls, label@));
                assert(label_index(ls, label@) == n as int);
                assert forall|u: int, i: int|
                    !self.directed && 0 <= u < self.adj().len() && 0 <= i < self.adj()[u].len() implies
                    #[trigger] has_arc(self.adj(), self.adj()[u][i].0 as int, u) by {
                    assert(has_arc(old_adj, old_adj[u][i].0 as int, u));
                    let v = old_adj[u][i].0 as int;
                    let k = choose|k: int| 0 <= k < old_adj[v].len() && old_adj[v][k].0 as int == u;
                    assert(self.adj()[v][k] == old_adj[v][k]);
                };
                n
            },
        }
    }
}

} // verus!
