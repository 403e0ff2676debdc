use vstd::prelude::*;

verus! {

/// The stored pair that stands for the undirected edge between `a` and `b`:
/// endpoints are kept in nondecreasing order.
pub open spec fn npair(a: usize, b: usize) -> (usize, usize) {
    if a <= b {
        (a, b)
    } else {
        (b, a)
    }
}

/// Whether the edge list holds the undirected edge between `a` and `b`.
pub open spec fn has_edge(es: Seq<(usize, usize)>, a: usize, b: usize) -> bool {
    es.contains(npair(a, b))
}

/// A stored pair is normalized and keeps its endpoints below `n`.
pub open spec fn edge_wf(e: (usize, usize), n: usize) -> bool {
    e.0 <= e.1 && e.1 < n
}

/// How many endpoints of the single edge `e` equal `v` (a self-loop at `v`
/// counts twice, as usual for graph degrees).
pub open spec fn edge_deg(e: (usize, usize), v: usize) -> nat {
    (if e.0 == v {
        1nat
    } else {
        0nat
    }) + (if e.1 == v {
        1nat
    } else {
        0nat
    })
}

/// The degree of node `v` in the edge list `es`.
pub open spec fn deg(es: Seq<(usize, usize)>, v: usize) -> nat
    decreases es.len(),
{
    if es.len() == 0 {
        0nat
    } else {
        deg(es.drop_last(), v) + edge_deg(es.last(), v)
    }
}

/// Every node label below `n` has degree exactly two.
pub open spec fn two_regular(n: usize, es: Seq<(usize, usize)>) -> bool {
    forall|v: usize| v < n ==> deg(es, v) == 2
}

/// A walk along edges of `es`: consecutive entries are joined by an edge.
pub open spec fn is_path(es: Seq<(usize, usize)>, p: Seq<usize>) -> bool {
    forall|t: int| 0 <= t < p.len() - 1 ==> has_edge(es, #[trigger] p[t], p[t + 1])
}

/// Nodes `a` and `b` are joined by some walk along edges of `es`.
pub open spec fn joined(es: Seq<(usize, usize)>, a: usize, b: usize) -> bool {
    exists|p: Seq<usize>|
        p.len() >= 1 && p.first() == a && p.last() == b && is_path(es, p)
}

/// Every two node labels below `n` are joined by a walk: the graph has a
/// single connected component.
pub open spec fn connected(n: usize, es: Seq<(usize, usize)>) -> bool {
    forall|a: usize, b: usize| a < n && b < n ==> #[trigger] joined(es, a, b)
}

/// The graph is a single cycle through all `n` nodes: it is nonempty, every
/// node has degree exactly two, and the whole graph is one connected
/// component.  Degree two alone would also admit a disjoint union of several
/// short cycles, so the connectivity conjunct is essential.
pub open spec fn spec_hamiltonian(n: usize, es: Seq<(usize, usize)>) -> bool {
    n >= 1 && two_regular(n, es) && connected(n, es)
}

/// An undirected graph over the node labels `0..n`, held as a duplicate-free
/// list of normalized edges.
pub struct UGraph {
    pub n: usize,
    pub edges: Vec<(usize, usize)>,
}

/// Inserting the edge between `a` and `b` into the list: a no-op when the
/// edge is already there, so the graph never holds a duplicate edge.
pub open spec fn spec_insert(es: Seq<(usize, usize)>, a: usize, b: usize) -> Seq<(usize, usize)> {
    if es.contains(npair(a, b)) {
        es
    } else {
        es.push(npair(a, b))
    }
}

/// Removing the first occurrence of the stored pair `p` from the list (under
/// `UGraph::wf` there is at most one).
pub open spec fn spec_remove(es: Seq<(usize, usize)>, p: (usize, usize)) -> Seq<(usize, usize)>
    decreases es.len(),
{
    if es.len() == 0 {
        es
    } else if es.first() == p {
        es.drop_first()
    } else {
        seq![es.first()] + spec_remove(es.drop_first(), p)
    }
}

impl UGraph {
    /// All stored pairs are normalized, keep their endpoints below `n`, and
    /// no pair occurs twice.
    pub open spec fn wf(self) -> bool {
        &&& forall|t: int|
            0 <= t < self.edges@.len() ==> edge_wf(#[trigger] self.edges@[t], self.n)
        &&& forall|s: int, t: int|
            0 <= s < t < self.edges@.len() ==> self.edges@[s] != self.edges@[t]
    }

    /// Whether the graph holds the undirected edge between `a` and `b`.
    pub open spec fn has(self, a: usize, b: usize) -> bool {
        has_edge(self.edges@, a, b)
    }

    /// An empty graph on the node labels `0..n`.
    pub fn new(n: usize) -> (g: UGraph)
        ensures
            g.wf(),
            g.n == n,
            g.edges@ =~= Seq::<(usize, usize)>::empty(),
    {
        UGraph { n, edges: Vec::new() }
    }

    /// Runtime test for `self.has(a, b)`.
    pub fn contains_edge(&self, a: usize, b: usize) -> (r: bool)
        ensures
            r == self.has(a, b),
    {
        let p = if a <= b {
            (a, b)
        } else {
            (b, a)
        };
        match find_pair(&self.edges, p) {
            Some(_) => true,
            None => false,
        }
    }

    /// Adds the edge between `a` and `b` unless it is already present.
    pub fn insert_edge(&mut self, a: usize, b: usize)
        requires
            old(self).wf(),
            a < old(self).n,
            b < old(self).n,
        ensures
            final(self).wf(),
            final(self).n == old(self).n,
            final(self).edges@ == spec_insert(old(self).edges@, a, b),
    {
        let p = if a <= b {
            (a, b)
        } else {
            (b, a)
        };
        match find_pair(&self.edges, p) {
            Some(_) => {},
            None => {
                self.edges.push(p);
                assert forall|s: int, t: int|
                    0 <= s < t < self.edges@.len() implies self.edges@[s] != self.edges@[t] by {
                    if t == self.edges@.len() - 1 {
                        assert(!old(self).edges@.contains(p));
                    }
                }
            },
        }
    }

    /// Removes the edge between `a` and `b` when it is present.
    pub fn remove_edge(&mut self, a: usize, b: usize)
        requires
            old(self).wf(),
        ensures
            final(self).wf(),
            final(self).n == old(self).n,
            final(self).edges@ == spec_remove(old(self).edges@, npair(a, b)),
    {
        let p = if a <= b {
            (a, b)
        } else {
            (b, a)
        };
        match find_pair(&self.edges, p) {
            Some(j) => {
                proof {
                    lemma_spec_remove_at(self.edges@, p, j as int);
                }
                self.edges.remove(j);
                assert forall|t: int|
                    0 <= t < self.edges@.len() implies edge_wf(
                    #[trigger] self.edges@[t],
                    self.n,
                ) by {
                    if t < j {
                        assert(self.edges@[t] == old(self).edges@[t]);
                    } else {
                        assert(self.edges@[t] == old(self).edges@[t + 1]);
                    }
                }
                assert forall|s: int, t: int|
                    0 <= s < t < self.edges@.len() implies self.edges@[s] != self.edges@[t] by {
                    let s0 = if s < j { s } else { s + 1 };
                    let t0 = if t < j { t } else { t + 1 };
                    assert(self.edges@[s] == old(self).edges@[s0]);
                    assert(self.edges@[t] == old(self).edges@[t0]);
                }
            },
            None => {
                proof {
                    lemma_spec_remove_absent(self.edges@, p);
                }
            },
        }
    }
}

/// Finds the index of the first occurrence of the stored pair `p`.
fn find_pair(es: &Vec<(usize, usize)>, p: (usize, usize)) -> (r: Option<usize>)
    ensures
        match r {
            Some(j) => j < es@.len() && es@[j as int] == p && forall|t: int|
                0 <= t < j ==> es@[t] != p,
            None => !es@.contains(p),
        },
{
    let mut j: usize = 0;
    while j < es.len()
        invariant
            j <= es@.len(),
            forall|t: int| 0 <= t < j ==> es@[t] != p,
        decreases es@.len() - j,
    {
        let q = es[j];
        if q.0 == p.0 && q.1 == p.1 {
            return Some(j);
        }
        j += 1;
    }
    None
}

/// Removing the first occurrence of `p`, when it stands at index `j`, drops
/// exactly the entry at `j`.
proof fn lemma_spec_remove_at(es: Seq<(usize, usize)>, p: (usize, usize), j: int)
    requires
        0 <= j < es.len(),
        es[j] == p,
        forall|t: int| 0 <= t < j ==> es[t] != p,
    ensures
        spec_remove(es, p) == es.remove(j),
    decreases j,
{
    if j == 0 {
        assert(spec_remove(es, p) =~= es.remove(0));
    } else {
        lemma_spec_remove_at(es.drop_first(), p, j - 1);
        assert(spec_remove(es, p) =~= es.remove(j));
    }
}

/// Builds a graph over `0..n` from a list of endpoint pairs, inserting each
/// in turn; repeated pairs (in either orientation) are inserted only once.
pub open spec fn spec_from_list(el: Seq<(usize, usize)>, i: int) -> Seq<(usize, usize)>
    decreases i,
{
    if i <= 0 {
        Seq::empty()
    } else {
        spec_insert(spec_from_list(el, i - 1), el[i - 1].0, el[i - 1].1)
    }
}

/// Instantiates a graph from a slice of two-tuples denoting edges.
pub fn graph_from_edges(n: usize, edge_list: &Vec<(usize, usize)>) -> (g: UGraph)
    requires
        forall|t: int|
            0 <= t < edge_list@.len() ==> (#[trigger] edge_list@[t]).0 < n && edge_list@[t].1 < n,
    ensures
        g.wf(),
        g.n == n,
        g.edges@ == spec_from_list(edge_list@, edge_list@.len() as int),
{
    let mut g = UGraph::new(n);
    let mut i: usize = 0;
    while i < edge_list.len()
        invariant
            i <= edge_list@.len(),
            g.wf(),
            g.n == n,
            g.edges@ == spec_from_list(edge_list@, i as int),
            forall|t: int|
                0 <= t < edge_list@.len() ==> (#[trigger] edge_list@[t]).0 < n && edge_list@[t].1
                    < n,
        decreases edge_list@.len() - i,
    {
        let (a, b) = edge_list[i];
        g.insert_edge(a, b);
        i += 1;
    }
    g
}

/// Unrolling `deg` one entry at a time, over prefixes of the list.
proof fn lemma_deg_unroll(es: Seq<(usize, usize)>, v: usize, i: int)
    requires
        0 <= i < es.len(),
    ensures
        deg(es.subrange(0, i + 1), v) == deg(es.subrange(0, i), v) + edge_deg(es[i], v),
{
    let pre = es.subrange(0, i + 1);
    assert(pre.drop_last() =~= es.subrange(0, i));
    assert(pre.last() == es[i]);
}

/// Node `v` is an endpoint of some listed edge.
pub open spec fn touches(es: Seq<(usize, usize)>, v: usize) -> bool {
    exists|t: int| 0 <= t < es.len() && ((#[trigger] es[t]).0 == v || es[t].1 == v)
}

/// A node of positive degree is an endpoint of some listed edge.
proof fn lemma_deg_pos_incident(es: Seq<(usize, usize)>, v: usize)
    requires
        deg(es, v) > 0,
    ensures
        touches(es, v),
    decreases es.len(),
{
    if edge_deg(es.last(), v) > 0 {
        assert(es[es.len() - 1].0 == v || es[es.len() - 1].1 == v);
    } else {
        lemma_deg_pos_incident(es.drop_last(), v);
        let t = choose|t: int|
            0 <= t < es.drop_last().len() && ((#[trigger] es.drop_last()[t]).0 == v
                || es.drop_last()[t].1 == v);
        assert(es[t].0 == v || es[t].1 == v);
    }
}

/// Runtime test for `two_regular`.
pub fn is_two_regular(g: &UGraph) -> (r: bool)
    ensures
        r == two_regular(g.n, g.edges@),
{
    let mut v: usize = 0;
    while v < g.n
        invariant
            v <= g.n,
            forall|w: usize| w < v ==> deg(g.edges@, w) == 2,
        decreases g.n - v,
    {
        // count the incidences of v, giving up as soon as the count passes 2
        let mut c: usize = 0;
        let mut i: usize = 0;
        while i < g.edges.len()
            invariant
                v < g.n,
                i <= g.edges@.len(),
                c <= 2,
                c == deg(g.edges@.subrange(0, i as int), v),
            decreases g.edges@.len() - i,
        {
            let e = g.edges[i];
            proof {
                lemma_deg_unroll(g.edges@, v, i as int);
            }
            if e.0 == v {
                c += 1;
            }
            if e.1 == v {
                c += 1;
            }
            i += 1;
            if c > 2 {
                proof {
                    lemma_deg_prefix_le(g.edges@, v, i as int);
                }
                assert(deg(g.edges@, v) != 2);
                return false;
            }
        }
        assert(g.edges@.subrange(0, g.edges@.len() as int) =~= g.edges@);
        if c != 2 {
            return false;
        }
        v += 1;
    }
    true
}

/// The degree within a prefix of the list is at most the full degree.
proof fn lemma_deg_prefix_le(es: Seq<(usize, usize)>, v: usize, i: int)
    requires
        0 <= i <= es.len(),
    ensures
        deg(es.subrange(0, i), v) <= deg(es, v),
    decreases es.len() - i,
{
    if i < es.len() {
        lemma_deg_unroll(es, v, i);
        lemma_deg_prefix_le(es, v, i + 1);
    } else {
        assert(es.subrange(0, i) =~= es);
    }
}

/// Number of connected components of the graph on nodes `0..n` with the
/// listed edges, counted by petgraph.
///
/// Relies on `petgraph::graph::Graph::from_edges` (builds a graph whose
/// nodes are `0..=max` over the listed endpoints — here exactly `0..n`,
/// since every label below `n` occurs as an endpoint — and whose edges are
/// exactly the listed pairs) and on `petgraph::algo::connected_components`
/// (returns the number of connected components).  That count is `1` exactly
/// when the graph is nonempty and every two nodes are joined by a walk.
/// With `usize` as the index type neither function panics.
#[verifier::external_body]
fn count_components(n: usize, edges: &Vec<(usize, usize)>) -> (r: usize)
    requires
        n >= 1,
        forall|t: int| 0 <= t < edges@.len() ==> (#[trigger] edges@[t]).0 < n && edges@[t].1 < n,
        forall|v: usize| v < n ==> #[trigger] touches(edges@, v),
    ensures
        (r == 1) <==> connected(n, edges@),
{
    let g = petgraph::graph::UnGraph::<(), (), usize>::from_edges(edges.iter().copied());
    petgraph::algo::connected_components(&g)
}

/// Tests whether the graph is a single cycle through all of its nodes:
/// every node has degree exactly two and the graph is one nonempty
/// connected component.
pub fn is_hamiltonian_cycle(g: &UGraph) -> (r: bool)
    requires
        g.wf(),
    ensures
        r == spec_hamiltonian(g.n, g.edges@),
{
    if g.n == 0 {
        return false;
    }
    if !is_two_regular(g) {
        return false;
    }
    proof {
        assert forall|v: usize| v < g.n implies #[trigger] touches(g.edges@, v) by {
            assert(deg(g.edges@, v) == 2);
            lemma_deg_pos_incident(g.edges@, v);
        }
    }
    let c = count_components(g.n, &g.edges);
    c == 1
}

/// Removing a pair that the list does not hold changes nothing.
proof fn lemma_spec_remove_absent(es: Seq<(usize, usize)>, p: (usize, usize))
    requires
        !es.contains(p),
    ensures
        spec_remove(es, p) == es,
    decreases es.len(),
{
    if es.len() > 0 {
        assert(es[0] != p);
        assert(!es.drop_first().contains(p)) by {
            if es.drop_first().contains(p) {
                let t = choose|t: int| 0 <= t < es.drop_first().len() && es.drop_first()[t] == p;
                assert(es[t + 1] == p);
            }
        }
        lemma_spec_remove_absent(es.drop_first(), p);
        assert(spec_remove(es, p) =~= es);
    }
}

} // verus!
