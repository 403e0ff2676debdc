use vstd::prelude::*;

use crate::graph::{npair, spec_from_list, spec_insert, graph_from_edges, UGraph};

verus! {

/// The ring predecessor `(i - 1) mod n` of a label `i < n`, written without
/// subtraction below zero.
pub open spec fn pred_label(n: usize, i: usize) -> usize {
    if i == 0 {
        (n - 1) as usize
    } else {
        (i - 1) as usize
    }
}

/// The ring successor `(i + 1) mod n` of a label `i < n`.
pub open spec fn succ_label(n: usize, i: usize) -> usize {
    if i + 1 == n {
        0
    } else {
        (i + 1) as usize
    }
}

/// Runtime computation of `pred_label`, avoiding underflow at label `0`.
pub fn pred_of(n: usize, i: usize) -> (r: usize)
    requires
        i < n,
    ensures
        r == pred_label(n, i),
{
    if i == 0 {
        n - 1
    } else {
        i - 1
    }
}

/// Runtime computation of `succ_label`.
pub fn succ_of(n: usize, i: usize) -> (r: usize)
    requires
        i < n,
    ensures
        r == succ_label(n, i),
{
    if i + 1 == n {
        0
    } else {
        i + 1
    }
}

/// The stored pair of the ring edge that joins label `j` to its successor.
pub open spec fn ring_pair(n: usize, j: int) -> (usize, usize) {
    npair(j as usize, succ_label(n, j as usize))
}

/// The canonical edge list of the base ring on `n` nodes: one edge from each
/// label to its successor, `n` edges in all.
pub open spec fn ring_seq(n: usize) -> Seq<(usize, usize)> {
    Seq::new(n as nat, |j: int| ring_pair(n, j))
}

/// Two distinct positions of the ring give distinct stored pairs.
pub proof fn lemma_ring_pairs_distinct(n: usize, s: int, t: int)
    requires
        3 <= n,
        0 <= s < t < n,
    ensures
        ring_pair(n, s) != ring_pair(n, t),
{
    if t < n - 1 {
        assert(ring_pair(n, s).0 == s && ring_pair(n, t).0 == t);
    } else {
        assert(ring_pair(n, t) == (0usize, (n - 1) as usize));
        if s == 0 {
            assert(ring_pair(n, s) == (0usize, 1usize));
        } else {
            assert(ring_pair(n, s).0 == s);
        }
    }
}

/// The raw endpoint list `(j, (j + 1) mod n)` for `j` in `0..n`.
fn ring_edge_list(n: usize) -> (el: Vec<(usize, usize)>)
    requires
        1 <= n,
    ensures
        el@.len() == n,
        forall|j: int|
            0 <= j < n ==> #[trigger] el@[j] == (j as usize, succ_label(n, j as usize)),
{
    let mut el: Vec<(usize, usize)> = Vec::new();
    let mut j: usize = 0;
    while j < n
        invariant
            j <= n,
            el@.len() == j,
            forall|t: int|
                0 <= t < j ==> #[trigger] el@[t] == (t as usize, succ_label(n, t as usize)),
        decreases n - j,
    {
        let s = succ_of(n, j);
        el.push((j, s));
        j += 1;
    }
    el
}

/// Inserting the raw ring edges one after the other yields exactly the
/// canonical ring list: every pair is new when it is inserted.
proof fn lemma_from_list_ring(n: usize, el: Seq<(usize, usize)>, i: int)
    requires
        3 <= n,
        el.len() == n,
        forall|j: int| 0 <= j < n ==> #[trigger] el[j] == (j as usize, succ_label(n, j as usize)),
        0 <= i <= n,
    ensures
        spec_from_list(el, i) == ring_seq(n).subrange(0, i),
    decreases i,
{
    if i > 0 {
        lemma_from_list_ring(n, el, i - 1);
        let prev = ring_seq(n).subrange(0, i - 1);
        assert(npair(el[i - 1].0, el[i - 1].1) == ring_pair(n, i - 1));
        assert(!prev.contains(ring_pair(n, i - 1))) by {
            if prev.contains(ring_pair(n, i - 1)) {
                let t = choose|t: int| 0 <= t < prev.len() && prev[t] == ring_pair(n, i - 1);
                lemma_ring_pairs_distinct(n, t, i - 1);
            }
        }
        assert(spec_from_list(el, i) == spec_insert(prev, el[i - 1].0, el[i - 1].1));
        assert(prev.push(ring_pair(n, i - 1)) =~= ring_seq(n).subrange(0, i));
    } else {
        assert(spec_from_list(el, 0) =~= ring_seq(n).subrange(0, 0));
    }
}

/// Constructs the canonical base ring: nodes `0..n` and exactly the `n`
/// edges that join consecutive labels modulo `n`.
pub fn build_ring(n: usize) -> (g: UGraph)
    requires
        3 <= n,
    ensures
        g.wf(),
        g.n == n,
        g.edges@ == ring_seq(n),
{
    let el = ring_edge_list(n);
    let g = graph_from_edges(n, &el);
    proof {
        lemma_from_list_ring(n, el@, n as int);
        assert(ring_seq(n).subrange(0, n as int) =~= ring_seq(n));
    }
    g
}

} // verus!
