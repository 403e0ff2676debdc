use vstd::prelude::*;

use crate::graph::{connected, deg, edge_deg, has_edge, is_path, joined, npair, spec_hamiltonian,
    two_regular};
use crate::perturb::{all_zero, is_tvec, mutated, repairable};
use crate::ring::{pred_label, ring_pair, ring_seq, succ_label};
use crate::candidates::cand_ok;
use crate::search::{lemma_first_diff, lex_less, search_outcome, search_witness, valid_prefix};

verus! {

/// A node that no listed edge touches has degree zero.
proof fn lemma_deg_zero(es: Seq<(usize, usize)>, v: usize)
    requires
        forall|t: int| 0 <= t < es.len() ==> edge_deg(#[trigger] es[t], v) == 0,
    ensures
        deg(es, v) == 0,
    decreases es.len(),
{
    if es.len() > 0 {
        assert(forall|t: int|
            0 <= t < es.drop_last().len() ==> edge_deg(#[trigger] es.drop_last()[t], v) == 0);
        lemma_deg_zero(es.drop_last(), v);
    }
}

/// A node touched exactly once, at index `j1`, has degree one.
proof fn lemma_deg_one(es: Seq<(usize, usize)>, v: usize, j1: int)
    requires
        0 <= j1 < es.len(),
        edge_deg(es[j1], v) == 1,
        forall|t: int| 0 <= t < es.len() && t != j1 ==> edge_deg(#[trigger] es[t], v) == 0,
    ensures
        deg(es, v) == 1,
    decreases es.len(),
{
    if j1 == es.len() - 1 {
        assert(forall|t: int|
            0 <= t < es.drop_last().len() ==> edge_deg(#[trigger] es.drop_last()[t], v) == 0);
        lemma_deg_zero(es.drop_last(), v);
    } else {
        assert(forall|t: int|
            0 <= t < es.drop_last().len() && t != j1 ==> edge_deg(#[trigger] es.drop_last()[t], v)
                == 0);
        lemma_deg_one(es.drop_last(), v, j1);
    }
}

/// A node touched exactly twice, once each at indices `j1 < j2`, has degree
/// two.
proof fn lemma_deg_two(es: Seq<(usize, usize)>, v: usize, j1: int, j2: int)
    requires
        0 <= j1 < j2 < es.len(),
        edge_deg(es[j1], v) == 1,
        edge_deg(es[j2], v) == 1,
        forall|t: int|
            0 <= t < es.len() && t != j1 && t != j2 ==> edge_deg(#[trigger] es[t], v) == 0,
    ensures
        deg(es, v) == 2,
    decreases es.len(),
{
    if j2 == es.len() - 1 {
        assert(forall|t: int|
            0 <= t < es.drop_last().len() && t != j1 ==> edge_deg(#[trigger] es.drop_last()[t], v)
                == 0);
        lemma_deg_one(es.drop_last(), v, j1);
    } else {
        assert(forall|t: int|
            0 <= t < es.drop_last().len() && t != j1 && t != j2 ==> edge_deg(
                #[trigger] es.drop_last()[t],
                v,
            ) == 0);
        lemma_deg_two(es.drop_last(), v, j1, j2);
    }
}

/// Every node of the base ring has degree exactly two: its edges to its
/// predecessor and to its successor, and no others.
pub proof fn lemma_ring_two_regular(n: usize)
    requires
        3 <= n,
    ensures
        two_regular(n, ring_seq(n)),
{
    let es = ring_seq(n);
    assert forall|v: usize| v < n implies deg(es, v) == 2 by {
        let p = pred_label(n, v) as int;
        let vi = v as int;
        let j1 = if vi < p {
            vi
        } else {
            p
        };
        let j2 = if vi < p {
            p
        } else {
            vi
        };
        assert(es[vi] == ring_pair(n, vi));
        assert(es[p] == ring_pair(n, p));
        assert(succ_label(n, pred_label(n, v)) == v);
        assert(edge_deg(es[vi], v) == 1);
        assert(edge_deg(es[p], v) == 1);
        assert forall|t: int|
            0 <= t < es.len() && t != j1 && t != j2 implies edge_deg(#[trigger] es[t], v) == 0 by {
            assert(es[t] == ring_pair(n, t));
            assert(t != vi && t != p);
            assert(succ_label(n, t as usize) == v ==> t == p);
        }
        lemma_deg_two(es, v, j1, j2);
    }
}

/// Every two nodes of the base ring are joined by a walk: follow the ring
/// forward from one to the other.
pub proof fn lemma_ring_connected(n: usize)
    requires
        3 <= n,
    ensures
        connected(n, ring_seq(n)),
{
    let es = ring_seq(n);
    assert forall|a: usize, b: usize| a < n && b < n implies #[trigger] joined(es, a, b) by {
        let d = if b >= a {
            (b - a) as int
        } else {
            (b + n - a) as int
        };
        let p = Seq::<usize>::new(
            (d + 1) as nat,
            |t: int|
                (if a + t < n {
                    a + t
                } else {
                    a + t - n
                }) as usize,
        );
        assert(p.first() == a);
        assert(p.last() == b);
        assert forall|t: int| 0 <= t < p.len() - 1 implies has_edge(es, #[trigger] p[t], p[t + 1]) by {
            let w = p[t];
            assert(w < n);
            assert(p[t + 1] == succ_label(n, w));
            assert(es[w as int] == npair(w, succ_label(n, w)));
            assert(es.contains(npair(w, succ_label(n, w))));
        }
        assert(is_path(es, p));
        assert(joined(es, a, b));
    }
}

/// The canonical base ring of any `n >= 3` is a single Hamiltonian cycle.
pub proof fn lemma_base_ring_is_hamiltonian(n: usize)
    requires
        3 <= n,
    ensures
        spec_hamiltonian(n, ring_seq(n)),
{
    lemma_ring_two_regular(n);
    lemma_ring_connected(n);
}

/// For `n >= 4` every position admits at least one candidate label: the
/// node two steps around the ring.  Only for `n == 3` does the candidate
/// set collapse to nothing.
pub proof fn lemma_candidates_nonempty(n: usize, i: usize)
    requires
        4 <= n,
        i < n,
    ensures
        exists|v: usize| #[trigger] cand_ok(n, i, v),
{
    let v = if i + 2 < n {
        (i + 2) as usize
    } else {
        (i + 2 - n) as usize
    };
    assert(cand_ok(n, i, v));
}

/// A sequence splits into the parts before and after any cut.
proof fn lemma_split_at(s: Seq<usize>, k: int)
    requires
        0 <= k <= s.len(),
    ensures
        s == s.subrange(0, k) + s.subrange(k, s.len() as int),
{
    assert(s =~= s.subrange(0, k) + s.subrange(k, s.len() as int));
}

/// The search is a pure function of its arguments: any two results that
/// both meet the search contract for the same `(n, k, suffix)` are equal.
/// The witness, when there is one, is the unique first witness in
/// lexicographic order.
pub proof fn lemma_search_deterministic(
    n: usize,
    k: usize,
    suffix: Seq<usize>,
    r1: Option<Seq<usize>>,
    r2: Option<Seq<usize>>,
)
    requires
        k <= n,
        search_outcome(n, k, suffix, r1),
        search_outcome(n, k, suffix, r2),
    ensures
        r1 == r2,
{
    match (r1, r2) {
        (Some(s1), Some(s2)) => {
            let p1 = s1.subrange(0, k as int);
            let p2 = s2.subrange(0, k as int);
            lemma_split_at(s1, k as int);
            lemma_split_at(s2, k as int);
            if p1 == p2 {
                assert(s1 == s2);
            } else {
                lemma_first_diff(p1, p2);
                let i = choose|i: int|
                    #![trigger p1[i], p2[i]]
                    0 <= i < p1.len() && p1[i] != p2[i] && (forall|j: int|
                        0 <= j < i ==> p1[j] == p2[j]);
                if p1[i] < p2[i] {
                    assert(lex_less(p1, p2));
                    assert(repairable(n, p1 + suffix));
                    assert(false);
                } else {
                    assert(lex_less(p2, p1));
                    assert(repairable(n, p2 + suffix));
                    assert(false);
                }
            }
        },
        (Some(s1), None) => {
            let p1 = s1.subrange(0, k as int);
            lemma_split_at(s1, k as int);
            assert(valid_prefix(n, k, p1));
            assert(repairable(n, p1 + suffix));
            assert(false);
        },
        (None, Some(s2)) => {
            let p2 = s2.subrange(0, k as int);
            lemma_split_at(s2, k as int);
            assert(valid_prefix(n, k, p2));
            assert(repairable(n, p2 + suffix));
            assert(false);
        },
        (None, None) => {},
    }
}

/// With no free positions the outer search space is the fixed suffix alone:
/// the search returns it as the witness exactly when its full perturbation
/// space holds no repair, and "no witness" otherwise.
pub proof fn lemma_no_free_positions(n: usize, suffix: Seq<usize>, r: Option<Seq<usize>>)
    requires
        suffix.len() == n,
        search_outcome(n, 0, suffix, r),
    ensures
        repairable(n, suffix) ==> r is None,
        !repairable(n, suffix) ==> r == Some(suffix),
{
    let empty = Seq::<usize>::empty();
    assert(valid_prefix(n, 0, empty));
    assert(empty + suffix =~= suffix);
    match r {
        Some(s) => {
            lemma_split_at(s, 0);
            assert(s.subrange(0, 0) =~= empty);
            assert(s =~= suffix);
            assert(!repairable(n, suffix));
        },
        None => {
            assert(repairable(n, empty + suffix));
            assert(repairable(n, suffix));
        },
    }
}

/// The witness property, checkable independently of the search: for a
/// returned witness assignment, every nonzero perturbation vector fails to
/// turn the rewired ring into a Hamiltonian cycle.
pub proof fn lemma_witness_admits_no_repair(
    n: usize,
    k: usize,
    suffix: Seq<usize>,
    sigma: Seq<usize>,
    e: Seq<i8>,
)
    requires
        search_witness(n, k, suffix, sigma),
        is_tvec(n, e),
        !all_zero(e),
    ensures
        !spec_hamiltonian(n, mutated(n, sigma, e)),
{
    if spec_hamiltonian(n, mutated(n, sigma, e)) {
        assert(repairable(n, sigma));
        assert(false);
    }
}

} // verus!
