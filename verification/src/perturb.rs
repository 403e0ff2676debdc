use vstd::prelude::*;
use vstd::pervasive::VecAdditionalExecFns;

use crate::graph::{npair, spec_hamiltonian, spec_insert, spec_remove, UGraph, is_hamiltonian_cycle};
use crate::ring::{pred_label, pred_of, ring_seq, succ_label, succ_of, build_ring};

verus! {

/// One step of a perturbation, at position `i`.  A `-1` removes the ring
/// edge towards the predecessor of `i` if it is present, a `+1` removes the
/// ring edge towards the successor of `i` if it is present; in both nonzero
/// cases the candidate edge from `i` to `si` is then inserted.  A `0` leaves
/// the graph alone.
pub open spec fn spec_step(
    es: Seq<(usize, usize)>,
    n: usize,
    i: usize,
    ei: int,
    si: usize,
) -> Seq<(usize, usize)> {
    if ei == 0 {
        es
    } else {
        let removed = if ei == -1 {
            spec_remove(es, npair(i, pred_label(n, i)))
        } else {
            spec_remove(es, npair(i, succ_label(n, i)))
        };
        spec_insert(removed, i, si)
    }
}

/// The working graph after the first `i` positions of perturbation vector
/// `e` have been applied to a fresh copy of the base ring, under candidate
/// assignment `sigma`.
pub open spec fn apply_upto(n: usize, sigma: Seq<usize>, e: Seq<i8>, i: int) -> Seq<(usize, usize)>
    decreases i,
{
    if i <= 0 {
        ring_seq(n)
    } else {
        spec_step(apply_upto(n, sigma, e, i - 1), n, (i - 1) as usize, e[i - 1] as int, sigma[i - 1])
    }
}

/// The graph obtained from the base ring by the whole perturbation vector.
pub open spec fn mutated(n: usize, sigma: Seq<usize>, e: Seq<i8>) -> Seq<(usize, usize)> {
    apply_upto(n, sigma, e, n as int)
}

/// A perturbation vector: one value from `{-1, 0, +1}` per node.
pub open spec fn is_tvec(n: usize, e: Seq<i8>) -> bool {
    e.len() == n && forall|t: int| 0 <= t < e.len() ==> -1 <= #[trigger] e[t] <= 1
}

/// The all-zero vector, which perturbs nothing and is excluded from the
/// enumeration.
pub open spec fn all_zero(e: Seq<i8>) -> bool {
    forall|t: int| 0 <= t < e.len() ==> #[trigger] e[t] == 0
}

/// Some nonzero perturbation vector turns the ring, rewired under `sigma`,
/// back into a single Hamiltonian cycle.
pub open spec fn repairable(n: usize, sigma: Seq<usize>) -> bool {
    exists|e: Seq<i8>|
        is_tvec(n, e) && !all_zero(e) && spec_hamiltonian(n, mutated(n, sigma, e))
}

/// Applies position `i` of a perturbation to the working graph.
pub fn apply_perturbation(g: &mut UGraph, i: usize, ei: i8, si: usize)
    requires
        old(g).wf(),
        i < old(g).n,
        si < old(g).n,
        -1 <= ei <= 1,
    ensures
        final(g).wf(),
        final(g).n == old(g).n,
        final(g).edges@ == spec_step(old(g).edges@, old(g).n, i, ei as int, si),
{
    if ei == 0 {
        return ;
    }
    let other = if ei == -1 {
        pred_of(g.n, i)
    } else {
        succ_of(g.n, i)
    };
    g.remove_edge(i, other);
    g.insert_edge(i, si);
}

/// `3^k`: the number of ternary vectors of length `k`.
pub open spec fn pow3(k: nat) -> nat
    decreases k,
{
    if k == 0 {
        1
    } else {
        3 * pow3((k - 1) as nat)
    }
}

/// The rank of a ternary vector in enumeration order: the base-3 number
/// whose digits are the entries shifted by one, the last entry least
/// significant.
pub open spec fn trank(e: Seq<i8>) -> int
    decreases e.len(),
{
    if e.len() == 0 {
        0
    } else {
        trank(e.drop_last()) * 3 + (e.last() + 1)
    }
}

/// Ranks of ternary vectors lie below `3^len`.
proof fn lemma_trank_bounds(e: Seq<i8>)
    requires
        forall|t: int| 0 <= t < e.len() ==> -1 <= #[trigger] e[t] <= 1,
    ensures
        0 <= trank(e) < pow3(e.len()),
    decreases e.len(),
{
    if e.len() > 0 {
        assert(forall|t: int|
            0 <= t < e.drop_last().len() ==> -1 <= #[trigger] e.drop_last()[t] <= 1);
        lemma_trank_bounds(e.drop_last());
    }
}

/// Rank determines the vector: the enumeration never repeats.
proof fn lemma_trank_injective(a: Seq<i8>, b: Seq<i8>)
    requires
        a.len() == b.len(),
        forall|t: int| 0 <= t < a.len() ==> -1 <= #[trigger] a[t] <= 1,
        forall|t: int| 0 <= t < b.len() ==> -1 <= #[trigger] b[t] <= 1,
        trank(a) == trank(b),
    ensures
        a == b,
    decreases a.len(),
{
    if a.len() == 0 {
        assert(a =~= b);
    } else {
        let da = a.last() + 1;
        let db = b.last() + 1;
        assert(0 <= da <= 2 && 0 <= db <= 2);
        assert(trank(a.drop_last()) * 3 + da == trank(b.drop_last()) * 3 + db);
        assert(da == db && trank(a.drop_last()) == trank(b.drop_last())) by {
            assert(da - db == (trank(b.drop_last()) - trank(a.drop_last())) * 3) by (nonlinear_arith)
                requires
                    trank(a.drop_last()) * 3 + da == trank(b.drop_last()) * 3 + db,
            ;
        }
        assert(forall|t: int|
            0 <= t < a.drop_last().len() ==> -1 <= #[trigger] a.drop_last()[t] <= 1);
        assert(forall|t: int|
            0 <= t < b.drop_last().len() ==> -1 <= #[trigger] b.drop_last()[t] <= 1);
        lemma_trank_injective(a.drop_last(), b.drop_last());
        assert(a =~= a.drop_last().push(a.last()));
        assert(b =~= b.drop_last().push(b.last()));
    }
}

/// The all-minus-ones vector, the first in enumeration order, has rank zero.
proof fn lemma_trank_all_neg(e: Seq<i8>)
    requires
        forall|t: int| 0 <= t < e.len() ==> #[trigger] e[t] == -1,
    ensures
        trank(e) == 0,
    decreases e.len(),
{
    if e.len() > 0 {
        assert(forall|t: int| 0 <= t < e.drop_last().len() ==> #[trigger] e.drop_last()[t] == -1);
        lemma_trank_all_neg(e.drop_last());
    }
}

/// The all-ones vector has the greatest rank.
proof fn lemma_trank_all_ones(e: Seq<i8>)
    requires
        forall|t: int| 0 <= t < e.len() ==> #[trigger] e[t] == 1,
    ensures
        trank(e) == pow3(e.len()) - 1,
    decreases e.len(),
{
    if e.len() > 0 {
        assert(forall|t: int| 0 <= t < e.drop_last().len() ==> #[trigger] e.drop_last()[t] == 1);
        lemma_trank_all_ones(e.drop_last());
    }
}

/// The odometer step raises the rank by exactly one: position `j` grows by
/// one while every later position falls from `1` back to `-1`.
proof fn lemma_trank_step(a: Seq<i8>, b: Seq<i8>, j: int)
    requires
        a.len() == b.len(),
        0 <= j < a.len(),
        b[j] == a[j] + 1,
        forall|t: int| 0 <= t < j ==> a[t] == b[t],
        forall|t: int| j < t < a.len() ==> a[t] == 1,
        forall|t: int| j < t < b.len() ==> b[t] == -1,
    ensures
        trank(b) == trank(a) + 1,
    decreases a.len(),
{
    if j == a.len() - 1 {
        assert(a.drop_last() =~= b.drop_last());
    } else {
        assert(a.last() == 1 && b.last() == -1);
        lemma_trank_step(a.drop_last(), b.drop_last(), j);
    }
}

/// Advances the perturbation vector to its successor in enumeration order.
/// Returns `false` (leaving the vector alone) when the vector is the last
/// one, all ones.
fn next_ternary(e: &mut Vec<i8>) -> (more: bool)
    requires
        forall|t: int| 0 <= t < old(e)@.len() ==> -1 <= #[trigger] old(e)@[t] <= 1,
    ensures
        final(e)@.len() == old(e)@.len(),
        forall|t: int| 0 <= t < final(e)@.len() ==> -1 <= #[trigger] final(e)@[t] <= 1,
        more ==> trank(final(e)@) == trank(old(e)@) + 1,
        !more ==> final(e)@ == old(e)@ && (forall|t: int|
            0 <= t < old(e)@.len() ==> #[trigger] old(e)@[t] == 1),
{
    let n = e.len();
    let mut j: usize = n;
    while j > 0 && e[j - 1] == 1
        invariant
            j <= n,
            n == e@.len(),
            forall|t: int| 0 <= t < e@.len() ==> -1 <= #[trigger] e@[t] <= 1,
            forall|t: int| j <= t < n ==> #[trigger] e@[t] == 1,
        decreases j,
    {
        j -= 1;
    }
    if j == 0 {
        return false;
    }
    let idx = j - 1;
    let ghost before = e@;
    let d = e[idx];
    e.set(idx, d + 1);
    let mut t = idx + 1;
    while t < n
        invariant
            idx < t <= n,
            n == e@.len(),
            e@.len() == before.len(),
            e@[idx as int] == before[idx as int] + 1,
            forall|s: int| 0 <= s < idx ==> e@[s] == before[s],
            forall|s: int| idx < s < t ==> #[trigger] e@[s] == -1,
            forall|s: int| t <= s < n ==> e@[s] == before[s],
            forall|s: int| idx < s < n ==> #[trigger] before[s] == 1,
            forall|s: int| 0 <= s < before.len() ==> -1 <= #[trigger] before[s] <= 1,
            -1 <= before[idx as int] < 1,
        decreases n - t,
    {
        e.set(t, -1i8);
        t += 1;
    }
    assert forall|t2: int| 0 <= t2 < e@.len() implies -1 <= #[trigger] e@[t2] <= 1 by {
        if t2 < idx {
            assert(e@[t2] == before[t2]);
        }
    }
    proof {
        lemma_trank_step(before, e@, idx as int);
    }
    true
}

/// Tests whether some nonzero perturbation vector repairs the candidate
/// assignment `sigma`: whether any local edge swap turns the rewired ring
/// back into a single Hamiltonian cycle.  Every one of the `3^n - 1`
/// nonzero vectors is tried until one succeeds, each on a fresh copy of the
/// base ring.
pub fn candidate_repairable(n: usize, sigma: &Vec<usize>) -> (r: bool)
    requires
        3 <= n,
        sigma@.len() == n,
        forall|t: int| 0 <= t < sigma@.len() ==> #[trigger] sigma@[t] < n,
    ensures
        r == repairable(n, sigma@),
{
    let mut e: Vec<i8> = Vec::new();
    let mut s: usize = 0;
    while s < n
        invariant
            s <= n,
            e@.len() == s,
            forall|t: int| 0 <= t < s ==> #[trigger] e@[t] == -1,
        decreases n - s,
    {
        e.push(-1i8);
        s += 1;
    }
    proof {
        lemma_trank_all_neg(e@);
        assert forall|e2: Seq<i8>|
            is_tvec(n, e2) && !all_zero(e2) && trank(e2) < trank(e@) implies !spec_hamiltonian(
            n,
            mutated(n, sigma@, e2),
        ) by {
            lemma_trank_bounds(e2);
        }
    }
    loop
        invariant
            3 <= n,
            sigma@.len() == n,
            forall|t: int| 0 <= t < sigma@.len() ==> #[trigger] sigma@[t] < n,
            e@.len() == n,
            forall|t: int| 0 <= t < e@.len() ==> -1 <= #[trigger] e@[t] <= 1,
            forall|e2: Seq<i8>|
                is_tvec(n, e2) && !all_zero(e2) && trank(e2) < trank(e@) ==> !spec_hamiltonian(
                    n,
                    mutated(n, sigma@, e2),
                ),
        decreases pow3(n as nat) - trank(e@),
    {
        // skip the zero vector
        let mut zero = true;
        let mut t: usize = 0;
        while t < n
            invariant
                t <= n,
                n == e@.len(),
                zero == (forall|s: int| 0 <= s < t ==> #[trigger] e@[s] == 0),
            decreases n - t,
        {
            if e[t] != 0 {
                zero = false;
                t = n;
            } else {
                t += 1;
            }
        }
        if !zero {
            let mut gp = build_ring(n);
            let mut i: usize = 0;
            while i < n
                invariant
                    3 <= n,
                    i <= n,
                    gp.wf(),
                    gp.n == n,
                    sigma@.len() == n,
                    e@.len() == n,
                    forall|t2: int| 0 <= t2 < sigma@.len() ==> #[trigger] sigma@[t2] < n,
                    forall|t2: int| 0 <= t2 < e@.len() ==> -1 <= #[trigger] e@[t2] <= 1,
                    gp.edges@ == apply_upto(n, sigma@, e@, i as int),
                decreases n - i,
            {
                apply_perturbation(&mut gp, i, e[i], sigma[i]);
                i += 1;
            }
            if is_hamiltonian_cycle(&gp) {
                assert(is_tvec(n, e@) && !all_zero(e@));
                assert(spec_hamiltonian(n, mutated(n, sigma@, e@)));
                return true;
            }
            assert(!spec_hamiltonian(n, mutated(n, sigma@, e@)));
        }
        let ghost prev = e@;
        let more = next_ternary(&mut e);
        proof {
            lemma_trank_bounds(e@);
            lemma_trank_bounds(prev);
        }
        if !more {
            proof {
                lemma_trank_all_ones(prev);
            }
            assert forall|e2: Seq<i8>|
                is_tvec(n, e2) && !all_zero(e2) implies !spec_hamiltonian(
                n,
                mutated(n, sigma@, e2),
            ) by {
                lemma_trank_bounds(e2);
                if trank(e2) == trank(prev) {
                    lemma_trank_injective(e2, prev);
                }
            }
            return false;
        }
        proof {
            assert forall|e2: Seq<i8>|
                is_tvec(n, e2) && !all_zero(e2) && trank(e2) < trank(e@) implies !spec_hamiltonian(
                n,
                mutated(n, sigma@, e2),
            ) by {
                if trank(e2) >= trank(prev) {
                    assert(trank(e2) == trank(prev));
                    lemma_trank_injective(e2, prev);
                    assert(e2 == prev);
                    assert(!zero);
                }
            }
        }
    }
}

} // verus!
