use vstd::prelude::*;

use crate::ring::{pred_label, pred_of, succ_label, succ_of};

verus! {

/// The entries of `s` grow strictly from left to right.
pub open spec fn strictly_increasing(s: Seq<usize>) -> bool {
    forall|a: int, b: int| 0 <= a < b < s.len() ==> s[a] < s[b]
}

/// Label `v` is admissible at position `i` of a candidate assignment: any
/// node label except `i` itself and its two ring neighbors.
pub open spec fn cand_ok(n: usize, i: usize, v: usize) -> bool {
    v < n && v != i && v != pred_label(n, i) && v != succ_label(n, i)
}

/// The set of admissible candidate labels for position `i`, as a strictly
/// increasing list: `{0, ..., n - 1} \ {i, (i - 1) mod n, (i + 1) mod n}`.
/// For `n == 3` the list is empty.
pub fn candidates(i: usize, n: usize) -> (r: Vec<usize>)
    requires
        3 <= n,
        i < n,
    ensures
        forall|v: usize| #[trigger] r@.contains(v) <==> cand_ok(n, i, v),
        strictly_increasing(r@),
{
    let prev = pred_of(n, i);
    let next = succ_of(n, i);
    let mut r: Vec<usize> = Vec::new();
    let mut v: usize = 0;
    while v < n
        invariant
            v <= n,
            prev == pred_label(n, i),
            next == succ_label(n, i),
            forall|w: usize| #[trigger] r@.contains(w) <==> (w < v && cand_ok(n, i, w)),
            strictly_increasing(r@),
            forall|t: int| 0 <= t < r@.len() ==> r@[t] < v,
        decreases n - v,
    {
        if v != i && v != prev && v != next {
            let ghost old_r = r@;
            r.push(v);
            assert forall|w: usize| #[trigger] r@.contains(w) implies (w < v + 1 && cand_ok(
                n,
                i,
                w,
            )) by {
                let t = choose|t: int| 0 <= t < r@.len() && r@[t] == w;
                if t < old_r.len() {
                    assert(old_r.contains(w));
                }
            }
            assert forall|w: usize| (w < v + 1 && cand_ok(n, i, w)) implies #[trigger] r@.contains(
                w,
            ) by {
                if w < v {
                    assert(old_r.contains(w));
                    let t = choose|t: int| 0 <= t < old_r.len() && old_r[t] == w;
                    assert(r@[t] == w);
                } else {
                    assert(r@[r@.len() - 1] == w);
                }
            }
        }
        v += 1;
    }
    r
}

/// One candidate list for each free position `0..k`.
pub fn prefix_candidate_sets(n: usize, k: usize) -> (sets: Vec<Vec<usize>>)
    requires
        3 <= n,
        k <= n,
    ensures
        sets@.len() == k,
        forall|t: int, v: usize|
            0 <= t < k ==> ((#[trigger] sets@[t]@.contains(v)) <==> cand_ok(n, t as usize, v)),
        forall|t: int| 0 <= t < k ==> strictly_increasing(#[trigger] sets@[t]@),
{
    let mut sets: Vec<Vec<usize>> = Vec::new();
    let mut i: usize = 0;
    while i < k
        invariant
            i <= k,
            k <= n,
            3 <= n,
            sets@.len() == i,
            forall|t: int, v: usize|
                0 <= t < i ==> ((#[trigger] sets@[t]@.contains(v)) <==> cand_ok(n, t as usize, v)),
            forall|t: int| 0 <= t < i ==> strictly_increasing(#[trigger] sets@[t]@),
        decreases k - i,
    {
        let c = candidates(i, n);
        sets.push(c);
        i += 1;
    }
    sets
}

} // verus!
