use vstd::prelude::*;
use vstd::pervasive::VecAdditionalExecFns;

use crate::candidates::{cand_ok, prefix_candidate_sets, strictly_increasing};
use crate::perturb::{candidate_repairable, repairable};

verus! {

/// `a` comes strictly before `b` in lexicographic order: at the first
/// position where they differ, `a` holds the smaller label.
pub open spec fn lex_less(a: Seq<usize>, b: Seq<usize>) -> bool {
    exists|i: int|
        #![trigger a[i], b[i]]
        0 <= i < a.len() && i < b.len() && a[i] < b[i] && (forall|j: int|
            0 <= j < i ==> a[j] == b[j])
}

/// `p` is a full assignment of the `k` free positions: one admissible
/// candidate label for each position.
pub open spec fn valid_prefix(n: usize, k: usize, p: Seq<usize>) -> bool {
    p.len() == k && forall|t: int| 0 <= t < p.len() ==> cand_ok(n, t as usize, #[trigger] p[t])
}

/// `sigma` is the answer the search owes when it finds a witness: the first
/// candidate assignment, in lexicographic order of its free prefix, that no
/// perturbation repairs.
pub open spec fn search_witness(n: usize, k: usize, suffix: Seq<usize>, sigma: Seq<usize>) -> bool {
    &&& sigma.len() == n
    &&& valid_prefix(n, k, sigma.subrange(0, k as int))
    &&& sigma.subrange(k as int, n as int) == suffix
    &&& !repairable(n, sigma)
    &&& forall|p: Seq<usize>|
        #[trigger] valid_prefix(n, k, p) && lex_less(p, sigma.subrange(0, k as int))
            ==> repairable(n, p + suffix)
}

/// Every candidate assignment admits a repairing perturbation: the search
/// owes the answer "no witness".
pub open spec fn search_exhausted(n: usize, k: usize, suffix: Seq<usize>) -> bool {
    forall|p: Seq<usize>| #[trigger] valid_prefix(n, k, p) ==> repairable(n, p + suffix)
}

/// The outcome that the search owes for `(n, k, suffix)`: either the first
/// witness assignment in enumeration order, or "no witness" after an
/// exhaustive pass.
pub open spec fn search_outcome(n: usize, k: usize, suffix: Seq<usize>, r: Option<Seq<usize>>) -> bool {
    match r {
        Some(sigma) => search_witness(n, k, suffix, sigma),
        None => search_exhausted(n, k, suffix),
    }
}

/// The views of a list of candidate lists.
pub open spec fn views_of(sets: Seq<Vec<usize>>) -> Seq<Seq<usize>> {
    Seq::new(sets.len(), |i: int| sets[i]@)
}

/// The candidate lists of all free positions, as the search uses them.
pub open spec fn sets_ok(n: usize, k: usize, sets: Seq<Seq<usize>>) -> bool {
    &&& sets.len() == k
    &&& forall|t: int, v: usize|
        0 <= t < k ==> ((#[trigger] sets[t].contains(v)) <==> cand_ok(n, t as usize, v))
    &&& forall|t: int| 0 <= t < k ==> strictly_increasing(#[trigger] sets[t])
}

/// Every cursor points into its candidate list.
pub open spec fn cursors_ok(sets: Seq<Seq<usize>>, cs: Seq<usize>) -> bool {
    cs.len() == sets.len() && forall|t: int|
        0 <= t < cs.len() ==> (#[trigger] cs[t]) < sets[t].len()
}

/// The candidate prefix that a cursor vector denotes.
pub open spec fn cs_value(sets: Seq<Seq<usize>>, cs: Seq<usize>) -> Seq<usize> {
    Seq::new(cs.len(), |i: int| sets[i][cs[i] as int])
}

/// The number of cursor vectors over the first `i` candidate lists.
pub open spec fn space(sets: Seq<Seq<usize>>, i: int) -> int
    decreases i,
{
    if i <= 0 {
        1
    } else {
        space(sets, i - 1) * sets[i - 1].len()
    }
}

/// The mixed-radix rank of a cursor vector, the last position least
/// significant: its index in the enumeration order of the outer search.
pub open spec fn crank(sets: Seq<Seq<usize>>, cs: Seq<usize>, i: int) -> int
    decreases i,
{
    if i <= 0 {
        0
    } else {
        crank(sets, cs, i - 1) * sets[i - 1].len() + cs[i - 1]
    }
}

/// The rank reads only the first `i` cursors.
proof fn lemma_crank_prefix(sets: Seq<Seq<usize>>, a: Seq<usize>, b: Seq<usize>, i: int)
    requires
        forall|t: int| 0 <= t < i ==> a[t] == b[t],
    ensures
        crank(sets, a, i) == crank(sets, b, i),
    decreases i,
{
    if i > 0 {
        lemma_crank_prefix(sets, a, b, i - 1);
    }
}

/// Cursor ranks lie below the size of the search space.
proof fn lemma_crank_bounds(sets: Seq<Seq<usize>>, cs: Seq<usize>, i: int)
    requires
        0 <= i,
        forall|t: int| 0 <= t < i ==> (#[trigger] cs[t]) < sets[t].len(),
        forall|t: int| 0 <= t < i ==> (#[trigger] sets[t]).len() >= 1,
    ensures
        0 <= crank(sets, cs, i) < space(sets, i),
    decreases i,
{
    if i > 0 {
        lemma_crank_bounds(sets, cs, i - 1);
        let q = crank(sets, cs, i - 1);
        let s = space(sets, i - 1);
        let len = sets[i - 1].len() as int;
        let c = cs[i - 1] as int;
        assert(0 <= q * len + c && q * len + c < s * len) by (nonlinear_arith)
            requires
                0 <= q < s,
                0 <= c < len,
                1 <= len,
        ;
    }
}

/// The odometer step raises the rank by exactly one: position `j` advances
/// while every later position falls from its last entry back to its first.
proof fn lemma_crank_step(sets: Seq<Seq<usize>>, a: Seq<usize>, b: Seq<usize>, j: int, i: int)
    requires
        a.len() == b.len(),
        0 <= j < a.len(),
        i <= a.len(),
        b[j] == a[j] + 1,
        forall|t: int| 0 <= t < j ==> a[t] == b[t],
        forall|t: int| j < t < a.len() ==> a[t] == (#[trigger] sets[t]).len() - 1,
        forall|t: int| j < t < b.len() ==> b[t] == 0,
    ensures
        j < i ==> crank(sets, b, i) == crank(sets, a, i) + 1,
    decreases i,
{
    if j < i {
        if i - 1 == j {
            lemma_crank_prefix(sets, a, b, j);
        } else {
            lemma_crank_step(sets, a, b, j, i - 1);
            let qa = crank(sets, a, i - 1);
            let len = sets[i - 1].len() as int;
            assert(a[i - 1] == len - 1 && b[i - 1] == 0);
            assert((qa + 1) * len == qa * len + len) by (nonlinear_arith);
        }
    }
}

/// Every pair of distinct, equally long label sequences has a first
/// position where they differ.
pub proof fn lemma_first_diff(a: Seq<usize>, b: Seq<usize>)
    requires
        a.len() == b.len(),
        a != b,
    ensures
        exists|i: int|
            #![trigger a[i], b[i]]
            0 <= i < a.len() && a[i] != b[i] && (forall|j: int| 0 <= j < i ==> a[j] == b[j]),
    decreases a.len(),
{
    if a.len() == 0 {
        assert(a =~= b);
    } else if a[0] != b[0] {
        assert(a[0] != b[0] && (forall|j: int| 0 <= j < 0 ==> a[j] == b[j]));
    } else {
        let a1 = a.drop_first();
        let b1 = b.drop_first();
        assert(a1 != b1) by {
            if a1 == b1 {
                assert forall|i: int| 0 <= i < a.len() implies a[i] == b[i] by {
                    if i > 0 {
                        assert(a1[i - 1] == b1[i - 1]);
                    }
                }
                assert(a =~= b);
            }
        }
        lemma_first_diff(a1, b1);
        let i1 = choose|i: int|
            #![trigger a1[i], b1[i]]
            0 <= i < a1.len() && a1[i] != b1[i] && (forall|j: int| 0 <= j < i ==> a1[j] == b1[j]);
        assert(a[i1 + 1] == a1[i1] && b[i1 + 1] == b1[i1]);
        assert forall|j: int| 0 <= j < i1 + 1 implies a[j] == b[j] by {
            if j > 0 {
                assert(a1[j - 1] == b1[j - 1]);
            }
        }
    }
}

/// A member of a strictly increasing list that is smaller than the entry
/// after position `c` is at most the entry at `c`.
proof fn lemma_sorted_cap(s: Seq<usize>, v: usize, c: int)
    requires
        strictly_increasing(s),
        s.contains(v),
        0 <= c < s.len() - 1,
        v < s[c + 1],
    ensures
        v <= s[c],
{
    let m = choose|m: int| 0 <= m < s.len() && s[m] == v;
    if m > c + 1 {
        assert(s[c + 1] < s[m]);
    }
}

/// A member of a strictly increasing list is at least its first entry and
/// at most its last.
proof fn lemma_sorted_ends(s: Seq<usize>, v: usize)
    requires
        strictly_increasing(s),
        s.contains(v),
        s.len() >= 1,
    ensures
        s[0] <= v <= s[s.len() - 1],
{
    let m = choose|m: int| 0 <= m < s.len() && s[m] == v;
    if m > 0 {
        assert(s[0] < s[m]);
    }
    if m < s.len() - 1 {
        assert(s[m] < s[s.len() - 1]);
    }
}

/// No valid prefix comes before the one that the all-zero cursor vector
/// denotes: the enumeration starts at the lexicographic minimum.
proof fn lemma_nothing_below_first(
    n: usize,
    k: usize,
    sets: Seq<Seq<usize>>,
    cs: Seq<usize>,
)
    requires
        sets_ok(n, k, sets),
        cs.len() == k,
        forall|t: int| 0 <= t < cs.len() ==> (#[trigger] cs[t]) == 0,
        forall|t: int| 0 <= t < k ==> (#[trigger] sets[t]).len() >= 1,
    ensures
        forall|p: Seq<usize>|
            #[trigger] valid_prefix(n, k, p) ==> !lex_less(p, cs_value(sets, cs)),
{
    let v0 = cs_value(sets, cs);
    assert forall|p: Seq<usize>| #[trigger] valid_prefix(n, k, p) implies !lex_less(p, v0) by {
        if lex_less(p, v0) {
            let i = choose|i: int|
                #![trigger p[i], v0[i]]
                0 <= i < p.len() && i < v0.len() && p[i] < v0[i] && (forall|j: int|
                    0 <= j < i ==> p[j] == v0[j]);
            assert(cand_ok(n, i as usize, p[i]));
            assert(sets[i].contains(p[i]));
            lemma_sorted_ends(sets[i], p[i]);
            assert(v0[i] == sets[i][0]);
        }
    }
}

/// After one odometer step, nothing lies strictly between the old and the
/// new prefix: a valid prefix before the new one is the old one or comes
/// before it.
proof fn lemma_successor(
    n: usize,
    k: usize,
    sets: Seq<Seq<usize>>,
    a: Seq<usize>,
    b: Seq<usize>,
    j: int,
)
    requires
        sets_ok(n, k, sets),
        cursors_ok(sets, a),
        cursors_ok(sets, b),
        0 <= j < a.len(),
        a.len() == b.len(),
        b[j] == a[j] + 1,
        forall|t: int| 0 <= t < j ==> a[t] == b[t],
        forall|t: int| j < t < a.len() ==> a[t] == (#[trigger] sets[t]).len() - 1,
        forall|t: int| j < t < b.len() ==> b[t] == 0,
    ensures
        forall|p: Seq<usize>|
            #[trigger] valid_prefix(n, k, p) && lex_less(p, cs_value(sets, b)) ==> (p == cs_value(
                sets,
                a,
            ) || lex_less(p, cs_value(sets, a))),
{
    let va = cs_value(sets, a);
    let vb = cs_value(sets, b);
    assert forall|p: Seq<usize>|
        #[trigger] valid_prefix(n, k, p) && lex_less(p, vb) implies (p == va || lex_less(p, va)) by {
        let i = choose|i: int|
            #![trigger p[i], vb[i]]
            0 <= i < p.len() && i < vb.len() && p[i] < vb[i] && (forall|j2: int|
                0 <= j2 < i ==> p[j2] == vb[j2]);
        assert(cand_ok(n, i as usize, p[i]));
        assert(sets[i].contains(p[i]));
        if i < j {
            // p agrees with b, hence with a, before i, and drops below at i
            assert(va[i] == vb[i]);
            assert(forall|j2: int| 0 <= j2 < i ==> p[j2] == va[j2]);
            assert(lex_less(p, va));
        } else if i == j {
            // below the advanced entry means at most the old entry
            assert(vb[j] == sets[j][a[j] + 1]);
            lemma_sorted_cap(sets[j], p[j], a[j] as int);
            assert(p[j] <= va[j]);
            assert(forall|j2: int| 0 <= j2 < j ==> p[j2] == va[j2]);
            if p[j] < va[j] {
                assert(lex_less(p, va));
            } else {
                // p agrees with a through j; after j, a sits at its maxima
                if p != va {
                    lemma_first_diff(p, va);
                    let m = choose|m: int|
                        #![trigger p[m], va[m]]
                        0 <= m < p.len() && p[m] != va[m] && (forall|j2: int|
                            0 <= j2 < m ==> p[j2] == va[j2]);
                    assert(m > j);
                    assert(cand_ok(n, m as usize, p[m]));
                    assert(sets[m].contains(p[m]));
                    lemma_sorted_ends(sets[m], p[m]);
                    assert(va[m] == sets[m][sets[m].len() - 1]);
                    assert(p[m] < va[m]);
                    assert(lex_less(p, va));
                }
            }
        } else {
            // impossible: past j the new prefix sits at each list's
            // minimum, so nothing valid drops below it there
            assert(vb[i] == sets[i][0]);
            lemma_sorted_ends(sets[i], p[i]);
            assert(false);
        }
    }
}

/// Advances the cursor vector to its successor in enumeration order.
/// Returns `false` (leaving the cursors alone) when every cursor already
/// sits at the end of its list.
fn next_cursor(cs: &mut Vec<usize>, sets: &Vec<Vec<usize>>) -> (more: bool)
    requires
        old(cs)@.len() == sets@.len(),
        cursors_ok(views_of(sets@), old(cs)@),
    ensures
        final(cs)@.len() == old(cs)@.len(),
        cursors_ok(views_of(sets@), final(cs)@),
        more ==> exists|j: int|
            #![trigger final(cs)@[j]]
            {
                &&& 0 <= j < final(cs)@.len()
                &&& final(cs)@[j] == old(cs)@[j] + 1
                &&& (forall|t: int| 0 <= t < j ==> final(cs)@[t] == old(cs)@[t])
                &&& (forall|t: int|
                    j < t < final(cs)@.len() ==> old(cs)@[t] == (
                    #[trigger] views_of(sets@)[t]).len() - 1 && final(cs)@[t] == 0)
            },
        more ==> crank(views_of(sets@), final(cs)@, sets@.len() as int) == crank(
            views_of(sets@),
            old(cs)@,
            sets@.len() as int,
        ) + 1,
        !more ==> final(cs)@ == old(cs)@ && (forall|t: int|
            0 <= t < old(cs)@.len() ==> old(cs)@[t] == (#[trigger] views_of(sets@)[t]).len() - 1),
{
    let ghost vs = views_of(sets@);
    let k = cs.len();
    let mut j: usize = k;
    while j > 0 && cs[j - 1] == sets[j - 1].len() - 1
        invariant
            j <= k,
            k == cs@.len(),
            cs@.len() == sets@.len(),
            cursors_ok(vs, cs@),
            vs == views_of(sets@),
            forall|t: int| j <= t < k ==> cs@[t] == (#[trigger] vs[t]).len() - 1,
        decreases j,
    {
        j -= 1;
    }
    if j == 0 {
        return false;
    }
    let idx = j - 1;
    let ghost before = cs@;
    let c = cs[idx];
    cs.set(idx, c + 1);
    let mut t = idx + 1;
    while t < k
        invariant
            idx < t <= k,
            k == cs@.len(),
            cs@.len() == sets@.len(),
            vs == views_of(sets@),
            before.len() == k,
            cs@[idx as int] == before[idx as int] + 1,
            (before[idx as int] + 1) < vs[idx as int].len(),
            forall|s: int| 0 <= s < idx ==> cs@[s] == before[s],
            forall|s: int| idx < s < t ==> #[trigger] cs@[s] == 0,
            forall|s: int| t <= s < k ==> cs@[s] == before[s],
            forall|s: int| idx < s < k ==> before[s] == (#[trigger] vs[s]).len() - 1,
            forall|s: int| 0 <= s < k ==> (#[trigger] before[s]) < vs[s].len(),
        decreases k - t,
    {
        cs.set(t, 0);
        t += 1;
    }
    assert forall|t2: int| 0 <= t2 < cs@.len() implies (#[trigger] cs@[t2]) < vs[t2].len() by {
        if t2 < idx {
            assert(cs@[t2] == before[t2]);
        } else if t2 > idx {
            assert(before[t2] == vs[t2].len() - 1);
            assert(cs@[t2] == 0);
        }
    }
    proof {
        lemma_crank_step(vs, before, cs@, idx as int, k as int);
    }
    true
}

/// The candidate prefix that the current cursors denote.
fn select_prefix(sets: &Vec<Vec<usize>>, cs: &Vec<usize>) -> (p: Vec<usize>)
    requires
        cs@.len() == sets@.len(),
        cursors_ok(views_of(sets@), cs@),
    ensures
        p@ == cs_value(views_of(sets@), cs@),
{
    let ghost vs = views_of(sets@);
    let mut p: Vec<usize> = Vec::new();
    let mut i: usize = 0;
    while i < cs.len()
        invariant
            i <= cs@.len(),
            cs@.len() == sets@.len(),
            cursors_ok(vs, cs@),
            vs == views_of(sets@),
            p@.len() == i,
            forall|t: int| 0 <= t < i ==> p@[t] == vs[t][cs@[t] as int],
        decreases cs@.len() - i,
    {
        let c = cs[i];
        p.push(sets[i][c]);
        i += 1;
    }
    assert(p@ =~= cs_value(vs, cs@));
    p
}

/// `a` followed by `b`, as a fresh vector.
fn concat_vec(a: &Vec<usize>, b: &Vec<usize>) -> (r: Vec<usize>)
    ensures
        r@ == a@ + b@,
{
    let mut r: Vec<usize> = Vec::new();
    let mut i: usize = 0;
    while i < a.len()
        invariant
            i <= a@.len(),
            r@.len() == i,
            forall|t: int| 0 <= t < i ==> r@[t] == a@[t],
        decreases a@.len() - i,
    {
        r.push(a[i]);
        i += 1;
    }
    let mut j: usize = 0;
    while j < b.len()
        invariant
            j <= b@.len(),
            r@.len() == a@.len() + j,
            forall|t: int| 0 <= t < a@.len() ==> r@[t] == a@[t],
            forall|t: int| 0 <= t < j ==> r@[a@.len() + t] == b@[t],
        decreases b@.len() - j,
    {
        r.push(b[j]);
        j += 1;
    }
    assert(r@ =~= a@ + b@);
    r
}

/// When every cursor sits at the end of its list, every valid prefix is the
/// denoted one or comes before it: the enumeration ends at the maximum.
proof fn lemma_max_coverage(n: usize, k: usize, sets: Seq<Seq<usize>>, cs: Seq<usize>)
    requires
        sets_ok(n, k, sets),
        cursors_ok(sets, cs),
        forall|t: int| 0 <= t < cs.len() ==> (#[trigger] cs[t]) == sets[t].len() - 1,
    ensures
        forall|p: Seq<usize>|
            #[trigger] valid_prefix(n, k, p) ==> (p == cs_value(sets, cs) || lex_less(
                p,
                cs_value(sets, cs),
            )),
{
    let v = cs_value(sets, cs);
    assert forall|p: Seq<usize>| #[trigger] valid_prefix(n, k, p) implies (p == v || lex_less(
        p,
        v,
    )) by {
        if p != v {
            lemma_first_diff(p, v);
            let m = choose|m: int|
                #![trigger p[m], v[m]]
                0 <= m < p.len() && p[m] != v[m] && (forall|j2: int| 0 <= j2 < m ==> p[j2] == v[j2]);
            assert(cand_ok(n, m as usize, p[m]));
            assert(sets[m].contains(p[m]));
            lemma_sorted_ends(sets[m], p[m]);
            assert(v[m] == sets[m][sets[m].len() - 1]);
            assert(p[m] < v[m]);
            assert(lex_less(p, v));
        }
    }
}

/// Looks for a candidate assignment that no edge swap repairs, walking the
/// free prefixes in lexicographic order.
///
/// Returns the first witness assignment, or `None` when every candidate
/// admits at least one repairing perturbation.
pub fn edge_swap_search(n: usize, k: usize, suffix: &Vec<usize>) -> (r: Option<Vec<usize>>)
    requires
        3 <= n,
        k <= n,
        suffix@.len() == n - k,
        forall|t: int| 0 <= t < suffix@.len() ==> #[trigger] suffix@[t] < n,
    ensures
        match r {
            Some(sigma) => search_witness(n, k, suffix@, sigma@),
            None => search_exhausted(n, k, suffix@),
        },
{
    let sets = prefix_candidate_sets(n, k);
    let ghost vs = views_of(sets@);
    proof {
        assert forall|t: int, v: usize|
            0 <= t < k implies ((#[trigger] vs[t].contains(v)) <==> cand_ok(n, t as usize, v)) by {
            assert(vs[t] == sets@[t]@);
        }
        assert forall|t: int| 0 <= t < k implies strictly_increasing(#[trigger] vs[t]) by {
            assert(vs[t] == sets@[t]@);
        }
        assert(sets_ok(n, k, vs));
    }
    // a position with no admissible candidate empties the whole outer space
    let mut i: usize = 0;
    while i < k
        invariant
            i <= k,
            k <= n,
            3 <= n,
            sets@.len() == k,
            vs == views_of(sets@),
            sets_ok(n, k, vs),
            forall|t: int| 0 <= t < i ==> (#[trigger] vs[t]).len() >= 1,
        decreases k - i,
    {
        if sets[i].len() == 0 {
            proof {
                assert forall|p: Seq<usize>| #[trigger] valid_prefix(n, k, p) implies repairable(
                    n,
                    p + suffix@,
                ) by {
                    assert(cand_ok(n, i as usize, p[i as int]));
                    assert(vs[i as int].contains(p[i as int]));
                    assert(vs[i as int].len() == 0);
                }
            }
            return None;
        }
        assert(vs[i as int] == sets@[i as int]@);
        i += 1;
    }
    // the all-zero cursor vector denotes the lexicographically first prefix
    let mut cs: Vec<usize> = Vec::new();
    let mut s: usize = 0;
    while s < k
        invariant
            s <= k,
            cs@.len() == s,
            forall|t: int| 0 <= t < s ==> (#[trigger] cs@[t]) == 0,
        decreases k - s,
    {
        cs.push(0);
        s += 1;
    }
    proof {
        lemma_nothing_below_first(n, k, vs, cs@);
    }
    loop
        invariant
            3 <= n,
            k <= n,
            suffix@.len() == n - k,
            forall|t: int| 0 <= t < suffix@.len() ==> #[trigger] suffix@[t] < n,
            sets@.len() == k,
            vs == views_of(sets@),
            sets_ok(n, k, vs),
            forall|t: int| 0 <= t < k ==> (#[trigger] vs[t]).len() >= 1,
            cs@.len() == k,
            cursors_ok(vs, cs@),
            forall|p: Seq<usize>|
                #[trigger] valid_prefix(n, k, p) && lex_less(p, cs_value(vs, cs@)) ==> repairable(
                    n,
                    p + suffix@,
                ),
        decreases space(vs, k as int) - crank(vs, cs@, k as int),
    {
        let prefix = select_prefix(&sets, &cs);
        let sigma = concat_vec(&prefix, suffix);
        proof {
            assert forall|t: int| 0 <= t < k implies cand_ok(n, t as usize, #[trigger] prefix@[t]) by {
                let idx = cs@[t] as int;
                assert(vs[t][idx] == prefix@[t]);
                assert(vs[t].contains(prefix@[t]));
            }
            assert(valid_prefix(n, k, prefix@));
            assert forall|t: int| 0 <= t < sigma@.len() implies #[trigger] sigma@[t] < n by {
                if t < k {
                    assert(sigma@[t] == prefix@[t]);
                    assert(cand_ok(n, t as usize, prefix@[t]));
                } else {
                    assert(sigma@[t] == suffix@[t - k]);
                }
            }
        }
        if !candidate_repairable(n, &sigma) {
            proof {
                assert(sigma@.subrange(0, k as int) =~= prefix@);
                assert(sigma@.subrange(k as int, n as int) =~= suffix@);
            }
            return Some(sigma);
        }
        let ghost a = cs@;
        let more = next_cursor(&mut cs, &sets);
        if !more {
            proof {
                lemma_max_coverage(n, k, vs, cs@);
                assert forall|p: Seq<usize>| #[trigger] valid_prefix(n, k, p) implies repairable(
                    n,
                    p + suffix@,
                ) by {
                    if p == cs_value(vs, cs@) {
                        assert(p + suffix@ == sigma@);
                    }
                }
            }
            return None;
        }
        proof {
            let j = choose|j: int|
                #![trigger cs@[j]]
                {
                    &&& 0 <= j < cs@.len()
                    &&& cs@[j] == a[j] + 1
                    &&& (forall|t: int| 0 <= t < j ==> cs@[t] == a[t])
                    &&& (forall|t: int|
                        j < t < cs@.len() ==> a[t] == (#[trigger] views_of(sets@)[t]).len() - 1
                            && cs@[t] == 0)
                };
            lemma_successor(n, k, vs, a, cs@, j);
            assert forall|p: Seq<usize>|
                #[trigger] valid_prefix(n, k, p) && lex_less(p, cs_value(vs, cs@)) implies repairable(
                n,
                p + suffix@,
            ) by {
                if p == cs_value(vs, a) {
                    assert(p + suffix@ == sigma@);
                }
            }
            lemma_crank_bounds(vs, cs@, k as int);
        }
    }
}

/// Why a call was rejected before any search work began.
#[derive(Clone, Copy, Debug, PartialEq, Eq)]
pub enum ConfigError {
    /// `n < 3`: a cycle on fewer than three nodes is degenerate.
    RingTooSmall,
    /// `k > n`: more free positions than ring nodes.
    TooManyFreePositions,
    /// `suffix` does not hold exactly `n - k` labels.
    SuffixLengthMismatch,
    /// Some suffix entry is not a node label below `n`.
    LabelOutOfRange,
}

/// Looks for a profitable edge swap.
///
/// Rejects an invalid configuration before any graph is built; otherwise
/// returns `Ok(None)` when every candidate assignment admits a repairing
/// edge swap, and `Ok(Some(sigma))` with the first witness assignment when
/// one exists.
pub fn find_edge_swap(n: usize, k: usize, suffix: Vec<usize>) -> (r: Result<
    Option<Vec<usize>>,
    ConfigError,
>)
    ensures
        n < 3 ==> r == Err::<Option<Vec<usize>>, ConfigError>(ConfigError::RingTooSmall),
        n >= 3 && k > n ==> r == Err::<Option<Vec<usize>>, ConfigError>(
            ConfigError::TooManyFreePositions,
        ),
        n >= 3 && k <= n && suffix@.len() != n - k ==> r == Err::<Option<Vec<usize>>, ConfigError>(
            ConfigError::SuffixLengthMismatch,
        ),
        n >= 3 && k <= n && suffix@.len() == n - k && !(forall|t: int|
            0 <= t < suffix@.len() ==> #[trigger] suffix@[t] < n) ==> r == Err::<
            Option<Vec<usize>>,
            ConfigError,
        >(ConfigError::LabelOutOfRange),
        n >= 3 && k <= n && suffix@.len() == n - k && (forall|t: int|
            0 <= t < suffix@.len() ==> #[trigger] suffix@[t] < n) ==> match r {
            Ok(opt) => match opt {
                Some(sigma) => search_witness(n, k, suffix@, sigma@),
                None => search_exhausted(n, k, suffix@),
            },
            Err(_) => false,
        },
{
    if n < 3 {
        return Err(ConfigError::RingTooSmall);
    }
    if k > n {
        return Err(ConfigError::TooManyFreePositions);
    }
    if suffix.len() != n - k {
        return Err(ConfigError::SuffixLengthMismatch);
    }
    let mut t: usize = 0;
    while t < suffix.len()
        invariant
            3 <= n,
            k <= n,
            suffix@.len() == n - k,
            t <= suffix@.len(),
            forall|s: int| 0 <= s < t ==> #[trigger] suffix@[s] < n,
        decreases suffix@.len() - t,
    {
        if suffix[t] >= n {
            return Err(ConfigError::LabelOutOfRange);
        }
        t += 1;
    }
    Ok(edge_swap_search(n, k, &suffix))
}

} // verus!
