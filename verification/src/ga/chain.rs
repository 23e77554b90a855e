//! The mapping chains of the partially mapped crossover: stepping from a
//! board column to the column where the second parent holds the first
//! parent's value, and back. The chains of a permutation pair leave any
//! proper segment after finitely many steps; that fact drives the proof
//! that the crossover fills a free slot for every displaced value.
use crate::ga::perm::{
    contains_value, is_permutation, lemma_distinct_bounded_complete, lemma_distinct_bounded_len,
};
use vstd::prelude::*;

verus! {

/// The position of the value `v` in `s`; for a permutation this is the one
/// index holding `v`.
pub open spec fn pos_of(s: Seq<u16>, v: int) -> int {
    choose|i: int| 0 <= i < s.len() && s[i] as int == v
}

/// In a permutation every value below the length has exactly one position.
pub proof fn lemma_pos_of(s: Seq<u16>, v: int)
    requires
        is_permutation(s),
        0 <= v < s.len(),
    ensures
        0 <= pos_of(s, v) < s.len(),
        s[pos_of(s, v)] as int == v,
        forall|i: int| 0 <= i < s.len() && s[i] as int == v ==> i == pos_of(s, v),
{
    lemma_distinct_bounded_complete(s, s.len() as int);
    assert(contains_value(s, v));
    assert(0 <= pos_of(s, v) < s.len() && s[pos_of(s, v)] as int == v);
    assert forall|i: int| 0 <= i < s.len() && s[i] as int == v implies i == pos_of(s, v) by {
        if i != pos_of(s, v) {
            assert(s[i] != s[pos_of(s, v)]);
        }
    }
}

/// One forward mapping step: the column of the second parent that holds the
/// first parent's value of column `j`.
pub open spec fn fstep(p1: Seq<u16>, p2: Seq<u16>, j: int) -> int {
    pos_of(p2, p1[j] as int)
}

/// One backward mapping step: the column of the first parent that holds the
/// second parent's value of column `t`.
pub open spec fn hstep(p1: Seq<u16>, p2: Seq<u16>, t: int) -> int {
    pos_of(p1, p2[t] as int)
}

/// The two mapping steps are inverse bijections of the column range.
pub proof fn lemma_step_inverse(p1: Seq<u16>, p2: Seq<u16>, j: int)
    requires
        is_permutation(p1),
        is_permutation(p2),
        p1.len() == p2.len(),
        0 <= j < p1.len(),
    ensures
        0 <= fstep(p1, p2, j) < p1.len(),
        hstep(p1, p2, fstep(p1, p2, j)) == j,
        0 <= hstep(p1, p2, j) < p1.len(),
        fstep(p1, p2, hstep(p1, p2, j)) == j,
{
    lemma_pos_of(p2, p1[j] as int);
    let f = fstep(p1, p2, j);
    assert(p2[f] as int == p1[j] as int);
    lemma_pos_of(p1, p2[f] as int);
    assert(hstep(p1, p2, f) == j);
    lemma_pos_of(p1, p2[j] as int);
    let h = hstep(p1, p2, j);
    assert(p1[h] as int == p2[j] as int);
    lemma_pos_of(p2, p1[h] as int);
    assert(fstep(p1, p2, h) == j);
}

/// `k` backward mapping steps from `t`.
pub open spec fn hiter(p1: Seq<u16>, p2: Seq<u16>, t: int, k: nat) -> int
    decreases k,
{
    if k == 0 {
        t
    } else {
        hstep(p1, p2, hiter(p1, p2, t, (k - 1) as nat))
    }
}

/// `k` forward mapping steps from `j`.
pub open spec fn fiter(p1: Seq<u16>, p2: Seq<u16>, j: int, k: nat) -> int
    decreases k,
{
    if k == 0 {
        j
    } else {
        fstep(p1, p2, fiter(p1, p2, j, (k - 1) as nat))
    }
}

/// Backward iterates stay within the column range.
pub proof fn lemma_hiter_in_range(p1: Seq<u16>, p2: Seq<u16>, t: int, k: nat)
    requires
        is_permutation(p1),
        is_permutation(p2),
        p1.len() == p2.len(),
        0 <= t < p1.len(),
    ensures
        0 <= hiter(p1, p2, t, k) < p1.len(),
    decreases k,
{
    if k > 0 {
        lemma_hiter_in_range(p1, p2, t, (k - 1) as nat);
        lemma_step_inverse(p1, p2, hiter(p1, p2, t, (k - 1) as nat));
    }
}

/// Equal backward iterates peel down to a cycle through the start.
pub proof fn lemma_hiter_peel(p1: Seq<u16>, p2: Seq<u16>, t: int, x: nat, y: nat)
    requires
        is_permutation(p1),
        is_permutation(p2),
        p1.len() == p2.len(),
        0 <= t < p1.len(),
        x <= y,
        hiter(p1, p2, t, x) == hiter(p1, p2, t, y),
    ensures
        t == hiter(p1, p2, t, (y - x) as nat),
    decreases x,
{
    if x > 0 {
        let a = hiter(p1, p2, t, (x - 1) as nat);
        let b = hiter(p1, p2, t, (y - 1) as nat);
        lemma_hiter_in_range(p1, p2, t, (x - 1) as nat);
        lemma_hiter_in_range(p1, p2, t, (y - 1) as nat);
        lemma_step_inverse(p1, p2, a);
        lemma_step_inverse(p1, p2, b);
        assert(fstep(p1, p2, hstep(p1, p2, a)) == a);
        assert(fstep(p1, p2, hstep(p1, p2, b)) == b);
        assert(a == b);
        lemma_hiter_peel(p1, p2, t, (x - 1) as nat, (y - 1) as nat);
    }
}

/// The backward chain from `t` exits the segment `a..b` at `m` steps: every
/// earlier iterate lies inside it and the next step leaves it.
pub open spec fn chain_exits(p1: Seq<u16>, p2: Seq<u16>, a: int, b: int, t: int, m: nat) -> bool {
    &&& 1 <= m
    &&& forall|k: nat| 1 <= k <= m ==> a <= #[trigger] hiter(p1, p2, t, k) < b
    &&& !(a <= hiter(p1, p2, t, (m + 1) as nat) < b)
}

/// If no exit happens within `bound` steps, the iterates up to `q` all lie
/// in the segment.
proof fn lemma_chain_stuck(
    p1: Seq<u16>,
    p2: Seq<u16>,
    a: int,
    b: int,
    t: int,
    bound: nat,
    q: nat,
)
    requires
        is_permutation(p1),
        is_permutation(p2),
        p1.len() == p2.len(),
        0 <= t < p1.len(),
        a <= hstep(p1, p2, t) < b,
        forall|m: nat| 1 <= m <= bound ==> !chain_exits(p1, p2, a, b, t, m),
        1 <= q <= bound + 1,
    ensures
        forall|k: nat| 1 <= k <= q ==> a <= #[trigger] hiter(p1, p2, t, k) < b,
    decreases q,
{
    if q == 1 {
        assert(hiter(p1, p2, t, 1) == hstep(p1, p2, hiter(p1, p2, t, 0)));
        assert(hiter(p1, p2, t, 1) == hstep(p1, p2, t));
    } else {
        lemma_chain_stuck(p1, p2, a, b, t, bound, (q - 1) as nat);
        assert(!chain_exits(p1, p2, a, b, t, (q - 1) as nat));
        assert(a <= hiter(p1, p2, t, q) < b) by {
            if !(a <= hiter(p1, p2, t, ((q - 1) + 1) as nat) < b) {
                assert(chain_exits(p1, p2, a, b, t, (q - 1) as nat));
            }
        }
    }
}

/// From a column outside the segment whose first backward step lands inside
/// it, the backward chain leaves the segment again within as many steps as
/// the segment has columns.
pub proof fn lemma_chain_exists(p1: Seq<u16>, p2: Seq<u16>, a: int, b: int, t: int)
    requires
        is_permutation(p1),
        is_permutation(p2),
        p1.len() == p2.len(),
        0 <= a < b <= p1.len(),
        0 <= t < p1.len(),
        !(a <= t < b),
        a <= hstep(p1, p2, t) < b,
    ensures
        exists|m: nat| m <= (b - a) && #[trigger] chain_exits(p1, p2, a, b, t, m),
{
    let kk = (b - a) as nat;
    if forall|m: nat| 1 <= m <= kk ==> !chain_exits(p1, p2, a, b, t, m) {
        lemma_chain_stuck(p1, p2, a, b, t, kk, (kk + 1) as nat);
        lemma_distinct_bounded_len(p1, 0x10000);
        let s = Seq::new(kk + 1, |k: int| (hiter(p1, p2, t, (k + 1) as nat) - a) as u16);
        assert forall|k: int|
            0 <= k < s.len() implies (s[k] as int) < b - a && s[k] as int == hiter(
            p1,
            p2,
            t,
            (k + 1) as nat,
        ) - a by {
            assert(a <= hiter(p1, p2, t, (k + 1) as nat) < b);
            assert(0 <= hiter(p1, p2, t, (k + 1) as nat) - a < 0x10000);
        }
        if s.no_duplicates() {
            lemma_distinct_bounded_len(s, b - a);
            assert(false);
        }
        let (k1, k2) = choose|k1: int, k2: int|
            0 <= k1 < s.len() && 0 <= k2 < s.len() && k1 != k2 && s[k1] == s[k2];
        let x = if k1 < k2 {
            k1
        } else {
            k2
        };
        let y = if k1 < k2 {
            k2
        } else {
            k1
        };
        assert(a <= hiter(p1, p2, t, (x + 1) as nat) < b);
        assert(a <= hiter(p1, p2, t, (y + 1) as nat) < b);
        assert(hiter(p1, p2, t, (x + 1) as nat) == hiter(p1, p2, t, (y + 1) as nat));
        lemma_hiter_peel(p1, p2, t, (x + 1) as nat, (y + 1) as nat);
        assert(t == hiter(p1, p2, t, (y - x) as nat));
        assert(1 <= y - x <= kk);
        assert(a <= t < b);
        assert(false);
    }
}


/// Walking forward from the `m`-th backward iterate retraces the chain:
/// after `k` forward steps one stands at the `m - k`-th backward iterate.
pub proof fn lemma_fiter_of_hiter(p1: Seq<u16>, p2: Seq<u16>, t: int, m: nat, k: nat)
    requires
        is_permutation(p1),
        is_permutation(p2),
        p1.len() == p2.len(),
        0 <= t < p1.len(),
        k <= m,
    ensures
        fiter(p1, p2, hiter(p1, p2, t, m), k) == hiter(p1, p2, t, (m - k) as nat),
    decreases k,
{
    if k > 0 {
        lemma_fiter_of_hiter(p1, p2, t, m, (k - 1) as nat);
        let u = hiter(p1, p2, t, (m - k) as nat);
        lemma_hiter_in_range(p1, p2, t, (m - k) as nat);
        lemma_step_inverse(p1, p2, u);
        assert(hiter(p1, p2, t, (m - k + 1) as nat) == hstep(p1, p2, u));
        assert(fiter(p1, p2, hiter(p1, p2, t, m), k) == fstep(
            p1,
            p2,
            fiter(p1, p2, hiter(p1, p2, t, m), (k - 1) as nat),
        ));
        assert(fstep(p1, p2, hstep(p1, p2, u)) == u);
    }
}

} // verus!
