//! A single candidate solution: a permutation of queen rows per column,
//! together with its derived conflict data and a selection weight.
use crate::ga::perm::{
    clone_vec_u16, contains_value, is_permutation, lemma_contains_push,
    lemma_covering_is_permutation, lemma_push_keeps_distinct,
};
use crate::rng;
use vstd::prelude::*;

verus! {

/// Queens in columns `i` and `j` of layout `p` attack each other along a
/// diagonal: the row distance equals the column distance.
pub open spec fn attacks(p: Seq<u16>, i: int, j: int) -> bool {
    let col = if i <= j {
        j - i
    } else {
        i - j
    };
    let row = if p[i] <= p[j] {
        p[j] - p[i]
    } else {
        p[i] - p[j]
    };
    i != j && row == col
}

/// How many of the columns below `m` attack column `x`.
pub open spec fn attacks_below(p: Seq<u16>, x: int, m: int) -> nat
    decreases m,
{
    if m <= 0 {
        0
    } else {
        attacks_below(p, x, m - 1) + if attacks(p, x, m - 1) {
            1nat
        } else {
            0nat
        }
    }
}

/// The conflict count of column `x`: how many other columns attack it.
pub open spec fn conflict_count(p: Seq<u16>, x: int) -> nat {
    attacks_below(p, x, p.len() as int)
}

/// A column is attacked by fewer columns than are considered, since it
/// never attacks itself.
pub proof fn lemma_attacks_below_le(p: Seq<u16>, x: int, m: int)
    requires
        0 <= m,
    ensures
        attacks_below(p, x, m) <= m,
        0 <= x < m ==> attacks_below(p, x, m) < m,
    decreases m,
{
    if m > 0 {
        lemma_attacks_below_le(p, x, m - 1);
    }
}

/// The sum of the first `k` conflict counters.
pub open spec fn sum_prefix(s: Seq<u16>, k: int) -> nat
    decreases k,
{
    if k <= 0 {
        0
    } else {
        sum_prefix(s, k - 1) + s[k - 1] as nat
    }
}

/// One candidate board layout. `positions` maps each column to the row of
/// its queen; `conflicts` and `conflicts_sum` are derived at construction;
/// `fitness` is a selection weight the engine overwrites every epoch.
pub struct Chromosome {
    pub positions: Vec<u16>,
    pub conflicts: Vec<u16>,
    pub conflicts_sum: u16,
    pub fitness: u64,
}

impl Chromosome {
    /// Internal consistency: the layout is a permutation on a board of side
    /// 1 to 256, and the conflict data is exactly what the layout yields.
    pub open spec fn wf(&self) -> bool {
        &&& 1 <= self.positions@.len() <= 256
        &&& is_permutation(self.positions@)
        &&& self.conflicts@.len() == self.positions@.len()
        &&& forall|x: int|
            0 <= x < self.conflicts@.len() ==> self.conflicts@[x] as nat == conflict_count(
                self.positions@,
                x,
            )
        &&& self.conflicts_sum as nat == sum_prefix(
            self.conflicts@,
            self.conflicts@.len() as int,
        ) / 2
    }

    /// The board side this chromosome is laid out for.
    pub open spec fn size(&self) -> int {
        self.positions@.len() as int
    }

    /// Builds a chromosome from a permutation and derives its conflict data.
    /// Each attacking pair is counted once from each side, so the pair total
    /// is half the counter sum.
    pub fn new(positions: Vec<u16>) -> (r: Chromosome)
        requires
            is_permutation(positions@),
            1 <= positions@.len() <= 256,
        ensures
            r.wf(),
            r.positions@ == positions@,
            r.fitness == 0,
    {
        let conflicts = count_conflicts(&positions);
        let n = conflicts.len();
        let mut total: u16 = 0;
        for i in 0..n
            invariant
                n == conflicts@.len(),
                n == positions@.len(),
                1 <= n <= 256,
                forall|x: int|
                    0 <= x < n ==> conflicts@[x] as nat == conflict_count(positions@, x),
                total as nat == sum_prefix(conflicts@, i as int),
                total <= i * 255,
        {
            proof {
                lemma_attacks_below_le(positions@, i as int, n as int);
                assert(conflicts@[i as int] <= 255);
            }
            total = total + conflicts[i];
        }
        let conflicts_sum = total / 2;
        Chromosome { positions, conflicts, conflicts_sum, fitness: 0 }
    }

    pub fn get_positions(&self) -> (r: Vec<u16>)
        ensures
            r@ == self.positions@,
    {
        clone_vec_u16(&self.positions)
    }

    pub fn get_conflicts(&self) -> (r: Vec<u16>)
        ensures
            r@ == self.conflicts@,
    {
        clone_vec_u16(&self.conflicts)
    }

    pub fn get_conflicts_sum(&self) -> (r: u16)
        ensures
            r == self.conflicts_sum,
    {
        self.conflicts_sum
    }

    pub fn get_fitness(&self) -> (r: u64)
        ensures
            r == self.fitness,
    {
        self.fitness
    }

    /// Overwrites the selection weight and nothing else.
    pub fn set_fitness(&mut self, fitness: u64)
        ensures
            final (self).fitness == fitness,
            final (self).positions@ == old(self).positions@,
            final (self).conflicts@ == old(self).conflicts@,
            final (self).conflicts_sum == old(self).conflicts_sum,
    {
        self.fitness = fitness;
    }
}

/// Produces a random permutation of `0..size` by rejection sampling: draw a
/// random value, reduce it below `size`, and keep it when it is new, until
/// every value has appeared. The draws are capped; should the cap ever be
/// hit, the still missing values are appended in increasing order, so the
/// result is a full permutation in any case. `size == 0` yields an empty
/// result.
pub fn generate_distinct_random_values(size: u16) -> (r: Vec<u16>)
    ensures
        r@.len() == size as int,
        is_permutation(r@),
{
    let mut out: Vec<u16> = Vec::new();
    let mut seen: Vec<bool> = Vec::new();
    for _i in 0..size
        invariant
            seen@.len() == _i as int,
            forall|k: int| 0 <= k < _i as int ==> !seen@[k],
    {
        seen.push(false);
    }
    if size == 0 {
        return out;
    }
    let mut fuel: u32 = (size as u32) * 64 + 64;
    while out.len() < size as usize && fuel > 0
        invariant
            size > 0,
            seen@.len() == size as int,
            out@.len() <= size as int,
            out@.no_duplicates(),
            forall|i: int| 0 <= i < out@.len() ==> (out@[i] as int) < size as int,
            forall|v: int| 0 <= v < size as int ==> (seen@[v] <==> contains_value(out@, v)),
        decreases fuel,
    {
        let raw = rng::random_u16();
        let v = raw % size;
        if !seen[v as usize] {
            proof {
                lemma_push_keeps_distinct(out@, v);
                assert forall|w: int| 0 <= w < size as int implies (seen@.update(
                    v as int,
                    true,
                )[w] <==> contains_value(out@.push(v), w)) by {
                    lemma_contains_push(out@, v, w);
                }
            }
            seen[v as usize] = true;
            out.push(v);
        }
        fuel = fuel - 1;
    }
    if out.len() < size as usize {
        // the cap ran out: complete deterministically
        for v in 0..size
            invariant
                size > 0,
                seen@.len() == size as int,
                out@.no_duplicates(),
                forall|i: int| 0 <= i < out@.len() ==> (out@[i] as int) < size as int,
                forall|w: int| 0 <= w < size as int ==> (seen@[w] <==> contains_value(out@, w)),
                forall|w: int| 0 <= w < v as int ==> seen@[w],
        {
            if !seen[v as usize] {
                proof {
                    lemma_push_keeps_distinct(out@, v);
                    assert forall|w: int| 0 <= w < size as int implies (seen@.update(
                        v as int,
                        true,
                    )[w] <==> contains_value(out@.push(v), w)) by {
                        lemma_contains_push(out@, v, w);
                    }
                }
                seen[v as usize] = true;
                out.push(v);
            }
        }
        proof {
            lemma_covering_is_permutation(out@, size as int);
        }
        return out;
    }
    out
}

/// Computes for each column how many other columns attack it along a
/// diagonal. Every unordered pair of columns is examined once and a hit
/// increments the counter on both sides.
pub fn count_conflicts(positions: &Vec<u16>) -> (r: Vec<u16>)
    requires
        1 <= positions@.len() <= 256,
    ensures
        r@.len() == positions@.len(),
        forall|x: int| 0 <= x < r@.len() ==> r@[x] as nat == conflict_count(positions@, x),
{
    let size = positions.len();
    let mut conflicts: Vec<u16> = Vec::new();
    for _i in 0..size
        invariant
            conflicts@.len() == _i as int,
            forall|x: int| 0 <= x < _i as int ==> conflicts@[x] == 0,
    {
        conflicts.push(0);
    }
    let ghost p = positions@;
    for x_two in 0..(size - 1)
        invariant
            size == p.len(),
            p == positions@,
            1 <= size <= 256,
            conflicts@.len() == size,
            forall|x: int| 0 <= x < x_two as int ==> conflicts@[x] as nat == conflict_count(p, x),
            forall|x: int|
                (x_two as int) <= x < size ==> conflicts@[x] as nat == attacks_below(
                    p,
                    x,
                    x_two as int,
                ),
    {
        for x_one in (x_two + 1)..size
            invariant
                size == p.len(),
                p == positions@,
                1 <= size <= 256,
                x_two < size - 1,
                x_two < x_one <= size,
                conflicts@.len() == size,
                forall|x: int|
                    0 <= x < x_two as int ==> conflicts@[x] as nat == conflict_count(p, x),
                conflicts@[x_two as int] as nat == attacks_below(p, x_two as int, x_one as int),
                forall|x: int|
                    (x_two as int) < x < size ==> conflicts@[x] as nat == attacks_below(
                        p,
                        x,
                        x_two as int,
                    ) + (if x < x_one as int && attacks(p, x_two as int, x) {
                        1nat
                    } else {
                        0nat
                    }),
        {
            let distance = (x_one - x_two) as u16;
            let y_one = positions[x_one];
            let y_two = positions[x_two];
            let diff = if y_one >= y_two {
                y_one - y_two
            } else {
                y_two - y_one
            };
            if diff == distance {
                proof {
                    lemma_attacks_below_le(p, x_one as int, x_two as int);
                    lemma_attacks_below_le(p, x_two as int, x_one as int);
                    assert(attacks(p, x_two as int, x_one as int));
                    assert(attacks(p, x_one as int, x_two as int));
                }
                let c_one = conflicts[x_one];
                conflicts[x_one] = c_one + 1;
                let c_two = conflicts[x_two];
                conflicts[x_two] = c_two + 1;
            } else {
                proof {
                    assert(!attacks(p, x_two as int, x_one as int));
                }
            }
        }
    }
    proof {
        assert(conflicts@[size - 1] as nat == attacks_below(p, size - 1, size - 1));
        assert(!attacks(p, size - 1, size - 1));
        assert(conflicts@[size - 1] as nat == conflict_count(p, size - 1));
    }
    conflicts
}

} // verus!
