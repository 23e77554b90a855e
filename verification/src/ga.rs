//! The evolutionary engine: fitness scaling, roulette selection, partially
//! mapped crossover and the bounded epoch loop.
use crate::ga::chromosome::Chromosome;
use crate::ga::chain::{
    chain_exits, fiter, fstep, hiter, hstep, lemma_chain_exists, lemma_fiter_of_hiter,
    lemma_pos_of,
};
use crate::ga::perm::{
    contains_value, index_of_value, is_permutation, lemma_distinct_bounded_complete,
};
use crate::rng;
use vstd::prelude::*;

pub mod chain;
pub mod chromosome;
pub mod perm;

verus! {

pub const MIN_TO_MATE: u16 = 10;

pub const MAX_TO_MATE: u16 = 50;

pub const MAX_EPOCH_COUNT: u16 = 5000;

/// How a run of the epoch loop ended: with a conflict-free chromosome in the
/// population, or with the epoch budget exhausted.
#[derive(Clone, Copy, Debug, PartialEq, Eq, Structural)]
pub enum RunOutcome {
    SolutionFound,
    NoSolutionFound,
}

/// `v` is the least conflict sum occurring in `pop`.
pub open spec fn is_min_cs(pop: Seq<Chromosome>, v: int) -> bool {
    &&& exists|i: int| 0 <= i < pop.len() && (#[trigger] pop[i]).conflicts_sum as int == v
    &&& forall|i: int| 0 <= i < pop.len() ==> (#[trigger] pop[i]).conflicts_sum as int >= v
}

/// `v` is the greatest conflict sum occurring in `pop`.
pub open spec fn is_max_cs(pop: Seq<Chromosome>, v: int) -> bool {
    &&& exists|i: int| 0 <= i < pop.len() && (#[trigger] pop[i]).conflicts_sum as int == v
    &&& forall|i: int| 0 <= i < pop.len() ==> (#[trigger] pop[i]).conflicts_sum as int <= v
}

/// The least conflict sum in `pop`; meaningful for non-empty `pop`.
pub open spec fn min_cs_val(pop: Seq<Chromosome>) -> int {
    choose|v: int| is_min_cs(pop, v)
}

/// The greatest conflict sum in `pop`; meaningful for non-empty `pop`.
pub open spec fn max_cs_val(pop: Seq<Chromosome>) -> int {
    choose|v: int| is_max_cs(pop, v)
}

/// A non-empty population has a least and a greatest conflict sum.
pub proof fn lemma_cs_extremes_exist(pop: Seq<Chromosome>)
    requires
        pop.len() >= 1,
    ensures
        is_min_cs(pop, min_cs_val(pop)),
        is_max_cs(pop, max_cs_val(pop)),
        min_cs_val(pop) <= max_cs_val(pop),
    decreases pop.len(),
{
    if pop.len() == 1 {
        let v = pop[0].conflicts_sum as int;
        assert(is_min_cs(pop, v));
        assert(is_max_cs(pop, v));
    } else {
        let sub = pop.drop_last();
        lemma_cs_extremes_exist(sub);
        let last = pop[pop.len() - 1].conflicts_sum as int;
        assert(forall|i: int| 0 <= i < sub.len() ==> sub[i] == pop[i]);
        let bs = min_cs_val(sub);
        let b = if last < bs {
            last
        } else {
            bs
        };
        let wi = choose|i: int| 0 <= i < sub.len() && (#[trigger] sub[i]).conflicts_sum as int
            == bs;
        assert(pop[wi].conflicts_sum as int == bs);
        assert(is_min_cs(pop, b));
        let ws = max_cs_val(sub);
        let w = if last > ws {
            last
        } else {
            ws
        };
        let wj = choose|i: int| 0 <= i < sub.len() && (#[trigger] sub[i]).conflicts_sum as int
            == ws;
        assert(pop[wj].conflicts_sum as int == ws);
        assert(is_max_cs(pop, w));
    }
    let bw = choose|i: int| 0 <= i < pop.len() && (#[trigger] pop[i]).conflicts_sum as int
        == min_cs_val(pop);
    assert(pop[bw].conflicts_sum as int <= max_cs_val(pop));
}

/// The selection weight that fitness scaling assigns for a conflict sum of
/// `cs`, where `worst` and `best` are the population's extreme sums: the
/// cube of the distance to the worst. The scaled fitness of the design is
/// this weight divided by the cube of the whole span, so the full weight
/// `(worst - best)^3` stands for a fitness of one. A homogeneous population
/// has no span; every chromosome then gets the same weight.
pub open spec fn fitness_weight(worst: int, best: int, cs: int) -> int {
    if worst == best {
        1
    } else {
        (worst - cs) * (worst - cs) * (worst - cs)
    }
}

/// Scaling a population whose conflict sums span more than one value gives
/// every least-conflict chromosome the full weight `(worst - best)^3` (the
/// scaled fitness of one), never zero, and every most-conflict chromosome
/// the weight zero. `pop` is the population as it was scored and `scored`
/// the population afterwards, related as `calc_fitness` promises.
pub proof fn lemma_fitness_scaling_extremes(pop: Seq<Chromosome>, scored: Seq<Chromosome>)
    requires
        pop.len() >= 1,
        scored.len() == pop.len(),
        min_cs_val(pop) != max_cs_val(pop),
        forall|i: int|
            0 <= i < pop.len() ==> (#[trigger] scored[i]).fitness as int == fitness_weight(
                max_cs_val(pop),
                min_cs_val(pop),
                (#[trigger] pop[i]).conflicts_sum as int,
            ),
    ensures
        forall|i: int|
            0 <= i < pop.len() && (#[trigger] pop[i]).conflicts_sum as int == min_cs_val(pop)
                ==> (#[trigger] scored[i]).fitness as int == (max_cs_val(pop) - min_cs_val(pop))
                * (max_cs_val(pop) - min_cs_val(pop)) * (max_cs_val(pop) - min_cs_val(pop))
                && scored[i].fitness >= 1,
        forall|i: int|
            0 <= i < pop.len() && (#[trigger] pop[i]).conflicts_sum as int == max_cs_val(pop)
                ==> (#[trigger] scored[i]).fitness == 0,
{
    lemma_cs_extremes_exist(pop);
    let b = min_cs_val(pop);
    let w = max_cs_val(pop);
    let d = w - b;
    assert(d >= 1);
    assert(d * d * d >= 1) by (nonlinear_arith)
        requires
            d >= 1,
    ;
}

/// The sum of the selection weights of the first `k` chromosomes.
pub open spec fn fitness_prefix(pop: Seq<Chromosome>, k: int) -> int
    decreases k,
{
    if k <= 0 {
        0
    } else {
        fitness_prefix(pop, k - 1) + pop[k - 1].fitness as int
    }
}

/// The sum of all selection weights of the population.
pub open spec fn total_fitness(pop: Seq<Chromosome>) -> int {
    fitness_prefix(pop, pop.len() as int)
}

/// A weight sum over `k` chromosomes is non-negative and at most `k` full
/// counters.
pub proof fn lemma_fitness_prefix_bounds(pop: Seq<Chromosome>, k: int)
    requires
        0 <= k,
    ensures
        0 <= fitness_prefix(pop, k) <= k * (u64::MAX as int),
    decreases k,
{
    if k > 0 {
        lemma_fitness_prefix_bounds(pop, k - 1);
    }
}

/// A weight sum over a prefix does not see values appended behind it.
pub proof fn lemma_fitness_prefix_push(pop: Seq<Chromosome>, c: Chromosome, k: int)
    requires
        0 <= k <= pop.len(),
    ensures
        fitness_prefix(pop.push(c), k) == fitness_prefix(pop, k),
    decreases k,
{
    if k > 0 {
        lemma_fitness_prefix_push(pop, c, k - 1);
        assert(pop.push(c)[k - 1] == pop[k - 1]);
    }
}

/// The engine's state: an ordered, non-empty population of chromosomes that
/// only grows while the engine runs.
pub struct GeneticAlgorithm {
    pub population: Vec<Chromosome>,
}

impl GeneticAlgorithm {
    /// The board side all chromosomes of the population are laid out for.
    pub open spec fn width(&self) -> int {
        self.population@[0].positions@.len() as int
    }

    /// The population is non-empty and holds consistent chromosomes of one
    /// common board side.
    pub open spec fn wf(&self) -> bool {
        &&& self.population@.len() >= 1
        &&& forall|i: int|
            0 <= i < self.population@.len() ==> (#[trigger] self.population@[i]).wf()
        &&& forall|i: int|
            0 <= i < self.population@.len() ==> (#[trigger] self.population@[i]).positions@.len()
                == self.width()
    }

    /// Wraps a population as an engine.
    pub fn new(population: Vec<Chromosome>) -> (r: GeneticAlgorithm)
        requires
            population@.len() >= 1,
            forall|i: int| 0 <= i < population@.len() ==> (#[trigger] population@[i]).wf(),
            forall|i: int|
                0 <= i < population@.len() ==> (#[trigger] population@[i]).positions@.len()
                    == population@[0].positions@.len(),
        ensures
            r.population@ == population@,
            r.wf(),
    {
        GeneticAlgorithm { population }
    }

    /// The population size, truncated to the width of the counter.
    pub fn get_population_size(&self) -> (r: u16)
        ensures
            self.population@.len() <= u16::MAX ==> r == self.population@.len() as u16,
    {
        #[verifier::truncate]
        (self.population.len() as u16)
    }

    /// The index of the first chromosome with the least conflict sum.
    fn best_index(&self) -> (r: usize)
        requires
            self.wf(),
        ensures
            r < self.population@.len(),
            forall|j: int|
                0 <= j < self.population@.len() ==> (#[trigger] self.population@[j]).conflicts_sum
                    >= self.population@[r as int].conflicts_sum,
            forall|j: int|
                0 <= j < r ==> (#[trigger] self.population@[j]).conflicts_sum
                    > self.population@[r as int].conflicts_sum,
    {
        let n = self.population.len();
        let mut best: usize = 0;
        for i in 1..n
            invariant
                n == self.population@.len(),
                best < i <= n,
                forall|j: int|
                    0 <= j < i ==> (#[trigger] self.population@[j]).conflicts_sum
                        >= self.population@[best as int].conflicts_sum,
                forall|j: int|
                    0 <= j < best ==> (#[trigger] self.population@[j]).conflicts_sum
                        > self.population@[best as int].conflicts_sum,
        {
            if self.population[i].conflicts_sum < self.population[best].conflicts_sum {
                best = i;
            }
        }
        best
    }

    /// The index of the first chromosome with the greatest conflict sum.
    fn worst_index(&self) -> (r: usize)
        requires
            self.wf(),
        ensures
            r < self.population@.len(),
            forall|j: int|
                0 <= j < self.population@.len() ==> (#[trigger] self.population@[j]).conflicts_sum
                    <= self.population@[r as int].conflicts_sum,
            forall|j: int|
                0 <= j < r ==> (#[trigger] self.population@[j]).conflicts_sum
                    < self.population@[r as int].conflicts_sum,
    {
        let n = self.population.len();
        let mut worst: usize = 0;
        for i in 1..n
            invariant
                n == self.population@.len(),
                worst < i <= n,
                forall|j: int|
                    0 <= j < i ==> (#[trigger] self.population@[j]).conflicts_sum
                        <= self.population@[worst as int].conflicts_sum,
                forall|j: int|
                    0 <= j < worst ==> (#[trigger] self.population@[j]).conflicts_sum
                        < self.population@[worst as int].conflicts_sum,
        {
            if self.population[i].conflicts_sum > self.population[worst].conflicts_sum {
                worst = i;
            }
        }
        worst
    }

    /// The first chromosome with the least conflict sum; ties resolve to the
    /// earliest position in the population.
    pub fn get_best_chromosome(&self) -> (r: &Chromosome)
        requires
            self.wf(),
        ensures
            exists|i: int|
                #![auto]
                0 <= i < self.population@.len() && *r == self.population@[i] && (forall|j: int|
                    0 <= j < self.population@.len() ==> self.population@[j].conflicts_sum
                        >= self.population@[i].conflicts_sum) && (forall|j: int|
                    0 <= j < i ==> self.population@[j].conflicts_sum
                        > self.population@[i].conflicts_sum),
            (r.conflicts_sum == 0 <==> exists|i: int|
                0 <= i < self.population@.len() && (#[trigger] self.population@[i]).conflicts_sum
                    == 0),
    {
        let i = self.best_index();
        &self.population[i]
    }

    /// The first chromosome with the greatest conflict sum; ties resolve to
    /// the earliest position in the population.
    pub fn get_worst_chromosome(&self) -> (r: &Chromosome)
        requires
            self.wf(),
        ensures
            exists|i: int|
                #![auto]
                0 <= i < self.population@.len() && *r == self.population@[i] && (forall|j: int|
                    0 <= j < self.population@.len() ==> self.population@[j].conflicts_sum
                        <= self.population@[i].conflicts_sum) && (forall|j: int|
                    0 <= j < i ==> self.population@[j].conflicts_sum
                        < self.population@[i].conflicts_sum),
    {
        let i = self.worst_index();
        &self.population[i]
    }

    /// Recomputes every chromosome's selection weight from the population's
    /// conflict-sum span. Only the weights change; a homogeneous population
    /// is the guarded case and gets uniform weights.
    pub fn calc_fitness(&mut self)
        requires
            old(self).wf(),
        ensures
            final (self).wf(),
            final (self).population@.len() == old(self).population@.len(),
            final (self).width() == old(self).width(),
            forall|i: int|
                #![auto]
                0 <= i < old(self).population@.len() ==> {
                    &&& final (self).population@[i].positions@ == old(
                        self,
                    ).population@[i].positions@
                    &&& final (self).population@[i].conflicts@ == old(
                        self,
                    ).population@[i].conflicts@
                    &&& final (self).population@[i].conflicts_sum == old(
                        self,
                    ).population@[i].conflicts_sum
                    &&& final (self).population@[i].fitness as int == fitness_weight(
                        max_cs_val(old(self).population@),
                        min_cs_val(old(self).population@),
                        old(self).population@[i].conflicts_sum as int,
                    )
                },
    {
        let ghost pop0 = self.population@;
        let worst_i = self.worst_index();
        let best_i = self.best_index();
        let worst = self.population[worst_i].conflicts_sum;
        let best = self.population[best_i].conflicts_sum;
        proof {
            lemma_cs_extremes_exist(pop0);
            assert(is_max_cs(pop0, worst as int));
            assert(is_min_cs(pop0, best as int));
            let wi = choose|i: int| 0 <= i < pop0.len() && (#[trigger] pop0[i]).conflicts_sum as int
                == max_cs_val(pop0);
            let bi = choose|i: int| 0 <= i < pop0.len() && (#[trigger] pop0[i]).conflicts_sum as int
                == min_cs_val(pop0);
            assert(worst as int == max_cs_val(pop0));
            assert(best as int == min_cs_val(pop0));
        }
        let diff = worst - best;
        let n = self.population.len();
        for i in 0..n
            invariant
                n == self.population@.len(),
                n == pop0.len(),
                worst as int == max_cs_val(pop0),
                best as int == min_cs_val(pop0),
                diff == worst - best,
                forall|k: int| i as int <= k < n ==> self.population@[k] == pop0[k],
                forall|k: int|
                    #![auto]
                    0 <= k < i as int ==> {
                        &&& self.population@[k].positions@ == pop0[k].positions@
                        &&& self.population@[k].conflicts@ == pop0[k].conflicts@
                        &&& self.population@[k].conflicts_sum == pop0[k].conflicts_sum
                        &&& self.population@[k].fitness as int == fitness_weight(
                            worst as int,
                            best as int,
                            pop0[k].conflicts_sum as int,
                        )
                    },
                forall|k: int| 0 <= k < n ==> (#[trigger] pop0[k]).conflicts_sum <= worst,
                forall|k: int| 0 <= k < n ==> (#[trigger] pop0[k]).wf(),
                forall|k: int|
                    0 <= k < n ==> (#[trigger] pop0[k]).positions@.len()
                        == pop0[0].positions@.len(),
                n >= 1,
        {
            proof {
                assert(self.population@[i as int] == pop0[i as int]);
                assert(pop0[i as int].conflicts_sum <= worst);
            }
            let cs = self.population[i].conflicts_sum;
            let f: u64 = if diff == 0 {
                1
            } else {
                let d = (worst - cs) as u64;
                proof {
                    assert(d * d <= 0xffff * 0xffff && d * d * d <= 0xffff * 0xffff
                        * 0xffff) by (nonlinear_arith)
                        requires
                            0 <= d <= 0xffff,
                    ;
                }
                d * d * d
            };
            self.population[i].set_fitness(f);
        }
        proof {
            assert forall|k: int| 0 <= k < n implies (#[trigger] self.population@[k]).wf() by {
                assert(pop0[k].wf());
                assert(self.population@[k].positions@ == pop0[k].positions@);
                assert(self.population@[k].conflicts@ == pop0[k].conflicts@);
                assert(self.population@[k].conflicts_sum == pop0[k].conflicts_sum);
            }
            assert(self.population@[0].positions@ == pop0[0].positions@);
            assert forall|k: int|
                0 <= k < n implies (#[trigger] self.population@[k]).positions@.len()
                == self.width() by {
                assert(self.population@[k].positions@ == pop0[k].positions@);
                assert(pop0[k].positions@.len() == pop0[0].positions@.len());
            }
        }
    }

    /// Roulette selection: spins a uniform value below `fitness_sum` and
    /// walks the population accumulating weights until the accumulated rank
    /// exceeds the spin. With `fitness_sum == 0` there is nothing to spin
    /// over and the caller must fall back; otherwise some chromosome is
    /// always returned, and only one with a positive weight can absorb the
    /// spin.
    pub fn select_random_chromosome(&self, fitness_sum: u128) -> (r: Option<usize>)
        requires
            self.wf(),
            fitness_sum > 0 ==> fitness_sum as int <= total_fitness(self.population@),
        ensures
            r is None <==> fitness_sum == 0,
            r matches Some(i) ==> i < self.population@.len()
                && self.population@[i as int].fitness > 0,
    {
        if fitness_sum == 0 {
            return None;
        }
        let roulette_spin = rng::random_u128_range(0, fitness_sum);
        let mut selection_rank: u128 = 0;
        let n = self.population.len();
        for i in 0..n
            invariant
                n == self.population@.len(),
                selection_rank as int == fitness_prefix(self.population@, i as int),
                selection_rank <= roulette_spin,
                roulette_spin < fitness_sum,
                fitness_sum as int <= total_fitness(self.population@),
        {
            proof {
                lemma_fitness_prefix_bounds(self.population@, i as int + 1);
                assert((i as int + 1) * (u64::MAX as int) <= 0x1_0000_0000_0000_0000
                    * (u64::MAX as int));
            }
            let f = self.population[i].get_fitness();
            selection_rank = selection_rank + (f as u128);
            if selection_rank > roulette_spin {
                return Some(i);
            }
        }
        proof {
            assert(selection_rank as int == total_fitness(self.population@));
            assert(false);
        }
        None
    }
}

/// Does some slot of the child already hold the value `v`?
fn contains_gene(child: &Vec<Option<u16>>, v: u16) -> (r: bool)
    ensures
        r == exists|j: int| 0 <= j < child@.len() && child@[j] == Some(v),
{
    let n = child.len();
    for i in 0..n
        invariant
            n == child@.len(),
            forall|j: int| 0 <= j < i ==> child@[j] != Some(v),
    {
        match child[i] {
            Some(g) => {
                if g == v {
                    return true;
                }
            },
            None => {},
        }
    }
    false
}

/// The index of the first free slot of the child.
fn first_none_slot(child: &Vec<Option<u16>>) -> (r: usize)
    requires
        exists|j: int| 0 <= j < child@.len() && child@[j] is None,
    ensures
        r < child@.len(),
        child@[r as int] is None,
{
    let n = child.len();
    for i in 0..n
        invariant
            n == child@.len(),
            forall|j: int| 0 <= j < i ==> !(child@[j] is None),
            exists|j: int| 0 <= j < child@.len() && child@[j] is None,
    {
        match child[i] {
            None => return i,
            Some(_) => {},
        }
    }
    proof {
        let j = choose|j: int| 0 <= j < child@.len() && child@[j] is None;
        assert(false);
    }
    0
}

/// A child whose occupied slots hold distinct values below its length
/// cannot be fully occupied while the value `v` is still absent: some slot
/// is free.
proof fn lemma_free_slot(child: Seq<Option<u16>>, v: u16)
    requires
        (v as int) < child.len(),
        forall|j1: int, j2: int|
            0 <= j1 < j2 < child.len() && child[j1] is Some && child[j2] is Some ==> child[j1]
                != child[j2],
        forall|j: int|
            0 <= j < child.len() && child[j] is Some ==> ((#[trigger] child[j]).unwrap() as int)
                < child.len(),
        forall|j: int| 0 <= j < child.len() ==> child[j] != Some(v),
    ensures
        exists|j: int| 0 <= j < child.len() && child[j] is None,
{
    if forall|j: int| 0 <= j < child.len() ==> (#[trigger] child[j]) is Some {
        let vals = Seq::new(child.len(), |j: int| child[j].unwrap());
        assert forall|j1: int, j2: int|
            0 <= j1 < child.len() && 0 <= j2 < child.len() && j1 != j2 implies vals[j1]
            != vals[j2] by {
            if j1 < j2 {
                assert(child[j1] != child[j2]);
            } else {
                assert(child[j2] != child[j1]);
            }
        }
        assert(vals.no_duplicates());
        lemma_distinct_bounded_complete(vals, child.len() as int);
        assert(contains_value(vals, v as int));
        let i = choose|i: int| 0 <= i < vals.len() && vals[i] as int == v as int;
        assert(child[i] == Some(v));
        assert(false);
    }
}

/// Follows the mapping chain of the partially mapped crossover: the walk
/// starts where the second parent holds the first parent's value of
/// `index`, and an occupied child slot sends it onward through the same
/// mapping. It lands on the first free slot along the chain; the walk is
/// capped at one step per slot, and if every probed slot were occupied it
/// would fall back to the first free slot of the child.
pub fn find_position(
    index: usize,
    parent_one: &Vec<u16>,
    parent_two: &Vec<u16>,
    child: &Vec<Option<u16>>,
) -> (r: usize)
    requires
        is_permutation(parent_one@),
        is_permutation(parent_two@),
        parent_one@.len() == parent_two@.len(),
        child@.len() == parent_one@.len(),
        index < parent_one@.len(),
        exists|j: int| 0 <= j < child@.len() && child@[j] is None,
    ensures
        r < child@.len(),
        child@[r as int] is None,
        (exists|s: nat|
            1 <= s <= child@.len() && r as int == fiter(
                parent_one@,
                parent_two@,
                index as int,
                s,
            ) && (forall|k: nat|
                1 <= k < s ==> (#[trigger] child@[fiter(
                    parent_one@,
                    parent_two@,
                    index as int,
                    k,
                )]) is Some)) || (forall|s: nat|
            1 <= s <= child@.len() ==> (#[trigger] child@[fiter(
                parent_one@,
                parent_two@,
                index as int,
                s,
            )]) is Some),
{
    let n = child.len();
    let mut idx = index;
    let mut fuel = n;
    let ghost probes: nat = 0;
    while fuel > 0
        invariant
            n == child@.len(),
            n == parent_one@.len(),
            n == parent_two@.len(),
            is_permutation(parent_one@),
            is_permutation(parent_two@),
            index < n,
            idx < n,
            fuel <= n,
            probes == n - fuel,
            idx as int == fiter(parent_one@, parent_two@, index as int, probes),
            forall|k: nat|
                1 <= k <= probes ==> (#[trigger] child@[fiter(
                    parent_one@,
                    parent_two@,
                    index as int,
                    k,
                )]) is Some,
        decreases fuel,
    {
        let position = index_of_value(parent_two, parent_one[idx]);
        proof {
            lemma_pos_of(parent_two@, parent_one@[idx as int] as int);
            assert(position as int == fstep(parent_one@, parent_two@, idx as int));
            assert(position as int == fiter(
                parent_one@,
                parent_two@,
                index as int,
                (probes + 1) as nat,
            ));
        }
        match child[position] {
            None => {
                return position;
            },
            Some(_) => {
                idx = position;
            },
        }
        proof {
            probes = probes + 1;
        }
        fuel = fuel - 1;
    }
    first_none_slot(child)
}

/// The child `r` is a crossover of the two parents at the cut points
/// `pa..pb`: inside the segment it copies the first parent, and every
/// column outside it holds the second parent's value of that column or a
/// segment value of the second parent that was displaced by the copy.
#[verifier::opaque]
pub open spec fn crossed_at(r: Seq<u16>, p1: Seq<u16>, p2: Seq<u16>, pa: int, pb: int) -> bool {
    &&& 0 <= pa < pb < p1.len()
    &&& forall|i: int| pa <= i < pb ==> r[i] == p1[i]
    &&& forall|t: int|
        (0 <= t < pa || pb <= t < p1.len()) ==> (r[t] == p2[t] || exists|j: int|
            pa <= j < pb && r[t] == p2[j])
}

/// The child `r` is a crossover of the two parents at some pair of cut
/// points.
pub open spec fn crossover_child(r: Seq<u16>, p1: Seq<u16>, p2: Seq<u16>) -> bool {
    exists|pa: int, pb: int| #[trigger] crossed_at(r, p1, p2, pa, pb)
}

/// Member `k` of the population is a crossover child of two members that
/// stand before it.
pub open spec fn offspring_of_earlier(pop: Seq<Chromosome>, k: int) -> bool {
    exists|a1: int, a2: int|
        0 <= a1 < k && 0 <= a2 < k && #[trigger] crossover_child(
            pop[k].positions@,
            pop[a1].positions@,
            pop[a2].positions@,
        )
}

/// The partially mapped crossover with chosen cut points: the child takes
/// the first parent's segment unchanged; each segment value of the second
/// parent that the child does not yet hold is rehomed along the mapping
/// chain; the remaining slots copy from the second parent. Bijectivity is
/// preserved by construction: the chains land exactly on the slots whose
/// copied-over values would otherwise collide.
pub fn pmx_with_points(
    parent_one: &Vec<u16>,
    parent_two: &Vec<u16>,
    point_one: usize,
    point_two: usize,
) -> (r: Vec<u16>)
    requires
        is_permutation(parent_one@),
        is_permutation(parent_two@),
        parent_one@.len() == parent_two@.len(),
        point_one < point_two,
        point_two < parent_one@.len(),
    ensures
        r@.len() == parent_one@.len(),
        is_permutation(r@),
        crossed_at(r@, parent_one@, parent_two@, point_one as int, point_two as int),
{
    let ghost p1s = parent_one@;
    let ghost p2s = parent_two@;
    let ghost a = point_one as int;
    let ghost b = point_two as int;
    let n = parent_one.len();
    let mut child_genes: Vec<Option<u16>> = Vec::new();
    for i in 0..n
        invariant
            child_genes@.len() == i as int,
            forall|j: int| 0 <= j < i as int ==> child_genes@[j] is None,
    {
        child_genes.push(None);
    }
    for i in point_one..point_two
        invariant
            n == p1s.len(),
            p1s == parent_one@,
            child_genes@.len() == n,
            point_one <= i <= point_two,
            point_two < n,
            a == point_one as int,
            b == point_two as int,
            forall|j: int| a <= j < i as int ==> child_genes@[j] == Some(p1s[j]),
            forall|j: int| (0 <= j < a || i as int <= j < n) ==> child_genes@[j] is None,
    {
        child_genes[i] = Some(parent_one[i]);
    }
    proof {
        assert forall|t: int|
            0 <= t < n && (#[trigger] child_genes@[t]) is None && a <= hstep(p1s, p2s, t)
                < b implies exists|m: nat|
            1 <= m <= (b - a) && #[trigger] chain_exits(p1s, p2s, a, b, t, m) && hiter(
                p1s,
                p2s,
                t,
                m,
            ) >= a by {
            assert(!(a <= t < b));
            lemma_chain_exists(p1s, p2s, a, b, t);
            let m = choose|m: nat| m <= (b - a) && #[trigger] chain_exits(p1s, p2s, a, b, t, m);
            assert(a <= hiter(p1s, p2s, t, m) < b);
        }
    }
    for i in point_one..point_two
        invariant
            n == p1s.len(),
            n == p2s.len(),
            p1s == parent_one@,
            p2s == parent_two@,
            is_permutation(p1s),
            is_permutation(p2s),
            child_genes@.len() == n,
            point_one <= i <= point_two,
            a == point_one as int,
            b == point_two as int,
            point_two < n,
            forall|j: int| a <= j < b ==> child_genes@[j] == Some(p1s[j]),
            forall|j1: int, j2: int|
                0 <= j1 < j2 < n && child_genes@[j1] is Some && child_genes@[j2] is Some
                    ==> child_genes@[j1] != child_genes@[j2],
            forall|j: int|
                0 <= j < n && child_genes@[j] is Some ==> ((
                #[trigger] child_genes@[j]).unwrap() as int) < n,
            forall|s: int|
                (0 <= s < a || b <= s < n) && (#[trigger] child_genes@[s]) is Some
                    ==> exists|j: int| a <= j < i as int && child_genes@[s] == Some(p2s[j]),
            forall|t: int|
                0 <= t < n && (#[trigger] child_genes@[t]) is None && a <= hstep(p1s, p2s, t)
                    < b ==> exists|m: nat|
                    1 <= m <= (b - a) && #[trigger] chain_exits(p1s, p2s, a, b, t, m) && hiter(
                        p1s,
                        p2s,
                        t,
                        m,
                    ) >= i as int,
    {
        let g = parent_two[i];
        if !contains_gene(&child_genes, g) {
            proof {
                lemma_free_slot(child_genes@, g);
            }
            let ghost childp = child_genes@;
            let position = find_position(i, parent_one, parent_two, &child_genes);
            proof {
                assert forall|t: int|
                    0 <= t < n && (#[trigger] childp[t]) is None && t != position as int && a
                        <= hstep(p1s, p2s, t) < b implies exists|m: nat|
                    1 <= m <= (b - a) && #[trigger] chain_exits(p1s, p2s, a, b, t, m) && hiter(
                        p1s,
                        p2s,
                        t,
                        m,
                    ) >= i as int + 1 by {
                    let m = choose|m: nat|
                        1 <= m <= (b - a) && #[trigger] chain_exits(p1s, p2s, a, b, t, m)
                            && hiter(p1s, p2s, t, m) >= i as int;
                    if hiter(p1s, p2s, t, m) == i as int {
                        lemma_fiter_of_hiter(p1s, p2s, t, m, m);
                        assert(fiter(p1s, p2s, i as int, m) == t);
                        assert forall|k: nat| 1 <= k < m implies a <= fiter(p1s, p2s, i as int, k)
                            < b && (#[trigger] childp[fiter(p1s, p2s, i as int, k)]) is Some by {
                            lemma_fiter_of_hiter(p1s, p2s, t, m, k);
                            assert(a <= hiter(p1s, p2s, t, (m - k) as nat) < b);
                        }
                        if forall|q: nat|
                            1 <= q <= n ==> (#[trigger] childp[fiter(p1s, p2s, i as int, q)])
                                is Some {
                            assert(childp[fiter(p1s, p2s, i as int, m)] is Some);
                            assert(false);
                        }
                        let q = choose|q: nat|
                            1 <= q <= n && position as int == fiter(p1s, p2s, i as int, q) && (
                            forall|k: nat|
                                1 <= k < q ==> (#[trigger] childp[fiter(
                                    p1s,
                                    p2s,
                                    i as int,
                                    k,
                                )]) is Some);
                        if q < m {
                            assert(a <= fiter(p1s, p2s, i as int, q) < b);
                            assert(childp[position as int] is Some);
                            assert(false);
                        }
                        if q > m {
                            assert(childp[fiter(p1s, p2s, i as int, m)] is Some);
                            assert(false);
                        }
                        assert(false);
                    }
                    assert(hiter(p1s, p2s, t, m) >= i as int + 1);
                }
            }
            child_genes[position] = Some(g);
            proof {
                assert(forall|j: int|
                    0 <= j < n && j != position as int ==> child_genes@[j] == childp[j]);
                assert(child_genes@[position as int] == Some(p2s[i as int]));
                assert forall|j: int| a <= j < b implies child_genes@[j] == Some(p1s[j]) by {
                    assert(childp[j] is Some);
                }
            }
        } else {
            proof {
                let s0 = choose|s: int| 0 <= s < n && child_genes@[s] == Some(p2s[i as int]);
                assert forall|t: int|
                    0 <= t < n && (#[trigger] child_genes@[t]) is None && a <= hstep(p1s, p2s, t)
                        < b implies exists|m: nat|
                    1 <= m <= (b - a) && #[trigger] chain_exits(p1s, p2s, a, b, t, m) && hiter(
                        p1s,
                        p2s,
                        t,
                        m,
                    ) >= i as int + 1 by {
                    let m = choose|m: nat|
                        1 <= m <= (b - a) && #[trigger] chain_exits(p1s, p2s, a, b, t, m)
                            && hiter(p1s, p2s, t, m) >= i as int;
                    if hiter(p1s, p2s, t, m) == i as int {
                        assert(hiter(p1s, p2s, t, (m + 1) as nat) == hstep(p1s, p2s, i as int));
                        assert(!(a <= hstep(p1s, p2s, i as int) < b));
                        if a <= s0 < b {
                            assert(child_genes@[s0] == Some(p1s[s0]));
                            assert(p1s[s0] as int == p2s[i as int] as int);
                            lemma_pos_of(p1s, p2s[i as int] as int);
                            assert(hstep(p1s, p2s, i as int) == s0);
                            assert(false);
                        } else {
                            let j = choose|j: int|
                                a <= j < i as int && child_genes@[s0] == Some(p2s[j]);
                            assert(p2s[j] == p2s[i as int]);
                            assert(false);
                        }
                    }
                    assert(hiter(p1s, p2s, t, m) >= i as int + 1);
                }
            }
        }
    }
    proof {
        assert forall|t: int|
            0 <= t < n && (#[trigger] child_genes@[t]) is None implies forall|s: int|
            0 <= s < n ==> (#[trigger] child_genes@[s]) != Some(p2s[t]) by {
            assert forall|s: int|
                0 <= s < n && (#[trigger] child_genes@[s]) == Some(p2s[t]) implies false by {
                if a <= s < b {
                    assert(child_genes@[s] == Some(p1s[s]));
                    assert(p1s[s] as int == p2s[t] as int);
                    lemma_pos_of(p1s, p2s[t] as int);
                    assert(hstep(p1s, p2s, t) == s);
                    let m = choose|m: nat|
                        1 <= m <= (b - a) && #[trigger] chain_exits(p1s, p2s, a, b, t, m)
                            && hiter(p1s, p2s, t, m) >= b;
                    assert(a <= hiter(p1s, p2s, t, m) < b);
                    assert(false);
                } else {
                    let j = choose|j: int| a <= j < b && child_genes@[s] == Some(p2s[j]);
                    assert(p2s[j] == p2s[t]);
                    assert(j == t);
                    assert(child_genes@[t] == Some(p1s[t]));
                    assert(false);
                }
            }
        }
    }
    for i in 0..n
        invariant
            n == p1s.len(),
            n == p2s.len(),
            p1s == parent_one@,
            p2s == parent_two@,
            is_permutation(p2s),
            child_genes@.len() == n,
            a == point_one as int,
            b == point_two as int,
            0 <= a < b < n,
            forall|j: int| a <= j < b ==> child_genes@[j] == Some(p1s[j]),
            forall|j: int| 0 <= j < i as int ==> (#[trigger] child_genes@[j]) is Some,
            forall|j1: int, j2: int|
                0 <= j1 < j2 < n && child_genes@[j1] is Some && child_genes@[j2] is Some
                    ==> child_genes@[j1] != child_genes@[j2],
            forall|j: int|
                0 <= j < n && child_genes@[j] is Some ==> ((
                #[trigger] child_genes@[j]).unwrap() as int) < n,
            forall|s: int|
                (0 <= s < a || b <= s < n) && (#[trigger] child_genes@[s]) is Some ==> (
                child_genes@[s] == Some(p2s[s]) || exists|j: int|
                    a <= j < b && child_genes@[s] == Some(p2s[j])),
            forall|t: int|
                0 <= t < n && (#[trigger] child_genes@[t]) is None ==> forall|s: int|
                    0 <= s < n ==> (#[trigger] child_genes@[s]) != Some(p2s[t]),
    {
        let ghost childp = child_genes@;
        match child_genes[i] {
            None => {
                child_genes[i] = Some(parent_two[i]);
                proof {
                    assert(forall|j: int|
                        0 <= j < n && j != i as int ==> child_genes@[j] == childp[j]);
                    assert forall|t: int|
                        0 <= t < n && (#[trigger] child_genes@[t]) is None implies forall|s: int|
                        0 <= s < n ==> (#[trigger] child_genes@[s]) != Some(p2s[t]) by {
                        assert(childp[t] is None);
                        assert forall|s: int|
                            0 <= s < n && (#[trigger] child_genes@[s]) == Some(
                                p2s[t],
                            ) implies false by {
                            if s == i as int {
                                assert(p2s[i as int] == p2s[t]);
                                assert(t == i as int);
                            } else {
                                assert(childp[s] == Some(p2s[t]));
                            }
                        }
                    }
                    assert forall|j: int| a <= j < b implies child_genes@[j] == Some(
                        p1s[j],
                    ) by {
                        assert(childp[j] is Some);
                    }
                }
            },
            Some(_) => {},
        }
    }
    let mut out: Vec<u16> = Vec::new();
    for i in 0..n
        invariant
            n == child_genes@.len(),
            out@.len() == i as int,
            forall|j: int| 0 <= j < n ==> (#[trigger] child_genes@[j]) is Some,
            forall|j: int| 0 <= j < i as int ==> out@[j] == child_genes@[j].unwrap(),
    {
        out.push(child_genes[i].unwrap());
    }
    proof {
        assert forall|j1: int, j2: int|
            0 <= j1 < out@.len() && 0 <= j2 < out@.len() && j1 != j2 implies out@[j1]
            != out@[j2] by {
            if j1 < j2 {
                assert(child_genes@[j1] != child_genes@[j2]);
            } else {
                assert(child_genes@[j2] != child_genes@[j1]);
            }
        }
        assert(out@.no_duplicates());
        assert forall|i: int| a <= i < b implies out@[i] == p1s[i] by {
            assert(child_genes@[i] == Some(p1s[i]));
        }
        assert forall|t: int| (0 <= t < a || b <= t < n) implies (out@[t] == p2s[t] || exists|
            j: int,
        |
            a <= j < b && out@[t] == p2s[j]) by {
            if child_genes@[t] == Some(p2s[t]) {
                assert(out@[t] == p2s[t]);
            } else {
                let j = choose|j: int| a <= j < b && child_genes@[t] == Some(p2s[j]);
                assert(out@[t] == p2s[j]);
            }
        }
        reveal(crossed_at);
        assert(crossed_at(out@, p1s, p2s, a, b));
    }
    out
}

/// Crosses two parent layouts at random cut points, the first drawn from
/// the lower half and the second from the upper half of the board: some
/// segment of the child copies the first parent and the rest stems from
/// the second.
pub fn pmx(parent_one: Vec<u16>, parent_two: Vec<u16>) -> (r: Vec<u16>)
    requires
        is_permutation(parent_one@),
        is_permutation(parent_two@),
        parent_one@.len() == parent_two@.len(),
        parent_one@.len() >= 2,
    ensures
        r@.len() == parent_one@.len(),
        is_permutation(r@),
        crossover_child(r@, parent_one@, parent_two@),
{
    let chromosome_size = parent_one.len();
    let chromosome_half_size = chromosome_size / 2;
    let point_one = rng::random_u128_range(0, chromosome_half_size as u128) as usize;
    let point_two = rng::random_u128_range(
        chromosome_half_size as u128,
        chromosome_size as u128,
    ) as usize;
    let r = pmx_with_points(&parent_one, &parent_two, point_one, point_two);
    proof {
        assert(crossover_child(r@, parent_one@, parent_two@));
    }
    r
}

/// Mates two chromosomes: the crossover of their layouts, scored afresh.
fn mate_chromosomes(parent_one: &Chromosome, parent_two: &Chromosome) -> (r: Chromosome)
    requires
        parent_one.wf(),
        parent_two.wf(),
        parent_one.size() == parent_two.size(),
        parent_one.size() >= 2,
    ensures
        r.wf(),
        r.size() == parent_one.size(),
        r.fitness == 0,
        crossover_child(r.positions@, parent_one.positions@, parent_two.positions@),
{
    let child_genes = pmx(parent_one.get_positions(), parent_two.get_positions());
    Chromosome::new(child_genes)
}

impl GeneticAlgorithm {
    /// Draws how many matings to perform from `min_to_mate..max_to_mate`,
    /// and for each appends one child of two roulette-chosen parents to the
    /// population; a failed roulette spin falls back to the best chromosome
    /// for the first parent and to the worst for the second. The population
    /// strictly grows by the drawn amount and keeps its members; every new
    /// member is a crossover child of two members that precede it.
    pub fn mate_random_chromosomes(&mut self, min_to_mate: u16, max_to_mate: u16)
        requires
            old(self).wf(),
            min_to_mate < max_to_mate,
            old(self).width() >= 2,
        ensures
            final (self).wf(),
            final (self).width() == old(self).width(),
            min_to_mate as int <= final (self).population@.len()
                - old(self).population@.len() < max_to_mate as int,
            forall|i: int|
                0 <= i < old(self).population@.len() ==> final (self).population@[i]
                    == old(self).population@[i],
            forall|k: int|
                old(self).population@.len() <= k < final (self).population@.len()
                    ==> #[trigger] offspring_of_earlier(final (self).population@, k),
    {
        let mate_amount = rng::random_u128_range(
            min_to_mate as u128,
            max_to_mate as u128,
        ) as u16;
        let mut fitness_sum: u128 = 0;
        let n = self.population.len();
        for i in 0..n
            invariant
                n == self.population@.len(),
                fitness_sum as int == fitness_prefix(self.population@, i as int),
        {
            proof {
                lemma_fitness_prefix_bounds(self.population@, i as int + 1);
                assert((i as int + 1) * (u64::MAX as int) <= 0x1_0000_0000_0000_0000
                    * (u64::MAX as int));
            }
            fitness_sum = fitness_sum + (self.population[i].get_fitness() as u128);
        }
        let ghost pop0 = self.population@;
        let ghost w0 = self.width();
        for _k in 0..mate_amount
            invariant
                self.wf(),
                self.width() == w0,
                w0 >= 2,
                self.population@.len() == pop0.len() + _k as int,
                forall|i: int| 0 <= i < pop0.len() ==> self.population@[i] == pop0[i],
                fitness_sum as int <= total_fitness(self.population@),
                forall|k: int|
                    pop0.len() <= k < self.population@.len() ==> #[trigger] offspring_of_earlier(
                        self.population@,
                        k,
                    ),
        {
            let parent_one_idx = match self.select_random_chromosome(fitness_sum) {
                Some(i) => i,
                None => self.best_index(),
            };
            let parent_two_idx = match self.select_random_chromosome(fitness_sum) {
                Some(i) => i,
                None => self.worst_index(),
            };
            let child = mate_chromosomes(
                &self.population[parent_one_idx],
                &self.population[parent_two_idx],
            );
            proof {
                lemma_fitness_prefix_push(self.population@, child, self.population@.len() as int);
            }
            let ghost popk = self.population@;
            self.population.push(child);
            proof {
                lemma_offspring_witnesses(
                    popk,
                    self.population@,
                    pop0.len() as int,
                    child,
                    parent_one_idx as int,
                    parent_two_idx as int,
                );
            }
        }
    }

    /// Runs the epoch loop: score the population, then mate and rescore for
    /// up to `MAX_EPOCH_COUNT` epochs, stopping as soon as a conflict-free
    /// chromosome exists. The outcome reports which ending happened; an
    /// exhausted budget is a normal result, not an error.
    pub fn run_algorithm(&mut self) -> (r: RunOutcome)
        requires
            old(self).wf(),
            old(self).width() >= 2,
        ensures
            final (self).wf(),
            final (self).width() == old(self).width(),
            final (self).population@.len() >= old(self).population@.len()
                + MIN_TO_MATE as int,
            forall|i: int|
                #![auto]
                0 <= i < old(self).population@.len() ==> {
                    &&& final (self).population@[i].positions@ == old(
                        self,
                    ).population@[i].positions@
                    &&& final (self).population@[i].conflicts@ == old(
                        self,
                    ).population@[i].conflicts@
                    &&& final (self).population@[i].conflicts_sum == old(
                        self,
                    ).population@[i].conflicts_sum
                },
            r == RunOutcome::SolutionFound <==> exists|i: int|
                0 <= i < final (self).population@.len()
                    && (#[trigger] final (self).population@[i]).conflicts_sum == 0,
    {
        let ghost w0 = self.width();
        let ghost len0 = self.population@.len();
        let ghost pop_init = self.population@;
        self.calc_fitness();
        for _epoch in 0..MAX_EPOCH_COUNT
            invariant
                self.wf(),
                self.width() == w0,
                w0 == old(self).width(),
                w0 >= 2,
                self.population@.len() >= len0,
                len0 == old(self).population@.len(),
                pop_init == old(self).population@,
                len0 == pop_init.len(),
                forall|i: int|
                    #![auto]
                    0 <= i < len0 ==> {
                        &&& self.population@[i].positions@ == pop_init[i].positions@
                        &&& self.population@[i].conflicts@ == pop_init[i].conflicts@
                        &&& self.population@[i].conflicts_sum == pop_init[i].conflicts_sum
                    },
                _epoch > 0 ==> self.population@.len() >= len0 + MIN_TO_MATE as int,
                _epoch > 0 ==> !(exists|i: int|
                    0 <= i < self.population@.len() && (
                    #[trigger] self.population@[i]).conflicts_sum == 0),
        {
            self.mate_random_chromosomes(MIN_TO_MATE, MAX_TO_MATE);
            self.calc_fitness();
            if self.get_best_chromosome().get_conflicts_sum() == 0 {
                return RunOutcome::SolutionFound;
            }
        }
        RunOutcome::NoSolutionFound
    }
}

/// Appending a crossover child of two population members keeps the record
/// that every member beyond `base` is a crossover child of two earlier
/// members.
proof fn lemma_offspring_witnesses(
    popk: Seq<Chromosome>,
    newpop: Seq<Chromosome>,
    base: int,
    child: Chromosome,
    i1: int,
    i2: int,
)
    requires
        newpop == popk.push(child),
        0 <= base <= popk.len(),
        0 <= i1 < popk.len(),
        0 <= i2 < popk.len(),
        crossover_child(child.positions@, popk[i1].positions@, popk[i2].positions@),
        forall|k: int| base <= k < popk.len() ==> #[trigger] offspring_of_earlier(popk, k),
    ensures
        forall|k: int| base <= k < newpop.len() ==> #[trigger] offspring_of_earlier(newpop, k),
{
    let n = popk.len() as int;
    assert(forall|x: int| 0 <= x < n ==> newpop[x] == popk[x]);
    assert(newpop[n] == child);
    assert forall|k: int| base <= k < newpop.len() implies #[trigger] offspring_of_earlier(
        newpop,
        k,
    ) by {
        if k < n {
            assert(offspring_of_earlier(popk, k));
            let (a1, a2) = choose|a1: int, a2: int|
                0 <= a1 < k && 0 <= a2 < k && #[trigger] crossover_child(
                    popk[k].positions@,
                    popk[a1].positions@,
                    popk[a2].positions@,
                );
            assert(crossover_child(
                newpop[k].positions@,
                newpop[a1].positions@,
                newpop[a2].positions@,
            ));
        } else {
            assert(crossover_child(
                newpop[k].positions@,
                newpop[i1].positions@,
                newpop[i2].positions@,
            ));
        }
    }
}

/// Builds an engine over `initial_population` random chromosomes laid out
/// for a board of side `size`.
pub fn build_genetic_algorithm(size: u16, initial_population: u16) -> (r: GeneticAlgorithm)
    requires
        1 <= size <= 256,
        initial_population >= 1,
    ensures
        r.wf(),
        r.population@.len() == initial_population as int,
        r.width() == size as int,
        forall|i: int|
            0 <= i < r.population@.len() ==> (#[trigger] r.population@[i]).fitness == 0,
{
    let mut population: Vec<Chromosome> = Vec::new();
    for _i in 0..initial_population
        invariant
            1 <= size <= 256,
            population@.len() == _i as int,
            forall|i: int| 0 <= i < _i as int ==> (#[trigger] population@[i]).wf(),
            forall|i: int|
                0 <= i < _i as int ==> (#[trigger] population@[i]).positions@.len()
                    == size as int,
            forall|i: int| 0 <= i < _i as int ==> (#[trigger] population@[i]).fitness == 0,
    {
        let positions = chromosome::generate_distinct_random_values(size);
        let member = Chromosome::new(positions);
        population.push(member);
    }
    GeneticAlgorithm::new(population)
}

} // verus!
