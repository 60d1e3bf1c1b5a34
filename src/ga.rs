use crate::random::{chance, sort_by_key_of, weight_sum, weighted_draws};
use vstd::prelude::*;

verus! {

/// What the engine asks of an individual: a cached cost whose reciprocal is its fitness,
/// and the operators of the generation step.
pub trait Individual: Sized {
    /// The configuration that the individuals of one run share.
    type Config;

    /// The configuration that the individual refers to.
    spec fn shared(&self) -> Self::Config;

    /// The individual is valid under its configuration.
    spec fn valid(&self) -> bool;

    /// The cached cost agrees with the individual.
    spec fn refreshed(&self) -> bool;

    /// The cached cost; lower is fitter.
    spec fn cost(&self) -> nat;

    /// `c1` and `c2` are children that crossover can make of `p1` and `p2`.
    spec fn offspring(p1: Self, p2: Self, c1: Self, c2: Self) -> bool;

    /// `after` is an outcome of mutating `before`; its cached cost may be stale.
    spec fn mutant_of(before: Self, after: Self) -> bool;

    /// `a` and `b` hold the same genome; their cached costs may differ.
    spec fn same_genome(a: Self, b: Self) -> bool;

    /// `b` is a copy of `a`, cached cost included.
    spec fn copy_of(a: Self, b: Self) -> bool;

    fn cached_cost(&self) -> (r: u128)
        ensures
            r == self.cost(),
    ;

    fn update_fitness(&mut self)
        requires
            old(self).valid(),
        ensures
            final(self).valid(),
            final(self).refreshed(),
            final(self).shared() == old(self).shared(),
            Self::same_genome(*old(self), *final(self)),
    ;

    fn mutate(&mut self, rng: &mut rand::rngs::StdRng)
        requires
            old(self).valid(),
        ensures
            final(self).valid(),
            final(self).shared() == old(self).shared(),
            Self::mutant_of(*old(self), *final(self)),
    ;

    fn crossover(p1: &Self, p2: &Self, rng: &mut rand::rngs::StdRng) -> (r: (Self, Self))
        requires
            p1.valid(),
            p2.valid(),
            p1.shared() == p2.shared(),
        ensures
            r.0.valid(),
            r.1.valid(),
            r.0.refreshed(),
            r.1.refreshed(),
            r.0.shared() == p1.shared(),
            r.1.shared() == p1.shared(),
            Self::offspring(*p1, *p2, r.0, r.1),
    ;

    fn duplicate(&self) -> (r: Self)
        ensures
            r.valid() == self.valid(),
            r.refreshed() == self.refreshed(),
            r.shared() == self.shared(),
            r.cost() == self.cost(),
            Self::copy_of(*self, r),
    ;
}

/// The factor by which fitness, the reciprocal of the cost, is scaled to an integer
/// selection weight.
pub const FITNESS_SCALE: u64 = 1099511627776;

/// How many (best, worst) length pairs the population remembers.
pub const HISTORY_CAPACITY: usize = 16;

/// The history after recording `entry`: appended, the oldest entry dropped once there
/// are more than `HISTORY_CAPACITY`.
pub open spec fn record(history: Seq<(u128, u128)>, entry: (u128, u128)) -> Seq<(u128, u128)> {
    if history.len() < HISTORY_CAPACITY {
        history.push(entry)
    } else {
        history.push(entry).drop_first()
    }
}

/// A probability given as `numerator / denominator`.
#[derive(Debug, Clone, Copy, PartialEq, Eq, Structural)]
pub struct Probability {
    pub numerator: u32,
    pub denominator: u32,
}

impl Probability {
    /// A probability between zero and one.
    pub open spec fn valid(&self) -> bool {
        0 < self.denominator && self.numerator <= self.denominator
    }
}

/// Why a population cannot be set up.
#[derive(Debug, Clone, Copy, PartialEq, Eq, Structural)]
pub enum ConfigError {
    /// The population count is zero or differs from the number
    /// of individuals given.
    PopulationSize,
    /// A probability has a zero denominator or exceeds one.
    Probability,
    /// The generation budget is zero.
    Generations,
    /// The distance model has fewer than two cities, or as many as the largest index.
    Cities,
    /// The number of crossover points is zero or not below the number of cities.
    CrossoverPoints,
    /// The number of mutation points is zero or above the number of interior positions.
    MutationPoints,
}

/// The number of children that crossover makes in each generation: `num * p` rounded
/// down, then down to an even number.
pub open spec fn children_count(num: nat, p: Probability) -> nat {
    ((num * p.numerator as nat) / p.denominator as nat) / 2 * 2
}

/// Individuals ordered by non-increasing cost, so by non-decreasing fitness.
pub open spec fn ordered_by_fitness<I: Individual>(v: Seq<I>) -> bool {
    forall|a: int, b: int| 0 <= a <= b < v.len() ==> #[trigger] v[a].cost() >= #[trigger] v[b].cost()
}

/// Every individual is valid, has a fresh cost and shares the given configuration.
pub open spec fn all_fresh<I: Individual>(v: Seq<I>, config: I::Config) -> bool {
    forall|i: int| 0 <= i < v.len() ==> {
        &&& (#[trigger] v[i]).valid()
        &&& v[i].refreshed()
        &&& v[i].shared() == config
    }
}

/// `new` is `old` reordered by `p`: position `i` of `new` holds a copy of `old[p[i]]`, and
/// `p` takes each position of `old` once.
pub open spec fn reordered_by<I: Individual>(old: Seq<I>, new: Seq<I>, p: Seq<int>) -> bool {
    &&& p.len() == old.len()
    &&& new.len() == old.len()
    &&& p.no_duplicates()
    &&& forall|i: int| 0 <= i < p.len() ==> 0 <= #[trigger] p[i] < old.len()
    &&& forall|i: int| 0 <= i < p.len() ==> I::copy_of(old[#[trigger] p[i]], new[i])
}

/// `new` holds copies of the individuals of `old`, each once, in some order.
pub open spec fn reorders<I: Individual>(old: Seq<I>, new: Seq<I>) -> bool {
    exists|p: Seq<int>| #[trigger] reordered_by(old, new, p)
}

/// `after` holds the genome of `child`, or of an outcome of mutating `child`.
pub open spec fn maybe_mutated<I: Individual>(child: I, after: I) -> bool {
    ||| I::same_genome(child, after)
    ||| exists|m: I| #[trigger] I::mutant_of(child, m) && I::same_genome(m, after)
}

/// The pair of children at `j` and `j + 1` of `raw` comes from the parents drawn at `j`
/// and `j + 1`.
pub open spec fn pair_offspring<I: Individual>(old: Seq<I>, d: Seq<usize>, raw: Seq<I>, j: int) -> bool {
    I::offspring(old[d[j] as int], old[d[j + 1] as int], raw[j], raw[j + 1])
}

/// One generation step from `old` to `new`, for the drawn indices `d`: the first `nc`
/// places of `made` hold the crossover children `raw` of consecutive drawn pairs, each
/// possibly mutated; the other places hold copies of the drawn individuals; and `new` is
/// `made` reordered.
pub open spec fn generation_step<I: Individual>(
    old: Seq<I>,
    new: Seq<I>,
    d: Seq<usize>,
    raw: Seq<I>,
    made: Seq<I>,
    nc: nat,
) -> bool {
    &&& d.len() == old.len()
    &&& raw.len() == nc
    &&& made.len() == old.len()
    &&& forall|k: int| 0 <= k < d.len() ==> #[trigger] d[k] < old.len()
    &&& forall|j: int| 0 <= j < nc && j % 2 == 0 ==> #[trigger] pair_offspring(old, d, raw, j)
    &&& forall|j: int| 0 <= j < nc ==> #[trigger] maybe_mutated(raw[j], made[j])
    &&& forall|j: int| nc <= j < old.len() ==> I::copy_of(old[d[j] as int], #[trigger] made[j])
    &&& reorders(made, new)
}

/// The current generation of routes and the parameters of the generation step.
pub struct Population<I: Individual> {
    individuals: Vec<I>,
    config: Ghost<I::Config>,
    num: usize,
    num_children: usize,
    num_reserve: usize,
    mutation_probability: Probability,
    history: Vec<(u128, u128)>,
    bests: Ghost<Seq<nat>>,
}

impl<I: Individual> Population<I> {
    pub closed spec fn members(&self) -> Seq<I> {
        self.individuals@
    }

    pub closed spec fn config(&self) -> I::Config {
        self.config@
    }

    pub closed spec fn count(&self) -> nat {
        self.num as nat
    }

    pub closed spec fn count_children(&self) -> nat {
        self.num_children as nat
    }

    pub closed spec fn count_survivors(&self) -> nat {
        self.num_reserve as nat
    }

    pub closed spec fn mutation(&self) -> Probability {
        self.mutation_probability
    }

    /// The best cost after each generation step made so far, oldest first.
    pub closed spec fn best_costs(&self) -> Seq<nat> {
        self.bests@
    }

    /// The (best, worst) tour lengths of the last generations, oldest first.
    pub closed spec fn recorded(&self) -> Seq<(u128, u128)> {
        self.history@
    }

    /// The population has the configured size, splits it into an even number of children
    /// and the survivors, and holds fresh tours ordered by fitness.
    pub open spec fn wf(&self) -> bool {
        &&& 1 <= self.count()
        &&& self.members().len() == self.count()
        &&& self.count_children() + self.count_survivors() == self.count()
        &&& self.count_children() % 2 == 0
        &&& self.mutation().valid()
        &&& all_fresh(self.members(), self.config())
        &&& ordered_by_fitness(self.members())
        &&& self.recorded().len() <= HISTORY_CAPACITY
    }

    /// Sets up a population from an initial generation: `num_children` is `num` times the
    /// crossover probability, rounded down to an even number, and the rest survive by
    /// resampling.
    pub fn new(
        individuals: Vec<I>,
        num: usize,
        crossover_probability: Probability,
        mutation_probability: Probability,
    ) -> (r: Result<Self, ConfigError>)
        requires
            individuals@.len() > 0 ==> all_fresh(individuals@, individuals@[0].shared()),
        ensures
            r is Err <==> (num == 0 || individuals@.len() != num
                || !crossover_probability.valid() || !mutation_probability.valid()),
            r matches Err(e) ==> (e == ConfigError::PopulationSize <==> (num == 0
                || individuals@.len() != num)),
            r matches Ok(p) ==> {
                &&& p.wf()
                &&& p.config() == individuals@[0].shared()
                &&& p.count() == num
                &&& p.count_children() == children_count(num as nat, crossover_probability)
                &&& p.mutation() == mutation_probability
                &&& p.recorded().len() == 0
                &&& p.best_costs().len() == 0
                &&& reorders(individuals@, p.members())
            },
    {
        if num == 0 || individuals.len() != num {
            return Err(ConfigError::PopulationSize);
        }
        if crossover_probability.denominator == 0 || crossover_probability.numerator
            > crossover_probability.denominator || mutation_probability.denominator == 0
            || mutation_probability.numerator > mutation_probability.denominator {
            return Err(ConfigError::Probability);
        }
        proof {
            assert((num as u128) * (crossover_probability.numerator as u128) <= u128::MAX) by (nonlinear_arith)
                requires
                    num <= usize::MAX,
                    crossover_probability.numerator <= u32::MAX,
            ;
        }
        let scaled = (num as u128) * (crossover_probability.numerator as u128);
        let num_children = ((scaled / (crossover_probability.denominator as u128)) / 2 * 2) as usize;
        proof {
            assert(scaled <= num * crossover_probability.denominator) by (nonlinear_arith)
                requires
                    scaled == num * crossover_probability.numerator,
                    crossover_probability.numerator <= crossover_probability.denominator,
            ;
            assert(scaled / (crossover_probability.denominator as u128) <= num) by (nonlinear_arith)
                requires
                    scaled <= num * crossover_probability.denominator,
                    crossover_probability.denominator > 0,
            ;
        }
        let ghost config = individuals@[0].shared();
        let individuals = sort_by_fitness(individuals, Ghost(config));
        Ok(Population {
            individuals,
            config: Ghost(config),
            num,
            num_children,
            num_reserve: num - num_children,
            mutation_probability,
            history: Vec::new(),
            bests: Ghost(Seq::empty()),
        })
    }

    /// One generation: draws parents with chance proportional to their selection weight
    /// (scaled fitness plus one), crosses consecutive pairs over until `count_children`
    /// children exist, mutates each child with the mutation probability, fills the
    /// remaining places with copies of further drawn individuals, refreshes the costs, and
    /// replaces the population with the new generation ordered by fitness.
    pub fn evolve(&mut self, rng: &mut rand::rngs::StdRng)
        requires
            old(self).wf(),
        ensures
            final(self).wf(),
            final(self).config() == old(self).config(),
            final(self).count() == old(self).count(),
            final(self).count_children() == old(self).count_children(),
            final(self).count_survivors() == old(self).count_survivors(),
            final(self).mutation() == old(self).mutation(),
            exists|d: Seq<usize>, raw: Seq<I>, made: Seq<I>|
                #[trigger] generation_step(old(self).members(), final(self).members(), d, raw, made, old(self).count_children()),
            final(self).best_costs() == old(self).best_costs().push(final(self).members().last().cost()),
            final(self).recorded() == record(
                old(self).recorded(),
                (final(self).members().last().cost() as u128, final(self).members()[0].cost() as u128),
            ),
    {
        let n = self.individuals.len();
        let weights = selection_weights(&self.individuals);
        let draws = weighted_draws(rng, &weights, n);
        let ghost old_members = self.individuals@;
        let ghost mut raw: Seq<I> = Seq::empty();
        let mut children: Vec<I> = Vec::with_capacity(n);
        let mut k: usize = 0;
        while k < self.num_children
            invariant
                self.wf(),
                self.individuals@ == old_members,
                n == self.count(),
                draws@.len() == n,
                forall|a: int| 0 <= a < draws@.len() ==> #[trigger] draws@[a] < n,
                k % 2 == 0,
                k <= self.num_children,
                children@.len() == k,
                raw.len() == k,
                all_fresh(children@, self.config()),
                forall|j: int| 0 <= j < k && j % 2 == 0 ==> #[trigger] pair_offspring(old_members, draws@, raw, j),
                forall|j: int| 0 <= j < k ==> #[trigger] maybe_mutated(raw[j], children@[j]),
            decreases self.num_children - k,
        {
            let p1 = &self.individuals[draws[k]];
            let p2 = &self.individuals[draws[k + 1]];
            let (c1, c2) = I::crossover(p1, p2, rng);
            let ghost prev_raw = raw;
            proof {
                raw = raw.push(c1).push(c2);
            }
            let c1 = self.maybe_mutate(c1, rng);
            let c2 = self.maybe_mutate(c2, rng);
            children.push(c1);
            children.push(c2);
            proof {
                assert(pair_offspring(old_members, draws@, raw, k as int));
                assert forall|j: int| 0 <= j < k + 2 && j % 2 == 0 implies #[trigger] pair_offspring(old_members, draws@, raw, j) by {
                    if j < k {
                        assert(pair_offspring(old_members, draws@, prev_raw, j));
                    }
                }
                assert forall|j: int| 0 <= j < k + 2 implies #[trigger] maybe_mutated(raw[j], children@[j]) by {
                    if j < k {
                        assert(raw[j] == prev_raw[j]);
                    }
                }
            }
            k += 2;
        }
        while k < n
            invariant
                self.wf(),
                self.individuals@ == old_members,
                n == self.count(),
                draws@.len() == n,
                forall|a: int| 0 <= a < draws@.len() ==> #[trigger] draws@[a] < n,
                self.num_children <= k <= n,
                children@.len() == k,
                raw.len() == self.num_children,
                all_fresh(children@, self.config()),
                forall|j: int| 0 <= j < self.num_children && j % 2 == 0 ==> #[trigger] pair_offspring(old_members, draws@, raw, j),
                forall|j: int| 0 <= j < self.num_children ==> #[trigger] maybe_mutated(raw[j], children@[j]),
                forall|j: int| self.num_children <= j < k ==> I::copy_of(old_members[draws@[j] as int], #[trigger] children@[j]),
            decreases n - k,
        {
            let c = self.individuals[draws[k]].duplicate();
            children.push(c);
            k += 1;
        }
        let ghost made = children@;
        self.individuals = sort_by_fitness(children, self.config);
        let best = self.individuals[n - 1].cached_cost();
        let worst = self.individuals[0].cached_cost();
        self.history.push((best, worst));
        if self.history.len() > HISTORY_CAPACITY {
            self.history.remove(0);
        }
        self.bests = Ghost(self.bests@.push(self.individuals@.last().cost()));
        assert(generation_step(old_members, self.individuals@, draws@, raw, made, self.num_children as nat));
    }

    /// Runs `generations` generation steps.
    pub fn run(&mut self, generations: usize, rng: &mut rand::rngs::StdRng)
        requires
            old(self).wf(),
        ensures
            final(self).wf(),
            final(self).config() == old(self).config(),
            final(self).count() == old(self).count(),
            final(self).best_costs().len() == old(self).best_costs().len() + generations,
            final(self).best_costs().subrange(0, old(self).best_costs().len() as int) == old(self).best_costs(),
    {
        let mut g: usize = 0;
        while g < generations
            invariant
                self.wf(),
                g <= generations,
                self.config() == old(self).config(),
                self.count() == old(self).count(),
                self.best_costs().len() == old(self).best_costs().len() + g,
                self.best_costs().subrange(0, old(self).best_costs().len() as int) == old(self).best_costs(),
            decreases generations - g,
        {
            let ghost prev = self.best_costs();
            self.evolve(rng);
            assert(self.best_costs().subrange(0, old(self).best_costs().len() as int) =~= prev.subrange(0, old(self).best_costs().len() as int));
            g += 1;
        }
    }

    /// Runs generation steps until the best cost is no more than `target`, at most
    /// `max_generation` of them. Returns the number of steps, that is the first generation
    /// that reached the target, or the best cost when none did.
    pub fn run_until(&mut self, target: u128, max_generation: usize, rng: &mut rand::rngs::StdRng) -> (r: Result<usize, u128>)
        requires
            old(self).wf(),
        ensures
            final(self).wf(),
            final(self).config() == old(self).config(),
            final(self).count() == old(self).count(),
            final(self).best_costs().subrange(0, old(self).best_costs().len() as int) == old(self).best_costs(),
            r matches Ok(g) ==> {
                &&& 1 <= g <= max_generation
                &&& final(self).best_costs().len() == old(self).best_costs().len() + g
                &&& final(self).members().last().cost() <= target
                &&& final(self).best_costs().last() <= target
                &&& forall|i: int| old(self).best_costs().len() <= i < final(self).best_costs().len() - 1
                    ==> #[trigger] final(self).best_costs()[i] > target
            },
            r matches Err(best) ==> {
                &&& best == final(self).members().last().cost()
                &&& final(self).best_costs().len() == old(self).best_costs().len() + max_generation
                &&& forall|i: int| old(self).best_costs().len() <= i < final(self).best_costs().len()
                    ==> #[trigger] final(self).best_costs()[i] > target
            },
    {
        let ghost start = old(self).best_costs().len();
        let mut g: usize = 0;
        while g < max_generation
            invariant
                self.wf(),
                g <= max_generation,
                self.config() == old(self).config(),
                self.count() == old(self).count(),
                start == old(self).best_costs().len(),
                self.best_costs().len() == start + g,
                self.best_costs().subrange(0, start as int) == old(self).best_costs(),
                forall|i: int| start <= i < self.best_costs().len() ==> #[trigger] self.best_costs()[i] > target,
            decreases max_generation - g,
        {
            let ghost prev = self.best_costs();
            self.evolve(rng);
            assert(self.best_costs().subrange(0, start as int) =~= prev.subrange(0, start as int));
            g += 1;
            let best = self.get_best().cached_cost();
            if best <= target {
                return Ok(g);
            }
            assert forall|i: int| start <= i < self.best_costs().len() implies #[trigger] self.best_costs()[i] > target by {
                if i < prev.len() {
                    assert(self.best_costs()[i] == prev[i]);
                }
            }
        }
        Err(self.get_best().cached_cost())
    }

    /// Mutates `child` with the mutation probability and refreshes its cost: never for a
    /// zero probability, always for a probability of one.
    fn maybe_mutate(&self, child: I, rng: &mut rand::rngs::StdRng) -> (r: I)
        requires
            self.wf(),
            child.valid(),
            child.refreshed(),
            child.shared() == self.config(),
        ensures
            r.valid(),
            r.refreshed(),
            r.shared() == self.config(),
            maybe_mutated(child, r),
            self.mutation().numerator == 0 ==> I::same_genome(child, r),
            self.mutation().numerator == self.mutation().denominator ==> exists|m: I|
                #[trigger] I::mutant_of(child, m) && I::same_genome(m, r),
    {
        let ghost given = child;
        let mut child = child;
        if chance(rng, self.mutation_probability.numerator, self.mutation_probability.denominator) {
            child.mutate(rng);
            let ghost m = child;
            child.update_fitness();
            assert(I::mutant_of(given, m) && I::same_genome(m, child));
        } else {
            child.update_fitness();
        }
        child
    }

    /// The fittest route: the one with the shortest tour.
    pub fn get_best(&self) -> (r: &I)
        requires
            self.wf(),
        ensures
            *r == self.members().last(),
            forall|i: int| 0 <= i < self.members().len() ==> r.cost() <= #[trigger] self.members()[i].cost(),
    {
        &self.individuals[self.individuals.len() - 1]
    }

    /// The least fit route: the one with the longest tour.
    pub fn get_worst(&self) -> (r: &I)
        requires
            self.wf(),
        ensures
            *r == self.members()[0],
            forall|i: int| 0 <= i < self.members().len() ==> r.cost() >= #[trigger] self.members()[i].cost(),
    {
        &self.individuals[0]
    }

    /// The current generation, worst first.
    pub fn individuals(&self) -> (r: &Vec<I>)
        ensures
            r@ == self.members(),
    {
        &self.individuals
    }

    /// The (best, worst) costs of the last generations, oldest first.
    pub fn history(&self) -> (r: &Vec<(u128, u128)>)
        ensures
            r@ == self.recorded(),
    {
        &self.history
    }

    /// The configured population count.
    pub fn num(&self) -> (r: usize)
        ensures
            r == self.count(),
    {
        self.num
    }

    /// How many children crossover makes in each generation.
    pub fn num_children(&self) -> (r: usize)
        ensures
            r == self.count_children(),
    {
        self.num_children
    }

    /// How many routes survive by resampling in each generation.
    pub fn num_survivors(&self) -> (r: usize)
        ensures
            r == self.count_survivors(),
    {
        self.num_reserve
    }
}

/// Checks a generation budget: it must be positive.
pub fn generation_budget(max_generation: usize) -> (r: Result<usize, ConfigError>)
    ensures
        r == if max_generation == 0 {
            Err::<usize, ConfigError>(ConfigError::Generations)
        } else {
            Ok::<usize, ConfigError>(max_generation)
        },
{
    if max_generation == 0 {
        Err(ConfigError::Generations)
    } else {
        Ok(max_generation)
    }
}

/// After every generation step the population has the configured size, and the children
/// and survivors together make up that size.
pub proof fn lemma_generation_size<I: Individual>(p: &Population<I>)
    requires
        p.wf(),
    ensures
        p.members().len() == p.count(),
        p.count_children() + p.count_survivors() == p.count(),
{
}

/// The selection weight of an individual of cost `cost`: its fitness `1 / cost` scaled
/// by `FITNESS_SCALE` and rounded down, plus one so that every individual keeps a chance.
pub open spec fn selection_weight(cost: nat) -> nat {
    FITNESS_SCALE as nat / (if cost == 0 {
        1nat
    } else {
        cost
    }) + 1
}

/// The selection weights of `v`, one per individual.
fn selection_weights<I: Individual>(v: &Vec<I>) -> (w: Vec<u128>)
    requires
        1 <= v@.len(),
    ensures
        w@.len() == v@.len(),
        forall|i: int| 0 <= i < v@.len() ==> #[trigger] w@[i] == selection_weight(v@[i].cost()),
        0 < weight_sum(w@) <= u128::MAX,
{
    let n = v.len();
    let mut w: Vec<u128> = Vec::with_capacity(n);
    let mut i: usize = 0;
    while i < n
        invariant
            n == v@.len(),
            i <= n,
            w@.len() == i,
            forall|a: int| 0 <= a < i ==> #[trigger] w@[a] == selection_weight(v@[a].cost()),
            i > 0 ==> weight_sum(w@) > 0,
            weight_sum(w@) <= i * (FITNESS_SCALE + 1),
        decreases n - i,
    {
        let cost = v[i].cached_cost();
        let divisor: u128 = if cost == 0 {
            1
        } else {
            cost
        };
        let scaled = (FITNESS_SCALE as u128) / divisor;
        let ghost prev = w@;
        proof {
            assert(i * (FITNESS_SCALE + 1) <= usize::MAX * (FITNESS_SCALE + 1)) by (nonlinear_arith)
                requires
                    i <= usize::MAX,
            ;
        }
        w.push(scaled + 1);
        proof {
            assert(w@.drop_last() =~= prev);
            assert((i + 1) * (FITNESS_SCALE + 1) == i * (FITNESS_SCALE + 1) + FITNESS_SCALE + 1) by (nonlinear_arith);
        }
        i += 1;
    }
    proof {
        assert(n * (FITNESS_SCALE + 1) <= u128::MAX) by (nonlinear_arith)
            requires
                n <= usize::MAX,
        ;
    }
    w
}

/// Orders routes by non-increasing length: worst first, best last.
fn sort_by_fitness<I: Individual>(routes: Vec<I>, Ghost(spec): Ghost<I::Config>) -> (r: Vec<I>)
    requires
        all_fresh(routes@, spec),
    ensures
        r@.len() == routes@.len(),
        all_fresh(r@, spec),
        ordered_by_fitness(r@),
        reorders(routes@, r@),
{
    let n = routes.len();
    let mut keys: Vec<u128> = Vec::with_capacity(n);
    let mut idx: Vec<usize> = Vec::with_capacity(n);
    let mut k: usize = 0;
    while k < n
        invariant
            n == routes@.len(),
            k <= n,
            keys@.len() == k,
            idx@.len() == k,
            forall|a: int| 0 <= a < k ==> #[trigger] keys@[a] == routes@[a].cost(),
            forall|a: int| 0 <= a < k ==> #[trigger] idx@[a] == a,
        decreases n - k,
    {
        keys.push(routes[k].cached_cost());
        idx.push(k);
        k += 1;
    }
    let ghost before = idx@;
    sort_by_key_of(&mut idx, &keys);
    proof {
        broadcast use vstd::seq_lib::to_multiset_contains;
        vstd::seq_lib::to_multiset_len(idx@);
        vstd::seq_lib::to_multiset_len(before);
        assert forall|a: int| 0 <= a < idx@.len() implies #[trigger] idx@[a] < n by {
            assert(idx@.contains(idx@[a]));
            assert(idx@.to_multiset().count(idx@[a]) > 0);
            assert(before.contains(idx@[a]));
        }
        assert(before.no_duplicates());
        before.lemma_multiset_has_no_duplicates();
        idx@.lemma_multiset_has_no_duplicates_conv();
    }
    let mut sorted: Vec<I> = Vec::with_capacity(n);
    let mut p: usize = n;
    while p > 0
        invariant
            n == routes@.len(),
            n == idx@.len(),
            keys@.len() == n,
            p <= n,
            sorted@.len() == n - p,
            all_fresh(routes@, spec),
            forall|a: int| 0 <= a < n ==> #[trigger] keys@[a] == routes@[a].cost(),
            forall|a: int| 0 <= a < idx@.len() ==> #[trigger] idx@[a] < n,
            forall|a: int, b: int| 0 <= a <= b < idx@.len() ==> #[trigger] keys@[idx@[a] as int] <= #[trigger] keys@[idx@[b] as int],
            forall|a: int| 0 <= a < sorted@.len() ==> #[trigger] sorted@[a].cost() == keys@[idx@[n - 1 - a] as int],
            forall|a: int| 0 <= a < sorted@.len() ==> I::copy_of(routes@[idx@[n - 1 - a] as int], #[trigger] sorted@[a]),
            all_fresh(sorted@, spec),
        decreases p,
    {
        p -= 1;
        let c = routes[idx[p]].duplicate();
        sorted.push(c);
    }
    proof {
        assert forall|a: int, b: int| 0 <= a <= b < sorted@.len() implies #[trigger] sorted@[a].cost() >= #[trigger] sorted@[b].cost() by {
            assert(keys@[idx@[n - 1 - b] as int] <= keys@[idx@[n - 1 - a] as int]);
        }
        let perm = Seq::new(n as nat, |a: int| idx@[n - 1 - a] as int);
        assert forall|a: int| 0 <= a < perm.len() implies I::copy_of(routes@[#[trigger] perm[a]], sorted@[a]) by {}
        assert(perm.no_duplicates()) by {
            assert forall|a: int, b: int| 0 <= a < perm.len() && 0 <= b < perm.len() && a != b implies perm[a] != perm[b] by {
                assert(idx@[n - 1 - a] != idx@[n - 1 - b]);
            }
        }
        assert(reordered_by(routes@, sorted@, perm));
    }
    sorted
}

} // verus!
