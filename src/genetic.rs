//! The generic engine: individuals, their genetic operators, and populations.
use vstd::prelude::*;
use crate::rng::{random_below, random_byte};

verus! {

/// The denominator of every rate: a rate `r` stands for the probability
/// `r / RATE_SCALE`, so `RATE_SCALE` (or more) is certainty and 0 is never.
pub const RATE_SCALE: u32 = 1_000_000;

/// What the engine needs of a gene type: a random sample, an exact copy, and
/// the equality that keeps elites distinct.
pub trait Gene: Sized {
    /// Whether two genes count as the same gene.
    spec fn same_gene(&self, other: &Self) -> bool;

    /// A freshly sampled gene.
    fn random_gene() -> Self;

    /// A copy of this gene.
    fn copy_gene(&self) -> (r: Self)
        ensures
            r == *self,
    ;

    /// Gene equality.
    fn eq_gene(&self, other: &Self) -> (r: bool)
        ensures
            r == self.same_gene(other),
    ;
}

impl Gene for u8 {
    open spec fn same_gene(&self, other: &u8) -> bool {
        *self == *other
    }

    fn random_gene() -> u8 {
        random_byte()
    }

    fn copy_gene(&self) -> (r: u8) {
        *self
    }

    fn eq_gene(&self, other: &u8) -> (r: bool) {
        *self == *other
    }
}

/// Whether two gene sequences have the same length and the same gene at
/// every position.
pub open spec fn same_genes<T: Gene>(a: Seq<T>, b: Seq<T>) -> bool {
    &&& a.len() == b.len()
    &&& forall|k: int| 0 <= k < a.len() ==> #[trigger] a[k].same_gene(&b[k])
}

/// The smaller of two lengths.
pub open spec fn min_len(a: int, b: int) -> int {
    if a < b {
        a
    } else {
        b
    }
}

/// The child of uniform crossover: at each position below the shorter
/// parent's length, the first parent's gene where the draw there is under the
/// rate, the second parent's elsewhere.
pub open spec fn crossed<T>(a: Seq<T>, b: Seq<T>, draws: Seq<u32>, rate: u32) -> Seq<T> {
    Seq::new(
        min_len(a.len() as int, b.len() as int) as nat,
        |k: int|
            if draws[k] < rate {
                a[k]
            } else {
                b[k]
            },
    )
}

/// `n` draws, each uniform in `[0, RATE_SCALE)`.
fn random_draws(n: usize) -> (r: Vec<u32>)
    ensures
        r@.len() == n,
        forall|k: int| 0 <= k < n ==> #[trigger] r@[k] < RATE_SCALE,
{
    let mut draws: Vec<u32> = Vec::new();
    let mut k: usize = 0;
    while k < n
        invariant
            k <= n,
            draws@.len() == k,
            forall|j: int| 0 <= j < k ==> #[trigger] draws@[j] < RATE_SCALE,
        decreases n - k,
    {
        let d = random_below(RATE_SCALE as usize) as u32;
        draws.push(d);
        k += 1;
    }
    draws
}

/// The child of mutation: at each position, the fresh gene where the draw
/// there is under the rate, the original gene elsewhere.
pub open spec fn mutated<T>(a: Seq<T>, draws: Seq<u32>, fresh: Seq<T>, rate: u32) -> Seq<T> {
    Seq::new(
        a.len(),
        |k: int|
            if draws[k] < rate {
                fresh[k]
            } else {
                a[k]
            },
    )
}

/// `n` freshly sampled genes.
fn random_genes<T: Gene>(n: usize) -> (r: Vec<T>)
    ensures
        r@.len() == n,
{
    let mut genes: Vec<T> = Vec::new();
    let mut k: usize = 0;
    while k < n
        invariant
            k <= n,
            genes@.len() == k,
        decreases n - k,
    {
        genes.push(T::random_gene());
        k += 1;
    }
    genes
}

/// One candidate solution: a sequence of genes.
#[derive(Debug, Clone, PartialEq)]
pub struct Individual<T> {
    pub genes: Vec<T>,
}

impl<T> View for Individual<T> {
    type V = Seq<T>;

    open spec fn view(&self) -> Seq<T> {
        self.genes@
    }
}

impl<T: Gene> Individual<T> {
    /// An individual of `genenumber` freshly sampled genes.
    pub fn new(genenumber: usize) -> (r: Individual<T>)
        ensures
            r@.len() == genenumber,
    {
        Individual { genes: random_genes(genenumber) }
    }

    /// The individual whose genes are `v`.
    pub fn new_with_vec(v: Vec<T>) -> (r: Individual<T>)
        ensures
            r@ == v@,
    {
        Individual { genes: v }
    }

    /// A copy of this individual, gene by gene.
    pub fn duplicate(&self) -> (r: Individual<T>)
        ensures
            r@ == self@,
    {
        let mut vec: Vec<T> = Vec::new();
        let mut k: usize = 0;
        while k < self.genes.len()
            invariant
                k <= self@.len(),
                vec@ == self@.take(k as int),
            decreases self@.len() - k,
        {
            vec.push(self.genes[k].copy_gene());
            k += 1;
            assert(vec@ =~= self@.take(k as int));
        }
        assert(self@.take(self@.len() as int) =~= self@);
        Individual { genes: vec }
    }

    /// Uniform crossover with the draws given: position `k` takes this
    /// individual's gene when `draws[k] < uniform_rate`, the gene of `i2`
    /// otherwise; the child is as long as the shorter parent.
    pub fn crossover_with_draws(&self, i2: &Individual<T>, draws: &Vec<u32>, uniform_rate: u32) -> (r:
        Individual<T>)
        requires
            draws@.len() >= min_len(self@.len() as int, i2@.len() as int),
        ensures
            r@ == crossed(self@, i2@, draws@, uniform_rate),
    {
        let len = if self.genes.len() < i2.genes.len() {
            self.genes.len()
        } else {
            i2.genes.len()
        };
        let ghost child = crossed(self@, i2@, draws@, uniform_rate);
        let mut v: Vec<T> = Vec::new();
        let mut k: usize = 0;
        while k < len
            invariant
                len == child.len(),
                len <= self@.len(),
                len <= i2@.len(),
                len <= draws@.len(),
                k <= len,
                child == crossed(self@, i2@, draws@, uniform_rate),
                v@ == child.take(k as int),
            decreases len - k,
        {
            if draws[k] < uniform_rate {
                v.push(self.genes[k].copy_gene());
            } else {
                v.push(i2.genes[k].copy_gene());
            }
            k += 1;
            assert(v@ =~= child.take(k as int));
        }
        assert(child.take(len as int) =~= child);
        Individual::new_with_vec(v)
    }

    /// Uniform crossover of this individual with `i2`: each position below
    /// the shorter length takes this individual's gene with probability
    /// `uniform_rate / RATE_SCALE`, the gene of `i2` otherwise.
    pub fn crossover(&self, i2: Individual<T>, uniform_rate: u32) -> (r: Individual<T>)
        ensures
            r@.len() == min_len(self@.len() as int, i2@.len() as int),
            forall|k: int| 0 <= k < r@.len() ==> #[trigger] r@[k] == self@[k] || r@[k] == i2@[k],
            uniform_rate >= RATE_SCALE ==> r@ == self@.take(r@.len() as int),
            uniform_rate == 0 ==> r@ == i2@.take(r@.len() as int),
    {
        let len = if self.genes.len() < i2.genes.len() {
            self.genes.len()
        } else {
            i2.genes.len()
        };
        let draws = random_draws(len);
        let r = self.crossover_with_draws(&i2, &draws, uniform_rate);
        if uniform_rate >= RATE_SCALE {
            assert(r@ =~= self@.take(r@.len() as int));
        }
        if uniform_rate == 0 {
            assert(r@ =~= i2@.take(r@.len() as int));
        }
        r
    }

    /// Mutation with the draws and fresh genes given: position `k` takes
    /// `fresh[k]` when `draws[k] < mutation_rate` and keeps its gene
    /// otherwise.
    pub fn mutate_with_draws(&self, draws: &Vec<u32>, fresh: &Vec<T>, mutation_rate: u32) -> (r:
        Individual<T>)
        requires
            draws@.len() >= self@.len(),
            fresh@.len() >= self@.len(),
        ensures
            r@ == mutated(self@, draws@, fresh@, mutation_rate),
    {
        let ghost child = mutated(self@, draws@, fresh@, mutation_rate);
        let mut v: Vec<T> = Vec::new();
        let mut k: usize = 0;
        while k < self.genes.len()
            invariant
                k <= self@.len(),
                draws@.len() >= self@.len(),
                fresh@.len() >= self@.len(),
                child == mutated(self@, draws@, fresh@, mutation_rate),
                v@ == child.take(k as int),
            decreases self@.len() - k,
        {
            if draws[k] < mutation_rate {
                v.push(fresh[k].copy_gene());
            } else {
                v.push(self.genes[k].copy_gene());
            }
            k += 1;
            assert(v@ =~= child.take(k as int));
        }
        assert(child.take(self@.len() as int) =~= child);
        Individual::new_with_vec(v)
    }

    /// Mutation: each gene is replaced by a freshly sampled one with
    /// probability `mutation_rate / RATE_SCALE` and kept otherwise.
    pub fn mutate(&self, mutation_rate: u32) -> (r: Individual<T>)
        ensures
            r@.len() == self@.len(),
            forall|k: int|
                0 <= k < r@.len() && mutation_rate == 0 ==> #[trigger] r@[k] == self@[k],
            mutation_rate == 0 ==> r@ == self@,
    {
        let draws = random_draws(self.genes.len());
        let fresh = random_genes::<T>(self.genes.len());
        let r = self.mutate_with_draws(&draws, &fresh, mutation_rate);
        if mutation_rate == 0 {
            assert(r@ =~= self@);
        }
        r
    }

    /// Whether the two individuals carry the same genes.
    pub fn same_as(&self, other: &Individual<T>) -> (r: bool)
        ensures
            r == same_genes(self@, other@),
    {
        if self.genes.len() != other.genes.len() {
            return false;
        }
        let mut k: usize = 0;
        while k < self.genes.len()
            invariant
                k <= self@.len(),
                self@.len() == other@.len(),
                forall|j: int| 0 <= j < k ==> #[trigger] self@[j].same_gene(&other@[j]),
            decreases self@.len() - k,
        {
            if !self.genes[k].eq_gene(&other.genes[k]) {
                return false;
            }
            k += 1;
        }
        true
    }
}

/// A fitness function over individuals with genes of type `T`; larger is
/// better.
pub trait Fitness<T>: Sized {
    /// The score of an individual.
    spec fn score(&self, i: Individual<T>) -> i32;

    /// The score depends on the genes alone.
    proof fn lemma_score_by_genes(&self, a: Individual<T>, b: Individual<T>)
        requires
            a@ == b@,
        ensures
            self.score(a) == self.score(b),
    ;

    /// Scores an individual.
    fn fitness(&self, i: Individual<T>) -> (r: i32)
        ensures
            r == self.score(i),
    ;
}

/// The score of a gene sequence: that of any individual carrying it.
pub open spec fn fitness_of<T, F: Fitness<T>>(f: F, genes: Seq<T>) -> i32 {
    f.score(choose|i: Individual<T>| i@ == genes)
}

/// An individual's score is the score of its genes.
pub proof fn lemma_fitness_of<T, F: Fitness<T>>(f: F, i: Individual<T>)
    ensures
        fitness_of(f, i@) == f.score(i),
{
    let c = choose|j: Individual<T>| j@ == i@;
    f.lemma_score_by_genes(c, i);
}

/// The fixed knobs that govern evolution.
#[derive(Clone, Copy)]
pub struct PopulationConfiguration<F> {
    /// Scores an individual.
    pub fitness: F,
    /// Number of individuals in a generation.
    pub population_size: usize,
    /// Number of genes of each individual.
    pub genenumber: usize,
    /// Chance, out of `RATE_SCALE`, that crossover takes a gene from the first parent.
    pub uniform_rate: u32,
    /// Chance, out of `RATE_SCALE`, that mutation resamples a gene.
    pub mutation_rate: u32,
    /// Number of draws in a tournament selection.
    pub tournmant_size: usize,
    /// Number of the best distinct individuals copied into the next generation.
    pub elitism_size: usize,
    /// Number of workers that build offspring in parallel.
    pub threadpool_size: usize,
}

impl<F> PopulationConfiguration<F> {
    /// The number of elites: `elitism_size`, at most `population_size`.
    pub open spec fn elites(&self) -> int {
        min_len(self.elitism_size as int, self.population_size as int)
    }

    /// The number of elites: `elitism_size`, at most `population_size`.
    pub fn elite_count(&self) -> (r: usize)
        ensures
            r == self.elites(),
    {
        if self.elitism_size > self.population_size {
            self.population_size
        } else {
            self.elitism_size
        }
    }

    /// The number of workers: `threadpool_size`, at least 1.
    pub fn worker_count(&self) -> (r: usize)
        ensures
            r == if self.threadpool_size > 0 {
                self.threadpool_size
            } else {
                1
            },
    {
        if self.threadpool_size > 0 {
            self.threadpool_size
        } else {
            1
        }
    }
}

/// A scored individual as the contracts see it: its genes and its score.
pub type ScoredGenes<T> = (Seq<T>, i32);

/// The contracts' view of a sequence of scored individuals.
pub open spec fn scored_view<T>(v: Seq<(Individual<T>, i32)>) -> Seq<ScoredGenes<T>> {
    v.map_values(|p: (Individual<T>, i32)| (p.0@, p.1))
}

/// Pushing a pair pushes its view.
proof fn lemma_scored_view_push<T>(v: Seq<(Individual<T>, i32)>, x: (Individual<T>, i32))
    ensures
        scored_view(v.push(x)) == scored_view(v).push((x.0@, x.1)),
{
    assert(scored_view(v.push(x)) =~= scored_view(v).push((x.0@, x.1)));
}

/// Positions held in a vector, as integers.
pub open spec fn positions(v: Seq<usize>) -> Seq<int> {
    v.map_values(|j: usize| j as int)
}

/// Whether the individual at `j` is gene-equal to none of those at the
/// positions already `picked`.
pub open spec fn unpicked<T: Gene>(s: Seq<ScoredGenes<T>>, picked: Seq<int>, j: int) -> bool {
    forall|q: int| 0 <= q < picked.len() ==> !same_genes(s[#[trigger] picked[q]].0, s[j].0)
}

/// Whether `j` is the first position, among those not gene-equal to an
/// individual already picked, with the highest score.
pub open spec fn is_first_best<T: Gene>(s: Seq<ScoredGenes<T>>, picked: Seq<int>, j: int) -> bool {
    &&& 0 <= j < s.len()
    &&& unpicked(s, picked, j)
    &&& forall|i: int| 0 <= i < s.len() && #[trigger] unpicked(s, picked, i) ==> s[i].1 <= s[j].1
    &&& forall|i: int| 0 <= i < j && #[trigger] unpicked(s, picked, i) ==> s[i].1 < s[j].1
}

/// The first best position not gene-equal to one already picked, if any.
pub open spec fn first_best<T: Gene>(s: Seq<ScoredGenes<T>>, picked: Seq<int>) -> Option<int> {
    if exists|j: int| is_first_best(s, picked, j) {
        Some(choose|j: int| is_first_best(s, picked, j))
    } else {
        None
    }
}

/// The position of the fittest individual: the first with the highest score.
pub open spec fn fittest_index<T: Gene>(s: Seq<ScoredGenes<T>>) -> int {
    choose|j: int| is_first_best(s, Seq::empty(), j)
}

/// The highest score.
pub open spec fn fittest_score<T: Gene>(s: Seq<ScoredGenes<T>>) -> i32 {
    s[fittest_index(s)].1
}

/// The positions of the top `k` distinct individuals, best first: each is
/// the first best position not gene-equal to an earlier one; fewer than `k`
/// when no such position is left.
pub open spec fn top_picks<T: Gene>(s: Seq<ScoredGenes<T>>, k: nat) -> Seq<int>
    decreases k,
{
    if k == 0 {
        Seq::empty()
    } else {
        let prev = top_picks(s, (k - 1) as nat);
        match first_best(s, prev) {
            Some(j) => prev.push(j),
            None => prev,
        }
    }
}

/// The top `k`: the whole sequence when `k` reaches its length, the top `k`
/// distinct individuals otherwise.
pub open spec fn top_k<T: Gene>(s: Seq<ScoredGenes<T>>, k: nat) -> Seq<ScoredGenes<T>> {
    if k >= s.len() {
        s
    } else {
        top_picks(s, k).map_values(|j: int| s[j])
    }
}

/// Two positions that are both first best are the same.
proof fn lemma_first_best_unique<T: Gene>(s: Seq<ScoredGenes<T>>, picked: Seq<int>, a: int, b: int)
    requires
        is_first_best(s, picked, a),
        is_first_best(s, picked, b),
    ensures
        a == b,
{
    if a < b {
        assert(unpicked(s, picked, a));
    } else if b < a {
        assert(unpicked(s, picked, b));
    }
}

/// A non-empty sequence has a fittest position.
pub proof fn lemma_fittest_exists<T: Gene>(s: Seq<ScoredGenes<T>>)
    requires
        s.len() > 0,
    ensures
        is_first_best(s, Seq::empty(), fittest_index(s)),
    decreases s.len(),
{
    let none = Seq::<int>::empty();
    if s.len() == 1 {
        assert(is_first_best(s, none, 0));
    } else {
        let t = s.drop_last();
        lemma_fittest_exists(t);
        let j = fittest_index(t);
        assert(unpicked(t, none, j));
        let best = if s.last().1 > t[j].1 {
            s.len() - 1
        } else {
            j
        };
        assert forall|i: int| 0 <= i < s.len() && #[trigger] unpicked(s, none, i) implies s[i].1
            <= s[best].1 by {
            if i < t.len() {
                assert(t[i] == s[i]);
                assert(unpicked(t, none, i));
            }
        }
        assert forall|i: int| 0 <= i < best && #[trigger] unpicked(s, none, i) implies s[i].1
            < s[best].1 by {
            if i < t.len() {
                assert(t[i] == s[i]);
                assert(unpicked(t, none, i));
            }
        }
        assert(is_first_best(s, none, best));
    }
}

/// Every top position is a position of the sequence.
proof fn lemma_top_picks_in_range<T: Gene>(s: Seq<ScoredGenes<T>>, k: nat)
    ensures
        top_picks(s, k).len() <= k,
        forall|p: int| 0 <= p < top_picks(s, k).len() ==> 0 <= #[trigger] top_picks(s, k)[p] < s.len(),
    decreases k,
{
    if k > 0 {
        lemma_top_picks_in_range(s, (k - 1) as nat);
    }
}

/// The first top position is the fittest.
proof fn lemma_top_starts_fittest<T: Gene>(s: Seq<ScoredGenes<T>>, k: nat)
    requires
        s.len() > 0,
        k > 0,
    ensures
        top_picks(s, k).len() > 0,
        top_picks(s, k)[0] == fittest_index(s),
    decreases k,
{
    if k == 1 {
        lemma_fittest_exists(s);
        assert(top_picks(s, 0) =~= Seq::<int>::empty());
    } else {
        lemma_top_starts_fittest(s, (k - 1) as nat);
    }
}

/// What holds of every individual holds of every one of the top `k`.
proof fn lemma_top_k_within<T: Gene>(
    s: Seq<ScoredGenes<T>>,
    k: nat,
    pred: spec_fn(ScoredGenes<T>) -> bool,
)
    requires
        forall|j: int| 0 <= j < s.len() ==> #[trigger] pred(s[j]),
    ensures
        forall|p: int| 0 <= p < top_k(s, k).len() ==> #[trigger] pred(top_k(s, k)[p]),
{
    lemma_top_picks_in_range(s, k);
    if k < s.len() {
        let tp = top_picks(s, k);
        assert forall|p: int| 0 <= p < top_k(s, k).len() implies #[trigger] pred(top_k(s, k)[p]) by {
            assert(0 <= tp[p] < s.len());
            assert(pred(s[tp[p]]));
        }
    }
}

/// The scored individuals that a tournament draws: those at `picks`.
pub open spec fn sample_of<T>(s: Seq<ScoredGenes<T>>, picks: Seq<int>) -> Seq<ScoredGenes<T>> {
    picks.map_values(|j: int| s[j])
}

/// No two of the top `k` individuals are gene-equal, as long as `k` is below
/// the number of individuals.
pub proof fn lemma_top_k_distinct<T: Gene>(s: Seq<ScoredGenes<T>>, k: nat)
    requires
        k < s.len(),
    ensures
        forall|p: int, q: int|
            0 <= p < q < top_k(s, k).len() ==> !same_genes(
                #[trigger] top_k(s, k)[p].0,
                #[trigger] top_k(s, k)[q].0,
            ),
{
    lemma_top_picks_distinct(s, k);
}

/// No two top positions hold gene-equal individuals.
proof fn lemma_top_picks_distinct<T: Gene>(s: Seq<ScoredGenes<T>>, k: nat)
    ensures
        forall|p: int, q: int|
            0 <= p < q < top_picks(s, k).len() ==> !same_genes(
                s[#[trigger] top_picks(s, k)[p]].0,
                s[#[trigger] top_picks(s, k)[q]].0,
            ),
    decreases k,
{
    if k > 0 {
        let prev = top_picks(s, (k - 1) as nat);
        lemma_top_picks_distinct(s, (k - 1) as nat);
        match first_best(s, prev) {
            Some(j) => {
                let cur = prev.push(j);
                assert(is_first_best(s, prev, j));
                assert forall|p: int, q: int| 0 <= p < q < cur.len() implies !same_genes(
                    s[#[trigger] cur[p]].0,
                    s[#[trigger] cur[q]].0,
                ) by {
                    if q == prev.len() {
                        assert(prev[p] == cur[p]);
                    } else {
                        assert(prev[p] == cur[p] && prev[q] == cur[q]);
                    }
                }
            },
            None => {},
        }
    }
}

/// One generation: scored individuals, the configuration that governs them,
/// and the generation number.
#[derive(Clone)]
pub struct Population<T, F> {
    /// The individuals, each with its score.
    pub individuals_and_scores: Vec<(Individual<T>, i32)>,
    /// The configuration the population evolves under.
    pub configuration: PopulationConfiguration<F>,
    /// The generation number, 0 for a population built at random.
    pub generation: usize,
}

impl<T, F> Population<T, F> {
    /// The scored individuals as the contracts see them.
    pub open spec fn scored(&self) -> Seq<ScoredGenes<T>> {
        scored_view(self.individuals_and_scores@)
    }

    /// Whether every individual has `n` genes.
    pub open spec fn all_of_length(&self, n: int) -> bool {
        forall|k: int| 0 <= k < self.scored().len() ==> (#[trigger] self.scored()[k]).0.len() == n
    }

    /// What evolving needs: individuals to select from, a positive size and
    /// a positive tournament size.
    pub open spec fn can_evolve(&self) -> bool {
        &&& self.individuals_and_scores@.len() > 0
        &&& self.configuration.population_size > 0
        &&& self.configuration.tournmant_size > 0
    }
}

impl<T: Gene, F: Fitness<T> + Copy> Population<T, F> {
    /// Whether every stored score is the fitness of its individual.
    pub open spec fn consistent(&self) -> bool {
        forall|k: int|
            0 <= k < self.scored().len() ==> (#[trigger] self.scored()[k]).1
                == fitness_of(self.configuration.fitness, self.scored()[k].0)
    }

    /// Whether this population can come from `start` by evolving it zero or
    /// more times: the same configuration, a generation number no smaller,
    /// scores still consistent and lengths still equal where they were, and
    /// under elitism a highest score no lower.
    pub open spec fn descends_from(&self, start: Population<T, F>) -> bool {
        &&& self.configuration == start.configuration
        &&& self.generation >= start.generation
        &&& start.consistent() ==> self.consistent()
        &&& forall|n: int| #[trigger] start.all_of_length(n) ==> self.all_of_length(n)
        &&& start.configuration.elitism_size > 0 ==> fittest_score(self.scored()) >= fittest_score(
            start.scored(),
        )
    }

    /// What `new` makes of `configuration`: generation 0 of
    /// `population_size` individuals of `genenumber` genes, scored.
    pub open spec fn is_fresh(&self, configuration: PopulationConfiguration<F>) -> bool {
        &&& self.scored().len() == configuration.population_size
        &&& self.all_of_length(configuration.genenumber as int)
        &&& self.consistent()
        &&& self.configuration == configuration
        &&& self.generation == 0
    }

    /// The top `e` of this population, with `e` the number of elites.
    pub open spec fn elites(&self) -> Seq<ScoredGenes<T>> {
        top_k(self.scored(), self.configuration.elites() as nat)
    }

    /// The population made of the given scored individuals.
    pub fn new_with_vec(
        vec: Vec<(Individual<T>, i32)>,
        configuration: PopulationConfiguration<F>,
        generation: usize,
    ) -> (r: Population<T, F>)
        ensures
            r.individuals_and_scores@ == vec@,
            r.configuration == configuration,
            r.generation == generation,
    {
        Population { individuals_and_scores: vec, configuration, generation }
    }

    /// Generation 0: `population_size` random individuals of `genenumber`
    /// genes, each with its fitness.
    pub fn new(configuration: PopulationConfiguration<F>) -> (r: Population<T, F>)
        ensures
            r.is_fresh(configuration),
            r.scored().len() == configuration.population_size,
            r.all_of_length(configuration.genenumber as int),
            r.consistent(),
            r.configuration == configuration,
            r.generation == 0,
    {
        let mut v: Vec<(Individual<T>, i32)> = Vec::new();
        let mut k: usize = 0;
        while k < configuration.population_size
            invariant
                k <= configuration.population_size,
                v@.len() == k,
                forall|j: int|
                    0 <= j < k ==> (#[trigger] v@[j]).0@.len() == configuration.genenumber && v@[j].1
                        == fitness_of(configuration.fitness, v@[j].0@),
            decreases configuration.population_size - k,
        {
            let i = Individual::<T>::new(configuration.genenumber);
            let c = i.duplicate();
            let ghost gc = c;
            let score = configuration.fitness.fitness(c);
            proof {
                lemma_fitness_of(configuration.fitness, gc);
            }
            v.push((i, score));
            k += 1;
        }
        let r = Population::new_with_vec(v, configuration, 0);
        assert forall|j: int| 0 <= j < r.scored().len() implies (#[trigger] r.scored()[j]).0.len()
            == configuration.genenumber as int && r.scored()[j].1 == fitness_of(configuration.fitness, 
            r.scored()[j].0,
        ) by {
            assert(r.scored()[j] == (v@[j].0@, v@[j].1));
        }
        r
    }

    /// A copy of the scored individual at position `j`.
    fn copy_at(&self, j: usize) -> (r: (Individual<T>, i32))
        requires
            j < self.scored().len(),
        ensures
            (r.0@, r.1) == self.scored()[j as int],
    {
        let pair = &self.individuals_and_scores[j];
        (pair.0.duplicate(), pair.1)
    }

    /// The fittest individual with its score: the first with the highest
    /// score; none for an empty population.
    pub fn get_fittest(&self) -> (r: Option<(Individual<T>, i32)>)
        ensures
            r is None <==> self.scored().len() == 0,
            r matches Some(p) ==> (p.0@, p.1) == self.scored()[fittest_index(self.scored())],
    {
        if self.individuals_and_scores.len() == 0 {
            return None;
        }
        let none: Vec<usize> = Vec::new();
        let best = self.first_best_position(&none);
        proof {
            assert(positions(none@) =~= Seq::<int>::empty());
            lemma_fittest_exists(self.scored());
        }
        match best {
            Some(j) => {
                proof {
                    lemma_first_best_unique(self.scored(), Seq::empty(), j as int, fittest_index(self.scored()));
                }
                Some(self.copy_at(j))
            },
            None => {
                proof {
                    let f = fittest_index(self.scored());
                    assert(unpicked(self.scored(), Seq::empty(), f));
                }
                None
            },
        }
    }

    /// Whether the individual at `j` is gene-equal to none at the `picked`
    /// positions.
    fn is_unpicked(&self, picked: &Vec<usize>, j: usize) -> (r: bool)
        requires
            j < self.scored().len(),
            forall|q: int| 0 <= q < picked@.len() ==> #[trigger] picked@[q] < self.scored().len(),
        ensures
            r == unpicked(self.scored(), positions(picked@), j as int),
    {
        let ghost s = self.scored();
        let ghost pk = positions(picked@);
        let mut q: usize = 0;
        while q < picked.len()
            invariant
                q <= picked@.len(),
                j < s.len(),
                s == self.scored(),
                pk == positions(picked@),
                forall|i: int| 0 <= i < picked@.len() ==> #[trigger] picked@[i] < s.len(),
                forall|i: int| 0 <= i < q ==> !same_genes(s[#[trigger] pk[i]].0, s[j as int].0),
            decreases picked@.len() - q,
        {
            let a = &self.individuals_and_scores[picked[q]].0;
            let b = &self.individuals_and_scores[j].0;
            assert(s[pk[q as int]].0 == a@);
            if a.same_as(b) {
                return false;
            }
            q += 1;
        }
        true
    }

    /// The first best position not gene-equal to one already picked, if any.
    fn first_best_position(&self, picked: &Vec<usize>) -> (r: Option<usize>)
        requires
            forall|q: int| 0 <= q < picked@.len() ==> #[trigger] picked@[q] < self.scored().len(),
        ensures
            r matches Some(j) ==> is_first_best(self.scored(), positions(picked@), j as int),
            r is None ==> forall|j: int|
                0 <= j < self.scored().len() ==> !unpicked(self.scored(), positions(picked@), j),
    {
        let ghost s = self.scored();
        let ghost pk = positions(picked@);
        let n = self.individuals_and_scores.len();
        let mut best: Option<usize> = None;
        let mut j: usize = 0;
        while j < n
            invariant
                n == s.len(),
                j <= n,
                s == self.scored(),
                pk == positions(picked@),
                forall|q: int| 0 <= q < picked@.len() ==> #[trigger] picked@[q] < s.len(),
                best is None ==> forall|i: int| 0 <= i < j ==> !unpicked(s, pk, i),
                best matches Some(b) ==> {
                    &&& b < j
                    &&& unpicked(s, pk, b as int)
                    &&& forall|i: int| 0 <= i < j && #[trigger] unpicked(s, pk, i) ==> s[i].1 <= s[b as int].1
                    &&& forall|i: int| 0 <= i < b && #[trigger] unpicked(s, pk, i) ==> s[i].1 < s[b as int].1
                },
            decreases n - j,
        {
            if self.is_unpicked(picked, j) {
                let score = self.individuals_and_scores[j].1;
                match best {
                    None => {
                        best = Some(j);
                    },
                    Some(b) => {
                        if self.individuals_and_scores[b].1 < score {
                            best = Some(j);
                        }
                    },
                }
            }
            j += 1;
        }
        best
    }

    /// The positions of the top `number` distinct individuals, best first.
    fn top_positions(&self, number: usize) -> (r: Vec<usize>)
        ensures
            positions(r@) == top_picks(self.scored(), number as nat),
    {
        let ghost s = self.scored();
        let mut picked: Vec<usize> = Vec::new();
        let mut p: usize = 0;
        while p < number
            invariant
                p <= number,
                s == self.scored(),
                positions(picked@) == top_picks(s, p as nat),
                forall|q: int| 0 <= q < picked@.len() ==> #[trigger] picked@[q] < s.len(),
            decreases number - p,
        {
            let ghost prev = positions(picked@);
            let best = self.first_best_position(&picked);
            match best {
                Some(j) => {
                    proof {
                        let c = choose|i: int| is_first_best(s, prev, i);
                        lemma_first_best_unique(s, prev, j as int, c);
                    }
                    picked.push(j);
                    assert(positions(picked@) =~= prev.push(j as int));
                },
                None => {
                    assert(!exists|i: int| is_first_best(s, prev, i));
                },
            }
            p += 1;
        }
        picked
    }

    /// Up to `number` scored individuals, best first, no two gene-equal:
    /// each is the first highest-scoring individual not gene-equal to an
    /// earlier one. When `number` reaches the population's size, a copy of
    /// the whole population.
    pub fn get_top(&self, number: usize) -> (r: Vec<(Individual<T>, i32)>)
        ensures
            scored_view(r@) == top_k(self.scored(), number as nat),
            number > 0 && self.scored().len() > 0 ==> r@.len() > 0,
    {
        let ghost s = self.scored();
        let n = self.individuals_and_scores.len();
        let mut v: Vec<(Individual<T>, i32)> = Vec::new();
        if n <= number {
            let mut j: usize = 0;
            while j < n
                invariant
                    n == s.len(),
                    s == self.scored(),
                    j <= n,
                    scored_view(v@) == s.take(j as int),
                decreases n - j,
            {
                let c = self.copy_at(j);
                proof {
                    lemma_scored_view_push(v@, c);
                }
                v.push(c);
                j += 1;
                assert(scored_view(v@) =~= s.take(j as int));
            }
            assert(s.take(n as int) =~= s);
        } else {
            let picks = self.top_positions(number);
            let ghost tp = top_picks(s, number as nat);
            proof {
                lemma_top_picks_in_range(s, number as nat);
            }
            let mut q: usize = 0;
            while q < picks.len()
                invariant
                    n == s.len(),
                    s == self.scored(),
                    tp == top_picks(s, number as nat),
                    positions(picks@) == tp,
                    forall|p: int| 0 <= p < tp.len() ==> 0 <= #[trigger] tp[p] < s.len(),
                    q <= picks@.len(),
                    scored_view(v@) == tp.map_values(|j: int| s[j]).take(q as int),
                decreases picks@.len() - q,
            {
                assert(tp[q as int] == picks@[q as int] as int);
                let c = self.copy_at(picks[q]);
                proof {
                    lemma_scored_view_push(v@, c);
                }
                v.push(c);
                q += 1;
                assert(scored_view(v@) =~= tp.map_values(|j: int| s[j]).take(q as int));
            }
            assert(tp.map_values(|j: int| s[j]).take(q as int) =~= tp.map_values(|j: int| s[j]));
            proof {
                if number > 0 {
                    lemma_top_starts_fittest(s, number as nat);
                }
            }
        }
        v
    }

    /// The winner of a tournament over the individuals at `picks`: the first
    /// drawn with the highest score.
    pub fn tournament_with(&self, picks: &Vec<usize>) -> (r: Individual<T>)
        requires
            picks@.len() > 0,
            forall|q: int| 0 <= q < picks@.len() ==> #[trigger] picks@[q] < self.scored().len(),
        ensures
            r@ == ({
                let sample = sample_of(self.scored(), positions(picks@));
                sample[fittest_index(sample)].0
            }),
    {
        let ghost s = self.scored();
        let ghost sample = sample_of(s, positions(picks@));
        let ghost none = Seq::<int>::empty();
        let mut m: usize = 0;
        let mut q: usize = 1;
        while q < picks.len()
            invariant
                s == self.scored(),
                sample == sample_of(s, positions(picks@)),
                sample.len() == picks@.len(),
                forall|i: int| 0 <= i < picks@.len() ==> #[trigger] picks@[i] < s.len(),
                1 <= q <= picks@.len(),
                m < q,
                forall|i: int| 0 <= i < q ==> #[trigger] sample[i].1 <= sample[m as int].1,
                forall|i: int| 0 <= i < m ==> #[trigger] sample[i].1 < sample[m as int].1,
            decreases picks@.len() - q,
        {
            assert(sample[q as int] == s[picks@[q as int] as int]);
            assert(sample[m as int] == s[picks@[m as int] as int]);
            if self.individuals_and_scores[picks[m]].1 < self.individuals_and_scores[picks[q]].1 {
                m = q;
            }
            q += 1;
        }
        proof {
            assert forall|i: int| 0 <= i < sample.len() implies #[trigger] unpicked(sample, none, i) by {}
            assert(is_first_best(sample, none, m as int));
            lemma_first_best_unique(sample, none, m as int, fittest_index(sample));
        }
        assert(sample[m as int] == s[picks@[m as int] as int]);
        self.individuals_and_scores[picks[m]].0.duplicate()
    }

    /// Tournament selection: draws `tournmant_size` individuals at random,
    /// with replacement, and returns the first drawn with the highest score.
    pub fn tournament(&self) -> (r: Individual<T>)
        requires
            self.can_evolve(),
        ensures
            exists|j: int| 0 <= j < self.scored().len() && r@ == #[trigger] self.scored()[j].0,
    {
        let n = self.individuals_and_scores.len();
        let mut picks: Vec<usize> = Vec::new();
        let mut q: usize = 0;
        while q < self.configuration.tournmant_size
            invariant
                n == self.scored().len(),
                n > 0,
                q <= self.configuration.tournmant_size,
                picks@.len() == q,
                forall|i: int| 0 <= i < picks@.len() ==> #[trigger] picks@[i] < n,
            decreases self.configuration.tournmant_size - q,
        {
            picks.push(random_below(n));
            q += 1;
        }
        let r = self.tournament_with(&picks);
        proof {
            let sample = sample_of(self.scored(), positions(picks@));
            lemma_fittest_exists(sample);
            let m = fittest_index(sample);
            assert(r@ == self.scored()[picks@[m] as int].0);
        }
        r
    }

    /// One offspring: two tournament winners crossed over, the child
    /// mutated, then scored.
    pub fn breed(&self) -> (r: (Individual<T>, i32))
        requires
            self.can_evolve(),
        ensures
            bred_from(*self, (r.0@, r.1)),
    {
        let i1 = self.tournament();
        let i2 = self.tournament();
        let ghost p1 = i1@;
        let ghost p2 = i2@;
        let ic = i1.crossover(i2, self.configuration.uniform_rate);
        let im = ic.mutate(self.configuration.mutation_rate);
        let c = im.duplicate();
        let ghost gc = c;
        let f = self.configuration.fitness.fitness(c);
        proof {
            lemma_fitness_of(self.configuration.fitness, gc);
            if self.configuration.mutation_rate == 0 {
                let s = self.scored();
                let j1 = choose|j: int| 0 <= j < s.len() && p1 == #[trigger] s[j].0;
                let j2 = choose|j: int| 0 <= j < s.len() && p2 == #[trigger] s[j].0;
                assert(im@ == ic@);
                assert forall|k: int| 0 <= k < im@.len() implies #[trigger] im@[k] == s[j1].0[k]
                    || im@[k] == s[j2].0[k] by {
                    assert(ic@[k] == p1[k] || ic@[k] == p2[k]);
                }
            }
        }
        (im, f)
    }

    /// How many offspring the next generation needs: `population_size`
    /// less the number of elites.
    pub fn offspring_count(&self) -> (r: usize)
        ensures
            r == self.configuration.population_size - self.elites().len(),
    {
        let e = self.configuration.elite_count();
        let n = self.individuals_and_scores.len();
        if e >= n {
            self.configuration.population_size - n
        } else {
            let picks = self.top_positions(e);
            proof {
                lemma_top_picks_in_range(self.scored(), e as nat);
                assert(positions(picks@).len() == picks@.len());
            }
            self.configuration.population_size - picks.len()
        }
    }

    /// The next generation from offspring made elsewhere: the elites
    /// followed by `offspring`, under the same configuration.
    pub fn next_generation(&self, offspring: Vec<(Individual<T>, i32)>) -> (r: Population<T, F>)
        requires
            self.generation < usize::MAX,
        ensures
            r.scored() == self.elites() + scored_view(offspring@),
            r.configuration == self.configuration,
            r.generation == self.generation + 1,
    {
        let e = self.configuration.elite_count();
        let mut v = self.get_top(e);
        let ghost elites = v@;
        let ghost made = offspring@;
        let mut offspring = offspring;
        v.append(&mut offspring);
        assert(scored_view(v@) =~= scored_view(elites) + scored_view(made));
        Population::new_with_vec(v, self.configuration, self.generation + 1)
    }

    /// The next generation: the top `e` distinct individuals (with `e` the
    /// elitism size, at most the population size) carried over with their
    /// scores, followed by as many offspring from `breed` as it takes to
    /// make `population_size`; the same configuration, and the generation
    /// number plus one.
    pub fn evolve(&self) -> (r: Population<T, F>)
        requires
            self.can_evolve(),
            self.generation < usize::MAX,
        ensures
            evolves(*self, r),
            r.scored().len() == self.configuration.population_size,
            self.consistent() ==> r.consistent(),
            self.configuration.elitism_size > 0 ==> fittest_score(r.scored()) >= fittest_score(
                self.scored(),
            ),
            forall|n: int| #[trigger] self.all_of_length(n) ==> r.all_of_length(n),
            r.can_evolve(),
    {
        let count = self.offspring_count();
        let mut offspring: Vec<(Individual<T>, i32)> = Vec::new();
        let mut k: usize = 0;
        while k < count
            invariant
                self.can_evolve(),
                k <= count,
                offspring@.len() == k,
                forall|j: int| 0 <= j < k ==> bred_from(*self, #[trigger] scored_view(offspring@)[j]),
            decreases count - k,
        {
            let child = self.breed();
            proof {
                lemma_scored_view_push(offspring@, child);
            }
            offspring.push(child);
            k += 1;
        }
        let ghost made = scored_view(offspring@);
        let r = self.next_generation(offspring);
        proof {
            let el = self.elites();
            let rs = r.scored();
            assert(rs.take(el.len() as int) =~= el);
            assert forall|j: int| el.len() <= j < rs.len() implies #[trigger] bred_from(*self, rs[j]) by {
                assert(rs[j] == made[j - el.len()]);
            }
            lemma_evolves_laws(*self, r);
        }
        r
    }
}

/// Whether the gene sequence takes its gene at each position from one of
/// two individuals of `s`, and is as long as the shorter of them.
pub open spec fn from_two_members<T>(s: Seq<ScoredGenes<T>>, genes: Seq<T>) -> bool {
    exists|j1: int, j2: int|
        #![trigger s[j1], s[j2]]
        0 <= j1 < s.len() && 0 <= j2 < s.len() && genes.len() == min_len(
            s[j1].0.len() as int,
            s[j2].0.len() as int,
        ) && forall|k: int|
            0 <= k < genes.len() ==> #[trigger] genes[k] == s[j1].0[k] || genes[k] == s[j2].0[k]
}

/// What `breed` promises of a child of `a`: it is scored by the fitness; it
/// has the length that every individual of `a` has, if they share one; and
/// without mutation each of its genes comes from one of two members of `a`.
pub open spec fn bred_from<T: Gene, F: Fitness<T> + Copy>(
    a: Population<T, F>,
    child: ScoredGenes<T>,
) -> bool {
    &&& child.1 == fitness_of(a.configuration.fitness, child.0)
    &&& forall|n: int| #[trigger] a.all_of_length(n) ==> child.0.len() == n
    &&& a.configuration.mutation_rate == 0 ==> from_two_members(a.scored(), child.0)
}

/// One step of evolution from `a` to `b`: the same configuration, the next
/// generation number, `population_size` individuals, the elites of `a`
/// first, and after them offspring bred from `a`.
pub open spec fn evolves<T: Gene, F: Fitness<T> + Copy>(a: Population<T, F>, b: Population<T, F>) -> bool {
    &&& b.configuration == a.configuration
    &&& b.generation == a.generation + 1
    &&& b.scored().len() == a.configuration.population_size
    &&& b.scored().take(a.elites().len() as int) == a.elites()
    &&& forall|k: int| a.elites().len() <= k < b.scored().len() ==> #[trigger] bred_from(a, b.scored()[k])
}

/// Step `i` of `path` is one step of evolution.
pub open spec fn chain_step<T: Gene, F: Fitness<T> + Copy>(path: Seq<Population<T, F>>, i: int) -> bool {
    evolves(path[i], path[i + 1])
}

/// Each population of `path` evolves into the next.
pub open spec fn is_chain<T: Gene, F: Fitness<T> + Copy>(path: Seq<Population<T, F>>) -> bool {
    forall|i: int| 0 <= i < path.len() - 1 ==> #[trigger] chain_step(path, i)
}

/// `n` steps of evolution lead from `a` to `b`.
pub open spec fn evolved<T: Gene, F: Fitness<T> + Copy>(
    a: Population<T, F>,
    b: Population<T, F>,
    n: nat,
) -> bool {
    exists|path: Seq<Population<T, F>>|
        #[trigger] is_chain(path) && path.len() == n + 1 && path[0] == a && path[n as int] == b
}

/// What one step of evolution keeps: the population can evolve again, has
/// `population_size` individuals, keeps consistent scores and a common
/// length, and under elitism does not lose its highest score.
pub proof fn lemma_evolves_laws<T: Gene, F: Fitness<T> + Copy>(a: Population<T, F>, b: Population<T, F>)
    requires
        a.can_evolve(),
        evolves(a, b),
    ensures
        b.can_evolve(),
        b.scored().len() == a.configuration.population_size,
        b.descends_from(a),
{
    let s = a.scored();
    let el = a.elites();
    let rs = b.scored();
    let fit = a.configuration.fitness;
    let e = a.configuration.elites() as nat;
    assert(rs.len() == b.individuals_and_scores@.len());
    lemma_top_picks_in_range(s, e);
    assert(el.len() <= e);
    assert forall|j: int| 0 <= j < el.len() implies rs[j] == el[j] by {
        assert(rs.take(el.len() as int)[j] == rs[j]);
    }
    if a.consistent() {
        let scored_right = |x: ScoredGenes<T>| x.1 == fitness_of(fit, x.0);
        assert forall|j: int| 0 <= j < s.len() implies #[trigger] scored_right(s[j]) by {
            assert(s[j] == a.scored()[j]);
        }
        lemma_top_k_within(s, e, scored_right);
        assert forall|j: int| 0 <= j < rs.len() implies (#[trigger] rs[j]).1 == fitness_of(fit, rs[j].0)
            by {
            if j < el.len() {
                assert(scored_right(el[j]));
            } else {
                assert(bred_from(a, rs[j]));
            }
        }
    }
    assert forall|n: int| #[trigger] a.all_of_length(n) implies b.all_of_length(n) by {
        let long_n = |x: ScoredGenes<T>| x.0.len() == n;
        assert forall|j: int| 0 <= j < s.len() implies #[trigger] long_n(s[j]) by {
            assert(s[j] == a.scored()[j]);
        }
        lemma_top_k_within(s, e, long_n);
        assert forall|j: int| 0 <= j < rs.len() implies (#[trigger] rs[j]).0.len() == n by {
            if j < el.len() {
                assert(long_n(el[j]));
            } else {
                assert(bred_from(a, rs[j]));
            }
        }
    }
    if a.configuration.elitism_size > 0 {
        lemma_fittest_exists(s);
        let best = s[fittest_index(s)];
        // a position of the new generation that holds the old best score
        let at = if a.configuration.elites() >= s.len() {
            fittest_index(s)
        } else {
            lemma_top_starts_fittest(s, e);
            0
        };
        assert(rs[at] == el[at]);
        assert(rs[at].1 == best.1);
        lemma_fittest_exists(rs);
        assert(unpicked(rs, Seq::empty(), at));
    }
}

/// After `n` steps of evolution the population can still evolve, is `n`
/// generations later, and descends from where it started.
pub proof fn lemma_evolved_laws<T: Gene, F: Fitness<T> + Copy>(
    a: Population<T, F>,
    b: Population<T, F>,
    n: nat,
)
    requires
        a.can_evolve(),
        evolved(a, b, n),
    ensures
        b.can_evolve(),
        b.generation == a.generation + n,
        b.descends_from(a),
    decreases n,
{
    let path = choose|path: Seq<Population<T, F>>|
        #[trigger] is_chain(path) && path.len() == n + 1 && path[0] == a && path[n as int] == b;
    if n > 0 {
        let sub = path.take(n as int);
        let m = path[n - 1];
        assert forall|i: int| 0 <= i < sub.len() - 1 implies #[trigger] chain_step(sub, i) by {
            assert(chain_step(path, i));
        }
        assert(is_chain(sub) && sub.len() == n && sub[0] == a && sub[n - 1] == m);
        lemma_evolved_laws(a, m, (n - 1) as nat);
        assert(chain_step(path, n - 1));
        lemma_evolves_laws(m, b);
        assert forall|k: int| #[trigger] a.all_of_length(k) implies b.all_of_length(k) by {
            assert(m.all_of_length(k));
        }
    }
}

/// No step leads from `a` to itself.
pub proof fn lemma_evolved_zero<T: Gene, F: Fitness<T> + Copy>(a: Population<T, F>)
    ensures
        evolved(a, a, 0),
{
    let path = seq![a];
    assert(is_chain(path));
}

/// `n` steps to `m` and one more to `b` are `n + 1` steps to `b`.
pub proof fn lemma_evolved_step<T: Gene, F: Fitness<T> + Copy>(
    a: Population<T, F>,
    m: Population<T, F>,
    b: Population<T, F>,
    n: nat,
)
    requires
        evolved(a, m, n),
        evolves(m, b),
    ensures
        evolved(a, b, n + 1),
{
    let path = choose|path: Seq<Population<T, F>>|
        #[trigger] is_chain(path) && path.len() == n + 1 && path[0] == a && path[n as int] == m;
    let longer = path.push(b);
    assert forall|i: int| 0 <= i < longer.len() - 1 implies #[trigger] chain_step(longer, i) by {
        if i < n {
            assert(chain_step(path, i));
        }
    }
    assert(is_chain(longer) && longer.len() == n + 2 && longer[0] == a && longer[n + 1 as int] == b);
}

} // verus!
