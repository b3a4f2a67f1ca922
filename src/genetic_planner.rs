//! The planner: an individual is a sequence of actions, scored by walking it
//! from the problem's initial state and negating the heuristic of the state
//! reached.
use vstd::prelude::*;
use crate::genetic::{
    chain_step, evolved, fittest_index, is_chain, lemma_evolved_laws, lemma_evolved_step,
    lemma_evolved_zero, lemma_fittest_exists, Fitness, Individual, Population,
    PopulationConfiguration, Gene,
};

verus! {

/// A problem domain: its states, the initial one, the goal, a heuristic
/// (an estimate of the distance to the goal), and the moves that actions
/// carry.
pub trait State: Sized + Clone + Send + Sync + 'static {
    /// What an action does, as a value that `apply` interprets.
    type Move: Copy + Send + Sync + 'static;

    /// The initial state.
    spec fn initial() -> Self;

    /// Whether the state is a goal state.
    spec fn goal(&self) -> bool;

    /// The heuristic of the state.
    spec fn heuristic(&self) -> i32;

    /// The state that the move leads to, or none where it is inapplicable.
    spec fn next(&self, m: Self::Move) -> Option<Self>;

    /// The initial state.
    fn get_initial_state() -> (r: Self)
        ensures
            r == Self::initial(),
    ;

    /// A random action, applicable or not.
    fn get_random_action() -> Action<Self>;

    /// Whether the state is a goal state.
    fn is_goal(&self) -> (r: bool)
        ensures
            r == self.goal(),
    ;

    /// The heuristic of the state.
    fn get_heuristic(&self) -> (r: i32)
        ensures
            r == self.heuristic(),
    ;

    /// The state that the move leads to, or none where it is inapplicable.
    fn apply(&self, m: &Self::Move) -> (r: Option<Self>)
        ensures
            r == self.next(*m),
    ;
}

/// A named move.
#[derive(Clone)]
pub struct Action<T: State> {
    /// What the action does.
    pub action: T::Move,
    /// Its name; two actions are equal when their names are.
    pub name: String,
}

impl<T: State> Gene for Action<T> {
    open spec fn same_gene(&self, other: &Action<T>) -> bool {
        self.name@ == other.name@
    }

    fn random_gene() -> Action<T> {
        T::get_random_action()
    }

    fn copy_gene(&self) -> (r: Action<T>) {
        Action { action: self.action, name: self.name.clone() }
    }

    fn eq_gene(&self, other: &Action<T>) -> (r: bool) {
        self.name == other.name
    }
}

impl<T: State> PartialEq for Action<T> {
    fn eq(&self, other: &Action<T>) -> (r: bool) {
        self.name == other.name
    }
}

impl<T: State> vstd::std_specs::cmp::PartialEqSpecImpl for Action<T> {
    open spec fn obeys_eq_spec() -> bool {
        true
    }

    open spec fn eq_spec(&self, other: &Action<T>) -> bool {
        self.name@ == other.name@
    }
}

/// A state together with the actions that led to it from the initial state.
pub struct Plan<T: State> {
    /// The state reached.
    pub state: T,
    /// The actions applied, in order.
    pub actions: Vec<Action<T>>,
}

impl<T: State> View for Plan<T> {
    type V = (T, Seq<Action<T>>);

    open spec fn view(&self) -> (T, Seq<Action<T>>) {
        (self.state, self.actions@)
    }
}

impl<T: State> Plan<T> {
    /// The plan that stays at `state`, with no action.
    pub fn new(state: T) -> (r: Plan<T>)
        ensures
            r.state == state,
            r.actions@.len() == 0,
    {
        Plan { state, actions: Vec::new() }
    }
}

/// Walks `genes` from `s`, one action after another, stopping at the end,
/// at a goal state, or before the first inapplicable action: the state
/// reached and the number of actions applied.
pub open spec fn walk<T: State>(s: T, genes: Seq<Action<T>>) -> (T, nat)
    decreases genes.len(),
{
    if genes.len() == 0 || s.goal() {
        (s, 0)
    } else {
        match s.next(genes[0].action) {
            None => (s, 0),
            Some(t) => {
                let w = walk(t, genes.drop_first());
                (w.0, w.1 + 1)
            },
        }
    }
}

/// The state reached by applying each of `actions` in turn from `s`; none
/// if one of them is inapplicable.
pub open spec fn replay<T: State>(s: T, actions: Seq<Action<T>>) -> Option<T>
    decreases actions.len(),
{
    if actions.len() == 0 {
        Some(s)
    } else {
        match s.next(actions[0].action) {
            None => None,
            Some(t) => replay(t, actions.drop_first()),
        }
    }
}

/// The plan of a gene sequence: the state that walking it from the initial
/// state reaches, and the actions applied on the way.
pub open spec fn plan_of<T: State>(genes: Seq<Action<T>>) -> (T, Seq<Action<T>>) {
    let w = walk(T::initial(), genes);
    (w.0, genes.take(w.1 as int))
}

/// The plan of a gene sequence is a prefix of it; replaying that prefix
/// from the start state reaches the plan's state; and the walk stopped for
/// a reason: every gene was used, a goal was reached, or the next gene is
/// inapplicable.
pub proof fn lemma_walk_replays<T: State>(s: T, genes: Seq<Action<T>>)
    ensures
        walk(s, genes).1 <= genes.len(),
        replay(s, genes.take(walk(s, genes).1 as int)) == Some(walk(s, genes).0),
        ({
            let (f, n) = walk(s, genes);
            n == genes.len() || f.goal() || f.next(genes[n as int].action) is None
        }),
    decreases genes.len(),
{
    if genes.len() == 0 || s.goal() {
        assert(genes.take(0).len() == 0);
    } else {
        match s.next(genes[0].action) {
            None => {
                assert(genes.take(0).len() == 0);
            },
            Some(t) => {
                let rest = genes.drop_first();
                lemma_walk_replays(t, rest);
                let n = walk(t, rest).1;
                let taken = genes.take(n as int + 1);
                assert(taken[0] == genes[0]);
                assert(taken.drop_first() =~= rest.take(n as int));
                if n < rest.len() {
                    assert(rest[n as int] == genes[n as int + 1]);
                }
            },
        }
    }
}

/// The fitness that a heuristic gives: its negation, where that fits in
/// an `i32` (all but `i32::MIN`, whose fitness is `i32::MAX`).
pub open spec fn negated(h: i32) -> i32 {
    if h == i32::MIN {
        i32::MAX
    } else {
        (-h) as i32
    }
}

/// The planner's score of a gene sequence: the negated heuristic of the
/// state its plan reaches.
pub open spec fn plan_score<T: State>(genes: Seq<Action<T>>) -> i32 {
    negated(plan_of(genes).0.heuristic())
}

/// Runs the actions of `i` from the initial state, as `walk` describes, and
/// returns the state reached with the actions applied.
pub fn apply_actions<T: State>(i: Individual<Action<T>>) -> (r: Plan<T>)
    ensures
        r@ == plan_of(i@),
{
    let ghost genes = i@;
    let mut state = T::get_initial_state();
    let mut k: usize = 0;
    let n = i.genes.len();
    let mut stuck = false;
    assert(genes.skip(0) =~= genes);
    while !stuck && k < n && !state.is_goal()
        invariant
            genes == i@,
            n == genes.len(),
            k <= n,
            walk(T::initial(), genes) == ({
                let w = walk(state, genes.skip(k as int));
                (w.0, (w.1 + k) as nat)
            }),
            stuck ==> k < n && !state.goal() && state.next(genes[k as int].action) is None,
        decreases n - k, if stuck { 0int } else { 1int },
    {
        match state.apply(&i.genes[k].action) {
            Some(next) => {
                assert(genes.skip(k as int).drop_first() =~= genes.skip(k as int + 1));
                state = next;
                k += 1;
            },
            None => {
                stuck = true;
            },
        }
    }
    assert(stuck ==> genes.skip(k as int)[0] == genes[k as int]);
    assert(k == n ==> genes.skip(k as int).len() == 0);
    let mut actions = i.genes;
    actions.truncate(k);
    Plan { state, actions }
}

/// The fitness of a sequence of actions: the negated heuristic of the state
/// that its plan reaches.
pub fn fitness_planner<T: State>(i: Individual<Action<T>>) -> (r: i32)
    ensures
        r == plan_score(i@),
{
    let node = apply_actions(i);
    let h = node.state.get_heuristic();
    if h == i32::MIN {
        i32::MAX
    } else {
        -h
    }
}

/// The fitness function of the planner, `fitness_planner`.
#[derive(Clone, Copy)]
pub struct PlannerFitness;

impl<T: State> Fitness<Action<T>> for PlannerFitness {
    open spec fn score(&self, i: Individual<Action<T>>) -> i32 {
        plan_score(i@)
    }

    proof fn lemma_score_by_genes(&self, a: Individual<Action<T>>, b: Individual<Action<T>>) {
    }

    fn fitness(&self, i: Individual<Action<T>>) -> (r: i32) {
        fitness_planner(i)
    }
}

/// What a caller sets to plan.
pub struct PlannerConfiguration {
    /// The most actions a plan can have: the number of genes.
    pub max_actions: usize,
    /// Number of individuals in a generation.
    pub population_size: usize,
    /// Number of the best distinct individuals copied into the next generation.
    pub elitism_size: usize,
    /// Number of draws in a tournament selection.
    pub tournmant_size: usize,
    /// Chance, out of `RATE_SCALE`, that crossover takes a gene from the first parent.
    pub uniform_rate: u32,
    /// Chance, out of `RATE_SCALE`, that mutation resamples a gene.
    pub mutation_rate: u32,
    /// Number of workers that build offspring in parallel.
    pub threadpool_size: usize,
}

/// The population configuration that a planner configuration stands for.
pub open spec fn lowered(c: PlannerConfiguration) -> PopulationConfiguration<PlannerFitness> {
    PopulationConfiguration {
        fitness: PlannerFitness,
        population_size: c.population_size,
        genenumber: c.max_actions,
        uniform_rate: c.uniform_rate,
        mutation_rate: c.mutation_rate,
        tournmant_size: c.tournmant_size,
        elitism_size: c.elitism_size,
        threadpool_size: c.threadpool_size,
    }
}

/// The population configuration that a planner configuration stands for:
/// `max_actions` genes, scored by `fitness_planner`.
pub fn get_population_configuration(c: PlannerConfiguration) -> (r: PopulationConfiguration<
    PlannerFitness,
>)
    ensures
        r == lowered(c),
{
    PopulationConfiguration {
        fitness: PlannerFitness,
        population_size: c.population_size,
        genenumber: c.max_actions,
        uniform_rate: c.uniform_rate,
        mutation_rate: c.mutation_rate,
        tournmant_size: c.tournmant_size,
        elitism_size: c.elitism_size,
        threadpool_size: c.threadpool_size,
    }
}

/// The plan of the fittest individual.
pub open spec fn best_plan_of<T: State, F>(pop: Population<Action<T>, F>) -> (T, Seq<Action<T>>) {
    plan_of(pop.scored()[fittest_index(pop.scored())].0)
}

/// The plan of the fittest individual of a non-empty population.
fn best_plan<T: State, F: Fitness<Action<T>> + Copy>(pop: &Population<Action<T>, F>) -> (r: Plan<T>)
    requires
        pop.scored().len() > 0,
    ensures
        r@ == best_plan_of(*pop),
{
    let best = pop.get_fittest().unwrap();
    apply_actions(best.0)
}

/// Whether a search stops at `p`: the plan of its fittest individual
/// reaches a goal, or no generation number is left.
pub open spec fn stops<T: State, F>(p: Population<Action<T>, F>) -> bool {
    best_plan_of(p).0.goal() || p.generation == usize::MAX
}

/// The search that `find_solution_and_population_from_population` makes
/// leads from `a` to `b`: a chain of evolution steps from `a` to `b` that
/// stops at `b` and at no population before it. So `b` is `a` where the
/// search stops at `a`.
pub open spec fn searched<T: State, F: Fitness<Action<T>> + Copy>(
    a: Population<Action<T>, F>,
    b: Population<Action<T>, F>,
) -> bool {
    exists|path: Seq<Population<Action<T>, F>>|
        {
            &&& #[trigger] is_chain(path)
            &&& path.len() >= 1
            &&& path[0] == a
            &&& path.last() == b
            &&& stops(b)
            &&& forall|i: int| 0 <= i < path.len() - 1 ==> !stops(#[trigger] path[i])
        }
}

/// The plan of the fittest of a population whose individuals all have `n`
/// genes has at most `n` actions.
proof fn lemma_best_plan_length<T: State, F: Fitness<Action<T>> + Copy>(
    pop: Population<Action<T>, F>,
    n: int,
)
    requires
        pop.can_evolve(),
        pop.all_of_length(n),
    ensures
        best_plan_of(pop).1.len() <= n,
{
    let s = pop.scored();
    lemma_fittest_exists(s);
    let genes = s[fittest_index(s)].0;
    lemma_walk_replays(T::initial(), genes);
}

/// Evolves `pop` until the plan of its fittest individual reaches a goal
/// state, and returns that plan with the last population. The search ends
/// short of a goal only when the generation number reaches `usize::MAX`.
pub fn find_solution_and_population_from_population<T: State, F: Fitness<Action<T>> + Copy>(
    pop: Population<Action<T>, F>,
) -> (r: (Plan<T>, Population<Action<T>, F>))
    requires
        pop.can_evolve(),
    ensures
        searched(pop, r.1),
        r.0@ == best_plan_of(r.1),
        r.0.state.goal() || r.1.generation == usize::MAX,
        best_plan_of(pop).0.goal() ==> r.1 == pop,
        r.1.descends_from(pop),
        r.1.can_evolve(),
{
    let ghost start = pop;
    let mut pop = pop;
    let ghost mut path = seq![pop];
    let mut node = best_plan(&pop);
    while !node.state.is_goal() && pop.generation < usize::MAX
        invariant
            start.can_evolve(),
            pop.can_evolve(),
            node@ == best_plan_of(pop),
            is_chain(path),
            path.len() >= 1,
            path[0] == start,
            path.last() == pop,
            forall|i: int| 0 <= i < path.len() - 1 ==> !stops(#[trigger] path[i]),
        decreases usize::MAX - pop.generation,
    {
        let ghost before = pop;
        pop = pop.evolve();
        proof {
            let longer = path.push(pop);
            assert forall|i: int| 0 <= i < longer.len() - 1 implies #[trigger] chain_step(longer, i) by {
                if i < path.len() - 1 {
                    assert(chain_step(path, i));
                }
            }
            assert forall|i: int| 0 <= i < longer.len() - 1 implies !stops(#[trigger] longer[i]) by {
                if i < path.len() - 1 {
                    assert(longer[i] == path[i]);
                }
            }
            path = longer;
        }
        node = best_plan(&pop);
    }
    proof {
        assert(stops(pop));
        assert(searched(start, pop));
        let n = (path.len() - 1) as nat;
        assert(evolved(start, pop, n));
        lemma_evolved_laws(start, pop, n);
        if best_plan_of(start).0.goal() {
            if path.len() > 1 {
                assert(!stops(path[0]));
            }
        }
    }
    (node, pop)
}

/// Builds a random population from `c` and evolves it until the plan of its
/// fittest individual reaches a goal state (or the generation number reaches
/// `usize::MAX`); that plan with the last population.
pub fn find_solution_and_population<T: State>(c: PlannerConfiguration) -> (r: (
    Plan<T>,
    Population<Action<T>, PlannerFitness>,
))
    requires
        c.population_size > 0,
        c.tournmant_size > 0,
    ensures
        exists|first: Population<Action<T>, PlannerFitness>|
            first.is_fresh(lowered(c)) && #[trigger] searched(first, r.1),
        r.0@ == best_plan_of(r.1),
        r.0.state.goal() || r.1.generation == usize::MAX,
        r.0.actions@.len() <= c.max_actions,
        r.1.configuration == lowered(c),
        r.1.can_evolve(),
        r.1.consistent(),
        r.1.all_of_length(c.max_actions as int),
{
    let pc = get_population_configuration(c);
    let pop = Population::<Action<T>, PlannerFitness>::new(pc);
    let ghost first = pop;
    let r = find_solution_and_population_from_population(pop);
    proof {
        assert(first.all_of_length(c.max_actions as int));
        lemma_best_plan_length(r.1, c.max_actions as int);
    }
    r
}

/// The plan that `find_solution_and_population` finds.
pub fn find_solution<T: State>(c: PlannerConfiguration) -> (r: Plan<T>)
    requires
        c.population_size > 0,
        c.tournmant_size > 0,
    ensures
        exists|first: Population<Action<T>, PlannerFitness>, last: Population<Action<T>, PlannerFitness>|
            {
                &&& first.is_fresh(lowered(c))
                &&& #[trigger] searched(first, last)
                &&& r@ == best_plan_of(last)
                &&& r.state.goal() || last.generation == usize::MAX
                &&& last.can_evolve()
                &&& last.all_of_length(c.max_actions as int)
            },
        r.actions@.len() <= c.max_actions,
{
    let found = find_solution_and_population::<T>(c);
    let ghost last = found.1;
    assert(found.0@ == best_plan_of(last));
    found.0
}

/// The plan that `find_solution_and_population_from_population` finds.
pub fn find_solution_from_population<T: State, F: Fitness<Action<T>> + Copy>(
    pop: Population<Action<T>, F>,
) -> (r: Plan<T>)
    requires
        pop.can_evolve(),
    ensures
        exists|last: Population<Action<T>, F>|
            {
                &&& #[trigger] searched(pop, last)
                &&& r@ == best_plan_of(last)
                &&& r.state.goal() || last.generation == usize::MAX
                &&& last.descends_from(pop)
                &&& last.can_evolve()
            },
        best_plan_of(pop).0.goal() ==> r@ == best_plan_of(pop),
{
    let found = find_solution_and_population_from_population(pop);
    let ghost last = found.1;
    assert(searched(pop, last));
    found.0
}

/// Evolves `pop` exactly `iterations` times and returns the plan of the
/// fittest individual with the last population.
pub fn find_best_and_population_after_iterations_from_population<
    T: State,
    F: Fitness<Action<T>> + Copy,
>(pop: Population<Action<T>, F>, iterations: usize) -> (r: (Plan<T>, Population<Action<T>, F>))
    requires
        pop.can_evolve(),
        pop.generation + iterations <= usize::MAX,
    ensures
        evolved(pop, r.1, iterations as nat),
        r.0@ == best_plan_of(r.1),
        r.1.generation == pop.generation + iterations,
        r.1.descends_from(pop),
        r.1.can_evolve(),
{
    let ghost start = pop;
    let mut pop = pop;
    let mut k: usize = 0;
    proof {
        lemma_evolved_zero(start);
    }
    while k < iterations
        invariant
            k <= iterations,
            start.generation + iterations <= usize::MAX,
            start.can_evolve(),
            evolved(start, pop, k as nat),
            pop.can_evolve(),
            pop.generation == start.generation + k,
        decreases iterations - k,
    {
        let ghost before = pop;
        pop = pop.evolve();
        proof {
            lemma_evolved_step(start, before, pop, k as nat);
        }
        k += 1;
    }
    proof {
        lemma_evolved_laws(start, pop, iterations as nat);
    }
    let node = best_plan(&pop);
    (node, pop)
}

/// Builds a random population from `c`, evolves it exactly `iterations`
/// times, and returns the plan of the fittest individual with the last
/// population.
pub fn find_best_and_population_after_iterations<T: State>(
    c: PlannerConfiguration,
    iterations: usize,
) -> (r: (Plan<T>, Population<Action<T>, PlannerFitness>))
    requires
        c.population_size > 0,
        c.tournmant_size > 0,
    ensures
        exists|first: Population<Action<T>, PlannerFitness>|
            first.is_fresh(lowered(c)) && #[trigger] evolved(first, r.1, iterations as nat),
        r.0@ == best_plan_of(r.1),
        r.0.actions@.len() <= c.max_actions,
        r.1.configuration == lowered(c),
        r.1.generation == iterations,
        r.1.can_evolve(),
        r.1.consistent(),
        r.1.all_of_length(c.max_actions as int),
{
    let pc = get_population_configuration(c);
    let pop = Population::<Action<T>, PlannerFitness>::new(pc);
    let ghost first = pop;
    let r = find_best_and_population_after_iterations_from_population(pop, iterations);
    proof {
        assert(first.all_of_length(c.max_actions as int));
        lemma_best_plan_length(r.1, c.max_actions as int);
    }
    r
}

/// The plan that `find_best_and_population_after_iterations` finds.
pub fn find_best_after_iterations<T: State>(c: PlannerConfiguration, iterations: usize) -> (r: Plan<
    T,
>)
    requires
        c.population_size > 0,
        c.tournmant_size > 0,
    ensures
        exists|first: Population<Action<T>, PlannerFitness>, last: Population<Action<T>, PlannerFitness>|
            {
                &&& first.is_fresh(lowered(c))
                &&& #[trigger] evolved(first, last, iterations as nat)
                &&& r@ == best_plan_of(last)
                &&& last.can_evolve()
                &&& last.all_of_length(c.max_actions as int)
            },
        r.actions@.len() <= c.max_actions,
{
    let found = find_best_and_population_after_iterations::<T>(c, iterations);
    let ghost last = found.1;
    assert(found.0@ == best_plan_of(last));
    found.0
}

/// The plan that `find_best_and_population_after_iterations_from_population`
/// finds.
pub fn find_best_after_iterations_from_population<T: State, F: Fitness<Action<T>> + Copy>(
    pop: Population<Action<T>, F>,
    iterations: usize,
) -> (r: Plan<T>)
    requires
        pop.can_evolve(),
        pop.generation + iterations <= usize::MAX,
    ensures
        exists|last: Population<Action<T>, F>|
            {
                &&& #[trigger] evolved(pop, last, iterations as nat)
                &&& r@ == best_plan_of(last)
                &&& last.descends_from(pop)
                &&& last.can_evolve()
            },
        iterations == 0 ==> r@ == best_plan_of(pop),
{
    let found = find_best_and_population_after_iterations_from_population(pop, iterations);
    let ghost last = found.1;
    assert(evolved(pop, last, iterations as nat));
    found.0
}

} // verus!
