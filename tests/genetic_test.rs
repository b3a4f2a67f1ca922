use genetic_planner::genetic::{
    Fitness, Gene, Individual, Population, PopulationConfiguration, RATE_SCALE,
};

fn simple_fitness(i: Individual<u8>) -> i32 {
    let mut acc = 0i32;
    for g in i.genes {
        if g > 127 {
            acc += 1
        }
    }
    acc
}

#[derive(Clone, Copy)]
struct SimpleFitness;

impl Fitness<u8> for SimpleFitness {
    fn score(&self, i: Individual<u8>) -> i32 {
        simple_fitness(i)
    }

    fn lemma_score_by_genes(&self, _: Individual<u8>, _: Individual<u8>) {}

    fn fitness(&self, i: Individual<u8>) -> i32 {
        self.score(i)
    }
}

fn default_population_configuration() -> PopulationConfiguration<SimpleFitness> {
    PopulationConfiguration {
        population_size: 64,
        fitness: SimpleFitness,
        genenumber: 8,
        mutation_rate: RATE_SCALE / 2,
        uniform_rate: RATE_SCALE / 2,
        tournmant_size: 16,
        elitism_size: 2,
        threadpool_size: 8,
    }
}

fn small_configuration(population_size: usize, elitism_size: usize) -> PopulationConfiguration<SimpleFitness> {
    PopulationConfiguration {
        population_size,
        fitness: SimpleFitness,
        genenumber: 3,
        mutation_rate: RATE_SCALE / 2,
        uniform_rate: RATE_SCALE / 2,
        tournmant_size: 2,
        elitism_size,
        threadpool_size: 0,
    }
}

fn scored(genes: Vec<u8>) -> (Individual<u8>, i32) {
    let i = Individual::new_with_vec(genes);
    let s = simple_fitness(i.clone());
    (i, s)
}

#[test]
#[allow(unused_variables)]
fn create_individual() {
    let i1: Individual<u8> = Individual::new(8);
    assert_eq!(i1.genes.len(), 8);
}

#[test]
fn crossover_test() {
    let i1: Individual<u8> = Individual::new(8);
    let i2: Individual<u8> = Individual::new(8);
    let ic1 = i1.clone().crossover(i2.clone(), RATE_SCALE);
    let mut equals = true;
    for i in 0..i1.genes.len() {
        let c1 = i1.genes.get(i).unwrap();
        let c2 = ic1.genes.get(i).unwrap();
        if c1 != c2 {
            equals = false;
        }
    }
    assert!(equals);
    let ic2 = i1.clone().crossover(i2.clone(), 0);
    equals = true;
    for i in 0..i1.genes.len() {
        let c1 = i2.genes.get(i).unwrap();
        let c2 = ic2.genes.get(i).unwrap();
        if c1 != c2 {
            equals = false;
        }
    }
    assert!(equals);
}

#[test]
fn fitness() {
    let vec: Vec<u8> = vec![0, 1, 2, 3, 4, 5, 128, 129];
    let i = Individual::new_with_vec(vec);
    let f = simple_fitness(i);
    assert_eq!(f, 2);
    let vec2: Vec<u8> = vec![1, 2, 3, 4, 5, 6, 7, 0];
    let i2 = Individual::new_with_vec(vec2);
    let f2 = simple_fitness(i2);
    assert_eq!(f2, 0);
}

#[test]
#[allow(unused_variables)]
fn create_population() {
    let p = Population::<u8, SimpleFitness>::new(default_population_configuration());
    assert_eq!(p.individuals_and_scores.len(), 64);
    assert_eq!(p.generation, 0);
}

#[test]
fn get_fittest() {
    let p = Population::<u8, SimpleFitness>::new(default_population_configuration());
    let fittest = p.get_fittest().unwrap().clone();
    let mut fittest2 = p.individuals_and_scores.first().unwrap().clone();
    for ind in p.individuals_and_scores {
        let f = p.configuration.fitness.fitness(ind.clone().0);
        if f > fittest2.1 {
            fittest2 = (ind.0, f);
        }
    }
    assert_eq!(fittest.1, fittest2.1);
}

#[test]
fn evolve() {
    let p = Population::<u8, SimpleFitness>::new(default_population_configuration());
    let pe = p.evolve();
    assert_eq!(p.individuals_and_scores.len(), pe.individuals_and_scores.len());
    assert!(pe.get_fittest().unwrap().1 >= p.get_fittest().unwrap().1);
}

#[test]
fn complete_evolve() {
    let mut p = Population::<u8, SimpleFitness>::new(default_population_configuration());
    while p.get_fittest().unwrap().1 < 4 {
        p = p.evolve();
    }
}

#[test]
fn crossover_length_is_the_shorter_parent() {
    let a = Individual::new_with_vec(vec![1u8, 2, 3, 4, 5]);
    let b = Individual::new_with_vec(vec![9u8, 8, 7]);
    assert_eq!(a.crossover(b.clone(), RATE_SCALE / 2).genes.len(), 3);
    assert_eq!(b.crossover(a.clone(), RATE_SCALE / 2).genes.len(), 3);
    let empty: Individual<u8> = Individual::new_with_vec(vec![]);
    assert_eq!(a.crossover(empty, RATE_SCALE).genes.len(), 0);
}

#[test]
fn crossover_picks_each_gene_from_a_parent() {
    let a = Individual::new_with_vec(vec![1u8, 2, 3, 4]);
    let b = Individual::new_with_vec(vec![11u8, 12, 13, 14]);
    let c = a.crossover(b.clone(), RATE_SCALE / 2);
    for k in 0..4 {
        assert!(c.genes[k] == a.genes[k] || c.genes[k] == b.genes[k]);
    }
}

#[test]
fn crossover_with_draws_follows_the_draws() {
    let a = Individual::new_with_vec(vec![1u8, 2, 3, 4]);
    let b = Individual::new_with_vec(vec![11u8, 12, 13]);
    let draws = vec![0u32, 500_000, 499_999, 7];
    let c = a.crossover_with_draws(&b, &draws, 500_000);
    assert_eq!(c.genes, vec![1u8, 12, 3]);
}

#[test]
fn mutate_keeps_length() {
    let a = Individual::new_with_vec(vec![1u8, 2, 3, 4, 5, 6]);
    assert_eq!(a.mutate(RATE_SCALE).genes.len(), 6);
    assert_eq!(a.mutate(RATE_SCALE / 3).genes.len(), 6);
}

#[test]
fn mutate_at_rate_zero_copies() {
    let a = Individual::new_with_vec(vec![1u8, 2, 3, 4, 5, 6]);
    assert_eq!(a.mutate(0).genes, a.genes);
}

#[test]
fn mutate_with_draws_keeps_genes_at_or_over_the_rate() {
    let a = Individual::new_with_vec(vec![10u8, 20, 30, 40]);
    let draws = vec![300u32, 100, 299, 1000];
    let fresh = vec![1u8, 2, 3, 4];
    let m = a.mutate_with_draws(&draws, &fresh, 300);
    assert_eq!(m.genes, vec![10u8, 2, 3, 40]);
    let all = a.mutate_with_draws(&vec![0u32; 4], &fresh, 1);
    assert_eq!(all.genes, fresh);
}

#[test]
fn same_as_compares_genes() {
    let a = Individual::new_with_vec(vec![1u8, 2]);
    assert!(a.same_as(&Individual::new_with_vec(vec![1u8, 2])));
    assert!(!a.same_as(&Individual::new_with_vec(vec![1u8, 3])));
    assert!(!a.same_as(&Individual::new_with_vec(vec![1u8, 2, 3])));
    assert!(5u8.eq_gene(&5u8));
    assert_eq!(7u8.copy_gene(), 7u8);
}

#[test]
fn fittest_breaks_ties_by_first() {
    let v = vec![scored(vec![1, 200, 1]), scored(vec![200, 200, 1]), scored(vec![1, 200, 200])];
    let p = Population::new_with_vec(v, small_configuration(3, 1), 0);
    let best = p.get_fittest().unwrap();
    assert_eq!(best.1, 2);
    assert_eq!(best.0.genes, vec![200u8, 200, 1]);
}

#[test]
fn fittest_of_empty_population_is_none() {
    let p = Population::<u8, SimpleFitness>::new_with_vec(vec![], small_configuration(0, 0), 0);
    assert!(p.get_fittest().is_none());
}

#[test]
fn top_skips_gene_equal_individuals() {
    let v = vec![
        scored(vec![200, 1, 1]),
        scored(vec![200, 200, 200]),
        scored(vec![200, 200, 200]),
        scored(vec![200, 200, 1]),
        scored(vec![1, 1, 1]),
    ];
    let p = Population::new_with_vec(v, small_configuration(5, 3), 0);
    let top = p.get_top(3);
    let genes: Vec<Vec<u8>> = top.iter().map(|x| x.0.genes.clone()).collect();
    assert_eq!(genes, vec![vec![200, 200, 200], vec![200, 200, 1], vec![200, 1, 1]]);
    let scores: Vec<i32> = top.iter().map(|x| x.1).collect();
    assert_eq!(scores, vec![3, 2, 1]);
}

#[test]
fn top_is_shorter_when_too_few_distinct() {
    let v = vec![scored(vec![5, 5, 5]), scored(vec![5, 5, 5]), scored(vec![5, 5, 5])];
    let p = Population::new_with_vec(v, small_configuration(3, 2), 0);
    assert_eq!(p.get_top(2).len(), 1);
    assert_eq!(p.get_top(0).len(), 0);
}

#[test]
fn top_of_whole_size_is_a_copy() {
    let v = vec![scored(vec![1, 1, 1]), scored(vec![200, 1, 1]), scored(vec![1, 1, 1])];
    let p = Population::new_with_vec(v.clone(), small_configuration(3, 3), 0);
    let top = p.get_top(3);
    assert_eq!(top, v);
    assert_eq!(p.get_top(10), v);
}

#[test]
fn tournament_with_takes_first_best_draw() {
    let v = vec![scored(vec![1, 1, 1]), scored(vec![200, 1, 1]), scored(vec![1, 200, 1]), scored(vec![200, 200, 1])];
    let p = Population::new_with_vec(v, small_configuration(4, 1), 0);
    assert_eq!(p.tournament_with(&vec![0, 2, 1]).genes, vec![1u8, 200, 1]);
    assert_eq!(p.tournament_with(&vec![0, 0]).genes, vec![1u8, 1, 1]);
    assert_eq!(p.tournament_with(&vec![2, 3, 1]).genes, vec![200u8, 200, 1]);
}

#[test]
fn tournament_over_one_individual() {
    let v = vec![scored(vec![7, 8, 9])];
    let p = Population::new_with_vec(v, small_configuration(1, 0), 0);
    assert_eq!(p.tournament().genes, vec![7u8, 8, 9]);
}

#[test]
fn breed_scores_its_child() {
    let p = Population::<u8, SimpleFitness>::new(small_configuration(6, 1));
    let (child, score) = p.breed();
    assert_eq!(child.genes.len(), 3);
    assert_eq!(score, simple_fitness(child));
}

#[test]
fn configuration_clamps() {
    let c = small_configuration(4, 9);
    assert_eq!(c.elite_count(), 4);
    assert_eq!(c.worker_count(), 1);
    let d = default_population_configuration();
    assert_eq!(d.elite_count(), 2);
    assert_eq!(d.worker_count(), 8);
}

#[test]
fn next_generation_puts_elites_first() {
    let v = vec![scored(vec![1, 1, 1]), scored(vec![200, 200, 1]), scored(vec![200, 1, 1])];
    let p = Population::new_with_vec(v, small_configuration(3, 1), 4);
    let child = scored(vec![1, 200, 200]);
    let q = p.next_generation(vec![child.clone(), child.clone()]);
    assert_eq!(q.generation, 5);
    assert_eq!(q.individuals_and_scores[0].0.genes, vec![200u8, 200, 1]);
    assert_eq!(q.individuals_and_scores[1], child);
    assert_eq!(q.individuals_and_scores.len(), 3);
}

#[test]
fn evolve_keeps_shape_and_scores() {
    let p = Population::<u8, SimpleFitness>::new(small_configuration(10, 2));
    let q = p.evolve();
    assert_eq!(q.generation, p.generation + 1);
    assert_eq!(q.individuals_and_scores.len(), 10);
    for (ind, s) in q.individuals_and_scores.iter() {
        assert_eq!(ind.genes.len(), 3);
        assert_eq!(*s, simple_fitness(ind.clone()));
    }
}

#[test]
fn evolve_with_full_elitism_copies_population() {
    let v = vec![scored(vec![1, 1, 1]), scored(vec![200, 1, 1])];
    let p = Population::new_with_vec(v.clone(), small_configuration(2, 5), 0);
    let q = p.evolve();
    assert_eq!(q.individuals_and_scores, v);
    assert_eq!(q.generation, 1);
}

#[test]
fn evolve_fills_up_when_elites_are_few() {
    let v = vec![scored(vec![5, 5, 5]), scored(vec![5, 5, 5]), scored(vec![5, 5, 5])];
    let p = Population::new_with_vec(v, small_configuration(3, 2), 0);
    assert_eq!(p.offspring_count(), 2);
    let q = p.evolve();
    assert_eq!(q.individuals_and_scores.len(), 3);
    assert_eq!(q.individuals_and_scores[0].0.genes, vec![5u8, 5, 5]);
}

#[test]
fn breed_without_mutation_takes_parents_genes() {
    let v = vec![scored(vec![1, 2, 3]), scored(vec![4, 5, 6])];
    let mut c = small_configuration(2, 0);
    c.mutation_rate = 0;
    let p = Population::new_with_vec(v, c, 0);
    for _ in 0..20 {
        let (child, _) = p.breed();
        for k in 0..3 {
            assert!(child.genes[k] == [1u8, 2, 3][k] || child.genes[k] == [4u8, 5, 6][k]);
        }
    }
}

#[test]
fn evolve_never_loses_the_best() {
    let mut p = Population::<u8, SimpleFitness>::new(small_configuration(8, 1));
    for _ in 0..20 {
        let before = p.get_fittest().unwrap().1;
        p = p.evolve();
        assert!(p.get_fittest().unwrap().1 >= before);
    }
}
