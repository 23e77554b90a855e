use n_queens_problem::ga::chromosome::Chromosome;
use n_queens_problem::ga::{
    build_genetic_algorithm, GeneticAlgorithm, MAX_EPOCH_COUNT, MAX_TO_MATE, MIN_TO_MATE,
};

fn fixture_population() -> Vec<Chromosome> {
    let chromosome_one = Chromosome::new(vec![0, 2, 4, 6, 1, 3, 5, 7]);
    let chromosome_two = Chromosome::new(vec![2, 4, 1, 7, 5, 0, 6, 3]);
    let chromosome_three = Chromosome::new(vec![2, 4, 1, 7, 6, 0, 3, 5]);
    let chromosome_four = Chromosome::new(vec![2, 4, 5, 7, 6, 0, 3, 1]);
    let chromosome_five = Chromosome::new(vec![1, 4, 5, 7, 6, 0, 3, 2]);
    let chromosome_six = Chromosome::new(vec![2, 4, 1, 7, 6, 0, 5, 3]);
    vec![
        chromosome_one,
        chromosome_two,
        chromosome_three,
        chromosome_four,
        chromosome_five,
        chromosome_six,
    ]
}

#[test]
fn test_fitness_calculation() {
    let mut genetic_algorithm = GeneticAlgorithm::new(fixture_population());
    genetic_algorithm.calc_fitness();
    let best_cs = genetic_algorithm.get_best_chromosome().get_conflicts_sum();
    let worst_cs = genetic_algorithm.get_worst_chromosome().get_conflicts_sum();
    assert!(best_cs < worst_cs);
    let diff = (worst_cs - best_cs) as u64;
    // a weight of zero is the scaled fitness 0.0; the full weight, the cube
    // of the span, is the scaled fitness 1.0
    assert_eq!(genetic_algorithm.get_worst_chromosome().get_fitness(), 0);
    assert_eq!(
        genetic_algorithm.get_best_chromosome().get_fitness(),
        diff * diff * diff
    );
}

#[test]
fn homogeneous_population_gets_uniform_fitness() {
    let population = vec![
        Chromosome::new(vec![0, 1, 2, 3]),
        Chromosome::new(vec![3, 2, 1, 0]),
    ];
    let mut genetic_algorithm = GeneticAlgorithm::new(population);
    genetic_algorithm.calc_fitness();
    assert_eq!(genetic_algorithm.get_best_chromosome().get_fitness(), 1);
    assert_eq!(genetic_algorithm.get_worst_chromosome().get_fitness(), 1);
}

#[test]
fn roulette_with_zero_fitness_sum_returns_none() {
    let genetic_algorithm = GeneticAlgorithm::new(fixture_population());
    assert!(genetic_algorithm.select_random_chromosome(0).is_none());
}

#[test]
fn roulette_with_positive_fitness_sum_selects_a_weighted_chromosome() {
    let mut genetic_algorithm = GeneticAlgorithm::new(fixture_population());
    genetic_algorithm.calc_fitness();
    let fitness_sum: u128 = genetic_algorithm
        .population
        .iter()
        .map(|c| c.get_fitness() as u128)
        .sum();
    assert!(fitness_sum > 0);
    let selected = genetic_algorithm.select_random_chromosome(fitness_sum);
    let index = selected.expect("a positive fitness sum always selects");
    assert!(genetic_algorithm.population[index].get_fitness() > 0);
}

#[test]
fn mating_grows_the_population_by_the_drawn_amount() {
    let mut genetic_algorithm = build_genetic_algorithm(8, 40);
    let initial = genetic_algorithm.population.len();
    let mut expected = initial;
    for _ in 0..3 {
        let before = genetic_algorithm.population.len();
        genetic_algorithm.mate_random_chromosomes(10, 50);
        let grown = genetic_algorithm.population.len() - before;
        assert!((10..50).contains(&grown));
        expected += grown;
        assert_eq!(genetic_algorithm.population.len(), expected);
    }
    // earlier members are kept: offspring are appended, none are evicted
    assert!(genetic_algorithm.population.len() >= initial + 30);
}

#[test]
fn best_and_worst_resolve_ties_to_the_first_member() {
    let population = vec![
        Chromosome::new(vec![0, 1, 2, 3]),
        Chromosome::new(vec![3, 2, 1, 0]),
    ];
    let genetic_algorithm = GeneticAlgorithm::new(population);
    assert_eq!(
        genetic_algorithm.get_best_chromosome().get_positions(),
        vec![0, 1, 2, 3]
    );
    assert_eq!(
        genetic_algorithm.get_worst_chromosome().get_positions(),
        vec![0, 1, 2, 3]
    );
}

#[test]
fn engine_constants_match_the_documented_budget() {
    assert_eq!(MIN_TO_MATE, 10);
    assert_eq!(MAX_TO_MATE, 50);
    assert_eq!(MAX_EPOCH_COUNT, 5000);
}

#[test]
fn population_size_is_reported() {
    let genetic_algorithm = build_genetic_algorithm(8, 40);
    assert_eq!(genetic_algorithm.get_population_size(), 40);
}

#[test]
fn fresh_population_starts_unscored() {
    let genetic_algorithm = build_genetic_algorithm(8, 40);
    for member in &genetic_algorithm.population {
        assert_eq!(member.get_fitness(), 0);
    }
}
