use n_queens_problem::ga::chromosome::{
    count_conflicts, generate_distinct_random_values, Chromosome,
};

#[test]
fn test_initial_values_generator() {
    let result = generate_distinct_random_values(8);
    assert!(result.contains(&0));
    assert!(result.contains(&1));
    assert!(result.contains(&2));
    assert!(result.contains(&3));
    assert!(result.contains(&4));
    assert!(result.contains(&5));
    assert!(result.contains(&6));
    assert!(result.contains(&7));
}

#[test]
fn test_conflicts_counter() {
    let positions = vec![0, 2, 4, 6, 1, 3, 5, 7];
    let chromosome = Chromosome::new(positions);
    let conflicts_sum = chromosome.get_conflicts_sum();
    assert_eq!(conflicts_sum, 1);
    let positions = vec![2, 4, 1, 7, 5, 0, 6, 3];
    let chromosome = Chromosome::new(positions);
    let conflicts_sum = chromosome.get_conflicts_sum();
    assert_eq!(conflicts_sum, 2);
}

#[test]
fn generator_returns_each_value_exactly_once() {
    for size in [1u16, 2, 8, 40, 255] {
        let result = generate_distinct_random_values(size);
        assert_eq!(result.len(), size as usize);
        let mut seen = vec![false; size as usize];
        for &v in &result {
            assert!((v as usize) < size as usize);
            assert!(!seen[v as usize]);
            seen[v as usize] = true;
        }
    }
}

#[test]
fn generator_yields_empty_result_for_size_zero() {
    assert!(generate_distinct_random_values(0).is_empty());
}

#[test]
fn conflict_counters_sum_to_twice_the_pair_total() {
    let chromosome = Chromosome::new(vec![0, 2, 4, 6, 1, 3, 5, 7]);
    let conflicts = chromosome.get_conflicts();
    assert_eq!(conflicts.len(), 8);
    let total: u16 = conflicts.iter().sum();
    assert_eq!(total, 2 * chromosome.get_conflicts_sum());
}

#[test]
fn count_conflicts_is_exact_on_the_main_diagonal() {
    let conflicts = count_conflicts(&vec![0, 1, 2, 3]);
    assert_eq!(conflicts, vec![3, 3, 3, 3]);
}

#[test]
fn getters_hand_out_copies_of_the_stored_data() {
    let chromosome = Chromosome::new(vec![1, 3, 0, 2]);
    assert_eq!(chromosome.get_positions(), vec![1, 3, 0, 2]);
    assert_eq!(chromosome.get_conflicts_sum(), 0);
    assert_eq!(chromosome.get_fitness(), 0);
}

#[test]
fn set_fitness_overwrites_only_the_fitness() {
    let mut chromosome = Chromosome::new(vec![1, 3, 0, 2]);
    chromosome.set_fitness(7);
    assert_eq!(chromosome.get_fitness(), 7);
    assert_eq!(chromosome.get_positions(), vec![1, 3, 0, 2]);
    assert_eq!(chromosome.get_conflicts_sum(), 0);
}
