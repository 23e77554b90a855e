use n_queens_problem::ga::chromosome::generate_distinct_random_values;
use n_queens_problem::ga::{find_position, pmx, pmx_with_points, build_genetic_algorithm, RunOutcome};

fn assert_is_permutation(values: &[u16]) {
    let mut seen = vec![false; values.len()];
    for &v in values {
        assert!((v as usize) < values.len());
        assert!(!seen[v as usize]);
        seen[v as usize] = true;
    }
}

#[test]
fn crossover_keeps_the_segment_and_relocates_the_displaced_value() {
    let parent_one = vec![0, 1, 2, 3, 4, 5, 6, 7];
    let parent_two = vec![7, 6, 5, 4, 3, 2, 1, 0];
    let child = pmx_with_points(&parent_one, &parent_two, 2, 5);
    assert_eq!(child, vec![7, 6, 2, 3, 4, 5, 1, 0]);
}

#[test]
fn crossover_follows_a_mapping_chain_over_an_occupied_slot() {
    let parent_one = vec![0, 1, 2, 3];
    let parent_two = vec![2, 0, 1, 3];
    let child = pmx_with_points(&parent_one, &parent_two, 1, 3);
    assert_eq!(child, vec![0, 1, 2, 3]);
}

#[test]
fn crossover_always_yields_a_permutation() {
    for _ in 0..25 {
        let parent_one = generate_distinct_random_values(8);
        let parent_two = generate_distinct_random_values(8);
        let child = pmx(parent_one, parent_two);
        assert_eq!(child.len(), 8);
        assert_is_permutation(&child);
    }
}

#[test]
fn find_position_lands_on_a_free_slot() {
    let parent_one = vec![0, 1, 2, 3];
    let parent_two = vec![2, 0, 1, 3];
    let child = vec![None, Some(1), Some(2), None];
    let position = find_position(1, &parent_one, &parent_two, &child);
    assert_eq!(position, 0);
    assert!(child[position].is_none());
}

#[test]
fn full_run_reports_a_solution_or_explicit_exhaustion() {
    let mut genetic_algorithm = build_genetic_algorithm(8, 40);
    let first_member = genetic_algorithm.population[0].get_positions();
    let outcome = genetic_algorithm.run_algorithm();
    match outcome {
        RunOutcome::SolutionFound => {
            let best = genetic_algorithm.get_best_chromosome();
            assert_eq!(best.get_conflicts_sum(), 0);
            assert_is_permutation(&best.get_positions());
        }
        RunOutcome::NoSolutionFound => {
            assert!(genetic_algorithm.get_best_chromosome().get_conflicts_sum() > 0);
        }
    }
    // the population only grows and the initial members are kept
    assert!(genetic_algorithm.population.len() >= 50);
    assert_eq!(genetic_algorithm.population[0].get_positions(), first_member);
}
