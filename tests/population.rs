use tsp_heuristics::population::{
    breed_pairs, breed_population, generate_population, mutate, mutate_population, random_tour,
    replace_weakest, winning_tour,
};

fn is_tour(t: &Vec<usize>, n: usize) -> bool {
    let mut s = t.clone();
    s.sort();
    s == (0..n).collect::<Vec<usize>>()
}

#[test]
fn random_tour_is_a_shuffled_tour() {
    let t = random_tour(60);
    assert!(is_tour(&t, 60));
    // the chance that a shuffle of 60 elements leaves all in place is nil
    assert_ne!(t, (0..60).collect::<Vec<usize>>());
}

#[test]
fn random_tour_of_no_points_is_empty() {
    assert_eq!(random_tour(0), Vec::<usize>::new());
}

#[test]
fn generate_population_gives_tours() {
    let population = generate_population(7, 5);
    assert_eq!(population.len(), 5);
    assert!(population.iter().all(|t| is_tour(t, 7)));
}

#[test]
fn single_point_population() {
    let population = generate_population(1, 4);
    assert!(population.iter().all(|t| *t == vec![0]));
}

#[test]
fn mutate_applies_swaps_in_order() {
    let mut individual = vec![0, 1, 2, 3];
    mutate(&mut individual, &vec![Some(3), Some(2), None, None]);
    assert_eq!(individual, vec![3, 2, 1, 0]);
}

#[test]
fn mutate_self_swap_and_undo() {
    let mut individual = vec![0, 1, 2, 3];
    mutate(&mut individual, &vec![Some(2), Some(1), Some(0), None]);
    assert_eq!(individual, vec![0, 1, 2, 3]);
}

#[test]
fn mutate_population_applies_each_plan() {
    let mut population = vec![vec![0, 1, 2], vec![2, 1, 0]];
    let plans = vec![vec![None, None, Some(0)], vec![Some(1), None, None]];
    mutate_population(&mut population, &plans);
    assert_eq!(population, vec![vec![2, 1, 0], vec![1, 2, 0]]);
}

#[test]
fn breed_pairs_keeps_unflagged_pairs() {
    let population = vec![vec![0, 1, 2], vec![2, 0, 1]];
    let r = breed_pairs(&population, &vec![false], 3);
    assert_eq!(r, population);
}

#[test]
fn breed_pairs_crosses_flagged_pairs() {
    let population = vec![vec![2, 1, 0], vec![1, 0, 2], vec![0, 1, 2], vec![1, 2, 0]];
    let r = breed_pairs(&population, &vec![true, false], 3);
    assert_eq!(r, vec![vec![1, 2, 0], vec![2, 1, 0], vec![0, 1, 2], vec![1, 2, 0]]);
}

#[test]
fn breed_population_keeps_size_and_tours() {
    let population = generate_population(9, 10);
    let r = breed_population(&population, &vec![true, false, true, true, false], 9);
    assert_eq!(r.len(), 10);
    assert!(r.iter().all(|t| is_tour(t, 9)));
}

#[test]
fn replace_weakest_keeps_best_in_rank_order() {
    let population = vec![vec![0, 1, 2], vec![2, 1, 0], vec![1, 0, 2]];
    let r = replace_weakest(&population, &vec![2, 0, 1], 3, 1, 3);
    assert_eq!(r.len(), 3);
    assert!(is_tour(&r[0], 3));
    assert_eq!(r[1], vec![1, 0, 2]);
    assert_eq!(r[2], vec![0, 1, 2]);
}

#[test]
fn population_size_is_kept_over_generations() {
    let size = 10;
    let n = 8;
    let mut population = generate_population(n, size);
    for generation in 0..20 {
        let flags: Vec<bool> = (0..size / 2).map(|k| (k + generation) % 3 != 0).collect();
        population = breed_population(&population, &flags, n);
        assert_eq!(population.len(), size);
        let plans: Vec<Vec<Option<usize>>> = (0..size)
            .map(|i| (0..n).map(|j| if (i + j + generation) % 4 == 0 { Some((j * 5 + 1) % n) } else { None }).collect())
            .collect();
        mutate_population(&mut population, &plans);
        assert_eq!(population.len(), size);
        let ranking: Vec<usize> = (0..size).rev().collect();
        population = replace_weakest(&population, &ranking, size, 2, n);
        assert_eq!(population.len(), size);
        assert!(population.iter().all(|t| is_tour(t, n)));
    }
}

#[test]
fn breed_pairs_keeps_unpaired_last_member() {
    let population = vec![vec![2, 1, 0], vec![1, 0, 2], vec![0, 2, 1]];
    let r = breed_pairs(&population, &vec![true], 3);
    assert_eq!(r, vec![vec![1, 2, 0], vec![2, 1, 0], vec![0, 2, 1]]);
}

#[test]
fn breed_population_odd_size() {
    let population = generate_population(6, 7);
    let r = breed_population(&population, &vec![true, true, false], 6);
    assert_eq!(r.len(), 7);
    assert!(r.iter().all(|t| is_tour(t, 6)));
    let single = generate_population(4, 1);
    let r = breed_population(&single, &vec![], 4);
    assert_eq!(r, single);
}

#[test]
fn population_size_is_kept_for_odd_sizes() {
    let size = 5;
    let n = 6;
    let mut population = generate_population(n, size);
    for _ in 0..10 {
        population = breed_population(&population, &vec![true, true], n);
        let plans: Vec<Vec<Option<usize>>> = (0..size).map(|i| (0..n).map(|j| if j == i { Some(0) } else { None }).collect()).collect();
        mutate_population(&mut population, &plans);
        let ranking: Vec<usize> = (0..size).collect();
        population = replace_weakest(&population, &ranking, size, 1, n);
        assert_eq!(population.len(), size);
        assert!(population.iter().all(|t| is_tour(t, n)));
    }
}

#[test]
fn mutate_keeps_repeated_genes() {
    let mut individual = vec![1, 1, 2];
    mutate(&mut individual, &vec![Some(2), None, None]);
    assert_eq!(individual, vec![2, 1, 1]);
}

#[test]
fn winning_tour_starts_at_start() {
    let population = vec![vec![0, 1, 2, 3], vec![2, 3, 0, 1]];
    assert_eq!(winning_tour(&population, 1, 0, 4), vec![0, 1, 2, 3]);
    assert_eq!(winning_tour(&population, 1, 3, 4), vec![3, 0, 1, 2]);
    let random = generate_population(9, 3);
    let r = winning_tour(&random, 2, 4, 9);
    assert_eq!(r[0], 4);
    assert!(is_tour(&r, 9));
}
