use tsp_heuristics::crossover::breed;
use tsp_heuristics::population::random_tour;

fn is_permutation_of(a: &Vec<usize>, b: &Vec<usize>) -> bool {
    let mut x = a.clone();
    let mut y = b.clone();
    x.sort();
    y.sort();
    x == y && x.windows(2).all(|w| w[0] != w[1])
}

#[test]
fn breed_test_1() {
    let parent1 = vec![3, 4, 8, 2, 7, 1, 6, 5];
    let parent2 = vec![4, 2, 5, 1, 6, 8, 3, 7];

    let offspring1_expected = vec![4, 8, 6, 2, 5, 3, 1, 7];
    let offspring2_expected = vec![1, 7, 4, 8, 6, 2, 5, 3];

    let (offspring1, offspring2) = breed(&parent1, &parent2);

    assert_eq!(offspring1, offspring1_expected);
    assert_eq!(offspring2, offspring2_expected);
}

#[test]
fn breed_test_2() {
    let parent1 = vec![1, 2, 3, 4, 5, 6, 7, 8];
    let parent2 = vec![2, 7, 5, 8, 4, 1, 6, 3];

    let offspring1_expected = vec![2, 1, 6, 7, 5, 3, 8, 4];
    let offspring2_expected = vec![6, 7, 2, 1, 8, 4, 5, 3];

    let (offspring1, offspring2) = breed(&parent1, &parent2);

    assert_eq!(offspring1, offspring1_expected);
    assert_eq!(offspring2, offspring2_expected);
}

#[test]
fn breed_test_3() {
    let parent1 = vec![2, 1, 0];
    let parent2 = vec![1, 0, 2];

    let offspring1_expected = vec![1, 2, 0];
    let offspring2_expected = vec![2, 1, 0];

    let (offspring1, offspring2) = breed(&parent1, &parent2);

    assert_eq!(offspring1, offspring1_expected);
    assert_eq!(offspring2, offspring2_expected);
}

#[test]
fn breed_single_gene() {
    let (offspring1, offspring2) = breed(&vec![0], &vec![0]);
    assert_eq!(offspring1, vec![0]);
    assert_eq!(offspring2, vec![0]);
}

#[test]
fn breed_identical_parents() {
    let parent = vec![3, 0, 2, 1];
    let (offspring1, offspring2) = breed(&parent, &parent);
    assert!(is_permutation_of(&offspring1, &parent));
    assert!(is_permutation_of(&offspring2, &parent));
    assert_eq!(offspring1[0], 3);
}

#[test]
fn breed_random_and_reversed_pairs_give_permutations() {
    for n in 1..40 {
        for _ in 0..10 {
            let parent1 = random_tour(n);
            let parent2 = random_tour(n);
            let (offspring1, offspring2) = breed(&parent1, &parent2);
            assert!(is_permutation_of(&offspring1, &parent1));
            assert!(is_permutation_of(&offspring2, &parent1));
            assert_eq!(offspring1[0], parent2[0]);

            let reversed: Vec<usize> = parent1.iter().rev().copied().collect();
            let (offspring1, offspring2) = breed(&parent1, &reversed);
            assert!(is_permutation_of(&offspring1, &parent1));
            assert!(is_permutation_of(&offspring2, &parent1));
        }
    }
}
