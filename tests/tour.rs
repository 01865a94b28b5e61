use tsp_heuristics::ant::AntWalk;
use tsp_heuristics::discrete_point::{random_discrete_points, DiscretePoint};
use tsp_heuristics::tour::{contains, genes_not_in, index_of, rotate_to_start};

#[test]
fn rotate_to_start_moves_start_to_front() {
    assert_eq!(rotate_to_start(&vec![4, 7, 1, 9], 1), vec![1, 9, 4, 7]);
    assert_eq!(rotate_to_start(&vec![4, 7, 1, 9], 4), vec![4, 7, 1, 9]);
    assert_eq!(rotate_to_start(&vec![4, 7, 1, 9], 9), vec![9, 4, 7, 1]);
}

#[test]
fn rotate_single_point() {
    assert_eq!(rotate_to_start(&vec![0], 0), vec![0]);
}

#[test]
fn search_helpers() {
    let v = vec![5, 3, 8];
    assert!(contains(&v, 8));
    assert!(!contains(&v, 4));
    assert_eq!(index_of(&v, 3), 1);
    assert_eq!(genes_not_in(&vec![1, 2, 3, 4], &vec![4, 2]), vec![1, 3]);
}

#[test]
fn discrete_distance_values() {
    let a = DiscretePoint::new(5);
    assert_eq!(a.distance_to(&DiscretePoint::new(5)), 0);
    assert_eq!(DiscretePoint::new(7).distance_to(&DiscretePoint::new(3)), 1);
    assert_eq!(DiscretePoint::new(3).distance_to(&DiscretePoint::new(8)), 2);
    assert_eq!(DiscretePoint::new(8).distance_to(&DiscretePoint::new(3)), 2);
}

#[test]
fn random_discrete_points_count() {
    let points = random_discrete_points(20);
    assert_eq!(points.len(), 20);
    // twenty equal draws of a random usize do not happen
    assert!(points.iter().any(|p| p.identifier != points[0].identifier));
}

#[test]
fn ant_walk_builds_a_tour_from_start() {
    let mut walk = AntWalk::new(3, 1);
    assert_eq!(walk.current(), 1);
    assert!(walk.is_visited(1));
    assert!(!walk.is_visited(0));
    assert!(!walk.is_complete());
    walk.visit(0);
    assert_eq!(walk.visited_count(), 2);
    walk.visit(2);
    assert!(walk.is_complete());
    assert_eq!(walk.tour(), vec![1, 0, 2]);
}

#[test]
fn single_point_walk_is_complete() {
    let walk = AntWalk::new(1, 0);
    assert!(walk.is_complete());
    assert_eq!(walk.tour(), vec![0]);
}

#[test]
fn two_point_tour_length_is_twice_the_distance() {
    let points = vec![DiscretePoint::new(2), DiscretePoint::new(5)];
    let mut walk = AntWalk::new(2, 0);
    walk.visit(1);
    let tour = walk.tour();
    assert_eq!(tour, vec![0, 1]);
    let length: usize = (0..tour.len())
        .map(|i| points[tour[i]].distance_to(&points[tour[(i + 1) % tour.len()]]))
        .sum();
    assert_eq!(length, 2 * points[0].distance_to(&points[1]));
}
