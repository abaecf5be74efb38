use clusterization::model::gravity::{Distance, Normalization};
use clusterization::model::population::{lowest_evaluated, ConfigError, SearchShape};
use clusterization::model::whales::{coordinate, spiral_cells, whale_move, WhaleMove};
use clusterization::utilities::sampling::ExtendedRng;
use clusterization::utility::order::Ordered;

#[test]
fn order_statistics_of_values() {
    let v: Vec<u64> = vec![4, 1, 9, 1, 9, 3];
    assert_eq!(Ordered::min(&v), Some(&1));
    assert_eq!(Ordered::max(&v), Some(&9));
    assert_eq!(v.min_max(), Some((&1, &9)));
    assert_eq!(v.argmin(), Some(1));
    assert_eq!(v.argmax(), Some(2));
}

#[test]
fn order_statistics_of_nothing() {
    let v: Vec<u64> = vec![];
    assert_eq!(Ordered::min(&v), None);
    assert_eq!(Ordered::max(&v), None);
    assert_eq!(v.min_max(), None);
    assert_eq!(v.argmin(), None);
    assert_eq!(v.argmax(), None);
}

#[test]
fn order_statistics_of_one_value() {
    let v: Vec<u64> = vec![5];
    assert_eq!(v.min_max(), Some((&5, &5)));
    assert_eq!(v.argmax(), Some(0));
}

#[test]
fn draws_stay_in_range_and_avoid_the_excluded_value() {
    let mut rng = rand::thread_rng();
    for _ in 0..500 {
        assert!(rng.gen_zero_to(3) < 3);
        let x = rng.gen_range_excluding(0..4, 2);
        assert!(x < 4 && x != 2);
        let y = rng.gen_range_excluding(5..7, 5);
        assert_eq!(y, 6);
        let z = rng.gen_range_excluding(0..1, 9);
        assert_eq!(z, 0);
        let (a, b) = rng.gen_distinct_pair_range(10..13);
        assert!((10..13).contains(&a) && (10..13).contains(&b) && a != b);
    }
}

#[test]
fn every_allowed_value_can_be_drawn() {
    let mut rng = rand::thread_rng();
    let mut seen = [false; 5];
    for _ in 0..2000 {
        seen[rng.gen_range_excluding(0..5, 2)] = true;
    }
    assert_eq!(seen, [true, true, false, true, true]);
}

#[test]
fn whale_moves_follow_the_decay() {
    assert_eq!(whale_move(0, 10, false), WhaleMove::Spiral);
    assert_eq!(whale_move(9, 10, false), WhaleMove::Spiral);
    assert_eq!(whale_move(0, 10, true), WhaleMove::Explore);
    assert_eq!(whale_move(5, 10, true), WhaleMove::Explore);
    assert_eq!(whale_move(6, 10, true), WhaleMove::Encircle);
    assert_eq!(whale_move(0, 1, true), WhaleMove::Explore);
    assert_eq!(whale_move(2, 3, true), WhaleMove::Encircle);
    assert_eq!(whale_move(1, 3, true), WhaleMove::Explore);
}

#[test]
fn search_shapes_are_checked() {
    assert_eq!(SearchShape::new(3, 1, 10), Err(ConfigError::TooFewAgents));
    assert_eq!(SearchShape::new(3, 2, 0), Err(ConfigError::NoIterations));
    assert_eq!(
        SearchShape::new(3, 2, 1),
        Ok(SearchShape { n_classes: 3, n_agents: 2, max_iterations: 1 })
    );
}

#[test]
fn options_compare_by_variant() {
    assert_eq!(Distance::Cosine, Distance::Cosine);
    assert_ne!(Distance::L2, Distance::LInf);
    assert_ne!(Normalization::ReLU, Normalization::MinMax);
    assert_eq!(Normalization::Logistic, Normalization::Logistic);
}

#[test]
fn failed_evaluations_take_the_first_lowest_fitness() {
    assert_eq!(lowest_evaluated(&vec![Some(5), None, Some(2), Some(2), None]), Some(2));
    assert_eq!(lowest_evaluated(&vec![None, Some(7)]), Some(1));
    assert_eq!(lowest_evaluated(&vec![None, None]), None);
    assert_eq!(lowest_evaluated(&vec![]), None);
}

#[test]
fn cells_decompose_row_major() {
    assert_eq!(coordinate(0, 3), (0, 0));
    assert_eq!(coordinate(7, 3), (2, 1));
    assert_eq!(coordinate(5, 1), (5, 0));
}

#[test]
fn spiral_cells_are_distinct_and_in_bounds() {
    let mut rng = rand::thread_rng();
    for _ in 0..500 {
        let (x, y) = spiral_cells(&mut rng, 4, 3);
        assert!(x.0 < 4 && x.1 < 3 && y.0 < 4 && y.1 < 3);
        assert_ne!(x, y);
        let (a, b) = spiral_cells(&mut rng, 1, 2);
        assert_ne!(a, b);
    }
}
