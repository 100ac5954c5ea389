use std::time::Duration;

use tsp_rs::exchange::{
    exchange_round, kick_size, n_opt, n_opt_at, search_by_exchange, two_opt, two_opt_at,
};
use tsp_rs::solvers::Search;
use tsp_rs::{Metrizable, Path};

/// A point of the plane. Its cost is the Euclidean distance in millionths,
/// rounded to the nearest whole number.
#[derive(Debug, Clone, PartialEq, PartialOrd)]
struct Point {
    x: f64,
    y: f64,
}

impl Point {
    fn new(x: f64, y: f64) -> Point {
        Point { x, y }
    }
}

impl Metrizable for Point {
    fn metric(&self, other: &Point) -> u64 {
        self.cost(other)
    }

    fn cost(&self, other: &Point) -> u64 {
        let d = ((self.x - other.x).powf(2.) + (self.y - other.y).powf(2.)).sqrt();
        (d * 1_000_000.).round() as u64
    }
}

/// A stop on a line. The cost between two stops is their distance.
#[derive(Debug, Clone, PartialEq)]
struct Stop(u64);

impl Metrizable for Stop {
    fn metric(&self, other: &Stop) -> u64 {
        self.cost(other)
    }

    fn cost(&self, other: &Stop) -> u64 {
        if self.0 < other.0 {
            other.0 - self.0
        } else {
            self.0 - other.0
        }
    }
}

fn stops(at: &[u64]) -> Vec<Stop> {
    at.iter().map(|x| Stop(*x)).collect()
}

fn places(path: &Vec<Stop>) -> Vec<u64> {
    path.iter().map(|s| s.0).collect()
}

fn crossed_square() -> Vec<Point> {
    vec![
        Point::new(0., 0.),
        Point::new(1., 1.),
        Point::new(1., 0.),
        Point::new(0., 1.),
    ]
}

#[test]
fn an_exchange_that_shortens_is_kept() {
    // 0 -> 10 -> 2 -> 8 -> back is 32 long, 0 -> 2 -> 10 -> 8 -> back 20.
    let mut v = stops(&[0, 10, 2, 8]);
    assert_eq!(two_opt_at(1, 2, &mut v), Some(12));
    assert_eq!(places(&v), vec![0, 2, 10, 8]);
    let mut v = stops(&[0, 10, 2, 8]);
    assert_eq!(two_opt_at(2, 1, &mut v), Some(12));
    assert_eq!(places(&v), vec![0, 2, 10, 8]);
}

#[test]
fn an_exchange_that_does_not_shorten_is_undone() {
    // 2 -> 0 -> 10 -> 8 -> back is 20 long too.
    let mut v = stops(&[0, 2, 10, 8]);
    assert_eq!(two_opt_at(0, 1, &mut v), None);
    assert_eq!(places(&v), vec![0, 2, 10, 8]);
    // 10 -> 2 -> 0 -> 8 -> back is 8 + 2 + 8 + 2 = 20, 0 -> 8 -> 10 -> 2 -> back 20.
    assert_eq!(two_opt_at(1, 3, &mut v), None);
    assert_eq!(places(&v), vec![0, 2, 10, 8]);
    assert_eq!(two_opt_at(3, 3, &mut v), None);
    assert_eq!(places(&v), vec![0, 2, 10, 8]);
}

#[test]
fn an_exchange_uncrosses_the_square() {
    let mut v = crossed_square();
    assert_eq!(two_opt_at(1, 2, &mut v), Some(828_428));
    assert_eq!(
        v,
        vec![
            Point::new(0., 0.),
            Point::new(1., 0.),
            Point::new(1., 1.),
            Point::new(0., 1.),
        ]
    );
}

#[test]
fn a_random_exchange_keeps_the_nodes_and_never_lengthens() {
    let mut v = stops(&[5, 0, 9, 3, 7, 1, 8, 2, 6, 4]);
    let mut length = Path::from(&v).len;
    for _ in 0..500 {
        let before = places(&v);
        let gain = two_opt(&mut v);
        let now = Path::from(&v).len;
        match gain {
            Some(by) => {
                assert!(by > 0);
                assert_eq!(now + by, length);
            }
            None => assert_eq!(places(&v), before),
        }
        length = now;
        let mut sorted = places(&v);
        sorted.sort();
        assert_eq!(sorted, vec![0, 1, 2, 3, 4, 5, 6, 7, 8, 9]);
    }
}

#[test]
fn a_random_exchange_on_a_trivial_cycle_finds_nothing() {
    let mut empty: Vec<Stop> = vec![];
    assert_eq!(two_opt(&mut empty), None);
    assert_eq!(empty.len(), 0);
    let mut single = stops(&[3]);
    assert_eq!(two_opt(&mut single), None);
    assert_eq!(places(&single), vec![3]);
}

#[test]
fn exchanges_within_the_limit_are_kept() {
    // After (0, 1): 10 0 2 8. After (1, 2): 10 2 0 8, which is 20 long.
    let mut v = stops(&[0, 10, 2, 8]);
    assert_eq!(n_opt_at(&vec![(0, 1), (1, 2)], &mut v, 20), Some(20));
    assert_eq!(places(&v), vec![10, 2, 0, 8]);

    let mut v = stops(&[0, 10, 2, 8]);
    assert_eq!(n_opt_at(&vec![(0, 1), (1, 2)], &mut v, 1000), Some(20));
    assert_eq!(places(&v), vec![10, 2, 0, 8]);
}

#[test]
fn exchanges_that_may_lengthen_are_kept_within_the_limit() {
    // 0 2 10 8 is 20 long; after (1, 2) it is 0 10 2 8, which is 32 long.
    let mut v = stops(&[0, 2, 10, 8]);
    assert_eq!(n_opt_at(&vec![(1, 2)], &mut v, 32), Some(32));
    assert_eq!(places(&v), vec![0, 10, 2, 8]);
}

#[test]
fn exchanges_beyond_the_limit_are_undone_last_first() {
    let mut v = stops(&[0, 10, 2, 8]);
    assert_eq!(n_opt_at(&vec![(0, 1), (1, 2)], &mut v, 19), None);
    assert_eq!(places(&v), vec![0, 10, 2, 8]);

    let mut v = stops(&[0, 2, 10, 8, 20, 4]);
    assert_eq!(n_opt_at(&vec![(0, 1), (1, 2), (2, 0), (3, 1)], &mut v, 0), None);
    assert_eq!(places(&v), vec![0, 2, 10, 8, 20, 4]);
}

#[test]
fn no_exchanges_leave_the_cycle_and_report_its_length() {
    let mut v = stops(&[0, 10, 2, 8]);
    assert_eq!(n_opt_at(&vec![], &mut v, 32), Some(32));
    assert_eq!(n_opt_at(&vec![], &mut v, 31), None);
    assert_eq!(places(&v), vec![0, 10, 2, 8]);
}

#[test]
fn n_opt_on_two_nodes_exchanges_them() {
    // Two different positions of two are both of them, in one pair.
    let mut v = stops(&[0, 5]);
    assert_eq!(n_opt(2, &mut v, 10), Some(10));
    assert_eq!(places(&v), vec![5, 0]);
    assert_eq!(n_opt(2, &mut v, 9), None);
    assert_eq!(places(&v), vec![5, 0]);
}

#[test]
fn n_opt_on_one_position_exchanges_nothing() {
    let mut v = stops(&[0, 10, 2, 8]);
    assert_eq!(n_opt(1, &mut v, 32), Some(32));
    assert_eq!(places(&v), vec![0, 10, 2, 8]);
    assert_eq!(n_opt(0, &mut v, 32), Some(32));
    assert_eq!(n_opt(0, &mut v, 3), None);
    assert_eq!(places(&v), vec![0, 10, 2, 8]);
}

#[test]
fn n_opt_moves_at_most_the_positions_that_it_picked() {
    for _ in 0..300 {
        let start = [5, 0, 9, 3, 7, 1, 8, 2, 6, 4];
        let mut v = stops(&start);
        let limit = 36;
        match n_opt(4, &mut v, limit) {
            Some(reached) => {
                assert!(reached <= limit);
                assert_eq!(reached, Path::from(&v).len);
                let moved = (0..10).filter(|i| v[*i].0 != start[*i]).count();
                assert_eq!(moved, 4);
            }
            None => assert_eq!(places(&v), start.to_vec()),
        }
        let mut sorted = places(&v);
        sorted.sort();
        assert_eq!(sorted, vec![0, 1, 2, 3, 4, 5, 6, 7, 8, 9]);
    }
}

#[test]
fn a_kick_exchanges_four_positions_or_all_there_are() {
    assert_eq!(kick_size(0), 0);
    assert_eq!(kick_size(1), 1);
    assert_eq!(kick_size(3), 3);
    assert_eq!(kick_size(4), 4);
    assert_eq!(kick_size(5), 4);
    assert_eq!(kick_size(usize::MAX), 4);
}

#[test]
fn a_round_of_exchanges_never_lengthens() {
    let mut v = stops(&[5, 0, 9, 3, 7, 1, 8, 2, 6, 4]);
    let mut search: Search<Stop> = Search::new();
    let mut best = search.best_len;
    let mut length = Path::from(&v).len;
    for _ in 0..2000 {
        exchange_round(&mut v, &mut search, 2);
        let now = Path::from(&v).len;
        assert!(now <= length);
        assert!(search.best_len <= best);
        assert!(now <= search.best_len);
        length = now;
        best = search.best_len;
    }
    let mut sorted = places(&v);
    sorted.sort();
    assert_eq!(sorted, vec![0, 1, 2, 3, 4, 5, 6, 7, 8, 9]);
    assert!(length >= 18);
}

#[test]
fn a_search_by_exchange_uncrosses_the_square() {
    let mut v = crossed_square();
    search_by_exchange(&mut v, Duration::from_millis(200).as_nanos(), 2);
    assert_eq!(Path::from(&v).len, 4_000_000);
}

#[test]
fn a_search_by_exchange_with_no_time_does_nothing() {
    let mut v = crossed_square();
    search_by_exchange(&mut v, Duration::from_secs(0).as_nanos(), 2);
    assert_eq!(v, crossed_square());
}

#[test]
fn solve_kopt_leaves_the_length_in_the_path() {
    let mut path = Path::from(&crossed_square());
    assert_eq!(path.len, 4_828_428);
    path.solve_kopt(Duration::from_millis(200));
    assert_eq!(path.len, 4_000_000);
    assert_eq!(path.path.len(), 4);
    for point in crossed_square() {
        assert!(path.path.contains(&point));
    }

    let mut stale = Path { path: crossed_square(), len: 7 };
    stale.solve_kopt(Duration::from_secs(0));
    assert_eq!(stale.path, crossed_square());
    assert_eq!(stale.len, 4_828_428);

    let mut small = Path::from(&stops(&[0, 5, 2]));
    small.solve_kopt(Duration::from_millis(20));
    assert_eq!(small.len, 10);
}
