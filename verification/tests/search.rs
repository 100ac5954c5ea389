use std::time::{Duration, Instant};

use tsp_rs::kopt::two_opt;
use tsp_rs::solvers::{stagnation_threshold, Search};
use tsp_rs::{Metrizable, Tour};

/// A point of the plane. Its cost is the Euclidean distance in millionths,
/// rounded to the nearest whole number.
#[derive(Debug, Clone, PartialEq, PartialOrd)]
struct Point {
    x: f64,
    y: f64,
}

impl Point {
    fn new(x: f64, y: f64) -> Point {
        Point { x, y }
    }
}

impl Metrizable for Point {
    fn metric(&self, other: &Point) -> u64 {
        self.cost(other)
    }

    fn cost(&self, other: &Point) -> u64 {
        let d = ((self.x - other.x).powf(2.) + (self.y - other.y).powf(2.)).sqrt();
        (d * 1_000_000.).round() as u64
    }
}

/// A stop on a line. The cost between two stops is their distance.
#[derive(Debug, Clone, PartialEq)]
struct Stop(u64);

impl Metrizable for Stop {
    fn metric(&self, other: &Stop) -> u64 {
        self.cost(other)
    }

    fn cost(&self, other: &Stop) -> u64 {
        if self.0 < other.0 {
            other.0 - self.0
        } else {
            self.0 - other.0
        }
    }
}

fn stops(at: &[u64]) -> Tour<Stop> {
    Tour::from(&at.iter().map(|x| Stop(*x)).collect())
}

fn places(path: &Vec<Stop>) -> Vec<u64> {
    path.iter().map(|s| s.0).collect()
}

fn corners(order: [usize; 4]) -> Tour<Point> {
    let all = [
        Point::new(0., 0.),
        Point::new(1., 1.),
        Point::new(1., 0.),
        Point::new(0., 1.),
    ];
    Tour::from(&order.iter().map(|i| all[*i].clone()).collect())
}

/// Points in the unit square times `scale`, from a fixed sequence.
fn scattered(count: usize, scale: f64) -> Vec<Point> {
    let mut state: u64 = 0x2545_f491_4f6c_dd1d;
    let mut next = || {
        state = state.wrapping_mul(6364136223846793005).wrapping_add(1442695040888963407);
        ((state >> 11) as f64) / ((1u64 << 53) as f64)
    };
    let mut points = Vec::new();
    for _ in 0..count {
        let x = next() * scale;
        let y = next() * scale;
        points.push(Point::new(x, y));
    }
    points
}

#[test]
fn the_threshold_flips_the_second_bit_of_the_size() {
    assert_eq!(stagnation_threshold(0), 2);
    assert_eq!(stagnation_threshold(1), 3);
    assert_eq!(stagnation_threshold(2), 0);
    assert_eq!(stagnation_threshold(4), 6);
    assert_eq!(stagnation_threshold(7), 5);
    assert_eq!(stagnation_threshold(52), 54);
    assert_eq!(stagnation_threshold(usize::MAX), usize::MAX - 2);
}

#[test]
fn a_search_starts_with_nothing_recorded() {
    let search: Search<Stop> = Search::new();
    assert_eq!(search.stalled, 0);
    assert_eq!(search.best_len, u128::MAX);
    assert_eq!(search.best.len(), 0);
}

#[test]
fn an_improvement_starts_the_count_again() {
    let tour = stops(&[0, 2, 10, 8]);
    let mut search: Search<Stop> = Search::new();
    search.stalled = 3;
    assert!(!search.note_outcome(&tour.path, 5, true));
    assert_eq!(search.stalled, 0);
    assert_eq!(search.best_len, u128::MAX);
    assert_eq!(search.best.len(), 0);
}

#[test]
fn a_round_without_improvement_counts_up_to_the_threshold() {
    let tour = stops(&[0, 2, 10, 8]);
    let mut search: Search<Stop> = Search::new();
    for expected in 1..=5 {
        assert!(!search.note_outcome(&tour.path, 5, false));
        assert_eq!(search.stalled, expected);
        assert_eq!(search.best_len, u128::MAX);
    }
    // The sixth round without improvement is one more than the threshold.
    assert!(search.note_outcome(&tour.path, 5, false));
    assert_eq!(search.stalled, 0);
    assert_eq!(search.best_len, 20);
    assert_eq!(places(&search.best), vec![0, 2, 10, 8]);
}

#[test]
fn a_threshold_of_zero_kicks_after_every_round_without_improvement() {
    let tour = stops(&[0, 2, 10, 8]);
    let mut search: Search<Stop> = Search::new();
    assert!(search.note_outcome(&tour.path, 0, false));
    assert_eq!(search.stalled, 0);
    assert!(!search.note_outcome(&tour.path, 0, true));
    assert!(search.note_outcome(&tour.path, 0, false));
}

#[test]
fn taking_stock_records_only_a_strictly_shorter_tour() {
    let longer = stops(&[0, 10, 2, 8]);
    let shorter = stops(&[0, 2, 10, 8]);
    let as_short = stops(&[2, 10, 8, 0]);

    let mut search: Search<Stop> = Search::new();
    assert!(search.note_outcome(&longer.path, 0, false));
    assert_eq!(search.best_len, 32);
    assert_eq!(places(&search.best), vec![0, 10, 2, 8]);

    assert!(search.note_outcome(&shorter.path, 0, false));
    assert_eq!(search.best_len, 20);
    assert_eq!(places(&search.best), vec![0, 2, 10, 8]);

    assert!(search.note_outcome(&as_short.path, 0, false));
    assert_eq!(search.best_len, 20);
    assert_eq!(places(&search.best), vec![0, 2, 10, 8]);
}

#[test]
fn settle_keeps_a_working_tour_that_is_strictly_shorter() {
    let mut tour = stops(&[0, 2, 10, 8]);
    let fresh: Search<Stop> = Search::new();
    fresh.settle(&mut tour.path);
    assert_eq!(places(&tour.path), vec![0, 2, 10, 8]);

    let mut search: Search<Stop> = Search::new();
    search.note_outcome(&stops(&[0, 10, 2, 8]).path, 0, false);
    search.settle(&mut tour.path);
    assert_eq!(places(&tour.path), vec![0, 2, 10, 8]);
}

#[test]
fn settle_puts_back_a_recorded_tour_that_is_as_short() {
    let mut tour = stops(&[2, 10, 8, 0]);
    let mut search: Search<Stop> = Search::new();
    search.note_outcome(&stops(&[0, 2, 10, 8]).path, 0, false);
    search.settle(&mut tour.path);
    assert_eq!(places(&tour.path), vec![0, 2, 10, 8]);
}

#[test]
fn the_best_length_never_goes_up_during_a_search() {
    let mut tour = stops(&[5, 0, 9, 3, 7, 1, 8, 2, 6, 4, 15, 11, 19, 13, 17]);
    let mut search: Search<Stop> = Search::new();
    let mut best = search.best_len;
    let mut length = tour.tour_len();
    for _ in 0..2000 {
        tour.search_round(&mut search, 3);
        assert!(search.best_len <= best);
        assert!(tour.tour_len() <= length);
        assert!(tour.tour_len() <= search.best_len);
        if search.best_len < u128::MAX {
            assert_eq!(Tour::from(&search.best).tour_len(), search.best_len);
        }
        best = search.best_len;
        length = tour.tour_len();
        let mut sorted = places(&tour.path);
        sorted.sort();
        assert_eq!(sorted, vec![0, 1, 2, 3, 4, 5, 6, 7, 8, 9, 11, 13, 15, 17, 19]);
    }
    // A line's shortest tour goes to its far end and back.
    assert!(tour.tour_len() >= 38);
}

#[test]
fn rounds_on_a_tour_that_cannot_be_shortened_count_up_and_then_kick() {
    // No reversal shortens the square, whatever is drawn.
    let mut tour = corners([0, 2, 1, 3]);
    assert_eq!(tour.tour_len(), 4_000_000);
    let mut search: Search<Point> = Search::new();
    for _ in 0..3 {
        for expected in 1..=5 {
            tour.search_round(&mut search, 5);
            assert_eq!(search.stalled, expected);
            assert_eq!(tour, corners([0, 2, 1, 3]));
        }
        tour.search_round(&mut search, 5);
        assert_eq!(search.stalled, 0);
        assert_eq!(search.best_len, 4_000_000);
        assert_eq!(search.best, corners([0, 2, 1, 3]).path);
        assert_eq!(tour, corners([0, 2, 1, 3]));
    }
}

#[test]
fn a_search_with_no_time_leaves_the_tour_as_it_is() {
    let mut tour = corners([0, 1, 2, 3]);
    tour.search(Duration::from_secs(0).as_nanos(), 4);
    assert_eq!(tour, corners([0, 1, 2, 3]));
    tour.search(Duration::new(0, 0).as_nanos(), 0);
    assert_eq!(tour, corners([0, 1, 2, 3]));
}

#[test]
fn a_search_never_makes_the_tour_longer() {
    for millis in [0, 1, 20] {
        let mut tour = Tour::from(&scattered(40, 100.));
        tour.optimize_nn();
        let constructed = tour.tour_len();
        let nodes = tour.path.clone();
        tour.search(Duration::from_millis(millis).as_nanos(), 40);
        assert!(tour.tour_len() <= constructed);
        assert_eq!(tour.path.len(), 40);
        for point in &nodes {
            assert!(tour.path.contains(point));
        }
    }
}

#[test]
fn a_search_uncrosses_the_square() {
    let mut tour = corners([0, 1, 2, 3]);
    assert_eq!(tour.tour_len(), 4_828_428);
    tour.search(Duration::from_millis(300).as_nanos(), 4);
    assert_eq!(tour.tour_len(), 4_000_000);
}

#[test]
fn the_square_is_solved_from_every_order() {
    let orders = [
        [0, 1, 2, 3],
        [0, 1, 3, 2],
        [0, 2, 1, 3],
        [0, 2, 3, 1],
        [0, 3, 1, 2],
        [0, 3, 2, 1],
        [1, 0, 2, 3],
        [2, 3, 0, 1],
        [3, 1, 0, 2],
    ];
    for order in orders {
        let mut tour = corners(order);
        tour.optimize_kopt(Duration::from_millis(50));
        assert_eq!(tour.tour_len(), 4_000_000);
    }
    let mut tour = corners([0, 1, 2, 3]);
    tour.optimize_kopt(Duration::from_secs(1));
    assert_eq!(tour.tour_len(), 4_000_000);
    let mut tour = corners([0, 1, 2, 3]);
    tour.solve_kopt(Duration::from_millis(50));
    assert_eq!(tour.tour_len(), 4_000_000);
}

#[test]
fn with_no_time_the_optimizer_keeps_a_constructed_tour() {
    // 0 5 6 20 is the walk from its first stop. The walk from 5 would make
    // 5 6 0 20, which is longer.
    for _ in 0..40 {
        let mut tour = stops(&[0, 5, 6, 20]);
        tour.optimize_kopt(Duration::from_secs(0));
        assert_eq!(places(&tour.path), vec![0, 5, 6, 20]);
    }
}

#[test]
fn with_no_time_the_optimizer_constructs_a_raw_tour() {
    // 3 6 0 2 is 12 long and no walk is shorter, but it is no walk: after 3
    // comes 6, while 2 is nearer.
    let walks = [vec![3, 2, 0, 6], vec![6, 3, 2, 0], vec![0, 2, 3, 6], vec![2, 3, 6, 0]];
    let mut seen = [false; 4];
    for _ in 0..200 {
        let mut tour = stops(&[3, 6, 0, 2]);
        tour.optimize_kopt(Duration::from_secs(0));
        let made = places(&tour.path);
        let which = walks.iter().position(|walk| *walk == made);
        assert!(which.is_some());
        seen[which.unwrap()] = true;
    }
    assert_eq!(seen, [true; 4]);
}

#[test]
fn an_optimized_tour_is_never_longer_than_the_constructed_tour() {
    for millis in [0, 5] {
        for _ in 0..20 {
            let mut tour = stops(&[0, 5, 6, 20, 21, 40]);
            tour.optimize_nn();
            let constructed = tour.tour_len();
            tour.optimize_kopt(Duration::from_millis(millis));
            assert!(tour.tour_len() <= constructed);
            let mut sorted = places(&tour.path);
            sorted.sort();
            assert_eq!(sorted, vec![0, 5, 6, 20, 21, 40]);
        }
    }
}

#[test]
fn every_order_of_the_square_is_solved() {
    let mut orders = Vec::new();
    for a in 0..4 {
        for b in 0..4 {
            for c in 0..4 {
                for d in 0..4 {
                    let order = [a, b, c, d];
                    if (0..4).all(|x| order.contains(&x)) {
                        orders.push(order);
                    }
                }
            }
        }
    }
    assert_eq!(orders.len(), 24);
    for order in orders {
        let mut tour = corners(order);
        tour.optimize_kopt(Duration::from_millis(20));
        assert_eq!(tour.tour_len(), 4_000_000);
        for corner in corners([0, 1, 2, 3]).path {
            assert!(tour.path.contains(&corner));
        }
    }
}

#[test]
fn with_no_time_the_optimizer_returns_the_constructed_tour() {
    for _ in 0..20 {
        let mut tour = stops(&[5, 0, 9, 3, 7]);
        tour.optimize_kopt(Duration::from_secs(0));
        let walked = places(&tour.path);
        let start = [5, 0, 9, 3, 7].iter().position(|x| *x == walked[0]).unwrap();
        let mut constructed = stops(&[5, 0, 9, 3, 7]);
        constructed.optimize_nn_from(start);
        assert_eq!(walked, places(&constructed.path));
    }
}

#[test]
fn a_trivial_tour_is_returned_at_once() {
    let started = Instant::now();
    let mut empty: Tour<Point> = Tour::new();
    empty.optimize_kopt(Duration::from_secs(3600));
    assert_eq!(empty.path.len(), 0);
    assert_eq!(empty.tour_len(), 0);

    let mut single = Tour::from(&vec![Point::new(2., 3.)]);
    single.optimize_kopt(Duration::from_secs(3600));
    assert_eq!(single.path, vec![Point::new(2., 3.)]);
    assert_eq!(single.tour_len(), 0);

    let mut single = Tour::from(&vec![Point::new(2., 3.)]);
    single.search(Duration::from_secs(3600).as_nanos(), 0);
    assert_eq!(single.path, vec![Point::new(2., 3.)]);
    assert!(started.elapsed() < Duration::from_secs(5));
}

#[test]
fn an_accepted_move_is_kept_by_the_search() {
    let mut tour = corners([0, 1, 2, 3]);
    assert_eq!(two_opt(1, 3, &mut tour), Some(-828_428));
    tour.search(Duration::from_millis(20).as_nanos(), 4);
    assert_eq!(tour.tour_len(), 4_000_000);
}

#[test]
fn test_solve() {
    for (name, count) in [("scattered 52", 52), ("scattered 194", 194), ("scattered 1000", 1000)] {
        let n = 1;
        let mut total = 0;
        let mut best = u128::MAX;
        let mut worst = u128::MIN;
        for _ in 0..n {
            let v = scattered(count, 1000.);

            let timeout = Duration::from_secs(1);
            let mut tour = Tour::from(&v);
            let before = tour.tour_len();
            tour.optimize_kopt(timeout);

            let result = tour.tour_len();
            total += result;
            best = if result < best { result } else { best };
            worst = if result > worst { result } else { worst };

            assert_eq!(tour.path.len(), count);
            assert!(result < before);
            for point in &v {
                assert!(tour.path.contains(point));
            }
        }
        println!("solve_kopt on {} had:", name);
        println!("\tworst case: {}", worst);
        println!("\tbest case: {}", best);
        println!("\taverage: {}", total / n);
    }
}
