use tsp_rs::kopt::{
    four_opt, k_opt, k_opt_at, rand_index, reverse_segment, sort_indices, swap_nodes, three_opt,
    two_opt,
};
use tsp_rs::{Metrizable, Tour};

/// A point of the plane. Its cost is the Euclidean distance in millionths,
/// rounded to the nearest whole number.
#[derive(Debug, Clone, PartialEq, PartialOrd)]
struct Point {
    x: f64,
    y: f64,
}

impl Point {
    fn new(x: f64, y: f64) -> Point {
        Point { x, y }
    }
}

impl Metrizable for Point {
    fn metric(&self, other: &Point) -> u64 {
        self.cost(other)
    }

    fn cost(&self, other: &Point) -> u64 {
        let d = ((self.x - other.x).powf(2.) + (self.y - other.y).powf(2.)).sqrt();
        (d * 1_000_000.).round() as u64
    }
}

/// A stop on a line. The cost between two stops is their distance.
#[derive(Debug, Clone, PartialEq)]
struct Stop(u64);

impl Metrizable for Stop {
    fn metric(&self, other: &Stop) -> u64 {
        self.cost(other)
    }

    fn cost(&self, other: &Stop) -> u64 {
        if self.0 < other.0 {
            other.0 - self.0
        } else {
            self.0 - other.0
        }
    }
}

fn stops(at: &[u64]) -> Tour<Stop> {
    Tour::from(&at.iter().map(|x| Stop(*x)).collect())
}

fn places(tour: &Tour<Stop>) -> Vec<u64> {
    tour.path.iter().map(|s| s.0).collect()
}

fn crossed_square() -> Tour<Point> {
    Tour::from(&vec![
        Point::new(0., 0.),
        Point::new(1., 1.),
        Point::new(1., 0.),
        Point::new(0., 1.),
    ])
}

fn square() -> Tour<Point> {
    Tour::from(&vec![
        Point::new(0., 0.),
        Point::new(1., 0.),
        Point::new(1., 1.),
        Point::new(0., 1.),
    ])
}

#[test]
fn kopt_test_two_opt() {
    let mut path = Tour::from(&vec![
        Point::new(0., 0.),
        Point::new(1., 1.),
        Point::new(1., 0.),
        Point::new(0., 1.),
    ]);

    let two_opt_path = Tour::from(&vec![
        Point::new(0., 0.),
        Point::new(1., 0.),
        Point::new(1., 1.),
        Point::new(0., 1.),
    ]);

    let result = two_opt(1, 3, &mut path);

    assert_ne!(None, result);
    assert_eq!(path, two_opt_path);
}

#[test]
fn mod_test_two_opt() {
    let mut path = Tour::from(&vec![
        Point::new(0., 0.),
        Point::new(1., 1.),
        Point::new(1., 0.),
        Point::new(0., 1.),
    ]);

    let two_opt_path = Tour::from(&vec![
        Point::new(0., 0.),
        Point::new(1., 0.),
        Point::new(1., 1.),
        Point::new(0., 1.),
    ]);

    let result = two_opt(1, 3, &mut path);

    assert_ne!(None, result);
    assert_eq!(path, two_opt_path);
}

#[test]
fn two_opt_uncrosses_the_square() {
    let mut path = crossed_square();
    assert_eq!(path.tour_len(), 4_828_428);
    let gain = two_opt(1, 3, &mut path);
    assert_eq!(gain, Some(-828_428));
    assert_eq!(path.tour_len(), 4_000_000);
    assert_eq!(path, square());
}

#[test]
fn two_opt_leaves_a_tour_that_it_cannot_shorten() {
    let mut path = square();
    assert_eq!(two_opt(1, 3, &mut path), None);
    assert_eq!(path, square());
    assert_eq!(two_opt(0, 4, &mut path), None);
    assert_eq!(path, square());
}

#[test]
fn two_opt_on_an_empty_segment_does_nothing() {
    let mut path = crossed_square();
    assert_eq!(two_opt(2, 2, &mut path), None);
    assert_eq!(path, crossed_square());
    assert_eq!(two_opt(4, 4, &mut path), None);
    assert_eq!(path, crossed_square());
}

#[test]
fn two_opt_reverses_up_to_the_end() {
    // 0 -> 10 -> 2 -> 8 -> back: 10 + 8 + 6 + 8 = 32.
    let mut path = stops(&[0, 10, 2, 8]);
    assert_eq!(path.tour_len(), 32);
    // Reversing [1, 4) gives 0 -> 8 -> 2 -> 10 -> back: 8 + 6 + 8 + 10 = 32.
    assert_eq!(two_opt(1, 4, &mut path), None);
    assert_eq!(places(&path), vec![0, 10, 2, 8]);
    // Reversing [1, 3) gives 0 -> 2 -> 10 -> 8 -> back: 2 + 8 + 2 + 8 = 20.
    assert_eq!(two_opt(1, 3, &mut path), Some(-12));
    assert_eq!(places(&path), vec![0, 2, 10, 8]);
    assert_eq!(path.tour_len(), 20);
}

#[test]
fn reversal_changes_the_length_by_the_two_boundary_edges() {
    let before = stops(&[0, 10, 2, 8, 5, 1]);
    let n = before.path.len();
    for i in 0..n {
        for j in (i + 1)..=n {
            if j - i == n {
                continue;
            }
            let mut after = stops(&[0, 10, 2, 8, 5, 1]);
            reverse_segment(&mut after.path, i, j);
            let prev = &before.path[(i + n - 1) % n];
            let next = &before.path[j % n];
            let first = &before.path[i];
            let last = &before.path[j - 1];
            let taken = (prev.cost(first) + last.cost(next)) as u128;
            let put = (prev.cost(last) + first.cost(next)) as u128;
            assert_eq!(after.tour_len() + taken, before.tour_len() + put);
        }
    }
}

#[test]
fn reverse_segment_reverses_in_place() {
    let mut v = vec![1, 2, 3, 4, 5, 6];
    reverse_segment(&mut v, 1, 5);
    assert_eq!(v, vec![1, 5, 4, 3, 2, 6]);
    reverse_segment(&mut v, 0, 6);
    assert_eq!(v, vec![6, 2, 3, 4, 5, 1]);
    reverse_segment(&mut v, 2, 3);
    assert_eq!(v, vec![6, 2, 3, 4, 5, 1]);
    reverse_segment(&mut v, 3, 3);
    assert_eq!(v, vec![6, 2, 3, 4, 5, 1]);
    reverse_segment(&mut v, 4, 6);
    assert_eq!(v, vec![6, 2, 3, 4, 1, 5]);
}

#[test]
fn swap_nodes_exchanges_two_positions() {
    let mut v = vec!['a', 'b', 'c', 'd'];
    swap_nodes(&mut v, 0, 3);
    assert_eq!(v, vec!['d', 'b', 'c', 'a']);
    swap_nodes(&mut v, 2, 1);
    assert_eq!(v, vec!['d', 'c', 'b', 'a']);
    swap_nodes(&mut v, 1, 1);
    assert_eq!(v, vec!['d', 'c', 'b', 'a']);
}

#[test]
fn three_opt_makes_two_moves_in_a_row() {
    // 0 -> 3 -> 1 -> 9 -> 7 -> 12 -> back: 3 + 2 + 8 + 2 + 5 + 12 = 32.
    let mut path = stops(&[0, 3, 1, 9, 7, 12]);
    assert_eq!(path.tour_len(), 32);
    // [1, 3) reversed: 0 1 3 9 7 12: 1 + 2 + 6 + 2 + 5 + 12 = 28.
    // [3, 5) reversed: 0 1 3 7 9 12: 1 + 2 + 4 + 2 + 3 + 12 = 24.
    assert_eq!(three_opt(1, 3, 5, &mut path), Some(-8));
    assert_eq!(places(&path), vec![0, 1, 3, 7, 9, 12]);
    assert_eq!(path.tour_len(), 24);
    assert_eq!(three_opt(1, 3, 5, &mut path), None);
    assert_eq!(places(&path), vec![0, 1, 3, 7, 9, 12]);
}

#[test]
fn three_opt_keeps_the_one_move_that_helps() {
    let mut path = stops(&[0, 1, 3, 9, 7, 12]);
    assert_eq!(three_opt(1, 3, 5, &mut path), Some(-4));
    assert_eq!(places(&path), vec![0, 1, 3, 7, 9, 12]);
    let mut path = stops(&[0, 3, 1, 7, 9, 12]);
    assert_eq!(three_opt(1, 3, 5, &mut path), Some(-4));
    assert_eq!(places(&path), vec![0, 1, 3, 7, 9, 12]);
}

#[test]
fn four_opt_makes_three_moves_in_a_row() {
    // 0 2 1 5 4 8 7 20: 2 + 1 + 4 + 1 + 4 + 1 + 13 + 20 = 46.
    let mut path = stops(&[0, 2, 1, 5, 4, 8, 7, 20]);
    assert_eq!(path.tour_len(), 46);
    // Each reversal of two neighbours saves 2: the sorted line is 40 long.
    assert_eq!(four_opt(1, 3, 5, 7, &mut path), Some(-6));
    assert_eq!(places(&path), vec![0, 1, 2, 4, 5, 7, 8, 20]);
    assert_eq!(path.tour_len(), 40);
    assert_eq!(four_opt(1, 3, 5, 7, &mut path), None);
    assert_eq!(places(&path), vec![0, 1, 2, 4, 5, 7, 8, 20]);
}

#[test]
fn sort_indices_puts_positions_in_ascending_order() {
    let mut v = vec![3, 1, 2];
    sort_indices(&mut v);
    assert_eq!(v, vec![1, 2, 3]);
    let mut v = vec![7, 7, 0, 9];
    sort_indices(&mut v);
    assert_eq!(v, vec![0, 7, 7, 9]);
    let mut v: Vec<usize> = vec![];
    sort_indices(&mut v);
    assert_eq!(v, Vec::<usize>::new());
}

#[test]
fn k_opt_at_sorts_what_was_drawn() {
    let mut path = crossed_square();
    assert_eq!(k_opt_at(2, &vec![3, 1], &mut path), Some(-828_428));
    assert_eq!(path, square());

    let mut path = stops(&[0, 3, 1, 9, 7, 12]);
    assert_eq!(k_opt_at(3, &vec![5, 1, 3], &mut path), Some(-8));
    assert_eq!(places(&path), vec![0, 1, 3, 7, 9, 12]);

    let mut path = stops(&[0, 2, 1, 5, 4, 8, 7, 20]);
    assert_eq!(k_opt_at(4, &vec![7, 3, 5, 1], &mut path), Some(-6));
    assert_eq!(places(&path), vec![0, 1, 2, 4, 5, 7, 8, 20]);
}

#[test]
fn k_opt_at_attempts_nothing_when_draws_collide() {
    let mut path = crossed_square();
    assert_eq!(k_opt_at(2, &vec![1, 1], &mut path), None);
    assert_eq!(path, crossed_square());

    for draws in [vec![1, 1, 3], vec![1, 3, 3], vec![1, 3, 1]] {
        let mut path = stops(&[0, 3, 1, 9, 7, 12]);
        assert_eq!(k_opt_at(3, &draws, &mut path), None);
        assert_eq!(places(&path), vec![0, 3, 1, 9, 7, 12]);
    }

    for draws in [vec![1, 1, 5, 7], vec![1, 3, 3, 7], vec![1, 3, 7, 7]] {
        let mut path = stops(&[0, 2, 1, 5, 4, 8, 7, 20]);
        assert_eq!(k_opt_at(4, &draws, &mut path), None);
        assert_eq!(places(&path), vec![0, 2, 1, 5, 4, 8, 7, 20]);
    }
}

#[test]
fn k_opt_at_with_four_draws_accepts_equal_draws_that_are_not_neighbours() {
    // Drawn 1, 3, 1, 5: no two neighbours are equal. In ascending order the
    // cuts are 1, 1, 3, 5: an empty segment, then [1, 3) and [3, 5).
    let mut path = stops(&[0, 3, 1, 9, 7, 12]);
    assert_eq!(k_opt_at(4, &vec![1, 3, 1, 5], &mut path), Some(-8));
    assert_eq!(places(&path), vec![0, 1, 3, 7, 9, 12]);
}

#[test]
fn k_opt_keeps_the_nodes_and_never_lengthens() {
    for k in 2..=4 {
        let mut path = stops(&[5, 0, 9, 3, 7, 1, 8, 2, 6, 4]);
        let mut length = path.tour_len();
        for _ in 0..300 {
            let before = places(&path);
            let gain = k_opt(k, &mut path);
            let now = path.tour_len();
            match gain {
                Some(by) => {
                    assert!(by < 0);
                    assert_eq!(now as i128, length as i128 + by);
                }
                None => {
                    assert_eq!(places(&path), before);
                    assert_eq!(now, length);
                }
            }
            length = now;
            let mut sorted = places(&path);
            sorted.sort();
            assert_eq!(sorted, vec![0, 1, 2, 3, 4, 5, 6, 7, 8, 9]);
        }
    }
}

#[test]
fn k_opt_on_a_trivial_tour_finds_nothing() {
    for k in 2..=4 {
        let mut empty: Tour<Stop> = Tour::new();
        assert_eq!(k_opt(k, &mut empty), None);
        assert_eq!(empty.path.len(), 0);
        let mut single = stops(&[4]);
        assert_eq!(k_opt(k, &mut single), None);
        assert_eq!(places(&single), vec![4]);
    }
}

#[test]
fn a_move_reports_the_new_length_minus_the_old() {
    let mut path = crossed_square();
    let before = path.tour_len() as i128;
    let reported = two_opt(1, 3, &mut path).unwrap();
    assert!(reported < 0);
    assert_eq!(reported, path.tour_len() as i128 - before);
    // In units of distance the change is 4 - (2 + 2 * sqrt(2)).
    let in_distance = reported as f64 / 1_000_000.;
    assert!((in_distance - (4.0 - (2.0 + 2.0 * 2f64.sqrt()))).abs() < 1e-6);
}

#[test]
fn rand_index_stays_below_the_number_of_nodes() {
    let single = stops(&[4]);
    for _ in 0..20 {
        assert_eq!(rand_index(&single), 0);
    }
    let path = stops(&[4, 5, 6]);
    let mut seen = [false; 3];
    for _ in 0..200 {
        let index = rand_index(&path);
        assert!(index < 3);
        seen[index] = true;
    }
    assert_eq!(seen, [true; 3]);
}
