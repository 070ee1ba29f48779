use mcbe_text_impact::utils::{approximate_sum_optimized, find_closest, solve_xy};

#[test]
fn solve_xy_splits_even_gaps() {
    assert_eq!(solve_xy(6, 8, 0), Some((0, 0)));
    assert_eq!(solve_xy(6, 8, 6), Some((1, 0)));
    assert_eq!(solve_xy(6, 8, 8), Some((0, 1)));
    assert_eq!(solve_xy(6, 8, 12), Some((2, 0)));
    assert_eq!(solve_xy(6, 8, 14), Some((1, 1)));
    assert_eq!(solve_xy(6, 8, 22), Some((1, 2)));
    assert_eq!(solve_xy(6, 8, 26), Some((3, 1)));
}

#[test]
fn solve_xy_finds_no_split_for_small_gaps() {
    assert_eq!(solve_xy(6, 8, 2), None);
    assert_eq!(solve_xy(6, 8, 4), None);
    assert_eq!(solve_xy(6, 8, 10), None);
}

#[test]
fn solve_xy_rejects_odd_and_negative_gaps() {
    assert_eq!(solve_xy(6, 8, 7), None);
    assert_eq!(solve_xy(6, 8, -2), None);
    assert_eq!(solve_xy(6, 8, -7), None);
}

#[test]
fn solve_xy_results_split_the_gap() {
    let mut gap = 0;
    while gap <= 400 {
        match solve_xy(6, 8, gap) {
            Some((x, y)) => {
                assert!(x >= 0 && y >= 0);
                assert_eq!(6 * x + 8 * y, gap);
            }
            None => {
                let mut x = 0;
                while 6 * x <= gap {
                    assert_ne!((gap - 6 * x) % 8, 0);
                    x += 1;
                }
            }
        }
        gap += 1;
    }
}

#[test]
fn find_closest_hits_exact_targets() {
    let (solutions, diff) = find_closest(6, 8, 14);
    assert_eq!(diff, 0);
    assert_eq!(solutions, vec![(1, 1, 14), (1, 1, 14), (1, 1, 14)]);
    let (solutions, diff) = find_closest(3, 5, 11);
    assert_eq!(diff, 0);
    assert_eq!(solutions[0], (2, 1, 11));
}

#[test]
fn find_closest_keeps_every_tie_in_order() {
    let (solutions, diff) = find_closest(6, 8, 100);
    assert_eq!(diff, 0);
    assert_eq!(
        solutions,
        vec![
            (2, 11, 100),
            (2, 11, 100),
            (2, 11, 100),
            (6, 8, 100),
            (6, 8, 100),
            (6, 8, 100),
            (10, 5, 100),
            (10, 5, 100),
            (10, 5, 100),
            (14, 2, 100),
            (14, 2, 100),
            (14, 2, 100)
        ]
    );
}

#[test]
fn find_closest_gives_signed_residual() {
    let (solutions, diff) = find_closest(6, 8, 10);
    assert_eq!(solutions[0], (2, 0, 12));
    assert_eq!(diff, 2);
    let (solutions, diff) = find_closest(6, 8, 8);
    assert_eq!(solutions[0], (1, 0, 6));
    assert_eq!(diff, -2);
    let (solutions, diff) = find_closest(6, 8, 7);
    assert_eq!(solutions, vec![(1, 0, 6), (1, 0, 6), (1, 0, 6)]);
    assert_eq!(diff, -1);
}

#[test]
fn find_closest_starts_at_one_unit() {
    let (solutions, diff) = find_closest(6, 8, 0);
    assert_eq!(solutions, vec![(1, 0, 6), (1, 0, 6), (1, 0, 6), (1, 0, 6)]);
    assert_eq!(diff, 6);
    let (solutions, diff) = find_closest(6, 8, -19);
    assert_eq!(solutions[0], (1, 0, 6));
    assert_eq!(diff, 25);
    let (solutions, diff) = find_closest(5, 3, -1);
    assert_eq!(solutions[0], (1, 0, 5));
    assert_eq!(diff, 6);
}

#[test]
fn find_closest_tries_nothing_far_below_zero() {
    let (solutions, diff) = find_closest(6, 8, -20);
    assert!(solutions.is_empty());
    assert_eq!(diff, i32::MAX);
}

#[test]
fn find_closest_is_no_worse_than_any_pair_in_reach() {
    let mut c = -10;
    while c <= 120 {
        let (solutions, diff) = find_closest(6, 8, c);
        let bound = (c + 8) / 6 + 2;
        let best = diff.abs();
        assert_eq!(solutions[0].2 - c, diff);
        let mut x = 1;
        while x <= bound {
            let mut y = 0;
            while y <= 30 {
                assert!(best <= (x * 6 + y * 8 - c).abs());
                y += 1;
            }
            x += 1;
        }
        c += 1;
    }
}

#[test]
fn approximate_sum_without_units() {
    assert_eq!(approximate_sum_optimized(0, 0, -7), (0, 0, 7));
    assert_eq!(approximate_sum_optimized(0, 0, 0), (0, 0, 0));
}

#[test]
fn approximate_sum_with_one_unit_rounds_the_quotient() {
    assert_eq!(approximate_sum_optimized(0, 3, 10), (0, 3, 1));
    assert_eq!(approximate_sum_optimized(0, -3, 10), (0, -3, 1));
    assert_eq!(approximate_sum_optimized(0, 4, 6), (0, 2, 2));
    assert_eq!(approximate_sum_optimized(4, 0, -6), (-2, 0, 2));
    assert_eq!(approximate_sum_optimized(5, 0, 12), (2, 0, 2));
}

#[test]
fn approximate_sum_returns_the_first_closest_pair() {
    assert_eq!(approximate_sum_optimized(6, 8, 14), (-99, 76, 0));
    assert_eq!(approximate_sum_optimized(6, 8, 7), (-100, 76, 1));
    assert_eq!(approximate_sum_optimized(3, 5, 1), (-98, 59, 0));
    assert_eq!(approximate_sum_optimized(4, 6, 7), (-100, 68, 1));
    assert_eq!(approximate_sum_optimized(12, 18, 5), (-100, 67, 1));
    assert_eq!(approximate_sum_optimized(2, 2, -5), (-100, 97, 1));
}

#[test]
fn approximate_sum_keeps_no_units_for_target_zero() {
    assert_eq!(approximate_sum_optimized(6, 8, 0), (0, 0, 0));
}

#[test]
fn approximate_sum_takes_units_of_either_sign() {
    assert_eq!(approximate_sum_optimized(-4, 6, 9), (-100, -65, 1));
    assert_eq!(approximate_sum_optimized(7, -3, 100), (-98, -262, 0));
    assert_eq!(approximate_sum_optimized(1000, 1, 3), (-100, 100003, 0));
}

#[test]
fn approximate_sum_widens_the_range_for_far_targets() {
    assert_eq!(approximate_sum_optimized(6, 9, 3000), (-499, 666, 0));
}
