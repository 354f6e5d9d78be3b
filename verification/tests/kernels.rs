use gstools_core::arithmetic::Arithmetic;
use gstools_core::mps::{
    dist_block_categorical, dist_block_l1, dist_block_l2, dist_block_lp, scan_node,
    scan_node_categorical,
};

/// The operations of the machine on binary64 words.
struct Binary64;

impl Arithmetic for Binary64 {
    fn plus(&self, a: u64, b: u64) -> u64 {
        (f64::from_bits(a) + f64::from_bits(b)).to_bits()
    }
    fn minus(&self, a: u64, b: u64) -> u64 {
        (f64::from_bits(a) - f64::from_bits(b)).to_bits()
    }
    fn times(&self, a: u64, b: u64) -> u64 {
        (f64::from_bits(a) * f64::from_bits(b)).to_bits()
    }
    fn over(&self, a: u64, b: u64) -> u64 {
        (f64::from_bits(a) / f64::from_bits(b)).to_bits()
    }
    fn root(&self, a: u64) -> u64 {
        f64::from_bits(a).sqrt().to_bits()
    }
    fn power(&self, a: u64, b: u64) -> u64 {
        f64::from_bits(a).powf(f64::from_bits(b)).to_bits()
    }
    fn number(&self, i: i64) -> u64 {
        (i as f64).to_bits()
    }
    fn count(&self, c: usize) -> u64 {
        (c as f64).to_bits()
    }
    fn nearest(&self, a: u64) -> i64 {
        f64::from_bits(a).round_ties_even() as i64
    }
    fn cut(&self, a: u64) -> i64 {
        f64::from_bits(a) as i64
    }
    fn whole(&self, a: u64) -> usize {
        f64::from_bits(a) as usize
    }
}

fn words(numbers: &[f64]) -> Vec<u64> {
    numbers.iter().map(|x| x.to_bits()).collect()
}

fn numbers(words: &[u64]) -> Vec<f64> {
    words.iter().map(|w| f64::from_bits(*w)).collect()
}

fn close(a: f64, b: f64, epsilon: f64) -> bool {
    (a - b).abs() <= epsilon
}

fn categorical(de: &[f64], ti: &[f64], base: &[i64], lags: &[i64], weights: &[f64]) -> Vec<f64> {
    numbers(&dist_block_categorical(
        &Binary64,
        &words(de),
        &words(ti),
        base,
        lags,
        &words(weights),
    ))
}

fn l1(de: &[f64], ti: &[f64], base: &[i64], lags: &[i64], weights: &[f64], d_max: f64) -> Vec<f64> {
    numbers(&dist_block_l1(
        &Binary64,
        &words(de),
        &words(ti),
        base,
        lags,
        &words(weights),
        d_max.to_bits(),
    ))
}

fn l2(de: &[f64], ti: &[f64], base: &[i64], lags: &[i64], weights: &[f64], d_max: f64) -> Vec<f64> {
    numbers(&dist_block_l2(
        &Binary64,
        &words(de),
        &words(ti),
        base,
        lags,
        &words(weights),
        d_max.to_bits(),
    ))
}

fn lp(
    de: &[f64],
    ti: &[f64],
    base: &[i64],
    lags: &[i64],
    weights: &[f64],
    d_max: f64,
    p: f64,
) -> Vec<f64> {
    numbers(&dist_block_lp(
        &Binary64,
        &words(de),
        &words(ti),
        base,
        lags,
        &words(weights),
        d_max.to_bits(),
        p.to_bits(),
    ))
}

fn scan(
    lo: &[i64],
    shape: &[i64],
    start: usize,
    max_scan: usize,
    threshold: f64,
    de: &[f64],
    ti: &[f64],
    strides: &[i64],
    lags: &[i64],
    weights: &[f64],
) -> Option<Vec<i64>> {
    scan_node_categorical(
        &Binary64,
        lo,
        shape,
        start,
        max_scan,
        threshold.to_bits(),
        &words(de),
        &words(ti),
        strides,
        lags,
        &words(weights),
    )
}

#[test]
fn categorical_exact_match() {
    // ti[0] = 3.0 is the label of the event.
    let d = categorical(&[3.0], &[3.0, 7.0], &[0], &[0], &[1.0]);
    assert_eq!(d.len(), 1);
    assert!(close(d[0], 0.0, 1e-12));
}

#[test]
fn categorical_full_mismatch() {
    // ti[1] = 7.0 is not.
    let d = categorical(&[3.0], &[3.0, 7.0], &[1], &[0], &[1.0]);
    assert!(close(d[0], 1.0, 1e-12));
}

#[test]
fn categorical_partial_match() {
    // The first label matches, the second does not: half the weight is added.
    let d = categorical(&[1.0, 9.0], &[1.0, 2.0, 3.0], &[0], &[0, 1], &[0.5, 0.5]);
    assert!(close(d[0], 0.5, 1e-12));
}

#[test]
fn categorical_close_distinct_labels_are_mismatch() {
    let d = categorical(&[0.1], &[0.2], &[0], &[0], &[1.0]);
    assert!(close(d[0], 1.0, 1e-12));
}

#[test]
fn categorical_two_candidates() {
    let d = categorical(&[5.0], &[5.0, 5.0, 7.0], &[0, 2], &[0], &[1.0]);
    assert!(close(d[0], 0.0, 1e-12));
    assert!(close(d[1], 1.0, 1e-12));
}

#[test]
fn categorical_negative_lag() {
    // ti[2 - 1] = 2.0 is the label of the event.
    let d = categorical(&[2.0], &[1.0, 2.0, 3.0], &[2], &[-1], &[1.0]);
    assert!(close(d[0], 0.0, 1e-12));
}

#[test]
fn l1_single_lag() {
    // |5 - 3| / 4
    let d = l1(&[5.0], &[3.0], &[0], &[0], &[1.0], 4.0);
    assert!(close(d[0], 0.5, 1e-12));
}

#[test]
fn l1_two_candidates() {
    // At 0: |4 - 0| / 4 / 2 + |0 - 2| / 4 / 2, at 1: |4 - 2| / 4 / 2 + |0 - 4| / 4 / 2.
    let d = l1(
        &[4.0, 0.0],
        &[0.0, 2.0, 4.0],
        &[0, 1],
        &[0, 1],
        &[0.5, 0.5],
        4.0,
    );
    assert!(close(d[0], 0.75, 1e-12));
    assert!(close(d[1], 0.75, 1e-12));
}

#[test]
fn l2_single_lag() {
    let d = l2(&[5.0], &[3.0], &[0], &[0], &[1.0], 4.0);
    assert!(close(d[0], 0.5, 1e-12));
}

#[test]
fn lp_p1_matches_l1() {
    let d_l1 = l1(&[5.0], &[3.0], &[0], &[0], &[1.0], 4.0);
    let d_lp = lp(&[5.0], &[3.0], &[0], &[0], &[1.0], 4.0, 1.0);
    assert!(close(d_l1[0], d_lp[0], 1e-12));
}

#[test]
fn lp_p2_matches_l2() {
    let d_l2 = l2(&[5.0], &[3.0], &[0], &[0], &[1.0], 4.0);
    let d_lp = lp(&[5.0], &[3.0], &[0], &[0], &[1.0], 4.0, 2.0);
    assert!(close(d_l2[0], d_lp[0], 1e-10));
}

#[test]
fn scan_node_cat_finds_exact_match() {
    let result = scan(
        &[0],
        &[5],
        0,
        5,
        0.0,
        &[2.0],
        &[1.0, 2.0, 3.0, 2.0, 1.0],
        &[1],
        &[0],
        &[1.0],
    );
    assert!(result.is_some());
    assert_eq!(result.unwrap()[0], 1);
}

#[test]
fn scan_node_cat_returns_best_when_no_exact() {
    // All candidates are equally far away: the first one wins.
    let result = scan(
        &[0],
        &[3],
        0,
        3,
        0.0,
        &[2.0],
        &[0.0, 0.0, 1.0],
        &[1],
        &[0],
        &[1.0],
    );
    assert!(result.is_some());
    assert_eq!(result.unwrap()[0], 0);
}

#[test]
fn scan_node_cat_ds_mode_early_exit() {
    // The distances are 1.0 and then 0.0, which is below the threshold.
    let result = scan(
        &[0],
        &[3],
        0,
        3,
        0.6,
        &[1.0],
        &[0.0, 1.0, 2.0],
        &[1],
        &[0],
        &[1.0],
    );
    assert!(result.is_some());
    assert_eq!(result.unwrap()[0], 1);
}

#[test]
fn scan_node_cat_distinguishes_close_labels() {
    let result = scan(
        &[0],
        &[2],
        0,
        2,
        0.0,
        &[0.1],
        &[0.2, 0.1],
        &[1],
        &[0],
        &[1.0],
    );
    assert!(result.is_some());
    assert_eq!(result.unwrap()[0], 1);
}

#[test]
fn nan_labels_never_match() {
    let d = categorical(&[f64::NAN], &[f64::NAN], &[0], &[0], &[1.0]);
    assert_eq!(d, vec![1.0]);
    // Zeros match whatever their sign.
    let d = categorical(&[0.0], &[-0.0], &[0], &[0], &[1.0]);
    assert_eq!(d, vec![0.0]);
}

#[test]
fn distances_go_as_far_as_the_shortest_input() {
    let d = categorical(&[1.0, 2.0, 3.0], &[5.0, 6.0, 7.0], &[0], &[0, 1], &[0.25, 0.5, 9.0]);
    assert_eq!(d, vec![0.75]);
    assert!(categorical(&[1.0], &[2.0], &[], &[0], &[1.0]).is_empty());
    assert_eq!(categorical(&[], &[], &[0], &[], &[]), vec![0.0]);
}

#[test]
fn l2_adds_up_squares_before_the_root() {
    // (3/1)^2 / 4 + (4/1)^2 / 4 = 25/4
    let d = l2(&[3.0, 4.0], &[0.0, 0.0], &[0], &[0, 1], &[0.25, 0.25], 1.0);
    assert_eq!(d, vec![2.5]);
}

#[test]
fn lp_raises_and_takes_the_inverse_power() {
    // (8 * (1/2)^4) ^ (1/4)
    let d = lp(&[2.0], &[1.0], &[0], &[0], &[8.0], 2.0, 4.0);
    assert!(close(d[0], 0.5f64.powf(0.25), 1e-12));
    assert!(close(d[0], 0.8408964152537145, 1e-12));
}

#[test]
fn l1_divides_the_weighted_difference_by_the_range() {
    let d = l1(&[1.0, 7.0], &[4.0, 2.0], &[0], &[0, 1], &[0.5, 2.0], 10.0);
    assert!(close(d[0], 0.15 + 1.0, 1e-12));
}

#[test]
fn scans_start_anywhere_and_wrap_round() {
    // From position 3 on, the scan meets ti[3], ti[4], ti[0] and then the match at 1.
    let ti = [1.0, 2.0, 3.0, 4.0, 5.0];
    let found = scan(&[0], &[5], 3, 5, 0.0, &[2.0], &ti, &[1], &[0], &[1.0]);
    assert_eq!(found, Some(vec![1]));
    // Three candidates do not reach it: the first of equals wins.
    let found = scan(&[0], &[5], 3, 3, 0.0, &[2.0], &ti, &[1], &[0], &[1.0]);
    assert_eq!(found, Some(vec![3]));
    // A start beyond the window counts modulo its size.
    let found = scan(&[0], &[5], 13, 3, 0.0, &[2.0], &ti, &[1], &[0], &[1.0]);
    assert_eq!(found, Some(vec![3]));
}

#[test]
fn scans_look_at_windows_of_more_axes() {
    // A 3 x 4 image; the window is the 2 x 2 box at (1, 2); the match is its last cell.
    let ti: Vec<f64> = (0..12).map(|k| k as f64).collect();
    let found = scan(&[1, 2], &[2, 2], 0, 4, 0.0, &[11.0], &ti, &[4, 1], &[0], &[1.0]);
    assert_eq!(found, Some(vec![2, 3]));
    // The lag of one row up leads from (2, 2) to 6.
    let found = scan(&[1, 2], &[2, 2], 0, 4, 0.0, &[6.0], &ti, &[4, 1], &[-4], &[1.0]);
    assert_eq!(found, Some(vec![2, 2]));
}

#[test]
fn scans_without_a_finite_distance_find_nothing() {
    let found = scan(&[0], &[2], 0, 2, 0.0, &[1.0], &[2.0, 3.0], &[1], &[0], &[f64::INFINITY]);
    assert_eq!(found, None);
    // Nothing is looked at, nothing is found.
    let found = scan(&[0], &[2], 0, 0, 0.0, &[1.0], &[1.0, 3.0], &[1], &[0], &[1.0]);
    assert_eq!(found, None);
}

#[test]
fn exact_thresholds_ignore_near_matches() {
    // Distances 0.5 and 0.0: with a threshold of zero only the second will do, with 0.6 the
    // first does.
    let ti = [1.0, 9.0, 1.0, 2.0];
    let found = scan(&[0], &[3], 0, 3, 0.0, &[1.0, 2.0], &ti, &[1], &[0, 1], &[0.5, 0.5]);
    assert_eq!(found, Some(vec![2]));
    let found = scan(&[0], &[3], 0, 3, 0.6, &[1.0, 2.0], &ti, &[1], &[0, 1], &[0.5, 0.5]);
    assert_eq!(found, Some(vec![0]));
    // A negative threshold asks for an exact match, too.
    let found = scan(&[0], &[3], 0, 3, -1.0, &[1.0, 2.0], &ti, &[1], &[0, 1], &[0.5, 0.5]);
    assert_eq!(found, Some(vec![2]));
}

#[test]
fn scans_take_the_first_of_the_least_distances() {
    let distances = [3.0f64, 1.0, 2.0, 1.0];
    let found = scan_node(&[0], &[4], 0, 4, 0.0f64.to_bits(), &[1], |base: i64| {
        distances[base as usize].to_bits()
    });
    assert_eq!(found, Some(vec![1]));
    let found = scan_node(&[0], &[4], 2, 4, 0.0f64.to_bits(), &[1], |base: i64| {
        distances[base as usize].to_bits()
    });
    assert_eq!(found, Some(vec![3]));
}

#[test]
fn full_scans_visit_every_anchor_once() {
    // A window of 2 x 3 anchors in an image with rows of 10 cells.
    let seen = std::cell::RefCell::new(Vec::new());
    let found = scan_node(&[4, 5], &[2, 3], 4, 6, 0.0f64.to_bits(), &[10, 1], |base: i64| {
        seen.borrow_mut().push(base);
        1.0f64.to_bits()
    });
    assert_eq!(*seen.borrow(), vec![56, 57, 45, 46, 47, 55]);
    assert_eq!(found, Some(vec![5, 6]));
}
