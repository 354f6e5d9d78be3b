use gstools_core::arithmetic::{part_of, share_of, sum, Arithmetic};
use gstools_core::event::{transform_and_reduce_event, Event};
use gstools_core::grid::ValueGrid;
use gstools_core::image::{fallback_flat, is_incomplete, jointly_defined};
use gstools_core::index::{
    c_strides, cell_at, cell_count, cell_total, flat_index, flat_index_iter, flat_lag,
};
use gstools_core::messages::{nan_text, pool_text, shape_text, undefined_text};
use gstools_core::neighbors::{build_neighbor_cache, squared_length};
use gstools_core::weights::{compute_node_weights, nanmean};
use gstools_core::window::{bounds_for_prefix, reach, window_bounds};
use gstools_core::word;

/// The operations of the machine on binary64 words.
struct Binary64;

impl Arithmetic for Binary64 {
    fn plus(&self, a: u64, b: u64) -> u64 {
        (f64::from_bits(a) + f64::from_bits(b)).to_bits()
    }
    fn minus(&self, a: u64, b: u64) -> u64 {
        (f64::from_bits(a) - f64::from_bits(b)).to_bits()
    }
    fn times(&self, a: u64, b: u64) -> u64 {
        (f64::from_bits(a) * f64::from_bits(b)).to_bits()
    }
    fn over(&self, a: u64, b: u64) -> u64 {
        (f64::from_bits(a) / f64::from_bits(b)).to_bits()
    }
    fn root(&self, a: u64) -> u64 {
        f64::from_bits(a).sqrt().to_bits()
    }
    fn power(&self, a: u64, b: u64) -> u64 {
        f64::from_bits(a).powf(f64::from_bits(b)).to_bits()
    }
    fn number(&self, i: i64) -> u64 {
        (i as f64).to_bits()
    }
    fn count(&self, c: usize) -> u64 {
        (c as f64).to_bits()
    }
    fn nearest(&self, a: u64) -> i64 {
        f64::from_bits(a).round_ties_even() as i64
    }
    fn cut(&self, a: u64) -> i64 {
        f64::from_bits(a) as i64
    }
    fn whole(&self, a: u64) -> usize {
        f64::from_bits(a) as usize
    }
}

fn words(numbers: &[f64]) -> Vec<u64> {
    numbers.iter().map(|x| x.to_bits()).collect()
}

fn numbers(words: &[u64]) -> Vec<f64> {
    words.iter().map(|w| f64::from_bits(*w)).collect()
}

fn grid(rows: &[&[f64]]) -> ValueGrid {
    let rows: Vec<Vec<u64>> = rows.iter().map(|row| words(row)).collect();
    match ValueGrid::from_rows(&rows) {
        Some(grid) => grid,
        None => panic!("rows of equal length"),
    }
}

fn matrix(rows: &[&[f64]]) -> Vec<Vec<u64>> {
    rows.iter().map(|row| words(row)).collect()
}

#[test]
fn words_are_told_apart() {
    assert!(word::is_nan(f64::NAN.to_bits()));
    assert!(word::is_nan((-f64::NAN).to_bits()));
    assert!(!word::is_nan(f64::INFINITY.to_bits()));
    assert!(!word::is_nan(0.0f64.to_bits()));
    assert!(word::is_finite(f64::MAX.to_bits()));
    assert!(word::is_finite(f64::MIN_POSITIVE.to_bits()));
    assert!(!word::is_finite(f64::NEG_INFINITY.to_bits()));
    assert!(!word::is_finite(f64::NAN.to_bits()));
}

#[test]
fn words_are_ordered_as_numbers_are() {
    let samples = [
        f64::NEG_INFINITY,
        f64::MIN,
        -1.5,
        -1.0,
        -f64::MIN_POSITIVE,
        -5e-324,
        -0.0,
        0.0,
        5e-324,
        f64::MIN_POSITIVE,
        1.0,
        1.0000000000000002,
        2.0,
        f64::MAX,
        f64::INFINITY,
        f64::NAN,
    ];
    for a in samples {
        for b in samples {
            assert_eq!(word::less(a.to_bits(), b.to_bits()), a < b);
            assert_eq!(word::equal(a.to_bits(), b.to_bits()), a == b);
        }
        assert_eq!(word::absolute(a.to_bits()), a.abs().to_bits());
        assert_eq!(word::negate(a.to_bits()), (-a).to_bits());
    }
}

#[test]
fn numbers_are_added_up() {
    assert_eq!(f64::from_bits(sum(&Binary64, &words(&[1.5, 2.25]))), 3.75);
    assert_eq!(f64::from_bits(sum(&Binary64, &[])), 0.0);
    // From left to right: the small number is lost first.
    let xs = words(&[1e16, 1.0, -1e16]);
    assert_eq!(f64::from_bits(sum(&Binary64, &xs)), 0.0);
}

#[test]
fn parts_and_shares_leave_the_rest() {
    assert_eq!(part_of(&Binary64, 0.5f64.to_bits(), 5), 2);
    assert_eq!(part_of(&Binary64, 0.0f64.to_bits(), 5), 0);
    assert_eq!(part_of(&Binary64, 0.999f64.to_bits(), 5), 4);
    assert_eq!(share_of(&Binary64, 0.75f64.to_bits(), 4), 3);
    assert_eq!(share_of(&Binary64, (-0.75f64).to_bits(), 4), -3);
}

#[test]
fn flat_positions_follow_row_major_order() {
    let strides = c_strides(&[2, 3, 4]);
    assert_eq!(strides, vec![12, 4, 1]);
    assert_eq!(c_strides(&[]), Vec::<i64>::new());
    assert_eq!(flat_index(&[1, 2, 3], &strides), 23);
    assert_eq!(flat_index_iter(vec![1i64, 0, 1].into_iter(), &strides), 13);
    assert_eq!(flat_lag(&[0, -1, 2], &strides), -2);
    assert_eq!(cell_count(&[2, 3, 4]), 24);
    assert_eq!(cell_count(&[]), 1);
    assert_eq!(cell_total(&[2, -3]), -6);
}

#[test]
fn cells_and_positions_match() {
    let shape = [2i64, 3, 4];
    let strides = c_strides(&shape);
    let mut seen = Vec::new();
    for pos in 0..24 {
        let coords = cell_at(&[0, 0, 0], &shape, &strides, pos);
        assert_eq!(flat_index(&coords, &strides), pos);
        assert!(!seen.contains(&coords));
        seen.push(coords);
    }
    assert_eq!(cell_at(&[10, 20, 30], &shape, &strides, 23), vec![11, 22, 33]);
}

#[test]
fn positions_shift_by_the_flat_lag_of_the_shift() {
    let strides = c_strides(&[5, 7]);
    let lag = flat_lag(&[2, -3], &strides);
    assert_eq!(flat_index(&[1, 4], &strides) as i64 + lag, flat_index(&[3, 1], &strides) as i64);
}

#[test]
fn grids_hold_their_rows() {
    let mut g = grid(&[&[1.0, 2.0, 3.0], &[4.0, 5.0, 6.0]]);
    assert_eq!(g.dim(), (2, 3));
    assert_eq!(f64::from_bits(g.at(1, 0)), 4.0);
    let copy = g.to_owned();
    g.put(1, 0, 9.0f64.to_bits());
    assert_eq!(f64::from_bits(g.at(1, 0)), 9.0);
    assert_eq!(f64::from_bits(g.at(1, 1)), 5.0);
    assert_eq!(f64::from_bits(g.at(0, 0)), 1.0);
    assert_eq!(f64::from_bits(copy.at(1, 0)), 4.0);
}

#[test]
fn ragged_rows_make_no_grid() {
    assert!(ValueGrid::from_rows(&[vec![1], vec![1, 2]]).is_none());
    let empty = ValueGrid::from_rows(&[]);
    assert!(empty.is_some());
    assert_eq!(empty.unwrap().dim(), (0, 0));
    let flat = ValueGrid::from_rows(&[vec![], vec![]]);
    assert_eq!(flat.unwrap().dim(), (2, 0));
}

#[test]
fn strict_window_reports_fallback_even_when_no_prefix_fits() {
    let lags = vec![vec![10_i64]];
    let (bounds, strict_fallback) = window_bounds(&lags, &[4], false);
    assert!(bounds.is_none());
    assert!(strict_fallback);

    let (bounds, strict_fallback) = window_bounds(&lags, &[4], true);
    assert!(bounds.is_none());
    assert!(!strict_fallback);
}

#[test]
fn windows_are_the_anchors_at_which_an_event_fits() {
    let lags = vec![vec![-1i64, 0], vec![2, 1], vec![0, 0]];
    let bounds = bounds_for_prefix(&lags, 3, &[6, 4]);
    assert_eq!(bounds, Some((vec![1, 0], vec![3, 2])));
    let (bounds, strict_fallback) = window_bounds(&lags, &[6, 4], false);
    assert_eq!(bounds, Some((vec![1, 0], vec![3, 2], 3)));
    assert!(!strict_fallback);
    // Exactly the anchors of the box keep every lag in the image.
    for a in 0..6i64 {
        for b in 0..4i64 {
            let fits = lags
                .iter()
                .all(|lag| 0 <= a + lag[0] && a + lag[0] < 6 && 0 <= b + lag[1] && b + lag[1] < 4);
            assert_eq!(fits, 1 <= a && a <= 3 && b <= 2);
        }
    }
}

#[test]
fn windows_keep_as_many_lags_as_fit() {
    // The third lag does not fit beside the first.
    let lags = vec![vec![-2i64], vec![1], vec![3], vec![1]];
    let (bounds, strict_fallback) = window_bounds(&lags, &[4], false);
    assert_eq!(bounds, Some((vec![2], vec![2], 2)));
    assert!(strict_fallback);
    let (bounds, strict_fallback) = window_bounds(&lags, &[4], true);
    assert_eq!(bounds, Some((vec![2], vec![2], 2)));
    assert!(!strict_fallback);
    assert_eq!(reach(&lags, 4, 0), (-2, 3));
    assert_eq!(reach(&lags, 0, 0), (0, 0));
}

#[test]
fn lags_that_lead_nowhere_fit_everywhere() {
    let (bounds, strict_fallback) = window_bounds(&[], &[4, 2], false);
    assert_eq!(bounds, Some((vec![0, 0], vec![3, 1], 0)));
    assert!(!strict_fallback);
    let lags = vec![vec![0i64]];
    assert_eq!(bounds_for_prefix(&lags, 1, &[0]), Some((vec![0], vec![-1])));
}

fn event(values: &[f64], conditioned: &[bool], lags: &[&[i64]], norms: &[f64]) -> Event {
    Event {
        values: words(values),
        conditioned: conditioned.to_vec(),
        lags: lags.iter().map(|lag| lag.to_vec()).collect(),
        lag_norms: words(norms),
    }
}

#[test]
fn transformed_event_keeps_first_duplicate_and_reduces_to_fit() {
    let mut e = event(
        &[5.0, 9.0, 12.0],
        &[true, false, false],
        &[&[0, 1], &[0, 2], &[10, 0]],
        &[1.0, 2.0, 10.0],
    );
    let collapsed = transform_and_reduce_event(
        &Binary64,
        &mut e,
        &matrix(&[&[1.0, 0.0], &[0.0, 0.1]]),
        &[4, 4],
    );
    assert_eq!(collapsed, 1);
    assert_eq!(e.lags, vec![vec![0, 0]]);
    assert_eq!(numbers(&e.values), vec![5.0]);
    assert_eq!(e.conditioned, vec![true]);
}

#[test]
fn transformed_lags_round_halves_to_even() {
    let mut e = event(
        &[1.0, 2.0, 3.0],
        &[false, false, false],
        &[&[1], &[3], &[5]],
        &[1.0, 3.0, 5.0],
    );
    // 0.5, 1.5 and 2.5 become 0, 2 and 2: the last two collapse.
    let collapsed = transform_and_reduce_event(&Binary64, &mut e, &matrix(&[&[0.5]]), &[9]);
    assert_eq!(collapsed, 1);
    assert_eq!(e.lags, vec![vec![0], vec![2]]);
    assert_eq!(numbers(&e.values), vec![1.0, 2.0]);
    assert_eq!(numbers(&e.lag_norms), vec![1.0, 3.0]);
}

#[test]
fn reduction_gives_up_the_farthest_lag_along_the_worst_axis() {
    // Along axis 0 the lags span 9 cells too many, along axis 1 only 2: the lag (-7, 0) is
    // farthest along axis 0. What is left spans 2 too many along both axes, so axis 0 comes
    // first again, and (5, 0) goes; then (0, 5) goes.
    let mut e = event(
        &[1.0, 2.0, 3.0, 4.0],
        &[false, true, false, true],
        &[&[5, 0], &[-7, 0], &[0, 5], &[1, 1]],
        &[5.0, 7.0, 5.0, 1.5],
    );
    let collapsed = transform_and_reduce_event(
        &Binary64,
        &mut e,
        &matrix(&[&[1.0, 0.0], &[0.0, 1.0]]),
        &[4, 4],
    );
    assert_eq!(collapsed, 0);
    assert_eq!(e.lags, vec![vec![1, 1]]);
    assert_eq!(numbers(&e.values), vec![4.0]);
    assert_eq!(e.conditioned, vec![true]);
    assert_eq!(numbers(&e.lag_norms), vec![1.5]);
}

#[test]
fn matrices_may_swap_axes() {
    let mut e = event(&[1.0, 2.0], &[false, false], &[&[1, 2], &[-1, 0]], &[2.2, 1.0]);
    let collapsed = transform_and_reduce_event(
        &Binary64,
        &mut e,
        &matrix(&[&[0.0, 1.0], &[1.0, 0.0]]),
        &[4, 4],
    );
    assert_eq!(collapsed, 0);
    assert_eq!(e.lags, vec![vec![2, 1], vec![0, -1]]);
}

#[test]
fn events_can_be_cut() {
    let mut e = event(&[1.0, 2.0], &[false, true], &[&[1], &[2]], &[1.0, 2.0]);
    e.truncate(5);
    assert_eq!(e.len(), 2);
    e.truncate(1);
    assert_eq!(e.len(), 1);
    assert_eq!(e.lags, vec![vec![1]]);
    assert_eq!(e.conditioned, vec![false]);
    assert_eq!(numbers(&e.lag_norms), vec![1.0]);
    assert_eq!(Event::empty().len(), 0);
}

#[test]
fn weights_decay_and_add_up_to_one() {
    let w = compute_node_weights(
        &Binary64,
        &words(&[0.0, 1.0, 2.0]),
        &[false, true, false],
        1.0f64.to_bits(),
        2.0f64.to_bits(),
    );
    // 1, 2 and 1/2 before they are scaled.
    assert_eq!(numbers(&w), vec![1.0 / 3.5, 2.0 / 3.5, 0.5 / 3.5]);
    let w = compute_node_weights(
        &Binary64,
        &words(&[3.0, 1.0]),
        &[false, false],
        0.0f64.to_bits(),
        2.0f64.to_bits(),
    );
    assert_eq!(numbers(&w), vec![0.5, 0.5]);
}

#[test]
fn weights_without_a_finite_sum_are_equal() {
    let w = compute_node_weights(
        &Binary64,
        &words(&[1.0, 2.0]),
        &[true, false],
        1.0f64.to_bits(),
        f64::INFINITY.to_bits(),
    );
    assert_eq!(numbers(&w), vec![0.5, 0.5]);
    let w = compute_node_weights(
        &Binary64,
        &words(&[1.0, 2.0]),
        &[true, true],
        1.0f64.to_bits(),
        0.0f64.to_bits(),
    );
    assert_eq!(numbers(&w), vec![0.0, 0.0]);
}

#[test]
fn means_skip_what_is_not_a_number() {
    let mean = nanmean(&Binary64, &words(&[1.0, f64::NAN, 4.0]));
    assert_eq!(mean.map(f64::from_bits), Some(2.5));
    assert_eq!(nanmean(&Binary64, &words(&[f64::NAN])), None);
    assert_eq!(nanmean(&Binary64, &[]), None);
}

#[test]
fn jointly_defined_cells_have_all_values() {
    let nan = f64::NAN;
    let ti = grid(&[&[1.0, nan, 3.0, 4.0], &[5.0, 6.0, nan, 8.0]]);
    assert!(is_incomplete(&ti));
    assert_eq!(jointly_defined(&ti, 4), vec![0, 3]);
    let whole = grid(&[&[1.0, 2.0]]);
    assert!(!is_incomplete(&whole));
    assert_eq!(jointly_defined(&whole, 2), vec![0, 1]);
}

#[test]
fn draws_pick_cells_by_coordinates_or_among_the_defined() {
    let shape = [3i64, 4];
    let strides = c_strides(&shape);
    let cell = fallback_flat(&Binary64, &words(&[0.5, 0.75]), &shape, &strides, &[], false);
    assert_eq!(cell, 7);
    let cell = fallback_flat(&Binary64, &words(&[0.5, 0.75]), &shape, &strides, &[2, 5, 9], true);
    assert_eq!(cell, 5);
    let cell = fallback_flat(&Binary64, &words(&[0.0, 0.99]), &shape, &strides, &[], false);
    assert_eq!(cell, 3);
    // Coordinates beyond an axis run on into the next row.
    let cell = fallback_flat(&Binary64, &words(&[0.5, 1.0]), &shape, &strides, &[], false);
    assert_eq!(cell, 8);
    let cell = fallback_flat(&Binary64, &words(&[0.5, -0.25]), &shape, &strides, &[], false);
    assert_eq!(cell, 3);
}

#[test]
fn sizes_are_multiplied_from_first_to_last() {
    assert_eq!(cell_total(&[2, 3, 4]), 24);
    assert_eq!(cell_total(&[]), 1);
    assert_eq!(cell_total(&[-2, 3]), -6);
    assert_eq!(cell_total(&[0, 1 << 62, 1 << 62]), 0);
}

#[test]
fn nodes_look_at_the_first_eligible_cells() {
    // A row of five cells; cell 0 is given; the path visits 2, 1, 3.
    let path = vec![vec![2i64], vec![1], vec![3]];
    let offsets = vec![vec![-1i64], vec![1], vec![-2], vec![2]];
    let conditioned = vec![vec![1u8, 0, 0, 0, 0]];
    let cache = build_neighbor_cache(
        &Binary64,
        &path,
        &[5],
        &offsets,
        &conditioned,
        &[2],
        &words(&[f64::NAN]),
    );
    let flats: Vec<Vec<usize>> = cache
        .iter()
        .map(|node| node.by_variable[0].iter().map(|n| n.flat).collect())
        .collect();
    // Node 0 may not look at cells 1 and 3, which come later; cell 4 has no node.
    assert_eq!(flats[0], vec![0, 4]);
    assert_eq!(flats[1], vec![0, 2]);
    assert_eq!(flats[2], vec![2, 4]);
    let levels: Vec<usize> = cache.iter().map(|node| node.level).collect();
    assert_eq!(levels, vec![0, 1, 1]);
    assert_eq!(cache[0].by_variable[0][1].lag, vec![2]);
}

#[test]
fn radii_and_limits_bound_what_a_node_looks_at() {
    let path = vec![vec![1i64, 1]];
    let offsets = vec![vec![0i64, 1], vec![1, 0], vec![1, 1], vec![0, -1]];
    let conditioned = vec![vec![0u8; 9]; 4];
    let cache = build_neighbor_cache(
        &Binary64,
        &path,
        &[3, 3],
        &offsets,
        &conditioned,
        &[9, 4, 1, 0],
        &words(&[1.0, 1.5, f64::INFINITY, f64::NAN]),
    );
    // The third offset is longer than 1, and ends the search of the first variable. The last
    // variable may look at no cell at all.
    let count: Vec<usize> = cache[0].by_variable.iter().map(|list| list.len()).collect();
    assert_eq!(count, vec![2, 4, 1, 0]);
    assert_eq!(f64::from_bits(squared_length(&Binary64, &vec![3, -4])), 25.0);
}

#[test]
fn a_limit_of_zero_leaves_nothing_to_look_at() {
    let cache = build_neighbor_cache(
        &Binary64,
        &[vec![1i64]],
        &[3],
        &[vec![-1i64], vec![1]],
        &[vec![1u8, 0, 1]],
        &[0],
        &words(&[f64::NAN]),
    );
    assert_eq!(cache.len(), 1);
    assert!(cache[0].by_variable[0].is_empty());
    assert_eq!(cache[0].level, 0);
}

#[test]
fn levels_rise_along_chains_of_dependence() {
    // Every node looks at its left neighbour only: each one waits for the one before.
    let path: Vec<Vec<i64>> = (0..5).map(|k| vec![k]).collect();
    let cache = build_neighbor_cache(
        &Binary64,
        &path,
        &[5],
        &[vec![-1i64]],
        &[vec![0u8; 5]],
        &[1],
        &words(&[f64::NAN]),
    );
    let levels: Vec<usize> = cache.iter().map(|node| node.level).collect();
    assert_eq!(levels, vec![0, 1, 2, 3, 4]);
    // From right to left there is nothing to wait for.
    let path: Vec<Vec<i64>> = (0..5).rev().map(|k| vec![k]).collect();
    let cache = build_neighbor_cache(
        &Binary64,
        &path,
        &[5],
        &[vec![-1i64]],
        &[vec![0u8; 5]],
        &[1],
        &words(&[f64::NAN]),
    );
    assert!(cache.iter().all(|node| node.level == 0));
    assert!(cache.iter().all(|node| node.by_variable[0].is_empty()));
}

#[test]
fn failures_are_told_in_words() {
    assert_eq!(nan_text(0, 90), "simulation produced NaN for variable 0 at flat node 90");
    assert_eq!(nan_text(123, 4567), "simulation produced NaN for variable 123 at flat node 4567");
    assert_eq!(pool_text(&"no more".to_string()), "could not build MPS Rayon pool: no more");
    assert_eq!(shape_text(), "inconsistent MPS simulation-engine array shapes");
    assert_eq!(undefined_text(), "training image has no jointly defined cell");
}

#[test]
fn reduced_events_have_no_lag_twice() {
    let mut e = event(
        &[1.0, 2.0, 3.0, 4.0],
        &[false; 4],
        &[&[1, 0], &[2, 0], &[0, 1], &[3, 0]],
        &[1.0, 2.0, 1.0, 3.0],
    );
    // Halved, the first lag collapses into the node, the others become (1, 0), (0, 0), (2, 0).
    let collapsed = transform_and_reduce_event(
        &Binary64,
        &mut e,
        &matrix(&[&[0.5, 0.0], &[0.0, 0.5]]),
        &[9, 9],
    );
    assert_eq!(collapsed, 1);
    assert_eq!(e.lags, vec![vec![0, 0], vec![1, 0], vec![2, 0]]);
    assert_eq!(numbers(&e.values), vec![1.0, 2.0, 4.0]);
}
