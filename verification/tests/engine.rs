use gstools_core::arithmetic::Arithmetic;
use gstools_core::grid::ValueGrid;
use gstools_core::image::{is_incomplete, jointly_defined};
use gstools_core::mps_engine::{
    run_in_pool, simulate, simulate_engine, thread_count, SimulationOutput,
};
use gstools_core::neighbors::build_neighbor_cache;
use gstools_core::node::simulate_node;
use gstools_core::pool::{open_pool, Pool};
use gstools_core::setup::{Metric, ScanRequest, Setup};

/// The operations of the machine on binary64 words.
struct Binary64;

impl Arithmetic for Binary64 {
    fn plus(&self, a: u64, b: u64) -> u64 {
        (f64::from_bits(a) + f64::from_bits(b)).to_bits()
    }
    fn minus(&self, a: u64, b: u64) -> u64 {
        (f64::from_bits(a) - f64::from_bits(b)).to_bits()
    }
    fn times(&self, a: u64, b: u64) -> u64 {
        (f64::from_bits(a) * f64::from_bits(b)).to_bits()
    }
    fn over(&self, a: u64, b: u64) -> u64 {
        (f64::from_bits(a) / f64::from_bits(b)).to_bits()
    }
    fn root(&self, a: u64) -> u64 {
        f64::from_bits(a).sqrt().to_bits()
    }
    fn power(&self, a: u64, b: u64) -> u64 {
        f64::from_bits(a).powf(f64::from_bits(b)).to_bits()
    }
    fn number(&self, i: i64) -> u64 {
        (i as f64).to_bits()
    }
    fn count(&self, c: usize) -> u64 {
        (c as f64).to_bits()
    }
    fn nearest(&self, a: u64) -> i64 {
        f64::from_bits(a).round_ties_even() as i64
    }
    fn cut(&self, a: u64) -> i64 {
        f64::from_bits(a) as i64
    }
    fn whole(&self, a: u64) -> usize {
        f64::from_bits(a) as usize
    }
}

fn words(numbers: &[f64]) -> Vec<u64> {
    numbers.iter().map(|x| x.to_bits()).collect()
}

fn matrix(rows: &[Vec<f64>]) -> Vec<Vec<u64>> {
    rows.iter().map(|row| words(row)).collect()
}

fn grid(rows: &[Vec<f64>]) -> ValueGrid {
    match ValueGrid::from_rows(&matrix(rows)) {
        Some(grid) => grid,
        None => panic!("rows of equal length"),
    }
}

/// Weighted sums of categorical, continuous and variation distances.
struct Distances;

impl Metric for Distances {
    fn distance(&self, ti: &ValueGrid, request: &ScanRequest, base: i64) -> u64 {
        if request.check_centers {
            for row in &request.target_rows {
                if f64::from_bits(ti.at(*row, base as usize)).is_nan() {
                    return f64::INFINITY.to_bits();
                }
            }
        }
        let mut total = 0.0;
        for (k, row) in request.active_rows.iter().enumerate() {
            let range = request.event_offsets[k]..request.event_offsets[k + 1];
            let event: Vec<(f64, f64, f64)> = range
                .map(|i| {
                    let cell = ti.at(*row, (base + request.lag_flat[i]) as usize);
                    (
                        f64::from_bits(request.de_sim[i]),
                        f64::from_bits(cell),
                        f64::from_bits(request.node_weights[i]),
                    )
                })
                .collect();
            let p = f64::from_bits(request.p_norm[k]);
            let d_max = f64::from_bits(request.d_max[k]);
            let count = event.len() as f64;
            let shift = match request.metric_kinds[k] {
                2 => event.iter().map(|(a, b, _)| a - b).sum::<f64>() / count,
                _ => 0.0,
            };
            let d = match request.metric_kinds[k] {
                0 => event.iter().map(|(a, b, w)| if a != b { *w } else { 0.0 }).sum::<f64>(),
                _ => event
                    .iter()
                    .map(|(a, b, w)| w * ((a - b - shift).abs() / d_max).powf(p))
                    .sum::<f64>()
                    .powf(1.0 / p),
            };
            total += f64::from_bits(request.variable_weights[k]) * d;
        }
        total.to_bits()
    }
}

/// A distance that is the same everywhere.
struct Flat(f64);

impl Metric for Flat {
    fn distance(&self, _ti: &ValueGrid, _request: &ScanRequest, _base: i64) -> u64 {
        self.0.to_bits()
    }
}

/// The inputs of a simulation of one variable.
#[derive(Clone)]
struct Inputs {
    ti: Vec<Vec<f64>>,
    ti_shape: Vec<i64>,
    initial: Vec<Vec<f64>>,
    conditioned: Vec<Vec<u8>>,
    sim_shape: Vec<i64>,
    path: Vec<Vec<i64>>,
    lag_matrices: Vec<Vec<Vec<f64>>>,
    u_start: Vec<f64>,
    u_fallback: Vec<Vec<f64>>,
    offsets: Vec<Vec<i64>>,
    n_neighbors: Vec<i64>,
    max_radius: Vec<f64>,
    variable_weights: Vec<f64>,
    metric_kinds: Vec<i64>,
    has_nan: Vec<u8>,
    d_max: Vec<f64>,
    p_norm: Vec<f64>,
    threshold: f64,
    scan_fraction: f64,
    distance_power: f64,
    cond_weight: f64,
    partial_boundary: bool,
}

impl Inputs {
    fn run_with<M: Metric + Sync>(
        &self,
        metric: &M,
        num_threads: usize,
    ) -> Result<SimulationOutput, String> {
        let matrices: Vec<Vec<Vec<u64>>> = self.lag_matrices.iter().map(|m| matrix(m)).collect();
        simulate_engine(
            &Binary64,
            metric,
            &grid(&self.ti),
            &self.ti_shape,
            &grid(&self.initial),
            &self.conditioned,
            &self.sim_shape,
            &self.path,
            &matrices,
            &words(&self.u_start),
            &matrix(&self.u_fallback),
            &self.offsets,
            &self.n_neighbors,
            &words(&self.max_radius),
            &words(&self.variable_weights),
            &self.metric_kinds,
            &self.has_nan,
            &words(&self.d_max),
            &words(&self.p_norm),
            self.threshold.to_bits(),
            self.scan_fraction.to_bits(),
            self.distance_power.to_bits(),
            self.cond_weight.to_bits(),
            self.partial_boundary,
            num_threads,
        )
    }

    fn run(&self, num_threads: usize) -> Result<SimulationOutput, String> {
        self.run_with(&Distances, num_threads)
    }
}

fn field(output: &SimulationOutput) -> Vec<Vec<f64>> {
    let (rows, columns) = output.fields.dim();
    (0..rows)
        .map(|v| (0..columns).map(|c| f64::from_bits(output.fields.at(v, c))).collect())
        .collect()
}

fn succeed(result: Result<SimulationOutput, String>) -> SimulationOutput {
    match result {
        Ok(output) => output,
        Err(text) => panic!("{}", text),
    }
}

fn fail(result: Result<SimulationOutput, String>) -> String {
    match result {
        Ok(_) => panic!("an error"),
        Err(text) => text,
    }
}

fn categorical_inputs() -> Inputs {
    Inputs {
        ti: vec![vec![0.0, 1.0, 1.0, 0.0]],
        ti_shape: vec![4],
        initial: vec![vec![0.0, f64::NAN, f64::NAN]],
        conditioned: vec![vec![1, 0, 0]],
        sim_shape: vec![3],
        path: vec![vec![1], vec![2]],
        lag_matrices: vec![],
        u_start: vec![0.0, 0.5],
        u_fallback: vec![vec![0.25], vec![0.75]],
        offsets: vec![vec![-1], vec![1]],
        n_neighbors: vec![1],
        max_radius: vec![f64::NAN],
        variable_weights: vec![1.0],
        metric_kinds: vec![0],
        has_nan: vec![0],
        d_max: vec![1.0],
        p_norm: vec![1.0],
        threshold: 0.0,
        scan_fraction: 1.0,
        distance_power: 0.0,
        cond_weight: 1.0,
        partial_boundary: false,
    }
}

#[test]
fn stationary_engine_preserves_conditioning_and_is_thread_independent() {
    let serial = succeed(categorical_inputs().run(1));
    let parallel = succeed(categorical_inputs().run(4));
    assert_eq!(field(&serial), field(&parallel));
    assert_eq!(field(&serial)[0][0], 0.0);
    assert!(field(&serial).iter().all(|row| row.iter().all(|x| x.is_finite())));
    assert_eq!(serial.level_count, parallel.level_count);
    assert_eq!(parallel.used_threads, 1);
}

#[test]
fn events_are_matched_and_centers_copied() {
    // Node 1 sees a 0 on its left. In the window of anchors 1 to 3, the first exact match is
    // anchor 1, with the value 1. Node 2 sees that 1; half of a window of three is position 1,
    // anchor 2, which has a 1 on its left, and the value 1.
    let output = succeed(categorical_inputs().run(1));
    assert_eq!(field(&output), vec![vec![0.0, 1.0, 1.0]]);
    assert_eq!(output.strict_fallback_count, 0);
    assert_eq!(output.collapsed_lag_count, 0);
    assert_eq!(output.level_count, 2);
    assert_eq!(output.max_ready_width, 1);
    assert_eq!(output.used_threads, 1);
}

#[test]
fn variation_retrieval_applies_mean_shift() {
    let inputs = Inputs {
        ti: vec![vec![10.0, 11.0, 20.0, 21.0]],
        ti_shape: vec![4],
        initial: vec![vec![5.0, f64::NAN]],
        conditioned: vec![vec![1, 0]],
        sim_shape: vec![2],
        path: vec![vec![1]],
        u_start: vec![0.0],
        u_fallback: vec![vec![0.0]],
        metric_kinds: vec![2],
        d_max: vec![11.0],
        p_norm: vec![2.0],
        threshold: 1.0,
        ..categorical_inputs()
    };
    let output = succeed(inputs.run(1));
    assert_eq!(field(&output)[0][1], 6.0);
}

#[test]
fn nodes_without_neighbours_copy_their_drawn_cell() {
    let inputs = Inputs {
        ti: vec![vec![7.0, 8.0, 9.0, 10.0]],
        initial: vec![vec![f64::NAN; 3]],
        conditioned: vec![vec![0; 3]],
        n_neighbors: vec![0],
        offsets: vec![],
        ..categorical_inputs()
    };
    let output = succeed(inputs.run(1));
    // A quarter and three quarters of four cells; cell 0 is not on the path.
    assert_eq!(field(&output)[0][1..], [8.0, 10.0]);
    assert!(field(&output)[0][0].is_nan());
    assert_eq!(output.level_count, 1);
    assert_eq!(output.max_ready_width, 2);
}

#[test]
fn draws_skip_cells_without_a_value() {
    let inputs = Inputs {
        ti: vec![vec![f64::NAN, 8.0, f64::NAN, 10.0]],
        initial: vec![vec![f64::NAN; 3]],
        conditioned: vec![vec![0; 3]],
        offsets: vec![],
        has_nan: vec![1],
        ..categorical_inputs()
    };
    let output = succeed(inputs.run(1));
    // The defined cells are 1 and 3.
    assert_eq!(field(&output)[0][1..], [8.0, 10.0]);
}

#[test]
fn events_that_fit_nowhere_are_cut_and_counted() {
    // The image has a single cell: no lag of one fits, and the node falls back.
    let inputs = Inputs {
        ti: vec![vec![4.0]],
        ti_shape: vec![1],
        ..categorical_inputs()
    };
    let output = succeed(inputs.run(1));
    assert_eq!(field(&output), vec![vec![0.0, 4.0, 4.0]]);
    assert_eq!(output.strict_fallback_count, 2);
    let lenient = Inputs { partial_boundary: true, ..inputs };
    let output = succeed(lenient.run(1));
    assert_eq!(field(&output), vec![vec![0.0, 4.0, 4.0]]);
    assert_eq!(output.strict_fallback_count, 0);
}

#[test]
fn events_are_cut_to_the_lags_that_fit() {
    // Both neighbours are known, but an image of two cells holds one of them only: the node
    // goes by the first. Of the anchors with a 3 on their left, it finds 1.
    let inputs = Inputs {
        ti: vec![vec![3.0, 5.0]],
        ti_shape: vec![2],
        initial: vec![vec![3.0, f64::NAN, 8.0]],
        conditioned: vec![vec![1, 0, 1]],
        path: vec![vec![1]],
        u_start: vec![0.0],
        u_fallback: vec![vec![0.0]],
        n_neighbors: vec![2],
        ..categorical_inputs()
    };
    let output = succeed(inputs.run(1));
    assert_eq!(field(&output), vec![vec![3.0, 5.0, 8.0]]);
    assert_eq!(output.strict_fallback_count, 1);
    let lenient = Inputs { partial_boundary: true, ..inputs };
    let output = succeed(lenient.run(1));
    assert_eq!(field(&output), vec![vec![3.0, 5.0, 8.0]]);
    assert_eq!(output.strict_fallback_count, 0);
}

#[test]
fn scans_without_a_finite_distance_fall_back() {
    let output = succeed(categorical_inputs().run_with(&Flat(f64::INFINITY), 1));
    // A quarter of four cells is cell 1, three quarters is cell 3.
    assert_eq!(field(&output), vec![vec![0.0, 1.0, 0.0]]);
    let output = succeed(categorical_inputs().run_with(&Flat(f64::NAN), 1));
    assert_eq!(field(&output), vec![vec![0.0, 1.0, 0.0]]);
}

#[test]
fn matrices_bring_lags_into_the_image() {
    // The matrix turns the lag to the left into a lag to the right.
    let inputs = Inputs {
        ti: vec![vec![5.0, 0.0, 6.0, 0.0]],
        path: vec![vec![1]],
        lag_matrices: vec![vec![vec![-1.0]]],
        u_start: vec![0.0],
        u_fallback: vec![vec![0.0]],
        ..categorical_inputs()
    };
    let output = succeed(inputs.run(1));
    assert_eq!(field(&output)[0][..2], [0.0, 5.0]);
    assert_eq!(output.collapsed_lag_count, 0);
    assert_eq!(output.strict_fallback_count, 0);
}

#[test]
fn matrices_may_collapse_lags() {
    // Both neighbours end up at the node itself: the second one is dropped.
    let inputs = Inputs {
        initial: vec![vec![1.0, f64::NAN, 7.0]],
        conditioned: vec![vec![1, 0, 1]],
        path: vec![vec![1]],
        lag_matrices: vec![vec![vec![0.0]]],
        u_start: vec![0.0],
        u_fallback: vec![vec![0.0]],
        n_neighbors: vec![2],
        ..categorical_inputs()
    };
    let output = succeed(inputs.run(1));
    assert_eq!(output.collapsed_lag_count, 1);
    assert_eq!(output.strict_fallback_count, 0);
    // The first cell of the image with a 1.
    assert_eq!(field(&output), vec![vec![1.0, 1.0, 7.0]]);
}

#[test]
fn mapped_events_are_reduced_instead_of_cut() {
    // Stretched by ten, no neighbour fits in the image: nothing is left to go by.
    let inputs = Inputs {
        path: vec![vec![1]],
        lag_matrices: vec![vec![vec![10.0]]],
        u_start: vec![0.0],
        u_fallback: vec![vec![0.5]],
        ..categorical_inputs()
    };
    let output = succeed(inputs.run(1));
    assert_eq!(output.strict_fallback_count, 0);
    assert_eq!(field(&output)[0][1], 1.0);
}

#[test]
fn known_values_of_other_variables_guide_the_scan() {
    // At node 1 the second variable is known: the anchor must have it at its center.
    let inputs = Inputs {
        ti: vec![vec![10.0, 20.0, 30.0, 40.0], vec![1.0, 2.0, 3.0, 4.0]],
        initial: vec![vec![f64::NAN; 3], vec![f64::NAN, 3.0, f64::NAN]],
        conditioned: vec![vec![0; 3], vec![0, 1, 0]],
        path: vec![vec![1]],
        u_start: vec![0.0],
        u_fallback: vec![vec![0.0]],
        offsets: vec![],
        n_neighbors: vec![0, 0],
        max_radius: vec![f64::NAN; 2],
        variable_weights: vec![0.5, 0.5],
        metric_kinds: vec![0, 0],
        has_nan: vec![0, 0],
        d_max: vec![1.0; 2],
        p_norm: vec![1.0; 2],
        ..categorical_inputs()
    };
    let output = succeed(inputs.run(1));
    assert_eq!(f64::from_bits(output.fields.at(0, 1)), 30.0);
    assert_eq!(f64::from_bits(output.fields.at(1, 1)), 3.0);
    assert!(f64::from_bits(output.fields.at(0, 0)).is_nan());
}

#[test]
fn variables_that_lack_a_value_are_filled_together() {
    let inputs = Inputs {
        ti: vec![vec![10.0, 20.0, 30.0, 40.0], vec![1.0, 2.0, 3.0, 4.0]],
        initial: vec![vec![10.0, f64::NAN, f64::NAN], vec![f64::NAN; 3]],
        conditioned: vec![vec![1, 0, 0], vec![0; 3]],
        path: vec![vec![1], vec![2]],
        n_neighbors: vec![1, 1],
        max_radius: vec![f64::NAN; 2],
        variable_weights: vec![1.0, 0.0],
        metric_kinds: vec![0, 0],
        has_nan: vec![0, 0],
        d_max: vec![1.0; 2],
        p_norm: vec![1.0; 2],
        u_start: vec![0.0, 0.0],
        ..categorical_inputs()
    };
    let output = succeed(inputs.run(1));
    assert_eq!(field(&output)[0], vec![10.0, 20.0, 30.0]);
    assert_eq!(field(&output)[1][1..], [2.0, 3.0]);
}

#[test]
fn scan_fractions_bound_the_candidates() {
    // The match is the last of three anchors; a budget of a quarter of four cells is one
    // candidate, and the first one wins.
    let inputs = Inputs {
        ti: vec![vec![1.0, 1.0, 0.0, 9.0]],
        path: vec![vec![1]],
        u_start: vec![0.0],
        u_fallback: vec![vec![0.0]],
        scan_fraction: 0.25,
        ..categorical_inputs()
    };
    assert_eq!(field(&succeed(inputs.run(1)))[0][1], 1.0);
    let thorough = Inputs { scan_fraction: 1.0, ..inputs.clone() };
    assert_eq!(field(&succeed(thorough.run(1)))[0][1], 9.0);
    // At least one candidate is looked at.
    let hasty = Inputs { scan_fraction: 0.0, ..inputs };
    assert_eq!(field(&succeed(hasty.run(1)))[0][1], 1.0);
}

#[test]
fn inputs_that_do_not_match_are_refused() {
    let message = "inconsistent MPS simulation-engine array shapes";
    let good = categorical_inputs();
    let bad = vec![
        Inputs { ti: vec![], ..good.clone() },
        Inputs { ti_shape: vec![5], ..good.clone() },
        Inputs { ti_shape: vec![-4], ..good.clone() },
        Inputs { sim_shape: vec![4], ..good.clone() },
        Inputs { initial: vec![vec![0.0, 1.0]], ..good.clone() },
        Inputs { conditioned: vec![vec![1, 0]], ..good.clone() },
        Inputs { conditioned: vec![], ..good.clone() },
        Inputs { path: vec![vec![1], vec![2, 0]], ..good.clone() },
        Inputs { lag_matrices: vec![vec![vec![1.0]]], ..good.clone() },
        Inputs { lag_matrices: vec![vec![vec![1.0, 0.0]]; 2], ..good.clone() },
        Inputs { u_start: vec![0.0], ..good.clone() },
        Inputs { u_fallback: vec![vec![0.0]], ..good.clone() },
        Inputs { u_fallback: vec![vec![0.0, 0.0]; 2], ..good.clone() },
        Inputs { offsets: vec![vec![1, 1]], ..good.clone() },
        Inputs { n_neighbors: vec![], ..good.clone() },
        Inputs { max_radius: vec![1.0, 1.0], ..good.clone() },
        Inputs { variable_weights: vec![], ..good.clone() },
        Inputs { metric_kinds: vec![], ..good.clone() },
        Inputs { has_nan: vec![], ..good.clone() },
        Inputs { d_max: vec![], ..good.clone() },
        Inputs { p_norm: vec![], ..good.clone() },
    ];
    for inputs in bad {
        assert_eq!(fail(inputs.run(1)), message);
    }
    assert!(good.run(1).is_ok());
}

#[test]
fn images_without_a_defined_cell_are_refused() {
    let inputs = Inputs { ti: vec![vec![f64::NAN; 4]], ..categorical_inputs() };
    assert_eq!(fail(inputs.run(1)), "training image has no jointly defined cell");
}

#[test]
fn values_that_are_no_numbers_end_the_simulation() {
    // The distance does not mind the gap in the image, so node 1 receives it.
    let inputs = Inputs {
        ti: vec![vec![0.0, f64::NAN, 1.0, 0.0]],
        path: vec![vec![1]],
        u_start: vec![0.0],
        u_fallback: vec![vec![0.0]],
        ..categorical_inputs()
    };
    assert_eq!(
        fail(inputs.run_with(&Flat(0.0), 1)),
        "simulation produced NaN for variable 0 at flat node 1"
    );
    // The general distance does mind it.
    assert!(inputs.run(1).is_ok());
}

#[test]
fn messages_spell_out_large_numbers() {
    let cells = 1205;
    let mut initial = vec![vec![0.0; cells]; 12];
    initial[11][1203] = f64::NAN;
    let mut ti = vec![vec![0.0; 2]; 12];
    ti[11] = vec![f64::NAN, 1.0];
    let inputs = Inputs {
        ti,
        ti_shape: vec![2],
        initial,
        conditioned: vec![vec![0; cells]; 12],
        sim_shape: vec![cells as i64],
        path: vec![vec![1203]],
        u_start: vec![0.0],
        u_fallback: vec![vec![0.0]],
        offsets: vec![],
        n_neighbors: vec![0; 12],
        max_radius: vec![f64::NAN; 12],
        variable_weights: vec![1.0; 12],
        metric_kinds: vec![0; 12],
        has_nan: vec![0; 12],
        d_max: vec![1.0; 12],
        p_norm: vec![1.0; 12],
        ..categorical_inputs()
    };
    assert_eq!(
        fail(inputs.run_with(&Flat(0.0), 1)),
        "simulation produced NaN for variable 11 at flat node 1203"
    );
}

#[test]
fn empty_paths_leave_everything_as_it_is() {
    let inputs = Inputs {
        path: vec![],
        u_start: vec![],
        u_fallback: vec![],
        ..categorical_inputs()
    };
    let output = succeed(inputs.run(8));
    assert_eq!(output.level_count, 0);
    assert_eq!(output.max_ready_width, 0);
    assert_eq!(output.used_threads, 1);
    assert_eq!(field(&output)[0][0], 0.0);
    assert!(field(&output)[0][1].is_nan());
}

/// A plane of `side * side` cells, visited in a scattered order.
fn plane(side: i64, variation: bool) -> Inputs {
    let cells = side * side;
    let ti_side = 12;
    let ti: Vec<f64> = (0..ti_side * ti_side)
        .map(|k| ((k * 7 + k / ti_side * 3) % 11) as f64 / 4.0)
        .collect();
    let mut initial = vec![f64::NAN; cells as usize];
    let mut conditioned = vec![0u8; cells as usize];
    for k in 0..cells {
        if k % 17 == 3 {
            initial[k as usize] = (k % 5) as f64 / 2.0;
            conditioned[k as usize] = 1;
        }
    }
    let mut path = Vec::new();
    let step = 331;
    for k in 0..cells {
        let cell = (k * step) % cells;
        if conditioned[cell as usize] == 0 {
            path.push(vec![cell / side, cell % side]);
        }
    }
    let nodes = path.len();
    let uniform = |k: usize, m: usize| (k * m % 97) as f64 / 97.0;
    Inputs {
        ti: vec![ti],
        ti_shape: vec![ti_side, ti_side],
        initial: vec![initial],
        conditioned: vec![conditioned],
        sim_shape: vec![side, side],
        path,
        lag_matrices: vec![],
        u_start: (0..nodes).map(|k| uniform(k, 31)).collect(),
        u_fallback: (0..nodes).map(|k| vec![uniform(k, 13), uniform(k, 57)]).collect(),
        offsets: vec![
            vec![0, -1],
            vec![0, 1],
            vec![-1, 0],
            vec![1, 0],
            vec![-1, -1],
            vec![1, 1],
            vec![2, 0],
            vec![0, -2],
        ],
        n_neighbors: vec![4],
        max_radius: vec![1.5],
        variable_weights: vec![1.0],
        metric_kinds: vec![if variation { 2 } else { 1 }],
        has_nan: vec![0],
        d_max: vec![2.5],
        p_norm: vec![2.0],
        threshold: 0.05,
        scan_fraction: 0.5,
        distance_power: 1.0,
        cond_weight: 3.0,
        partial_boundary: false,
    }
}

#[test]
fn long_paths_run_on_threads_with_the_same_outcome() {
    for variation in [false, true] {
        let inputs = plane(26, variation);
        assert!(inputs.path.len() >= 512);
        let serial = succeed(inputs.run(1));
        let parallel = succeed(inputs.run(4));
        assert_eq!(serial.used_threads, 1);
        assert_eq!(parallel.used_threads, 4);
        assert_eq!(field(&serial), field(&parallel));
        assert_eq!(serial.strict_fallback_count, parallel.strict_fallback_count);
        assert_eq!(serial.collapsed_lag_count, parallel.collapsed_lag_count);
        assert_eq!(serial.level_count, parallel.level_count);
        assert_eq!(serial.max_ready_width, parallel.max_ready_width);
        assert!(serial.level_count > 1 && serial.max_ready_width > 1);
        // Given values are kept, and every node has a value.
        for (c, x) in inputs.initial[0].iter().enumerate() {
            let y = field(&parallel)[0][c];
            assert!(!y.is_nan());
            assert!(x.is_nan() || *x == y);
        }
    }
}

#[test]
fn short_paths_do_not_run_on_threads() {
    let inputs = plane(23, false);
    assert!(inputs.path.len() < 512);
    assert_eq!(succeed(inputs.run(4)).used_threads, 1);
}

#[test]
fn levels_give_what_the_path_gives_node_by_node() {
    let inputs = plane(14, true);
    let output = succeed(inputs.run(1));
    let ti = grid(&inputs.ti);
    let mut fields = grid(&inputs.initial);
    let cells = jointly_defined(&ti, 144);
    let has_nan = is_incomplete(&ti);
    assert!(!has_nan);
    let u_fallback = matrix(&inputs.u_fallback);
    let max_radius = words(&inputs.max_radius);
    let u_start = words(&inputs.u_start);
    let variable_weights = words(&inputs.variable_weights);
    let d_max = words(&inputs.d_max);
    let p_norm = words(&inputs.p_norm);
    let setup = Setup {
        arithmetic: &Binary64,
        metric: &Distances,
        ti: &ti,
        ti_shape: &inputs.ti_shape,
        conditioned: &inputs.conditioned,
        sim_shape: &inputs.sim_shape,
        path: &inputs.path,
        lag_matrices: &[],
        u_start: &u_start,
        u_fallback: &u_fallback,
        offsets: &inputs.offsets,
        n_neighbors: &inputs.n_neighbors,
        max_radius: &max_radius,
        variable_weights: &variable_weights,
        metric_kinds: &inputs.metric_kinds,
        has_nan: &inputs.has_nan,
        d_max: &d_max,
        p_norm: &p_norm,
        threshold: inputs.threshold.to_bits(),
        scan_fraction: inputs.scan_fraction.to_bits(),
        distance_power: inputs.distance_power.to_bits(),
        cond_weight: inputs.cond_weight.to_bits(),
        partial_boundary: inputs.partial_boundary,
    };
    let cache = build_neighbor_cache(
        &Binary64,
        &inputs.path,
        &inputs.sim_shape,
        &inputs.offsets,
        &inputs.conditioned,
        &inputs.n_neighbors,
        &max_radius,
    );
    let mut strict = 0;
    let mut collapsed = 0;
    for node in 0..inputs.path.len() {
        let result = simulate_node(&setup, node, &cache[node], &fields, &cells, has_nan);
        strict += result.strict_fallback_count;
        collapsed += result.collapsed_lag_count;
        for (variable, value) in result.values {
            fields.put(variable, result.flat, value);
        }
    }
    let (rows, columns) = fields.dim();
    for v in 0..rows {
        for c in 0..columns {
            assert_eq!(fields.at(v, c), output.fields.at(v, c));
        }
    }
    assert_eq!(strict, output.strict_fallback_count);
    assert_eq!(collapsed, output.collapsed_lag_count);
    // The setup leads to the same simulation.
    let again = succeed(simulate(&setup, &grid(&inputs.initial), 1));
    assert_eq!(field(&again), field(&output));
}

#[test]
fn cells_visited_twice_keep_the_later_value() {
    // Both visits see nothing, belong to one level, and are written in the order of the path.
    let inputs = Inputs {
        ti: vec![vec![7.0, 8.0, 9.0, 10.0]],
        initial: vec![vec![f64::NAN; 3]],
        conditioned: vec![vec![0; 3]],
        path: vec![vec![1], vec![1]],
        offsets: vec![],
        ..categorical_inputs()
    };
    let output = succeed(inputs.run(1));
    assert_eq!(output.level_count, 1);
    assert_eq!(output.max_ready_width, 2);
    assert_eq!(field(&output)[0][1], 10.0);
}

#[test]
fn copies_are_values_of_the_image() {
    let inputs = plane(20, false);
    let output = succeed(inputs.run(1));
    for node in &inputs.path {
        let value = field(&output)[0][(node[0] * 20 + node[1]) as usize];
        assert!(inputs.ti[0].contains(&value));
    }
}

#[test]
fn copies_from_complete_images_succeed_whatever_the_distance() {
    for d in [0.0, 1.0, -1.0, f64::INFINITY, f64::NAN] {
        let output = succeed(categorical_inputs().run_with(&Flat(d), 1));
        assert!(field(&output)[0].iter().all(|x| *x == 0.0 || *x == 1.0));
    }
}

#[test]
fn half_of_the_image_is_scanned_and_not_half_of_the_window() {
    // The window has three anchors, the image four cells: half of the image is two candidates.
    let inputs = Inputs {
        ti: vec![vec![7.0, 9.0, 5.0, 6.0]],
        initial: vec![vec![9.0, f64::NAN]],
        conditioned: vec![vec![1, 0]],
        sim_shape: vec![2],
        path: vec![vec![1]],
        u_start: vec![0.0],
        u_fallback: vec![vec![0.0]],
        scan_fraction: 0.5,
        ..categorical_inputs()
    };
    assert_eq!(field(&succeed(inputs.run(1))), vec![vec![9.0, 5.0]]);
}

#[test]
fn numbers_are_read_only_where_a_node_falls_back() {
    // Both nodes find a match, so that it does not matter where their numbers lead.
    let inputs = Inputs {
        u_fallback: vec![vec![7.0], vec![-7.0]],
        ..categorical_inputs()
    };
    assert_eq!(field(&succeed(inputs.run(1))), vec![vec![0.0, 1.0, 1.0]]);
}

#[test]
fn empty_images_serve_nodes_that_lack_nothing() {
    let inputs = Inputs {
        ti: vec![vec![]],
        ti_shape: vec![0],
        initial: vec![vec![0.0, 1.0, 2.0]],
        ..categorical_inputs()
    };
    assert_eq!(field(&succeed(inputs.run(1))), vec![vec![0.0, 1.0, 2.0]]);
}

#[test]
fn failures_do_not_depend_on_threads() {
    let mut inputs = plane(26, false);
    for cell in (0..144).step_by(2) {
        inputs.ti[0][cell] = f64::NAN;
    }
    let serial = fail(inputs.run_with(&Flat(0.0), 1));
    let parallel = fail(inputs.run_with(&Flat(0.0), 4));
    assert_eq!(serial, parallel);
    assert!(serial.starts_with("simulation produced NaN for variable 0 at flat node "));
}

#[test]
fn an_event_size_of_zero_leaves_only_the_draw() {
    let inputs = Inputs { n_neighbors: vec![0], ..categorical_inputs() };
    let output = succeed(inputs.run(1));
    // A quarter and three quarters of four cells.
    assert_eq!(field(&output), vec![vec![0.0, 1.0, 0.0]]);
    assert_eq!(output.level_count, 1);
}

#[test]
fn nodes_depend_on_no_cell_that_they_do_not_read() {
    let inputs = Inputs { offsets: vec![vec![-1]], ..categorical_inputs() };
    let ti = grid(&inputs.ti);
    let cells = jointly_defined(&ti, 4);
    let u_start = words(&inputs.u_start);
    let u_fallback = matrix(&inputs.u_fallback);
    let max_radius = words(&inputs.max_radius);
    let one = words(&[1.0]);
    let setup = Setup {
        arithmetic: &Binary64,
        metric: &Distances,
        ti: &ti,
        ti_shape: &inputs.ti_shape,
        conditioned: &inputs.conditioned,
        sim_shape: &inputs.sim_shape,
        path: &inputs.path,
        lag_matrices: &[],
        u_start: &u_start,
        u_fallback: &u_fallback,
        offsets: &inputs.offsets,
        n_neighbors: &inputs.n_neighbors,
        max_radius: &max_radius,
        variable_weights: &one,
        metric_kinds: &inputs.metric_kinds,
        has_nan: &inputs.has_nan,
        d_max: &one,
        p_norm: &one,
        threshold: 0.0f64.to_bits(),
        scan_fraction: 1.0f64.to_bits(),
        distance_power: 0.0f64.to_bits(),
        cond_weight: 1.0f64.to_bits(),
        partial_boundary: false,
    };
    let cache = build_neighbor_cache(
        &Binary64,
        &inputs.path,
        &inputs.sim_shape,
        &inputs.offsets,
        &inputs.conditioned,
        &inputs.n_neighbors,
        &max_radius,
    );
    // Node 0 lies at cell 1 and looks at cell 0; cell 2 does not matter.
    for other in [f64::NAN, 0.0, 1.0] {
        let fields = grid(&[vec![0.0, f64::NAN, other]]);
        let result = simulate_node(&setup, 0, &cache[0], &fields, &cells, false);
        assert_eq!(result.flat, 1);
        assert_eq!(result.values, vec![(0, 1.0f64.to_bits())]);
        assert_eq!(result.strict_fallback_count, 0);
        assert_eq!(result.collapsed_lag_count, 0);
    }
}

fn run_on(
    inputs: &Inputs,
    num_threads: usize,
    pool: Result<Option<Pool>, rayon::ThreadPoolBuildError>,
) -> Result<SimulationOutput, String> {
    let ti = grid(&inputs.ti);
    let setup = Setup {
        arithmetic: &Binary64,
        metric: &Distances,
        ti: &ti,
        ti_shape: &inputs.ti_shape,
        conditioned: &inputs.conditioned,
        sim_shape: &inputs.sim_shape,
        path: &inputs.path,
        lag_matrices: &[],
        u_start: &words(&inputs.u_start),
        u_fallback: &matrix(&inputs.u_fallback),
        offsets: &inputs.offsets,
        n_neighbors: &inputs.n_neighbors,
        max_radius: &words(&inputs.max_radius),
        variable_weights: &words(&inputs.variable_weights),
        metric_kinds: &inputs.metric_kinds,
        has_nan: &inputs.has_nan,
        d_max: &words(&inputs.d_max),
        p_norm: &words(&inputs.p_norm),
        threshold: inputs.threshold.to_bits(),
        scan_fraction: inputs.scan_fraction.to_bits(),
        distance_power: inputs.distance_power.to_bits(),
        cond_weight: inputs.cond_weight.to_bits(),
        partial_boundary: inputs.partial_boundary,
    };
    let cells = jointly_defined(&ti, ti.dim().1);
    run_in_pool(&setup, &grid(&inputs.initial), num_threads, pool, &cells, is_incomplete(&ti))
}

#[test]
fn threads_are_counted_by_the_length_of_the_path() {
    assert_eq!(thread_count(4, 512), 4);
    assert_eq!(thread_count(4, 511), 1);
    assert_eq!(thread_count(1, 9999), 1);
    assert_eq!(thread_count(0, 9999), 1);
}

#[test]
fn pools_have_the_threads_that_were_asked_for() {
    assert!(matches!(open_pool(1), Ok(None)));
    match open_pool(3) {
        Ok(Some(pool)) => {
            assert_eq!(pool.asked, 3);
            assert_eq!(pool.threads.current_num_threads(), 3);
        }
        _ => panic!("three threads"),
    }
}

#[test]
fn simulations_run_on_the_pool_that_they_are_given() {
    let inputs = plane(26, false);
    let output = succeed(run_on(&inputs, 3, open_pool(3)));
    assert_eq!(output.used_threads, 3);
    assert_eq!(field(&output), field(&succeed(inputs.run(1))));
}

#[test]
fn simulations_fail_where_threads_cannot_be_had() {
    // The threads that all share can be set up only once.
    let _ = rayon::ThreadPoolBuilder::new().num_threads(1).build_global();
    let error = match rayon::ThreadPoolBuilder::new().num_threads(1).build_global() {
        Ok(()) => panic!("an error"),
        Err(error) => error,
    };
    let reason = error.to_string();
    assert_eq!(
        fail(run_on(&plane(26, false), 3, Err(error))),
        format!("could not build MPS Rayon pool: {}", reason)
    );
}
