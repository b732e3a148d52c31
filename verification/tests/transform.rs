//! Configuration, readings off a result, and what holds of the transform as a
//! whole, on small blocks.

use rustfft::num_complex::Complex64;
use rustfft::{Fft, FftPlanner};
use scattering::arithmetic::{Arithmetic, Binary, Relation, Unary};
use scattering::fft::{Direction, Engine, Plans};
use scattering::units::{Dimension, Units};
use scattering::{synth, Complex, ConfigError, Coverage, Scattergram, Scattering};
use std::cell::RefCell;
use std::sync::Arc;

type Cf64 = Complex<f64>;
type Config = scattering::Config<f64>;

const FS: f64 = 65536.0;
const N: usize = 4096;

/// The arithmetic of the machine.
struct Ieee;

impl Arithmetic<f64> for Ieee {
    fn number(&self, n: u64) -> f64 {
        n as f64
    }

    fn pi(&self) -> f64 {
        std::f64::consts::PI
    }

    fn unary(&self, op: Unary, x: f64) -> f64 {
        match op {
            Unary::Negate => -x,
            Unary::Magnitude => x.abs(),
            Unary::SquareRoot => x.sqrt(),
            Unary::Exponential => x.exp(),
            Unary::Logarithm => x.ln(),
            Unary::Sine => x.sin(),
            Unary::Cosine => x.cos(),
            Unary::Round => x.round(),
            Unary::Ceiling => x.ceil(),
        }
    }

    fn binary(&self, op: Binary, x: f64, y: f64) -> f64 {
        match op {
            Binary::Plus => x + y,
            Binary::Minus => x - y,
            Binary::Times => x * y,
            Binary::Over => x / y,
            Binary::Larger => x.max(y),
            Binary::Smaller => x.min(y),
            Binary::Power => x.powf(y),
            Binary::Hypotenuse => x.hypot(y),
            Binary::Remainder => x % y,
            Binary::Wrap => x.rem_euclid(y),
        }
    }

    fn relates(&self, relation: Relation, x: f64, y: f64) -> bool {
        match relation {
            Relation::Below => x < y,
            Relation::AtMost => x <= y,
        }
    }

    fn whole(&self, x: f64) -> usize {
        x as usize
    }
}

/// Transforms by `rustfft`.
struct Planner(RefCell<FftPlanner<f64>>);

impl Engine<f64, Arc<dyn Fft<f64>>> for Planner {
    fn plan(&self, direction: Direction, n: usize) -> Arc<dyn Fft<f64>> {
        match direction {
            Direction::Forward => self.0.borrow_mut().plan_fft_forward(n),
            Direction::Inverse => self.0.borrow_mut().plan_fft_inverse(n),
        }
    }

    fn process(&self, plan: &Arc<dyn Fft<f64>>, buf: Vec<Cf64>) -> Vec<Cf64> {
        let mut work: Vec<Complex64> = buf.iter().map(|v| Complex64::new(v.re, v.im)).collect();
        plan.process(&mut work);
        work.iter().map(|v| Complex::new(v.re, v.im)).collect()
    }
}

fn plans() -> Plans<Arc<dyn Fft<f64>>, Planner> {
    Plans::new(Planner(RefCell::new(FftPlanner::new())))
}

fn config() -> Config {
    Config {
        octaves1: 4.0,
        octaves2: 4.0,
        max_mod_hz: 2000.0,
        invariance_s: 0.002,
        ..Config::for_iq(&Ieee, FS)
    }
}

fn analyser() -> Scattering<f64> {
    assert_eq!(config().check(&Ieee, N), Ok(()));
    Scattering::new(&Ieee, config(), N)
}

fn signal() -> Vec<Cf64> {
    let mut x = synth::am(&Ieee, N, FS, 9_000.0, 400.0, 0.5, 1.0);
    synth::add_noise(&Ieee, &mut x, 0.05, 5);
    x
}

#[test]
fn defaults_are_those_of_an_iq_stream() {
    let c = Config::for_iq(&Ieee, 2.4e6);
    assert_eq!((c.fs, c.q1, c.octaves1, c.xi1_max), (2.4e6, 8.0, 6.0, 0.4));
    assert_eq!((c.q2, c.octaves2, c.max_mod_hz, c.invariance_s), (4.0, 6.0, 10_000.0, 0.005));
    assert!(c.complex_input && c.order2 && c.subband);
    let r = Config::for_real(&Ieee, 48e3);
    assert_eq!((r.fs, r.q1, r.octaves1, r.xi1_max), (48e3, 8.0, 6.0, 0.4));
    assert_eq!((r.q2, r.octaves2, r.max_mod_hz, r.invariance_s), (4.0, 6.0, 10_000.0, 0.005));
    assert!(!r.complex_input && r.order2 && r.subband);
}

#[test]
fn unsatisfiable_configurations_say_why() {
    let c = config();
    assert_eq!(c.check(&Ieee, N), Ok(()));
    assert_eq!(c.check(&Ieee, 0), Err(ConfigError::BlockLength));
    assert_eq!(c.check(&Ieee, 3 * N), Err(ConfigError::BlockLength));
    for max_mod_hz in [0.0, -1.0, FS / 2.0, FS, f64::NAN] {
        let c = Config { max_mod_hz, ..c };
        assert_eq!(c.check(&Ieee, N), Err(ConfigError::ModulationRate));
    }
    // Twelve times the window has to fit in the block.
    let window = N as f64 / 12.0 / FS;
    assert_eq!(Config { invariance_s: 1.001 * window, ..c }.check(&Ieee, N), Err(ConfigError::Invariance));
    assert_eq!(Config { invariance_s: 0.999 * window, ..c }.check(&Ieee, N), Ok(()));
    assert_eq!(Config { octaves1: 0.0, ..c }.check(&Ieee, N), Err(ConfigError::CarrierBank));
    assert_eq!(Config { octaves2: 0.0, ..c }.check(&Ieee, N), Err(ConfigError::ModulationBank));
}

#[test]
fn geometry_is_that_of_the_configuration() {
    let sa = analyser();
    assert_eq!(sa.block_len(), N);
    // 0.25 * 65536 / 2000 = 8.192
    assert_eq!(sa.geometry().d1, 8);
    assert_eq!(sa.geometry().d1 * sa.geometry().d2 * sa.geometry().n_out, N);
    assert_eq!(sa.out_rate_hz(&Ieee), FS / (sa.geometry().d1 * sa.geometry().d2) as f64);
    let cov = sa.coverage(&Ieee);
    assert_eq!(cov.block_s, N as f64 / FS);
    assert_eq!(cov.out_rate_hz, sa.out_rate_hz(&Ieee));
    assert_eq!(cov.max_carrier_hz, 0.4 * FS);
    assert!((cov.max_mod_hz - 2000.0).abs() < 1e-9);
    let (l1, l2) = (sa.lambda1_hz(&Ieee), sa.lambda2_hz(&Ieee));
    assert!(l1.windows(2).all(|w| w[0] < w[1]));
    assert!(l2.windows(2).all(|w| w[0] < w[1]));
    assert_eq!(cov.min_mod_hz, l2[0]);
    assert_eq!(cov.min_carrier_hz, l1.iter().fold(f64::INFINITY, |a, v| a.min(v.abs())));
}

#[test]
fn real_input_needs_one_side_only() {
    let two = analyser();
    let one = Scattering::new(&Ieee, Config { complex_input: false, ..config() }, N);
    assert_eq!(2 * one.lambda1_hz(&Ieee).len(), two.lambda1_hz(&Ieee).len());
    assert!(one.lambda1_hz(&Ieee).iter().all(|&f| f > 0.0));
}

#[test]
fn block_length_rounds_up_to_a_power_of_two() {
    let c = Config { octaves2: 8.0, ..config() };
    let n = c.block_len_for(&Ieee, 100.0).unwrap();
    assert!(n.is_power_of_two());
    assert!(Scattering::new(&Ieee, c, n).coverage(&Ieee).min_mod_hz <= 100.0);
    // A rate below all that is asked for is not reached by any doubling.
    let never = config().block_len_for(&Ieee, 100.0).unwrap();
    assert!(never.is_power_of_two() && never >= 256 * 1024);
    // Where the averaging window is the longer constraint, it decides.
    let slow = Config { invariance_s: 1.0, ..c };
    assert_eq!(slow.block_len_for(&Ieee, 1000.0), Some(1 << 20));
    // A rate of zero takes more samples than can be counted.
    assert_eq!(c.block_len_for(&Ieee, 0.0), None);
}

#[test]
fn first_order_only_leaves_the_second_empty() {
    let sa = Scattering::new(&Ieee, Config { order2: false, ..config() }, N);
    let out = sa.analyse(&Ieee, &mut plans(), &signal());
    assert_eq!(out.s1.len(), out.lambda1_hz.len());
    assert!(out.s2.is_empty());
    assert!(out.modulation_depth(&Ieee).is_empty());
    assert_eq!(out.modulation_peak(&Ieee, 0), None);
    assert!(out.peak_lambda1(&Ieee).is_some());
    // And changes nothing else.
    let both = analyser().analyse(&Ieee, &mut plans(), &signal());
    assert_eq!(out.s0, both.s0);
    assert_eq!(out.s1, both.s1);
    assert_eq!(out.edge_margin_s, both.edge_margin_s);
}

/// Bands done apart, each with plans of its own, are those of the whole.
#[test]
fn bands_are_independent() {
    let sa = analyser();
    let x = signal();
    let whole = sa.analyse(&Ieee, &mut plans(), &x);
    let (s0, spectrum) = sa.prepare(&Ieee, &mut plans(), &x);
    let mut per_band = Vec::new();
    for i in (0..sa.geometry().bank1.wavelets.len()).rev() {
        per_band.push(sa.analyse_band(&Ieee, &mut plans(), i, &spectrum));
    }
    per_band.reverse();
    let apart = sa.assemble(&Ieee, s0, per_band);
    assert_eq!(apart.s0, whole.s0);
    assert_eq!(apart.s1, whole.s1);
    assert_eq!(apart.s2, whole.s2);
    assert_eq!(apart.lambda1_hz, whole.lambda1_hz);
    assert_eq!(apart.edge_margin_s, whole.edge_margin_s);
}

/// An envelope cannot fluctuate faster than its band is wide: pairs beyond that
/// are exactly zero.
#[test]
fn pairs_that_cannot_exist_are_zero() {
    let sa = analyser();
    let out = sa.analyse(&Ieee, &mut plans(), &signal());
    let fs1 = FS / sa.geometry().d1 as f64;
    let mut skipped = 0;
    for (i1, w1) in sa.geometry().bank1.wavelets.iter().enumerate() {
        for (i2, w2) in sa.geometry().bank2.wavelets.iter().enumerate() {
            if w2.xi * fs1 > w1.bandwidth * FS {
                skipped += 1;
                assert!(out.s2[i1][i2].iter().all(|&v| v == 0.0));
            }
        }
    }
    assert!(skipped > 0);
}

/// Gain by a power of two is exact, and scales every coefficient exactly.
#[test]
fn gain_scales_every_coefficient_and_no_depth() {
    let sa = analyser();
    let x = signal();
    let loud: Vec<Cf64> = x.iter().map(|v| v.scale(&Ieee, 1024.0)).collect();
    let (p, q) = (sa.analyse(&Ieee, &mut plans(), &x), sa.analyse(&Ieee, &mut plans(), &loud));
    assert!(p.s0.iter().zip(&q.s0).all(|(a, b)| 1024.0 * a == *b));
    assert!(p.s1.iter().flatten().zip(q.s1.iter().flatten()).all(|(a, b)| 1024.0 * a == *b));
    assert!(p
        .s2
        .iter()
        .flatten()
        .flatten()
        .zip(q.s2.iter().flatten().flatten())
        .all(|(a, b)| 1024.0 * a == *b));
    assert_eq!(p.modulation_depth(&Ieee), q.modulation_depth(&Ieee));
}

/// A tone on a bin reads its amplitude times the gain of the filter there.
#[test]
fn tone_reads_amplitude_times_gain() {
    let sa = Scattering::new(&Ieee, Config { subband: false, ..config() }, N);
    let bin = 600;
    let x = synth::tone(&Ieee, N, FS, bin as f64 * FS / N as f64, 0.7);
    let out = sa.analyse(&Ieee, &mut plans(), &x);
    for (w, row) in sa.geometry().bank1.wavelets.iter().zip(&out.s1) {
        let expected = 0.7 * w.spectrum[bin].abs();
        assert!(row.iter().all(|v| (v - expected).abs() < 1e-9));
    }
    assert!(out.s0.iter().all(|v| (v - 0.7).abs() < 1e-9));
    assert!(out.s2.iter().flatten().flatten().all(|v| v.abs() < 1e-9));
}

fn result(margin: f64) -> Scattergram<f64> {
    Scattergram {
        lambda1_hz: vec![-10.0, 20.0],
        lambda2_hz: vec![1.0, 2.0, 4.0],
        s0: vec![0.0; 4],
        s1: vec![vec![9.0, 1.0, 3.0, 9.0], vec![0.0, 4.0, 4.0, 0.0]],
        s2: vec![
            vec![vec![0.0; 4], vec![5.0, 1.0, 1.0, 5.0], vec![0.0; 4]],
            vec![vec![0.0, 1.0, 1.0, 0.0], vec![7.0, 0.5, 1.5, 7.0], vec![0.0; 4]],
        ],
        out_rate_hz: 100.0,
        edge_margin_s: margin,
    }
}

#[test]
fn means_are_taken_clear_of_the_edges() {
    let out = result(0.01);
    assert_eq!(out.len(), 4);
    assert!(!out.is_empty());
    assert_eq!(out.s1_mean(&Ieee), vec![2.0, 4.0]);
    assert_eq!(out.s2_mean(&Ieee), vec![vec![0.0, 1.0, 0.0], vec![1.0, 1.0, 0.0]]);
    assert_eq!(out.modulation_depth(&Ieee), vec![vec![0.0, 1.0, 0.0], vec![0.5, 0.5, 0.0]]);
    assert_eq!(out.peak_lambda1(&Ieee), Some(1));
    // A margin of part of a sample costs a whole one.
    assert_eq!(result(0.001).s1_mean(&Ieee), vec![2.0, 4.0]);
}

/// Of equal peaks the first is taken.
#[test]
fn ties_go_to_the_first() {
    let mut out = result(0.01);
    out.s1[0] = out.s1[1].clone();
    assert_eq!(out.peak_lambda1(&Ieee), Some(0));
}

/// With nothing left between the edges the whole row counts.
#[test]
fn means_fall_back_to_the_whole_row() {
    assert_eq!(result(0.02).s1_mean(&Ieee), vec![5.5, 2.0]);
    assert_eq!(result(9.0).s1_mean(&Ieee), vec![5.5, 2.0]);
    assert_eq!(result(0.0).s1_mean(&Ieee), vec![5.5, 2.0]);
    assert_eq!(result(9.0).peak_lambda1(&Ieee), Some(0));
}

/// A band with next to nothing in it is not divided by next to nothing.
#[test]
fn empty_bands_show_no_modulation() {
    let mut out = result(0.01);
    out.s1[0] = vec![0.0; 4];
    let depth = out.modulation_depth(&Ieee);
    assert_eq!(depth[0][1], 2.0 / (4.0 * 1e-3));
    assert_eq!(depth[1][1], 0.5);
}

/// Neighbours add in quadrature, and the rate is their centroid in log
/// frequency.
#[test]
fn modulation_peak_interpolates() {
    let out = result(0.01);
    let (rate, depth) = out.modulation_peak(&Ieee, 1).unwrap();
    assert!((depth - 0.5f64.sqrt()).abs() < 1e-12);
    assert!((rate - 2f64.sqrt()).abs() < 1e-12);
    let (rate, depth) = out.modulation_peak(&Ieee, 0).unwrap();
    assert!((rate - 2.0).abs() < 1e-12 && (depth - 1.0).abs() < 1e-12);
    assert_eq!(out.modulation_peak(&Ieee, 2), None);
}

#[test]
fn a_band_without_modulation_reads_zero_depth() {
    let mut out = result(0.01);
    out.s2[0] = vec![vec![0.0; 4]; 3];
    assert_eq!(out.modulation_peak(&Ieee, 0), Some((1.0, 0.0)));
}

#[test]
fn an_empty_result_has_no_peak() {
    let out = Scattergram {
        lambda1_hz: Vec::new(),
        lambda2_hz: Vec::new(),
        s0: Vec::new(),
        s1: Vec::new(),
        s2: Vec::new(),
        out_rate_hz: 100.0,
        edge_margin_s: 0.0,
    };
    assert!(out.is_empty());
    assert_eq!(out.peak_lambda1(&Ieee), None);
    assert_eq!(out.modulation_peak(&Ieee, 0), None);
}

/// Amplitudes over amplitudes: the depth comes out as a pure number, and the
/// first order in the unit of amplitude.
#[test]
fn depth_is_dimensionless() {
    let volts = || vec![Dimension::Power(1); 4];
    let hz = Dimension::Power(0);
    let out = Scattergram {
        lambda1_hz: vec![hz, hz],
        lambda2_hz: vec![hz],
        s0: volts(),
        s1: vec![volts(), volts()],
        s2: vec![vec![volts()], vec![volts()]],
        out_rate_hz: hz,
        edge_margin_s: hz,
    };
    assert_eq!(out.s1_mean(&Units), vec![Dimension::Power(1); 2]);
    assert_eq!(out.modulation_depth(&Units), vec![vec![Dimension::Power(0)]; 2]);
}

/// The bandwidth quoted is that of the filter nearest the frequency.
#[test]
fn resolution_is_read_off_the_nearest_filter() {
    let sa = analyser();
    for (w, f) in sa.geometry().bank1.wavelets.iter().zip(sa.lambda1_hz(&Ieee)) {
        assert_eq!(sa.rbw_hz(&Ieee, f), w.bandwidth * FS);
    }
    let fs1 = FS / sa.geometry().d1 as f64;
    for (w, f) in sa.geometry().bank2.wavelets.iter().zip(sa.lambda2_hz(&Ieee)) {
        assert_eq!(sa.mod_rbw_hz(&Ieee, f), w.bandwidth * fs1);
    }
}

/// A band is extracted with margin, and brought down no further than the grid it
/// must land on.
#[test]
fn bands_are_powers_of_two_between_their_grids() {
    let sa = analyser();
    let n1 = N / sa.geometry().d1;
    for (w, b) in sa.geometry().bank1.wavelets.iter().zip(&sa.geometry().bands1) {
        assert!(b.len.is_power_of_two() && n1 <= b.len && b.len <= N);
        assert!(b.len == N || b.len as f64 >= 24.0 * w.sigma * N as f64);
        let bin = (w.xi * N as f64).round() as isize;
        assert_eq!(b.centre_bin, bin.rem_euclid(N as isize) as usize);
    }
    let full = Scattering::new(&Ieee, Config { subband: false, ..config() }, N);
    assert!(full.geometry().bands1.iter().all(|b| b.len == N));
    assert!(full.geometry().bands2.iter().all(|b| b.len == n1));
}

fn described(c: Coverage<f64>) -> String {
    let c = c.displayed(&Ieee);
    Coverage {
        min_carrier_hz: format!("{:.3}", c.min_carrier_hz),
        max_carrier_hz: format!("{:.3}", c.max_carrier_hz),
        min_mod_hz: format!("{:.1}", c.min_mod_hz),
        max_mod_hz: format!("{:.0}", c.max_mod_hz),
        elbow_carrier_hz: c.elbow_carrier_hz.map(|khz| format!("{khz:.1}")),
        elbow_mod_hz: c.elbow_mod_hz.map(|hz| format!("{hz:.0}")),
        out_rate_hz: format!("{:.1}", c.out_rate_hz),
        block_s: format!("{:.1}", c.block_s),
    }
    .describe()
}

#[test]
fn coverage_reads_as_one_line() {
    let c = Coverage {
        min_carrier_hz: 16_352.0,
        max_carrier_hz: 960_000.0,
        min_mod_hz: 38.25,
        max_mod_hz: 30_000.0,
        elbow_carrier_hz: None,
        elbow_mod_hz: None,
        out_rate_hz: 586.0,
        block_s: 0.10922,
    };
    let line = "carrier 16.352..960.000 kHz, modulation 38.2..30000 Hz, \
                output 586.0 Hz over a 109.2 ms block";
    assert_eq!(described(c), line);
    let both = Coverage { elbow_carrier_hz: Some(20_000.0), elbow_mod_hz: Some(240.0), ..c };
    assert_eq!(
        described(both),
        format!("{line}; constant-Q down to 20.0 kHz carrier; constant-Q down to 240 Hz modulation")
    );
    let one = Coverage { elbow_mod_hz: Some(240.0), ..c };
    assert_eq!(described(one), format!("{line}; constant-Q down to 240 Hz modulation"));
}

fn close(a: &[f64], b: &[f64]) -> bool {
    a.len() == b.len() && a.iter().zip(b).all(|(x, y)| (x - y).abs() < 1e-9)
}

/// A complex factor scales every coefficient by its modulus, and a rotation of
/// phase changes nothing.
#[test]
fn complex_factors_scale_by_their_modulus() {
    let sa = analyser();
    let x = signal();
    let p = sa.analyse(&Ieee, &mut plans(), &x);
    for (re, im) in [(0.6, 0.8), (-3.0, 4.0), (0.0, 0.0)] {
        let y: Vec<Cf64> =
            x.iter().map(|v| Cf64::new(v.re * re - v.im * im, v.re * im + v.im * re)).collect();
        let q = sa.analyse(&Ieee, &mut plans(), &y);
        let g = f64::hypot(re, im);
        let scaled = |row: &Vec<f64>| row.iter().map(|v| g * v).collect::<Vec<f64>>();
        assert!(close(&q.s0, &scaled(&p.s0)));
        for (a, b) in p.s1.iter().zip(&q.s1) {
            assert!(close(b, &scaled(a)));
        }
        for (a, b) in p.s2.iter().flatten().zip(q.s2.iter().flatten()) {
            assert!(close(b, &scaled(a)));
        }
        assert_eq!(p.lambda1_hz, q.lambda1_hz);
        assert_eq!(p.edge_margin_s, q.edge_margin_s);
    }
}

/// A block started some output samples on has every row started as many on.
#[test]
fn circular_shifts_carry_over() {
    let sa = analyser();
    let x = signal();
    let p = sa.analyse(&Ieee, &mut plans(), &x);
    let len = p.len();
    for k in [1, 5, len - 1] {
        let step = N / len;
        let y: Vec<Cf64> = (0..N).map(|t| x[(t + k * step) % N]).collect();
        let q = sa.analyse(&Ieee, &mut plans(), &y);
        let shifted = |row: &Vec<f64>| (0..len).map(|t| row[(t + k) % len]).collect::<Vec<f64>>();
        assert!(close(&q.s0, &shifted(&p.s0)));
        for (a, b) in p.s1.iter().zip(&q.s1) {
            assert!(close(b, &shifted(a)));
        }
        for (a, b) in p.s2.iter().flatten().zip(q.s2.iter().flatten()) {
            assert!(close(b, &shifted(a)));
        }
    }
}

/// The edges are at least three windows and at most a quarter of the block.
#[test]
fn edges_leave_half_the_block() {
    for invariance_s in [0.0005, 0.002, 0.005] {
        let c = Config { invariance_s, ..config() };
        assert_eq!(c.check(&Ieee, N), Ok(()));
        let sa = Scattering::new(&Ieee, c, N);
        let out = sa.analyse(&Ieee, &mut plans(), &signal());
        assert!(out.edge_margin_s >= 3.0 * invariance_s);
        assert!(out.edge_margin_s <= N as f64 / (4.0 * FS) * (1.0 + 1e-12));
    }
}

/// A predicted block is a power of two that holds the averaging window, and a
/// slower rate never takes a shorter one.
#[test]
fn slower_rates_take_no_shorter_blocks() {
    let c = Config { octaves2: 8.0, ..config() };
    let mut last = usize::MAX;
    for rate in [5.0, 10.0, 33.0, 50.0, 100.0, 400.0, 1900.0, 1e5] {
        let n = c.block_len_for(&Ieee, rate).unwrap();
        assert!(n.is_power_of_two());
        assert!(12.0 * c.invariance_s * c.fs <= n as f64);
        assert!(n <= last);
        last = n;
    }
}

fn squared_gap(a: &[f64], b: &[f64]) -> f64 {
    a.iter().zip(b).map(|(x, y)| (x - y).powi(2)).sum()
}

/// The largest sum of squared responses at any bin.
fn most(wavelets: &[scattering::Wavelet<f64>], n: usize) -> f64 {
    (0..n)
        .map(|j| wavelets.iter().map(|w| w.spectrum[j].powi(2)).sum::<f64>())
        .fold(0.0, f64::max)
}

/// All orders together bring no two blocks further apart than they are.
#[test]
fn no_order_is_expansive() {
    let sa = analyser();
    let g = sa.geometry();
    let (most1, most2) = (most(&g.bank1.wavelets, N), most(&g.bank2.wavelets, N / g.d1));
    assert!(g.n_out as f64 * (1.0 + (1.0 + most2) * most1) <= N as f64);
    assert!(g.phi_cache.values().all(|phi| phi.iter().all(|v| v.abs() <= 1.0)));
    let x = signal();
    let mut y = x.clone();
    synth::add_noise(&Ieee, &mut y, 0.1, 23);
    let apart: f64 =
        x.iter().zip(&y).map(|(u, v)| (u.re - v.re).powi(2) + (u.im - v.im).powi(2)).sum();
    let (p, q) = (sa.analyse(&Ieee, &mut plans(), &x), sa.analyse(&Ieee, &mut plans(), &y));
    let mut results = squared_gap(&p.s0, &q.s0);
    for i in 0..p.s1.len() {
        results += squared_gap(&p.s1[i], &q.s1[i]);
        for (u, v) in p.s2[i].iter().zip(&q.s2[i]) {
            results += squared_gap(u, v);
        }
    }
    assert!(results > 0.0 && results <= apart, "{results} exceeds {apart}");
}

/// A depth is twice the second order over the carrier, which counts for at least
/// a thousandth of the strongest, and is a number in every band.
#[test]
fn depths_are_ratios_at_any_strength() {
    let p = analyser().analyse(&Ieee, &mut plans(), &signal());
    let (s1, s2) = (p.s1_mean(&Ieee), p.s2_mean(&Ieee));
    let top = s1.iter().fold(0.0, |m: f64, v| m.max(*v));
    let depths = p.modulation_depth(&Ieee);
    for i in 0..s1.len() {
        for j in 0..s2[i].len() {
            let carrier = s1[i].max(top / 1000.0);
            assert!(depths[i][j].is_finite());
            assert!((depths[i][j] * carrier - 2.0 * s2[i][j]).abs() < 1e-12);
        }
    }
    for c in [0.3, 7.7e-6, 1.9e5] {
        let mut q = analyser().analyse(&Ieee, &mut plans(), &signal());
        q.s1.iter_mut().flatten().for_each(|v| *v *= c);
        q.s2.iter_mut().flatten().flatten().for_each(|v| *v *= c);
        for (u, v) in depths.iter().zip(&q.modulation_depth(&Ieee)) {
            assert!(close(u, v));
        }
    }
}

/// Of a modulated carrier whose carrier and rate lie on the grid, the depth is read to
/// within what the filters spill, at the filter that passes most of the rate.
#[test]
fn modulated_carrier_reads_its_depth_up_to_leakage() {
    let sa = analyser();
    let g = sa.geometry();
    let n1 = N / g.d1;
    let i1 = g.bank1.wavelets.len() - 1;
    let (c, psi) = (g.bands1[i1].centre_bin, &g.bank1.wavelets[i1].spectrum);
    let (rates, phi) = (&g.bank2.wavelets, &g.phi_cache[&n1]);
    let (amplitude, depth) = (1.5, 0.4);
    let turn = std::f64::consts::TAU / N as f64;
    let mut tightest = f64::INFINITY;
    for wavelet in rates {
        let k = (wavelet.xi * n1 as f64).round() as usize;
        assert!(0 < k && 2 * k < n1 && 2 * k < g.bands1[i1].len);
        let x: Vec<Cf64> = (0..N)
            .map(|t| {
                let level = amplitude * (1.0 + depth * (turn * (k * t) as f64).cos());
                let angle = turn * ((c * t) % N) as f64;
                Cf64::new(level * angle.cos(), level * angle.sin())
            })
            .collect();
        let out = sa.analyse(&Ieee, &mut plans(), &x);

        let (side, amp) = (amplitude * depth / 2.0, amplitude * psi[c].abs());
        let line = amp * depth / 2.0;
        let (high, low) = (psi[(c + k) % N] - psi[c], psi[(c + N - k) % N] - psi[c]);
        let uneven = side.powi(2) * (high.powi(2) + low.powi(2));
        let margin = (out.edge_margin_s * out.out_rate_hz).ceil() as usize;
        let kept = if 2 * margin >= g.n_out { g.n_out } else { g.n_out - 2 * margin };
        let mean_off = |spill: f64| (g.n_out as f64 * 2.0 * spill / kept as f64).sqrt();
        let blur = mean_off(uneven + (phi[k].powi(2) + phi[n1 - k].powi(2)) * line.powi(2));
        let gain = |i: usize| rates[i].spectrum[k].abs();
        let i2 = (0..rates.len()).max_by(|&i, &j| gain(i).total_cmp(&gain(j))).unwrap();
        let (dc, mirrored) = (rates[i2].spectrum[0] * amp, rates[i2].spectrum[n1 - k] * line);
        let off = mean_off(uneven + dc.powi(2) + mirrored.powi(2));

        let depths = &out.modulation_depth(&Ieee)[i1];
        let expected = depth * gain(i2);
        let bound = (2.0 * off + expected * blur) / (amp - blur);
        tightest = tightest.min(bound);
        assert!((depths[i2] - expected).abs() <= bound, "{} {expected} {bound}", depths[i2]);
        for i in 0..rates.len() {
            assert!(i == i2 || depths[i] < depths[i2]);
        }
    }
    assert!(tightest < depth / 5.0, "{tightest} says little");
}
