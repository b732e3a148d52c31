//! Transforms, the plan cache and decimation.

use rustfft::num_complex::Complex64;
use rustfft::{Fft, FftPlanner};
use scattering::arithmetic::{Arithmetic, Binary, Relation, Unary};
use scattering::fft::{decimate_spectrum, power_of_two_factor, Direction, Engine, Plans};
use scattering::powers::{is_power_of_two, next_power_of_two};
use scattering::Complex;
use std::cell::{Cell, RefCell};
use std::rc::Rc;
use std::sync::Arc;

type Cf64 = Complex<f64>;

/// The arithmetic of the machine.
struct Ieee;

impl Arithmetic<f64> for Ieee {
    fn number(&self, n: u64) -> f64 {
        n as f64
    }

    fn pi(&self) -> f64 {
        std::f64::consts::PI
    }

    fn unary(&self, op: Unary, x: f64) -> f64 {
        match op {
            Unary::Negate => -x,
            Unary::Magnitude => x.abs(),
            Unary::SquareRoot => x.sqrt(),
            Unary::Exponential => x.exp(),
            Unary::Logarithm => x.ln(),
            Unary::Sine => x.sin(),
            Unary::Cosine => x.cos(),
            Unary::Round => x.round(),
            Unary::Ceiling => x.ceil(),
        }
    }

    fn binary(&self, op: Binary, x: f64, y: f64) -> f64 {
        match op {
            Binary::Plus => x + y,
            Binary::Minus => x - y,
            Binary::Times => x * y,
            Binary::Over => x / y,
            Binary::Larger => x.max(y),
            Binary::Smaller => x.min(y),
            Binary::Power => x.powf(y),
            Binary::Hypotenuse => x.hypot(y),
            Binary::Remainder => x % y,
            Binary::Wrap => x.rem_euclid(y),
        }
    }

    fn relates(&self, relation: Relation, x: f64, y: f64) -> bool {
        match relation {
            Relation::Below => x < y,
            Relation::AtMost => x <= y,
        }
    }

    fn whole(&self, x: f64) -> usize {
        x as usize
    }
}

/// Transforms by `rustfft`.
struct Planner(RefCell<FftPlanner<f64>>);

impl Engine<f64, Arc<dyn Fft<f64>>> for Planner {
    fn plan(&self, direction: Direction, n: usize) -> Arc<dyn Fft<f64>> {
        match direction {
            Direction::Forward => self.0.borrow_mut().plan_fft_forward(n),
            Direction::Inverse => self.0.borrow_mut().plan_fft_inverse(n),
        }
    }

    fn process(&self, plan: &Arc<dyn Fft<f64>>, buf: Vec<Cf64>) -> Vec<Cf64> {
        let mut work: Vec<Complex64> = buf.iter().map(|v| Complex64::new(v.re, v.im)).collect();
        plan.process(&mut work);
        work.iter().map(|v| Complex::new(v.re, v.im)).collect()
    }
}

fn plans() -> Plans<Arc<dyn Fft<f64>>, Planner> {
    Plans::new(Planner(RefCell::new(FftPlanner::new())))
}

fn distance(x: Cf64, y: Cf64) -> f64 {
    (x.re - y.re).hypot(x.im - y.im)
}

#[test]
fn roundtrip_is_identity() {
    let mut plans = plans();
    let original: Vec<Cf64> = (0..64)
        .map(|i| Cf64::new((i as f64 * 0.1).sin(), (i as f64 * 0.3).cos()))
        .collect();
    let mut buf = original.clone();
    plans.forward(&mut buf);
    plans.inverse(&Ieee, &mut buf);
    for (a, b) in original.iter().zip(buf.iter()) {
        assert!(distance(*a, *b) < 1e-12);
    }
}

#[test]
fn decimation_matches_time_domain_subsampling() {
    // A tone well below the post-decimation Nyquist must survive
    // decimation-by-truncation exactly.
    let n = 256;
    let d = 4;
    let f = 3.0 / n as f64; // 3 cycles over the block, far below Nyquist/d
    let x: Vec<Cf64> = (0..n)
        .map(|t| Cf64::from_polar(&Ieee, 1.0, 2.0 * std::f64::consts::PI * f * t as f64))
        .collect();

    let mut plans = plans();
    let mut spectrum = x.clone();
    plans.forward(&mut spectrum);
    let mut small = decimate_spectrum(&Ieee, &spectrum, d);
    plans.inverse(&Ieee, &mut small);

    for (s, chunk) in small.iter().enumerate() {
        assert!(distance(*chunk, x[s * d]) < 1e-10);
    }
}

#[test]
fn factor_respects_both_limit_and_divisibility() {
    assert_eq!(power_of_two_factor(&Ieee, 9.0, 1024), 8);
    assert_eq!(power_of_two_factor(&Ieee, 0.5, 1024), 1);
    assert_eq!(power_of_two_factor(&Ieee, 64.0, 96), 32);
}

#[test]
fn factor_of_a_limit_that_is_not_a_number_is_one() {
    assert_eq!(power_of_two_factor(&Ieee, f64::NAN, 1024), 1);
    assert_eq!(power_of_two_factor(&Ieee, -3.0, 1024), 1);
    assert_eq!(power_of_two_factor(&Ieee, f64::INFINITY, 1024), 1024);
    assert_eq!(power_of_two_factor(&Ieee, 1.0, 7), 1);
}

/// The unnormalised forward transform of a constant gathers in one bin.
#[test]
fn forward_transform_is_not_normalised() {
    let mut buf = vec![Cf64::new(1.0, 0.0); 8];
    plans().forward(&mut buf);
    assert!(distance(buf[0], Cf64::new(8.0, 0.0)) < 1e-12);
    for v in &buf[1..] {
        assert!(distance(*v, Cf64::new(0.0, 0.0)) < 1e-12);
    }
}

/// A tone at `+1` cycle lands in bin 1 going forward, which tells the two
/// directions apart.
#[test]
fn forward_and_inverse_go_opposite_ways() {
    let n = 16;
    let x: Vec<Cf64> = (0..n)
        .map(|t| Cf64::from_polar(&Ieee, 1.0, 2.0 * std::f64::consts::PI * t as f64 / n as f64))
        .collect();
    let mut plans = plans();
    let mut forward = x.clone();
    plans.forward(&mut forward);
    assert!(distance(forward[1], Cf64::new(16.0, 0.0)) < 1e-12);
    let mut inverse = x;
    plans.inverse(&Ieee, &mut inverse);
    assert!(distance(inverse[15], Cf64::new(1.0, 0.0)) < 1e-12);
}

/// Counts how often it plans and processes, and hands buffers back as they are.
struct Counter(Rc<Cell<usize>>);

impl Engine<f64, usize> for Counter {
    fn plan(&self, _direction: Direction, n: usize) -> usize {
        self.0.set(self.0.get() + 1);
        n
    }

    fn process(&self, _plan: &usize, buf: Vec<Cf64>) -> Vec<Cf64> {
        self.0.set(self.0.get() + 100);
        buf
    }
}

/// Each length is planned once in each direction, however often it is used, and
/// only the inverse is normalised.
#[test]
fn plans_are_made_once_for_each_length_and_direction() {
    let count = Rc::new(Cell::new(0));
    let mut plans = Plans::new(Counter(count.clone()));
    for _ in 0..3 {
        let mut buf = vec![Cf64::new(4.0, -4.0); 4];
        plans.forward(&mut buf);
        assert_eq!((buf[0].re, buf[0].im), (4.0, -4.0));
    }
    assert_eq!(count.get(), 301);
    for _ in 0..2 {
        let mut buf = vec![Cf64::new(4.0, -4.0); 4];
        plans.inverse(&Ieee, &mut buf);
        assert_eq!((buf[3].re, buf[3].im), (1.0, -1.0));
    }
    assert_eq!(count.get(), 502);
    plans.forward(&mut vec![Cf64::new(0.0, 0.0); 8]);
    assert_eq!(count.get(), 603);
}

fn ramp(n: usize) -> Vec<Cf64> {
    (0..n).map(|k| Cf64::new(k as f64, -(k as f64))).collect()
}

fn reals(xs: &[Cf64]) -> Vec<f64> {
    xs.iter().map(|v| v.re).collect()
}

/// Decimation keeps the bins nearest DC, negative frequencies at the top.
#[test]
fn decimation_keeps_the_bins_nearest_dc() {
    let small = decimate_spectrum(&Ieee, &ramp(16), 4);
    assert_eq!(reals(&small), vec![0.0, 0.25, 3.5, 3.75]);
    assert_eq!(small[2].im, -3.5);
}

#[test]
fn decimation_by_one_changes_nothing() {
    assert_eq!(reals(&decimate_spectrum(&Ieee, &ramp(5), 1)), reals(&ramp(5)));
}

/// The middle bin of an odd length is the highest positive frequency kept. The
/// one bin of a single-point spectrum is DC.
#[test]
fn decimation_to_an_odd_length_keeps_the_middle() {
    let small = decimate_spectrum(&Ieee, &ramp(10), 2);
    assert_eq!(reals(&small), vec![0.0, 0.5, 1.0, 4.0, 4.5]);
    let constant = [4.0, 0.0, 0.0, 0.0].map(|re| Cf64::new(re, 0.0));
    assert_eq!(reals(&decimate_spectrum(&Ieee, &constant, 4)), vec![1.0]);
}

/// Every bin that is kept goes to every `d`th point of its own signal, odd lengths
/// included.
#[test]
fn decimated_bins_are_sampled_signals() {
    let (n, d) = (30, 6);
    for bin in [0, 1, 2, 28, 29] {
        let mut spectrum = vec![Cf64::new(0.0, 0.0); n];
        spectrum[bin] = Cf64::new(30.0, -15.0);
        let mut plans = plans();
        let mut small = decimate_spectrum(&Ieee, &spectrum, d);
        plans.inverse(&Ieee, &mut small);
        plans.inverse(&Ieee, &mut spectrum);
        for (s, v) in small.iter().enumerate() {
            assert!(distance(*v, spectrum[s * d]) < 1e-12);
        }
    }
}

#[test]
fn decimating_twice_to_an_odd_length_composes_too() {
    let once = decimate_spectrum(&Ieee, &ramp(24), 8);
    let twice = decimate_spectrum(&Ieee, &decimate_spectrum(&Ieee, &ramp(24), 4), 2);
    assert_eq!(reals(&once), vec![0.0, 0.125, 23.0 / 8.0]);
    assert_eq!(reals(&once), reals(&twice));
}

#[test]
fn decimating_twice_is_decimating_by_the_product() {
    let once = decimate_spectrum(&Ieee, &ramp(64), 8);
    let twice = decimate_spectrum(&Ieee, &decimate_spectrum(&Ieee, &ramp(64), 2), 4);
    assert_eq!(reals(&once), reals(&twice));
}

#[test]
fn powers_of_two_are_told_apart_and_found() {
    assert!(is_power_of_two(1) && is_power_of_two(64) && is_power_of_two(1 << 40));
    assert!(!is_power_of_two(0) && !is_power_of_two(3) && !is_power_of_two(96));
    assert_eq!(next_power_of_two(0), Some(1));
    assert_eq!(next_power_of_two(64), Some(64));
    assert_eq!(next_power_of_two(65), Some(128));
    assert_eq!(next_power_of_two(usize::MAX), None);
}
