//! Synthetic signals, the noise source and quantisation.

use scattering::arithmetic::{ratio, Arithmetic, Binary, Relation, Unary};
use scattering::synth::{
    add_noise, am, chirp, fm, pulsed, quantise, tone, two_tone, Xorshift,
};
use scattering::Complex;

type Cf64 = Complex<f64>;

/// The arithmetic of the machine.
struct Ieee;

impl Arithmetic<f64> for Ieee {
    fn number(&self, n: u64) -> f64 {
        n as f64
    }

    fn pi(&self) -> f64 {
        std::f64::consts::PI
    }

    fn unary(&self, op: Unary, x: f64) -> f64 {
        match op {
            Unary::Negate => -x,
            Unary::Magnitude => x.abs(),
            Unary::SquareRoot => x.sqrt(),
            Unary::Exponential => x.exp(),
            Unary::Logarithm => x.ln(),
            Unary::Sine => x.sin(),
            Unary::Cosine => x.cos(),
            Unary::Round => x.round(),
            Unary::Ceiling => x.ceil(),
        }
    }

    fn binary(&self, op: Binary, x: f64, y: f64) -> f64 {
        match op {
            Binary::Plus => x + y,
            Binary::Minus => x - y,
            Binary::Times => x * y,
            Binary::Over => x / y,
            Binary::Larger => x.max(y),
            Binary::Smaller => x.min(y),
            Binary::Power => x.powf(y),
            Binary::Hypotenuse => x.hypot(y),
            Binary::Remainder => x % y,
            Binary::Wrap => x.rem_euclid(y),
        }
    }

    fn relates(&self, relation: Relation, x: f64, y: f64) -> bool {
        match relation {
            Relation::Below => x < y,
            Relation::AtMost => x <= y,
        }
    }

    fn whole(&self, x: f64) -> usize {
        x as usize
    }
}

#[test]
fn am_envelope_matches_requested_depth() {
    let x = am(&Ieee, 4096, 1e6, 100e3, 1e3, 0.4, 2.0);
    let mags: Vec<f64> = x.iter().map(|v| v.norm(&Ieee)).collect();
    let hi = mags.iter().fold(0f64, |a, &v| a.max(v));
    let lo = mags.iter().fold(f64::INFINITY, |a, &v| a.min(v));
    // (max - min) / (max + min) is the classic modulation index.
    assert!(((hi - lo) / (hi + lo) - 0.4).abs() < 1e-3);
}

#[test]
fn fm_has_constant_envelope() {
    let x = fm(&Ieee, 4096, 1e6, 100e3, 1e3, 20e3, 1.5);
    for v in &x {
        assert!((v.norm(&Ieee) - 1.5).abs() < 1e-12);
    }
}

#[test]
fn quantisation_clips_rather_than_wrapping() {
    let mut x = vec![Cf64::new(5.0, -5.0)];
    quantise(&Ieee, &mut x, 8, 1.0);
    assert!(x[0].re <= 1.0 && x[0].im >= -1.0);
    assert!(x[0].re > 0.9 && x[0].im < -0.9);
}

#[test]
fn noise_has_the_requested_power() {
    let mut x = vec![Cf64::new(0.0, 0.0); 100_000];
    add_noise(&Ieee, &mut x, 0.5, 42);
    let var = x.iter().map(|v| v.re * v.re).sum::<f64>() / x.len() as f64;
    assert!((var.sqrt() - 0.5).abs() < 0.01, "sigma was {}", var.sqrt());
}

#[test]
fn constants_come_out_as_written() {
    assert_eq!(ratio(&Ieee, 2, 5), 0.4);
    assert_eq!(ratio(&Ieee, 1, 200), 0.005);
    assert_eq!(ratio(&Ieee, 1, 1000), 1e-3);
    assert_eq!(ratio(&Ieee, 1, 0), f64::INFINITY);
    assert!(ratio(&Ieee, 0, 0).is_nan());
    assert_eq!(2f64.powf(-1022.0), f64::MIN_POSITIVE);
    assert_eq!(2f64.ln(), std::f64::consts::LN_2);
}

fn close(z: Cf64, re: f64, im: f64) -> bool {
    (z.re - re).abs() < 1e-12 && (z.im - im).abs() < 1e-12
}

#[test]
fn tone_turns_once_in_its_period() {
    let x = tone(&Ieee, 5, 4.0, 1.0, 3.0);
    assert_eq!(x.len(), 5);
    assert!(close(x[0], 3.0, 0.0));
    assert!(close(x[1], 0.0, 3.0));
    assert!(close(x[2], -3.0, 0.0));
    assert!(close(x[4], 3.0, 0.0));
    // Below the local oscillator it turns the other way.
    assert!(close(tone(&Ieee, 2, 4.0, -1.0, 3.0)[1], 0.0, -3.0));
}

#[test]
fn two_tones_add_up() {
    let x = two_tone(&Ieee, 2, 4.0, 1.0, 1.0, -1.0, 0.5);
    assert!(close(x[0], 1.5, 0.0));
    assert!(close(x[1], 0.0, 0.5));
}

#[test]
fn am_follows_its_formula() {
    // Half a modulation period in: 2 (1 - 0.4) at an eighth of a carrier turn.
    let x = am(&Ieee, 2, 8.0, 1.0, 4.0, 0.4, 2.0);
    let at = std::f64::consts::FRAC_PI_4;
    assert!(close(x[0], 2.8, 0.0));
    assert!(close(x[1], 1.2 * at.cos(), 1.2 * at.sin()));
}

#[test]
fn fm_swings_by_its_deviation() {
    // A quarter of a modulation period in, the phase is ahead by the modulation
    // index of 0.5.
    let x = fm(&Ieee, 2, 4.0, 0.0, 1.0, 0.5, 1.0);
    assert!(close(x[1], 0.5f64.cos(), 0.5f64.sin()));
}

#[test]
fn chirp_sweeps_across_the_block() {
    let n = 1000;
    let x = chirp(&Ieee, n, 1000.0, 10.0, 50.0, 2.0);
    assert_eq!(x.len(), n);
    assert!(x.iter().all(|v| (v.norm(&Ieee) - 2.0).abs() < 1e-12));
    let step = |t: usize| {
        let (p, q) = (x[t], x[t + 1]);
        (q.im * p.re - q.re * p.im).atan2(q.re * p.re + q.im * p.im)
            / (2.0 * std::f64::consts::PI)
            * 1000.0
    };
    assert!((step(0) - 10.0).abs() < 0.1);
    assert!((step(499) - 30.0).abs() < 0.1);
    assert!((step(998) - 50.0).abs() < 0.1);
}

#[test]
fn pulses_are_on_for_their_duty() {
    let x = pulsed(&Ieee, 16, 8.0, 0.0, 1.0, 0.25, 3.0);
    let on: Vec<bool> = x.iter().map(|v| v.norm(&Ieee) > 0.0).collect();
    for (t, on) in on.iter().enumerate() {
        assert_eq!(*on, t % 8 < 2);
    }
    assert!(close(x[0], 3.0, 0.0));
}

#[test]
fn noise_source_is_reproducible() {
    let mut rng = Xorshift::new(1);
    let first = rng.next_u64();
    assert_eq!(first, 1_082_269_761);
    assert_eq!(rng.next_u64(), 1_152_992_998_833_853_505);
    // Even seeds start from the odd number above them.
    assert_eq!(Xorshift::new(0).next_u64(), first);
    assert_eq!(Xorshift::new(42).next_u64(), Xorshift::new(43).next_u64());
    assert_ne!(Xorshift::new(3).next_u64(), first);
}

#[test]
fn noise_source_never_stalls() {
    let mut rng = Xorshift::new(u64::MAX);
    for _ in 0..10_000 {
        assert_ne!(rng.next_u64(), 0);
    }
}

#[test]
fn normal_deviates_follow_box_muller() {
    let mut raw = Xorshift::new(7);
    let u1 = (raw.next_u64() >> 11) as f64 / (1u64 << 53) as f64;
    let u2 = (raw.next_u64() >> 11) as f64 / (1u64 << 53) as f64;
    let expected = (-2.0 * u1.ln()).sqrt() * (std::f64::consts::TAU * u2).cos();
    assert_eq!(Xorshift::new(7).normal(&Ieee), expected);
}

#[test]
fn noise_is_added_sample_by_sample() {
    let mut x = vec![Cf64::new(1.0, -1.0); 3];
    add_noise(&Ieee, &mut x, 0.5, 9);
    let mut rng = Xorshift::new(9);
    for v in &x {
        assert_eq!(v.re, 1.0 + 0.5 * rng.normal(&Ieee));
        assert_eq!(v.im, -1.0 + 0.5 * rng.normal(&Ieee));
    }
}

#[test]
fn quantisation_rounds_to_the_grid() {
    // Two bits: codes -2, -1, 0, 1 in steps of a half.
    let mut x = vec![
        Cf64::new(0.2, 0.3),
        Cf64::new(-0.2, -0.3),
        Cf64::new(0.9, -0.9),
        Cf64::new(9.0, -9.0),
    ];
    quantise(&Ieee, &mut x, 2, 1.0);
    let codes: Vec<(f64, f64)> = x.iter().map(|v| (v.re, v.im)).collect();
    assert_eq!(codes, vec![(0.0, 0.5), (0.0, -0.5), (0.5, -1.0), (0.5, -1.0)]);
}

#[test]
fn one_bit_quantisation_keeps_the_sign() {
    let mut x = vec![Cf64::new(0.9, -0.9)];
    quantise(&Ieee, &mut x, 1, 1.0);
    assert_eq!((x[0].re, x[0].im), (0.0, -1.0));
}

/// Every value goes to the nearest level in range, and stays there.
#[test]
fn quantisation_goes_to_the_nearest_level_once() {
    for (bits, full_scale) in [(1, 1.0), (3, 2.0), (8, 1.0), (12, 0.7)] {
        let levels = (1i64 << (bits - 1)) as f64;
        let step = full_scale / levels;
        let given: Vec<f64> = (-300..300).map(|i| i as f64 * 0.0101 * full_scale).collect();
        let mut x: Vec<Cf64> = given.iter().map(|&v| Cf64::new(v, -v)).collect();
        quantise(&Ieee, &mut x, bits, full_scale);
        for (v, z) in given.iter().zip(&x) {
            for (from, to) in [(*v, z.re), (-v, z.im)] {
                let code = to / step;
                assert!((code - code.round()).abs() < 1e-9);
                assert!(-levels <= code.round() && code.round() <= levels - 1.0);
                let nearest = from.clamp(-full_scale, full_scale - step);
                assert!((to - nearest).abs() <= step / 2.0 + 1e-12);
                if nearest != from {
                    assert!((to - nearest).abs() < 1e-12);
                }
            }
        }
        let once: Vec<(f64, f64)> = x.iter().map(|z| (z.re, z.im)).collect();
        quantise(&Ieee, &mut x, bits, full_scale);
        assert_eq!(once, x.iter().map(|z| (z.re, z.im)).collect::<Vec<_>>());
    }
}
