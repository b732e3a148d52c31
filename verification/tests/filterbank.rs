//! Filter banks: the shape of one filter, and how a bank covers its axis.

use scattering::arithmetic::{Arithmetic, Binary, Relation, Unary};
use scattering::filterbank::{
    bin_freq, bw_to_sigma, default_r, gauss_hat, lowpass, morlet_hat, sigma_min_for_length,
    sigma_to_bw,
};
use scattering::{min_xi_for_length, BankSpec, FilterBank};

/// The arithmetic of the machine.
struct Ieee;

impl Arithmetic<f64> for Ieee {
    fn number(&self, n: u64) -> f64 {
        n as f64
    }

    fn pi(&self) -> f64 {
        std::f64::consts::PI
    }

    fn unary(&self, op: Unary, x: f64) -> f64 {
        match op {
            Unary::Negate => -x,
            Unary::Magnitude => x.abs(),
            Unary::SquareRoot => x.sqrt(),
            Unary::Exponential => x.exp(),
            Unary::Logarithm => x.ln(),
            Unary::Sine => x.sin(),
            Unary::Cosine => x.cos(),
            Unary::Round => x.round(),
            Unary::Ceiling => x.ceil(),
        }
    }

    fn binary(&self, op: Binary, x: f64, y: f64) -> f64 {
        match op {
            Binary::Plus => x + y,
            Binary::Minus => x - y,
            Binary::Times => x * y,
            Binary::Over => x / y,
            Binary::Larger => x.max(y),
            Binary::Smaller => x.min(y),
            Binary::Power => x.powf(y),
            Binary::Hypotenuse => x.hypot(y),
            Binary::Remainder => x % y,
            Binary::Wrap => x.rem_euclid(y),
        }
    }

    fn relates(&self, relation: Relation, x: f64, y: f64) -> bool {
        match relation {
            Relation::Below => x < y,
            Relation::AtMost => x <= y,
        }
    }

    fn whole(&self, x: f64) -> usize {
        x as usize
    }
}

#[test]
fn morlet_has_zero_mean() {
    // Admissibility: the frequency response must vanish at DC, otherwise
    // the "wavelet" leaks a DC term into every coefficient.
    for &xi in &[0.4, 0.1, 0.01] {
        let sigma = bw_to_sigma(&Ieee, xi / 8.0);
        assert!(morlet_hat(&Ieee, 0.0, xi, sigma).abs() < 1e-12);
    }
}

#[test]
fn bandwidth_matches_q() {
    // Check the -3 dB points really are where the stated bandwidth says.
    let (xi, q) = (0.2, 8.0);
    let bw = xi / q;
    let sigma = bw_to_sigma(&Ieee, bw);
    let peak = morlet_hat(&Ieee, xi, xi, sigma);
    let edge = morlet_hat(&Ieee, xi + bw / 2.0, xi, sigma);
    let ratio_db = 20.0 * (edge / peak).log10();
    assert!((ratio_db + 3.0).abs() < 0.05, "edge was {ratio_db} dB");
}

#[test]
fn unit_peak_gain() {
    let bank = FilterBank::new(
        &Ieee,
        BankSpec { q: 8.0, r: default_r(&Ieee), xi_max: 0.4, octaves: 4.0, two_sided: true },
        4096,
        256.0,
    );
    for w in &bank.wavelets {
        let peak = w.spectrum.iter().fold(0f64, |a, v| a.max(v.abs()));
        assert!((peak - 1.0).abs() < 1e-9);
    }
}

#[test]
fn two_sided_bank_is_symmetric() {
    let bank = FilterBank::new(
        &Ieee,
        BankSpec { q: 8.0, r: default_r(&Ieee), xi_max: 0.4, octaves: 3.0, two_sided: true },
        2048,
        128.0,
    );
    let positives: Vec<f64> = bank.wavelets.iter().filter(|w| w.xi > 0.0).map(|w| w.xi).collect();
    let negatives: Vec<f64> = bank.wavelets.iter().filter(|w| w.xi < 0.0).map(|w| -w.xi).collect();
    assert_eq!(positives.len(), negatives.len());
    for (p, n) in positives.iter().zip(negatives.iter().rev()) {
        assert!((p - n).abs() < 1e-12);
    }
}

#[test]
fn littlewood_paley_is_flat_across_the_covered_band() {
    let spec =
        BankSpec { q: 8.0, r: default_r(&Ieee), xi_max: 0.4, octaves: 5.0, two_sided: true };
    let bank = FilterBank::new(&Ieee, spec, 8192, 512.0);
    let lp = bank.littlewood_paley(&Ieee);

    // Only judge flatness where the bank is meant to cover: between the
    // lowest centre frequency and the highest. Outside that the response
    // rolls off by design.
    let lowest = spec.centre_frequencies(&Ieee).last().copied().unwrap();
    let vals: Vec<f64> = (0..bank.n)
        .filter(|&k| {
            let w = bin_freq(&Ieee, k, bank.n).abs();
            w > lowest * 1.5 && w < spec.xi_max * 0.95
        })
        .map(|k| lp[k])
        .collect();

    assert!(!vals.is_empty());
    let lo = vals.iter().fold(f64::INFINITY, |a, &v| a.min(v));
    let hi = vals.iter().fold(0f64, |a, &v| a.max(v));
    let ripple_db = 10.0 * (hi / lo).log10();
    assert!(ripple_db < 1.0, "Littlewood-Paley ripple {ripple_db:.2} dB is too large");
}

fn spec() -> BankSpec<f64> {
    BankSpec { q: 4.0, r: default_r(&Ieee), xi_max: 0.25, octaves: 6.0, two_sided: false }
}

#[test]
fn bins_map_to_signed_frequencies() {
    let axis: Vec<f64> = (0..8).map(|k| bin_freq(&Ieee, k, 8)).collect();
    assert_eq!(axis, vec![0.0, 0.125, 0.25, 0.375, 0.5, -0.375, -0.25, -0.125]);
    assert_eq!(bin_freq(&Ieee, 2, 5), 0.4);
    assert_eq!(bin_freq(&Ieee, 3, 5), -0.4);
}

#[test]
fn centre_frequencies_are_geometric_from_the_top() {
    let xs = spec().centre_frequencies(&Ieee);
    assert_eq!(xs.len(), 24);
    assert_eq!(xs[0], 0.25);
    assert_eq!(xs[4], 0.125);
    assert_eq!(xs[20], 0.25 / 32.0);
    // Less than one filter to an octave is not on offer.
    let sparse = BankSpec { q: 0.3, ..spec() }.centre_frequencies(&Ieee);
    assert_eq!(sparse, vec![0.25, 0.125, 0.0625, 0.03125, 0.015625, 0.0078125]);
}

#[test]
fn lowpass_has_unit_gain_at_dc_and_falls_off() {
    let phi = lowpass(&Ieee, 64, 0.05);
    assert!((phi[0] - 1.0).abs() < 1e-15);
    assert!((phi[1] - gauss_hat(&Ieee, 1.0 / 64.0, 0.05)).abs() < 1e-15);
    assert_eq!(phi[1], phi[63]);
    assert!(phi[32] < 1e-20);
    assert!((gauss_hat(&Ieee, 0.05, 0.05) - (-0.5f64).exp()).abs() < 1e-15);
}

/// Images one cycle to either side are added in, at half a cycle the two nearest
/// equally, and the sum is brought to unit gain at DC.
#[test]
fn responses_are_periodised() {
    let phi = lowpass(&Ieee, 4, 0.3);
    let half = 2.0 * gauss_hat(&Ieee, 0.5, 0.3) + gauss_hat(&Ieee, 1.5, 0.3);
    let dc = 1.0 + 2.0 * gauss_hat(&Ieee, 1.0, 0.3);
    assert!((phi[2] - half / dc).abs() < 1e-15);
}

#[test]
fn wide_lowpass_has_unit_gain_at_dc() {
    let phi = lowpass(&Ieee, 8, 1.0);
    assert_eq!(phi.len(), 8);
    assert_eq!(phi[0], 1.0);
    assert!(phi[1..].iter().all(|&v| v > 0.0 && v <= 1.0));
    assert!(lowpass(&Ieee, 0, 1.0).is_empty());
}

#[test]
fn bandwidth_and_width_convert_back_and_forth() {
    let bw = sigma_to_bw(&Ieee, 0.03);
    assert!((bw / 0.03 - 1.6651092223153954).abs() < 1e-12);
    assert!((bw_to_sigma(&Ieee, bw) - 0.03).abs() < 1e-17);
}

#[test]
fn neighbours_cross_at_half_power() {
    let s = spec();
    let xs = s.centre_frequencies(&Ieee);
    let (hi, lo) = (xs[3], xs[4]);
    // In between, weighted by width, each Gaussian is down to 1/sqrt(2).
    let (sh, sl) = (s.sigma_for(&Ieee, hi), s.sigma_for(&Ieee, lo));
    let cross = (hi * sl + lo * sh) / (sh + sl);
    assert!((gauss_hat(&Ieee, hi - cross, sh) - 0.5f64.sqrt()).abs() < 1e-12);
    assert!((gauss_hat(&Ieee, lo - cross, sl) - 0.5f64.sqrt()).abs() < 1e-12);
}

#[test]
fn width_is_proportional_to_centre_frequency() {
    let s = spec();
    assert_eq!(s.sigma_for(&Ieee, 0.2), 2.0 * s.sigma_for(&Ieee, 0.1));
}

/// The narrowest filter has a time support of a quarter of the block, and the
/// lowest centre frequency is one bandwidth of it.
#[test]
fn block_length_sets_the_narrowest_filter() {
    let sigma = sigma_min_for_length(&Ieee, 4096);
    assert!((6.0 / (2.0 * std::f64::consts::PI * sigma) - 1024.0).abs() < 1e-9);
    assert!((min_xi_for_length(&Ieee, 4096) - sigma_to_bw(&Ieee, sigma)).abs() < 1e-15);
    assert_eq!(min_xi_for_length(&Ieee, 8192), min_xi_for_length(&Ieee, 4096) / 2.0);
}

#[test]
fn a_long_block_has_no_elbow() {
    let bank = FilterBank::new(&Ieee, spec(), 1 << 14, 64.0);
    assert_eq!(bank.wavelets.len(), 24);
    assert_eq!(bank.elbow_xi, None);
    assert_eq!(bank.dropped, 0);
    assert_eq!(bank.min_xi(&Ieee), *spec().centre_frequencies(&Ieee).last().unwrap());
}

/// In a short block the widths stop shrinking at the elbow, filters below it are
/// all as wide and one bandwidth apart, and nothing goes below one bandwidth.
#[test]
fn a_short_block_widens_its_low_filters() {
    let n = 512;
    let sigma_min = sigma_min_for_length(&Ieee, n);
    let step = sigma_to_bw(&Ieee, sigma_min);
    let plan = spec().plan(&Ieee, sigma_min);
    let bank = FilterBank::new(&Ieee, spec(), n, 64.0);
    assert_eq!(plan.len(), bank.wavelets.len());

    let elbow = bank.elbow_xi.unwrap();
    let kept = plan.iter().take_while(|p| p.0 >= elbow).count();
    assert_eq!(plan[kept - 1].0, elbow);
    for &(xi, sigma) in &plan[..kept] {
        assert_eq!(sigma, spec().sigma_for(&Ieee, xi));
        assert!(sigma >= sigma_min);
    }
    assert!(plan.len() > kept + 1);
    for pair in plan[kept..].windows(2) {
        assert_eq!(pair[0].1, sigma_min);
        assert!((pair[0].0 - pair[1].0 - step).abs() < 1e-15);
    }
    assert!(plan.last().unwrap().0 >= step);
    assert!(plan.last().unwrap().0 < 2.0 * step);
    assert!(bank.dropped > 0);
    assert!(bank.max_time_support(&Ieee) <= n as f64 / 4.0 + 1e-9);
}

/// Below the top filter there may be no room at all: then every filter has the
/// narrowest width, and the elbow is the top.
#[test]
fn a_very_short_block_has_only_pinned_filters() {
    let n = 32;
    let sigma_min = sigma_min_for_length(&Ieee, n);
    let plan = spec().plan(&Ieee, sigma_min);
    assert!(!plan.is_empty());
    assert!(plan.iter().all(|p| p.1 == sigma_min));
    assert_eq!(plan[0].0, 0.25);
    let bank = FilterBank::new(&Ieee, spec(), n, 8.0);
    assert_eq!(bank.elbow_xi, Some(0.25));
}

#[test]
fn a_block_too_short_for_anything_plans_nothing() {
    assert!(spec().plan(&Ieee, sigma_min_for_length(&Ieee, 4)).is_empty());
}

#[test]
fn banks_are_in_order_of_signed_frequency() {
    let bank = FilterBank::new(&Ieee, BankSpec { two_sided: true, ..spec() }, 1024, 64.0);
    assert!(bank.wavelets.windows(2).all(|w| w[0].xi <= w[1].xi));
    assert!(bank.wavelets[0].xi < 0.0);
}

#[test]
fn nearest_filter_is_the_closest() {
    let bank = FilterBank::new(&Ieee, spec(), 1 << 14, 64.0);
    assert_eq!(bank.nearest(&Ieee, 0.125).unwrap().xi, 0.125);
    assert_eq!(bank.nearest(&Ieee, 9.0).unwrap().xi, 0.25);
    assert_eq!(bank.nearest(&Ieee, -9.0).unwrap().xi, bank.wavelets[0].xi);
    // Half way between two filters the lower stands first.
    let octaves = FilterBank::new(&Ieee, BankSpec { q: 1.0, ..spec() }, 1 << 14, 64.0);
    assert_eq!(octaves.nearest(&Ieee, 0.1875).unwrap().xi, 0.125);
    let empty = FilterBank { wavelets: Vec::new(), ..bank };
    assert!(empty.nearest(&Ieee, 0.1).is_none());
    assert_eq!(empty.min_xi(&Ieee), f64::INFINITY);
    assert_eq!(empty.max_time_support(&Ieee), 0.0);
}

#[test]
fn averaging_kernel_is_as_wide_as_its_window_asks() {
    let bank = FilterBank::new(&Ieee, spec(), 1024, 100.0);
    assert_eq!(bank.sigma_phi, 1.0 / (std::f64::consts::PI * 100.0));
    assert_eq!(bank.phi, lowpass(&Ieee, 1024, bank.sigma_phi));
}

/// The sum is that of the averaging kernel and every wavelet, squared.
#[test]
fn littlewood_paley_sums_squares() {
    let bank = FilterBank::new(&Ieee, spec(), 256, 16.0);
    let lp = bank.littlewood_paley(&Ieee);
    assert_eq!(lp.len(), 256);
    let mut by_hand = bank.phi[40] * bank.phi[40];
    for w in &bank.wavelets {
        by_hand += w.spectrum[40] * w.spectrum[40];
    }
    assert_eq!(lp[40], by_hand);
}
