//! How an analyser lays out its grids, as the real numbers that they stand for.

use vstd::prelude::*;

use crate::arithmetic::{
    at_most, fraction, largest, num, product, quotient, rounded, wrapped, Arithmetic,
};
use crate::banks::{faithful_octaves, lemma_ends, lemma_most_positive, lemma_support};
use crate::complex::{scaled, Complex};
use crate::fft::{
    decimate_spectrum, decimation_source, factor, largest_factor, power_of_two_factor, whole_limit,
};
use crate::filterbank::{default_r, lowpass, sigma_min_for_length, support, BankSpec, Wavelet};
use crate::grid::{faithful_rounding, is_whole, whole};
use crate::laws::lemma_has_factor;
use crate::lengths::lemma_span;
use crate::planes::{lemma_exchange, lemma_group};
use crate::powers::{
    lemma_divides, lemma_double, lemma_gap, lemma_next_pow2, lemma_one, next_pow2, power_of_two,
};
use crate::reals::{
    faithful, faithful_ceilings, faithful_wholes, lemma_fraction_value, lemma_quotient, size,
    Meaning,
};
use crate::resolution::lemma_envelope_rate;
use crate::sizing::faithful_counts;
use crate::tiling::faithful_powers;
use crate::transform::{
    band_length, bins_needed, centre_bin_of, lemma_at_most, lemma_band_length, Config, ConfigError,
    Scattering,
};

verus! {

// What can be analysed.

/// A configuration is accepted if and only if blocks are a power of two, the highest
/// modulation rate lies between zero and half the sample rate, a block holds the
/// averaging window twelve times, and either bank has a filter; and if not, the first of
/// these that fails is named. `carriers` and `rates` are what is planned for either bank.
pub proof fn law_check_names_what_stands_in_the_way<R: Copy, A: Arithmetic<R>>(
    a: &A,
    m: Meaning<R>,
    config: &Config<R>,
    n: usize,
    r: Result<(), ConfigError>,
    level: R,
    sigma: R,
    carriers: Vec<(R, R)>,
    d1: usize,
    top: R,
    sigma2: R,
    rates: Vec<(R, R)>,
)
    requires
        faithful(a, m),
        call_ensures(Config::<R>::check::<A>, (config, a, n), r),
        call_ensures(default_r::<R, A>, (a,), level),
        call_ensures(sigma_min_for_length::<R, A>, (a, n), sigma),
        call_ensures(
            BankSpec::<R>::plan::<A>,
            (
                &(BankSpec {
                    q: config.q1,
                    r: level,
                    xi_max: config.xi1_max,
                    octaves: config.octaves1,
                    two_sided: config.complex_input,
                }),
                a,
                sigma,
            ),
            carriers,
        ),
        d1 == config.envelope_step(a, n as int),
        d1 >= 1,
        top == quotient(a, config.max_mod_hz, quotient(a, config.fs, num(a, d1 as u64))),
        call_ensures(sigma_min_for_length::<R, A>, (a, (n / d1) as usize), sigma2),
        call_ensures(
            BankSpec::<R>::plan::<A>,
            (
                &(BankSpec {
                    q: config.q2,
                    r: level,
                    xi_max: top,
                    octaves: config.octaves2,
                    two_sided: false,
                }),
                a,
                sigma2,
            ),
            rates,
        ),
    ensures
        ({
            let length = power_of_two(n as int);
            let range = 0real < m.of(config.max_mod_hz) && 2real * m.of(config.max_mod_hz) < m.of(
                config.fs,
            );
            let window = 12real * (m.of(config.invariance_s) * m.of(config.fs)) <= n as real;
            &&& r is Ok <==> length && range && window && carriers@.len() > 0 && rates@.len() > 0
            &&& r == Err::<(), _>(ConfigError::BlockLength) <==> !length
            &&& r == Err::<(), _>(ConfigError::ModulationRate) <==> length && !range
            &&& r == Err::<(), _>(ConfigError::Invariance) <==> length && range && !window
            &&& r == Err::<(), _>(ConfigError::CarrierBank) <==> length && range && window
                && carriers@.len() == 0
            &&& r == Err::<(), _>(ConfigError::ModulationBank) <==> length && range && window
                && carriers@.len() > 0 && rates@.len() == 0
        }),
{
    lemma_span(a, m, config);
    let half = quotient(a, config.fs, num(a, 2));
    assert(m.of(num(a, 2)) == 2real && m.of(num(a, 0)) == 0real && m.of(num(a, n as u64))
        == n as real) by {
        reveal(faithful);
    }
    lemma_quotient(a, m, config.fs, num(a, 2));
    reveal(faithful);
}

/// Defaults for the two kinds of input differ in nothing else.
pub proof fn law_defaults_differ_in_the_kind_of_input<R: Copy, A: Arithmetic<R>>(
    a: &A,
    m: Meaning<R>,
    fs: R,
    iq: Config<R>,
    one: Config<R>,
)
    requires
        faithful(a, m),
        call_ensures(Config::<R>::for_iq::<A>, (a, fs), iq),
        call_ensures(Config::<R>::for_real::<A>, (a, fs), one),
    ensures
        iq.complex_input,
        one == (Config { complex_input: false, ..iq }),
        iq.fs == fs,
        iq.order2 && iq.subband,
        m.of(iq.q1) == 8real && m.of(iq.octaves1) == 6real && m.of(iq.xi1_max) * 5real == 2real,
        m.of(iq.q2) == 4real && m.of(iq.octaves2) == 6real && m.of(iq.max_mod_hz) == 10000real,
        m.of(iq.invariance_s) * 200real == 1real,
{
    lemma_fraction_value(a, m, 2, 5);
    lemma_fraction_value(a, m, 1, 200);
    reveal(faithful);
    assert(m.of(num(a, 8)) == 8real && m.of(num(a, 6)) == 6real && m.of(num(a, 4)) == 4real);
    assert(m.of(num(a, 10_000)) == 10000real);
}

// Decimation.

/// A decimation goes as far as its limit lets it, and no further.
proof fn lemma_factor_fits<R, A: Arithmetic<R>>(a: &A, m: Meaning<R>, limit: R, n: int, d: int)
    requires
        faithful(a, m),
        faithful_ceilings(a, m),
        faithful_counts(a, m),
        power_of_two(n),
        n <= usize::MAX,
        m.of(limit) >= 0real,
        d == factor(whole_limit(a, limit), n),
    ensures
        power_of_two(d),
        1 <= d <= n,
        d == 1 || d as real <= m.of(limit),
        d == n || m.of(limit) < 2real * (d as real),
{
    let most = whole_limit(a, limit);
    lemma_one();
    lemma_double(n);
    assert(n % 1 == 0);
    lemma_has_factor(most, n, 1);
    assert(largest_factor(most, n, d));
    lemma_double(d);
    assert(d <= n) by {
        lemma_at_most(d, n);
    }
    let l = m.of(limit);
    assert(m.of(num(a, 1)) == 1real && at_most(a, num(a, 1), limit) == (l
        >= 1real)) by {
        reveal(faithful);
        assert(m.of(num(a, 1)) == 1real);
    }
    let w = a.whole_of(limit);
    assert(w as real <= l) by {
        reveal(faithful_ceilings);
    }
    if d < n && l >= 1real {
        lemma_gap(d, n);
        lemma_divides(2 * d, n);
        assert(!(2 * d <= most));
        assert(w < 2 * d);
        assert(w < usize::MAX);
        assert(l < w as real + 1real) by {
            reveal(faithful_counts);
        }
        assert(w + 1 <= 2 * d);
        assert(w as real + 1real <= 2real * (d as real));
    }
}

/// The largest useful decimation is a power of two that divides the length: at most the
/// limit, if there is one above one; and twice as much would be more than the limit, or
/// more than the length.
pub proof fn law_decimation_is_the_largest_useful<R: Copy, A: Arithmetic<R>>(
    a: &A,
    m: Meaning<R>,
    limit: R,
    n: usize,
    d: usize,
)
    requires
        faithful(a, m),
        faithful_ceilings(a, m),
        faithful_counts(a, m),
        power_of_two(n as int),
        m.of(limit) >= 0real,
        call_ensures(power_of_two_factor::<R, A>, (a, limit, n), d),
    ensures
        power_of_two(d as int),
        1 <= d <= n,
        n as int % d as int == 0,
        d == 1 || d as real <= m.of(limit),
        d == n || m.of(limit) < 2real * (d as real),
{
    lemma_factor_fits(a, m, limit, n as int, d as int);
}

/// Decimating a spectrum keeps what lies nearest zero, a share of it: what comes out at
/// bin `k` is what went in `k` bins above zero, or, from the middle bin on, as many below
/// it as `k` is from the end, over the decimation.
pub proof fn law_decimated_bins_are_those_nearest_dc<R: Copy, A: Arithmetic<R>>(
    a: &A,
    m: Meaning<R>,
    spectrum: &[Complex<R>],
    d: usize,
    out: Vec<Complex<R>>,
    k: int,
)
    requires
        faithful(a, m),
        d >= 1,
        spectrum@.len() as int % d as int == 0,
        call_ensures(decimate_spectrum::<R, A>, (a, spectrum, d), out),
        0 <= k < spectrum@.len() as int / d as int,
    ensures
        out@.len() == spectrum@.len() as int / d as int,
        ({
            let (n, len) = (spectrum@.len() as int, out@.len() as int);
            let at = |j: int|
                0 <= j < n && m.of(out@[k].re) * (d as real) == m.of(spectrum@[j].re) && m.of(
                    out@[k].im,
                ) * (d as real) == m.of(spectrum@[j].im);
            &&& 2 * k < len ==> at(k)
            &&& 2 * k >= len ==> at(n - len + k)
        }),
{
    let (n, len) = (spectrum@.len() as int, out@.len() as int);
    let f = fraction(a, 1, d as u64);
    lemma_fraction_value(a, m, 1, d as u64);
    let r = d as real;
    if d == 1 {
        assert(n / 1 == n);
        let (x, y) = (m.of(out@[k].re), m.of(out@[k].im));
        assert(x * 1real == x && y * 1real == y) by (nonlinear_arith);
    } else {
        let j = decimation_source(n, d as int, k);
        let z = spectrum@[j];
        assert(out@[k] == scaled(a, z, f));
        assert(m.of(out@[k].re) == m.of(z.re) * m.of(f) && m.of(out@[k].im) == m.of(z.im)
            * m.of(f)) by {
            reveal(faithful);
        }
        let (u, v) = (m.of(z.re), m.of(z.im));
        lemma_group(u, m.of(f), r);
        lemma_group(v, m.of(f), r);
        assert(u * 1real == u && v * 1real == v) by (nonlinear_arith);
        vstd::arithmetic::div_mod::lemma_fundamental_div_mod(n, d as int);
        assert(len <= n) by (nonlinear_arith)
            requires
                n == d as int * len,
                d >= 1,
                len >= 0,
        ;
    }
}

/// Envelopes are decimated as far as leaves the highest modulation rate at a quarter of
/// their rate at most, and what is averaged as far as leaves three standard deviations of
/// the averaging kernel below half of the rate: by the largest powers of two that do,
/// as far as the block goes.
pub proof fn law_rates_are_as_low_as_they_can_be<R: Copy, A: Arithmetic<R>>(
    a: &A,
    m: Meaning<R>,
    config: Config<R>,
    n: usize,
    sa: &Scattering<R>,
)
    requires
        faithful(a, m),
        faithful_ceilings(a, m),
        faithful_counts(a, m),
        m.of(config.fs) > 0real,
        m.of(config.max_mod_hz) > 0real,
        m.of(config.invariance_s) > 0real,
        call_ensures(Scattering::<R>::new::<A>, (a, config, n), *sa),
    ensures
        ({
            let (fs, top) = (m.of(config.fs), m.of(config.max_mod_hz));
            let (d1, d2) = (sa@.d1 as real, sa@.d2 as real);
            let span = m.of(a.circle_ratio()) * (m.of(config.invariance_s) * fs);
            &&& sa@.config == config
            &&& sa@.n == n
            &&& sa@.d1 * sa@.d2 * sa@.n_out == n
            &&& sa@.d1 == 1 || 4real * (top * d1) <= fs
            &&& sa@.d1 == n || 8real * (top * d1) > fs
            &&& sa@.d2 == 1 || 6real * (d2 * d1) <= span
            &&& sa@.d1 * sa@.d2 == n || 12real * (d2 * d1) > span
        }),
{
    let g = &sa@;
    g.lemma_grids();
    let (fs, top) = (m.of(config.fs), m.of(config.max_mod_hz));
    let (d1, d2, n1) = (g.d1 as real, g.d2 as real, g.n1());
    let quarter = product(a, fraction(a, 1, 4), config.fs);
    let limit = quotient(a, quarter, config.max_mod_hz);
    lemma_fraction_value(a, m, 1, 4);
    let q = m.of(fraction(a, 1, 4));
    assert(m.of(quarter) == q * fs) by {
        reveal(faithful);
    }
    assert(4real * (q * fs) == fs) by (nonlinear_arith)
        requires
            q * 4real == 1real,
    ;
    lemma_quotient(a, m, quarter, config.max_mod_hz);
    let l = m.of(limit);
    assert(l > 0real) by (nonlinear_arith)
        requires
            l * top > 0real,
            top > 0real,
    ;
    lemma_factor_fits(a, m, limit, n as int, g.d1 as int);
    if g.d1 != 1 {
        assert(top * d1 <= l * top) by (nonlinear_arith)
            requires
                d1 <= l,
                top > 0real,
        ;
    }
    if g.d1 != n {
        assert(2real * (top * d1) > l * top) by (nonlinear_arith)
            requires
                l < 2real * d1,
                top > 0real,
        ;
    }
    // The averaging kernel.
    lemma_kernel_width(a, m, config, n, sa);
    let s = m.of(g.bank2.sigma_phi);
    let span = m.of(a.circle_ratio()) * (m.of(config.invariance_s) * fs);
    let six = product(a, num(a, 6), g.bank2.sigma_phi);
    let wide = quotient(a, num(a, 1), six);
    assert(m.of(six) == 6real * s && m.of(num(a, 1)) == 1real) by {
        reveal(faithful);
        assert(m.of(num(a, 6)) == 6real);
        assert(m.of(num(a, 1)) == 1real);
    }
    lemma_quotient(a, m, num(a, 1), six);
    let w = m.of(wide);
    assert(w > 0real) by (nonlinear_arith)
        requires
            w * (6real * s) == 1real,
            s > 0real,
    ;
    // w = span / (6 d1), as s span = d1.
    assert((w * (6real * s)) * span == 6real * (w * (s * span))) by (nonlinear_arith);
    assert(1real * span == span) by (nonlinear_arith);
    assert(span == 6real * (w * d1));
    lemma_factor_fits(a, m, wide, n1, g.d2 as int);
    if g.d2 != 1 {
        assert(d2 * d1 <= w * d1) by (nonlinear_arith)
            requires
                d2 <= w,
                d1 >= 1real,
        ;
    }
    if g.d2 != n1 {
        assert(2real * (d2 * d1) > w * d1) by (nonlinear_arith)
            requires
                w < 2real * d2,
                d1 >= 1real,
        ;
    } else {
        lemma_divides(g.d1 as int, n as int);
    }
}

/// The averaging kernel of the second bank is one over the averaging scale wide, in
/// half turns, at the rate of the envelopes.
proof fn lemma_kernel_width<R: Copy, A: Arithmetic<R>>(
    a: &A,
    m: Meaning<R>,
    config: Config<R>,
    n: usize,
    sa: &Scattering<R>,
)
    requires
        faithful(a, m),
        m.of(config.fs) > 0real,
        m.of(config.invariance_s) > 0real,
        sa@.wf(),
        sa@.realises(a, &config, n),
    ensures
        m.of(sa@.bank2.sigma_phi) > 0real,
        m.of(sa@.bank2.sigma_phi) * (m.of(a.circle_ratio()) * (m.of(config.invariance_s) * m.of(
            config.fs,
        ))) == sa@.d1 as real,
{
    let g = &sa@;
    lemma_envelope_rate(a, m, sa);
    let (f1, d, fs, t, p) = (
        m.of(g.fs1(a)),
        g.d1 as real,
        m.of(config.fs),
        m.of(config.invariance_s),
        m.of(a.circle_ratio()),
    );
    let scale = product(a, config.invariance_s, g.fs1(a));
    let turn = product(a, a.circle_ratio(), scale);
    assert(m.of(turn) == p * (t * f1) && p > 0real && m.of(num(a, 1)) == 1real) by {
        reveal(faithful);
    }
    let tf = t * f1;
    assert(tf > 0real) by (nonlinear_arith)
        requires
            tf == t * f1,
            t > 0real,
            f1 > 0real,
    ;
    let ptf = p * tf;
    assert(ptf > 0real) by (nonlinear_arith)
        requires
            ptf == p * tf,
            p > 0real,
            tf > 0real,
    ;
    lemma_quotient(a, m, num(a, 1), turn);
    let s = m.of(g.bank2.sigma_phi);
    assert(s > 0real) by (nonlinear_arith)
        requires
            s * ptf == 1real,
            ptf > 0real,
    ;
    // s p t f1 = 1, and f1 d = fs.
    lemma_group(t, f1, d);
    lemma_group(p, tf, d);
    lemma_group(s, ptf, d);
    assert(1real * d == d) by (nonlinear_arith);
}

/// The averaging kernels of an analyser are one filter on grids of several lengths: on
/// each it is a lowpass whose width, in bins, is that of the averaging scale over the
/// length of the block.
pub proof fn law_kernels_are_one_filter<R: Copy, A: Arithmetic<R>>(
    a: &A,
    m: Meaning<R>,
    config: Config<R>,
    n: usize,
    sa: &Scattering<R>,
    len: usize,
    kernel: Vec<R>,
) -> (width: R)
    requires
        faithful(a, m),
        m.of(config.fs) > 0real,
        m.of(config.invariance_s) > 0real,
        call_ensures(Scattering::<R>::new::<A>, (a, config, n), *sa),
        sa@.phi_cache@.contains_key(len),
        len >= 1,
    ensures
        m.of(width) > 0real,
        (m.of(width) * (len as real)) * (m.of(a.circle_ratio()) * (m.of(config.invariance_s)
            * m.of(config.fs))) == n as real,
        call_ensures(lowpass::<R, A>, (a, len, width), kernel) ==> sa@.phi(len as int)
            == kernel@,
{
    let g = &sa@;
    g.lemma_grids();
    lemma_kernel_width(a, m, config, n, sa);
    let n1 = g.n1();
    let width = g.phi_width(a, len);
    let top = product(a, g.bank2.sigma_phi, num(a, n1 as u64));
    let (s, r, l) = (m.of(g.bank2.sigma_phi), n1 as real, len as real);
    assert(m.of(top) == s * r && m.of(num(a, len as u64)) == l) by {
        reveal(faithful);
        assert(m.of(num(a, n1 as u64)) == n1 as real);
    }
    lemma_quotient(a, m, top, num(a, len as u64));
    let (w, span, d) = (
        m.of(width),
        m.of(a.circle_ratio()) * (m.of(config.invariance_s) * m.of(config.fs)),
        g.d1 as real,
    );
    assert(s * r > 0real) by (nonlinear_arith)
        requires
            s > 0real,
            r >= 1real,
    ;
    assert(w > 0real) by (nonlinear_arith)
        requires
            w * l > 0real,
            l >= 1real,
    ;
    lemma_exchange(s, r, span);
    lemma_divides(g.d1 as int, n as int);
    assert(d * r == n as real) by (nonlinear_arith)
        requires
            g.d1 as int * n1 == n as int,
            d == g.d1 as real,
            r == n1 as real,
    ;
    width
}

/// The axes end at what was asked for: at the highest carrier, on either side of zero for
/// complex input, and at the highest modulation rate.
pub proof fn law_axes_end_at_what_was_asked_for<R: Copy, A: Arithmetic<R>>(
    a: &A,
    m: Meaning<R>,
    config: Config<R>,
    n: usize,
    sa: &Scattering<R>,
    carriers: Vec<R>,
    rates: Vec<R>,
)
    requires
        faithful(a, m),
        faithful_powers(a, m),
        faithful_octaves(a, m),
        faithful_rounding(a, m),
        faithful_ceilings(a, m),
        faithful_counts(a, m),
        m.of(config.fs) > 0real,
        m.of(config.xi1_max) > 0real,
        m.of(config.max_mod_hz) > 0real,
        size(m.of(config.q1)) + 2real < usize::MAX as real,
        size(m.of(config.q2)) + 2real < usize::MAX as real,
        call_ensures(Scattering::<R>::new::<A>, (a, config, n), *sa),
        call_ensures(Scattering::<R>::lambda1_hz::<A>, (sa, a), carriers),
        call_ensures(Scattering::<R>::lambda2_hz::<A>, (sa, a), rates),
    ensures
        carriers@.len() > 0,
        rates@.len() > 0,
        m.of(carriers@.last()) == m.of(config.xi1_max) * m.of(config.fs),
        config.complex_input ==> m.of(carriers@[0]) == -(m.of(config.xi1_max) * m.of(config.fs)),
        m.of(rates@.last()) == m.of(config.max_mod_hz),
{
    let g = &sa@;
    g.lemma_grids();
    lemma_envelope_rate(a, m, sa);
    let (fs, f1) = (m.of(config.fs), m.of(g.fs1(a)));
    let spec2 = config.modulation_spec(a, g.d1 as int);
    lemma_ends(
        a,
        m,
        &g.bank1,
        &config.carrier_spec(a),
        n,
        product(a, config.invariance_s, config.fs),
    );
    lemma_quotient(a, m, config.max_mod_hz, g.fs1(a));
    let x = m.of(spec2.xi_max);
    assert(x > 0real) by (nonlinear_arith)
        requires
            x * f1 > 0real,
            f1 > 0real,
    ;
    lemma_ends(
        a,
        m,
        &g.bank2,
        &spec2,
        g.n1() as usize,
        product(a, config.invariance_s, g.fs1(a)),
    );
    let (v, w) = (g.bank1.wavelets@.last().xi, g.bank2.wavelets@.last().xi);
    assert(carriers@.last() == product(a, v, config.fs));
    assert(rates@.last() == product(a, w, g.fs1(a)));
    assert(carriers@[0] == product(a, g.bank1.wavelets@[0].xi, config.fs));
    assert(m.of(carriers@.last()) == m.of(v) * fs && m.of(rates@.last()) == m.of(w) * f1 && m.of(
        carriers@[0],
    ) == m.of(g.bank1.wavelets@[0].xi) * fs) by {
        reveal(faithful);
    }
    let t = m.of(config.xi1_max);
    assert((-t) * fs == -(t * fs)) by (nonlinear_arith);
}

// Sub-bands.

/// Whether wrapping takes a whole number of a positive span off a value and leaves what
/// is not negative and less than the span.
#[verifier::opaque]
pub open spec fn faithful_wrapping<R, A: Arithmetic<R>>(a: &A, m: Meaning<R>) -> bool {
    forall|x: R, y: R|
        m.of(y) > 0real ==> {
            let over = m.of(#[trigger] wrapped(a, x, y));
            &&& 0real <= over < m.of(y)
            &&& exists|k: int| m.of(x) - over == #[trigger] whole(k) * m.of(y)
        }
}

/// The sub-band of a filter is centred on the bin closest to its frequency, counted round
/// the grid, and holds twenty-four standard deviations of it, or all of the grid; and
/// half as long a one would not, or would be shorter than `floor`, which it has to land
/// on.
pub open spec fn holds_filter<R>(
    m: Meaning<R>,
    xi: R,
    sigma: R,
    centre_bin: int,
    len: int,
    grid: int,
    floor: int,
    subband: bool,
    turns: int,
) -> bool {
    let wide = 24real * m.of(sigma) * (grid as real);
    let off = m.of(xi) * (grid as real) - whole(turns) * (grid as real) - centre_bin as real;
    &&& 0 <= centre_bin < grid
    &&& 2real * size(off) <= 1real
    &&& power_of_two(len)
    &&& floor <= len <= grid
    &&& !subband ==> len == grid
    &&& len < grid ==> wide <= len as real
    &&& subband && len > 1 ==> len / 2 < floor || (len / 2) as real <= wide
}

proof fn lemma_band<R: Copy, A: Arithmetic<R>>(
    a: &A,
    m: Meaning<R>,
    xi: R,
    sigma: R,
    grid: usize,
    floor: usize,
    subband: bool,
) -> (turns: int)
    requires
        faithful(a, m),
        faithful_wholes(a, m),
        faithful_ceilings(a, m),
        faithful_counts(a, m),
        faithful_rounding(a, m),
        faithful_wrapping(a, m),
        m.of(sigma) > 0real,
        power_of_two(grid as int),
        1 <= floor <= grid,
    ensures
        holds_filter(
            m,
            xi,
            sigma,
            centre_bin_of(a, xi, grid) as int,
            band_length(bins_needed(a, sigma, grid), grid as int, floor as int, subband),
            grid as int,
            floor as int,
            subband,
            turns,
        ),
{
    let g = num(a, grid as u64);
    let r = grid as real;
    assert(m.of(g) == r) by {
        reveal(faithful);
    }
    // The centre.
    let at = product(a, xi, g);
    let bin = rounded(a, at);
    let over = wrapped(a, bin, g);
    assert(m.of(at) == m.of(xi) * r) by {
        reveal(faithful);
    }
    assert(is_whole(m.of(bin)) && 2real * (m.of(bin) - m.of(at)) <= 1real && 2real * (m.of(at)
        - m.of(bin)) <= 1real) by {
        reveal(faithful_rounding);
    }
    let b = choose|k: int| m.of(bin) == #[trigger] whole(k);
    assert(0real <= m.of(over) < r && exists|k: int|
        m.of(bin) - m.of(over) == #[trigger] whole(k) * r) by {
        reveal(faithful_wrapping);
    }
    let turns = choose|k: int| m.of(bin) - m.of(over) == #[trigger] whole(k) * r;
    let c = b - turns * (grid as int);
    assert(whole(turns) * r == whole(turns * (grid as int))) by (nonlinear_arith)
        requires
            r == grid as real,
            whole(turns) == turns as real,
            whole(turns * (grid as int)) == (turns * (grid as int)) as real,
    ;
    assert(m.of(over) == c as real);
    assert(0 <= c < grid) by {
        if c <= -1 {
            assert(c as real <= -1real);
        }
        if c >= grid {
            assert(c as real >= r);
        }
    }
    let centre = a.whole_of(over);
    assert(centre as real <= c as real) by {
        reveal(faithful_ceilings);
    }
    assert((c as real) < centre as real + 1real) by {
        reveal(faithful_counts);
    }
    assert(centre == c);
    // The length.
    let margin = product(a, product(a, num(a, 4), num(a, 6)), sigma);
    let want = product(a, margin, g);
    let s = m.of(sigma);
    assert(m.of(want) == ((4real * 6real) * s) * r) by {
        reveal(faithful);
        assert(m.of(num(a, 4)) == 4real && m.of(num(a, 6)) == 6real);
    }
    let wide = 24real * s * r;
    assert(m.of(want) == wide);
    assert(wide > 0real) by (nonlinear_arith)
        requires
            wide == 24real * s * r,
            s > 0real,
            r >= 1real,
    ;
    let needed = bins_needed(a, sigma, grid);
    assert(needed == usize::MAX || wide <= needed as real) by {
        reveal(faithful_wholes);
    }
    assert((needed as real) < wide + 1real) by {
        reveal(faithful_ceilings);
    }
    let least = if needed < floor {
        floor as int
    } else {
        needed
    };
    lemma_next_pow2(least);
    let wanted = next_pow2(least);
    let len = band_length(needed, grid as int, floor as int, subband);
    lemma_band_length(needed, grid as int, floor as int, subband);
    if subband && len > 1 {
        lemma_one();
        lemma_double(1);
        lemma_divides(2, len);
        let half = len / 2;
        assert(len <= wanted);
        if half >= least {
            assert(power_of_two(half));
            assert(wanted <= half);
        }
        if half >= floor {
            assert(half < needed);
            assert(half as real <= needed as real - 1real);
        }
    }
    turns
}

/// Every band of either order is extracted about the bin closest to its frequency, as
/// wide as its filter takes and no wider.
pub proof fn law_sub_bands_hold_their_filters<R: Copy, A: Arithmetic<R>>(
    a: &A,
    m: Meaning<R>,
    config: Config<R>,
    n: usize,
    sa: &Scattering<R>,
    i1: int,
    i2: int,
) -> (turns: (int, int))
    requires
        faithful(a, m),
        faithful_wholes(a, m),
        faithful_ceilings(a, m),
        faithful_counts(a, m),
        faithful_rounding(a, m),
        faithful_wrapping(a, m),
        call_ensures(Scattering::<R>::new::<A>, (a, config, n), *sa),
        0 <= i1 < sa@.bank1.wavelets@.len(),
        0 <= i2 < sa@.bank2.wavelets@.len(),
        m.of(sa@.bank1.wavelets@[i1].sigma) > 0real,
        m.of(sa@.bank2.wavelets@[i2].sigma) > 0real,
    ensures
        holds_filter(
            m,
            sa@.bank1.wavelets@[i1].xi,
            sa@.bank1.wavelets@[i1].sigma,
            sa@.bands1@[i1].centre_bin as int,
            sa@.bands1@[i1].len as int,
            n as int,
            n as int / sa@.d1 as int,
            config.subband,
            turns.0,
        ),
        holds_filter(
            m,
            sa@.bank2.wavelets@[i2].xi,
            sa@.bank2.wavelets@[i2].sigma,
            sa@.bands2@[i2].centre_bin as int,
            sa@.bands2@[i2].len as int,
            n as int / sa@.d1 as int,
            sa@.n_out as int,
            config.subband,
            turns.1,
        ),
{
    let g = &sa@;
    g.lemma_grids();
    let n1 = g.n1() as usize;
    let (v, w) = (g.bank1.wavelets@[i1], g.bank2.wavelets@[i2]);
    let t1 = lemma_band(a, m, v.xi, v.sigma, n, n1, config.subband);
    let t2 = lemma_band(a, m, w.xi, w.sigma, n1, g.n_out, config.subband);
    lemma_band_length(
        bins_needed(a, v.sigma, n),
        n as int,
        n1 as int,
        config.subband,
    );
    lemma_band_length(
        bins_needed(a, w.sigma, n1),
        n1 as int,
        g.n_out as int,
        config.subband,
    );
    assert(g.bands1@[i1].centre_bin == centre_bin_of(a, v.xi, n));
    assert(g.bands2@[i2].centre_bin == centre_bin_of(a, w.xi, n1));
    (t1, t2)
}

// Edges.

/// The contaminated edges are as long as the longest of what smears: three averaging
/// windows, or a filter of either order, in seconds.
pub proof fn law_edges_are_as_long_as_the_longest_smear<R: Copy, A: Arithmetic<R>>(
    a: &A,
    m: Meaning<R>,
    config: Config<R>,
    n: usize,
    sa: &Scattering<R>,
)
    requires
        faithful(a, m),
        m.of(config.fs) > 0real,
        m.of(config.invariance_s) >= 0real,
        call_ensures(Scattering::<R>::new::<A>, (a, config, n), *sa),
        forall|i: int|
            0 <= i < sa@.bank1.wavelets@.len() ==> m.of(
                (#[trigger] sa@.bank1.wavelets@[i]).sigma,
            ) > 0real,
        forall|i: int|
            0 <= i < sa@.bank2.wavelets@.len() ==> m.of(
                (#[trigger] sa@.bank2.wavelets@[i]).sigma,
            ) > 0real,
    ensures
        ({
            let (edge, fs) = (m.of(sa@.edge(a)), m.of(config.fs));
            let turn = 2real * m.of(a.circle_ratio());
            ||| edge == 3real * m.of(config.invariance_s)
            ||| exists|i: int|
                0 <= i < sa@.bank1.wavelets@.len() && (edge * fs) * (turn * m.of(
                    (#[trigger] sa@.bank1.wavelets@[i]).sigma,
                )) == 6real
            ||| exists|i: int|
                0 <= i < sa@.bank2.wavelets@.len() && (edge * fs) * (turn * m.of(
                    (#[trigger] sa@.bank2.wavelets@[i]).sigma,
                )) == 6real * (sa@.d1 as real)
        }),
{
    let g = &sa@;
    lemma_envelope_rate(a, m, sa);
    let s1 = g.bank1.wavelets@.map_values(|w: Wavelet<R>| support(a, w.sigma));
    let s2 = g.bank2.wavelets@.map_values(|w: Wavelet<R>| support(a, w.sigma));
    let turn = 2real * m.of(a.circle_ratio());
    assert forall|i: int| 0 <= i < s1.len() implies m.of(#[trigger] s1[i]) > 0real && m.of(s1[i])
        * (turn * m.of(g.bank1.wavelets@[i].sigma)) == 6real by {
        lemma_support(a, m, g.bank1.wavelets@[i].sigma);
    }
    assert forall|i: int| 0 <= i < s2.len() implies m.of(#[trigger] s2[i]) > 0real && m.of(s2[i])
        * (turn * m.of(g.bank2.wavelets@[i].sigma)) == 6real by {
        lemma_support(a, m, g.bank2.wavelets@[i].sigma);
    }
    lemma_most_positive(a, m, s1);
    lemma_most_positive(a, m, s2);
    let (l1, l2) = (largest(a, num(a, 0), s1), largest(a, num(a, 0), s2));
    let order1 = quotient(a, l1, config.fs);
    let order2 = quotient(a, l2, g.fs1(a));
    lemma_quotient(a, m, l1, config.fs);
    lemma_quotient(a, m, l2, g.fs1(a));
    let (fs, f1, d) = (m.of(config.fs), m.of(g.fs1(a)), g.d1 as real);
    let edge = m.of(g.edge(a));
    let window = 3real * m.of(config.invariance_s);
    let (o1, o2) = (m.of(order1), m.of(order2));
    let first = if o1 >= o2 {
        o1
    } else {
        o2
    };
    assert(edge == (if first >= window {
        first
    } else {
        window
    })) by {
        reveal(faithful);
        assert(m.of(num(a, 3)) == 3real);
    }
    if edge != window {
        if edge == o1 {
            let i = choose|i: int| 0 <= i < s1.len() && m.of(#[trigger] s1[i]) == m.of(l1);
            assert((edge * fs) * (turn * m.of(g.bank1.wavelets@[i].sigma)) == 6real);
        } else {
            let i = choose|i: int| 0 <= i < s2.len() && m.of(#[trigger] s2[i]) == m.of(l2);
            let k = turn * m.of(g.bank2.wavelets@[i].sigma);
            lemma_group(edge, f1, d);
            let x = edge * f1;
            lemma_exchange(x, d, k);
            assert((edge * fs) * (turn * m.of(g.bank2.wavelets@[i].sigma)) == 6real * d);
        }
    }
}

} // verus!
