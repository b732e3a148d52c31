//! Morlet wavelet filter banks and Gaussian lowpass filters, specified
//! directly in the frequency domain.
//!
//! # Frequency convention
//!
//! Everything internal to this module is in *normalised* frequency, in cycles
//! per sample, on the interval (-0.5, 0.5]. Multiply by the sample rate to get
//! Hz. The DFT convention is `X(w) = sum_t x[t] exp(-i 2 pi w t)`.
//!
//! # Symbols
//!
//! - `xi` centre frequency of a wavelet (cycles/sample). Signed: negative
//!   values are meaningful for complex baseband input, where they mean "below
//!   the local oscillator".
//! - `sigma` standard deviation of the wavelet's frequency-domain Gaussian
//!   envelope (cycles/sample).
//! - `Q` quality factor: how many filters there are to an octave.
//! - `r` the level at which the responses of neighbouring filters cross. With
//!   `Q` it settles how wide a filter is for its centre frequency.
//! - `phi` the lowpass averaging filter that sets the invariance scale.
//!
//! # The elbow
//!
//! A filter that narrows in proportion to its centre frequency lengthens in the
//! same proportion, and at some point no longer fits its block. From there down
//! the bank stops narrowing: filters keep the narrowest width that fits and are
//! spaced one bandwidth apart. The last centre frequency above that point is
//! the elbow of the bank.

use vstd::prelude::*;

use crate::arithmetic::{
    abs, at_most, below, difference, exp, exponential, fraction, is_at_most, is_below, larger,
    largest, largest_of, ln, logarithm, magnitude, max, min, minus, neg, negative, num, over, plus,
    power, product, quotient, ratio, root, rounded, smallest, sqrt, sum, tau, times, turn,
    Arithmetic, Binary, Unary,
};

verus! {

/// The full -3 dB width of a Gaussian of unit standard deviation,
/// `2 sqrt(ln 2)`.
pub open spec fn half_power_width<R, A: Arithmetic<R>>(a: &A) -> R {
    product(a, num(a, 2), root(a, logarithm(a, num(a, 2))))
}

fn half_power<R: Copy, A: Arithmetic<R>>(a: &A) -> (r: R)
    ensures
        r == half_power_width(a),
{
    times(a, a.number(2), sqrt(a, ln(a, a.number(2))))
}

/// Converts a full -3 dB bandwidth into the Gaussian standard deviation of the
/// frequency-domain envelope.
///
/// For `exp(-(w - xi)^2 / (2 sigma^2))` the amplitude falls to `1/sqrt(2)` at
/// `w - xi = +/- sigma sqrt(ln 2)`, so the full -3 dB width is
/// `2 sqrt(ln 2) sigma ~= 1.6651 sigma`.
pub fn bw_to_sigma<R: Copy, A: Arithmetic<R>>(a: &A, bw: R) -> (sigma: R)
    ensures
        sigma == quotient(a, bw, half_power_width(a)),
{
    over(a, bw, half_power(a))
}

/// The full -3 dB bandwidth of a Gaussian of standard deviation `sigma`.
pub open spec fn bandwidth_of<R, A: Arithmetic<R>>(a: &A, sigma: R) -> R {
    product(a, sigma, half_power_width(a))
}

/// Converts the Gaussian standard deviation of the frequency-domain envelope
/// into a full -3 dB bandwidth.
pub fn sigma_to_bw<R: Copy, A: Arithmetic<R>>(a: &A, sigma: R) -> (bw: R)
    ensures
        bw == bandwidth_of(a, sigma),
{
    times(a, sigma, half_power(a))
}

/// `2 sigma^2`.
pub open spec fn twice_square<R, A: Arithmetic<R>>(a: &A, sigma: R) -> R {
    product(a, product(a, num(a, 2), sigma), sigma)
}

/// Gaussian of standard deviation `sigma` about zero, peak 1.
pub open spec fn gauss<R, A: Arithmetic<R>>(a: &A, w: R, sigma: R) -> R {
    exponential(a, quotient(a, product(a, negative(a, w), w), twice_square(a, sigma)))
}

/// Gabor atom at `xi`, less the Gaussian at zero that cancels it there.
pub open spec fn morlet<R, A: Arithmetic<R>>(a: &A, w: R, xi: R, sigma: R) -> R {
    let off = difference(a, w, xi);
    let gabor = exponential(
        a,
        quotient(a, negative(a, product(a, off, off)), twice_square(a, sigma)),
    );
    difference(a, gabor, product(a, gauss(a, xi, sigma), gauss(a, w, sigma)))
}

/// Unnormalised Morlet frequency response, evaluated on the real line.
///
/// A Gabor atom minus a corrective Gaussian at DC, which forces `psi_hat(0) = 0`
/// so the wavelet has zero mean and is admissible.
pub fn morlet_hat<R: Copy, A: Arithmetic<R>>(a: &A, w: R, xi: R, sigma: R) -> (r: R)
    ensures
        r == morlet(a, w, xi, sigma),
{
    let off = minus(a, w, xi);
    let spread = times(a, times(a, a.number(2), sigma), sigma);
    let gabor = exp(a, over(a, neg(a, times(a, off, off)), spread));
    let kappa = gauss_hat(a, xi, sigma);
    let corrective = gauss_hat(a, w, sigma);
    minus(a, gabor, times(a, kappa, corrective))
}

/// Gaussian lowpass frequency response, unnormalised (peak 1 at DC).
pub fn gauss_hat<R: Copy, A: Arithmetic<R>>(a: &A, w: R, sigma: R) -> (r: R)
    ensures
        r == gauss(a, w, sigma),
{
    let spread = times(a, times(a, a.number(2), sigma), sigma);
    exp(a, over(a, times(a, neg(a, w), w), spread))
}

/// The signed bin that index `k` of an `n`-point transform stands for, from
/// just above `-n/2` up to `n/2`.
pub open spec fn signed_bin(k: int, n: int) -> int {
    if 2 * k <= n {
        k
    } else {
        k - n
    }
}

/// The frequency of bin `k` of an `n`-point transform: its [`signed_bin`] over
/// `n`.
pub open spec fn bin_frequency<R, A: Arithmetic<R>>(a: &A, k: usize, n: usize) -> R {
    if 2 * k <= n {
        fraction(a, k as u64, n as u64)
    } else {
        quotient(a, difference(a, num(a, k as u64), num(a, n as u64)), num(a, n as u64))
    }
}

/// Maps DFT bin index `k` of an `n`-point transform to signed normalised
/// frequency in (-0.5, 0.5].
pub fn bin_freq<R: Copy, A: Arithmetic<R>>(a: &A, k: usize, n: usize) -> (w: R)
    ensures
        w == bin_frequency(a, k, n),
{
    if k <= n / 2 {
        assert(2 * k <= n);
        ratio(a, k as u64, n as u64)
    } else {
        over(a, minus(a, a.number(k as u64), a.number(n as u64)), a.number(n as u64))
    }
}

/// The response `f` at `w` and at the images of `w` one cycle to either side,
/// added up.
pub open spec fn imaged<R, A: Arithmetic<R>>(a: &A, f: spec_fn(R) -> R, w: R) -> R {
    let below = f(sum(a, w, negative(a, num(a, 1))));
    let at = f(sum(a, w, num(a, 0)));
    let above = f(sum(a, w, num(a, 1)));
    sum(a, sum(a, sum(a, num(a, 0), below), at), above)
}

/// The response `f` sampled on the `n`-point DFT grid, with its images.
pub open spec fn periodised<R, A: Arithmetic<R>>(a: &A, n: usize, f: spec_fn(R) -> R) -> Seq<R> {
    Seq::new(n as nat, |k: int| imaged(a, f, bin_frequency(a, k as usize, n)))
}

/// Whether `g` is the function that the closure `f` computes.
pub open spec fn computes<R, F: Fn(R) -> R>(f: F, g: spec_fn(R) -> R) -> bool {
    forall|x: R, y: R| #[trigger] f.ensures((x,), y) ==> y == g(x)
}

/// Samples a frequency response onto the `n`-point DFT grid, summing the
/// periodic images so that energy wrapping past +/-0.5 is accounted for rather
/// than silently truncated.
fn periodise<R: Copy, A: Arithmetic<R>, F: Fn(R) -> R>(a: &A, n: usize, f: F) -> (out: Vec<R>)
    requires
        forall|x: R| #[trigger] f.requires((x,)),
    ensures
        out@.len() == n,
        forall|g: spec_fn(R) -> R| #[trigger] computes(f, g) ==> out@ == periodised(a, n, g),
{
    let mut out: Vec<R> = Vec::with_capacity(n);
    for k in 0..n
        invariant
            forall|x: R| #[trigger] f.requires((x,)),
            out@.len() == k,
            forall|g: spec_fn(R) -> R| #[trigger] computes(f, g) ==> out@ == periodised(
                a,
                n,
                g,
            ).take(k as int),
    {
        let ghost before = out@;
        let w = bin_freq(a, k, n);
        let low = f(plus(a, w, neg(a, a.number(1))));
        let at = f(plus(a, w, a.number(0)));
        let high = f(plus(a, w, a.number(1)));
        let v = plus(a, plus(a, plus(a, a.number(0), low), at), high);
        out.push(v);
        assert forall|g: spec_fn(R) -> R| #[trigger] computes(f, g) implies out@ == periodised(
            a,
            n,
            g,
        ).take(k as int + 1) by {
            assert(before == periodised(a, n, g).take(k as int));
            assert(v == imaged(a, g, w));
            assert(out@ =~= periodised(a, n, g).take(k as int + 1));
        }
    }
    assert forall|g: spec_fn(R) -> R| #[trigger] computes(f, g) implies out@ == periodised(
        a,
        n,
        g,
    ) by {
        assert(periodised(a, n, g).take(n as int) =~= periodised(a, n, g));
    }
    out
}

/// The Gaussian response of standard deviation `sigma`, as a function of
/// frequency.
pub open spec fn gauss_shape<R, A: Arithmetic<R>>(a: &A, sigma: R) -> spec_fn(R) -> R {
    |w: R| gauss(a, w, sigma)
}

/// The Morlet response at `xi`, as a function of frequency.
pub open spec fn morlet_shape<R, A: Arithmetic<R>>(a: &A, xi: R, sigma: R) -> spec_fn(R) -> R {
    |w: R| morlet(a, w, xi, sigma)
}

/// Divides every value by the first, which is the one at DC.
pub open spec fn unit_dc<R, A: Arithmetic<R>>(a: &A, xs: Seq<R>) -> Seq<R> {
    xs.map_values(|v: R| quotient(a, v, xs[0]))
}

/// The Gaussian lowpass of standard deviation `sigma` on an `n`-point grid.
pub open spec fn kernel<R, A: Arithmetic<R>>(a: &A, n: usize, sigma: R) -> Seq<R> {
    unit_dc(a, periodised(a, n, gauss_shape(a, sigma)))
}

/// Gaussian lowpass on an `n`-point grid, unit gain at DC.
///
/// Exposed because sub-band processing needs the same physical filter sampled
/// on several grid lengths: a band extracted at a reduced rate spans the same
/// time, so its `sigma` scales by the length ratio.
pub fn lowpass<R: Copy, A: Arithmetic<R>>(a: &A, n: usize, sigma: R) -> (phi: Vec<R>)
    ensures
        phi@ == kernel(a, n, sigma),
        phi@.len() == n,
        ({
            let p = periodised(a, n, gauss_shape(a, sigma))[0];
            n > 0 && quotient(a, p, p) == num(a, 1) ==> phi@[0] == num(a, 1)
        }),
{
    let f = |w: R| -> (r: R)
        ensures
            r == gauss(a, w, sigma),
        { gauss_hat(a, w, sigma) };
    let raw = periodise(a, n, f);
    assert(computes(f, gauss_shape(a, sigma)));
    let ghost normal = unit_dc(a, raw@);
    let mut phi: Vec<R> = Vec::with_capacity(n);
    for k in 0..n
        invariant
            raw@.len() == n,
            normal == unit_dc(a, raw@),
            phi@ == normal.take(k as int),
    {
        // The images add to the gain at DC as elsewhere, so it takes a division
        // to make it one.
        phi.push(over(a, raw[k], raw[0]));
        assert(phi@ =~= normal.take(k as int + 1));
    }
    assert(phi@ =~= normal);
    phi
}

/// Divides every value by the largest magnitude among them, if that is positive.
pub open spec fn unit_peak<R, A: Arithmetic<R>>(a: &A, xs: Seq<R>) -> Seq<R> {
    let peak = largest(a, num(a, 0), xs.map_values(|v: R| magnitude(a, v)));
    if below(a, num(a, 0), peak) {
        xs.map_values(|v: R| quotient(a, v, peak))
    } else {
        xs
    }
}

/// One Morlet band-pass filter, sampled on a fixed-length DFT grid.
#[derive(Clone, Debug)]
pub struct Wavelet<R> {
    /// Centre frequency, cycles/sample. Signed.
    pub xi: R,
    /// Frequency-domain Gaussian standard deviation, cycles/sample.
    pub sigma: R,
    /// Full -3 dB bandwidth, cycles/sample.
    pub bandwidth: R,
    /// Frequency response on the DFT grid, normalised to unit peak.
    ///
    /// Unit peak gain is deliberate: it makes `|x * psi_lambda|` equal the
    /// amplitude of a tone sitting at `lambda`, so first-order coefficients
    /// come out in the same units as the input (volts, if the input is volts).
    pub spectrum: Vec<R>,
}

/// The time support of a filter of standard deviation `sigma`: six standard
/// deviations of its envelope in time.
pub open spec fn support<R, A: Arithmetic<R>>(a: &A, sigma: R) -> R {
    quotient(a, num(a, 6), product(a, turn(a), sigma))
}

impl<R: Copy> Wavelet<R> {
    /// Whether this is the Morlet wavelet of centre `xi` and width `sigma` on an
    /// `n`-point grid, normalised to unit peak.
    pub open spec fn is_morlet<A: Arithmetic<R>>(&self, a: &A, xi: R, sigma: R, n: usize) -> bool {
        &&& self.xi == xi
        &&& self.sigma == sigma
        &&& self.bandwidth == bandwidth_of(a, sigma)
        &&& self.spectrum@ == unit_peak(a, periodised(a, n, morlet_shape(a, xi, sigma)))
        &&& self.spectrum@.len() == n
    }

    /// Effective time support in samples, taken as +/-3 standard deviations of
    /// the time-domain Gaussian envelope. Used to work out how much of the
    /// output is contaminated by circular-convolution wraparound.
    pub fn time_support<A: Arithmetic<R>>(&self, a: &A) -> (r: R)
        ensures
            r == support(a, self.sigma),
    {
        // Fourier pair: a frequency-domain Gaussian of std `sigma` corresponds
        // to a time-domain Gaussian of std `1 / (2 pi sigma)`.
        over(a, a.number(6), times(a, tau(a), self.sigma))
    }
}

/// A quarter: the fraction of the block a single wavelet is allowed to occupy.
///
/// A filter as long as the block would technically "fit", but its output is
/// contaminated by circular wraparound at both ends and nothing clean is left
/// in the middle. Capping support at a quarter of the block leaves half the
/// output usable after trimming.
pub open spec fn support_fraction<R, A: Arithmetic<R>>(a: &A) -> R {
    fraction(a, 1, 4)
}

/// The longest support a filter may have in an `n`-point block, samples.
pub open spec fn support_limit<R, A: Arithmetic<R>>(a: &A, n: usize) -> R {
    product(a, support_fraction(a), num(a, n as u64))
}

/// The width of the filter whose support is [`support_limit`].
pub open spec fn narrowest<R, A: Arithmetic<R>>(a: &A, n: usize) -> R {
    quotient(a, num(a, 6), product(a, turn(a), support_limit(a, n)))
}

/// Narrowest filter that still fits inside an `n`-point block, as a standard
/// deviation in cycles/sample.
///
/// Time support is `6 / (2 pi sigma)`, and it may be at most a quarter of the
/// block.
pub fn sigma_min_for_length<R: Copy, A: Arithmetic<R>>(a: &A, n: usize) -> (sigma: R)
    ensures
        sigma == narrowest(a, n),
{
    let limit = times(a, ratio(a, 1, 4), a.number(n as u64));
    over(a, a.number(6), times(a, tau(a), limit))
}

/// The lowest centre frequency there is room for, in a block of `n` points.
pub open spec fn lowest_centre<R, A: Arithmetic<R>>(a: &A, n: usize) -> R {
    let constant = quotient(a, product(a, num(a, 6), half_power_width(a)), turn(a));
    quotient(a, constant, support_limit(a, n))
}

/// Lowest centre frequency whose wavelet still fits inside an `n`-point block,
/// in cycles/sample: one bandwidth of the narrowest filter that fits.
///
/// Time support is `6 / (2 pi sigma)`, and the bandwidth is `2 sqrt(ln 2)
/// sigma`; requiring the support to be at most a quarter of the block gives the
/// bound below. In words: **halving the lowest frequency you want to see
/// doubles the block length you need**. There is no way round this; it is the
/// uncertainty principle presenting its bill.
pub fn min_xi_for_length<R: Copy, A: Arithmetic<R>>(a: &A, n: usize) -> (xi: R)
    ensures
        xi == lowest_centre(a, n),
{
    let constant = over(a, times(a, a.number(6), half_power(a)), tau(a));
    over(a, constant, times(a, ratio(a, 1, 4), a.number(n as u64)))
}

/// How a bank should cover the frequency axis.
#[derive(Clone, Copy, Debug)]
pub struct BankSpec<R> {
    /// Quality factor: filters to an octave.
    pub q: R,
    /// Level at which the responses of neighbouring filters cross.
    pub r: R,
    /// Highest centre frequency, cycles/sample. Should leave headroom below
    /// the 0.5 Nyquist limit; 0.4 is a reasonable default.
    pub xi_max: R,
    /// Number of octaves spanned below `xi_max`.
    pub octaves: R,
    /// Include mirrored negative centre frequencies.
    ///
    /// Set this for complex baseband (I/Q) input, where negative baseband
    /// frequency means "below the local oscillator" and carries real signal.
    /// Leave it off for real-valued input, where the analytic (positive-only)
    /// half is sufficient and the negative half is redundant.
    pub two_sided: bool,
}

/// The crossing level at which the squared responses of neighbours sum to one
/// half way between them: `1/sqrt(2)`.
pub open spec fn half_power_level<R, A: Arithmetic<R>>(a: &A) -> R {
    root(a, fraction(a, 1, 2))
}

/// The usual crossing level, `1/sqrt(2)`: neighbouring filters cross at half
/// power, which is what makes the bank tile flat.
pub fn default_r<R: Copy, A: Arithmetic<R>>(a: &A) -> (r: R)
    ensures
        r == half_power_level(a),
{
    sqrt(a, ratio(a, 1, 2))
}

impl<R: Copy> BankSpec<R> {
    /// Filters to an octave.
    pub open spec fn density<A: Arithmetic<R>>(&self, a: &A) -> usize {
        a.whole_of(rounded(a, larger(a, self.q, num(a, 1))))
    }

    /// How many centre frequencies are asked for.
    pub open spec fn requested<A: Arithmetic<R>>(&self, a: &A) -> usize {
        a.whole_of(rounded(a, product(a, self.octaves, num(a, self.density(a) as u64))))
    }

    /// The `j`th centre frequency below `xi_max`, in geometric spacing.
    pub open spec fn centre<A: Arithmetic<R>>(&self, a: &A, j: usize) -> R {
        product(
            a,
            self.xi_max,
            power(
                a,
                num(a, 2),
                quotient(a, negative(a, num(a, j as u64)), num(a, self.density(a) as u64)),
            ),
        )
    }

    /// The centre frequencies asked for, highest first.
    pub open spec fn centres<A: Arithmetic<R>>(&self, a: &A) -> Seq<R> {
        Seq::new(self.requested(a) as nat, |j: int| self.centre(a, j as usize))
    }

    /// The width at which the filter at `xi` and its neighbour, each as wide for
    /// its own centre frequency, cross at level `r`.
    pub open spec fn width<A: Arithmetic<R>>(&self, a: &A, xi: R) -> R {
        let step = power(
            a,
            num(a, 2),
            quotient(a, negative(a, num(a, 1)), num(a, self.density(a) as u64)),
        );
        let gap = quotient(a, difference(a, num(a, 1), step), sum(a, num(a, 1), step));
        let reach = root(
            a,
            product(a, num(a, 2), logarithm(a, quotient(a, num(a, 1), self.r))),
        );
        quotient(a, product(a, xi, gap), reach)
    }

    /// Whether the filter at the `j`th centre frequency is no narrower than
    /// `sigma_min`.
    pub open spec fn fits<A: Arithmetic<R>>(&self, a: &A, sigma_min: R, j: usize) -> bool {
        at_most(a, sigma_min, self.width(a, self.centre(a, j)))
    }

    /// Whether `k` is how many centre frequencies, from the top, keep the width
    /// that goes with them: those before `k` fit, and `k` is the first that does
    /// not, or the end.
    pub open spec fn stops_at<A: Arithmetic<R>>(&self, a: &A, sigma_min: R, k: usize) -> bool {
        &&& k <= self.requested(a)
        &&& forall|j: usize| j < k ==> #[trigger] self.fits(a, sigma_min, j)
        &&& k < self.requested(a) ==> !self.fits(a, sigma_min, k)
    }

    /// How many centre frequencies keep the width that goes with them.
    pub open spec fn proportional<A: Arithmetic<R>>(&self, a: &A, sigma_min: R) -> usize {
        choose|k: usize| self.stops_at(a, sigma_min, k)
    }

    /// The lowest centre frequency to be reached with filters of width
    /// `sigma_min`: one bandwidth, or the lowest frequency asked for if that is
    /// higher.
    pub open spec fn floor<A: Arithmetic<R>>(&self, a: &A, sigma_min: R) -> R {
        larger(a, bandwidth_of(a, sigma_min), self.centre(a, (self.requested(a) - 1) as usize))
    }

    /// How many filters of width `sigma_min` it takes to go down to the floor in
    /// steps of one bandwidth, from where the widths stopped being proportional.
    pub open spec fn pinned<A: Arithmetic<R>>(&self, a: &A, sigma_min: R) -> usize {
        let start = self.centre(a, self.proportional(a, sigma_min));
        let floor = self.floor(a, sigma_min);
        if self.proportional(a, sigma_min) < self.requested(a) && at_most(a, floor, start) {
            let steps = quotient(a, difference(a, start, floor), bandwidth_of(a, sigma_min));
            a.whole_of(sum(a, steps, num(a, 1)))
        } else {
            0
        }
    }

    /// The centre frequency and width of the `i`th filter from the top.
    pub open spec fn filter<A: Arithmetic<R>>(&self, a: &A, sigma_min: R, i: int) -> (R, R) {
        let k = self.proportional(a, sigma_min);
        if i < k {
            (self.centre(a, i as usize), self.width(a, self.centre(a, i as usize)))
        } else {
            let step = bandwidth_of(a, sigma_min);
            (
                difference(a, self.centre(a, k), product(a, num(a, (i - k) as u64), step)),
                sigma_min,
            )
        }
    }

    /// Centre frequency and width of every filter, highest first, positive half
    /// only, when none may be narrower than `sigma_min`.
    pub open spec fn filters<A: Arithmetic<R>>(&self, a: &A, sigma_min: R) -> Seq<(R, R)> {
        Seq::new(
            (self.proportional(a, sigma_min) + self.pinned(a, sigma_min)) as nat,
            |i: int| self.filter(a, sigma_min, i),
        )
    }

    /// The last centre frequency with a proportional width, if the widths stop
    /// being proportional at all. The top centre frequency if they never were.
    pub open spec fn elbow<A: Arithmetic<R>>(&self, a: &A, sigma_min: R) -> Option<R> {
        let k = self.proportional(a, sigma_min);
        if k >= self.requested(a) {
            None
        } else if k == 0 {
            Some(self.centre(a, 0))
        } else {
            Some(self.centre(a, (k - 1) as usize))
        }
    }

    /// The stopping point is unique.
    proof fn lemma_proportional<A: Arithmetic<R>>(&self, a: &A, sigma_min: R, k: usize)
        requires
            self.stops_at(a, sigma_min, k),
        ensures
            k == self.proportional(a, sigma_min),
    {
        let m = self.proportional(a, sigma_min);
        assert(self.stops_at(a, sigma_min, m));
        if m < k {
            assert(self.fits(a, sigma_min, m));
        }
        if k < m {
            assert(self.fits(a, sigma_min, k));
        }
    }

    /// Filters to an octave.
    fn per_octave<A: Arithmetic<R>>(&self, a: &A) -> (n: usize)
        ensures
            n == self.density(a),
    {
        a.whole(a.unary(Unary::Round, max(a, self.q, a.number(1))))
    }

    /// Centre frequencies this spec would produce, highest first, positive half
    /// only. Geometric spacing at `q` wavelets per octave.
    pub fn centre_frequencies<A: Arithmetic<R>>(&self, a: &A) -> (xs: Vec<R>)
        ensures
            xs@ == self.centres(a),
    {
        let per_octave: usize = self.per_octave(a);
        let count: usize = a.whole(
            a.unary(Unary::Round, times(a, self.octaves, a.number(per_octave as u64))),
        );
        let mut xs: Vec<R> = Vec::new();
        for j in 0..count
            invariant
                per_octave == self.density(a),
                count == self.requested(a),
                xs@ == self.centres(a).take(j as int),
        {
            let octaves = over(a, neg(a, a.number(j as u64)), a.number(per_octave as u64));
            xs.push(times(a, self.xi_max, a.binary(Binary::Power, a.number(2), octaves)));
            assert(xs@ =~= self.centres(a).take(j as int + 1));
        }
        assert(self.centres(a).take(count as int) =~= self.centres(a));
        xs
    }

    /// The width of the filter at `xi`, as a standard deviation: such that it
    /// and its neighbour cross at level `r`.
    pub fn sigma_for<A: Arithmetic<R>>(&self, a: &A, xi: R) -> (sigma: R)
        ensures
            sigma == self.width(a, xi),
    {
        let octaves = over(a, neg(a, a.number(1)), a.number(self.per_octave(a) as u64));
        let step = a.binary(Binary::Power, a.number(2), octaves);
        let gap = over(a, minus(a, a.number(1), step), plus(a, a.number(1), step));
        let reach = sqrt(a, times(a, a.number(2), ln(a, over(a, a.number(1), self.r))));
        over(a, times(a, xi, gap), reach)
    }

    /// How many centre frequencies, from the top, keep the width that goes with
    /// them when no filter may be narrower than `sigma_min`.
    fn proportional_count<A: Arithmetic<R>>(&self, a: &A, sigma_min: R, xs: &Vec<R>) -> (k: usize)
        requires
            xs@ == self.centres(a),
        ensures
            k == self.proportional(a, sigma_min),
            self.stops_at(a, sigma_min, k),
    {
        let mut k: usize = 0;
        while k < xs.len() && is_at_most(a, sigma_min, self.sigma_for(a, xs[k]))
            invariant
                xs@ == self.centres(a),
                k <= xs@.len(),
                forall|j: usize| j < k ==> #[trigger] self.fits(a, sigma_min, j),
            decreases xs@.len() - k,
        {
            k = k + 1;
        }
        proof {
            assert(self.stops_at(a, sigma_min, k));
            self.lemma_proportional(a, sigma_min, k);
        }
        k
    }

    /// Centre frequency and width of every filter this spec leads to, highest
    /// first, positive half only, when none may be narrower than `sigma_min`.
    ///
    /// Widths are proportional to centre frequencies as far down as that
    /// allows. Below, filters keep the width `sigma_min` and step down by one
    /// bandwidth at a time. Pure arithmetic: no filter is built.
    pub fn plan<A: Arithmetic<R>>(&self, a: &A, sigma_min: R) -> (plan: Vec<(R, R)>)
        ensures
            plan@ == self.filters(a, sigma_min),
    {
        let xs = self.centre_frequencies(a);
        let k: usize = self.proportional_count(a, sigma_min, &xs);
        let mut plan: Vec<(R, R)> = Vec::new();
        for i in 0..k
            invariant
                xs@ == self.centres(a),
                k == self.proportional(a, sigma_min),
                k <= xs@.len(),
                plan@.len() == i,
                forall|j: int| 0 <= j < i ==> plan@[j] == self.filter(a, sigma_min, j),
        {
            plan.push((xs[i], self.sigma_for(a, xs[i])));
        }
        if k < xs.len() {
            let start = xs[k];
            let step = sigma_to_bw(a, sigma_min);
            let floor = max(a, step, xs[xs.len() - 1]);
            if is_at_most(a, floor, start) {
                let steps = over(a, minus(a, start, floor), step);
                let count: usize = a.whole(plus(a, steps, a.number(1)));
                for i in 0..count
                    invariant
                        k == self.proportional(a, sigma_min),
                        start == self.centre(a, k),
                        step == bandwidth_of(a, sigma_min),
                        plan@.len() == k + i,
                        forall|j: int|
                            0 <= j < k + i ==> plan@[j] == self.filter(a, sigma_min, j),
                {
                    let xi = minus(a, start, times(a, a.number(i as u64), step));
                    plan.push((xi, sigma_min));
                }
            }
        }
        assert(plan@ =~= self.filters(a, sigma_min));
        plan
    }
}

/// Whether `p` may stand directly before `q` on an increasing frequency axis.
pub open spec fn in_order<R, A: Arithmetic<R>>(a: &A, p: (R, R), q: (R, R)) -> bool {
    below(a, p.0, q.0) || !below(a, q.0, p.0)
}

/// Whether every filter may stand directly before the next.
pub open spec fn ordered<R, A: Arithmetic<R>>(a: &A, xs: Seq<(R, R)>) -> bool {
    forall|i: int| #![trigger xs[i]] 0 <= i < xs.len() - 1 ==> in_order(a, xs[i], xs[i + 1])
}

/// `p` added to `xs`, behind the last filter that it does not lie below.
pub open spec fn placed<R, A: Arithmetic<R>>(a: &A, xs: Seq<(R, R)>, p: (R, R)) -> Seq<(R, R)>
    decreases xs.len(),
{
    if xs.len() > 0 && below(a, p.0, xs.last().0) {
        placed(a, xs.drop_last(), p).push(xs.last())
    } else {
        xs.push(p)
    }
}

/// `xs` in order of frequency, filters of one frequency in the order they came.
pub open spec fn arranged<R, A: Arithmetic<R>>(a: &A, xs: Seq<(R, R)>) -> Seq<(R, R)>
    decreases xs.len(),
{
    if xs.len() == 0 {
        Seq::empty()
    } else {
        placed(a, arranged(a, xs.drop_last()), xs.last())
    }
}

/// `xs` with each filter followed by its mirror image, if `two_sided`.
pub open spec fn mirrored<R, A: Arithmetic<R>>(
    a: &A,
    xs: Seq<(R, R)>,
    two_sided: bool,
) -> Seq<(R, R)> {
    if two_sided {
        Seq::new(
            2 * xs.len(),
            |i: int|
                if i % 2 == 0 {
                    xs[i / 2]
                } else {
                    (negative(a, xs[i / 2].0), xs[i / 2].1)
                },
        )
    } else {
        xs
    }
}

/// Adds a filter to an ordered list of filters, behind those it does not come
/// before.
fn insert_in_order<R: Copy, A: Arithmetic<R>>(a: &A, xs: &mut Vec<(R, R)>, p: (R, R))
    requires
        ordered(a, old(xs)@),
    ensures
        final(xs)@ == placed(a, old(xs)@, p),
        ordered(a, final(xs)@),
        final(xs)@.to_multiset() == old(xs)@.to_multiset().insert(p),
        final(xs)@.len() == old(xs)@.len() + 1,
{
    let ghost before = xs@;
    let mut i: usize = xs.len();
    assert(before.take(i as int) =~= before);
    assert(placed(a, before, p) + before.skip(i as int) =~= placed(a, before, p));
    while i > 0 && is_below(a, p.0, xs[i - 1].0)
        invariant
            i <= xs@.len(),
            xs@ == before,
            i < xs@.len() ==> below(a, p.0, xs@[i as int].0),
            placed(a, before, p) == placed(a, before.take(i as int), p) + before.skip(i as int),
        decreases i,
    {
        i = i - 1;
        proof {
            let head = before.take(i as int + 1);
            assert(head.drop_last() =~= before.take(i as int));
            assert(placed(a, head, p) + before.skip(i as int + 1) =~= placed(
                a,
                before.take(i as int),
                p,
            ) + before.skip(i as int));
        }
    }
    xs.insert(i, p);
    proof {
        let head = before.take(i as int);
        assert(placed(a, head, p) == head.push(p));
        assert(xs@ =~= head.push(p) + before.skip(i as int));
        before.to_multiset_ensures();
        broadcast use vstd::seq_lib::group_to_multiset_ensures;

        assert(before.insert(i as int, p).to_multiset() =~= before.to_multiset().insert(p));
        let after = xs@;
        assert forall|j: int| #![trigger after[j]] 0 <= j < after.len() - 1 implies in_order(
            a,
            after[j],
            after[j + 1],
        ) by {
            if j + 1 < i {
                assert(after[j] == before[j] && after[j + 1] == before[j + 1]);
            } else if j > i {
                assert(after[j] == before[j - 1] && after[j + 1] == before[j - 1 + 1]);
            }
        }
    }
}

/// The filters in order of signed centre frequency.
fn sort_filters<R: Copy, A: Arithmetic<R>>(a: &A, xs: &Vec<(R, R)>) -> (out: Vec<(R, R)>)
    ensures
        out@ == arranged(a, xs@),
        ordered(a, out@),
        out@.to_multiset() == xs@.to_multiset(),
        out@.len() == xs@.len(),
{
    let mut out: Vec<(R, R)> = Vec::new();
    proof {
        broadcast use vstd::seq_lib::group_to_multiset_ensures;

        assert(xs@.take(0) =~= Seq::<(R, R)>::empty());
        assert(out@ =~= xs@.take(0));
    }
    for i in 0..xs.len()
        invariant
            out@ == arranged(a, xs@.take(i as int)),
            ordered(a, out@),
            out@.to_multiset() == xs@.take(i as int).to_multiset(),
            out@.len() == i,
    {
        insert_in_order(a, &mut out, xs[i]);
        proof {
            broadcast use vstd::seq_lib::group_to_multiset_ensures;

            xs@.take(i as int).to_multiset_ensures();
            assert(xs@.take(i as int + 1) =~= xs@.take(i as int).push(xs@[i as int]));
            assert(xs@.take(i as int + 1).drop_last() =~= xs@.take(i as int));
        }
    }
    assert(xs@.take(xs@.len() as int) =~= xs@);
    out
}

/// How many of `xs` lie below `bound`.
pub open spec fn count_below<R, A: Arithmetic<R>>(a: &A, xs: Seq<R>, bound: R) -> nat
    decreases xs.len(),
{
    if xs.len() == 0 {
        0
    } else {
        count_below(a, xs.drop_last(), bound) + if below(a, xs.last(), bound) {
            1nat
        } else {
            0nat
        }
    }
}

/// The index of the value of `xs` closest to `target`, the first of equals.
pub open spec fn closest<R, A: Arithmetic<R>>(a: &A, xs: Seq<R>, target: R) -> Option<int>
    decreases xs.len(),
{
    if xs.len() == 0 {
        None
    } else {
        match closest(a, xs.drop_last(), target) {
            None => Some(xs.len() - 1),
            Some(i) => if below(
                a,
                magnitude(a, difference(a, xs.last(), target)),
                magnitude(a, difference(a, xs[i], target)),
            ) {
                Some(xs.len() - 1)
            } else {
                Some(i)
            },
        }
    }
}

/// The power response of `wavelets` at bin `k`, added to `start` in turn.
pub open spec fn powers<R, A: Arithmetic<R>>(
    a: &A,
    start: R,
    wavelets: Seq<Wavelet<R>>,
    k: int,
) -> R
    decreases wavelets.len(),
{
    if wavelets.len() == 0 {
        start
    } else {
        let rest = powers(a, start, wavelets.drop_last(), k);
        let spectrum = wavelets.last().spectrum@;
        if k < spectrum.len() {
            sum(a, rest, product(a, spectrum[k], spectrum[k]))
        } else {
            rest
        }
    }
}

/// A geometrically spaced bank of Morlet wavelets plus its lowpass companion.
#[derive(Clone, Debug)]
pub struct FilterBank<R> {
    /// DFT length these filters are sampled on.
    pub n: usize,
    /// The wavelets, in order of signed centre frequency.
    pub wavelets: Vec<Wavelet<R>>,
    /// Lowpass averaging filter `phi`, unit gain at DC.
    pub phi: Vec<R>,
    /// Frequency-domain standard deviation of `phi`, cycles/sample.
    pub sigma_phi: R,
    /// How many requested centre frequencies were too low to fit in the block
    /// and were therefore not built.
    pub dropped: usize,
    /// Last centre frequency whose filter is as narrow as was asked for, if
    /// the block was short enough for filters below it to be widened. The top
    /// centre frequency if every filter had to be.
    pub elbow_xi: Option<R>,
}

impl<R> FilterBank<R> {
    /// Every filter is sampled on the grid of the bank.
    pub open spec fn wf(&self) -> bool {
        &&& self.phi@.len() == self.n
        &&& forall|i: int|
            0 <= i < self.wavelets@.len() ==> (#[trigger] self.wavelets@[i]).spectrum@.len()
                == self.n
    }
}

impl<R: Copy> FilterBank<R> {
    /// Signed centre frequency and width of each wavelet.
    pub open spec fn pairs(&self) -> Seq<(R, R)> {
        self.wavelets@.map_values(|w: Wavelet<R>| (w.xi, w.sigma))
    }

    /// Signed centre frequency of each wavelet.
    pub open spec fn frequencies(&self) -> Seq<R> {
        self.wavelets@.map_values(|w: Wavelet<R>| w.xi)
    }

    /// Whether this is the bank that `spec` leads to on an `n`-point grid, with
    /// an averaging window of `invariance_samples`.
    pub open spec fn realises<A: Arithmetic<R>>(
        &self,
        a: &A,
        spec: &BankSpec<R>,
        n: usize,
        invariance_samples: R,
    ) -> bool {
        let sigma_min = narrowest(a, n);
        &&& self.n == n
        &&& self.sigma_phi == quotient(
            a,
            num(a, 1),
            product(a, a.circle_ratio(), invariance_samples),
        )
        &&& self.phi@ == kernel(a, n, self.sigma_phi)
        &&& self.elbow_xi == spec.elbow(a, sigma_min)
        &&& self.dropped == count_below(a, spec.centres(a), lowest_centre(a, n))
        &&& self.pairs() == arranged(
            a,
            mirrored(a, spec.filters(a, sigma_min), spec.two_sided),
        )
        &&& self.pairs().to_multiset() == mirrored(
            a,
            spec.filters(a, sigma_min),
            spec.two_sided,
        ).to_multiset()
        &&& ordered(a, self.pairs())
        &&& forall|i: int|
            0 <= i < self.wavelets@.len() ==> {
                let w = #[trigger] self.wavelets@[i];
                w.is_morlet(a, w.xi, w.sigma, n)
            }
    }

    /// Builds a bank on an `n`-point grid.
    ///
    /// `invariance_samples` is `T`, the width of the averaging window in
    /// samples. It sets the time resolution of the output: coefficients are
    /// smooth on scales shorter than `T` and can be decimated accordingly.
    ///
    /// Wavelets whose time support exceeds their share of the block are widened
    /// until it does not, as far down as one bandwidth above zero. Lower still,
    /// they are dropped rather than built. A filter longer than the data does
    /// not measure a low frequency, it measures circular wraparound, and
    /// silently returning those coefficients would put convincing-looking
    /// rubbish at the bottom of the display. [`FilterBank::dropped`] reports how
    /// many requested frequencies lie that low, so the caller can tell the user
    /// what coverage it actually got.
    pub fn new<A: Arithmetic<R>>(
        a: &A,
        spec: BankSpec<R>,
        n: usize,
        invariance_samples: R,
    ) -> (bank: Self)
        requires
            spec.filters(a, narrowest(a, n)).len() > 0,
        ensures
            bank.realises(a, &spec, n, invariance_samples),
            bank.wf(),
            bank.wavelets@.len() > 0,
    {
        let sigma_min = sigma_min_for_length(a, n);
        let plan = spec.plan(a, sigma_min);
        let mut both: Vec<(R, R)> = Vec::new();
        for i in 0..plan.len()
            invariant
                plan@ == spec.filters(a, sigma_min),
                spec.two_sided ==> both@.len() == 2 * i,
                !spec.two_sided ==> both@.len() == i,
                both@ == mirrored(a, plan@, spec.two_sided).take(both@.len() as int),
        {
            let (xi, sigma) = plan[i];
            both.push((xi, sigma));
            if spec.two_sided {
                both.push((neg(a, xi), sigma));
            }
            assert(both@ =~= mirrored(a, plan@, spec.two_sided).take(both@.len() as int));
        }
        assert(both@ =~= mirrored(a, plan@, spec.two_sided));
        // Order by signed centre frequency so plotting code gets a monotonic
        // axis without having to sort.
        let sorted = sort_filters(a, &both);
        let mut wavelets: Vec<Wavelet<R>> = Vec::with_capacity(sorted.len());
        for i in 0..sorted.len()
            invariant
                wavelets@.len() == i,
                forall|j: int|
                    0 <= j < i ==> (#[trigger] wavelets@[j]).is_morlet(
                        a,
                        sorted@[j].0,
                        sorted@[j].1,
                        n,
                    ),
        {
            let (xi, sigma) = sorted[i];
            wavelets.push(Self::make_wavelet(a, xi, sigma, n));
        }

        // A time-domain Gaussian of standard deviation `T/2` has a
        // frequency-domain standard deviation of `1 / (2 pi (T/2))`.
        let sigma_phi = over(a, a.number(1), times(a, a.pi(), invariance_samples));
        let phi = lowpass(a, n, sigma_phi);

        let xs = spec.centre_frequencies(a);
        let k: usize = spec.proportional_count(a, sigma_min, &xs);
        let elbow_xi = if k >= xs.len() {
            None
        } else if k == 0 {
            Some(xs[0])
        } else {
            Some(xs[k - 1])
        };
        let min_xi = min_xi_for_length(a, n);
        let mut dropped: usize = 0;
        for j in 0..xs.len()
            invariant
                dropped <= j,
                dropped == count_below(a, xs@.take(j as int), min_xi),
        {
            assert(xs@.take(j as int + 1).drop_last() =~= xs@.take(j as int));
            if is_below(a, xs[j], min_xi) {
                dropped = dropped + 1;
            }
        }
        assert(xs@.take(xs@.len() as int) =~= xs@);

        let bank = FilterBank { n, wavelets, phi, sigma_phi, dropped, elbow_xi };
        assert(bank.pairs() =~= sorted@);
        bank
    }

    fn make_wavelet<A: Arithmetic<R>>(a: &A, xi: R, sigma: R, n: usize) -> (w: Wavelet<R>)
        ensures
            w.is_morlet(a, xi, sigma, n),
    {
        let bandwidth = sigma_to_bw(a, sigma);
        let f = |w: R| -> (r: R)
            ensures
                r == morlet(a, w, xi, sigma),
            { morlet_hat(a, w, xi, sigma) };
        let raw = periodise(a, n, f);
        assert(computes(f, morlet_shape(a, xi, sigma)));
        // Normalise to unit peak so first-order coefficients read in input
        // amplitude units.
        let mut sizes: Vec<R> = Vec::with_capacity(n);
        let ghost magnitudes = raw@.map_values(|v: R| magnitude(a, v));
        for k in 0..n
            invariant
                raw@.len() == n,
                magnitudes == raw@.map_values(|v: R| magnitude(a, v)),
                sizes@ == magnitudes.take(k as int),
        {
            sizes.push(abs(a, raw[k]));
            assert(sizes@ =~= magnitudes.take(k as int + 1));
        }
        assert(sizes@ =~= magnitudes);
        let peak = largest_of(a, a.number(0), sizes.as_slice());
        let mut spectrum: Vec<R> = Vec::with_capacity(n);
        let positive = is_below(a, a.number(0), peak);
        let ghost normal = unit_peak(a, raw@);
        for k in 0..n
            invariant
                raw@.len() == n,
                normal == unit_peak(a, raw@),
                peak == largest(a, num(a, 0), raw@.map_values(|v: R| magnitude(a, v))),
                positive == below(a, num(a, 0), peak),
                spectrum@ == normal.take(k as int),
        {
            if positive {
                spectrum.push(over(a, raw[k], peak));
            } else {
                spectrum.push(raw[k]);
            }
            assert(spectrum@ =~= normal.take(k as int + 1));
        }
        assert(spectrum@ =~= normal);
        Wavelet { xi, sigma, bandwidth, spectrum }
    }

    /// Lowest centre frequency actually built, cycles/sample.
    pub fn min_xi<A: Arithmetic<R>>(&self, a: &A) -> (xi: R)
        ensures
            xi == smallest(
                a,
                fraction(a, 1, 0),
                self.frequencies().map_values(|x: R| magnitude(a, x)),
            ),
    {
        let mut acc = ratio(a, 1, 0);
        let ghost sizes = self.frequencies().map_values(|x: R| magnitude(a, x));
        for i in 0..self.wavelets.len()
            invariant
                sizes == self.frequencies().map_values(|x: R| magnitude(a, x)),
                acc == smallest(a, fraction(a, 1, 0), sizes.take(i as int)),
        {
            assert(sizes.take(i as int + 1).drop_last() =~= sizes.take(i as int));
            acc = min(a, acc, abs(a, self.wavelets[i].xi));
        }
        assert(sizes.take(sizes.len() as int) =~= sizes);
        acc
    }

    /// Longest wavelet time support in the bank, in samples. Output within this
    /// distance of either edge is contaminated by circular wraparound.
    pub fn max_time_support<A: Arithmetic<R>>(&self, a: &A) -> (r: R)
        ensures
            r == largest(
                a,
                num(a, 0),
                self.wavelets@.map_values(|w: Wavelet<R>| support(a, w.sigma)),
            ),
    {
        let mut acc = a.number(0);
        let ghost supports = self.wavelets@.map_values(|w: Wavelet<R>| support(a, w.sigma));
        for i in 0..self.wavelets.len()
            invariant
                supports == self.wavelets@.map_values(|w: Wavelet<R>| support(a, w.sigma)),
                acc == largest(a, num(a, 0), supports.take(i as int)),
        {
            assert(supports.take(i as int + 1).drop_last() =~= supports.take(i as int));
            acc = max(a, acc, self.wavelets[i].time_support(a));
        }
        assert(supports.take(supports.len() as int) =~= supports);
        acc
    }

    /// The wavelet whose centre frequency is closest to `xi`. `None` in an
    /// empty bank.
    pub fn nearest<A: Arithmetic<R>>(&self, a: &A, xi: R) -> (r: Option<&Wavelet<R>>)
        ensures
            match r {
                None => self.wavelets@.len() == 0,
                Some(w) => closest(a, self.frequencies(), xi) matches Some(i) && 0 <= i
                    < self.wavelets@.len() && *w == self.wavelets@[i],
            },
    {
        if self.wavelets.len() == 0 {
            return None;
        }
        let ghost xs = self.frequencies();
        let mut best: usize = 0;
        proof {
            reveal_with_fuel(closest, 2);
            assert(closest(a, xs.take(1), xi) == Some(0int));
        }
        for i in 1..self.wavelets.len()
            invariant
                xs == self.frequencies(),
                best < i <= self.wavelets@.len(),
                closest(a, xs.take(i as int), xi) == Some(best as int),
        {
            assert(xs.take(i as int + 1).drop_last() =~= xs.take(i as int));
            let here = abs(a, minus(a, self.wavelets[i].xi, xi));
            let there = abs(a, minus(a, self.wavelets[best].xi, xi));
            if is_below(a, here, there) {
                best = i;
            }
        }
        assert(xs.take(xs.len() as int) =~= xs);
        Some(&self.wavelets[best])
    }

    /// Littlewood-Paley sum: `sum_lambda |psi_hat_lambda(w)|^2 + |phi_hat(w)|^2`
    /// evaluated on the DFT grid.
    ///
    /// A well-formed bank has this roughly flat across the band it covers.
    /// Large ripple means the analysis is unevenly sensitive to frequency, and
    /// a spectrum analyser display built on it would show phantom structure.
    pub fn littlewood_paley<A: Arithmetic<R>>(&self, a: &A) -> (out: Vec<R>)
        ensures
            out@.len() == self.phi@.len(),
            forall|k: int|
                0 <= k < out@.len() ==> #[trigger] out@[k] == powers(
                    a,
                    product(a, self.phi@[k], self.phi@[k]),
                    self.wavelets@,
                    k,
                ),
    {
        let mut out: Vec<R> = Vec::with_capacity(self.phi.len());
        for k in 0..self.phi.len()
            invariant
                out@.len() == k,
                forall|j: int|
                    0 <= j < k ==> #[trigger] out@[j] == powers(
                        a,
                        product(a, self.phi@[j], self.phi@[j]),
                        self.wavelets@,
                        j,
                    ),
        {
            let mut acc = times(a, self.phi[k], self.phi[k]);
            let ghost start = acc;
            for i in 0..self.wavelets.len()
                invariant
                    acc == powers(a, start, self.wavelets@.take(i as int), k as int),
            {
                assert(self.wavelets@.take(i as int + 1).drop_last() =~= self.wavelets@.take(
                    i as int,
                ));
                if k < self.wavelets[i].spectrum.len() {
                    let v = self.wavelets[i].spectrum[k];
                    acc = plus(a, acc, times(a, v, v));
                }
            }
            assert(self.wavelets@.take(self.wavelets@.len() as int) =~= self.wavelets@);
            out.push(acc);
        }
        out
    }
}

} // verus!
