//! Synthetic complex baseband signals with known answers, for validating the
//! transform without any hardware attached.
//!
//! Frequencies here are baseband offsets in Hz: 0 is the local oscillator,
//! negative is below it. All generators return exactly `n` samples.

use vstd::prelude::*;

use crate::arithmetic::{
    below, cosine, difference, fraction, is_below, larger, ln, logarithm, max, minus, neg,
    negative, num, over, plus, power, product, quotient, ratio, remainder, root, rounded, sine,
    sqrt, sum, tau, times, turn, Arithmetic, Binary, Unary,
};
use crate::complex::{joined, polar, Complex};

verus! {

/// Sample `t` of [`tone`].
pub open spec fn tone_at<R, A: Arithmetic<R>>(
    a: &A,
    fs: R,
    f_hz: R,
    amplitude: R,
    t: u64,
) -> Complex<R> {
    polar(
        a,
        amplitude,
        quotient(a, product(a, product(a, turn(a), f_hz), num(a, t)), fs),
    )
}

/// Unmodulated complex tone: `A exp(i 2 pi f t)`.
///
/// The reference case. First-order coefficients should read `A` at the band
/// containing `f_hz` and the second order should be empty, because a pure tone
/// has a constant envelope and therefore no modulation.
pub fn tone<R: Copy, A: Arithmetic<R>>(a: &A, n: usize, fs: R, f_hz: R, amplitude: R) -> (x: Vec<
    Complex<R>,
>)
    ensures
        x@ == Seq::new(n as nat, |t: int| tone_at(a, fs, f_hz, amplitude, t as u64)),
{
    let mut x: Vec<Complex<R>> = Vec::with_capacity(n);
    for t in 0..n
        invariant
            x@.len() == t,
            forall|s: int| 0 <= s < t ==> x@[s] == tone_at(a, fs, f_hz, amplitude, s as u64),
    {
        let angle = over(a, times(a, times(a, tau(a), f_hz), a.number(t as u64)), fs);
        x.push(Complex::from_polar(a, amplitude, angle));
    }
    assert(x@ =~= Seq::new(n as nat, |t: int| tone_at(a, fs, f_hz, amplitude, t as u64)));
    x
}

/// The envelope of [`am`] after `secs` seconds.
pub open spec fn am_envelope<R, A: Arithmetic<R>>(
    a: &A,
    mod_hz: R,
    depth: R,
    amplitude: R,
    secs: R,
) -> R {
    let swing = cosine(a, product(a, product(a, turn(a), mod_hz), secs));
    product(a, amplitude, sum(a, num(a, 1), product(a, depth, swing)))
}

/// Sample `t` of [`am`].
pub open spec fn am_at<R, A: Arithmetic<R>>(
    a: &A,
    fs: R,
    carrier_hz: R,
    mod_hz: R,
    depth: R,
    amplitude: R,
    t: u64,
) -> Complex<R> {
    let secs = quotient(a, num(a, t), fs);
    polar(
        a,
        am_envelope(a, mod_hz, depth, amplitude, secs),
        product(a, product(a, turn(a), carrier_hz), secs),
    )
}

/// Amplitude modulation: `A (1 + m cos(2 pi f_m t)) exp(i 2 pi f_c t)`.
///
/// With `depth` in [0, 1] the envelope stays non-negative and the modulation
/// depth recovered by [`crate::transform::Scattergram::modulation_depth`] should
/// equal `depth`.
pub fn am<R: Copy, A: Arithmetic<R>>(
    a: &A,
    n: usize,
    fs: R,
    carrier_hz: R,
    mod_hz: R,
    depth: R,
    amplitude: R,
) -> (x: Vec<Complex<R>>)
    ensures
        x@ == Seq::new(
            n as nat,
            |t: int| am_at(a, fs, carrier_hz, mod_hz, depth, amplitude, t as u64),
        ),
{
    let mut x: Vec<Complex<R>> = Vec::with_capacity(n);
    for t in 0..n
        invariant
            x@.len() == t,
            forall|s: int|
                0 <= s < t ==> x@[s] == am_at(
                    a,
                    fs,
                    carrier_hz,
                    mod_hz,
                    depth,
                    amplitude,
                    s as u64,
                ),
    {
        let secs = over(a, a.number(t as u64), fs);
        let swing = a.unary(Unary::Cosine, times(a, times(a, tau(a), mod_hz), secs));
        let envelope = times(a, amplitude, plus(a, a.number(1), times(a, depth, swing)));
        let angle = times(a, times(a, tau(a), carrier_hz), secs);
        x.push(Complex::from_polar(a, envelope, angle));
    }
    assert(x@ =~= Seq::new(
        n as nat,
        |t: int| am_at(a, fs, carrier_hz, mod_hz, depth, amplitude, t as u64),
    ));
    x
}

/// Sample `t` of [`fm`]. The phase is the integral of the instantaneous
/// frequency.
pub open spec fn fm_at<R, A: Arithmetic<R>>(
    a: &A,
    fs: R,
    carrier_hz: R,
    mod_hz: R,
    deviation_hz: R,
    amplitude: R,
    t: u64,
) -> Complex<R> {
    let secs = quotient(a, num(a, t), fs);
    let swing = sine(a, product(a, product(a, turn(a), mod_hz), secs));
    let phase = sum(
        a,
        product(a, product(a, turn(a), carrier_hz), secs),
        product(a, quotient(a, deviation_hz, mod_hz), swing),
    );
    polar(a, amplitude, phase)
}

/// Frequency modulation: constant envelope, carrier swinging `deviation_hz`
/// either side of `carrier_hz` at rate `mod_hz`.
///
/// A useful adversarial case: the envelope is flat, so a naive envelope
/// detector sees nothing, but each first-order band sees the carrier sweeping
/// in and out of it, which the second order picks up at `mod_hz`.
pub fn fm<R: Copy, A: Arithmetic<R>>(
    a: &A,
    n: usize,
    fs: R,
    carrier_hz: R,
    mod_hz: R,
    deviation_hz: R,
    amplitude: R,
) -> (x: Vec<Complex<R>>)
    ensures
        x@ == Seq::new(
            n as nat,
            |t: int| fm_at(a, fs, carrier_hz, mod_hz, deviation_hz, amplitude, t as u64),
        ),
{
    let mut x: Vec<Complex<R>> = Vec::with_capacity(n);
    for t in 0..n
        invariant
            x@.len() == t,
            forall|s: int|
                0 <= s < t ==> x@[s] == fm_at(
                    a,
                    fs,
                    carrier_hz,
                    mod_hz,
                    deviation_hz,
                    amplitude,
                    s as u64,
                ),
    {
        let secs = over(a, a.number(t as u64), fs);
        let swing = a.unary(Unary::Sine, times(a, times(a, tau(a), mod_hz), secs));
        let phase = plus(
            a,
            times(a, times(a, tau(a), carrier_hz), secs),
            times(a, over(a, deviation_hz, mod_hz), swing),
        );
        x.push(Complex::from_polar(a, amplitude, phase));
    }
    assert(x@ =~= Seq::new(
        n as nat,
        |t: int| fm_at(a, fs, carrier_hz, mod_hz, deviation_hz, amplitude, t as u64),
    ));
    x
}

/// Two unmodulated tones, for checking resolution against the stated
/// constant-Q bandwidth.
pub fn two_tone<R: Copy, A: Arithmetic<R>>(
    a: &A,
    n: usize,
    fs: R,
    f1_hz: R,
    a1: R,
    f2_hz: R,
    a2: R,
) -> (x: Vec<Complex<R>>)
    ensures
        x@ == Seq::new(
            n as nat,
            |t: int|
                joined(
                    a,
                    tone_at(a, fs, f1_hz, a1, t as u64),
                    tone_at(a, fs, f2_hz, a2, t as u64),
                ),
        ),
{
    let x1 = tone(a, n, fs, f1_hz, a1);
    let x2 = tone(a, n, fs, f2_hz, a2);
    let mut x: Vec<Complex<R>> = Vec::with_capacity(n);
    for t in 0..n
        invariant
            x1@.len() == n,
            x2@.len() == n,
            x@.len() == t,
            forall|s: int| 0 <= s < t ==> x@[s] == joined(a, x1@[s], x2@[s]),
    {
        x.push(x1[t].plus(a, x2[t]));
    }
    assert(x@ =~= Seq::new(
        n as nat,
        |t: int|
            joined(
                a,
                tone_at(a, fs, f1_hz, a1, t as u64),
                tone_at(a, fs, f2_hz, a2, t as u64),
            ),
    ));
    x
}

/// How fast the frequency of a [`chirp`] of `n` samples changes, Hz per second.
pub open spec fn chirp_rate<R, A: Arithmetic<R>>(
    a: &A,
    n: usize,
    fs: R,
    start_hz: R,
    end_hz: R,
) -> R {
    quotient(a, difference(a, end_hz, start_hz), quotient(a, num(a, n as u64), fs))
}

/// Sample `t` of a [`chirp`] that changes by `rate` Hz per second.
pub open spec fn chirp_at<R, A: Arithmetic<R>>(
    a: &A,
    fs: R,
    start_hz: R,
    rate: R,
    amplitude: R,
    t: u64,
) -> Complex<R> {
    let secs = quotient(a, num(a, t), fs);
    let bend = product(a, product(a, product(a, fraction(a, 1, 2), rate), secs), secs);
    polar(a, amplitude, product(a, turn(a), sum(a, product(a, start_hz, secs), bend)))
}

/// Linear chirp sweeping from `start_hz` to `end_hz` across the block.
pub fn chirp<R: Copy, A: Arithmetic<R>>(
    a: &A,
    n: usize,
    fs: R,
    start_hz: R,
    end_hz: R,
    amplitude: R,
) -> (x: Vec<Complex<R>>)
    ensures
        x@ == Seq::new(
            n as nat,
            |t: int|
                chirp_at(
                    a,
                    fs,
                    start_hz,
                    chirp_rate(a, n, fs, start_hz, end_hz),
                    amplitude,
                    t as u64,
                ),
        ),
{
    let duration = over(a, a.number(n as u64), fs);
    let rate = over(a, minus(a, end_hz, start_hz), duration);
    let mut x: Vec<Complex<R>> = Vec::with_capacity(n);
    for t in 0..n
        invariant
            x@.len() == t,
            forall|s: int|
                0 <= s < t ==> x@[s] == chirp_at(a, fs, start_hz, rate, amplitude, s as u64),
    {
        let secs = over(a, a.number(t as u64), fs);
        let bend = times(a, times(a, times(a, ratio(a, 1, 2), rate), secs), secs);
        let phase = times(a, tau(a), plus(a, times(a, start_hz, secs), bend));
        x.push(Complex::from_polar(a, amplitude, phase));
    }
    assert(x@ =~= Seq::new(
        n as nat,
        |t: int|
            chirp_at(
                a,
                fs,
                start_hz,
                chirp_rate(a, n, fs, start_hz, end_hz),
                amplitude,
                t as u64,
            ),
    ));
    x
}

/// Sample `t` of [`pulsed`].
pub open spec fn pulsed_at<R, A: Arithmetic<R>>(
    a: &A,
    fs: R,
    carrier_hz: R,
    prf_hz: R,
    duty: R,
    amplitude: R,
    t: u64,
) -> Complex<R> {
    let period = quotient(a, fs, prf_hz);
    let phase_in_period = quotient(a, remainder(a, num(a, t), period), period);
    let on = if below(a, phase_in_period, duty) {
        amplitude
    } else {
        num(a, 0)
    };
    tone_at(a, fs, carrier_hz, on, t)
}

/// Rectangular pulse train on a carrier: radar, TDMA bursts, or a pager.
///
/// `prf_hz` is the pulse repetition frequency and `duty` the fraction of each
/// period the carrier is on. The second order should show a line at `prf_hz`.
pub fn pulsed<R: Copy, A: Arithmetic<R>>(
    a: &A,
    n: usize,
    fs: R,
    carrier_hz: R,
    prf_hz: R,
    duty: R,
    amplitude: R,
) -> (x: Vec<Complex<R>>)
    ensures
        x@ == Seq::new(
            n as nat,
            |t: int| pulsed_at(a, fs, carrier_hz, prf_hz, duty, amplitude, t as u64),
        ),
{
    let period = over(a, fs, prf_hz);
    let mut x: Vec<Complex<R>> = Vec::with_capacity(n);
    for t in 0..n
        invariant
            period == quotient(a, fs, prf_hz),
            x@.len() == t,
            forall|s: int|
                0 <= s < t ==> x@[s] == pulsed_at(
                    a,
                    fs,
                    carrier_hz,
                    prf_hz,
                    duty,
                    amplitude,
                    s as u64,
                ),
    {
        let now = a.number(t as u64);
        let phase_in_period = over(a, a.binary(Binary::Remainder, now, period), period);
        let on = if is_below(a, phase_in_period, duty) {
            amplitude
        } else {
            a.number(0)
        };
        let angle = over(a, times(a, times(a, tau(a), carrier_hz), now), fs);
        x.push(Complex::from_polar(a, on, angle));
    }
    assert(x@ =~= Seq::new(
        n as nat,
        |t: int| pulsed_at(a, fs, carrier_hz, prf_hz, duty, amplitude, t as u64),
    ));
    x
}

/// One step of the generator.
pub open spec fn xorshift(x: u64) -> u64 {
    let y = x ^ (x << 13);
    let z = y ^ (y >> 7);
    z ^ (z << 17)
}

/// The state of the generator after `k` steps from `x`.
pub open spec fn stepped(x: u64, k: nat) -> u64
    decreases k,
{
    if k == 0 {
        x
    } else {
        xorshift(stepped(x, (k - 1) as nat))
    }
}

/// The value on [0, 1) that 64 random bits stand for: the top 53 of them, over
/// `2^53`.
pub open spec fn uniform<R, A: Arithmetic<R>>(a: &A, bits: u64) -> R {
    fraction(a, bits >> 11, 0x20_0000_0000_0000)
}

/// The normal deviate drawn by a generator in state `x`: Box-Muller, on its next
/// two values.
pub open spec fn deviate<R, A: Arithmetic<R>>(a: &A, x: u64) -> R {
    let u1 = larger(a, uniform(a, stepped(x, 1)), tiny(a));
    let u2 = uniform(a, stepped(x, 2));
    product(
        a,
        root(a, product(a, negative(a, num(a, 2)), logarithm(a, u1))),
        cosine(a, product(a, turn(a), u2)),
    )
}

/// The smallest positive value of full precision, `2^-1022`.
pub open spec fn tiny<R, A: Arithmetic<R>>(a: &A) -> R {
    power(a, num(a, 2), negative(a, num(a, 1022)))
}

/// Deterministic pseudo-random source, so work involving noise is reproducible
/// without pulling in an RNG dependency.
pub struct Xorshift(u64);

impl Xorshift {
    /// The state of the generator.
    pub closed spec fn state(&self) -> u64 {
        self.0
    }

    /// A generator in state zero would stay there.
    #[verifier::type_invariant]
    spec fn alive(&self) -> bool {
        self.0 != 0
    }

    pub fn new(seed: u64) -> (rng: Self)
        ensures
            rng.state() == seed | 1,
            rng.state() != 0,
    {
        assert(seed | 1 != 0) by (bit_vector);
        Xorshift(seed | 1)
    }

    /// Next 64 bits. Never zero.
    pub fn next_u64(&mut self) -> (r: u64)
        ensures
            r == xorshift(old(self).state()),
            final(self).state() == r,
            r != 0,
    {
        proof {
            use_type_invariant(&*self);
            lemma_xorshift_alive(self.0);
        }
        let mut x: u64 = self.0;
        x = x ^ (x << 13);
        x = x ^ (x >> 7);
        x = x ^ (x << 17);
        self.0 = x;
        x
    }

    /// Uniform on [0, 1).
    fn next_uniform<R: Copy, A: Arithmetic<R>>(&mut self, a: &A) -> (r: R)
        ensures
            r == uniform(a, xorshift(old(self).state())),
            final(self).state() == xorshift(old(self).state()),
    {
        let bits: u64 = self.next_u64();
        ratio(a, bits >> 11, 0x20_0000_0000_0000)
    }

    /// Standard normal, via Box-Muller.
    pub fn normal<R: Copy, A: Arithmetic<R>>(&mut self, a: &A) -> (r: R)
        ensures
            r == deviate(a, old(self).state()),
            final(self).state() == stepped(old(self).state(), 2),
    {
        proof {
            reveal_with_fuel(stepped, 3);
        }
        let tiny = a.binary(Binary::Power, a.number(2), neg(a, a.number(1022)));
        let u1 = max(a, self.next_uniform(a), tiny);
        let u2 = self.next_uniform(a);
        let radius = sqrt(a, times(a, neg(a, a.number(2)), ln(a, u1)));
        times(a, radius, a.unary(Unary::Cosine, times(a, tau(a), u2)))
    }
}

/// A generator that is not in state zero does not get there.
pub proof fn lemma_xorshift_alive(x: u64)
    requires
        x != 0,
    ensures
        xorshift(x) != 0,
{
    let y = x ^ (x << 13);
    let z = y ^ (y >> 7);
    assert(x ^ (x << 13) != 0) by (bit_vector)
        requires
            x != 0,
    ;
    assert(y ^ (y >> 7) != 0) by (bit_vector)
        requires
            y != 0,
    ;
    assert(z ^ (z << 17) != 0) by (bit_vector)
        requires
            z != 0,
    ;
}

/// Steps add up.
pub proof fn lemma_stepped(x: u64, j: nat, k: nat)
    ensures
        stepped(stepped(x, j), k) == stepped(x, j + k),
    decreases k,
{
    if k > 0 {
        lemma_stepped(x, j, (k - 1) as nat);
    }
}

/// The noise added to sample `i`, from a generator that starts in state `x`.
pub open spec fn noise_at<R, A: Arithmetic<R>>(a: &A, sigma: R, x: u64, i: int) -> Complex<R> {
    Complex {
        re: product(a, sigma, deviate(a, stepped(x, (4 * i) as nat))),
        im: product(a, sigma, deviate(a, stepped(x, (4 * i + 2) as nat))),
    }
}

/// Adds circular complex Gaussian noise of the given per-component standard
/// deviation, in the same units as the signal amplitude.
pub fn add_noise<R: Copy, A: Arithmetic<R>>(
    a: &A,
    x: &mut Vec<Complex<R>>,
    sigma: R,
    seed: u64,
)
    ensures
        final(x)@ == Seq::new(
            old(x)@.len(),
            |i: int| joined(a, old(x)@[i], noise_at(a, sigma, seed | 1, i)),
        ),
{
    let ghost given = x@;
    let mut rng = Xorshift::new(seed);
    let n: usize = x.len();
    for i in 0..n
        invariant
            n == given.len() == x@.len(),
            rng.state() == stepped(seed | 1, (4 * i) as nat),
            forall|j: int|
                0 <= j < i ==> x@[j] == joined(a, given[j], noise_at(a, sigma, seed | 1, j)),
            forall|j: int| i <= j < n ==> x@[j] == given[j],
    {
        let re = times(a, sigma, rng.normal(a));
        let im = times(a, sigma, rng.normal(a));
        proof {
            lemma_stepped(seed | 1, (4 * i) as nat, 2);
            lemma_stepped(seed | 1, (4 * i + 2) as nat, 2);
        }
        let v = x[i].plus(a, Complex::new(re, im));
        x.set(i, v);
    }
    assert(x@ =~= Seq::new(
        given.len(),
        |i: int| joined(a, given[i], noise_at(a, sigma, seed | 1, i)),
    ));
}

/// `x`, moved to the nearer end of the range from `lo` to `hi` if it lies
/// outside.
pub open spec fn clamped<R, A: Arithmetic<R>>(a: &A, x: R, lo: R, hi: R) -> R {
    let raised = if below(a, x, lo) {
        lo
    } else {
        x
    };
    if below(a, hi, raised) {
        hi
    } else {
        raised
    }
}

/// How many levels an n-bit grid has on either side of zero.
pub open spec fn level_count(bits: u32) -> u64 {
    1u64 << ((bits - 1) as u64)
}

/// `v` on the signed n-bit grid of the given full scale.
pub open spec fn quantised<R, A: Arithmetic<R>>(a: &A, v: R, bits: u32, full_scale: R) -> R {
    let levels = num(a, level_count(bits));
    let step = quotient(a, full_scale, levels);
    let code = clamped(
        a,
        rounded(a, quotient(a, v, step)),
        negative(a, levels),
        difference(a, levels, num(a, 1)),
    );
    product(a, code, step)
}

fn quantise_value<R: Copy, A: Arithmetic<R>>(a: &A, v: R, levels: R, step: R) -> (r: R)
    ensures
        r == product(
            a,
            clamped(
                a,
                rounded(a, quotient(a, v, step)),
                negative(a, levels),
                difference(a, levels, num(a, 1)),
            ),
            step,
        ),
{
    let lo = neg(a, levels);
    let hi = minus(a, levels, a.number(1));
    let mut code = a.unary(Unary::Round, over(a, v, step));
    if is_below(a, code, lo) {
        code = lo;
    }
    if is_below(a, hi, code) {
        code = hi;
    }
    times(a, code, step)
}

/// Quantises to a signed n-bit grid with the given full-scale amplitude,
/// mimicking the 8-bit ADC in an RTL-SDR. Values beyond full scale clip, which
/// is exactly the front-end overload behaviour worth testing against.
pub fn quantise<R: Copy, A: Arithmetic<R>>(
    a: &A,
    x: &mut Vec<Complex<R>>,
    bits: u32,
    full_scale: R,
)
    requires
        1 <= bits <= 63,
    ensures
        final(x)@ == old(x)@.map_values(
            |z: Complex<R>|
                Complex {
                    re: quantised(a, z.re, bits, full_scale),
                    im: quantised(a, z.im, bits, full_scale),
                },
        ),
{
    let ghost given = x@;
    let shift: u64 = (bits - 1) as u64;
    let levels = a.number(1u64 << shift);
    let step = over(a, full_scale, levels);
    let n: usize = x.len();
    for i in 0..n
        invariant
            n == given.len() == x@.len(),
            levels == num(a, level_count(bits)),
            step == quotient(a, full_scale, levels),
            forall|j: int|
                0 <= j < i ==> x@[j] == (Complex {
                    re: quantised(a, given[j].re, bits, full_scale),
                    im: quantised(a, given[j].im, bits, full_scale),
                }),
            forall|j: int| i <= j < n ==> x@[j] == given[j],
    {
        let re = quantise_value(a, x[i].re, levels, step);
        let im = quantise_value(a, x[i].im, levels, step);
        x.set(i, Complex::new(re, im));
    }
    assert(x@ =~= given.map_values(
        |z: Complex<R>|
            Complex {
                re: quantised(a, z.re, bits, full_scale),
                im: quantised(a, z.im, bits, full_scale),
            },
    ));
}

} // verus!
