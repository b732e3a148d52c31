//! The scattering transform proper.
//!
//! # What the two orders mean
//!
//! Given input `x` (complex baseband I/Q, or real), a wavelet bank `psi` and a
//! lowpass `phi`:
//!
//! ```text
//! S0        = |x| * phi
//! S1[l1]    = | x * psi_l1 | * phi
//! S2[l1,l2] = | |x * psi_l1| * psi_l2 | * phi
//! ```
//!
//! `S1` indexed by `l1` (lambda-one, a carrier frequency in Hz) is a
//! constant-Q spectrum: the familiar picture. `S2` is the interesting one. The
//! inner modulus strips the carrier and leaves the envelope of band `l1`; the
//! second wavelet then asks at what *rate* that envelope fluctuates. So `l2` is
//! a modulation rate in Hz, not a carrier frequency, and `S2` read as an image
//! over `(l1, l2)` is a modulation spectrum.
//!
//! # Units
//!
//! Wavelets are normalised to unit peak gain, so a complex tone of amplitude
//! `A` volts sitting exactly at `l1` produces `S1[l1] = A` volts. `S2` is best
//! read relative to `S1`: see [`Scattergram::modulation_depth`].
//!
//! # Sample rates
//!
//! `S1` and `S2` share one output time axis, at `out_rate_hz`, which is far
//! below the input rate because averaging by `phi` makes the coefficients
//! smooth. Decimation happens twice: once after the first modulus (down to a
//! rate that still resolves `max_mod_hz`) and once after averaging.

use std::collections::HashMap;

use vstd::arithmetic::div_mod::{
    lemma_add_mod_noop, lemma_fundamental_div_mod_converse, lemma_sub_mod_noop,
};
use vstd::prelude::*;

use crate::arithmetic::{
    abs, at_most, below, ceiling, exp, exponential, fraction, is_at_most, is_below, larger, largest,
    largest_of, ln, logarithm, magnitude, max, num, over, plus, product, quotient, ratio, root,
    rounded, smallest, sqrt, times, total, wrapped, Arithmetic, Binary, Unary,
};
use crate::complex::{
    envelope, real_parts, scaled, take_envelope, take_real_parts, Complex,
};
use crate::fft::{
    decimate_spectrum, decimated, factor, inverted, keeps_length, power_of_two_factor, transformed,
    whole_limit, Direction, Engine, Plans,
};
use crate::filterbank::{
    closest, default_r, half_power_level, kernel, lowest_centre, lowpass, min_xi_for_length,
    narrowest, sigma_min_for_length, support, BankSpec, FilterBank, Wavelet,
};
use crate::powers::{
    is_power_of_two, lemma_divides, lemma_double, lemma_next_pow2, next_pow2, next_power_of_two,
    power_of_two,
};

verus! {

broadcast use vstd::std_specs::hash::group_hash_axioms;

/// How much longer than the averaging window `T` the block has to be. The kernel
/// has a time-domain standard deviation of `T/2`, so `+/-3 sigma` spans `3T`,
/// and it may occupy a quarter of the block.
pub open spec fn averaging_span<R, A: Arithmetic<R>>(a: &A, invariance_s: R, fs: R) -> R {
    quotient(a, product(a, product(a, invariance_s, fs), num(a, 3)), fraction(a, 1, 4))
}

/// Why a configuration cannot be satisfied at a given block length.
#[derive(Clone, Copy, Debug, PartialEq, Eq, Structural)]
pub enum ConfigError {
    /// The block length is not a power of two.
    BlockLength,
    /// The highest modulation rate is not between zero and half the sample rate.
    ModulationRate,
    /// The averaging window is too long for the block.
    Invariance,
    /// No first-order filter fits in the block.
    CarrierBank,
    /// No second-order filter fits in the block.
    ModulationBank,
}

/// Everything needed to specify an analysis.
#[derive(Clone, Copy, Debug)]
pub struct Config<R> {
    /// Input sample rate, Hz. For an RTL-SDR this is the I/Q rate, e.g. 2.4e6.
    pub fs: R,
    /// Quality factor of the first-order (carrier) bank.
    ///
    /// This is the constant-Q tradeoff made explicit. High `q1` resolves close
    /// tones but responds sluggishly; low `q1` tracks fast transients.
    pub q1: R,
    /// Octaves of carrier frequency covered below `xi1_max`.
    pub octaves1: R,
    /// Highest first-order centre frequency as a fraction of the sample rate.
    /// Keep below 0.5; 0.4 leaves headroom for the filter skirt.
    pub xi1_max: R,
    /// Quality factor of the second-order (modulation rate) bank.
    pub q2: R,
    /// Octaves of modulation rate covered below `max_mod_hz`.
    pub octaves2: R,
    /// Highest modulation rate the second order will report, Hz.
    pub max_mod_hz: R,
    /// Averaging scale `T`, seconds. Sets output time resolution and the
    /// lowest modulation rate that is averaged away rather than resolved.
    pub invariance_s: R,
    /// True for complex baseband input, which needs a two-sided first-order
    /// bank because negative baseband frequency means "below the local
    /// oscillator" and carries real signal. False for real input.
    pub complex_input: bool,
    /// Compute second order. Turning it off is roughly a 10x saving when only
    /// the constant-Q spectrum is wanted.
    pub order2: bool,
    /// Extract each first-order band at its own reduced sample rate instead of
    /// filtering at the full input rate.
    ///
    /// A wavelet passes a narrow band, above the elbow one proportional to its
    /// centre frequency, so its output can be shifted to baseband and
    /// represented at a far lower rate with next to no loss. Doing that turns
    /// the per-band cost from `O(N log N)` into something proportional to the
    /// band's own width, which for a constant-Q bank sums to a geometric series
    /// rather than a flat `J x N`. On a 2.4 MSa/s stream it is the difference
    /// between roughly ten times slower than real time and comfortably faster.
    ///
    /// The one approximation: the modulus is a nonlinear operation, so it
    /// generates content above the extracted band's edge, and computing it at
    /// the reduced rate aliases whatever lies beyond. The extraction keeps
    /// generous margin around each wavelet to push that content well down. Set
    /// this to false to filter at full rate and check the difference.
    pub subband: bool,
}

impl<R: Copy> Config<R> {
    /// How far first-order envelopes are decimated in an `n`-point block: as far
    /// as leaves the highest modulation rate at a quarter of the new rate.
    pub open spec fn envelope_step<A: Arithmetic<R>>(&self, a: &A, n: int) -> int {
        let limit = quotient(a, product(a, fraction(a, 1, 4), self.fs), self.max_mod_hz);
        factor(whole_limit(a, limit), n)
    }

    /// The sample rate of the first-order envelopes, decimated by `d1`.
    pub open spec fn envelope_rate<A: Arithmetic<R>>(&self, a: &A, d1: int) -> R {
        quotient(a, self.fs, num(a, d1 as u64))
    }

    /// The first-order bank asked for.
    pub open spec fn carrier_spec<A: Arithmetic<R>>(&self, a: &A) -> BankSpec<R> {
        BankSpec {
            q: self.q1,
            r: half_power_level(a),
            xi_max: self.xi1_max,
            octaves: self.octaves1,
            two_sided: self.complex_input,
        }
    }

    /// The second-order bank asked for, on envelopes decimated by `d1`. Always
    /// one-sided: its input is a modulus, hence real and non-negative, so
    /// negative modulation rates would be redundant.
    pub open spec fn modulation_spec<A: Arithmetic<R>>(&self, a: &A, d1: int) -> BankSpec<R> {
        BankSpec {
            q: self.q2,
            r: half_power_level(a),
            xi_max: quotient(a, self.max_mod_hz, self.envelope_rate(a, d1)),
            octaves: self.octaves2,
            two_sided: false,
        }
    }

    /// Whether the highest modulation rate lies between zero and half the sample
    /// rate.
    pub open spec fn modulation_in_range<A: Arithmetic<R>>(&self, a: &A) -> bool {
        &&& below(a, num(a, 0), self.max_mod_hz)
        &&& below(a, self.max_mod_hz, quotient(a, self.fs, num(a, 2)))
    }

    /// Whether the averaging window fits in an `n`-point block.
    pub open spec fn window_fits<A: Arithmetic<R>>(&self, a: &A, n: usize) -> bool {
        at_most(a, averaging_span(a, self.invariance_s, self.fs), num(a, n as u64))
    }

    /// Whether any first-order filter fits in an `n`-point block.
    pub open spec fn carriers_fit<A: Arithmetic<R>>(&self, a: &A, n: usize) -> bool {
        self.carrier_spec(a).filters(a, narrowest(a, n)).len() > 0
    }

    /// Whether any second-order filter fits in an `n`-point block.
    pub open spec fn modulations_fit<A: Arithmetic<R>>(&self, a: &A, n: usize) -> bool {
        let d1 = self.envelope_step(a, n as int);
        self.modulation_spec(a, d1).filters(a, narrowest(a, (n as int / d1) as usize)).len() > 0
    }

    /// Whether blocks of `n` samples can be analysed, and if not, what stands in
    /// the way.
    pub open spec fn verdict<A: Arithmetic<R>>(&self, a: &A, n: usize) -> Result<(), ConfigError> {
        if !power_of_two(n as int) {
            Err(ConfigError::BlockLength)
        } else if !self.modulation_in_range(a) {
            Err(ConfigError::ModulationRate)
        } else if !self.window_fits(a, n) {
            Err(ConfigError::Invariance)
        } else if !self.carriers_fit(a, n) {
            Err(ConfigError::CarrierBank)
        } else if !self.modulations_fit(a, n) {
            Err(ConfigError::ModulationBank)
        } else {
            Ok(())
        }
    }

    /// Defaults for an RTL-SDR style complex baseband stream.
    ///
    /// Modulation rates from roughly 150 Hz to 10 kHz, reachable in a block of
    /// about a fifth of a second. Reaching further down costs block length in
    /// direct proportion: seeing mains-rate interference at 100 Hz needs
    /// something closer to a second of I/Q, which at 2.4 MSa/s is a few million
    /// complex samples. Use [`Config::block_len_for`] to size it rather than
    /// guessing, and expect the second-order display to refresh once or twice a
    /// second at that depth rather than at video rate.
    pub fn for_iq<A: Arithmetic<R>>(a: &A, fs: R) -> (config: Self)
        ensures
            config.fs == fs,
            config.q1 == num(a, 8),
            config.octaves1 == num(a, 6),
            config.xi1_max == fraction(a, 2, 5),
            config.q2 == num(a, 4),
            config.octaves2 == num(a, 6),
            config.max_mod_hz == num(a, 10_000),
            config.invariance_s == fraction(a, 1, 200),
            config.complex_input,
            config.order2,
            config.subband,
    {
        Config {
            fs,
            q1: a.number(8),
            octaves1: a.number(6),
            xi1_max: ratio(a, 2, 5),
            q2: a.number(4),
            octaves2: a.number(6),
            max_mod_hz: a.number(10_000),
            invariance_s: ratio(a, 1, 200),
            complex_input: true,
            order2: true,
            subband: true,
        }
    }

    /// Defaults for a real-valued input, such as audio or a scope channel.
    pub fn for_real<A: Arithmetic<R>>(a: &A, fs: R) -> (config: Self)
        ensures
            !config.complex_input,
            config.fs == fs,
            config.q1 == num(a, 8),
            config.octaves1 == num(a, 6),
            config.xi1_max == fraction(a, 2, 5),
            config.q2 == num(a, 4),
            config.octaves2 == num(a, 6),
            config.max_mod_hz == num(a, 10_000),
            config.invariance_s == fraction(a, 1, 200),
            config.order2,
            config.subband,
    {
        let mut config = Config::for_iq(a, fs);
        config.complex_input = false;
        config
    }

    fn carrier_bank<A: Arithmetic<R>>(&self, a: &A) -> (spec: BankSpec<R>)
        ensures
            spec == self.carrier_spec(a),
    {
        BankSpec {
            q: self.q1,
            r: default_r(a),
            xi_max: self.xi1_max,
            octaves: self.octaves1,
            two_sided: self.complex_input,
        }
    }

    fn modulation_bank<A: Arithmetic<R>>(&self, a: &A, d1: usize) -> (spec: BankSpec<R>)
        ensures
            spec == self.modulation_spec(a, d1 as int),
    {
        BankSpec {
            q: self.q2,
            r: default_r(a),
            xi_max: over(a, self.max_mod_hz, over(a, self.fs, a.number(d1 as u64))),
            octaves: self.octaves2,
            two_sided: false,
        }
    }

    /// Decimation of first-order envelopes. Placing `max_mod_hz` at a quarter of
    /// the decimated rate leaves the top of the lambda2 bank clear of the band
    /// edge.
    fn envelope_decimation<A: Arithmetic<R>>(&self, a: &A, n: usize) -> (d1: usize)
        ensures
            d1 == self.envelope_step(a, n as int),
            d1 >= 1,
            n as int % d1 as int == 0,
            power_of_two(d1 as int),
    {
        power_of_two_factor(
            a,
            over(a, times(a, ratio(a, 1, 4), self.fs), self.max_mod_hz),
            n,
        )
    }

    /// Samples the block must have for the averaging window to fit.
    fn averaging_samples<A: Arithmetic<R>>(&self, a: &A) -> (r: R)
        ensures
            r == averaging_span(a, self.invariance_s, self.fs),
    {
        over(a, times(a, times(a, self.invariance_s, self.fs), a.number(3)), ratio(a, 1, 4))
    }

    /// Whether blocks of `n` samples can be analysed under this configuration.
    ///
    /// The averaging kernel has a time-domain standard deviation of T/2, so its
    /// +/-3 sigma support is 3T. Held to the same quarter-block rule as the
    /// wavelets, that caps T at n/12 samples.
    pub fn check<A: Arithmetic<R>>(&self, a: &A, n: usize) -> (r: Result<(), ConfigError>)
        ensures
            r == self.verdict(a, n),
    {
        if !is_power_of_two(n) {
            return Err(ConfigError::BlockLength);
        }
        if !(is_below(a, a.number(0), self.max_mod_hz) && is_below(
            a,
            self.max_mod_hz,
            over(a, self.fs, a.number(2)),
        )) {
            return Err(ConfigError::ModulationRate);
        }
        if !is_at_most(a, self.averaging_samples(a), a.number(n as u64)) {
            return Err(ConfigError::Invariance);
        }
        if self.carrier_bank(a).plan(a, sigma_min_for_length(a, n)).len() == 0 {
            return Err(ConfigError::CarrierBank);
        }
        let d1: usize = self.envelope_decimation(a, n);
        if self.modulation_bank(a, d1).plan(a, sigma_min_for_length(a, n / d1)).len() == 0 {
            return Err(ConfigError::ModulationBank);
        }
        Ok(())
    }

    /// How far first-order envelopes are decimated in a block that is long
    /// enough for anything.
    pub open spec fn sizing_step<A: Arithmetic<R>>(&self, a: &A) -> int {
        self.envelope_step(a, 0x4000_0000)
    }

    /// `min_mod_hz` in cycles per sample of the decimated envelopes.
    pub open spec fn target<A: Arithmetic<R>>(&self, a: &A, min_mod_hz: R) -> R {
        quotient(a, min_mod_hz, self.envelope_rate(a, self.sizing_step(a)))
    }

    /// The first length to try: a power of two that holds the wavelet and the
    /// averaging window, going by the bound on each.
    pub open spec fn first_length<A: Arithmetic<R>>(&self, a: &A, min_mod_hz: R) -> int {
        let d1 = self.sizing_step(a);
        let for_wavelet = product(
            a,
            quotient(a, lowest_centre(a, 1), self.target(a, min_mod_hz)),
            num(a, d1 as u64),
        );
        let for_averaging = averaging_span(a, self.invariance_s, self.fs);
        let samples = ceiling(a, larger(a, for_wavelet, for_averaging));
        let length = next_pow2(a.whole_of(larger(a, samples, num(a, 1))) as int);
        if length < d1 {
            d1
        } else {
            length
        }
    }

    /// The lowest modulation rate that a block of `n` samples reaches, in cycles
    /// per sample of the decimated envelopes. Infinite if it reaches none.
    pub open spec fn reached<A: Arithmetic<R>>(&self, a: &A, n: int) -> R {
        let d1 = self.sizing_step(a);
        let filters = self.modulation_spec(a, d1).filters(a, narrowest(a, (n / d1) as usize));
        if filters.len() > 0 {
            filters.last().0
        } else {
            fraction(a, 1, 0)
        }
    }

    /// `n`, doubled until it reaches `min_mod_hz`, at most `tries` times.
    pub open spec fn grown<A: Arithmetic<R>>(
        &self,
        a: &A,
        min_mod_hz: R,
        n: int,
        tries: int,
    ) -> int
        decreases tries,
    {
        if tries <= 0 || at_most(a, self.reached(a, n), self.target(a, min_mod_hz)) {
            n
        } else {
            self.grown(a, min_mod_hz, 2 * n, tries - 1)
        }
    }

    /// Growing does not shrink.
    pub proof fn lemma_grown<A: Arithmetic<R>>(&self, a: &A, min_mod_hz: R, n: int, tries: int)
        requires
            n >= 0,
        ensures
            self.grown(a, min_mod_hz, n, tries) >= n,
        decreases tries,
    {
        if !(tries <= 0 || at_most(a, self.reached(a, n), self.target(a, min_mod_hz))) {
            self.lemma_grown(a, min_mod_hz, 2 * n, tries - 1);
        }
    }

    /// Block length, in samples, needed before a modulation rate of
    /// `min_mod_hz` appears in the second order at all. `None` if that is more
    /// than the machine can count.
    ///
    /// Takes the larger of two constraints, the wavelet length and the
    /// averaging window, and rounds up to a power of two. The dependence on
    /// rate is inverse: seeing 10 Hz costs ten times the block that seeing
    /// 100 Hz does, and no amount of processing evades it.
    ///
    /// Since the bank turns constant-bandwidth below the elbow, this does not
    /// scale with `q2`. What `q2` still buys is *resolution* at that rate:
    /// reaching 50 Hz is one question, resolving 50 Hz from 55 Hz is another,
    /// and only the second gets harder as `q2` rises. Check
    /// [`Scattering::rbw_hz`] for what the filter down there is actually doing.
    pub fn block_len_for<A: Arithmetic<R>>(&self, a: &A, min_mod_hz: R) -> (r: Option<usize>)
        ensures
            match r {
                Some(n) => n == self.grown(a, min_mod_hz, self.first_length(a, min_mod_hz), 8),
                None => self.grown(a, min_mod_hz, self.first_length(a, min_mod_hz), 8)
                    > usize::MAX,
            },
    {
        // Wavelets are built on the grid decimated by d1, so the requirement is
        // expressed there and then scaled back up.
        let d1: usize = self.envelope_decimation(a, 0x4000_0000);
        let fs1 = over(a, self.fs, a.number(d1 as u64));
        let target_xi = over(a, min_mod_hz, fs1);

        // min_xi_for_length is inversely proportional to n, so evaluating it at
        // n = 1 gives the constant to divide by the target frequency.
        let for_wavelet = times(
            a,
            over(a, min_xi_for_length(a, 1), target_xi),
            a.number(d1 as u64),
        );
        let for_averaging = self.averaging_samples(a);
        let samples = a.unary(Unary::Ceiling, max(a, for_wavelet, for_averaging));
        let whole: usize = a.whole(max(a, samples, a.number(1)));
        let ghost first = self.first_length(a, min_mod_hz);
        proof {
            lemma_next_pow2(whole as int);
            self.lemma_grown(a, min_mod_hz, first, 8);
        }
        let mut n: usize = match next_power_of_two(whole) {
            Some(length) => if length < d1 {
                d1
            } else {
                length
            },
            None => {
                return None;
            },
        };
        assert(n == first);

        // That estimate is the *bound*, not the achieved floor. Below the elbow
        // the bank steps down by a fixed amount from wherever constant-Q
        // stopped, so where it finally lands is quantised to within one step
        // and the bound can be missed by that much. Rather than pad by a fudge
        // factor, ask the plan the bank will actually build and double until it
        // genuinely reaches. Planning is pure arithmetic, so this is cheap.
        let spec = self.modulation_bank(a, d1);
        let mut tries: usize = 8;
        while tries > 0
            invariant
                tries <= 8,
                first == self.first_length(a, min_mod_hz),
                d1 >= 1,
                d1 == self.sizing_step(a),
                spec == self.modulation_spec(a, d1 as int),
                target_xi == self.target(a, min_mod_hz),
                self.grown(a, min_mod_hz, n as int, tries as int) == self.grown(
                    a,
                    min_mod_hz,
                    first,
                    8,
                ),
            ensures
                n == self.grown(a, min_mod_hz, first, 8),
            decreases tries,
        {
            let plan = spec.plan(a, sigma_min_for_length(a, n / d1));
            let floor = if plan.len() > 0 {
                plan[plan.len() - 1].0
            } else {
                ratio(a, 1, 0)
            };
            if is_at_most(a, floor, target_xi) {
                break ;
            }
            if n > usize::MAX / 2 {
                proof {
                    self.lemma_grown(a, min_mod_hz, 2 * n as int, tries - 1);
                }
                return None;
            }
            n = 2 * n;
            tries = tries - 1;
        }
        Some(n)
    }
}

/// What an analyser actually ended up covering, which may be less than was
/// asked for if the block was too short.
#[derive(Clone, Copy, Debug)]
pub struct Coverage<R> {
    /// Smallest carrier offset resolved, Hz.
    pub min_carrier_hz: R,
    /// Largest carrier offset resolved, Hz.
    pub max_carrier_hz: R,
    /// Slowest modulation rate resolved, Hz.
    pub min_mod_hz: R,
    /// Fastest modulation rate resolved, Hz.
    pub max_mod_hz: R,
    /// Carrier frequency where the first-order bank stops being constant-Q,
    /// in Hz, if the block was short enough to reach it.
    pub elbow_carrier_hz: Option<R>,
    /// Modulation rate where the second-order bank stops being constant-Q, in
    /// Hz, if the block was short enough to reach it.
    pub elbow_mod_hz: Option<R>,
    /// Output time-axis sample rate, Hz.
    pub out_rate_hz: R,
    /// Block duration, seconds.
    pub block_s: R,
}

/// The mean of `xs`, zero if there are none.
pub open spec fn mean_of<R, A: Arithmetic<R>>(a: &A, xs: Seq<R>) -> R {
    if xs.len() == 0 {
        num(a, 0)
    } else {
        quotient(a, total(a, xs), num(a, xs.len() as u64))
    }
}

/// The index of the largest value of `xs`, the first of equals: where the next
/// value is not at most the best so far, it takes over.
pub open spec fn peak_index<R, A: Arithmetic<R>>(a: &A, xs: Seq<R>) -> Option<int>
    decreases xs.len(),
{
    if xs.len() == 0 {
        None
    } else {
        match peak_index(a, xs.drop_last()) {
            Some(i) => if at_most(a, xs.last(), xs[i]) {
                Some(i)
            } else {
                Some(xs.len() - 1)
            },
            None => Some(xs.len() - 1),
        }
    }
}

fn mean<R: Copy, A: Arithmetic<R>>(a: &A, xs: &Vec<R>, from: usize, to: usize) -> (r: R)
    requires
        from <= to <= xs@.len(),
    ensures
        r == mean_of(a, xs@.subrange(from as int, to as int)),
{
    if from == to {
        return a.number(0);
    }
    let ghost part = xs@.subrange(from as int, to as int);
    let mut acc = a.number(0);
    for i in from..to
        invariant
            from <= i <= to <= xs@.len(),
            part == xs@.subrange(from as int, to as int),
            acc == total(a, part.take(i - from)),
    {
        assert(part.take(i - from + 1).drop_last() =~= part.take(i - from));
        acc = plus(a, acc, xs[i]);
    }
    assert(part.take(part.len() as int) =~= part);
    over(a, acc, a.number((to - from) as u64))
}

fn argmax<R: Copy, A: Arithmetic<R>>(a: &A, xs: &Vec<R>) -> (r: Option<usize>)
    ensures
        match r {
            Some(i) => peak_index(a, xs@) == Some(i as int) && i < xs@.len(),
            None => peak_index(a, xs@) is None && xs@.len() == 0,
        },
{
    if xs.len() == 0 {
        return None;
    }
    let mut best: usize = 0;
    proof {
        reveal_with_fuel(peak_index, 2);
        assert(peak_index(a, xs@.take(1)) == Some(0int));
    }
    for i in 1..xs.len()
        invariant
            best < i <= xs@.len(),
            peak_index(a, xs@.take(i as int)) == Some(best as int),
    {
        assert(xs@.take(i as int + 1).drop_last() =~= xs@.take(i as int));
        if !is_at_most(a, xs[i], xs[best]) {
            best = i;
        }
    }
    assert(xs@.take(xs@.len() as int) =~= xs@);
    Some(best)
}

/// Result of one block analysis.
pub struct Scattergram<R> {
    /// First-order centre frequencies, Hz. Signed for complex input: negative
    /// means below the local oscillator. Monotonically increasing.
    pub lambda1_hz: Vec<R>,
    /// Second-order centre frequencies, Hz. These are modulation *rates*.
    pub lambda2_hz: Vec<R>,
    /// Zeroth order: the lowpassed envelope of the whole input. `[time]`
    pub s0: Vec<R>,
    /// First order, `[lambda1][time]`, in input amplitude units.
    pub s1: Vec<Vec<R>>,
    /// Second order, `[lambda1][lambda2][time]`. Empty if `order2` was false.
    pub s2: Vec<Vec<Vec<R>>>,
    /// Sample rate of the output time axis, Hz.
    pub out_rate_hz: R,
    /// Seconds at each end of the output contaminated by circular-convolution
    /// wraparound. Trim this much before believing anything near the edges.
    pub edge_margin_s: R,
}

/// The first and last output sample, exclusive, once `margin` is trimmed off
/// each end of `n`. All of them if that would leave none.
pub open spec fn trimmed(n: int, margin: int) -> (int, int) {
    if 2 * margin >= n {
        (0, n)
    } else {
        (margin, n - margin)
    }
}

impl<R: Copy> Scattergram<R> {
    /// Every row of coefficients is as long as the output time axis; there is
    /// one first-order row to a carrier, and either no second order or one row
    /// to a carrier and rate.
    pub open spec fn wf(&self) -> bool {
        &&& self.s1@.len() == self.lambda1_hz@.len()
        &&& self.first_fits()
        &&& self.s2@.len() == 0 || self.s2@.len() == self.s1@.len()
        &&& forall|i: int|
            0 <= i < self.s2@.len() ==> (#[trigger] self.s2@[i])@.len()
                == self.lambda2_hz@.len()
        &&& forall|i: int, j: int|
            0 <= i < self.s2@.len() && 0 <= j < self.s2@[i]@.len() ==> (
            #[trigger] self.s2@[i]@[j])@.len() == self.s0@.len()
    }

    /// Every first-order row is as long as the output time axis.
    pub open spec fn first_fits(&self) -> bool {
        forall|i: int|
            0 <= i < self.s1@.len() ==> (#[trigger] self.s1@[i])@.len() == self.s0@.len()
    }

    /// Output samples contaminated at each end.
    pub open spec fn margin<A: Arithmetic<R>>(&self, a: &A) -> int {
        a.whole_of(ceiling(a, product(a, self.edge_margin_s, self.out_rate_hz))) as int
    }

    /// The part of a row of coefficients that is clear of both ends.
    pub open spec fn clear<A: Arithmetic<R>>(&self, a: &A, row: Seq<R>) -> Seq<R> {
        let (from, to) = trimmed(self.s0@.len() as int, self.margin(a));
        row.subrange(from, to)
    }

    /// The time-averaged first order.
    pub open spec fn means1<A: Arithmetic<R>>(&self, a: &A) -> Seq<R> {
        self.s1@.map_values(|row: Vec<R>| mean_of(a, self.clear(a, row@)))
    }

    /// The time-averaged second order.
    pub open spec fn means2<A: Arithmetic<R>>(&self, a: &A) -> Seq<Seq<R>> {
        self.s2@.map_values(
            |band: Vec<Vec<R>>| band@.map_values(|row: Vec<R>| mean_of(a, self.clear(a, row@))),
        )
    }

    /// What a carrier's first order is at least taken to be, so that an empty
    /// band is not divided by next to nothing.
    pub open spec fn noise_floor<A: Arithmetic<R>>(&self, a: &A) -> R {
        product(a, largest(a, num(a, 0), self.means1(a)), fraction(a, 1, 1000))
    }

    /// Twice the second order over the first.
    pub open spec fn depths<A: Arithmetic<R>>(&self, a: &A) -> Seq<Seq<R>> {
        Seq::new(
            self.s2@.len(),
            |i: int|
                self.means2(a)[i].map_values(
                    |v: R|
                        quotient(
                            a,
                            product(a, num(a, 2), v),
                            larger(a, self.means1(a)[i], self.noise_floor(a)),
                        ),
                ),
        )
    }

    /// Number of output time steps.
    pub fn len(&self) -> (n: usize)
        ensures
            n == self.s0@.len(),
    {
        self.s0.len()
    }

    pub fn is_empty(&self) -> (r: bool)
        ensures
            r == (self.s0@.len() == 0),
    {
        self.s0.len() == 0
    }

    /// Output sample range excluding the contaminated edges.
    fn interior<A: Arithmetic<R>>(&self, a: &A) -> (r: (usize, usize))
        ensures
            (r.0 as int, r.1 as int) == trimmed(self.s0@.len() as int, self.margin(a)),
            r.0 <= r.1 <= self.s0@.len(),
    {
        let margin: usize = a.whole(
            a.unary(Unary::Ceiling, times(a, self.edge_margin_s, self.out_rate_hz)),
        );
        let n: usize = self.len();
        if margin >= n || margin >= n - margin {
            // Block too short to have a clean interior; fall back to the whole
            // thing rather than returning nothing.
            (0, n)
        } else {
            (margin, n - margin)
        }
    }

    /// Time-averaged first order, over the interior only. This is the
    /// constant-Q spectrum a display would show: one value per `lambda1`.
    pub fn s1_mean<A: Arithmetic<R>>(&self, a: &A) -> (means: Vec<R>)
        requires
            self.first_fits(),
        ensures
            means@ == self.means1(a),
    {
        let (from, to) = self.interior(a);
        let mut means: Vec<R> = Vec::with_capacity(self.s1.len());
        for i in 0..self.s1.len()
            invariant
                self.first_fits(),
                (from as int, to as int) == trimmed(self.s0@.len() as int, self.margin(a)),
                from <= to <= self.s0@.len(),
                means@ == self.means1(a).take(i as int),
        {
            means.push(mean(a, &self.s1[i], from, to));
            assert(means@ =~= self.means1(a).take(i as int + 1));
        }
        assert(self.means1(a).take(self.s1@.len() as int) =~= self.means1(a));
        means
    }

    /// Time-averaged second order, `[lambda1][lambda2]`. The modulation map.
    pub fn s2_mean<A: Arithmetic<R>>(&self, a: &A) -> (means: Vec<Vec<R>>)
        requires
            self.wf(),
        ensures
            means@.len() == self.s2@.len(),
            forall|i: int|
                0 <= i < means@.len() ==> (#[trigger] means@[i])@ == self.means2(a)[i],
    {
        let (from, to) = self.interior(a);
        let mut means: Vec<Vec<R>> = Vec::with_capacity(self.s2.len());
        for i in 0..self.s2.len()
            invariant
                self.wf(),
                (from as int, to as int) == trimmed(self.s0@.len() as int, self.margin(a)),
                from <= to <= self.s0@.len(),
                means@.len() == i,
                forall|j: int|
                    0 <= j < means@.len() ==> (#[trigger] means@[j])@ == self.means2(a)[j],
        {
            let band = &self.s2[i];
            let mut row: Vec<R> = Vec::with_capacity(band.len());
            for j in 0..band.len()
                invariant
                    self.wf(),
                    i < self.s2@.len(),
                    *band == self.s2@[i as int],
                    (from as int, to as int) == trimmed(self.s0@.len() as int, self.margin(a)),
                    from <= to <= self.s0@.len(),
                    row@ == self.means2(a)[i as int].take(j as int),
            {
                row.push(mean(a, &band[j], from, to));
                assert(row@ =~= self.means2(a)[i as int].take(j as int + 1));
            }
            assert(row@ =~= self.means2(a)[i as int]);
            means.push(row);
        }
        means
    }

    /// Modulation depth, `[lambda1][lambda2]`, dimensionless.
    ///
    /// Defined as `2 * S2 / S1`. The factor of two is not a fudge: a carrier
    /// amplitude-modulated to depth `m` has envelope `A(1 + m cos(2 pi f t))`,
    /// and an analytic wavelet responds to that real cosine with amplitude
    /// `A m / 2`, so `S2/S1 = m/2`. With the factor restored, a reading of 0.3
    /// at `(l1, l2)` means the carrier in band `l1` is 30% amplitude-modulated
    /// at rate `l2`.
    ///
    /// This ratio, rather than raw `S2`, is what a display should show: it is
    /// independent of how strong the carrier is and of the receiver's gain, so
    /// it needs no amplitude calibration to be meaningful.
    pub fn modulation_depth<A: Arithmetic<R>>(&self, a: &A) -> (depth: Vec<Vec<R>>)
        requires
            self.wf(),
        ensures
            depth@.len() == self.s2@.len(),
            forall|i: int|
                0 <= i < depth@.len() ==> (#[trigger] depth@[i])@ == self.depths(a)[i],
    {
        let s1 = self.s1_mean(a);
        let s2 = self.s2_mean(a);
        // Guard against dividing by the noise floor in empty bands, which
        // would paint spurious modulation across the whole display.
        let floor = times(a, largest_of(a, a.number(0), s1.as_slice()), ratio(a, 1, 1000));
        let mut depth: Vec<Vec<R>> = Vec::with_capacity(s2.len());
        for i in 0..s2.len()
            invariant
                self.wf(),
                s1@ == self.means1(a),
                s2@.len() == self.s2@.len(),
                forall|j: int| 0 <= j < s2@.len() ==> (#[trigger] s2@[j])@ == self.means2(a)[j],
                floor == self.noise_floor(a),
                depth@.len() == i,
                forall|j: int|
                    0 <= j < depth@.len() ==> (#[trigger] depth@[j])@ == self.depths(a)[j],
        {
            let denom = max(a, s1[i], floor);
            let band = &s2[i];
            let mut row: Vec<R> = Vec::with_capacity(band.len());
            for j in 0..band.len()
                invariant
                    i < self.s2@.len(),
                    band@ == self.means2(a)[i as int],
                    denom == larger(a, self.means1(a)[i as int], self.noise_floor(a)),
                    row@ == self.depths(a)[i as int].take(j as int),
            {
                row.push(over(a, times(a, a.number(2), band[j]), denom));
                assert(row@ =~= self.depths(a)[i as int].take(j as int + 1));
            }
            assert(row@ =~= self.depths(a)[i as int]);
            depth.push(row);
        }
        depth
    }

    /// Index of the strongest `lambda1` band, by time-averaged `S1`.
    pub fn peak_lambda1<A: Arithmetic<R>>(&self, a: &A) -> (r: Option<usize>)
        requires
            self.first_fits(),
        ensures
            match r {
                Some(i) => peak_index(a, self.means1(a)) == Some(i as int) && i
                    < self.s1@.len(),
                None => peak_index(a, self.means1(a)) is None && self.s1@.len() == 0,
            },
    {
        argmax(a, &self.s1_mean(a))
    }

    /// The peak of `row` and its neighbours, as far as there are any.
    pub open spec fn around(row: Seq<R>, i2: int) -> (int, int) {
        (
            if i2 == 0 {
                0
            } else {
                i2 - 1
            },
            if i2 + 1 < row.len() {
                i2 + 2
            } else {
                row.len() as int
            },
        )
    }

    /// The squares of the depths about the peak.
    pub open spec fn energies<A: Arithmetic<R>>(a: &A, row: Seq<R>, i2: int) -> Seq<R> {
        let (lo, hi) = Self::around(row, i2);
        row.subrange(lo, hi).map_values(|v: R| product(a, v, v))
    }

    /// The logarithms of the rates about the peak, each weighted by the square of
    /// its depth.
    pub open spec fn log_rates<A: Arithmetic<R>>(&self, a: &A, row: Seq<R>, i2: int) -> Seq<R> {
        let (lo, hi) = Self::around(row, i2);
        Seq::new(
            (hi - lo) as nat,
            |k: int|
                product(
                    a,
                    product(a, row[lo + k], row[lo + k]),
                    logarithm(a, self.lambda2_hz@[lo + k]),
                ),
        )
    }

    /// The rate and depth read off a row of modulation depths.
    pub open spec fn reading<A: Arithmetic<R>>(&self, a: &A, row: Seq<R>) -> Option<(R, R)> {
        match peak_index(a, row) {
            None => None,
            Some(i2) => if at_most(a, row[i2], num(a, 0)) {
                Some((self.lambda2_hz@[i2], num(a, 0)))
            } else {
                let energy = total(a, Self::energies(a, row, i2));
                let log_rate = total(a, self.log_rates(a, row, i2));
                Some((exponential(a, quotient(a, log_rate, energy)), root(a, energy)))
            },
        }
    }

    /// Strongest modulation present in carrier band `i1`, as
    /// `(rate in Hz, depth)`.
    ///
    /// Reading the single largest coefficient understates the depth by up to
    /// 3 dB, because a rate falling midway between two filters excites each at
    /// only `1/sqrt(2)`. That scalloping is not a defect to be tuned away: the
    /// filters are deliberately spaced to cross there, which is what makes the
    /// bank tile flat.
    ///
    /// Flat tiling is also the cure. For a single tone the squared responses of
    /// all filters sum to one, so adding the neighbours in quadrature recovers
    /// the true amplitude wherever the tone happens to fall. The rate is then
    /// interpolated as the energy-weighted centroid in log frequency, which
    /// beats the grid spacing rather than being limited by it.
    ///
    /// This is what a marker readout should call. Returns `None` if the second
    /// order was not computed.
    pub fn modulation_peak<A: Arithmetic<R>>(&self, a: &A, i1: usize) -> (r: Option<(R, R)>)
        requires
            self.wf(),
        ensures
            r == (if i1 < self.s2@.len() {
                self.reading(a, self.depths(a)[i1 as int])
            } else {
                None
            }),
    {
        let depth = self.modulation_depth(a);
        if i1 >= depth.len() {
            return None;
        }
        let row = &depth[i1];
        assert(row@ == self.depths(a)[i1 as int]);
        let i2: usize = match argmax(a, row) {
            Some(i2) => i2,
            None => {
                return None;
            },
        };
        if is_at_most(a, row[i2], a.number(0)) {
            return Some((self.lambda2_hz[i2], a.number(0)));
        }
        let lo: usize = if i2 == 0 {
            0
        } else {
            i2 - 1
        };
        let hi: usize = if i2 < row.len() - 1 {
            i2 + 2
        } else {
            row.len()
        };
        let ghost es = Self::energies(a, row@, i2 as int);
        let ghost ls = self.log_rates(a, row@, i2 as int);
        let mut energy = a.number(0);
        let mut log_rate = a.number(0);
        for i in lo..hi
            invariant
                lo <= i <= hi <= row@.len() == self.lambda2_hz@.len(),
                (lo as int, hi as int) == Self::around(row@, i2 as int),
                es == Self::energies(a, row@, i2 as int),
                ls == self.log_rates(a, row@, i2 as int),
                energy == total(a, es.take(i - lo)),
                log_rate == total(a, ls.take(i - lo)),
        {
            assert(es.take(i - lo + 1).drop_last() =~= es.take(i - lo));
            assert(ls.take(i - lo + 1).drop_last() =~= ls.take(i - lo));
            let w = times(a, row[i], row[i]);
            energy = plus(a, energy, w);
            log_rate = plus(a, log_rate, times(a, w, ln(a, self.lambda2_hz[i])));
        }
        assert(es.take(es.len() as int) =~= es);
        assert(ls.take(ls.len() as int) =~= ls);
        Some((exp(a, over(a, log_rate, energy)), sqrt(a, energy)))
    }
}

/// One first-order band, precomputed so the hot loop does no arithmetic on
/// filter geometry.
#[derive(Clone, Copy, Debug, PartialEq, Eq, Structural)]
pub struct Band {
    /// DFT bin of the wavelet's centre frequency, on the full-length grid.
    pub centre_bin: usize,
    /// Length of the extracted sub-band grid. A power of two dividing the
    /// length of the full grid.
    pub len: usize,
}

/// How wide a sub-band has to be, in bins, to hold a wavelet with margin: four
/// times its `+/-3 sigma` support. The headroom is what keeps
/// modulus-generated harmonics from folding back onto the modulation rates we
/// report.
pub open spec fn bins_needed<R, A: Arithmetic<R>>(a: &A, sigma: R, grid_len: usize) -> int {
    let support = product(a, product(a, num(a, 4), num(a, 6)), sigma);
    a.whole_of(ceiling(a, product(a, support, num(a, grid_len as u64)))) as int
}

/// The length of the sub-band that holds `needed` bins: a power of two, never
/// shorter than the grid the result must land on, and never longer than the
/// grid it came from. All of that grid without the sub-band shortcut.
pub open spec fn band_length(needed: int, grid_len: int, floor_len: int, subband: bool) -> int {
    let wanted = next_pow2(
        if needed < floor_len {
            floor_len
        } else {
            needed
        },
    );
    if subband && wanted < grid_len {
        wanted
    } else {
        grid_len
    }
}

/// The bin of a `grid_len`-point grid closest to frequency `xi`.
pub open spec fn centre_bin_of<R, A: Arithmetic<R>>(a: &A, xi: R, grid_len: usize) -> usize {
    let bin = rounded(a, product(a, xi, num(a, grid_len as u64)));
    a.whole_of(wrapped(a, bin, num(a, grid_len as u64)))
}

/// The sub-band of a wavelet at `xi` of width `sigma`.
pub open spec fn band_of<R, A: Arithmetic<R>>(
    a: &A,
    xi: R,
    sigma: R,
    grid_len: usize,
    floor_len: usize,
    subband: bool,
) -> Band {
    Band {
        centre_bin: centre_bin_of(a, xi, grid_len),
        len: band_length(
            bins_needed(a, sigma, grid_len),
            grid_len as int,
            floor_len as int,
            subband,
        ) as usize,
    }
}

/// A sub-band is a power of two between the grid it must reach and the grid it
/// comes from.
pub proof fn lemma_band_length(needed: int, grid_len: int, floor_len: int, subband: bool)
    requires
        power_of_two(grid_len),
        floor_len <= grid_len,
    ensures
        power_of_two(band_length(needed, grid_len, floor_len, subband)),
        floor_len <= band_length(needed, grid_len, floor_len, subband) <= grid_len,
{
    lemma_next_pow2(
        if needed < floor_len {
            floor_len
        } else {
            needed
        },
    );
}

/// Works out how wide each wavelet's extracted sub-band has to be.
///
/// Wide enough to hold the wavelet with margin, never narrower than the grid
/// the result must land on, and never wider than the grid it came from.
fn plan_bands<R: Copy, A: Arithmetic<R>>(
    a: &A,
    bank: &FilterBank<R>,
    grid_len: usize,
    floor_len: usize,
    subband: bool,
) -> (bands: Vec<Band>)
    requires
        power_of_two(grid_len as int),
        floor_len <= grid_len,
    ensures
        bands@.len() == bank.wavelets@.len(),
        forall|i: int|
            0 <= i < bands@.len() ==> #[trigger] bands@[i] == band_of(
                a,
                bank.wavelets@[i].xi,
                bank.wavelets@[i].sigma,
                grid_len,
                floor_len,
                subband,
            ),
        forall|i: int|
            0 <= i < bands@.len() ==> floor_len <= (#[trigger] bands@[i]).len <= grid_len
                && power_of_two(bands@[i].len as int),
{
    let mut bands: Vec<Band> = Vec::with_capacity(bank.wavelets.len());
    for i in 0..bank.wavelets.len()
        invariant
            power_of_two(grid_len as int),
            floor_len <= grid_len,
            bands@.len() == i,
            forall|j: int|
                0 <= j < bands@.len() ==> #[trigger] bands@[j] == band_of(
                    a,
                    bank.wavelets@[j].xi,
                    bank.wavelets@[j].sigma,
                    grid_len,
                    floor_len,
                    subband,
                ),
            forall|j: int|
                0 <= j < bands@.len() ==> floor_len <= (#[trigger] bands@[j]).len <= grid_len
                    && power_of_two(bands@[j].len as int),
    {
        let w = &bank.wavelets[i];
        let support = times(a, times(a, a.number(4), a.number(6)), w.sigma);
        let grid = a.number(grid_len as u64);
        let needed: usize = a.whole(a.unary(Unary::Ceiling, times(a, support, grid)));
        let least: usize = if needed < floor_len {
            floor_len
        } else {
            needed
        };
        proof {
            lemma_next_pow2(least as int);
            lemma_band_length(needed as int, grid_len as int, floor_len as int, subband);
        }
        let len: usize = if subband && least < grid_len {
            match next_power_of_two(least) {
                Some(p) => p,
                None => grid_len,
            }
        } else {
            grid_len
        };
        let bin = a.unary(Unary::Round, times(a, w.xi, grid));
        let centre_bin: usize = a.whole(a.binary(Binary::Wrap, bin, grid));
        bands.push(Band { centre_bin, len });
    }
    bands
}

/// The bin of an `n`-point spectrum that lands in bin `k` of a band of `len` bins
/// about `centre`: `k` bins above the centre in the lower half of the band, which
/// holds its middle bin if it has one, and `len - k` below it in the upper half,
/// round the end of the spectrum if need be.
pub open spec fn band_source(n: int, centre: int, len: int, k: int) -> int {
    let offset = if k < len - len / 2 {
        k
    } else {
        k - len
    };
    (centre + offset) % n
}

/// The bins a wavelet passes, re-centred on DC, at a reduced rate.
pub open spec fn extracted<R, A: Arithmetic<R>>(
    a: &A,
    spectrum: Seq<Complex<R>>,
    psi: Seq<R>,
    band: Band,
) -> Seq<Complex<R>> {
    let scale = fraction(a, band.len as u64, spectrum.len() as u64);
    Seq::new(
        band.len as nat,
        |k: int|
            {
                let j = band_source(
                    spectrum.len() as int,
                    band.centre_bin as int,
                    band.len as int,
                    k,
                );
                scaled(a, scaled(a, spectrum[j], psi[j]), scale)
            },
    )
}

/// Gathers the bins a wavelet passes, re-centred on DC, at a reduced rate.
///
/// Shifting the band to baseband is an exact integer-bin frequency shift, and
/// the modulus applied downstream is blind to it, so the envelope is unchanged.
/// The `1/d` scaling makes the result equal the filtered signal sampled every
/// `d`th point rather than `d` times it.
fn extract_band<R: Copy, A: Arithmetic<R>>(
    a: &A,
    spectrum: &Vec<Complex<R>>,
    psi: &Vec<R>,
    band: Band,
) -> (sub: Vec<Complex<R>>)
    requires
        spectrum@.len() == psi@.len(),
        spectrum@.len() > 0,
    ensures
        sub@ == extracted(a, spectrum@, psi@, band),
        sub@.len() == band.len,
{
    let n: usize = spectrum.len();
    let len: usize = band.len;
    let scale = ratio(a, len as u64, n as u64);
    let mut sub: Vec<Complex<R>> = Vec::with_capacity(len);
    let base: usize = band.centre_bin % n;
    for k in 0..len
        invariant
            n == spectrum@.len() == psi@.len(),
            n > 0,
            len == band.len,
            base == band.centre_bin % n,
            scale == fraction(a, len as u64, n as u64),
            sub@ == extracted(a, spectrum@, psi@, band).take(k as int),
    {
        let j: usize = if k < len - len / 2 {
            let up: usize = k % n;
            if base < n - up {
                base + up
            } else {
                base - (n - up)
            }
        } else {
            let down: usize = (len - k) % n;
            if base >= down {
                base - down
            } else {
                base + (n - down)
            }
        };
        proof {
            let c = band.centre_bin as int;
            let m = n as int;
            if k < len - len / 2 {
                lemma_add_mod_noop(c, k as int, m);
                let s = c % m + k as int % m;
                lemma_fundamental_div_mod_converse(
                    s,
                    m,
                    if s < m {
                        0
                    } else {
                        1
                    },
                    j as int,
                );
            } else {
                lemma_sub_mod_noop(c, len - k, m);
                let s = c % m - (len - k) as int % m;
                lemma_fundamental_div_mod_converse(
                    s,
                    m,
                    if s >= 0 {
                        0
                    } else {
                        -1
                    },
                    j as int,
                );
            }
            assert(j == band_source(m, c, len as int, k as int));
        }
        sub.push(spectrum[j].scale(a, psi[j]).scale(a, scale));
        assert(sub@ =~= extracted(a, spectrum@, psi@, band).take(k as int + 1));
    }
    assert(sub@ =~= extracted(a, spectrum@, psi@, band));
    sub
}

/// `spectrum` with every bin multiplied by the gain of `phi` there.
pub open spec fn filtered<R, A: Arithmetic<R>>(
    a: &A,
    spectrum: Seq<Complex<R>>,
    phi: Seq<R>,
) -> Seq<Complex<R>> {
    Seq::new(spectrum.len(), |k: int| scaled(a, spectrum[k], phi[k]))
}

/// Whether `y` is the signal of `spectrum` averaged by `phi`, at `out_len`
/// samples.
pub open spec fn averaged<R, P, A: Arithmetic<R>, E: Engine<R, P>>(
    a: &A,
    engine: &E,
    phi: Seq<R>,
    out_len: int,
    spectrum: Seq<Complex<R>>,
    y: Seq<R>,
) -> bool {
    exists|z: Seq<Complex<R>>|
        {
            &&& #[trigger] inverted::<R, P, A, E>(
                a,
                engine,
                decimated(a, filtered(a, spectrum, phi), spectrum.len() as int / out_len),
                z,
            )
            &&& y == real_parts(z)
        }
}

/// A power of two, decimated by its quotient with a smaller one, is the smaller
/// one.
pub proof fn lemma_reach(len: int, out_len: int)
    requires
        power_of_two(len),
        power_of_two(out_len),
        out_len <= len,
    ensures
        len / out_len >= 1,
        len % (len / out_len) == 0,
        len / (len / out_len) == out_len,
        power_of_two(len / out_len),
{
    lemma_divides(out_len, len);
    let q = len / out_len;
    lemma_divides(q, len);
    assert(len / q == out_len) by (nonlinear_arith)
        requires
            q * (len / q) == len,
            out_len * q == len,
            q >= 1,
    ;
}

/// Applies `phi` and decimates to the output length, returning the real
/// time-domain result.
fn average<R: Copy, P, A: Arithmetic<R>, E: Engine<R, P>>(
    a: &A,
    plans: &mut Plans<P, E>,
    phi: &Vec<R>,
    out_len: usize,
    spectrum: &Vec<Complex<R>>,
) -> (out: Vec<R>)
    requires
        old(plans).wf::<R>(),
        keeps_length::<R, P, E>(&old(plans).engine()),
        phi@.len() == spectrum@.len(),
        power_of_two(spectrum@.len() as int),
        power_of_two(out_len as int),
        out_len <= spectrum@.len(),
    ensures
        final(plans).wf::<R>(),
        final(plans).engine() == old(plans).engine(),
        averaged::<R, P, A, E>(
            a,
            &old(plans).engine(),
            phi@,
            out_len as int,
            spectrum@,
            out@,
        ),
        out@.len() == out_len,
{
    let n: usize = spectrum.len();
    proof {
        lemma_reach(n as int, out_len as int);
        lemma_double(out_len as int);
    }
    let mut product: Vec<Complex<R>> = Vec::with_capacity(n);
    for k in 0..n
        invariant
            n == spectrum@.len() == phi@.len(),
            product@ == filtered(a, spectrum@, phi@).take(k as int),
    {
        product.push(spectrum[k].scale(a, phi[k]));
        assert(product@ =~= filtered(a, spectrum@, phi@).take(k as int + 1));
    }
    assert(product@ =~= filtered(a, spectrum@, phi@));
    let mut small = decimate_spectrum(a, product.as_slice(), n / out_len);
    plans.inverse(a, &mut small);
    // The input to phi is a real non-negative modulus and phi is real and
    // symmetric, so the imaginary part is numerical dust.
    take_real_parts(small.as_slice())
}

/// The filter banks, grids and kernels of an analyser.
pub struct Geometry<R> {
    /// What was asked for.
    pub config: Config<R>,
    /// Samples to a block.
    pub n: usize,
    /// First-order (carrier) bank.
    pub bank1: FilterBank<R>,
    /// Second-order (modulation rate) bank, on the decimated grid.
    pub bank2: FilterBank<R>,
    /// Decimation applied to first-order envelopes before second order.
    pub d1: usize,
    /// Further decimation applied after averaging by phi.
    pub d2: usize,
    /// Sub-band extraction geometry for the first order, parallel to
    /// `bank1.wavelets`.
    pub bands1: Vec<Band>,
    /// Sub-band extraction geometry for the second order, parallel to
    /// `bank2.wavelets`, on the decimated grid.
    pub bands2: Vec<Band>,
    /// Averaging kernel sampled on each grid length in use, keyed by length.
    pub phi_cache: HashMap<usize, Vec<R>>,
    /// Output time-axis length.
    pub n_out: usize,
    /// Highest modulation rate that can physically appear in each first-order
    /// band, in the same normalised units as `bank2`. Parallel to
    /// `bank1.wavelets`.
    pub mod_ceiling: Vec<R>,
}

/// A configured, reusable analyser. Building one precomputes the filter banks,
/// so the per-block cost in a live display is just transforms.
pub struct Scattering<R> {
    geometry: Geometry<R>,
}

impl<R> View for Scattering<R> {
    type V = Geometry<R>;

    closed spec fn view(&self) -> Geometry<R> {
        self.geometry
    }
}

impl<R> Geometry<R> {
    /// Length of the grid that first-order envelopes are decimated to.
    pub open spec fn n1(&self) -> int {
        self.n as int / self.d1 as int
    }

    /// The averaging kernel on a grid of `len` points.
    pub open spec fn phi(&self, len: int) -> Seq<R> {
        self.phi_cache@[len as usize]@
    }

    /// The grids fit together: each is a power of two, each length divides the
    /// one before it, every sub-band lies between the grid it comes from and
    /// the grid it must land on, and there is an averaging kernel for every
    /// length that is averaged.
    pub open spec fn wf(&self) -> bool {
        &&& power_of_two(self.n as int)
        &&& power_of_two(self.d1 as int)
        &&& self.d1 <= self.n
        &&& power_of_two(self.d2 as int)
        &&& self.d2 <= self.n1()
        &&& self.n_out == self.n1() / self.d2 as int
        &&& self.bank1.wf() && self.bank1.n == self.n
        &&& self.bank2.wf() && self.bank2.n == self.n1()
        &&& self.bands1@.len() == self.bank1.wavelets@.len()
        &&& forall|i: int|
            0 <= i < self.bands1@.len() ==> {
                &&& power_of_two((#[trigger] self.bands1@[i]).len as int)
                &&& self.n1() <= self.bands1@[i].len <= self.n
            }
        &&& self.bands2@.len() == self.bank2.wavelets@.len()
        &&& forall|i: int|
            0 <= i < self.bands2@.len() ==> {
                &&& power_of_two((#[trigger] self.bands2@[i]).len as int)
                &&& self.n_out <= self.bands2@[i].len <= self.n1()
                &&& self.phi_cache@.contains_key(self.bands2@[i].len)
            }
        &&& self.phi_cache@.contains_key(self.n1() as usize)
        &&& forall|len: usize| #[trigger]
            self.phi_cache@.contains_key(len) ==> self.phi_cache@[len]@.len() == len
        &&& self.mod_ceiling@.len() == self.bank1.wavelets@.len()
    }
}

impl<R: Copy> Geometry<R> {
    /// What the grids fitting together comes to.
    pub proof fn lemma_grids(&self)
        requires
            self.wf(),
        ensures
            power_of_two(self.n1()),
            1 <= self.n1() <= self.n,
            self.n as int % self.d1 as int == 0,
            self.n as int / self.d1 as int == self.n1(),
            power_of_two(self.n_out as int),
            1 <= self.n_out <= self.n1(),
            self.d1 * self.d2 <= self.n,
            self.d1 * self.d2 * self.n_out == self.n,
            self.d1 >= 1,
            self.d2 >= 1,
    {
        lemma_divides(self.d1 as int, self.n as int);
        lemma_divides(self.d2 as int, self.n1());
        let (d1, d2, n1, out) = (self.d1 as int, self.d2 as int, self.n1(), self.n_out as int);
        assert(d1 * d2 * out == self.n) by (nonlinear_arith)
            requires
                d1 * n1 == self.n,
                d2 * out == n1,
        ;
        assert(d1 * d2 <= self.n) by (nonlinear_arith)
            requires
                d1 * d2 * out == self.n,
                out >= 1,
                d1 >= 1,
                d2 >= 1,
        ;
    }

    /// Whether this is the analyser that `config` leads to for blocks of `n`
    /// samples.
    pub open spec fn realises<A: Arithmetic<R>>(
        &self,
        a: &A,
        config: &Config<R>,
        n: usize,
    ) -> bool {
        let fs1 = config.envelope_rate(a, self.d1 as int);
        let n1 = self.n1() as usize;
        &&& self.config == *config
        &&& self.n == n
        &&& self.d1 == config.envelope_step(a, n as int)
        &&& self.bank1.realises(
            a,
            &config.carrier_spec(a),
            n,
            product(a, config.invariance_s, config.fs),
        )
        &&& self.bank2.realises(
            a,
            &config.modulation_spec(a, self.d1 as int),
            n1,
            product(a, config.invariance_s, fs1),
        )
        &&& self.d2 == factor(
            whole_limit(
                a,
                quotient(a, num(a, 1), product(a, num(a, 6), self.bank2.sigma_phi)),
            ),
            n1 as int,
        )
        &&& forall|i: int|
            0 <= i < self.bands1@.len() ==> #[trigger] self.bands1@[i] == band_of(
                a,
                self.bank1.wavelets@[i].xi,
                self.bank1.wavelets@[i].sigma,
                n,
                n1,
                config.subband,
            )
        &&& forall|i: int|
            0 <= i < self.bands2@.len() ==> #[trigger] self.bands2@[i] == band_of(
                a,
                self.bank2.wavelets@[i].xi,
                self.bank2.wavelets@[i].sigma,
                n1,
                self.n_out,
                config.subband,
            )
        &&& forall|i: int|
            0 <= i < self.mod_ceiling@.len() ==> #[trigger] self.mod_ceiling@[i] == product(
                a,
                self.bank1.wavelets@[i].bandwidth,
                num(a, self.d1 as u64),
            )
        &&& forall|len: usize| #[trigger]
            self.phi_cache@.contains_key(len) ==> self.phi_cache@[len]@ == kernel(
                a,
                len,
                self.phi_width(a, len),
            )
    }

    /// The width of the averaging kernel on a grid of `len` points. The same
    /// physical filter on a shorter grid spans the same time at a lower rate, so
    /// its normalised width scales up.
    pub open spec fn phi_width<A: Arithmetic<R>>(&self, a: &A, len: usize) -> R {
        quotient(
            a,
            product(a, self.bank2.sigma_phi, num(a, self.n1() as u64)),
            num(a, len as u64),
        )
    }
}

impl<R> Scattering<R> {
    /// The grids of an analyser fit together.
    #[verifier::type_invariant]
    spec fn fits_together(&self) -> bool {
        self.geometry.wf()
    }
}

impl<R: Copy> Scattering<R> {
    /// Prepares an analyser for blocks of exactly `n` samples.
    ///
    /// The configuration must be one that can be satisfied at that block
    /// length: see [`Config::check`].
    pub fn new<A: Arithmetic<R>>(a: &A, config: Config<R>, n: usize) -> (sa: Self)
        requires
            config.verdict(a, n) is Ok,
        ensures
            sa@.wf(),
            sa@.realises(a, &config, n),
            sa@.bank1.wavelets@.len() > 0,
            sa@.bank2.wavelets@.len() > 0,
    {
        let bank1 = FilterBank::new(
            a,
            config.carrier_bank(a),
            n,
            times(a, config.invariance_s, config.fs),
        );

        // Decimate first-order envelopes as far as the modulation range
        // allows.
        let d1: usize = config.envelope_decimation(a, n);
        proof {
            lemma_double(n as int);
            lemma_at_most(d1 as int, n as int);
            lemma_divides(d1 as int, n as int);
        }
        let n1: usize = n / d1;
        let fs1 = over(a, config.fs, a.number(d1 as u64));
        let bank2 = FilterBank::new(
            a,
            config.modulation_bank(a, d1),
            n1,
            times(a, config.invariance_s, fs1),
        );

        // After averaging, the coefficients are bandlimited to roughly
        // sigma_phi; keeping three standard deviations inside the new Nyquist
        // is generous.
        let d2: usize = power_of_two_factor(
            a,
            over(a, a.number(1), times(a, a.number(6), bank2.sigma_phi)),
            n1,
        );
        proof {
            lemma_double(n1 as int);
            lemma_at_most(d2 as int, n1 as int);
            lemma_divides(d2 as int, n1 as int);
        }
        let n_out: usize = n1 / d2;

        // A first-order band must be wide enough to hold its wavelet with
        // margin, and at least as wide as the common order-2 grid, since
        // everything is brought back to that grid afterwards.
        let bands1 = plan_bands(a, &bank1, n, n1, config.subband);
        // Second-order bands need only reach the output grid.
        let bands2 = plan_bands(a, &bank2, n1, n_out, config.subband);

        // A band cannot carry an envelope fluctuating faster than the band is
        // wide, so pairs above this ceiling are physically empty and are skipped
        // rather than computed. Expressed in the normalised units of the
        // second-order grid.
        let mut mod_ceiling: Vec<R> = Vec::with_capacity(bank1.wavelets.len());
        for i in 0..bank1.wavelets.len()
            invariant
                mod_ceiling@.len() == i,
                forall|j: int|
                    0 <= j < i ==> #[trigger] mod_ceiling@[j] == product(
                        a,
                        bank1.wavelets@[j].bandwidth,
                        num(a, d1 as u64),
                    ),
        {
            mod_ceiling.push(times(a, bank1.wavelets[i].bandwidth, a.number(d1 as u64)));
        }

        let scaled_width = times(a, bank2.sigma_phi, a.number(n1 as u64));
        let mut phi_cache: HashMap<usize, Vec<R>> = HashMap::new();
        phi_cache.insert(n1, lowpass(a, n1, over(a, scaled_width, a.number(n1 as u64))));
        for i in 0..bands2.len()
            invariant
                scaled_width == product(a, bank2.sigma_phi, num(a, n1 as u64)),
                phi_cache@.contains_key(n1),
                forall|j: int| 0 <= j < i ==> phi_cache@.contains_key(
                    (#[trigger] bands2@[j]).len,
                ),
                forall|len: usize| #[trigger]
                    phi_cache@.contains_key(len) ==> phi_cache@[len]@.len() == len
                        && phi_cache@[len]@ == kernel(
                        a,
                        len,
                        quotient(a, scaled_width, num(a, len as u64)),
                    ),
        {
            let len: usize = bands2[i].len;
            if !phi_cache.contains_key(&len) {
                phi_cache.insert(
                    len,
                    lowpass(a, len, over(a, scaled_width, a.number(len as u64))),
                );
            }
        }

        Scattering {
            geometry: Geometry {
                config,
                n,
                bank1,
                bank2,
                d1,
                d2,
                bands1,
                bands2,
                phi_cache,
                n_out,
                mod_ceiling,
            },
        }
    }
}

/// A divisor of a positive number is at most that number.
pub proof fn lemma_at_most(d: int, n: int)
    requires
        d >= 1,
        n >= 1,
        n % d == 0,
    ensures
        d <= n,
{
    if d > n {
        vstd::arithmetic::div_mod::lemma_small_mod(n as nat, d as nat);
    }
}

impl<R: Copy> Geometry<R> {
    /// The sample rate of the first-order envelopes, Hz.
    pub open spec fn fs1<A: Arithmetic<R>>(&self, a: &A) -> R {
        self.config.envelope_rate(a, self.d1 as int)
    }

    /// The sample rate of the output, Hz.
    pub open spec fn out_rate<A: Arithmetic<R>>(&self, a: &A) -> R {
        quotient(a, self.config.fs, num(a, (self.d1 * self.d2) as u64))
    }

    /// The first-order centre frequencies, Hz.
    pub open spec fn carriers<A: Arithmetic<R>>(&self, a: &A) -> Seq<R> {
        self.bank1.frequencies().map_values(|xi: R| product(a, xi, self.config.fs))
    }

    /// The second-order centre frequencies, Hz.
    pub open spec fn rates<A: Arithmetic<R>>(&self, a: &A) -> Seq<R> {
        self.bank2.frequencies().map_values(|xi: R| product(a, xi, self.fs1(a)))
    }

    /// The longest time over which a filter smears, seconds.
    pub open spec fn edge<A: Arithmetic<R>>(&self, a: &A) -> R {
        let longest1 = largest(
            a,
            num(a, 0),
            self.bank1.wavelets@.map_values(|w: Wavelet<R>| support(a, w.sigma)),
        );
        let longest2 = largest(
            a,
            num(a, 0),
            self.bank2.wavelets@.map_values(|w: Wavelet<R>| support(a, w.sigma)),
        );
        let order1 = quotient(a, longest1, self.config.fs);
        let order2 = quotient(a, longest2, self.fs1(a));
        let averaging = product(a, num(a, 3), self.config.invariance_s);
        larger(a, larger(a, order1, order2), averaging)
    }

    /// Whether `s0` is the lowpassed envelope of `x`.
    pub open spec fn zeroth_order<P, A: Arithmetic<R>, E: Engine<R, P>>(
        &self,
        a: &A,
        engine: &E,
        x: Seq<Complex<R>>,
        s0: Seq<R>,
    ) -> bool {
        exists|env: Seq<Complex<R>>|
            {
                &&& #[trigger] transformed::<R, P, E>(
                    engine,
                    Direction::Forward,
                    envelope(a, x),
                    env,
                )
                &&& averaged::<R, P, A, E>(
                    a,
                    engine,
                    self.phi(self.n1()),
                    self.n_out as int,
                    decimated(a, env, self.d1 as int),
                    s0,
                )
            }
    }

    /// Whether `u1` is the decimated spectrum of the envelope of carrier band
    /// `i1` of a signal with the given spectrum.
    pub open spec fn band_envelope<P, A: Arithmetic<R>, E: Engine<R, P>>(
        &self,
        a: &A,
        engine: &E,
        i1: int,
        spectrum: Seq<Complex<R>>,
        u1: Seq<Complex<R>>,
    ) -> bool {
        exists|sub: Seq<Complex<R>>, env: Seq<Complex<R>>|
            {
                &&& #[trigger] inverted::<R, P, A, E>(
                    a,
                    engine,
                    extracted(
                        a,
                        spectrum,
                        self.bank1.wavelets@[i1].spectrum@,
                        self.bands1@[i1],
                    ),
                    sub,
                )
                &&& #[trigger] transformed::<R, P, E>(
                    engine,
                    Direction::Forward,
                    envelope(a, sub),
                    env,
                )
                &&& u1 == decimated(a, env, self.bands1@[i1].len as int / self.n1())
            }
    }

    /// Whether the modulation rate of `i2` is more than an envelope of carrier
    /// band `i1` can hold.
    pub open spec fn beyond<A: Arithmetic<R>>(&self, a: &A, i1: int, i2: int) -> bool {
        below(a, self.mod_ceiling@[i1], self.bank2.wavelets@[i2].xi)
    }

    /// Whether `row` is the second order of carrier band `i1` at rate `i2`, where
    /// `u1` is the spectrum of the envelope of that band.
    pub open spec fn second_order<P, A: Arithmetic<R>, E: Engine<R, P>>(
        &self,
        a: &A,
        engine: &E,
        i1: int,
        i2: int,
        u1: Seq<Complex<R>>,
        row: Seq<R>,
    ) -> bool {
        if self.beyond(a, i1, i2) {
            row == Seq::new(self.n_out as nat, |t: int| num(a, 0))
        } else {
            exists|sub: Seq<Complex<R>>, env: Seq<Complex<R>>|
                {
                    &&& #[trigger] inverted::<R, P, A, E>(
                        a,
                        engine,
                        extracted(
                            a,
                            u1,
                            self.bank2.wavelets@[i2].spectrum@,
                            self.bands2@[i2],
                        ),
                        sub,
                    )
                    &&& #[trigger] transformed::<R, P, E>(
                        engine,
                        Direction::Forward,
                        envelope(a, sub),
                        env,
                    )
                    &&& averaged::<R, P, A, E>(
                        a,
                        engine,
                        self.phi(self.bands2@[i2].len as int),
                        self.n_out as int,
                        env,
                        row,
                    )
                }
        }
    }

    /// Whether `first` and `rows` are the coefficients of carrier band `i1` of a
    /// signal with the given spectrum.
    pub open spec fn band_result<P, A: Arithmetic<R>, E: Engine<R, P>>(
        &self,
        a: &A,
        engine: &E,
        i1: int,
        spectrum: Seq<Complex<R>>,
        first: Seq<R>,
        rows: Seq<Vec<R>>,
    ) -> bool {
        exists|u1: Seq<Complex<R>>|
            {
                &&& #[trigger] self.band_envelope::<P, A, E>(a, engine, i1, spectrum, u1)
                &&& averaged::<R, P, A, E>(
                    a,
                    engine,
                    self.phi(self.n1()),
                    self.n_out as int,
                    u1,
                    first,
                )
                &&& rows.len() == if self.config.order2 {
                    self.bank2.wavelets@.len()
                } else {
                    0
                }
                &&& forall|i2: int|
                    0 <= i2 < rows.len() ==> self.second_order::<P, A, E>(
                        a,
                        engine,
                        i1,
                        i2,
                        u1,
                        (#[trigger] rows[i2])@,
                    )
            }
    }

    /// Every row is as long as the output time axis.
    pub open spec fn band_shaped(&self, first: Seq<R>, rows: Seq<Vec<R>>) -> bool {
        &&& first.len() == self.n_out
        &&& rows.len() == if self.config.order2 {
            self.bank2.wavelets@.len()
        } else {
            0
        }
        &&& forall|i2: int| 0 <= i2 < rows.len() ==> (#[trigger] rows[i2])@.len() == self.n_out
    }

    /// Whether `out` is what this analyser makes of the block `x`.
    pub open spec fn analysed<P, A: Arithmetic<R>, E: Engine<R, P>>(
        &self,
        a: &A,
        engine: &E,
        x: Seq<Complex<R>>,
        out: &Scattergram<R>,
    ) -> bool {
        &&& self.framed(a, out)
        &&& self.zeroth_order::<P, A, E>(a, engine, x, out.s0@)
        &&& exists|spectrum: Seq<Complex<R>>|
            {
                &&& #[trigger] transformed::<R, P, E>(engine, Direction::Forward, x, spectrum)
                &&& forall|i1: int|
                    0 <= i1 < out.s1@.len() ==> self.band_result::<P, A, E>(
                        a,
                        engine,
                        i1,
                        spectrum,
                        (#[trigger] out.s1@[i1])@,
                        out.second(i1),
                    )
            }
    }

    /// Whether the axes and the extent of `out` are those of this analyser.
    pub open spec fn framed<A: Arithmetic<R>>(&self, a: &A, out: &Scattergram<R>) -> bool {
        &&& out.lambda1_hz@ == self.carriers(a)
        &&& out.lambda2_hz@ == self.rates(a)
        &&& out.out_rate_hz == self.out_rate(a)
        &&& out.edge_margin_s == self.edge(a)
        &&& out.s0@.len() == self.n_out
        &&& out.s1@.len() == self.bank1.wavelets@.len()
        &&& out.s2@.len() == if self.config.order2 {
            self.bank1.wavelets@.len()
        } else {
            0
        }
    }
}

impl<R: Copy> Scattering<R> {
    /// What this analyser was built to.
    pub fn geometry(&self) -> (g: &Geometry<R>)
        ensures
            *g == self@,
            g.wf(),
    {
        proof {
            use_type_invariant(self);
        }
        &self.geometry
    }

    /// Block length this analyser expects.
    pub fn block_len(&self) -> (n: usize)
        ensures
            n == self@.n,
    {
        self.geometry.n
    }

    /// Output sample rate, Hz.
    pub fn out_rate_hz<A: Arithmetic<R>>(&self, a: &A) -> (r: R)
        ensures
            r == self@.out_rate(a),
    {
        proof {
            use_type_invariant(self);
            self@.lemma_grids();
        }
        over(a, self.geometry.config.fs, a.number((self.geometry.d1 * self.geometry.d2) as u64))
    }

    /// First-order centre frequencies in Hz, signed, increasing.
    pub fn lambda1_hz<A: Arithmetic<R>>(&self, a: &A) -> (axis: Vec<R>)
        ensures
            axis@ == self@.carriers(a),
    {
        axis_hz(a, &self.geometry.bank1, self.geometry.config.fs)
    }

    /// Second-order centre frequencies (modulation rates) in Hz, increasing.
    pub fn lambda2_hz<A: Arithmetic<R>>(&self, a: &A) -> (axis: Vec<R>)
        ensures
            axis@ == self@.rates(a),
    {
        let fs1 = over(a, self.geometry.config.fs, a.number(self.geometry.d1 as u64));
        axis_hz(a, &self.geometry.bank2, fs1)
    }

    /// What this analyser actually covers, after any filters too long for the
    /// block were dropped. Worth logging once at startup and showing on the
    /// display, so an empty region reads as "not measured" rather than "quiet".
    pub fn coverage<A: Arithmetic<R>>(&self, a: &A) -> (c: Coverage<R>)
        ensures
            c.min_carrier_hz == product(
                a,
                smallest(
                    a,
                    fraction(a, 1, 0),
                    self@.bank1.frequencies().map_values(|x: R| magnitude(a, x)),
                ),
                self@.config.fs,
            ),
            c.max_carrier_hz == magnitude(
                a,
                if self@.carriers(a).len() > 0 {
                    self@.carriers(a).last()
                } else {
                    num(a, 0)
                },
            ),
            c.min_mod_hz == product(
                a,
                smallest(
                    a,
                    fraction(a, 1, 0),
                    self@.bank2.frequencies().map_values(|x: R| magnitude(a, x)),
                ),
                self@.fs1(a),
            ),
            c.max_mod_hz == (if self@.rates(a).len() > 0 {
                self@.rates(a).last()
            } else {
                num(a, 0)
            }),
            c.elbow_carrier_hz == (match self@.bank1.elbow_xi {
                Some(xi) => Some(product(a, xi, self@.config.fs)),
                None => None,
            }),
            c.elbow_mod_hz == (match self@.bank2.elbow_xi {
                Some(xi) => Some(product(a, xi, self@.fs1(a))),
                None => None,
            }),
            c.out_rate_hz == self@.out_rate(a),
            c.block_s == quotient(a, num(a, self@.n as u64), self@.config.fs),
    {
        let fs1 = over(a, self.geometry.config.fs, a.number(self.geometry.d1 as u64));
        let l1 = self.lambda1_hz(a);
        let l2 = self.lambda2_hz(a);
        let top1 = if l1.len() > 0 {
            l1[l1.len() - 1]
        } else {
            a.number(0)
        };
        let top2 = if l2.len() > 0 {
            l2[l2.len() - 1]
        } else {
            a.number(0)
        };
        Coverage {
            min_carrier_hz: times(a, self.geometry.bank1.min_xi(a), self.geometry.config.fs),
            max_carrier_hz: abs(a, top1),
            min_mod_hz: times(a, self.geometry.bank2.min_xi(a), fs1),
            max_mod_hz: top2,
            elbow_carrier_hz: match self.geometry.bank1.elbow_xi {
                Some(xi) => Some(times(a, xi, self.geometry.config.fs)),
                None => None,
            },
            elbow_mod_hz: match self.geometry.bank2.elbow_xi {
                Some(xi) => Some(times(a, xi, fs1)),
                None => None,
            },
            out_rate_hz: self.out_rate_hz(a),
            block_s: over(a, a.number(self.geometry.n as u64), self.geometry.config.fs),
        }
    }

    /// Resolution bandwidth of the first-order analysis at a given carrier
    /// offset, in Hz: the -3 dB width of the filter that actually measures
    /// there.
    ///
    /// Read off the bank rather than computed as a fixed part of the offset,
    /// because it is that only above the elbow. Below it the filters are constant
    /// bandwidth and the true figure flattens out. A display should show this
    /// number, since it is the difference between "these two signals are
    /// genuinely one" and "my analyser cannot tell them apart".
    pub fn rbw_hz<A: Arithmetic<R>>(&self, a: &A, offset_hz: R) -> (r: R)
        ensures
            r == bandwidth_at(
                a,
                &self@.bank1,
                quotient(a, offset_hz, self@.config.fs),
                self@.config.fs,
            ),
    {
        let xi = over(a, offset_hz, self.geometry.config.fs);
        match self.geometry.bank1.nearest(a, xi) {
            Some(w) => times(a, w.bandwidth, self.geometry.config.fs),
            None => ratio(a, 0, 0),
        }
    }

    /// Resolution bandwidth of the second-order analysis at a given modulation
    /// rate, in Hz. Same story as [`Scattering::rbw_hz`], one order up.
    pub fn mod_rbw_hz<A: Arithmetic<R>>(&self, a: &A, rate_hz: R) -> (r: R)
        ensures
            r == bandwidth_at(a, &self@.bank2, quotient(a, rate_hz, self@.fs1(a)), self@.fs1(a)),
    {
        let fs1 = over(a, self.geometry.config.fs, a.number(self.geometry.d1 as u64));
        match self.geometry.bank2.nearest(a, over(a, rate_hz, fs1)) {
            Some(w) => times(a, w.bandwidth, fs1),
            None => ratio(a, 0, 0),
        }
    }

    fn edge_margin_s<A: Arithmetic<R>>(&self, a: &A) -> (r: R)
        ensures
            r == self@.edge(a),
    {
        let fs1 = over(a, self.geometry.config.fs, a.number(self.geometry.d1 as u64));
        let order1 = over(a, self.geometry.bank1.max_time_support(a), self.geometry.config.fs);
        let order2 = over(a, self.geometry.bank2.max_time_support(a), fs1);
        let averaging = times(a, a.number(3), self.geometry.config.invariance_s);
        max(a, max(a, order1, order2), averaging)
    }

    /// What all carrier bands of a block start from: the zeroth order, and the
    /// spectrum of the input.
    pub fn prepare<P, A: Arithmetic<R>, E: Engine<R, P>>(
        &self,
        a: &A,
        plans: &mut Plans<P, E>,
        x: &[Complex<R>],
    ) -> (r: (Vec<R>, Vec<Complex<R>>))
        requires
            x@.len() == self@.n,
            old(plans).wf::<R>(),
            keeps_length::<R, P, E>(&old(plans).engine()),
        ensures
            final(plans).wf::<R>(),
            final(plans).engine() == old(plans).engine(),
            self@.zeroth_order::<P, A, E>(a, &old(plans).engine(), x@, r.0@),
            r.0@.len() == self@.n_out,
            transformed::<R, P, E>(&old(plans).engine(), Direction::Forward, x@, r.1@),
            r.1@.len() == self@.n,
    {
        proof {
            use_type_invariant(self);
            self@.lemma_grids();
        }
        let n1: usize = self.geometry.n / self.geometry.d1;
        // Zeroth order: lowpassed envelope of the input as a whole.
        let mut env = take_envelope(a, x);
        plans.forward(&mut env);
        let small = decimate_spectrum(a, env.as_slice(), self.geometry.d1);
        let s0 = match self.geometry.phi_cache.get(&n1) {
            Some(phi) => average(a, plans, phi, self.geometry.n_out, &small),
            None => Vec::new(),
        };
        // Forward transform of the input, reused by every first-order band.
        let mut spectrum: Vec<Complex<R>> = Vec::with_capacity(x.len());
        for i in 0..x.len()
            invariant
                spectrum@ == x@.take(i as int),
        {
            spectrum.push(x[i]);
            assert(spectrum@ =~= x@.take(i as int + 1));
        }
        assert(spectrum@ =~= x@);
        plans.forward(&mut spectrum);
        (s0, spectrum)
    }

    /// One first-order band and, if enabled, every second-order coefficient
    /// hanging off it.
    pub fn analyse_band<P, A: Arithmetic<R>, E: Engine<R, P>>(
        &self,
        a: &A,
        plans: &mut Plans<P, E>,
        i1: usize,
        spectrum: &Vec<Complex<R>>,
    ) -> (r: (Vec<R>, Vec<Vec<R>>))
        requires
            i1 < self@.bank1.wavelets@.len(),
            spectrum@.len() == self@.n,
            old(plans).wf::<R>(),
            keeps_length::<R, P, E>(&old(plans).engine()),
        ensures
            final(plans).wf::<R>(),
            final(plans).engine() == old(plans).engine(),
            self@.band_result::<P, A, E>(
                a,
                &old(plans).engine(),
                i1 as int,
                spectrum@,
                r.0@,
                r.1@,
            ),
            self@.band_shaped(r.0@, r.1@),
    {
        proof {
            use_type_invariant(self);
            self@.lemma_grids();
        }
        let n1: usize = self.geometry.n / self.geometry.d1;
        let ghost engine = plans.engine();
        // U1 = |x * psi_l1|. The modulus discards the carrier and keeps the
        // envelope, which is what makes the second order see modulation rather
        // than frequency.
        //
        // Rather than filtering across the whole grid, gather only the bins the
        // wavelet actually passes, re-centred on DC. That is an exact frequency
        // shift by an integer number of bins, and the modulus is blind to it,
        // so the envelope is unchanged. The saving is that the transforms below
        // run at the band's own width instead of the full input rate.
        let band = self.geometry.bands1[i1];
        let mut sub = extract_band(a, spectrum, &self.geometry.bank1.wavelets[i1].spectrum, band);
        plans.inverse(a, &mut sub);
        let mut u1 = take_envelope(a, sub.as_slice());
        plans.forward(&mut u1);
        proof {
            lemma_reach(band.len as int, n1 as int);
        }
        let u1_small = decimate_spectrum(a, u1.as_slice(), band.len / n1);
        assert(self@.band_envelope::<P, A, E>(a, &engine, i1 as int, spectrum@, u1_small@));

        let first = match self.geometry.phi_cache.get(&n1) {
            Some(phi) => average(a, plans, phi, self.geometry.n_out, &u1_small),
            None => Vec::new(),
        };
        let mut rows: Vec<Vec<R>> = Vec::new();
        if !self.geometry.config.order2 {
            return (first, rows);
        }
        let ceiling = self.geometry.mod_ceiling[i1];
        for i2 in 0..self.geometry.bank2.wavelets.len()
            invariant
                self@.wf(),
                i1 < self@.bank1.wavelets@.len(),
                ceiling == self@.mod_ceiling@[i1 as int],
                n1 == self@.n1(),
                power_of_two(n1 as int),
                1 <= n1,
                power_of_two(self@.n_out as int),
                u1_small@.len() == n1,
                plans.wf::<R>(),
                plans.engine() == engine,
                keeps_length::<R, P, E>(&engine),
                rows@.len() == i2,
                forall|j: int|
                    0 <= j < i2 ==> self@.second_order::<P, A, E>(
                        a,
                        &engine,
                        i1 as int,
                        j,
                        u1_small@,
                        (#[trigger] rows@[j])@,
                    ) && rows@[j]@.len() == self@.n_out,
        {
            let w2 = &self.geometry.bank2.wavelets[i2];
            // An envelope cannot fluctuate faster than the band that produced
            // it is wide, so anything above the ceiling is genuinely zero
            // rather than merely unmeasured, and is skipped.
            let row = if is_below(a, ceiling, w2.xi) {
                zeros(a, self.geometry.n_out)
            } else {
                let band2 = self.geometry.bands2[i2];
                let mut sub2 = extract_band(a, &u1_small, &w2.spectrum, band2);
                plans.inverse(a, &mut sub2);
                let mut u2 = take_envelope(a, sub2.as_slice());
                plans.forward(&mut u2);
                match self.geometry.phi_cache.get(&band2.len) {
                    Some(phi) => average(a, plans, phi, self.geometry.n_out, &u2),
                    None => Vec::new(),
                }
            };
            rows.push(row);
        }
        (first, rows)
    }

    /// Puts the coefficients of a block together, given those of each carrier
    /// band in order.
    pub fn assemble<A: Arithmetic<R>>(
        &self,
        a: &A,
        s0: Vec<R>,
        per_band: Vec<(Vec<R>, Vec<Vec<R>>)>,
    ) -> (out: Scattergram<R>)
        requires
            s0@.len() == self@.n_out,
            per_band@.len() == self@.bank1.wavelets@.len(),
            forall|i: int|
                0 <= i < per_band@.len() ==> self@.band_shaped(
                    (#[trigger] per_band@[i]).0@,
                    per_band@[i].1@,
                ),
        ensures
            out.wf(),
            self@.framed(a, &out),
            out.s0 == s0,
            forall|i: int|
                0 <= i < per_band@.len() ==> (#[trigger] out.s1@[i]) == per_band@[i].0
                    && out.second(i) == per_band@[i].1@,
    {
        proof {
            use_type_invariant(self);
        }
        let mut per_band = per_band;
        let ghost given = per_band@;
        let count: usize = per_band.len();
        let mut s1: Vec<Vec<R>> = Vec::with_capacity(count);
        let mut s2: Vec<Vec<Vec<R>>> = Vec::new();
        // Bands are taken from the back, and put in order again afterwards.
        while per_band.len() > 0
            invariant
                count == given.len(),
                per_band@.len() <= count,
                per_band@ == given.take(per_band@.len() as int),
                s1@.len() == count - per_band@.len(),
                forall|i: int|
                    0 <= i < s1@.len() ==> #[trigger] s1@[i] == given[count - 1 - i].0,
                self@.config.order2 ==> s2@.len() == s1@.len(),
                !self@.config.order2 ==> s2@.len() == 0,
                forall|i: int|
                    0 <= i < s2@.len() ==> #[trigger] s2@[i] == given[count - 1 - i].1,
            decreases per_band@.len(),
        {
            match per_band.pop() {
                Some((first, second)) => {
                    s1.push(first);
                    if self.geometry.config.order2 {
                        s2.push(second);
                    }
                },
                None => {},
            }
        }
        let s1 = reversed(s1);
        let s2 = reversed(s2);
        let out = Scattergram {
            lambda1_hz: self.lambda1_hz(a),
            lambda2_hz: self.lambda2_hz(a),
            s0,
            s1,
            s2,
            out_rate_hz: self.out_rate_hz(a),
            edge_margin_s: self.edge_margin_s(a),
        };
        proof {
            assert forall|i: int| 0 <= i < given.len() implies (#[trigger] out.s1@[i])
                == given[i].0 && out.second(i) == given[i].1@ by {
                assert(self@.band_shaped(given[i].0@, given[i].1@));
                if self.geometry.config.order2 {
                    assert(out.s2@[i] == given[i].1);
                } else {
                    assert(given[i].1@ =~= Seq::<Vec<R>>::empty());
                }
            }
            assert forall|i: int, j: int|
                0 <= i < out.s2@.len() && 0 <= j < out.s2@[i]@.len() implies (
            #[trigger] out.s2@[i]@[j])@.len() == out.s0@.len() by {
                assert(self@.band_shaped(given[i].0@, given[i].1@));
                assert(out.s2@[i] == given[i].1);
            }
            assert forall|i: int| 0 <= i < out.s2@.len() implies (
            #[trigger] out.s2@[i])@.len() == out.lambda2_hz@.len() by {
                assert(self@.band_shaped(given[i].0@, given[i].1@));
                assert(out.s2@[i] == given[i].1);
            }
            assert forall|i: int| 0 <= i < out.s1@.len() implies (
            #[trigger] out.s1@[i])@.len() == out.s0@.len() by {
                assert(self@.band_shaped(given[i].0@, given[i].1@));
            }
        }
        out
    }

    /// Analyses one block. `x` must be exactly `block_len()` samples.
    ///
    /// First-order bands are independent of one another: [`Scattering::prepare`]
    /// gives what they all start from, [`Scattering::analyse_band`] does any one
    /// of them, and [`Scattering::assemble`] puts them together. Here they are
    /// done in turn. One analyser can be shared between threads that each do
    /// some of them.
    pub fn analyse<P, A: Arithmetic<R>, E: Engine<R, P>>(
        &self,
        a: &A,
        plans: &mut Plans<P, E>,
        x: &[Complex<R>],
    ) -> (out: Scattergram<R>)
        requires
            x@.len() == self@.n,
            old(plans).wf::<R>(),
            keeps_length::<R, P, E>(&old(plans).engine()),
        ensures
            final(plans).wf::<R>(),
            final(plans).engine() == old(plans).engine(),
            out.wf(),
            self@.analysed::<P, A, E>(a, &old(plans).engine(), x@, &out),
    {
        proof {
            use_type_invariant(self);
        }
        let ghost engine = plans.engine();
        let (s0, spectrum) = self.prepare(a, plans, x);
        let mut per_band: Vec<(Vec<R>, Vec<Vec<R>>)> = Vec::with_capacity(
            self.geometry.bank1.wavelets.len(),
        );
        for i1 in 0..self.geometry.bank1.wavelets.len()
            invariant
                self@.wf(),
                spectrum@.len() == self@.n,
                plans.wf::<R>(),
                plans.engine() == engine,
                keeps_length::<R, P, E>(&engine),
                per_band@.len() == i1,
                forall|j: int|
                    0 <= j < i1 ==> self@.band_result::<P, A, E>(
                        a,
                        &engine,
                        j,
                        spectrum@,
                        (#[trigger] per_band@[j]).0@,
                        per_band@[j].1@,
                    ) && self@.band_shaped(per_band@[j].0@, per_band@[j].1@),
        {
            per_band.push(self.analyse_band(a, plans, i1, &spectrum));
        }
        self.assemble(a, s0, per_band)
    }
}

impl<R> Scattergram<R> {
    /// The second order of carrier `i1`: one row to a rate, or none.
    pub open spec fn second(&self, i1: int) -> Seq<Vec<R>> {
        if self.s2@.len() == 0 {
            Seq::empty()
        } else {
            self.s2@[i1]@
        }
    }
}

/// The bandwidth of the filter of `bank` closest to `xi`, at sample rate `fs`.
/// Not a number if the bank is empty.
pub open spec fn bandwidth_at<R: Copy, A: Arithmetic<R>>(
    a: &A,
    bank: &FilterBank<R>,
    xi: R,
    fs: R,
) -> R {
    match closest(a, bank.frequencies(), xi) {
        Some(i) => product(a, bank.wavelets@[i].bandwidth, fs),
        None => fraction(a, 0, 0),
    }
}

/// The centre frequencies of `bank` at sample rate `fs`.
fn axis_hz<R: Copy, A: Arithmetic<R>>(a: &A, bank: &FilterBank<R>, fs: R) -> (axis: Vec<R>)
    ensures
        axis@ == bank.frequencies().map_values(|xi: R| product(a, xi, fs)),
{
    let mut axis: Vec<R> = Vec::with_capacity(bank.wavelets.len());
    let ghost hz = bank.frequencies().map_values(|xi: R| product(a, xi, fs));
    for i in 0..bank.wavelets.len()
        invariant
            hz == bank.frequencies().map_values(|xi: R| product(a, xi, fs)),
            axis@ == hz.take(i as int),
    {
        axis.push(times(a, bank.wavelets[i].xi, fs));
        assert(axis@ =~= hz.take(i as int + 1));
    }
    assert(axis@ =~= hz);
    axis
}

/// `n` zeros.
fn zeros<R: Copy, A: Arithmetic<R>>(a: &A, n: usize) -> (row: Vec<R>)
    ensures
        row@ == Seq::new(n as nat, |t: int| num(a, 0)),
{
    let mut row: Vec<R> = Vec::with_capacity(n);
    for i in 0..n
        invariant
            row@.len() == i,
            forall|t: int| 0 <= t < i ==> row@[t] == num(a, 0),
    {
        row.push(a.number(0));
    }
    assert(row@ =~= Seq::new(n as nat, |t: int| num(a, 0)));
    row
}

/// `xs` back to front.
fn reversed<T>(xs: Vec<T>) -> (out: Vec<T>)
    ensures
        out@.len() == xs@.len(),
        forall|i: int| 0 <= i < xs@.len() ==> #[trigger] out@[i] == xs@[xs@.len() - 1 - i],
{
    let mut xs = xs;
    let ghost given = xs@;
    let mut out: Vec<T> = Vec::with_capacity(xs.len());
    while xs.len() > 0
        invariant
            xs@.len() <= given.len(),
            xs@ == given.take(xs@.len() as int),
            out@.len() == given.len() - xs@.len(),
            forall|i: int|
                0 <= i < out@.len() ==> #[trigger] out@[i] == given[given.len() - 1 - i],
        decreases xs@.len(),
    {
        match xs.pop() {
            Some(x) => {
                out.push(x);
            },
            None => {},
        }
    }
    out
}

} // verus!
