//! What the synthesised signals are, in values that stand for real numbers: how fast
//! their phase goes round, what their envelope is, and what noise adds to them.

use vstd::prelude::*;

use crate::arithmetic::{
    below, cosine, difference, exponential, fraction, larger, logarithm, negative, num, product,
    quotient, remainder, root, sine, sum, turn, Arithmetic,
};
use crate::complex::Complex;
use crate::grid::whole;
use crate::planes::{lemma_exchange, lemma_group, lemma_same, lemma_squares};
use crate::reals::{faithful, faithful_exponentials, lemma_fraction_value, lemma_quotient, Meaning};
use crate::synth::{
    add_noise, am, chirp, deviate, fm, lemma_stepped, pulsed, stepped, tiny, tone, two_tone,
    uniform, Xorshift,
};
use crate::tiling::faithful_powers;

verus! {

/// Whether `z` lies at `angle`, `size` away from the origin.
pub open spec fn points<R, A: Arithmetic<R>>(
    a: &A,
    m: Meaning<R>,
    z: Complex<R>,
    size: real,
    angle: R,
) -> bool {
    &&& m.of(z.re) == size * m.of(cosine(a, angle))
    &&& m.of(z.im) == size * m.of(sine(a, angle))
}

/// A full turn.
pub open spec fn full_turn<R, A: Arithmetic<R>>(a: &A, m: Meaning<R>) -> real {
    2real * m.of(a.circle_ratio())
}

proof fn lemma_turn<R, A: Arithmetic<R>>(a: &A, m: Meaning<R>)
    requires
        faithful(a, m),
    ensures
        m.of(turn(a)) == full_turn(a, m),
        full_turn(a, m) > 0real,
{
    reveal(faithful);
    assert(m.of(num(a, 2)) == 2real);
}

/// How many seconds in sample `t` is.
proof fn lemma_seconds<R, A: Arithmetic<R>>(a: &A, m: Meaning<R>, fs: R, t: u64)
    requires
        faithful(a, m),
        m.of(fs) > 0real,
    ensures
        m.of(quotient(a, num(a, t), fs)) * m.of(fs) == t as real,
{
    lemma_quotient(a, m, num(a, t), fs);
    reveal(faithful);
    assert(m.of(num(a, t)) == t as real);
}

/// The phase of a steady rotation, in samples.
proof fn lemma_steady<R, A: Arithmetic<R>>(a: &A, m: Meaning<R>, fs: R, f: R, t: u64)
    requires
        faithful(a, m),
        m.of(fs) > 0real,
    ensures
        ({
            let secs = quotient(a, num(a, t), fs);
            m.of(product(a, product(a, turn(a), f), secs)) * m.of(fs) == (full_turn(a, m) * m.of(
                f,
            )) * (t as real)
        }),
{
    lemma_turn(a, m);
    lemma_seconds(a, m, fs, t);
    let secs = quotient(a, num(a, t), fs);
    reveal(faithful);
    lemma_group(full_turn(a, m) * m.of(f), m.of(secs), m.of(fs));
}

/// A tone goes round steadily, `f_hz` times a second, at a constant distance: sample
/// `t` is at `2 pi f t / fs`.
pub proof fn law_tone_turns_steadily<R: Copy, A: Arithmetic<R>>(
    a: &A,
    m: Meaning<R>,
    n: usize,
    fs: R,
    f_hz: R,
    amplitude: R,
    x: Vec<Complex<R>>,
) -> (phase: spec_fn(int) -> R)
    requires
        faithful(a, m),
        m.of(fs) > 0real,
        call_ensures(tone::<R, A>, (a, n, fs, f_hz, amplitude), x),
    ensures
        x@.len() == n,
        forall|t: int|
            0 <= t < n ==> points(a, m, #[trigger] x@[t], m.of(amplitude), phase(t)) && m.of(
                phase(t),
            ) * m.of(fs) == (full_turn(a, m) * m.of(f_hz)) * (t as real),
{
    let phase = |t: int|
        quotient(a, product(a, product(a, turn(a), f_hz), num(a, t as u64)), fs);
    assert forall|t: int| 0 <= t < n implies points(
        a,
        m,
        #[trigger] x@[t],
        m.of(amplitude),
        phase(t),
    ) && m.of(phase(t)) * m.of(fs) == (full_turn(a, m) * m.of(f_hz)) * (t as real) by {
        lemma_turn(a, m);
        lemma_quotient(a, m, product(a, product(a, turn(a), f_hz), num(a, t as u64)), fs);
        reveal(faithful);
        assert(m.of(num(a, t as u64)) == t as real);
    }
    phase
}

/// Two tones are one tone and another, added up.
pub proof fn law_two_tones_add_up<R: Copy, A: Arithmetic<R>>(
    a: &A,
    m: Meaning<R>,
    n: usize,
    fs: R,
    f1_hz: R,
    a1: R,
    f2_hz: R,
    a2: R,
    x: Vec<Complex<R>>,
    y: Vec<Complex<R>>,
    both: Vec<Complex<R>>,
)
    requires
        faithful(a, m),
        call_ensures(tone::<R, A>, (a, n, fs, f1_hz, a1), x),
        call_ensures(tone::<R, A>, (a, n, fs, f2_hz, a2), y),
        call_ensures(two_tone::<R, A>, (a, n, fs, f1_hz, a1, f2_hz, a2), both),
    ensures
        both@.len() == n,
        forall|t: int|
            0 <= t < n ==> m.of((#[trigger] both@[t]).re) == m.of(x@[t].re) + m.of(y@[t].re)
                && m.of(both@[t].im) == m.of(x@[t].im) + m.of(y@[t].im),
{
    reveal(faithful);
}

/// Amplitude modulation is a steady rotation whose distance swings about the
/// amplitude: `A (1 + m cos(2 pi f_m t / fs))`, at `2 pi f_c t / fs`.
pub proof fn law_amplitude_swings_about_its_mean<R: Copy, A: Arithmetic<R>>(
    a: &A,
    m: Meaning<R>,
    n: usize,
    fs: R,
    carrier_hz: R,
    mod_hz: R,
    depth: R,
    amplitude: R,
    x: Vec<Complex<R>>,
) -> (phases: (spec_fn(int) -> R, spec_fn(int) -> R))
    requires
        faithful(a, m),
        m.of(fs) > 0real,
        call_ensures(am::<R, A>, (a, n, fs, carrier_hz, mod_hz, depth, amplitude), x),
    ensures
        x@.len() == n,
        forall|t: int|
            0 <= t < n ==> {
                let (phase, swing) = ((phases.0)(t), (phases.1)(t));
                &&& points(
                    a,
                    m,
                    #[trigger] x@[t],
                    m.of(amplitude) * (1real + m.of(depth) * m.of(cosine(a, swing))),
                    phase,
                )
                &&& m.of(phase) * m.of(fs) == (full_turn(a, m) * m.of(carrier_hz)) * (t as real)
                &&& m.of(swing) * m.of(fs) == (full_turn(a, m) * m.of(mod_hz)) * (t as real)
            },
{
    let phase = |t: int|
        product(a, product(a, turn(a), carrier_hz), quotient(a, num(a, t as u64), fs));
    let swing = |t: int|
        product(a, product(a, turn(a), mod_hz), quotient(a, num(a, t as u64), fs));
    assert forall|t: int| 0 <= t < n implies ({
        &&& points(
            a,
            m,
            #[trigger] x@[t],
            m.of(amplitude) * (1real + m.of(depth) * m.of(cosine(a, swing(t)))),
            phase(t),
        )
        &&& m.of(phase(t)) * m.of(fs) == (full_turn(a, m) * m.of(carrier_hz)) * (t as real)
        &&& m.of(swing(t)) * m.of(fs) == (full_turn(a, m) * m.of(mod_hz)) * (t as real)
    }) by {
        lemma_steady(a, m, fs, carrier_hz, t as u64);
        lemma_steady(a, m, fs, mod_hz, t as u64);
        reveal(faithful);
        assert(m.of(num(a, 1)) == 1real);
    }
    (phase, swing)
}

/// Frequency modulation keeps its distance, and its phase swings about that of the
/// carrier by `deviation / f_m` at most: `2 pi f_c t / fs + (deviation / f_m) sin(2 pi
/// f_m t / fs)`.
pub proof fn law_frequency_swings_about_its_mean<R: Copy, A: Arithmetic<R>>(
    a: &A,
    m: Meaning<R>,
    n: usize,
    fs: R,
    carrier_hz: R,
    mod_hz: R,
    deviation_hz: R,
    amplitude: R,
    x: Vec<Complex<R>>,
) -> (phases: (spec_fn(int) -> R, spec_fn(int) -> R))
    requires
        faithful(a, m),
        m.of(fs) > 0real,
        m.of(mod_hz) > 0real,
        call_ensures(fm::<R, A>, (a, n, fs, carrier_hz, mod_hz, deviation_hz, amplitude), x),
    ensures
        x@.len() == n,
        forall|t: int|
            0 <= t < n ==> {
                let (phase, swing) = ((phases.0)(t), (phases.1)(t));
                &&& points(a, m, #[trigger] x@[t], m.of(amplitude), phase)
                &&& m.of(swing) * m.of(fs) == (full_turn(a, m) * m.of(mod_hz)) * (t as real)
                &&& (m.of(phase) * m.of(fs) - (full_turn(a, m) * m.of(carrier_hz)) * (t as real))
                    * m.of(mod_hz) == (m.of(deviation_hz) * m.of(sine(a, swing))) * m.of(fs)
            },
{
    let swing = |t: int|
        product(a, product(a, turn(a), mod_hz), quotient(a, num(a, t as u64), fs));
    let phase = |t: int|
        sum(
            a,
            product(a, product(a, turn(a), carrier_hz), quotient(a, num(a, t as u64), fs)),
            product(a, quotient(a, deviation_hz, mod_hz), sine(a, swing(t))),
        );
    assert forall|t: int| 0 <= t < n implies ({
        &&& points(a, m, #[trigger] x@[t], m.of(amplitude), phase(t))
        &&& m.of(swing(t)) * m.of(fs) == (full_turn(a, m) * m.of(mod_hz)) * (t as real)
        &&& (m.of(phase(t)) * m.of(fs) - (full_turn(a, m) * m.of(carrier_hz)) * (t as real))
            * m.of(mod_hz) == (m.of(deviation_hz) * m.of(sine(a, swing(t)))) * m.of(fs)
    }) by {
        lemma_steady(a, m, fs, carrier_hz, t as u64);
        lemma_steady(a, m, fs, mod_hz, t as u64);
        lemma_quotient(a, m, deviation_hz, mod_hz);
        let p = product(a, product(a, turn(a), carrier_hz), quotient(a, num(a, t as u64), fs));
        let q = quotient(a, deviation_hz, mod_hz);
        let (s, f, g) = (m.of(sine(a, swing(t))), m.of(fs), m.of(mod_hz));
        assert(m.of(phase(t)) == m.of(p) + m.of(q) * s) by {
            reveal(faithful);
        }
        let (pv, qv) = (m.of(p), m.of(q));
        let qs = qv * s;
        assert((pv + qs) * f == pv * f + qs * f) by (nonlinear_arith);
        lemma_exchange(qs, f, g);
        lemma_exchange(qv, s, g);
        assert(points(a, m, x@[t], m.of(amplitude), phase(t))) by {
            reveal(faithful);
        }
    }
    (phase, swing)
}

/// What the bend of a chirp comes to, in samples.
proof fn lemma_bend(
    half: real,
    rate: real,
    secs: real,
    fs: real,
    n: real,
    span: real,
    t: real,
    change: real,
)
    requires
        half * 2real == 1real,
        secs * fs == t,
        span * fs == n,
        rate * span == change,
    ensures
        (((half * rate) * secs) * secs) * ((2real * n) * fs) == change * (t * t),
{
    let ss = secs * secs;
    lemma_group(half * rate, secs, secs);
    lemma_group(half, rate, ss);
    let p = rate * ss;
    let k = n * fs;
    lemma_group(2real, n, fs);
    lemma_group(half, p, 2real * k);
    assert(p * (2real * k) == 2real * (p * k)) by (nonlinear_arith);
    lemma_group(half, 2real, p * k);
    assert(1real * (p * k) == p * k) by (nonlinear_arith);
    lemma_group(span, fs, fs);
    let ff = fs * fs;
    // p k = (rate ss) (span ff)
    lemma_group(rate, ss, span * ff);
    lemma_group(ss, span, ff);
    assert(ss * span == span * ss) by (nonlinear_arith);
    lemma_group(span, ss, ff);
    lemma_group(rate, span, ss * ff);
    lemma_squares(secs, fs);
}

/// The phase of sample `t` of a chirp, in samples.
proof fn lemma_chirp_phase<R: Copy, A: Arithmetic<R>>(
    a: &A,
    m: Meaning<R>,
    n: usize,
    fs: R,
    start_hz: R,
    end_hz: R,
    amplitude: R,
    x: Vec<Complex<R>>,
    t: int,
) -> (phase: R)
    requires
        faithful(a, m),
        m.of(fs) > 0real,
        call_ensures(chirp::<R, A>, (a, n, fs, start_hz, end_hz, amplitude), x),
        0 <= t < n,
    ensures
        points(a, m, x@[t], m.of(amplitude), phase),
        m.of(phase) * ((2real * (n as real)) * m.of(fs)) == full_turn(a, m) * (((2real * (
        n as real)) * (t as real)) * m.of(start_hz) + (m.of(end_hz) - m.of(start_hz)) * ((t as real)
            * (t as real))),
{
    let secs = quotient(a, num(a, t as u64), fs);
    let span = quotient(a, num(a, n as u64), fs);
    let change = difference(a, end_hz, start_hz);
    let rate = quotient(a, change, span);
    let half = fraction(a, 1, 2);
    let bend = product(a, product(a, product(a, half, rate), secs), secs);
    let turns = sum(a, product(a, start_hz, secs), bend);
    let phase = product(a, turn(a), turns);
    lemma_turn(a, m);
    lemma_seconds(a, m, fs, t as u64);
    lemma_seconds(a, m, fs, n as u64);
    lemma_fraction_value(a, m, 1, 2);
    let (sv, dv, f, nr, tr) = (m.of(secs), m.of(span), m.of(fs), n as real, t as real);
    assert(dv > 0real) by (nonlinear_arith)
        requires
            dv * f == nr,
            nr >= 1real,
            f > 0real,
    ;
    lemma_quotient(a, m, change, span);
    assert(points(a, m, x@[t], m.of(amplitude), phase)) by {
        reveal(faithful);
    }
    let (w, b, s0) = (full_turn(a, m), m.of(bend), m.of(start_hz));
    assert(m.of(change) == m.of(end_hz) - s0 && b == ((m.of(half) * m.of(rate)) * sv) * sv && m.of(
        turns,
    ) == s0 * sv + b && m.of(phase) == w * m.of(turns)) by {
        reveal(faithful);
    }
    lemma_bend(m.of(half), m.of(rate), sv, f, nr, dv, tr, m.of(change));
    let k = (2real * nr) * f;
    lemma_group(w, m.of(turns), k);
    let u = s0 * sv;
    assert((u + b) * k == u * k + b * k) by (nonlinear_arith);
    // u k = start secs (2 n) fs
    let nn = 2real * nr;
    lemma_group(s0, sv, nn * f);
    assert(sv * (nn * f) == nn * (sv * f)) by (nonlinear_arith);
    let v = nn * (sv * f);
    assert(s0 * v == v * s0) by (nonlinear_arith);
    phase
}

/// A chirp sweeps from `start_hz` to `end_hz`, whichever is higher: from one sample to
/// the next its phase advances at `start + (end - start) (2 t + 1) / (2 n)` Hz, which
/// goes evenly from the one to the other across the block; and its distance is
/// constant.
pub proof fn law_chirp_sweeps_from_start_to_end<R: Copy, A: Arithmetic<R>>(
    a: &A,
    m: Meaning<R>,
    n: usize,
    fs: R,
    start_hz: R,
    end_hz: R,
    amplitude: R,
    x: Vec<Complex<R>>,
) -> (phase: spec_fn(int) -> R)
    requires
        faithful(a, m),
        m.of(fs) > 0real,
        call_ensures(chirp::<R, A>, (a, n, fs, start_hz, end_hz, amplitude), x),
    ensures
        x@.len() == n,
        forall|t: int| 0 <= t < n ==> points(a, m, #[trigger] x@[t], m.of(amplitude), phase(t)),
        n > 0 ==> m.of(phase(0)) == 0real,
        forall|t: int|
            0 <= t < n - 1 ==> (m.of(phase(t + 1)) - m.of(#[trigger] phase(t))) * ((2real * (
            n as real)) * m.of(fs)) == full_turn(a, m) * ((2real * (n as real)) * m.of(start_hz) + (
            m.of(end_hz) - m.of(start_hz)) * (2real * (t as real) + 1real)),
{
    let phase = |t: int|
        choose|p: R|
            points(a, m, x@[t], m.of(amplitude), p) && #[trigger] m.of(p) * ((2real * (n as real))
                * m.of(fs)) == full_turn(a, m) * (((2real * (n as real)) * (t as real)) * m.of(
                start_hz,
            ) + (m.of(end_hz) - m.of(start_hz)) * ((t as real) * (t as real)));
    let (k, f, w) = (2real * (n as real), m.of(fs), full_turn(a, m));
    let (s, d) = (m.of(start_hz), m.of(end_hz) - m.of(start_hz));
    assert forall|t: int| 0 <= t < n implies points(
        a,
        m,
        #[trigger] x@[t],
        m.of(amplitude),
        phase(t),
    ) && m.of(phase(t)) * (k * f) == w * ((k * (t as real)) * s + d * ((t as real) * (t as real)))
        by {
        let p = lemma_chirp_phase(a, m, n, fs, start_hz, end_hz, amplitude, x, t);
        assert(m.of(p) * (k * f) == w * ((k * (t as real)) * s + d * ((t as real) * (t as real))));
    }
    if n > 0 {
        assert(points(a, m, x@[0], m.of(amplitude), phase(0)));
        let p = m.of(phase(0));
        let kf = k * f;
        assert(kf > 0real) by (nonlinear_arith)
            requires
                kf == k * f,
                k >= 2real,
                f > 0real,
        ;
        assert(k * 0real == 0real && 0real * s == 0real && 0real * 0real == 0real && d * 0real
            == 0real && w * 0real == 0real) by (nonlinear_arith);
        assert(0real * kf == 0real) by (nonlinear_arith);
        lemma_same(kf, p, 0real);
    }
    assert forall|t: int| 0 <= t < n - 1 implies (m.of(phase(t + 1)) - m.of(#[trigger] phase(t)))
        * (k * f) == w * (k * s + d * (2real * (t as real) + 1real)) by {
        assert(points(a, m, x@[t], m.of(amplitude), phase(t)));
        assert(points(a, m, x@[t + 1], m.of(amplitude), phase(t + 1)));
        let (p, q, r) = (m.of(phase(t)), m.of(phase(t + 1)), t as real);
        let kf = k * f;
        assert((q - p) * kf == q * kf - p * kf) by (nonlinear_arith);
        let next = (t + 1) as real;
        assert(next == r + 1real);
        assert(k * (r + 1real) == k * r + k) by (nonlinear_arith);
        let kr = k * r;
        assert((kr + k) * s == kr * s + k * s) by (nonlinear_arith);
        assert((r + 1real) * (r + 1real) - r * r == 2real * r + 1real) by (nonlinear_arith);
        let (u, v) = (next * next, r * r);
        assert(d * u - d * v == d * (u - v)) by (nonlinear_arith);
        let (y, z) = ((k * next) * s + d * u, (k * r) * s + d * v);
        assert(w * y - w * z == w * (y - z)) by (nonlinear_arith);
    }
    phase
}

/// A chirp the other way is the same sweep backwards: the phase of the one, `t` samples
/// from its start, and that of the other, `t` samples from its end, always add up to
/// the same.
pub proof fn law_chirps_reverse<R: Copy, A: Arithmetic<R>>(
    a: &A,
    m: Meaning<R>,
    n: usize,
    fs: R,
    start_hz: R,
    end_hz: R,
    amplitude: R,
    x: Vec<Complex<R>>,
    y: Vec<Complex<R>>,
    t: int,
) -> (phases: (R, R))
    requires
        faithful(a, m),
        m.of(fs) > 0real,
        call_ensures(chirp::<R, A>, (a, n, fs, start_hz, end_hz, amplitude), x),
        call_ensures(chirp::<R, A>, (a, n, fs, end_hz, start_hz, amplitude), y),
        0 < t < n,
    ensures
        points(a, m, x@[t], m.of(amplitude), phases.0),
        points(a, m, y@[n - t], m.of(amplitude), phases.1),
        (m.of(phases.0) + m.of(phases.1)) * ((2real * (n as real)) * m.of(fs)) == full_turn(a, m)
            * ((n as real * n as real) * (m.of(start_hz) + m.of(end_hz))),
{
    let p = lemma_chirp_phase(a, m, n, fs, start_hz, end_hz, amplitude, x, t);
    let q = lemma_chirp_phase(a, m, n, fs, end_hz, start_hz, amplitude, y, n - t);
    let (nr, r, s, e, w) = (n as real, t as real, m.of(start_hz), m.of(end_hz), full_turn(a, m));
    let back = (n - t) as real;
    assert(back == nr - r);
    let kf = (2real * nr) * m.of(fs);
    let (u, v) = (m.of(p), m.of(q));
    assert((u + v) * kf == u * kf + v * kf) by (nonlinear_arith);
    let y1 = ((2real * nr) * r) * s + (e - s) * (r * r);
    let y2 = ((2real * nr) * back) * e + (s - e) * (back * back);
    lemma_back_and_forth(nr, r, s, e);
    assert(w * y1 + w * y2 == w * (y1 + y2)) by (nonlinear_arith);
    (p, q)
}

proof fn lemma_back_and_forth(n: real, r: real, s: real, e: real)
    ensures
        (((2real * n) * r) * s + (e - s) * (r * r)) + (((2real * n) * (n - r)) * e + (s - e) * ((n
            - r) * (n - r))) == (n * n) * (s + e),
{
    let (nr, rr, nn) = (n * r, r * r, n * n);
    assert((n - r) * (n - r) == n * n - 2real * (n * r) + r * r) by (nonlinear_arith);
    assert((2real * n) * (n - r) == 2real * (n * n) - 2real * (n * r)) by (nonlinear_arith);
    assert((2real * n) * r == 2real * (n * r)) by (nonlinear_arith);
    let (k, d) = (2real * nr, e - s);
    let back = nn - k + rr;
    assert((s - e) * back == -(d * back)) by (nonlinear_arith)
        requires
            d == e - s,
    ;
    assert(d * back == d * nn - d * k + d * rr) by (nonlinear_arith)
        requires
            back == nn - k + rr,
    ;
    assert((2real * nn - k) * e == 2real * (nn * e) - k * e) by (nonlinear_arith);
    assert(d * nn == nn * e - nn * s) by (nonlinear_arith)
        requires
            d == e - s,
    ;
    assert(d * k == k * e - k * s) by (nonlinear_arith)
        requires
            d == e - s,
    ;
    assert(nn * (s + e) == nn * s + nn * e) by (nonlinear_arith);
}

/// Whether what a division by a positive value leaves over of one that is not negative
/// is that value less a whole number of the divisor, and less than the divisor.
#[verifier::opaque]
pub open spec fn faithful_remainders<R, A: Arithmetic<R>>(a: &A, m: Meaning<R>) -> bool {
    forall|x: R, y: R|
        m.of(x) >= 0real && m.of(y) > 0real ==> {
            let over = m.of(#[trigger] remainder(a, x, y));
            &&& 0real <= over < m.of(y)
            &&& exists|k: int| m.of(x) - over == #[trigger] whole(k) * m.of(y)
        }
}

/// A pulse train is a tone that is on for the first part of every period and off for
/// the rest: with `k` whole periods gone by, sample `t` is on if what is gone of the
/// next is less than `duty` of it.
pub proof fn law_pulses_repeat<R: Copy, A: Arithmetic<R>>(
    a: &A,
    m: Meaning<R>,
    n: usize,
    fs: R,
    carrier_hz: R,
    prf_hz: R,
    duty: R,
    amplitude: R,
    x: Vec<Complex<R>>,
    t: int,
) -> (at: (R, int))
    requires
        faithful(a, m),
        faithful_remainders(a, m),
        m.of(fs) > 0real,
        m.of(prf_hz) > 0real,
        call_ensures(pulsed::<R, A>, (a, n, fs, carrier_hz, prf_hz, duty, amplitude), x),
        0 <= t < n,
    ensures
        x@.len() == n,
        m.of(at.0) * m.of(fs) == (full_turn(a, m) * m.of(carrier_hz)) * (t as real),
        ({
            let gone = (t as real) * m.of(prf_hz) - whole(at.1) * m.of(fs);
            &&& 0real <= gone < m.of(fs)
            &&& points(
                a,
                m,
                x@[t],
                if gone < m.of(duty) * m.of(fs) {
                    m.of(amplitude)
                } else {
                    0real
                },
                at.0,
            )
        }),
{
    let now = num(a, t as u64);
    let period = quotient(a, fs, prf_hz);
    let left = remainder(a, now, period);
    let part = quotient(a, left, period);
    let phase = quotient(a, product(a, product(a, turn(a), carrier_hz), now), fs);
    lemma_turn(a, m);
    assert(m.of(now) == t as real) by {
        reveal(faithful);
    }
    lemma_quotient(a, m, fs, prf_hz);
    let (p, g, f, r) = (m.of(period), m.of(prf_hz), m.of(fs), t as real);
    assert(p > 0real) by (nonlinear_arith)
        requires
            p * g == f,
            f > 0real,
            g > 0real,
    ;
    let over = m.of(left);
    assert(0real <= over < p && exists|k: int| r - over == #[trigger] whole(k) * p) by {
        reveal(faithful_remainders);
    }
    let k = choose|k: int| r - over == #[trigger] whole(k) * p;
    lemma_quotient(a, m, left, period);
    let (c, d, q) = (whole(k), m.of(duty), m.of(part));
    let gone = r * g - c * f;
    // over g = gone, and p g = fs.
    lemma_group(c, p, g);
    assert((r - over) * g == r * g - over * g) by (nonlinear_arith);
    assert(over * g == gone);
    assert(0real <= over * g < p * g) by (nonlinear_arith)
        requires
            0real <= over < p,
            g > 0real,
    ;
    // part p = over, so part fs = gone.
    lemma_group(q, p, g);
    assert(q * f == gone);
    assert(below(a, part, duty) == (q < d)) by {
        reveal(faithful);
    }
    if q < d {
        assert(q * f < d * f) by (nonlinear_arith)
            requires
                q < d,
                f > 0real,
        ;
    } else {
        assert(q * f >= d * f) by (nonlinear_arith)
            requires
                q >= d,
                f > 0real,
        ;
    }
    lemma_quotient(a, m, product(a, product(a, turn(a), carrier_hz), now), fs);
    reveal(faithful);
    assert(m.of(num(a, 0)) == 0real);
    (phase, k)
}

// Noise.

/// What noise adds to a signal depends on the seed and the level alone, and is in
/// proportion to the level.
pub proof fn law_noise_ignores_the_signal<R: Copy, A: Arithmetic<R>>(
    a: &A,
    m: Meaning<R>,
    x: &mut Vec<Complex<R>>,
    y: &mut Vec<Complex<R>>,
    sigma: R,
    level: R,
    seed: u64,
    i: int,
)
    requires
        faithful(a, m),
        call_ensures(add_noise::<R, A>, (a, x, sigma, seed), ()),
        call_ensures(add_noise::<R, A>, (a, y, level, seed), ()),
        0 <= i < old(x)@.len(),
        i < old(y)@.len(),
    ensures
        final(x)@.len() == old(x)@.len(),
        (m.of(final(x)@[i].re) - m.of(old(x)@[i].re)) * m.of(level) == (m.of(final(y)@[i].re)
            - m.of(old(y)@[i].re)) * m.of(sigma),
        (m.of(final(x)@[i].im) - m.of(old(x)@[i].im)) * m.of(level) == (m.of(final(y)@[i].im)
            - m.of(old(y)@[i].im)) * m.of(sigma),
        sigma == level ==> m.of(final(x)@[i].re) - m.of(old(x)@[i].re) == m.of(final(y)@[i].re)
            - m.of(old(y)@[i].re) && m.of(final(x)@[i].im) - m.of(old(x)@[i].im) == m.of(
            final(y)@[i].im,
        ) - m.of(old(y)@[i].im),
{
    let s0 = seed | 1;
    let d1 = deviate(a, stepped(s0, (4 * i) as nat));
    let d2 = deviate(a, stepped(s0, (4 * i + 2) as nat));
    let (s, l, u, v) = (m.of(sigma), m.of(level), m.of(d1), m.of(d2));
    assert(m.of(final(x)@[i].re) - m.of(old(x)@[i].re) == s * u && m.of(final(x)@[i].im) - m.of(
        old(x)@[i].im,
    ) == s * v && m.of(final(y)@[i].re) - m.of(old(y)@[i].re) == l * u && m.of(final(y)@[i].im)
        - m.of(old(y)@[i].im) == l * v) by {
        reveal(faithful);
    }
    lemma_exchange(s, u, l);
    lemma_exchange(s, v, l);
    assert(s * l == l * s) by (nonlinear_arith);
    lemma_exchange(l, u, s);
    lemma_exchange(l, v, s);
}

/// The noise on a sample is two draws of one generator, one after the other, times the
/// level: of the generator that the seed starts, once it has made two steps to a draw
/// for every sample before.
pub proof fn law_noise_is_drawn_in_turn<R: Copy, A: Arithmetic<R>>(
    a: &A,
    m: Meaning<R>,
    x: &mut Vec<Complex<R>>,
    sigma: R,
    seed: u64,
    rng: Xorshift,
    first: &mut Xorshift,
    u: R,
    second: &mut Xorshift,
    v: R,
    i: int,
)
    requires
        faithful(a, m),
        call_ensures(add_noise::<R, A>, (a, x, sigma, seed), ()),
        call_ensures(Xorshift::new, (seed,), rng),
        0 <= i < old(x)@.len(),
        old(first).state() == stepped(rng.state(), (4 * i) as nat),
        call_ensures(Xorshift::normal::<R, A>, (first, a), u),
        old(second).state() == final(first).state(),
        call_ensures(Xorshift::normal::<R, A>, (second, a), v),
    ensures
        m.of(final(x)@[i].re) - m.of(old(x)@[i].re) == m.of(sigma) * m.of(u),
        m.of(final(x)@[i].im) - m.of(old(x)@[i].im) == m.of(sigma) * m.of(v),
{
    lemma_stepped(seed | 1, (4 * i) as nat, 2);
    reveal(faithful);
}

/// A uniform deviate is at least zero and less than one.
pub proof fn law_uniform_deviates_are_fractions<R, A: Arithmetic<R>>(
    a: &A,
    m: Meaning<R>,
    bits: u64,
)
    requires
        faithful(a, m),
    ensures
        0real <= m.of(uniform(a, bits)) < 1real,
        m.of(uniform(a, bits)) * 0x20_0000_0000_0000real == (bits >> 11) as real,
{
    let top = bits >> 11;
    assert(bits >> 11 < 0x20_0000_0000_0000u64) by (bit_vector);
    lemma_fraction_value(a, m, top, 0x20_0000_0000_0000);
    let u = m.of(uniform(a, bits));
    let (k, t) = (0x20_0000_0000_0000real, top as real);
    assert(0real <= u < 1real) by (nonlinear_arith)
        requires
            u * k == t,
            0real <= t < k,
            k > 0real,
    ;
}

/// A generator starts at its seed, but for the last bit, which is set.
pub proof fn law_generators_start_at_their_seed(seed: u64, rng: Xorshift)
    requires
        call_ensures(Xorshift::new, (seed,), rng),
    ensures
        rng.state() % 2 == 1,
        rng.state() / 2 == seed / 2,
{
    assert((seed | 1) % 2 == 1 && (seed | 1) / 2 == seed / 2) by (bit_vector);
}

/// What the generator makes of a state it makes of each bit of that state by itself: of
/// two states taken together, what it makes of either. No two states lead to the same
/// one.
pub proof fn law_generator_takes_bits_apart(
    x: &mut Xorshift,
    y: &mut Xorshift,
    both: &mut Xorshift,
    p: u64,
    q: u64,
    r: u64,
)
    requires
        old(both).state() == old(x).state() ^ old(y).state(),
        call_ensures(Xorshift::next_u64, (x,), p),
        call_ensures(Xorshift::next_u64, (y,), q),
        call_ensures(Xorshift::next_u64, (both,), r),
    ensures
        r == p ^ q,
        p == q ==> old(x).state() == old(y).state(),
        final(x).state() == p,
{
    let (a, b) = (old(x).state(), old(y).state());
    let (a1, b1, c1) = (a ^ (a << 13), b ^ (b << 13), (a ^ b) ^ ((a ^ b) << 13));
    let (a2, b2, c2) = (a1 ^ (a1 >> 7), b1 ^ (b1 >> 7), c1 ^ (c1 >> 7));
    assert((a ^ b) ^ ((a ^ b) << 13) == (a ^ (a << 13)) ^ (b ^ (b << 13))) by (bit_vector);
    assert(c1 == a1 ^ b1);
    assert((a1 ^ b1) ^ ((a1 ^ b1) >> 7) == (a1 ^ (a1 >> 7)) ^ (b1 ^ (b1 >> 7))) by (bit_vector);
    assert(c2 == a2 ^ b2);
    assert((a2 ^ b2) ^ ((a2 ^ b2) << 17) == (a2 ^ (a2 << 17)) ^ (b2 ^ (b2 << 17))) by (bit_vector);
    if p == q {
        assert(a2 == b2) by (bit_vector)
            requires
                a2 ^ (a2 << 17) == b2 ^ (b2 << 17),
        ;
        assert(a1 == b1) by (bit_vector)
            requires
                a1 ^ (a1 >> 7) == b1 ^ (b1 >> 7),
        ;
        assert(a == b) by (bit_vector)
            requires
                a ^ (a << 13) == b ^ (b << 13),
        ;
    }
}

/// Bit `j` of a word, or none if it has no such bit.
pub open spec fn bit(j: int) -> u64 {
    if 0 <= j < 64 {
        1u64 << (j as u64)
    } else {
        0
    }
}

/// `x`, if `here`.
pub open spec fn given(here: bool, x: u64) -> u64 {
    if here {
        x
    } else {
        0
    }
}

/// A single bit goes to as many as eight places: to itself, thirteen up, seven down, both
/// of these, and each of the four once more seventeen up; to those of them that are in
/// the word at every turn.
pub proof fn law_generator_moves_single_bits(x: &mut Xorshift, k: u64, r: u64)
    requires
        k < 64,
        old(x).state() == 1u64 << k,
        call_ensures(Xorshift::next_u64, (x,), r),
    ensures
        r == bit(k as int) ^ bit(k + 13) ^ bit(k - 7) ^ given(k + 13 < 64, bit(k + 6)) ^ bit(k + 17)
            ^ bit(k + 30) ^ given(k >= 7, bit(k + 10)) ^ given(k + 13 < 64, bit(k + 23)),
{
    let s = 1u64 << k;
    let y = s ^ (s << 13);
    let z = y ^ (y >> 7);
    assert(forall|v: u64| #[trigger] (v ^ 0u64) == v) by (bit_vector);
    if k < 7 {
        let up13 = (k + 13) as u64;
        let up6 = (k + 6) as u64;
        let up17 = (k + 17) as u64;
        let up30 = (k + 30) as u64;
        let up23 = (k + 23) as u64;
        assert(z ^ (z << 17) == (1u64 << k) ^ (1u64 << up13) ^ (1u64 << up6) ^ (1u64 << up17)
            ^ (1u64 << up30) ^ (1u64 << up23)) by (bit_vector)
            requires
                s == 1u64 << k,
                y == s ^ (s << 13),
                z == y ^ (y >> 7),
                k < 7,
                up13 == k + 13,
                up6 == k + 6,
                up17 == k + 17,
                up30 == k + 30,
                up23 == k + 23,
        ;
    }
    if 7 <= k < 34 {
        let up13 = (k + 13) as u64;
        let down7 = (k - 7) as u64;
        let up6 = (k + 6) as u64;
        let up17 = (k + 17) as u64;
        let up30 = (k + 30) as u64;
        let up10 = (k + 10) as u64;
        let up23 = (k + 23) as u64;
        assert(z ^ (z << 17) == (1u64 << k) ^ (1u64 << up13) ^ (1u64 << down7) ^ (1u64 << up6)
            ^ (1u64 << up17) ^ (1u64 << up30) ^ (1u64 << up10) ^ (1u64 << up23)) by (bit_vector)
            requires
                s == 1u64 << k,
                y == s ^ (s << 13),
                z == y ^ (y >> 7),
                7 <= k,
                k < 34,
                up13 == k + 13,
                down7 == k - 7,
                up6 == k + 6,
                up17 == k + 17,
                up30 == k + 30,
                up10 == k + 10,
                up23 == k + 23,
        ;
    }
    if 34 <= k < 41 {
        let up13 = (k + 13) as u64;
        let down7 = (k - 7) as u64;
        let up6 = (k + 6) as u64;
        let up17 = (k + 17) as u64;
        let up10 = (k + 10) as u64;
        let up23 = (k + 23) as u64;
        assert(z ^ (z << 17) == (1u64 << k) ^ (1u64 << up13) ^ (1u64 << down7) ^ (1u64 << up6)
            ^ (1u64 << up17) ^ (1u64 << up10) ^ (1u64 << up23)) by (bit_vector)
            requires
                s == 1u64 << k,
                y == s ^ (s << 13),
                z == y ^ (y >> 7),
                34 <= k,
                k < 41,
                up13 == k + 13,
                down7 == k - 7,
                up6 == k + 6,
                up17 == k + 17,
                up10 == k + 10,
                up23 == k + 23,
        ;
    }
    if 41 <= k < 47 {
        let up13 = (k + 13) as u64;
        let down7 = (k - 7) as u64;
        let up6 = (k + 6) as u64;
        let up17 = (k + 17) as u64;
        let up10 = (k + 10) as u64;
        assert(z ^ (z << 17) == (1u64 << k) ^ (1u64 << up13) ^ (1u64 << down7) ^ (1u64 << up6)
            ^ (1u64 << up17) ^ (1u64 << up10)) by (bit_vector)
            requires
                s == 1u64 << k,
                y == s ^ (s << 13),
                z == y ^ (y >> 7),
                41 <= k,
                k < 47,
                up13 == k + 13,
                down7 == k - 7,
                up6 == k + 6,
                up17 == k + 17,
                up10 == k + 10,
        ;
    }
    if 47 <= k < 51 {
        let up13 = (k + 13) as u64;
        let down7 = (k - 7) as u64;
        let up6 = (k + 6) as u64;
        let up10 = (k + 10) as u64;
        assert(z ^ (z << 17) == (1u64 << k) ^ (1u64 << up13) ^ (1u64 << down7) ^ (1u64 << up6)
            ^ (1u64 << up10)) by (bit_vector)
            requires
                s == 1u64 << k,
                y == s ^ (s << 13),
                z == y ^ (y >> 7),
                47 <= k,
                k < 51,
                up13 == k + 13,
                down7 == k - 7,
                up6 == k + 6,
                up10 == k + 10,
        ;
    }
    if 51 <= k < 54 {
        let down7 = (k - 7) as u64;
        let up10 = (k + 10) as u64;
        assert(z ^ (z << 17) == (1u64 << k) ^ (1u64 << down7) ^ (1u64 << up10)) by (bit_vector)
            requires
                s == 1u64 << k,
                y == s ^ (s << 13),
                z == y ^ (y >> 7),
                51 <= k,
                k < 54,
                down7 == k - 7,
                up10 == k + 10,
        ;
    }
    if 54 <= k {
        let down7 = (k - 7) as u64;
        assert(z ^ (z << 17) == (1u64 << k) ^ (1u64 << down7)) by (bit_vector)
            requires
                s == 1u64 << k,
                y == s ^ (s << 13),
                z == y ^ (y >> 7),
                54 <= k,
                k < 64,
                down7 == k - 7,
        ;
    }
}

/// A normal deviate is the way along one axis to a point in the plane: at an angle that
/// is a uniform fraction of a turn, and at a distance whose square is minus twice the
/// logarithm of another. The two are drawn one after the other, and the first is kept
/// from zero.
pub proof fn law_normal_deviates_come_of_two_uniform_ones<R: Copy, A: Arithmetic<R>>(
    a: &A,
    m: Meaning<R>,
    rng: &mut Xorshift,
    r: R,
    first: &mut Xorshift,
    p: u64,
    second: &mut Xorshift,
    q: u64,
) -> (drawn: (R, R, R))
    requires
        faithful(a, m),
        faithful_powers(a, m),
        faithful_exponentials(a, m),
        call_ensures(Xorshift::normal::<R, A>, (rng, a), r),
        old(first).state() == old(rng).state(),
        call_ensures(Xorshift::next_u64, (first,), p),
        old(second).state() == final(first).state(),
        call_ensures(Xorshift::next_u64, (second,), q),
    ensures
        final(rng).state() == final(second).state(),
        ({
            let (u, distance, angle) = drawn;
            let k = 0x20_0000_0000_0000real;
            &&& 0real < m.of(u) < 1real
            &&& m.of(u) * k >= (p >> 11) as real
            &&& m.of(u) * k == (p >> 11) as real || m.of(u) == m.of(tiny(a))
            &&& m.of(distance) >= 0real
            &&& m.of(distance) * m.of(distance) == -2real * m.of(logarithm(a, u))
            &&& m.of(angle) * k == full_turn(a, m) * ((q >> 11) as real)
            &&& m.of(r) == m.of(distance) * m.of(cosine(a, angle))
        }),
{
    reveal_with_fuel(stepped, 3);
    let (x, y) = (uniform(a, p), uniform(a, q));
    law_uniform_deviates_are_fractions(a, m, p);
    law_uniform_deviates_are_fractions(a, m, q);
    let u = larger(a, x, tiny(a));
    assert(m.of(negative(a, num(a, 1022))) < 0real) by {
        reveal(faithful);
        reveal(faithful_powers);
        assert(m.of(num(a, 1022)) == 1022real);
    }
    assert(0real < m.of(tiny(a)) < 1real) by {
        reveal(faithful_powers);
    }
    assert(m.of(u) == (if m.of(x) >= m.of(tiny(a)) {
        m.of(x)
    } else {
        m.of(tiny(a))
    })) by {
        reveal(faithful);
    }
    let (ux, ut, kk) = (m.of(x), m.of(u), 0x20_0000_0000_0000real);
    assert(ut * kk >= ux * kk) by (nonlinear_arith)
        requires
            ut >= ux,
            kk > 0real,
    ;
    let l = m.of(logarithm(a, u));
    let (zero, one) = (num(a, 0), exponential(a, num(a, 0)));
    assert(l <= 0real) by {
        assert(m.of(zero) == 0real) by {
            reveal(faithful);
        }
        let e = m.of(one);
        assert(e > 0real && e == e * e && m.of(logarithm(a, one)) == 0real) by {
            reveal(faithful_exponentials);
        }
        assert(1real * e == e) by (nonlinear_arith);
        lemma_same(e, e, 1real);
        reveal(faithful_exponentials);
    }
    let square = product(a, negative(a, num(a, 2)), logarithm(a, u));
    assert(m.of(square) == -2real * l) by {
        reveal(faithful);
        reveal(faithful_powers);
        assert(m.of(num(a, 2)) == 2real);
    }
    let distance = root(a, square);
    assert(m.of(distance) >= 0real && m.of(distance) * m.of(distance) == -2real * l) by {
        reveal(faithful);
        reveal(faithful_powers);
    }
    let angle = product(a, turn(a), y);
    lemma_turn(a, m);
    let (t, v, k) = (full_turn(a, m), m.of(y), 0x20_0000_0000_0000real);
    assert(m.of(angle) == t * v) by {
        reveal(faithful);
    }
    lemma_group(t, v, k);
    assert(m.of(r) == m.of(distance) * m.of(cosine(a, angle))) by {
        reveal(faithful);
    }
    (u, distance, angle)
}

} // verus!
