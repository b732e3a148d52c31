//! What is read of a modulation, up to leakage: what else of an envelope the
//! averaging kernel and the modulation filters let through.
//!
//! No filter made of Gaussians takes anything out altogether. So a reading comes
//! with a bound on how far it is off, which is what the filter in question lets
//! through beside the one bin that it is to read.

use vstd::prelude::*;

use crate::arithmetic::{
    at_most, fraction, larger, magnitude, num, product, quotient, total, Arithmetic,
};
use crate::complex::{envelope, modulus, on_axis, real_parts, scaled_all, zero, Complex};
use crate::distance::{
    averages_passively, faithful_distances, isometric, lemma_average_weighed,
    lemma_averaged_bound, lemma_cancel, lemma_rate_apart, lemma_square, lemma_summed_added,
    lemma_summed_at_most, lemma_summed_positive, lemma_summed_scaled, lemma_summed_some,
    rows_apart, summed, weighed,
};
use crate::exact::{
    exact, exact_sizes, fourier, lemma_behind, lemma_first_order, lemma_line, lone, rate_gain,
};
use crate::fft::{decimated, inverted, keeps_length, transformed, Direction, Engine};
use crate::pairs::{keeps_up, lemma_keeps_up};
use crate::planes::lemma_larger_square;
use crate::powers::{lemma_divides, lemma_double, power_of_two};
use crate::reals::{faithful, lemma_fraction_value, lemma_quotient, Meaning};
use crate::transform::{
    averaged, extracted, filtered, lemma_reach, mean_of, peak_index, trimmed, Geometry,
    Scattergram,
};

verus! {

/// A spectrum of `n` bins that holds `z` in bin `k` and nothing else.
pub open spec fn only<R, A: Arithmetic<R>>(
    a: &A,
    n: nat,
    k: int,
    z: Complex<R>,
) -> Seq<Complex<R>> {
    Seq::new(
        n,
        |i: int|
            if i == k {
                z
            } else {
                zero(a)
            },
    )
}

/// What a filter lets through of a spectrum beside a line of value `z` in bin `k`:
/// the sum of the squares.
pub open spec fn leakage<R, A: Arithmetic<R>>(
    a: &A,
    m: Meaning<R>,
    psi: Seq<R>,
    x: Seq<Complex<R>>,
    k: int,
    z: Complex<R>,
) -> real {
    weighed(m, psi, x, only(a, x.len(), k, z))
}

/// How far a row of coefficients is from being `c` throughout: the sum of the
/// squares.
pub open spec fn deviation<R>(m: Meaning<R>, row: Seq<R>, c: real) -> real {
    summed(|t: int| (m.of(row[t]) - c) * (m.of(row[t]) - c), row.len() as int)
}

/// Whether `engine` has an answer to a buffer.
pub open spec fn answered<R, P, E: Engine<R, P>>(
    engine: &E,
    direction: Direction,
    x: Seq<Complex<R>>,
) -> bool {
    exists|y: Seq<Complex<R>>| transformed::<R, P, E>(engine, direction, x, y)
}

/// Whether `engine` has an answer to every buffer.
#[verifier::opaque]
pub open spec fn answers<R, P, E: Engine<R, P>>(engine: &E) -> bool {
    forall|direction: Direction, x: Seq<Complex<R>>|
        0 < x.len() <= usize::MAX ==> #[trigger] answered::<R, P, E>(engine, direction, x)
}

pub proof fn lemma_answer<R, P, E: Engine<R, P>>(
    engine: &E,
    direction: Direction,
    x: Seq<Complex<R>>,
) -> (y: Seq<Complex<R>>)
    requires
        answers::<R, P, E>(engine),
        keeps_length::<R, P, E>(engine),
        0 < x.len() <= usize::MAX,
    ensures
        transformed::<R, P, E>(engine, direction, x, y),
        y.len() == x.len(),
{
    reveal(answers);
    assert(answered::<R, P, E>(engine, direction, x));
    choose|y: Seq<Complex<R>>| transformed::<R, P, E>(engine, direction, x, y)
}

pub proof fn lemma_inverse<R, P, A: Arithmetic<R>, E: Engine<R, P>>(
    a: &A,
    engine: &E,
    x: Seq<Complex<R>>,
) -> (y: Seq<Complex<R>>)
    requires
        answers::<R, P, E>(engine),
        keeps_length::<R, P, E>(engine),
        0 < x.len() <= usize::MAX,
    ensures
        inverted::<R, P, A, E>(a, engine, x, y),
        y.len() == x.len(),
{
    let z = lemma_answer::<R, P, E>(engine, Direction::Inverse, x);
    scaled_all(a, z, fraction(a, 1, x.len() as u64))
}

/// There is an average of every spectrum, as long as the output.
proof fn lemma_average_exists<R, P, A: Arithmetic<R>, E: Engine<R, P>>(
    a: &A,
    engine: &E,
    phi: Seq<R>,
    out: int,
    x: Seq<Complex<R>>,
) -> (row: Seq<R>)
    requires
        answers::<R, P, E>(engine),
        keeps_length::<R, P, E>(engine),
        x.len() <= usize::MAX,
        power_of_two(x.len() as int),
        power_of_two(out),
        out <= x.len(),
    ensures
        averaged::<R, P, A, E>(a, engine, phi, out, x, row),
        row.len() == out,
{
    let small = decimated(a, filtered(a, x, phi), x.len() as int / out);
    lemma_decimated_length(a, x, phi, out);
    lemma_double(out);
    let z = lemma_inverse::<R, P, A, E>(a, engine, small);
    real_parts(z)
}

proof fn lemma_decimated_length<R, A: Arithmetic<R>>(
    a: &A,
    x: Seq<Complex<R>>,
    phi: Seq<R>,
    out: int,
)
    requires
        power_of_two(x.len() as int),
        power_of_two(out),
        out <= x.len(),
    ensures
        decimated(a, filtered(a, x, phi), x.len() as int / out).len() == out,
{
    lemma_reach(x.len() as int, out);
    if x.len() as int / out == 1 {
        assert(x.len() as int / 1 == x.len());
    }
}

/// An average is as long as the output.
proof fn lemma_average_length<R, P, A: Arithmetic<R>, E: Engine<R, P>>(
    a: &A,
    engine: &E,
    phi: Seq<R>,
    out: int,
    x: Seq<Complex<R>>,
    row: Seq<R>,
)
    requires
        keeps_length::<R, P, E>(engine),
        power_of_two(x.len() as int),
        power_of_two(out),
        out <= x.len(),
        averaged::<R, P, A, E>(a, engine, phi, out, x, row),
    ensures
        row.len() == out,
{
    lemma_decimated_length(a, x, phi, out);
}

/// There is a row of the second order of every envelope.
proof fn lemma_row_exists<R: Copy, P, A: Arithmetic<R>, E: Engine<R, P>>(
    sa: &Geometry<R>,
    a: &A,
    engine: &E,
    i1: int,
    i2: int,
    u1: Seq<Complex<R>>,
) -> (row: Seq<R>)
    requires
        sa.wf(),
        0 <= i2 < sa.bank2.wavelets@.len(),
        answers::<R, P, E>(engine),
        keeps_length::<R, P, E>(engine),
        u1.len() == sa.n1(),
        !sa.beyond(a, i1, i2),
    ensures
        sa.second_order::<P, A, E>(a, engine, i1, i2, u1, row),
        row.len() == sa.n_out,
{
    sa.lemma_grids();
    let band = sa.bands2@[i2];
    lemma_double(band.len as int);
    let e = extracted(a, u1, sa.bank2.wavelets@[i2].spectrum@, band);
    let sub = lemma_inverse::<R, P, A, E>(a, engine, e);
    let env = lemma_answer::<R, P, E>(engine, Direction::Forward, envelope(a, sub));
    let phi = sa.phi(band.len as int);
    lemma_average_exists::<R, P, A, E>(a, engine, phi, sa.n_out as int, env)
}

proof fn lemma_row_length<R: Copy, P, A: Arithmetic<R>, E: Engine<R, P>>(
    sa: &Geometry<R>,
    a: &A,
    engine: &E,
    i1: int,
    i2: int,
    u1: Seq<Complex<R>>,
    row: Seq<R>,
)
    requires
        sa.wf(),
        0 <= i2 < sa.bank2.wavelets@.len(),
        keeps_length::<R, P, E>(engine),
        sa.second_order::<P, A, E>(a, engine, i1, i2, u1, row),
    ensures
        row.len() == sa.n_out,
{
    sa.lemma_grids();
    if !sa.beyond(a, i1, i2) {
        let band = sa.bands2@[i2];
        let psi = sa.bank2.wavelets@[i2].spectrum@;
        let (phi, out) = (sa.phi(band.len as int), sa.n_out as int);
        let (sub, env) = choose|sub: Seq<Complex<R>>, env: Seq<Complex<R>>|
            {
                &&& #[trigger] inverted::<R, P, A, E>(a, engine, extracted(a, u1, psi, band), sub)
                &&& #[trigger] transformed::<R, P, E>(
                    engine,
                    Direction::Forward,
                    envelope(a, sub),
                    env,
                )
                &&& averaged::<R, P, A, E>(a, engine, phi, out, env, row)
            };
        assert(env.len() == band.len);
        lemma_average_length::<R, P, A, E>(a, engine, phi, out, env, row);
    }
}

/// How far a row is from a constant one is how far it is from that constant.
proof fn lemma_constant<R>(m: Meaning<R>, row: Seq<R>, ideal: Seq<R>, c: real)
    requires
        forall|t: int| 0 <= t < row.len() ==> m.of(#[trigger] ideal[t]) == c,
    ensures
        deviation(m, row, c) <= rows_apart(m, row, ideal),
{
    let f = |t: int| (m.of(row[t]) - c) * (m.of(row[t]) - c);
    let g = |t: int| (m.of(row[t]) - m.of(ideal[t])) * (m.of(row[t]) - m.of(ideal[t]));
    assert forall|t: int| 0 <= t < row.len() implies #[trigger] f(t) <= g(t) by {
        assert(m.of(ideal[t]) == c);
    }
    lemma_summed_at_most(f, g, row.len() as int);
}

/// The second order reads a modulation line, up to leakage: a row is the amplitude
/// of a line in the envelope times the gain of the filter there, at every output
/// sample, but for what the filter lets through beside the line.
pub proof fn law_second_order_reads_a_line_up_to_leakage<
    R: Copy,
    P,
    A: Arithmetic<R>,
    E: Engine<R, P>,
>(
    sa: &Geometry<R>,
    a: &A,
    engine: &E,
    m: Meaning<R>,
    i1: int,
    i2: int,
    u1: Seq<Complex<R>>,
    k: int,
    z: Complex<R>,
    line: R,
    row: Seq<R>,
)
    requires
        sa.wf(),
        sa.realises(a, &sa.config, sa.n),
        0 <= i2 < sa.bank2.wavelets@.len(),
        exact(a),
        faithful(a, m),
        faithful_distances(a, m),
        fourier::<R, P, A, E>(a, engine),
        isometric::<R, P, E>(engine, m),
        answers::<R, P, E>(engine),
        keeps_length::<R, P, E>(engine),
        averages_passively(sa, m),
        u1.len() == sa.n1(),
        0 <= k < u1.len(),
        modulus(a, z) == product(a, line, num(a, sa.n1() as u64)),
        !sa.beyond(a, i1, i2),
        sa.second_order::<P, A, E>(a, engine, i1, i2, u1, row),
    ensures
        (sa.n1() as real * sa.n1() as real) * deviation(
            m,
            row,
            m.of(line) * m.of(rate_gain(sa, a, i2, k)),
        ) <= (sa.n_out as real) * leakage(a, m, sa.bank2.wavelets@[i2].spectrum@, u1, k, z),
{
    let alone = only(a, u1.len(), k, z);
    assert(lone(a, alone, k));
    let ideal = lemma_row_exists::<R, P, A, E>(sa, a, engine, i1, i2, alone);
    lemma_row_length::<R, P, A, E>(sa, a, engine, i1, i2, u1, row);
    let c = product(a, line, rate_gain(sa, a, i2, k));
    assert forall|t: int| 0 <= t < row.len() implies #[trigger] ideal[t] == c by {
        lemma_line::<R, P, A, E>(
            sa,
            a,
            engine,
            i1,
            i2,
            alone,
            k,
            line,
            ideal,
            t,
        );
    }
    lemma_rate_apart::<R, P, A, E>(sa, a, engine, m, i1, i2, u1, alone, row, ideal);
    let v = m.of(line) * m.of(rate_gain(sa, a, i2, k));
    assert(m.of(c) == v) by {
        reveal(faithful);
    }
    lemma_constant(m, row, ideal, v);
    sa.lemma_grids();
    let (d, r, n1) = (deviation(m, row, v), rows_apart(m, row, ideal), sa.n1() as real);
    let nn = n1 * n1;
    lemma_square(n1);
    assert(nn * d <= nn * r) by (nonlinear_arith)
        requires
            d <= r,
            nn >= 0real,
    ;
}

/// What the envelope of a carrier of constant amplitude holds at DC.
pub open spec fn constant<R: Copy, A: Arithmetic<R>>(
    sa: &Geometry<R>,
    a: &A,
    amplitude: R,
) -> Complex<R> {
    on_axis(a, product(a, amplitude, num(a, sa.n1() as u64)))
}

/// The first order reads the amplitude of a carrier, up to leakage: a row is that
/// amplitude, at every output sample, but for what the averaging kernel lets
/// through of the envelope beside it.
pub proof fn law_first_order_reads_the_mean_up_to_leakage<
    R: Copy,
    P,
    A: Arithmetic<R>,
    E: Engine<R, P>,
>(
    sa: &Geometry<R>,
    a: &A,
    engine: &E,
    m: Meaning<R>,
    u1: Seq<Complex<R>>,
    amplitude: R,
    row: Seq<R>,
)
    requires
        sa.wf(),
        sa.realises(a, &sa.config, sa.n),
        exact(a),
        faithful(a, m),
        fourier::<R, P, A, E>(a, engine),
        isometric::<R, P, E>(engine, m),
        answers::<R, P, E>(engine),
        keeps_length::<R, P, E>(engine),
        u1.len() == sa.n1(),
        averaged::<R, P, A, E>(a, engine, sa.phi(sa.n1()), sa.n_out as int, u1, row),
    ensures
        (sa.n1() as real * sa.n1() as real) * deviation(m, row, m.of(amplitude)) <= (
        sa.n_out as real) * leakage(a, m, sa.phi(sa.n1()), u1, 0, constant(sa, a, amplitude)),
{
    sa.lemma_grids();
    let (phi, out, len) = (sa.phi(sa.n1()), sa.n_out as int, sa.n1());
    let z = constant(sa, a, amplitude);
    let dc = only(a, u1.len(), 0, z);
    assert(sa.phi_cache@.contains_key(sa.n1() as usize));
    assert(lone(a, dc, 0));
    let level = lemma_average_exists::<R, P, A, E>(a, engine, phi, out, dc);
    lemma_average_length::<R, P, A, E>(a, engine, phi, out, u1, row);
    assert forall|t: int| 0 <= t < row.len() implies m.of(#[trigger] level[t]) == m.of(
        amplitude,
    ) by {
        lemma_first_order::<R, P, A, E>(sa, a, engine, dc, amplitude, level, t);
    }
    lemma_average_weighed::<R, P, A, E>(a, engine, m, phi, out, u1, dc, row, level);
    lemma_constant(m, row, level, m.of(amplitude));
    lemma_reach(len, out);
    lemma_divides(out, len);
    let e = len / out;
    let (o, er, n1) = (out as real, e as real, len as real);
    assert(n1 == o * er) by (nonlinear_arith)
        requires
            len == out * e,
            er == e as real,
            o == out as real,
            n1 == len as real,
    ;
    let (w, r, d) = (
        leakage(a, m, phi, u1, 0, z),
        rows_apart(m, row, level),
        deviation(m, row, m.of(amplitude)),
    );
    lemma_averaged_bound(n1, o, er, w, w, r);
    let nn = n1 * n1;
    lemma_square(n1);
    assert(nn * d <= nn * r) by (nonlinear_arith)
        requires
            d <= r,
            nn >= 0real,
    ;
}

// From rows to means.

proof fn lemma_summed_affine(f: spec_fn(int) -> real, g: spec_fn(int) -> real, c: real, n: int)
    requires
        n >= 0,
        forall|t: int| 0 <= t < n ==> #[trigger] g(t) == 2real * f(t) - c,
    ensures
        summed(g, n) == 2real * summed(f, n) - c * (n as real),
    decreases n,
{
    if n > 0 {
        lemma_summed_affine(f, g, c, n - 1);
        let r = (n - 1) as real;
        assert(n as real == r + 1real);
        assert(c * (r + 1real) == c * r + c) by (nonlinear_arith);
    } else {
        assert(c * 0real == 0real) by (nonlinear_arith);
    }
}

/// A sum of values, as a real number.
pub proof fn lemma_total<R, A: Arithmetic<R>>(a: &A, m: Meaning<R>, xs: Seq<R>)
    requires
        faithful(a, m),
    ensures
        m.of(total(a, xs)) == summed(|t: int| m.of(xs[t]), xs.len() as int),
    decreases xs.len(),
{
    reveal(faithful);
    let f = |t: int| m.of(xs[t]);
    if xs.len() > 0 {
        let rest = xs.drop_last();
        let g = |t: int| m.of(rest[t]);
        lemma_total(a, m, rest);
        assert forall|t: int| 0 <= t < rest.len() implies #[trigger] g(t) == 1real * f(t) by {
            assert(rest[t] == xs[t]);
        }
        lemma_summed_scaled(g, f, 1real, rest.len() as int);
    } else {
        assert(m.of(num(a, 0)) == 0real);
    }
}

/// A mean is no further from `c` than the values are, on the whole.
proof fn lemma_mean<R, A: Arithmetic<R>>(a: &A, m: Meaning<R>, xs: Seq<R>, c: real)
    requires
        faithful(a, m),
        0 < xs.len() <= usize::MAX,
    ensures
        ({
            let mean = m.of(mean_of(a, xs));
            (xs.len() as real) * ((mean - c) * (mean - c)) <= deviation(m, xs, c)
        }),
{
    let len = xs.len() as int;
    let n = num(a, xs.len() as u64);
    assert(m.of(n) == xs.len() as real) by {
        reveal(faithful);
    }
    lemma_quotient(a, m, total(a, xs), n);
    lemma_total(a, m, xs);
    let (u, k) = (m.of(mean_of(a, xs)), xs.len() as real);
    let y = |t: int| m.of(xs[t]);
    let f = |t: int| (m.of(xs[t]) - c) * (m.of(xs[t]) - c);
    let g = |t: int| (m.of(xs[t]) - u) * (m.of(xs[t]) - u);
    let l = |t: int| 2real * y(t) - (c + u);
    let h = |t: int| (u - c) * l(t);
    assert forall|t: int| 0 <= t < len implies #[trigger] f(t) == g(t) + h(t) by {
        let v = y(t);
        assert((v - c) * (v - c) == (v - u) * (v - u) + (u - c) * (2real * v - (c + u)))
            by (nonlinear_arith);
    }
    assert forall|t: int| 0 <= t < len implies #[trigger] g(t) >= 0real by {
        lemma_square(m.of(xs[t]) - u);
    }
    lemma_summed_added(g, h, f, len);
    lemma_summed_positive(g, len);
    lemma_summed_scaled(h, l, u - c, len);
    lemma_summed_affine(y, l, c + u, len);
    // The sum of the values is the mean times their number.
    let d = u - c;
    assert(2real * (u * k) - (c + u) * k == d * k) by (nonlinear_arith)
        requires
            d == u - c,
    ;
    assert(d * (d * k) == k * (d * d)) by (nonlinear_arith);
}

/// How many output samples are clear of both ends.
pub open spec fn kept<R: Copy, A: Arithmetic<R>>(a: &A, out: &Scattergram<R>) -> int {
    let (from, to) = trimmed(out.s0@.len() as int, out.margin(a));
    to - from
}

/// The mean of a row, clear of both ends, is no further from `c` than the row is.
proof fn lemma_clear_mean<R: Copy, A: Arithmetic<R>>(
    a: &A,
    m: Meaning<R>,
    out: &Scattergram<R>,
    row: Seq<R>,
    c: real,
)
    requires
        faithful(a, m),
        row.len() == out.s0@.len(),
        out.s0@.len() > 0,
    ensures
        kept(a, out) >= 1,
        ({
            let mean = m.of(mean_of(a, out.clear(a, row)));
            (kept(a, out) as real) * ((mean - c) * (mean - c)) <= deviation(m, row, c)
        }),
{
    let xs = out.clear(a, row);
    let n = row.len() as int;
    assert(n == out.s0.len());
    assert(out.margin(a) >= 0);
    let (from, to) = trimmed(n, out.margin(a));
    assert(0 <= from < to <= n);
    lemma_mean(a, m, xs, c);
    let f = |t: int| (m.of(row[t]) - c) * (m.of(row[t]) - c);
    let part = |t: int| (m.of(xs[t]) - c) * (m.of(xs[t]) - c);
    let at = |t: int| from + t;
    assert forall|t: int| 0 <= t < n implies #[trigger] f(t) >= 0real by {
        lemma_square(m.of(row[t]) - c);
    }
    assert forall|t: int| 0 <= t < to - from implies #[trigger] part(t) == f(at(t)) by {
        assert(xs[t] == row[from + t]);
    }
    lemma_summed_some(f, at, part, to - from, n);
}

/// Whether a filter lets so little through of a spectrum beside a line of value `z`
/// in bin `k` that the mean of what is read there is off by at most `off`.
pub open spec fn leaks_at_most<R: Copy, A: Arithmetic<R>>(
    sa: &Geometry<R>,
    a: &A,
    m: Meaning<R>,
    out: &Scattergram<R>,
    psi: Seq<R>,
    u1: Seq<Complex<R>>,
    k: int,
    z: Complex<R>,
    off: real,
) -> bool {
    let (n1, count) = (sa.n1() as real, kept(a, out) as real);
    &&& off >= 0real
    &&& (sa.n_out as real) * leakage(a, m, psi, u1, k, z) <= ((n1 * n1) * count) * (off * off)
}

/// A square that is at most another.
proof fn lemma_off(x: real, off: real)
    requires
        off >= 0real,
        x * x <= off * off,
    ensures
        -off <= x <= off,
{
    if x > off {
        lemma_larger_square(x, off);
    }
    if -x > off {
        lemma_larger_square(-x, off);
        assert((-x) * (-x) == x * x) by (nonlinear_arith);
    }
}

proof fn lemma_mean_off(n: real, count: real, x: real, far: real, leak: real, off: real)
    requires
        n >= 1real,
        count >= 1real,
        off >= 0real,
        count * (x * x) <= far,
        (n * n) * far <= leak,
        leak <= ((n * n) * count) * (off * off),
    ensures
        -off <= x <= off,
{
    let (nn, xx, oo) = (n * n, x * x, off * off);
    assert(nn >= 1real) by (nonlinear_arith)
        requires
            nn == n * n,
            n >= 1real,
    ;
    let u = count * xx;
    assert(nn * u <= nn * far) by (nonlinear_arith)
        requires
            u <= far,
            nn >= 1real,
    ;
    let k = nn * count;
    assert(k >= 1real) by (nonlinear_arith)
        requires
            k == nn * count,
            nn >= 1real,
            count >= 1real,
    ;
    assert(nn * (count * xx) == (nn * count) * xx) by (nonlinear_arith);
    lemma_cancel(k, xx, oo);
    lemma_off(x, off);
}

// Modulated carriers.

/// The amplitude of the line that modulation to the given depth puts into the
/// envelope of a carrier, at its rate: half as high as the modulation is deep.
pub open spec fn sideline<R, A: Arithmetic<R>>(a: &A, amplitude: R, depth: R) -> R {
    product(a, product(a, amplitude, depth), fraction(a, 1, 2))
}

/// Whether `u1` is the spectrum of the envelope of a carrier of the given
/// amplitude, modulated to the given depth at the rate of bin `k`, where it holds
/// `z`. Beside these two lines it may hold anything, of which the averaging kernel
/// lets through so little that it is off by at most `blur`, and modulation filter
/// `i` so little that it is off by at most `off(i)`.
pub open spec fn is_modulated<R: Copy, A: Arithmetic<R>>(
    sa: &Geometry<R>,
    a: &A,
    m: Meaning<R>,
    out: &Scattergram<R>,
    i1: int,
    u1: Seq<Complex<R>>,
    k: int,
    z: Complex<R>,
    amplitude: R,
    depth: R,
    blur: real,
    off: spec_fn(int) -> real,
) -> bool {
    let dc = constant(sa, a, amplitude);
    &&& u1.len() == sa.n1()
    &&& 0 <= k < u1.len()
    &&& modulus(a, z) == product(a, sideline(a, amplitude, depth), num(a, sa.n1() as u64))
    &&& leaks_at_most(sa, a, m, out, sa.phi(sa.n1()), u1, 0, dc, blur)
    &&& forall|i: int|
        0 <= i < sa.bank2.wavelets@.len() && keeps_up(sa, m, i1, i) ==> leaks_at_most(
            sa,
            a,
            m,
            out,
            (#[trigger] sa.bank2.wavelets@[i]).spectrum@,
            u1,
            k,
            z,
            off(i),
        )
}

/// Whether carrier band `i1` of a block has the envelope of a modulated carrier.
pub open spec fn holds_modulation<R: Copy, P, A: Arithmetic<R>, E: Engine<R, P>>(
    sa: &Geometry<R>,
    a: &A,
    engine: &E,
    m: Meaning<R>,
    x: Seq<Complex<R>>,
    out: &Scattergram<R>,
    i1: int,
    k: int,
    z: Complex<R>,
    amplitude: R,
    depth: R,
    blur: real,
    off: spec_fn(int) -> real,
) -> bool {
    forall|spectrum: Seq<Complex<R>>, u1: Seq<Complex<R>>|
        #[trigger] transformed::<R, P, E>(engine, Direction::Forward, x, spectrum)
            && #[trigger] sa.band_envelope::<P, A, E>(a, engine, i1, spectrum, u1)
            ==> is_modulated(sa, a, m, out, i1, u1, k, z, amplitude, depth, blur, off)
}

/// Whether values are real numbers, and `engine` transforms them as the Fourier
/// transform does.
pub open spec fn real_fourier<R, P, A: Arithmetic<R>, E: Engine<R, P>>(
    a: &A,
    engine: &E,
    m: Meaning<R>,
) -> bool {
    &&& exact(a)
    &&& faithful(a, m)
    &&& faithful_distances(a, m)
    &&& fourier::<R, P, A, E>(a, engine)
    &&& isometric::<R, P, E>(engine, m)
    &&& answers::<R, P, E>(engine)
    &&& keeps_length::<R, P, E>(engine)
}

/// The means that a modulated carrier reads.
proof fn lemma_means<R: Copy, P, A: Arithmetic<R>, E: Engine<R, P>>(
    sa: &Geometry<R>,
    a: &A,
    engine: &E,
    m: Meaning<R>,
    x: Seq<Complex<R>>,
    out: &Scattergram<R>,
    i1: int,
    i2: int,
    k: int,
    z: Complex<R>,
    amplitude: R,
    depth: R,
    blur: real,
    off: spec_fn(int) -> real,
)
    requires
        sa.wf(),
        sa.realises(a, &sa.config, sa.n),
        real_fourier::<R, P, A, E>(a, engine, m),
        averages_passively(sa, m),
        sa.analysed::<P, A, E>(a, engine, x, out),
        out.wf(),
        0 <= i1 < out.s2@.len(),
        0 <= i2 < out.s2@[i1]@.len(),
        holds_modulation::<R, P, A, E>(
            sa,
            a,
            engine,
            m,
            x,
            out,
            i1,
            k,
            z,
            amplitude,
            depth,
            blur,
            off,
        ),
    ensures
        blur >= 0real,
        -blur <= m.of(out.means1(a)[i1]) - m.of(amplitude) <= blur,
        !keeps_up(sa, m, i1, i2) ==> m.of(out.means2(a)[i1][i2]) == 0real,
        keeps_up(sa, m, i1, i2) ==> off(i2) >= 0real && -off(i2) <= m.of(out.means2(a)[i1][i2])
            - m.of(sideline(a, amplitude, depth)) * m.of(rate_gain(sa, a, i2, k)) <= off(i2),
{
    sa.lemma_grids();
    let (spectrum, u1) = lemma_behind::<R, P, A, E>(sa, a, engine, x, out, i1);
    assert(is_modulated(sa, a, m, out, i1, u1, k, z, amplitude, depth, blur, off));
    let (first, row) = (out.s1@[i1]@, out.s2@[i1]@[i2]@);
    assert(row == out.second(i1)[i2]@);
    assert(sa.second_order::<P, A, E>(a, engine, i1, i2, u1, row));
    assert(i2 < sa.bank2.wavelets@.len()) by {
        assert(out.lambda2_hz@.len() == sa.bank2.wavelets@.len());
    }
    let n1 = sa.n1() as real;
    law_first_order_reads_the_mean_up_to_leakage::<R, P, A, E>(
        sa,
        a,
        engine,
        m,
        u1,
        amplitude,
        first,
    );
    let c = m.of(amplitude);
    lemma_clear_mean(a, m, out, first, c);
    let count = kept(a, out) as real;
    lemma_mean_off(
        n1,
        count,
        m.of(out.means1(a)[i1]) - c,
        deviation(m, first, c),
        (sa.n_out as real) * leakage(a, m, sa.phi(sa.n1()), u1, 0, constant(sa, a, amplitude)),
        blur,
    );
    assert(mean_of(a, out.clear(a, row)) == out.means2(a)[i1][i2]);
    lemma_keeps_up(sa, a, m, i1, i2);
    if sa.beyond(a, i1, i2) {
        lemma_clear_mean(a, m, out, row, 0real);
        lemma_silent(a, m, row);
        let u = m.of(out.means2(a)[i1][i2]);
        let uu = u * u;
        lemma_square(u);
        assert(uu <= 0real) by (nonlinear_arith)
            requires
                count * uu <= 0real,
                count >= 1real,
        ;
        assert(0real * 0real == 0real) by (nonlinear_arith);
        lemma_off(u, 0real);
    } else {
        let line = sideline(a, amplitude, depth);
        let psi = sa.bank2.wavelets@[i2].spectrum@;
        law_second_order_reads_a_line_up_to_leakage::<R, P, A, E>(
            sa,
            a,
            engine,
            m,
            i1,
            i2,
            u1,
            k,
            z,
            line,
            row,
        );
        let v = m.of(line) * m.of(rate_gain(sa, a, i2, k));
        lemma_clear_mean(a, m, out, row, v);
        lemma_mean_off(
            n1,
            count,
            m.of(out.means2(a)[i1][i2]) - v,
            deviation(m, row, v),
            (sa.n_out as real) * leakage(a, m, psi, u1, k, z),
            off(i2),
        );
    }
}

/// A row of zeros is zero throughout.
proof fn lemma_silent<R, A: Arithmetic<R>>(a: &A, m: Meaning<R>, row: Seq<R>)
    requires
        faithful(a, m),
        row == Seq::new(row.len(), |t: int| num(a, 0)),
    ensures
        deviation(m, row, 0real) == 0real,
{
    let f = |t: int| (m.of(row[t]) - 0real) * (m.of(row[t]) - 0real);
    assert(m.of(num(a, 0)) == 0real) by {
        reveal(faithful);
    }
    assert forall|t: int| 0 <= t < row.len() implies #[trigger] f(t) == 0real * f(t) by {
        assert(row[t] == num(a, 0));
        assert((0real - 0real) * (0real - 0real) == 0real) by (nonlinear_arith);
        let v = f(t);
        assert(0real * v == 0real) by (nonlinear_arith);
    }
    lemma_summed_scaled(f, f, 0real, row.len() as int);
    let s = summed(f, row.len() as int);
    assert(0real * s == 0real) by (nonlinear_arith);
}

/// Gains are not negative.
proof fn lemma_gain_positive<R: Copy, A: Arithmetic<R>>(
    sa: &Geometry<R>,
    a: &A,
    m: Meaning<R>,
    i2: int,
    k: int,
)
    requires
        exact(a),
        faithful(a, m),
        faithful_distances(a, m),
    ensures
        m.of(rate_gain(sa, a, i2, k)) >= 0real,
{
    let v = sa.bank2.wavelets@[i2].spectrum@[k];
    let z = on_axis(a, v);
    assert(m.of(modulus(a, z)) >= 0real) by {
        reveal(faithful_distances);
    }
    assert(modulus(a, z) == magnitude(a, v)) by {
        reveal(exact_sizes);
    }
    assert(m.of(num(a, 0)) == 0real) by {
        reveal(faithful);
    }
}

proof fn lemma_sideline<R, A: Arithmetic<R>>(a: &A, m: Meaning<R>, amplitude: R, depth: R)
    requires
        faithful(a, m),
    ensures
        2real * m.of(sideline(a, amplitude, depth)) == m.of(amplitude) * m.of(depth),
{
    lemma_fraction_value(a, m, 1, 2);
    reveal(faithful);
    let (p, f) = (m.of(amplitude) * m.of(depth), m.of(fraction(a, 1, 2)));
    assert(f * 2real == 1real);
    assert(2real * (p * f) == p * (f * 2real)) by (nonlinear_arith);
    assert(p * 1real == p) by (nonlinear_arith);
}

/// How far a depth is off, given how far the two means are.
proof fn lemma_depth_off(
    big: real,
    deep: real,
    g: real,
    blur: real,
    off: real,
    mean1: real,
    mean2: real,
    line: real,
    read: real,
)
    requires
        big - blur > 0real,
        deep >= 0real,
        g >= 0real,
        blur >= 0real,
        off >= 0real,
        2real * line == big * deep,
        -blur <= mean1 - big <= blur,
        -off <= mean2 - line * g <= off,
        read * mean1 == 2real * mean2,
    ensures
        (big - blur) * (read - deep * g) <= 2real * off + (deep * g) * blur,
        (big - blur) * (deep * g - read) <= 2real * off + (deep * g) * blur,
{
    let dg = deep * g;
    assert(dg >= 0real) by (nonlinear_arith)
        requires
            dg == deep * g,
            deep >= 0real,
            g >= 0real,
    ;
    let bound = 2real * off + dg * blur;
    assert(dg * blur >= 0real) by (nonlinear_arith)
        requires
            dg >= 0real,
            blur >= 0real,
    ;
    let x = read - dg;
    let y = big - mean1;
    assert(2real * (line * g) == (2real * line) * g) by (nonlinear_arith);
    assert((big * deep) * g == dg * big) by (nonlinear_arith)
        requires
            dg == deep * g,
    ;
    assert(x * mean1 == read * mean1 - dg * mean1) by (nonlinear_arith)
        requires
            x == read - dg,
    ;
    assert(dg * big - dg * mean1 == dg * y) by (nonlinear_arith)
        requires
            y == big - mean1,
    ;
    assert(-(dg * blur) <= dg * y <= dg * blur) by (nonlinear_arith)
        requires
            dg >= 0real,
            -blur <= y <= blur,
    ;
    assert(-bound <= x * mean1 <= bound);
    let low = big - blur;
    lemma_at_lower(low, mean1, x, bound);
    assert((-x) * mean1 == -(x * mean1)) by (nonlinear_arith);
    lemma_at_lower(low, mean1, -x, bound);
}

proof fn lemma_at_lower(low: real, high: real, x: real, bound: real)
    requires
        0real < low <= high,
        bound >= 0real,
        x * high <= bound,
    ensures
        low * x <= bound,
{
    if x > 0real {
        assert(low * x <= x * high) by (nonlinear_arith)
            requires
                x > 0real,
                low <= high,
        ;
    } else {
        assert(low * x <= 0real) by (nonlinear_arith)
            requires
                x <= 0real,
                low > 0real,
        ;
    }
}

/// What the depths of a band are taken relative to is the mean of its carrier,
/// where that stands out from the noise floor.
proof fn lemma_relative<R: Copy, A: Arithmetic<R>>(
    a: &A,
    m: Meaning<R>,
    out: &Scattergram<R>,
    i1: int,
    i2: int,
)
    requires
        faithful(a, m),
        out.wf(),
        0 <= i1 < out.s2@.len(),
        0 <= i2 < out.s2@[i1]@.len(),
        m.of(out.means1(a)[i1]) > 0real,
        m.of(out.means1(a)[i1]) >= m.of(out.noise_floor(a)),
    ensures
        m.of(out.depths(a)[i1][i2]) * m.of(out.means1(a)[i1]) == 2real * m.of(
            out.means2(a)[i1][i2],
        ),
{
    let carrier = larger(a, out.means1(a)[i1], out.noise_floor(a));
    let v = out.means2(a)[i1][i2];
    assert(m.of(carrier) == m.of(out.means1(a)[i1]) && m.of(product(a, num(a, 2), v)) == 2real
        * m.of(v)) by {
        reveal(faithful);
        assert(m.of(num(a, 2)) == 2real);
    }
    lemma_quotient(a, m, product(a, num(a, 2), v), carrier);
    assert(out.depths(a)[i1][i2] == quotient(a, product(a, num(a, 2), v), carrier));
}

/// Modulation depth is recovered: where the envelope of a band is that of a
/// modulated carrier that stands out from the noise floor, the depth read at a
/// modulation filter whose rate is within the bandwidth of the band is the depth of
/// the modulation times the gain of that filter at its rate, but for leakage. What is
/// off is at most twice what the filter lets through of anything else, and as much of
/// the depth as the carrier is blurred, relative to the carrier.
pub proof fn law_modulation_depth_is_recovered<R: Copy, P, A: Arithmetic<R>, E: Engine<R, P>>(
    sa: &Geometry<R>,
    a: &A,
    engine: &E,
    m: Meaning<R>,
    x: Seq<Complex<R>>,
    out: &Scattergram<R>,
    i1: int,
    i2: int,
    k: int,
    z: Complex<R>,
    amplitude: R,
    depth: R,
    blur: real,
    off: spec_fn(int) -> real,
)
    requires
        sa.wf(),
        sa.realises(a, &sa.config, sa.n),
        real_fourier::<R, P, A, E>(a, engine, m),
        averages_passively(sa, m),
        sa.analysed::<P, A, E>(a, engine, x, out),
        out.wf(),
        0 <= i1 < out.s2@.len(),
        0 <= i2 < out.s2@[i1]@.len(),
        keeps_up(sa, m, i1, i2),
        holds_modulation::<R, P, A, E>(
            sa,
            a,
            engine,
            m,
            x,
            out,
            i1,
            k,
            z,
            amplitude,
            depth,
            blur,
            off,
        ),
        m.of(depth) >= 0real,
        m.of(amplitude) - blur > 0real,
        m.of(amplitude) - blur >= m.of(out.noise_floor(a)),
    ensures
        ({
            let expected = m.of(depth) * m.of(rate_gain(sa, a, i2, k));
            let read = m.of(out.depths(a)[i1][i2]);
            let bound = 2real * off(i2) + expected * blur;
            &&& (m.of(amplitude) - blur) * (read - expected) <= bound
            &&& (m.of(amplitude) - blur) * (expected - read) <= bound
        }),
{
    lemma_means::<R, P, A, E>(
        sa,
        a,
        engine,
        m,
        x,
        out,
        i1,
        i2,
        k,
        z,
        amplitude,
        depth,
        blur,
        off,
    );
    lemma_relative(a, m, out, i1, i2);
    lemma_gain_positive(sa, a, m, i2, k);
    lemma_sideline(a, m, amplitude, depth);
    lemma_depth_off(
        m.of(amplitude),
        m.of(depth),
        m.of(rate_gain(sa, a, i2, k)),
        blur,
        off(i2),
        m.of(out.means1(a)[i1]),
        m.of(out.means2(a)[i1][i2]),
        m.of(sideline(a, amplitude, depth)),
        m.of(out.depths(a)[i1][i2]),
    );
}

/// The one value that exceeds all others is the peak.
proof fn lemma_peak<R, A: Arithmetic<R>>(a: &A, m: Meaning<R>, xs: Seq<R>, i: int)
    requires
        faithful(a, m),
        0 <= i < xs.len(),
        forall|j: int| 0 <= j < xs.len() && j != i ==> m.of(#[trigger] xs[j]) < m.of(xs[i]),
    ensures
        peak_index(a, xs) == Some(i),
    decreases xs.len(),
{
    reveal(faithful);
    let rest = xs.drop_last();
    if i == xs.len() - 1 {
        lemma_peak_inside(a, rest);
        match peak_index(a, rest) {
            Some(p) => {
                assert(rest[p] == xs[p]);
                assert(m.of(xs[p]) < m.of(xs[i]));
                assert(!at_most(a, xs.last(), xs[p]));
            },
            None => {},
        }
    } else {
        assert forall|j: int| 0 <= j < rest.len() && j != i implies m.of(#[trigger] rest[j])
            < m.of(rest[i]) by {
            assert(rest[j] == xs[j] && rest[i] == xs[i]);
        }
        lemma_peak(a, m, rest, i);
        assert(m.of(xs[xs.len() - 1]) < m.of(xs[i]));
        assert(at_most(a, xs.last(), xs[i]));
    }
}

proof fn lemma_peak_inside<R, A: Arithmetic<R>>(a: &A, xs: Seq<R>)
    ensures
        peak_index(a, xs) is Some ==> 0 <= peak_index(a, xs)->0 < xs.len(),
    decreases xs.len(),
{
    if xs.len() > 0 {
        lemma_peak_inside(a, xs.drop_last());
    }
}

/// Whether modulation filter `i2` reads more of a line of the given amplitude at
/// bin `k` than filter `i` can, leakage and all.
pub open spec fn outdoes<R: Copy, A: Arithmetic<R>>(
    sa: &Geometry<R>,
    a: &A,
    m: Meaning<R>,
    i1: int,
    i2: int,
    i: int,
    k: int,
    line: real,
    off: spec_fn(int) -> real,
) -> bool {
    let reads = line * m.of(rate_gain(sa, a, i2, k)) - off(i2);
    if keeps_up(sa, m, i1, i) {
        reads > line * m.of(rate_gain(sa, a, i, k)) + off(i)
    } else {
        reads > 0real
    }
}

/// The second order peaks at the rate of a modulation: where a filter within the
/// bandwidth of the band passes so much more at that rate than any other does that
/// leakage cannot make up for it, the modulation of the band is read at that filter.
pub proof fn law_second_order_peaks_at_the_rate<R: Copy, P, A: Arithmetic<R>, E: Engine<R, P>>(
    sa: &Geometry<R>,
    a: &A,
    engine: &E,
    m: Meaning<R>,
    x: Seq<Complex<R>>,
    out: &Scattergram<R>,
    i1: int,
    i2: int,
    k: int,
    z: Complex<R>,
    amplitude: R,
    depth: R,
    blur: real,
    off: spec_fn(int) -> real,
)
    requires
        sa.wf(),
        sa.realises(a, &sa.config, sa.n),
        real_fourier::<R, P, A, E>(a, engine, m),
        averages_passively(sa, m),
        sa.analysed::<P, A, E>(a, engine, x, out),
        out.wf(),
        0 <= i1 < out.s2@.len(),
        0 <= i2 < out.s2@[i1]@.len(),
        keeps_up(sa, m, i1, i2),
        holds_modulation::<R, P, A, E>(
            sa,
            a,
            engine,
            m,
            x,
            out,
            i1,
            k,
            z,
            amplitude,
            depth,
            blur,
            off,
        ),
        m.of(amplitude) - blur > 0real,
        m.of(amplitude) - blur >= m.of(out.noise_floor(a)),
        forall|i: int|
            0 <= i < out.s2@[i1]@.len() && i != i2 ==> #[trigger] outdoes(
                sa,
                a,
                m,
                i1,
                i2,
                i,
                k,
                m.of(sideline(a, amplitude, depth)),
                off,
            ),
    ensures
        peak_index(a, out.means2(a)[i1]) == Some(i2),
        peak_index(a, out.depths(a)[i1]) == Some(i2),
{
    let (means, depths) = (out.means2(a)[i1], out.depths(a)[i1]);
    let carrier = m.of(out.means1(a)[i1]);
    let line = m.of(sideline(a, amplitude, depth));
    assert forall|i: int| 0 <= i < means.len() && i != i2 implies m.of(#[trigger] means[i]) < m.of(
        means[i2],
    ) && m.of(depths[i]) < m.of(depths[i2]) by {
        lemma_means::<R, P, A, E>(
            sa,
            a,
            engine,
            m,
            x,
            out,
            i1,
            i2,
            k,
            z,
            amplitude,
            depth,
            blur,
            off,
        );
        lemma_means::<R, P, A, E>(
            sa,
            a,
            engine,
            m,
            x,
            out,
            i1,
            i,
            k,
            z,
            amplitude,
            depth,
            blur,
            off,
        );
        assert(outdoes(sa, a, m, i1, i2, i, k, line, off));
        lemma_relative(a, m, out, i1, i2);
        lemma_relative(a, m, out, i1, i);
        let (p, q) = (m.of(depths[i]), m.of(depths[i2]));
        if p >= q {
            assert(p * carrier >= q * carrier) by (nonlinear_arith)
                requires
                    p >= q,
                    carrier > 0real,
            ;
        }
    }
    lemma_peak(a, m, means, i2);
    assert forall|i: int| 0 <= i < depths.len() && i != i2 implies m.of(#[trigger] depths[i])
        < m.of(depths[i2]) by {
        assert(m.of(means[i]) < m.of(means[i2]));
    }
    lemma_peak(a, m, depths, i2);
}

} // verus!
