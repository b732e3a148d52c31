//! Phasors, and what a carrier and two sidebands come to: as a spectrum, as a signal
//! and as an envelope.

use vstd::prelude::*;

use crate::arithmetic::{fraction, num, product, Arithmetic};
use crate::complex::{envelope, joined, modulus, on_axis, scaled, scaled_all, turned, zero, Complex};
use crate::distance::{
    apart, faithful_distances, gap, isometric, lemma_forward_apart, lemma_gap_positive,
    lemma_square, lemma_summed_at_most, lemma_summed_some, summed,
};
use crate::exact::{exact, lone};
use crate::fft::{keeps_length, transformed, Direction, Engine};
use crate::leakage::{answers, lemma_answer, only};
use crate::planes::{lemma_inner_and_outer, lemma_larger_square, lemma_squares};
use crate::reals::{faithful, lemma_fraction_value, Meaning};
use crate::shift::{harmonic, lemma_period, unity, Roots};

verus! {

// Buffers that stand for the same.

/// Whether two complex values stand for the same number.
pub open spec fn alike<R>(m: Meaning<R>, u: Complex<R>, v: Complex<R>) -> bool {
    m.of(u.re) == m.of(v.re) && m.of(u.im) == m.of(v.im)
}

/// Whether two buffers stand for the same signal.
pub open spec fn same<R>(m: Meaning<R>, x: Seq<Complex<R>>, y: Seq<Complex<R>>) -> bool {
    &&& x.len() == y.len()
    &&& forall|t: int| 0 <= t < x.len() ==> #[trigger] alike(m, x[t], y[t])
}

proof fn lemma_same_apart<R>(m: Meaning<R>, x: Seq<Complex<R>>, y: Seq<Complex<R>>)
    requires
        same(m, x, y),
    ensures
        apart(m, x, y) <= 0real,
{
    let f = |t: int| gap(m, x[t], y[t]);
    let g = |t: int| 0real;
    assert forall|t: int| 0 <= t < x.len() implies #[trigger] f(t) <= g(t) by {
        assert(alike(m, x[t], y[t]));
        assert(0real * 0real == 0real) by (nonlinear_arith);
        assert(m.of(x[t].re) - m.of(y[t].re) == 0real);
        assert(m.of(x[t].im) - m.of(y[t].im) == 0real);
    }
    lemma_summed_at_most(f, g, x.len() as int);
    lemma_summed_zero(x.len() as int);
}

proof fn lemma_summed_zero(n: int)
    ensures
        summed(|t: int| 0real, n) == 0real,
    decreases n,
{
    if n > 0 {
        lemma_summed_zero(n - 1);
    }
}

proof fn lemma_root_of_zero(x: real)
    requires
        x * x <= 0real,
    ensures
        x == 0real,
{
    assert(0real * 0real == 0real) by (nonlinear_arith);
    if x > 0real {
        lemma_larger_square(x, 0real);
    }
    if x < 0real {
        lemma_larger_square(-x, 0real);
        assert((-x) * (-x) == x * x) by (nonlinear_arith);
    }
}

proof fn lemma_apart_same<R>(m: Meaning<R>, x: Seq<Complex<R>>, y: Seq<Complex<R>>)
    requires
        x.len() == y.len(),
        apart(m, x, y) <= 0real,
    ensures
        same(m, x, y),
{
    let f = |t: int| gap(m, x[t], y[t]);
    assert forall|t: int| 0 <= t < x.len() implies #[trigger] f(t) >= 0real by {
        lemma_gap_positive(m, x[t], y[t]);
    }
    assert forall|t: int| 0 <= t < x.len() implies #[trigger] alike(m, x[t], y[t]) by {
        let from = |q: int| t;
        let part = |q: int| f(from(q));
        lemma_summed_some(f, from, part, 1, x.len() as int);
        assert(summed(part, 0) == 0real);
        assert(summed(part, 1) == summed(part, 0) + part(0));
        assert(part(0) == f(t));
        let (u, v) = (m.of(x[t].re) - m.of(y[t].re), m.of(x[t].im) - m.of(y[t].im));
        lemma_square(u);
        lemma_square(v);
        lemma_root_of_zero(u);
        lemma_root_of_zero(v);
    }
}

/// What stands for the same has transforms that stand for the same.
proof fn lemma_same_transform<R, P, E: Engine<R, P>>(
    engine: &E,
    m: Meaning<R>,
    direction: Direction,
    x: Seq<Complex<R>>,
    x2: Seq<Complex<R>>,
    y: Seq<Complex<R>>,
    y2: Seq<Complex<R>>,
)
    requires
        isometric::<R, P, E>(engine, m),
        keeps_length::<R, P, E>(engine),
        transformed::<R, P, E>(engine, direction, x, x2),
        transformed::<R, P, E>(engine, direction, y, y2),
        same(m, x, y),
    ensures
        same(m, x2, y2),
{
    lemma_same_apart(m, x, y);
    lemma_forward_apart::<R, P, E>(engine, m, direction, x, x2, y, y2);
    let (n, d) = (x.len() as real, apart(m, x, y));
    assert(n * d <= 0real) by (nonlinear_arith)
        requires
            d <= 0real,
            n >= 0real,
    ;
    lemma_apart_same(m, x2, y2);
}

// Phasors.

/// The sum of two buffers.
pub open spec fn sum_of<R, A: Arithmetic<R>>(
    a: &A,
    x: Seq<Complex<R>>,
    y: Seq<Complex<R>>,
) -> Seq<Complex<R>> {
    Seq::new(x.len(), |t: int| joined(a, x[t], y[t]))
}

/// Whether the transform of a sum is the sum of the transforms.
#[verifier::opaque]
pub open spec fn additive<R, P, A: Arithmetic<R>, E: Engine<R, P>>(a: &A, engine: &E) -> bool {
    forall|
        direction: Direction,
        x: Seq<Complex<R>>,
        x2: Seq<Complex<R>>,
        y: Seq<Complex<R>>,
        y2: Seq<Complex<R>>,
    |
        x.len() == y.len() && #[trigger] transformed::<R, P, E>(engine, direction, x, x2)
            && #[trigger] transformed::<R, P, E>(engine, direction, y, y2) ==> transformed::<
            R,
            P,
            E,
        >(engine, direction, sum_of(a, x, y), sum_of(a, x2, y2))
}

/// `n` samples of a phasor that starts at `z` and turns `j` times.
pub open spec fn phasor<R, A: Arithmetic<R>>(
    a: &A,
    roots: Roots<R>,
    n: nat,
    j: int,
    z: Complex<R>,
) -> Seq<Complex<R>> {
    Seq::new(n, |t: int| turned(a, z, roots.at(n as int, j * t)))
}

/// Whether `engine` gathers a phasor in a single bin, as the Fourier transform does.
#[verifier::opaque]
pub open spec fn gathers<R, P, A: Arithmetic<R>, E: Engine<R, P>>(
    a: &A,
    engine: &E,
    roots: Roots<R>,
) -> bool {
    forall|n: nat, j: int, z: Complex<R>, y: Seq<Complex<R>>|
        0 <= j < n && #[trigger] transformed::<R, P, E>(
            engine,
            Direction::Forward,
            phasor(a, roots, n, j, z),
            y,
        ) ==> lone(a, y, j) && y[j] == scaled(a, z, num(a, n as u64))
}

/// Whether roots lie on the unit circle, from one on, and opposite powers mirror each
/// other.
#[verifier::opaque]
pub open spec fn circular<R>(m: Meaning<R>, roots: Roots<R>) -> bool {
    &&& forall|n: int, j: int|
        {
            let w = #[trigger] roots.at(n, j);
            m.of(w.re) * m.of(w.re) + m.of(w.im) * m.of(w.im) == 1real
        }
    &&& forall|n: int, j: int|
        {
            let (w, v) = (#[trigger] roots.at(n, j), roots.at(n, -j));
            m.of(v.re) == m.of(w.re) && m.of(v.im) == -m.of(w.im)
        }
    &&& forall|n: int| m.of((#[trigger] roots.at(n, 0)).re) == 1real
}

/// Whether values are real numbers, `roots` are the roots of unity, and `engine` is
/// the Fourier transform of them.
pub open spec fn real_phasors<R, P, A: Arithmetic<R>, E: Engine<R, P>>(
    a: &A,
    engine: &E,
    m: Meaning<R>,
    roots: Roots<R>,
) -> bool {
    &&& exact(a)
    &&& faithful(a, m)
    &&& faithful_distances(a, m)
    &&& isometric::<R, P, E>(engine, m)
    &&& answers::<R, P, E>(engine)
    &&& keeps_length::<R, P, E>(engine)
    &&& additive::<R, P, A, E>(a, engine)
    &&& harmonic::<R, P, A, E>(a, engine, roots)
    &&& gathers::<R, P, A, E>(a, engine, roots)
    &&& unity(a, roots)
    &&& circular(m, roots)
}

/// The bin `k` above bin `p` of `n`, round the end.
pub open spec fn above(n: int, p: int, k: int) -> int {
    if p + k < n {
        p + k
    } else {
        p + k - n
    }
}

/// The bin `k` below bin `p` of `n`, round the end.
pub open spec fn under(n: int, p: int, k: int) -> int {
    if p >= k {
        p - k
    } else {
        p - k + n
    }
}

/// A spectrum of `n` bins that holds `z` in bin `p`, `s` in the bins `k` above and
/// below it, and nothing else.
pub open spec fn lines<R, A: Arithmetic<R>>(
    a: &A,
    n: int,
    p: int,
    k: int,
    z: Complex<R>,
    s: Complex<R>,
) -> Seq<Complex<R>> {
    Seq::new(
        n as nat,
        |i: int|
            if i == p {
                z
            } else if i == above(n, p, k) || i == under(n, p, k) {
                s
            } else {
                zero(a)
            },
    )
}

/// A carrier and two sidebands: a phasor that turns `p` times, and two that turn `k`
/// times more and less.
pub open spec fn sidebands<R, A: Arithmetic<R>>(
    a: &A,
    roots: Roots<R>,
    n: int,
    p: int,
    k: int,
    z: Complex<R>,
    s: Complex<R>,
) -> Seq<Complex<R>> {
    Seq::new(
        n as nat,
        |t: int|
            joined(
                a,
                turned(a, z, roots.at(n, p * t)),
                joined(
                    a,
                    turned(a, s, roots.at(n, p * t + k * t)),
                    turned(a, s, roots.at(n, p * t + (-k) * t)),
                ),
            ),
    )
}

proof fn lemma_additive<R, P, A: Arithmetic<R>, E: Engine<R, P>>(
    a: &A,
    engine: &E,
    direction: Direction,
    x: Seq<Complex<R>>,
    x2: Seq<Complex<R>>,
    y: Seq<Complex<R>>,
    y2: Seq<Complex<R>>,
)
    requires
        additive::<R, P, A, E>(a, engine),
        x.len() == y.len(),
        transformed::<R, P, E>(engine, direction, x, x2),
        transformed::<R, P, E>(engine, direction, y, y2),
    ensures
        transformed::<R, P, E>(engine, direction, sum_of(a, x, y), sum_of(a, x2, y2)),
{
    reveal(additive);
}

/// The roots that the bins above and below turn with.
proof fn lemma_neighbours<R, A: Arithmetic<R>>(
    a: &A,
    roots: Roots<R>,
    n: int,
    p: int,
    k: int,
    t: int,
)
    requires
        unity(a, roots),
        n > 0,
    ensures
        roots.at(n, above(n, p, k) * t) == roots.at(n, p * t + k * t),
        roots.at(n, under(n, p, k) * t) == roots.at(n, p * t + (-k) * t),
{
    assert((p + k) * t == p * t + k * t) by (nonlinear_arith);
    assert((p - k) * t == p * t + (-k) * t) by (nonlinear_arith);
    if p + k >= n {
        assert((p + k - n) * t == (p + k) * t + (-t) * n) by (nonlinear_arith);
        lemma_period(a, roots, n, above(n, p, k) * t, p * t + k * t, -t);
    }
    if p < k {
        assert((p - k + n) * t == (p - k) * t + t * n) by (nonlinear_arith);
        lemma_period(a, roots, n, under(n, p, k) * t, p * t + (-k) * t, t);
    }
}

/// Nothing added to a value.
proof fn lemma_joined_zero<R, A: Arithmetic<R>>(a: &A, m: Meaning<R>, z: Complex<R>)
    requires
        faithful(a, m),
    ensures
        alike(m, joined(a, z, joined(a, zero(a), zero(a))), z),
        alike(m, joined(a, zero(a), joined(a, z, zero(a))), z),
        alike(m, joined(a, zero(a), joined(a, zero(a), z)), z),
{
    reveal(faithful);
    assert(m.of(num(a, 0)) == 0real);
}

/// Three single bins add up to lines.
proof fn lemma_lines_sum<R, A: Arithmetic<R>>(
    a: &A,
    m: Meaning<R>,
    n: int,
    p: int,
    k: int,
    z: Complex<R>,
    s: Complex<R>,
    x1: Seq<Complex<R>>,
    x2: Seq<Complex<R>>,
    x3: Seq<Complex<R>>,
)
    requires
        faithful(a, m),
        0 <= p < n,
        0 < k,
        2 * k < n,
        x1.len() == x2.len() == x3.len() == n,
        lone(a, x1, p),
        x1[p] == z,
        lone(a, x2, above(n, p, k)),
        x2[above(n, p, k)] == s,
        lone(a, x3, under(n, p, k)),
        x3[under(n, p, k)] == s,
    ensures
        same(m, lines(a, n, p, k, z, s), sum_of(a, x1, sum_of(a, x2, x3))),
{
    let (x, y) = (lines(a, n, p, k, z, s), sum_of(a, x1, sum_of(a, x2, x3)));
    let (q, r) = (above(n, p, k), under(n, p, k));
    assert(p != q && p != r && q != r);
    assert forall|i: int| 0 <= i < n implies #[trigger] alike(m, x[i], y[i]) by {
        assert(i != p ==> x1[i] == zero(a));
        assert(i != q ==> x2[i] == zero(a));
        assert(i != r ==> x3[i] == zero(a));
        lemma_joined_zero(a, m, z);
        lemma_joined_zero(a, m, s);
        lemma_joined_zero(a, m, zero(a));
    }
}

/// The signal of lines is a carrier and two sidebands.
pub proof fn lemma_spread_lines<R, P, A: Arithmetic<R>, E: Engine<R, P>>(
    a: &A,
    engine: &E,
    m: Meaning<R>,
    roots: Roots<R>,
    n: int,
    p: int,
    k: int,
    z: Complex<R>,
    s: Complex<R>,
    w: Seq<Complex<R>>,
)
    requires
        real_phasors::<R, P, A, E>(a, engine, m, roots),
        n <= usize::MAX,
        0 <= p < n,
        0 < k,
        2 * k < n,
        transformed::<R, P, E>(engine, Direction::Inverse, lines(a, n, p, k, z, s), w),
    ensures
        same(m, w, sidebands(a, roots, n, p, k, z, s)),
{
    let (q, r) = (above(n, p, k), under(n, p, k));
    let x1 = only(a, n as nat, p, z);
    let x2 = only(a, n as nat, q, s);
    let x3 = only(a, n as nat, r, s);
    let d = Direction::Inverse;
    let y1 = lemma_answer::<R, P, E>(engine, d, x1);
    let y2 = lemma_answer::<R, P, E>(engine, d, x2);
    let y3 = lemma_answer::<R, P, E>(engine, d, x3);
    assert(lone(a, x1, p) && lone(a, x2, q) && lone(a, x3, r));
    lemma_lines_sum(a, m, n, p, k, z, s, x1, x2, x3);
    lemma_additive::<R, P, A, E>(a, engine, d, x2, y2, x3, y3);
    let (x, y) = (sum_of(a, x2, x3), sum_of(a, y2, y3));
    lemma_additive::<R, P, A, E>(a, engine, d, x1, y1, x, y);
    let whole = sum_of(a, y1, y);
    lemma_same_transform::<R, P, E>(
        engine,
        m,
        d,
        lines(a, n, p, k, z, s),
        w,
        sum_of(a, x1, x),
        whole,
    );
    let trio = sidebands(a, roots, n, p, k, z, s);
    assert forall|t: int| 0 <= t < n implies #[trigger] whole[t] == trio[t] by {
        lemma_neighbours(a, roots, n, p, k, t);
        reveal(harmonic);
        assert(y1[t] == turned(a, z, roots.at(n, p * t)));
        assert(y2[t] == turned(a, s, roots.at(n, q * t)));
        assert(y3[t] == turned(a, s, roots.at(n, r * t)));
    }
    assert(whole =~= trio);
}

/// The spectrum of a carrier and two sidebands is lines.
pub proof fn lemma_gather_sidebands<R, P, A: Arithmetic<R>, E: Engine<R, P>>(
    a: &A,
    engine: &E,
    m: Meaning<R>,
    roots: Roots<R>,
    n: int,
    p: int,
    k: int,
    z: Complex<R>,
    s: Complex<R>,
    x: Seq<Complex<R>>,
    y: Seq<Complex<R>>,
)
    requires
        real_phasors::<R, P, A, E>(a, engine, m, roots),
        n <= usize::MAX,
        0 <= p < n,
        0 < k,
        2 * k < n,
        same(m, x, sidebands(a, roots, n, p, k, z, s)),
        transformed::<R, P, E>(engine, Direction::Forward, x, y),
    ensures
        same(
            m,
            y,
            lines(a, n, p, k, scaled(a, z, num(a, n as u64)), scaled(a, s, num(a, n as u64))),
        ),
{
    let (q, r) = (above(n, p, k), under(n, p, k));
    let x1 = phasor(a, roots, n as nat, p, z);
    let x2 = phasor(a, roots, n as nat, q, s);
    let x3 = phasor(a, roots, n as nat, r, s);
    let d = Direction::Forward;
    let y1 = lemma_answer::<R, P, E>(engine, d, x1);
    let y2 = lemma_answer::<R, P, E>(engine, d, x2);
    let y3 = lemma_answer::<R, P, E>(engine, d, x3);
    let (u, v) = (scaled(a, z, num(a, n as u64)), scaled(a, s, num(a, n as u64)));
    assert(lone(a, y1, p) && y1[p] == u && lone(a, y2, q) && y2[q] == v && lone(a, y3, r) && y3[r]
        == v) by {
        reveal(gathers);
    }
    lemma_lines_sum(a, m, n, p, k, u, v, y1, y2, y3);
    lemma_additive::<R, P, A, E>(a, engine, d, x2, y2, x3, y3);
    let (xs, ys) = (sum_of(a, x2, x3), sum_of(a, y2, y3));
    lemma_additive::<R, P, A, E>(a, engine, d, x1, y1, xs, ys);
    let whole = sum_of(a, x1, xs);
    let trio = sidebands(a, roots, n, p, k, z, s);
    assert forall|t: int| 0 <= t < n implies #[trigger] whole[t] == trio[t] by {
        lemma_neighbours(a, roots, n, p, k, t);
    }
    assert(whole =~= trio);
    lemma_same_transform::<R, P, E>(engine, m, d, x, y, whole, sum_of(a, y1, ys));
    let made = lines(a, n, p, k, u, v);
    let found = sum_of(a, y1, ys);
    assert forall|i: int| 0 <= i < n implies #[trigger] alike(m, y[i], made[i]) by {
        assert(alike(m, y[i], found[i]));
        assert(alike(m, made[i], found[i]));
    }
}

// The envelope of a carrier and two sidebands.

/// Turning changes no distance.
pub proof fn lemma_spin(x: real, y: real, c: real, d: real)
    requires
        c * c + d * d == 1real,
    ensures
        (x * c - y * d) * (x * c - y * d) + (x * d + y * c) * (x * d + y * c) == x * x + y * y,
{
    let b = -y;
    lemma_inner_and_outer(x, b, c, d);
    assert((-y) * (-y) == y * y) by (nonlinear_arith);
    assert((-y) * d == -(y * d)) by (nonlinear_arith);
    assert((-y) * c == -(y * c)) by (nonlinear_arith);
    let s = x * x + b * b;
    assert(s * 1real == s) by (nonlinear_arith);
}

/// Two values of one square, neither negative.
pub proof fn lemma_one_root(x: real, y: real)
    requires
        x >= 0real,
        y >= 0real,
        x * x == y * y,
    ensures
        x == y,
{
    if x > y {
        lemma_larger_square(x, y);
    }
    if y > x {
        lemma_larger_square(y, x);
    }
}

/// What the parts of a product are.
pub proof fn lemma_turned<R, A: Arithmetic<R>>(a: &A, m: Meaning<R>, z: Complex<R>, c: Complex<R>)
    requires
        faithful(a, m),
    ensures
        m.of(turned(a, z, c).re) == m.of(z.re) * m.of(c.re) - m.of(z.im) * m.of(c.im),
        m.of(turned(a, z, c).im) == m.of(z.re) * m.of(c.im) + m.of(z.im) * m.of(c.re),
{
    reveal(faithful);
}

pub proof fn lemma_scaled<R, A: Arithmetic<R>>(a: &A, m: Meaning<R>, z: Complex<R>, s: R)
    requires
        faithful(a, m),
    ensures
        m.of(scaled(a, z, s).re) == m.of(z.re) * m.of(s),
        m.of(scaled(a, z, s).im) == m.of(z.im) * m.of(s),
{
    reveal(faithful);
}

proof fn lemma_joined<R, A: Arithmetic<R>>(a: &A, m: Meaning<R>, y: Complex<R>, z: Complex<R>)
    requires
        faithful(a, m),
    ensures
        m.of(joined(a, y, z).re) == m.of(y.re) + m.of(z.re),
        m.of(joined(a, y, z).im) == m.of(y.im) + m.of(z.im),
{
    reveal(faithful);
}

/// A value at half the depth, turned with the carrier, is the carrier at half the
/// depth.
proof fn lemma_half(x: real, y: real, h: real, c: real, d: real)
    ensures
        (x * h) * c - (y * h) * d == h * (x * c - y * d),
        (x * h) * d + (y * h) * c == h * (x * d + y * c),
{
    assert((x * h) * c == h * (x * c)) by (nonlinear_arith);
    assert((y * h) * d == h * (y * d)) by (nonlinear_arith);
    assert((x * h) * d == h * (x * d)) by (nonlinear_arith);
    assert((y * h) * c == h * (y * c)) by (nonlinear_arith);
    let (p, q, r, s) = (x * c, y * d, x * d, y * c);
    assert(h * (p - q) == h * p - h * q) by (nonlinear_arith);
    assert(h * (r + s) == h * r + h * s) by (nonlinear_arith);
}

/// A carrier and both sidebands add up to the carrier times the modulation.
proof fn lemma_beat(x: real, y: real, h: real, c: real, d: real)
    ensures
        ({
            let (u, v) = (h * x, h * y);
            &&& x + ((u * c - v * d) + (u * c - v * (-d))) == x * (1real + 2real * (h * c))
            &&& y + ((u * d + v * c) + (u * (-d) + v * c)) == y * (1real + 2real * (h * c))
        }),
{
    let (u, v, hc) = (h * x, h * y, h * c);
    assert(v * (-d) == -(v * d)) by (nonlinear_arith);
    assert(u * (-d) == -(u * d)) by (nonlinear_arith);
    assert((h * x) * c == x * (h * c)) by (nonlinear_arith);
    assert((h * y) * c == y * (h * c)) by (nonlinear_arith);
    assert(x * (1real + 2real * hc) == x + 2real * (x * hc)) by (nonlinear_arith);
    assert(y * (1real + 2real * hc) == y + 2real * (y * hc)) by (nonlinear_arith);
}

/// How far the modulation has the carrier swing at sample `t`.
pub open spec fn swing<R>(m: Meaning<R>, roots: Roots<R>, n: int, k: int, half: R, t: int) -> real {
    1real + 2real * (m.of(half) * m.of(roots.at(n, k * t).re))
}

/// A sample of a carrier and two sidebands is the carrier, swung.
pub proof fn lemma_swung<R, A: Arithmetic<R>>(
    a: &A,
    m: Meaning<R>,
    roots: Roots<R>,
    n: int,
    p: int,
    k: int,
    z: Complex<R>,
    half: R,
    t: int,
)
    requires
        faithful(a, m),
        unity(a, roots),
        circular(m, roots),
        0 <= t < n,
    ensures
        ({
            let w = sidebands(a, roots, n, p, k, z, scaled(a, z, half))[t];
            let u = turned(a, z, roots.at(n, p * t));
            let g = swing(m, roots, n, k, half, t);
            &&& m.of(w.re) == m.of(u.re) * g
            &&& m.of(w.im) == m.of(u.im) * g
        }),
{
    let s = scaled(a, z, half);
    let (pp, kk) = (roots.at(n, p * t), roots.at(n, k * t));
    let back = roots.at(n, (-k) * t);
    assert((-k) * t == -(k * t)) by (nonlinear_arith);
    assert(m.of(back.re) == m.of(kk.re) && m.of(back.im) == -m.of(kk.im)) by {
        reveal(circular);
    }
    let u = turned(a, z, pp);
    let v = turned(a, s, pp);
    let (v1, v2) = (turned(a, v, kk), turned(a, v, back));
    assert(turned(a, s, roots.at(n, p * t + k * t)) == v1 && turned(
        a,
        s,
        roots.at(n, p * t + (-k) * t),
    ) == v2) by {
        reveal(unity);
    }
    lemma_scaled(a, m, z, half);
    lemma_turned(a, m, z, pp);
    lemma_turned(a, m, s, pp);
    lemma_turned(a, m, v, kk);
    lemma_turned(a, m, v, back);
    lemma_joined(a, m, v1, v2);
    lemma_joined(a, m, u, joined(a, v1, v2));
    let h = m.of(half);
    lemma_half(m.of(z.re), m.of(z.im), h, m.of(pp.re), m.of(pp.im));
    lemma_beat(m.of(u.re), m.of(u.im), h, m.of(kk.re), m.of(kk.im));
}

/// Modulation of at most the carrier itself never turns it round.
pub proof fn lemma_swing_positive<R>(
    m: Meaning<R>,
    roots: Roots<R>,
    n: int,
    k: int,
    half: R,
    t: int,
)
    requires
        circular(m, roots),
        0real <= 2real * m.of(half) <= 1real,
    ensures
        swing(m, roots, n, k, half, t) >= 0real,
{
    let w = roots.at(n, k * t);
    let (c, d, h) = (m.of(w.re), m.of(w.im), m.of(half));
    assert(c * c + d * d == 1real) by {
        reveal(circular);
    }
    lemma_square(d);
    if -c > 1real {
        lemma_larger_square(-c, 1real);
        assert((-c) * (-c) == c * c) by (nonlinear_arith);
        assert(1real * 1real == 1real) by (nonlinear_arith);
    }
    assert(h * c >= -h) by (nonlinear_arith)
        requires
            h >= 0real,
            c >= -1real,
    ;
}

/// The envelope of a carrier and two sidebands is a constant and one line on either
/// side of it.
pub proof fn lemma_envelope_of_sidebands<R, A: Arithmetic<R>>(
    a: &A,
    m: Meaning<R>,
    roots: Roots<R>,
    n: int,
    p: int,
    k: int,
    z: Complex<R>,
    half: R,
    w: Seq<Complex<R>>,
)
    requires
        faithful(a, m),
        faithful_distances(a, m),
        unity(a, roots),
        circular(m, roots),
        0 < n <= usize::MAX,
        0real <= 2real * m.of(half) <= 1real,
        same(m, w, sidebands(a, roots, n, p, k, z, scaled(a, z, half))),
    ensures
        ({
            let f = fraction(a, 1, n as u64);
            let level = on_axis(a, product(a, modulus(a, z), f));
            same(
                m,
                envelope(a, scaled_all(a, w, f)),
                sidebands(a, roots, n, 0, k, level, scaled(a, level, half)),
            )
        }),
{
    let f = fraction(a, 1, n as u64);
    let level = on_axis(a, product(a, modulus(a, z), f));
    let x = envelope(a, scaled_all(a, w, f));
    let y = sidebands(a, roots, n, 0, k, level, scaled(a, level, half));
    let trio = sidebands(a, roots, n, p, k, z, scaled(a, z, half));
    lemma_fraction_value(a, m, 1, n as u64);
    let (phi, r) = (m.of(f), n as real);
    assert(phi > 0real) by (nonlinear_arith)
        requires
            phi * r == 1real,
            r >= 1real,
    ;
    let size = m.of(modulus(a, z));
    assert(size >= 0real && size * size == m.of(z.re) * m.of(z.re) + m.of(z.im) * m.of(z.im)) by {
        reveal(faithful_distances);
    }
    assert(m.of(num(a, 0)) == 0real && m.of(level.re) == size * phi && m.of(level.im) == 0real) by {
        reveal(faithful);
        assert(m.of(num(a, 0)) == 0real);
    }
    assert forall|t: int| 0 <= t < n implies #[trigger] alike(m, x[t], y[t]) by {
        assert(alike(m, w[t], trio[t]));
        lemma_swung(a, m, roots, n, p, k, z, half, t);
        lemma_swung(a, m, roots, n, 0, k, level, half, t);
        lemma_swing_positive(m, roots, n, k, half, t);
        let g = swing(m, roots, n, k, half, t);
        // The constant.
        let one = roots.at(n, 0 * t);
        assert(0 * t == 0);
        assert(m.of(one.re) == 1real && m.of(one.im) == 0real) by {
            reveal(circular);
            let d = m.of(one.im);
            assert(1real * 1real == 1real) by (nonlinear_arith);
            assert(d * d <= 0real);
            lemma_root_of_zero(d);
        }
        lemma_turned(a, m, level, one);
        let l = size * phi;
        assert(l * 1real - 0real * 0real == l && l * 0real + 0real * 1real == 0real && 0real * g
            == 0real) by (nonlinear_arith);
        // The carrier.
        let pp = roots.at(n, p * t);
        let u = turned(a, z, pp);
        lemma_turned(a, m, z, pp);
        assert(m.of(pp.re) * m.of(pp.re) + m.of(pp.im) * m.of(pp.im) == 1real) by {
            reveal(circular);
        }
        lemma_spin(m.of(z.re), m.of(z.im), m.of(pp.re), m.of(pp.im));
        let v = scaled(a, w[t], f);
        lemma_scaled(a, m, w[t], f);
        let high = m.of(modulus(a, v));
        assert(high >= 0real && high * high == m.of(v.re) * m.of(v.re) + m.of(v.im) * m.of(v.im))
            by {
            reveal(faithful_distances);
        }
        lemma_swung_size(m.of(u.re), m.of(u.im), g, phi, size, high);
        assert(x[t] == on_axis(a, modulus(a, v)));
    }
}

pub proof fn lemma_swung_size(x: real, y: real, g: real, phi: real, size: real, high: real)
    requires
        g >= 0real,
        phi >= 0real,
        size >= 0real,
        high >= 0real,
        size * size == x * x + y * y,
        high * high == ((x * g) * phi) * ((x * g) * phi) + ((y * g) * phi) * ((y * g) * phi),
    ensures
        high == (size * phi) * g,
{
    let q = g * phi;
    assert((x * g) * phi == x * (g * phi)) by (nonlinear_arith);
    assert((y * g) * phi == y * (g * phi)) by (nonlinear_arith);
    lemma_squares(x, q);
    lemma_squares(y, q);
    lemma_squares(size, q);
    let (xx, yy, qq) = (x * x, y * y, q * q);
    assert((xx + yy) * qq == xx * qq + yy * qq) by (nonlinear_arith);
    assert(q >= 0real) by (nonlinear_arith)
        requires
            q == g * phi,
            g >= 0real,
            phi >= 0real,
    ;
    assert(size * q >= 0real) by (nonlinear_arith)
        requires
            size >= 0real,
            q >= 0real,
    ;
    lemma_one_root(high, size * q);
    assert(size * (g * phi) == (size * phi) * g) by (nonlinear_arith);
}

} // verus!
