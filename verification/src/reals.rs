//! Laws of size: how far the contaminated edges reach, and how long a block is
//! predicted to have to be.
//!
//! They hold in an arithmetic whose values stand for real numbers, and whose
//! operations are those of real numbers.

use vstd::arithmetic::power2::pow2;
use vstd::prelude::*;

use crate::arithmetic::{
    at_most, below, ceiling, difference, exponential, fraction, larger, largest, logarithm,
    magnitude, num, product, quotient, root, sum, turn, Arithmetic,
};
use crate::filterbank::{
    half_power_width, lowest_centre, narrowest, support, support_fraction, support_limit, BankSpec,
    FilterBank, Wavelet,
};
use crate::laws::{
    law_no_filter_is_too_narrow, law_predicted_block_reaches_its_rate,
    lemma_first_length_is_power, lemma_planned_width, lemma_sizing_step_is_positive,
};
use crate::powers::{
    lemma_divides, lemma_double, lemma_gap, lemma_next_pow2, next_pow2, power_of_two,
};
use crate::transform::{averaging_span, Config, Geometry};

verus! {

/// The real number that each value stands for.
#[verifier::reject_recursive_types(R)]
pub struct Meaning<R> {
    pub value: spec_fn(R) -> real,
}

impl<R> Meaning<R> {
    pub open spec fn of(self, x: R) -> real {
        (self.value)(x)
    }
}

/// Whether the operations on values are those on the real numbers they stand for.
#[verifier::opaque]
pub open spec fn faithful<R, A: Arithmetic<R>>(a: &A, m: Meaning<R>) -> bool {
    &&& forall|n: u64| #[trigger] m.of(num(a, n)) == n as real
    &&& m.of(a.circle_ratio()) > 0real
    &&& forall|x: R, y: R| #[trigger] m.of(sum(a, x, y)) == m.of(x) + m.of(y)
    &&& forall|x: R, y: R| #[trigger] m.of(difference(a, x, y)) == m.of(x) - m.of(y)
    &&& forall|x: R, y: R| #[trigger] m.of(product(a, x, y)) == m.of(x) * m.of(y)
    &&& forall|x: R, y: R|
        m.of(y) != 0real ==> #[trigger] m.of(quotient(a, x, y)) == m.of(x) / m.of(y)
    &&& forall|x: R, y: R| #[trigger]
        m.of(larger(a, x, y)) == (if m.of(x) >= m.of(y) {
            m.of(x)
        } else {
            m.of(y)
        })
    &&& forall|x: R| #[trigger] m.of(root(a, x)) >= 0real
    &&& forall|x: R, y: R| #[trigger] below(a, x, y) == (m.of(x) < m.of(y))
    &&& forall|x: R, y: R| #[trigger] at_most(a, x, y) == (m.of(x) <= m.of(y))
}

/// Whether rounding up and taking the whole part keep values in order, and
/// rounding up to a whole number falls short of nothing that can be counted.
#[verifier::opaque]
pub open spec fn faithful_wholes<R, A: Arithmetic<R>>(a: &A, m: Meaning<R>) -> bool {
    &&& forall|x: R, y: R|
        m.of(x) <= m.of(y) ==> m.of(#[trigger] ceiling(a, x)) <= m.of(#[trigger] ceiling(a, y))
    &&& forall|x: R, y: R|
        m.of(x) <= m.of(y) ==> #[trigger] a.whole_of(x) <= #[trigger] a.whole_of(y)
    &&& forall|x: R| #[trigger]
        a.whole_of(ceiling(a, x)) == usize::MAX || m.of(x) <= a.whole_of(ceiling(a, x)) as real
}

/// The distance of a real number from zero.
pub open spec fn size(x: real) -> real {
    if x >= 0real {
        x
    } else {
        -x
    }
}

/// Whether a magnitude is the distance from zero.
#[verifier::opaque]
pub open spec fn faithful_magnitudes<R, A: Arithmetic<R>>(a: &A, m: Meaning<R>) -> bool {
    forall|x: R| #[trigger] m.of(magnitude(a, x)) == size(m.of(x))
}

/// Whether exponentials turn sums into products and keep values in order, and
/// logarithms undo them.
#[verifier::opaque]
pub open spec fn faithful_exponentials<R, A: Arithmetic<R>>(a: &A, m: Meaning<R>) -> bool {
    &&& forall|x: R| #[trigger] m.of(exponential(a, x)) > 0real
    &&& forall|x: R, y: R|
        m.of(x) <= m.of(y) ==> m.of(#[trigger] exponential(a, x)) <= m.of(
            #[trigger] exponential(a, y),
        )
    &&& forall|x: R, y: R, z: R|
        m.of(z) == m.of(x) + m.of(y) ==> m.of(#[trigger] exponential(a, z)) == m.of(
            #[trigger] exponential(a, x),
        ) * m.of(#[trigger] exponential(a, y))
    &&& forall|x: R| #[trigger] m.of(logarithm(a, exponential(a, x))) == m.of(x)
    &&& forall|x: R| m.of(x) > 0real ==> #[trigger] m.of(exponential(a, logarithm(a, x))) == m.of(
        x,
    )
    &&& forall|x: R, y: R|
        0real < m.of(x) <= m.of(y) ==> m.of(#[trigger] logarithm(a, x)) <= m.of(
            #[trigger] logarithm(a, y),
        )
}

/// Whether rounding up to a whole number goes up by less than one, and taking the whole
/// part does not go up.
#[verifier::opaque]
pub open spec fn faithful_ceilings<R, A: Arithmetic<R>>(a: &A, m: Meaning<R>) -> bool {
    &&& forall|x: R|
        m.of(x) >= 0real ==> m.of(x) + 1real > (#[trigger] a.whole_of(ceiling(a, x))) as real
    &&& forall|x: R| m.of(x) >= 0real ==> m.of(x) >= (#[trigger] a.whole_of(x)) as real
}

/// A quarter of a block, in samples.
pub proof fn lemma_quarter<R, A: Arithmetic<R>>(a: &A, m: Meaning<R>, n: usize)
    requires
        faithful(a, m),
        n >= 1,
    ensures
        4real * m.of(support_limit(a, n)) == n as real,
        m.of(support_limit(a, n)) > 0real,
{
    reveal(faithful);
    let l = m.of(support_limit(a, n));
    assert(m.of(num(a, 4)) == 4real);
    assert(m.of(num(a, 1)) == 1real);
    assert(m.of(support_fraction::<R, A>(a)) == 1real / 4real);
    assert(l == (1real / 4real) * (n as real));
    assert(n as real >= 1real);
    assert(4real * l == n as real && l > 0real) by (nonlinear_arith)
        requires
            l == (1real / 4real) * (n as real),
            n as real >= 1real,
    ;
}

/// What a quotient by a positive value comes to.
pub proof fn lemma_quotient<R, A: Arithmetic<R>>(a: &A, m: Meaning<R>, x: R, y: R)
    requires
        faithful(a, m),
        m.of(y) > 0real,
    ensures
        m.of(quotient(a, x, y)) * m.of(y) == m.of(x),
{
    reveal(faithful);
    let (p, q) = (m.of(x), m.of(y));
    assert((p / q) * q == p) by (nonlinear_arith)
        requires
            q > 0real,
    ;
}

/// A fraction times its denominator is its numerator.
pub proof fn lemma_fraction_value<R, A: Arithmetic<R>>(a: &A, m: Meaning<R>, p: u64, q: u64)
    requires
        faithful(a, m),
        q >= 1,
    ensures
        m.of(fraction(a, p, q)) * (q as real) == p as real,
{
    assert(m.of(num(a, p)) == p as real && m.of(num(a, q)) == q as real) by {
        reveal(faithful);
    }
    lemma_quotient(a, m, num(a, p), num(a, q));
}

/// Of two quotients by one positive value the one of the larger value is larger.
proof fn lemma_over_keeps_order(x: real, y: real, p: real, q: real, f: real)
    requires
        f > 0real,
        p * f == x,
        q * f == y,
        x <= y,
    ensures
        p <= q,
{
    if p > q {
        assert(p * f > q * f) by (nonlinear_arith)
            requires
                p > q,
                f > 0real,
        ;
    }
}

/// The time support of a filter, times the angle its width turns through.
proof fn lemma_support_value<R, A: Arithmetic<R>>(a: &A, m: Meaning<R>, sigma: R)
    requires
        faithful(a, m),
        m.of(sigma) > 0real,
    ensures
        m.of(turn(a)) > 0real,
        m.of(support(a, sigma)) * (m.of(turn(a)) * m.of(sigma)) == 6real,
        m.of(support(a, sigma)) > 0real,
{
    reveal(faithful);
    let (t, s) = (m.of(turn(a)), m.of(sigma));
    assert(m.of(num(a, 2)) == 2real);
    assert(m.of(num(a, 6)) == 6real);
    assert(t == 2real * m.of(a.circle_ratio()));
    assert(t * s > 0real) by (nonlinear_arith)
        requires
            t > 0real,
            s > 0real,
    ;
    assert(m.of(product(a, turn(a), sigma)) == t * s);
    lemma_quotient(a, m, num(a, 6), product(a, turn(a), sigma));
    let p = m.of(support(a, sigma));
    let u = t * s;
    assert(p > 0real) by (nonlinear_arith)
        requires
            p * u == 6real,
            u > 0real,
    ;
}

/// The narrowest filter is a quarter of the block long, and a wider one is
/// shorter.
pub proof fn lemma_wider_is_shorter<R, A: Arithmetic<R>>(a: &A, m: Meaning<R>, n: usize, sigma: R)
    requires
        faithful(a, m),
        n >= 1,
        sigma == narrowest(a, n) || at_most(a, narrowest(a, n), sigma),
    ensures
        m.of(narrowest(a, n)) > 0real,
        m.of(support(a, sigma)) <= m.of(support_limit(a, n)),
{
    lemma_quarter(a, m, n);
    reveal(faithful);
    let low = narrowest(a, n);
    let (t, l) = (m.of(turn(a)), m.of(support_limit(a, n)));
    assert(m.of(num(a, 2)) == 2real);
    assert(m.of(num(a, 6)) == 6real);
    assert(t == 2real * m.of(a.circle_ratio()));
    let u = t * l;
    assert(u > 0real) by (nonlinear_arith)
        requires
            u == t * l,
            t > 0real,
            l > 0real,
    ;
    lemma_quotient(a, m, num(a, 6), product(a, turn(a), support_limit(a, n)));
    let (s0, s) = (m.of(low), m.of(sigma));
    assert(s0 > 0real) by (nonlinear_arith)
        requires
            s0 * u == 6real,
            u > 0real,
    ;
    lemma_support_value(a, m, sigma);
    let p = m.of(support(a, sigma));
    // p t s = 6 = s0 t l, and s0 <= s
    if p > l {
        assert(p * s > l * s0) by (nonlinear_arith)
            requires
                p > l,
                l > 0real,
                s >= s0,
                s0 > 0real,
        ;
        let (x, y) = (p * s, l * s0);
        assert(x * t > y * t) by (nonlinear_arith)
            requires
                x > y,
                t > 0real,
        ;
        assert(p * (t * s) == (p * s) * t) by (nonlinear_arith);
        assert(s0 * (t * l) == (l * s0) * t) by (nonlinear_arith);
    }
}

/// No filter of a bank is longer than a quarter of its block.
proof fn lemma_support<R: Copy, A: Arithmetic<R>>(
    a: &A,
    m: Meaning<R>,
    bank: &FilterBank<R>,
    spec: &BankSpec<R>,
    n: usize,
    invariance_samples: R,
    i: int,
)
    requires
        faithful(a, m),
        n >= 1,
        bank.realises(a, spec, n, invariance_samples),
        0 <= i < bank.wavelets@.len(),
    ensures
        m.of(support(a, bank.wavelets@[i].sigma)) <= m.of(support_limit(a, n)),
{
    let j = lemma_planned_width(a, bank, spec, n, invariance_samples, i);
    law_no_filter_is_too_narrow(a, spec, narrowest(a, n), j);
    lemma_wider_is_shorter(a, m, n, bank.wavelets@[i].sigma);
}

/// The largest of some values is at least each, and at most what all of them are.
proof fn lemma_largest<R, A: Arithmetic<R>>(a: &A, m: Meaning<R>, xs: Seq<R>, bound: real)
    requires
        faithful(a, m),
        bound >= 0real,
        forall|i: int| 0 <= i < xs.len() ==> m.of(#[trigger] xs[i]) <= bound,
    ensures
        m.of(largest(a, num(a, 0), xs)) <= bound,
        forall|i: int|
            0 <= i < xs.len() ==> m.of(#[trigger] xs[i]) <= m.of(largest(a, num(a, 0), xs)),
    decreases xs.len(),
{
    reveal(faithful);
    assert(m.of(num(a, 0)) == 0real);
    if xs.len() > 0 {
        let rest = xs.drop_last();
        lemma_largest(a, m, rest, bound);
        assert forall|i: int| 0 <= i < xs.len() implies m.of(#[trigger] xs[i]) <= m.of(
            largest(a, num(a, 0), xs),
        ) by {
            if i < rest.len() {
                assert(rest[i] == xs[i]);
            }
        }
    }
}

/// The contaminated edges are known and bounded: they are at least as long as any
/// filter and as three averaging windows, and at most a quarter of the block, so
/// that trimming both leaves half of it.
pub proof fn law_edges_leave_half_the_block<R: Copy, A: Arithmetic<R>>(
    a: &A,
    m: Meaning<R>,
    sa: &Geometry<R>,
)
    requires
        faithful(a, m),
        sa.wf(),
        sa.realises(a, &sa.config, sa.n),
        sa.config.verdict(a, sa.n) is Ok,
    ensures
        at_most(a, product(a, num(a, 3), sa.config.invariance_s), sa.edge(a)),
        forall|i: int|
            0 <= i < sa.bank1.wavelets@.len() ==> at_most(
                a,
                quotient(a, support(a, (#[trigger] sa.bank1.wavelets@[i]).sigma), sa.config.fs),
                sa.edge(a),
            ),
        forall|i: int|
            0 <= i < sa.bank2.wavelets@.len() ==> at_most(
                a,
                quotient(a, support(a, (#[trigger] sa.bank2.wavelets@[i]).sigma), sa.fs1(a)),
                sa.edge(a),
            ),
        at_most(a, sa.edge(a), quotient(a, support_limit(a, sa.n), sa.config.fs)),
        4real * m.of(sa.edge(a)) * m.of(sa.config.fs) <= sa.n as real,
{
    sa.lemma_grids();
    let config = &sa.config;
    let (n, n1, d1) = (sa.n, sa.n1() as usize, sa.d1);
    let (fs, fs1) = (m.of(config.fs), m.of(sa.fs1(a)));
    let t = m.of(config.invariance_s);
    let block = m.of(support_limit(a, n));
    let small = m.of(support_limit(a, n1));
    lemma_quarter(a, m, n);
    lemma_quarter(a, m, n1);
    assert(fs > 0real) by {
        reveal(faithful);
        assert(m.of(num(a, 2)) == 2real);
        assert(m.of(num(a, 0)) == 0real);
    }
    // The envelopes are as much slower as their block is shorter.
    let d = d1 as real;
    assert(m.of(num(a, d1 as u64)) == d) by {
        reveal(faithful);
    }
    lemma_quotient(a, m, config.fs, num(a, d1 as u64));
    assert(fs1 * d == fs);
    assert(fs1 > 0real) by (nonlinear_arith)
        requires
            fs1 * d == fs,
            fs > 0real,
            d >= 1real,
    ;
    lemma_divides(d1 as int, n as int);
    assert((n1 as real) * d == n as real) by (nonlinear_arith)
        requires
            d1 as int * n1 as int == n as int,
            d == d1 as real,
    ;
    let quarter = m.of(quotient(a, support_limit(a, n), config.fs));
    lemma_quotient(a, m, support_limit(a, n), config.fs);
    assert(quarter * fs1 == small) by (nonlinear_arith)
        requires
            quarter * fs == block,
            fs1 * d == fs,
            4real * block == n as real,
            4real * small == n1 as real,
            (n1 as real) * d == n as real,
            d >= 1real,
    ;
    // Each of the three reaches is at most a quarter.
    let s1 = sa.bank1.wavelets@.map_values(|w: Wavelet<R>| support(a, w.sigma));
    let s2 = sa.bank2.wavelets@.map_values(|w: Wavelet<R>| support(a, w.sigma));
    let inv1 = product(a, config.invariance_s, config.fs);
    let inv2 = product(a, config.invariance_s, config.envelope_rate(a, d1 as int));
    assert forall|i: int| 0 <= i < s1.len() implies m.of(#[trigger] s1[i]) <= block by {
        lemma_support(a, m, &sa.bank1, &config.carrier_spec(a), n, inv1, i);
    }
    assert forall|i: int| 0 <= i < s2.len() implies m.of(#[trigger] s2[i]) <= small by {
        lemma_support(a, m, &sa.bank2, &config.modulation_spec(a, d1 as int), n1, inv2, i);
    }
    lemma_largest(a, m, s1, block);
    lemma_largest(a, m, s2, small);
    let (l1, l2) = (largest(a, num(a, 0), s1), largest(a, num(a, 0), s2));
    let order1 = quotient(a, l1, config.fs);
    let order2 = quotient(a, l2, sa.fs1(a));
    lemma_quotient(a, m, l1, config.fs);
    lemma_quotient(a, m, l2, sa.fs1(a));
    lemma_over_keeps_order(m.of(l1), block, m.of(order1), quarter, fs);
    lemma_over_keeps_order(m.of(l2), small, m.of(order2), quarter, fs1);
    lemma_window(a, m, config, n);
    let averaging = product(a, num(a, 3), config.invariance_s);
    assert(m.of(averaging) == 3real * t) by {
        reveal(faithful);
        assert(m.of(num(a, 3)) == 3real);
    }
    lemma_over_keeps_order((3real * t) * fs, block, 3real * t, quarter, fs);
    let edge = sa.edge(a);
    assert(edge == larger(a, larger(a, order1, order2), averaging));
    assert(m.of(order1) <= m.of(edge) && m.of(order2) <= m.of(edge) && m.of(averaging) <= m.of(
        edge,
    ) && m.of(edge) <= quarter) by {
        reveal(faithful);
    }
    assert forall|i: int| 0 <= i < sa.bank1.wavelets@.len() implies at_most(
        a,
        quotient(a, support(a, (#[trigger] sa.bank1.wavelets@[i]).sigma), config.fs),
        edge,
    ) by {
        let w = support(a, sa.bank1.wavelets@[i].sigma);
        assert(s1[i] == w);
        lemma_quotient(a, m, w, config.fs);
        lemma_over_keeps_order(
            m.of(w),
            m.of(l1),
            m.of(quotient(a, w, config.fs)),
            m.of(order1),
            fs,
        );
        reveal(faithful);
    }
    assert forall|i: int| 0 <= i < sa.bank2.wavelets@.len() implies at_most(
        a,
        quotient(a, support(a, (#[trigger] sa.bank2.wavelets@[i]).sigma), sa.fs1(a)),
        edge,
    ) by {
        let w = support(a, sa.bank2.wavelets@[i].sigma);
        assert(s2[i] == w);
        lemma_quotient(a, m, w, sa.fs1(a));
        lemma_over_keeps_order(
            m.of(w),
            m.of(l2),
            m.of(quotient(a, w, sa.fs1(a))),
            m.of(order2),
            fs1,
        );
        reveal(faithful);
    }
    let e = m.of(edge);
    assert(4real * e * fs <= n as real) by (nonlinear_arith)
        requires
            e <= quarter,
            quarter * fs == block,
            4real * block == n as real,
            fs > 0real,
    ;
    assert(at_most(a, averaging, edge) && at_most(
        a,
        edge,
        quotient(a, support_limit(a, n), config.fs),
    )) by {
        reveal(faithful);
    }
}

/// A window that fits is at most a twelfth of the block.
proof fn lemma_window<R: Copy, A: Arithmetic<R>>(
    a: &A,
    m: Meaning<R>,
    config: &Config<R>,
    n: usize,
)
    requires
        faithful(a, m),
        n >= 1,
        config.window_fits(a, n),
    ensures
        (3real * m.of(config.invariance_s)) * m.of(config.fs) <= m.of(support_limit(a, n)),
{
    lemma_quarter(a, m, n);
    reveal(faithful);
    let (t, fs) = (m.of(config.invariance_s), m.of(config.fs));
    let span = m.of(averaging_span(a, config.invariance_s, config.fs));
    assert(m.of(num(a, 3)) == 3real);
    assert(m.of(num(a, 4)) == 4real);
    assert(m.of(num(a, 1)) == 1real);
    assert(m.of(fraction(a, 1, 4)) == 1real / 4real);
    let x = (t * fs) * 3real;
    assert(span == x / (1real / 4real));
    let l = m.of(support_limit(a, n));
    assert((3real * t) * fs <= l) by (nonlinear_arith)
        requires
            span == x / (1real / 4real),
            x == (t * fs) * 3real,
            span <= n as real,
            4real * l == n as real,
    ;
}

/// The larger of two lengths goes to no shorter a power of two.
proof fn lemma_next_pow2_keeps_order(x: int, y: int)
    requires
        x <= y,
    ensures
        next_pow2(x) <= next_pow2(y),
{
    lemma_next_pow2(x);
    lemma_next_pow2(y);
    assert(power_of_two(next_pow2(y)));
}

/// A predicted block holds the averaging window it was predicted with, so no
/// analyser turns it down on that account.
pub proof fn law_predicted_block_holds_the_window<R: Copy, A: Arithmetic<R>>(
    a: &A,
    m: Meaning<R>,
    config: &Config<R>,
    min_mod_hz: R,
    n: usize,
)
    requires
        faithful(a, m),
        faithful_wholes(a, m),
        n == config.grown(a, min_mod_hz, config.first_length(a, min_mod_hz), 8),
    ensures
        power_of_two(n as int),
        config.window_fits(a, n),
{
    law_predicted_block_reaches_its_rate(a, config, min_mod_hz);
    let first = config.first_length(a, min_mod_hz);
    let d1 = config.sizing_step(a);
    let span = averaging_span(a, config.invariance_s, config.fs);
    let wavelet = product(
        a,
        quotient(a, lowest_centre(a, 1), config.target(a, min_mod_hz)),
        num(a, d1 as u64),
    );
    let longest = larger(a, wavelet, span);
    let up = ceiling(a, longest);
    let whole = a.whole_of(larger(a, up, num(a, 1)));
    lemma_next_pow2(whole as int);
    assert(whole <= first <= n);
    assert(m.of(span) <= m.of(longest) && m.of(up) <= m.of(larger(a, up, num(a, 1)))) by {
        reveal(faithful);
    }
    assert(a.whole_of(up) <= whole && (a.whole_of(up) == usize::MAX || m.of(longest)
        <= a.whole_of(up) as real)) by {
        reveal(faithful_wholes);
    }
    if a.whole_of(up) == usize::MAX {
        // No power of two is the largest number that can be counted.
        assert(n == usize::MAX);
        vstd::arithmetic::power2::lemma2_to64();
        assert(power_of_two(2)) by {
            assert(pow2(1) == 2);
        }
        lemma_divides(2, n as int);
        assert(usize::MAX % 2 == 1);
    }
    assert(m.of(span) <= n as real);
    reveal(faithful);
    assert(m.of(num(a, n as u64)) == n as real);
}

/// A slower rate calls for no shorter a first guess.
proof fn lemma_first_length<R: Copy, A: Arithmetic<R>>(
    a: &A,
    m: Meaning<R>,
    config: &Config<R>,
    slow: R,
    fast: R,
)
    requires
        faithful(a, m),
        faithful_wholes(a, m),
        m.of(config.fs) > 0real,
        0real < m.of(slow) <= m.of(fast),
    ensures
        config.first_length(a, fast) <= config.first_length(a, slow),
        m.of(config.target(a, slow)) <= m.of(config.target(a, fast)),
{
    let d1 = config.sizing_step(a);
    lemma_sizing_step_is_positive(a, config);
    let d = num(a, d1 as u64);
    let (fs, dv) = (m.of(config.fs), m.of(d));
    assert(dv >= 1real) by {
        reveal(faithful);
    }
    let rate = config.envelope_rate(a, d1);
    lemma_quotient(a, m, config.fs, d);
    let r = m.of(rate);
    assert(r > 0real) by (nonlinear_arith)
        requires
            r * dv == fs,
            fs > 0real,
            dv >= 1real,
    ;
    let (p, q) = (config.target(a, slow), config.target(a, fast));
    lemma_quotient(a, m, slow, rate);
    lemma_quotient(a, m, fast, rate);
    let (pv, qv) = (m.of(p), m.of(q));
    lemma_over_keeps_order(m.of(slow), m.of(fast), pv, qv, r);
    let sv = m.of(slow);
    assert(pv > 0real) by (nonlinear_arith)
        requires
            pv * r == sv,
            sv > 0real,
            r > 0real,
    ;
    let c = lowest_centre(a, 1);
    lemma_lowest_centre(a, m);
    lemma_quotient(a, m, c, p);
    lemma_quotient(a, m, c, q);
    let (cv, x, y) = (m.of(c), m.of(quotient(a, c, p)), m.of(quotient(a, c, q)));
    assert(y <= x) by (nonlinear_arith)
        requires
            x * pv == cv,
            y * qv == cv,
            cv >= 0real,
            0real < pv,
            pv <= qv,
    ;
    assert(y * dv <= x * dv) by (nonlinear_arith)
        requires
            y <= x,
            dv >= 1real,
    ;
    let (wp, wq) = (product(a, quotient(a, c, p), d), product(a, quotient(a, c, q), d));
    let span = averaging_span(a, config.invariance_s, config.fs);
    let (lp, lq) = (larger(a, wp, span), larger(a, wq, span));
    assert(m.of(lq) <= m.of(lp)) by {
        reveal(faithful);
    }
    assert(m.of(ceiling(a, lq)) <= m.of(ceiling(a, lp))) by {
        reveal(faithful_wholes);
    }
    let one = num(a, 1);
    let (up, uq) = (larger(a, ceiling(a, lp), one), larger(a, ceiling(a, lq), one));
    assert(m.of(uq) <= m.of(up)) by {
        reveal(faithful);
    }
    assert(a.whole_of(uq) <= a.whole_of(up)) by {
        reveal(faithful_wholes);
    }
    lemma_next_pow2_keeps_order(a.whole_of(uq) as int, a.whole_of(up) as int);
}

/// There is room for some centre frequency above zero.
proof fn lemma_lowest_centre<R, A: Arithmetic<R>>(a: &A, m: Meaning<R>)
    requires
        faithful(a, m),
    ensures
        m.of(lowest_centre(a, 1)) >= 0real,
{
    lemma_quarter(a, m, 1);
    reveal(faithful);
    let h = m.of(root(a, logarithm(a, num(a, 2))));
    assert(m.of(num(a, 2)) == 2real);
    assert(m.of(num(a, 6)) == 6real);
    assert(m.of(half_power_width(a)) == 2real * h);
    let t = m.of(turn(a));
    assert(t == 2real * m.of(a.circle_ratio()));
    let top = product(a, num(a, 6), half_power_width(a));
    assert(m.of(top) == 6real * (2real * h));
    lemma_quotient(a, m, top, turn(a));
    let c = quotient(a, top, turn(a));
    let (x, y) = (m.of(c), m.of(top));
    assert(x >= 0real) by (nonlinear_arith)
        requires
            x * t == y,
            y >= 0real,
            t > 0real,
    ;
    lemma_quotient(a, m, c, support_limit(a, 1));
    let (z, l) = (m.of(lowest_centre(a, 1)), m.of(support_limit(a, 1)));
    assert(z >= 0real) by (nonlinear_arith)
        requires
            z * l == x,
            x >= 0real,
            l > 0real,
    ;
}

/// Growing in steps from a larger power of two, towards a lower target, does not
/// end sooner, where what the faster rate has doubled, the slower has ahead of it.
proof fn lemma_grown_keeps_order<R: Copy, A: Arithmetic<R>>(
    a: &A,
    m: Meaning<R>,
    config: &Config<R>,
    slow: R,
    fast: R,
    p: int,
    q: int,
    tries: int,
    left: int,
)
    requires
        faithful(a, m),
        m.of(config.target(a, slow)) <= m.of(config.target(a, fast)),
        power_of_two(p),
        power_of_two(q),
        q <= p,
        0 <= left <= tries,
        q * pow2(left as nat) <= p * pow2(tries as nat),
    ensures
        config.grown(a, fast, q, left) <= config.grown(a, slow, p, tries),
    decreases left + tries,
{
    lemma_double(p);
    lemma_double(q);
    config.lemma_grown(a, slow, p, tries);
    if left == 0 || at_most(a, config.reached(a, q), config.target(a, fast)) {
        assert(config.grown(a, fast, q, left) == q);
    } else if p == q {
        let r = config.reached(a, p);
        assert(!at_most(a, r, config.target(a, slow))) by {
            reveal(faithful);
        }
        lemma_pow2_step(p, tries);
        lemma_pow2_step(q, left);
        lemma_grown_keeps_order(a, m, config, slow, fast, 2 * p, 2 * q, tries - 1, left - 1);
    } else {
        lemma_gap(q, p);
        lemma_pow2_step(q, left);
        lemma_grown_keeps_order(a, m, config, slow, fast, p, 2 * q, tries, left - 1);
    }
}

proof fn lemma_pow2_step(n: int, k: int)
    requires
        k > 0,
    ensures
        (2 * n) * pow2((k - 1) as nat) == n * pow2(k as nat),
{
    vstd::arithmetic::power2::lemma_pow2_unfold(k as nat);
    let p = pow2((k - 1) as nat);
    assert((2 * n) * p == n * (2 * p)) by (nonlinear_arith);
}

/// A slower rate never takes a shorter block.
pub proof fn law_slower_rates_take_no_shorter_blocks<R: Copy, A: Arithmetic<R>>(
    a: &A,
    m: Meaning<R>,
    config: &Config<R>,
    slow: R,
    fast: R,
)
    requires
        faithful(a, m),
        faithful_wholes(a, m),
        m.of(config.fs) > 0real,
        0real < m.of(slow) <= m.of(fast),
    ensures
        config.grown(a, fast, config.first_length(a, fast), 8) <= config.grown(
            a,
            slow,
            config.first_length(a, slow),
            8,
        ),
{
    lemma_first_length(a, m, config, slow, fast);
    let (p, q) = (config.first_length(a, slow), config.first_length(a, fast));
    lemma_first_length_is_power(a, config, slow);
    lemma_first_length_is_power(a, config, fast);
    vstd::arithmetic::power2::lemma_pow2_pos(8);
    let k = pow2(8) as int;
    assert(q * k <= p * k) by (nonlinear_arith)
        requires
            q <= p,
            k > 0,
    ;
    lemma_grown_keeps_order(a, m, config, slow, fast, p, q, 8, 8);
}

} // verus!
