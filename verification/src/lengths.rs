//! How long a block a modulation rate takes, and no longer.

use vstd::prelude::*;

use crate::arithmetic::{ceiling, fraction, larger, num, product, quotient, Arithmetic};
use crate::fft::whole_limit;
use crate::filterbank::{bandwidth_of, lowest_centre, min_xi_for_length, narrowest};
use crate::laws::{
    law_predicted_block_reaches_its_rate, lemma_first_length_is_power, lemma_has_factor,
    lemma_sizing_step_is_positive,
};
use crate::planes::{lemma_exchange, lemma_group};
use crate::powers::{
    lemma_divides, lemma_double, lemma_next_pow2, lemma_one, next_pow2, power_of_two,
};
use crate::reals::{
    faithful, faithful_ceilings, faithful_wholes, lemma_fraction_value, lemma_quotient, Meaning,
};
use crate::sizing::{
    asks_for, faithful_counts, law_one_doubling_reaches_the_rate, lemma_bandwidth,
    lemma_some_bandwidth,
};
use crate::tiling::faithful_powers;
use crate::transform::{averaging_span, Config};

verus! {

/// Whether a block of `p` samples is too short for a modulation rate, going by what it
/// has to hold: a sample of the envelopes, which are decimated by `step`; four times the
/// longest filter that the rate takes, where `c` is the lowest centre frequency that one
/// sample would do for; and four times the span of the averaging kernel, which is three
/// times the averaging scale.
pub open spec fn too_short<R>(
    m: Meaning<R>,
    config: &Config<R>,
    c: R,
    min_mod_hz: R,
    step: int,
    p: int,
) -> bool {
    ||| p < 1
    ||| p < step
    ||| (p as real) * m.of(min_mod_hz) < m.of(c) * m.of(config.fs)
    ||| (p as real) < 12real * (m.of(config.invariance_s) * m.of(config.fs))
}

/// A predicted block is long enough, and not longer than it takes: one of a quarter of
/// the length would be too short to hold what it has to, if the rate is one that the
/// second order is asked for. It is a power of two, and it is decimated as far as
/// leaves the highest rate at a quarter of the rate of the envelopes, and no further.
pub proof fn law_predicted_block_is_as_long_as_it_takes<R: Copy, A: Arithmetic<R>>(
    a: &A,
    m: Meaning<R>,
    config: &Config<R>,
    c: R,
    min_mod_hz: R,
    r: Option<usize>,
) -> (step: int)
    requires
        faithful(a, m),
        faithful_powers(a, m),
        faithful_wholes(a, m),
        faithful_ceilings(a, m),
        m.of(config.fs) > 0real,
        m.of(config.max_mod_hz) > 0real,
        m.of(config.invariance_s) >= 0real,
        m.of(min_mod_hz) > 0real,
        call_ensures(min_xi_for_length::<R, A>, (a, 1usize), c),
        call_ensures(Config::<R>::block_len_for::<A>, (config, a, min_mod_hz), r),
    ensures
        power_of_two(step),
        step == 1 || 4real * (m.of(config.max_mod_hz) * (step as real)) <= m.of(config.fs),
        r matches Some(n) ==> {
            &&& power_of_two(n as int)
            &&& !too_short(m, config, c, min_mod_hz, step, n as int)
            &&& too_short(m, config, c, min_mod_hz, step, n as int / 512)
            &&& faithful_counts(a, m) && asks_for(a, m, config, min_mod_hz) ==> too_short(
                m,
                config,
                c,
                min_mod_hz,
                step,
                n as int / 4,
            )
        },
        faithful_counts(a, m) && asks_for(a, m, config, min_mod_hz) ==> r is Some,
{
    let step = config.sizing_step(a);
    let first = config.first_length(a, min_mod_hz);
    lemma_step(a, m, config);
    lemma_first_length_is_power(a, config, min_mod_hz);
    lemma_double(first);
    law_predicted_block_reaches_its_rate(a, config, min_mod_hz);
    lemma_most(a, config, min_mod_hz, first, 8);
    lemma_first(a, m, config, min_mod_hz);
    if faithful_counts(a, m) && asks_for(a, m, config, min_mod_hz) {
        law_one_doubling_reaches_the_rate(a, m, config, min_mod_hz);
    }
    match r {
        Some(n) => {
            lemma_longer(m, config, c, min_mod_hz, step, first, n as int);
            lemma_shorter(m, config, c, min_mod_hz, step, first / 2, n as int / 512);
            if n <= 2 * first {
                lemma_shorter(m, config, c, min_mod_hz, step, first / 2, n as int / 4);
            }
        },
        None => {},
    }
    step
}

/// What is longer than one that is long enough is long enough.
proof fn lemma_longer<R>(
    m: Meaning<R>,
    config: &Config<R>,
    c: R,
    min_mod_hz: R,
    step: int,
    p: int,
    q: int,
)
    requires
        m.of(min_mod_hz) > 0real,
        !too_short(m, config, c, min_mod_hz, step, p),
        p <= q,
    ensures
        !too_short(m, config, c, min_mod_hz, step, q),
{
    let (x, y, h) = (p as real, q as real, m.of(min_mod_hz));
    assert(x <= y);
    assert(x * h <= y * h) by (nonlinear_arith)
        requires
            x <= y,
            h > 0real,
    ;
}

/// What is shorter than one that is too short is too short.
proof fn lemma_shorter<R>(
    m: Meaning<R>,
    config: &Config<R>,
    c: R,
    min_mod_hz: R,
    step: int,
    p: int,
    q: int,
)
    requires
        m.of(min_mod_hz) > 0real,
        too_short(m, config, c, min_mod_hz, step, p),
        q <= p,
    ensures
        too_short(m, config, c, min_mod_hz, step, q),
{
    if !too_short(m, config, c, min_mod_hz, step, q) {
        lemma_longer(m, config, c, min_mod_hz, step, q, p);
    }
}

/// Eight doublings at most.
proof fn lemma_most<R: Copy, A: Arithmetic<R>>(
    a: &A,
    config: &Config<R>,
    min_mod_hz: R,
    n: int,
    tries: nat,
)
    requires
        n >= 0,
        tries <= 8,
    ensures
        config.grown(a, min_mod_hz, n, tries as int) <= n * vstd::arithmetic::power2::pow2(tries),
        config.grown(a, min_mod_hz, n, tries as int) <= 256 * n,
    decreases tries,
{
    vstd::arithmetic::power2::lemma2_to64();
    let p = vstd::arithmetic::power2::pow2(tries);
    assert(p >= 1 && p <= 256) by {
        vstd::arithmetic::power2::lemma_pow2_pos(tries);
        if tries < 8 {
            vstd::arithmetic::power2::lemma_pow2_strictly_increases(tries, 8);
        }
    }
    assert(n <= n * p && n * p <= 256 * n) by (nonlinear_arith)
        requires
            n >= 0,
            1 <= p <= 256,
    ;
    if tries > 0 {
        let less = (tries - 1) as nat;
        lemma_most(a, config, min_mod_hz, 2 * n, less);
        vstd::arithmetic::power2::lemma_pow2_unfold(tries);
        let q = vstd::arithmetic::power2::pow2(less);
        assert((2 * n) * q == n * (2 * q)) by (nonlinear_arith);
    }
}

/// How far envelopes are decimated.
proof fn lemma_step<R: Copy, A: Arithmetic<R>>(a: &A, m: Meaning<R>, config: &Config<R>)
    requires
        faithful(a, m),
        faithful_ceilings(a, m),
        m.of(config.fs) > 0real,
        m.of(config.max_mod_hz) > 0real,
    ensures
        power_of_two(config.sizing_step(a)),
        1 <= config.sizing_step(a) <= 0x4000_0000,
        config.sizing_step(a) == 1 || 4real * (m.of(config.max_mod_hz) * (config.sizing_step(a)
            as real)) <= m.of(config.fs),
{
    lemma_sizing_step_is_positive(a, config);
    let step = config.sizing_step(a);
    let top = product(a, fraction(a, 1, 4), config.fs);
    let limit = quotient(a, top, config.max_mod_hz);
    lemma_one();
    lemma_has_factor(whole_limit(a, limit), 0x4000_0000, 1);
    if step != 1 {
        lemma_quotient(a, m, top, config.max_mod_hz);
        lemma_fraction_value(a, m, 1, 4);
        let (f, q, t, l, k) = (
            m.of(config.fs),
            m.of(fraction(a, 1, 4)),
            m.of(top),
            m.of(limit),
            m.of(config.max_mod_hz),
        );
        assert(t == q * f && m.of(num(a, 1)) == 1real) by {
            reveal(faithful);
        }
        assert(l >= 1real && step as real <= l) by {
            reveal(faithful);
            reveal(faithful_ceilings);
            assert(m.of(num(a, 1)) == 1real);
        }
        let s = step as real;
        assert(k * s <= l * k) by (nonlinear_arith)
            requires
                s <= l,
                k > 0real,
        ;
        assert(4real * (q * f) == f) by (nonlinear_arith)
            requires
                q * 4real == 1real,
        ;
    }
}

/// The first guess holds what it has to, and half of it does not.
proof fn lemma_first<R: Copy, A: Arithmetic<R>>(
    a: &A,
    m: Meaning<R>,
    config: &Config<R>,
    min_mod_hz: R,
)
    requires
        faithful(a, m),
        faithful_powers(a, m),
        faithful_wholes(a, m),
        faithful_ceilings(a, m),
        m.of(config.fs) > 0real,
        m.of(config.max_mod_hz) > 0real,
        m.of(config.invariance_s) >= 0real,
        m.of(min_mod_hz) > 0real,
    ensures
        ({
            let (c, step) = (lowest_centre(a, 1), config.sizing_step(a));
            let first = config.first_length(a, min_mod_hz);
            &&& first <= usize::MAX ==> !too_short(m, config, c, min_mod_hz, step, first)
            &&& too_short(m, config, c, min_mod_hz, step, first / 2)
        }),
{
    let (c, step) = (lowest_centre(a, 1), config.sizing_step(a));
    let first = config.first_length(a, min_mod_hz);
    lemma_step(a, m, config);
    lemma_wavelet(a, m, config, min_mod_hz);
    lemma_span(a, m, config);
    let (t, f) = (m.of(config.invariance_s), m.of(config.fs));
    assert(t * f >= 0real) by (nonlinear_arith)
        requires
            t >= 0real,
            f > 0real,
    ;
    lemma_one();
    let d = num(a, step as u64);
    let wavelet = product(a, quotient(a, c, config.target(a, min_mod_hz)), d);
    let span = averaging_span(a, config.invariance_s, config.fs);
    let longest = larger(a, wavelet, span);
    let up = ceiling(a, longest);
    let most = larger(a, up, num(a, 1));
    let whole = a.whole_of(most) as int;
    lemma_next_pow2(whole);
    let length = next_pow2(whole);
    let (w, s, l) = (m.of(wavelet), m.of(span), m.of(longest));
    assert(l == (if w >= s {
        w
    } else {
        s
    }) && m.of(num(a, 1)) == 1real && m.of(up) <= m.of(most) && (m.of(up) >= 1real ==> m.of(most)
        == m.of(up)) && (m.of(up) < 1real ==> m.of(most) == 1real)) by {
        reveal(faithful);
        assert(m.of(num(a, 1)) == 1real);
    }
    assert(a.whole_of(up) <= whole && (a.whole_of(up) == usize::MAX || l <= a.whole_of(up) as real)
        && (m.of(up) >= 1real ==> whole == a.whole_of(up)) && (m.of(up) < 1real ==> whole
        <= 1)) by {
        reveal(faithful_wholes);
        reveal(faithful_ceilings);
    }
    assert((a.whole_of(up) as real) < l + 1real) by {
        reveal(faithful_ceilings);
    }
    let hz = m.of(min_mod_hz);
    let target = m.of(c) * m.of(config.fs);
    if first <= usize::MAX {
        if length == usize::MAX as int {
            lemma_double(1);
            lemma_divides(2, length);
            assert(usize::MAX as int % 2 == 1);
        }
        assert(length <= first);
        assert(whole < usize::MAX);
        let f = first as real;
        assert(w <= f && s <= f);
        assert(w * hz <= f * hz) by (nonlinear_arith)
            requires
                w <= f,
                hz > 0real,
        ;
    }
    if first == length && first >= 2 {
        lemma_double(1);
        lemma_divides(2, first);
        let half = first / 2;
        if half >= whole {
            assert(power_of_two(half));
            assert(next_pow2(whole) <= half);
        }
        let h = half as real;
        assert(h < l);
        if w >= s {
            assert(h * hz < w * hz) by (nonlinear_arith)
                requires
                    h < w,
                    hz > 0real,
            ;
        }
    }
}

/// The span of the averaging kernel, times four.
pub proof fn lemma_span<R: Copy, A: Arithmetic<R>>(a: &A, m: Meaning<R>, config: &Config<R>)
    requires
        faithful(a, m),
    ensures
        m.of(averaging_span(a, config.invariance_s, config.fs)) == 12real * (m.of(
            config.invariance_s,
        ) * m.of(config.fs)),
{
    let (t, f) = (m.of(config.invariance_s), m.of(config.fs));
    let scale = product(a, config.invariance_s, config.fs);
    let span = product(a, scale, num(a, 3));
    let quarter = fraction(a, 1, 4);
    lemma_fraction_value(a, m, 1, 4);
    let q = m.of(quarter);
    assert(q > 0real) by (nonlinear_arith)
        requires
            q * 4real == 1real,
    ;
    lemma_quotient(a, m, span, quarter);
    assert(m.of(scale) == t * f && m.of(span) == (t * f) * 3real) by {
        reveal(faithful);
        assert(m.of(num(a, 3)) == 3real);
    }
    let (r, x) = (m.of(quotient(a, span, quarter)), t * f);
    assert(r == 12real * x) by (nonlinear_arith)
        requires
            r * q == x * 3real,
            q * 4real == 1real,
    ;
}

/// The length of the longest filter, times four.
proof fn lemma_wavelet<R: Copy, A: Arithmetic<R>>(
    a: &A,
    m: Meaning<R>,
    config: &Config<R>,
    min_mod_hz: R,
)
    requires
        faithful(a, m),
        faithful_powers(a, m),
        faithful_ceilings(a, m),
        m.of(config.fs) > 0real,
        m.of(config.max_mod_hz) > 0real,
        m.of(min_mod_hz) > 0real,
    ensures
        ({
            let (c, step) = (lowest_centre(a, 1), config.sizing_step(a));
            let wavelet = product(
                a,
                quotient(a, c, config.target(a, min_mod_hz)),
                num(a, step as u64),
            );
            &&& m.of(wavelet) * m.of(min_mod_hz) == m.of(c) * m.of(config.fs)
            &&& m.of(wavelet) >= 0real
        }),
{
    lemma_step(a, m, config);
    let (c, step) = (lowest_centre(a, 1), config.sizing_step(a));
    let d = num(a, step as u64);
    let s = step as real;
    assert(m.of(d) == s) by {
        reveal(faithful);
    }
    let rate = quotient(a, config.fs, d);
    lemma_quotient(a, m, config.fs, d);
    let (f, v, hz) = (m.of(config.fs), m.of(rate), m.of(min_mod_hz));
    assert(v > 0real) by (nonlinear_arith)
        requires
            v * s == f,
            f > 0real,
            s >= 1real,
    ;
    let target = config.target(a, min_mod_hz);
    lemma_quotient(a, m, min_mod_hz, rate);
    let x = m.of(target);
    assert(x > 0real) by (nonlinear_arith)
        requires
            x * v == hz,
            v > 0real,
            hz > 0real,
    ;
    lemma_quotient(a, m, c, target);
    let (q, k) = (m.of(quotient(a, c, target)), m.of(c));
    lemma_bandwidth(a, m, 1);
    lemma_some_bandwidth(a, m, 1);
    let b = m.of(bandwidth_of(a, narrowest(a, 1)));
    assert(b * 1real == b) by (nonlinear_arith);
    assert(k > 0real);
    let wavelet = product(a, quotient(a, c, target), d);
    assert(m.of(wavelet) == q * s) by {
        reveal(faithful);
    }
    // q s hz = q s x v = (q x) (v s) = k f.
    lemma_group(q * s, x, v);
    lemma_exchange(q, s, x);
    lemma_group(q * x, s, v);
    assert(s * v == v * s) by (nonlinear_arith);
    assert(q > 0real) by (nonlinear_arith)
        requires
            q * x == k,
            k > 0real,
            x > 0real,
    ;
    assert(q * s >= 0real) by (nonlinear_arith)
        requires
            q > 0real,
            s >= 1real,
    ;
}

/// Whether two configurations ask for the same of the second order, at the same sample
/// rate and averaging scale.
pub open spec fn asks_alike<R>(x: &Config<R>, y: &Config<R>) -> bool {
    &&& x.fs == y.fs
    &&& x.max_mod_hz == y.max_mod_hz
    &&& x.invariance_s == y.invariance_s
    &&& x.q2 == y.q2
    &&& x.octaves2 == y.octaves2
}

/// The length of a block is a matter of the second order and of averaging alone: it does
/// not depend on the kind of input, on the first-order bank, or on how bands are
/// extracted.
pub proof fn law_block_length_ignores_the_first_order<R: Copy, A: Arithmetic<R>>(
    a: &A,
    x: &Config<R>,
    y: &Config<R>,
    min_mod_hz: R,
    r: Option<usize>,
    s: Option<usize>,
)
    requires
        asks_alike(x, y),
        call_ensures(Config::<R>::block_len_for::<A>, (x, a, min_mod_hz), r),
        call_ensures(Config::<R>::block_len_for::<A>, (y, a, min_mod_hz), s),
    ensures
        r == s,
{
    lemma_alike(a, x, y, min_mod_hz, x.first_length(a, min_mod_hz), 8);
}

proof fn lemma_alike<R: Copy, A: Arithmetic<R>>(
    a: &A,
    x: &Config<R>,
    y: &Config<R>,
    min_mod_hz: R,
    n: int,
    tries: int,
)
    requires
        asks_alike(x, y),
    ensures
        x.first_length(a, min_mod_hz) == y.first_length(a, min_mod_hz),
        x.grown(a, min_mod_hz, n, tries) == y.grown(a, min_mod_hz, n, tries),
    decreases tries,
{
    assert(x.sizing_step(a) == y.sizing_step(a));
    assert(x.target(a, min_mod_hz) == y.target(a, min_mod_hz));
    assert(x.modulation_spec(a, x.sizing_step(a)) == y.modulation_spec(a, y.sizing_step(a)));
    assert(x.reached(a, n) == y.reached(a, n));
    if !(tries <= 0) {
        lemma_alike(a, x, y, min_mod_hz, 2 * n, tries - 1);
    }
}

} // verus!
