//! How good the first guess at a block length is: within one doubling.

use vstd::prelude::*;

use crate::arithmetic::{
    at_most, ceiling, difference, larger, logarithm, negative, num, power, product, quotient,
    root, sum, turn, Arithmetic,
};
use crate::distance::lemma_cancel;
use crate::filterbank::{
    bandwidth_of, half_power_width, lowest_centre, narrowest, support_limit, BankSpec,
};
use crate::laws::{
    law_first_guess_ignores_sharpness, law_predicted_block_is_honest, lemma_first_length_is_power,
    lemma_sizing_step_is_positive, lemma_stops,
};
use crate::planes::{lemma_exchange, lemma_group, lemma_same};
use crate::powers::{lemma_divides, lemma_double, lemma_next_pow2};
use crate::reals::{
    faithful, faithful_wholes, lemma_quarter, lemma_quotient, lemma_wider_is_shorter, Meaning,
};
use crate::tiling::{faithful_powers, lemma_step, step};
use crate::transform::{averaging_span, Config, Geometry};

verus! {

/// Whether the whole part of a value falls short of it by less than one, where it
/// can be counted.
#[verifier::opaque]
pub open spec fn faithful_counts<R, A: Arithmetic<R>>(a: &A, m: Meaning<R>) -> bool {
    forall|x: R|
        m.of(x) >= 0real && #[trigger] a.whole_of(x) < usize::MAX ==> m.of(x) < a.whole_of(x)
            as real + 1real
}

/// The bandwidth of the narrowest filter, times the length of the block.
pub proof fn lemma_bandwidth<R, A: Arithmetic<R>>(a: &A, m: Meaning<R>, n: usize)
    requires
        faithful(a, m),
        n >= 1,
    ensures
        m.of(bandwidth_of(a, narrowest(a, n))) * (n as real) == m.of(lowest_centre(a, 1)),
{
    lemma_quarter(a, m, n);
    lemma_quarter(a, m, 1);
    lemma_wider_is_shorter(a, m, n, narrowest(a, n));
    let h = half_power_width::<R, A>(a);
    let top = product(a, num(a, 6), h);
    let c = quotient(a, top, turn(a));
    let (t, l, l1, hv) = (
        m.of(turn(a)),
        m.of(support_limit(a, n)),
        m.of(support_limit(a, 1)),
        m.of(h),
    );
    assert(t > 0real) by {
        reveal(faithful);
        assert(m.of(num(a, 2)) == 2real);
        assert(t == 2real * m.of(a.circle_ratio()));
    }
    assert(m.of(num(a, 6)) == 6real && m.of(top) == 6real * hv) by {
        reveal(faithful);
        assert(m.of(num(a, 6)) == 6real);
    }
    assert(m.of(product(a, turn(a), support_limit(a, n))) == t * l && m.of(
        bandwidth_of(a, narrowest(a, n)),
    ) == m.of(narrowest(a, n)) * hv) by {
        reveal(faithful);
    }
    let u = t * l;
    assert(u > 0real) by (nonlinear_arith)
        requires
            u == t * l,
            t > 0real,
            l > 0real,
    ;
    lemma_quotient(a, m, num(a, 6), product(a, turn(a), support_limit(a, n)));
    lemma_quotient(a, m, top, turn(a));
    lemma_quotient(a, m, c, support_limit(a, 1));
    let (s, z, k) = (m.of(narrowest(a, n)), m.of(lowest_centre(a, 1)), m.of(c));
    // s t l = 6 and k t = 6 h, where 4 l = n and z = 4 k.
    let r = n as real;
    assert(z == 4real * k) by (nonlinear_arith)
        requires
            z * l1 == k,
            4real * l1 == 1real,
    ;
    assert(r == 4real * l);
    let tl = t * l;
    assert(t * (4real * l) == 4real * (t * l)) by (nonlinear_arith);
    assert(s * (4real * tl) == 4real * (s * tl)) by (nonlinear_arith);
    assert(s * (t * r) == 24real);
    let b = s * hv;
    lemma_exchange(s, hv, r);
    lemma_exchange(s * r, hv, t);
    lemma_group(s, r, t);
    assert(r * t == t * r) by (nonlinear_arith);
    assert((4real * k) * t == 4real * (k * t)) by (nonlinear_arith);
    lemma_same(t, b * r, z);
}

/// A bank goes down to a target, if its floor is at most half of that, and so is a
/// step below its elbow.
proof fn lemma_bottom<R: Copy, A: Arithmetic<R>>(
    a: &A,
    m: Meaning<R>,
    spec: &BankSpec<R>,
    sigma_min: R,
    target: real,
)
    requires
        faithful(a, m),
        faithful_powers(a, m),
        faithful_counts(a, m),
        spec.density(a) >= 1,
        spec.requested(a) >= 1,
        0real < target <= m.of(spec.xi_max),
        2real * m.of(spec.centre(a, (spec.requested(a) - 1) as usize)) <= target,
        m.of(bandwidth_of(a, sigma_min)) > 0real,
        2real * m.of(bandwidth_of(a, sigma_min)) <= target,
        spec.pinned(a, sigma_min) < usize::MAX,
    ensures
        spec.filters(a, sigma_min).len() > 0,
        m.of(spec.filters(a, sigma_min).last().0) <= target,
{
    let some = lemma_stops(a, spec, sigma_min, 0);
    let k = spec.proportional(a, sigma_min);
    assert(spec.stops_at(a, sigma_min, k));
    let filters = spec.filters(a, sigma_min);
    let (floor, start) = (spec.floor(a, sigma_min), spec.centre(a, k));
    let b = bandwidth_of(a, sigma_min);
    assert(2real * m.of(floor) <= target) by {
        reveal(faithful);
    }
    if k == spec.requested(a) {
        assert(filters.last() == spec.filter(a, sigma_min, k - 1));
        lemma_step(a, m, spec, (k - 1) as usize);
    } else if at_most(a, floor, start) {
        let steps = quotient(a, difference(a, start, floor), b);
        let more = sum(a, steps, num(a, 1));
        let count = spec.pinned(a, sigma_min);
        assert(count == a.whole_of(more));
        lemma_quotient(a, m, difference(a, start, floor), b);
        let (x, y, s, f) = (m.of(steps), m.of(b), m.of(start), m.of(floor));
        assert(x * y == s - f && s >= f && m.of(more) == x + 1real) by {
            reveal(faithful);
            assert(m.of(num(a, 1)) == 1real);
        }
        assert(x >= 0real) by (nonlinear_arith)
            requires
                x * y >= 0real,
                y > 0real,
        ;
        assert(x + 1real < count as real + 1real) by {
            reveal(faithful_counts);
        }
        assert(count >= 1);
        assert(filters.last() == spec.filter(a, sigma_min, k + count - 1));
        let down = (count - 1) as u64;
        let d = down as real;
        assert(m.of(filters.last().0) == s - d * y) by {
            reveal(faithful);
        }
        assert(d == count as real - 1real);
        assert(d * y > (x - 1real) * y) by (nonlinear_arith)
            requires
                d > x - 1real,
                y > 0real,
        ;
        assert((x - 1real) * y == x * y - y) by (nonlinear_arith);
    } else {
        assert(m.of(start) < m.of(floor)) by {
            reveal(faithful);
        }
        if k == 0 {
            lemma_top(a, m, spec);
        } else {
            lemma_step(a, m, spec, (k - 1) as usize);
            assert(filters.last() == spec.filter(a, sigma_min, k - 1));
            let (c, p) = (m.of(spec.centre(a, (k - 1) as usize)), m.of(step(a, spec)));
            assert(c <= 2real * (c * p)) by (nonlinear_arith)
                requires
                    c > 0real,
                    2real * p >= 1real,
            ;
        }
    }
}

/// The top centre frequency is not far from the highest.
proof fn lemma_top<R: Copy, A: Arithmetic<R>>(a: &A, m: Meaning<R>, spec: &BankSpec<R>)
    requires
        faithful(a, m),
        faithful_powers(a, m),
        spec.density(a) >= 1,
        m.of(spec.xi_max) > 0real,
    ensures
        2real * m.of(spec.centre(a, 0)) >= m.of(spec.xi_max),
{
    let n = num(a, spec.density(a) as u64);
    let x = quotient(a, negative(a, num(a, 0)), n);
    assert(m.of(n) >= 1real && m.of(negative(a, num(a, 0))) == 0real) by {
        reveal(faithful);
        reveal(faithful_powers);
        assert(m.of(num(a, 0)) == 0real);
    }
    lemma_quotient(a, m, negative(a, num(a, 0)), n);
    let (v, k) = (m.of(x), m.of(n));
    assert(0real * k == 0real) by (nonlinear_arith);
    lemma_same(k, v, 0real);
    let (t, p) = (m.of(spec.xi_max), m.of(power(a, num(a, 2), x)));
    assert(2real * p >= 1real) by {
        reveal(faithful_powers);
    }
    assert(m.of(spec.centre(a, 0)) == t * p) by {
        reveal(faithful);
    }
    assert(2real * (t * p) >= t) by (nonlinear_arith)
        requires
            t > 0real,
            2real * p >= 1real,
    ;
}

/// Twice the first guess has room for filters of half the target.
proof fn lemma_room<R: Copy, A: Arithmetic<R>>(
    a: &A,
    m: Meaning<R>,
    config: &Config<R>,
    min_mod_hz: R,
)
    requires
        faithful(a, m),
        faithful_powers(a, m),
        faithful_wholes(a, m),
        m.of(config.target(a, min_mod_hz)) > 0real,
        2 * config.first_length(a, min_mod_hz) <= usize::MAX,
    ensures
        ({
            let n1 = (2 * config.first_length(a, min_mod_hz)) / config.sizing_step(a);
            let b = m.of(bandwidth_of(a, narrowest(a, n1 as usize)));
            &&& 1 <= n1 <= usize::MAX
            &&& b > 0real
            &&& 2real * b <= m.of(config.target(a, min_mod_hz))
        }),
{
    let first = config.first_length(a, min_mod_hz);
    let d1 = config.sizing_step(a);
    lemma_sizing_step_is_positive(a, config);
    lemma_first_length_is_power(a, config, min_mod_hz);
    lemma_double(first);
    let n = 2 * first;
    lemma_divides(d1, n);
    let n1 = n / d1;
    assert(1 <= n1 <= n) by (nonlinear_arith)
        requires
            n == d1 * n1,
            d1 >= 1,
            n >= 1,
    ;
    let target = config.target(a, min_mod_hz);
    let c = lowest_centre(a, 1);
    let wavelet = product(a, quotient(a, c, target), num(a, d1 as u64));
    let span = averaging_span(a, config.invariance_s, config.fs);
    let longest = larger(a, wavelet, span);
    let up = ceiling(a, longest);
    let whole = a.whole_of(larger(a, up, num(a, 1)));
    lemma_next_pow2(whole as int);
    assert(whole <= first);
    let dr = d1 as real;
    assert(m.of(wavelet) <= m.of(longest) && m.of(up) <= m.of(larger(a, up, num(a, 1))) && m.of(
        wavelet,
    ) == m.of(quotient(a, c, target)) * dr) by {
        reveal(faithful);
    }
    assert(a.whole_of(up) <= whole && (a.whole_of(up) == usize::MAX || m.of(longest)
        <= a.whole_of(up) as real)) by {
        reveal(faithful_wholes);
    }
    assert(m.of(wavelet) <= first as real);
    lemma_quotient(a, m, c, target);
    lemma_bandwidth(a, m, n1 as usize);
    let (cv, t, q, b, r, f) = (
        m.of(c),
        m.of(target),
        m.of(quotient(a, c, target)),
        m.of(bandwidth_of(a, narrowest(a, n1 as usize))),
        n1 as real,
        first as real,
    );
    lemma_some_bandwidth(a, m, n1 as usize);
    assert(2real * f == r * dr) by (nonlinear_arith)
        requires
            2 * first == d1 * n1,
            f == first as real,
            r == n1 as real,
            dr == d1 as real,
    ;
    // b r = c = q t, and q d <= f = r d / 2.
    let rd = r * dr;
    assert((q * dr) * t == (q * t) * dr) by (nonlinear_arith);
    let qd = q * dr;
    assert(qd * t <= f * t) by (nonlinear_arith)
        requires
            qd <= f,
            t > 0real,
    ;
    assert((b * r) * dr == b * (r * dr)) by (nonlinear_arith);
    assert(rd * t == (2real * f) * t);
    assert((2real * f) * t == 2real * (f * t)) by (nonlinear_arith);
    assert(2real * (b * rd) == rd * (2real * b)) by (nonlinear_arith);
    assert(rd > 0real) by (nonlinear_arith)
        requires
            rd == r * dr,
            r >= 1real,
            dr >= 1real,
    ;
    lemma_cancel(rd, 2real * b, t);
}

/// The narrowest filter has some bandwidth.
pub proof fn lemma_some_bandwidth<R, A: Arithmetic<R>>(a: &A, m: Meaning<R>, n: usize)
    requires
        faithful(a, m),
        faithful_powers(a, m),
        n >= 1,
    ensures
        m.of(bandwidth_of(a, narrowest(a, n))) > 0real,
{
    lemma_wider_is_shorter(a, m, n, narrowest(a, n));
    let two = num(a, 2);
    let l = logarithm(a, two);
    assert(m.of(two) == 2real && m.of(root(a, l)) >= 0real) by {
        reveal(faithful);
    }
    assert(m.of(l) > 0real && m.of(root(a, l)) * m.of(root(a, l)) == m.of(l)) by {
        reveal(faithful_powers);
    }
    let (h, s) = (m.of(root(a, l)), m.of(narrowest(a, n)));
    if h == 0real {
        assert(h * h == 0real) by (nonlinear_arith)
            requires
                h == 0real,
        ;
    }
    assert(m.of(bandwidth_of(a, narrowest(a, n))) == s * (2real * h)) by {
        reveal(faithful);
    }
    assert(s * (2real * h) > 0real) by (nonlinear_arith)
        requires
            s > 0real,
            h > 0real,
    ;
}

/// Whether the second order is asked to go down to `min_mod_hz`: that is at most the
/// highest rate it is asked for and at least twice the lowest, there is a filter to
/// an octave at least, and neither blocks nor filters run out of numbers.
pub open spec fn asks_for<R: Copy, A: Arithmetic<R>>(
    a: &A,
    m: Meaning<R>,
    config: &Config<R>,
    min_mod_hz: R,
) -> bool {
    let spec = config.modulation_spec(a, config.sizing_step(a));
    let target = m.of(config.target(a, min_mod_hz));
    let n = 2 * config.first_length(a, min_mod_hz);
    &&& 0real < target <= m.of(spec.xi_max)
    &&& spec.density(a) >= 1
    &&& spec.requested(a) >= 1
    &&& 2real * m.of(spec.centre(a, (spec.requested(a) - 1) as usize)) <= target
    &&& n <= usize::MAX
    &&& spec.pinned(a, narrowest(a, (n / config.sizing_step(a)) as usize)) < usize::MAX
}

/// A predicted block reaches its rate, and takes at most one doubling of the first
/// guess to do so.
pub proof fn law_one_doubling_reaches_the_rate<R: Copy, A: Arithmetic<R>>(
    a: &A,
    m: Meaning<R>,
    config: &Config<R>,
    min_mod_hz: R,
)
    requires
        faithful(a, m),
        faithful_powers(a, m),
        faithful_wholes(a, m),
        faithful_counts(a, m),
        asks_for(a, m, config, min_mod_hz),
    ensures
        ({
            let first = config.first_length(a, min_mod_hz);
            let n = config.grown(a, min_mod_hz, first, 8);
            &&& first <= n <= 2 * first
            &&& at_most(a, config.reached(a, n), config.target(a, min_mod_hz))
        }),
{
    let first = config.first_length(a, min_mod_hz);
    let target = config.target(a, min_mod_hz);
    lemma_first_length_is_power(a, config, min_mod_hz);
    lemma_double(first);
    if !at_most(a, config.reached(a, first), target) {
        let d1 = config.sizing_step(a);
        let spec = config.modulation_spec(a, d1);
        let n = 2 * first;
        lemma_room(a, m, config, min_mod_hz);
        let sigma = narrowest(a, (n / d1) as usize);
        lemma_bottom(a, m, &spec, sigma, m.of(target));
        assert(at_most(a, config.reached(a, n), target)) by {
            reveal(faithful);
        }
        assert(config.grown(a, min_mod_hz, n, 7) == n);
        assert(config.grown(a, min_mod_hz, first, 8) == config.grown(a, min_mod_hz, n, 7));
    }
}

/// A predicted block is honest: an analyser for blocks of that length has a modulation
/// filter at the rate it was predicted for or below.
///
/// Left out are blocks of over a thousand million samples whose envelopes are decimated
/// as far as that, which would be decimated further still.
pub proof fn law_predicted_block_covers_its_rate<R: Copy, A: Arithmetic<R>>(
    a: &A,
    m: Meaning<R>,
    config: &Config<R>,
    min_mod_hz: R,
    n: usize,
    sa: &Geometry<R>,
)
    requires
        faithful(a, m),
        faithful_powers(a, m),
        faithful_wholes(a, m),
        faithful_counts(a, m),
        asks_for(a, m, config, min_mod_hz),
        n == config.grown(a, min_mod_hz, config.first_length(a, min_mod_hz), 8),
        config.sizing_step(a) < 0x4000_0000 || n <= 0x4000_0000,
        sa.realises(a, config, n),
        sa.bank2.wavelets@.len() > 0,
    ensures
        exists|i: int|
            0 <= i < sa.bank2.wavelets@.len() && at_most(
                a,
                #[trigger] sa.bank2.frequencies()[i],
                config.target(a, min_mod_hz),
            ),
{
    law_one_doubling_reaches_the_rate(a, m, config, min_mod_hz);
    law_predicted_block_is_honest(a, config, min_mod_hz, n, sa);
    lemma_first_length_is_power(a, config, min_mod_hz);
    lemma_double(config.first_length(a, min_mod_hz));
}

/// Block length does not scale with how sharp the second order is: between two
/// sharpnesses that go down to a rate, it differs by one doubling at most.
pub proof fn law_block_length_ignores_sharpness<R: Copy, A: Arithmetic<R>>(
    a: &A,
    m: Meaning<R>,
    config: &Config<R>,
    q2: R,
    min_mod_hz: R,
)
    requires
        faithful(a, m),
        faithful_powers(a, m),
        faithful_wholes(a, m),
        faithful_counts(a, m),
        asks_for(a, m, config, min_mod_hz),
        asks_for(a, m, &(Config { q2, ..*config }), min_mod_hz),
    ensures
        ({
            let sharp = Config { q2, ..*config };
            let n = config.grown(a, min_mod_hz, config.first_length(a, min_mod_hz), 8);
            let p = sharp.grown(a, min_mod_hz, sharp.first_length(a, min_mod_hz), 8);
            p <= 2 * n && n <= 2 * p
        }),
{
    let sharp = Config { q2, ..*config };
    law_one_doubling_reaches_the_rate(a, m, config, min_mod_hz);
    law_one_doubling_reaches_the_rate(a, m, &sharp, min_mod_hz);
    law_first_guess_ignores_sharpness(a, config, q2, min_mod_hz);
}

} // verus!
