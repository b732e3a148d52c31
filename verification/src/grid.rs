//! What quantisation does to a value: moves it to the nearest level, or clips it.

use vstd::arithmetic::power2::pow2;
use vstd::prelude::*;

use crate::arithmetic::{below, difference, negative, num, quotient, rounded, Arithmetic};
use crate::complex::Complex;
use crate::planes::lemma_same;
use crate::reals::{faithful, lemma_quotient, Meaning};
use crate::synth::{clamped, level_count, quantise, quantised};

verus! {

/// A whole number.
pub open spec fn whole(k: int) -> real {
    k as real
}

/// Whether a value is a whole number.
pub open spec fn is_whole(x: real) -> bool {
    exists|k: int| x == #[trigger] whole(k)
}

/// Whether rounding goes to a nearest whole number, and negation to the other side of
/// zero.
#[verifier::opaque]
pub open spec fn faithful_rounding<R, A: Arithmetic<R>>(a: &A, m: Meaning<R>) -> bool {
    &&& forall|x: R| #[trigger] m.of(negative(a, x)) == -m.of(x)
    &&& forall|x: R| is_whole(#[trigger] m.of(rounded(a, x)))
    &&& forall|x: R|
        {
            &&& 2real * (#[trigger] m.of(rounded(a, x)) - m.of(x)) <= 1real
            &&& 2real * (m.of(x) - m.of(rounded(a, x))) <= 1real
        }
}

/// The distance between two levels of a grid.
pub open spec fn level_step<R, A: Arithmetic<R>>(a: &A, bits: u32, full_scale: R) -> R {
    quotient(a, full_scale, num(a, level_count(bits)))
}

/// The level that a value goes to, counted from zero.
pub open spec fn code<R, A: Arithmetic<R>>(a: &A, v: R, bits: u32, full_scale: R) -> R {
    let levels = num(a, level_count(bits));
    clamped(
        a,
        rounded(a, quotient(a, v, level_step(a, bits, full_scale))),
        negative(a, levels),
        difference(a, levels, num(a, 1)),
    )
}

proof fn lemma_levels(bits: u32)
    requires
        1 <= bits <= 63,
    ensures
        level_count(bits) >= 1,
{
    let s = (bits - 1) as u64;
    assert(1u64 << s >= 1u64) by (bit_vector)
        requires
            s <= 62,
    ;
}

proof fn lemma_level_step<R, A: Arithmetic<R>>(
    a: &A,
    m: Meaning<R>,
    bits: u32,
    full_scale: R,
)
    requires
        faithful(a, m),
        1 <= bits <= 63,
        m.of(full_scale) > 0real,
    ensures
        level_count(bits) >= 1,
        m.of(num(a, level_count(bits))) == level_count(bits) as real,
        m.of(level_step(a, bits, full_scale)) > 0real,
        m.of(level_step(a, bits, full_scale)) * (level_count(bits) as real) == m.of(full_scale),
{
    lemma_levels(bits);
    assert(m.of(num(a, level_count(bits))) == level_count(bits) as real) by {
        reveal(faithful);
    }
    lemma_quotient(a, m, full_scale, num(a, level_count(bits)));
    let (s, l, f) = (
        m.of(level_step(a, bits, full_scale)),
        level_count(bits) as real,
        m.of(full_scale),
    );
    assert(s > 0real) by (nonlinear_arith)
        requires
            s * l == f,
            f > 0real,
            l >= 1real,
    ;
}

/// Which level a value goes to: a whole number within the range, the nearest if that
/// is in range, and the nearer end if not.
proof fn lemma_code<R, A: Arithmetic<R>>(
    a: &A,
    m: Meaning<R>,
    v: R,
    bits: u32,
    full_scale: R,
) -> (k: int)
    requires
        faithful(a, m),
        faithful_rounding(a, m),
        1 <= bits <= 63,
        m.of(full_scale) > 0real,
    ensures
        m.of(code(a, v, bits, full_scale)) == k as real,
        -level_count(bits) <= k <= level_count(bits) - 1,
        ({
            let x = m.of(quotient(a, v, level_step(a, bits, full_scale)));
            let l = level_count(bits) as real;
            &&& x >= l - 1real ==> k == level_count(bits) - 1
            &&& x <= -l ==> k == -level_count(bits)
            &&& -l <= x <= l - 1real ==> 2real * (k as real - x) <= 1real && 2real * (x
                - k as real) <= 1real
        }),
{
    lemma_level_step(a, m, bits, full_scale);
    let levels = num(a, level_count(bits));
    let q = quotient(a, v, level_step(a, bits, full_scale));
    let near = rounded(a, q);
    let (lo, hi) = (negative(a, levels), difference(a, levels, num(a, 1)));
    let l = level_count(bits) as int;
    assert(m.of(lo) == -(l as real) && m.of(hi) == l as real - 1real) by {
        reveal(faithful);
        reveal(faithful_rounding);
        assert(m.of(num(a, 1)) == 1real);
    }
    let (x, r) = (m.of(q), m.of(near));
    assert(is_whole(r) && 2real * (r - x) <= 1real && 2real * (x - r) <= 1real) by {
        reveal(faithful_rounding);
    }
    let n = choose|n: int| r == #[trigger] whole(n);
    assert(below(a, near, lo) == (r < -(l as real)) && below(a, hi, near) == (l as real - 1real
        < r) && below(a, hi, lo) == (l as real - 1real < -(l as real))) by {
        reveal(faithful);
    }
    let k = if n < -l {
        -l
    } else if n > l - 1 {
        l - 1
    } else {
        n
    };
    assert((l - 1) as real == l as real - 1real);
    assert((-l) as real == -(l as real));
    k
}

/// Quantisation goes to the nearest level: a quantised value is a whole number of
/// steps, from minus full scale to one step short of full scale; a value in that
/// range moves by half a step at most, and any other goes to the nearer end.
pub proof fn law_quantisation_goes_to_the_nearest_level<R, A: Arithmetic<R>>(
    a: &A,
    m: Meaning<R>,
    v: R,
    bits: u32,
    full_scale: R,
)
    requires
        faithful(a, m),
        faithful_rounding(a, m),
        1 <= bits <= 63,
        m.of(full_scale) > 0real,
    ensures
        ({
            let (x, y) = (m.of(v), m.of(quantised(a, v, bits, full_scale)));
            let (top, step) = (m.of(full_scale), m.of(level_step(a, bits, full_scale)));
            &&& exists|k: int|
                -level_count(bits) <= k <= level_count(bits) - 1 && y == #[trigger] whole(k)
                    * step
            &&& -top <= y <= top - step
            &&& x >= top - step ==> y == top - step
            &&& x <= -top ==> y == -top
            &&& -top <= x <= top - step ==> 2real * (y - x) <= step && 2real * (x - y) <= step
        }),
{
    let k = lemma_code(a, m, v, bits, full_scale);
    lemma_level_step(a, m, bits, full_scale);
    let step = level_step(a, bits, full_scale);
    lemma_quotient(a, m, v, step);
    let (x, y, s) = (m.of(v), m.of(quantised(a, v, bits, full_scale)), m.of(step));
    let (q, l, c) = (m.of(quotient(a, v, step)), level_count(bits) as real, k as real);
    assert(y == whole(k) * s) by {
        reveal(faithful);
    }
    // Levels and values, both in steps.
    let top = m.of(full_scale);
    assert(l * s == s * l && (l - 1real) * s == s * l - s && (-l) * s == -(s * l))
        by (nonlinear_arith);
    lemma_steps(-l, c, s);
    lemma_steps(c, l - 1real, s);
    if x >= top - s {
        lemma_in_steps(l - 1real, q, s);
    }
    if x <= -top {
        lemma_in_steps(q, -l, s);
    }
    if -top <= x <= top - s {
        lemma_in_steps(-l, q, s);
        lemma_in_steps(q, l - 1real, s);
        lemma_steps(2real * (c - q), 1real, s);
        lemma_steps(2real * (q - c), 1real, s);
        assert((2real * (c - q)) * s == 2real * (c * s - q * s)) by (nonlinear_arith);
        assert((2real * (q - c)) * s == 2real * (q * s - c * s)) by (nonlinear_arith);
        assert(1real * s == s) by (nonlinear_arith);
    }
}

/// What is at most another is so in steps.
proof fn lemma_steps(x: real, y: real, s: real)
    requires
        s > 0real,
        x <= y,
    ensures
        x * s <= y * s,
{
    assert(x * s <= y * s) by (nonlinear_arith)
        requires
            s > 0real,
            x <= y,
    ;
}

proof fn lemma_in_steps(x: real, y: real, s: real)
    requires
        s > 0real,
        x * s <= y * s,
    ensures
        x <= y,
{
    if x > y {
        assert(x * s > y * s) by (nonlinear_arith)
            requires
                x > y,
                s > 0real,
        ;
    }
}

/// Quantising again changes nothing.
pub proof fn law_quantising_twice_is_quantising_once<R, A: Arithmetic<R>>(
    a: &A,
    m: Meaning<R>,
    v: R,
    bits: u32,
    full_scale: R,
)
    requires
        faithful(a, m),
        faithful_rounding(a, m),
        1 <= bits <= 63,
        m.of(full_scale) > 0real,
    ensures
        m.of(quantised(a, quantised(a, v, bits, full_scale), bits, full_scale)) == m.of(
            quantised(a, v, bits, full_scale),
        ),
{
    let once = quantised(a, v, bits, full_scale);
    let k = lemma_code(a, m, v, bits, full_scale);
    let l = lemma_code(a, m, once, bits, full_scale);
    lemma_level_step(a, m, bits, full_scale);
    let step = level_step(a, bits, full_scale);
    lemma_quotient(a, m, once, step);
    let (q, s) = (m.of(quotient(a, once, step)), m.of(step));
    assert(m.of(once) == (k as real) * s && m.of(quantised(a, once, bits, full_scale)) == (
    l as real) * s) by {
        reveal(faithful);
    }
    lemma_same(s, q, k as real);
    // Two whole numbers no more than a half apart are one.
    assert(k == l);
}

/// Whether `y` is the level nearest to `x`, of those from minus full scale to one step
/// short of it.
pub open spec fn is_nearest_level(x: real, y: real, top: real, step: real) -> bool {
    &&& exists|k: int| y == #[trigger] whole(k) * step
    &&& -top <= y <= top - step
    &&& x >= top - step ==> y == top - step
    &&& x <= -top ==> y == -top
    &&& -top <= x <= top - step ==> 2real * (y - x) <= step && 2real * (x - y) <= step
}

/// Quantising a block takes both parts of every sample to the nearest level of a grid
/// that has two to the power of the number of bits of them, half below zero.
pub proof fn law_blocks_are_quantised_part_by_part<R: Copy, A: Arithmetic<R>>(
    a: &A,
    m: Meaning<R>,
    x: &mut Vec<Complex<R>>,
    bits: u32,
    full_scale: R,
    i: int,
) -> (step: real)
    requires
        faithful(a, m),
        faithful_rounding(a, m),
        1 <= bits <= 63,
        m.of(full_scale) > 0real,
        call_ensures(quantise::<R, A>, (a, x, bits, full_scale), ()),
        0 <= i < old(x)@.len(),
    ensures
        final(x)@.len() == old(x)@.len(),
        2real * m.of(full_scale) == step * (pow2(bits as nat) as real),
        is_nearest_level(
            m.of(old(x)@[i].re),
            m.of(final(x)@[i].re),
            m.of(full_scale),
            step,
        ),
        is_nearest_level(
            m.of(old(x)@[i].im),
            m.of(final(x)@[i].im),
            m.of(full_scale),
            step,
        ),
{
    let step = level_step(a, bits, full_scale);
    let (s, top, n) = (m.of(step), m.of(full_scale), level_count(bits));
    law_quantisation_goes_to_the_nearest_level(a, m, old(x)@[i].re, bits, full_scale);
    law_quantisation_goes_to_the_nearest_level(a, m, old(x)@[i].im, bits, full_scale);
    lemma_levels(bits);
    let levels = num(a, n);
    assert(m.of(levels) == n as real) by {
        reveal(faithful);
    }
    lemma_quotient(a, m, full_scale, levels);
    let k = (bits - 1) as nat;
    vstd::arithmetic::power2::lemma_pow2_unfold(bits as nat);
    lemma_shifted(bits);
    let (l, p) = (n as real, pow2(bits as nat) as real);
    assert(p == 2real * l);
    assert(s * (2real * l) == 2real * (s * l)) by (nonlinear_arith);
    s
}

/// A bit shifted is a power of two.
proof fn lemma_shifted(bits: u32)
    requires
        1 <= bits <= 63,
    ensures
        level_count(bits) == pow2((bits - 1) as nat),
{
    let s = (bits - 1) as u64;
    vstd::arithmetic::power2::lemma2_to64();
    vstd::arithmetic::power2::lemma2_to64_rest();
    vstd::arithmetic::power2::lemma_pow2_strictly_increases(s as nat, 63);
    vstd::bits::lemma_u64_shl_is_mul(1, s);
}

} // verus!
