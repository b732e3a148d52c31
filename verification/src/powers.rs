//! Powers of two: the only lengths a grid is ever given.

use vstd::arithmetic::div_mod::{lemma_div_multiples_vanish, lemma_mod_multiples_basic};
use vstd::arithmetic::power2::{
    lemma_pow2_adds, lemma_pow2_pos, lemma_pow2_strictly_increases, lemma_pow2_unfold, pow2,
};
use vstd::prelude::*;

verus! {

/// Whether `n` is a power of two.
pub open spec fn power_of_two(n: int) -> bool {
    exists|k: nat| n == #[trigger] pow2(k)
}

/// The smallest power of two that is at least `x`.
pub open spec fn next_pow2(x: int) -> int
    decreases x,
{
    if x <= 1 {
        1
    } else {
        2 * next_pow2((x + 1) / 2)
    }
}

/// One is a power of two.
pub proof fn lemma_one()
    ensures
        power_of_two(1),
        pow2(0) == 1,
{
    reveal(pow2);
    assert(pow2(0) == 1) by {
        vstd::arithmetic::power2::lemma2_to64();
    }
}

/// Twice a power of two is one again.
pub proof fn lemma_double(n: int)
    requires
        power_of_two(n),
    ensures
        power_of_two(2 * n),
        n >= 1,
{
    let k = choose|k: nat| n == #[trigger] pow2(k);
    lemma_pow2_unfold(k + 1);
    lemma_pow2_pos(k);
    assert(2 * n == pow2(k + 1));
}

/// Of two powers of two the smaller divides the larger, and the quotient is a
/// power of two.
pub proof fn lemma_divides(small: int, large: int)
    requires
        power_of_two(small),
        power_of_two(large),
        small <= large,
    ensures
        small >= 1,
        large % small == 0,
        power_of_two(large / small),
        small * (large / small) == large,
        1 <= large / small <= large,
{
    let i = choose|k: nat| small == #[trigger] pow2(k);
    let j = choose|k: nat| large == #[trigger] pow2(k);
    lemma_pow2_pos(i);
    if j < i {
        lemma_pow2_strictly_increases(j, i);
    }
    let q = pow2((j - i) as nat) as int;
    lemma_pow2_adds(i, (j - i) as nat);
    assert(large == small * q);
    lemma_mod_multiples_basic(q, small);
    lemma_div_multiples_vanish(q, small);
    assert(q * small == small * q) by (nonlinear_arith);
    lemma_pow2_pos((j - i) as nat);
    assert(power_of_two(q));
    assert(q <= small * q) by (nonlinear_arith)
        requires
            small >= 1,
            q >= 1,
    ;
}

/// A power of two below another is at most half of it.
pub proof fn lemma_gap(small: int, large: int)
    requires
        power_of_two(small),
        power_of_two(large),
        small < large,
    ensures
        2 * small <= large,
{
    lemma_divides(small, large);
    let q = large / small;
    assert(q >= 2) by (nonlinear_arith)
        requires
            small * q == large,
            small < large,
            small >= 1,
    ;
    assert(small * q >= 2 * small) by (nonlinear_arith)
        requires
            q >= 2,
            small >= 1,
    ;
}

/// `next_pow2(x)` is a power of two, is at least `x`, and is the smallest such.
pub proof fn lemma_next_pow2(x: int)
    ensures
        power_of_two(next_pow2(x)),
        next_pow2(x) >= x,
        next_pow2(x) >= 1,
        forall|p: int| #[trigger] power_of_two(p) && p >= x ==> next_pow2(x) <= p,
    decreases x,
{
    lemma_one();
    if x <= 1 {
        assert forall|p: int| #[trigger] power_of_two(p) && p >= x implies 1 <= p by {
            lemma_double(p);
        }
    } else {
        let h = (x + 1) / 2;
        lemma_next_pow2(h);
        lemma_double(next_pow2(h));
        assert forall|p: int| #[trigger] power_of_two(p) && p >= x implies 2 * next_pow2(h)
            <= p by {
            lemma_double(p);
            lemma_double(1);
            lemma_gap(1, p);
            lemma_divides(2, p);
            assert(p == 2 * (p / 2));
            assert(p / 2 >= h);
        }
    }
}

/// Whether `n` is a power of two.
pub fn is_power_of_two(n: usize) -> (r: bool)
    ensures
        r == power_of_two(n as int),
{
    proof {
        lemma_one();
    }
    if n == 0 {
        proof {
            if power_of_two(0) {
                lemma_double(0);
            }
        }
        return false;
    }
    let mut m: usize = n;
    while m % 2 == 0
        invariant
            1 <= m <= n,
            power_of_two(m as int) == power_of_two(n as int),
        decreases m,
    {
        proof {
            assert(m == 2 * (m as int / 2));
            if power_of_two(m as int) {
                lemma_one();
                lemma_double(1);
                lemma_divides(2, m as int);
            }
            if power_of_two(m as int / 2) {
                lemma_double(m as int / 2);
            }
        }
        m = m / 2;
    }
    proof {
        if m > 1 && power_of_two(m as int) {
            lemma_double(1);
            lemma_gap(1, m as int);
            lemma_divides(2, m as int);
        }
    }
    m == 1
}

/// The smallest power of two that is at least `x`, if the machine has one.
pub fn next_power_of_two(x: usize) -> (r: Option<usize>)
    ensures
        match r {
            Some(p) => p == next_pow2(x as int),
            None => next_pow2(x as int) > usize::MAX,
        },
{
    let mut p: usize = 1;
    proof {
        lemma_one();
        lemma_next_pow2(x as int);
    }
    while p < x
        invariant
            p >= 1,
            power_of_two(p as int),
            p <= next_pow2(x as int),
            power_of_two(next_pow2(x as int)),
            next_pow2(x as int) >= x,
        decreases usize::MAX - p,
    {
        proof {
            lemma_gap(p as int, next_pow2(x as int));
            lemma_double(p as int);
        }
        if p > usize::MAX / 2 {
            return None;
        }
        p = 2 * p;
    }
    proof {
        lemma_next_pow2(x as int);
    }
    Some(p)
}

} // verus!
