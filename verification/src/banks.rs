//! Where the filters of a bank lie, as the real numbers that they stand for.

use vstd::prelude::*;

use crate::arithmetic::{
    at_most, below, difference, fraction, larger, largest, magnitude, negative, num, power, product,
    quotient, rounded, smallest, sum, turn, Arithmetic,
};
use crate::distance::summed;
use crate::filterbank::{
    bandwidth_of, count_below, lowpass, min_xi_for_length, mirrored, narrowest, powers,
    sigma_min_for_length, sigma_to_bw, support, BankSpec, FilterBank, Wavelet,
};
use crate::grid::{faithful_rounding, is_whole, whole};
use crate::laws::lemma_stops;
use crate::planes::lemma_same;
use crate::reals::{faithful, faithful_ceilings, faithful_magnitudes, lemma_quotient, size, Meaning};
use crate::resolution::{faithful_minima, lemma_smallest, lemma_sorted};
use crate::sizing::{faithful_counts, lemma_some_bandwidth};
use crate::tiling::{faithful_powers, lemma_step, step};

verus! {

/// Whether two to the power of one is two.
#[verifier::opaque]
pub open spec fn faithful_octaves<R, A: Arithmetic<R>>(a: &A, m: Meaning<R>) -> bool {
    forall|x: R| m.of(x) == 1real ==> #[trigger] m.of(power(a, num(a, 2), x)) == 2real
}

// Centre frequencies.

/// A value rounded, counted.
proof fn lemma_counted<R, A: Arithmetic<R>>(a: &A, m: Meaning<R>, x: R)
    requires
        faithful_rounding(a, m),
        faithful_ceilings(a, m),
        faithful_counts(a, m),
        m.of(x) >= 0real,
        m.of(x) + 1real < usize::MAX as real,
    ensures
        2real * (a.whole_of(rounded(a, x)) as real - m.of(x)) <= 1real,
        2real * (m.of(x) - a.whole_of(rounded(a, x)) as real) <= 1real,
        a.whole_of(rounded(a, x)) as real == m.of(rounded(a, x)),
{
    let r = rounded(a, x);
    assert(is_whole(m.of(r)) && 2real * (m.of(r) - m.of(x)) <= 1real && 2real * (m.of(x) - m.of(r))
        <= 1real) by {
        reveal(faithful_rounding);
    }
    let k = choose|k: int| m.of(r) == #[trigger] whole(k);
    assert(k >= 0) by {
        if k <= -1 {
            assert(k as real <= -1real);
        }
    }
    let w = a.whole_of(r);
    assert(w as real <= m.of(r)) by {
        reveal(faithful_ceilings);
    }
    assert(m.of(r) < w as real + 1real) by {
        reveal(faithful_counts);
    }
    assert(w <= k < w + 1);
}

/// Two to the power of nothing is one, and of minus one a half.
proof fn lemma_octave<R, A: Arithmetic<R>>(a: &A, m: Meaning<R>, x: R, y: R)
    requires
        faithful(a, m),
        faithful_powers(a, m),
        faithful_octaves(a, m),
        m.of(x) == 0real,
        m.of(y) == -1real,
    ensures
        m.of(power(a, num(a, 2), x)) == 1real,
        2real * m.of(power(a, num(a, 2), y)) == 1real,
{
    let one = num(a, 1);
    let (p, q, r) = (
        m.of(power(a, num(a, 2), x)),
        m.of(power(a, num(a, 2), y)),
        m.of(power(a, num(a, 2), one)),
    );
    assert(m.of(one) == 1real) by {
        reveal(faithful);
    }
    assert(p > 0real && p == p * p && p == q * r) by {
        reveal(faithful_powers);
    }
    assert(r == 2real) by {
        reveal(faithful_octaves);
    }
    assert(1real * p == p) by (nonlinear_arith);
    lemma_same(p, p, 1real);
}

/// Centre frequencies go down from the highest in geometric spacing, as many to an octave
/// as the quality factor comes to, rounded, and to as many octaves as are asked for: what
/// lies an octave further down the list is half as high.
pub proof fn law_centre_frequencies_halve_every_octave<R: Copy, A: Arithmetic<R>>(
    a: &A,
    m: Meaning<R>,
    spec: &BankSpec<R>,
    xs: Vec<R>,
) -> (density: int)
    requires
        faithful(a, m),
        faithful_powers(a, m),
        faithful_octaves(a, m),
        faithful_rounding(a, m),
        faithful_ceilings(a, m),
        faithful_counts(a, m),
        m.of(spec.xi_max) > 0real,
        m.of(spec.octaves) >= 0real,
        size(m.of(spec.q)) + 2real < usize::MAX as real,
        m.of(spec.octaves) * (size(m.of(spec.q)) + 2real) + 1real < usize::MAX as real,
        call_ensures(BankSpec::<R>::centre_frequencies::<A>, (spec, a), xs),
    ensures
        density >= 1,
        m.of(spec.q) >= 1real ==> 2real * size(density as real - m.of(spec.q)) <= 1real,
        m.of(spec.q) < 1real ==> density == 1,
        2real * size(xs@.len() as real - m.of(spec.octaves) * (density as real)) <= 1real,
        xs@.len() > 0 ==> m.of(xs@[0]) == m.of(spec.xi_max),
        forall|j: int| 0 <= j < xs@.len() ==> m.of(#[trigger] xs@[j]) > 0real,
        forall|j: int, k: int|
            0 <= j < k < xs@.len() ==> m.of(#[trigger] xs@[k]) < m.of(#[trigger] xs@[j]),
        forall|j: int, k: int|
            0 <= j < xs@.len() && k == j + density && k < xs@.len() ==> 2real * m.of(
                #[trigger] xs@[k],
            ) == m.of(#[trigger] xs@[j]),
        forall|j: int, k: int|
            0 <= j < xs@.len() - 1 && 0 <= k < xs@.len() - 1 ==> m.of(#[trigger] xs@[j]) * m.of(
                xs@[k + 1],
            ) == m.of(#[trigger] xs@[k]) * m.of(xs@[j + 1]),
{
    let most = larger(a, spec.q, num(a, 1));
    let (q, o) = (m.of(spec.q), m.of(spec.octaves));
    assert(m.of(most) == (if q >= 1real {
        q
    } else {
        1real
    })) by {
        reveal(faithful);
        assert(m.of(num(a, 1)) == 1real);
    }
    lemma_counted(a, m, most);
    let density = spec.density(a);
    let d = density as real;
    if q < 1real {
        assert(2real * (d - 1real) <= 1real && 2real * (1real - d) <= 1real);
        assert(density == 1) by {
            if density >= 2 {
                assert(d >= 2real);
            }
            if density == 0 {
                assert(d == 0real);
            }
        }
    }
    assert(density >= 1) by {
        if density == 0 {
            assert(d == 0real);
        }
    }
    let n = num(a, density as u64);
    let all = product(a, spec.octaves, n);
    assert(m.of(n) == d && m.of(all) == o * d) by {
        reveal(faithful);
    }
    assert(o * d >= 0real) by (nonlinear_arith)
        requires
            o >= 0real,
            d >= 1real,
    ;
    let top = size(q) + 2real;
    assert(o * d <= o * top) by (nonlinear_arith)
        requires
            o >= 0real,
            d <= top,
    ;
    lemma_counted(a, m, all);
    let count = spec.requested(a);
    assert(xs@.len() == count);
    assert forall|j: int| 0 <= j < count implies m.of(#[trigger] xs@[j]) > 0real by {
        lemma_step(a, m, spec, j as usize);
    }
    if count > 0 {
        let x = quotient(a, negative(a, num(a, 0)), n);
        let z = num(a, 0);
        assert(m.of(z) == 0real && m.of(negative(a, z)) == 0real) by {
            reveal(faithful);
            reveal(faithful_powers);
        }
        lemma_quotient(a, m, negative(a, z), n);
        assert(0real * d == 0real) by (nonlinear_arith);
        lemma_same(d, m.of(x), 0real);
        let y = negative(a, num(a, 1));
        assert(m.of(y) == -1real) by {
            reveal(faithful);
            reveal(faithful_powers);
            assert(m.of(num(a, 1)) == 1real);
        }
        lemma_octave(a, m, x, y);
        let t = m.of(spec.xi_max);
        assert(t * 1real == t) by (nonlinear_arith);
        assert(xs@[0] == spec.centre(a, 0));
        assert(m.of(xs@[0]) == t * m.of(power(a, num(a, 2), x))) by {
            reveal(faithful);
        }
    }
    assert forall|j: int, k: int| 0 <= j < k < count implies m.of(#[trigger] xs@[k]) < m.of(
        #[trigger] xs@[j],
    ) by {
        lemma_down(a, m, spec, j, k);
    }
    assert forall|j: int, k: int|
        0 <= j < count && k == j + density && k < count implies 2real * m.of(#[trigger] xs@[k])
        == m.of(#[trigger] xs@[j]) by {
        lemma_half(a, m, spec, j as usize, k as usize);
    }
    assert forall|j: int, k: int| 0 <= j < count - 1 && 0 <= k < count - 1 implies m.of(
        #[trigger] xs@[j],
    ) * m.of(xs@[k + 1]) == m.of(#[trigger] xs@[k]) * m.of(xs@[j + 1]) by {
        lemma_step(a, m, spec, j as usize);
        lemma_step(a, m, spec, k as usize);
        let (u, v, s) = (m.of(xs@[j]), m.of(xs@[k]), m.of(step(a, spec)));
        assert(u * (v * s) == v * (u * s)) by (nonlinear_arith);
    }
    density as int
}

proof fn lemma_down<R: Copy, A: Arithmetic<R>>(
    a: &A,
    m: Meaning<R>,
    spec: &BankSpec<R>,
    j: int,
    k: int,
)
    requires
        faithful(a, m),
        faithful_powers(a, m),
        spec.density(a) >= 1,
        m.of(spec.xi_max) > 0real,
        0 <= j < k < usize::MAX,
    ensures
        m.of(spec.centre(a, k as usize)) < m.of(spec.centre(a, j as usize)),
    decreases k - j,
{
    lemma_step(a, m, spec, (k - 1) as usize);
    let (x, s) = (m.of(spec.centre(a, (k - 1) as usize)), m.of(step(a, spec)));
    assert(x * s < x) by (nonlinear_arith)
        requires
            x > 0real,
            s < 1real,
    ;
    if j < k - 1 {
        lemma_down(a, m, spec, j, k - 1);
    }
}

proof fn lemma_half<R: Copy, A: Arithmetic<R>>(
    a: &A,
    m: Meaning<R>,
    spec: &BankSpec<R>,
    j: usize,
    k: usize,
)
    requires
        faithful(a, m),
        faithful_powers(a, m),
        faithful_octaves(a, m),
        spec.density(a) >= 1,
        k == j + spec.density(a),
    ensures
        2real * m.of(spec.centre(a, k)) == m.of(spec.centre(a, j)),
{
    let n = num(a, spec.density(a) as u64);
    let (x, y) = (
        quotient(a, negative(a, num(a, j as u64)), n),
        quotient(a, negative(a, num(a, k as u64)), n),
    );
    let d = spec.density(a) as real;
    assert(m.of(n) == d && m.of(negative(a, num(a, j as u64))) == -(j as real) && m.of(
        negative(a, num(a, k as u64)),
    ) == -(k as real)) by {
        reveal(faithful);
        reveal(faithful_powers);
    }
    lemma_quotient(a, m, negative(a, num(a, j as u64)), n);
    lemma_quotient(a, m, negative(a, num(a, k as u64)), n);
    let (p, q) = (m.of(x), m.of(y));
    assert((p - 1real) * d == p * d - d) by (nonlinear_arith);
    lemma_same(d, q, p - 1real);
    let down = negative(a, num(a, 1));
    let zero = num(a, 0);
    assert(m.of(down) == -1real && m.of(zero) == 0real) by {
        reveal(faithful);
        reveal(faithful_powers);
        assert(m.of(num(a, 1)) == 1real);
    }
    lemma_octave(a, m, zero, down);
    let two = num(a, 2);
    let (u, v, h, t) = (
        m.of(power(a, two, x)),
        m.of(power(a, two, y)),
        m.of(power(a, two, down)),
        m.of(spec.xi_max),
    );
    assert(v == u * h) by {
        reveal(faithful_powers);
    }
    assert(2real * v == u) by (nonlinear_arith)
        requires
            v == u * h,
            2real * h == 1real,
    ;
    assert(m.of(spec.centre(a, j)) == t * u && m.of(spec.centre(a, k)) == t * v) by {
        reveal(faithful);
    }
    assert(2real * (t * v) == t * (2real * v)) by (nonlinear_arith);
}

// Plans.

/// A plan follows the centre frequencies as far down as their widths fit; from the first
/// that would be narrower than `sigma_min`, filters of that width step down by one
/// bandwidth `bw` each, for as long as they stay at or above the lowest centre frequency
/// asked for and one bandwidth.
pub proof fn law_plan_follows_the_centres<R: Copy, A: Arithmetic<R>>(
    a: &A,
    m: Meaning<R>,
    spec: &BankSpec<R>,
    sigma_min: R,
    xs: Vec<R>,
    bw: R,
    plan: Vec<(R, R)>,
) -> (k: int)
    requires
        faithful(a, m),
        faithful_ceilings(a, m),
        faithful_counts(a, m),
        call_ensures(BankSpec::<R>::centre_frequencies::<A>, (spec, a), xs),
        call_ensures(sigma_to_bw::<R, A>, (a, sigma_min), bw),
        m.of(bw) > 0real,
        call_ensures(BankSpec::<R>::plan::<A>, (spec, a, sigma_min), plan),
        plan@.len() < usize::MAX,
    ensures
        0 <= k <= xs@.len(),
        k <= plan@.len(),
        forall|i: int|
            0 <= i < k ==> {
                &&& (#[trigger] plan@[i]).0 == xs@[i]
                &&& m.of(sigma_min) <= m.of(plan@[i].1)
                &&& forall|s: R| #[trigger]
                    call_ensures(BankSpec::<R>::sigma_for::<A>, (spec, a, xs@[i]), s)
                        ==> plan@[i].1 == s
            },
        forall|s: R|
            k < xs@.len() && #[trigger] call_ensures(
                BankSpec::<R>::sigma_for::<A>,
                (spec, a, xs@[k]),
                s,
            ) ==> m.of(s) < m.of(sigma_min),
        k == xs@.len() ==> plan@.len() == k,
        forall|i: int|
            k <= i < plan@.len() ==> (#[trigger] plan@[i]).1 == sigma_min && m.of(plan@[i].0)
                == m.of(xs@[k]) - ((i - k) as real) * m.of(bw),
        k < xs@.len() ==> {
            let low = if m.of(bw) >= m.of(xs@.last()) {
                m.of(bw)
            } else {
                m.of(xs@.last())
            };
            if plan@.len() > k {
                low <= m.of(plan@.last().0) < low + m.of(bw)
            } else {
                m.of(xs@[k]) < low
            }
        },
{
    let some = lemma_stops(a, spec, sigma_min, 0);
    let k = spec.proportional(a, sigma_min);
    assert(spec.stops_at(a, sigma_min, k));
    let b = bandwidth_of(a, sigma_min);
    assert(b == bw);
    assert forall|i: int| 0 <= i < k implies {
        &&& (#[trigger] plan@[i]).0 == xs@[i]
        &&& m.of(sigma_min) <= m.of(plan@[i].1)
        &&& forall|s: R| #[trigger]
            call_ensures(BankSpec::<R>::sigma_for::<A>, (spec, a, xs@[i]), s) ==> plan@[i].1 == s
    } by {
        assert(plan@[i] == spec.filter(a, sigma_min, i));
        assert(spec.fits(a, sigma_min, i as usize));
        reveal(faithful);
    }
    if k < spec.requested(a) {
        assert(!spec.fits(a, sigma_min, k));
        assert(m.of(spec.width(a, xs@[k as int])) < m.of(sigma_min)) by {
            reveal(faithful);
        }
        assert forall|i: int| k <= i < plan@.len() implies (#[trigger] plan@[i]).1 == sigma_min
            && m.of(plan@[i].0) == m.of(xs@[k as int]) - ((i - k) as real) * m.of(bw) by {
            assert(plan@[i] == spec.filter(a, sigma_min, i));
            reveal(faithful);
            assert(m.of(num(a, (i - k) as u64)) == (i - k) as real);
        }
        let (floor, start) = (spec.floor(a, sigma_min), spec.centre(a, k));
        assert(xs@.last() == spec.centre(a, (spec.requested(a) - 1) as usize));
        let (f, s, y) = (m.of(floor), m.of(start), m.of(bw));
        assert(f == (if y >= m.of(xs@.last()) {
            y
        } else {
            m.of(xs@.last())
        }) && at_most(a, floor, start) == (f <= s)) by {
            reveal(faithful);
        }
        if f <= s {
            let steps = quotient(a, difference(a, start, floor), b);
            let more = sum(a, steps, num(a, 1));
            let count = spec.pinned(a, sigma_min);
            assert(count == a.whole_of(more));
            lemma_quotient(a, m, difference(a, start, floor), b);
            let x = m.of(steps);
            assert(x * y == s - f && m.of(more) == x + 1real) by {
                reveal(faithful);
                assert(m.of(num(a, 1)) == 1real);
            }
            assert(x >= 0real) by (nonlinear_arith)
                requires
                    x * y >= 0real,
                    y > 0real,
            ;
            assert(count as real <= x + 1real < count as real + 1real) by {
                reveal(faithful_counts);
                reveal(faithful_ceilings);
            }
            assert(count >= 1) by {
                if count == 0 {
                    assert(count as real == 0real);
                }
            }
            let d = (count - 1) as real;
            assert(d == count as real - 1real);
            assert(plan@.last() == plan@[k + count - 1]);
            assert(m.of(plan@.last().0) == s - d * y);
            assert(d * y <= x * y) by (nonlinear_arith)
                requires
                    d <= x,
                    y > 0real,
            ;
            assert(d * y > (x - 1real) * y) by (nonlinear_arith)
                requires
                    d > x - 1real,
                    y > 0real,
            ;
            assert((x - 1real) * y == x * y - y) by (nonlinear_arith);
        }
    }
    k as int
}

/// A bank holds the filters that were planned for the narrowest width its grid has room
/// for, each of them together with its mirror image in a two-sided bank, and it holds no
/// more than these. They stand in order of frequency.
pub proof fn law_bank_holds_its_plan<R: Copy, A: Arithmetic<R>>(
    a: &A,
    m: Meaning<R>,
    spec: BankSpec<R>,
    n: usize,
    invariance_samples: R,
    bank: FilterBank<R>,
    sigma_min: R,
    plan: Vec<(R, R)>,
    j: int,
) -> (at: (int, int))
    requires
        faithful(a, m),
        faithful_rounding(a, m),
        call_ensures(FilterBank::<R>::new::<A>, (a, spec, n, invariance_samples), bank),
        call_ensures(sigma_min_for_length::<R, A>, (a, n), sigma_min),
        call_ensures(BankSpec::<R>::plan::<A>, (&spec, a, sigma_min), plan),
        0 <= j < plan@.len(),
    ensures
        bank.n == n,
        bank.wavelets@.len() == (if spec.two_sided {
            2 * plan@.len()
        } else {
            plan@.len()
        }),
        0 <= at.0 < bank.wavelets@.len(),
        bank.wavelets@[at.0].xi == plan@[j].0,
        bank.wavelets@[at.0].sigma == plan@[j].1,
        spec.two_sided ==> {
            &&& 0 <= at.1 < bank.wavelets@.len()
            &&& m.of(bank.wavelets@[at.1].xi) == -m.of(plan@[j].0)
            &&& bank.wavelets@[at.1].sigma == plan@[j].1
        },
        forall|i: int, k: int|
            0 <= i <= k < bank.wavelets@.len() ==> m.of((#[trigger] bank.wavelets@[i]).xi) <= m.of(
                (#[trigger] bank.wavelets@[k]).xi,
            ),
{
    let both = mirrored(a, plan@, spec.two_sided);
    let pairs = bank.pairs();
    pairs.to_multiset_ensures();
    both.to_multiset_ensures();
    assert(pairs.len() == both.len());
    let at = if spec.two_sided {
        2 * j
    } else {
        j
    };
    assert(both[at] == plan@[j]);
    let i = lemma_held(pairs, both, at);
    assert(pairs[i] == (bank.wavelets@[i].xi, bank.wavelets@[i].sigma));
    let other = if spec.two_sided {
        assert(both[2 * j + 1] == (negative(a, plan@[j].0), plan@[j].1));
        let o = lemma_held(pairs, both, 2 * j + 1);
        assert(pairs[o] == (bank.wavelets@[o].xi, bank.wavelets@[o].sigma));
        assert(m.of(negative(a, plan@[j].0)) == -m.of(plan@[j].0)) by {
            reveal(faithful_rounding);
        }
        o
    } else {
        i
    };
    assert forall|i: int, k: int| 0 <= i <= k < bank.wavelets@.len() implies m.of(
        (#[trigger] bank.wavelets@[i]).xi,
    ) <= m.of((#[trigger] bank.wavelets@[k]).xi) by {
        lemma_sorted(a, m, &bank, i, k);
    }
    (i, other)
}

/// Every filter of a bank was planned, or is the mirror image of one that was.
pub proof fn law_bank_holds_nothing_else<R: Copy, A: Arithmetic<R>>(
    a: &A,
    m: Meaning<R>,
    spec: BankSpec<R>,
    n: usize,
    invariance_samples: R,
    bank: FilterBank<R>,
    sigma_min: R,
    plan: Vec<(R, R)>,
    i: int,
) -> (j: int)
    requires
        faithful_rounding(a, m),
        call_ensures(FilterBank::<R>::new::<A>, (a, spec, n, invariance_samples), bank),
        call_ensures(sigma_min_for_length::<R, A>, (a, n), sigma_min),
        call_ensures(BankSpec::<R>::plan::<A>, (&spec, a, sigma_min), plan),
        0 <= i < bank.wavelets@.len(),
    ensures
        0 <= j < plan@.len(),
        bank.wavelets@[i].sigma == plan@[j].1,
        m.of(bank.wavelets@[i].xi) == m.of(plan@[j].0) || spec.two_sided && m.of(
            bank.wavelets@[i].xi,
        ) == -m.of(plan@[j].0),
{
    let both = mirrored(a, plan@, spec.two_sided);
    let pairs = bank.pairs();
    assert(pairs[i] == (bank.wavelets@[i].xi, bank.wavelets@[i].sigma));
    let at = lemma_held(both, pairs, i);
    let j = if spec.two_sided {
        at / 2
    } else {
        at
    };
    assert(m.of(negative(a, plan@[j].0)) == -m.of(plan@[j].0)) by {
        reveal(faithful_rounding);
    }
    j
}

/// What is in a list is in another that holds the same.
proof fn lemma_held<T>(xs: Seq<T>, ys: Seq<T>, j: int) -> (i: int)
    requires
        xs.to_multiset() == ys.to_multiset(),
        0 <= j < ys.len(),
    ensures
        0 <= i < xs.len(),
        xs[i] == ys[j],
{
    broadcast use vstd::seq_lib::group_to_multiset_ensures;

    let y = ys[j];
    assert(ys.contains(y));
    assert(ys.to_multiset().count(y) > 0);
    assert(xs.to_multiset().count(y) > 0);
    assert(xs.contains(y));
    choose|i: int| 0 <= i < xs.len() && xs[i] == ys[j]
}

/// The averaging kernel of a bank is as wide as goes with its averaging scale; and a bank
/// says how many of the frequencies asked for lie too low for its grid: those at the end
/// of the list that are below the lowest there is room for.
pub proof fn law_bank_says_what_it_lacks<R: Copy, A: Arithmetic<R>>(
    a: &A,
    m: Meaning<R>,
    spec: BankSpec<R>,
    n: usize,
    invariance_samples: R,
    bank: FilterBank<R>,
    xs: Vec<R>,
    lowest: R,
)
    requires
        faithful(a, m),
        m.of(invariance_samples) > 0real,
        call_ensures(FilterBank::<R>::new::<A>, (a, spec, n, invariance_samples), bank),
        call_ensures(BankSpec::<R>::centre_frequencies::<A>, (&spec, a), xs),
        call_ensures(min_xi_for_length::<R, A>, (a, n), lowest),
        forall|j: int, k: int|
            0 <= j < k < xs@.len() ==> m.of(#[trigger] xs@[k]) < m.of(#[trigger] xs@[j]),
    ensures
        m.of(bank.sigma_phi) * (m.of(a.circle_ratio()) * m.of(invariance_samples)) == 1real,
        bank.dropped <= xs@.len(),
        forall|j: int|
            0 <= j < xs@.len() ==> (m.of(#[trigger] xs@[j]) < m.of(lowest) <==> j >= xs@.len()
                - bank.dropped),
{
    let (p, t) = (m.of(a.circle_ratio()), m.of(invariance_samples));
    let d = product(a, a.circle_ratio(), invariance_samples);
    assert(m.of(d) == p * t && p > 0real && m.of(num(a, 1)) == 1real) by {
        reveal(faithful);
    }
    assert(p * t > 0real) by (nonlinear_arith)
        requires
            p > 0real,
            t > 0real,
    ;
    lemma_quotient(a, m, num(a, 1), d);
    lemma_count(a, m, xs@, lowest);
}

proof fn lemma_count<R, A: Arithmetic<R>>(a: &A, m: Meaning<R>, xs: Seq<R>, bound: R)
    requires
        faithful(a, m),
        forall|j: int, k: int|
            0 <= j < k < xs.len() ==> m.of(#[trigger] xs[k]) < m.of(#[trigger] xs[j]),
    ensures
        count_below(a, xs, bound) <= xs.len(),
        forall|j: int|
            0 <= j < xs.len() ==> (m.of(#[trigger] xs[j]) < m.of(bound) <==> j >= xs.len()
                - count_below(a, xs, bound)),
    decreases xs.len(),
{
    if xs.len() > 0 {
        let rest = xs.drop_last();
        assert forall|j: int, k: int| 0 <= j < k < rest.len() implies m.of(#[trigger] rest[k])
            < m.of(#[trigger] rest[j]) by {
            assert(xs[j] == rest[j] && xs[k] == rest[k]);
        }
        lemma_count(a, m, rest, bound);
        let c = count_below(a, rest, bound);
        assert(below(a, xs.last(), bound) == (m.of(xs.last()) < m.of(bound))) by {
            reveal(faithful);
        }
        let last = xs.len() - 1;
        assert forall|j: int| 0 <= j < xs.len() implies (m.of(#[trigger] xs[j]) < m.of(bound)
            <==> j >= xs.len() - count_below(a, xs, bound)) by {
            if j < last {
                assert(rest[j] == xs[j]);
                assert(m.of(xs[last]) < m.of(xs[j]));
                if c > 0 {
                    assert(m.of(rest[last - 1]) < m.of(bound));
                    assert(rest[last - 1] == xs[last - 1]);
                    assert(m.of(xs[last]) < m.of(xs[last - 1]));
                }
            } else if c > 0 {
                assert(m.of(rest[last - 1]) < m.of(bound));
                assert(rest[last - 1] == xs[last - 1]);
                assert(m.of(xs[last]) < m.of(xs[last - 1]));
            }
        }
    }
}

/// Every filter of a bank says how wide it is between its half-power points, and the
/// averaging kernel of a bank is the lowpass of its width.
pub proof fn law_filters_say_how_wide_they_are<R: Copy, A: Arithmetic<R>>(
    a: &A,
    spec: BankSpec<R>,
    n: usize,
    invariance_samples: R,
    bank: FilterBank<R>,
    i: int,
    bw: R,
    phi: Vec<R>,
)
    requires
        call_ensures(FilterBank::<R>::new::<A>, (a, spec, n, invariance_samples), bank),
        0 <= i < bank.wavelets@.len(),
        call_ensures(sigma_to_bw::<R, A>, (a, bank.wavelets@[i].sigma), bw),
        call_ensures(lowpass::<R, A>, (a, n, bank.sigma_phi), phi),
    ensures
        bank.wavelets@[i].bandwidth == bw,
        bank.phi@ == phi@,
{
    let w = bank.wavelets@[i];
    assert(w.is_morlet(a, w.xi, w.sigma, n));
}

/// A bank says where its widths stop being proportional: at the last centre frequency
/// before the first whose filter would be too narrow, or at the top if that is the first
/// of all; and that they do not stop, if none is.
pub proof fn law_elbow_is_the_last_that_fits<R: Copy, A: Arithmetic<R>>(
    a: &A,
    m: Meaning<R>,
    spec: BankSpec<R>,
    n: usize,
    invariance_samples: R,
    bank: FilterBank<R>,
    sigma_min: R,
    xs: Vec<R>,
) -> (k: int)
    requires
        faithful(a, m),
        call_ensures(FilterBank::<R>::new::<A>, (a, spec, n, invariance_samples), bank),
        call_ensures(sigma_min_for_length::<R, A>, (a, n), sigma_min),
        call_ensures(BankSpec::<R>::centre_frequencies::<A>, (&spec, a), xs),
    ensures
        0 <= k <= xs@.len(),
        forall|j: int, s: R|
            0 <= j < k && #[trigger] call_ensures(
                BankSpec::<R>::sigma_for::<A>,
                (&spec, a, xs@[j]),
                s,
            ) ==> m.of(s) >= m.of(sigma_min),
        forall|s: R|
            k < xs@.len() && #[trigger] call_ensures(
                BankSpec::<R>::sigma_for::<A>,
                (&spec, a, xs@[k]),
                s,
            ) ==> m.of(s) < m.of(sigma_min),
        k == xs@.len() <==> bank.elbow_xi is None,
        k < xs@.len() ==> bank.elbow_xi == Some(
            xs@[if k == 0 {
                0
            } else {
                k - 1
            }],
        ),
{
    let some = lemma_stops(a, &spec, sigma_min, 0);
    let k = spec.proportional(a, sigma_min);
    assert(spec.stops_at(a, sigma_min, k));
    assert forall|j: int, s: R|
        0 <= j < k && #[trigger] call_ensures(
            BankSpec::<R>::sigma_for::<A>,
            (&spec, a, xs@[j]),
            s,
        ) implies m.of(s) >= m.of(sigma_min) by {
        assert(spec.fits(a, sigma_min, j as usize));
        reveal(faithful);
    }
    if k < xs@.len() {
        assert(!spec.fits(a, sigma_min, k));
        assert(m.of(spec.width(a, xs@[k as int])) < m.of(sigma_min)) by {
            reveal(faithful);
        }
    }
    k as int
}

/// The first filter planned is at the highest frequency asked for, and none is above it.
proof fn lemma_top<R: Copy, A: Arithmetic<R>>(
    a: &A,
    m: Meaning<R>,
    spec: &BankSpec<R>,
    sigma_min: R,
    i: int,
)
    requires
        faithful(a, m),
        faithful_powers(a, m),
        faithful_octaves(a, m),
        spec.density(a) >= 1,
        m.of(spec.xi_max) > 0real,
        m.of(bandwidth_of(a, sigma_min)) > 0real,
        0 <= i < spec.filters(a, sigma_min).len(),
    ensures
        m.of(spec.filters(a, sigma_min)[i].0) <= m.of(spec.xi_max),
        i == 0 ==> m.of(spec.filters(a, sigma_min)[i].0) == m.of(spec.xi_max),
{
    let some = lemma_stops(a, spec, sigma_min, 0);
    let k = spec.proportional(a, sigma_min);
    assert(spec.stops_at(a, sigma_min, k));
    lemma_first_centre(a, m, spec);
    let x = spec.filters(a, sigma_min)[i].0;
    assert(spec.filters(a, sigma_min)[i] == spec.filter(a, sigma_min, i));
    if i < k {
        if i > 0 {
            lemma_down(a, m, spec, 0, i);
        }
    } else {
        if k > 0 {
            lemma_down(a, m, spec, 0, k as int);
        }
        let (s, y, d) = (
            m.of(spec.centre(a, k)),
            m.of(bandwidth_of(a, sigma_min)),
            (i - k) as real,
        );
        assert(m.of(x) == s - d * y) by {
            reveal(faithful);
            assert(m.of(num(a, (i - k) as u64)) == (i - k) as real);
        }
        assert(d * y >= 0real) by (nonlinear_arith)
            requires
                d >= 0real,
                y > 0real,
        ;
        if i == 0 {
            assert(0real * y == 0real) by (nonlinear_arith);
        }
    }
}

/// The first centre frequency is the highest asked for.
proof fn lemma_first_centre<R: Copy, A: Arithmetic<R>>(a: &A, m: Meaning<R>, spec: &BankSpec<R>)
    requires
        faithful(a, m),
        faithful_powers(a, m),
        faithful_octaves(a, m),
        spec.density(a) >= 1,
    ensures
        m.of(spec.centre(a, 0)) == m.of(spec.xi_max),
{
    let n = num(a, spec.density(a) as u64);
    let d = spec.density(a) as real;
    let z = num(a, 0);
    let x = quotient(a, negative(a, z), n);
    assert(m.of(z) == 0real && m.of(negative(a, z)) == 0real && m.of(n) == d) by {
        reveal(faithful);
        reveal(faithful_powers);
    }
    lemma_quotient(a, m, negative(a, z), n);
    assert(0real * d == 0real) by (nonlinear_arith);
    lemma_same(d, m.of(x), 0real);
    let y = negative(a, num(a, 1));
    assert(m.of(y) == -1real) by {
        reveal(faithful);
        reveal(faithful_powers);
        assert(m.of(num(a, 1)) == 1real);
    }
    lemma_octave(a, m, x, y);
    let t = m.of(spec.xi_max);
    assert(t * 1real == t) by (nonlinear_arith);
    assert(m.of(spec.centre(a, 0)) == t * m.of(power(a, num(a, 2), x))) by {
        reveal(faithful);
    }
}

/// Filters are at least one to an octave.
proof fn lemma_some_density<R: Copy, A: Arithmetic<R>>(a: &A, m: Meaning<R>, spec: &BankSpec<R>)
    requires
        faithful(a, m),
        faithful_rounding(a, m),
        faithful_ceilings(a, m),
        faithful_counts(a, m),
        size(m.of(spec.q)) + 2real < usize::MAX as real,
    ensures
        spec.density(a) >= 1,
{
    let most = larger(a, spec.q, num(a, 1));
    let q = m.of(spec.q);
    assert(m.of(most) == (if q >= 1real {
        q
    } else {
        1real
    })) by {
        reveal(faithful);
        assert(m.of(num(a, 1)) == 1real);
    }
    lemma_counted(a, m, most);
    if spec.density(a) == 0 {
        assert(spec.density(a) as real == 0real);
    }
}

/// The last filter of a bank is at the highest frequency asked for, and the first of a
/// two-sided one is at its mirror image.
pub proof fn lemma_ends<R: Copy, A: Arithmetic<R>>(
    a: &A,
    m: Meaning<R>,
    bank: &FilterBank<R>,
    spec: &BankSpec<R>,
    n: usize,
    invariance_samples: R,
)
    requires
        faithful(a, m),
        faithful_powers(a, m),
        faithful_octaves(a, m),
        faithful_rounding(a, m),
        faithful_ceilings(a, m),
        faithful_counts(a, m),
        size(m.of(spec.q)) + 2real < usize::MAX as real,
        m.of(spec.xi_max) > 0real,
        n >= 1,
        bank.realises(a, spec, n, invariance_samples),
        bank.wavelets@.len() > 0,
    ensures
        m.of(bank.wavelets@.last().xi) == m.of(spec.xi_max),
        spec.two_sided ==> m.of(bank.wavelets@[0].xi) == -m.of(spec.xi_max),
{
    let sigma_min = narrowest(a, n);
    lemma_some_bandwidth(a, m, n);
    lemma_some_density(a, m, spec);
    let plan = spec.filters(a, sigma_min);
    let both = mirrored(a, plan, spec.two_sided);
    let pairs = bank.pairs();
    pairs.to_multiset_ensures();
    both.to_multiset_ensures();
    assert(pairs.len() == both.len());
    assert(plan.len() > 0);
    let t = m.of(spec.xi_max);
    lemma_top(a, m, spec, sigma_min, 0);
    assert(both[0] == plan[0]);
    let i = lemma_held(pairs, both, 0);
    assert(pairs[i] == (bank.wavelets@[i].xi, bank.wavelets@[i].sigma));
    let last = bank.wavelets@.len() - 1;
    lemma_sorted(a, m, bank, i, last);
    assert(pairs[last] == (bank.wavelets@[last].xi, bank.wavelets@[last].sigma));
    let at = lemma_held(both, pairs, last);
    let j = if spec.two_sided {
        at / 2
    } else {
        at
    };
    lemma_top(a, m, spec, sigma_min, j);
    let x = plan[j].0;
    assert(m.of(negative(a, x)) == -m.of(x)) by {
        reveal(faithful_rounding);
    }
    if spec.two_sided {
        assert(both[1] == (negative(a, plan[0].0), plan[0].1));
        assert(m.of(negative(a, plan[0].0)) == -t) by {
            reveal(faithful_rounding);
        }
        let o = lemma_held(pairs, both, 1);
        assert(pairs[o] == (bank.wavelets@[o].xi, bank.wavelets@[o].sigma));
        lemma_sorted(a, m, bank, 0, o);
        assert(pairs[0] == (bank.wavelets@[0].xi, bank.wavelets@[0].sigma));
        let first = lemma_held(both, pairs, 0);
        let l = first / 2;
        lemma_top(a, m, spec, sigma_min, l);
        lemma_positive(a, m, spec, sigma_min, l);
        lemma_positive(a, m, spec, sigma_min, j);
        let y = plan[l].0;
        assert(m.of(negative(a, y)) == -m.of(y)) by {
            reveal(faithful_rounding);
        }
    }
}

/// Every filter planned is above zero.
proof fn lemma_positive<R: Copy, A: Arithmetic<R>>(
    a: &A,
    m: Meaning<R>,
    spec: &BankSpec<R>,
    sigma_min: R,
    i: int,
)
    requires
        faithful(a, m),
        faithful_powers(a, m),
        faithful_ceilings(a, m),
        spec.density(a) >= 1,
        m.of(spec.xi_max) > 0real,
        m.of(bandwidth_of(a, sigma_min)) > 0real,
        0 <= i < spec.filters(a, sigma_min).len(),
    ensures
        m.of(spec.filters(a, sigma_min)[i].0) > 0real,
{
    let some = lemma_stops(a, spec, sigma_min, 0);
    let k = spec.proportional(a, sigma_min);
    assert(spec.stops_at(a, sigma_min, k));
    assert(spec.filters(a, sigma_min)[i] == spec.filter(a, sigma_min, i));
    if i < k {
        lemma_step(a, m, spec, i as usize);
    } else {
        let b = bandwidth_of(a, sigma_min);
        let (floor, start) = (spec.floor(a, sigma_min), spec.centre(a, k));
        let steps = quotient(a, difference(a, start, floor), b);
        let more = sum(a, steps, num(a, 1));
        let count = spec.pinned(a, sigma_min);
        lemma_quotient(a, m, difference(a, start, floor), b);
        let (f, s, y, x) = (m.of(floor), m.of(start), m.of(b), m.of(steps));
        assert(f >= y && f <= s && x * y == s - f && m.of(more) == x + 1real) by {
            reveal(faithful);
            assert(m.of(num(a, 1)) == 1real);
        }
        assert(x >= 0real) by (nonlinear_arith)
            requires
                x * y >= 0real,
                y > 0real,
        ;
        assert(count as real <= x + 1real) by {
            reveal(faithful_ceilings);
        }
        let d = (i - k) as real;
        assert(i - k <= count - 1);
        assert(d <= x);
        assert(m.of(spec.filters(a, sigma_min)[i].0) == s - d * y) by {
            reveal(faithful);
            assert(m.of(num(a, (i - k) as u64)) == (i - k) as real);
        }
        assert(d * y <= x * y) by (nonlinear_arith)
            requires
                d <= x,
                y > 0real,
        ;
    }
}

// Extremes and sums.

/// The longest time support of a bank is that of one of its filters, and no filter has a
/// longer one.
pub proof fn law_longest_support_is_that_of_a_filter<R: Copy, A: Arithmetic<R>>(
    a: &A,
    m: Meaning<R>,
    bank: &FilterBank<R>,
    r: R,
)
    requires
        faithful(a, m),
        forall|i: int|
            0 <= i < bank.wavelets@.len() ==> m.of((#[trigger] bank.wavelets@[i]).sigma) > 0real,
        call_ensures(FilterBank::<R>::max_time_support::<A>, (bank, a), r),
    ensures
        m.of(r) >= 0real,
        bank.wavelets@.len() == 0 ==> m.of(r) == 0real,
        forall|i: int, s: R|
            0 <= i < bank.wavelets@.len() && #[trigger] call_ensures(
                Wavelet::<R>::time_support::<A>,
                (&bank.wavelets@[i], a),
                s,
            ) ==> m.of(s) <= m.of(r),
        bank.wavelets@.len() > 0 ==> exists|i: int|
            0 <= i < bank.wavelets@.len() && m.of(r) * (2real * m.of(a.circle_ratio()) * m.of(
                (#[trigger] bank.wavelets@[i]).sigma,
            )) == 6real,
{
    let xs = bank.wavelets@.map_values(|w: Wavelet<R>| support(a, w.sigma));
    assert forall|i: int| 0 <= i < xs.len() implies m.of(#[trigger] xs[i]) > 0real && m.of(xs[i])
        * (2real * m.of(a.circle_ratio()) * m.of(bank.wavelets@[i].sigma)) == 6real by {
        lemma_support(a, m, bank.wavelets@[i].sigma);
    }
    lemma_most_positive(a, m, xs);
    if xs.len() > 0 {
        let i = choose|i: int|
            0 <= i < xs.len() && m.of(#[trigger] xs[i]) == m.of(largest(a, num(a, 0), xs));
        assert(m.of(r) * (2real * m.of(a.circle_ratio()) * m.of(bank.wavelets@[i].sigma)) == 6real);
    }
    assert forall|i: int, s: R|
        0 <= i < bank.wavelets@.len() && #[trigger] call_ensures(
            Wavelet::<R>::time_support::<A>,
            (&bank.wavelets@[i], a),
            s,
        ) implies m.of(s) <= m.of(r) by {
        assert(s == xs[i]);
    }
}

pub proof fn lemma_support<R, A: Arithmetic<R>>(a: &A, m: Meaning<R>, sigma: R)
    requires
        faithful(a, m),
        m.of(sigma) > 0real,
    ensures
        m.of(support(a, sigma)) > 0real,
        m.of(support(a, sigma)) * (2real * m.of(a.circle_ratio()) * m.of(sigma)) == 6real,
{
    let t = turn(a);
    let d = product(a, t, sigma);
    let (p, s) = (m.of(a.circle_ratio()), m.of(sigma));
    assert(m.of(d) == 2real * p * s && p > 0real && m.of(num(a, 6)) == 6real) by {
        reveal(faithful);
        assert(m.of(num(a, 2)) == 2real);
    }
    let k = 2real * p * s;
    assert(k > 0real) by (nonlinear_arith)
        requires
            k == 2real * p * s,
            p > 0real,
            s > 0real,
    ;
    lemma_quotient(a, m, num(a, 6), d);
    let r = m.of(support(a, sigma));
    assert(r > 0real) by (nonlinear_arith)
        requires
            r * k == 6real,
            k > 0real,
    ;
}

pub proof fn lemma_most_positive<R, A: Arithmetic<R>>(a: &A, m: Meaning<R>, xs: Seq<R>)
    requires
        faithful(a, m),
        forall|i: int| 0 <= i < xs.len() ==> m.of(#[trigger] xs[i]) > 0real,
    ensures
        m.of(largest(a, num(a, 0), xs)) >= 0real,
        xs.len() == 0 ==> m.of(largest(a, num(a, 0), xs)) == 0real,
        forall|i: int|
            0 <= i < xs.len() ==> m.of(#[trigger] xs[i]) <= m.of(largest(a, num(a, 0), xs)),
        xs.len() > 0 ==> exists|i: int|
            0 <= i < xs.len() && m.of(#[trigger] xs[i]) == m.of(largest(a, num(a, 0), xs)),
    decreases xs.len(),
{
    reveal(faithful);
    assert(m.of(num(a, 0)) == 0real);
    if xs.len() > 0 {
        let rest = xs.drop_last();
        assert forall|i: int| 0 <= i < rest.len() implies m.of(#[trigger] rest[i]) > 0real by {
            assert(rest[i] == xs[i]);
        }
        lemma_most_positive(a, m, rest);
        let (high, top) = (m.of(largest(a, num(a, 0), rest)), m.of(largest(a, num(a, 0), xs)));
        assert forall|i: int| 0 <= i < xs.len() implies m.of(#[trigger] xs[i]) <= top by {
            if i < rest.len() {
                assert(rest[i] == xs[i]);
            }
        }
        assert(m.of(xs[xs.len() - 1]) > 0real);
        if rest.len() > 0 && high >= m.of(xs.last()) {
            let i = choose|i: int| 0 <= i < rest.len() && m.of(#[trigger] rest[i]) == high;
            assert(xs[i] == rest[i]);
            assert(m.of(xs[i]) == top);
        } else {
            assert(m.of(xs[xs.len() - 1]) == top);
        }
    }
}

/// The lowest centre frequency of a bank is that of one of its filters, whichever side of
/// zero it is on, and no filter is closer to zero.
///
/// Left out are arithmetics that have no value beyond every centre frequency for a
/// fraction of nothing.
pub proof fn law_lowest_centre_is_that_of_a_filter<R: Copy, A: Arithmetic<R>>(
    a: &A,
    m: Meaning<R>,
    bank: &FilterBank<R>,
    r: R,
)
    requires
        faithful(a, m),
        faithful_magnitudes(a, m),
        faithful_minima(a, m),
        bank.wavelets@.len() > 0,
        forall|i: int|
            0 <= i < bank.wavelets@.len() ==> size(m.of((#[trigger] bank.wavelets@[i]).xi)) <= m.of(
                fraction(a, 1, 0),
            ),
        call_ensures(FilterBank::<R>::min_xi::<A>, (bank, a), r),
    ensures
        forall|i: int|
            0 <= i < bank.wavelets@.len() ==> m.of(r) <= size(
                m.of((#[trigger] bank.wavelets@[i]).xi),
            ),
        exists|i: int|
            0 <= i < bank.wavelets@.len() && m.of(r) == size(
                m.of((#[trigger] bank.wavelets@[i]).xi),
            ),
{
    let xs = bank.frequencies().map_values(|x: R| magnitude(a, x));
    assert forall|i: int| 0 <= i < xs.len() implies m.of(#[trigger] xs[i]) == size(
        m.of(bank.wavelets@[i].xi),
    ) by {
        reveal(faithful_magnitudes);
    }
    lemma_smallest(a, m, fraction(a, 1, 0), xs);
    let i = choose|i: int|
        0 <= i < xs.len() && m.of(smallest(a, fraction(a, 1, 0), xs)) == m.of(#[trigger] xs[i]);
    assert(m.of(r) == size(m.of(bank.wavelets@[i].xi)));
    assert forall|i: int| 0 <= i < bank.wavelets@.len() implies m.of(r) <= size(
        m.of((#[trigger] bank.wavelets@[i]).xi),
    ) by {
        assert(m.of(r) <= m.of(xs[i]));
    }
}

/// The Littlewood-Paley sum adds up the power that every filter and the averaging kernel
/// let through at each bin.
pub proof fn law_littlewood_paley_sums_powers<R: Copy, A: Arithmetic<R>>(
    a: &A,
    m: Meaning<R>,
    bank: &FilterBank<R>,
    out: Vec<R>,
    k: int,
)
    requires
        faithful(a, m),
        bank.wf(),
        call_ensures(FilterBank::<R>::littlewood_paley::<A>, (bank, a), out),
        0 <= k < bank.n,
    ensures
        out@.len() == bank.n,
        m.of(out@[k]) == m.of(bank.phi@[k]) * m.of(bank.phi@[k]) + summed(
            |i: int|
                m.of(bank.wavelets@[i].spectrum@[k]) * m.of(bank.wavelets@[i].spectrum@[k]),
            bank.wavelets@.len() as int,
        ),
{
    let start = product(a, bank.phi@[k], bank.phi@[k]);
    assert(m.of(start) == m.of(bank.phi@[k]) * m.of(bank.phi@[k])) by {
        reveal(faithful);
    }
    let f = |i: int| m.of(bank.wavelets@[i].spectrum@[k]) * m.of(bank.wavelets@[i].spectrum@[k]);
    lemma_powers(a, m, start, bank.wavelets@, k, f, bank.wavelets@.len() as int);
    assert(bank.wavelets@.take(bank.wavelets@.len() as int) =~= bank.wavelets@);
}

proof fn lemma_powers<R, A: Arithmetic<R>>(
    a: &A,
    m: Meaning<R>,
    start: R,
    ws: Seq<Wavelet<R>>,
    k: int,
    f: spec_fn(int) -> real,
    n: int,
)
    requires
        faithful(a, m),
        0 <= n <= ws.len(),
        forall|i: int| 0 <= i < ws.len() ==> k < (#[trigger] ws[i]).spectrum@.len(),
        forall|i: int| #[trigger]
            f(i) == m.of(ws[i].spectrum@[k]) * m.of(ws[i].spectrum@[k]),
    ensures
        m.of(powers(a, start, ws.take(n), k)) == m.of(start) + summed(f, n),
    decreases n,
{
    if n > 0 {
        lemma_powers(a, m, start, ws, k, f, n - 1);
        assert(ws.take(n).drop_last() =~= ws.take(n - 1));
        assert(ws.take(n).last() == ws[n - 1]);
        assert(k < ws[n - 1].spectrum@.len());
        assert(summed(f, n) == summed(f, n - 1) + f(n - 1));
        reveal(faithful);
    } else {
        assert(ws.take(0).len() == 0);
    }
}

} // verus!
