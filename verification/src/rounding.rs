//! Rounding of exact rationals to the binary64 grid.
//!
//! Every finite binary64 magnitude is a whole number of the smallest positive
//! magnitude, two to the power of minus 1074. This module counts magnitudes in
//! that unit, so that exact values are natural numbers and the result of an
//! arithmetic operation is an exact ratio rounded to the nearest grid point.

use vstd::prelude::*;
use vstd::arithmetic::power2::*;
use vstd::arithmetic::mul::*;
use vstd::arithmetic::div_mod::*;
use vstd::math::*;

verus! {

/// Two to the power of 52: the significand of a normal number is at least this.
pub const LEAST_SIGNIFICAND: u64 = 0x10_0000_0000_0000;

/// Two to the power of 53: every significand is below this.
pub const SIGNIFICAND_LIMIT: u64 = 0x20_0000_0000_0000;

/// The bits of positive infinity.
pub const INFINITY_BITS: u64 = 0x7FF0_0000_0000_0000;

/// The distance between neighbouring grid points around `units`.
pub open spec fn spacing(units: nat) -> nat
    decreases units,
{
    if units < SIGNIFICAND_LIMIT {
        1
    } else {
        2 * spacing(units / 2)
    }
}

/// The grid point nearest to `num / den`; of two that are equally near, the one
/// whose significand is even.
pub open spec fn round_ratio(num: nat, den: nat) -> nat {
    let step = spacing(num / den);
    let whole = num / (den * step);
    let rest = num % (den * step);
    if 2 * rest > den * step || (2 * rest == den * step && whole % 2 == 1) {
        (whole + 1) * step
    } else {
        whole * step
    }
}

/// The bits, without the sign, of the grid point `units`.
pub open spec fn encode(units: nat) -> nat
    decreases units,
{
    if units < SIGNIFICAND_LIMIT {
        units
    } else {
        LEAST_SIGNIFICAND as nat + encode(units / 2)
    }
}

/// The units that the bits `bits`, without the sign, stand for.
pub open spec fn magnitude(bits: nat) -> nat {
    if bits < LEAST_SIGNIFICAND {
        bits
    } else {
        (LEAST_SIGNIFICAND + bits % (LEAST_SIGNIFICAND as nat)) as nat * pow2(
            (bits / (LEAST_SIGNIFICAND as nat) - 1) as nat,
        )
    }
}

/// The bits, without the sign, of `num / den` units rounded to the grid, and of
/// infinity when that lies beyond the largest finite magnitude.
pub open spec fn rounded(num: nat, den: nat) -> nat {
    let bits = encode(round_ratio(num, den));
    if bits < INFINITY_BITS {
        bits
    } else {
        INFINITY_BITS as nat
    }
}

/// A significand of at most 53 bits with the exponent `k` is on the grid.
pub open spec fn is_scaled_significand(m: nat, k: nat) -> bool {
    m <= SIGNIFICAND_LIMIT && (k > 0 ==> m >= LEAST_SIGNIFICAND)
}

pub(crate) proof fn lemma_spacing(n: nat, k: nat)
    requires
        n < SIGNIFICAND_LIMIT * pow2(k),
        k > 0 ==> n >= LEAST_SIGNIFICAND * pow2(k),
    ensures
        spacing(n) == pow2(k),
    decreases k,
{
    lemma2_to64();
    if k > 0 {
        lemma_pow2_unfold(k);
        lemma_pow2_pos((k - 1) as nat);
        let p = pow2((k - 1) as nat);
        lemma_spacing(n / 2, (k - 1) as nat);
    }
}

pub(crate) proof fn lemma_encode(m: nat, k: nat)
    requires
        is_scaled_significand(m, k),
    ensures
        encode(m * pow2(k)) == k * LEAST_SIGNIFICAND + m,
    decreases k,
{
    lemma2_to64();
    if k == 0 {
        reveal_with_fuel(encode, 2);
        assert(m * pow2(0) == m);
    } else {
        let p = pow2((k - 1) as nat);
        lemma_pow2_unfold(k);
        lemma_pow2_pos((k - 1) as nat);
        lemma_encode(m, (k - 1) as nat);
        assert(m * pow2(k) == 2 * (m * p)) by (nonlinear_arith)
            requires
                pow2(k) == 2 * p,
        ;
        assert(2 * (m * p) >= SIGNIFICAND_LIMIT) by (nonlinear_arith)
            requires
                m >= LEAST_SIGNIFICAND,
                p >= 1,
        ;
        assert((2 * (m * p)) / 2 == m * p);
    }
}

pub(crate) proof fn lemma_magnitude(m: nat, k: nat)
    requires
        is_scaled_significand(m, k),
    ensures
        magnitude((k * LEAST_SIGNIFICAND + m) as nat) == m * pow2(k),
{
    lemma2_to64();
    let bits = (k * LEAST_SIGNIFICAND + m) as nat;
    if m < LEAST_SIGNIFICAND {
        assert(m * pow2(0) == m);
    } else if m < SIGNIFICAND_LIMIT {
        assert(bits / (LEAST_SIGNIFICAND as nat) == k + 1);
        assert(bits % (LEAST_SIGNIFICAND as nat) == m - LEAST_SIGNIFICAND);
    } else {
        assert(bits / (LEAST_SIGNIFICAND as nat) == k + 2);
        assert(bits % (LEAST_SIGNIFICAND as nat) == 0);
        lemma_pow2_unfold(k + 1);
        assert(LEAST_SIGNIFICAND * (2 * pow2(k)) == SIGNIFICAND_LIMIT * pow2(k))
            by (nonlinear_arith);
    }
}

/// Larger bits stand for a larger magnitude.
pub(crate) proof fn lemma_magnitude_increases(a: nat, b: nat)
    requires
        a < b,
    ensures
        magnitude(a) < magnitude(b),
{
    let l = LEAST_SIGNIFICAND as nat;
    lemma2_to64();
    if a < l {
        if b >= l {
            lemma_pow2_pos((b / l - 1) as nat);
            let p = pow2((b / l - 1) as nat);
            assert((l + b % l) * p >= l) by (nonlinear_arith)
                requires
                    p >= 1,
            ;
        }
    } else {
        let (ka, kb) = ((a / l - 1) as nat, (b / l - 1) as nat);
        let (pa, pb) = (pow2(ka), pow2(kb));
        lemma_pow2_pos(ka);
        lemma_pow2_pos(kb);
        if ka == kb {
            lemma_mul_strict_inequality((l + a % l) as int, (l + b % l) as int, pa as int);
        } else {
            lemma_pow2_unfold(ka + 1);
            if ka + 1 < kb {
                lemma_pow2_strictly_increases(ka + 1, kb);
            }
            assert((l + a % l) * pa < l * pb <= (l + b % l) * pb) by (nonlinear_arith)
                requires
                    pa >= 1,
                    2 * pa <= pb,
                    0 <= a % l < l,
                    0 <= b % l,
            ;
        }
    }
}

/// The exponent of the spacing around `n`.
pub(crate) proof fn lemma_spacing_exponent(n: nat) -> (k: nat)
    ensures
        spacing(n) == pow2(k),
        n < SIGNIFICAND_LIMIT * pow2(k),
        k > 0 ==> n >= LEAST_SIGNIFICAND * pow2(k),
    decreases n,
{
    lemma2_to64();
    if n < SIGNIFICAND_LIMIT {
        0
    } else {
        let k = lemma_spacing_exponent(n / 2) + 1;
        lemma_pow2_unfold(k);
        k
    }
}

/// What is rounded is on the grid: a significand and the exponent of the spacing.
pub(crate) proof fn lemma_round_form(num: nat, den: nat) -> (form: (nat, nat))
    requires
        den > 0,
    ensures
        is_scaled_significand(form.0, form.1),
        round_ratio(num, den) == form.0 * pow2(form.1),
        spacing(num / den) == pow2(form.1),
        num / den < SIGNIFICAND_LIMIT * pow2(form.1),
        form.1 > 0 ==> num / den >= LEAST_SIGNIFICAND * pow2(form.1),
{
    let f = num / den;
    let k = lemma_spacing_exponent(f);
    let p = pow2(k);
    lemma_pow2_pos(k);
    lemma_fundamental_div_mod(num as int, den as int);
    lemma_mul_strictly_positive(den as int, p as int);
    let whole = num / (den * p);
    let rest = num % (den * p);
    lemma_fundamental_div_mod(num as int, (den * p) as int);
    lemma_mod_bound(num as int, (den * p) as int);
    assert(whole < SIGNIFICAND_LIMIT) by (nonlinear_arith)
        requires
            num == den * f + num % den,
            0 <= num % den < den,
            f < SIGNIFICAND_LIMIT * p,
            num == (den * p) * whole + rest,
            rest >= 0,
            den > 0,
            p > 0,
    ;
    if k > 0 {
        assert(whole >= LEAST_SIGNIFICAND) by (nonlinear_arith)
            requires
                num == den * f + num % den,
                0 <= num % den,
                f >= LEAST_SIGNIFICAND * p,
                num == (den * p) * whole + rest,
                rest < den * p,
                den > 0,
                p > 0,
        ;
    }
    if 2 * rest > den * p || (2 * rest == den * p && whole % 2 == 1) {
        (whole + 1, k)
    } else {
        (whole, k)
    }
}

/// The bits of a rounded ratio stand for the grid point, or for infinity.
pub(crate) proof fn lemma_rounded_magnitude(num: nat, den: nat)
    requires
        den > 0,
    ensures
        encode(round_ratio(num, den)) < INFINITY_BITS ==> magnitude(rounded(num, den))
            == round_ratio(num, den),
        rounded(num, den) <= INFINITY_BITS,
{
    let (m, k) = lemma_round_form(num, den);
    lemma_encode(m, k);
    lemma_magnitude(m, k);
}

/// Up to 53 bits nothing is rounded.
pub(crate) proof fn lemma_round_small(n: nat)
    requires
        n <= SIGNIFICAND_LIMIT,
    ensures
        round_ratio(n, 1) == n,
{
    reveal_with_fuel(spacing, 2);
    lemma_div_basics(n as int);
    assert(n % 1 == 0);
    if n == SIGNIFICAND_LIMIT {
        assert(spacing(n) == 2);
        assert(n / 2 == LEAST_SIGNIFICAND);
    } else {
        assert(spacing(n) == 1);
    }
}

proof fn lemma_round_double(n: nat)
    ensures
        round_ratio(2 * n, 1) == 2 * round_ratio(n, 1),
{
    let s = spacing(n);
    let k = lemma_spacing_exponent(n);
    lemma_pow2_pos(k);
    let whole = n / s;
    let rest = n % s;
    lemma_fundamental_div_mod(n as int, s as int);
    lemma_mod_bound(n as int, s as int);
    assert((2 * n) / 2 == n);
    if 2 * n < SIGNIFICAND_LIMIT {
        lemma_round_small(2 * n);
        lemma_round_small(n);
    } else {
        assert(spacing(2 * n) == 2 * s);
        assert(2 * n == (2 * s) * whole + 2 * rest) by (nonlinear_arith)
            requires
                n == s * whole + rest,
        ;
        lemma_fundamental_div_mod_converse(
            (2 * n) as int,
            (2 * s) as int,
            whole as int,
            (2 * rest) as int,
        );
        assert((whole + 1) * (2 * s) == 2 * ((whole + 1) * s)) by (nonlinear_arith);
        assert(whole * (2 * s) == 2 * (whole * s)) by (nonlinear_arith);
    }
}

/// Rounding commutes with powers of two.
pub(crate) proof fn lemma_round_scaled(n: nat, c: nat)
    ensures
        round_ratio(n * pow2(c), 1) == round_ratio(n, 1) * pow2(c),
    decreases c,
{
    lemma2_to64();
    if c == 0 {
        assert(n * pow2(0) == n);
        assert(round_ratio(n, 1) * pow2(0) == round_ratio(n, 1));
    } else {
        let p = pow2((c - 1) as nat);
        lemma_pow2_unfold(c);
        lemma_round_scaled(n, (c - 1) as nat);
        lemma_round_double(n * p);
        assert(n * (2 * p) == 2 * (n * p)) by (nonlinear_arith);
        let r = round_ratio(n, 1);
        assert(r * (2 * p) == 2 * (r * p)) by (nonlinear_arith);
    }
}

/// The whole part of the smaller of two ratios is not larger.
proof fn lemma_ratio_order(n1: nat, d1: nat, n2: nat, d2: nat)
    requires
        d1 > 0,
        d2 > 0,
        n1 * d2 <= n2 * d1,
    ensures
        n1 / d1 <= n2 / d2,
{
    let (q1, q2) = (n1 / d1, n2 / d2);
    lemma_fundamental_div_mod(n1 as int, d1 as int);
    lemma_fundamental_div_mod(n2 as int, d2 as int);
    lemma_mod_bound(n1 as int, d1 as int);
    lemma_mod_bound(n2 as int, d2 as int);
    let (r1, r2) = (n1 % d1, n2 % d2);
    assert(q1 * (d1 * d2) <= n1 * d2) by (nonlinear_arith)
        requires
            n1 == d1 * q1 + r1,
            r1 >= 0,
            d2 > 0,
    ;
    assert(n2 * d1 < (q2 + 1) * (d1 * d2)) by (nonlinear_arith)
        requires
            n2 == d2 * q2 + r2,
            r2 < d2,
            d1 > 0,
    ;
    lemma_mul_strictly_positive(d1 as int, d2 as int);
    lemma_mul_strict_inequality_converse(q1 as int, q2 as int + 1, (d1 * d2) as int);
}

/// Rounding keeps the order of ratios.
#[verifier::rlimit(30)]
pub proof fn rounding_keeps_order(n1: nat, d1: nat, n2: nat, d2: nat)
    requires
        d1 > 0,
        d2 > 0,
        n1 * d2 <= n2 * d1,
    ensures
        round_ratio(n1, d1) <= round_ratio(n2, d2),
        rounded(n1, d1) <= rounded(n2, d2),
{
    let (m1, k1) = lemma_round_form(n1, d1);
    let (m2, k2) = lemma_round_form(n2, d2);
    let (p1, p2) = (pow2(k1), pow2(k2));
    let (f1, f2) = (n1 / d1, n2 / d2);
    lemma_pow2_pos(k1);
    lemma_pow2_pos(k2);
    lemma_ratio_order(n1, d1, n2, d2);
    if k1 > k2 {
        lemma_pow2_unfold(k2 + 1);
        if k1 > k2 + 1 {
            lemma_pow2_strictly_increases(k2 + 1, k1);
        }
        assert(false);
    } else if k1 < k2 {
        lemma_pow2_unfold(k1 + 1);
        if k2 > k1 + 1 {
            lemma_pow2_strictly_increases(k1 + 1, k2);
        }
        assert(m1 * p1 <= m2 * p2) by (nonlinear_arith)
            requires
                m1 <= SIGNIFICAND_LIMIT,
                m2 >= LEAST_SIGNIFICAND,
                2 * p1 <= p2,
                p1 > 0,
        ;
    } else {
        let (s1, s2) = (d1 * p1, d2 * p1);
        lemma_mul_strictly_positive(d1 as int, p1 as int);
        lemma_mul_strictly_positive(d2 as int, p1 as int);
        let (w1, w2) = (n1 / s1, n2 / s2);
        let (r1, r2) = (n1 % s1, n2 % s2);
        assert(n1 * s2 <= n2 * s1) by (nonlinear_arith)
            requires
                n1 * d2 <= n2 * d1,
                s1 == d1 * p1,
                s2 == d2 * p1,
                p1 > 0,
        ;
        lemma_ratio_order(n1, s1, n2, s2);
        lemma_fundamental_div_mod(n1 as int, s1 as int);
        lemma_fundamental_div_mod(n2 as int, s2 as int);
        if w1 == w2 {
            assert(r1 * s2 <= r2 * s1) by (nonlinear_arith)
                requires
                    n1 * s2 <= n2 * s1,
                    n1 == s1 * w1 + r1,
                    n2 == s2 * w1 + r2,
            ;
            assert(2 * r1 > s1 ==> 2 * r2 > s2) by (nonlinear_arith)
                requires
                    r1 * s2 <= r2 * s1,
                    s1 > 0,
                    s2 > 0,
            ;
            assert(2 * r1 == s1 ==> 2 * r2 >= s2) by (nonlinear_arith)
                requires
                    r1 * s2 <= r2 * s1,
                    s1 > 0,
                    s2 > 0,
            ;
            assert((w1 + 1) * p1 >= w1 * p1) by (nonlinear_arith);
        } else {
            lemma_mul_inequality(w1 as int + 1, w2 as int, p1 as int);
            assert(w1 * p1 <= (w1 + 1) * p1) by (nonlinear_arith);
            assert(w2 * p1 <= (w2 + 1) * p1) by (nonlinear_arith);
        }
    }
    lemma_encode(m1, k1);
    lemma_encode(m2, k2);
    lemma_magnitude(m1, k1);
    lemma_magnitude(m2, k2);
    let (b1, b2) = (encode(m1 * p1), encode(m2 * p2));
    if b1 > b2 {
        lemma_magnitude_increases(b2, b1);
    }
}

/// A grid point is rounded to itself.
pub proof fn grid_points_stay(bits: nat)
    requires
        bits < INFINITY_BITS,
    ensures
        rounded(magnitude(bits), 1) == bits,
{
    lemma2_to64();
    let l = LEAST_SIGNIFICAND as nat;
    let (m, k) = if bits < l {
        (bits, 0nat)
    } else {
        (l + bits % l, (bits / l - 1) as nat)
    };
    assert(bits == k * l + m);
    lemma_magnitude(m, k);
    lemma_round_small(m);
    lemma_round_scaled(m, k);
    lemma_encode(m, k);
}

/// The parts into which a ratio falls around the grid: `w` spacings of `pow2(k)` and a
/// rest, and the bits of its two neighbours.
proof fn lemma_neighbours(num: nat, den: nat) -> (at: (nat, nat))
    requires
        den > 0,
    ensures
        ({
            let (w, k) = at;
            let s = den * pow2(k);
            &&& spacing(num / den) == pow2(k)
            &&& s > 0
            &&& w == num / s
            &&& num == s * w + num % s
            &&& num % s < s
            &&& is_scaled_significand(w, k)
            &&& is_scaled_significand(w + 1, k)
            &&& (w * pow2(k)) * den == s * w
            &&& ((w + 1) * pow2(k)) * den == s * w + s
        }),
{
    let k = lemma_spacing_exponent(num / den);
    let p = pow2(k);
    lemma_pow2_pos(k);
    let s = den * p;
    lemma_mul_strictly_positive(den as int, p as int);
    let (w, r) = (num / s, num % s);
    lemma_fundamental_div_mod(num as int, s as int);
    lemma_mod_bound(num as int, s as int);
    let f = num / den;
    lemma_fundamental_div_mod(num as int, den as int);
    assert(w < SIGNIFICAND_LIMIT) by (nonlinear_arith)
        requires
            num == den * f + num % den,
            0 <= num % den < den,
            f < SIGNIFICAND_LIMIT * p,
            num == s * w + r,
            s == den * p,
            r >= 0,
            den > 0,
            p > 0,
    ;
    if k > 0 {
        assert(w >= LEAST_SIGNIFICAND) by (nonlinear_arith)
            requires
                num == den * f + num % den,
                0 <= num % den,
                f >= LEAST_SIGNIFICAND * p,
                num == s * w + r,
                s == den * p,
                r < s,
                den > 0,
                p > 0,
        ;
    }
    assert((w * p) * den == s * w) by (nonlinear_arith)
        requires
            s == den * p,
    ;
    assert(((w + 1) * p) * den == s * w + s) by (nonlinear_arith)
        requires
            s == den * p,
    ;
    (w, k)
}

/// No magnitude is nearer to a ratio than the one that it is rounded to.
#[verifier::rlimit(30)]
pub proof fn rounding_is_nearest(num: nat, den: nat, bits: nat)
    requires
        den > 0,
    ensures
        abs(round_ratio(num, den) * den - num) <= abs(magnitude(bits) * den - num),
{
    let (w, k) = lemma_neighbours(num, den);
    let p = pow2(k);
    lemma_magnitude(w, k);
    lemma_magnitude(w + 1, k);
    let below = (k * LEAST_SIGNIFICAND + w) as nat;
    let g = magnitude(bits);
    assert(g <= w * p || g >= (w + 1) * p) by {
        if bits < below {
            lemma_magnitude_increases(bits, below);
        } else if bits > below + 1 {
            lemma_magnitude_increases(below + 1, bits);
        }
    }
    if g <= w * p {
        lemma_mul_inequality(g as int, (w * p) as int, den as int);
    } else {
        lemma_mul_inequality(((w + 1) * p) as int, g as int, den as int);
    }
}

/// The grid grows by one spacing from one number to the next: by one unit up to two to
/// the power of 53 units, and by twice as much in every binade after that.
pub proof fn neighbours_are_one_spacing_apart(bits: nat)
    ensures
        magnitude(0) == 0,
        magnitude(bits + 1) == magnitude(bits) + pow2(
            (if bits < 0x10_0000_0000_0000 {
                0
            } else {
                bits / 0x10_0000_0000_0000 - 1
            }) as nat,
        ),
{
    lemma2_to64();
    let l = LEAST_SIGNIFICAND as nat;
    let (m, k) = if bits < l {
        (bits, 0nat)
    } else {
        (l + bits % l, (bits / l - 1) as nat)
    };
    assert(bits == k * l + m);
    lemma_magnitude(m, k);
    lemma_magnitude(m + 1, k);
    assert((m + 1) * pow2(k) == m * pow2(k) + pow2(k)) by (nonlinear_arith);
}

/// No number, be it infinity in the place of the one after the largest, is nearer to a
/// ratio than the one that it is rounded to; and where another is as near, the last bit
/// of the one that it is rounded to is zero.
#[verifier::rlimit(60)]
pub proof fn rounded_numbers_are_nearest(num: nat, den: nat, bits: nat)
    requires
        den > 0,
        bits <= INFINITY_BITS,
    ensures
        rounded(num, den) <= INFINITY_BITS,
        abs(magnitude(rounded(num, den)) * den - num) <= abs(magnitude(bits) * den - num),
        bits != rounded(num, den) && abs(magnitude(rounded(num, den)) * den - num) == abs(
            magnitude(bits) * den - num,
        ) ==> rounded(num, den) % 2 == 0,
{
    let (w, k) = lemma_neighbours(num, den);
    let p = pow2(k);
    let s = den * p;
    let r = num % s;
    let up = 2 * r > s || (2 * r == s && w % 2 == 1);
    let m = if up {
        w + 1
    } else {
        w
    };
    assert(round_ratio(num, den) == m * p);
    lemma_encode(m, k);
    lemma_magnitude(m, k);
    lemma_magnitude(w, k);
    lemma_magnitude(w + 1, k);
    let below = (k * LEAST_SIGNIFICAND + w) as nat;
    let nearest = (k * LEAST_SIGNIFICAND + m) as nat;
    assert(nearest == encode(round_ratio(num, den)));
    let g = magnitude(bits);
    if bits < below {
        lemma_magnitude_increases(bits, below);
        lemma_mul_strict_inequality(g as int, (w * p) as int, den as int);
    } else if bits > below + 1 {
        lemma_magnitude_increases(below + 1, bits);
        lemma_mul_strict_inequality(((w + 1) * p) as int, g as int, den as int);
    }
    if nearest < INFINITY_BITS {
        lemma_rounded_magnitude(num, den);
        assert(nearest % 2 == m % 2);
    } else {
        // Nothing that is not beyond infinity is above the lower neighbour but infinity.
        assert(rounded(num, den) == INFINITY_BITS);
        let limit = magnitude(INFINITY_BITS as nat);
        if INFINITY_BITS < below {
            lemma_magnitude_increases(INFINITY_BITS as nat, below);
            lemma_mul_strict_inequality(limit as int, (w * p) as int, den as int);
        }
        if bits < INFINITY_BITS {
            lemma_magnitude_increases(bits, INFINITY_BITS as nat);
            lemma_mul_strict_inequality(g as int, limit as int, den as int);
        }
    }
}

/// Rounding costs at most one part of two to the power of 53, or half a unit.
pub proof fn rounding_costs_little(num: nat, den: nat)
    requires
        den > 0,
    ensures
        0x20_0000_0000_0000 * abs(round_ratio(num, den) * den - num) <= num
            + 0x10_0000_0000_0000 * den,
        den == 1 ==> 0x20_0000_0000_0000 * abs(round_ratio(num, den) - num) <= num,
{
    let (w, k) = lemma_neighbours(num, den);
    let p = pow2(k);
    let s = den * p;
    let r = num % s;
    lemma2_to64();
    assert(2 * abs(round_ratio(num, den) * den - num) <= s);
    if k == 0 {
        lemma_mul_basics(den as int);
        assert(p == 1 && s == den);
    } else {
        assert(s * w >= LEAST_SIGNIFICAND * s) by (nonlinear_arith)
            requires
                w >= LEAST_SIGNIFICAND,
                s > 0,
        ;
    }
}

/// What `round_ratio` and `rounded` give for a ratio whose quarter units lie in
/// `[q, q + 1)` times two to the power of `e`.
///
/// `m` and `r` split `q` at its bit `d`: what stays is the significand and what
/// goes, with the part beyond `q`, decides the direction.
#[verifier::rlimit(30)]
proof fn lemma_round_split(
    num: nat,
    den: nat,
    q: nat,
    e: nat,
    exact: bool,
    m: nat,
    r: nat,
    d: nat,
)
    requires
        den > 0,
        d >= 2,
        q * pow2(e) * den <= 4 * num < (q + 1) * pow2(e) * den,
        exact <==> q * pow2(e) * den == 4 * num,
        q == m * pow2(d) + r,
        r < pow2(d),
        m < SIGNIFICAND_LIMIT,
        e + d > 2 ==> m >= LEAST_SIGNIFICAND,
    ensures
        ({
            let half = pow2((d - 1) as nat);
            let up = r > half || (r == half && (!exact || m % 2 == 1));
            let rounded_m = if up { m + 1 } else { m };
            round_ratio(num, den) == rounded_m * pow2((e + d - 2) as nat)
        }),
{
    lemma2_to64();
    let k = (e + d - 2) as nat;
    let (pe, pd, u) = (pow2(e), pow2(d), pow2(k));
    let half = pow2((d - 1) as nat);
    lemma_pow2_pos(e);
    lemma_pow2_pos(d);
    lemma_pow2_pos(k);
    lemma_pow2_unfold(d);
    lemma_pow2_adds(e, d);
    lemma_pow2_adds(2, k);
    assert(pd * pe == 4 * u) by {
        lemma_mul_is_commutative(pe as int, pd as int);
    }
    let step = u * den;
    // The split of the ratio at the spacing `u`.
    assert(m * (4 * step) + r * (pe * den) <= 4 * num < m * (4 * step) + (r + 1) * (pe * den))
        by (nonlinear_arith)
        requires
            q == m * pd + r,
            pd * pe == 4 * u,
            step == u * den,
            q * pe * den <= 4 * num < (q + 1) * pe * den,
    ;
    assert((m * (4 * step) + r * (pe * den) == 4 * num) <==> exact) by (nonlinear_arith)
        requires
            q == m * pd + r,
            pd * pe == 4 * u,
            step == u * den,
            exact <==> q * pe * den == 4 * num,
    ;
    assert((r + 1) * (pe * den) <= 4 * step) by (nonlinear_arith)
        requires
            r + 1 <= pd,
            pd * pe == 4 * u,
            step == u * den,
    ;
    assert(m * (4 * step) == 4 * (m * step)) by (nonlinear_arith);
    assert((m + 1) * step == m * step + step) by (nonlinear_arith);
    assert(r * (pe * den) >= 0) by (nonlinear_arith);
    let rest = (num - m * step) as nat;
    assert(step > 0) by (nonlinear_arith)
        requires
            u > 0,
            den > 0,
            step == u * den,
    ;
    // The whole part and the spacing.
    assert(num / den < (m + 1) * u && num / den >= m * u) by {
        assert(num < ((m + 1) * u) * den && num >= (m * u) * den) by (nonlinear_arith)
            requires
                m * step <= num < (m + 1) * step,
                step == u * den,
        ;
        lemma_fundamental_div_mod(num as int, den as int);
        let f = num / den;
        assert(f < (m + 1) * u && f >= m * u) by (nonlinear_arith)
            requires
                num == den * f + num % den,
                0 <= num % den < den,
                num < ((m + 1) * u) * den,
                num >= (m * u) * den,
        ;
    }
    assert(num / den < SIGNIFICAND_LIMIT * u) by (nonlinear_arith)
        requires
            num / den < (m + 1) * u,
            m + 1 <= SIGNIFICAND_LIMIT,
    ;
    if k > 0 {
        assert(num / den >= LEAST_SIGNIFICAND * u) by (nonlinear_arith)
            requires
                num / den >= m * u,
                m >= LEAST_SIGNIFICAND,
        ;
    }
    lemma_spacing(num / den, k);
    assert(den * u == step) by (nonlinear_arith)
        requires
            step == u * den,
    ;
    lemma_fundamental_div_mod_converse(num as int, step as int, m as int, rest as int);
    // The direction.
    assert(half * (pe * den) == 2 * step) by (nonlinear_arith)
        requires
            pd == 2 * half,
            pd * pe == 4 * u,
            step == u * den,
    ;
    if r > half {
        assert(r * (pe * den) >= half * (pe * den) + pe * den) by (nonlinear_arith)
            requires
                r >= half + 1,
                pe * den >= 0,
        ;
        assert(pe * den > 0) by (nonlinear_arith)
            requires
                pe > 0,
                den > 0,
        ;
    } else if r < half {
        assert((r + 1) * (pe * den) <= half * (pe * den)) by (nonlinear_arith)
            requires
                r + 1 <= half,
                pe * den >= 0,
        ;
    }
}

/// Two to the power of `d`, with the whole number `q / 2^d` below the
/// significand limit: the least such `d` from two on.
fn split_point(q: u128) -> (at: (u128, u32))
    requires
        q < 0x1_0000_0000_0000_0000_0000_0000_0000,
    ensures
        2 <= at.1 <= 60,
        4 <= at.0 == pow2(at.1 as nat),
        q / at.0 < SIGNIFICAND_LIMIT,
        at.1 > 2 ==> q / at.0 >= LEAST_SIGNIFICAND,
{
    proof {
        lemma2_to64();
        lemma2_to64_rest();
    }
    let mut p: u128 = 4;
    let mut d: u32 = 2;
    while q / p >= SIGNIFICAND_LIMIT as u128
        invariant
            q < 0x1_0000_0000_0000_0000_0000_0000_0000,
            2 <= d <= 60,
            4 <= p == pow2(d as nat),
            d > 2 ==> q / p >= LEAST_SIGNIFICAND,
            pow2(60) == 0x1000_0000_0000_0000,
        decreases 60 - d,
    {
        proof {
            if d == 60 {
                assert(q / 0x1000_0000_0000_0000u128 < SIGNIFICAND_LIMIT);
            }
            lemma_pow2_unfold((d + 1) as nat);
            if d < 59 {
                lemma_pow2_strictly_increases((d + 1) as nat, 60);
            }
            lemma_div_denominator(q as int, p as int, 2);
        }
        p = p * 2;
        d = d + 1;
    }
    (p, d)
}

/// Rounds `num / den` units, given its quarter units as `q` times two to the power
/// of `e`, cut off to a whole `q`; `sticky` tells that something was cut off.
pub(crate) fn round_quarters(
    q: u128,
    e: u32,
    sticky: bool,
    Ghost(num): Ghost<nat>,
    Ghost(den): Ghost<nat>,
) -> (bits: u64)
    requires
        den > 0,
        q < 0x1_0000_0000_0000_0000_0000_0000_0000,
        e <= 4000,
        sticky ==> e == 0 || q >= 0x40_0000_0000_0000,
        q * pow2(e as nat) * den <= 4 * num < (q + 1) * pow2(e as nat) * den,
        !sticky <==> q * pow2(e as nat) * den == 4 * num,
    ensures
        bits == rounded(num, den),
        bits <= INFINITY_BITS,
{
    let mut q: u128 = q;
    let mut e: u32 = e;
    proof {
        lemma2_to64();
        lemma_pow2_pos(e as nat);
    }
    while q < 0x40_0000_0000_0000 && e > 0
        invariant
            den > 0,
            q < 0x1_0000_0000_0000_0000_0000_0000_0000,
            e <= 4000,
            sticky ==> e == 0 || q >= 0x40_0000_0000_0000,
            q * pow2(e as nat) * den <= 4 * num < (q + 1) * pow2(e as nat) * den,
            !sticky <==> q * pow2(e as nat) * den == 4 * num,
        decreases e,
    {
        proof {
            let p = pow2((e - 1) as nat);
            lemma_pow2_unfold(e as nat);
            lemma_pow2_pos((e - 1) as nat);
            assert((2 * q) * p * den == q * (2 * p) * den) by (nonlinear_arith);
            assert((2 * q + 1) * p * den == (2 * q) * p * den + p * den) by (nonlinear_arith);
            assert(p * den > 0) by (nonlinear_arith)
                requires
                    p > 0,
                    den > 0,
            ;
        }
        q = q * 2;
        e = e - 1;
    }
    let (p, d): (u128, u32) = split_point(q);
    let m: u64 = (q / p) as u64;
    let r: u128 = q % p;
    let half: u128 = p / 2;
    proof {
        if d == 2 && e > 0 {
            assert(q / 4u128 >= LEAST_SIGNIFICAND);
        }
        lemma_pow2_unfold(d as nat);
        lemma_fundamental_div_mod(q as int, p as int);
        lemma_mul_is_commutative(p as int, m as int);
        lemma_round_split(num, den, q as nat, e as nat, !sticky, m as nat, r as nat, d as nat);
    }
    let up: bool = r > half || (r == half && (sticky || m % 2 == 1));
    let m: u64 = if up {
        m + 1
    } else {
        m
    };
    let k: u32 = e + d - 2;
    proof {
        lemma_encode(m as nat, k as nat);
    }
    let bits: u64 = k as u64 * LEAST_SIGNIFICAND + m;
    if bits < INFINITY_BITS {
        bits
    } else {
        INFINITY_BITS
    }
}

} // verus!
