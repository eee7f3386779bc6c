//! Binary64 numbers, held as their bits and computed with as integers.

use vstd::prelude::*;
use vstd::arithmetic::power2::*;
use vstd::arithmetic::mul::*;
use vstd::arithmetic::div_mod::*;
use vstd::math::*;

use crate::rounding;
use crate::rounding::{INFINITY_BITS, LEAST_SIGNIFICAND, SIGNIFICAND_LIMIT};

verus! {

/// The sign bit.
pub const SIGN_BIT: u64 = 0x8000_0000_0000_0000;

/// The bits of the number that stands for an undefined result.
pub const NAN_BITS: u64 = 0x7FF8_0000_0000_0000;

/// The bits of one.
pub const ONE_BITS: u64 = 0x3FF0_0000_0000_0000;

/// The bits of two.
pub const TWO_BITS: u64 = 0x4000_0000_0000_0000;

/// An IEEE 754 binary64 number.
#[derive(Clone, Copy, Debug)]
pub struct Binary64 {
    /// Sign, exponent and significand, as `to_bits` of the machine type gives them.
    pub bits: u64,
}

impl Binary64 {
    /// Whether the sign bit is set.
    pub open spec fn negative(self) -> bool {
        self.bits >= SIGN_BIT
    }

    /// The bits below the sign bit.
    pub open spec fn unsigned_bits(self) -> nat {
        if self.negative() {
            (self.bits - SIGN_BIT) as nat
        } else {
            self.bits as nat
        }
    }

    /// Not a number.
    pub open spec fn nan(self) -> bool {
        self.unsigned_bits() > INFINITY_BITS
    }

    /// One of the two infinities.
    pub open spec fn infinite(self) -> bool {
        self.unsigned_bits() == INFINITY_BITS
    }

    /// Neither an infinity nor not a number.
    pub open spec fn finite(self) -> bool {
        self.unsigned_bits() < INFINITY_BITS
    }

    /// The magnitude, counted in units of two to the power of minus 1074.
    pub open spec fn units(self) -> nat {
        rounding::magnitude(self.unsigned_bits())
    }

    /// The value, counted in units of two to the power of minus 1074. The
    /// infinities lie beyond all finite values.
    pub open spec fn value(self) -> int {
        if self.negative() {
            -(self.units() as int)
        } else {
            self.units() as int
        }
    }

    /// The number with the sign and the bits below it.
    pub open spec fn signed(negative: bool, unsigned_bits: nat) -> Binary64 {
        Binary64 {
            bits: (if negative {
                SIGN_BIT + unsigned_bits
            } else {
                unsigned_bits as int
            }) as u64,
        }
    }

    /// Not a number, in the one form in which undefined results come here; the
    /// machine leaves its sign and payload open.
    pub open spec fn undefined() -> Binary64 {
        Binary64 { bits: NAN_BITS }
    }

    /// The number nearest to `exact` units, which are not zero.
    pub open spec fn nearest(exact: int) -> Binary64 {
        if exact < 0 {
            Binary64::signed(true, rounding::rounded((-exact) as nat, 1))
        } else {
            Binary64::signed(false, rounding::rounded(exact as nat, 1))
        }
    }

    /// `self` is a smaller number than `other`.
    pub open spec fn less(self, other: Binary64) -> bool {
        !self.nan() && !other.nan() && self.value() < other.value()
    }

    /// `self` and `other` are the same number; the two zeros are.
    pub open spec fn same(self, other: Binary64) -> bool {
        !self.nan() && !other.nan() && self.value() == other.value()
    }

    /// Without its sign.
    pub open spec fn magnitude(self) -> Binary64 {
        Binary64::signed(false, self.unsigned_bits())
    }

    /// With the other sign.
    pub open spec fn opposite(self) -> Binary64 {
        Binary64::signed(!self.negative(), self.unsigned_bits())
    }

    /// `self - other`.
    pub open spec fn difference(self, other: Binary64) -> Binary64 {
        if self.nan() || other.nan() {
            Binary64::undefined()
        } else if self.infinite() && other.infinite() && self.negative() == other.negative() {
            Binary64::undefined()
        } else if self.infinite() {
            self
        } else if other.infinite() {
            other.opposite()
        } else if self.value() == other.value() {
            Binary64::signed(self.negative() && !other.negative(), 0)
        } else {
            Binary64::nearest(self.value() - other.value())
        }
    }

    /// `self + other`.
    pub open spec fn sum(self, other: Binary64) -> Binary64 {
        self.difference(other.opposite())
    }

    /// `self / other`.
    pub open spec fn quotient(self, other: Binary64) -> Binary64 {
        let negative = self.negative() != other.negative();
        if self.nan() || other.nan() {
            Binary64::undefined()
        } else if self.infinite() && other.infinite() {
            Binary64::undefined()
        } else if self.units() == 0 && other.units() == 0 {
            Binary64::undefined()
        } else if self.infinite() || other.units() == 0 {
            Binary64::signed(negative, INFINITY_BITS as nat)
        } else if other.infinite() {
            Binary64::signed(negative, 0)
        } else {
            Binary64::signed(negative, rounding::rounded(self.units() * pow2(1074), other.units()))
        }
    }

    /// Half of the number.
    pub open spec fn half(self) -> Binary64 {
        self.quotient(Binary64 { bits: TWO_BITS })
    }

    /// The number nearest to the natural number `n`.
    pub open spec fn of_nat(n: nat) -> Binary64 {
        Binary64::signed(false, rounding::rounded(n * pow2(1074), 1))
    }

    /// The number nearest to `n` parts of two to the power of sixteen.
    pub open spec fn of_scaled(n: int) -> Binary64 {
        Binary64::nearest(n * pow2(1058))
    }

    /// The parts of two to the power of sixteen in the number, cut off towards
    /// zero and then to the range of `i64`; none in what is not a number.
    pub open spec fn scaled(self) -> int {
        let parts = (self.units() / pow2(1058)) as int;
        if self.nan() {
            0
        } else if self.negative() {
            if parts > -i64::MIN {
                i64::MIN as int
            } else {
                -parts
            }
        } else {
            if parts > i64::MAX {
                i64::MAX as int
            } else {
                parts
            }
        }
    }
}

/// The order of bits without a sign is the order of magnitudes.
proof fn lemma_magnitude_order(a: nat, b: nat)
    ensures
        (a < b) == (rounding::magnitude(a) < rounding::magnitude(b)),
        (a == b) == (rounding::magnitude(a) == rounding::magnitude(b)),
        rounding::magnitude(0) == 0,
{
    if a < b {
        rounding::lemma_magnitude_increases(a, b);
    } else if b < a {
        rounding::lemma_magnitude_increases(b, a);
    }
}

/// Two to the power of `d`.
fn power_of_two(d: u32) -> (p: u128)
    requires
        d <= 64,
    ensures
        p == pow2(d as nat),
        0 < p <= 0x1_0000_0000_0000_0000,
{
    let mut p: u128 = 1;
    let mut i: u32 = 0;
    proof {
        lemma2_to64();
        lemma2_to64_rest();
    }
    while i < d
        invariant
            i <= d <= 64,
            0 < p == pow2(i as nat),
            pow2(64) == 0x1_0000_0000_0000_0000,
        decreases d - i,
    {
        proof {
            lemma_pow2_unfold((i + 1) as nat);
            if i + 1 < 64 {
                lemma_pow2_strictly_increases((i + 1) as nat, 64);
            }
        }
        p = p * 2;
        i = i + 1;
    }
    proof {
        if d < 64 {
            lemma_pow2_strictly_increases(d as nat, 64);
        }
    }
    p
}

/// The significand and the exponent of a magnitude.
fn significand(unsigned_bits: u64) -> (parts: (u64, u32))
    requires
        unsigned_bits <= INFINITY_BITS,
    ensures
        rounding::magnitude(unsigned_bits as nat) == parts.0 * pow2(parts.1 as nat),
        parts.0 < SIGNIFICAND_LIMIT,
        parts.1 <= 2046,
        parts.1 > 0 ==> parts.0 >= LEAST_SIGNIFICAND,
        unsigned_bits == parts.1 * LEAST_SIGNIFICAND + parts.0,
{
    proof {
        lemma2_to64();
    }
    if unsigned_bits < SIGNIFICAND_LIMIT {
        proof {
            rounding::lemma_magnitude(unsigned_bits as nat, 0);
        }
        (unsigned_bits, 0)
    } else {
        let k: u32 = (unsigned_bits / LEAST_SIGNIFICAND - 1) as u32;
        (LEAST_SIGNIFICAND + unsigned_bits % LEAST_SIGNIFICAND, k)
    }
}

impl Binary64 {
    /// The bits below the sign bit.
    fn without_sign(self) -> (bits: u64)
        ensures
            bits == self.unsigned_bits(),
            bits < SIGN_BIT,
    {
        if self.bits >= SIGN_BIT {
            self.bits - SIGN_BIT
        } else {
            self.bits
        }
    }

    /// The number with the sign and the bits below it.
    fn with_sign(negative: bool, unsigned_bits: u64) -> (number: Binary64)
        requires
            unsigned_bits < SIGN_BIT,
        ensures
            number == Binary64::signed(negative, unsigned_bits as nat),
    {
        Binary64 {
            bits: if negative {
                SIGN_BIT + unsigned_bits
            } else {
                unsigned_bits
            },
        }
    }

    /// Whether this is neither an infinity nor not a number.
    pub fn is_finite(self) -> (yes: bool)
        ensures
            yes == self.finite(),
    {
        self.without_sign() < INFINITY_BITS
    }

    /// Whether `self < other`.
    pub fn is_less(self, other: Binary64) -> (yes: bool)
        ensures
            yes == self.less(other),
    {
        let a: u64 = self.without_sign();
        let b: u64 = other.without_sign();
        proof {
            lemma_magnitude_order(a as nat, b as nat);
            lemma_magnitude_order(0, a as nat);
            lemma_magnitude_order(0, b as nat);
        }
        if a > INFINITY_BITS || b > INFINITY_BITS {
            false
        } else if self.bits >= SIGN_BIT {
            if other.bits >= SIGN_BIT {
                b < a
            } else {
                a > 0 || b > 0
            }
        } else {
            other.bits < SIGN_BIT && a < b
        }
    }

    /// The number without its sign.
    pub fn abs(self) -> (number: Binary64)
        ensures
            number == self.magnitude(),
    {
        Binary64::with_sign(false, self.without_sign())
    }

    /// The number with the other sign.
    pub fn negated(self) -> (number: Binary64)
        ensures
            number == self.opposite(),
    {
        Binary64::with_sign(self.bits < SIGN_BIT, self.without_sign())
    }
}

impl PartialEq for Binary64 {
    fn eq(&self, other: &Binary64) -> (yes: bool) {
        let a: u64 = self.without_sign();
        let b: u64 = other.without_sign();
        proof {
            lemma_magnitude_order(a as nat, b as nat);
            lemma_magnitude_order(0, a as nat);
            lemma_magnitude_order(0, b as nat);
        }
        if a > INFINITY_BITS || b > INFINITY_BITS {
            false
        } else {
            self.bits == other.bits || (a == 0 && b == 0)
        }
    }
}

impl vstd::std_specs::cmp::PartialEqSpecImpl for Binary64 {
    open spec fn obeys_eq_spec() -> bool {
        true
    }

    open spec fn eq_spec(&self, other: &Binary64) -> bool {
        self.same(*other)
    }
}

/// The magnitude nearest to the sum, or the difference, of two magnitudes.
#[verifier::rlimit(30)]
fn combine(larger: u64, smaller: u64, subtract: bool) -> (bits: u64)
    requires
        smaller <= larger < INFINITY_BITS,
    ensures
        ({
            let (x, y) = (
                rounding::magnitude(larger as nat),
                rounding::magnitude(smaller as nat),
            );
            &&& y <= x
            &&& bits == rounding::rounded(
                if subtract {
                    (x - y) as nat
                } else {
                    x + y
                },
                1,
            )
        }),
        bits <= INFINITY_BITS,
{
    let (mx, kx): (u64, u32) = significand(larger);
    let (my, ky): (u64, u32) = significand(smaller);
    let ghost x = rounding::magnitude(larger as nat);
    let ghost y = rounding::magnitude(smaller as nat);
    let ghost num: nat = if subtract {
        (x - y) as nat
    } else {
        x + y
    };
    proof {
        lemma_magnitude_order(smaller as nat, larger as nat);
    }
    let d: u32 = kx - ky;
    if d <= 55 {
        let p: u128 = power_of_two(d);
        proof {
            if d < 55 {
                lemma_pow2_strictly_increases(d as nat, 55);
            }
            lemma2_to64_rest();
            lemma_pow2_adds(d as nat, ky as nat);
            let py = pow2(ky as nat);
            lemma_pow2_pos(ky as nat);
            assert(mx * p <= SIGNIFICAND_LIMIT * 0x80_0000_0000_0000) by (nonlinear_arith)
                requires
                    0 <= mx < SIGNIFICAND_LIMIT,
                    0 <= p <= 0x80_0000_0000_0000,
            ;
            assert(mx * p >= 0) by (nonlinear_arith);
            assert(x == (mx * p) * py) by (nonlinear_arith)
                requires
                    x == mx * (p * py),
            ;
            assert(my <= mx * p) by {
                lemma_mul_inequality_converse(my as int, (mx * p) as int, py as int);
            }
            let q = if subtract {
                4 * (mx * p - my)
            } else {
                4 * (mx * p + my)
            };
            assert(q * py * 1 == 4 * num) by (nonlinear_arith)
                requires
                    x == (mx * p) * py,
                    y == my * py,
                    num == if subtract { x - y } else { (x + y) as int },
                    q == if subtract { 4 * (mx * p - my) } else { 4 * (mx * p + my) },
            ;
            assert((q + 1) * py * 1 == q * py + py) by (nonlinear_arith);
        }
        let aligned: u128 = mx as u128 * p;
        let q: u128 = if subtract {
            4 * (aligned - my as u128)
        } else {
            4 * (aligned + my as u128)
        };
        rounding::round_quarters(q, ky, false, Ghost(num), Ghost(1))
    } else {
        let sticky: bool = my != 0;
        let q: u128 = if subtract && sticky {
            8 * mx as u128 - 1
        } else {
            8 * mx as u128
        };
        proof {
            lemma_pow2_unfold(kx as nat);
            let pe = pow2((kx - 1) as nat);
            let py = pow2(ky as nat);
            lemma_pow2_pos(ky as nat);
            lemma_pow2_pos((kx - 1) as nat);
            lemma2_to64_rest();
            lemma_pow2_adds(55, ky as nat);
            if 55 + ky < kx - 1 {
                lemma_pow2_strictly_increases((55 + ky) as nat, (kx - 1) as nat);
            }
            assert(0x80_0000_0000_0000 * py <= pe);
            assert(4 * (my * py) < pe) by (nonlinear_arith)
                requires
                    0 <= my < SIGNIFICAND_LIMIT,
                    0x80_0000_0000_0000 * py <= pe,
                    py > 0,
            ;
            assert(sticky ==> my * py > 0) by (nonlinear_arith)
                requires
                    sticky ==> my > 0,
                    py > 0,
            ;
            assert(my == 0 ==> my * py == 0);
            assert(4 * x == (8 * mx) * pe) by (nonlinear_arith)
                requires
                    x == mx * (2 * pe),
            ;
            assert((8 * mx - 1) * pe == (8 * mx) * pe - pe) by (nonlinear_arith);
            assert((8 * mx + 1) * pe == (8 * mx) * pe + pe) by (nonlinear_arith);
            assert(q * pe * 1 == q * pe);
            assert((q + 1) * pe * 1 == (q + 1) * pe);
        }
        rounding::round_quarters(q, kx - 1, sticky, Ghost(num), Ghost(1))
    }
}

impl Binary64 {
    /// `self - other`.
    pub fn minus(self, other: Binary64) -> (number: Binary64)
        ensures
            number == self.difference(other),
    {
        let a: u64 = self.without_sign();
        let b: u64 = other.without_sign();
        let a_negative: bool = self.bits >= SIGN_BIT;
        let b_negative: bool = other.bits >= SIGN_BIT;
        proof {
            lemma_magnitude_order(a as nat, b as nat);
            lemma_magnitude_order(0, a as nat);
            lemma_magnitude_order(0, b as nat);
        }
        if a > INFINITY_BITS || b > INFINITY_BITS {
            Binary64 { bits: NAN_BITS }
        } else if a == INFINITY_BITS && b == INFINITY_BITS && a_negative == b_negative {
            Binary64 { bits: NAN_BITS }
        } else if a == INFINITY_BITS {
            self
        } else if b == INFINITY_BITS {
            other.negated()
        } else if a == 0 && b == 0 {
            Binary64::with_sign(a_negative && !b_negative, 0)
        } else if a_negative == b_negative && a == b {
            Binary64::with_sign(false, 0)
        } else if a >= b {
            Binary64::with_sign(a_negative, combine(a, b, a_negative == b_negative))
        } else {
            Binary64::with_sign(!b_negative, combine(b, a, a_negative == b_negative))
        }
    }

    /// `self + other`.
    pub fn plus(self, other: Binary64) -> (number: Binary64)
        ensures
            number == self.sum(other),
    {
        self.minus(other.negated())
    }

    /// The number nearest to `n`.
    pub fn from_u64(n: u64) -> (number: Binary64)
        ensures
            number == Binary64::of_nat(n as nat),
    {
        let q: u128 = 4 * n as u128;
        proof {
            let p = pow2(1074);
            lemma_pow2_pos(1074);
            assert(q * p * 1 == 4 * (n * p)) by (nonlinear_arith)
                requires
                    q == 4 * n,
            ;
            assert((q + 1) * p * 1 == q * p + p) by (nonlinear_arith);
        }
        let bits: u64 = rounding::round_quarters(
            q,
            1074,
            false,
            Ghost(n as nat * pow2(1074)),
            Ghost(1),
        );
        Binary64::with_sign(false, bits)
    }

    /// The number nearest to `n` parts of two to the power of sixteen.
    pub fn from_scaled(n: i64) -> (number: Binary64)
        ensures
            number == Binary64::of_scaled(n as int),
    {
        let size: u128 = if n < 0 {
            (-(n as i128)) as u128
        } else {
            n as u128
        };
        let q: u128 = 4 * size;
        proof {
            let p = pow2(1058);
            lemma_pow2_pos(1058);
            assert(q * p * 1 == 4 * (size * p)) by (nonlinear_arith)
                requires
                    q == 4 * size,
            ;
            assert((q + 1) * p * 1 == q * p + p) by (nonlinear_arith);
            assert(n < 0 ==> n * p < 0 && size * p == -(n * p)) by (nonlinear_arith)
                requires
                    n < 0 ==> size == -n,
                    p > 0,
            ;
            assert(n >= 0 ==> n * p >= 0) by (nonlinear_arith)
                requires
                    p > 0,
            ;
        }
        let bits: u64 = rounding::round_quarters(
            q,
            1058,
            false,
            Ghost(size as nat * pow2(1058)),
            Ghost(1),
        );
        Binary64::with_sign(n < 0, bits)
    }
}

/// A significand of full length, and how far it was moved to be that.
fn normalised(m: u64) -> (full: (u64, u32))
    requires
        0 < m < SIGNIFICAND_LIMIT,
    ensures
        LEAST_SIGNIFICAND <= full.0 < SIGNIFICAND_LIMIT,
        full.0 == m * pow2(full.1 as nat),
        full.1 <= 52,
{
    proof {
        lemma2_to64();
        lemma2_to64_rest();
    }
    let mut full: u64 = m;
    let mut s: u32 = 0;
    while full < LEAST_SIGNIFICAND
        invariant
            0 < m < SIGNIFICAND_LIMIT,
            0 < full < SIGNIFICAND_LIMIT,
            full == m * pow2(s as nat),
            s <= 52,
            pow2(52) == LEAST_SIGNIFICAND,
        decreases 52 - s,
    {
        proof {
            let p = pow2(s as nat);
            if s == 52 {
                assert(m * p >= LEAST_SIGNIFICAND) by (nonlinear_arith)
                    requires
                        m >= 1,
                        p == LEAST_SIGNIFICAND,
                ;
            }
            lemma_pow2_unfold((s + 1) as nat);
            assert(m * (2 * p) == 2 * (m * p)) by (nonlinear_arith);
        }
        full = full * 2;
        s = s + 1;
    }
    (full, s)
}

/// A quotient of two full significands `a * 2^w / b`, cut off to a whole number,
/// brackets the quarter units of a ratio that is `2^e` times as large.
#[verifier::rlimit(30)]
proof fn lemma_quotient_brackets(
    num: nat,
    den: nat,
    a: nat,
    b: nat,
    w: nat,
    e: nat,
    q: nat,
    r: nat,
)
    requires
        b > 0,
        den > 0,
        4 * num * b == a * den * pow2(w + e),
        a * pow2(w) == b * q + r,
        r < b,
    ensures
        q * pow2(e) * den <= 4 * num < (q + 1) * pow2(e) * den,
        (r == 0) <==> q * pow2(e) * den == 4 * num,
{
    let (pw, pe) = (pow2(w), pow2(e));
    lemma_pow2_adds(w, e);
    lemma_pow2_pos(e);
    let c = pe * den;
    assert(c > 0) by (nonlinear_arith)
        requires
            c == pe * den,
            pe > 0,
            den > 0,
    ;
    assert(4 * num * b == (q * c) * b + r * c) by (nonlinear_arith)
        requires
            4 * num * b == a * den * (pw * pe),
            a * pw == b * q + r,
            c == pe * den,
    ;
    assert(0 <= r * c < b * c) by (nonlinear_arith)
        requires
            0 <= r < b,
            c > 0,
    ;
    assert(r == 0 <==> r * c == 0) by (nonlinear_arith)
        requires
            c > 0,
    ;
    assert((q * c) <= 4 * num < (q + 1) * c && (r * c == 0 <==> q * c == 4 * num)) by (
    nonlinear_arith)
        requires
            4 * num * b == (q * c) * b + r * c,
            0 <= r * c < b * c,
            b > 0,
    ;
    assert(q * pe * den == q * c) by (nonlinear_arith)
        requires
            c == pe * den,
    ;
    assert((q + 1) * pe * den == (q + 1) * c) by (nonlinear_arith)
        requires
            c == pe * den,
    ;
}

/// The magnitude nearest to the quotient of two magnitudes.
#[verifier::rlimit(30)]
fn divide(dividend: u64, divisor: u64) -> (bits: u64)
    requires
        0 < dividend < INFINITY_BITS,
        0 < divisor < INFINITY_BITS,
    ensures
        bits == rounding::rounded(
            rounding::magnitude(dividend as nat) * pow2(1074),
            rounding::magnitude(divisor as nat),
        ),
        bits <= INFINITY_BITS,
{
    let (ma, ka): (u64, u32) = significand(dividend);
    let (mb, kb): (u64, u32) = significand(divisor);
    let (a, sa): (u64, u32) = normalised(ma);
    let (b, sb): (u64, u32) = normalised(mb);
    let up: u32 = ka + sb + 1076;
    let down: u32 = kb + sa;
    let ghost num = rounding::magnitude(dividend as nat) * pow2(1074);
    let ghost den = rounding::magnitude(divisor as nat);
    proof {
        lemma_magnitude_order(0, divisor as nat);
        lemma_magnitude_order(0, dividend as nat);
        lemma2_to64();
        lemma2_to64_rest();
        let (pka, pkb) = (pow2(ka as nat), pow2(kb as nat));
        let (psa, psb) = (pow2(sa as nat), pow2(sb as nat));
        let p = pow2(1074);
        lemma_pow2_adds(ka as nat, sb as nat);
        lemma_pow2_adds((ka + sb) as nat, 1074);
        lemma_pow2_adds((ka + sb + 1074) as nat, 2);
        lemma_pow2_adds(kb as nat, sa as nat);
        let (pu, pd) = (pow2(up as nat), pow2(down as nat));
        // Both sides of the ratio, with the movements of the significands undone.
        assert(4 * num * b * pd == a * den * pu) by {
            let (x, y, z) = (ma * mb, psa * pkb, pka * psb * p);
            assert(num == ma * pka * p);
            assert(pu == 4 * z);
            assert(num * b == x * z) by {
                assert((ma * pka) * (mb * psb) == x * (pka * psb)) by (nonlinear_arith)
                    requires
                        x == ma * mb,
                ;
                lemma_mul_is_associative(x as int, (pka * psb) as int, p as int);
                assert(num * b == ((ma * pka) * b) * p) by (nonlinear_arith)
                    requires
                        num == (ma * pka) * p,
                ;
            }
            assert(a * den == x * y) by (nonlinear_arith)
                requires
                    a == ma * psa,
                    den == mb * pkb,
                    x == ma * mb,
                    y == psa * pkb,
            ;
            assert(pd == y) by {
                lemma_mul_is_commutative(pkb as int, psa as int);
            }
            let xz = x * z;
            assert(4 * num * b == 4 * xz) by (nonlinear_arith)
                requires
                    num * b == xz,
            ;
            assert((4 * xz) * y == (x * y) * (4 * z)) by (nonlinear_arith)
                requires
                    xz == x * z,
            ;
        }
        lemma_pow2_pos(down as nat);
        if up >= down {
            let t = (up - down) as nat;
            lemma_pow2_adds(t, down as nat);
            assert(4 * num * b == a * den * pow2(t)) by (nonlinear_arith)
                requires
                    4 * num * b * pd == a * den * pu,
                    pu == pow2(t) * pd,
                    pd > 0,
            ;
        }
    }
    if up >= down {
        let t: u32 = up - down;
        let w: u32 = if t < 58 {
            t
        } else {
            58
        };
        let p: u128 = power_of_two(w);
        proof {
            if w < 58 {
                lemma_pow2_strictly_increases(w as nat, 58);
            }
            assert(0 <= a * p <= SIGNIFICAND_LIMIT * 0x400_0000_0000_0000) by (nonlinear_arith)
                requires
                    0 <= a < SIGNIFICAND_LIMIT,
                    0 <= p <= 0x400_0000_0000_0000,
            ;
        }
        let top: u128 = a as u128 * p;
        let q: u128 = top / b as u128;
        let r: u128 = top % b as u128;
        proof {
            lemma_fundamental_div_mod(top as int, b as int);
            lemma_quotient_brackets(
                num,
                den,
                a as nat,
                b as nat,
                w as nat,
                (t - w) as nat,
                q as nat,
                r as nat,
            );
            assert(q <= top) by (nonlinear_arith)
                requires
                    top == b * q + r,
                    b >= 1,
                    r >= 0,
                    q >= 0,
            ;
            if t >= 58 {
                assert(q >= 0x40_0000_0000_0000) by (nonlinear_arith)
                    requires
                        top == b * q + r,
                        0 <= r < b,
                        b < SIGNIFICAND_LIMIT,
                        a >= LEAST_SIGNIFICAND,
                        top == a * 0x400_0000_0000_0000,
                ;
            }
        }
        rounding::round_quarters(q, t - w, r != 0, Ghost(num), Ghost(den))
    } else {
        proof {
            let (pu, pd) = (pow2(up as nat), pow2(down as nat));
            lemma_pow2_pos(up as nat);
            lemma_pow2_unfold(down as nat);
            if up < down - 1 {
                lemma_pow2_strictly_increases(up as nat, (down - 1) as nat);
            }
            assert(4 * num < den) by (nonlinear_arith)
                requires
                    4 * num * b * pd == a * den * pu,
                    a < 2 * b,
                    2 * pu <= pd,
                    pu > 0,
                    b > 0,
                    den > 0,
            ;
            assert(num > 0) by (nonlinear_arith)
                requires
                    4 * num * b * pd == a * den * pu,
                    a > 0,
                    den > 0,
                    pu > 0,
            ;
            let one = pow2(0);
            assert(0 * one * den == 0) by (nonlinear_arith);
            assert((0 + 1) * one * den == den) by (nonlinear_arith)
                requires
                    one == 1,
            ;
        }
        rounding::round_quarters(0, 0, true, Ghost(num), Ghost(den))
    }
}

impl Binary64 {
    /// `self / other`.
    pub fn divided_by(self, other: Binary64) -> (number: Binary64)
        ensures
            number == self.quotient(other),
    {
        let a: u64 = self.without_sign();
        let b: u64 = other.without_sign();
        let negative: bool = (self.bits >= SIGN_BIT) != (other.bits >= SIGN_BIT);
        proof {
            lemma_magnitude_order(0, a as nat);
            lemma_magnitude_order(0, b as nat);
        }
        if a > INFINITY_BITS || b > INFINITY_BITS {
            Binary64 { bits: NAN_BITS }
        } else if (a == INFINITY_BITS && b == INFINITY_BITS) || (a == 0 && b == 0) {
            Binary64 { bits: NAN_BITS }
        } else if a == INFINITY_BITS || b == 0 {
            Binary64::with_sign(negative, INFINITY_BITS)
        } else if b == INFINITY_BITS {
            Binary64::with_sign(negative, 0)
        } else if a == 0 {
            proof {
                lemma_zero_rounds_to_zero(other.units());
            }
            Binary64::with_sign(negative, 0)
        } else {
            Binary64::with_sign(negative, divide(a, b))
        }
    }

    /// The parts of two to the power of sixteen in the number, cut off towards
    /// zero and to the range of `i64`.
    pub fn to_scaled(self) -> (parts: i64)
        ensures
            parts == self.scaled(),
    {
        let unsigned_bits: u64 = self.without_sign();
        if unsigned_bits > INFINITY_BITS {
            return 0;
        }
        let (m, k): (u64, u32) = significand(unsigned_bits);
        let ghost units = rounding::magnitude(unsigned_bits as nat);
        let ghost unit = pow2(1058);
        proof {
            lemma2_to64();
            lemma2_to64_rest();
            lemma_pow2_pos(1058);
        }
        // At most two to the power of 63, where everything from there on is cut off.
        let size: u128 = if k >= 1069 {
            proof {
                lemma_pow2_adds(11, 1058);
                if k > 1069 {
                    lemma_pow2_strictly_increases(1069, k as nat);
                }
                let pk = pow2(k as nat);
                assert(m * pk >= 0x8000_0000_0000_0000 * unit) by (nonlinear_arith)
                    requires
                        m >= LEAST_SIGNIFICAND,
                        pk >= 2048 * unit,
                        unit > 0,
                ;
                assert(units / unit >= 0x8000_0000_0000_0000) by {
                    lemma_div_is_ordered(
                        (0x8000_0000_0000_0000 * unit) as int,
                        units as int,
                        unit as int,
                    );
                    lemma_div_by_multiple(0x8000_0000_0000_0000, unit as int);
                }
            }
            0x8000_0000_0000_0000
        } else if k >= 1058 {
            let p: u128 = power_of_two(k - 1058);
            proof {
                lemma_pow2_adds((k - 1058) as nat, 1058);
                if k < 1068 {
                    lemma_pow2_strictly_increases((k - 1058) as nat, 10);
                }
                assert(0 <= m * p < 0x8000_0000_0000_0000) by (nonlinear_arith)
                    requires
                        0 <= m < SIGNIFICAND_LIMIT,
                        0 < p <= 1024,
                ;
                assert(m * (p * unit) == (m * p) * unit) by (nonlinear_arith);
                lemma_div_by_multiple((m * p) as int, unit as int);
            }
            m as u128 * p
        } else if k >= 1005 {
            let p: u128 = power_of_two(1058 - k);
            proof {
                let pk = pow2(k as nat);
                lemma_pow2_pos(k as nat);
                lemma_pow2_adds((1058 - k) as nat, k as nat);
                assert(units / unit == m as int / p as int) by {
                    lemma_mul_is_commutative(p as int, pk as int);
                    lemma_mul_is_commutative(m as int, pk as int);
                    lemma_truncate_common(m as int, pk as int, p as int);
                }
            }
            m as u128 / p
        } else {
            proof {
                lemma_pow2_adds(53, k as nat);
                lemma_pow2_pos(k as nat);
                if k < 1005 {
                    lemma_pow2_strictly_increases((53 + k) as nat, 1058);
                }
                let pk = pow2(k as nat);
                assert(m * pk < unit) by (nonlinear_arith)
                    requires
                        m < SIGNIFICAND_LIMIT,
                        SIGNIFICAND_LIMIT * pk <= unit,
                        pk > 0,
                ;
                lemma_basic_div(units as int, unit as int);
            }
            0
        };
        if self.bits >= SIGN_BIT {
            (-(size as i128)) as i64
        } else if size > i64::MAX as u128 {
            i64::MAX
        } else {
            size as i64
        }
    }
}

/// Nothing, divided, is nothing.
pub(crate) proof fn lemma_zero_rounds_to_zero(den: nat)
    requires
        den > 0,
    ensures
        rounding::rounded(0 * pow2(1074), den) == 0,
{
    assert(0 * pow2(1074) == 0);
    lemma_div_of0(den as int);
    assert(rounding::spacing(0) == 1);
    lemma_div_of0((den * 1) as int);
    lemma_small_mod(0, den);
}

/// A common factor leaves a quotient as it is.
proof fn lemma_truncate_common(a: int, c: int, b: int)
    requires
        a >= 0,
        b > 0,
        c > 0,
    ensures
        (c * a) / (c * b) == a / b,
{
    lemma_mul_strictly_positive(c, b);
    lemma_fundamental_div_mod(a, b);
    lemma_mod_bound(a, b);
    let (q, r) = (a / b, a % b);
    assert(c * a == (c * b) * q + c * r) by (nonlinear_arith)
        requires
            a == b * q + r,
    ;
    assert(0 <= c * r < c * b) by (nonlinear_arith)
        requires
            0 <= r < b,
            c > 0,
    ;
    lemma_fundamental_div_mod_converse(c * a, c * b, q, c * r);
}

/// A whole number of parts that was held as a binary64 number comes back rounded to
/// 53 significant bits, and at most `i64::MAX`.
pub(crate) proof fn lemma_scaled_of_scaled(n: int)
    requires
        i64::MIN <= n <= i64::MAX,
    ensures
        Binary64::of_scaled(n).finite(),
        Binary64::of_scaled(n).negative() == (n < 0),
        n > 0 ==> Binary64::of_scaled(n).value() > 0,
        n == 0 ==> Binary64::of_scaled(n).value() == 0,
        Binary64::of_scaled(n).units() == rounding::round_ratio(
            (if n < 0 {
                -n
            } else {
                n
            }) as nat,
            1,
        ) * pow2(1058),
        Binary64::of_scaled(n).scaled() == if n < 0 {
            -(rounding::round_ratio((-n) as nat, 1) as int)
        } else if rounding::round_ratio(n as nat, 1) > i64::MAX {
            i64::MAX as int
        } else {
            rounding::round_ratio(n as nat, 1) as int
        },
{
    let size = (if n < 0 {
        -n
    } else {
        n
    }) as nat;
    let p = pow2(1058);
    let exact = size * p;
    lemma_pow2_pos(1058);
    lemma2_to64();
    lemma2_to64_rest();
    assert(n < 0 ==> n * p < 0 && size * p == -(n * p)) by (nonlinear_arith)
        requires
            n < 0 ==> size == -n,
            p > 0,
    ;
    assert(n >= 0 ==> n * p >= 0) by (nonlinear_arith)
        requires
            p > 0,
    ;
    // The bits stay below those of infinity.
    let (m, k) = rounding::lemma_round_form(exact, 1);
    rounding::lemma_encode(m, k);
    lemma_div_basics(exact as int);
    lemma_pow2_adds(63, 1058);
    assert(exact <= pow2(1121)) by (nonlinear_arith)
        requires
            exact == size * p,
            size <= 0x8000_0000_0000_0000,
            pow2(1121) == 0x8000_0000_0000_0000 * p,
    ;
    if k > 1069 {
        lemma_pow2_adds(52, k);
        lemma_pow2_strictly_increases(1121, 52 + k);
        assert(false);
    }
    rounding::lemma_rounded_magnitude(exact, 1);
    rounding::lemma_round_scaled(size, 1058);
    let r = rounding::round_ratio(size, 1);
    lemma_div_by_multiple(r as int, p as int);
    // What is rounded is at most two to the power of 63.
    let (ms, ks) = rounding::lemma_round_form(size, 1);
    lemma_div_basics(size as int);
    if size == 0x8000_0000_0000_0000 {
        rounding::lemma_round_small(LEAST_SIGNIFICAND as nat);
        rounding::lemma_round_scaled(LEAST_SIGNIFICAND as nat, 11);
    } else {
        if ks > 10 {
            if ks > 11 {
                lemma_pow2_strictly_increases(11, ks);
            }
            assert(false);
        }
        if ks < 10 {
            lemma_pow2_strictly_increases(ks, 10);
        }
        let ps = pow2(ks);
        lemma_pow2_pos(ks);
        assert(ms * ps <= 0x8000_0000_0000_0000) by (nonlinear_arith)
            requires
                ms <= SIGNIFICAND_LIMIT,
                0 < ps <= 1024,
        ;
    }
    if n > 0 {
        assert(r > 0) by {
            if size <= SIGNIFICAND_LIMIT {
                rounding::lemma_round_small(size);
            } else {
                let ps = pow2(ks);
                lemma_pow2_pos(ks);
                assert(ks > 0);
                assert(ms * ps > 0) by (nonlinear_arith)
                    requires
                        ms >= LEAST_SIGNIFICAND,
                        ps > 0,
                ;
            }
        }
        assert(r * p > 0) by (nonlinear_arith)
            requires
                r > 0,
                p > 0,
        ;
    } else if n == 0 {
        rounding::lemma_round_small(0);
    }
}

/// The value of a number with a sign and bits below it.
pub(crate) proof fn lemma_signed(negative: bool, unsigned_bits: nat)
    requires
        unsigned_bits <= INFINITY_BITS,
    ensures
        Binary64::signed(negative, unsigned_bits).unsigned_bits() == unsigned_bits,
        Binary64::signed(negative, unsigned_bits).negative() == negative,
        !Binary64::signed(negative, unsigned_bits).nan(),
{
}

/// Numbers are ordered as their values are: a finite one lies strictly between the
/// infinities, and of two magnitudes the one with the larger bits is larger.
pub(crate) proof fn lemma_value_order(a: Binary64, b: Binary64)
    ensures
        (a.unsigned_bits() < b.unsigned_bits()) == (a.units() < b.units()),
        (a.unsigned_bits() == b.unsigned_bits()) == (a.units() == b.units()),
        (a.unsigned_bits() == 0) == (a.units() == 0),
{
    lemma_magnitude_order(a.unsigned_bits(), b.unsigned_bits());
    lemma_magnitude_order(0, a.unsigned_bits());
}

/// A number, divided by itself, is one.
pub(crate) proof fn lemma_ratio_of_equals(units: nat)
    requires
        units > 0,
    ensures
        rounding::rounded(units * pow2(1074), units) == ONE_BITS,
{
    let p = pow2(1074);
    lemma_pow2_pos(1074);
    lemma2_to64();
    lemma2_to64_rest();
    lemma_pow2_adds(52, 1022);
    lemma_pow2_pos(1022);
    assert(p * units == (units * p) * 1) by (nonlinear_arith);
    rounding::rounding_keeps_order(units * p, units, p, 1);
    rounding::rounding_keeps_order(p, 1, units * p, units);
    rounding::lemma_magnitude(LEAST_SIGNIFICAND as nat, 1022);
    rounding::grid_points_stay(ONE_BITS as nat);
    assert(LEAST_SIGNIFICAND * pow2(1022) == p);
}

/// The larger of two numbers has no fewer parts.
pub proof fn scaled_keeps_order(a: Binary64, b: Binary64)
    requires
        !a.nan(),
        !b.nan(),
        !b.less(a),
    ensures
        a.scaled() <= b.scaled(),
{
    let p = pow2(1058) as int;
    lemma_pow2_pos(1058);
    lemma_div_pos_is_pos(a.units() as int, p);
    lemma_div_pos_is_pos(b.units() as int, p);
    if a.negative() && b.negative() {
        lemma_div_is_ordered(b.units() as int, a.units() as int, p);
    } else if !a.negative() && !b.negative() {
        lemma_div_is_ordered(a.units() as int, b.units() as int, p);
    } else if !a.negative() {
        // A negative number that is not below one that is not negative is zero.
        assert(a.units() == 0 && b.units() == 0);
        lemma_div_of0(p);
    }
}

/// Up to 53 bits, whole parts that were held as a binary64 number come back as they
/// were.
pub proof fn small_parts_come_back(n: int)
    requires
        -SIGNIFICAND_LIMIT <= n <= SIGNIFICAND_LIMIT,
    ensures
        Binary64::of_scaled(n).scaled() == n,
{
    lemma_scaled_of_scaled(n);
    rounding::lemma_round_small(
        (if n < 0 {
            -n
        } else {
            n
        }) as nat,
    );
}

/// One is two to the power of sixteen parts.
pub proof fn one_is_the_full_scale()
    ensures
        (Binary64 { bits: ONE_BITS }).scaled() == 0x1_0000,
        Binary64::of_scaled(0x1_0000) == (Binary64 { bits: ONE_BITS }),
{
    lemma2_to64();
    lemma2_to64_rest();
    lemma_pow2_adds(36, 1022);
    lemma_pow2_pos(1022);
    lemma_pow2_pos(1058);
    rounding::lemma_magnitude(LEAST_SIGNIFICAND as nat, 1022);
    let p = pow2(1022);
    assert(LEAST_SIGNIFICAND * p == 0x1_0000 * pow2(1058));
    lemma_div_by_multiple(0x1_0000, pow2(1058) as int);
    rounding::grid_points_stay(ONE_BITS as nat);
}

/// The significand and the exponent of a number that is not undefined.
pub(crate) proof fn lemma_units_form(x: Binary64) -> (form: (nat, nat))
    requires
        !x.nan(),
    ensures
        rounding::is_scaled_significand(form.0, form.1),
        form.0 < SIGNIFICAND_LIMIT,
        x.units() == form.0 * pow2(form.1),
        x.unsigned_bits() == form.1 * LEAST_SIGNIFICAND + form.0,
{
    let l = LEAST_SIGNIFICAND as nat;
    let bits = x.unsigned_bits();
    let (m, k) = if bits < l {
        (bits, 0nat)
    } else {
        (l + bits % l, (bits / l - 1) as nat)
    };
    assert(bits == k * l + m);
    rounding::lemma_magnitude(m, k);
    (m, k)
}

/// A number is a sign bit and a magnitude, the two operations on the sign change no
/// magnitude, and numbers are compared by their values; what is not a number compares
/// with nothing.
pub proof fn signs_and_magnitudes(x: Binary64, y: Binary64)
    ensures
        x.bits == x.unsigned_bits() + if x.negative() {
            0x8000_0000_0000_0000int
        } else {
            0
        },
        x.unsigned_bits() < 0x8000_0000_0000_0000,
        x.negative() ==> x.value() == -rounding::magnitude(x.unsigned_bits()),
        !x.negative() ==> x.value() == rounding::magnitude(x.unsigned_bits()),
        x.opposite().value() == -x.value(),
        x.opposite().negative() != x.negative(),
        !x.magnitude().negative(),
        x.magnitude().value() == abs(x.value()),
        x.opposite().nan() == x.nan(),
        x.magnitude().nan() == x.nan(),
        x.nan() <==> x.unsigned_bits() > 0x7FF0_0000_0000_0000,
        x.finite() <==> x.unsigned_bits() < 0x7FF0_0000_0000_0000,
        x.infinite() <==> x.unsigned_bits() == 0x7FF0_0000_0000_0000,
        x.nan() || y.nan() ==> !x.less(y) && !x.same(y),
        !x.nan() && !y.nan() ==> x.less(y) == (x.value() < y.value()) && x.same(y) == (x.value()
            == y.value()),
        vstd::std_specs::cmp::PartialEqSpec::eq_spec(&x, &y) <==> !x.nan() && !y.nan()
            && x.value() == y.value(),
{
}

/// What `signed` makes of a rounded ratio is nearest to the signed ratio.
proof fn lemma_signed_nearest(negative: bool, num: nat, den: nat, y: Binary64)
    requires
        den > 0,
        !y.nan(),
    ensures
        ({
            let d = Binary64::signed(negative, rounding::rounded(num, den));
            let exact = if negative {
                -(num as int)
            } else {
                num as int
            };
            &&& !d.nan()
            &&& d.negative() == negative
            &&& abs(d.value() * den - exact) <= abs(y.value() * den - exact)
            &&& d.value() != y.value() && abs(d.value() * den - exact) == abs(
                y.value() * den - exact,
            ) && num > 0 && d.value() != 0 ==> d.bits % 2 == 0
        }),
{
    let bits = rounding::rounded(num, den);
    let d = Binary64::signed(negative, bits);
    rounding::rounded_numbers_are_nearest(num, den, y.unsigned_bits());
    rounding::rounded_numbers_are_nearest(num, den, 0);
    lemma_signed(negative, bits);
    lemma_value_order(d, y);
    lemma_magnitude_order(0, 0);
    let (u, v, z) = (d.units() as int, y.units() as int, den as int);
    assert(0 * z == 0);
    assert((-u) * z == -(u * z)) by (nonlinear_arith);
    assert((-v) * z == -(v * z)) by (nonlinear_arith);
    assert(v * z >= 0 && u * z >= 0 && (u > 0 ==> u * z > 0) && (v > 0 ==> v * z > 0))
        by (nonlinear_arith)
        requires
            u >= 0,
            v >= 0,
            z > 0,
    ;
}

/// Some units are never rounded to none.
proof fn lemma_some_units_stay(negative: bool, units: nat)
    requires
        units > 0,
    ensures
        Binary64::signed(negative, rounding::rounded(units, 1)).value() != 0,
{
    let d = Binary64::signed(negative, rounding::rounded(units, 1));
    rounding::rounding_keeps_order(1, 1, units, 1);
    rounding::grid_points_stay(1);
    rounding::lemma_rounded_magnitude(units, 1);
    lemma_signed(negative, rounding::rounded(units, 1));
    lemma_value_order(d, d);
}

/// A difference is the number nearest to the exact difference: none is nearer, and where
/// another is as near, the last bit of the difference is zero. Infinity stands in the
/// place of the number after the largest. Nothing is left of two equal numbers, and it is
/// positive but for the difference of the negative and the positive zero.
pub proof fn differences_are_nearest(a: Binary64, b: Binary64, y: Binary64)
    requires
        a.finite(),
        b.finite(),
        !y.nan(),
    ensures
        ({
            let d = a.difference(b);
            let exact = a.value() - b.value();
            &&& !d.nan()
            &&& abs(d.value() - exact) <= abs(y.value() - exact)
            &&& d.value() != y.value() && abs(d.value() - exact) == abs(y.value() - exact)
                ==> d.bits % 2 == 0
            &&& exact != 0 ==> d.value() != 0 && d.negative() == (exact < 0)
            &&& exact == 0 ==> d.value() == 0 && d.negative() == (a.negative() && !b.negative())
        }),
{
    let exact = a.value() - b.value();
    let d = a.difference(b);
    if exact == 0 {
        lemma_signed(a.negative() && !b.negative(), 0);
        lemma_value_order(d, d);
    } else {
        let size = (if exact < 0 {
            -exact
        } else {
            exact
        }) as nat;
        lemma_signed_nearest(exact < 0, size, 1, y);
        lemma_some_units_stay(exact < 0, size);
        assert(d == Binary64::signed(exact < 0, rounding::rounded(size, 1)));
    }
}

/// A sum is the number nearest to the exact sum, as a difference is to the exact
/// difference. It is a negative zero only as the sum of two of them.
pub proof fn sums_are_nearest(a: Binary64, b: Binary64, y: Binary64)
    requires
        a.finite(),
        b.finite(),
        !y.nan(),
    ensures
        ({
            let d = a.sum(b);
            let exact = a.value() + b.value();
            &&& !d.nan()
            &&& abs(d.value() - exact) <= abs(y.value() - exact)
            &&& d.value() != y.value() && abs(d.value() - exact) == abs(y.value() - exact)
                ==> d.bits % 2 == 0
            &&& exact != 0 ==> d.value() != 0 && d.negative() == (exact < 0)
            &&& exact == 0 ==> d.value() == 0 && d.negative() == (a.negative() && b.negative())
        }),
{
    signs_and_magnitudes(b, b);
    differences_are_nearest(a, b.opposite(), y);
}

/// A quotient is the number nearest to the exact quotient, with the sign that the two
/// signs give.
pub proof fn quotients_are_nearest(a: Binary64, b: Binary64, y: Binary64)
    requires
        a.finite(),
        b.finite(),
        b.value() != 0,
        !y.nan(),
    ensures
        ({
            let q = a.quotient(b);
            let exact = a.units() * pow2(1074);
            &&& !q.nan()
            &&& q.negative() == (a.negative() != b.negative())
            &&& abs(q.units() * b.units() - exact) <= abs(y.units() * b.units() - exact)
            &&& q.units() != y.units() && abs(q.units() * b.units() - exact) == abs(
                y.units() * b.units() - exact,
            ) ==> q.bits % 2 == 0
        }),
{
    let q = a.quotient(b);
    let negative = a.negative() != b.negative();
    let num = a.units() * pow2(1074);
    lemma_pow2_pos(1074);
    rounding::rounded_numbers_are_nearest(num, b.units(), y.unsigned_bits());
    lemma_signed(negative, rounding::rounded(num, b.units()));
    lemma_value_order(q, y);
}

/// What comes of numbers of which one is infinite, zero or no number at all.
pub proof fn operations_beyond_the_finite(a: Binary64, b: Binary64)
    ensures
        a.difference(b).nan() <==> a.nan() || b.nan() || (a.infinite() && b.infinite()
            && a.negative() == b.negative()),
        a.sum(b).nan() <==> a.nan() || b.nan() || (a.infinite() && b.infinite() && a.negative()
            != b.negative()),
        !a.difference(b).nan() && a.infinite() ==> a.difference(b) == a,
        !a.difference(b).nan() && b.infinite() && !a.infinite() ==> a.difference(b).infinite()
            && a.difference(b).negative() != b.negative(),
        !a.sum(b).nan() && a.infinite() ==> a.sum(b) == a,
        !a.sum(b).nan() && b.infinite() && !a.infinite() ==> a.sum(b) == b,
        a.quotient(b).nan() <==> a.nan() || b.nan() || (a.infinite() && b.infinite()) || (a.value()
            == 0 && b.value() == 0),
        !a.quotient(b).nan() ==> a.quotient(b).negative() == (a.negative() != b.negative()),
        !a.quotient(b).nan() && (a.infinite() || b.value() == 0) ==> a.quotient(b).infinite(),
        !a.quotient(b).nan() && b.infinite() ==> a.quotient(b).value() == 0,
{
    signs_and_magnitudes(a, b);
    signs_and_magnitudes(b, b);
    lemma_signed(true, 0);
    lemma_signed(false, 0);
    lemma_signed(true, INFINITY_BITS as nat);
    lemma_signed(false, INFINITY_BITS as nat);
    lemma_value_order(a, a);
    lemma_value_order(b, b);
    lemma_value_order(a.quotient(b), a);
    if a.finite() && b.finite() {
        differences_are_nearest(a, b, a);
        sums_are_nearest(a, b, a);
        if b.value() != 0 {
            quotients_are_nearest(a, b, a);
        }
    }
}

/// A natural number, and a number of parts of two to the power of sixteen, are held as
/// the binary64 number nearest to them.
pub proof fn whole_numbers_are_held_as_the_nearest(n: nat, parts: int, y: Binary64)
    requires
        !y.nan(),
    ensures
        !Binary64::of_nat(n).nan(),
        !Binary64::of_nat(n).negative(),
        abs(Binary64::of_nat(n).value() - n * pow2(1074)) <= abs(y.value() - n * pow2(1074)),
        !Binary64::of_scaled(parts).nan(),
        Binary64::of_scaled(parts).negative() <==> parts < 0,
        abs(Binary64::of_scaled(parts).value() - parts * pow2(1058)) <= abs(
            y.value() - parts * pow2(1058),
        ),
        n > 0 && Binary64::of_nat(n).value() != y.value() && abs(
            Binary64::of_nat(n).value() - n * pow2(1074),
        ) == abs(y.value() - n * pow2(1074)) ==> Binary64::of_nat(n).bits % 2 == 0,
        parts != 0 && Binary64::of_scaled(parts).value() != y.value() && abs(
            Binary64::of_scaled(parts).value() - parts * pow2(1058),
        ) == abs(y.value() - parts * pow2(1058)) ==> Binary64::of_scaled(parts).bits % 2 == 0,
{
    lemma_pow2_pos(1058);
    lemma_pow2_pos(1074);
    lemma_signed_nearest(false, n * pow2(1074), 1, y);
    if n > 0 {
        lemma_mul_strictly_positive(n as int, pow2(1074) as int);
        lemma_some_units_stay(false, n * pow2(1074));
    }
    let exact = parts * pow2(1058);
    let size = (if exact < 0 {
        -exact
    } else {
        exact
    }) as nat;
    assert((exact < 0) == (parts < 0)) by (nonlinear_arith)
        requires
            exact == parts * pow2(1058),
            pow2(1058) > 0,
    ;
    lemma_signed_nearest(exact < 0, size, 1, y);
    if parts != 0 {
        assert(exact != 0) by (nonlinear_arith)
            requires
                exact == parts * pow2(1058),
                parts != 0,
                pow2(1058) > 0,
        ;
        lemma_some_units_stay(exact < 0, size);
    }
}

/// The parts of a number are cut off towards zero, and are at most as many as `i64`
/// holds; what is not a number has none.
pub proof fn parts_are_cut_off_towards_zero(x: Binary64)
    ensures
        i64::MIN <= x.scaled() <= i64::MAX,
        x.nan() ==> x.scaled() == 0,
        !x.nan() && x.value() >= 0 ==> {
            &&& 0 <= x.scaled() * pow2(1058) <= x.value()
            &&& x.value() < (x.scaled() + 1) * pow2(1058) || x.scaled() == i64::MAX
        },
        !x.nan() && x.value() <= 0 ==> {
            &&& x.value() <= x.scaled() * pow2(1058) <= 0
            &&& (x.scaled() - 1) * pow2(1058) < x.value() || x.scaled() == i64::MIN
        },
{
    let p = pow2(1058) as int;
    let u = x.units() as int;
    lemma_pow2_pos(1058);
    let parts = u / p;
    lemma_fundamental_div_mod(u, p);
    lemma_mod_bound(u, p);
    lemma_div_pos_is_pos(u, p);
    let s = x.scaled();
    let size = if s < 0 {
        -s
    } else {
        s
    };
    assert(0 <= size * p <= parts * p && (parts + 1) * p == p * parts + p && (size == parts ==> (size
        + 1) * p > u)) by (nonlinear_arith)
        requires
            0 <= size <= parts || x.nan() && size == 0 && 0 <= parts,
            p > 0,
            u == p * parts + u % p,
            0 <= u % p < p,
    ;
    assert(s * p == if s < 0 { -(size * p) } else { size * p }) by (nonlinear_arith)
        requires
            size == if s < 0 { -s } else { s },
    ;
    assert((s - 1) * p == s * p - p && (s + 1) * p == s * p + p && (size + 1) * p == size * p + p)
        by (nonlinear_arith);
    assert(parts * p == p * parts) by (nonlinear_arith);
    if u == 0 {
        lemma_div_of0(p);
    }
}

} // verus!
