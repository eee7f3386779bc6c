//! Natural numbers of up to 192 bits.

use vstd::prelude::*;
use vstd::arithmetic::div_mod::*;

verus! {

/// Two to the power of 64.
pub const WORD: u128 = 0x1_0000_0000_0000_0000;

/// The natural number `high * 2^64 + low`.
#[derive(Clone, Copy, Debug, PartialEq, Eq, Structural)]
pub struct Wide {
    pub high: u128,
    pub low: u64,
}

impl View for Wide {
    type V = nat;

    open spec fn view(&self) -> nat {
        (self.high * WORD + self.low) as nat
    }
}

impl Wide {
    /// A number of one word.
    pub fn from_u64(n: u64) -> (wide: Wide)
        ensures
            wide@ == n,
    {
        Wide { high: 0, low: n }
    }

    /// `x * y`.
    pub fn product(x: u128, y: u64) -> (wide: Wide)
        ensures
            wide@ == x * y,
            wide.high < u128::MAX,
    {
        let xh: u128 = x / WORD;
        let xl: u128 = x % WORD;
        proof {
            assert(0 <= xh * y <= 0xFFFF_FFFF_FFFF_FFFF * 0xFFFF_FFFF_FFFF_FFFF)
                by (nonlinear_arith)
                requires
                    0 <= xh <= 0xFFFF_FFFF_FFFF_FFFF,
                    0 <= y <= 0xFFFF_FFFF_FFFF_FFFF,
            ;
            assert(0 <= xl * y <= 0xFFFF_FFFF_FFFF_FFFF * 0xFFFF_FFFF_FFFF_FFFF)
                by (nonlinear_arith)
                requires
                    0 <= xl <= 0xFFFF_FFFF_FFFF_FFFF,
                    0 <= y <= 0xFFFF_FFFF_FFFF_FFFF,
            ;
            assert(x * y == (xh * y) * WORD + xl * y) by (nonlinear_arith)
                requires
                    x == xh * WORD + xl,
            ;
        }
        let lower: u128 = xl * y as u128;
        Wide { high: xh * y as u128 + lower / WORD, low: (lower % WORD) as u64 }
    }

    /// `self + n`.
    pub fn plus(self, n: u64) -> (wide: Wide)
        requires
            self.high < u128::MAX,
        ensures
            wide@ == self@ + n,
    {
        let lower: u128 = self.low as u128 + n as u128;
        Wide { high: self.high + lower / WORD, low: (lower % WORD) as u64 }
    }

    /// `self - n`.
    pub fn minus(self, n: u64) -> (wide: Wide)
        requires
            n <= self@,
        ensures
            wide@ == self@ - n,
    {
        if self.low >= n {
            Wide { high: self.high, low: self.low - n }
        } else {
            Wide { high: self.high - 1, low: (WORD + self.low as u128 - n as u128) as u64 }
        }
    }

    /// The quotient and the remainder of the division by `d`.
    pub fn divide(self, d: u64) -> (result: (Wide, u64))
        requires
            d > 0,
        ensures
            result.0@ == self@ / (d as nat),
            result.1 == self@ % (d as nat),
            result.0.high <= self.high,
    {
        let rest: u128 = self.high % d as u128;
        let high: u128 = self.high / d as u128;
        proof {
            assert(rest * WORD + self.low < d * WORD) by (nonlinear_arith)
                requires
                    0 <= rest < d,
                    0 <= self.low < WORD,
            ;
        }
        let lower: u128 = rest * WORD + self.low as u128;
        let low: u128 = lower / d as u128;
        let r: u128 = lower % d as u128;
        proof {
            lemma_fundamental_div_mod(self.high as int, d as int);
            lemma_div_nonincreasing(self.high as int, d as int);
            lemma_fundamental_div_mod(lower as int, d as int);
            assert(low < WORD) by (nonlinear_arith)
                requires
                    lower == d * low + r,
                    lower < d * WORD,
                    0 <= r,
                    d > 0,
            ;
            assert(self.high * WORD + self.low == d * (high * WORD + low) + r)
                by (nonlinear_arith)
                requires
                    self.high == d * high + rest,
                    lower == d * low + r,
                    lower == rest * WORD + self.low,
            ;
            lemma_fundamental_div_mod_converse(
                self@ as int,
                d as int,
                high * WORD + low,
                r as int,
            );
        }
        (Wide { high, low: low as u64 }, r as u64)
    }
}

/// An integer whose size is a [`Wide`].
#[derive(Clone, Copy, Debug, PartialEq, Eq, Structural)]
pub struct SignedWide {
    pub negative: bool,
    pub size: Wide,
}

impl View for SignedWide {
    type V = int;

    open spec fn view(&self) -> int {
        if self.negative {
            -(self.size@ as int)
        } else {
            self.size@ as int
        }
    }
}

/// A wide number is its two words, and a signed one has the sign that it says.
pub proof fn wide_numbers_are_their_words(wide: Wide)
    ensures
        wide@ == wide.high * 0x1_0000_0000_0000_0000 + wide.low,
        (SignedWide { negative: false, size: wide })@ == wide@,
        (SignedWide { negative: true, size: wide })@ == -(wide@ as int),
{
}

} // verus!
