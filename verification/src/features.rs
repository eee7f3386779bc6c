//! Scaling of feature vectors.

use vstd::prelude::*;
use vstd::arithmetic::mul::*;
use vstd::arithmetic::power2::*;
use vstd::math::*;

use crate::binary64;
use crate::binary64::{Binary64, ONE_BITS, TWO_BITS};
use crate::quantization;
use crate::rounding;
use crate::rounding::{INFINITY_BITS, LEAST_SIGNIFICAND, SIGNIFICAND_LIMIT};

verus! {

/// The smallest of infinity and the numbers; what is not a number is passed over,
/// and of two zeros the first stays.
pub open spec fn lowest(numbers: Seq<Binary64>) -> Binary64
    decreases numbers.len(),
{
    if numbers.len() == 0 {
        Binary64 { bits: INFINITY_BITS }
    } else {
        let below = lowest(numbers.drop_last());
        if numbers.last().less(below) {
            numbers.last()
        } else {
            below
        }
    }
}

/// The largest of minus infinity and the numbers; what is not a number is passed
/// over, and of two zeros the first stays.
pub open spec fn highest(numbers: Seq<Binary64>) -> Binary64
    decreases numbers.len(),
{
    if numbers.len() == 0 {
        Binary64 { bits: INFINITY_BITS }.opposite()
    } else {
        quantization::larger(highest(numbers.drop_last()), numbers.last())
    }
}

/// The distance from the lowest to the highest of the numbers.
pub open spec fn spread(numbers: Seq<Binary64>) -> Binary64 {
    highest(numbers).difference(lowest(numbers))
}

/// The place of `x` between `low` and `high`.
pub open spec fn place_between(x: Binary64, low: Binary64, high: Binary64) -> Binary64 {
    x.difference(low).quotient(high.difference(low))
}

/// The lowest and the highest number are finite, but so far apart that their
/// distance is not.
pub open spec fn too_wide(numbers: Seq<Binary64>) -> bool {
    lowest(numbers).finite() && highest(numbers).finite() && spread(numbers).infinite()
}

/// The feature `x` of a vector, scaled: its place between the lowest and the highest,
/// or that of its half between their halves where these are too far apart.
pub open spec fn scaled_feature(x: Binary64, raw: Seq<Binary64>) -> Binary64 {
    if lowest(raw).same(highest(raw)) {
        quantization::zero()
    } else if too_wide(raw) {
        place_between(x.half(), lowest(raw).half(), highest(raw).half())
    } else {
        place_between(x, lowest(raw), highest(raw))
    }
}

/// The scaled feature vector.
pub open spec fn scaled_features(raw: Seq<Binary64>) -> Seq<Binary64> {
    Seq::new(raw.len(), |i: int| scaled_feature(raw[i], raw))
}

/// Min-max scale a feature vector into the `[0, 1]` range before quantization.
///
/// A constant vector maps to all zeros (no information to preserve). Where the
/// lowest and the highest feature are finite and their distance is not, the halves
/// of the features are scaled, which have the same places.
pub fn scale_features(raw: &[Binary64]) -> (scaled: Vec<Binary64>)
    ensures
        scaled@ == scaled_features(raw@),
{
    let zero: Binary64 = Binary64 { bits: 0 };
    let mut min: Binary64 = Binary64 { bits: INFINITY_BITS };
    let mut max: Binary64 = Binary64 { bits: INFINITY_BITS }.negated();
    let mut i: usize = 0;
    while i < raw.len()
        invariant
            i <= raw@.len(),
            min == lowest(raw@.take(i as int)),
            max == highest(raw@.take(i as int)),
        decreases raw@.len() - i,
    {
        let x: Binary64 = raw[i];
        assert(raw@.take(i + 1).drop_last() =~= raw@.take(i as int));
        if x.is_less(min) {
            min = x;
        }
        if max.is_less(x) {
            max = x;
        }
        i = i + 1;
    }
    assert(raw@.take(i as int) =~= raw@);
    let range: Binary64 = max.minus(min);
    let constant: bool = min == max;
    let two: Binary64 = Binary64 { bits: TWO_BITS };
    let halved: bool = min.is_finite() && max.is_finite() && !range.is_finite();
    let half_min: Binary64 = min.divided_by(two);
    let half_range: Binary64 = max.divided_by(two).minus(half_min);
    let mut scaled: Vec<Binary64> = Vec::new();
    let mut i: usize = 0;
    while i < raw.len()
        invariant
            i <= raw@.len(),
            scaled@.len() == i,
            zero == quantization::zero(),
            two.bits == TWO_BITS,
            min == lowest(raw@),
            max == highest(raw@),
            range == spread(raw@),
            constant == min.same(max),
            halved == too_wide(raw@),
            half_min == min.half(),
            half_range == max.half().difference(half_min),
            forall|k: int| 0 <= k < i ==> scaled@[k] == scaled_features(raw@)[k],
        decreases raw@.len() - i,
    {
        if constant {
            scaled.push(zero);
        } else if halved {
            scaled.push(raw[i].divided_by(two).minus(half_min).divided_by(half_range));
        } else {
            scaled.push(raw[i].minus(min).divided_by(range));
        }
        i = i + 1;
    }
    assert(scaled@ =~= scaled_features(raw@));
    scaled
}

/// Every feature is a number, be it infinite.
pub open spec fn all_numbers(raw: Seq<Binary64>) -> bool {
    forall|i: int| 0 <= i < raw.len() ==> !(#[trigger] raw[i]).nan()
}

/// Every feature is finite.
pub open spec fn all_finite(raw: Seq<Binary64>) -> bool {
    forall|i: int| 0 <= i < raw.len() ==> (#[trigger] raw[i]).finite()
}

/// The lowest and the highest of the features are among them, and no feature is below
/// the one or above the other.
pub proof fn extremes_are_extreme(raw: Seq<Binary64>)
    requires
        raw.len() > 0,
        all_numbers(raw),
    ensures
        raw.contains(lowest(raw)),
        raw.contains(highest(raw)),
        forall|i: int|
            0 <= i < raw.len() ==> lowest(raw).value() <= (#[trigger] raw[i]).value()
                <= highest(raw).value(),
    decreases raw.len(),
{
    let before = raw.drop_last();
    let last = raw.last();
    assert(last == raw[raw.len() - 1]);
    let infinity = Binary64 { bits: INFINITY_BITS };
    if raw.len() == 1 {
        binary64::lemma_value_order(last, infinity);
        binary64::lemma_value_order(last, infinity.opposite());
        binary64::lemma_value_order(infinity, infinity);
        assert(lowest(before) == infinity);
        assert(highest(before) == infinity.opposite());
        assert(raw[0] == last);
        // What is not below infinity is infinity, and so on the other side.
        assert(lowest(raw) == last);
        assert(highest(raw) == last);
    } else {
        assert forall|i: int| 0 <= i < before.len() implies !(#[trigger] before[i]).nan() by {
            assert(before[i] == raw[i]);
        }
        extremes_are_extreme(before);
        let low = choose|i: int| 0 <= i < before.len() && before[i] == lowest(before);
        let high = choose|i: int| 0 <= i < before.len() && before[i] == highest(before);
        assert(before[low] == raw[low]);
        assert(before[high] == raw[high]);
        assert forall|i: int| 0 <= i < raw.len() implies lowest(raw).value() <= (
        #[trigger] raw[i]).value() <= highest(raw).value() by {
            if i < before.len() {
                assert(before[i] == raw[i]);
            }
        }
    }
}

/// A constant vector maps to all zeros.
pub proof fn constant_features_map_to_zeros(raw: Seq<Binary64>)
    requires
        all_numbers(raw),
        forall|i: int| 0 <= i < raw.len() ==> (#[trigger] raw[i]).value() == raw[0].value(),
    ensures
        scaled_features(raw) == Seq::new(raw.len(), |i: int| quantization::zero()),
{
    if raw.len() > 0 {
        extremes_are_extreme(raw);
        let low = choose|i: int| 0 <= i < raw.len() && raw[i] == lowest(raw);
        let high = choose|i: int| 0 <= i < raw.len() && raw[i] == highest(raw);
        assert(raw[low].value() == raw[high].value());
        assert(!raw[low].nan() && !raw[high].nan());
    }
    assert(scaled_features(raw) =~= Seq::new(raw.len(), |i: int| quantization::zero()));
}

/// The distance of a feature from the lowest is not negative and at most the spread,
/// and grows with the feature.
proof fn lemma_distance_from_lowest(x: Binary64, y: Binary64, low: Binary64)
    requires
        x.finite(),
        y.finite(),
        low.finite(),
        low.value() <= x.value() <= y.value(),
    ensures
        x.difference(low).unsigned_bits() <= y.difference(low).unsigned_bits() <= INFINITY_BITS,
        x.value() > low.value() ==> !x.difference(low).negative(),
        x.value() == low.value() ==> x.difference(low).unsigned_bits() == 0,
        x.value() == y.value() ==> x.difference(low).unsigned_bits() == y.difference(
            low,
        ).unsigned_bits(),
{
    let (dx, dy) = ((x.value() - low.value()) as nat, (y.value() - low.value()) as nat);
    rounding::rounding_keeps_order(dx, 1, dy, 1);
    rounding::lemma_rounded_magnitude(dx, 1);
    rounding::lemma_rounded_magnitude(dy, 1);
    binary64::lemma_signed(false, rounding::rounded(dx, 1));
    binary64::lemma_signed(false, rounding::rounded(dy, 1));
    binary64::lemma_signed(x.negative() && !low.negative(), 0);
    binary64::lemma_signed(y.negative() && !low.negative(), 0);
}

/// What the place of `x` between `low` and `high` is, where these are apart and
/// their distance is finite.
proof fn lemma_place(x: Binary64, low: Binary64, high: Binary64)
    requires
        x.finite(),
        low.finite(),
        high.finite(),
        low.value() <= x.value() <= high.value(),
        low.value() < high.value(),
        high.difference(low).finite(),
    ensures
        ({
            let (d, range) = (x.difference(low), high.difference(low));
            &&& d.finite()
            &&& !range.negative()
            &&& 0 < range.units()
            &&& d.units() <= range.units()
            &&& d.negative() ==> d.units() == 0
            &&& place_between(x, low, high) == Binary64::signed(
                d.negative(),
                rounding::rounded(d.units() * pow2(1074), range.units()),
            )
            &&& rounding::rounded(d.units() * pow2(1074), range.units()) <= ONE_BITS
            &&& rounding::rounded(0 * pow2(1074), range.units()) == 0
        }),
{
    let (d, range) = (x.difference(low), high.difference(low));
    lemma_distance_from_lowest(x, high, low);
    lemma_distance_from_lowest(high, high, low);
    binary64::lemma_value_order(d, range);
    binary64::lemma_value_order(range, d);
    lemma_apart(high, low);
    let p = pow2(1074);
    lemma_pow2_pos(1074);
    assert((d.units() * p) * range.units() <= (range.units() * p) * range.units())
        by (nonlinear_arith)
        requires
            d.units() <= range.units(),
            p > 0,
    ;
    rounding::rounding_keeps_order(d.units() * p, range.units(), range.units() * p, range.units());
    binary64::lemma_ratio_of_equals(range.units());
    binary64::lemma_zero_rounds_to_zero(range.units());
}

/// The distance of two numbers that are apart is not zero.
proof fn lemma_apart(high: Binary64, low: Binary64)
    requires
        high.finite(),
        low.finite(),
        low.value() < high.value(),
    ensures
        high.difference(low).units() > 0,
{
    let d = (high.value() - low.value()) as nat;
    rounding::lemma_round_small(1);
    rounding::rounding_keeps_order(1, 1, d, 1);
    rounding::lemma_rounded_magnitude(d, 1);
    binary64::lemma_signed(false, rounding::rounded(d, 1));
    binary64::lemma_value_order(high.difference(low), low);
}

/// Places lie between zero and one; that of the lowest is zero and that of the
/// highest one; and they are in the order of what they are the places of.
proof fn lemma_places(x: Binary64, y: Binary64, low: Binary64, high: Binary64)
    requires
        x.finite(),
        y.finite(),
        low.finite(),
        high.finite(),
        low.value() <= x.value() <= y.value() <= high.value(),
        low.value() < high.value(),
        high.difference(low).finite(),
    ensures
        !place_between(x, low, high).nan(),
        0 <= place_between(x, low, high).value() <= (Binary64 { bits: ONE_BITS }).value(),
        x.value() == low.value() ==> place_between(x, low, high).value() == 0,
        x.value() == high.value() ==> place_between(x, low, high).bits == ONE_BITS,
        place_between(x, low, high).value() <= place_between(y, low, high).value(),
{
    let one = Binary64 { bits: ONE_BITS };
    let (dx, dy, range) = (x.difference(low), y.difference(low), high.difference(low));
    let (sx, sy) = (place_between(x, low, high), place_between(y, low, high));
    let p = pow2(1074);
    lemma_pow2_pos(1074);
    lemma_place(x, low, high);
    lemma_place(y, low, high);
    lemma_distance_from_lowest(x, y, low);
    lemma_distance_from_lowest(x, high, low);
    binary64::lemma_value_order(dx, dy);
    binary64::lemma_value_order(dx, range);
    let bits_x = rounding::rounded(dx.units() * p, range.units());
    let bits_y = rounding::rounded(dy.units() * p, range.units());
    binary64::lemma_signed(dx.negative(), bits_x);
    binary64::lemma_signed(dy.negative(), bits_y);
    binary64::lemma_value_order(sx, one);
    binary64::lemma_value_order(sx, sy);
    assert((dx.units() * p) * range.units() <= (dy.units() * p) * range.units())
        by (nonlinear_arith)
        requires
            dx.units() <= dy.units(),
            p > 0,
    ;
    rounding::rounding_keeps_order(dx.units() * p, range.units(), dy.units() * p, range.units());
    binary64::lemma_value_order(sy, sx);
    if x.value() == high.value() {
        binary64::lemma_ratio_of_equals(range.units());
    }
}

/// The largest finite magnitude, and the half of it.
proof fn lemma_largest_finite() -> (half: nat)
    ensures
        half > 4,
        rounding::magnitude((INFINITY_BITS - 1) as nat) == 2 * half,
        rounding::magnitude((INFINITY_BITS - 1 - LEAST_SIGNIFICAND) as nat) == half,
        rounding::rounded(2 * half, 1) == INFINITY_BITS - 1,
        rounding::rounded(half, 1) == INFINITY_BITS - 1 - LEAST_SIGNIFICAND,
{
    let m = (SIGNIFICAND_LIMIT - 1) as nat;
    let p = pow2(2044);
    let half = m * p;
    lemma_pow2_unfold(2045);
    lemma_pow2_pos(2044);
    rounding::lemma_magnitude(m, 2045);
    rounding::lemma_magnitude(m, 2044);
    assert(m * (2 * p) == 2 * (m * p)) by (nonlinear_arith);
    assert(m * p > 4) by (nonlinear_arith)
        requires
            m > 4,
            p >= 1,
    ;
    rounding::grid_points_stay((INFINITY_BITS - 1) as nat);
    rounding::grid_points_stay((INFINITY_BITS - 1 - LEAST_SIGNIFICAND) as nat);
    half
}

/// What half of a finite number is.
proof fn lemma_half(x: Binary64, largest_half: nat)
    requires
        x.finite(),
        rounding::magnitude((INFINITY_BITS - 1) as nat) == 2 * largest_half,
        rounding::magnitude((INFINITY_BITS - 1 - LEAST_SIGNIFICAND) as nat) == largest_half,
        rounding::rounded(largest_half, 1) == INFINITY_BITS - 1 - LEAST_SIGNIFICAND,
    ensures
        x.half().finite(),
        x.half().negative() == x.negative(),
        x.half().unsigned_bits() == rounding::rounded(x.units() * pow2(1074), 2 * pow2(1074)),
        x.units() <= 2 * largest_half,
        x.half().units() <= largest_half,
        x.units() >= 2 ==> x.half().units() > 0,
{
    let two = Binary64 { bits: TWO_BITS };
    let p = pow2(1074);
    let units = x.units();
    lemma_pow2_pos(1074);
    lemma2_to64_rest();
    lemma_pow2_adds(52, 1022);
    lemma_pow2_unfold(1023);
    rounding::lemma_magnitude(LEAST_SIGNIFICAND as nat, 1023);
    assert(two.units() == 2 * p);
    binary64::lemma_value_order(x, Binary64 { bits: (INFINITY_BITS - 1) as u64 });
    assert(units <= 2 * largest_half);
    assert((units * p) * 1 <= largest_half * (2 * p)) by (nonlinear_arith)
        requires
            units <= 2 * largest_half,
            p > 0,
    ;
    rounding::rounding_keeps_order(units * p, 2 * p, largest_half, 1);
    let bits = rounding::rounded(units * p, 2 * p);
    binary64::lemma_signed(x.negative(), bits);
    assert(x.half() == Binary64::signed(x.negative(), bits));
    binary64::lemma_value_order(
        x.half(),
        Binary64 { bits: (INFINITY_BITS - 1 - LEAST_SIGNIFICAND) as u64 },
    );
    if units >= 2 {
        assert(1 * (2 * p) <= (units * p) * 1) by (nonlinear_arith)
            requires
                units >= 2,
        ;
        rounding::lemma_round_small(1);
        rounding::rounding_keeps_order(1, 1, units * p, 2 * p);
        binary64::lemma_value_order(x.half(), x);
    }
}

/// Halves are in the order of the numbers.
proof fn lemma_half_order(x: Binary64, y: Binary64)
    requires
        x.finite(),
        y.finite(),
        x.value() <= y.value(),
    ensures
        x.half().value() <= y.half().value(),
{
    let largest_half = lemma_largest_finite();
    let p = pow2(1074);
    lemma_half(x, largest_half);
    lemma_half(y, largest_half);
    lemma_pow2_pos(1074);
    let (small, large) = if x.negative() {
        (y, x)
    } else {
        (x, y)
    };
    if x.negative() == y.negative() {
        assert((small.units() * p) * (2 * p) <= (large.units() * p) * (2 * p)) by (nonlinear_arith)
            requires
                small.units() <= large.units(),
                p > 0,
        ;
        rounding::rounding_keeps_order(small.units() * p, 2 * p, large.units() * p, 2 * p);
        binary64::lemma_value_order(large.half(), small.half());
    } else if y.negative() {
        // The one is zero and so is the other.
        assert(x.units() == 0 && y.units() == 0);
        binary64::lemma_zero_rounds_to_zero(2 * p);
        binary64::lemma_value_order(x.half(), y.half());
        binary64::lemma_value_order(y.half(), x.half());
    }
}

/// Numbers that are too far apart have halves that are not.
proof fn lemma_halves_apart(low: Binary64, high: Binary64)
    requires
        low.finite(),
        high.finite(),
        low.value() <= high.value(),
        high.difference(low).infinite(),
    ensures
        low.half().finite(),
        high.half().finite(),
        low.half().value() < high.half().value(),
        high.half().difference(low.half()).finite(),
{
    let largest_half = lemma_largest_finite();
    let most = 2 * largest_half;
    lemma_half(low, largest_half);
    lemma_half(high, largest_half);
    let apart = (high.value() - low.value()) as nat;
    if apart == 0 {
        binary64::lemma_signed(high.negative() && !low.negative(), 0);
    } else {
        binary64::lemma_signed(false, INFINITY_BITS as nat);
        rounding::lemma_rounded_magnitude(apart, 1);
        binary64::lemma_signed(false, rounding::rounded(apart, 1));
        if apart <= most {
            rounding::rounding_keeps_order(apart, 1, most, 1);
        }
    }
    assert(apart > most);
    assert(high.value() > 0 && low.value() < 0);
    let halves_apart = (high.half().value() - low.half().value()) as nat;
    assert(0 < halves_apart <= most);
    rounding::rounding_keeps_order(halves_apart, 1, most, 1);
    binary64::lemma_signed(false, rounding::rounded(halves_apart, 1));
}

/// What holds of the features `i` and `j` of a vector of finite features, the one
/// not above the other, after they are scaled.
proof fn lemma_scaled_features(raw: Seq<Binary64>, i: int, j: int)
    requires
        all_finite(raw),
        0 <= i < raw.len(),
        0 <= j < raw.len(),
        raw[i].value() <= raw[j].value(),
    ensures
        ({
            let scaled = scaled_features(raw);
            let (low, high) = (lowest(raw), highest(raw));
            &&& !scaled[i].nan()
            &&& 0 <= scaled[i].value() <= (Binary64 { bits: ONE_BITS }).value()
            &&& scaled[i].value() <= scaled[j].value()
            &&& raw[i].value() == low.value() ==> scaled[i].value() == 0
            &&& raw[i].value() == high.value() && low.value() < high.value() ==> scaled[i].bits
                == ONE_BITS
        }),
{
    let (x, y) = (raw[i], raw[j]);
    let (low, high) = (lowest(raw), highest(raw));
    extremes_are_extreme(raw);
    let at_low = choose|k: int| 0 <= k < raw.len() && raw[k] == low;
    let at_high = choose|k: int| 0 <= k < raw.len() && raw[k] == high;
    assert(raw[at_low].finite() && raw[at_high].finite());
    assert(low.value() <= x.value() && y.value() <= high.value());
    let zero = quantization::zero();
    binary64::lemma_value_order(zero, Binary64 { bits: ONE_BITS });
    if low.value() < high.value() {
        lemma_distance_from_lowest(high, high, low);
        if too_wide(raw) {
            lemma_halves_apart(low, high);
            lemma_half_order(low, x);
            lemma_half_order(x, y);
            lemma_half_order(y, high);
            let largest_half = lemma_largest_finite();
            lemma_half(x, largest_half);
            lemma_half(y, largest_half);
            if x.value() == low.value() {
                lemma_half_order(x, low);
            }
            if x.value() == high.value() {
                lemma_half_order(high, x);
            }
            lemma_places(x.half(), y.half(), low.half(), high.half());
        } else {
            lemma_places(x, y, low, high);
        }
    }
}

/// The scaled features lie between zero and one.
pub proof fn scaled_features_lie_between_zero_and_one(raw: Seq<Binary64>, i: int)
    requires
        all_finite(raw),
        0 <= i < raw.len(),
    ensures
        !scaled_features(raw)[i].nan(),
        0 <= scaled_features(raw)[i].value() <= (Binary64 { bits: ONE_BITS }).value(),
{
    lemma_scaled_features(raw, i, i);
}

/// The lowest feature is scaled to zero, and the highest to one unless it is the
/// lowest too.
pub proof fn extremes_are_scaled_to_zero_and_one(raw: Seq<Binary64>, i: int)
    requires
        all_finite(raw),
        0 <= i < raw.len(),
    ensures
        raw[i].value() == lowest(raw).value() ==> scaled_features(raw)[i].value() == 0,
        raw[i].value() == highest(raw).value() && lowest(raw).value() < highest(raw).value()
            ==> scaled_features(raw)[i].bits == ONE_BITS,
{
    lemma_scaled_features(raw, i, i);
}

/// Scaling keeps the order of the features.
pub proof fn scaling_keeps_order(raw: Seq<Binary64>, i: int, j: int)
    requires
        all_finite(raw),
        0 <= i < raw.len(),
        0 <= j < raw.len(),
        raw[i].value() <= raw[j].value(),
    ensures
        scaled_features(raw)[i].value() <= scaled_features(raw)[j].value(),
{
    lemma_scaled_features(raw, i, j);
}

/// Where no number is among the features, their lowest is infinity and their highest minus
/// infinity. Else both are among them, and no number is below the one or above the other.
pub proof fn extremes_pass_over_what_is_no_number(raw: Seq<Binary64>)
    ensures
        !lowest(raw).nan(),
        !highest(raw).nan(),
        forall|i: int|
            0 <= i < raw.len() && !(#[trigger] raw[i]).nan() ==> lowest(raw).value()
                <= raw[i].value() <= highest(raw).value(),
        (forall|i: int| 0 <= i < raw.len() ==> (#[trigger] raw[i]).nan()) ==> lowest(raw).bits
            == 0x7FF0_0000_0000_0000 && highest(raw).bits == 0xFFF0_0000_0000_0000,
        (exists|i: int| 0 <= i < raw.len() && !(#[trigger] raw[i]).nan()) ==> raw.contains(
            lowest(raw),
        ) && raw.contains(highest(raw)),
    decreases raw.len(),
{
    let infinity = Binary64 { bits: INFINITY_BITS };
    if raw.len() > 0 {
        let before = raw.drop_last();
        let last = raw.last();
        assert(last == raw[raw.len() - 1]);
        assert(forall|i: int| 0 <= i < before.len() ==> #[trigger] before[i] == raw[i]);
        extremes_pass_over_what_is_no_number(before);
        let some = exists|i: int| 0 <= i < before.len() && !(#[trigger] before[i]).nan();
        if some {
            let low = choose|i: int| 0 <= i < before.len() && before[i] == lowest(before);
            let high = choose|i: int| 0 <= i < before.len() && before[i] == highest(before);
            assert(raw[low] == lowest(before) && raw[high] == highest(before));
        } else {
            assert forall|i: int| 0 <= i < before.len() implies (#[trigger] before[i]).nan() by {}
            if !last.nan() {
                binary64::lemma_value_order(last, infinity);
                binary64::lemma_value_order(last, infinity.opposite());
                binary64::lemma_value_order(infinity, infinity.opposite());
                // What is not below infinity is infinity, and so on the other side.
                assert(lowest(raw) == last);
                assert(highest(raw) == last);
            }
        }
        assert forall|i: int| 0 <= i < raw.len() && !(#[trigger] raw[i]).nan() implies lowest(
            raw,
        ).value() <= raw[i].value() <= highest(raw).value() by {
            if i < before.len() {
                assert(before[i] == raw[i]);
            }
        }
        if exists|i: int| 0 <= i < raw.len() && !(#[trigger] raw[i]).nan() {
            let i = choose|i: int| 0 <= i < raw.len() && !(#[trigger] raw[i]).nan();
            if i < before.len() {
                assert(!before[i].nan());
            }
        }
    }
}

/// Two numbers of the same value have the same differences and quotients, but for the sign
/// of a zero.
proof fn lemma_same_places(x: Binary64, low: Binary64, high: Binary64, a: Binary64, b: Binary64)
    requires
        low.same(a),
        high.same(b),
        low.value() < high.value(),
    ensures
        x.difference(low).nan() == x.difference(a).nan(),
        place_between(x, low, high).nan() == place_between(x, a, b).nan(),
        !place_between(x, low, high).nan() ==> place_between(x, low, high).value()
            == place_between(x, a, b).value(),
        too_far(low, high) == too_far(a, b),
        low.half().same(a.half()),
        high.half().same(b.half()),
{
    let (d, e) = (x.difference(low), x.difference(a));
    let (r, t) = (high.difference(low), b.difference(a));
    binary64::lemma_value_order(low, a);
    binary64::lemma_value_order(high, b);
    binary64::signs_and_magnitudes(low, a);
    binary64::signs_and_magnitudes(a, low);
    binary64::signs_and_magnitudes(high, b);
    binary64::signs_and_magnitudes(b, high);
    binary64::lemma_signed(true, 0);
    binary64::lemma_signed(false, 0);
    let zero = quantization::zero();
    binary64::lemma_value_order(zero, zero);
    assert(low.value() != 0 ==> low == a);
    assert(high.value() != 0 ==> high == b);
    // Only zeros can differ, and a zero changes no difference but a zero one.
    binary64::lemma_value_order(d, e);
    binary64::lemma_value_order(r, t);
    assert(d == e || (d.unsigned_bits() == 0 && e.unsigned_bits() == 0));
    assert(r == t);
    binary64::lemma_value_order(d, zero);
    binary64::lemma_value_order(e, zero);
    let (p, q) = (d.quotient(r), e.quotient(t));
    if d != e && !r.nan() && !r.infinite() && r.units() > 0 {
        binary64::lemma_zero_rounds_to_zero(r.units());
    }
    binary64::operations_beyond_the_finite(d, r);
    binary64::operations_beyond_the_finite(e, t);
    binary64::lemma_value_order(p, zero);
    binary64::lemma_value_order(q, zero);
    lemma_halves_of_same(low, a);
    lemma_halves_of_same(high, b);
}

/// The halves of two numbers of the same value have the same value.
proof fn lemma_halves_of_same(x: Binary64, y: Binary64)
    requires
        x.same(y),
    ensures
        x.half().same(y.half()),
{
    let two = Binary64 { bits: TWO_BITS };
    binary64::lemma_value_order(x, y);
    binary64::lemma_value_order(two, two);
    binary64::operations_beyond_the_finite(x, two);
    binary64::operations_beyond_the_finite(y, two);
    binary64::signs_and_magnitudes(x, y);
    binary64::signs_and_magnitudes(y, x);
    if x != y {
        binary64::lemma_zero_rounds_to_zero(two.units());
        binary64::lemma_signed(true, 0);
        binary64::lemma_signed(false, 0);
        binary64::lemma_value_order(x.half(), y.half());
        binary64::lemma_value_order(y.half(), x.half());
    }
}

/// Two finite numbers whose distance is not.
pub open spec fn too_far(low: Binary64, high: Binary64) -> bool {
    low.finite() && high.finite() && high.difference(low).infinite()
}

/// Each feature is scaled by its distance from the lowest number among the features, over
/// the distance from there to the highest; with the halves of all three where that
/// distance is beyond the finite. Where the lowest is the highest, every feature is scaled
/// to zero.
pub proof fn features_are_scaled_by_their_places(raw: Seq<Binary64>, low: int, high: int, i: int)
    requires
        0 <= low < raw.len(),
        0 <= high < raw.len(),
        0 <= i < raw.len(),
        !raw[low].nan(),
        !raw[high].nan(),
        forall|k: int|
            0 <= k < raw.len() && !(#[trigger] raw[k]).nan() ==> raw[low].value() <= raw[k].value()
                <= raw[high].value(),
    ensures
        scaled_features(raw).len() == raw.len(),
        ({
            let (x, a, b) = (raw[i], raw[low], raw[high]);
            let scaled = scaled_features(raw)[i];
            let place = if too_far(a, b) {
                x.half().difference(a.half()).quotient(b.half().difference(a.half()))
            } else {
                x.difference(a).quotient(b.difference(a))
            };
            &&& a.value() == b.value() ==> scaled.bits == 0
            &&& a.value() < b.value() ==> scaled.nan() == place.nan() && (!place.nan()
                ==> scaled.value() == place.value())
        }),
{
    let (x, a, b) = (raw[i], raw[low], raw[high]);
    extremes_pass_over_what_is_no_number(raw);
    let (least, most) = (lowest(raw), highest(raw));
    let at_low = choose|k: int| 0 <= k < raw.len() && raw[k] == least;
    let at_high = choose|k: int| 0 <= k < raw.len() && raw[k] == most;
    assert(raw[at_low] == least && raw[at_high] == most);
    assert(least.value() == a.value() && most.value() == b.value());
    if a.value() < b.value() {
        lemma_same_places(x, least, most, a, b);
        if too_far(a, b) {
            lemma_halves_apart(least, most);
            lemma_same_places(x.half(), least.half(), most.half(), a.half(), b.half());
        }
    }
}

/// Where no feature is a number, none is scaled to one.
pub proof fn what_is_no_number_stays_none(raw: Seq<Binary64>, i: int)
    requires
        0 <= i < raw.len(),
        forall|k: int| 0 <= k < raw.len() ==> (#[trigger] raw[k]).nan(),
    ensures
        scaled_features(raw)[i].nan(),
{
    extremes_pass_over_what_is_no_number(raw);
    let infinity = Binary64 { bits: INFINITY_BITS };
    binary64::lemma_value_order(infinity, infinity.opposite());
    binary64::lemma_value_order(infinity, quantization::zero());
    binary64::operations_beyond_the_finite(raw[i], lowest(raw));
    binary64::operations_beyond_the_finite(raw[i].difference(lowest(raw)), spread(raw));
}

/// What rounding costs a place: `d` and `r` are the distances `exact_d` and `exact_r`
/// rounded, and `q` is their ratio rounded.
proof fn lemma_cost_of_a_place(exact_d: int, exact_r: int, d: int, r: int, q: int, p: int)
    requires
        0 <= exact_d,
        0 < exact_r,
        0 <= d,
        0 < r,
        0 <= q,
        0 < p,
        0x20_0000_0000_0000 * abs(d - exact_d) <= exact_d,
        0x20_0000_0000_0000 * abs(r - exact_r) <= exact_r,
        0x20_0000_0000_0000 * abs(q * r - d * p) <= d * p + 0x10_0000_0000_0000 * r,
    ensures
        0x20_0000_0000_0000 * abs(q * exact_r - exact_d * p) <= 11 * (exact_d * p)
            + 0x40_0000_0000_0000 * exact_r,
{
    let (e, f) = (exact_r - r, d - exact_d);
    assert(0x20_0000_0000_0000 * (q * e) <= q * exact_r && 0x20_0000_0000_0000 * (q * e) >= -(q
        * exact_r)) by (nonlinear_arith)
        requires
            -exact_r <= 0x20_0000_0000_0000 * e <= exact_r,
            q >= 0,
    ;
    assert(0x20_0000_0000_0000 * (f * p) <= exact_d * p && 0x20_0000_0000_0000 * (f * p) >= -(exact_d
        * p)) by (nonlinear_arith)
        requires
            -exact_d <= 0x20_0000_0000_0000 * f <= exact_d,
            p > 0,
    ;
    assert(q * exact_r - exact_d * p == q * e + (q * r - d * p) + f * p) by (nonlinear_arith)
        requires
            e == exact_r - r,
            f == d - exact_d,
    ;
    assert(q * exact_r <= 2 * (q * r)) by (nonlinear_arith)
        requires
            exact_r <= 2 * r,
            q >= 0,
    ;
    assert(d * p <= 2 * (exact_d * p)) by (nonlinear_arith)
        requires
            d <= 2 * exact_d,
            p > 0,
    ;
}

/// What the difference of two finite numbers costs.
proof fn lemma_difference_costs_little(high: Binary64, low: Binary64)
    requires
        high.finite(),
        low.finite(),
        low.value() <= high.value(),
        high.difference(low).finite(),
    ensures
        high.difference(low).units() == rounding::round_ratio(
            (high.value() - low.value()) as nat,
            1,
        ),
        0x20_0000_0000_0000 * abs(high.difference(low).units() - (high.value() - low.value()))
            <= high.value() - low.value(),
{
    let exact = (high.value() - low.value()) as nat;
    let d = high.difference(low);
    rounding::rounding_costs_little(exact, 1);
    rounding::lemma_rounded_magnitude(exact, 1);
    if exact > 0 {
        binary64::lemma_signed(false, rounding::rounded(exact, 1));
    } else {
        binary64::lemma_signed(high.negative() && !low.negative(), 0);
        binary64::lemma_value_order(d, d);
        rounding::lemma_round_small(0);
    }
}

/// The place of a number is its share of the distance, but for rounding.
proof fn lemma_place_is_the_share(x: Binary64, low: Binary64, high: Binary64)
    requires
        x.finite(),
        low.finite(),
        high.finite(),
        low.value() <= x.value() <= high.value(),
        low.value() < high.value(),
        high.difference(low).finite(),
    ensures
        ({
            let place = place_between(x, low, high).value();
            let (d, r) = (x.value() - low.value(), high.value() - low.value());
            &&& 0 <= place <= pow2(1074)
            &&& 0x20_0000_0000_0000 * abs(place * r - d * pow2(1074)) <= 11 * (d * pow2(1074))
                + 0x40_0000_0000_0000 * r
        }),
{
    let (d, range) = (x.difference(low), high.difference(low));
    let p = pow2(1074);
    lemma_pow2_pos(1074);
    lemma_place(x, low, high);
    lemma_places(x, x, low, high);
    quantization::constants_are_the_nearest_numbers();
    lemma_difference_costs_little(x, low);
    lemma_difference_costs_little(high, low);
    let (num, den) = (d.units() * p, range.units());
    let place = place_between(x, low, high);
    rounding::rounding_costs_little(num, den);
    rounding::lemma_rounded_magnitude(num, den);
    binary64::lemma_signed(d.negative(), rounding::rounded(num, den));
    binary64::lemma_value_order(place, place);
    let q = rounding::round_ratio(num, den);
    assert(place.units() == q);
    if d.negative() {
        binary64::lemma_zero_rounds_to_zero(den);
    }
    assert(place.value() == q);
    lemma_cost_of_a_place(
        x.value() - low.value(),
        high.value() - low.value(),
        d.units() as int,
        range.units() as int,
        q as int,
        p as int,
    );
}

/// Half of a number, doubled, is the number, give or take one unit.
pub proof fn halves_double_to_the_number(x: Binary64)
    requires
        x.finite(),
    ensures
        x.half().finite(),
        abs(2 * x.half().value() - x.value()) <= 1,
{
    let largest_half = lemma_largest_finite();
    let p = pow2(1074);
    lemma_pow2_pos(1074);
    lemma_half(x, largest_half);
    let (w, k) = binary64::lemma_units_form(x);
    let u = x.units();
    let h = x.half().units();
    let (num, den) = (u * p, 2 * p);
    rounding::lemma_rounded_magnitude(num, den);
    // The halves of the number and of the one before it, or of the number itself, are
    // numbers, so that the nearest is no further than half a unit away.
    let near = if k > 0 {
        ((k - 1) * LEAST_SIGNIFICAND + w) as nat
    } else {
        w / 2
    };
    lemma2_to64();
    if k > 0 {
        lemma_pow2_unfold(k);
        rounding::lemma_magnitude(w, (k - 1) as nat);
        assert(w * (2 * pow2((k - 1) as nat)) == 2 * (w * pow2((k - 1) as nat)))
            by (nonlinear_arith);
        assert(2 * rounding::magnitude(near) == u);
    } else {
        assert(pow2(0) == 1);
        lemma_mul_basics(w as int);
        assert(rounding::magnitude(near) == w / 2 && u == w);
    }
    let g = rounding::magnitude(near);
    assert(u - 1 <= 2 * g <= u);
    assert(near <= INFINITY_BITS);
    rounding::rounded_numbers_are_nearest(num, den, near);
    let (e, f) = (2 * h - u, 2 * g - u);
    assert(h * den - num == e * p && g * den - num == f * p) by (nonlinear_arith)
        requires
            den == 2 * p,
            num == u * p,
            e == 2 * h - u,
            f == 2 * g - u,
    ;
    quantization::lemma_common_factor(e, f, p as int);
}

/// Every scaled feature is its share of the distance from the lowest to the highest: times
/// that distance it is its own distance from the lowest, but for what rounding costs,
/// which is at most eleven parts of two to the power of 53 and four units.
pub proof fn scaled_features_are_proportional(raw: Seq<Binary64>, low: int, high: int, i: int)
    requires
        all_finite(raw),
        0 <= low < raw.len(),
        0 <= high < raw.len(),
        0 <= i < raw.len(),
        forall|k: int|
            0 <= k < raw.len() ==> raw[low].value() <= (#[trigger] raw[k]).value()
                <= raw[high].value(),
        raw[low].value() < raw[high].value(),
    ensures
        ({
            let scaled = scaled_features(raw)[i];
            let d = raw[i].value() - raw[low].value();
            let r = raw[high].value() - raw[low].value();
            &&& scaled.finite()
            &&& 0x20_0000_0000_0000 * abs(scaled.value() * r - d * pow2(1074)) <= 11 * (d * pow2(
                1074,
            )) + 0x80_0000_0000_0000 * r
        }),
{
    extremes_are_extreme(raw);
    let (x, least, most) = (raw[i], lowest(raw), highest(raw));
    let at_low = choose|k: int| 0 <= k < raw.len() && raw[k] == least;
    let at_high = choose|k: int| 0 <= k < raw.len() && raw[k] == most;
    assert(raw[at_low] == least && raw[at_high] == most);
    assert(least.value() == raw[low].value() && most.value() == raw[high].value());
    let scaled = scaled_features(raw)[i];
    let p = pow2(1074) as int;
    lemma_pow2_pos(1074);
    let (d, r) = (x.value() - least.value(), most.value() - least.value());
    lemma_distance_from_lowest(most, most, least);
    lemma_scaled_features(raw, i, i);
    quantization::constants_are_the_nearest_numbers();
    binary64::lemma_value_order(scaled, Binary64 { bits: ONE_BITS });
    if too_wide(raw) {
        lemma_halves_apart(least, most);
        lemma_half_order(least, x);
        lemma_half_order(x, most);
        halves_double_to_the_number(x);
        halves_double_to_the_number(least);
        halves_double_to_the_number(most);
        let (a, y, b) = (least.half(), x.half(), most.half());
        lemma_place_is_the_share(y, a, b);
        lemma_apart_by_more_than_one(least, most);
        let q = scaled.value();
        let (hd, hr) = (y.value() - a.value(), b.value() - a.value());
        lemma_shares_of_halves(d, r, hd, hr, q, p);
    } else {
        lemma_place_is_the_share(x, least, most);
    }
}

/// Numbers whose distance is beyond the finite are far more than one apart.
proof fn lemma_apart_by_more_than_one(low: Binary64, high: Binary64)
    requires
        low.finite(),
        high.finite(),
        low.value() <= high.value(),
        high.difference(low).infinite(),
    ensures
        high.value() - low.value() >= 16 * pow2(1074),
{
    let most = 16 * pow2(1074);
    let apart = (high.value() - low.value()) as nat;
    let bits = 0x4030_0000_0000_0000nat;
    lemma2_to64();
    lemma2_to64_rest();
    lemma_pow2_adds(4, 1074);
    lemma_pow2_adds(52, 1026);
    rounding::lemma_magnitude(LEAST_SIGNIFICAND as nat, 1026);
    rounding::grid_points_stay(bits);
    if apart == 0 {
        binary64::lemma_signed(high.negative() && !low.negative(), 0);
    } else if apart < most {
        rounding::rounding_keeps_order(apart, 1, most, 1);
        binary64::lemma_signed(false, rounding::rounded(apart, 1));
    }
}

/// What the share of the halves is of the whole distances.
proof fn lemma_shares_of_halves(d: int, r: int, hd: int, hr: int, q: int, p: int)
    requires
        0 <= d,
        0 <= hd,
        0 <= q <= p,
        p > 0,
        r >= 16 * p,
        abs(2 * hd - d) <= 2,
        abs(2 * hr - r) <= 2,
        0x20_0000_0000_0000 * abs(q * hr - hd * p) <= 11 * (hd * p) + 0x40_0000_0000_0000 * hr,
    ensures
        0x20_0000_0000_0000 * abs(q * r - d * p) <= 11 * (d * p) + 0x80_0000_0000_0000 * r,
{
    let (e, f) = (r - 2 * hr, d - 2 * hd);
    assert(-(2 * p) <= q * e <= 2 * p) by (nonlinear_arith)
        requires
            -2 <= e <= 2,
            0 <= q <= p,
    ;
    assert(-(2 * p) <= f * p <= 2 * p) by (nonlinear_arith)
        requires
            -2 <= f <= 2,
            p > 0,
    ;
    assert(q * r == 2 * (q * hr) + q * e && d * p == 2 * (hd * p) + f * p) by (nonlinear_arith)
        requires
            e == r - 2 * hr,
            f == d - 2 * hd,
    ;
}

} // verus!
