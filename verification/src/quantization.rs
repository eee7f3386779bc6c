//! Reports on what quantization costs, and the validation of quantized models.

use vstd::prelude::*;
use vstd::arithmetic::div_mod::*;
use vstd::arithmetic::mul::*;
use vstd::arithmetic::power2::*;
use vstd::math::*;

use crate::binary64;
use crate::binary64::{Binary64, ONE_BITS};
use crate::error::QuantizationError;
use crate::models::Model;
use crate::overflow;
use crate::range;
use crate::rounding;
use crate::rounding::{INFINITY_BITS, LEAST_SIGNIFICAND, SIGNIFICAND_LIMIT};

verus! {

/// The bits of the default agreement rate, 0.99.
pub const DEFAULT_AGREEMENT_BITS: u64 = 0x3FEF_AE14_7AE1_47AE;

/// The bits of the deviation below which two predictions agree, 0.0001.
pub const TOLERANCE_BITS: u64 = 0x3F1A_36E2_EB1C_432D;

/// The bits of one part of two to the power of sixteen.
pub const ONE_PART_BITS: u64 = 0x3EF0_0000_0000_0000;

/// Configuration for quantization validation.
#[derive(Clone, Copy, Debug)]
pub struct QuantizationConfig {
    /// Maximum absolute magnitude expected for input features.
    pub max_input_magnitude: Binary64,
    /// Minimum required agreement rate between float and quantized predictions, as
    /// a fraction between zero and one.
    pub min_agreement: Binary64,
}

impl Default for QuantizationConfig {
    /// Inputs up to one, and an agreement rate of 0.99.
    fn default() -> (cfg: QuantizationConfig)
        ensures
            cfg.max_input_magnitude.bits == ONE_BITS,
            cfg.min_agreement.bits == DEFAULT_AGREEMENT_BITS,
    {
        QuantizationConfig {
            max_input_magnitude: Binary64 { bits: ONE_BITS },
            min_agreement: Binary64 { bits: DEFAULT_AGREEMENT_BITS },
        }
    }
}

/// Report from quantization accuracy validation.
#[derive(Clone, Copy, Debug)]
pub struct QuantizationReport {
    /// Number of predictions.
    pub count: usize,
    /// Maximum absolute deviation.
    pub max_error: Binary64,
    /// Mean absolute deviation across all predictions.
    pub mean_deviation: Binary64,
    /// Fraction of predictions where float and quantized models agree.
    pub agreement: Binary64,
}

impl PartialEq for QuantizationReport {
    fn eq(&self, other: &QuantizationReport) -> (yes: bool) {
        self.count == other.count && self.max_error == other.max_error && self.mean_deviation
            == other.mean_deviation && self.agreement == other.agreement
    }
}

impl vstd::std_specs::cmp::PartialEqSpecImpl for QuantizationReport {
    open spec fn obeys_eq_spec() -> bool {
        true
    }

    open spec fn eq_spec(&self, other: &QuantizationReport) -> bool {
        &&& self.count == other.count
        &&& self.max_error.same(other.max_error)
        &&& self.mean_deviation.same(other.mean_deviation)
        &&& self.agreement.same(other.agreement)
    }
}

/// A summary of the error introduced by quantizing a parameter set.
#[derive(Clone, Copy, Debug)]
pub struct QuantizationErrorReport {
    /// Number of values quantized.
    pub count: usize,
    /// Maximum absolute reconstruction error.
    pub max_error: Binary64,
}

impl PartialEq for QuantizationErrorReport {
    fn eq(&self, other: &QuantizationErrorReport) -> (yes: bool) {
        self.count == other.count && self.max_error == other.max_error
    }
}

impl vstd::std_specs::cmp::PartialEqSpecImpl for QuantizationErrorReport {
    open spec fn obeys_eq_spec() -> bool {
        true
    }

    open spec fn eq_spec(&self, other: &QuantizationErrorReport) -> bool {
        &&& self.count == other.count
        &&& self.max_error.same(other.max_error)
    }
}

/// What the quantized model predicts for a sample, and what the float model does.
#[derive(Clone, Copy, Debug)]
pub struct Prediction {
    pub quantized: Binary64,
    pub expected: Binary64,
}

/// Zero.
pub open spec fn zero() -> Binary64 {
    Binary64 { bits: 0 }
}

/// The larger of `a` and `b`; `a` where `b` is not a number.
pub open spec fn larger(a: Binary64, b: Binary64) -> Binary64 {
    if a.less(b) {
        b
    } else {
        a
    }
}

/// The largest of zero and the numbers.
pub open spec fn largest(numbers: Seq<Binary64>) -> Binary64
    decreases numbers.len(),
{
    if numbers.len() == 0 {
        zero()
    } else {
        larger(largest(numbers.drop_last()), numbers.last())
    }
}

/// The numbers, added up from the first on.
pub open spec fn total(numbers: Seq<Binary64>) -> Binary64
    decreases numbers.len(),
{
    if numbers.len() == 0 {
        zero()
    } else {
        total(numbers.drop_last()).sum(numbers.last())
    }
}

/// How many deviations are below the tolerance.
pub open spec fn agreeing(deviations: Seq<Binary64>) -> nat
    decreases deviations.len(),
{
    if deviations.len() == 0 {
        0
    } else {
        agreeing(deviations.drop_last()) + if deviations.last().less(
            Binary64 { bits: TOLERANCE_BITS },
        ) {
            1nat
        } else {
            0
        }
    }
}

/// The absolute difference of `a` and `b`.
pub open spec fn distance(a: Binary64, b: Binary64) -> Binary64 {
    a.difference(b).magnitude()
}

/// The absolute reconstruction error of each value.
pub open spec fn reconstruction_errors(
    values: Seq<Binary64>,
    reconstructed: Seq<Binary64>,
) -> Seq<Binary64> {
    Seq::new(values.len(), |i: int| distance(values[i], reconstructed[i]))
}

/// The absolute deviation of each prediction.
pub open spec fn deviations(predictions: Seq<Prediction>) -> Seq<Binary64> {
    Seq::new(
        predictions.len(),
        |i: int| distance(predictions[i].quantized, predictions[i].expected),
    )
}

/// The report on the predictions.
pub open spec fn accuracy_report(predictions: Seq<Prediction>) -> QuantizationReport {
    if predictions.len() == 0 {
        QuantizationReport {
            count: 0,
            max_error: zero(),
            mean_deviation: zero(),
            agreement: Binary64 { bits: ONE_BITS },
        }
    } else {
        let all = deviations(predictions);
        let count = Binary64::of_nat(predictions.len());
        QuantizationReport {
            count: predictions.len() as usize,
            max_error: largest(all),
            mean_deviation: total(all).quotient(count),
            agreement: Binary64::of_nat(agreeing(all)).quotient(count),
        }
    }
}

/// What the accuracy validation returns: the report, unless there are predictions
/// and fewer of them agree than required.
pub open spec fn accuracy_verdict(
    predictions: Seq<Prediction>,
    cfg: QuantizationConfig,
) -> Result<QuantizationReport, QuantizationError> {
    let report = accuracy_report(predictions);
    if predictions.len() > 0 && report.agreement.less(cfg.min_agreement) {
        Err(
            QuantizationError::PoorAgreement {
                agreement: report.agreement,
                threshold: cfg.min_agreement,
            },
        )
    } else {
        Ok(report)
    }
}

/// What the validation of a model returns: the error of the first of the three
/// checks that fails, or the report of the last.
pub open spec fn model_validated(
    result: Result<QuantizationReport, QuantizationError>,
    model: Model,
    cfg: QuantizationConfig,
    predictions: Seq<Prediction>,
) -> bool {
    let max_input = cfg.max_input_magnitude.scaled();
    if !range::range_checked(Ok(()), range::parameters(model)) {
        result matches Err(error) && range::range_checked(Err(error), range::parameters(model))
    } else if !overflow::overflow_checked(Ok(()), model, max_input) {
        result matches Err(error) && overflow::overflow_checked(Err(error), model, max_input)
    } else {
        result == accuracy_verdict(predictions, cfg)
    }
}

/// The absolute difference of `a` and `b`.
fn distance_of(a: Binary64, b: Binary64) -> (number: Binary64)
    ensures
        number == distance(a, b),
{
    a.minus(b).abs()
}

/// Maximum absolute reconstruction error introduced by quantizing `values`, where
/// `reconstructed` holds what each value is after quantizing and dequantizing it.
///
/// Useful for asserting that a model survives quantization within tolerance.
pub fn max_quantization_error(values: &[Binary64], reconstructed: &[Binary64]) -> (max: Binary64)
    requires
        values@.len() == reconstructed@.len(),
    ensures
        max == largest(reconstruction_errors(values@, reconstructed@)),
{
    let ghost all = reconstruction_errors(values@, reconstructed@);
    let mut max: Binary64 = Binary64 { bits: 0 };
    let mut i: usize = 0;
    while i < values.len()
        invariant
            i <= values@.len() == reconstructed@.len(),
            all == reconstruction_errors(values@, reconstructed@),
            max == largest(all.take(i as int)),
        decreases values@.len() - i,
    {
        let error: Binary64 = distance_of(values[i], reconstructed[i]);
        assert(all.take(i + 1).drop_last() =~= all.take(i as int));
        if max.is_less(error) {
            max = error;
        }
        i = i + 1;
    }
    assert(all.take(i as int) =~= all);
    max
}

/// Build a [`QuantizationErrorReport`] for a set of values and their
/// reconstructions.
pub fn quantization_error_report(values: &[Binary64], reconstructed: &[Binary64]) -> (report:
    QuantizationErrorReport)
    requires
        values@.len() == reconstructed@.len(),
    ensures
        report.count == values@.len(),
        report.max_error == largest(reconstruction_errors(values@, reconstructed@)),
{
    QuantizationErrorReport {
        count: values.len(),
        max_error: max_quantization_error(values, reconstructed),
    }
}

/// Validate accuracy by comparing float and quantized model predictions.
pub fn validate_accuracy(predictions: &[Prediction], cfg: &QuantizationConfig) -> (result: Result<
    QuantizationReport,
    QuantizationError,
>)
    ensures
        result == accuracy_verdict(predictions@, *cfg),
{
    if predictions.len() == 0 {
        return Ok(
            QuantizationReport {
                count: 0,
                max_error: Binary64 { bits: 0 },
                mean_deviation: Binary64 { bits: 0 },
                agreement: Binary64 { bits: ONE_BITS },
            },
        );
    }
    let tolerance: Binary64 = Binary64 { bits: TOLERANCE_BITS };
    let ghost all = deviations(predictions@);
    let mut total_deviation: Binary64 = Binary64 { bits: 0 };
    let mut max_deviation: Binary64 = Binary64 { bits: 0 };
    let mut agreement_count: usize = 0;
    let mut i: usize = 0;
    while i < predictions.len()
        invariant
            i <= predictions@.len(),
            tolerance.bits == TOLERANCE_BITS,
            all == deviations(predictions@),
            total_deviation == total(all.take(i as int)),
            max_deviation == largest(all.take(i as int)),
            agreement_count == agreeing(all.take(i as int)),
            agreement_count <= i,
        decreases predictions@.len() - i,
    {
        let deviation: Binary64 = distance_of(predictions[i].quantized, predictions[i].expected);
        assert(all.take(i + 1).drop_last() =~= all.take(i as int));
        total_deviation = total_deviation.plus(deviation);
        if max_deviation.is_less(deviation) {
            max_deviation = deviation;
        }
        if deviation.is_less(tolerance) {
            agreement_count = agreement_count + 1;
        }
        i = i + 1;
    }
    assert(all.take(i as int) =~= all);
    let count: Binary64 = Binary64::from_u64(predictions.len() as u64);
    let mean_deviation: Binary64 = total_deviation.divided_by(count);
    let agreement: Binary64 = Binary64::from_u64(agreement_count as u64).divided_by(count);
    if agreement.is_less(cfg.min_agreement) {
        return Err(
            QuantizationError::PoorAgreement { agreement, threshold: cfg.min_agreement },
        );
    }
    Ok(
        QuantizationReport {
            count: predictions.len(),
            max_error: max_deviation,
            mean_deviation,
            agreement,
        },
    )
}

/// Validate a quantized model against the configuration.
///
/// Performs three validation passes:
/// 1. Range check: all parameters must be within the representable range.
/// 2. Static overflow bounds analysis: ensures that nothing that inference computes
///    can overflow `i64`.
/// 3. Accuracy validation: compares predictions on a validation dataset.
pub fn validate_model(
    model: &Model,
    cfg: &QuantizationConfig,
    predictions: &[Prediction],
) -> (result: Result<QuantizationReport, QuantizationError>)
    requires
        range::all_safe(range::parameters(*model)) ==> model.well_formed(),
    ensures
        model_validated(result, *model, *cfg, predictions@),
{
    match range::check_parameter_range(model) {
        Ok(()) => {},
        Err(error) => {
            return Err(error);
        },
    }
    match overflow::check_overflow_bounds(model, cfg) {
        Ok(()) => {},
        Err(error) => {
            return Err(error);
        },
    }
    validate_accuracy(predictions, cfg)
}

/// The largest of numbers is zero or one of them, and none is above it.
pub proof fn largest_is_an_upper_bound(numbers: Seq<Binary64>)
    ensures
        !largest(numbers).nan(),
        largest(numbers) == zero() || numbers.contains(largest(numbers)),
        !largest(numbers).less(zero()),
        forall|i: int|
            0 <= i < numbers.len() ==> !largest(numbers).less(#[trigger] numbers[i]),
    decreases numbers.len(),
{
    if numbers.len() > 0 {
        let before = numbers.drop_last();
        largest_is_an_upper_bound(before);
        assert(numbers.last() == numbers[numbers.len() - 1]);
        if numbers.last() != largest(numbers) && largest(numbers) != zero() {
            let i = choose|i: int| 0 <= i < before.len() && before[i] == largest(before);
            assert(numbers[i] == before[i]);
        }
        assert forall|i: int| 0 <= i < numbers.len() implies !largest(numbers).less(
            #[trigger] numbers[i],
        ) by {
            if i < before.len() {
                assert(numbers[i] == before[i]);
            }
        }
    }
}

/// A report of an error below some tolerance means that no single reconstruction
/// error reaches it.
pub proof fn reported_error_bounds_every_error(
    values: Seq<Binary64>,
    reconstructed: Seq<Binary64>,
    tolerance: Binary64,
    i: int,
)
    requires
        0 <= i < values.len(),
        largest(reconstruction_errors(values, reconstructed)).less(tolerance),
        !distance(values[i], reconstructed[i]).nan(),
    ensures
        distance(values[i], reconstructed[i]).less(tolerance),
{
    let errors = reconstruction_errors(values, reconstructed);
    largest_is_an_upper_bound(errors);
    assert(!largest(errors).less(errors[i]));
}

/// No more deviations agree than there are, and all do exactly when each is below
/// the tolerance.
pub proof fn agreeing_counts_the_small_deviations(deviations: Seq<Binary64>)
    ensures
        agreeing(deviations) <= deviations.len(),
        agreeing(deviations) == deviations.len() <==> forall|i: int|
            0 <= i < deviations.len() ==> (#[trigger] deviations[i]).less(
                Binary64 { bits: TOLERANCE_BITS },
            ),
    decreases deviations.len(),
{
    if deviations.len() > 0 {
        let before = deviations.drop_last();
        agreeing_counts_the_small_deviations(before);
        assert(deviations.last() == deviations[deviations.len() - 1]);
        assert(forall|i: int| 0 <= i < before.len() ==> #[trigger] before[i] == deviations[i]);
        assert forall|i: int|
            0 <= i < before.len() && agreeing(deviations) == deviations.len() implies (
        #[trigger] deviations[i]).less(Binary64 { bits: TOLERANCE_BITS }) by {
            assert(before[i] == deviations[i]);
        }
        if forall|i: int|
            0 <= i < deviations.len() ==> (#[trigger] deviations[i]).less(
                Binary64 { bits: TOLERANCE_BITS },
            ) {
            assert forall|i: int| 0 <= i < before.len() implies (#[trigger] before[i]).less(
                Binary64 { bits: TOLERANCE_BITS },
            ) by {
                assert(deviations[i] == before[i]);
            }
        }
    }
}

/// A number of predictions, held as a binary64 number, is finite and not zero.
proof fn lemma_count(n: nat)
    requires
        0 < n <= u64::MAX,
    ensures
        Binary64::of_nat(n).finite(),
        Binary64::of_nat(n).units() > 0,
        !Binary64::of_nat(n).negative(),
        n <= SIGNIFICAND_LIMIT ==> Binary64::of_nat(n).units() == n * pow2(1074),
{
    let p = pow2(1074);
    let exact = n * p;
    lemma_pow2_pos(1074);
    lemma2_to64();
    lemma_div_basics(exact as int);
    let (m, k) = rounding::lemma_round_form(exact, 1);
    rounding::lemma_encode(m, k);
    lemma_pow2_adds(64, 1074);
    assert(exact < pow2(1138)) by (nonlinear_arith)
        requires
            exact == n * p,
            n < 0x1_0000_0000_0000_0000,
            pow2(1138) == 0x1_0000_0000_0000_0000 * p,
            p > 0,
    ;
    if k > 1086 {
        lemma2_to64_rest();
        lemma_pow2_adds(52, k);
        lemma_pow2_strictly_increases(1138, 52 + k);
        assert(false);
    }
    rounding::lemma_rounded_magnitude(exact, 1);
    binary64::lemma_signed(false, rounding::rounded(exact, 1));
    rounding::lemma_round_scaled(n, 1074);
    let r = rounding::round_ratio(n, 1);
    assert(r > 0) by {
        rounding::lemma_round_small(1);
        rounding::rounding_keeps_order(1, 1, n, 1);
    }
    assert(r * p > 0) by (nonlinear_arith)
        requires
            r > 0,
            p > 0,
    ;
    if n <= SIGNIFICAND_LIMIT {
        rounding::lemma_round_small(n);
    }
}

/// Where every prediction agrees, the agreement is one.
pub proof fn perfect_agreement_is_one(predictions: Seq<Prediction>)
    requires
        0 < predictions.len() <= usize::MAX,
        forall|i: int|
            0 <= i < predictions.len() ==> (#[trigger] deviations(predictions)[i]).less(
                Binary64 { bits: TOLERANCE_BITS },
            ),
    ensures
        accuracy_report(predictions).agreement.bits == ONE_BITS,
{
    agreeing_counts_the_small_deviations(deviations(predictions));
    let n = predictions.len();
    lemma_count(n);
    binary64::lemma_ratio_of_equals(Binary64::of_nat(n).units());
}

/// Predictions are accepted where the exact fraction of those that agree reaches
/// the threshold.
pub proof fn enough_agreement_is_accepted(predictions: Seq<Prediction>, cfg: QuantizationConfig)
    requires
        predictions.len() <= SIGNIFICAND_LIMIT,
        cfg.min_agreement.finite(),
        agreeing(deviations(predictions)) * pow2(1074) >= cfg.min_agreement.value()
            * predictions.len(),
    ensures
        accuracy_verdict(predictions, cfg) == Ok::<QuantizationReport, QuantizationError>(
            accuracy_report(predictions),
        ),
{
    let n = predictions.len();
    let k = agreeing(deviations(predictions));
    let min = cfg.min_agreement;
    let p = pow2(1074);
    lemma_pow2_pos(1074);
    agreeing_counts_the_small_deviations(deviations(predictions));
    if n > 0 {
        let (count, part) = (Binary64::of_nat(n), Binary64::of_nat(k));
        let agreement = part.quotient(count);
        lemma_count(n);
        if k > 0 {
            lemma_count(k);
        } else {
            assert(0 * p == 0);
            rounding::lemma_round_small(0);
            binary64::lemma_signed(false, 0);
            binary64::lemma_value_order(part, zero());
        }
        let bits = rounding::rounded(part.units() * p, count.units());
        rounding::lemma_rounded_magnitude(part.units() * p, count.units());
        binary64::lemma_signed(false, bits);
        assert(agreement == Binary64::signed(false, bits));
        if !min.negative() {
            let g = min.units();
            assert(g * count.units() <= (part.units() * p) * 1) by (nonlinear_arith)
                requires
                    k * p >= g * n,
                    count.units() == n * p,
                    part.units() == k * p,
                    p > 0,
            ;
            rounding::rounding_keeps_order(g, 1, part.units() * p, count.units());
            rounding::grid_points_stay(min.unsigned_bits());
            binary64::lemma_value_order(agreement, min);
        }
    }
}

/// An accepted report on predictions has an agreement that is not below the
/// threshold, and a rejected one has one that is.
pub proof fn verdict_follows_the_threshold(predictions: Seq<Prediction>, cfg: QuantizationConfig)
    requires
        predictions.len() > 0,
    ensures
        accuracy_verdict(predictions, cfg) is Ok <==> !accuracy_report(predictions).agreement.less(
            cfg.min_agreement,
        ),
{
}

/// A validation that returns a report has passed all three checks.
pub proof fn validated_models_pass_every_check(
    report: QuantizationReport,
    model: Model,
    cfg: QuantizationConfig,
    predictions: Seq<Prediction>,
)
    requires
        model_validated(Ok(report), model, cfg, predictions),
    ensures
        range::all_safe(range::parameters(model)),
        overflow::overflow_checked(Ok(()), model, cfg.max_input_magnitude.scaled()),
        report == accuracy_report(predictions),
        predictions.len() > 0 ==> !report.agreement.less(cfg.min_agreement),
{
}

/// `n` is one of the whole parts of two to the power of sixteen next to `x`, which
/// is what quantizing `x` to the nearer, the lower or the upper part gives.
pub open spec fn next_to(n: int, x: Binary64) -> bool {
    &&& x.finite()
    &&& abs(x.value() - n * pow2(1058)) < pow2(1058)
}

/// A value of more than 53 bits of parts is a whole number of parts, so that the
/// parts next to it are that number, and it is what they are reconstructed to.
proof fn lemma_large_values_are_whole(x: Binary64, n: int)
    requires
        next_to(n, x),
        i64::MIN <= n <= i64::MAX,
        n < -SIGNIFICAND_LIMIT || n > SIGNIFICAND_LIMIT,
    ensures
        Binary64::of_scaled(n).finite(),
        Binary64::of_scaled(n).value() == n * pow2(1058),
{
    let p = pow2(1058);
    let size = (if n < 0 {
        -n
    } else {
        n
    }) as nat;
    let (w, k) = binary64::lemma_units_form(x);
    let units = x.units();
    lemma_pow2_pos(1058);
    assert(size * p == if n < 0 { -(n * p) } else { n * p }) by (nonlinear_arith)
        requires
            size == if n < 0 { -n } else { n },
    ;
    // The value lies within one part of `n`, on the same side of zero.
    assert((size - 1) * p < units < (size + 1) * p && (x.negative() <==> n < 0)) by {
        assert((size - 1) * p == size * p - p) by (nonlinear_arith);
        assert((size + 1) * p == size * p + p) by (nonlinear_arith);
        assert(size * p > p) by (nonlinear_arith)
            requires
                size > 1,
                p > 0,
        ;
    }
    assert(units > SIGNIFICAND_LIMIT * p) by (nonlinear_arith)
        requires
            (size - 1) * p < units,
            size - 1 >= SIGNIFICAND_LIMIT,
            p > 0,
    ;
    if k < 1058 {
        let pk = pow2(k);
        lemma_pow2_strictly_increases(k, 1058);
        assert(w * pk <= SIGNIFICAND_LIMIT * p) by (nonlinear_arith)
            requires
                w <= SIGNIFICAND_LIMIT,
                pk <= p,
        ;
        assert(false);
    }
    let c = pow2((k - 1058) as nat);
    lemma_pow2_adds((k - 1058) as nat, 1058);
    assert(units == (w * c) * p) by (nonlinear_arith)
        requires
            units == w * (c * p),
    ;
    lemma_mul_strict_inequality_converse(size - 1, (w * c) as int, p as int);
    lemma_mul_strict_inequality_converse((w * c) as int, size as int + 1, p as int);
    assert(units == size * p);
    rounding::grid_points_stay(x.unsigned_bits());
    binary64::lemma_signed(n < 0, x.unsigned_bits());
}

/// Quantizing a value to whole parts next to it costs less than one part: the parts
/// are reconstructed exactly, and the reconstruction error, as it is computed, is
/// never above two to the power of minus sixteen.
pub proof fn quantization_costs_less_than_one_part(x: Binary64, n: int)
    requires
        next_to(n, x),
        i64::MIN <= n <= i64::MAX,
    ensures
        Binary64::of_scaled(n).finite(),
        Binary64::of_scaled(n).value() == n * pow2(1058),
        abs(x.value() - Binary64::of_scaled(n).value()) < pow2(1058),
        !distance(x, Binary64::of_scaled(n)).nan(),
        !(Binary64 { bits: ONE_PART_BITS }).less(distance(x, Binary64::of_scaled(n))),
{
    let p = pow2(1058);
    let size = (if n < 0 {
        -n
    } else {
        n
    }) as nat;
    let back = Binary64::of_scaled(n);
    let part = Binary64 { bits: ONE_PART_BITS };
    if size <= SIGNIFICAND_LIMIT {
        binary64::lemma_scaled_of_scaled(n);
        rounding::lemma_round_small(size);
        assert(n < 0 ==> size * p == -(n * p)) by (nonlinear_arith)
            requires
                n < 0 ==> size == -n,
        ;
    } else {
        lemma_large_values_are_whole(x, n);
    }
    // The part itself, in units.
    lemma2_to64_rest();
    lemma_pow2_adds(52, 1006);
    rounding::lemma_magnitude(LEAST_SIGNIFICAND as nat, 1006);
    assert(part.value() == p);
    let error = distance(x, back);
    let exact = abs(x.value() - back.value());
    let bits = if exact == 0 {
        0
    } else {
        rounding::rounded(exact, 1)
    };
    rounding::rounding_keeps_order(exact, 1, p, 1);
    rounding::grid_points_stay(ONE_PART_BITS as nat);
    let difference = x.difference(back);
    binary64::lemma_signed(x.negative() && !back.negative(), 0);
    binary64::lemma_signed(difference.negative(), bits);
    binary64::lemma_signed(x.value() < back.value(), bits);
    assert(difference.unsigned_bits() == bits);
    binary64::lemma_signed(false, bits);
    binary64::lemma_value_order(part, error);
}

/// The same for a whole set of values: no error that is reported for their
/// quantization to parts next to them is above two to the power of minus sixteen.
pub proof fn reported_error_is_at_most_one_part(values: Seq<Binary64>, parts: Seq<int>)
    requires
        parts.len() == values.len(),
        forall|i: int|
            0 <= i < values.len() ==> next_to(#[trigger] parts[i], values[i])
                && i64::MIN <= parts[i] <= i64::MAX,
    ensures
        !(Binary64 { bits: ONE_PART_BITS }).less(
            largest(
                reconstruction_errors(
                    values,
                    Seq::new(parts.len(), |i: int| Binary64::of_scaled(parts[i])),
                ),
            ),
        ),
{
    let back = Seq::new(parts.len(), |i: int| Binary64::of_scaled(parts[i]));
    let errors = reconstruction_errors(values, back);
    largest_is_an_upper_bound(errors);
    if largest(errors) == zero() {
        binary64::lemma_value_order(zero(), Binary64 { bits: ONE_PART_BITS });
    } else {
        let i = choose|i: int| 0 <= i < errors.len() && errors[i] == largest(errors);
        assert(next_to(parts[i], values[i]));
        quantization_costs_less_than_one_part(values[i], parts[i]);
    }
}

/// Adding one more number to a total gives the number nearest to the exact sum of the two,
/// and the total of none is zero. What is not finite is added as a sum adds it.
pub proof fn totals_grow_by_nearest_sums(numbers: Seq<Binary64>, x: Binary64, y: Binary64)
    requires
        !y.nan(),
    ensures
        total(Seq::empty()).value() == 0,
        total(Seq::empty()).bits == 0,
        ({
            let (before, after) = (total(numbers), total(numbers.push(x)));
            let exact = before.value() + x.value();
            &&& before.finite() && x.finite() ==> {
                &&& !after.nan()
                &&& abs(after.value() - exact) <= abs(y.value() - exact)
                &&& after.value() != y.value() && abs(after.value() - exact) == abs(
                    y.value() - exact,
                ) ==> after.bits % 2 == 0
            }
            &&& after.nan() <==> before.nan() || x.nan() || (before.infinite() && x.infinite()
                && before.negative() != x.negative())
            &&& !after.nan() && before.infinite() ==> after == before
            &&& !after.nan() && x.infinite() ==> after == x || after == before
        }),
{
    assert(numbers.push(x).drop_last() =~= numbers);
    assert(numbers.push(x).last() == x);
    let before = total(numbers);
    binary64::lemma_value_order(zero(), zero());
    binary64::operations_beyond_the_finite(before, x);
    if before.finite() && x.finite() {
        binary64::sums_are_nearest(before, x, y);
    }
}

/// The total of a single number is that number.
pub proof fn the_total_of_one_number_is_that_number(x: Binary64)
    requires
        !x.nan(),
    ensures
        !total(seq![x]).nan(),
        total(seq![x]).value() == x.value(),
        x.value() != 0 ==> total(seq![x]).bits == x.bits,
{
    let none = Seq::<Binary64>::empty();
    assert(none.push(x) =~= seq![x]);
    totals_grow_by_nearest_sums(none, x, x);
    let sum = total(seq![x]);
    binary64::signs_and_magnitudes(x, sum);
    binary64::signs_and_magnitudes(sum, x);
    binary64::lemma_value_order(x, sum);
    if x.infinite() {
        binary64::operations_beyond_the_finite(zero(), x);
        assert(seq![x].drop_last() =~= none);
    }
}

/// The largest finite magnitude is not rounded up to infinity.
proof fn lemma_stays_finite(exact: nat)
    requires
        exact <= rounding::magnitude((INFINITY_BITS - 1) as nat),
    ensures
        rounding::rounded(exact, 1) < INFINITY_BITS,
        rounding::magnitude(rounding::rounded(exact, 1)) == rounding::round_ratio(exact, 1),
{
    let most = rounding::magnitude((INFINITY_BITS - 1) as nat);
    rounding::rounding_keeps_order(exact, 1, most, 1);
    rounding::grid_points_stay((INFINITY_BITS - 1) as nat);
    rounding::lemma_rounded_magnitude(exact, 1);
}

/// What a sum of two numbers that are not negative costs.
proof fn lemma_sum_costs_little(a: Binary64, b: Binary64)
    requires
        a.finite(),
        b.finite(),
        !a.negative(),
        !b.negative(),
        a.value() + b.value() <= rounding::magnitude((INFINITY_BITS - 1) as nat),
    ensures
        a.sum(b).finite(),
        !a.sum(b).negative(),
        0x20_0000_0000_0000 * abs(a.sum(b).value() - (a.value() + b.value())) <= a.value()
            + b.value(),
{
    let exact = (a.value() + b.value()) as nat;
    binary64::signs_and_magnitudes(b, b);
    binary64::sums_are_nearest(a, b, a);
    lemma_stays_finite(exact);
    rounding::rounding_costs_little(exact, 1);
    if exact > 0 {
        binary64::lemma_signed(false, rounding::rounded(exact, 1));
        assert(a.sum(b) == Binary64::nearest(exact as int));
    } else {
        binary64::lemma_value_order(a.sum(b), zero());
    }
}

/// Every number counts in a total: it is the exact sum of them all, but for what rounding
/// costs, which is at most two parts of two to the power of 53 for each number.
pub proof fn totals_are_sums(numbers: Seq<Binary64>)
    requires
        numbers.len() <= 0x10_0000_0000_0000,
        forall|i: int|
            0 <= i < numbers.len() ==> (#[trigger] numbers[i]).finite() && !numbers[i].negative(),
        2 * numbers.fold_left(0int, |sum: int, x: Binary64| sum + x.value())
            <= rounding::magnitude(0x7FEF_FFFF_FFFF_FFFF),
    ensures
        ({
            let exact = numbers.fold_left(0int, |sum: int, x: Binary64| sum + x.value());
            &&& exact >= 0
            &&& total(numbers).finite()
            &&& !total(numbers).negative()
            &&& 0x20_0000_0000_0000 * abs(total(numbers).value() - exact) <= 2 * numbers.len()
                * exact
        }),
    decreases numbers.len(),
{
    let summed = |sum: int, x: Binary64| sum + x.value();
    let exact = numbers.fold_left(0int, summed);
    if numbers.len() == 0 {
        binary64::lemma_value_order(zero(), zero());
        assert(2 * numbers.len() * exact == 0) by (nonlinear_arith)
            requires
                exact == 0,
        ;
    } else {
        let before = numbers.drop_last();
        let x = numbers.last();
        assert(x == numbers[numbers.len() - 1]);
        assert(forall|i: int| 0 <= i < before.len() ==> #[trigger] before[i] == numbers[i]);
        let part = before.fold_left(0int, summed);
        assert(exact == part + x.value());
        totals_are_sums(before);
        let (n, m) = (numbers.len() as int, before.len() as int);
        let t = total(before);
        assert(2 * m * part <= 0x20_0000_0000_0000 * part) by (nonlinear_arith)
            requires
                0 <= 2 * m <= 0x20_0000_0000_0000,
                part >= 0,
        ;
        assert(t.value() <= 2 * part);
        lemma_sum_costs_little(t, x);
        assert(2 * m * part + 2 * exact <= 2 * n * exact) by (nonlinear_arith)
            requires
                n == m + 1,
                m >= 0,
                0 <= part <= exact,
        ;
    }
}

/// The mean deviation is the mean of the deviations: times their number it is their exact
/// sum, but for what rounding costs in the additions and in the division.
pub proof fn mean_deviation_is_the_mean(predictions: Seq<Prediction>)
    requires
        0 < predictions.len() <= 0x10_0000_0000_0000,
        forall|i: int|
            0 <= i < predictions.len() ==> (#[trigger] predictions[i]).quantized.difference(
                predictions[i].expected,
            ).finite(),
        2 * predictions.fold_left(
            0int,
            |sum: int, p: Prediction| sum + abs(p.quantized.difference(p.expected).value()),
        ) <= rounding::magnitude(0x7FEF_FFFF_FFFF_FFFF),
    ensures
        ({
            let n = predictions.len() as int;
            let exact = predictions.fold_left(
                0int,
                |sum: int, p: Prediction| sum + abs(p.quantized.difference(p.expected).value()),
            );
            let mean = accuracy_report(predictions).mean_deviation;
            &&& mean.finite()
            &&& !mean.negative()
            &&& 0x20_0000_0000_0000 * abs(mean.value() * n - exact) <= (2 * n + 2) * exact
                + 0x10_0000_0000_0000 * n
        }),
{
    let n = predictions.len() as int;
    let all = deviations(predictions);
    let exact = all.fold_left(0int, |sum: int, x: Binary64| sum + x.value());
    lemma_deviations_add_up(predictions);
    assert forall|i: int| 0 <= i < all.len() implies (#[trigger] all[i]).finite()
        && !all[i].negative() by {
        let d = predictions[i].quantized.difference(predictions[i].expected);
        binary64::signs_and_magnitudes(d, d);
    }
    totals_are_sums(all);
    let (t, count) = (total(all), Binary64::of_nat(n as nat));
    lemma_count(n as nat);
    let p = pow2(1074);
    lemma_pow2_pos(1074);
    let (num, den) = (t.units() * p, count.units());
    let r = rounding::round_ratio(num, den);
    // The quotient is no larger than the total, and so is finite.
    assert(num * 1 <= t.units() * den) by (nonlinear_arith)
        requires
            num == t.units() * p,
            den == n * p,
            n >= 1,
            p > 0,
    ;
    rounding::rounding_keeps_order(num, den, t.units(), 1);
    rounding::grid_points_stay(t.unsigned_bits());
    rounding::lemma_rounded_magnitude(num, den);
    rounding::rounding_costs_little(num, den);
    let mean = t.quotient(count);
    binary64::lemma_signed(false, rounding::rounded(num, den));
    assert(mean.value() == r);
    let u = t.units() as int;
    // A factor of two to the power of 1074 cancels.
    assert(0x20_0000_0000_0000 * abs(r * n - u) <= u + 0x10_0000_0000_0000 * n) by {
        let e = r * n - u;
        assert(r * den - num == e * p) by (nonlinear_arith)
            requires
                den == n * p,
                num == u * p,
                e == r * n - u,
        ;
        let size = abs(e) as int;
        assert(abs(e * p) == size * p) by (nonlinear_arith)
            requires
                p > 0,
                size == if e < 0 { -e } else { e },
                abs(e * p) == if e * p < 0 { -(e * p) } else { e * p },
        ;
        let bound = u + 0x10_0000_0000_0000 * n;
        assert((0x20_0000_0000_0000 * size) * p <= bound * p) by (nonlinear_arith)
            requires
                0x20_0000_0000_0000 * (size * p) <= u * p + 0x10_0000_0000_0000 * (n * p),
                bound == u + 0x10_0000_0000_0000 * n,
        ;
        lemma_mul_inequality_converse(0x20_0000_0000_0000 * size, bound, p as int);
    }
    assert(2 * n * exact <= 0x20_0000_0000_0000 * exact) by (nonlinear_arith)
        requires
            0 <= 2 * n <= 0x20_0000_0000_0000,
            exact >= 0,
    ;
    assert(u <= 2 * exact);
    assert((2 * n + 2) * exact == 2 * n * exact + 2 * exact) by (nonlinear_arith);
}

/// The deviations are totalled without their signs, and the mean deviation is the number
/// nearest to the total over the number of predictions; it is infinite where the total is.
pub proof fn mean_deviation_is_nearest(predictions: Seq<Prediction>, y: Binary64, i: int)
    requires
        0 < predictions.len() <= 0x20_0000_0000_0000,
        !y.nan(),
    ensures
        deviations(predictions).len() == predictions.len(),
        0 <= i < predictions.len() ==> {
            let d = predictions[i].quantized.difference(predictions[i].expected);
            &&& deviations(predictions)[i].nan() == d.nan()
            &&& deviations(predictions)[i].value() == abs(d.value())
            &&& !deviations(predictions)[i].negative()
        },
        ({
            let n = predictions.len() as int;
            let total = total(deviations(predictions));
            let mean = accuracy_report(predictions).mean_deviation;
            &&& total.finite() ==> {
                &&& !mean.nan()
                &&& abs(mean.value() * n - total.value()) <= abs(y.value() * n - total.value())
                &&& mean.value() != y.value() && y.value() >= 0 && abs(
                    mean.value() * n - total.value(),
                ) == abs(y.value() * n - total.value()) ==> mean.bits % 2 == 0
            }
            &&& total.infinite() ==> mean.infinite()
        }),
{
    let all = deviations(predictions);
    if 0 <= i < predictions.len() {
        let d = predictions[i].quantized.difference(predictions[i].expected);
        binary64::signs_and_magnitudes(d, d);
    }
    assert forall|k: int| 0 <= k < all.len() implies !(#[trigger] all[k]).negative() by {
        let d = predictions[k].quantized.difference(predictions[k].expected);
        binary64::signs_and_magnitudes(d, d);
    }
    lemma_total_beyond_the_finite(all);
    lemma_count(predictions.len());
    binary64::operations_beyond_the_finite(total(all), Binary64::of_nat(predictions.len()));
    if total(all).finite() {
        lemma_quotient_by_a_count(total(all), predictions.len(), y);
    }
}

/// The deviations have the values of the differences, without the sign.
proof fn lemma_deviations_add_up(predictions: Seq<Prediction>)
    ensures
        deviations(predictions).fold_left(0int, |sum: int, x: Binary64| sum + x.value())
            == predictions.fold_left(
            0int,
            |sum: int, p: Prediction| sum + abs(p.quantized.difference(p.expected).value()),
        ),
    decreases predictions.len(),
{
    if predictions.len() > 0 {
        let before = predictions.drop_last();
        lemma_deviations_add_up(before);
        assert(deviations(predictions).drop_last() =~= deviations(before));
        let p = predictions.last();
        let d = p.quantized.difference(p.expected);
        binary64::signs_and_magnitudes(d, d);
        assert(deviations(predictions).last() == d.magnitude());
    }
}

/// A mean deviation is undefined exactly when a deviation is, and infinite where one is.
pub proof fn deviations_beyond_the_finite_show_in_the_mean(predictions: Seq<Prediction>)
    requires
        0 < predictions.len() <= usize::MAX,
    ensures
        accuracy_report(predictions).mean_deviation.nan() <==> exists|i: int|
            0 <= i < predictions.len() && (#[trigger] predictions[i]).quantized.difference(
                predictions[i].expected,
            ).nan(),
        !accuracy_report(predictions).mean_deviation.nan() && (exists|i: int|
            0 <= i < predictions.len() && (#[trigger] predictions[i]).quantized.difference(
                predictions[i].expected,
            ).infinite()) ==> accuracy_report(predictions).mean_deviation.infinite(),
        !accuracy_report(predictions).mean_deviation.nan() ==> !accuracy_report(
            predictions,
        ).mean_deviation.negative(),
{
    let all = deviations(predictions);
    assert forall|i: int| 0 <= i < all.len() implies !(#[trigger] all[i]).negative() && {
        let d = predictions[i].quantized.difference(predictions[i].expected);
        all[i].nan() == d.nan() && all[i].infinite() == d.infinite()
    } by {
        let d = predictions[i].quantized.difference(predictions[i].expected);
        binary64::signs_and_magnitudes(d, d);
        binary64::signs_and_magnitudes(all[i], d);
        assert(all[i] == d.magnitude());
        assert(all[i].unsigned_bits() == d.unsigned_bits());
    }
    lemma_total_beyond_the_finite(all);
    let count = Binary64::of_nat(predictions.len());
    lemma_count(predictions.len());
    binary64::operations_beyond_the_finite(total(all), count);
    if exists|i: int|
        0 <= i < predictions.len() && (#[trigger] predictions[i]).quantized.difference(
            predictions[i].expected,
        ).nan() {
        let i = choose|i: int|
            0 <= i < predictions.len() && (#[trigger] predictions[i]).quantized.difference(
                predictions[i].expected,
            ).nan();
        assert(all[i].nan());
    }
    if total(all).nan() {
        let i = choose|i: int| 0 <= i < all.len() && (#[trigger] all[i]).nan();
        assert(predictions[i].quantized.difference(predictions[i].expected).nan());
    } else if exists|i: int|
        0 <= i < predictions.len() && (#[trigger] predictions[i]).quantized.difference(
            predictions[i].expected,
        ).infinite() {
        let i = choose|i: int|
            0 <= i < predictions.len() && (#[trigger] predictions[i]).quantized.difference(
                predictions[i].expected,
            ).infinite();
        assert(all[i].infinite());
    }
}

/// What numbers that are not finite do to a total of numbers that are not negative.
proof fn lemma_total_beyond_the_finite(numbers: Seq<Binary64>)
    requires
        forall|i: int| 0 <= i < numbers.len() ==> !(#[trigger] numbers[i]).negative(),
    ensures
        total(numbers).nan() <==> exists|i: int|
            0 <= i < numbers.len() && (#[trigger] numbers[i]).nan(),
        !total(numbers).nan() ==> !total(numbers).negative(),
        !total(numbers).nan() && (exists|i: int|
            0 <= i < numbers.len() && (#[trigger] numbers[i]).infinite())
            ==> total(numbers).infinite(),
    decreases numbers.len(),
{
    if numbers.len() > 0 {
        let before = numbers.drop_last();
        let x = numbers.last();
        let t = total(before);
        assert(x == numbers[numbers.len() - 1]);
        assert(forall|i: int| 0 <= i < before.len() ==> #[trigger] before[i] == numbers[i]);
        lemma_total_beyond_the_finite(before);
        binary64::operations_beyond_the_finite(t, x);
        if t.finite() && x.finite() {
            binary64::sums_are_nearest(t, x, x);
        }
        if t.nan() {
            let i = choose|i: int| 0 <= i < before.len() && (#[trigger] before[i]).nan();
            assert(numbers[i].nan());
        }
        if exists|i: int| 0 <= i < numbers.len() && (#[trigger] numbers[i]).nan() {
            let i = choose|i: int| 0 <= i < numbers.len() && (#[trigger] numbers[i]).nan();
            if i < before.len() {
                assert(before[i].nan());
            }
        }
        if exists|i: int| 0 <= i < numbers.len() && (#[trigger] numbers[i]).infinite() {
            let i = choose|i: int| 0 <= i < numbers.len() && (#[trigger] numbers[i]).infinite();
            if i < before.len() {
                assert(before[i].infinite());
            }
        }
    }
}

/// The number of deviations that agree.
proof fn lemma_agreeing(predictions: Seq<Prediction>)
    ensures
        agreeing(deviations(predictions)) == predictions.fold_left(
            0int,
            |count: int, p: Prediction|
                count + if !p.quantized.difference(p.expected).nan() && abs(
                    p.quantized.difference(p.expected).value(),
                ) < (Binary64 { bits: 0x3F1A_36E2_EB1C_432D }).value() {
                    1int
                } else {
                    0
                },
        ),
    decreases predictions.len(),
{
    if predictions.len() > 0 {
        let before = predictions.drop_last();
        lemma_agreeing(before);
        assert(deviations(predictions).drop_last() =~= deviations(before));
        let p = predictions.last();
        let d = p.quantized.difference(p.expected);
        binary64::signs_and_magnitudes(d, d);
        assert(deviations(predictions).last() == d.magnitude());
    }
}

/// The agreement is the number nearest to the fraction of the predictions that differ by
/// less than the tolerance.
pub proof fn agreement_is_the_fraction_that_agrees(predictions: Seq<Prediction>, y: Binary64)
    requires
        0 < predictions.len() <= 0x20_0000_0000_0000,
        !y.nan(),
    ensures
        ({
            let n = predictions.len() as int;
            let agreed = predictions.fold_left(
                0int,
                |count: int, p: Prediction|
                    count + if !p.quantized.difference(p.expected).nan() && abs(
                        p.quantized.difference(p.expected).value(),
                    ) < (Binary64 { bits: 0x3F1A_36E2_EB1C_432D }).value() {
                        1int
                    } else {
                        0
                    },
            );
            let agreement = accuracy_report(predictions).agreement;
            &&& 0 <= agreed <= n
            &&& !agreement.nan()
            &&& !agreement.negative()
            &&& abs(agreement.value() * n - agreed * pow2(1074)) <= abs(
                y.value() * n - agreed * pow2(1074),
            )
            &&& agreement.value() != y.value() && y.value() >= 0 && abs(
                agreement.value() * n - agreed * pow2(1074),
            ) == abs(y.value() * n - agreed * pow2(1074)) ==> agreement.bits % 2 == 0
        }),
{
    let n = predictions.len() as int;
    let k = agreeing(deviations(predictions)) as int;
    let p = pow2(1074) as int;
    lemma_agreeing(predictions);
    agreeing_counts_the_small_deviations(deviations(predictions));
    let (part, count) = (Binary64::of_nat(k as nat), Binary64::of_nat(n as nat));
    lemma_count(n as nat);
    if k > 0 {
        lemma_count(k as nat);
    } else {
        assert(0 * p == 0);
        rounding::lemma_round_small(0);
        binary64::lemma_signed(false, 0);
        binary64::lemma_value_order(part, zero());
    }
    assert(part.units() == k * p && count.units() == n * p);
    lemma_quotient_by_a_count(part, n as nat, y);
}

/// What the quotient of a number that is not negative and a count is.
proof fn lemma_quotient_by_a_count(part: Binary64, n: nat, y: Binary64)
    requires
        part.finite(),
        !part.negative(),
        0 < n <= SIGNIFICAND_LIMIT,
        !y.nan(),
    ensures
        ({
            let q = part.quotient(Binary64::of_nat(n));
            let exact = part.value();
            &&& !q.nan()
            &&& !q.negative()
            &&& abs(q.value() * n - exact) <= abs(y.value() * n - exact)
            &&& q.value() != y.value() && y.value() >= 0 && abs(q.value() * n - exact) == abs(
                y.value() * n - exact,
            ) ==> q.bits % 2 == 0
        }),
{
    let count = Binary64::of_nat(n);
    let p = pow2(1074) as int;
    lemma_pow2_pos(1074);
    lemma_count(n);
    binary64::quotients_are_nearest(part, count, y);
    let (q, u, v) = (part.quotient(count).units() as int, y.units() as int, y.value());
    let w = part.units() as int;
    let (e, f) = (q * n - w, u * n - w);
    assert(q * (n * p) - w * p == e * p && u * (n * p) - w * p == f * p) by (nonlinear_arith)
        requires
            e == q * n - w,
            f == u * n - w,
    ;
    lemma_common_factor(e, f, p);
    assert(abs(f) <= abs(v * n - w)) by {
        assert(0 <= u * n && (-u) * n == -(u * n)) by (nonlinear_arith)
            requires
                u >= 0,
        ;
    }
    if abs(e) == abs(f) {
        assert(abs(e * p) == abs(f * p)) by (nonlinear_arith)
            requires
                e == f || e == -f,
                abs(e * p) == if e * p < 0 { -(e * p) } else { e * p },
                abs(f * p) == if f * p < 0 { -(f * p) } else { f * p },
        ;
    }
}

/// A common factor does not change which of two is larger.
pub(crate) proof fn lemma_common_factor(a: int, b: int, c: int)
    requires
        c > 0,
        abs(a * c) <= abs(b * c),
    ensures
        abs(a) <= abs(b),
{
    let (x, y) = (abs(a) as int, abs(b) as int);
    assert(abs(a * c) == x * c) by (nonlinear_arith)
        requires
            c > 0,
            x == if a < 0 { -a } else { a },
            abs(a * c) == if a * c < 0 { -(a * c) } else { a * c },
    ;
    assert(abs(b * c) == y * c) by (nonlinear_arith)
        requires
            c > 0,
            y == if b < 0 { -b } else { b },
            abs(b * c) == if b * c < 0 { -(b * c) } else { b * c },
    ;
    lemma_mul_inequality_converse(x, y, c);
}

/// The tolerance is the number nearest to 0.0001, and the default agreement rate that
/// nearest to 0.99: they are less than half a spacing away.
pub proof fn constants_are_the_nearest_numbers()
    ensures
        2 * abs(10000 * (Binary64 { bits: TOLERANCE_BITS }).value() - pow2(1074)) <= 10000 * pow2(
            1008,
        ),
        2 * abs(100 * (Binary64 { bits: DEFAULT_AGREEMENT_BITS }).value() - 99 * pow2(1074)) <= 100
            * pow2(1021),
        (Binary64 { bits: ONE_BITS }).value() == pow2(1074),
        (Binary64 { bits: ONE_PART_BITS }).value() * 0x1_0000 == pow2(1074),
{
    lemma2_to64();
    lemma2_to64_rest();
    lemma_pow2_adds(64, 1008);
    lemma_pow2_unfold(1073);
    lemma_pow2_unfold(1074);
    lemma_pow2_adds(53, 1021);
    lemma_pow2_adds(52, 1022);
    lemma_pow2_adds(52, 1006);
    lemma_pow2_adds(16, 1058);
    rounding::lemma_magnitude(0x1A_36E2_EB1C_432D, 1008);
    rounding::lemma_magnitude(0x1F_AE14_7AE1_47AE, 1021);
    rounding::lemma_magnitude(LEAST_SIGNIFICAND as nat, 1022);
    rounding::lemma_magnitude(LEAST_SIGNIFICAND as nat, 1006);
}

/// A report counts the predictions, and its largest error is that of one of them, or zero,
/// and below none. An empty dataset has no error and agrees in full.
pub proof fn reports_count_and_bound_the_deviations(predictions: Seq<Prediction>, i: int)
    requires
        predictions.len() <= usize::MAX,
    ensures
        accuracy_report(predictions).count == predictions.len(),
        !accuracy_report(predictions).max_error.nan(),
        accuracy_report(predictions).max_error.value() >= 0,
        0 <= i < predictions.len() && !predictions[i].quantized.difference(
            predictions[i].expected,
        ).nan() ==> abs(
            predictions[i].quantized.difference(predictions[i].expected).value(),
        ) <= accuracy_report(predictions).max_error.value(),
        accuracy_report(predictions).max_error.bits == 0 || exists|k: int|
            {
                &&& 0 <= k < predictions.len()
                &&& !(#[trigger] predictions[k]).quantized.difference(predictions[k].expected).nan()
                &&& accuracy_report(predictions).max_error.value() == abs(
                    predictions[k].quantized.difference(predictions[k].expected).value(),
                )
            },
        predictions.len() == 0 ==> {
            &&& accuracy_report(predictions).max_error.bits == 0
            &&& accuracy_report(predictions).mean_deviation.bits == 0
            &&& accuracy_report(predictions).agreement.value() == pow2(1074)
        },
{
    let all = deviations(predictions);
    largest_is_an_upper_bound(all);
    constants_are_the_nearest_numbers();
    binary64::lemma_value_order(zero(), zero());
    assert forall|k: int| 0 <= k < all.len() implies {
        let d = predictions[k].quantized.difference(predictions[k].expected);
        (#[trigger] all[k]).value() == abs(d.value()) && all[k].nan() == d.nan()
    } by {
        let d = predictions[k].quantized.difference(predictions[k].expected);
        binary64::signs_and_magnitudes(d, d);
    }
    if predictions.len() > 0 && largest(all) != zero() {
        let k = choose|k: int| 0 <= k < all.len() && all[k] == largest(all);
        let d = predictions[k].quantized.difference(predictions[k].expected);
        assert(all[k].value() == abs(d.value()));
    }
    if 0 <= i < predictions.len() {
        assert(!largest(all).less(all[i]));
    }
}

/// The verdict is the report unless there are predictions and their agreement is below the
/// required rate; a rejection holds the two rates.
pub proof fn verdicts_hold_the_report_or_the_rates(
    predictions: Seq<Prediction>,
    cfg: QuantizationConfig,
)
    ensures
        ({
            let agreement = accuracy_report(predictions).agreement;
            let poor = predictions.len() > 0 && !agreement.nan() && !cfg.min_agreement.nan()
                && agreement.value() < cfg.min_agreement.value();
            match accuracy_verdict(predictions, cfg) {
                Ok(report) => !poor && report == accuracy_report(predictions),
                Err(QuantizationError::PoorAgreement { agreement: rate, threshold }) => poor
                    && rate == agreement && threshold == cfg.min_agreement,
                Err(_) => false,
            }
        }),
{
}

/// The error that is reported for a set of values is that of one of them, or zero, and
/// below none: the distance, rounded to nearest, from the value to its reconstruction.
pub proof fn reported_error_is_the_largest_distance(
    values: Seq<Binary64>,
    reconstructed: Seq<Binary64>,
    i: int,
)
    requires
        values.len() == reconstructed.len(),
    ensures
        ({
            let max = largest(reconstruction_errors(values, reconstructed));
            &&& !max.nan()
            &&& max.value() >= 0
            &&& 0 <= i < values.len() && !values[i].difference(reconstructed[i]).nan() ==> abs(
                values[i].difference(reconstructed[i]).value(),
            ) <= max.value()
            &&& max.bits == 0 || exists|k: int|
                {
                    &&& 0 <= k < values.len()
                    &&& !(#[trigger] values[k]).difference(reconstructed[k]).nan()
                    &&& max.value() == abs(values[k].difference(reconstructed[k]).value())
                }
        }),
{
    let errors = reconstruction_errors(values, reconstructed);
    largest_is_an_upper_bound(errors);
    binary64::lemma_value_order(zero(), zero());
    assert forall|k: int| 0 <= k < errors.len() implies {
        let d = values[k].difference(reconstructed[k]);
        (#[trigger] errors[k]).value() == abs(d.value()) && errors[k].nan() == d.nan()
    } by {
        let d = values[k].difference(reconstructed[k]);
        binary64::signs_and_magnitudes(d, d);
    }
    if largest(errors) != zero() {
        let k = choose|k: int| 0 <= k < errors.len() && errors[k] == largest(errors);
        let d = values[k].difference(reconstructed[k]);
        assert(errors[k].value() == abs(d.value()));
    }
    if 0 <= i < values.len() {
        assert(!largest(errors).less(errors[i]));
    }
}

/// Two reports are equal exactly when every number in them is the same; what is not a
/// number is the same as nothing.
pub proof fn reports_are_equal_by_their_numbers(
    a: QuantizationReport,
    b: QuantizationReport,
    c: QuantizationErrorReport,
    d: QuantizationErrorReport,
)
    ensures
        vstd::std_specs::cmp::PartialEqSpec::eq_spec(&a, &b) <==> {
            &&& a.count == b.count
            &&& !a.max_error.nan() && !b.max_error.nan() && a.max_error.value()
                == b.max_error.value()
            &&& !a.mean_deviation.nan() && !b.mean_deviation.nan() && a.mean_deviation.value()
                == b.mean_deviation.value()
            &&& !a.agreement.nan() && !b.agreement.nan() && a.agreement.value()
                == b.agreement.value()
        },
        vstd::std_specs::cmp::PartialEqSpec::eq_spec(&c, &d) <==> {
            &&& c.count == d.count
            &&& !c.max_error.nan() && !d.max_error.nan() && c.max_error.value()
                == d.max_error.value()
        },
{
}

} // verus!
