//! The overflow check: worst-case bounds of what inference computes.

use vstd::prelude::*;
use vstd::arithmetic::div_mod::*;
use vstd::arithmetic::mul::*;
use vstd::math::*;

use crate::binary64;
use crate::binary64::Binary64;
use crate::error::QuantizationError;
use crate::models::{DenseLayer, FixedPoint, LogisticRegression, Model, TinyMLP, SCALE_FACTOR};
use crate::quantization::QuantizationConfig;
use crate::rounding;
use crate::wide::{SignedWide, Wide};

verus! {

/// The largest output of the last layer that is accepted.
pub const SAFE_OUTPUT: i64 = 0x3FFF_FFFF_FFFF_FFFF;

/// The sum over the weights of `|weight| * max_input`.
pub open spec fn weighted(weights: Seq<FixedPoint>, max_input: int) -> int
    decreases weights.len(),
{
    if weights.len() == 0 {
        0
    } else {
        weighted(weights.drop_last(), max_input) + abs(weights.last().value as int) * max_input
    }
}

/// The worst-case output `sum(|weight| * max_input) + |bias|`: the accumulated
/// products, shifted right by the scale, and the size of the bias.
pub open spec fn worst_output(weights: Seq<FixedPoint>, bias: FixedPoint, max_input: int) -> int {
    weighted(weights, max_input) / (SCALE_FACTOR as int) + abs(bias.value as int)
}

/// The worst-case output of the output `j` of a layer.
pub open spec fn neuron_bound(layer: DenseLayer, j: int, max_input: int) -> int {
    worst_output(layer.row(j), layer.biases@[j], max_input)
}

/// The largest worst-case output of the first `n` outputs, from `i64::MIN` on.
pub open spec fn highest_bound(layer: DenseLayer, max_input: int, n: nat) -> int
    decreases n,
{
    if n == 0 {
        i64::MIN as int
    } else {
        let below = highest_bound(layer, max_input, (n - 1) as nat);
        let this = neuron_bound(layer, n - 1, max_input);
        if this > below {
            this
        } else {
            below
        }
    }
}

/// The largest worst-case output of a layer, from `i64::MIN` on.
pub open spec fn output_bound(layer: DenseLayer, max_input: int) -> int {
    highest_bound(layer, max_input, layer.output_size as nat)
}

/// No worst-case output of the first `n` outputs is beyond `i64`.
pub open spec fn outputs_fit(layer: DenseLayer, max_input: int, n: int) -> bool {
    forall|j: int|
        0 <= j < n ==> i64::MIN <= #[trigger] neuron_bound(layer, j, max_input) <= i64::MAX
}

/// No worst-case output of a layer is beyond `i64`.
pub open spec fn layer_fits(layer: DenseLayer, max_input: int) -> bool {
    outputs_fit(layer, max_input, layer.output_size as int)
}

/// `worst` is the worst-case output of the first output of the layer for which it
/// is beyond `i64`.
pub open spec fn first_overflow(layer: DenseLayer, max_input: int, worst: int) -> bool {
    exists|j: int|
        {
            &&& 0 <= j < layer.output_size
            &&& worst == #[trigger] neuron_bound(layer, j, max_input)
            &&& worst < i64::MIN || worst > i64::MAX
            &&& outputs_fit(layer, max_input, j)
        }
}

/// The bound on the inputs of the layer `k`: the one given for the first layer, and
/// from there on that on the rectified outputs of the layer before.
pub open spec fn entering(layers: Seq<DenseLayer>, max_input: int, k: nat) -> int
    decreases k,
{
    if k == 0 {
        max_input
    } else {
        let bound = output_bound(
            layers[k - 1],
            entering(layers, max_input, (k - 1) as nat),
        );
        if bound > 0 {
            bound
        } else {
            0
        }
    }
}

/// No worst-case output of the first `n` layers is beyond `i64`.
pub open spec fn layers_fit(layers: Seq<DenseLayer>, max_input: int, n: int) -> bool {
    forall|k: int|
        0 <= k < n ==> layer_fits(#[trigger] layers[k], entering(layers, max_input, k as nat))
}

/// The largest worst-case output of the last layer.
pub open spec fn final_bound(layers: Seq<DenseLayer>, max_input: int) -> int
    recommends
        layers.len() > 0,
{
    output_bound(layers.last(), entering(layers, max_input, (layers.len() - 1) as nat))
}

/// The bound `n` of the last layer as it comes back after it was held as a binary64
/// number: rounded to 53 significant bits, and at most `i64::MAX`.
pub open spec fn held(n: int) -> int {
    if n < 0 {
        -(rounding::round_ratio((-n) as nat, 1) as int)
    } else if rounding::round_ratio(n as nat, 1) > i64::MAX {
        i64::MAX as int
    } else {
        rounding::round_ratio(n as nat, 1) as int
    }
}

/// What the overflow check of a logistic regression returns.
pub open spec fn logistic_checked(
    result: Result<(), QuantizationError>,
    lr: LogisticRegression,
    max_input: int,
) -> bool {
    let worst = worst_output(lr.weights@, lr.bias, max_input);
    match result {
        Ok(()) => i64::MIN <= worst <= i64::MAX,
        Err(QuantizationError::LogisticOverflow { worst_case }) => {
            &&& worst < i64::MIN || worst > i64::MAX
            &&& worst_case@ == worst
        },
        Err(_) => false,
    }
}

/// What the overflow check of a dense layer returns: the largest of its worst-case
/// outputs, back at the scale of the inputs, or the first that is beyond `i64`.
pub open spec fn dense_checked(
    result: Result<Binary64, QuantizationError>,
    layer: DenseLayer,
    max_input: int,
) -> bool {
    match result {
        Ok(output_max) => {
            &&& layer_fits(layer, max_input)
            &&& output_max == Binary64::of_scaled(output_bound(layer, max_input))
        },
        Err(QuantizationError::DenseOverflow { worst_case }) => first_overflow(
            layer,
            max_input,
            worst_case@,
        ),
        Err(_) => false,
    }
}

/// What the overflow check of a perceptron returns.
pub open spec fn mlp_checked(
    result: Result<(), QuantizationError>,
    layers: Seq<DenseLayer>,
    max_input: int,
) -> bool {
    match result {
        Ok(()) => {
            &&& layers_fit(layers, max_input, layers.len() as int)
            &&& layers.len() > 0 ==> held(final_bound(layers, max_input)) <= SAFE_OUTPUT
        },
        Err(QuantizationError::DenseOverflow { worst_case }) => exists|k: int|
            {
                &&& 0 <= k < layers.len()
                &&& layers_fit(layers, max_input, k)
                &&& first_overflow(
                    #[trigger] layers[k],
                    entering(layers, max_input, k as nat),
                    worst_case@,
                )
            },
        Err(QuantizationError::MlpOverflow { layer, output }) => {
            &&& layers.len() > 0
            &&& layer == layers.len() - 1
            &&& layers_fit(layers, max_input, layers.len() as int)
            &&& held(final_bound(layers, max_input)) > SAFE_OUTPUT
            &&& output == Binary64::of_scaled(final_bound(layers, max_input))
        },
        Err(_) => false,
    }
}

/// What the overflow check of a model returns. A tree only compares, so it passes.
pub open spec fn overflow_checked(
    result: Result<(), QuantizationError>,
    model: Model,
    max_input: int,
) -> bool {
    match model {
        Model::DecisionTree(_) => result matches Ok(_),
        Model::LogisticRegression(lr) => logistic_checked(result, lr, max_input),
        Model::TinyMLP(mlp) => mlp_checked(result, mlp.layers@, max_input),
    }
}

/// The sum of the sizes of the weights.
pub open spec fn sizes(weights: Seq<FixedPoint>) -> nat
    decreases weights.len(),
{
    if weights.len() == 0 {
        0
    } else {
        sizes(weights.drop_last()) + abs(weights.last().value as int)
    }
}

pub(crate) proof fn lemma_weighted_is_product(weights: Seq<FixedPoint>, max_input: int)
    ensures
        weighted(weights, max_input) == sizes(weights) * max_input,
    decreases weights.len(),
{
    if weights.len() == 0 {
        assert(0 * max_input == 0);
    } else {
        lemma_weighted_is_product(weights.drop_last(), max_input);
        lemma_mul_is_distributive_add_other_way(
            max_input,
            sizes(weights.drop_last()) as int,
            abs(weights.last().value as int) as int,
        );
    }
}

/// The size of a number, which for `i64::MIN` is beyond `i64`.
fn size_of(n: i64) -> (size: u64)
    ensures
        size == abs(n as int),
        size <= 0x8000_0000_0000_0000,
{
    if n < 0 {
        (-(n as i128)) as u64
    } else {
        n as u64
    }
}

/// The sum of the sizes of the weights from `start` to before `end`.
fn sum_of_sizes(weights: &Vec<FixedPoint>, start: usize, end: usize) -> (sum: u128)
    requires
        start <= end <= weights@.len(),
    ensures
        sum == sizes(weights@.subrange(start as int, end as int)),
{
    let mut sum: u128 = 0;
    let mut i: usize = start;
    while i < end
        invariant
            start <= i <= end <= weights@.len(),
            sum == sizes(weights@.subrange(start as int, i as int)),
            sum <= (i - start) * 0x8000_0000_0000_0000,
        decreases end - i,
    {
        let size: u64 = size_of(weights[i].value);
        proof {
            let next = weights@.subrange(start as int, i + 1);
            assert(next.drop_last() =~= weights@.subrange(start as int, i as int));
        }
        sum = sum + size as u128;
        i = i + 1;
    }
    sum
}

/// The worst-case output for weights of the summed sizes `sum`, or as an error where
/// it is beyond `i64`.
fn bound_output(sum: u128, bias: i64, max_input: i64) -> (result: Result<i64, SignedWide>)
    ensures
        ({
            let worst = (sum * max_input) / (SCALE_FACTOR as int) + abs(bias as int);
            match result {
                Ok(bound) => bound == worst,
                Err(wide) => (worst < i64::MIN || worst > i64::MAX) && wide@ == worst,
            }
        }),
{
    let bias_size: u64 = size_of(bias);
    let product: Wide = Wide::product(sum, size_of(max_input));
    let (whole, rest): (Wide, u64) = product.divide(SCALE_FACTOR);
    proof {
        assert(max_input < 0 ==> sum * max_input == -(sum * abs(max_input as int)))
            by (nonlinear_arith)
            requires
                max_input < 0 ==> abs(max_input as int) == -max_input,
        ;
    }
    if max_input >= 0 {
        let worst: Wide = whole.plus(bias_size);
        if worst.high > 0 || worst.low > i64::MAX as u64 {
            Err(SignedWide { negative: false, size: worst })
        } else {
            Ok(worst.low as i64)
        }
    } else {
        // The shift of a negative sum goes down.
        let steps: Wide = whole.plus(if rest > 0 { 1 } else { 0 });
        if steps.high == 0 && steps.low <= bias_size {
            let worst: u64 = bias_size - steps.low;
            if worst > i64::MAX as u64 {
                Err(SignedWide { negative: false, size: Wide::from_u64(worst) })
            } else {
                Ok(worst as i64)
            }
        } else {
            let size: Wide = steps.minus(bias_size);
            if size.high > 0 || size.low > 0x8000_0000_0000_0000 {
                Err(SignedWide { negative: true, size })
            } else {
                Ok((-(size.low as i128)) as i64)
            }
        }
    }
}

/// Checks that the worst-case output of a logistic regression fits in `i64`.
pub fn check_logistic_overflow_bounds(lr: &LogisticRegression, max_input: Binary64) -> (result:
    Result<(), QuantizationError>)
    ensures
        logistic_checked(result, *lr, max_input.scaled()),
{
    let max_input_scaled: i64 = max_input.to_scaled();
    let sum: u128 = sum_of_sizes(&lr.weights, 0, lr.weights.len());
    proof {
        assert(lr.weights@.subrange(0, lr.weights@.len() as int) =~= lr.weights@);
        lemma_weighted_is_product(lr.weights@, max_input.scaled());
    }
    match bound_output(sum, lr.bias.value, max_input_scaled) {
        Ok(_) => Ok(()),
        Err(worst_case) => Err(QuantizationError::LogisticOverflow { worst_case }),
    }
}

/// Checks that no worst-case output of a dense layer is beyond `i64`, and returns
/// the largest of them.
fn bound_layer(max_input_scaled: i64, layer: &DenseLayer) -> (result: Result<
    i64,
    QuantizationError,
>)
    requires
        layer.well_formed(),
    ensures
        match result {
            Ok(bound) => {
                &&& layer_fits(*layer, max_input_scaled as int)
                &&& bound == output_bound(*layer, max_input_scaled as int)
            },
            Err(QuantizationError::DenseOverflow { worst_case }) => first_overflow(
                *layer,
                max_input_scaled as int,
                worst_case@,
            ),
            Err(_) => false,
        },
{
    let ghost input = max_input_scaled as int;
    let mut max_output_scaled: i64 = i64::MIN;
    let mut j: usize = 0;
    while j < layer.output_size
        invariant
            j <= layer.output_size,
            layer.well_formed(),
            input == max_input_scaled,
            outputs_fit(*layer, input, j as int),
            max_output_scaled == highest_bound(*layer, input, j as nat),
        decreases layer.output_size - j,
    {
        proof {
            let (n, inputs) = (layer.output_size as int, layer.input_size as int);
            assert(0 <= j * inputs && j * inputs + inputs <= n * inputs) by (nonlinear_arith)
                requires
                    0 <= j < n,
                    inputs >= 0,
            ;
        }
        let start: usize = j * layer.input_size;
        let sum: u128 = sum_of_sizes(&layer.weights, start, start + layer.input_size);
        proof {
            lemma_weighted_is_product(layer.row(j as int), input);
        }
        match bound_output(sum, layer.biases[j].value, max_input_scaled) {
            Ok(shifted) => {
                if shifted > max_output_scaled {
                    max_output_scaled = shifted;
                }
            },
            Err(worst_case) => {
                assert(worst_case@ == neuron_bound(*layer, j as int, input));
                return Err(QuantizationError::DenseOverflow { worst_case });
            },
        }
        j = j + 1;
    }
    Ok(max_output_scaled)
}

/// Checks that no worst-case output of a dense layer is beyond `i64`, and returns
/// the largest of them, back at the scale of the inputs.
pub fn check_dense_layer_overflow_bounds(input_max: Binary64, layer: &DenseLayer) -> (result:
    Result<Binary64, QuantizationError>)
    requires
        layer.well_formed(),
    ensures
        dense_checked(result, *layer, input_max.scaled()),
{
    match bound_layer(input_max.to_scaled(), layer) {
        Ok(bound) => Ok(Binary64::from_scaled(bound)),
        Err(error) => Err(error),
    }
}

/// A bound, held as a binary64 number, and what it is when it comes back.
fn hold(bound: i64) -> (output: (Binary64, i64))
    ensures
        output.0 == Binary64::of_scaled(bound as int),
        output.1 == held(bound as int),
{
    let output_max: Binary64 = Binary64::from_scaled(bound);
    proof {
        binary64::lemma_scaled_of_scaled(bound as int);
    }
    (output_max, output_max.to_scaled())
}

/// Checks the bounds of a perceptron, layer by layer.
#[verifier::rlimit(30)]
pub fn check_mlp_overflow_bounds(mlp: &TinyMLP, max_input: Binary64) -> (result: Result<
    (),
    QuantizationError,
>)
    requires
        mlp.well_formed(),
    ensures
        mlp_checked(result, mlp.layers@, max_input.scaled()),
{
    let ghost layers = mlp.layers@;
    let ghost input = max_input.scaled();
    let mut current_max: i64 = max_input.to_scaled();
    let mut k: usize = 0;
    while k < mlp.layers.len()
        invariant
            k <= layers.len(),
            layers == mlp.layers@,
            mlp.well_formed(),
            input == max_input.scaled(),
            layers_fit(layers, input, k as int),
            k < layers.len() ==> current_max == entering(layers, input, k as nat),
            k == layers.len() && k > 0 ==> held(final_bound(layers, input)) <= SAFE_OUTPUT,
        decreases layers.len() - k,
    {
        assert(layers[k as int].well_formed());
        let bound: i64 = match bound_layer(current_max, &mlp.layers[k]) {
            Ok(bound) => bound,
            Err(error) => {
                assert(layers[k as int] == mlp.layers@[k as int]);
                return Err(error);
            },
        };
        if k < mlp.layers.len() - 1 {
            // The rectifier between the layers turns what is negative into zero.
            current_max = if bound > 0 {
                bound
            } else {
                0
            };
        } else {
            // Some headroom is left for further operations.
            let (output_max, output_scaled): (Binary64, i64) = hold(bound);
            if output_scaled > SAFE_OUTPUT {
                return Err(QuantizationError::MlpOverflow { layer: k, output: output_max });
            }
        }
        k = k + 1;
    }
    Ok(())
}

/// Checks that nothing that inference with the model computes is beyond `i64`, for
/// inputs of at most the configured magnitude.
pub fn check_overflow_bounds(model: &Model, cfg: &QuantizationConfig) -> (result: Result<
    (),
    QuantizationError,
>)
    requires
        model.well_formed(),
    ensures
        overflow_checked(result, *model, cfg.max_input_magnitude.scaled()),
{
    match model {
        // A tree only compares.
        Model::DecisionTree(_) => Ok(()),
        Model::LogisticRegression(lr) => check_logistic_overflow_bounds(
            lr,
            cfg.max_input_magnitude,
        ),
        Model::TinyMLP(mlp) => check_mlp_overflow_bounds(mlp, cfg.max_input_magnitude),
    }
}

} // verus!
