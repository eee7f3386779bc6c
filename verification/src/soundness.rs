//! What an accepted model promises of inference.
//!
//! Inference multiplies inputs at the scale of the parameters with the weights,
//! accumulates the products, shifts the sum right by the scale and adds the bias.

use vstd::prelude::*;
use vstd::arithmetic::div_mod::*;
use vstd::arithmetic::mul::*;
use vstd::arithmetic::power2::*;
use vstd::math::*;

use crate::binary64;
use crate::binary64::Binary64;
use crate::models::{DenseLayer, FixedPoint, LogisticRegression, Model, TreeNode, SCALE_FACTOR};
use crate::overflow;
use crate::range;

verus! {

/// The accumulated products of weights and inputs.
pub open spec fn dot(weights: Seq<FixedPoint>, inputs: Seq<int>) -> int
    decreases weights.len(),
{
    if weights.len() == 0 {
        0
    } else {
        dot(weights.drop_last(), inputs.drop_last()) + weights.last().value * inputs.last()
    }
}

/// No input is larger than `bound` in magnitude.
pub open spec fn within(inputs: Seq<int>, bound: int) -> bool {
    forall|i: int| 0 <= i < inputs.len() ==> -bound <= #[trigger] inputs[i] <= bound
}

/// An accumulated sum of products, shifted right by the scale, and the bias.
pub open spec fn biased_output(sum: int, bias: FixedPoint) -> int {
    sum / (SCALE_FACTOR as int) + bias.value
}

/// Fits in `i64`.
pub open spec fn fits(n: int) -> bool {
    i64::MIN <= n <= i64::MAX
}

/// Every intermediate value for the weights, the bias and the inputs fits in `i64`:
/// each product and each partial sum once shifted, each partial sum with the bias,
/// and the output.
pub open spec fn computation_fits(
    weights: Seq<FixedPoint>,
    bias: FixedPoint,
    inputs: Seq<int>,
) -> bool {
    &&& forall|i: int|
        0 <= i < weights.len() ==> fits(
            (#[trigger] weights[i].value * inputs[i]) / (SCALE_FACTOR as int),
        )
    &&& forall|n: int|
        0 <= n <= weights.len() ==> {
            let sum = #[trigger] dot(weights.take(n), inputs.take(n));
            fits(sum / (SCALE_FACTOR as int)) && fits(biased_output(sum, bias))
        }
    &&& fits(biased_output(dot(weights, inputs), bias))
}

/// What the output `j` of a layer is, before it is rectified.
pub open spec fn neuron_output(layer: DenseLayer, inputs: Seq<int>, j: int) -> int {
    biased_output(dot(layer.row(j), inputs), layer.biases@[j])
}

/// The inputs of the layer `k`: those given for the first layer, and from there on
/// the rectified outputs of the layer before.
pub open spec fn activations(layers: Seq<DenseLayer>, inputs: Seq<int>, k: nat) -> Seq<int>
    decreases k,
{
    if k == 0 {
        inputs
    } else {
        let before = activations(layers, inputs, (k - 1) as nat);
        Seq::new(
            layers[k - 1].output_size as nat,
            |j: int|
                {
                    let output = neuron_output(layers[k - 1], before, j);
                    if output > 0 {
                        output
                    } else {
                        0
                    }
                },
        )
    }
}

/// Every layer takes as many inputs as the layer before has outputs.
pub open spec fn connected(layers: Seq<DenseLayer>) -> bool {
    forall|k: int|
        0 < k < layers.len() ==> (#[trigger] layers[k]).input_size == layers[k - 1].output_size
}

/// A product is at most the product of the magnitudes.
proof fn lemma_product_bounded(w: int, x: int, max_input: int)
    requires
        -max_input <= x <= max_input,
    ensures
        abs(w * x) <= abs(w) * max_input,
{
    assert(w * x <= abs(w) * max_input && -(w * x) <= abs(w) * max_input) by (nonlinear_arith)
        requires
            -max_input <= x <= max_input,
            w >= 0 ==> abs(w) == w,
            w < 0 ==> abs(w) == -w,
    ;
}

proof fn lemma_dot_bounded(weights: Seq<FixedPoint>, inputs: Seq<int>, max_input: int)
    requires
        weights.len() == inputs.len(),
        within(inputs, max_input),
    ensures
        abs(dot(weights, inputs)) <= overflow::weighted(weights, max_input),
    decreases weights.len(),
{
    if weights.len() > 0 {
        assert forall|i: int| 0 <= i < inputs.drop_last().len() implies -max_input
            <= #[trigger] inputs.drop_last()[i] <= max_input by {
            assert(inputs.drop_last()[i] == inputs[i]);
        }
        lemma_dot_bounded(weights.drop_last(), inputs.drop_last(), max_input);
        assert(inputs.last() == inputs[inputs.len() - 1]);
        lemma_product_bounded(weights.last().value as int, inputs.last(), max_input);
    }
}

proof fn lemma_weighted_grows(weights: Seq<FixedPoint>, max_input: int, n: int)
    requires
        0 <= n <= weights.len(),
        max_input >= 0,
    ensures
        0 <= overflow::weighted(weights.take(n), max_input) <= overflow::weighted(
            weights,
            max_input,
        ),
    decreases weights.len(),
{
    if weights.len() == 0 {
        assert(weights.take(n) =~= weights);
    } else {
        assert(abs(weights.last().value as int) * max_input >= 0) by {
            lemma_mul_nonnegative(abs(weights.last().value as int) as int, max_input);
        }
        if n == weights.len() {
            assert(weights.take(n) =~= weights);
            lemma_weighted_grows(weights.drop_last(), max_input, n - 1);
        } else {
            assert(weights.drop_last().take(n) =~= weights.take(n));
            lemma_weighted_grows(weights.drop_last(), max_input, n);
        }
    }
}

/// What a sum of a bounded size is, shifted and with the bias.
proof fn lemma_bounded_sum(sum: int, most: int, bias: FixedPoint)
    requires
        abs(sum) <= most,
    ensures
        ({
            let worst = most / (SCALE_FACTOR as int) + abs(bias.value as int);
            &&& -worst - 1 <= sum / (SCALE_FACTOR as int) <= worst
            &&& -worst - 1 <= biased_output(sum, bias) <= worst
            &&& abs(sum) + SCALE_FACTOR * abs(bias.value as int) < SCALE_FACTOR * (worst + 1)
        }),
{
}

/// The bound `|output| <= sum(|weight| * max_input) + |bias|`: for any inputs of at
/// most the given magnitude, no accumulated sum, in full or in part, is larger with
/// the bias than the worst-case output, but for less than the one part that the
/// shift cuts off.
pub proof fn worst_output_bounds_every_sum(
    weights: Seq<FixedPoint>,
    bias: FixedPoint,
    max_input: int,
    inputs: Seq<int>,
    n: int,
)
    requires
        inputs.len() == weights.len(),
        within(inputs, max_input),
        0 <= n <= weights.len(),
    ensures
        ({
            let sum = dot(weights.take(n), inputs.take(n));
            let worst = overflow::worst_output(weights, bias, max_input);
            &&& abs(sum) + SCALE_FACTOR * abs(bias.value as int) < SCALE_FACTOR * (worst + 1)
            &&& -worst - 1 <= sum / (SCALE_FACTOR as int) <= worst
            &&& -worst - 1 <= biased_output(sum, bias) <= worst
        }),
{
    let sum = dot(weights.take(n), inputs.take(n));
    if weights.len() > 0 {
        assert(-max_input <= inputs[0] <= max_input);
        lemma_weighted_grows(weights, max_input, n);
    } else {
        assert(weights.take(n) =~= weights);
    }
    assert(within(inputs.take(n), max_input));
    lemma_dot_bounded(weights.take(n), inputs.take(n), max_input);
    lemma_bounded_sum(sum, overflow::weighted(weights, max_input), bias);
}

/// Where the worst-case output fits in `i64`, no intermediate computation overflows
/// `i64`, for any inputs of at most the given magnitude.
pub proof fn worst_output_bounds_the_computation(
    weights: Seq<FixedPoint>,
    bias: FixedPoint,
    max_input: int,
    inputs: Seq<int>,
)
    requires
        inputs.len() == weights.len(),
        within(inputs, max_input),
        overflow::worst_output(weights, bias, max_input) <= i64::MAX,
    ensures
        computation_fits(weights, bias, inputs),
{
    let most = overflow::weighted(weights, max_input);
    assert forall|n: int| 0 <= n <= weights.len() implies {
        let sum = #[trigger] dot(weights.take(n), inputs.take(n));
        fits(sum / (SCALE_FACTOR as int)) && fits(biased_output(sum, bias))
    } by {
        worst_output_bounds_every_sum(weights, bias, max_input, inputs, n);
    }
    let all = weights.len() as int;
    assert(weights.take(all) =~= weights);
    assert(inputs.take(all) =~= inputs);
    worst_output_bounds_every_sum(weights, bias, max_input, inputs, all);
    assert forall|i: int| 0 <= i < weights.len() implies fits(
        (#[trigger] weights[i].value * inputs[i]) / (SCALE_FACTOR as int),
    ) by {
        assert(-max_input <= inputs[i] <= max_input);
        lemma_product_bounded(weights[i].value as int, inputs[i], max_input);
        lemma_weighted_grows(weights, max_input, i);
        lemma_weighted_grows(weights, max_input, i + 1);
        assert(weights.take(i + 1).drop_last() =~= weights.take(i));
        lemma_bounded_sum(weights[i].value * inputs[i], most, bias);
    }
}

/// Inference with an accepted logistic regression never overflows `i64`, for any
/// inputs of at most the checked magnitude.
pub proof fn accepted_logistic_regression_cannot_overflow(
    lr: LogisticRegression,
    max_input: int,
    inputs: Seq<int>,
)
    requires
        overflow::logistic_checked(Ok(()), lr, max_input),
        inputs.len() == lr.weights@.len(),
        within(inputs, max_input),
    ensures
        computation_fits(lr.weights@, lr.bias, inputs),
        fits(dot(lr.weights@, inputs) / (SCALE_FACTOR as int) + lr.bias.value),
{
    worst_output_bounds_the_computation(lr.weights@, lr.bias, max_input, inputs);
}

/// No output of an accepted layer overflows `i64` or is above the bound of the
/// layer, for any inputs of at most the checked magnitude.
pub proof fn accepted_layer_cannot_overflow(
    layer: DenseLayer,
    max_input: int,
    inputs: Seq<int>,
    j: int,
)
    requires
        layer.well_formed(),
        overflow::layer_fits(layer, max_input),
        inputs.len() == layer.input_size,
        within(inputs, max_input),
        0 <= j < layer.output_size,
    ensures
        computation_fits(layer.row(j), layer.biases@[j], inputs),
        fits(dot(layer.row(j), inputs) / (SCALE_FACTOR as int) + layer.biases@[j].value),
        neuron_output(layer, inputs, j) <= overflow::output_bound(layer, max_input),
{
    let (n, m) = (layer.output_size as int, layer.input_size as int);
    assert(0 <= j * m && j * m + m <= n * m) by (nonlinear_arith)
        requires
            0 <= j < n,
            m >= 0,
    ;
    let (row, bias) = (layer.row(j), layer.biases@[j]);
    assert(overflow::neuron_bound(layer, j, max_input) <= i64::MAX);
    worst_output_bounds_the_computation(row, bias, max_input, inputs);
    assert(row.take(m) =~= row);
    assert(inputs.take(m) =~= inputs);
    worst_output_bounds_every_sum(row, bias, max_input, inputs, m);
    lemma_highest_bound(layer, max_input, layer.output_size as nat, j);
}

/// The largest bound is no less than any.
proof fn lemma_highest_bound(layer: DenseLayer, max_input: int, n: nat, j: int)
    requires
        0 <= j < n,
    ensures
        overflow::neuron_bound(layer, j, max_input) <= overflow::highest_bound(layer, max_input, n),
    decreases n,
{
    if j < n - 1 {
        lemma_highest_bound(layer, max_input, (n - 1) as nat, j);
    }
}

/// Inference with an accepted perceptron never overflows `i64`, for any inputs of
/// at most the checked magnitude: what enters each layer is within the bound handed
/// on to it, and every output of the layer is computed without overflow.
pub proof fn accepted_mlp_cannot_overflow(
    layers: Seq<DenseLayer>,
    max_input: int,
    inputs: Seq<int>,
    k: int,
)
    requires
        overflow::mlp_checked(Ok(()), layers, max_input),
        forall|i: int| 0 <= i < layers.len() ==> (#[trigger] layers[i]).well_formed(),
        connected(layers),
        0 <= k < layers.len(),
        inputs.len() == layers[0].input_size,
        within(inputs, max_input),
    ensures
        activations(layers, inputs, k as nat).len() == layers[k].input_size,
        within(
            activations(layers, inputs, k as nat),
            overflow::entering(layers, max_input, k as nat),
        ),
        forall|j: int|
            0 <= j < layers[k].output_size ==> computation_fits(
                #[trigger] layers[k].row(j),
                layers[k].biases@[j],
                activations(layers, inputs, k as nat),
            ),
    decreases k,
{
    if k > 0 {
        accepted_mlp_cannot_overflow(layers, max_input, inputs, k - 1);
        let before = activations(layers, inputs, (k - 1) as nat);
        let input = overflow::entering(layers, max_input, (k - 1) as nat);
        let now = activations(layers, inputs, k as nat);
        assert forall|j: int| 0 <= j < now.len() implies -overflow::entering(
            layers,
            max_input,
            k as nat,
        ) <= #[trigger] now[j] <= overflow::entering(layers, max_input, k as nat) by {
            accepted_layer_cannot_overflow(layers[k - 1], input, before, j);
        }
        assert(layers[k].input_size == layers[k - 1].output_size);
    }
    let input = overflow::entering(layers, max_input, k as nat);
    let now = activations(layers, inputs, k as nat);
    assert(overflow::layer_fits(layers[k], input));
    assert forall|j: int| 0 <= j < layers[k].output_size implies computation_fits(
        #[trigger] layers[k].row(j),
        layers[k].biases@[j],
        now,
    ) by {
        accepted_layer_cannot_overflow(layers[k], input, now, j);
    }
}

/// Every product of a weight and the largest input fits in `i128`.
pub proof fn products_fit_in_i128(weight: FixedPoint, max_input: Binary64)
    ensures
        abs(weight.value as int) * abs(max_input.scaled()) <= i128::MAX,
{
    let (w, x) = (abs(weight.value as int) as int, abs(max_input.scaled()) as int);
    lemma_pow2_pos(1058);
    lemma_div_pos_is_pos(max_input.units() as int, pow2(1058) as int);
    assert(w * x <= 0x8000_0000_0000_0000 * 0x8000_0000_0000_0000) by (nonlinear_arith)
        requires
            0 <= w <= 0x8000_0000_0000_0000,
            0 <= x <= 0x8000_0000_0000_0000,
    ;
}

/// A logistic regression that is accepted for inputs of some magnitude is accepted
/// for inputs of a smaller one.
pub proof fn smaller_inputs_are_accepted(lr: LogisticRegression, smaller: int, larger: int)
    requires
        -larger <= smaller <= larger,
        overflow::logistic_checked(Ok(()), lr, larger),
    ensures
        overflow::logistic_checked(Ok(()), lr, smaller),
{
    let sizes = overflow::sizes(lr.weights@) as int;
    overflow::lemma_weighted_is_product(lr.weights@, smaller);
    overflow::lemma_weighted_is_product(lr.weights@, larger);
    assert(-(sizes * larger) <= sizes * smaller <= sizes * larger) by (nonlinear_arith)
        requires
            0 <= sizes,
            -larger <= smaller <= larger,
    ;
    lemma_bounded_sum(sizes * smaller, sizes * larger, lr.bias);
}

/// The same, for magnitudes as they are configured.
pub proof fn smaller_magnitudes_are_accepted(
    lr: LogisticRegression,
    smaller: Binary64,
    larger: Binary64,
)
    requires
        !smaller.nan(),
        !larger.nan(),
        !larger.less(smaller.magnitude()),
        overflow::logistic_checked(Ok(()), lr, larger.scaled()),
    ensures
        overflow::logistic_checked(Ok(()), lr, smaller.scaled()),
{
    binary64::lemma_signed(false, smaller.unsigned_bits());
    binary64::scaled_keeps_order(smaller.magnitude(), larger);
    lemma_pow2_pos(1058);
    lemma_div_pos_is_pos(smaller.units() as int, pow2(1058) as int);
    if -larger.scaled() <= smaller.scaled() {
        smaller_inputs_are_accepted(lr, smaller.scaled(), larger.scaled());
    } else {
        // The least `i64` is one further from zero than the largest.
        let sizes = overflow::sizes(lr.weights@) as int;
        overflow::lemma_weighted_is_product(lr.weights@, i64::MIN as int);
        overflow::lemma_weighted_is_product(lr.weights@, i64::MAX as int);
        assert(smaller.scaled() == i64::MIN && larger.scaled() == i64::MAX);
    }
}

/// Every parameter of a model that passes the range check can be negated within
/// `i64`.
pub proof fn accepted_parameters_can_be_negated(model: Model, k: int)
    requires
        range::range_checked(Ok(()), range::parameters(model)),
        0 <= k < range::parameters(model).len(),
    ensures
        i64::MIN <= -(range::parameters(model)[k].1) <= i64::MAX,
{
}

/// The range check looks at every parameter: no threshold, prediction, weight or
/// bias of a model that passes is `i64::MIN`.
pub proof fn range_check_is_complete(model: Model)
    requires
        range::range_checked(Ok(()), range::parameters(model)),
    ensures
        match model {
            Model::DecisionTree(tree) => forall|i: int|
                0 <= i < tree.nodes@.len() ==> match #[trigger] tree.nodes@[i] {
                    TreeNode::Split { threshold, .. } => threshold.value != i64::MIN,
                    TreeNode::Leaf { value } => value.value != i64::MIN,
                },
            Model::LogisticRegression(lr) => {
                &&& forall|i: int|
                    0 <= i < lr.weights@.len() ==> (#[trigger] lr.weights@[i]).value != i64::MIN
                &&& lr.bias.value != i64::MIN
            },
            Model::TinyMLP(mlp) => forall|l: int|
                #![trigger mlp.layers@[l]]
                0 <= l < mlp.layers@.len() ==> {
                    let layer = mlp.layers@[l];
                    &&& forall|i: int|
                        0 <= i < layer.weights@.len() ==> (#[trigger] layer.weights@[i]).value
                            != i64::MIN
                    &&& forall|i: int|
                        0 <= i < layer.biases@.len() ==> (#[trigger] layer.biases@[i]).value
                            != i64::MIN
                },
        },
{
    let all = range::parameters(model);
    match model {
        Model::DecisionTree(tree) => {
            assert forall|i: int| 0 <= i < tree.nodes@.len() implies match #[trigger] tree.nodes@[i] {
                TreeNode::Split { threshold, .. } => threshold.value != i64::MIN,
                TreeNode::Leaf { value } => value.value != i64::MIN,
            } by {
                assert(all[i].1 != i64::MIN);
            }
        },
        Model::LogisticRegression(lr) => {
            assert forall|i: int| 0 <= i < lr.weights@.len() implies (
            #[trigger] lr.weights@[i]).value != i64::MIN by {
                assert(all[i].1 != i64::MIN);
            }
            assert(all[lr.weights@.len() as int].1 != i64::MIN);
        },
        Model::TinyMLP(mlp) => {
            assert forall|l: int|
                #![trigger mlp.layers@[l]]
                0 <= l < mlp.layers@.len() implies {
                let layer = mlp.layers@[l];
                &&& forall|i: int|
                    0 <= i < layer.weights@.len() ==> (#[trigger] layer.weights@[i]).value
                        != i64::MIN
                &&& forall|i: int|
                    0 <= i < layer.biases@.len() ==> (#[trigger] layer.biases@[i]).value
                        != i64::MIN
            } by {
                let layer = mlp.layers@[l];
                let here = range::layer_parameters(layer, l as usize);
                lemma_layer_is_checked(mlp.layers@, l);
                assert forall|i: int| 0 <= i < layer.weights@.len() implies (
                #[trigger] layer.weights@[i]).value != i64::MIN by {
                    assert(here[i].1 != i64::MIN);
                }
                assert forall|i: int| 0 <= i < layer.biases@.len() implies (
                #[trigger] layer.biases@[i]).value != i64::MIN by {
                    assert(here[layer.weights@.len() + i].1 != i64::MIN);
                }
            }
        },
    }
}

proof fn lemma_layer_is_checked(layers: Seq<DenseLayer>, l: int)
    requires
        0 <= l < layers.len(),
        range::all_safe(range::mlp_parameters(layers)),
    ensures
        range::all_safe(range::layer_parameters(layers[l], l as usize)),
    decreases layers.len(),
{
    let all = range::mlp_parameters(layers);
    let before = range::mlp_parameters(layers.drop_last());
    let last = range::layer_parameters(layers.last(), (layers.len() - 1) as usize);
    if l == layers.len() - 1 {
        assert forall|i: int| 0 <= i < last.len() implies (#[trigger] last[i]).1 != i64::MIN by {
            assert(all[before.len() + i] == last[i]);
        }
    } else {
        assert forall|i: int| 0 <= i < before.len() implies (#[trigger] before[i]).1
            != i64::MIN by {
            assert(all[i] == before[i]);
        }
        lemma_layer_is_checked(layers.drop_last(), l);
    }
}

} // verus!
