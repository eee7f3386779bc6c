//! What is rejected, and that nothing else is.
//!
//! Each law holds a check against the parameters themselves: against the values that a
//! model stores, and against sums of magnitudes over them.

use vstd::prelude::*;
use vstd::arithmetic::div_mod::*;
use vstd::arithmetic::mul::*;
use vstd::arithmetic::power2::*;
use vstd::math::*;

use crate::binary64;
use crate::binary64::Binary64;
use crate::error::{Parameter, QuantizationError};
use crate::models::{
    DecisionTree, DenseLayer, FixedPoint, LogisticRegression, Model, TinyMLP, TreeNode,
};
use crate::overflow;
use crate::quantization;
use crate::quantization::{Prediction, QuantizationConfig, QuantizationReport};
use crate::range;
use crate::rounding;
use crate::soundness;

verus! {

/// A tree passes the range check exactly when no node stores `i64::MIN`, and a rejection
/// names the first node that does, by what it stores.
pub proof fn tree_range_check_is_exact(tree: DecisionTree, result: Result<(), QuantizationError>)
    requires
        range::range_checked(result, range::tree_parameters(tree.nodes@)) || range::range_checked(
            result,
            range::parameters(Model::DecisionTree(tree)),
        ),
    ensures
        result is Ok <==> forall|i: int|
            0 <= i < tree.nodes@.len() ==> match #[trigger] tree.nodes@[i] {
                TreeNode::Split { threshold, .. } => threshold.value,
                TreeNode::Leaf { value } => value.value,
            } != i64::MIN,
        result matches Err(error) ==> {
            &&& error matches QuantizationError::UnsafeParameter { parameter }
            &&& exists|i: int|
                {
                    &&& 0 <= i < tree.nodes@.len()
                    &&& match #[trigger] tree.nodes@[i] {
                        TreeNode::Split { threshold, .. } => threshold.value == i64::MIN
                            && parameter == (Parameter::TreeThreshold { node: i as usize }),
                        TreeNode::Leaf { value } => value.value == i64::MIN && parameter == (
                        Parameter::TreeLeaf { node: i as usize }),
                    }
                    &&& forall|before: int|
                        0 <= before < i ==> match #[trigger] tree.nodes@[before] {
                            TreeNode::Split { threshold, .. } => threshold.value,
                            TreeNode::Leaf { value } => value.value,
                        } != i64::MIN
                }
        },
{
    let nodes = tree.nodes@;
    let all = range::tree_parameters(nodes);
    assert(forall|i: int|
        0 <= i < nodes.len() ==> (#[trigger] all[i]).1 == match nodes[i] {
            TreeNode::Split { threshold, .. } => threshold.value,
            TreeNode::Leaf { value } => value.value,
        });
    match result {
        Ok(()) => {
            assert forall|i: int| 0 <= i < nodes.len() implies match #[trigger] nodes[i] {
                TreeNode::Split { threshold, .. } => threshold.value,
                TreeNode::Leaf { value } => value.value,
            } != i64::MIN by {
                assert(all[i].1 != i64::MIN);
            }
        },
        Err(error) => {
            let parameter = error->parameter;
            let k = choose|k: int|
                {
                    &&& 0 <= k < all.len()
                    &&& #[trigger] all[k] == (parameter, i64::MIN)
                    &&& range::all_safe(all.take(k))
                };
            assert(match nodes[k] {
                TreeNode::Split { threshold, .. } => threshold.value,
                TreeNode::Leaf { value } => value.value,
            } == i64::MIN);
            assert forall|before: int| 0 <= before < k implies match #[trigger] nodes[before] {
                TreeNode::Split { threshold, .. } => threshold.value,
                TreeNode::Leaf { value } => value.value,
            } != i64::MIN by {
                assert(all.take(k)[before].1 != i64::MIN);
                assert(all[before].1 != i64::MIN);
            }
        },
    }
}

/// A logistic regression passes the range check exactly when neither a weight nor the
/// bias is `i64::MIN`, and a rejection names the first weight that is, or the bias where
/// no weight is.
pub proof fn logistic_range_check_is_exact(
    lr: LogisticRegression,
    result: Result<(), QuantizationError>,
)
    requires
        range::range_checked(result, range::logistic_parameters(lr)) || range::range_checked(
            result,
            range::parameters(Model::LogisticRegression(lr)),
        ),
    ensures
        result is Ok <==> lr.bias.value != i64::MIN && forall|i: int|
            0 <= i < lr.weights@.len() ==> (#[trigger] lr.weights@[i]).value != i64::MIN,
        result matches Err(error) ==> {
            &&& error matches QuantizationError::UnsafeParameter { parameter }
            &&& match parameter {
                Parameter::LogisticWeight { index } => {
                    &&& index < lr.weights@.len()
                    &&& lr.weights@[index as int].value == i64::MIN
                    &&& forall|before: int|
                        0 <= before < index ==> (#[trigger] lr.weights@[before]).value != i64::MIN
                },
                Parameter::LogisticBias => {
                    &&& lr.bias.value == i64::MIN
                    &&& forall|before: int|
                        0 <= before < lr.weights@.len() ==> (
                        #[trigger] lr.weights@[before]).value != i64::MIN
                },
                _ => false,
            }
        },
{
    let weights = lr.weights@;
    assert(weights.len() == lr.weights.len());
    let n = weights.len() as int;
    let all = range::logistic_parameters(lr);
    assert(forall|i: int| 0 <= i < n ==> (#[trigger] all[i]).1 == weights[i].value);
    assert(all[n].1 == lr.bias.value);
    match result {
        Ok(()) => {
            assert forall|i: int| 0 <= i < n implies (#[trigger] weights[i]).value != i64::MIN by {
                assert(all[i].1 != i64::MIN);
            }
        },
        Err(error) => {
            let parameter = error->parameter;
            let k = choose|k: int|
                {
                    &&& 0 <= k < all.len()
                    &&& #[trigger] all[k] == (parameter, i64::MIN)
                    &&& range::all_safe(all.take(k))
                };
            assert forall|before: int| 0 <= before < k && before < n implies (
            #[trigger] weights[before]).value != i64::MIN by {
                assert(all.take(k)[before].1 != i64::MIN);
                assert(all[before].1 != i64::MIN);
            }
            if k < n {
                assert(weights[k].value == i64::MIN);
            }
        },
    }
}

/// Every parameter of a perceptron is a weight or a bias that one of its layers stores.
proof fn lemma_mlp_parameter(layers: Seq<DenseLayer>, k: int)
    requires
        layers.len() <= usize::MAX,
        0 <= k < range::mlp_parameters(layers).len(),
    ensures
        match range::mlp_parameters(layers)[k].0 {
            Parameter::MlpWeight { layer, index } => {
                &&& layer < layers.len()
                &&& index < layers[layer as int].weights@.len()
                &&& range::mlp_parameters(layers)[k].1 == layers[layer as int].weights@[index as int].value
            },
            Parameter::MlpBias { layer, index } => {
                &&& layer < layers.len()
                &&& index < layers[layer as int].biases@.len()
                &&& range::mlp_parameters(layers)[k].1 == layers[layer as int].biases@[index as int].value
            },
            _ => false,
        },
    decreases layers.len(),
{
    let before = range::mlp_parameters(layers.drop_last());
    let last = layers.last();
    let this = range::layer_parameters(last, (layers.len() - 1) as usize);
    assert(last.weights@.len() == last.weights.len());
    assert(last.biases@.len() == last.biases.len());
    if k < before.len() {
        lemma_mlp_parameter(layers.drop_last(), k);
    } else {
        assert(range::mlp_parameters(layers)[k] == this[k - before.len()]);
    }
}

/// Where the weight or bias `index` of the layer `layer` stands among the parameters.
proof fn lemma_mlp_place(layers: Seq<DenseLayer>, layer: int, index: int, bias: bool) -> (k: int)
    requires
        layers.len() <= usize::MAX,
        0 <= layer < layers.len(),
        0 <= index < if bias {
            layers[layer].biases@.len()
        } else {
            layers[layer].weights@.len()
        },
    ensures
        0 <= k < range::mlp_parameters(layers).len(),
        range::mlp_parameters(layers)[k] == if bias {
            (
                Parameter::MlpBias { layer: layer as usize, index: index as usize },
                layers[layer].biases@[index].value,
            )
        } else {
            (
                Parameter::MlpWeight { layer: layer as usize, index: index as usize },
                layers[layer].weights@[index].value,
            )
        },
    decreases layers.len(),
{
    let before = range::mlp_parameters(layers.drop_last());
    let last = layers.last();
    let this = range::layer_parameters(last, (layers.len() - 1) as usize);
    if layer < layers.len() - 1 {
        let k = lemma_mlp_place(layers.drop_last(), layer, index, bias);
        assert(range::mlp_parameters(layers)[k] == before[k]);
        k
    } else {
        let at = if bias {
            last.weights@.len() + index
        } else {
            index
        };
        assert(range::mlp_parameters(layers)[before.len() + at] == this[at]);
        before.len() + at
    }
}

/// A parameter comes before another: in an earlier layer, or in the same layer as a
/// weight before the biases or at a lower index.
pub open spec fn comes_before(p: Parameter, q: Parameter) -> bool {
    match (p, q) {
        (
            Parameter::MlpWeight { layer: a, index: i },
            Parameter::MlpWeight { layer: b, index: j },
        ) => a < b || (a == b && i < j),
        (
            Parameter::MlpBias { layer: a, index: i },
            Parameter::MlpBias { layer: b, index: j },
        ) => a < b || (a == b && i < j),
        (Parameter::MlpWeight { layer: a, .. }, Parameter::MlpBias { layer: b, .. }) => a <= b,
        (Parameter::MlpBias { layer: a, .. }, Parameter::MlpWeight { layer: b, .. }) => a < b,
        _ => false,
    }
}

/// The parameters of a perceptron stand in their order.
proof fn lemma_mlp_order(layers: Seq<DenseLayer>, i: int, j: int)
    requires
        layers.len() <= usize::MAX,
        0 <= i < range::mlp_parameters(layers).len(),
        0 <= j < range::mlp_parameters(layers).len(),
        i < j,
    ensures
        comes_before(range::mlp_parameters(layers)[i].0, range::mlp_parameters(layers)[j].0),
    decreases layers.len(),
{
    let before = range::mlp_parameters(layers.drop_last());
    let last = layers.last();
    let this = range::layer_parameters(last, (layers.len() - 1) as usize);
    assert(last.weights@.len() == last.weights.len());
    assert(last.biases@.len() == last.biases.len());
    if j < before.len() {
        lemma_mlp_order(layers.drop_last(), i, j);
    } else {
        assert(range::mlp_parameters(layers)[j] == this[j - before.len()]);
        if i < before.len() {
            lemma_mlp_parameter(layers.drop_last(), i);
            assert(range::mlp_parameters(layers)[i] == before[i]);
        } else {
            assert(range::mlp_parameters(layers)[i] == this[i - before.len()]);
        }
    }
}

/// A perceptron passes the range check exactly when no weight and no bias of a layer is
/// `i64::MIN`. A rejection names a weight or a bias that is, and none that comes before
/// it is.
pub proof fn mlp_range_check_is_exact(mlp: TinyMLP, result: Result<(), QuantizationError>)
    requires
        range::range_checked(result, range::mlp_parameters(mlp.layers@)) || range::range_checked(
            result,
            range::parameters(Model::TinyMLP(mlp)),
        ),
    ensures
        result is Ok <==> forall|l: int|
            #![trigger mlp.layers@[l]]
            0 <= l < mlp.layers@.len() ==> {
                &&& forall|i: int|
                    0 <= i < mlp.layers@[l].weights@.len() ==> (
                    #[trigger] mlp.layers@[l].weights@[i]).value != i64::MIN
                &&& forall|i: int|
                    0 <= i < mlp.layers@[l].biases@.len() ==> (
                    #[trigger] mlp.layers@[l].biases@[i]).value != i64::MIN
            },
        result matches Err(error) ==> {
            &&& error matches QuantizationError::UnsafeParameter { parameter }
            &&& match parameter {
                Parameter::MlpWeight { layer, index } => {
                    &&& layer < mlp.layers@.len()
                    &&& index < mlp.layers@[layer as int].weights@.len()
                    &&& mlp.layers@[layer as int].weights@[index as int].value == i64::MIN
                },
                Parameter::MlpBias { layer, index } => {
                    &&& layer < mlp.layers@.len()
                    &&& index < mlp.layers@[layer as int].biases@.len()
                    &&& mlp.layers@[layer as int].biases@[index as int].value == i64::MIN
                },
                _ => false,
            }
            &&& forall|l: usize, i: usize|
                l < mlp.layers@.len() && i < mlp.layers@[l as int].weights@.len()
                    && #[trigger] comes_before(
                    Parameter::MlpWeight { layer: l, index: i },
                    parameter,
                ) ==> mlp.layers@[l as int].weights@[i as int].value != i64::MIN
            &&& forall|l: usize, i: usize|
                l < mlp.layers@.len() && i < mlp.layers@[l as int].biases@.len()
                    && #[trigger] comes_before(
                    Parameter::MlpBias { layer: l, index: i },
                    parameter,
                ) ==> mlp.layers@[l as int].biases@[i as int].value != i64::MIN
        },
{
    let layers = mlp.layers@;
    assert(layers.len() == mlp.layers.len());
    let all = range::mlp_parameters(layers);
    match result {
        Ok(()) => {
            assert forall|l: int|
                #![trigger layers[l]]
                0 <= l < layers.len() implies {
                &&& forall|i: int|
                    0 <= i < layers[l].weights@.len() ==> (#[trigger] layers[l].weights@[i]).value
                        != i64::MIN
                &&& forall|i: int|
                    0 <= i < layers[l].biases@.len() ==> (#[trigger] layers[l].biases@[i]).value
                        != i64::MIN
            } by {
                assert forall|i: int| 0 <= i < layers[l].weights@.len() implies (
                #[trigger] layers[l].weights@[i]).value != i64::MIN by {
                    let k = lemma_mlp_place(layers, l, i, false);
                    assert(all[k].1 != i64::MIN);
                }
                assert forall|i: int| 0 <= i < layers[l].biases@.len() implies (
                #[trigger] layers[l].biases@[i]).value != i64::MIN by {
                    let k = lemma_mlp_place(layers, l, i, true);
                    assert(all[k].1 != i64::MIN);
                }
            }
        },
        Err(error) => {
            let parameter = error->parameter;
            let k = choose|k: int|
                {
                    &&& 0 <= k < all.len()
                    &&& #[trigger] all[k] == (parameter, i64::MIN)
                    &&& range::all_safe(all.take(k))
                };
            lemma_mlp_parameter(layers, k);
            assert forall|l: usize, i: usize|
                l < layers.len() && i < layers[l as int].weights@.len()
                    && #[trigger] comes_before(
                    Parameter::MlpWeight { layer: l, index: i },
                    parameter,
                ) implies layers[l as int].weights@[i as int].value != i64::MIN by {
                let at = lemma_mlp_place(layers, l as int, i as int, false);
                if at > k {
                    lemma_mlp_order(layers, k, at);
                }
                assert(all.take(k)[at].1 != i64::MIN);
            }
            assert forall|l: usize, i: usize|
                l < layers.len() && i < layers[l as int].biases@.len()
                    && #[trigger] comes_before(
                    Parameter::MlpBias { layer: l, index: i },
                    parameter,
                ) implies layers[l as int].biases@[i as int].value != i64::MIN by {
                let at = lemma_mlp_place(layers, l as int, i as int, true);
                if at > k {
                    lemma_mlp_order(layers, k, at);
                }
                assert(all.take(k)[at].1 != i64::MIN);
            }
        },
    }
}

/// The sum of the sizes of weights.
proof fn lemma_sizes(weights: Seq<FixedPoint>)
    ensures
        overflow::sizes(weights) == weights.fold_left(
            0int,
            |sum: int, w: FixedPoint| sum + abs(w.value as int),
        ),
    decreases weights.len(),
{
    if weights.len() > 0 {
        lemma_sizes(weights.drop_last());
    }
}

/// The worst-case output is the sum of the sizes of the weights, times the largest input,
/// shifted right by sixteen bits, and the size of the bias.
pub proof fn worst_output_is_the_formula(
    weights: Seq<FixedPoint>,
    bias: FixedPoint,
    max_input: int,
)
    ensures
        overflow::worst_output(weights, bias, max_input) == (weights.fold_left(
            0int,
            |sum: int, w: FixedPoint| sum + abs(w.value as int),
        ) * max_input) / 0x1_0000 + abs(bias.value as int),
{
    lemma_sizes(weights);
    overflow::lemma_weighted_is_product(weights, max_input);
}

/// The overflow check of a logistic regression passes exactly when the worst-case output
/// `sum(|weight|) * max_input / 2^16 + |bias|` fits in `i64`, and a rejection holds that
/// output. The check of a model does the same.
pub proof fn logistic_overflow_check_is_exact(
    lr: LogisticRegression,
    max_input: int,
    result: Result<(), QuantizationError>,
)
    ensures
        overflow::overflow_checked(result, Model::LogisticRegression(lr), max_input)
            == overflow::logistic_checked(result, lr, max_input),
        ({
            let worst = (lr.weights@.fold_left(
                0int,
                |sum: int, w: FixedPoint| sum + abs(w.value as int),
            ) * max_input) / 0x1_0000 + abs(lr.bias.value as int);
            overflow::logistic_checked(result, lr, max_input) <==> match result {
                Ok(()) => i64::MIN <= worst <= i64::MAX,
                Err(QuantizationError::LogisticOverflow { worst_case }) => worst_case@ == worst
                    && !(i64::MIN <= worst <= i64::MAX),
                Err(_) => false,
            }
        }),
{
    worst_output_is_the_formula(lr.weights@, lr.bias, max_input);
}

/// The overflow check passes every tree.
pub proof fn trees_always_pass_the_overflow_check(
    tree: DecisionTree,
    max_input: int,
    result: Result<(), QuantizationError>,
)
    ensures
        overflow::overflow_checked(result, Model::DecisionTree(tree), max_input) <==> result is Ok,
{
}

/// The weights of the output `j` of a layer are the `input_size` weights from
/// `j * input_size` on, and its worst-case output is theirs with the bias `j`.
pub proof fn neuron_bound_is_the_formula(layer: DenseLayer, j: int, max_input: int)
    requires
        layer.well_formed(),
        0 <= j < layer.output_size,
    ensures
        overflow::neuron_bound(layer, j, max_input) == (Seq::new(
            layer.input_size as nat,
            |i: int| layer.weights@[j * layer.input_size + i],
        ).fold_left(0int, |sum: int, w: FixedPoint| sum + abs(w.value as int)) * max_input)
            / 0x1_0000 + abs(layer.biases@[j].value as int),
{
    let (n, m) = (layer.output_size as int, layer.input_size as int);
    assert(0 <= j * m && j * m + m <= n * m) by (nonlinear_arith)
        requires
            0 <= j < n,
            m >= 0,
    ;
    let row = Seq::new(layer.input_size as nat, |i: int| layer.weights@[j * m + i]);
    assert(layer.row(j) =~= row);
    worst_output_is_the_formula(row, layer.biases@[j], max_input);
}

/// A layer is well formed exactly when every output has its bias, and its row of weights
/// lies within the weights that are there.
pub proof fn well_formed_layers_hold_what_is_read(layer: DenseLayer)
    ensures
        layer.well_formed() <==> forall|j: int|
            0 <= j < layer.output_size ==> {
                &&& (#[trigger] (j * layer.input_size)) + layer.input_size <= layer.weights@.len()
                &&& j < layer.biases@.len()
            },
{
    let (n, m) = (layer.output_size as int, layer.input_size as int);
    let len = layer.weights@.len() as int;
    if layer.well_formed() {
        assert forall|j: int| 0 <= j < n implies (#[trigger] (j * m)) + m <= len by {
            assert(j * m + m <= n * m) by (nonlinear_arith)
                requires
                    0 <= j < n,
                    0 <= m,
            ;
        }
    }
    if n > 0 {
        assert((n - 1) * m + m == n * m) by (nonlinear_arith);
    } else {
        lemma_mul_basics(m);
    }
}

/// A perceptron is well formed exactly when each of its layers is, and a model without
/// layers always is.
pub proof fn well_formed_models_have_well_formed_layers(mlp: TinyMLP, model: Model)
    ensures
        mlp.well_formed() <==> forall|k: int|
            0 <= k < mlp.layers@.len() ==> (#[trigger] mlp.layers@[k]).well_formed(),
        Model::TinyMLP(mlp).well_formed() <==> mlp.well_formed(),
        !(model is TinyMLP) ==> model.well_formed(),
{
}

/// `top` is the largest of the worst-case outputs of a layer.
pub open spec fn is_largest_output(layer: DenseLayer, max_input: int, top: int) -> bool {
    &&& forall|j: int|
        0 <= j < layer.output_size ==> #[trigger] overflow::neuron_bound(layer, j, max_input) <= top
    &&& exists|j: int|
        0 <= j < layer.output_size && #[trigger] overflow::neuron_bound(layer, j, max_input) == top
}

/// The largest of the first bounds, from `i64::MIN` on.
proof fn lemma_highest(layer: DenseLayer, max_input: int, n: nat)
    ensures
        overflow::highest_bound(layer, max_input, n) >= i64::MIN,
        forall|j: int|
            0 <= j < n ==> #[trigger] overflow::neuron_bound(layer, j, max_input)
                <= overflow::highest_bound(layer, max_input, n),
        overflow::highest_bound(layer, max_input, n) == i64::MIN || exists|j: int|
            0 <= j < n && #[trigger] overflow::neuron_bound(layer, j, max_input)
                == overflow::highest_bound(layer, max_input, n),
    decreases n,
{
    if n > 0 {
        lemma_highest(layer, max_input, (n - 1) as nat);
    }
}

/// The overflow check of a layer passes exactly when every worst-case output fits in
/// `i64`, and then returns the largest of them, or `i64::MIN` parts for a layer without
/// outputs. A rejection holds the first that does not fit.
pub proof fn dense_overflow_check_is_exact(
    layer: DenseLayer,
    max_input: int,
    top: int,
    result: Result<Binary64, QuantizationError>,
)
    requires
        is_largest_output(layer, max_input, top) || (layer.output_size == 0 && top == i64::MIN),
    ensures
        overflow::dense_checked(result, layer, max_input) <==> match result {
            Ok(output_max) => {
                &&& output_max == Binary64::of_scaled(top)
                &&& forall|j: int|
                    0 <= j < layer.output_size ==> i64::MIN <= #[trigger] overflow::neuron_bound(
                        layer,
                        j,
                        max_input,
                    ) <= i64::MAX
            },
            Err(QuantizationError::DenseOverflow { worst_case }) => exists|j: int|
                {
                    &&& 0 <= j < layer.output_size
                    &&& #[trigger] overflow::neuron_bound(layer, j, max_input) == worst_case@
                    &&& !(i64::MIN <= worst_case@ <= i64::MAX)
                    &&& forall|before: int|
                        0 <= before < j ==> i64::MIN <= #[trigger] overflow::neuron_bound(
                            layer,
                            before,
                            max_input,
                        ) <= i64::MAX
                },
            Err(_) => false,
        },
{
    lemma_highest(layer, max_input, layer.output_size as nat);
    if overflow::layer_fits(layer, max_input) {
        lemma_top(layer, max_input, top);
    }
}

/// What the largest bound of a layer is.
proof fn lemma_top(layer: DenseLayer, max_input: int, top: int)
    requires
        is_largest_output(layer, max_input, top) || (layer.output_size == 0 && top == i64::MIN),
    ensures
        overflow::output_bound(layer, max_input) == if top > i64::MIN {
            top
        } else {
            i64::MIN as int
        },
{
    lemma_highest(layer, max_input, layer.output_size as nat);
    if layer.output_size > 0 {
        let j = choose|j: int|
            0 <= j < layer.output_size && #[trigger] overflow::neuron_bound(layer, j, max_input)
                == top;
        assert(overflow::neuron_bound(layer, j, max_input) <= overflow::output_bound(
            layer,
            max_input,
        ));
    }
}

/// `bounds` holds a bound on the inputs of every layer, and last one on the outputs: the
/// first is that given, each other is the largest of zero and the worst-case outputs of
/// the layer before, as the rectifier leaves them, and the last is the largest worst-case
/// output of the last layer.
pub open spec fn are_the_bounds(layers: Seq<DenseLayer>, max_input: int, bounds: Seq<int>) -> bool {
    &&& bounds.len() == layers.len() + 1
    &&& bounds[0] == max_input
    &&& forall|k: int|
        #![trigger layers[k]]
        0 <= k < layers.len() - 1 ==> {
            &&& bounds[k + 1] >= 0
            &&& forall|j: int|
                0 <= j < layers[k].output_size ==> #[trigger] overflow::neuron_bound(
                    layers[k],
                    j,
                    bounds[k],
                ) <= bounds[k + 1]
            &&& bounds[k + 1] == 0 || is_largest_output(layers[k], bounds[k], bounds[k + 1])
        }
    &&& layers.len() > 0 ==> {
        let (layer, input) = (layers.last(), bounds[layers.len() - 1]);
        is_largest_output(layer, input, bounds.last()) || (layer.output_size == 0 && bounds.last()
            == i64::MIN)
    }
}

/// What enters a layer is bounded by the bound of it.
proof fn lemma_entering(layers: Seq<DenseLayer>, max_input: int, bounds: Seq<int>, k: int)
    requires
        are_the_bounds(layers, max_input, bounds),
        0 <= k < layers.len(),
    ensures
        overflow::entering(layers, max_input, k as nat) == bounds[k],
    decreases k,
{
    if k > 0 {
        lemma_entering(layers, max_input, bounds, k - 1);
        let (layer, input, next) = (layers[k - 1], bounds[k - 1], bounds[k]);
        assert(bounds[(k - 1) + 1] == next);
        lemma_highest(layer, input, layer.output_size as nat);
        if next != 0 {
            lemma_top(layer, input, next);
        }
    }
}

/// A number of parts comes back above `i64::MAX / 2` after it was held as a binary64
/// number exactly when it is no more than 256 below two to the power of 62.
pub proof fn headroom_ends_below_half_of_the_range(n: int)
    requires
        i64::MIN <= n <= i64::MAX,
    ensures
        overflow::held(n) == Binary64::of_scaled(n).scaled(),
        overflow::held(n) <= i64::MAX / 2 <==> n < 0x3FFF_FFFF_FFFF_FF00,
{
    binary64::lemma_scaled_of_scaled(n);
    let limit = 0x3FFF_FFFF_FFFF_FF00nat;
    if n >= 0 {
        lemma2_to64();
        lemma2_to64_rest();
        // The two numbers around the limit are 512 apart, and the limit is halfway.
        rounding::lemma_spacing(limit, 9);
        rounding::lemma_spacing((limit - 1) as nat, 9);
        assert(rounding::spacing(limit / 1) == 512 && rounding::spacing(
            ((limit - 1) as nat) / 1,
        ) == 512);
        lemma_fundamental_div_mod_converse(limit as int, 512, 0x1F_FFFF_FFFF_FFFF, 256);
        lemma_fundamental_div_mod_converse(limit - 1, 512, 0x1F_FFFF_FFFF_FFFF, 255);
        assert(limit / (1 * 512) == 0x1F_FFFF_FFFF_FFFF);
        assert(limit % (1 * 512) == 256);
        assert(rounding::round_ratio(limit, 1) == 0x4000_0000_0000_0000);
        assert(rounding::round_ratio((limit - 1) as nat, 1) == 0x3FFF_FFFF_FFFF_FE00);
        if n >= limit {
            rounding::rounding_keeps_order(limit, 1, n as nat, 1);
        } else {
            rounding::rounding_keeps_order(n as nat, 1, (limit - 1) as nat, 1);
        }
    }
}

/// What the bound on the last layer is, where its worst-case outputs fit.
proof fn lemma_last(layers: Seq<DenseLayer>, max_input: int, bounds: Seq<int>)
    requires
        are_the_bounds(layers, max_input, bounds),
        layers.len() > 0,
    ensures
        overflow::layer_fits(layers.last(), bounds[layers.len() - 1]) ==> {
            &&& overflow::final_bound(layers, max_input) == bounds.last()
            &&& i64::MIN <= bounds.last() <= i64::MAX
            &&& overflow::held(bounds.last()) <= overflow::SAFE_OUTPUT <==> bounds.last()
                < 0x3FFF_FFFF_FFFF_FF00
        },
{
    let k = layers.len() - 1;
    let (layer, top) = (layers[k], bounds.last());
    lemma_entering(layers, max_input, bounds, k);
    lemma_top(layer, bounds[k], top);
    if overflow::layer_fits(layer, bounds[k]) {
        headroom_ends_below_half_of_the_range(top);
    }
}

/// The first worst-case output that does not fit, by layer and by output.
proof fn lemma_first_of_all(layers: Seq<DenseLayer>, max_input: int, bounds: Seq<int>, worst: int)
    requires
        are_the_bounds(layers, max_input, bounds),
        forall|k: int|
            0 <= k < layers.len() ==> overflow::entering(layers, max_input, k as nat)
                == #[trigger] bounds[k],
    ensures
        (exists|k: int|
            {
                &&& 0 <= k < layers.len()
                &&& overflow::layers_fit(layers, max_input, k)
                &&& overflow::first_overflow(
                    #[trigger] layers[k],
                    overflow::entering(layers, max_input, k as nat),
                    worst,
                )
            }) <==> exists|k: int, j: int|
            {
                &&& 0 <= k < layers.len()
                &&& 0 <= j < layers[k].output_size
                &&& #[trigger] overflow::neuron_bound(layers[k], j, bounds[k]) == worst
                &&& !(i64::MIN <= worst <= i64::MAX)
                &&& forall|l: int, i: int|
                    0 <= l <= k && 0 <= i < layers[l].output_size && (l == k ==> i < j) ==> i64::MIN
                        <= #[trigger] overflow::neuron_bound(layers[l], i, bounds[l]) <= i64::MAX
            },
{
    if exists|k: int|
        {
            &&& 0 <= k < layers.len()
            &&& overflow::layers_fit(layers, max_input, k)
            &&& overflow::first_overflow(
                #[trigger] layers[k],
                overflow::entering(layers, max_input, k as nat),
                worst,
            )
        } {
        let k = choose|k: int|
            {
                &&& 0 <= k < layers.len()
                &&& overflow::layers_fit(layers, max_input, k)
                &&& overflow::first_overflow(
                    #[trigger] layers[k],
                    overflow::entering(layers, max_input, k as nat),
                    worst,
                )
            };
        assert(overflow::entering(layers, max_input, k as nat) == bounds[k]);
        let j = choose|j: int|
            {
                &&& 0 <= j < layers[k].output_size
                &&& worst == #[trigger] overflow::neuron_bound(layers[k], j, bounds[k])
                &&& worst < i64::MIN || worst > i64::MAX
                &&& overflow::outputs_fit(layers[k], bounds[k], j)
            };
        assert forall|l: int, i: int|
            0 <= l <= k && 0 <= i < layers[l].output_size && (l == k ==> i < j) implies i64::MIN
            <= #[trigger] overflow::neuron_bound(layers[l], i, bounds[l]) <= i64::MAX by {
            assert(overflow::entering(layers, max_input, l as nat) == bounds[l]);
            if l < k {
                assert(overflow::layer_fits(layers[l], bounds[l]));
            }
        }
        assert(overflow::neuron_bound(layers[k], j, bounds[k]) == worst);
    }
    if exists|k: int, j: int|
        {
            &&& 0 <= k < layers.len()
            &&& 0 <= j < layers[k].output_size
            &&& #[trigger] overflow::neuron_bound(layers[k], j, bounds[k]) == worst
            &&& !(i64::MIN <= worst <= i64::MAX)
            &&& forall|l: int, i: int|
                0 <= l <= k && 0 <= i < layers[l].output_size && (l == k ==> i < j) ==> i64::MIN
                    <= #[trigger] overflow::neuron_bound(layers[l], i, bounds[l]) <= i64::MAX
        } {
        let (k, j) = choose|k: int, j: int|
            {
                &&& 0 <= k < layers.len()
                &&& 0 <= j < layers[k].output_size
                &&& #[trigger] overflow::neuron_bound(layers[k], j, bounds[k]) == worst
                &&& !(i64::MIN <= worst <= i64::MAX)
                &&& forall|l: int, i: int|
                    0 <= l <= k && 0 <= i < layers[l].output_size && (l == k ==> i < j) ==> i64::MIN
                        <= #[trigger] overflow::neuron_bound(layers[l], i, bounds[l]) <= i64::MAX
            };
        assert forall|l: int| 0 <= l < k implies overflow::layer_fits(
            #[trigger] layers[l],
            overflow::entering(layers, max_input, l as nat),
        ) by {
            assert(overflow::entering(layers, max_input, l as nat) == bounds[l]);
        }
        assert(overflow::entering(layers, max_input, k as nat) == bounds[k]);
        assert(overflow::outputs_fit(layers[k], bounds[k], j));
        assert(overflow::first_overflow(layers[k], bounds[k], worst));
    }
}

/// The overflow check of a perceptron passes exactly when, with the bounds handed on from
/// layer to layer, every worst-case output fits in `i64` and the bound on the outputs of
/// the last layer is below two to the power of 62 by more than 256 parts. A rejection
/// holds the first worst-case output that does not fit, or names the last layer with its
/// bound. The check of a model does the same.
pub proof fn mlp_overflow_check_is_exact(
    mlp: TinyMLP,
    max_input: int,
    bounds: Seq<int>,
    result: Result<(), QuantizationError>,
)
    requires
        are_the_bounds(mlp.layers@, max_input, bounds),
    ensures
        overflow::overflow_checked(result, Model::TinyMLP(mlp), max_input)
            == overflow::mlp_checked(result, mlp.layers@, max_input),
        ({
            let layers = mlp.layers@;
            overflow::mlp_checked(result, layers, max_input) <==> match result {
                Ok(()) => {
                    &&& forall|k: int, j: int|
                        0 <= k < layers.len() && 0 <= j < layers[k].output_size ==> i64::MIN
                            <= #[trigger] overflow::neuron_bound(layers[k], j, bounds[k])
                            <= i64::MAX
                    &&& layers.len() > 0 ==> bounds.last() < 0x3FFF_FFFF_FFFF_FF00
                },
                Err(QuantizationError::DenseOverflow { worst_case }) => exists|k: int, j: int|
                    {
                        &&& 0 <= k < layers.len()
                        &&& 0 <= j < layers[k].output_size
                        &&& #[trigger] overflow::neuron_bound(layers[k], j, bounds[k])
                            == worst_case@
                        &&& !(i64::MIN <= worst_case@ <= i64::MAX)
                        &&& forall|l: int, i: int|
                            0 <= l <= k && 0 <= i < layers[l].output_size && (l == k ==> i < j)
                                ==> i64::MIN <= #[trigger] overflow::neuron_bound(
                                layers[l],
                                i,
                                bounds[l],
                            ) <= i64::MAX
                    },
                Err(QuantizationError::MlpOverflow { layer, output }) => {
                    &&& layers.len() > 0
                    &&& layer == layers.len() - 1
                    &&& output == Binary64::of_scaled(bounds.last())
                    &&& bounds.last() >= 0x3FFF_FFFF_FFFF_FF00
                    &&& forall|k: int, j: int|
                        0 <= k < layers.len() && 0 <= j < layers[k].output_size ==> i64::MIN
                            <= #[trigger] overflow::neuron_bound(layers[k], j, bounds[k])
                            <= i64::MAX
                },
                Err(_) => false,
            }
        }),
{
    let layers = mlp.layers@;
    let n = layers.len() as int;
    assert forall|k: int| 0 <= k < n implies overflow::entering(layers, max_input, k as nat)
        == #[trigger] bounds[k] by {
        lemma_entering(layers, max_input, bounds, k);
    }
    assert(forall|k: int|
        0 <= k < n ==> #[trigger] overflow::layer_fits(layers[k], bounds[k]) == (forall|j: int|
            0 <= j < layers[k].output_size ==> i64::MIN <= #[trigger] overflow::neuron_bound(
                layers[k],
                j,
                bounds[k],
            ) <= i64::MAX));
    if n > 0 {
        lemma_last(layers, max_input, bounds);
    }
    match result {
        Err(QuantizationError::DenseOverflow { worst_case }) => {
            lemma_first_of_all(layers, max_input, bounds, worst_case@);
        },
        _ => {
            if overflow::layers_fit(layers, max_input, n) {
                assert forall|k: int, j: int|
                    0 <= k < n && 0 <= j < layers[k].output_size implies i64::MIN
                    <= #[trigger] overflow::neuron_bound(layers[k], j, bounds[k]) <= i64::MAX by {
                    assert(overflow::layer_fits(layers[k], bounds[k]));
                }
            }
            if forall|k: int, j: int|
                0 <= k < n && 0 <= j < layers[k].output_size ==> i64::MIN
                    <= #[trigger] overflow::neuron_bound(layers[k], j, bounds[k]) <= i64::MAX {
                assert forall|k: int| 0 <= k < n implies overflow::layer_fits(
                    #[trigger] layers[k],
                    overflow::entering(layers, max_input, k as nat),
                ) by {
                    assert(overflow::layer_fits(layers[k], bounds[k]));
                }
            }
        },
    }
}

/// The largest worst-case output of the first outputs.
proof fn lemma_some_output_is_largest(layer: DenseLayer, max_input: int, n: nat) -> (at: int)
    requires
        n > 0,
    ensures
        0 <= at < n,
        forall|j: int|
            0 <= j < n ==> #[trigger] overflow::neuron_bound(layer, j, max_input)
                <= overflow::neuron_bound(layer, at, max_input),
    decreases n,
{
    if n == 1 {
        0
    } else {
        let at = lemma_some_output_is_largest(layer, max_input, (n - 1) as nat);
        if overflow::neuron_bound(layer, n - 1, max_input) > overflow::neuron_bound(
            layer,
            at,
            max_input,
        ) {
            n - 1
        } else {
            at
        }
    }
}

/// Every perceptron has its bounds.
pub proof fn every_perceptron_has_its_bounds(layers: Seq<DenseLayer>, max_input: int) -> (bounds:
    Seq<int>)
    ensures
        are_the_bounds(layers, max_input, bounds),
{
    let n = layers.len() as int;
    let enter = |k: int| overflow::entering(layers, max_input, k as nat);
    let top = if n == 0 {
        max_input
    } else if layers.last().output_size == 0 {
        i64::MIN as int
    } else {
        let at = lemma_some_output_is_largest(
            layers.last(),
            enter(n - 1),
            layers.last().output_size as nat,
        );
        overflow::neuron_bound(layers.last(), at, enter(n - 1))
    };
    let bounds = Seq::new(
        layers.len() + 1,
        |k: int|
            if k < n {
                enter(k)
            } else {
                top
            },
    );
    assert forall|k: int|
        #![trigger layers[k]]
        0 <= k < n - 1 implies {
        &&& bounds[k + 1] >= 0
        &&& forall|j: int|
            0 <= j < layers[k].output_size ==> #[trigger] overflow::neuron_bound(
                layers[k],
                j,
                bounds[k],
            ) <= bounds[k + 1]
        &&& bounds[k + 1] == 0 || is_largest_output(layers[k], bounds[k], bounds[k + 1])
    } by {
        lemma_highest(layers[k], bounds[k], layers[k].output_size as nat);
        assert(bounds[k + 1] == overflow::entering(layers, max_input, (k + 1) as nat));
    }
    bounds
}

/// A larger bound on the inputs makes no worst-case output smaller, and none is negative
/// for a bound that is not.
proof fn lemma_neuron_bound_ordered(layer: DenseLayer, j: int, smaller: int, larger: int)
    requires
        0 <= smaller <= larger,
    ensures
        0 <= overflow::neuron_bound(layer, j, smaller) <= overflow::neuron_bound(layer, j, larger),
{
    let sizes = overflow::sizes(layer.row(j)) as int;
    overflow::lemma_weighted_is_product(layer.row(j), smaller);
    overflow::lemma_weighted_is_product(layer.row(j), larger);
    assert(0 <= sizes * smaller <= sizes * larger) by (nonlinear_arith)
        requires
            0 <= sizes,
            0 <= smaller <= larger,
    ;
    lemma_div_is_ordered(sizes * smaller, sizes * larger, 0x1_0000);
    lemma_div_pos_is_pos(sizes * smaller, 0x1_0000);
}

/// A perceptron of any number of layers is accepted where limits within `i64` can be
/// given that its worst-case outputs keep from layer to layer, of which the last leaves
/// the headroom.
pub proof fn bounded_perceptrons_are_accepted(
    mlp: TinyMLP,
    max_input: int,
    limits: Seq<int>,
    result: Result<(), QuantizationError>,
)
    requires
        overflow::mlp_checked(result, mlp.layers@, max_input) || overflow::overflow_checked(
            result,
            Model::TinyMLP(mlp),
            max_input,
        ),
        limits.len() == mlp.layers@.len() + 1,
        0 <= max_input <= limits[0],
        forall|k: int| 0 <= k < limits.len() ==> 0 <= #[trigger] limits[k] <= i64::MAX,
        forall|k: int, j: int|
            0 <= k < mlp.layers@.len() && 0 <= j < mlp.layers@[k].output_size
                ==> #[trigger] overflow::neuron_bound(mlp.layers@[k], j, limits[k])
                <= limits[k + 1],
        limits.last() < 0x3FFF_FFFF_FFFF_FF00,
    ensures
        result is Ok,
{
    let layers = mlp.layers@;
    let n = layers.len() as int;
    assert forall|k: int| 0 <= k < n implies overflow::layer_fits(
        #[trigger] layers[k],
        overflow::entering(layers, max_input, k as nat),
    ) && overflow::output_bound(
        layers[k],
        overflow::entering(layers, max_input, k as nat),
    ) <= limits[k + 1] by {
        lemma_within_limits(layers, max_input, limits, k);
        lemma_layer_within_limits(
            layers[k],
            overflow::entering(layers, max_input, k as nat),
            limits[k],
            limits[k + 1],
        );
    }
    if n > 0 {
        let last = layers[n - 1];
        assert(limits[(n - 1) + 1] == limits.last());
        lemma_highest(
            last,
            overflow::entering(layers, max_input, (n - 1) as nat),
            last.output_size as nat,
        );
        headroom_ends_below_half_of_the_range(overflow::final_bound(layers, max_input));
    }
    match result {
        Err(QuantizationError::DenseOverflow { worst_case }) => {
            let k = choose|k: int|
                {
                    &&& 0 <= k < layers.len()
                    &&& overflow::layers_fit(layers, max_input, k)
                    &&& overflow::first_overflow(
                        #[trigger] layers[k],
                        overflow::entering(layers, max_input, k as nat),
                        worst_case@,
                    )
                };
            assert(overflow::layer_fits(
                layers[k],
                overflow::entering(layers, max_input, k as nat),
            ));
        },
        _ => {},
    }
}

proof fn lemma_layer_within_limits(layer: DenseLayer, input: int, limit: int, next: int)
    requires
        0 <= input <= limit,
        0 <= next <= i64::MAX,
        forall|j: int|
            0 <= j < layer.output_size ==> #[trigger] overflow::neuron_bound(layer, j, limit)
                <= next,
    ensures
        overflow::layer_fits(layer, input),
        overflow::output_bound(layer, input) <= next,
{
    assert forall|j: int| 0 <= j < layer.output_size implies 0
        <= #[trigger] overflow::neuron_bound(layer, j, input) <= next by {
        lemma_neuron_bound_ordered(layer, j, input, limit);
    }
    lemma_highest(layer, input, layer.output_size as nat);
}

proof fn lemma_within_limits(layers: Seq<DenseLayer>, max_input: int, limits: Seq<int>, k: int)
    requires
        limits.len() == layers.len() + 1,
        0 <= max_input <= limits[0],
        forall|k: int| 0 <= k < limits.len() ==> 0 <= #[trigger] limits[k] <= i64::MAX,
        forall|k: int, j: int|
            0 <= k < layers.len() && 0 <= j < layers[k].output_size
                ==> #[trigger] overflow::neuron_bound(layers[k], j, limits[k]) <= limits[k + 1],
        0 <= k < layers.len(),
    ensures
        0 <= overflow::entering(layers, max_input, k as nat) <= limits[k],
    decreases k,
{
    if k > 0 {
        lemma_within_limits(layers, max_input, limits, k - 1);
        assert(limits[(k - 1) + 1] == limits[k]);
        lemma_layer_within_limits(
            layers[k - 1],
            overflow::entering(layers, max_input, (k - 1) as nat),
            limits[k - 1],
            limits[k],
        );
    }
}

/// The accumulated products for inputs that all have the sign of their weight.
proof fn lemma_dot_of_extremes(weights: Seq<FixedPoint>, max_input: int)
    ensures
        soundness::dot(
            weights,
            Seq::new(
                weights.len(),
                |i: int|
                    if weights[i].value < 0 {
                        -max_input
                    } else {
                        max_input
                    },
            ),
        ) == overflow::weighted(weights, max_input),
    decreases weights.len(),
{
    let inputs = Seq::new(
        weights.len(),
        |i: int|
            if weights[i].value < 0 {
                -max_input
            } else {
                max_input
            },
    );
    if weights.len() > 0 {
        let before = weights.drop_last();
        lemma_dot_of_extremes(before, max_input);
        assert(inputs.drop_last() =~= Seq::new(
            before.len(),
            |i: int|
                if before[i].value < 0 {
                    -max_input
                } else {
                    max_input
                },
        ));
        let w = weights.last().value as int;
        assert(w < 0 ==> w * -max_input == abs(w) * max_input) by (nonlinear_arith)
            requires
                w < 0 ==> abs(w) == -w,
        ;
    }
}

/// The worst case is no overestimate: there are inputs of the checked magnitude for which
/// the accumulated products are those of the worst-case output.
pub proof fn worst_output_is_reached(
    weights: Seq<FixedPoint>,
    bias: FixedPoint,
    max_input: int,
) -> (inputs: Seq<int>)
    ensures
        inputs.len() == weights.len(),
        forall|i: int| 0 <= i < inputs.len() ==> abs(#[trigger] inputs[i]) == abs(max_input),
        soundness::dot(weights, inputs) / 0x1_0000 + abs(bias.value as int)
            == overflow::worst_output(weights, bias, max_input),
{
    lemma_dot_of_extremes(weights, max_input);
    Seq::new(
        weights.len(),
        |i: int|
            if weights[i].value < 0 {
                -max_input
            } else {
                max_input
            },
    )
}

/// Accumulated products add up: those of two runs of weights and inputs are those of the
/// first and those of the second, and one weight and one input give their product.
pub proof fn products_add_up(
    weights: Seq<FixedPoint>,
    more: Seq<FixedPoint>,
    inputs: Seq<int>,
    more_inputs: Seq<int>,
)
    requires
        weights.len() == inputs.len(),
        more.len() == more_inputs.len(),
    ensures
        soundness::dot(weights + more, inputs + more_inputs) == soundness::dot(weights, inputs)
            + soundness::dot(more, more_inputs),
        weights.len() == 1 ==> soundness::dot(weights, inputs) == weights[0].value * inputs[0],
    decreases more.len(),
{
    reveal_with_fuel(soundness::dot, 2);
    if more.len() == 0 {
        assert(weights + more =~= weights);
        assert(inputs + more_inputs =~= inputs);
    } else {
        products_add_up(weights, more.drop_last(), inputs, more_inputs.drop_last());
        assert((weights + more).drop_last() =~= weights + more.drop_last());
        assert((inputs + more_inputs).drop_last() =~= inputs + more_inputs.drop_last());
    }
}

/// The validation of a model returns what the first of the three checks returns that does
/// not pass, and the report of the last where all pass.
pub proof fn validation_stops_at_the_first_failure(
    model: Model,
    cfg: QuantizationConfig,
    predictions: Seq<Prediction>,
    in_range: Result<(), QuantizationError>,
    bounded: Result<(), QuantizationError>,
    result: Result<QuantizationReport, QuantizationError>,
)
    requires
        range::range_checked(in_range, range::parameters(model)),
        overflow::overflow_checked(bounded, model, cfg.max_input_magnitude.scaled()),
        quantization::model_validated(result, model, cfg, predictions),
    ensures
        in_range is Err ==> result is Err && in_range->Err_0 == result->Err_0,
        in_range is Ok && bounded is Err ==> result is Err && overflow::overflow_checked(
            Err(result->Err_0),
            model,
            cfg.max_input_magnitude.scaled(),
        ),
        in_range is Ok && bounded is Ok ==> result == quantization::accuracy_verdict(
            predictions,
            cfg,
        ),
{
    let all = range::parameters(model);
    let max_input = cfg.max_input_magnitude.scaled();
    if in_range is Err {
        assert(!range::all_safe(all));
        let (p, q) = (in_range->Err_0->parameter, result->Err_0->parameter);
        let i = choose|k: int|
            {
                &&& 0 <= k < all.len()
                &&& #[trigger] all[k] == (p, i64::MIN)
                &&& range::all_safe(all.take(k))
            };
        let j = choose|k: int|
            {
                &&& 0 <= k < all.len()
                &&& #[trigger] all[k] == (q, i64::MIN)
                &&& range::all_safe(all.take(k))
            };
        if i < j {
            assert(all.take(j)[i].1 != i64::MIN);
        } else if j < i {
            assert(all.take(i)[j].1 != i64::MIN);
        }
    } else if bounded is Err {
        lemma_one_outcome(model, max_input, bounded->Err_0);
    }
}

/// An overflow check that can fail cannot pass.
proof fn lemma_one_outcome(model: Model, max_input: int, error: QuantizationError)
    requires
        overflow::overflow_checked(Err(error), model, max_input),
    ensures
        !overflow::overflow_checked(Ok(()), model, max_input),
{
    match model {
        Model::TinyMLP(mlp) => {
            let layers = mlp.layers@;
            match error {
                QuantizationError::DenseOverflow { worst_case } => {
                    let k = choose|k: int|
                        {
                            &&& 0 <= k < layers.len()
                            &&& overflow::layers_fit(layers, max_input, k)
                            &&& overflow::first_overflow(
                                #[trigger] layers[k],
                                overflow::entering(layers, max_input, k as nat),
                                worst_case@,
                            )
                        };
                    assert(!overflow::layer_fits(
                        layers[k],
                        overflow::entering(layers, max_input, k as nat),
                    ));
                },
                _ => {},
            }
        },
        _ => {},
    }
}

} // verus!
