//! The range check: every parameter of a model can be negated.

use vstd::prelude::*;

use crate::error::{Parameter, QuantizationError};
use crate::models::{DecisionTree, DenseLayer, LogisticRegression, Model, TinyMLP, TreeNode};

verus! {

/// The parameters of a tree, node by node.
pub open spec fn tree_parameters(nodes: Seq<TreeNode>) -> Seq<(Parameter, i64)> {
    Seq::new(
        nodes.len(),
        |i: int|
            match nodes[i] {
                TreeNode::Split { threshold, .. } => (
                    Parameter::TreeThreshold { node: i as usize },
                    threshold.value,
                ),
                TreeNode::Leaf { value } => (Parameter::TreeLeaf { node: i as usize }, value.value),
            },
    )
}

/// The parameters of a logistic regression: its weights, then its bias.
pub open spec fn logistic_parameters(lr: LogisticRegression) -> Seq<(Parameter, i64)> {
    Seq::new(
        lr.weights@.len(),
        |i: int| (Parameter::LogisticWeight { index: i as usize }, lr.weights@[i].value),
    ).push((Parameter::LogisticBias, lr.bias.value))
}

/// The parameters of the layer at `index`: its weights, then its biases.
pub open spec fn layer_parameters(layer: DenseLayer, index: usize) -> Seq<(Parameter, i64)> {
    Seq::new(
        layer.weights@.len(),
        |i: int|
            (Parameter::MlpWeight { layer: index, index: i as usize }, layer.weights@[i].value),
    ) + Seq::new(
        layer.biases@.len(),
        |i: int| (Parameter::MlpBias { layer: index, index: i as usize }, layer.biases@[i].value),
    )
}

/// The parameters of a perceptron, layer by layer.
pub open spec fn mlp_parameters(layers: Seq<DenseLayer>) -> Seq<(Parameter, i64)>
    decreases layers.len(),
{
    if layers.len() == 0 {
        Seq::empty()
    } else {
        mlp_parameters(layers.drop_last()) + layer_parameters(
            layers.last(),
            (layers.len() - 1) as usize,
        )
    }
}

/// The parameters of a model, in the order in which they are checked.
pub open spec fn parameters(model: Model) -> Seq<(Parameter, i64)> {
    match model {
        Model::DecisionTree(tree) => tree_parameters(tree.nodes@),
        Model::LogisticRegression(lr) => logistic_parameters(lr),
        Model::TinyMLP(mlp) => mlp_parameters(mlp.layers@),
    }
}

/// No parameter is `i64::MIN`.
pub open spec fn all_safe(parameters: Seq<(Parameter, i64)>) -> bool {
    forall|k: int| 0 <= k < parameters.len() ==> (#[trigger] parameters[k]).1 != i64::MIN
}

/// `parameter` is the first one that is `i64::MIN`.
pub open spec fn first_unsafe(parameters: Seq<(Parameter, i64)>, parameter: Parameter) -> bool {
    exists|k: int|
        {
            &&& 0 <= k < parameters.len()
            &&& #[trigger] parameters[k] == (parameter, i64::MIN)
            &&& all_safe(parameters.take(k))
        }
}

/// The check passes exactly when all of `parameters` are safe, and names the first
/// that is not.
pub open spec fn range_checked(
    result: Result<(), QuantizationError>,
    parameters: Seq<(Parameter, i64)>,
) -> bool {
    match result {
        Ok(()) => all_safe(parameters),
        Err(QuantizationError::UnsafeParameter { parameter }) => first_unsafe(
            parameters,
            parameter,
        ),
        Err(_) => false,
    }
}

/// A first unsafe parameter stays the first whatever follows.
proof fn lemma_first_unsafe_extends(
    parameters: Seq<(Parameter, i64)>,
    more: Seq<(Parameter, i64)>,
    parameter: Parameter,
)
    requires
        first_unsafe(parameters, parameter),
    ensures
        first_unsafe(parameters + more, parameter),
{
    let k = choose|k: int|
        {
            &&& 0 <= k < parameters.len()
            &&& #[trigger] parameters[k] == (parameter, i64::MIN)
            &&& all_safe(parameters.take(k))
        };
    assert((parameters + more).take(k) =~= parameters.take(k));
    assert((parameters + more)[k] == parameters[k]);
}

/// The parameters of the first layers come first.
proof fn lemma_mlp_prefix(layers: Seq<DenseLayer>, n: int)
    requires
        0 <= n <= layers.len(),
    ensures
        exists|more: Seq<(Parameter, i64)>|
            mlp_parameters(layers) == #[trigger] (mlp_parameters(layers.take(n)) + more),
    decreases layers.len() - n,
{
    if n == layers.len() {
        assert(layers.take(n) =~= layers);
        let none = Seq::<(Parameter, i64)>::empty();
        assert(mlp_parameters(layers) =~= mlp_parameters(layers.take(n)) + none);
    } else {
        lemma_mlp_prefix(layers, n + 1);
        let more = choose|more: Seq<(Parameter, i64)>|
            mlp_parameters(layers) == #[trigger] (mlp_parameters(layers.take(n + 1)) + more);
        let next = layers.take(n + 1);
        assert(next.drop_last() =~= layers.take(n));
        let this = layer_parameters(next.last(), n as usize);
        assert(mlp_parameters(layers) =~= mlp_parameters(layers.take(n)) + (this + more));
    }
}

/// Checks that a value can be negated.
pub fn check_fixed_point_range(value: &i64, parameter: Parameter) -> (result: Result<
    (),
    QuantizationError,
>)
    ensures
        result matches Ok(_) <==> *value != i64::MIN,
        result matches Err(error) ==> error == (QuantizationError::UnsafeParameter { parameter }),
{
    if *value == i64::MIN {
        return Err(QuantizationError::UnsafeParameter { parameter });
    }
    Ok(())
}

/// Checks the thresholds and predictions of a tree.
pub fn check_tree_range(tree: &DecisionTree) -> (result: Result<(), QuantizationError>)
    ensures
        range_checked(result, tree_parameters(tree.nodes@)),
{
    let ghost all = tree_parameters(tree.nodes@);
    let mut i: usize = 0;
    while i < tree.nodes.len()
        invariant
            i <= tree.nodes@.len(),
            all == tree_parameters(tree.nodes@),
            all_safe(all.take(i as int)),
        decreases tree.nodes@.len() - i,
    {
        assert(all.take(i + 1) =~= all.take(i as int).push(all[i as int]));
        let checked: Result<(), QuantizationError> = match &tree.nodes[i] {
            TreeNode::Split { threshold, .. } => check_fixed_point_range(
                &threshold.value,
                Parameter::TreeThreshold { node: i },
            ),
            TreeNode::Leaf { value } => check_fixed_point_range(
                &value.value,
                Parameter::TreeLeaf { node: i },
            ),
        };
        if checked.is_err() {
            assert(all[i as int].1 == i64::MIN);
            return checked;
        }
        i = i + 1;
    }
    assert(all.take(i as int) =~= all);
    Ok(())
}

/// Checks the weights and the bias of a logistic regression.
pub fn check_logistic_range(lr: &LogisticRegression) -> (result: Result<(), QuantizationError>)
    ensures
        range_checked(result, logistic_parameters(*lr)),
{
    let ghost all = logistic_parameters(*lr);
    let mut i: usize = 0;
    while i < lr.weights.len()
        invariant
            i <= lr.weights@.len(),
            all == logistic_parameters(*lr),
            all_safe(all.take(i as int)),
        decreases lr.weights@.len() - i,
    {
        assert(all.take(i + 1) =~= all.take(i as int).push(all[i as int]));
        let checked: Result<(), QuantizationError> = check_fixed_point_range(
            &lr.weights[i].value,
            Parameter::LogisticWeight { index: i },
        );
        if checked.is_err() {
            assert(all[i as int].1 == i64::MIN);
            return checked;
        }
        i = i + 1;
    }
    assert(all =~= all.take(i as int).push(all[i as int]));
    let checked: Result<(), QuantizationError> = check_fixed_point_range(
        &lr.bias.value,
        Parameter::LogisticBias,
    );
    assert(all[i as int] == (Parameter::LogisticBias, lr.bias.value));
    checked
}

/// Checks the weights and the biases of one layer.
fn check_layer_range(layer: &DenseLayer, index: usize) -> (result: Result<(), QuantizationError>)
    ensures
        range_checked(result, layer_parameters(*layer, index)),
{
    let ghost all = layer_parameters(*layer, index);
    let ghost n = layer.weights@.len();
    let mut i: usize = 0;
    while i < layer.weights.len()
        invariant
            i <= n == layer.weights@.len(),
            all == layer_parameters(*layer, index),
            all_safe(all.take(i as int)),
        decreases n - i,
    {
        assert(all.take(i + 1) =~= all.take(i as int).push(all[i as int]));
        let checked: Result<(), QuantizationError> = check_fixed_point_range(
            &layer.weights[i].value,
            Parameter::MlpWeight { layer: index, index: i },
        );
        if checked.is_err() {
            assert(all[i as int].1 == i64::MIN);
            return checked;
        }
        i = i + 1;
    }
    let mut i: usize = 0;
    while i < layer.biases.len()
        invariant
            i <= layer.biases@.len(),
            n == layer.weights@.len(),
            all == layer_parameters(*layer, index),
            all_safe(all.take(n + i)),
        decreases layer.biases@.len() - i,
    {
        assert(all.take(n + i + 1) =~= all.take(n + i).push(all[n + i]));
        let checked: Result<(), QuantizationError> = check_fixed_point_range(
            &layer.biases[i].value,
            Parameter::MlpBias { layer: index, index: i },
        );
        if checked.is_err() {
            assert(all[n + i].1 == i64::MIN);
            return checked;
        }
        i = i + 1;
    }
    assert(all.take(n + i) =~= all);
    Ok(())
}

/// Checks the weights and the biases of every layer.
pub fn check_mlp_range(mlp: &TinyMLP) -> (result: Result<(), QuantizationError>)
    ensures
        range_checked(result, mlp_parameters(mlp.layers@)),
{
    let ghost layers = mlp.layers@;
    let mut k: usize = 0;
    while k < mlp.layers.len()
        invariant
            k <= layers.len(),
            layers == mlp.layers@,
            all_safe(mlp_parameters(layers.take(k as int))),
        decreases layers.len() - k,
    {
        let ghost before = mlp_parameters(layers.take(k as int));
        let ghost this = layer_parameters(layers[k as int], k);
        proof {
            let next = layers.take(k + 1);
            assert(next.drop_last() =~= layers.take(k as int));
            assert(mlp_parameters(next) == before + this);
        }
        let checked: Result<(), QuantizationError> = check_layer_range(&mlp.layers[k], k);
        match checked {
            Err(QuantizationError::UnsafeParameter { parameter }) => {
                proof {
                    let at = choose|at: int|
                        {
                            &&& 0 <= at < this.len()
                            &&& #[trigger] this[at] == (parameter, i64::MIN)
                            &&& all_safe(this.take(at))
                        };
                    let place = before.len() + at;
                    assert((before + this)[place] == this[at]);
                    assert((before + this).take(place) =~= before + this.take(at));
                    assert(first_unsafe(before + this, parameter));
                    lemma_mlp_prefix(layers, k + 1);
                    let more = choose|more: Seq<(Parameter, i64)>|
                        mlp_parameters(layers) == #[trigger] (mlp_parameters(layers.take(k + 1))
                            + more);
                    lemma_first_unsafe_extends(before + this, more, parameter);
                }
                return checked;
            },
            _ => {},
        }
        k = k + 1;
    }
    assert(layers.take(k as int) =~= layers);
    Ok(())
}

/// Checks that every parameter of the model can be negated.
pub fn check_parameter_range(model: &Model) -> (result: Result<(), QuantizationError>)
    ensures
        range_checked(result, parameters(*model)),
{
    match model {
        Model::DecisionTree(tree) => check_tree_range(tree),
        Model::LogisticRegression(lr) => check_logistic_range(lr),
        Model::TinyMLP(mlp) => check_mlp_range(mlp),
    }
}

} // verus!
