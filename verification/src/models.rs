//! Fixed-point numbers and the models whose parameters they are.

use vstd::prelude::*;

verus! {

/// Two to the power of sixteen, the number of fractional bits of a quantized
/// parameter.
pub const SCALE_FACTOR: u64 = 0x1_0000;

/// A fixed-point number: `value` parts of two to the power of `scale`.
#[derive(Clone, Copy, Debug, PartialEq, Eq, Structural)]
pub struct FixedPoint {
    pub value: i64,
    pub scale: u32,
}

impl FixedPoint {
    /// The fixed-point number of the given parts.
    pub fn from_raw(value: i64, scale: u32) -> (number: FixedPoint)
        ensures
            number.value == value,
            number.scale == scale,
    {
        FixedPoint { value, scale }
    }
}

/// A node of a decision tree.
#[derive(Clone, Debug)]
pub enum TreeNode {
    /// Goes to the node `left` or `right` by comparing a feature with a threshold.
    Split { feature_index: usize, threshold: FixedPoint, left: usize, right: usize },
    /// Ends with a prediction.
    Leaf { value: FixedPoint },
}

/// A decision tree, its nodes in one vector.
#[derive(Clone, Debug)]
pub struct DecisionTree {
    pub num_features: usize,
    pub nodes: Vec<TreeNode>,
}

/// A logistic regression.
#[derive(Clone, Debug)]
pub struct LogisticRegression {
    pub weights: Vec<FixedPoint>,
    pub bias: FixedPoint,
}

/// A dense layer; `weights` holds one row of `input_size` weights per output.
#[derive(Clone, Debug)]
pub struct DenseLayer {
    pub weights: Vec<FixedPoint>,
    pub biases: Vec<FixedPoint>,
    pub input_size: usize,
    pub output_size: usize,
}

/// A perceptron of dense layers with a rectifier between them.
#[derive(Clone, Debug)]
pub struct TinyMLP {
    pub layers: Vec<DenseLayer>,
}

/// A model of one of the supported kinds.
#[derive(Clone, Debug)]
pub enum Model {
    DecisionTree(DecisionTree),
    LogisticRegression(LogisticRegression),
    TinyMLP(TinyMLP),
}

impl DenseLayer {
    /// Every output has its row of weights and its bias.
    pub open spec fn well_formed(&self) -> bool {
        &&& self.output_size * self.input_size <= self.weights.len()
        &&& self.output_size <= self.biases.len()
    }

    /// The weights of the output `j`.
    pub open spec fn row(&self, j: int) -> Seq<FixedPoint> {
        self.weights@.subrange(j * self.input_size, j * self.input_size + self.input_size)
    }

    /// Whether every output has its row of weights and its bias.
    pub fn is_well_formed(&self) -> (yes: bool)
        ensures
            yes == self.well_formed(),
    {
        match self.output_size.checked_mul(self.input_size) {
            Some(needed) => needed <= self.weights.len() && self.output_size <= self.biases.len(),
            None => false,
        }
    }
}

impl TinyMLP {
    /// Every layer is well formed.
    pub open spec fn well_formed(&self) -> bool {
        forall|k: int| 0 <= k < self.layers@.len() ==> (#[trigger] self.layers@[k]).well_formed()
    }

    /// Whether every layer is well formed.
    pub fn is_well_formed(&self) -> (yes: bool)
        ensures
            yes == self.well_formed(),
    {
        let mut k: usize = 0;
        while k < self.layers.len()
            invariant
                k <= self.layers@.len(),
                forall|i: int| 0 <= i < k ==> (#[trigger] self.layers@[i]).well_formed(),
            decreases self.layers@.len() - k,
        {
            if !self.layers[k].is_well_formed() {
                assert(!self.layers@[k as int].well_formed());
                return false;
            }
            k = k + 1;
        }
        true
    }
}

impl Model {
    /// Every dense layer is well formed.
    pub open spec fn well_formed(&self) -> bool {
        self matches Model::TinyMLP(mlp) ==> mlp.well_formed()
    }

    /// Whether every dense layer is well formed.
    pub fn is_well_formed(&self) -> (yes: bool)
        ensures
            yes == self.well_formed(),
    {
        match self {
            Model::TinyMLP(mlp) => mlp.is_well_formed(),
            _ => true,
        }
    }
}

} // verus!
