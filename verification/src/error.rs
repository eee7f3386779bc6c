//! Why a model is rejected.

use vstd::prelude::*;
use vstd::math::*;
use vstd::string::*;

use crate::binary64::Binary64;
use crate::text;
use crate::wide::{SignedWide, Wide};

verus! {

/// The place of a parameter in a model.
#[derive(Clone, Copy, Debug, PartialEq, Eq, Structural)]
pub enum Parameter {
    /// The threshold of a split node.
    TreeThreshold { node: usize },
    /// The prediction of a leaf node.
    TreeLeaf { node: usize },
    /// A weight of a logistic regression.
    LogisticWeight { index: usize },
    /// The bias of a logistic regression.
    LogisticBias,
    /// A weight of a layer.
    MlpWeight { layer: usize, index: usize },
    /// A bias of a layer.
    MlpBias { layer: usize, index: usize },
}

/// Why a model is rejected.
#[derive(Clone, Debug)]
pub enum QuantizationError {
    /// A parameter whose negation does not fit in `i64`.
    UnsafeParameter { parameter: Parameter },
    /// The worst-case output of a logistic regression is beyond `i64`.
    LogisticOverflow { worst_case: SignedWide },
    /// The worst-case output of a neuron of a dense layer is beyond `i64`.
    DenseOverflow { worst_case: SignedWide },
    /// The worst-case output of the last layer leaves no headroom in `i64`.
    MlpOverflow { layer: usize, output: Binary64 },
    /// Too few predictions agree.
    PoorAgreement { agreement: Binary64, threshold: Binary64 },
}

impl Parameter {
    /// The name of the parameter in messages.
    pub open spec fn name(self) -> Seq<char> {
        match self {
            Parameter::TreeThreshold { node } => "tree node "@ + text::decimal(node as nat)
                + " threshold"@,
            Parameter::TreeLeaf { node } => "tree node "@ + text::decimal(node as nat)
                + " leaf value"@,
            Parameter::LogisticWeight { index } => "logistic regression weight "@ + text::decimal(
                index as nat,
            ),
            Parameter::LogisticBias => "logistic regression bias"@,
            Parameter::MlpWeight { layer, index } => "MLP layer "@ + text::decimal(layer as nat)
                + " weight "@ + text::decimal(index as nat),
            Parameter::MlpBias { layer, index } => "MLP layer "@ + text::decimal(layer as nat)
                + " bias "@ + text::decimal(index as nat),
        }
    }

    /// Appends the name of the parameter.
    fn append_name(self, message: &mut String)
        ensures
            final(message)@ == old(message)@ + self.name(),
    {
        match self {
            Parameter::TreeThreshold { node } => {
                message.append("tree node ");
                text::append_decimal(message, Wide::from_u64(node as u64));
                message.append(" threshold");
            },
            Parameter::TreeLeaf { node } => {
                message.append("tree node ");
                text::append_decimal(message, Wide::from_u64(node as u64));
                message.append(" leaf value");
            },
            Parameter::LogisticWeight { index } => {
                message.append("logistic regression weight ");
                text::append_decimal(message, Wide::from_u64(index as u64));
            },
            Parameter::LogisticBias => {
                message.append("logistic regression bias");
            },
            Parameter::MlpWeight { layer, index } => {
                message.append("MLP layer ");
                text::append_decimal(message, Wide::from_u64(layer as u64));
                message.append(" weight ");
                text::append_decimal(message, Wide::from_u64(index as u64));
            },
            Parameter::MlpBias { layer, index } => {
                message.append("MLP layer ");
                text::append_decimal(message, Wide::from_u64(layer as u64));
                message.append(" bias ");
                text::append_decimal(message, Wide::from_u64(index as u64));
            },
        }
        assert(message@ =~= old(message)@ + self.name());
    }
}

/// What a message says of a worst-case output that is beyond `i64`.
pub open spec fn excess(worst_case: SignedWide) -> Seq<char> {
    if worst_case.negative {
        "-"@ + text::decimal(worst_case.size@) + " is below i64::MIN"@
    } else {
        text::decimal(worst_case.size@) + " exceeds i64::MAX"@
    }
}

/// Appends what a message says of a worst-case output that is beyond `i64`.
fn append_excess(message: &mut String, worst_case: SignedWide)
    ensures
        final(message)@ == old(message)@ + excess(worst_case),
{
    if worst_case.negative {
        message.append("-");
        text::append_decimal(message, worst_case.size);
        message.append(" is below i64::MIN");
    } else {
        text::append_decimal(message, worst_case.size);
        message.append(" exceeds i64::MAX");
    }
    assert(message@ =~= old(message)@ + excess(worst_case));
}

impl QuantizationError {
    /// The message, with the texts of the binary64 numbers that the error holds, in
    /// their order: the output, or the agreement and the threshold in percent.
    pub open spec fn text(self, first: Seq<char>, second: Seq<char>) -> Seq<char> {
        match self {
            QuantizationError::UnsafeParameter { parameter } => "parameter '"@ + parameter.name()
                + "' has value i64::MIN which cannot be safely negated"@,
            QuantizationError::LogisticOverflow { worst_case } =>
                "logistic regression may overflow: worst-case output "@ + excess(worst_case),
            QuantizationError::DenseOverflow { worst_case } =>
                "dense layer may overflow: worst-case output "@ + excess(worst_case),
            QuantizationError::MlpOverflow { layer, .. } => "MLP layer "@ + text::decimal(
                layer as nat,
            ) + " may overflow: output "@ + first + " exceeds safe range"@,
            QuantizationError::PoorAgreement { .. } =>
                "accuracy validation failed: agreement rate "@ + first + "% is below threshold "@
                + second + "%"@,
        }
    }

    /// The message, given the texts of the binary64 numbers that the error holds.
    pub fn message(&self, first: &str, second: &str) -> (message: String)
        ensures
            message@ == self.text(first@, second@),
    {
        let mut message: String = String::new();
        match self {
            QuantizationError::UnsafeParameter { parameter } => {
                message.append("parameter '");
                parameter.append_name(&mut message);
                message.append("' has value i64::MIN which cannot be safely negated");
            },
            QuantizationError::LogisticOverflow { worst_case } => {
                message.append("logistic regression may overflow: worst-case output ");
                append_excess(&mut message, *worst_case);
            },
            QuantizationError::DenseOverflow { worst_case } => {
                message.append("dense layer may overflow: worst-case output ");
                append_excess(&mut message, *worst_case);
            },
            QuantizationError::MlpOverflow { layer, .. } => {
                message.append("MLP layer ");
                text::append_decimal(&mut message, Wide::from_u64(*layer as u64));
                message.append(" may overflow: output ");
                message.append(first);
                message.append(" exceeds safe range");
            },
            QuantizationError::PoorAgreement { .. } => {
                message.append("accuracy validation failed: agreement rate ");
                message.append(first);
                message.append("% is below threshold ");
                message.append(second);
                message.append("%");
            },
        }
        assert(message@ =~= self.text(first@, second@));
        message
    }
}

/// A message on a worst-case output says by its sign on which side of `i64` it lies, and
/// gives its size in full.
pub proof fn overflow_messages_tell_the_output(
    worst_case: SignedWide,
    first: Seq<char>,
    second: Seq<char>,
)
    requires
        worst_case.negative ==> worst_case.size@ > 0,
    ensures
        ({
            let size = text::decimal(abs(worst_case@));
            let told = if worst_case@ < 0 {
                "-"@ + size + " is below i64::MIN"@
            } else {
                size + " exceeds i64::MAX"@
            };
            &&& (QuantizationError::LogisticOverflow { worst_case }).text(first, second)
                == "logistic regression may overflow: worst-case output "@ + told
            &&& (QuantizationError::DenseOverflow { worst_case }).text(first, second)
                == "dense layer may overflow: worst-case output "@ + told
        }),
{
}

/// A message names the parameter, the layer or the rates that it is about.
pub proof fn messages_tell_what_they_are_about(
    layer: usize,
    index: usize,
    error: QuantizationError,
    first: Seq<char>,
    second: Seq<char>,
)
    ensures
        (Parameter::TreeThreshold { node: index }).name() == "tree node "@ + text::decimal(
            index as nat,
        ) + " threshold"@,
        (Parameter::TreeLeaf { node: index }).name() == "tree node "@ + text::decimal(index as nat)
            + " leaf value"@,
        (Parameter::LogisticWeight { index }).name() == "logistic regression weight "@
            + text::decimal(index as nat),
        Parameter::LogisticBias.name() == "logistic regression bias"@,
        (Parameter::MlpWeight { layer, index }).name() == "MLP layer "@ + text::decimal(
            layer as nat,
        ) + " weight "@ + text::decimal(index as nat),
        (Parameter::MlpBias { layer, index }).name() == "MLP layer "@ + text::decimal(layer as nat)
            + " bias "@ + text::decimal(index as nat),
        error matches QuantizationError::UnsafeParameter { parameter } ==> error.text(first, second)
            == "parameter '"@ + parameter.name()
            + "' has value i64::MIN which cannot be safely negated"@,
        error matches QuantizationError::MlpOverflow { layer: at, .. } ==> error.text(first, second)
            == "MLP layer "@ + text::decimal(at as nat) + " may overflow: output "@ + first
            + " exceeds safe range"@,
        error is PoorAgreement ==> error.text(first, second)
            == "accuracy validation failed: agreement rate "@ + first + "% is below threshold "@
            + second + "%"@,
{
}

} // verus!
