use zkml_prover::binary64::Binary64;
use zkml_prover::error::{Parameter, QuantizationError};
use zkml_prover::models::{
    DecisionTree, DenseLayer, FixedPoint, LogisticRegression, Model, TinyMLP, TreeNode,
};
use zkml_prover::overflow::{
    check_dense_layer_overflow_bounds, check_logistic_overflow_bounds, check_mlp_overflow_bounds,
    check_overflow_bounds,
};
use zkml_prover::quantization::{
    validate_accuracy, validate_model, Prediction, QuantizationConfig,
};
use zkml_prover::range::{check_fixed_point_range, check_parameter_range};

fn binary64(x: f64) -> Binary64 {
    Binary64 { bits: x.to_bits() }
}

fn float(x: Binary64) -> f64 {
    f64::from_bits(x.bits)
}

fn quantize(x: f64) -> FixedPoint {
    FixedPoint::from_raw((x * 65536.0).round() as i64, 16)
}

fn dequantize(x: FixedPoint) -> f64 {
    x.value as f64 / 65536.0
}

fn config(max_input_magnitude: f64, min_agreement: f64) -> QuantizationConfig {
    QuantizationConfig {
        max_input_magnitude: binary64(max_input_magnitude),
        min_agreement: binary64(min_agreement),
    }
}

/// The linear score of a logistic regression in fixed-point arithmetic.
fn score(lr: &LogisticRegression, inputs: &[f64]) -> f64 {
    let mut sum: i128 = 0;
    for (w, x) in lr.weights.iter().zip(inputs.iter()) {
        sum += w.value as i128 * quantize(*x).value as i128;
    }
    dequantize(FixedPoint::from_raw((sum >> 16) as i64 + lr.bias.value, 16))
}

fn predictions(lr: &LogisticRegression, dataset: &[(Vec<f64>, f64)]) -> Vec<Prediction> {
    dataset
        .iter()
        .map(|(inputs, expected)| Prediction {
            quantized: binary64(score(lr, inputs)),
            expected: binary64(*expected),
        })
        .collect()
}

fn constant_predictions(pairs: &[(f64, f64)]) -> Vec<Prediction> {
    pairs
        .iter()
        .map(|(q, e)| Prediction { quantized: binary64(*q), expected: binary64(*e) })
        .collect()
}

fn message(error: &QuantizationError) -> String {
    match error {
        QuantizationError::MlpOverflow { output, .. } => {
            error.message(&format!("{}", float(*output)), "")
        }
        QuantizationError::PoorAgreement { agreement, threshold } => error.message(
            &format!("{:.2}", float(*agreement) * 100.0),
            &format!("{:.2}", float(*threshold) * 100.0),
        ),
        _ => error.message("", ""),
    }
}

fn layer(input_size: usize, output_size: usize, weight: i64, bias: i64) -> DenseLayer {
    DenseLayer {
        weights: vec![FixedPoint::from_raw(weight, 16); input_size * output_size],
        biases: vec![FixedPoint::from_raw(bias, 16); output_size],
        input_size,
        output_size,
    }
}

#[test]
fn range_check_rejects_i64_min() {
    let lr = LogisticRegression {
        weights: vec![FixedPoint::from_raw(i64::MIN, 16)],
        bias: quantize(0.0),
    };
    let model = Model::LogisticRegression(lr);
    let result = check_parameter_range(&model);
    assert!(result.is_err());
}

#[test]
fn overflow_bounds_rejects_huge_weights() {
    let huge_weight = FixedPoint::from_raw(i64::MAX / 2, 16);
    let lr = LogisticRegression { weights: vec![huge_weight; 1000], bias: quantize(0.0) };
    let model = Model::LogisticRegression(lr);
    let cfg = config(10.0, 0.99);
    let result = check_overflow_bounds(&model, &cfg);
    assert!(result.is_err());
}

#[test]
fn overflow_bounds_accepts_reasonable_model() {
    let lr = LogisticRegression { weights: vec![quantize(0.5); 10], bias: quantize(0.1) };
    let model = Model::LogisticRegression(lr);
    let cfg = config(1.0, 0.99);
    let result = check_overflow_bounds(&model, &cfg);
    assert!(result.is_ok());
}

#[test]
fn decision_tree_trivially_safe() {
    let tree = DecisionTree {
        num_features: 2,
        nodes: vec![
            TreeNode::Split { feature_index: 0, threshold: quantize(0.5), left: 1, right: 2 },
            TreeNode::Leaf { value: quantize(0.0) },
            TreeNode::Leaf { value: quantize(1.0) },
        ],
    };
    let model = Model::DecisionTree(tree);
    let cfg = QuantizationConfig::default();
    let result = check_overflow_bounds(&model, &cfg);
    assert!(result.is_ok());
}

#[test]
fn mlp_overflow_bounds_propagates() {
    let layer1 = DenseLayer {
        weights: vec![quantize(0.3); 10],
        biases: vec![quantize(0.1); 5],
        input_size: 2,
        output_size: 5,
    };
    let layer2 = DenseLayer {
        weights: vec![quantize(0.2); 5],
        biases: vec![quantize(0.0)],
        input_size: 5,
        output_size: 1,
    };
    let mlp = TinyMLP { layers: vec![layer1, layer2] };
    let model = Model::TinyMLP(mlp);
    let cfg = config(1.0, 0.99);
    let result = check_overflow_bounds(&model, &cfg);
    assert!(result.is_ok());
}

#[test]
fn accuracy_validation_passes_with_good_model() {
    let lr = LogisticRegression { weights: vec![quantize(1.0)], bias: quantize(0.0) };
    let dataset = vec![(vec![0.5], 0.5), (vec![1.0], 1.0), (vec![-0.5], -0.5)];
    let cfg = config(1.0, 0.99);
    let result = validate_accuracy(&predictions(&lr, &dataset), &cfg);
    assert!(result.is_ok());
    let report = result.unwrap();
    assert_eq!(report.count, 3);
    assert!(float(report.agreement) >= 0.99);
}

#[test]
fn accuracy_validation_fails_with_poor_agreement() {
    let tiny_weight = quantize(0.0001);
    let lr = LogisticRegression { weights: vec![tiny_weight], bias: quantize(0.0) };
    let dataset = vec![(vec![1000.0], 0.1), (vec![2000.0], 0.2), (vec![3000.0], 0.3)];
    let cfg = config(3000.0, 0.99);
    let result = validate_accuracy(&predictions(&lr, &dataset), &cfg);
    assert!(result.is_err());
}

#[test]
fn full_validation_passes() {
    let lr = LogisticRegression { weights: vec![quantize(0.5); 5], bias: quantize(0.1) };
    let dataset = vec![
        (vec![0.1, 0.2, 0.3, 0.4, 0.5], 0.85),
        (vec![0.0, 0.0, 0.0, 0.0, 0.0], 0.1),
    ];
    let cfg = config(1.0, 0.5);
    let samples = predictions(&lr, &dataset);
    let model = Model::LogisticRegression(lr);
    let result = validate_model(&model, &cfg, &samples);
    assert!(result.is_ok());
}

#[test]
fn quantization_config_default() {
    let cfg = QuantizationConfig::default();
    assert_eq!(float(cfg.max_input_magnitude), 1.0);
    assert_eq!(float(cfg.min_agreement), 0.99);
}

#[test]
fn every_parameter_is_named() {
    assert!(check_fixed_point_range(&(i64::MIN + 1), Parameter::LogisticBias).is_ok());
    let cases = vec![
        (Parameter::TreeThreshold { node: 0 }, "tree node 0 threshold"),
        (Parameter::TreeLeaf { node: 12 }, "tree node 12 leaf value"),
        (Parameter::LogisticWeight { index: 7 }, "logistic regression weight 7"),
        (Parameter::LogisticBias, "logistic regression bias"),
        (Parameter::MlpWeight { layer: 1, index: 203 }, "MLP layer 1 weight 203"),
        (Parameter::MlpBias { layer: 10, index: 0 }, "MLP layer 10 bias 0"),
    ];
    for (parameter, name) in cases {
        let error = check_fixed_point_range(&i64::MIN, parameter).unwrap_err();
        assert_eq!(
            message(&error),
            format!(
                "parameter '{}' has value i64::MIN which cannot be safely negated",
                name
            )
        );
    }
}

#[test]
fn first_unsafe_parameter_is_reported() {
    let min = FixedPoint::from_raw(i64::MIN, 16);
    let tree = DecisionTree {
        num_features: 1,
        nodes: vec![
            TreeNode::Split { feature_index: 0, threshold: quantize(0.5), left: 1, right: 2 },
            TreeNode::Leaf { value: min },
            TreeNode::Split { feature_index: 0, threshold: min, left: 1, right: 1 },
        ],
    };
    let error = check_parameter_range(&Model::DecisionTree(tree)).unwrap_err();
    assert!(matches!(
        error,
        QuantizationError::UnsafeParameter { parameter: Parameter::TreeLeaf { node: 1 } }
    ));

    let mut lr = LogisticRegression { weights: vec![quantize(1.0); 3], bias: min };
    let error = check_parameter_range(&Model::LogisticRegression(lr.clone())).unwrap_err();
    assert!(matches!(
        error,
        QuantizationError::UnsafeParameter { parameter: Parameter::LogisticBias }
    ));
    lr.weights[2] = min;
    let error = check_parameter_range(&Model::LogisticRegression(lr)).unwrap_err();
    assert!(matches!(
        error,
        QuantizationError::UnsafeParameter { parameter: Parameter::LogisticWeight { index: 2 } }
    ));

    let mut second = layer(2, 2, 5, 5);
    second.biases[1] = min;
    let mut third = layer(2, 1, 5, 5);
    third.weights[0] = min;
    let mut mlp = TinyMLP { layers: vec![layer(2, 2, 5, 5), second, third] };
    let error = check_parameter_range(&Model::TinyMLP(mlp.clone())).unwrap_err();
    assert!(matches!(
        error,
        QuantizationError::UnsafeParameter { parameter: Parameter::MlpBias { layer: 1, index: 1 } }
    ));
    mlp.layers[1].biases[1] = quantize(1.0);
    let error = check_parameter_range(&Model::TinyMLP(mlp.clone())).unwrap_err();
    assert!(matches!(
        error,
        QuantizationError::UnsafeParameter {
            parameter: Parameter::MlpWeight { layer: 2, index: 0 }
        }
    ));
    mlp.layers[2].weights[0] = quantize(1.0);
    assert!(check_parameter_range(&Model::TinyMLP(mlp)).is_ok());
}

#[test]
fn logistic_bound_is_exact() {
    // The weights alone come to i64::MAX, rounded down, and then one part more.
    let mut lr = LogisticRegression {
        weights: vec![
            FixedPoint::from_raw(1 << 62, 16),
            FixedPoint::from_raw(-((1 << 62) - 1), 16),
        ],
        bias: FixedPoint::from_raw(0, 16),
    };
    assert!(check_logistic_overflow_bounds(&lr, binary64(1.0)).is_ok());
    lr.bias = FixedPoint::from_raw(-1, 16);
    let error = check_logistic_overflow_bounds(&lr, binary64(1.0)).unwrap_err();
    assert_eq!(
        message(&error),
        "logistic regression may overflow: worst-case output 9223372036854775808 exceeds i64::MAX"
    );
}

#[test]
fn the_bias_counts_in_full() {
    let lr = LogisticRegression {
        weights: vec![FixedPoint::from_raw(4611686018427387904, 16)],
        bias: FixedPoint::from_raw(4611686018427387904, 16),
    };
    let error = check_logistic_overflow_bounds(&lr, binary64(1.0)).unwrap_err();
    assert_eq!(
        message(&error),
        "logistic regression may overflow: worst-case output 9223372036854775808 exceeds i64::MAX"
    );
    let mlp = TinyMLP { layers: vec![layer(1, 1, 0, 1 << 62)] };
    assert!(matches!(
        check_mlp_overflow_bounds(&mlp, binary64(1.0)),
        Err(QuantizationError::MlpOverflow { layer: 0, .. })
    ));
}

#[test]
fn bounds_are_handed_on_exactly() {
    let weights = [((1 << 62) + 511, 0), (131071, (1 << 62) - 1), (0, 0)];
    let layers: Vec<DenseLayer> = weights.iter().map(|(w, b)| layer(1, 1, *w, *b)).collect();
    let mlp = TinyMLP { layers };
    let error = check_mlp_overflow_bounds(&mlp, binary64(1.0)).unwrap_err();
    // 131071 parts of the bound of the first layer, and the bias of the second.
    let worst: i128 = (((1i128 << 62) + 511) * 131071 >> 16) + ((1i128 << 62) - 1);
    assert_eq!(
        message(&error),
        format!("dense layer may overflow: worst-case output {} exceeds i64::MAX", worst)
    );
}

#[test]
fn accepted_regressions_do_not_overflow() {
    let lr = LogisticRegression {
        weights: vec![
            FixedPoint::from_raw(1 << 61, 16),
            FixedPoint::from_raw(-(1 << 61), 16),
        ],
        bias: FixedPoint::from_raw(-(1 << 62) + 1, 16),
    };
    assert!(check_logistic_overflow_bounds(&lr, binary64(1.0)).is_ok());
    for x in [-65536i128, -1, 0, 1, 65536] {
        for y in [-65536i128, -1, 0, 1, 65536] {
            let sum = lr.weights[0].value as i128 * x + lr.weights[1].value as i128 * y;
            assert!(i64::try_from((sum >> 16) + lr.bias.value as i128).is_ok());
        }
    }
}

#[test]
fn logistic_bound_beyond_128_bits() {
    let lr = LogisticRegression {
        weights: vec![FixedPoint::from_raw(i64::MAX, 16); 8],
        bias: FixedPoint::from_raw(0, 16),
    };
    let error = check_logistic_overflow_bounds(&lr, binary64(f64::INFINITY)).unwrap_err();
    // Eight times the square of i64::MAX, shifted right by sixteen.
    assert_eq!(
        message(&error),
        "logistic regression may overflow: worst-case output \
         10384593717069655254809192844754944 exceeds i64::MAX"
    );
}

#[test]
fn negative_and_undefined_magnitudes() {
    let lr = LogisticRegression {
        weights: vec![FixedPoint::from_raw(i64::MAX, 16); 8],
        bias: FixedPoint::from_raw(i64::MAX, 16),
    };
    assert!(check_logistic_overflow_bounds(&lr, binary64(f64::NAN)).is_ok());
    assert!(check_logistic_overflow_bounds(&lr, binary64(-0.0)).is_ok());
    let error = check_logistic_overflow_bounds(&lr, binary64(-1.0e30)).unwrap_err();
    assert!(matches!(error, QuantizationError::LogisticOverflow { .. }));
    assert_eq!(
        message(&error),
        "logistic regression may overflow: worst-case output \
         -10384593717069646032563055896821761 is below i64::MIN"
    );
}

#[test]
fn sums_below_the_least_integer_are_rejected() {
    let weight: i64 = 1 << 62;
    let lr = |bias: i64| LogisticRegression {
        weights: vec![FixedPoint::from_raw(weight, 16)],
        bias: FixedPoint::from_raw(bias, 16),
    };
    let error = check_dense_layer_overflow_bounds(binary64(-4.0), &layer(1, 1, weight, 0));
    assert_eq!(
        message(&error.unwrap_err()),
        "dense layer may overflow: worst-case output -18446744073709551616 is below i64::MIN"
    );
    let error = check_logistic_overflow_bounds(&lr(0), binary64(-4.0)).unwrap_err();
    assert_eq!(
        message(&error),
        "logistic regression may overflow: worst-case output \
         -18446744073709551616 is below i64::MIN"
    );
    let mlp = TinyMLP { layers: vec![layer(1, 1, weight, 0), layer(1, 1, 1, 0)] };
    assert!(matches!(
        check_mlp_overflow_bounds(&mlp, binary64(-4.0)),
        Err(QuantizationError::DenseOverflow { .. })
    ));
    // The least integer itself fits; one part below it does not, but for the bias.
    let bound = check_dense_layer_overflow_bounds(binary64(-2.0), &layer(1, 1, weight, 0));
    assert_eq!(float(bound.unwrap()), i64::MIN as f64 / 65536.0);
    assert!(check_logistic_overflow_bounds(&lr(0), binary64(-2.0)).is_ok());
    let below = -2.0 - 1.0 / 65536.0;
    assert!(check_dense_layer_overflow_bounds(binary64(below), &layer(1, 1, weight, 0)).is_err());
    assert!(check_logistic_overflow_bounds(&lr(0), binary64(below)).is_err());
    assert!(check_logistic_overflow_bounds(&lr(-(1 << 46)), binary64(below)).is_ok());
}

#[test]
fn infinite_magnitudes_of_either_sign_agree() {
    let one = LogisticRegression {
        weights: vec![FixedPoint::from_raw(65536, 16)],
        bias: FixedPoint::from_raw(0, 16),
    };
    assert!(check_logistic_overflow_bounds(&one, binary64(f64::INFINITY)).is_ok());
    assert!(check_logistic_overflow_bounds(&one, binary64(f64::NEG_INFINITY)).is_ok());
}

#[test]
fn dense_bound_is_the_largest_output() {
    let dense = DenseLayer {
        weights: vec![
            FixedPoint::from_raw(65536, 16),
            FixedPoint::from_raw(-65536, 16),
            FixedPoint::from_raw(131072, 16),
            FixedPoint::from_raw(-196608, 16),
        ],
        biases: vec![FixedPoint::from_raw(0, 16), FixedPoint::from_raw(-65536, 16)],
        input_size: 2,
        output_size: 2,
    };
    let bound = check_dense_layer_overflow_bounds(binary64(2.0), &dense).unwrap();
    // (2 + 3) * 2 and the bias.
    assert_eq!(float(bound), 11.0);
    let only_bias = layer(1, 1, 0, 65536);
    let bound = check_dense_layer_overflow_bounds(binary64(1.0), &only_bias).unwrap();
    assert_eq!(float(bound), 1.0);
    let bound = check_dense_layer_overflow_bounds(binary64(-2.0), &dense).unwrap();
    assert_eq!(float(bound), -4.0);
    let empty = layer(3, 0, 1, 1);
    let bound = check_dense_layer_overflow_bounds(binary64(1.0), &empty).unwrap();
    assert_eq!(float(bound), i64::MIN as f64 / 65536.0);
    let deep = layer(4, 1, i64::MAX, 0);
    let error = check_dense_layer_overflow_bounds(binary64(f64::NEG_INFINITY), &deep).unwrap_err();
    assert_eq!(
        message(&error),
        "dense layer may overflow: worst-case output \
         -5192296858534827627967546375798784 is below i64::MIN"
    );
}

#[test]
fn dense_overflow_is_rejected() {
    let dense = layer(4, 2, 1 << 62, 0);
    let error = check_dense_layer_overflow_bounds(binary64(0.5), &dense).unwrap_err();
    assert_eq!(
        message(&error),
        "dense layer may overflow: worst-case output 9223372036854775808 exceeds i64::MAX"
    );
    let mlp = TinyMLP { layers: vec![layer(4, 4, 1 << 62, 0), layer(4, 1, 1, 0)] };
    let error = check_mlp_overflow_bounds(&mlp, binary64(0.5)).unwrap_err();
    assert!(matches!(error, QuantizationError::DenseOverflow { .. }));
}

#[test]
fn last_layer_needs_headroom() {
    let fits = TinyMLP { layers: vec![layer(1, 1, (1 << 62) - 1, 0)] };
    // The bound is rounded to 53 bits, which takes it to two to the power of 62.
    let error = check_mlp_overflow_bounds(&fits, binary64(1.0)).unwrap_err();
    assert_eq!(
        message(&error),
        "MLP layer 0 may overflow: output 70368744177664 exceeds safe range"
    );
    let fits = TinyMLP { layers: vec![layer(1, 1, (1 << 62) - 512, 0)] };
    assert!(check_mlp_overflow_bounds(&fits, binary64(1.0)).is_ok());
    let hidden = TinyMLP { layers: vec![layer(1, 1, 1 << 62, 0), layer(1, 1, 1, 0)] };
    assert!(check_mlp_overflow_bounds(&hidden, binary64(1.0)).is_ok());
    let last = TinyMLP { layers: vec![layer(1, 1, 65536, 0), layer(1, 1, 5 << 60, 0)] };
    let error = check_mlp_overflow_bounds(&last, binary64(1.0)).unwrap_err();
    assert_eq!(
        message(&error),
        format!(
            "MLP layer 1 may overflow: output {} exceeds safe range",
            (5i64 << 60) as f64 / 65536.0
        )
    );
    let none = TinyMLP { layers: vec![] };
    assert!(check_mlp_overflow_bounds(&none, binary64(1.0)).is_ok());
}

#[test]
fn bounds_are_rectified_between_layers() {
    // The bound of the first layer is negative, so the second sees no input at all.
    let mlp = TinyMLP { layers: vec![layer(1, 1, 65536, 0), layer(1, 1, i64::MAX, 7)] };
    assert!(check_mlp_overflow_bounds(&mlp, binary64(-3.0)).is_ok());
    assert!(check_mlp_overflow_bounds(&mlp, binary64(3.0)).is_err());
}

#[test]
fn larger_magnitudes_are_harder() {
    let lr = LogisticRegression { weights: vec![quantize(1.0e9); 4], bias: quantize(1.0) };
    let mut accepted = true;
    let mut magnitude = 1.0;
    for _ in 0..60 {
        let now = check_logistic_overflow_bounds(&lr, binary64(magnitude)).is_ok();
        assert!(accepted || !now);
        accepted = now;
        magnitude *= 2.0;
    }
    assert!(!accepted);
}

#[test]
fn shapes_are_recognised() {
    let mut dense = layer(3, 2, 1, 1);
    assert!(dense.is_well_formed());
    dense.biases.pop();
    assert!(!dense.is_well_formed());
    dense = layer(3, 2, 1, 1);
    dense.weights.pop();
    assert!(!dense.is_well_formed());
    dense.input_size = usize::MAX;
    assert!(!dense.is_well_formed());
    let model = Model::TinyMLP(TinyMLP { layers: vec![layer(1, 1, 1, 1), dense] });
    assert!(!model.is_well_formed());
    let model = Model::TinyMLP(TinyMLP { layers: vec![layer(1, 1, 1, 1)] });
    assert!(model.is_well_formed());
}

#[test]
fn empty_dataset_is_accepted() {
    let report = validate_accuracy(&[], &config(1.0, 2.0)).unwrap();
    assert_eq!(report.count, 0);
    assert_eq!(float(report.max_error), 0.0);
    assert_eq!(float(report.mean_deviation), 0.0);
    assert_eq!(float(report.agreement), 1.0);
}

#[test]
fn report_holds_what_was_measured() {
    let pairs = [(0.5, 0.5), (1.0, 1.25), (-2.0, -1.5), (3.00005, 3.0), (0.1, 0.3)];
    let samples = constant_predictions(&pairs);
    let report = validate_accuracy(&samples, &config(1.0, 0.4)).unwrap();
    let mut total: f64 = 0.0;
    let mut max: f64 = 0.0;
    let mut agreeing = 0;
    for (q, e) in pairs.iter() {
        let deviation: f64 = (q - e).abs();
        total += deviation;
        max = max.max(deviation);
        if deviation < 1e-4 {
            agreeing += 1;
        }
    }
    assert_eq!(agreeing, 2);
    assert_eq!(report.count, 5);
    assert_eq!(float(report.max_error), max);
    assert_eq!(float(report.max_error), 0.5);
    assert_eq!(float(report.mean_deviation), total / 5.0);
    assert_eq!(float(report.agreement), 0.4);
    let error = validate_accuracy(&samples, &config(1.0, 0.995)).unwrap_err();
    assert_eq!(
        message(&error),
        "accuracy validation failed: agreement rate 40.00% is below threshold 99.50%"
    );
}

#[test]
fn undefined_deviations_never_agree() {
    let pairs = [(f64::NAN, 1.0), (1.0, 1.0), (f64::INFINITY, f64::INFINITY)];
    let samples = constant_predictions(&pairs);
    let report = validate_accuracy(&samples, &config(1.0, 0.3)).unwrap();
    assert_eq!(float(report.max_error), 0.0);
    assert!(float(report.mean_deviation).is_nan());
    assert_eq!(float(report.agreement), 1.0 / 3.0);
    // A threshold that is not a number is never missed.
    assert!(validate_accuracy(&samples, &config(1.0, f64::NAN)).is_ok());
}

#[test]
fn perfect_agreement_is_one() {
    for n in 1..200 {
        let samples = vec![
            Prediction { quantized: binary64(0.7), expected: binary64(0.70001) };
            n
        ];
        let report = validate_accuracy(&samples, &config(1.0, 1.0)).unwrap();
        assert_eq!(report.agreement.bits, 1.0f64.to_bits());
    }
}

#[test]
fn checks_come_in_order() {
    let good = constant_predictions(&[(1.0, 1.0)]);
    let bad = constant_predictions(&[(1.0, 2.0)]);
    let cfg = config(10.0, 0.99);
    let huge = FixedPoint::from_raw(i64::MAX, 16);
    let unsafe_and_huge = Model::LogisticRegression(LogisticRegression {
        weights: vec![huge; 10],
        bias: FixedPoint::from_raw(i64::MIN, 16),
    });
    assert!(matches!(
        validate_model(&unsafe_and_huge, &cfg, &bad),
        Err(QuantizationError::UnsafeParameter { parameter: Parameter::LogisticBias })
    ));
    let only_huge = Model::LogisticRegression(LogisticRegression {
        weights: vec![huge; 10],
        bias: quantize(0.0),
    });
    assert!(matches!(
        validate_model(&only_huge, &cfg, &bad),
        Err(QuantizationError::LogisticOverflow { .. })
    ));
    let fine = Model::LogisticRegression(LogisticRegression {
        weights: vec![quantize(1.0)],
        bias: quantize(0.0),
    });
    assert!(matches!(
        validate_model(&fine, &cfg, &bad),
        Err(QuantizationError::PoorAgreement { .. })
    ));
    assert!(validate_model(&fine, &cfg, &good).is_ok());
    // The range check comes before anything that needs a well formed layer.
    let mut dense = layer(2, 2, i64::MIN, 0);
    dense.biases.pop();
    let ill_formed = Model::TinyMLP(TinyMLP { layers: vec![dense] });
    assert!(matches!(
        validate_model(&ill_formed, &cfg, &good),
        Err(QuantizationError::UnsafeParameter {
            parameter: Parameter::MlpWeight { layer: 0, index: 0 }
        })
    ));
}
