use ferrum_ai::image_handling::split_channels;
use ferrum_ai::network::{
    epoch_decision, fit_strategy, ActivationFunction, ConfigError, EpochDecision, FitError,
    FitStrategy, NetworkTopology, TargetKind, TargetSpec,
};

#[test]
fn topology_holds_every_layer_width() {
    let target = TargetSpec { kind: TargetKind::Floats, target_indices: vec![0] };
    let acts = vec![ActivationFunction::Tanh, ActivationFunction::Tanh];
    let t = NetworkTopology::new(3, &vec![4], &acts, &target).unwrap();
    assert_eq!(t.layer_width, vec![3, 4, 1]);
    assert_eq!(t.output_width(), 1);
    assert_eq!(t.buffer_widths(), vec![4, 1]);
    assert_eq!(t.weight_shapes(), vec![(4, 3), (1, 4)]);
}

#[test]
fn multi_target_widens_the_output_layer() {
    let target = TargetSpec { kind: TargetKind::Floats, target_indices: vec![0, 2, 5] };
    let acts = vec![
        ActivationFunction::Sigmoid,
        ActivationFunction::ReLu,
        ActivationFunction::Linear,
    ];
    let t = NetworkTopology::new(8, &vec![6, 4], &acts, &target).unwrap();
    assert_eq!(t.layer_width, vec![8, 6, 4, 3]);
    assert_eq!(t.output_width(), 3);
    assert_eq!(t.buffer_widths(), vec![6, 4, 3]);
}

#[test]
fn construction_rejects_short_activation_list() {
    let target = TargetSpec { kind: TargetKind::Floats, target_indices: vec![0] };
    let acts = vec![ActivationFunction::Tanh, ActivationFunction::Tanh];
    let r = NetworkTopology::new(1, &vec![4, 4], &acts, &target);
    assert!(matches!(r, Err(ConfigError::ActivationCountMismatch)));
}

#[test]
fn construction_rejects_missing_hidden_layers() {
    let target = TargetSpec { kind: TargetKind::Category, target_indices: vec![0] };
    let acts = vec![ActivationFunction::Sigmoid];
    let r = NetworkTopology::new(1, &vec![], &acts, &target);
    assert!(matches!(r, Err(ConfigError::NoHiddenLayers)));
}

#[test]
fn config_errors_carry_messages() {
    assert_eq!(
        ConfigError::NoHiddenLayers.message(),
        "cannot build a network with no hidden layers"
    );
    assert_eq!(
        ConfigError::ActivationCountMismatch.message(),
        "one activation function per non-input layer is required"
    );
}

#[test]
fn fit_strategy_dispatches_on_target_kind() {
    assert_eq!(
        fit_strategy(&TargetKind::Floats, 1),
        Ok(FitStrategy::FloatSingle)
    );
    assert_eq!(
        fit_strategy(&TargetKind::Category, 1),
        Ok(FitStrategy::CategorySingle)
    );
    assert_eq!(
        fit_strategy(&TargetKind::Strings, 1),
        Err(FitError::StringTargetUnsupported)
    );
    assert_eq!(
        fit_strategy(&TargetKind::Floats, 3),
        Err(FitError::MultiTaskUnsupported)
    );
}

#[test]
fn epoch_decision_follows_the_stopping_rule() {
    assert_eq!(epoch_decision(0, 50, true), EpochDecision::ReachedLeastCost);
    assert_eq!(epoch_decision(0, 50, false), EpochDecision::Continue);
    assert_eq!(epoch_decision(49, 50, false), EpochDecision::BudgetExhausted);
    assert_eq!(epoch_decision(49, 50, true), EpochDecision::ReachedLeastCost);
}

#[test]
fn split_channels_separates_components() {
    let image = vec![
        vec![(1u8, 2u8, 3u8), (4u8, 5u8, 6u8)],
        vec![(7u8, 8u8, 9u8), (10u8, 11u8, 12u8)],
    ];
    let (r, g, b) = split_channels(&image);
    assert_eq!(r, vec![vec![1, 4], vec![7, 10]]);
    assert_eq!(g, vec![vec![2, 5], vec![8, 11]]);
    assert_eq!(b, vec![vec![3, 6], vec![9, 12]]);
}
