//! The structural layer of a dense feed-forward network: the closed sets of
//! activation functions, cost functions and output maps; topology building
//! and validation; the shape of the forward state; the choice of training
//! strategy for a target kind; and the stopping rule of the training loop.
//! The floating-point evaluation itself lives outside this crate.

use vstd::prelude::*;

verus! {

/// The activation functions a layer can use. The leaky rectifier's slope is
/// not part of this enumeration; the network that evaluates it carries the
/// slope as a field of its own.
#[derive(Clone, Copy, Debug, PartialEq, Eq, Structural)]
pub enum ActivationFunction {
    /// The identity.
    Linear,
    /// The logistic function.
    Sigmoid,
    /// Rectification: the value, or zero when it is negative.
    ReLu,
    /// The hyperbolic tangent.
    Tanh,
    /// One for a non-negative value, zero otherwise.
    BinaryStep,
    /// The softplus function.
    SoftPlus,
    /// Rectification with a small slope on the negative side.
    LeakyReLU,
}

/// The cost functions a network can train against.
#[derive(Clone, Copy, Debug, PartialEq, Eq, Structural)]
pub enum CostFunction {
    /// Mean squared error.
    MSE,
    /// Binary cross entropy.
    BCE,
    /// Categorical cross entropy.
    CCE,
    /// Mean absolute error.
    MAE,
}

/// How raw output-layer values become a discrete prediction. Neither map
/// takes part in gradient computation.
#[derive(Clone, Copy, Debug, PartialEq, Eq, Structural)]
pub enum OutputMap {
    /// The shifted exponentials of the values, unnormalised.
    SoftMax,
    /// The largest value and its first index.
    ArgMax,
}

/// The pooling methods of the convolution pipeline; the fields are the
/// pool's dimension and its stride.
#[derive(Clone, Copy, Debug, PartialEq, Eq, Structural)]
pub enum Pool {
    Max(u32, u32),
    Min(u32, u32),
    Avg(u32, u32),
}

/// The declared kind of a ground-truth column.
#[derive(Clone, Copy, Debug, PartialEq, Eq, Structural)]
pub enum TargetKind {
    /// Nominal string labels.
    Strings,
    /// Continuous values.
    Floats,
    /// Categorical labels held as small integers.
    Category,
}

/// Which columns hold the ground truth, and what kind they are.
pub struct TargetSpec {
    pub kind: TargetKind,
    pub target_indices: Vec<usize>,
}

impl TargetSpec {
    /// The output width the target asks for: one output unit per continuous
    /// target column, and a single unit for string or categorical targets.
    pub open spec fn spec_output_width(self) -> usize {
        match self.kind {
            TargetKind::Floats => self.target_indices@.len() as usize,
            _ => 1,
        }
    }

    /// The width of the output layer this target needs.
    pub fn output_width(&self) -> (r: usize)
        ensures
            r == self.spec_output_width(),
    {
        match self.kind {
            TargetKind::Floats => self.target_indices.len(),
            _ => 1,
        }
    }
}

/// Why a network cannot be built from a configuration.
#[derive(Clone, Copy, Debug, PartialEq, Eq, Structural)]
pub enum ConfigError {
    /// No hidden layers were given.
    NoHiddenLayers,
    /// There must be one activation function per non-input layer: one per
    /// hidden layer and one for the output layer.
    ActivationCountMismatch,
}

impl ConfigError {
    /// A short description of the error.
    pub fn message(&self) -> (r: &'static str)
        ensures
            *self == ConfigError::NoHiddenLayers ==> r@ == "cannot build a network with no hidden layers"@,
            *self == ConfigError::ActivationCountMismatch ==> r@
                == "one activation function per non-input layer is required"@,
    {
        match self {
            ConfigError::NoHiddenLayers => "cannot build a network with no hidden layers",
            ConfigError::ActivationCountMismatch => "one activation function per non-input layer is required",
        }
    }
}

/// The ordered layer widths of a network: the input width, each hidden
/// width, and the output width.
pub struct NetworkTopology {
    pub layer_width: Vec<usize>,
}

impl NetworkTopology {
    /// A topology always has at least an input and an output layer.
    pub open spec fn wf(self) -> bool {
        self.layer_width@.len() >= 2
    }

    /// Builds the layer-width vector `[input, hidden .., output]` from the
    /// feature count, the hidden widths, and the target. Construction fails
    /// when no hidden layer is given, or when the number of activation
    /// functions is not the number of hidden layers plus one (the output
    /// layer's); an activation list that is too short is never truncated.
    pub fn new(
        input_size: usize,
        layer_widths: &Vec<usize>,
        activations: &Vec<ActivationFunction>,
        target: &TargetSpec,
    ) -> (r: Result<NetworkTopology, ConfigError>)
        ensures
            r is Err <==> (layer_widths@.len() == 0 || activations@.len() != layer_widths@.len()
                + 1),
            layer_widths@.len() == 0 ==> r == Err::<NetworkTopology, ConfigError>(
                ConfigError::NoHiddenLayers,
            ),
            layer_widths@.len() != 0 && activations@.len() != layer_widths@.len() + 1 ==> r
                == Err::<NetworkTopology, ConfigError>(ConfigError::ActivationCountMismatch),
            r matches Ok(t) ==> t.layer_width@ == seq![input_size] + layer_widths@ + seq![
                target.spec_output_width(),
            ] && t.wf(),
    {
        if layer_widths.len() == 0 {
            return Err(ConfigError::NoHiddenLayers);
        }
        if !(activations.len() >= 1 && activations.len() - 1 == layer_widths.len()) {
            return Err(ConfigError::ActivationCountMismatch);
        }
        let mut widths: Vec<usize> = Vec::new();
        widths.push(input_size);
        let mut k: usize = 0;
        while k < layer_widths.len()
            invariant
                k <= layer_widths@.len(),
                widths@.len() == k + 1,
                widths@[0] == input_size,
                forall|j: int| 0 <= j < k as int ==> widths@[j + 1] == layer_widths@[j],
            decreases layer_widths@.len() - k,
        {
            widths.push(layer_widths[k]);
            k += 1;
        }
        widths.push(target.output_width());
        proof {
            assert(widths@ =~= seq![input_size] + layer_widths@ + seq![
                target.spec_output_width(),
            ]);
        }
        Ok(NetworkTopology { layer_width: widths })
    }

    /// The width of the output layer.
    pub fn output_width(&self) -> (r: usize)
        requires
            self.wf(),
        ensures
            r == self.layer_width@.last(),
    {
        self.layer_width[self.layer_width.len() - 1]
    }

    /// The shape of the forward state: one buffer of net values and active
    /// values per non-input layer, the buffer of layer `l + 1` exactly
    /// `layer_width[l + 1]` long, and the last buffer — what a forward pass
    /// returns — exactly as long as the output layer is wide.
    pub fn buffer_widths(&self) -> (r: Vec<usize>)
        requires
            self.wf(),
        ensures
            r@.len() == self.layer_width@.len() - 1,
            r@.len() >= 1,
            forall|l: int| 0 <= l < r@.len() ==> r@[l] == self.layer_width@[l + 1],
            r@.last() == self.layer_width@.last(),
    {
        let mut r: Vec<usize> = Vec::new();
        let mut k: usize = 1;
        while k < self.layer_width.len()
            invariant
                1 <= k <= self.layer_width@.len(),
                r@.len() == k - 1,
                forall|l: int| 0 <= l < r@.len() ==> r@[l] == self.layer_width@[l + 1],
            decreases self.layer_width@.len() - k,
        {
            r.push(self.layer_width[k]);
            k += 1;
        }
        r
    }

    /// The shape of the weight tensor: for each non-input layer `l + 1` a
    /// matrix of `layer_width[l + 1]` rows and `layer_width[l]` columns, so
    /// that entry `(i, j)` weighs the edge from unit `j` of layer `l` to
    /// unit `i` of layer `l + 1`.
    pub fn weight_shapes(&self) -> (r: Vec<(usize, usize)>)
        requires
            self.wf(),
        ensures
            r@.len() == self.layer_width@.len() - 1,
            forall|l: int|
                0 <= l < r@.len() ==> r@[l].0 == self.layer_width@[l + 1] && r@[l].1
                    == self.layer_width@[l],
    {
        let mut r: Vec<(usize, usize)> = Vec::new();
        let mut k: usize = 1;
        while k < self.layer_width.len()
            invariant
                1 <= k <= self.layer_width@.len(),
                r@.len() == k - 1,
                forall|l: int|
                    0 <= l < r@.len() ==> r@[l].0 == self.layer_width@[l + 1] && r@[l].1
                        == self.layer_width@[l],
            decreases self.layer_width@.len() - k,
        {
            r.push((self.layer_width[k], self.layer_width[k - 1]));
            k += 1;
        }
        r
    }
}

/// Forward-pass shape law: any forward state whose buffers follow a
/// well-formed topology has one buffer per non-input layer, the buffer of
/// layer `l + 1` is `layer_width[l + 1]` wide, and the output buffer — the
/// prediction a forward pass returns — is exactly as wide as the output
/// layer.
pub proof fn lemma_forward_pass_shape(t: NetworkTopology, buffers: Seq<usize>)
    requires
        t.wf(),
        buffers.len() == t.layer_width@.len() - 1,
        forall|l: int| 0 <= l < buffers.len() ==> buffers[l] == t.layer_width@[l + 1],
    ensures
        buffers.len() >= 1,
        buffers.last() == t.layer_width@.last(),
{
    assert(buffers[buffers.len() - 1] == t.layer_width@[buffers.len() as int]);
}

/// How a network is trained for a target kind.
#[derive(Clone, Copy, Debug, PartialEq, Eq, Structural)]
pub enum FitStrategy {
    /// Online gradient descent against a single continuous target.
    FloatSingle,
    /// The same loop against a single categorical target cast to a float.
    CategorySingle,
}

/// Why no training strategy exists for a target.
#[derive(Clone, Copy, Debug, PartialEq, Eq, Structural)]
pub enum FitError {
    /// Training on a nominal string target is not implemented; encode the
    /// strings to categories first.
    StringTargetUnsupported,
    /// Training several continuous targets at once is not implemented.
    MultiTaskUnsupported,
}

/// Chooses the training strategy from the declared target kind and the
/// number of target columns. String targets and multi-task continuous
/// targets are rejected with a distinguishable error rather than trained
/// wrongly.
pub fn fit_strategy(kind: &TargetKind, target_count: usize) -> (r: Result<FitStrategy, FitError>)
    requires
        target_count >= 1,
    ensures
        *kind == TargetKind::Strings ==> r == Err::<FitStrategy, FitError>(
            FitError::StringTargetUnsupported,
        ),
        *kind == TargetKind::Floats && target_count == 1 ==> r == Ok::<FitStrategy, FitError>(
            FitStrategy::FloatSingle,
        ),
        *kind == TargetKind::Floats && target_count > 1 ==> r == Err::<FitStrategy, FitError>(
            FitError::MultiTaskUnsupported,
        ),
        *kind == TargetKind::Category ==> r == Ok::<FitStrategy, FitError>(
            FitStrategy::CategorySingle,
        ),
{
    match kind {
        TargetKind::Strings => Err(FitError::StringTargetUnsupported),
        TargetKind::Floats => {
            if target_count == 1 {
                Ok(FitStrategy::FloatSingle)
            } else {
                Err(FitError::MultiTaskUnsupported)
            }
        },
        TargetKind::Category => Ok(FitStrategy::CategorySingle),
    }
}

/// What the training loop does after an epoch.
#[derive(Clone, Copy, Debug, PartialEq, Eq, Structural)]
pub enum EpochDecision {
    /// Run another epoch.
    Continue,
    /// The epoch's largest per-sample cost fell below the threshold: stop
    /// early, trained.
    ReachedLeastCost,
    /// The epoch budget is used up without reaching the threshold: stop,
    /// keeping the weights as they are.
    BudgetExhausted,
}

/// The stopping rule of the training loop, decided after the epoch with the
/// given zero-based index: stop as trained the moment an epoch's largest
/// per-sample cost falls below the least-cost threshold, and otherwise run
/// epochs until the budget is used up.
pub fn epoch_decision(epoch_index: usize, epoch_value: usize, below_least_cost: bool) -> (r:
    EpochDecision)
    requires
        epoch_index < epoch_value,
    ensures
        below_least_cost ==> r == EpochDecision::ReachedLeastCost,
        !below_least_cost && epoch_index + 1 < epoch_value ==> r == EpochDecision::Continue,
        !below_least_cost && epoch_index + 1 == epoch_value ==> r
            == EpochDecision::BudgetExhausted,
{
    if below_least_cost {
        EpochDecision::ReachedLeastCost
    } else if epoch_index + 1 < epoch_value {
        EpochDecision::Continue
    } else {
        EpochDecision::BudgetExhausted
    }
}

} // verus!
