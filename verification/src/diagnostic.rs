//! The Progressive Layer Freezing diagnostic around its training runs: the layers that it starts
//! from, the change from the first stage to the second, and what it finds.

use vstd::prelude::*;
use crate::arith::{Arith, lawful, s_exceeds, s_lit, s_minus, s_over, s_times};
use crate::config::AxiomConfig;
use crate::freezing_trainer::{freezing_restored_order, go_together};
use crate::layer::{AxiomLayer, zero_vec};
use crate::model::AxiomSingleLayerModel;
use crate::rng::is_seeded;
use crate::runs::{FreezingConfig, FreezingRun};
use crate::stacked_model::AxiomModel;
use crate::tensor::zeros;
use crate::trainer::{LocalLossConfig, TrainerConfig};

verus! {

/// The configuration of the model of the diagnostic.
pub open spec fn is_diagnostic_config<A: Arith>(config: AxiomConfig<A>) -> bool {
    &&& config.vocab_size == 256
    &&& config.d_model == 128
    &&& config.num_layers == 2
    &&& config.num_experts == 8
    &&& config.active_experts == 2
    &&& config.buffer_capacity == 512
    &&& config.d_ffn == 512
    &&& config.hebbian_decay == s_lit::<A>(999, 3)
    &&& config.hebbian_lr == s_lit::<A>(1, 4)
}

/// The weights of the local losses that are usual.
pub open spec fn are_usual_losses<A: Arith>(w: LocalLossConfig<A>) -> bool {
    &&& w.lambda_pred == s_lit::<A>(1, 0)
    &&& w.lambda_recon == s_lit::<A>(5, 2)
    &&& w.lambda_balance == s_lit::<A>(0, 0)
    &&& w.lambda_residual == s_lit::<A>(1, 2)
}

/// How the first layer is trained.
pub fn first_stage<A: Arith>(steps_per_layer: usize) -> (config: TrainerConfig<A>)
    requires
        lawful::<A>(),
    ensures
        config.batch_size == 32,
        config.seq_len == 64,
        config.max_steps == steps_per_layer,
        config.max_time_secs == 150,
        config.base_lr == s_lit::<A>(5, 3),
        config.min_lr == s_lit::<A>(1, 4),
        config.warmup_steps == 25,
        config.eval_interval == 25,
        are_usual_losses::<A>(config.loss_weights),
{
    TrainerConfig {
        batch_size: 32,
        seq_len: 64,
        max_steps: steps_per_layer,
        max_time_secs: 150,
        base_lr: A::lit(5, 3),
        min_lr: A::lit(1, 4),
        warmup_steps: 25,
        eval_interval: 25,
        loss_weights: LocalLossConfig::default(),
    }
}

/// How the second layer is trained.
pub fn second_stage<A: Arith>(steps_per_layer: usize) -> (config: FreezingConfig<A>)
    requires
        lawful::<A>(),
    ensures
        config.batch_size == 32,
        config.seq_len == 64,
        config.steps == steps_per_layer,
        are_usual_losses::<A>(config.loss_weights),
{
    FreezingConfig {
        batch_size: 32,
        seq_len: 64,
        steps: steps_per_layer,
        loss_weights: LocalLossConfig::default(),
    }
}

/// The two layers of a stack: the first one with the embeddings, and the second one.
pub open spec fn are_layers_of<A: Arith>(
    single: AxiomSingleLayerModel<A>,
    second: AxiomLayer<A>,
    model: AxiomModel<A>,
) -> bool {
    &&& single.config == model.config
    &&& single.max_seq_len == model.max_seq_len
    &&& single.embeddings == model.embeddings
    &&& single.pos_embeddings == model.pos_embeddings
    &&& model.layers@ == seq![single.layer, second]
}

/// The layers of the diagnostic before they are trained: those of a stack whose seed is 42.
pub fn untrained_layers<A: Arith>() -> (layers: (AxiomSingleLayerModel<A>, AxiomLayer<A>))
    requires
        lawful::<A>(),
    ensures
        exists|model: AxiomModel<A>| #[trigger]
            model.is_drawn(42) && are_layers_of(layers.0, layers.1, model),
        is_diagnostic_config::<A>(layers.0.config),
        layers.0.max_seq_len == 1024,
        layers.0.can_train(64),
        layers.1.wf(),
        layers.1.config == layers.0.config,
{
    let config = AxiomConfig {
        vocab_size: 256,
        d_model: 128,
        num_layers: 2,
        num_experts: 8,
        active_experts: 2,
        buffer_capacity: 512,
        d_ffn: 512,
        hebbian_decay: A::lit(999, 3),
        hebbian_lr: A::lit(1, 4),
    };
    let mut model = AxiomModel::new(config, 1024, 42);
    let ghost whole = model;
    let second = model.layers.remove(1);
    let layer = model.layers.remove(0);
    let single = AxiomSingleLayerModel {
        config: model.config,
        max_seq_len: model.max_seq_len,
        embeddings: model.embeddings,
        pos_embeddings: model.pos_embeddings,
        layer,
    };
    proof {
        assert(whole.layers@ =~= seq![single.layer, second]);
        assert(whole.is_drawn(42) && are_layers_of(single, second, whole));
    }
    (single, second)
}

/// What the second stage works with.
pub struct FrozenStage<A: Arith> {
    /// The model with the first layer, which is not trained any more.
    pub frozen: AxiomModel<A>,
    /// The model that carries the second layer.
    pub upper: AxiomSingleLayerModel<A>,
    /// The run before its first step.
    pub run: FreezingRun<A>,
}

/// Freeze the first layer and its embeddings, and get ready to train the second one on what it
/// puts out. The model that carries the second layer has no embeddings of its own.
pub fn freeze<A: Arith>(single: AxiomSingleLayerModel<A>, second: AxiomLayer<A>) -> (stage:
    FrozenStage<A>)
    requires
        lawful::<A>(),
        single.wf(),
        single.config.num_layers == 2,
        second.wf(),
        second.config == single.config,
    ensures
        stage.frozen.config == single.config,
        stage.frozen.max_seq_len == single.max_seq_len,
        stage.frozen.embeddings == single.embeddings,
        stage.frozen.pos_embeddings == single.pos_embeddings,
        stage.frozen.layers@.len() == 2,
        stage.frozen.layers@[0] == single.layer,
        stage.frozen.layers@[1].same_weights(second),
        stage.upper.config == single.config,
        stage.upper.max_seq_len == single.max_seq_len,
        stage.upper.embeddings@ == zeros::<A>(single.embeddings@.len()),
        stage.upper.pos_embeddings@ == zeros::<A>(single.pos_embeddings@.len()),
        stage.upper.layer == second,
        is_seeded(1042, stage.run.rng),
        stage.run.step == 0,
        stage.run.optimizer.config.lr == s_lit::<A>(5, 3),
        stage.run.optimizer.config.is_usual(),
        stage.run.optimizer.is_new(stage.upper),
        forall|seq_len: nat| #[trigger]
            single.can_train(seq_len) ==> go_together::<A>(stage.frozen, stage.upper, seq_len),
{
    let config = single.config.clone();
    let (embeds, positions) = (single.embeddings.len(), single.pos_embeddings.len());
    let mut layers: Vec<AxiomLayer<A>> = Vec::with_capacity(2);
    layers.push(single.layer);
    layers.push(second.clone());
    let frozen = AxiomModel {
        config: single.config,
        max_seq_len: single.max_seq_len,
        embeddings: single.embeddings,
        pos_embeddings: single.pos_embeddings,
        layers,
    };
    let upper = AxiomSingleLayerModel {
        config,
        max_seq_len: frozen.max_seq_len,
        embeddings: zero_vec::<A>(embeds),
        pos_embeddings: zero_vec::<A>(positions),
        layer: second,
    };
    let run = FreezingRun::new(&upper);
    FrozenStage { frozen, upper, run }
}

/// The BPC of the last validation, or 99 where there was none.
pub fn last_bpc<A: Arith, B: Arith>(history: &[(usize, A::T, A::T, B::T)]) -> (bpc: A::T)
    requires
        lawful::<A>(),
    ensures
        bpc == if history@.len() > 0 {
            history@.last().2
        } else {
            s_lit::<A>(99, 0)
        },
{
    if history.len() > 0 {
        history[history.len() - 1].2
    } else {
        A::lit(99, 0)
    }
}

/// What the diagnostic finds.
pub struct FreezingFinding<T> {
    /// By how many percent the BPC of the second layer exceeds that of the first.
    pub delta: T,
    /// The second layer has the lower BPC: freezing restored monotonicity.
    pub restored: bool,
}

/// Compare the final BPC of the frozen layer with that of the layer above.
pub fn compare_layers<A: Arith>(l1_bpc: A::T, l2_bpc: A::T) -> (finding: FreezingFinding<A::T>)
    requires
        lawful::<A>(),
    ensures
        finding.delta == s_times::<A>(
            s_over::<A>(s_minus::<A>(l2_bpc, l1_bpc), l1_bpc),
            s_lit::<A>(100, 0),
        ),
        finding.restored == s_exceeds::<A>(l1_bpc, l2_bpc),
{
    FreezingFinding {
        delta: A::times(A::over(A::minus(l2_bpc, l1_bpc), l1_bpc), A::lit(100, 0)),
        restored: freezing_restored_order::<A>(l1_bpc, l2_bpc),
    }
}

} // verus!
