//! The five arms of Experiment E1, with the hyperparameters that they share: the models before
//! they are trained, how they are trained, and what is reported of them.

use vstd::prelude::*;
use crate::arith::{Arith, lawful, s_count, s_lit, s_times};
use crate::config::ForgeConfig;
use crate::exp_e1::{TrainResult, dense_flops_of, dense_train_flops};
use crate::forge_model::ForgeModel;
use crate::forge_run::{ForgeRun, ForgeRunConfig};
use crate::runs::BaselineConfig;
use crate::schedule::{rate_after, tokens_per_sec};
use crate::transformer_model::TransformerModel;

verus! {

/// Hyperparameters that all arms share.
pub const VOCAB_SIZE: usize = 256;

pub const D_MODEL: usize = 128;

pub const D_FF: usize = 256;

pub const N_BLOCKS: usize = 2;

pub const K_FINE: usize = 64;

pub const K_COARSE: usize = 16;

pub const MAX_SEQ: usize = 128;

pub const BATCH_SIZE: usize = 32;

pub const SEQ_LEN: usize = 64;

/// Seconds that an arm may train.
pub const MAX_TIME_SECS: u64 = 240;

/// How the dense arm is trained.
pub fn dense_run<A: Arith>(steps: usize) -> (config: BaselineConfig<A>)
    requires
        lawful::<A>(),
    ensures
        config.batch_size == BATCH_SIZE,
        config.seq_len == SEQ_LEN,
        config.max_steps == steps,
        config.base_lr == s_lit::<A>(3, 3),
{
    BaselineConfig {
        batch_size: BATCH_SIZE,
        seq_len: SEQ_LEN,
        max_steps: steps,
        base_lr: A::lit(3, 3),
    }
}

/// How the FORGE arms are trained.
pub fn forge_run<A: Arith>(steps: usize) -> (config: ForgeRunConfig<A>)
    requires
        lawful::<A>(),
    ensures
        config.batch_size == BATCH_SIZE,
        config.seq_len == SEQ_LEN,
        config.max_steps == steps,
        config.base_lr == s_lit::<A>(3, 3),
{
    ForgeRunConfig {
        batch_size: BATCH_SIZE,
        seq_len: SEQ_LEN,
        max_steps: steps,
        base_lr: A::lit(3, 3),
    }
}

/// The dense Transformer before it is trained.
pub fn dense_arm<A: Arith>() -> (model: TransformerModel<A>)
    requires
        lawful::<A>(),
    ensures
        model.can_train(),
        model.vocab_size == VOCAB_SIZE,
        model.d_model == D_MODEL,
        model.n_layers == N_BLOCKS,
        model.d_ffn == D_FF,
        model.max_seq_len == MAX_SEQ,
        model.is_drawn(42),
{
    TransformerModel::new(VOCAB_SIZE, D_MODEL, N_BLOCKS, D_FF, MAX_SEQ, 42)
}

/// The configurations of the FORGE arms, from B to E.
pub fn forge_configs() -> (configs: Vec<ForgeConfig>)
    ensures
        configs@.len() == 4,
        configs@[0] == (ForgeConfig {
            use_mrm: false,
            use_surprise_gate: false,
            use_fast_weights: false,
        }),
        configs@[1] == (ForgeConfig {
            use_mrm: true,
            use_surprise_gate: false,
            use_fast_weights: false,
        }),
        configs@[2] == (ForgeConfig {
            use_mrm: true,
            use_surprise_gate: true,
            use_fast_weights: false,
        }),
        configs@[3] == (ForgeConfig {
            use_mrm: true,
            use_surprise_gate: true,
            use_fast_weights: true,
        }),
{
    vec![
        ForgeConfig::no_mrm(),
        ForgeConfig::mrm_only(),
        ForgeConfig::mrm_surprise(),
        ForgeConfig::full(),
    ]
}

/// A FORGE arm before it is trained.
pub fn forge_arm<A: Arith>(cfg: ForgeConfig) -> (model: ForgeModel<A>)
    requires
        lawful::<A>(),
    ensures
        model.vocab_size == VOCAB_SIZE,
        model.d == D_MODEL,
        model.max_seq == MAX_SEQ,
        model.cfg == cfg,
        model.blocks@.len() == N_BLOCKS,
        forall|i: int|
            0 <= i < model.blocks@.len() ==> (#[trigger] model.blocks@[i]).is_new(
                D_MODEL,
                D_FF,
                K_FINE,
                K_COARSE,
                cfg,
            ),
        model.is_drawn(42),
{
    ForgeModel::new(
        VOCAB_SIZE,
        D_MODEL,
        D_FF,
        N_BLOCKS,
        K_FINE,
        K_COARSE,
        MAX_SEQ,
        cfg,
        42,
    )
}

/// Theoretical FLOPs of training the dense arm for some steps.
pub open spec fn dense_flops_after<B: Arith>(steps: usize) -> B::T {
    s_times::<B>(
        s_times::<B>(
            dense_flops_of::<B>(D_MODEL, SEQ_LEN, N_BLOCKS),
            s_count::<B>((steps * BATCH_SIZE * SEQ_LEN) as usize),
        ),
        s_lit::<B>(3, 0),
    )
}

/// Theoretical FLOPs of training the dense arm for some steps.
pub fn dense_flops<B: Arith>(steps: usize) -> (flops: B::T)
    requires
        lawful::<B>(),
        steps * BATCH_SIZE * SEQ_LEN <= usize::MAX,
    ensures
        flops == dense_flops_after::<B>(steps),
{
    dense_train_flops::<B>(D_MODEL, SEQ_LEN, N_BLOCKS, steps * BATCH_SIZE * SEQ_LEN)
}

/// The time of the last validation, or one second where there was none.
pub open spec fn last_time<A: Arith, B: Arith>(
    history: Seq<(usize, A::T, A::T, B::T)>,
) -> B::T {
    if history.len() > 0 {
        history.last().3
    } else {
        s_lit::<B>(1, 0)
    }
}

/// What is reported of the dense arm, after a validation of the trained model.
pub fn dense_result<A: Arith, B: Arith>(
    model: &TransformerModel<A>,
    steps: usize,
    val_loss: A::T,
    val_bpc: A::T,
    history: Vec<(usize, A::T, A::T, B::T)>,
) -> (r: TrainResult<A, B>)
    requires
        lawful::<A>(),
        lawful::<B>(),
        model.wf(),
        model.params() <= usize::MAX,
        steps * BATCH_SIZE * SEQ_LEN <= usize::MAX,
    ensures
        r.model_name@ == "A: Dense Transformer"@,
        r.config == (ForgeConfig {
            use_mrm: false,
            use_surprise_gate: false,
            use_fast_weights: false,
        }),
        r.total_params == model.params(),
        r.total_train_flops == dense_flops_after::<B>(steps),
        r.final_val_loss == val_loss,
        r.final_val_bpc == val_bpc,
        r.elapsed_sec == last_time::<A, B>(history@),
        r.tokens_per_sec == rate_after::<B>(steps, BATCH_SIZE, SEQ_LEN, r.elapsed_sec),
        r.history == history,
{
    let elapsed_sec = if history.len() > 0 {
        history[history.len() - 1].3
    } else {
        B::lit(1, 0)
    };
    TrainResult {
        model_name: "A: Dense Transformer".to_string(),
        config: ForgeConfig::no_mrm(),
        total_params: model.param_count(),
        total_train_flops: dense_flops::<B>(steps),
        final_val_loss: val_loss,
        final_val_bpc: val_bpc,
        tokens_per_sec: tokens_per_sec::<B>(steps, BATCH_SIZE, SEQ_LEN, elapsed_sec),
        elapsed_sec,
        history,
    }
}

/// What is reported of a FORGE model after its training run and a validation of the trained
/// model.
pub fn forge_result<A: Arith, B: Arith>(
    model: &ForgeModel<A>,
    label: &str,
    config: &ForgeRunConfig<A>,
    run: &ForgeRun<A, B>,
    validation: (A::T, A::T),
    elapsed_sec: B::T,
    history: Vec<(usize, A::T, A::T, B::T)>,
) -> (r: TrainResult<A, B>)
    requires
        lawful::<B>(),
        model@.params() <= usize::MAX,
        config.max_steps * config.batch_size <= usize::MAX,
        config.max_steps * config.batch_size * config.seq_len <= usize::MAX,
    ensures
        r.model_name@ == label@,
        r.config == model.cfg,
        r.total_params == model@.params(),
        r.total_train_flops == run.flops_so_far,
        r.final_val_loss == validation.0,
        r.final_val_bpc == validation.1,
        r.elapsed_sec == elapsed_sec,
        r.tokens_per_sec == rate_after::<B>(
            config.max_steps,
            config.batch_size,
            config.seq_len,
            elapsed_sec,
        ),
        r.history == history,
{
    TrainResult {
        model_name: label.to_string(),
        config: model.cfg,
        total_params: model.param_count(),
        total_train_flops: run.flops_so_far,
        final_val_loss: validation.0,
        final_val_bpc: validation.1,
        tokens_per_sec: tokens_per_sec::<B>(
            config.max_steps,
            config.batch_size,
            config.seq_len,
            elapsed_sec,
        ),
        elapsed_sec,
        history,
    }
}

} // verus!
