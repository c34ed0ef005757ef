//! `forge_core`: verified kernels, models, trainers and experiments for small language models on
//! the CPU.
//!
//! - Kernels: `tensor`, `matvec`, `softmax`, `activations`, `topk`, `hebbian`, `buffer`, `vectors`,
//!   and the naive ones of `reference`.
//! - AXIOM: the expert of `expert`, the layer of `layer` and `sequence`, the models of `model` and
//!   `stacked_model`, their optimizers and trainers, and generation in `infer`.
//! - Baselines: a GRU in `gru` and a causal Transformer in `transformer`, `transformer_backward`
//!   and `transformer_model`, with their trainers.
//! - FORGE: the memory of `mrm`, the model of `forge_model`, its gradients and its trainer, and the
//!   experiments of `ablation`, `recall_run` and `exp_e1` to `exp_e5_e6`.
//! - Tools: the loop bounds of `bounded`, the workloads of `workload`, latencies in `stats`,
//!   numbers as text in `text`, options in `args`.
//!
//! All arithmetic on weights goes through `arith::Arith`, so that a contract says which expression
//! is computed and in which order, whatever the numbers are. Chance comes from the seeded
//! generators of `rng`. What holds across modules stands in `laws`.

pub mod accumulation;
pub mod ablation;
pub mod activation_laws;
pub mod activations;
pub mod args;
pub mod arith;
pub mod axiom_derivatives;
pub mod bench;
pub mod bounded;
pub mod buffer;
pub mod config;
pub mod corpus;
pub mod dataset;
pub mod derivatives;
pub mod diagnostic;
pub mod exact;
pub mod exact_laws;
pub mod exp_e1;
pub mod exp_e2;
pub mod exp_e3;
pub mod exp_e4;
pub mod exp_e5_e6;
pub mod expert;
pub mod forge_backprop;
pub mod forge_derivatives;
pub mod forge_eval;
pub mod forge_model;
pub mod forge_run;
pub mod forge_trainer;
pub mod freezing_trainer;
pub mod gradient_laws;
pub mod gru;
pub mod gru_derivatives;
pub mod gru_trainer;
pub mod hebbian;
pub mod infer;
pub mod laws;
pub mod layer;
pub mod loss_laws;
pub mod matvec;
pub mod memory_backward;
pub mod memory_laws;
pub mod model;
pub mod mrm;
pub mod optimizer;
pub mod optimizer_laws;
mod parallel;
pub mod recall_run;
pub mod reference;
pub mod report_laws;
pub mod rng;
pub mod runs;
pub mod schedule;
pub mod sequence;
pub mod slopes;
pub mod softmax;
pub mod stacked_model;
pub mod stacked_trainer;
pub mod stats;
pub mod tensor;
pub mod text;
pub mod topk;
pub mod training_laws;
pub mod trainer;
pub mod transformer;
pub mod transformer_backward;
pub mod transformer_derivatives;
pub mod transformer_model;
pub mod transformer_trainer;
pub mod vectors;
pub mod zero_weights;
pub mod workload;
