//! The models, their gradients, their training and their generation.

use forge_core::arith::Arith;
use forge_core::config::{AxiomConfig, ForgeConfig};
use forge_core::dataset::CharDataset;
use forge_core::expert::ExpertMLP;
use forge_core::forge_eval::{evaluate_forge, evaluate_forge_bpc, mean_loss_and_bpc};
use forge_core::forge_model::{ForgeBlock, ForgeModel};
use forge_core::forge_trainer::{
    clip_grads, forge_batch_gradients, forge_lr, forge_train_step, grad_norm, AdamWState, ForgeAdam,
};
use forge_core::freezing_trainer::{
    evaluate_upper, freezing_lr, freezing_restored_order, freezing_step, frozen_hidden,
    is_freezing_eval_step,
};
use forge_core::gru::{GruGrads, GruModel};
use forge_core::gru_trainer::{
    baseline_lr, evaluate_gru_bpc, gru_sequence_gradients, gru_train_step, GruAdamW,
};
use forge_core::infer::{
    generate_stacked_with, generate_text, generate_text_stacked, generate_with, pick_token,
    sample_from_probs, InferenceConfig,
};
use forge_core::layer::{AxiomLayer, LayerScratch, LayerState};
use forge_core::matvec::{matvec, matvec_transposed};
use forge_core::model::AxiomSingleLayerModel;
use forge_core::mrm::MultiResMemory;
use forge_core::optimizer::{AdamW, AdamWConfig, StackedAdamW};
use forge_core::softmax::{entropy, softmax_temperature};
use forge_core::stacked_model::AxiomModel;
use forge_core::stacked_trainer::{evaluate_stacked_bpc, stacked_train_step};
use forge_core::tensor::{dot, MatrixView, MatrixViewMut};
use forge_core::trainer::{
    batch_gradients, evaluate_bpc, evaluate_sequences, get_lr, is_eval_step, sequence_gradients,
    summarize, train_step, LocalLossConfig, TrainerConfig,
};
use forge_core::transformer::{TransformerBlock, TransformerGrads};
use forge_core::transformer_model::TransformerModel;
use forge_core::transformer_trainer::{
    evaluate_transformer_bpc, transformer_sequence_gradients, transformer_train_step,
    TransformerAdamW,
};
use rand::rngs::StdRng;
use rand::{Rng, SeedableRng};

/// Single precision floats.
#[derive(Debug, Clone, Copy)]
struct F32;

impl Arith for F32 {
    type T = f32;

    fn lit(digits: u64, decimals: u32) -> f32 {
        match (digits, decimals) {
            (n, 0) => n as f32,
            (5, 1) => 0.5,
            (1, 4) => 1e-4,
            (1, 5) => 1e-5,
            (1, 6) => 1e-6,
            (1, 12) => 1e-12,
            (44715, 6) => 0.044715,
            (79788456, 8) => 0.79788456,
            _ => format!("{}e-{}", digits, decimals).parse().unwrap(),
        }
    }

    fn neg_inf() -> f32 {
        f32::NEG_INFINITY
    }

    fn count(n: usize) -> f32 {
        n as f32
    }

    fn plus(a: f32, b: f32) -> f32 {
        a + b
    }

    fn minus(a: f32, b: f32) -> f32 {
        a - b
    }

    fn times(a: f32, b: f32) -> f32 {
        a * b
    }

    fn over(a: f32, b: f32) -> f32 {
        a / b
    }

    fn negate(a: f32) -> f32 {
        -a
    }

    fn exceeds(a: f32, b: f32) -> bool {
        a > b
    }

    fn equals(a: f32, b: f32) -> bool {
        a == b
    }

    fn larger(a: f32, b: f32) -> f32 {
        a.max(b)
    }

    fn exp(a: f32) -> f32 {
        a.exp()
    }

    fn ln(a: f32) -> f32 {
        a.ln()
    }

    fn tanh(a: f32) -> f32 {
        a.tanh()
    }

    fn sqrt(a: f32) -> f32 {
        a.sqrt()
    }

    fn powf(a: f32, b: f32) -> f32 {
        a.powf(b)
    }

    fn powi(a: f32, n: u32) -> f32 {
        a.powi(n as i32)
    }

    fn cos(a: f32) -> f32 {
        a.cos()
    }

    fn smaller(a: f32, b: f32) -> f32 {
        a.min(b)
    }

    fn whole(a: f32) -> usize {
        a as usize
    }

    fn uniform(mut rng: StdRng, lo: f32, hi: f32) -> (f32, StdRng) {
        let x = rng.gen_range(lo..hi);
        (x, rng)
    }
}

fn small_config(num_layers: usize) -> AxiomConfig<F32> {
    AxiomConfig {
        vocab_size: 256,
        d_model: 8,
        num_layers,
        num_experts: 4,
        active_experts: 2,
        buffer_capacity: 16,
        d_ffn: 12,
        hebbian_decay: 0.999,
        hebbian_lr: 1e-4,
    }
}

fn trainer_config(max_steps: usize) -> TrainerConfig<F32> {
    TrainerConfig {
        batch_size: 4,
        seq_len: 8,
        max_steps,
        max_time_secs: 60,
        base_lr: 1e-2,
        min_lr: 1e-4,
        warmup_steps: 5,
        eval_interval: 10,
        loss_weights: LocalLossConfig::default(),
    }
}

fn text() -> CharDataset {
    CharDataset::from_bytes(b"hello world ".repeat(40))
}

/// `n` numbers drawn from `-scale` to `scale`.
fn drawn(rng: &mut StdRng, scale: f32, n: usize) -> Vec<f32> {
    (0..n).map(|_| rng.gen_range(-scale..scale)).collect()
}

fn close(a: f32, b: f32) -> bool {
    (a - b).abs() <= 1e-5 * (1.0 + a.abs().max(b.abs()))
}

#[test]
fn experts_draw_their_weights_from_the_seed() {
    let expert = ExpertMLP::<F32>::new(6, 10, 77);
    let mut rng = StdRng::seed_from_u64(77);
    assert_eq!(expert.w_up, drawn(&mut rng, (2.0f32 / 6.0).sqrt(), 60));
    assert_eq!(expert.w_down, drawn(&mut rng, (2.0f32 / 10.0).sqrt(), 60));
}

#[test]
fn layers_draw_their_weights_in_order() {
    let config = small_config(1);
    let layer = AxiomLayer::<F32>::new(config.clone(), 5);
    let mut rng = StdRng::seed_from_u64(5);
    assert_eq!(layer.w_s, drawn(&mut rng, (2.0f32 / 24.0).sqrt(), 8 * 24));
    let scale = (2.0f32 / 8.0).sqrt();
    assert_eq!(layer.w_gate, drawn(&mut rng, scale, 4 * 8));
    assert_eq!(layer.w_pred, drawn(&mut rng, scale, 256 * 8));
    assert_eq!(layer.w_decode, drawn(&mut rng, scale, 8 * 8));
    assert_eq!(layer.experts[3].w_up, ExpertMLP::<F32>::new(8, 12, 5 + 100 + 3).w_up);
}

#[test]
fn models_seed_their_layers() {
    let config = small_config(2);
    let single = AxiomSingleLayerModel::<F32>::new(config.clone(), 16, 42);
    let mut rng = StdRng::seed_from_u64(42);
    let scale = (1.0f32 / 8.0).sqrt();
    assert_eq!(single.embeddings, drawn(&mut rng, scale, 256 * 8));
    assert_eq!(single.pos_embeddings, drawn(&mut rng, scale, 16 * 8));
    assert_eq!(single.layer.w_s, AxiomLayer::<F32>::new(config.clone(), 43).w_s);
    let stacked = AxiomModel::<F32>::new(config.clone(), 16, 42);
    assert_eq!(stacked.embeddings, single.embeddings);
    assert_eq!(stacked.layers.len(), 2);
    assert_eq!(stacked.layers[1].w_gate, AxiomLayer::<F32>::new(config, 42 + 10 + 100).w_gate);
}

#[test]
fn baselines_draw_their_weights_in_order() {
    let gru = GruModel::<F32>::new(20, 4, 9);
    let mut rng = StdRng::seed_from_u64(9);
    assert_eq!(gru.embeddings, drawn(&mut rng, 0.5, 80));
    assert_eq!(gru.w_gate, drawn(&mut rng, (1.0f32 / 8.0).sqrt(), 64));
    assert_eq!(gru.w_cand, drawn(&mut rng, (1.0f32 / 8.0).sqrt(), 32));
    assert_eq!(gru.w_head, drawn(&mut rng, 0.5, 80));
    let t = TransformerModel::<F32>::new(20, 4, 2, 6, 10, 9);
    let mut rng = StdRng::seed_from_u64(9);
    assert_eq!(t.embeddings, drawn(&mut rng, 0.5, 80));
    assert_eq!(t.pos_embeddings, drawn(&mut rng, 0.5, 40));
    assert_eq!(t.head, drawn(&mut rng, 0.5, 80));
    let block = TransformerBlock::<F32>::new(4, 6, 9 + 10 + 100);
    assert_eq!((t.blocks[1].wq.clone(), t.blocks[1].w2.clone()), (block.wq, block.w2));
}

#[test]
fn forge_models_seed_their_blocks_and_memories() {
    let m = ForgeModel::<F32>::new(20, 4, 6, 2, 3, 2, 10, ForgeConfig::full(), 7);
    let mut rng = StdRng::seed_from_u64(7);
    let scale = (2.0f32 / 4.0).sqrt();
    assert_eq!(m.embeddings, drawn(&mut rng, scale, 80));
    assert_eq!(m.pos_embed, drawn(&mut rng, scale, 40));
    assert_eq!(m.head, drawn(&mut rng, scale, 80));
    let block = ForgeBlock::<F32>::new(4, 6, 3, 2, ForgeConfig::full(), 7 + 200 + 1);
    assert_eq!(m.blocks[1].w1u, block.w1u);
    let memory = MultiResMemory::<F32>::new(4, 3, 2, 7 + 200 + 1 + 100);
    let mrm = m.blocks[1].mrm.as_ref().unwrap();
    assert_eq!(mrm.w_o, memory.w_o);
    assert_eq!((mrm.surprise_threshold, mrm.coarse_decay, mrm.mean_decay), (0.3, 0.99, 0.98));
    let plain = ForgeModel::<F32>::new(20, 4, 6, 2, 3, 2, 10, ForgeConfig::no_mrm(), 7);
    assert!(plain.blocks.iter().all(|b| b.mrm.is_none()));
}

#[test]
fn matrices_give_back_what_was_set() {
    let mut data: Vec<f32> = (0..6).map(|i| i as f32).collect();
    let mut view = MatrixViewMut::new(&mut data, 2, 3);
    view.set(1, 0, 9.0);
    assert_eq!(view.get(1, 0), 9.0);
    view.row_mut(0)[2] = 7.0;
    assert_eq!(view.row(0), &[0.0, 1.0, 7.0]);
    assert_eq!(data, vec![0.0, 1.0, 7.0, 9.0, 4.0, 5.0]);
}

#[test]
fn products_sum_up_what_they_should() {
    let a: Vec<f32> = (1..=11).map(|i| i as f32).collect();
    assert_eq!(dot::<F32>(&a, &a), 506.0);
    let w: Vec<f32> = (0..6).map(|i| i as f32).collect();
    let view = MatrixView::new(&w, 2, 3);
    let mut y = vec![0.0; 2];
    matvec::<F32>(&view, &[1.0, 2.0, 3.0], &mut y);
    assert_eq!(y, vec![8.0, 26.0]);
    let mut x = vec![0.0; 3];
    matvec_transposed::<F32>(&view, &[1.0, 2.0], &mut x);
    assert_eq!(x, vec![6.0, 9.0, 12.0]);
    let mut probs = vec![0.0; 2];
    softmax_temperature::<F32>(&[0.0, 0.0], 0.5, &mut probs);
    assert_eq!(probs, vec![0.5, 0.5]);
    assert!(close(entropy::<F32>(&probs), std::f32::consts::LN_2));
}

#[test]
fn draws_pick_the_first_token_that_reaches_them() {
    let probs = [0.2f32, 0.3, 0.5];
    assert_eq!(pick_token::<F32>(&probs, 0.0), 0);
    assert_eq!(pick_token::<F32>(&probs, 0.2), 0);
    assert_eq!(pick_token::<F32>(&probs, 0.21), 1);
    assert_eq!(pick_token::<F32>(&probs, 0.51), 2);
    assert_eq!(pick_token::<F32>(&probs, 2.0), 2);
    assert_eq!(pick_token::<F32>(&[], 0.5), 0);
    let mut rng = StdRng::seed_from_u64(3);
    let tokens: Vec<usize> = (0..200).map(|_| sample_from_probs::<F32>(&probs, &mut rng)).collect();
    for t in 0..3 {
        assert!(tokens.contains(&t));
    }
}

#[test]
fn generation_keeps_the_prompt_in_front() {
    let single = AxiomSingleLayerModel::<F32>::new(small_config(1), 64, 1);
    let stacked = AxiomModel::<F32>::new(small_config(2), 64, 1);
    // A draw of zero picks the first token, and one beyond all probabilities the last.
    assert_eq!(generate_with(&single, b"ab", &[0.0, 2.0], 0.8), vec![b'a', b'b', 0, 255]);
    assert_eq!(generate_stacked_with(&stacked, b"ab", &[0.0, 2.0], 0.8), vec![b'a', b'b', 0, 255]);
    assert_eq!(generate_with(&single, b"ab", &[], 0.8), b"ab".to_vec());
    assert_eq!(generate_text(&single, "hello", 0, 0.7, 3), "hello");
    let text = generate_text(&single, "hello", 20, 0.7, 3);
    assert!(text.starts_with("hello"));
    assert_eq!(text, generate_text(&single, "hello", 20, 0.7, 3));
    assert_ne!(text, generate_text(&single, "hello", 20, 0.7, 4));
    let text = generate_text_stacked(&stacked, "", 10, 0.7, 3);
    assert!(text.chars().count() > 0 && text.chars().count() <= 10);
    let cfg: InferenceConfig<F32> = InferenceConfig::default();
    assert_eq!((cfg.temperature, cfg.copy_threshold_tau, cfg.copy_mix_alpha), (0.8, 2.0, 0.3));
}

#[test]
fn one_drawn_token_is_the_one_that_the_seed_draws() {
    let stacked = AxiomModel::<F32>::new(small_config(2), 64, 1);
    let mut rng = StdRng::seed_from_u64(11);
    let draws: Vec<f32> = (0..6).map(|_| rng.gen_range(0.0..1.0)).collect();
    let bytes = generate_stacked_with(&stacked, b"xy", &draws, 0.7);
    assert_eq!(
        generate_text_stacked(&stacked, "xy", 6, 0.7, 11),
        String::from_utf8_lossy(&bytes).to_string()
    );
}

#[test]
fn inference_agrees_with_the_sequence_pass() {
    // The loss of a token under inference is the loss that evaluation sums up.
    let model = AxiomSingleLayerModel::<F32>::new(small_config(1), 32, 8);
    let (x, y) = (vec![5usize, 9, 200, 5], vec![9usize, 200, 5, 31]);
    let mut state = LayerState::<F32>::new(&model.config);
    let mut scratch = LayerScratch::<F32>::new(&model.config);
    let (mut h_in, mut h_out) = (vec![0.0; 8], vec![0.0; 8]);
    let mut logits = vec![0.0; 256];
    let mut total = 0.0f32;
    for t in 0..4 {
        model.forward_infer_step(
            x[t], t, &mut state, &mut scratch, &mut h_in, &mut h_out, &mut logits,
        );
        let max = logits.iter().cloned().fold(f32::NEG_INFINITY, f32::max);
        let sum: f32 = logits.iter().map(|l| (l - max).exp()).sum();
        total += -((logits[y[t]] - max).exp() / sum).ln();
    }
    let evaluated = evaluate_sequences(&model, &[x], &[y]);
    assert!((total - evaluated).abs() < 1e-3);
}

#[test]
fn batches_sum_the_gradients_of_their_sequences() {
    let model = AxiomSingleLayerModel::<F32>::new(small_config(1), 16, 2);
    let weights: LocalLossConfig<F32> = LocalLossConfig::default();
    let mut rng = StdRng::seed_from_u64(4);
    let (xs, ys) = text().sample_batch(3, 6, &mut rng);
    let (_, grads) = batch_gradients(&model, &xs, &ys, 6, &weights);
    let mut sum = vec![0.0f32; 256 * 8];
    for i in 0..3 {
        let one = sequence_gradients(&model, &xs[i], &ys[i], 6, &weights);
        for (s, g) in sum.iter_mut().zip(one.grads.layer_grads.grad_w_pred.iter()) {
            *s += g;
        }
    }
    for (s, g) in sum.iter().zip(grads.layer_grads.grad_w_pred.iter()) {
        assert_eq!(s * (1.0f32 / 18.0), *g);
    }
}

#[test]
fn single_layer_training_lowers_the_loss() {
    let mut model = AxiomSingleLayerModel::<F32>::new(small_config(1), 16, 3);
    let config = trainer_config(40);
    let mut optimizer = AdamW::new(AdamWConfig::with_lr(config.base_lr), &model);
    let data = text();
    let before = evaluate_bpc(&model, &data, 4, 8);
    let mut rng = StdRng::seed_from_u64(42);
    for step in 1..=40 {
        let (xs, ys) = data.sample_batch(4, 8, &mut rng);
        let (_, lr) = train_step(&mut model, &mut optimizer, &xs, &ys, &config, step);
        assert_eq!(lr, get_lr(step, &config));
    }
    let after = evaluate_bpc(&model, &data, 4, 8);
    assert!(after.0 < before.0);
    assert!(close(after.1, after.0 / std::f32::consts::LN_2));
}

#[test]
fn stacked_training_lowers_the_loss() {
    let mut model = AxiomModel::<F32>::new(small_config(2), 16, 3);
    let config = trainer_config(30);
    let mut optimizer = StackedAdamW::new(AdamWConfig::with_lr(config.base_lr), &model);
    let data = text();
    let before = evaluate_stacked_bpc(&model, &data, 4, 8);
    let mut rng = StdRng::seed_from_u64(42);
    for step in 1..=30 {
        let (xs, ys) = data.sample_batch(4, 8, &mut rng);
        stacked_train_step(&mut model, &mut optimizer, &xs, &ys, &config, step);
    }
    let after = evaluate_stacked_bpc(&model, &data, 4, 8);
    assert_eq!((before.len(), after.len()), (2, 2));
    assert!(after[0] < before[0] && after[1] < before[1]);
}

#[test]
fn freezing_trains_the_upper_layer_alone() {
    let frozen = AxiomModel::<F32>::new(small_config(2), 16, 3);
    let mut upper = AxiomSingleLayerModel::<F32>::new(small_config(2), 16, 5);
    let mut optimizer = AdamW::new(AdamWConfig::with_lr(5e-3), &upper);
    let data = text();
    let mut rng = StdRng::seed_from_u64(1042);
    let (xs, ys) = data.sample_batch(4, 8, &mut rng);
    let below = frozen_hidden(&frozen, &xs[0]);
    assert_eq!(below.len(), 64);
    let before = upper.layer.w_pred.clone();
    let weights: LocalLossConfig<F32> = LocalLossConfig::default();
    freezing_step(&frozen, &mut upper, &mut optimizer, &xs, &ys, 8, &weights, 5e-3);
    assert_ne!(before, upper.layer.w_pred);
    assert_eq!(below, frozen_hidden(&frozen, &xs[0]));
    let (loss, bpc) = evaluate_upper(&frozen, &upper.layer, &xs, &ys, 8);
    assert!(loss > 0.0 && close(bpc, loss / std::f32::consts::LN_2));
    assert!(close(freezing_lr::<F32>(25, 100), 5e-3));
    assert!(is_freezing_eval_step(25, 60) && is_freezing_eval_step(60, 60));
    assert!(!is_freezing_eval_step(24, 60));
    assert!(freezing_restored_order::<F32>(2.0, 1.9));
    assert!(!freezing_restored_order::<F32>(2.0, 2.0));
}

#[test]
fn learning_rates_warm_up_and_decay() {
    let config = TrainerConfig::<F32> { warmup_steps: 10, max_steps: 110, ..trainer_config(1) };
    assert_eq!(get_lr(0, &config), 1e-4);
    assert!(close(get_lr(5, &config), 1e-4 + 0.5 * (1e-2 - 1e-4)));
    assert!(close(get_lr(10, &config), 1e-2));
    assert!(close(get_lr(60, &config), 1e-4 + 0.5 * (1e-2 - 1e-4)));
    assert!(close(get_lr(110, &config), 1e-4));
    assert!(close(baseline_lr::<F32>(100, 1100, 3e-3), 3e-3));
    assert!(close(forge_lr::<F32>(25, 100, 3e-3), 1.5e-3));
    assert!(close(forge_lr::<F32>(100, 100, 3e-3), 1e-5));
    assert!(is_eval_step(1, 50) && is_eval_step(100, 50) && !is_eval_step(2, 50));
    assert_eq!(summarize::<F32>(0.0, 0), (0.0, 0.0));
    let d: TrainerConfig<F32> = TrainerConfig::default();
    assert_eq!((d.batch_size, d.seq_len, d.max_steps, d.base_lr), (32, 64, 5000, 5e-3));
}

#[test]
fn gru_gradients_match_finite_differences() {
    let mut model = GruModel::<F32>::new(12, 4, 6);
    let (x, y) = (vec![3usize, 1, 4, 1], vec![1usize, 4, 1, 5]);
    let (_, grads) = gru_sequence_gradients(&model, &x, &y, 4);
    let eps = 1e-2f32;
    for idx in [0usize, 7, 20, 31] {
        let orig = model.w_cand[idx];
        model.w_cand[idx] = orig + eps;
        let up = gru_sequence_gradients(&model, &x, &y, 4).0;
        model.w_cand[idx] = orig - eps;
        let down = gru_sequence_gradients(&model, &x, &y, 4).0;
        model.w_cand[idx] = orig;
        let numeric = (up - down) / (2.0 * eps);
        assert!((numeric - grads.grad_w_cand[idx]).abs() < 5e-3);
    }
    for idx in [4usize, 13, 47] {
        let orig = model.w_head[idx];
        model.w_head[idx] = orig + eps;
        let up = gru_sequence_gradients(&model, &x, &y, 4).0;
        model.w_head[idx] = orig - eps;
        let down = gru_sequence_gradients(&model, &x, &y, 4).0;
        model.w_head[idx] = orig;
        let numeric = (up - down) / (2.0 * eps);
        assert!((numeric - grads.grad_w_head[idx]).abs() < 5e-3);
    }
    let mut zeroed = GruGrads::<F32>::new(12, 4);
    zeroed.add(&grads);
    assert_eq!(zeroed.grad_w_cand, grads.grad_w_cand);
    zeroed.zero();
    assert!(zeroed.grad_w_cand.iter().all(|&g| g == 0.0));
}

#[test]
fn gru_training_lowers_the_loss() {
    let mut model = GruModel::<F32>::new(256, 8, 6);
    let mut optimizer = GruAdamW::new(&model, 1e-2);
    let data = text();
    let before = evaluate_gru_bpc(&model, &data.data, 4, 8).0;
    let mut rng = StdRng::seed_from_u64(42);
    for step in 1..=120 {
        let (xs, ys) = data.sample_batch(4, 8, &mut rng);
        gru_train_step(&mut model, &mut optimizer, &xs, &ys, 8, step, 200, 1e-2);
    }
    assert!(evaluate_gru_bpc(&model, &data.data, 4, 8).0 < before);
}

#[test]
fn transformer_gradients_match_finite_differences() {
    let mut model = TransformerModel::<F32>::new(12, 4, 2, 6, 8, 6);
    let (x, y) = (vec![3usize, 1, 4, 1], vec![1usize, 4, 1, 5]);
    let (_, grads) = transformer_sequence_gradients(&model, &x, &y);
    let eps = 1e-2f32;
    for idx in [0usize, 5, 15] {
        let orig = model.blocks[0].wv[idx];
        model.blocks[0].wv[idx] = orig + eps;
        let up = transformer_sequence_gradients(&model, &x, &y).0;
        model.blocks[0].wv[idx] = orig - eps;
        let down = transformer_sequence_gradients(&model, &x, &y).0;
        model.blocks[0].wv[idx] = orig;
        let numeric = (up - down) / (2.0 * eps);
        assert!((numeric - grads.block_grads[0].grad_wv[idx]).abs() < 5e-3);
    }
    for idx in [2usize, 11, 23] {
        let orig = model.blocks[1].w1[idx];
        model.blocks[1].w1[idx] = orig + eps;
        let up = transformer_sequence_gradients(&model, &x, &y).0;
        model.blocks[1].w1[idx] = orig - eps;
        let down = transformer_sequence_gradients(&model, &x, &y).0;
        model.blocks[1].w1[idx] = orig;
        let numeric = (up - down) / (2.0 * eps);
        assert!((numeric - grads.block_grads[1].grad_w1[idx]).abs() < 5e-3);
    }
    let fresh = TransformerGrads::<F32>::new(12, 4, 8, 2, 6);
    assert!(fresh.grad_head.iter().all(|&g| g == 0.0));
}

#[test]
fn transformer_blocks_are_causal() {
    let block = TransformerBlock::<F32>::new(4, 6, 3);
    let mut rng = StdRng::seed_from_u64(8);
    let mut hs: Vec<Vec<f32>> = (0..5).map(|_| drawn(&mut rng, 1.0, 4)).collect();
    let before = block.forward(&hs);
    hs[4] = drawn(&mut rng, 1.0, 4);
    let after = block.forward(&hs);
    assert_eq!(before.out[..4], after.out[..4]);
    assert_ne!(before.out[4], after.out[4]);
    assert_eq!(before.weights[2].len(), 3);
}

#[test]
fn transformer_training_lowers_the_loss() {
    let mut model = TransformerModel::<F32>::new(256, 8, 2, 12, 16, 6);
    let mut optimizer = TransformerAdamW::new(&model, 1e-2);
    let data = text();
    let before = evaluate_transformer_bpc(&model, &data.data, 4, 8).0;
    let mut rng = StdRng::seed_from_u64(42);
    for step in 1..=120 {
        let (xs, ys) = data.sample_batch(4, 8, &mut rng);
        transformer_train_step(&mut model, &mut optimizer, &xs, &ys, 8, step, 200, 1e-2);
    }
    assert!(evaluate_transformer_bpc(&model, &data.data, 4, 8).0 < before);
}

#[test]
fn stacked_layers_do_not_look_ahead() {
    let model = AxiomModel::<F32>::new(small_config(2), 16, 3);
    let a = frozen_hidden(&model, &[1, 2, 3, 4]);
    let b = frozen_hidden(&model, &[1, 2, 3, 9]);
    assert_eq!(a[..24], b[..24]);
    assert_ne!(a[24..], b[24..]);
}

#[test]
fn fine_slots_hold_the_latest_writes_in_turn() {
    let mut mrm = MultiResMemory::<F32>::new(2, 3, 1, 1);
    mrm.w_k = vec![1.0, 0.0, 0.0, 1.0];
    mrm.w_v = vec![2.0, 0.0, 0.0, 2.0];
    for i in 1..=4 {
        mrm.force_write(&[i as f32, 0.0], &[0.0, i as f32]);
    }
    assert_eq!(mrm.fine_keys, vec![4.0, 0.0, 2.0, 0.0, 3.0, 0.0]);
    assert_eq!(mrm.fine_vals, vec![0.0, 8.0, 0.0, 4.0, 0.0, 6.0]);
    assert_eq!((mrm.write_ptr, mrm.stats.total_tokens, mrm.stats.total_writes), (4, 4, 4));
    assert_eq!((mrm.stats.write_rate(), mrm.stats.skip_rate()), (1.0, 0.0));
}

#[test]
fn the_surprise_gate_decides_on_writes() {
    let mut mrm = MultiResMemory::<F32>::new(2, 3, 2, 1);
    let mut out = vec![0.0; 2];
    // Far from the mean of zero: written. A zero vector is no surprise: skipped.
    mrm.forward(&[3.0, 4.0], &mut out, true);
    assert_eq!((mrm.write_ptr, mrm.stats.total_writes), (1, 1));
    assert_eq!(mrm.stats.gate_records[0].surprise_magnitude, 5.0);
    assert!(mrm.stats.gate_records[0].written);
    let keys = mrm.fine_keys.clone();
    mrm.mean_h = vec![0.0, 0.0];
    mrm.forward(&[0.0, 0.0], &mut out, true);
    assert_eq!((mrm.write_ptr, mrm.stats.total_writes, mrm.stats.total_tokens), (1, 1, 2));
    assert_eq!(keys, mrm.fine_keys);
    assert_eq!(mrm.stats.skip_rate(), 0.5);
    assert_eq!((mrm.fine_keys.len(), mrm.coarse_keys.len()), (6, 4));
}

#[test]
fn recall_finds_the_written_value() {
    let mut mrm = MultiResMemory::<F32>::new(2, 3, 1, 1);
    let identity = vec![1.0, 0.0, 0.0, 1.0];
    mrm.w_k = identity.clone();
    mrm.w_v = identity.clone();
    mrm.w_q = identity.clone();
    mrm.w_o = identity;
    mrm.force_write(&[1.0, 0.0], &[0.5, 0.25]);
    mrm.force_write(&[0.0, 1.0], &[7.0, 7.0]);
    let (out, sim) = mrm.recall(&[1.0, 0.0]);
    assert_eq!((out, sim), (vec![1.5, 0.25], 1.0));
}

#[test]
fn resetting_undoes_fast_weights() {
    let mut mrm = MultiResMemory::<F32>::new(2, 3, 1, 1);
    mrm.force_write(&[1.0, 0.0], &[0.5, 0.25]);
    let mut plain = mrm.clone();
    let (mut a, mut b, mut c) = (vec![0.0; 2], vec![0.0; 2], vec![0.0; 2]);
    let mut adapted = mrm.clone();
    adapted.fast_weight_update(&[1.0, 1.0], &[1.0, 2.0]);
    assert!(adapted.fw_active && adapted.fw_v == vec![1.0, 1.0]);
    plain.forward(&[0.3, 0.1], &mut a, false);
    adapted.clone().forward(&[0.3, 0.1], &mut b, false);
    assert_ne!(a, b);
    adapted.reset_fast_weights();
    adapted.forward(&[0.3, 0.1], &mut c, false);
    assert_eq!(a, c);
}

#[test]
fn forge_counts_the_same_flops_for_every_token() {
    let mut m = ForgeModel::<F32>::new(16, 4, 6, 2, 3, 2, 10, ForgeConfig::full(), 7);
    let block = 4 * 2 * 16 + 2 * (5 * 4) + 3 * 2 * (6 * 4);
    let per_token = 2 * 4 + 2 * block + 2 * 16 * 4;
    let tokens: Vec<usize> = (0..9).map(|t| t % 16).collect();
    let (_, n) = m.forward_sequence_loss(&tokens);
    assert_eq!((n, m.total_flops), (8, 8 * per_token as u64));
    m.reset_flop_counter();
    m.forward_sequence_loss(&tokens[..2]);
    assert_eq!(m.total_flops, per_token as u64);
    assert_eq!(m.forward_sequence_loss(&tokens[..1]), (0.0, 0));
    let params = 16 * 4 + 10 * 4 + 2 * (6 * 4 * 3 + 4 * 16) + 16 * 4;
    assert_eq!(m.param_count(), params);
}

#[test]
fn forge_passes_leave_the_model_where_they_should() {
    let m = ForgeModel::<F32>::new(16, 4, 6, 2, 3, 2, 10, ForgeConfig::mrm_only(), 7);
    let tokens = vec![1usize, 2, 3, 4, 5];
    let loss = m.forward_backward(&tokens, 1e-3);
    let mut copy = m.clone();
    assert_eq!(loss, copy.forward_sequence_loss(&tokens));
    assert_eq!(m.total_flops, 0);
    // With the surprise gate off every token is written, and the threshold is left alone.
    let mrm = copy.blocks[0].mrm.as_ref().unwrap();
    assert_eq!((mrm.stats.total_writes, mrm.surprise_threshold), (4, 0.3));
    let (total, count) = evaluate_forge(&mut m.clone(), &[tokens.clone(), vec![3]]);
    assert_eq!((total, count), (loss.0 + 0.0, 4));
    assert_eq!(mean_loss_and_bpc::<F32>(6.0, 0).0, 6.0);
}

#[test]
fn forge_head_gradients_match_finite_differences() {
    // Whatever the blocks do, the gradient of the head is exact.
    let m = ForgeModel::<F32>::new(12, 4, 6, 2, 3, 2, 10, ForgeConfig::full(), 42);
    let tokens = vec![3usize, 1, 4, 1, 5];
    let (loss, grads) = forge_batch_gradients(&mut m.clone(), &[tokens.clone()], 4);
    assert!(close(loss, m.clone().forward_sequence_loss(&tokens).0));
    let eps = 1e-2f32;
    for idx in [0usize, 5, 17, 23, 47] {
        let (mut up, mut down) = (m.clone(), m.clone());
        up.head[idx] += eps;
        down.head[idx] -= eps;
        let rise = up.forward_sequence_loss(&tokens).0 - down.forward_sequence_loss(&tokens).0;
        assert!((rise / (2.0 * eps) / 4.0 - grads.head[idx]).abs() < 2e-3);
    }
}

#[test]
fn forge_gradients_of_an_empty_stack_are_exact() {
    let m = ForgeModel::<F32>::new(12, 4, 6, 0, 3, 2, 10, ForgeConfig::full(), 42);
    let tokens = vec![3usize, 1, 4, 1, 5];
    let (_, grads) = forge_batch_gradients(&mut m.clone(), &[tokens.clone()], 4);
    let eps = 1e-2f32;
    for idx in [4usize, 7, 13, 18] {
        let (mut up, mut down) = (m.clone(), m.clone());
        up.embeddings[idx] += eps;
        down.embeddings[idx] -= eps;
        let rise = up.forward_sequence_loss(&tokens).0 - down.forward_sequence_loss(&tokens).0;
        assert!((rise / (2.0 * eps) / 4.0 - grads.embed[idx]).abs() < 2e-3);
    }
    for idx in [0usize, 9] {
        let (mut up, mut down) = (m.clone(), m.clone());
        up.pos_embed[idx] += eps;
        down.pos_embed[idx] -= eps;
        let rise = up.forward_sequence_loss(&tokens).0 - down.forward_sequence_loss(&tokens).0;
        assert!((rise / (2.0 * eps) / 4.0 - grads.pos_embed[idx]).abs() < 2e-3);
    }
}

#[test]
fn forge_steps_apply_the_moments_to_the_gradients() {
    let m = ForgeModel::<F32>::new(12, 4, 6, 1, 3, 2, 10, ForgeConfig::full(), 42);
    let batch = vec![vec![3usize, 1, 4, 1, 5], vec![9, 2, 6, 5, 3]];
    let mut counted = m.clone();
    let (loss, grads) = forge_batch_gradients(&mut counted, &batch, 4);
    let mut trained = m.clone();
    let mut optimizer = ForgeAdam::new(&m);
    let (total, lr, flops) = forge_train_step(&mut trained, &mut optimizer, &batch, 4, 10, 100, 1e-2);
    assert_eq!((total, flops, trained.total_flops), (loss, counted.total_flops, 0));
    // Eight tokens: the head and the block forward and back, and the embeddings. The block has
    // four projections, five slots to score and a FF of three matrices.
    let block = 4 * 2 * 16 + 2 * 5 * 4 + 3 * 2 * 24;
    assert_eq!(flops, 8 * (6 * 12 * 4 + 2 * 4 + 3 * block));
    assert!(close(lr, 2e-3));
    let mut head = m.head.clone();
    AdamWState::<F32>::new(48).update(&mut head, &grads.head, lr);
    assert_eq!(head, trained.head);
    let mut w_o = m.blocks[0].mrm.as_ref().unwrap().w_o.clone();
    AdamWState::<F32>::new(16).update(&mut w_o, &grads.blocks[0].grad_mrm_wo, lr);
    assert_eq!(w_o, trained.blocks[0].mrm.as_ref().unwrap().w_o);
}

#[test]
fn forge_training_of_an_empty_stack_lowers_the_loss() {
    let mut m = ForgeModel::<F32>::new(256, 8, 12, 0, 4, 2, 16, ForgeConfig::no_mrm(), 42);
    let mut optimizer = ForgeAdam::new(&m);
    let data = text().data;
    let before = evaluate_forge_bpc(&mut m, &data, 4, 8, 5).0;
    let mut rng = StdRng::seed_from_u64(777);
    for step in 1..=60 {
        let batch: Vec<Vec<usize>> = (0..4)
            .map(|_| {
                let s = rng.gen_range(0..=data.len() - 9);
                data[s..s + 9].iter().map(|&b| b as usize).collect()
            })
            .collect();
        forge_train_step(&mut m, &mut optimizer, &batch, 8, step, 100, 1e-2);
    }
    assert!(evaluate_forge_bpc(&mut m, &data, 4, 8, 5).0 < before);
}

#[test]
fn moments_update_by_their_formulas() {
    let mut state = AdamWState::<F32>::new(1);
    let mut p = vec![1.0f32];
    state.update(&mut p, &[0.5], 0.1);
    // m_hat = 0.5 and v_hat = 0.25 after the first step.
    assert!(close(p[0], 1.0 - 0.1 * (0.5 / 0.5 + 0.01)));
    assert_eq!(state.step, 1);
    assert!(close(state.m[0], 0.05) && close(state.v[0], 0.00025));
    let mut grads = vec![vec![3.0f32], vec![4.0]];
    assert_eq!(grad_norm::<F32>(&grads), 5.0);
    clip_grads::<F32>(&mut grads, 1.0);
    assert!(close(grads[0][0], 0.6) && close(grads[1][0], 0.8));
    clip_grads::<F32>(&mut grads, 10.0);
    assert!(close(grads[0][0], 0.6));
}
