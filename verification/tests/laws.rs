//! What holds of gradients, losses and buffers, on concrete values.

use forge_core::arith::Arith;
use forge_core::config::{AxiomConfig, ForgeConfig};
use forge_core::dataset::CharDataset;
use forge_core::forge_eval::evaluate_forge_bpc;
use forge_core::forge_model::{ForgeBlockGrads, ForgeModel};
use forge_core::forge_trainer::{
    forge_batch_gradients, forge_train_step, AdamWState, ForgeAdam, ForgeGrads,
};
use forge_core::freezing_trainer::{
    evaluate_upper, evaluate_upper_bpc, frozen_hidden, upper_sequence_gradients,
};
use forge_core::gru::{GruGrads, GruModel};
use forge_core::gru_trainer::evaluate_gru_bpc;
use forge_core::layer::{LayerScratch, LayerState, SequenceCache};
use forge_core::model::{AxiomSingleLayerModel, ModelGrads};
use forge_core::stacked_model::{AxiomModel, StackedModelGrads};
use forge_core::stacked_trainer::evaluate_stacked_bpc;
use forge_core::trainer::{evaluate_bpc, LocalLossConfig};
use forge_core::transformer::TransformerGrads;
use forge_core::transformer_model::TransformerModel;
use forge_core::transformer_trainer::evaluate_transformer_bpc;
use rand::rngs::StdRng;
use rand::Rng;

/// Double precision floats.
#[derive(Debug, Clone, Copy)]
struct F64;

impl Arith for F64 {
    type T = f64;

    fn lit(digits: u64, decimals: u32) -> f64 {
        match (digits, decimals) {
            (n, 0) => n as f64,
            (5, 1) => 0.5,
            (1, 4) => 1e-4,
            (1, 5) => 1e-5,
            (1, 6) => 1e-6,
            (1, 12) => 1e-12,
            (44715, 6) => 0.044715,
            (79788456, 8) => 0.79788456,
            _ => format!("{}e-{}", digits, decimals).parse().unwrap(),
        }
    }

    fn neg_inf() -> f64 {
        f64::NEG_INFINITY
    }

    fn count(n: usize) -> f64 {
        n as f64
    }

    fn plus(a: f64, b: f64) -> f64 {
        a + b
    }

    fn minus(a: f64, b: f64) -> f64 {
        a - b
    }

    fn times(a: f64, b: f64) -> f64 {
        a * b
    }

    fn over(a: f64, b: f64) -> f64 {
        a / b
    }

    fn negate(a: f64) -> f64 {
        -a
    }

    fn exceeds(a: f64, b: f64) -> bool {
        a > b
    }

    fn equals(a: f64, b: f64) -> bool {
        a == b
    }

    fn larger(a: f64, b: f64) -> f64 {
        a.max(b)
    }

    fn exp(a: f64) -> f64 {
        a.exp()
    }

    fn ln(a: f64) -> f64 {
        a.ln()
    }

    fn tanh(a: f64) -> f64 {
        a.tanh()
    }

    fn sqrt(a: f64) -> f64 {
        a.sqrt()
    }

    fn powf(a: f64, b: f64) -> f64 {
        a.powf(b)
    }

    fn powi(a: f64, n: u32) -> f64 {
        a.powi(n as i32)
    }

    fn cos(a: f64) -> f64 {
        a.cos()
    }

    fn smaller(a: f64, b: f64) -> f64 {
        a.min(b)
    }

    fn whole(a: f64) -> usize {
        a as usize
    }

    fn uniform(mut rng: StdRng, lo: f64, hi: f64) -> (f64, StdRng) {
        let x = rng.gen_range(lo..hi);
        (x, rng)
    }
}

fn close(a: f64, b: f64) -> bool {
    (a - b).abs() < 1e-9 * (1.0 + a.abs())
}

fn all_close(a: &[f64], b: &[f64]) -> bool {
    a.len() == b.len() && a.iter().zip(b).all(|(x, y)| close(*x, *y))
}

fn config(num_layers: usize) -> AxiomConfig<F64> {
    AxiomConfig {
        vocab_size: 20,
        d_model: 6,
        num_layers,
        num_experts: 5,
        active_experts: 2,
        buffer_capacity: 16,
        d_ffn: 8,
        hebbian_decay: 0.999,
        hebbian_lr: 1e-4,
    }
}

/// The slope of the mean loss of a FORGE model in one of its weights.
fn slope(m: &ForgeModel<F64>, tokens: &[usize], at: fn(&mut ForgeModel<F64>, usize) -> &mut f64, i: usize) -> f64 {
    let eps = 1e-6;
    let (mut up, mut down) = (m.clone(), m.clone());
    *at(&mut up, i) += eps;
    *at(&mut down, i) -= eps;
    let rise = up.forward_sequence_loss(tokens).0 - down.forward_sequence_loss(tokens).0;
    rise / (2.0 * eps) / (tokens.len() - 1) as f64
}

/// The gradients are the slopes of the loss.
fn check_slopes(
    m: &ForgeModel<F64>,
    tokens: &[usize],
    grads: &[f64],
    at: fn(&mut ForgeModel<F64>, usize) -> &mut f64,
) {
    assert!(grads.iter().any(|g| g.abs() > 1e-4));
    for (i, g) in grads.iter().enumerate() {
        let s = slope(m, tokens, at, i);
        assert!((s - g).abs() < 1e-6 * (1.0 + g.abs()), "weight {i}: {g} instead of {s}");
    }
}

#[test]
fn forge_gradients_without_a_memory_are_exact() {
    let m = ForgeModel::<F64>::new(12, 4, 6, 3, 3, 2, 10, ForgeConfig::no_mrm(), 42);
    let tokens = vec![3usize, 1, 4, 1, 5, 9];
    let (_, g): (f64, ForgeGrads<F64>) =
        forge_batch_gradients(&mut m.clone(), &[tokens.clone()], 5);
    check_slopes(&m, &tokens, &g.embed, |m, i| &mut m.embeddings[i]);
    check_slopes(&m, &tokens, &g.pos_embed, |m, i| &mut m.pos_embed[i]);
    check_slopes(&m, &tokens, &g.head, |m, i| &mut m.head[i]);
    check_slopes(&m, &tokens, &g.blocks[0].grad_w1, |m, i| &mut m.blocks[0].w1[i]);
    check_slopes(&m, &tokens, &g.blocks[0].grad_w1u, |m, i| &mut m.blocks[0].w1u[i]);
    check_slopes(&m, &tokens, &g.blocks[0].grad_w2, |m, i| &mut m.blocks[0].w2[i]);
    check_slopes(&m, &tokens, &g.blocks[1].grad_w1, |m, i| &mut m.blocks[1].w1[i]);
    check_slopes(&m, &tokens, &g.blocks[1].grad_w1u, |m, i| &mut m.blocks[1].w1u[i]);
    check_slopes(&m, &tokens, &g.blocks[1].grad_w2, |m, i| &mut m.blocks[1].w2[i]);
    check_slopes(&m, &tokens, &g.blocks[2].grad_w1, |m, i| &mut m.blocks[2].w1[i]);
    check_slopes(&m, &tokens, &g.blocks[2].grad_w1u, |m, i| &mut m.blocks[2].w1u[i]);
    check_slopes(&m, &tokens, &g.blocks[2].grad_w2, |m, i| &mut m.blocks[2].w2[i]);
}

/// All gradients of a FORGE model with memories are the slopes of its loss.
fn check_all_slopes(m: &ForgeModel<F64>, tokens: &[usize]) {
    let (_, g): (f64, ForgeGrads<F64>) =
        forge_batch_gradients(&mut m.clone(), &[tokens.to_vec()], tokens.len() - 1);
    check_slopes(m, tokens, &g.embed, |m, i| &mut m.embeddings[i]);
    check_slopes(m, tokens, &g.pos_embed, |m, i| &mut m.pos_embed[i]);
    check_slopes(m, tokens, &g.head, |m, i| &mut m.head[i]);
    let [b0, b1] = [&g.blocks[0], &g.blocks[1]];
    check_slopes(m, tokens, &b0.grad_w1, |m, i| &mut m.blocks[0].w1[i]);
    check_slopes(m, tokens, &b0.grad_w1u, |m, i| &mut m.blocks[0].w1u[i]);
    check_slopes(m, tokens, &b0.grad_w2, |m, i| &mut m.blocks[0].w2[i]);
    check_slopes(m, tokens, &b0.grad_mrm_wq, |m, i| &mut m.blocks[0].mrm.as_mut().unwrap().w_q[i]);
    check_slopes(m, tokens, &b0.grad_mrm_wk, |m, i| &mut m.blocks[0].mrm.as_mut().unwrap().w_k[i]);
    check_slopes(m, tokens, &b0.grad_mrm_wv, |m, i| &mut m.blocks[0].mrm.as_mut().unwrap().w_v[i]);
    check_slopes(m, tokens, &b0.grad_mrm_wo, |m, i| &mut m.blocks[0].mrm.as_mut().unwrap().w_o[i]);
    check_slopes(m, tokens, &b1.grad_w1, |m, i| &mut m.blocks[1].w1[i]);
    check_slopes(m, tokens, &b1.grad_w1u, |m, i| &mut m.blocks[1].w1u[i]);
    check_slopes(m, tokens, &b1.grad_w2, |m, i| &mut m.blocks[1].w2[i]);
    check_slopes(m, tokens, &b1.grad_mrm_wq, |m, i| &mut m.blocks[1].mrm.as_mut().unwrap().w_q[i]);
    check_slopes(m, tokens, &b1.grad_mrm_wk, |m, i| &mut m.blocks[1].mrm.as_mut().unwrap().w_k[i]);
    check_slopes(m, tokens, &b1.grad_mrm_wv, |m, i| &mut m.blocks[1].mrm.as_mut().unwrap().w_v[i]);
    check_slopes(m, tokens, &b1.grad_mrm_wo, |m, i| &mut m.blocks[1].mrm.as_mut().unwrap().w_o[i]);
}

#[test]
fn forge_gradients_through_memories_are_exact() {
    for cfg in [ForgeConfig::mrm_only(), ForgeConfig::mrm_surprise(), ForgeConfig::full()] {
        // More tokens than fine slots: some are written over.
        let m = ForgeModel::<F64>::new(12, 4, 6, 2, 3, 2, 10, cfg, 42);
        check_all_slopes(&m, &[3, 1, 4, 1, 5, 9, 2, 6]);
    }
}

#[test]
fn forge_gradients_through_filled_and_adapted_memories_are_exact() {
    let mut m = ForgeModel::<F64>::new(12, 4, 6, 2, 3, 2, 10, ForgeConfig::full(), 42);
    m.forward_sequence_loss(&[7, 0, 8, 11, 2]);
    for block in m.blocks.iter_mut() {
        let mrm = block.mrm.as_mut().unwrap();
        mrm.fast_weight_update(&[0.5, -0.25, 1.0, 0.75], &[0.25, 0.5, -0.5, 1.0]);
    }
    m.reset_flop_counter();
    check_all_slopes(&m, &[3, 1, 4, 1, 5, 9]);
}

#[test]
fn forge_training_costs_what_its_tokens_cost() {
    let mut m = ForgeModel::<F64>::new(12, 4, 6, 2, 3, 2, 10, ForgeConfig::no_mrm(), 42);
    let mut optimizer = ForgeAdam::new(&m);
    let batch = vec![vec![3usize, 1, 4, 1, 5], vec![9, 2, 6, 5, 3]];
    // Forward: 2 * 12 * 4 in the head, 2 * 4 in the embedding, 6 * 6 * 4 in each block.
    // Backward: the head and the blocks twice over.
    let per_token = 3 * 96 + 8 + 3 * 2 * 144;
    for step in 1..4 {
        // What an evaluation has counted is not part of the step.
        m.forward_sequence_loss(&batch[0]);
        assert!(m.total_flops > 0);
        let (_, _, flops) = forge_train_step(&mut m, &mut optimizer, &batch, 4, step, 9, 1e-3);
        assert_eq!((flops, m.total_flops), (8 * per_token, 0));
    }
}

#[test]
fn transformer_losses_of_prefixes_are_partial_sums() {
    let m = TransformerModel::<F64>::new(12, 4, 2, 8, 6, 3);
    let (x, y) = (vec![3usize, 1, 4, 1, 5], vec![1usize, 4, 1, 5, 9]);
    let loss = |x: &[usize], y: &[usize]| {
        m.forward_backward_sequence(x, y, &mut TransformerGrads::new(12, 4, 6, 2, 8))
    };
    let mut sums = vec![loss(&[], &[])];
    assert_eq!(sums[0], 0.0);
    for n in 1..=5 {
        let next = loss(&x[..n], &y[..n]);
        // Targets behind the sequence do not matter, and each token costs something.
        assert_eq!(next, loss(&x[..n], &y));
        assert!(next > sums[n - 1]);
        sums.push(next);
    }
    // What comes later changes nothing before it.
    let other = loss(&[3, 1, 4, 11, 2], &[1, 4, 1, 0, 0]);
    assert!(other > sums[3] && other != sums[5]);
}

#[test]
fn transformer_gradients_are_added_to_what_was_there() {
    let m = TransformerModel::<F64>::new(12, 4, 2, 8, 6, 3);
    let (x, y) = (vec![3usize, 1, 4, 1], vec![1usize, 4, 1, 5]);
    let mut alone = TransformerGrads::<F64>::new(12, 4, 6, 2, 8);
    let loss = m.forward_backward_sequence(&x, &y, &mut alone);
    let mut g = TransformerGrads::<F64>::new(12, 4, 6, 2, 8);
    g.grad_head = vec![0.5; 48];
    g.grad_embed = vec![-2.0; 48];
    g.grad_pos_embed = vec![3.0; 24];
    g.block_grads[0].grad_wk = vec![1.5; 16];
    g.block_grads[1].grad_w1 = vec![-1.0; 32];
    let mut both = g.clone();
    // The loss does not depend on what was there.
    assert_eq!(m.forward_backward_sequence(&x, &y, &mut both), loss);
    g.add(&alone);
    assert!(all_close(&g.grad_head, &both.grad_head));
    assert!(all_close(&g.grad_embed, &both.grad_embed));
    assert!(all_close(&g.grad_pos_embed, &both.grad_pos_embed));
    for (a, b) in g.block_grads.iter().zip(&both.block_grads) {
        assert!(all_close(&a.grad_wq, &b.grad_wq) && all_close(&a.grad_wk, &b.grad_wk));
        assert!(all_close(&a.grad_wv, &b.grad_wv) && all_close(&a.grad_wo, &b.grad_wo));
        assert!(all_close(&a.grad_w1, &b.grad_w1) && all_close(&a.grad_w2, &b.grad_w2));
    }
    // Tokens and positions that do not occur.
    for v in 0..12 {
        let row = &both.grad_embed[v * 4..v * 4 + 4];
        assert_eq!(row.iter().all(|&e| e == -2.0), ![1, 3, 4].contains(&v));
    }
    for p in 0..6 {
        let row = &both.grad_pos_embed[p * 4..p * 4 + 4];
        assert_eq!(row.iter().all(|&e| e == 3.0), p >= 4);
    }
    // An empty sequence.
    let before = both.clone();
    assert_eq!(m.forward_backward_sequence(&[], &[], &mut both), 0.0);
    assert_eq!(before.grad_embed, both.grad_embed);
    assert_eq!(before.grad_pos_embed, both.grad_pos_embed);
    assert_eq!(before.grad_head, both.grad_head);
    assert_eq!(before.block_grads[1].grad_wo, both.block_grads[1].grad_wo);
}

/// The sums of `a` and `b`, rounded once.
fn rounded_sums(a: &[f64], b: &[f64]) -> Vec<f64> {
    a.iter().zip(b).map(|(x, y)| x + y).collect()
}

#[test]
fn one_token_adds_one_term_to_each_gradient() {
    // A third and a tenth have no exact sum: each entry gets its term with one rounding.
    let m = TransformerModel::<F64>::new(12, 4, 1, 8, 6, 3);
    let mut alone = TransformerGrads::<F64>::new(12, 4, 6, 1, 8);
    m.forward_backward_sequence(&[3], &[1], &mut alone);
    let mut g = TransformerGrads::<F64>::new(12, 4, 6, 1, 8);
    g.grad_head = vec![1.0 / 3.0; 48];
    g.grad_embed = vec![0.1; 48];
    g.grad_pos_embed = vec![0.1; 24];
    g.block_grads[0].grad_wv = vec![1.0 / 3.0; 16];
    g.block_grads[0].grad_w1 = vec![0.1; 32];
    let mut after = g.clone();
    m.forward_backward_sequence(&[3], &[1], &mut after);
    assert_eq!(after.grad_head, rounded_sums(&g.grad_head, &alone.grad_head));
    assert_eq!(after.grad_embed, rounded_sums(&g.grad_embed, &alone.grad_embed));
    assert_eq!(after.grad_pos_embed, rounded_sums(&g.grad_pos_embed, &alone.grad_pos_embed));
    let (x, y, z) = (&after.block_grads[0], &g.block_grads[0], &alone.block_grads[0]);
    assert_eq!(x.grad_wv, rounded_sums(&y.grad_wv, &z.grad_wv));
    assert_eq!(x.grad_w1, rounded_sums(&y.grad_w1, &z.grad_w1));
    assert_eq!(x.grad_w2, z.grad_w2);
    // The same through the recurrent layer.
    let m = AxiomSingleLayerModel::<F64>::new(config(1), 10, 3);
    let mut state = LayerState::new(&m.config);
    let mut scratch = LayerScratch::new(&m.config);
    let mut cache = SequenceCache::new(&m.config, 1);
    m.forward_sequence_cache(&[3], &[1], &mut state, &mut scratch, &mut cache);
    let mut alone = ModelGrads::new(&m.config, 10);
    m.backward_sequence_bptt(&[3], &cache, 1.0, 0.2, 0.01, &mut scratch, &mut alone);
    let mut g = ModelGrads::new(&m.config, 10);
    g.grad_embeddings = vec![0.1; 120];
    g.layer_grads.grad_w_gate = vec![1.0 / 3.0; 30];
    let mut after = g.clone();
    m.backward_sequence_bptt(&[3], &cache, 1.0, 0.2, 0.01, &mut scratch, &mut after);
    assert_eq!(after.grad_embeddings, rounded_sums(&g.grad_embeddings, &alone.grad_embeddings));
    let (x, y) = (&after.layer_grads, &alone.layer_grads);
    assert_eq!(x.grad_w_gate, rounded_sums(&g.layer_grads.grad_w_gate, &y.grad_w_gate));
    assert_eq!((&x.grad_w_s, &x.grad_w_pred), (&y.grad_w_s, &y.grad_w_pred));
}

#[test]
fn gru_losses_grow_with_each_token() {
    let m = GruModel::<F64>::new(12, 4, 9);
    let (x, y) = (vec![3usize, 1, 4, 1], vec![1usize, 4, 1, 5]);
    let loss = |n: usize| {
        let (mut h, mut rz) = (vec![0.0; 4 * n + 4], vec![0.0; 8 * n]);
        let (mut cand, mut cand_in) = (vec![0.0; 4 * n], vec![0.0; 8 * n]);
        let (mut logits, mut probs, mut pred) =
            (vec![0.0; 12 * n], vec![0.0; 12 * n], vec![0.0; 12 * n]);
        m.forward_sequence(
            &x[..n], &y[..n], &mut h, &mut rz, &mut cand, &mut cand_in, &mut logits, &mut probs,
            &mut pred,
        )
    };
    assert_eq!(loss(0), 0.0);
    for n in 0..4 {
        assert!(loss(n) < loss(n + 1));
    }
}

#[test]
fn bptt_reaches_what_the_sequence_uses() {
    let m = AxiomSingleLayerModel::<F64>::new(config(1), 10, 3);
    let (x, y) = (vec![3usize, 1, 4], vec![1usize, 4, 1]);
    let mut state = LayerState::new(&m.config);
    let mut scratch = LayerScratch::new(&m.config);
    let mut cache = SequenceCache::new(&m.config, 3);
    m.forward_sequence_cache(&x, &y, &mut state, &mut scratch, &mut cache);
    let mut grads = ModelGrads::new(&m.config, 10);
    grads.grad_embeddings = vec![7.0; 120];
    grads.grad_pos_embeddings = vec![7.0; 60];
    grads.layer_grads.grad_w_gate = vec![7.0; 30];
    for e in grads.layer_grads.expert_grads.iter_mut() {
        e.grad_w_up = vec![7.0; 48];
    }
    m.backward_sequence_bptt(&x, &cache, 1.0, 0.2, 0.01, &mut scratch, &mut grads);
    for v in 0..20 {
        let row = &grads.grad_embeddings[v * 6..v * 6 + 6];
        assert_eq!(row.iter().all(|&e| e == 7.0), !x.contains(&v));
    }
    for p in 0..10 {
        let row = &grads.grad_pos_embeddings[p * 6..p * 6 + 6];
        assert_eq!(row.iter().all(|&e| e == 7.0), p >= 3);
    }
    let mut unused = 0;
    for i in 0..5 {
        let used = cache.top_indices.iter().any(|t| t.0 == i || t.1 == i);
        let row = &grads.layer_grads.grad_w_gate[i * 6..i * 6 + 6];
        assert_eq!(row.iter().all(|&e| e == 7.0), !used);
        let up = &grads.layer_grads.expert_grads[i].grad_w_up;
        assert_eq!(up.iter().all(|&e| e == 7.0), !used);
        unused += !used as usize;
    }
    assert!(unused > 0);
    // What is added is the same from scratch.
    let mut alone = ModelGrads::new(&m.config, 10);
    m.backward_sequence_bptt(&x, &cache, 1.0, 0.2, 0.01, &mut scratch, &mut alone);
    for (e, a) in grads.grad_embeddings.iter().zip(&alone.grad_embeddings) {
        assert!(close(*e, 7.0 + a));
    }
    assert!(all_close(&grads.layer_grads.grad_w_s, &alone.layer_grads.grad_w_s));
    // An empty sequence.
    let before = grads.clone();
    m.backward_sequence_bptt(&[], &cache, 1.0, 0.2, 0.01, &mut scratch, &mut grads);
    assert_eq!(before.grad_embeddings, grads.grad_embeddings);
    assert_eq!(before.layer_grads.grad_w_s, grads.layer_grads.grad_w_s);
    assert_eq!(before.layer_grads.grad_w_gate, grads.layer_grads.grad_w_gate);
}

#[test]
fn bptt_without_losses_leaves_the_gradients_alone() {
    let m = AxiomSingleLayerModel::<F64>::new(config(1), 10, 3);
    let (x, y) = (vec![3usize, 1, 4], vec![1usize, 4, 1]);
    let mut state = LayerState::new(&m.config);
    let mut scratch = LayerScratch::new(&m.config);
    let mut cache = SequenceCache::new(&m.config, 3);
    m.forward_sequence_cache(&x, &y, &mut state, &mut scratch, &mut cache);
    let mut grads = ModelGrads::new(&m.config, 10);
    m.backward_sequence_bptt(&x, &cache, 1.0, 0.2, 0.01, &mut scratch, &mut grads);
    let before = grads.clone();
    m.backward_sequence_bptt(&x, &cache, 0.0, 0.0, 0.0, &mut scratch, &mut grads);
    assert_eq!(before.grad_embeddings, grads.grad_embeddings);
    assert_eq!(before.grad_pos_embeddings, grads.grad_pos_embeddings);
    let (a, b) = (&before.layer_grads, &grads.layer_grads);
    assert_eq!((&a.grad_w_s, &a.grad_w_gate), (&b.grad_w_s, &b.grad_w_gate));
    assert_eq!((&a.grad_w_pred, &a.grad_w_decode), (&b.grad_w_pred, &b.grad_w_decode));
    for (e, f) in a.expert_grads.iter().zip(&b.expert_grads) {
        assert_eq!((&e.grad_w_up, &e.grad_w_down), (&f.grad_w_up, &f.grad_w_down));
    }
}

#[test]
fn gradients_are_added_as_far_as_both_go() {
    let mut g = GruGrads::<F64>::new(2, 1);
    let mut h = g.clone();
    h.grad_embeddings = vec![1.0];
    h.grad_w_gate = vec![2.0; 9];
    h.grad_w_cand = vec![];
    h.grad_w_head = vec![0.5, 0.25];
    g.add(&h);
    assert_eq!((g.grad_embeddings, g.grad_w_gate), (vec![1.0, 0.0], vec![2.0; 4]));
    assert_eq!((g.grad_w_cand, g.grad_w_head), (vec![0.0; 2], vec![0.5, 0.25]));
    // Blocks, layers and experts that only one of them has are left alone.
    let mut t = TransformerGrads::<F64>::new(3, 2, 4, 3, 2);
    let mut u = TransformerGrads::<F64>::new(3, 2, 4, 1, 2);
    u.block_grads[0].grad_wq = vec![1.0, 2.0, 3.0];
    t.block_grads[1].grad_wq = vec![7.0; 4];
    t.add(&u);
    assert_eq!(t.block_grads[0].grad_wq, vec![1.0, 2.0, 3.0, 0.0]);
    assert_eq!((t.block_grads.len(), &t.block_grads[1].grad_wq), (3, &vec![7.0; 4]));
    let mut s = StackedModelGrads::<F64>::new(&config(2), 3);
    let mut r = StackedModelGrads::<F64>::new(&config(3), 2);
    r.grad_pos_embeddings = vec![1.0; 12];
    r.layer_grads[1].grad_w_s = vec![2.0; 5];
    r.layer_grads[1].expert_grads.truncate(1);
    r.layer_grads[1].expert_grads[0].grad_w_up = vec![4.0; 60];
    r.layer_grads[2].grad_w_s = vec![9.0; 5];
    s.add(&r);
    assert_eq!(s.layer_grads.len(), 2);
    assert_eq!((s.grad_pos_embeddings[11], s.grad_pos_embeddings[12]), (1.0, 0.0));
    assert_eq!(s.layer_grads[1].grad_w_s[3..7], [2.0, 2.0, 0.0, 0.0]);
    assert_eq!(s.layer_grads[1].expert_grads[0].grad_w_up, vec![4.0; 48]);
    assert_eq!(s.layer_grads[1].expert_grads[4].grad_w_up, vec![0.0; 48]);
    let mut m = ModelGrads::<F64>::new(&config(1), 2);
    let mut n = ModelGrads::<F64>::new(&config(1), 1);
    n.grad_pos_embeddings = vec![3.0; 6];
    m.add(&n);
    assert_eq!(m.grad_pos_embeddings[5..7], [3.0, 0.0]);
    let mut b = ForgeBlockGrads::<F64>::new(2, 1);
    let mut c = ForgeBlockGrads::<F64>::new(2, 3);
    c.grad_w1 = vec![1.0, 2.0, 3.0, 4.0, 5.0, 6.0];
    c.grad_mrm_wo = vec![8.0];
    b.add_scaled(&c, 0.5);
    assert_eq!((b.grad_w1, b.grad_mrm_wo), (vec![0.5, 1.0], vec![4.0, 0.0, 0.0, 0.0]));
    // A step of the optimiser reaches what has a gradient and moments.
    let mut state = AdamWState::<F64>::new(2);
    let mut p = vec![1.0, 1.0, 1.0];
    state.update(&mut p, &[0.5], 0.1);
    assert!((p[0] - (1.0 - 0.1 * (0.5 / 0.5 + 0.01))).abs() < 1e-6);
    assert_eq!((p[1], p[2], state.m[1], state.v[1], state.step), (1.0, 1.0, 0.0, 0.0, 1));
    state.update(&mut p[..2], &[0.5, 0.5, 0.5], 0.1);
    assert!(p[1] < 1.0 && p[2] == 1.0);
}

#[test]
fn a_model_without_layers_learns_nothing() {
    let m = AxiomModel::<F64>::new(config(0), 10, 3);
    assert!(m.layers.is_empty());
    let (x, y) = (vec![3usize, 1, 4], vec![1usize, 4, 1]);
    let mut hs = vec![vec![0.0; 18]];
    let losses = m.forward_sequence_stacked(&x, &y, &mut [], &mut [], &mut [], &mut hs);
    assert!(losses.is_empty());
    let mut h = vec![0.0; 6];
    m.embed_token_pos(1, 1, &mut h);
    assert_eq!(hs[0][6..12], h);
    let mut grads = StackedModelGrads::<F64>::new(&config(0), 10);
    grads.grad_embeddings = vec![7.0; 120];
    m.backward_decoupled_parallel(&x, &[], &mut [], 1.0, 0.2, 0.01, &mut grads);
    assert_eq!((grads.grad_embeddings, grads.grad_pos_embeddings), (vec![7.0; 120], vec![0.0; 60]));
}

#[test]
fn seeds_may_reach_the_last_one() {
    // The last block, expert or memory has the last seed there is.
    let t = TransformerModel::<F64>::new(5, 2, 3, 2, 4, u64::MAX - 210);
    assert_eq!(t.blocks.len(), 3);
    let t = TransformerModel::<F64>::new(5, 2, 0, 2, 4, u64::MAX);
    assert!(t.blocks.is_empty());
    let m = AxiomModel::<F64>::new(config(2), 4, u64::MAX - 214);
    assert_eq!(m.layers[1].experts.len(), 5);
    let m = AxiomSingleLayerModel::<F64>::new(config(1), 4, u64::MAX - 105);
    assert_eq!(m.layer.experts.len(), 5);
    let f = ForgeModel::<F64>::new(12, 4, 6, 2, 3, 2, 10, ForgeConfig::full(), u64::MAX - 301);
    assert_eq!(f.blocks.len(), 2);
    let f = ForgeModel::<F64>::new(12, 4, 6, 2, 3, 2, 10, ForgeConfig::no_mrm(), u64::MAX - 201);
    assert_eq!(f.blocks.len(), 2);
}

#[test]
fn no_batches_need_no_data() {
    let empty = CharDataset { data: vec![], vocab_size: 20 };
    let gru = GruModel::<F64>::new(12, 4, 9);
    assert_eq!(evaluate_gru_bpc(&gru, &[], 0, 8), (0.0, 0.0));
    let dense = TransformerModel::<F64>::new(12, 4, 2, 8, 6, 3);
    assert_eq!(evaluate_transformer_bpc(&dense, &[], 0, 8), (0.0, 0.0));
    let single = AxiomSingleLayerModel::<F64>::new(config(2), 10, 3);
    assert_eq!(evaluate_bpc(&single, &empty, 0, 8), (0.0, 0.0));
    // Here no tokens are divided by their number.
    let stacked = AxiomModel::<F64>::new(config(2), 10, 3);
    assert!(evaluate_stacked_bpc(&stacked, &empty, 0, 8).iter().all(|b| b.is_nan()));
    assert!(evaluate_upper_bpc(&stacked, &single.layer, &empty, 0, 8).0.is_nan());
    let mut forge = ForgeModel::<F64>::new(12, 4, 6, 2, 3, 2, 10, ForgeConfig::full(), 42);
    assert_eq!(evaluate_forge_bpc(&mut forge, &[], 0, 8, 5), (0.0, 0.0));
}

#[test]
fn the_upper_layer_is_trained_on_what_the_frozen_one_puts_out() {
    let frozen = AxiomModel::<F64>::new(config(2), 10, 3);
    let mut upper = AxiomSingleLayerModel::<F64>::new(config(2), 10, 5);
    let (x, y) = (vec![3usize, 1, 4, 1, 5], vec![1usize, 4, 1, 5, 9]);
    let weights = LocalLossConfig {
        lambda_pred: 1.0,
        lambda_recon: 0.0,
        lambda_balance: 0.0,
        lambda_residual: 0.0,
    };
    let total = |upper: &AxiomSingleLayerModel<F64>| {
        5.0 * evaluate_upper(&frozen, &upper.layer, &[x.clone()], &[y.clone()], 5).0
    };
    let out = upper_sequence_gradients(&frozen, &upper, &x, &y, &weights);
    assert!(close(out.loss_pred, total(&upper)));
    // The embeddings of the model that carries the layer do not matter.
    upper.embeddings = vec![0.0; 120];
    upper.pos_embeddings = vec![0.0; 60];
    let same = upper_sequence_gradients(&frozen, &upper, &x, &y, &weights);
    assert_eq!((out.loss_pred, &out.grads.grad_w_s), (same.loss_pred, &same.grads.grad_w_s));
    // The gradients of the prediction are the slopes of the loss.
    let eps = 1e-6;
    for i in 0..120 {
        let before = upper.layer.w_pred[i];
        upper.layer.w_pred[i] = before + eps;
        let up = total(&upper);
        upper.layer.w_pred[i] = before - eps;
        let slope = (up - total(&upper)) / (2.0 * eps);
        upper.layer.w_pred[i] = before;
        assert!((slope - out.grads.grad_w_pred[i]).abs() < 1e-6);
    }
    assert_eq!(frozen_hidden(&frozen, &x).len(), 30);
}

#[test]
fn stacked_passes_take_buffers_with_room_to_spare() {
    let m = AxiomModel::<F64>::new(config(2), 10, 3);
    let (x, y) = (vec![3usize, 1, 4], vec![1usize, 4, 1, 5]);
    let run = |sizes: [usize; 2], rows: [usize; 3]| {
        let mut states: Vec<_> = (0..2).map(|_| LayerState::new(&m.config)).collect();
        let mut scratches: Vec<_> = (0..2).map(|_| LayerScratch::new(&m.config)).collect();
        let mut caches: Vec<_> = sizes.iter().map(|&n| SequenceCache::new(&m.config, n)).collect();
        let mut hs: Vec<Vec<f64>> = rows.iter().map(|&n| vec![8.0; n]).collect();
        let losses = m.forward_sequence_stacked(
            &x, &y, &mut states, &mut scratches, &mut caches, &mut hs,
        );
        (losses, hs)
    };
    let (tight, exact) = run([3, 3], [18, 18, 18]);
    let (loose, hs) = run([7, 4], [18, 25, 60]);
    assert_eq!(tight, loose);
    for (a, b) in exact.iter().zip(&hs) {
        assert_eq!(a[..], b[..18]);
        assert!(b[18..].iter().all(|&e| e == 8.0));
    }
}

#[test]
fn gru_gradients_are_added_to_what_was_there() {
    let m = GruModel::<F64>::new(12, 4, 9);
    let (x, y) = (vec![3usize, 1, 4, 1], vec![1usize, 4, 1, 5]);
    let (mut h, mut rz) = (vec![0.0; 20], vec![0.0; 32]);
    let (mut cand, mut cand_in) = (vec![0.0; 16], vec![0.0; 32]);
    let (mut logits, mut probs, mut pred) = (vec![0.0; 48], vec![0.0; 48], vec![0.0; 48]);
    m.forward_sequence(
        &x, &y, &mut h, &mut rz, &mut cand, &mut cand_in, &mut logits, &mut probs, &mut pred,
    );
    let mut alone = GruGrads::<F64>::new(12, 4);
    m.backward_sequence(&x, &h, &rz, &cand, &cand_in, &pred, &mut alone);
    let mut g = GruGrads::<F64>::new(12, 4);
    g.grad_embeddings = vec![2.0; 48];
    g.grad_w_gate = vec![-1.0; 64];
    let mut both = g.clone();
    m.backward_sequence(&x, &h, &rz, &cand, &cand_in, &pred, &mut both);
    g.add(&alone);
    assert!(all_close(&g.grad_embeddings, &both.grad_embeddings));
    assert!(all_close(&g.grad_w_gate, &both.grad_w_gate));
    assert!(all_close(&g.grad_w_cand, &both.grad_w_cand));
    assert!(all_close(&g.grad_w_head, &both.grad_w_head));
    for v in 0..12 {
        let row = &both.grad_embeddings[v * 4..v * 4 + 4];
        assert_eq!(row.iter().all(|&e| e == 2.0), !x.contains(&v));
    }
    let before = both.clone();
    m.backward_sequence(&[], &h, &rz, &cand, &cand_in, &pred, &mut both);
    assert_eq!(before.grad_embeddings, both.grad_embeddings);
    assert_eq!(before.grad_w_gate, both.grad_w_gate);
}
