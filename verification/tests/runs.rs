//! Training runs, from step to step.

use forge_core::arith::Arith;
use forge_core::config::{AxiomConfig, ForgeConfig};
use forge_core::dataset::{sample_windows, CharDataset};
use forge_core::diagnostic::{
    compare_layers, first_stage, freeze, last_bpc, second_stage, untrained_layers,
};
use forge_core::exp_e3::{e3_texts, run_e3_on_text, run_e3_on_texts};
use forge_core::exp_e4::{few_shot_corpus, few_shot_results, t5_verdict, FewShotVerdict};
use forge_core::forge_eval::{draw_runs, evaluate_forge_bpc};
use forge_core::forge_model::{ForgeBlock, ForgeModel};
use forge_core::forge_run::{validate, ForgeRun, ForgeRunConfig};
use forge_core::forge_trainer::{forge_train_step, ForgeAdam};
use forge_core::freezing_trainer::{evaluate_upper_bpc, freezing_lr, freezing_step};
use forge_core::gru::GruModel;
use forge_core::gru_trainer::{evaluate_gru_bpc, gru_train_step, GruAdamW};
use forge_core::model::AxiomSingleLayerModel;
use forge_core::optimizer::{AdamW, AdamWConfig, StackedAdamW};
use forge_core::runs::{
    BaselineConfig, BpttRun, Event, FreezingConfig, FreezingRun, GruRun, StackedRun, TransformerRun,
};
use forge_core::schedule::Limit;
use forge_core::stacked_model::AxiomModel;
use forge_core::stacked_trainer::{
    evaluate_stacked_bpc, stacked_batch_gradients, stacked_train_step,
};
use forge_core::trainer::{evaluate_bpc, train_step, LocalLossConfig, TrainerConfig};
use forge_core::transformer_model::TransformerModel;
use forge_core::transformer_trainer::{
    evaluate_transformer_bpc, transformer_train_step, TransformerAdamW,
};
use rand::rngs::StdRng;
use rand::{Rng, SeedableRng};

/// Single precision floats.
#[derive(Debug, Clone, Copy)]
struct F32;

impl Arith for F32 {
    type T = f32;

    fn lit(digits: u64, decimals: u32) -> f32 {
        match (digits, decimals) {
            (n, 0) => n as f32,
            (5, 1) => 0.5,
            (1, 4) => 1e-4,
            (1, 5) => 1e-5,
            (1, 6) => 1e-6,
            (1, 12) => 1e-12,
            (44715, 6) => 0.044715,
            (79788456, 8) => 0.79788456,
            _ => format!("{}e-{}", digits, decimals).parse().unwrap(),
        }
    }

    fn neg_inf() -> f32 {
        f32::NEG_INFINITY
    }

    fn count(n: usize) -> f32 {
        n as f32
    }

    fn plus(a: f32, b: f32) -> f32 {
        a + b
    }

    fn minus(a: f32, b: f32) -> f32 {
        a - b
    }

    fn times(a: f32, b: f32) -> f32 {
        a * b
    }

    fn over(a: f32, b: f32) -> f32 {
        a / b
    }

    fn negate(a: f32) -> f32 {
        -a
    }

    fn exceeds(a: f32, b: f32) -> bool {
        a > b
    }

    fn equals(a: f32, b: f32) -> bool {
        a == b
    }

    fn larger(a: f32, b: f32) -> f32 {
        a.max(b)
    }

    fn exp(a: f32) -> f32 {
        a.exp()
    }

    fn ln(a: f32) -> f32 {
        a.ln()
    }

    fn tanh(a: f32) -> f32 {
        a.tanh()
    }

    fn sqrt(a: f32) -> f32 {
        a.sqrt()
    }

    fn powf(a: f32, b: f32) -> f32 {
        a.powf(b)
    }

    fn powi(a: f32, n: u32) -> f32 {
        a.powi(n as i32)
    }

    fn cos(a: f32) -> f32 {
        a.cos()
    }

    fn smaller(a: f32, b: f32) -> f32 {
        a.min(b)
    }

    fn whole(a: f32) -> usize {
        a as usize
    }

    fn uniform(mut rng: StdRng, lo: f32, hi: f32) -> (f32, StdRng) {
        let x = rng.gen_range(lo..hi);
        (x, rng)
    }
}

/// Double precision floats.
#[derive(Debug, Clone, Copy)]
struct F64;

impl Arith for F64 {
    type T = f64;

    fn lit(digits: u64, decimals: u32) -> f64 {
        match (digits, decimals) {
            (n, 0) => n as f64,
            (5, 1) => 0.5,
            (1, 4) => 1e-4,
            (1, 5) => 1e-5,
            (1, 6) => 1e-6,
            (1, 12) => 1e-12,
            (44715, 6) => 0.044715,
            (79788456, 8) => 0.79788456,
            _ => format!("{}e-{}", digits, decimals).parse().unwrap(),
        }
    }

    fn neg_inf() -> f64 {
        f64::NEG_INFINITY
    }

    fn count(n: usize) -> f64 {
        n as f64
    }

    fn plus(a: f64, b: f64) -> f64 {
        a + b
    }

    fn minus(a: f64, b: f64) -> f64 {
        a - b
    }

    fn times(a: f64, b: f64) -> f64 {
        a * b
    }

    fn over(a: f64, b: f64) -> f64 {
        a / b
    }

    fn negate(a: f64) -> f64 {
        -a
    }

    fn exceeds(a: f64, b: f64) -> bool {
        a > b
    }

    fn equals(a: f64, b: f64) -> bool {
        a == b
    }

    fn larger(a: f64, b: f64) -> f64 {
        a.max(b)
    }

    fn exp(a: f64) -> f64 {
        a.exp()
    }

    fn ln(a: f64) -> f64 {
        a.ln()
    }

    fn tanh(a: f64) -> f64 {
        a.tanh()
    }

    fn sqrt(a: f64) -> f64 {
        a.sqrt()
    }

    fn powf(a: f64, b: f64) -> f64 {
        a.powf(b)
    }

    fn powi(a: f64, n: u32) -> f64 {
        a.powi(n as i32)
    }

    fn cos(a: f64) -> f64 {
        a.cos()
    }

    fn smaller(a: f64, b: f64) -> f64 {
        a.min(b)
    }

    fn whole(a: f64) -> usize {
        a as usize
    }

    fn uniform(mut rng: StdRng, lo: f64, hi: f64) -> (f64, StdRng) {
        let x = rng.gen_range(lo..hi);
        (x, rng)
    }
}

fn stack_config() -> AxiomConfig<F32> {
    AxiomConfig {
        vocab_size: 256,
        d_model: 8,
        num_layers: 2,
        num_experts: 4,
        active_experts: 2,
        buffer_capacity: 16,
        d_ffn: 12,
        hebbian_decay: 0.999,
        hebbian_lr: 1e-4,
    }
}

fn run_config() -> TrainerConfig<F32> {
    TrainerConfig {
        batch_size: 3,
        seq_len: 6,
        max_steps: 3,
        max_time_secs: 60,
        base_lr: 1e-2,
        min_lr: 1e-4,
        warmup_steps: 2,
        eval_interval: 3,
        loss_weights: LocalLossConfig::default(),
    }
}

fn baseline_config() -> BaselineConfig<F32> {
    BaselineConfig { batch_size: 3, seq_len: 6, max_steps: 2, base_lr: 1e-2 }
}

fn corpus(text: &[u8]) -> CharDataset {
    CharDataset::from_bytes(text.repeat(30))
}

#[test]
fn single_layer_runs_go_on_step_by_step() {
    let (train, val) = (corpus(b"hello world "), corpus(b"other words "));
    let config = run_config();
    let mut model = AxiomSingleLayerModel::<F32>::new(stack_config(), 16, 3);
    let mut run = BpttRun::new(&model, &config);
    let mut by_hand = AxiomSingleLayerModel::<F32>::new(stack_config(), 16, 3);
    let mut optimizer = AdamW::new(AdamWConfig::with_lr(1e-2), &by_hand);
    let mut rng = StdRng::seed_from_u64(42);
    for step in 1..=3 {
        let (xs, ys) = train.sample_batch(3, 6, &mut rng);
        let (loss, lr) = train_step(&mut by_hand, &mut optimizer, &xs, &ys, &config, step);
        match run.advance::<F64>(&mut model, &train, &val, &config, 59.9, 60.0) {
            Event::Stepped(p) => {
                assert_eq!((p.step, p.train_loss, p.lr), (step, loss, lr));
                assert_eq!(p.validation.is_some(), step != 2);
                if let Some(v) = p.validation {
                    assert_eq!(v, evaluate_bpc(&by_hand, &val, 10, 6));
                }
            }
            _ => panic!("the run has steps left"),
        }
        assert_eq!(model.layer.w_pred, by_hand.layer.w_pred);
        assert_eq!(model.embeddings, by_hand.embeddings);
    }
    assert!(matches!(
        run.advance::<F64>(&mut model, &train, &val, &config, 0.0, 60.0),
        Event::Finished
    ));
}

#[test]
fn runs_stop_when_their_time_is_up() {
    let data = corpus(b"hello world ");
    let config = run_config();
    let mut model = AxiomModel::<F32>::new(stack_config(), 16, 3);
    let before = model.layers[0].w_pred.clone();
    let mut run = StackedRun::new(&model, &config);
    assert!(matches!(
        run.advance::<F64>(&mut model, &data, &data, &config, 60.0, 60.0),
        Event::TimeUp(1)
    ));
    assert_eq!(model.layers[0].w_pred, before);
    assert!(matches!(
        run.advance::<F64>(&mut model, &data, &data, &config, 59.0, 60.0),
        Event::Stepped(_)
    ));
    assert!(matches!(
        run.advance::<F64>(&mut model, &data, &data, &config, 61.0, 60.0),
        Event::TimeUp(2)
    ));
}

#[test]
fn stacked_runs_go_on_step_by_step() {
    let (train, val) = (corpus(b"hello world "), corpus(b"other words "));
    let config = run_config();
    let mut model = AxiomModel::<F32>::new(stack_config(), 16, 3);
    let mut run = StackedRun::new(&model, &config);
    let mut by_hand = AxiomModel::<F32>::new(stack_config(), 16, 3);
    let mut optimizer = StackedAdamW::new(AdamWConfig::with_lr(1e-2), &by_hand);
    let mut rng = StdRng::seed_from_u64(42);
    for step in 1..=3 {
        let (xs, ys) = train.sample_batch(3, 6, &mut rng);
        let lr = stacked_train_step(&mut by_hand, &mut optimizer, &xs, &ys, &config, step);
        match run.advance::<F64>(&mut model, &train, &val, &config, 0.0, 60.0) {
            Event::Stepped(p) => {
                assert_eq!((p.step, p.lr), (step, lr));
                assert_eq!(p.validation.is_some(), step != 2);
                if let Some(v) = p.validation {
                    assert_eq!(v, evaluate_stacked_bpc(&by_hand, &val, 10, 6));
                }
            }
            _ => panic!("the run has steps left"),
        }
        assert_eq!(model.layers[1].w_s, by_hand.layers[1].w_s);
    }
    assert!(matches!(
        run.advance::<F64>(&mut model, &train, &val, &config, 0.0, 60.0),
        Event::Finished
    ));
}

#[test]
fn gru_runs_go_on_step_by_step() {
    let (train, val) = (corpus(b"hello world ").data, corpus(b"other words ").data);
    let config = baseline_config();
    let mut model = GruModel::<F32>::new(256, 8, 6);
    let mut run = GruRun::new(&model, &config);
    let mut by_hand = GruModel::<F32>::new(256, 8, 6);
    let mut optimizer = GruAdamW::new(&by_hand, 1e-2);
    let mut rng = StdRng::seed_from_u64(42);
    for step in 1..=2 {
        let (xs, ys) = sample_windows(&train, 3, 6, &mut rng);
        let (loss, lr) =
            gru_train_step(&mut by_hand, &mut optimizer, &xs, &ys, 6, step, 2, 1e-2);
        match run.advance::<F64>(&mut model, &train, &val, &config, 0.0, 60.0) {
            Event::Stepped(p) => {
                assert_eq!((p.step, p.train_loss, p.lr), (step, loss, lr));
                let expected = (step == 1).then_some(evaluate_gru_bpc(&by_hand, &val, 10, 6));
                assert_eq!(p.validation, expected);
            }
            _ => panic!("the run has steps left"),
        }
        assert_eq!(model.embeddings, by_hand.embeddings);
    }
    assert!(matches!(
        run.advance::<F64>(&mut model, &train, &val, &config, 0.0, 60.0),
        Event::Finished
    ));
}

#[test]
fn transformer_runs_go_on_step_by_step() {
    // Seven bytes are one window of six tokens with its targets.
    let data = b"windows".to_vec();
    let config = baseline_config();
    let mut model = TransformerModel::<F32>::new(256, 8, 2, 12, 16, 6);
    let mut run = TransformerRun::new(&model, &config);
    let mut by_hand = TransformerModel::<F32>::new(256, 8, 2, 12, 16, 6);
    let mut optimizer = TransformerAdamW::new(&by_hand, 1e-2);
    let mut rng = StdRng::seed_from_u64(42);
    for step in 1..=2 {
        let (xs, ys) = sample_windows(&data, 3, 6, &mut rng);
        assert_eq!(xs[2], vec![119, 105, 110, 100, 111, 119]);
        assert_eq!(ys[2], vec![105, 110, 100, 111, 119, 115]);
        let (loss, lr) =
            transformer_train_step(&mut by_hand, &mut optimizer, &xs, &ys, 6, step, 2, 1e-2);
        match run.advance::<F64>(&mut model, &data, &data, &config, 0.0, 60.0) {
            Event::Stepped(p) => {
                assert_eq!((p.step, p.train_loss, p.lr), (step, loss, lr));
                let expected =
                    (step == 1).then_some(evaluate_transformer_bpc(&by_hand, &data, 10, 6));
                assert_eq!(p.validation, expected);
            }
            _ => panic!("the run has steps left"),
        }
        assert_eq!(model.head, by_hand.head);
    }
    assert!(matches!(
        run.advance::<F64>(&mut model, &data, &data, &config, 60.5, 60.0),
        Event::Finished
    ));
}

#[test]
fn the_second_stage_of_freezing_evaluates_now_and_then() {
    let (train, val) = (corpus(b"hello world "), corpus(b"other words "));
    let frozen = AxiomModel::<F32>::new(stack_config(), 16, 3);
    let mut upper = AxiomSingleLayerModel::<F32>::new(stack_config(), 16, 5);
    let mut by_hand = AxiomSingleLayerModel::<F32>::new(stack_config(), 16, 5);
    let mut optimizer = AdamW::new(AdamWConfig::with_lr(5e-3), &by_hand);
    let mut rng = StdRng::seed_from_u64(1042);
    let config = FreezingConfig {
        batch_size: 2,
        seq_len: 5,
        steps: 27,
        loss_weights: LocalLossConfig::default(),
    };
    let mut run = FreezingRun::new(&upper);
    let mut evaluated = Vec::new();
    for step in 1..=27 {
        let (xs, ys) = train.sample_batch(2, 5, &mut rng);
        let lr = freezing_lr::<F32>(step, 27);
        freezing_step(
            &frozen, &mut by_hand, &mut optimizer, &xs, &ys, 5, &config.loss_weights, lr,
        );
        let p = run.advance(&frozen, &mut upper, &train, &val, &config).unwrap();
        assert_eq!((p.step, p.lr), (step, lr));
        assert_eq!(upper.layer.w_pred, by_hand.layer.w_pred);
        if let Some(v) = p.validation {
            evaluated.push(step);
            assert_eq!(v, evaluate_upper_bpc(&frozen, &by_hand.layer, &val, 10, 5));
        }
    }
    assert_eq!(evaluated, vec![25, 27]);
    assert!(run.advance(&frozen, &mut upper, &train, &val, &config).is_none());
}

#[test]
fn forge_runs_go_on_step_by_step() {
    let (train, val) = (corpus(b"hello world ").data, corpus(b"other words ").data);
    let config = ForgeRunConfig { batch_size: 2, seq_len: 5, max_steps: 2, base_lr: 1e-2 };
    let mut model = ForgeModel::<F32>::new(256, 4, 6, 2, 3, 2, 10, ForgeConfig::full(), 7);
    model.total_flops = 99;
    let mut run: ForgeRun<F32, F64> = ForgeRun::new(&mut model, &config);
    assert_eq!((model.total_flops, run.flops_so_far), (0, 0.0));
    let mut by_hand = model.clone();
    let mut optimizer = ForgeAdam::new(&by_hand);
    let mut rng = StdRng::seed_from_u64(777);
    for step in 1..=2 {
        let batch = draw_runs(&train, 2, 6, &mut rng);
        let (loss, lr, flops) =
            forge_train_step(&mut by_hand, &mut optimizer, &batch, 5, step, 2, 1e-2);
        // The limit itself is still within the time.
        match run.advance(&mut model, &train, &config, 60.0, 60.0) {
            Event::Stepped(p) => {
                assert_eq!((p.step, p.train_loss, p.lr), (step, loss / 10.0, lr));
                assert_eq!((p.flops, p.validate), (flops, step == 1));
                // Ten tokens forward and backward: 3 * (2 * 256 * 4) for the head, 2 * 4 for the
                // embedding, and 3 * 312 for each of the two blocks. The validation between the
                // steps does not count.
                assert_eq!(flops, 10 * (3 * 2048 + 8 + 3 * 2 * 312));
                assert_eq!(run.flops_so_far, (step as u64 * flops) as f64);
                if p.validate {
                    assert_eq!(
                        validate(&mut model, &val, &config, step),
                        evaluate_forge_bpc(&mut by_hand, &val, 8, 5, step as u64)
                    );
                }
            }
            _ => panic!("the run has steps left"),
        }
        assert_eq!(model.head, by_hand.head);
        assert_eq!(model.blocks[1].w2, by_hand.blocks[1].w2);
    }
    assert!(matches!(
        run.advance(&mut model, &train, &config, 0.0, 60.0),
        Event::Finished
    ));
    let mut late: ForgeRun<F32, F64> = ForgeRun::new(&mut model, &config);
    assert!(matches!(
        late.advance(&mut model, &train, &config, 60.1, 60.0),
        Event::TimeUp(1)
    ));
}

#[test]
fn no_gradient_reaches_another_layer() {
    let data = corpus(b"hello world ");
    let mut rng = StdRng::seed_from_u64(1);
    let (xs, ys) = data.sample_batch(3, 6, &mut rng);
    let weights: LocalLossConfig<F32> = LocalLossConfig::default();
    let model = AxiomModel::<F32>::new(stack_config(), 16, 3);
    let grads = stacked_batch_gradients(&model, &xs, &ys, 6, &weights);
    let mut other = AxiomModel::<F32>::new(stack_config(), 16, 3);
    let upper = &mut other.layers[1];
    for w in upper.w_pred.iter_mut().chain(upper.w_s.iter_mut()) {
        *w = -2.0 * *w;
    }
    let changed = stacked_batch_gradients(&other, &xs, &ys, 6, &weights);
    assert_eq!(grads.layer_grads[0].grad_w_s, changed.layer_grads[0].grad_w_s);
    assert_eq!(grads.layer_grads[0].grad_w_pred, changed.layer_grads[0].grad_w_pred);
    assert_eq!(grads.grad_embeddings, changed.grad_embeddings);
    assert_ne!(grads.layer_grads[1].grad_w_pred, changed.layer_grads[1].grad_w_pred);
}

#[test]
fn blocks_without_a_memory_add_the_norm() {
    let mut block = ForgeBlock::<F32>::new(2, 3, 4, 2, ForgeConfig::no_mrm(), 5);
    block.w2 = vec![0.0; 6];
    let mut h = vec![3.0f32, 4.0];
    block.forward(&mut h);
    let rms = (12.5f32 + 1e-5).sqrt();
    assert!((h[0] - (3.0 + 3.0 / rms)).abs() < 1e-5);
    assert!((h[1] - (4.0 + 4.0 / rms)).abs() < 1e-5);
    assert_eq!(block.flops_forward, 36);
}

#[test]
fn texts_are_measured_one_by_one() {
    let texts = e3_texts(b"some words of an encyclopedia");
    let stats = run_e3_on_texts::<F32>(&texts, 8, 4, 2);
    assert_eq!(stats.len(), 4);
    for (s, (name, text)) in stats.iter().zip(&texts) {
        let one = run_e3_on_text::<F32>(text, name, 8, 4, 2, 0.3);
        assert_eq!((s.text_type.as_str(), s.n_tokens), (*name, text.len()));
        assert_eq!((s.skip_rate, s.write_rate), (one.skip_rate, one.write_rate));
    }
}

#[test]
fn few_shot_results_come_in_pairs() {
    let model = ForgeModel::<F32>::new(256, 4, 6, 1, 3, 2, 70, ForgeConfig::full(), 7);
    let (corpus, examples) = few_shot_corpus();
    let results = few_shot_results(&model, &corpus, &examples, &[0, 4]);
    let shape: Vec<(usize, bool)> =
        results.iter().map(|r| (r.k_examples, r.method.contains("frozen"))).collect();
    assert_eq!(shape, vec![(0, true), (0, false), (4, true), (4, false)]);
    assert!(results.iter().all(|r| !r.used_gradient && r.val_bpc > 0.0));
    // Without examples nothing is adapted.
    assert_eq!(results[0].val_bpc, results[1].val_bpc);
    assert_ne!(results[2].val_bpc, results[3].val_bpc);
    assert!(matches!(t5_verdict(&results), FewShotVerdict::Missing));
}

#[test]
fn freezing_keeps_the_first_layer_and_carries_the_second() {
    let (single, second) = untrained_layers::<F32>();
    let whole = AxiomModel::<F32>::new(single.config.clone(), 1024, 42);
    assert_eq!(single.embeddings, whole.embeddings);
    assert_eq!(single.layer.w_s, whole.layers[0].w_s);
    assert_eq!(second.w_s, whole.layers[1].w_s);
    let stage = freeze(single, second);
    assert_eq!(stage.frozen.pos_embeddings, whole.pos_embeddings);
    assert_eq!(stage.frozen.layers[0].w_gate, whole.layers[0].w_gate);
    assert_eq!(stage.frozen.layers[1].experts[7].w_up, whole.layers[1].experts[7].w_up);
    assert_eq!(stage.upper.layer.w_decode, whole.layers[1].w_decode);
    assert!(stage.upper.embeddings.iter().all(|&w| w == 0.0));
    assert_eq!((stage.run.step, stage.run.optimizer.config.lr), (0, 5e-3));
}

#[test]
fn the_diagnostic_compares_the_last_validations() {
    let config = first_stage::<F32>(200);
    assert_eq!((config.max_steps, config.warmup_steps, config.max_time_secs), (200, 25, 150));
    assert_eq!(last_bpc::<F32, F64>(&[]), 99.0);
    assert_eq!(last_bpc::<F32, F64>(&[(1, 9.0, 8.0, 0.1), (25, 7.0, 6.0, 0.2)]), 6.0);
    let worse = compare_layers::<F32>(4.0, 5.0);
    assert_eq!((worse.delta, worse.restored), (25.0, false));
    let better = compare_layers::<F32>(4.0, 3.0);
    assert_eq!((better.delta, better.restored), (-25.0, true));
}

#[test]
fn runs_without_steps_ask_for_nothing() {
    let nothing = CharDataset::from_bytes(Vec::new());
    let config = TrainerConfig { max_steps: 0, eval_interval: 0, ..run_config() };
    let mut single = AxiomSingleLayerModel::<F32>::new(stack_config(), 16, 3);
    let mut run = BpttRun::new(&single, &config);
    assert!(matches!(
        run.advance::<F64>(&mut single, &nothing, &nothing, &config, 0.0, 60.0),
        Event::Finished
    ));
    let mut stack = AxiomModel::<F32>::new(stack_config(), 16, 3);
    let mut run = StackedRun::new(&stack, &config);
    assert!(matches!(
        run.advance::<F64>(&mut stack, &nothing, &nothing, &config, 0.0, 60.0),
        Event::Finished
    ));
    // Nor do runs whose time is up.
    let config = TrainerConfig { eval_interval: 0, ..run_config() };
    let mut run = BpttRun::new(&single, &config);
    assert!(!run.schedule.has_step_due::<F64>(60.0, 60.0, Limit::Reached));
    assert!(run.schedule.has_step_due::<F64>(60.0, 60.0, Limit::Exceeded));
    assert!(matches!(
        run.advance::<F64>(&mut single, &nothing, &nothing, &config, 60.0, 60.0),
        Event::TimeUp(1)
    ));
    let config = ForgeRunConfig { batch_size: 2, seq_len: 5, max_steps: 0, base_lr: 1e-2 };
    let mut forge = ForgeModel::<F32>::new(256, 4, 6, 2, 3, 2, 10, ForgeConfig::full(), 7);
    let mut run: ForgeRun<F32, F64> = ForgeRun::new(&mut forge, &config);
    assert!(matches!(run.advance(&mut forge, &[], &config, 0.0, 60.0), Event::Finished));
    let (single, second) = untrained_layers::<F32>();
    let stage = freeze(single, second);
    let (frozen, mut upper, mut run) = (stage.frozen, stage.upper, stage.run);
    let config = second_stage::<F32>(0);
    assert!(run.advance(&frozen, &mut upper, &nothing, &nothing, &config).is_none());
}
