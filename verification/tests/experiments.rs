//! The experiments: what they measure and how they judge it.

use forge_core::ablation::{
    dense_arm, dense_flops, dense_result, dense_run, forge_arm, forge_configs, forge_result,
    forge_run,
};
use forge_core::arith::Arith;
use forge_core::config::ForgeConfig;
use forge_core::exp_e1::{attribute, dense_train_flops, TrainResult};
use forge_core::exp_e2::{
    compute_stats, cosine, needle_key, needle_value, random_unit, recall_from_cache,
    recall_from_stream, recall_trial_mrm, recall_trial_transformer_kv, t1_verdict, unit_vector,
    RecallResult, RecallStats, RecallVerdict,
};
use forge_core::exp_e3::{e3_confirmed, e3_texts, run_e3_on_text};
use forge_core::exp_e4::{
    apply_fast_weight_adaptation, few_shot_corpus, few_shot_pair, frozen_baselines, t5_verdict,
    FewShotResult, FewShotVerdict,
};
use forge_core::exp_e5_e6::{
    audit_flops, bench_result, pair_at_8k, speedup, t4_passed, transformer_flops_per_token,
    FlopVerdict,
};
use forge_core::forge_eval::sample_runs;
use forge_core::forge_run::ForgeRun;
use forge_core::forge_model::ForgeModel;
use forge_core::mrm::MultiResMemory;
use forge_core::transformer::TransformerGrads;
use forge_core::transformer_model::TransformerModel;
use forge_core::recall_run::{
    recall_contexts, recall_generator, recall_methods, RecallCell, RecallMethod,
};
use rand::rngs::StdRng;
use rand::{Rng, SeedableRng};

/// Single precision floats.
#[derive(Debug, Clone, Copy)]
struct F32;

impl Arith for F32 {
    type T = f32;

    fn lit(digits: u64, decimals: u32) -> f32 {
        match (digits, decimals) {
            (n, 0) => n as f32,
            (5, 1) => 0.5,
            (1, 4) => 1e-4,
            (1, 5) => 1e-5,
            (1, 6) => 1e-6,
            (1, 12) => 1e-12,
            (44715, 6) => 0.044715,
            (79788456, 8) => 0.79788456,
            _ => format!("{}e-{}", digits, decimals).parse().unwrap(),
        }
    }

    fn neg_inf() -> f32 {
        f32::NEG_INFINITY
    }

    fn count(n: usize) -> f32 {
        n as f32
    }

    fn plus(a: f32, b: f32) -> f32 {
        a + b
    }

    fn minus(a: f32, b: f32) -> f32 {
        a - b
    }

    fn times(a: f32, b: f32) -> f32 {
        a * b
    }

    fn over(a: f32, b: f32) -> f32 {
        a / b
    }

    fn negate(a: f32) -> f32 {
        -a
    }

    fn exceeds(a: f32, b: f32) -> bool {
        a > b
    }

    fn equals(a: f32, b: f32) -> bool {
        a == b
    }

    fn larger(a: f32, b: f32) -> f32 {
        a.max(b)
    }

    fn exp(a: f32) -> f32 {
        a.exp()
    }

    fn ln(a: f32) -> f32 {
        a.ln()
    }

    fn tanh(a: f32) -> f32 {
        a.tanh()
    }

    fn sqrt(a: f32) -> f32 {
        a.sqrt()
    }

    fn powf(a: f32, b: f32) -> f32 {
        a.powf(b)
    }

    fn powi(a: f32, n: u32) -> f32 {
        a.powi(n as i32)
    }

    fn cos(a: f32) -> f32 {
        a.cos()
    }

    fn smaller(a: f32, b: f32) -> f32 {
        a.min(b)
    }

    fn whole(a: f32) -> usize {
        a as usize
    }

    fn uniform(mut rng: StdRng, lo: f32, hi: f32) -> (f32, StdRng) {
        let x = rng.gen_range(lo..hi);
        (x, rng)
    }
}
/// Double precision floats.
#[derive(Debug, Clone, Copy)]
struct F64;

impl Arith for F64 {
    type T = f64;

    fn lit(digits: u64, decimals: u32) -> f64 {
        match (digits, decimals) {
            (n, 0) => n as f64,
            (5, 1) => 0.5,
            (1, 4) => 1e-4,
            (1, 5) => 1e-5,
            (1, 6) => 1e-6,
            (1, 12) => 1e-12,
            (44715, 6) => 0.044715,
            (79788456, 8) => 0.79788456,
            _ => format!("{}e-{}", digits, decimals).parse().unwrap(),
        }
    }

    fn neg_inf() -> f64 {
        f64::NEG_INFINITY
    }

    fn count(n: usize) -> f64 {
        n as f64
    }

    fn plus(a: f64, b: f64) -> f64 {
        a + b
    }

    fn minus(a: f64, b: f64) -> f64 {
        a - b
    }

    fn times(a: f64, b: f64) -> f64 {
        a * b
    }

    fn over(a: f64, b: f64) -> f64 {
        a / b
    }

    fn negate(a: f64) -> f64 {
        -a
    }

    fn exceeds(a: f64, b: f64) -> bool {
        a > b
    }

    fn equals(a: f64, b: f64) -> bool {
        a == b
    }

    fn larger(a: f64, b: f64) -> f64 {
        a.max(b)
    }

    fn exp(a: f64) -> f64 {
        a.exp()
    }

    fn ln(a: f64) -> f64 {
        a.ln()
    }

    fn tanh(a: f64) -> f64 {
        a.tanh()
    }

    fn sqrt(a: f64) -> f64 {
        a.sqrt()
    }

    fn powf(a: f64, b: f64) -> f64 {
        a.powf(b)
    }

    fn powi(a: f64, n: u32) -> f64 {
        a.powi(n as i32)
    }

    fn cos(a: f64) -> f64 {
        a.cos()
    }

    fn smaller(a: f64, b: f64) -> f64 {
        a.min(b)
    }

    fn whole(a: f64) -> usize {
        a as usize
    }

    fn uniform(mut rng: StdRng, lo: f64, hi: f64) -> (f64, StdRng) {
        let x = rng.gen_range(lo..hi);
        (x, rng)
    }
}

fn close(a: f32, b: f32) -> bool {
    (a - b).abs() <= 1e-5 * (1.0 + a.abs().max(b.abs()))
}

fn small_forge() -> ForgeModel<F32> {
    ForgeModel::new(256, 4, 6, 2, 3, 2, 10, ForgeConfig::full(), 7)
}

/// A memory whose projections are identities.
fn plain_memory() -> MultiResMemory<F32> {
    let mut mrm = MultiResMemory::<F32>::new(2, 4, 1, 1);
    let identity = vec![1.0, 0.0, 0.0, 1.0];
    mrm.w_k = identity.clone();
    mrm.w_v = identity.clone();
    mrm.w_q = identity.clone();
    mrm.w_o = identity;
    mrm
}

fn arm(bpc: f32, flops: f64) -> TrainResult<F32, F64> {
    TrainResult {
        model_name: "arm".to_string(),
        config: ForgeConfig::full(),
        total_params: 1,
        total_train_flops: flops,
        final_val_loss: bpc,
        final_val_bpc: bpc,
        tokens_per_sec: 1.0,
        elapsed_sec: 1.0,
        history: vec![],
    }
}

fn trial(correct: bool, sim: f32, latency: f64) -> RecallResult<F32, F64> {
    RecallResult {
        context_len: 256,
        method: "FORGE MRM".to_string(),
        recall_correct: correct,
        best_cosine_sim: sim,
        latency_us: latency,
        memory_bytes: 77,
    }
}

fn stats(context_len: usize, method: &str, accuracy: f32) -> RecallStats<F32, F64> {
    RecallStats {
        context_len,
        method: method.to_string(),
        accuracy,
        p50_latency_us: 0.0,
        p95_latency_us: 0.0,
        p99_latency_us: 0.0,
        mean_cosine_sim: 0.0,
        memory_bytes: 0,
    }
}

fn few_shot(method: &str, k: usize, bpc: f32) -> FewShotResult<F32> {
    FewShotResult {
        method: method.to_string(),
        k_examples: k,
        val_bpc: bpc,
        val_loss: bpc,
        used_gradient: false,
    }
}

#[test]
fn transformers_count_their_weights() {
    let t = TransformerModel::<F32>::new(20, 4, 2, 6, 10, 9);
    assert_eq!(t.param_count(), 80 + 40 + 2 * (4 * 16 + 2 * 24) + 80);
    assert_eq!(dense_train_flops::<F64>(128, 64, 2, 1000), 983_040_000.0);
}

#[test]
fn mechanisms_are_attributed_from_five_arms() {
    let arms = [arm(2.0, 50.0), arm(3.0, 1.0), arm(2.5, 1.0), arm(2.75, 1.0), arm(2.25, 10.0)];
    assert!(attribute(&arms[..4]).is_none());
    let a = attribute(&arms).unwrap();
    assert_eq!((a.mrm, a.surprise_gate, a.fast_weights, a.full), (-0.5, 0.25, -0.5, 0.25));
    assert_eq!(a.flop_ratio, 5.0);
}

#[test]
fn needles_have_length_one() {
    assert_eq!(unit_vector::<F32>(&[3.0, 4.0]), vec![3.0 / 5.0, 4.0 / 5.0]);
    // The length of a zero vector counts as a millionth.
    assert_eq!(unit_vector::<F32>(&[0.0, 0.0]), vec![0.0, 0.0]);
    let (key, value) = (needle_key::<F32>(16), needle_value::<F32>(16));
    assert!(close(cosine::<F32>(&key, &key), 1.0));
    assert!(close(value.iter().map(|x| x * x).sum::<f32>(), 1.0));
    // The signal before it is scaled: 0.3, 1.0 without its whole part, and so on.
    let raw: Vec<f32> = (0..16).map(|i| ((i as f32 * 0.7 + 0.3) % 1.0) * 2.0 - 1.0).collect();
    let norm = raw.iter().map(|x| x * x).sum::<f32>().sqrt();
    for (k, r) in key.iter().zip(raw.iter()) {
        assert!((k - r / norm).abs() < 1e-6);
    }
}

#[test]
fn random_vectors_are_those_of_the_generator() {
    let h = random_unit::<F32>(&mut StdRng::seed_from_u64(4), 5);
    let mut rng = StdRng::seed_from_u64(4);
    let raw: Vec<f32> = (0..5).map(|_| rng.gen_range(-1.0f32..1.0f32)).collect();
    let norm = raw.iter().map(|x| x * x).sum::<f32>().sqrt();
    for (a, b) in h.iter().zip(raw.iter()) {
        assert!(close(*a, b / norm));
    }
}

#[test]
fn a_needle_is_recalled_from_an_otherwise_quiet_stream() {
    let (key, value) = ([1.0f32, 0.0], [0.0f32, 2.0]);
    // The zero vectors surprise nobody, so only the needle is written.
    let quiet = vec![vec![0.0; 2]; 3];
    let mut mrm = plain_memory();
    let (correct, sim) = recall_from_stream(&mut mrm, &quiet, 1, &key, &value, false);
    assert!(correct && close(sim, 1.0));
    assert_eq!(mrm.stats.total_writes, 1);
    assert_eq!(&mrm.fine_keys[..2], &key);
    // Nothing is left from the run before, and a needle that comes too late is not written: the
    // key alone comes back, which is (1, 0) where (1, 2) is expected.
    let (correct, sim) = recall_from_stream(&mut mrm, &quiet, 9, &key, &value, false);
    assert!(!correct && close(sim, 1.0 / 5.0f32.sqrt()));
    assert_eq!(mrm.stats.total_writes, 0);
}

#[test]
fn a_full_cache_recalls_by_attention() {
    let (key, value) = ([1.0f32, 0.0], [0.0f32, 1.0]);
    assert_eq!(recall_from_cache::<F32>(&vec![vec![0.5, 0.5]], 0, &key, &value), (true, 1.0));
    assert_eq!(recall_from_cache::<F32>(&vec![vec![1.0, 0.0]], 9, &key, &value), (false, 0.0));
    // Beside one other vector the needle has the weight e / (e + 1).
    let (correct, sim) =
        recall_from_cache::<F32>(&vec![vec![9.0, 9.0], vec![0.0, -1.0]], 0, &key, &value);
    assert!(correct && close(sim, 1.0));
}

#[test]
fn trials_report_their_memory_and_follow_their_seed() {
    let (key, value) = (needle_key::<F32>(8), needle_value::<F32>(8));
    let run = |use_fast_weights: bool| {
        let mut mrm = MultiResMemory::<F32>::new(8, 4, 2, 42);
        let mut rng = StdRng::seed_from_u64(3);
        recall_trial_mrm(&mut mrm, 30, 7, &key, &value, &mut rng, use_fast_weights)
    };
    assert_eq!(run(false), run(false));
    assert_eq!(run(true), run(true));
    assert_eq!((run(false).2, run(false).0), (6 * 8 * 4, run(false).1 > 0.7));
    let mut rng = StdRng::seed_from_u64(3);
    let r = recall_trial_transformer_kv::<F32>(30, 7, &key, &value, &mut rng);
    assert_eq!((r.2, r.0), (30 * 8 * 2 * 4, r.1 > 0.7));
}

#[test]
fn trials_are_summed_up() {
    let s = compute_stats(&[trial(true, 0.75, 30.0), trial(false, 0.25, 10.0), trial(true, 1.0, 20.0)]);
    assert_eq!((s.context_len, s.method.as_str(), s.memory_bytes), (256, "FORGE MRM", 77));
    assert!(close(s.accuracy, 2.0 / 3.0) && close(s.mean_cosine_sim, 2.0 / 3.0));
    assert_eq!((s.p50_latency_us, s.p95_latency_us, s.p99_latency_us), (20.0, 30.0, 30.0));
    let none = compute_stats::<F32, F64>(&[]);
    assert_eq!((none.context_len, none.method.as_str(), none.accuracy), (0, "?", 0.0));
    assert_eq!((none.p50_latency_us, none.memory_bytes), (0.0, 0));
}

#[test]
fn recall_is_judged_at_4k() {
    let passed = t1_verdict(&[
        stats(4096, "Transformer KV Cache", 0.1),
        stats(256, "FORGE MRM", 0.1),
        stats(4096, "FORGE MRM+FastWeights", 0.1),
        stats(4096, "FORGE MRM", 0.95),
    ]);
    assert!(matches!(passed, RecallVerdict::Passed(x) if x == 0.95));
    let failed = t1_verdict(&[stats(4096, "FORGE MRM", 0.5), stats(4096, "FORGE MRM", 0.95)]);
    assert!(matches!(failed, RecallVerdict::Failed(x) if x == 0.5));
    assert!(matches!(t1_verdict(&[stats(8192, "FORGE MRM", 1.0)]), RecallVerdict::Missing));
}

#[test]
fn rates_of_the_surprise_gate_add_up() {
    let s = run_e3_on_text::<F32>(b"aaaaaaaaaa", "same", 8, 4, 2, 0.3);
    assert_eq!((s.text_type.as_str(), s.n_tokens), ("same", 10));
    assert!(close(s.skip_rate + s.write_rate, 1.0));
    assert!(s.p10_surprise <= s.p50_surprise && s.p50_surprise <= s.p90_surprise);
    // The first byte is a vector of length one away from a mean of zero.
    assert!(close(s.p90_surprise, 1.0));
    // Nothing surprises beyond a threshold out of reach, everything below zero.
    assert_eq!(run_e3_on_text::<F32>(b"abcabc", "x", 8, 4, 2, 9.0).skip_rate, 1.0);
    assert_eq!(run_e3_on_text::<F32>(b"abcabc", "x", 8, 4, 2, -9.0).write_rate, 1.0);
    // Only the first 4096 bytes count.
    assert_eq!(run_e3_on_text::<F32>(&vec![b'x'; 5000], "x", 2, 2, 1, 0.3).n_tokens, 4096);
}

#[test]
fn four_texts_are_compared() {
    let texts = e3_texts(b"wiki");
    let names: Vec<&str> = texts.iter().map(|t| t.0).collect();
    assert_eq!(
        names,
        vec!["Repetitive text", "Normal Wikipedia", "Code (synthetic)", "Random bytes"]
    );
    assert_eq!(&texts[0].1[..30], b"hello world hello world hello ");
    assert_eq!(texts[1].1, b"wiki".to_vec());
    assert!(texts[2].1.starts_with(b"fn main() { let x = 42; "));
    let mut rng = StdRng::seed_from_u64(2);
    let random: Vec<u8> = (0..4096).map(|_| rng.gen::<u8>()).collect();
    assert_eq!(texts[3].1, random);
    assert!(e3_confirmed::<F32>(0.6) && e3_confirmed::<F32>(0.9) && !e3_confirmed::<F32>(0.59));
}

#[test]
fn fast_weights_come_from_the_halves_of_the_examples() {
    let mut m = small_forge();
    apply_fast_weight_adaptation(&mut m, &[vec![1, 2], vec![3, 4]], 1);
    let mrm = m.blocks[1].mrm.as_ref().unwrap();
    assert!(mrm.fw_active);
    assert_eq!(mrm.fw_v[..], m.embeddings[4..8]);
    for i in 0..4 {
        let u: f32 = (0..4).map(|j| mrm.w_o[i * 4 + j] * m.embeddings[8 + j]).sum();
        assert!(close(mrm.fw_u[i], u));
    }
    apply_fast_weight_adaptation(&mut m, &[vec![1, 2], vec![3, 4]], 9);
    for i in 0..4 {
        let mean = (m.embeddings[4 + i] + m.embeddings[12 + i]) / 2.0;
        assert!(close(m.blocks[0].mrm.as_ref().unwrap().fw_v[i], mean));
    }
    apply_fast_weight_adaptation(&mut m, &[vec![1, 2]], 0);
    assert!(m.blocks.iter().all(|b| !b.mrm.as_ref().unwrap().fw_active));
}

#[test]
fn few_shots_are_compared_on_the_same_windows() {
    let (corpus, examples) = few_shot_corpus();
    assert_eq!((corpus.len(), examples.len()), (32768, 32));
    assert_eq!(examples[3], corpus[192..256].to_vec());
    let m = small_forge();
    let (frozen, adapted) = few_shot_pair(&m, &corpus, &examples, 0);
    assert_eq!(frozen.method, "FORGE (frozen, no fast-weights)");
    assert_eq!(adapted.method, "FORGE+FastWeights (zero grad)");
    assert_eq!((frozen.val_bpc, frozen.k_examples), (adapted.val_bpc, 0));
    assert!(close(frozen.val_loss, frozen.val_bpc * std::f32::consts::LN_2));
    assert!(!frozen.used_gradient && !adapted.used_gradient);
    let (frozen, adapted) = few_shot_pair(&m, &corpus, &examples, 16);
    assert_ne!(frozen.val_bpc, adapted.val_bpc);
}

#[test]
fn fast_weights_are_judged_at_sixteen_examples() {
    let (frozen, fast) = ("FORGE (frozen, no fast-weights)", "FORGE+FastWeights (zero grad)");
    let v = t5_verdict(&[few_shot(frozen, 8, 9.0), few_shot(frozen, 16, 3.0), few_shot(fast, 16, 2.5)]);
    assert!(matches!(v, FewShotVerdict::Passed(bpc, delta) if bpc == 2.5 && delta == 0.5));
    let v = t5_verdict(&[few_shot(frozen, 16, 3.0), few_shot(fast, 16, 3.0)]);
    assert!(matches!(v, FewShotVerdict::Failed(delta) if delta == 0.0));
    assert!(matches!(t5_verdict(&[few_shot(frozen, 16, 3.0)]), FewShotVerdict::Missing));
    assert!(matches!(t5_verdict::<F32>(&[]), FewShotVerdict::Missing));
}

#[test]
fn decoding_costs_what_its_formula_says() {
    assert_eq!(transformer_flops_per_token(2, 128, 64), 327_680);
    assert_eq!(small_forge().decode_flops_per_token(), 4 * (64 + 10 * 4 + 3 * 6 * 4));
    let t = TransformerModel::<F32>::new(20, 4, 1, 6, 3, 9);
    assert_eq!(t.probe_context(&[]), vec![0.0; 4]);
}

#[test]
fn probes_recompute_full_attention() {
    let t = TransformerModel::<F32>::new(20, 4, 2, 6, 3, 9);
    let probe = |context: &[usize]| t.probe_context(context);
    // The block by hand: positions past the last share it.
    let context = [1usize, 2, 3, 4, 5];
    let mut hs: Vec<Vec<f32>> = (0..5)
        .map(|i| (0..4).map(|j| t.embeddings[context[i] * 4 + j] + t.pos_embeddings[i.min(2) * 4 + j]).collect())
        .collect();
    let times = |w: &[f32], h: &[f32]| -> Vec<f32> {
        w.chunks(h.len()).map(|row| row.iter().zip(h).map(|(a, b)| a * b).sum()).collect()
    };
    let gelu = |x: f32| 0.5 * x * (1.0 + (0.797_884_56 * (x + 0.044715 * x * x * x)).tanh());
    for b in &t.blocks {
        let out = (0..5)
            .map(|i| {
                let q = times(&b.wq, &hs[i]);
                let scores: Vec<f32> = (0..=i)
                    .map(|j| times(&b.wk, &hs[j]).iter().zip(&q).map(|(a, c)| a * c).sum::<f32>() / 2.0)
                    .collect();
                let exps: Vec<f32> = scores.iter().map(|s| s.exp()).collect();
                let total: f32 = exps.iter().sum();
                let mut attn = vec![0.0; 4];
                for j in 0..=i {
                    for (a, v) in attn.iter_mut().zip(times(&b.wv, &hs[j])) {
                        *a += exps[j] / total * v;
                    }
                }
                let mid: Vec<f32> = hs[i].iter().zip(times(&b.wo, &attn)).map(|(a, c)| a + c).collect();
                let act: Vec<f32> = times(&b.w1, &mid).iter().map(|&x| gelu(x)).collect();
                mid.iter().zip(times(&b.w2, &act)).map(|(a, c)| a + c).collect()
            })
            .collect();
        hs = out;
    }
    for (a, b) in probe(&context).iter().zip(&hs[4]) {
        assert!((a - b).abs() < 1e-4, "{a} instead of {b}");
    }
    // Earlier tokens matter.
    assert_ne!(probe(&[1, 2, 3]), probe(&[4, 2, 3]));
    assert_ne!(probe(&[2, 3]), probe(&[3, 3]));
}

#[test]
fn the_frozen_transformer_is_the_baseline_of_few_shots() {
    let t = TransformerModel::<F32>::new(256, 4, 1, 6, 64, 9);
    let (corpus, _) = few_shot_corpus();
    let rows = frozen_baselines(&t, &corpus, &[0, 4, 4]);
    assert_eq!(rows.len(), 3);
    for (r, k) in rows.iter().zip([0, 4, 4]) {
        assert_eq!((r.method.as_str(), r.k_examples, r.used_gradient), ("Transformer (frozen)", k, false));
        // Close to eight bits: the model is not trained.
        assert!(r.val_bpc > 6.0 && r.val_bpc < 10.0);
        assert!(close(r.val_loss, r.val_bpc * 0.693_147_2));
    }
    // The windows are drawn from the number of examples, and nothing is learned on the way.
    assert_eq!(rows[1].val_bpc, rows[2].val_bpc);
    assert_ne!(rows[0].val_bpc, rows[1].val_bpc);
    let runs = sample_runs(&corpus, 20, 65, 4);
    let mut grads = TransformerGrads::new(256, 4, 64, 1, 6);
    let total: f32 = runs
        .iter()
        .map(|run| t.forward_backward_sequence(&run[..64], &run[1..], &mut grads))
        .sum();
    assert!((rows[1].val_bpc - total / 1280.0 / 0.693_147_2).abs() < 1e-3);
}

#[test]
fn decoded_tokens_run_through_all_blocks() {
    let mut m = small_forge();
    let mut by_hand = m.clone();
    let decoded = m.decode_token(65, 100);
    let mut h: Vec<f32> = (0..4).map(|i| by_hand.embeddings[260 + i] + by_hand.pos_embed[36 + i]).collect();
    for block in by_hand.blocks.iter_mut() {
        block.forward(&mut h);
    }
    assert_eq!(decoded, h);
    assert_eq!(m.blocks[1].mrm.as_ref().unwrap().stats.total_tokens, 1);
}

#[test]
fn latencies_are_reported_in_order() {
    let r = bench_result::<F64>("FORGE", 8192, &[1.0, 4.0, 2.0, 3.0], 704, 12.5);
    assert_eq!((r.model_name.as_str(), r.context_len, r.flops_per_token), ("FORGE", 8192, 704));
    assert_eq!((r.tokens_per_sec, r.rss_mb), (400_000.0, 12.5));
    assert_eq!((r.p50_latency_us, r.p95_latency_us, r.p99_latency_us), (3.0, 4.0, 4.0));
    assert_eq!(speedup::<F64>(10.0, 2.0), 5.0);
    assert_eq!(speedup::<F64>(10.0, 0.5), 10.0);
    assert!(t4_passed::<F64>(5.01) && !t4_passed::<F64>(5.0) && !t4_passed::<F64>(4.99));
    let at = |ctx: usize| {
        (
            bench_result::<F64>("Transformer", ctx, &[1.0], 1, 0.0),
            bench_result::<F64>("FORGE", ctx, &[1.0], 1, 0.0),
        )
    };
    assert_eq!(pair_at_8k(&[at(1024), at(8192), at(8192)]), Some(1));
    assert_eq!(pair_at_8k(&[at(1024)]), None);
}

#[test]
fn flop_audits_weigh_cost_against_quality() {
    let a = audit_flops::<F32, F64>(100.0, 1100.0, 2.5, 2.0, 50);
    assert_eq!((a.flop_ratio, a.bpc_gap), (11.0, 0.5));
    assert_eq!((a.transformer_flops_per_token, a.forge_flops_per_token), (22.0, 2.0));
    assert!(matches!(a.verdict, FlopVerdict::Passed));
    let a = audit_flops::<F32, F64>(100.0, 1001.0, 2.75, 2.0, 50);
    assert!(matches!(a.verdict, FlopVerdict::PartiallyFailed));
    let a = audit_flops::<F32, F64>(100.0, 1000.0, 2.0, 2.0, 50);
    assert!(matches!(a.verdict, FlopVerdict::Failed));
}

#[test]
fn arms_share_their_hyperparameters() {
    let dense = dense_run::<F32>(7);
    let forge = forge_run::<F32>(7);
    assert_eq!((dense.batch_size, dense.seq_len, dense.max_steps), (32, 64, 7));
    assert_eq!((forge.batch_size, forge.seq_len, forge.max_steps), (32, 64, 7));
    assert_eq!((dense.base_lr, forge.base_lr), (3e-3, 3e-3));
    let names: Vec<&str> = forge_configs().iter().map(|c| c.name()).collect();
    assert_eq!(
        names,
        vec!["B: FORGE-no-MRM", "C: FORGE+MRM", "D: FORGE+MRM+SurpriseGate", "E: FORGE-Full"]
    );
    let model = dense_arm::<F32>();
    assert_eq!((model.d_model, model.blocks.len(), model.max_seq_len), (128, 2, 128));
    let without = forge_arm::<F32>(ForgeConfig::no_mrm());
    let with = forge_arm::<F32>(ForgeConfig::full());
    assert_eq!(without.embeddings, with.embeddings);
    assert!(without.blocks.iter().all(|b| b.mrm.is_none()));
    assert!(with.blocks.iter().all(|b| b.mrm.as_ref().unwrap().k_fine == 64));
}

#[test]
fn arms_report_what_they_came_to() {
    // 2 * (4 * 128^2 + 2 * 128 * 64) * 2 FLOPs per token, three times over.
    assert_eq!(dense_flops::<F64>(1), 327_680.0 * 2048.0 * 3.0);
    let model = dense_arm::<F32>();
    let r = dense_result::<F32, F64>(&model, 3, 2.0, 2.9, vec![(1, 9.0, 8.0, 0.5), (2, 7.0, 6.0, 4.0)]);
    assert_eq!((r.model_name.as_str(), r.total_params), ("A: Dense Transformer", 344_064));
    assert_eq!((r.elapsed_sec, r.tokens_per_sec), (4.0, 3.0 * 2048.0 / 4.0));
    assert_eq!((r.final_val_loss, r.final_val_bpc, r.history.len()), (2.0, 2.9, 2));
    let idle = dense_result::<F32, F64>(&model, 3, 2.0, 2.9, vec![]);
    assert_eq!((idle.elapsed_sec, idle.tokens_per_sec), (1.0, 6144.0));
    let mut forge = forge_arm::<F32>(ForgeConfig::no_mrm());
    let mut run: ForgeRun<F32, F64> = ForgeRun::new(&mut forge, &forge_run(5));
    run.flops_so_far = 12.0;
    let r = forge_result::<F32, F64>(
        &forge, "B", &forge_run(5), &run, (1.0, 1.5), 2.0, vec![(1, 1.0, 1.5, 2.0)],
    );
    assert_eq!((r.model_name.as_str(), r.total_train_flops), ("B", 12.0));
    assert_eq!((r.total_params, r.tokens_per_sec), (forge.param_count(), 5120.0));
}

#[test]
fn recall_cells_run_their_method() {
    assert_eq!(recall_contexts(), vec![256, 1024, 4096, 8192, 16384, 32768]);
    assert_eq!(recall_methods().len(), 3);
    let (key, value) = (needle_key::<F32>(8), needle_value::<F32>(8));
    for method in recall_methods() {
        let mut cell = RecallCell::<F32>::new(20, method, 8, 4, 2);
        let (mut rng, mut by_hand) = (recall_generator(), StdRng::seed_from_u64(31337));
        let at = cell.draw_position(&mut rng);
        assert_eq!(at, by_hand.gen_range(0..20));
        let t = cell.run_at(at, &key, &value, &mut rng);
        let expected = if method == RecallMethod::KvCache {
            recall_trial_transformer_kv::<F32>(20, at, &key, &value, &mut by_hand)
        } else {
            let mut mrm = MultiResMemory::<F32>::new(8, 4, 2, 42);
            let fast = method == RecallMethod::FastMemory;
            recall_trial_mrm(&mut mrm, 20, at, &key, &value, &mut by_hand, fast)
        };
        assert_eq!((t.insert_pos, t.correct, t.cosine_sim, t.memory_bytes), (at, expected.0, expected.1, expected.2));
        let r = cell.record::<F64>(t, 3.5);
        assert_eq!((r.method.as_str(), r.latency_us, r.context_len), (method.name(), 3.5, 20));
    }
    assert_eq!(RecallMethod::FastMemory.name(), "FORGE MRM+FastWeights");
}
