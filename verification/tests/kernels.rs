//! The kernels against the naive references.

use forge_core::activations::{l2_dist_sq, mse_loss_and_grad, sigmoid, swiglu};
use forge_core::arith::{Arith, Wide};
use forge_core::buffer::{buffer_attention, CircularTokenBuffer};
use forge_core::hebbian::HebbianMemory;
use forge_core::matvec::{matvec, matvec_accumulate, matvec_transposed, outer_product_accumulate};
use forge_core::reference::{
    ref_cross_entropy, ref_hebbian_update, ref_matvec, ref_matvec_transposed, ref_softmax,
    ref_topk,
};
use forge_core::softmax::{cross_entropy_loss_and_grad, softmax};
use forge_core::tensor::{MatrixView, MatrixViewMut};
use forge_core::topk::{top2, topk};
use rand::rngs::StdRng;
use rand::{Rng, SeedableRng};

/// Single precision floats.
#[derive(Debug, Clone, Copy)]
struct F32;

impl Arith for F32 {
    type T = f32;

    fn lit(digits: u64, decimals: u32) -> f32 {
        match (digits, decimals) {
            (n, 0) => n as f32,
            (5, 1) => 0.5,
            (1, 4) => 1e-4,
            (1, 5) => 1e-5,
            (1, 6) => 1e-6,
            (1, 12) => 1e-12,
            (44715, 6) => 0.044715,
            (79788456, 8) => 0.79788456,
            _ => format!("{}e-{}", digits, decimals).parse().unwrap(),
        }
    }

    fn neg_inf() -> f32 {
        f32::NEG_INFINITY
    }

    fn count(n: usize) -> f32 {
        n as f32
    }

    fn plus(a: f32, b: f32) -> f32 {
        a + b
    }

    fn minus(a: f32, b: f32) -> f32 {
        a - b
    }

    fn times(a: f32, b: f32) -> f32 {
        a * b
    }

    fn over(a: f32, b: f32) -> f32 {
        a / b
    }

    fn negate(a: f32) -> f32 {
        -a
    }

    fn exceeds(a: f32, b: f32) -> bool {
        a > b
    }

    fn equals(a: f32, b: f32) -> bool {
        a == b
    }

    fn larger(a: f32, b: f32) -> f32 {
        a.max(b)
    }

    fn exp(a: f32) -> f32 {
        a.exp()
    }

    fn ln(a: f32) -> f32 {
        a.ln()
    }

    fn tanh(a: f32) -> f32 {
        a.tanh()
    }

    fn sqrt(a: f32) -> f32 {
        a.sqrt()
    }

    fn powf(a: f32, b: f32) -> f32 {
        a.powf(b)
    }

    fn powi(a: f32, n: u32) -> f32 {
        a.powi(n as i32)
    }

    fn cos(a: f32) -> f32 {
        a.cos()
    }

    fn smaller(a: f32, b: f32) -> f32 {
        a.min(b)
    }

    fn whole(a: f32) -> usize {
        a as usize
    }

    fn uniform(mut rng: StdRng, lo: f32, hi: f32) -> (f32, StdRng) {
        let x = rng.gen_range(lo..hi);
        (x, rng)
    }
}

/// Double precision floats.
#[derive(Debug, Clone, Copy)]
struct F64;

impl Arith for F64 {
    type T = f64;

    fn lit(digits: u64, decimals: u32) -> f64 {
        match (digits, decimals) {
            (n, 0) => n as f64,
            (5, 1) => 0.5,
            (1, 4) => 1e-4,
            (1, 5) => 1e-5,
            (1, 6) => 1e-6,
            (1, 12) => 1e-12,
            (44715, 6) => 0.044715,
            (79788456, 8) => 0.79788456,
            _ => format!("{}e-{}", digits, decimals).parse().unwrap(),
        }
    }

    fn neg_inf() -> f64 {
        f64::NEG_INFINITY
    }

    fn count(n: usize) -> f64 {
        n as f64
    }

    fn plus(a: f64, b: f64) -> f64 {
        a + b
    }

    fn minus(a: f64, b: f64) -> f64 {
        a - b
    }

    fn times(a: f64, b: f64) -> f64 {
        a * b
    }

    fn over(a: f64, b: f64) -> f64 {
        a / b
    }

    fn negate(a: f64) -> f64 {
        -a
    }

    fn exceeds(a: f64, b: f64) -> bool {
        a > b
    }

    fn equals(a: f64, b: f64) -> bool {
        a == b
    }

    fn larger(a: f64, b: f64) -> f64 {
        a.max(b)
    }

    fn exp(a: f64) -> f64 {
        a.exp()
    }

    fn ln(a: f64) -> f64 {
        a.ln()
    }

    fn tanh(a: f64) -> f64 {
        a.tanh()
    }

    fn sqrt(a: f64) -> f64 {
        a.sqrt()
    }

    fn powf(a: f64, b: f64) -> f64 {
        a.powf(b)
    }

    fn powi(a: f64, n: u32) -> f64 {
        a.powi(n as i32)
    }

    fn cos(a: f64) -> f64 {
        a.cos()
    }

    fn smaller(a: f64, b: f64) -> f64 {
        a.min(b)
    }

    fn whole(a: f64) -> usize {
        a as usize
    }

    fn uniform(mut rng: StdRng, lo: f64, hi: f64) -> (f64, StdRng) {
        let x = rng.gen_range(lo..hi);
        (x, rng)
    }
}

impl Wide<F32> for F64 {
    fn widen(a: f32) -> f64 {
        a as f64
    }

    fn narrow(b: f64) -> f32 {
        b as f32
    }
}

const EPSILON: f32 = 1e-4;

#[test]
fn test_matvec_dimensions() {
    let mut rng = StdRng::seed_from_u64(42);
    let dims = [1, 7, 8, 15, 16, 64, 512, 1024, 2048];

    for &rows in &dims {
        for &cols in &[8, 16, 64, 512] {
            let w_data: Vec<f32> = (0..rows * cols).map(|_| rng.gen_range(-1.0..1.0)).collect();
            let x: Vec<f32> = (0..cols).map(|_| rng.gen_range(-1.0..1.0)).collect();
            let mut y = vec![0.0f32; rows];

            let view = MatrixView::new(&w_data, rows, cols);
            matvec::<F32>(&view, &x, &mut y);

            let ref_y = ref_matvec::<F32, F64>(&w_data, rows, cols, &x);
            for r in 0..rows {
                let diff = (y[r] - ref_y[r]).abs();
                assert!(
                    diff < EPSILON * (cols as f32).sqrt(),
                    "matvec mismatch at rows={}, cols={}, r={}: got {}, expected {}",
                    rows, cols, r, y[r], ref_y[r]
                );
            }
        }
    }
}

#[test]
fn test_matvec_transposed() {
    let mut rng = StdRng::seed_from_u64(1337);
    let rows = 128;
    let cols = 256;

    let w_data: Vec<f32> = (0..rows * cols).map(|_| rng.gen_range(-1.0..1.0)).collect();
    let x: Vec<f32> = (0..rows).map(|_| rng.gen_range(-1.0..1.0)).collect();
    let mut y = vec![0.0f32; cols];

    let view = MatrixView::new(&w_data, rows, cols);
    matvec_transposed::<F32>(&view, &x, &mut y);

    let ref_y = ref_matvec_transposed::<F32, F64>(&w_data, rows, cols, &x);
    for c in 0..cols {
        let diff = (y[c] - ref_y[c]).abs();
        assert!(
            diff < EPSILON * (rows as f32).sqrt(),
            "matvec_transposed mismatch at c={}: got {}, expected {}",
            c, y[c], ref_y[c]
        );
    }
}

#[test]
fn test_outer_product_accumulate() {
    let mut rng = StdRng::seed_from_u64(999);
    let rows = 64;
    let cols = 128;
    let u: Vec<f32> = (0..rows).map(|_| rng.gen_range(-1.0..1.0)).collect();
    let v: Vec<f32> = (0..cols).map(|_| rng.gen_range(-1.0..1.0)).collect();
    let alpha = 0.5f32;

    let mut w = vec![0.0f32; rows * cols];
    let mut w_view = MatrixViewMut::new(&mut w, rows, cols);
    outer_product_accumulate::<F32>(&u, &v, alpha, &mut w_view);

    for r in 0..rows {
        for c in 0..cols {
            let expected = alpha * u[r] * v[c];
            let actual = w_view.get(r, c);
            assert!((actual - expected).abs() < 1e-6);
        }
    }
}

#[test]
fn test_top2_selection() {
    let mut rng = StdRng::seed_from_u64(777);
    for &e in &[2, 4, 8, 16, 32, 64] {
        let scores: Vec<f32> = (0..e).map(|_| rng.gen_range(-10.0..10.0)).collect();
        let top = top2::<F32>(&scores);
        let ref_top = ref_topk::<F32>(&scores, 2);

        assert_eq!(top[0].1, ref_top[0].1, "Top-1 index mismatch for E={}", e);
        assert_eq!(top[1].1, ref_top[1].1, "Top-2 index mismatch for E={}", e);
        assert!((top[0].0 - ref_top[0].0).abs() < 1e-6);
        assert!((top[1].0 - ref_top[1].0).abs() < 1e-6);
    }
}

#[test]
fn test_topk_generic() {
    let mut rng = StdRng::seed_from_u64(888);
    let scores: Vec<f32> = (0..64).map(|_| rng.gen_range(-50.0..50.0)).collect();

    let top4: [(f32, usize); 4] = topk::<F32, 4>(&scores);
    let ref_top4 = ref_topk::<F32>(&scores, 4);

    for i in 0..4 {
        assert_eq!(top4[i].1, ref_top4[i].1);
        assert!((top4[i].0 - ref_top4[i].0).abs() < 1e-6);
    }
}

#[test]
fn test_softmax_numerical_stability() {
    // Test normal logits
    let logits = vec![1.0, 2.0, 3.0, 4.0, 5.0];
    let mut probs = vec![0.0; 5];
    softmax::<F32>(&logits, &mut probs);
    let ref_p = ref_softmax::<F32, F64>(&logits);
    for (p, rp) in probs.iter().zip(ref_p.iter()) {
        assert!((p - rp).abs() < 1e-6);
    }
    let sum: f32 = probs.iter().sum();
    assert!((sum - 1.0).abs() < 1e-6);

    // Test extreme logits (overflow prevention: values > 10,000)
    let extreme_logits = vec![10000.0, 10002.0, 9998.0, 10005.0];
    let mut extreme_probs = vec![0.0; 4];
    softmax::<F32>(&extreme_logits, &mut extreme_probs);
    for &p in &extreme_probs {
        assert!(!p.is_nan());
        assert!(!p.is_infinite());
        assert!(p >= 0.0 && p <= 1.0);
    }
    let ext_sum: f32 = extreme_probs.iter().sum();
    assert!((ext_sum - 1.0).abs() < 1e-5);
}

#[test]
fn test_cross_entropy_loss_and_grad() {
    let logits = vec![2.0, 1.0, 0.1, -1.5];
    let target = 0;
    let mut probs = vec![0.0; 4];
    let mut grad = vec![0.0; 4];

    let loss = cross_entropy_loss_and_grad::<F32>(&logits, target, &mut probs, &mut grad);
    let (ref_loss, ref_grad) = ref_cross_entropy::<F32, F64>(&logits, target);

    assert!((loss - ref_loss).abs() < 1e-6);
    for (g, rg) in grad.iter().zip(ref_grad.iter()) {
        assert!((g - rg).abs() < 1e-6);
    }
}

#[test]
fn test_buffer_attention() {
    let capacity = 8;
    let mut buf = CircularTokenBuffer::new(capacity);
    buf.push(1);
    buf.push(3);
    buf.push(1); // Duplicate token in buffer

    let vocab_size = 5;
    let embed_dim = 4;
    let embed_table = vec![
        0.1, 0.2, 0.3, 0.4, // token 0
        1.0, 0.0, 0.0, 0.0, // token 1
        0.0, 1.0, 0.0, 0.0, // token 2
        0.0, 0.0, 1.0, 0.0, // token 3
        0.0, 0.0, 0.0, 1.0, // token 4
    ];

    let query = vec![1.0, 0.0, 0.0, 0.0];
    let mut scratch_scores = vec![0.0; capacity];
    let mut scratch_probs = vec![0.0; capacity];
    let mut out_vocab_dist = vec![0.2; vocab_size]; // Uniform initial dist

    buffer_attention::<F32>(
        &buf,
        &query,
        &embed_table,
        vocab_size,
        embed_dim,
        &mut scratch_scores,
        &mut scratch_probs,
        &mut out_vocab_dist,
        0.5,
    );

    let sum: f32 = out_vocab_dist.iter().sum();
    assert!((sum - 1.0).abs() < 1e-5, "Interpolated distribution must sum to 1.0, got {}", sum);
    assert!(out_vocab_dist[1] > out_vocab_dist[2], "Token 1 should receive higher copy probability");
}

#[test]
fn test_hebbian_memory_update_and_recall() {
    let dim = 16;
    let decay = 0.99f32;
    let lr = 0.01f32;
    let mut mem = HebbianMemory::<F32>::new(dim, decay, lr);

    let h = vec![1.0f32; dim];
    let mut ref_m = vec![0.0f32; dim * dim];

    // Single step
    mem.update(&h);
    ref_hebbian_update::<F32>(&mut ref_m, dim, &h, decay, lr);

    for (a, &b) in mem.m.iter().zip(ref_m.iter()) {
        assert!((a - b).abs() < 1e-6);
    }

    // Multi-step stability test (1,000 steps)
    let mut rng = StdRng::seed_from_u64(12345);
    for _ in 0..1000 {
        let rand_h: Vec<f32> = (0..dim).map(|_| rng.gen_range(-0.5..0.5)).collect();
        mem.update(&rand_h);
        ref_hebbian_update::<F32>(&mut ref_m, dim, &rand_h, decay, lr);
    }

    for (a, &b) in mem.m.iter().zip(ref_m.iter()) {
        assert!((a - b).abs() < 1e-4);
    }

    // Recall test
    let mut recall_out = vec![0.0f32; dim];
    mem.recall(&h, &mut recall_out);
    let ref_recall = ref_matvec::<F32, F64>(&mem.m, dim, dim, &h);
    for (r, ref_r) in recall_out.iter().zip(ref_recall.iter()) {
        assert!((r - ref_r).abs() < 1e-4);
    }
}

#[test]
fn test_hebbian_frobenius_and_oja() {
    let dim = 8;
    let mut mem = HebbianMemory::<F32>::new(dim, 1.0, 0.1);
    let h = vec![2.0f32; dim];

    for _ in 0..10 {
        mem.update(&h);
    }

    let norm = mem.frobenius_norm();
    assert!(norm > 1.0);

    mem.clip_frobenius(5.0);
    assert!((mem.frobenius_norm() - 5.0).abs() < 1e-5);

    let mut scratch = vec![0.0f32; dim];
    mem.update_oja(&h, &mut scratch);
    for &v in &mem.m {
        assert!(!v.is_nan());
        assert!(!v.is_infinite());
    }
}

#[test]
fn test_activations_and_mse() {
    let x = vec![-2.0, -1.0, 0.0, 1.0, 2.0];
    let mut sig = vec![0.0; 5];
    sigmoid::<F32>(&x, &mut sig);
    for (&s, &v) in sig.iter().zip(x.iter()) {
        let expected = 1.0 / (1.0 + (-v).exp());
        assert!((s - expected).abs() < 1e-6);
    }

    let target = vec![0.5, 0.5, 0.5, 0.5, 0.5];
    let mut grad_mse = vec![0.0; 5];
    let loss = mse_loss_and_grad::<F32>(&sig, &target, &mut grad_mse);
    assert!(loss >= 0.0);
    for (&g, (&s, &t)) in grad_mse.iter().zip(sig.iter().zip(target.iter())) {
        let expected_g = (2.0 / 5.0) * (s - t);
        assert!((g - expected_g).abs() < 1e-6);
    }
}

#[test]
fn products_are_added_to_what_is_there() {
    let w = vec![1.0f32, 2.0, 3.0, 4.0];
    let mut y = vec![10.0f32, 20.0];
    matvec_accumulate::<F32>(&MatrixView::new(&w, 2, 2), &[1.0, -1.0], &mut y);
    assert_eq!(y, vec![9.0, 19.0]);
}

#[test]
fn gated_units_and_distances_follow_their_formulas() {
    let mut out = vec![0.0f32; 2];
    swiglu::<F32>(&[0.0, 2.0], &[5.0, 3.0], &mut out);
    assert_eq!(out[0], 0.0);
    assert!((out[1] - 6.0 / (1.0 + (-2.0f32).exp())).abs() < 1e-5);
    assert_eq!(l2_dist_sq::<F32>(&[1.0, 5.0], &[4.0, 1.0]), 25.0);
}

#[test]
fn raw_slots_keep_their_places() {
    let mut buf = CircularTokenBuffer::new(3);
    buf.push(7);
    assert_eq!(buf.raw_slice(), &[7]);
    buf.push(8);
    buf.push(9);
    buf.push(10);
    assert_eq!(buf.raw_slice(), &[10, 8, 9]);
}
