//! What the numbers of the reports stand for, in exact numbers.

use vstd::prelude::*;
use crate::arith::{Arith, s_count, s_lit, s_over, s_sqrt, zero};
use crate::bench::{gflops_of, layer_flops_of, product_of};
use crate::exact::{
    exact, lemma_commutes, lemma_neutral, lemma_num_sum, lemma_regroups, lemma_total_times,
    lemma_zero_one, power_of_ten, total,
};
use crate::exp_e1::dense_flops_of;
use crate::exp_e2::{cosine_of, length_of, unit_of};
use crate::exp_e3::mean_of;
use crate::exp_e5_e6::{forge_flops, rate_of, speedup_of, transformer_flops};
use crate::forge_model::ForgeBlockValues;
use crate::hebbian::sum_of_squares;
use crate::layer::AxiomLayer;
use crate::memory_laws::{inner, lemma_sum_of_squares};
use crate::rng::weight_scale;
use crate::schedule::rate_after;
use crate::stats::micros;
use crate::tensor::products_added;
use crate::training_laws::squares;
use crate::transformer_model::TransformerModel;

verus! {

/// What a literal without decimals stands for.
proof fn lemma_whole_literal<A: Arith>(num: spec_fn(A::T) -> real, m: u64)
    requires
        exact::<A>(num),
    ensures
        num(s_lit::<A>(m, 0)) == m as real,
{
    reveal(exact);
    assert(power_of_ten(0) == 1);
    let x = num(s_lit::<A>(m, 0));
    assert(x * (power_of_ten(0) as real) == m as real);
    lemma_neutral(x);
}

/// A quotient times its divisor.
proof fn lemma_quotient(a: real, b: real, q: real)
    requires
        b != 0real,
        q == a / b,
    ensures
        q * b == a,
{
    assert(q * b == a) by (nonlinear_arith)
        requires
            b != 0real,
            q == a / b,
    ;
}

/// The variance of a layer's weights makes up for its width: the square of their scale times the
/// number of inputs is the gain.
pub proof fn weight_scales_make_up_for_the_width<A: Arith>(
    num: spec_fn(A::T) -> real,
    gain: u64,
    inputs: usize,
)
    requires
        exact::<A>(num),
        inputs > 0,
    ensures
        num(weight_scale::<A>(gain, inputs)) >= 0real,
        (num(weight_scale::<A>(gain, inputs)) * num(weight_scale::<A>(gain, inputs))) * (
        inputs as real) == gain as real,
{
    lemma_whole_literal::<A>(num, gain);
    let inside = s_over::<A>(s_lit::<A>(gain, 0), s_count::<A>(inputs));
    let (g, n) = (gain as real, inputs as real);
    assert(num(inside) == g / n) by {
        reveal(exact);
    }
    let q = num(inside);
    lemma_quotient(g, n, q);
    assert(q >= 0real) by (nonlinear_arith)
        requires
            q * n == g,
            n > 0real,
            g >= 0real,
    ;
    reveal(exact);
}

/// A mean times the number of its values is their sum.
pub proof fn means_share_the_sum<A: Arith>(num: spec_fn(A::T) -> real, values: Seq<A::T>)
    requires
        exact::<A>(num),
        0 < values.len() <= usize::MAX,
    ensures
        num(mean_of::<A>(values)) * (values.len() as real) == total(
            values.len(),
            |i: int| num(values[i]),
        ),
{
    lemma_num_sum::<A>(num, values, values.len());
    let n = values.len() as real;
    let s = total(values.len(), |i: int| num(values[i]));
    assert(num(mean_of::<A>(values)) == s / n) by {
        reveal(exact);
        assert(num(s_count::<A>(values.len() as usize)) == n);
    }
    lemma_quotient(s, n, num(mean_of::<A>(values)));
}

/// Rates measure work over time: FLOPs per second times the seconds are the FLOPs of all
/// iterations, tokens per second times the seconds are the tokens, a speedup times the slower rate
/// is the faster one, and a thousand times a time in microseconds is the one in nanoseconds.
pub proof fn rates_measure_work_over_time<B: Arith>(
    num: spec_fn(B::T) -> real,
    flops: B::T,
    seconds: B::T,
    total_us: B::T,
    fast: B::T,
    slow: B::T,
    n: usize,
    batch_size: usize,
    seq_len: usize,
    ns: u32,
)
    requires
        exact::<B>(num),
        num(seconds) > 0real,
        num(total_us) > 0real,
        num(slow) >= 1real,
        n > 0,
        n * batch_size * seq_len <= usize::MAX,
    ensures
        (num(gflops_of::<B>(flops, n, seconds)) * 1000000000real) * num(seconds) == num(flops) * (
        n as real),
        num(rate_of::<B>(total_us, n)) * num(total_us) == (n as real) * 1000000real,
        num(rate_after::<B>(n, batch_size, seq_len, seconds)) * num(seconds) == ((n * batch_size
            * seq_len) as real),
        num(speedup_of::<B>(fast, slow)) * num(slow) == num(fast),
        num(micros::<B>(ns)) * 1000real == ns as real,
{
    lemma_zero_one::<B>(num);
    lemma_whole_literal::<B>(num, 1000000000);
    lemma_whole_literal::<B>(num, 1000000);
    lemma_whole_literal::<B>(num, 1000);
    let k = n as real;
    let (f, s, t) = (num(flops), num(seconds), num(total_us));
    let sg = s * 1000000000real;
    assert(num(gflops_of::<B>(flops, n, seconds)) == (f * k) / sg) by {
        reveal(exact);
    }
    let g = num(gflops_of::<B>(flops, n, seconds));
    lemma_quotient(f * k, sg, g);
    lemma_commutes(s, 1000000000real);
    lemma_regroups(g, 1000000000real, s);
    let per = t / k;
    lemma_quotient(t, k, per);
    assert(per > 0real) by (nonlinear_arith)
        requires
            per * k == t,
            t > 0real,
            k > 0real,
    ;
    let r = num(rate_of::<B>(total_us, n));
    assert(r == 1000000real / per) by {
        reveal(exact);
    }
    lemma_quotient(1000000real, per, r);
    lemma_regroups(r, per, k);
    lemma_commutes(1000000real, k);
    let work = (n * batch_size * seq_len) as real;
    assert(num(rate_after::<B>(n, batch_size, seq_len, seconds)) == work / s) by {
        reveal(exact);
    }
    lemma_quotient(work, s, num(rate_after::<B>(n, batch_size, seq_len, seconds)));
    assert(num(speedup_of::<B>(fast, slow)) == num(fast) / num(slow)) by {
        reveal(exact);
    }
    lemma_quotient(num(fast), num(slow), num(speedup_of::<B>(fast, slow)));
    assert(num(micros::<B>(ns)) == (ns as real) / 1000real) by {
        reveal(exact);
        assert(num(s_count::<B>(ns as usize)) == ns as real);
    }
}

/// What a product of a small number and two counts stands for.
proof fn lemma_product<B: Arith>(num: spec_fn(B::T) -> real, factor: u64, a: usize, b: usize)
    requires
        exact::<B>(num),
    ensures
        num(product_of::<B>(factor, a, b)) == ((factor * (a * b)) as real),
{
    lemma_whole_literal::<B>(num, factor);
    reveal(exact);
    let (f, x, y) = (factor as int, a as int, b as int);
    assert((f * (x * y)) as real == ((f as real) * (x as real)) * (y as real)) by (nonlinear_arith);
}

/// The FLOPs of a layer are two for every weight that a token is multiplied with: those of the
/// recurrence, of the router and of two experts, and as many as the memory has elements, once for
/// the recall and once for the write.
pub proof fn layer_flops_count_the_weights<A: Arith, B: Arith>(
    num: spec_fn(B::T) -> real,
    layer: AxiomLayer<A>,
)
    requires
        exact::<B>(num),
        layer.wf(),
    ensures
        ({
            let c = layer.config;
            let d = c.d_model as nat;
            let expert = layer.experts@[0];
            num(layer_flops_of::<B>(c.d_model, c.d_ffn, c.num_experts)) == ((2 * (layer.w_s@.len()
                + layer.w_gate@.len() + 2 * (expert.w_up@.len() + expert.w_down@.len()) + 2 * (d
                * d))) as real)
        }),
{
    let c = layer.config;
    let (d, f, e) = (c.d_model as int, c.d_ffn as int, c.num_experts as int);
    lemma_product::<B>(num, 2, c.d_model, c.d_model);
    lemma_product::<B>(num, 6, c.d_model, c.d_model);
    lemma_product::<B>(num, 2, c.num_experts, c.d_model);
    lemma_product::<B>(num, 8, c.d_model, c.d_ffn);
    assert(layer.experts@[0].wf());
    assert(layer.w_s@.len() == 3 * (d * d)) by (nonlinear_arith)
        requires
            layer.w_s@.len() == d * (3 * d),
    ;
    assert(f * d == d * f) by (nonlinear_arith);
    reveal(exact);
}

/// Both counts of the FLOPs of a dense Transformer agree.
pub proof fn dense_flops_agree<B: Arith>(
    num: spec_fn(B::T) -> real,
    d: usize,
    seq_len: usize,
    n_blocks: usize,
)
    requires
        exact::<B>(num),
    ensures
        num(dense_flops_of::<B>(d, seq_len, n_blocks)) == transformer_flops(
            n_blocks as nat,
            d as nat,
            seq_len as nat,
        ) as real,
{
    lemma_whole_literal::<B>(num, 2);
    lemma_whole_literal::<B>(num, 4);
    let (x, s, n) = (d as int, seq_len as int, n_blocks as int);
    let (xr, sr, nr) = (x as real, s as real, n as real);
    assert(num(dense_flops_of::<B>(d, seq_len, n_blocks)) == (2real * ((4real * xr) * xr + (2real
        * xr) * sr)) * nr) by {
        reveal(exact);
    }
    assert((4 * x * x) as real == (4real * xr) * xr) by (nonlinear_arith)
        requires
            xr == x as real,
    ;
    assert((2 * x * s) as real == (2real * xr) * sr) by (nonlinear_arith)
        requires
            xr == x as real,
            sr == s as real,
    ;
    let w = 4 * x * x + 2 * x * s;
    let wr = w as real;
    assert((2 * n * w) as real == (2real * wr) * nr) by (nonlinear_arith)
        requires
            wr == w as real,
            nr == n as real,
    ;
}

/// A FORGE block counts the FLOPs that the comparison counts for one block: two for every weight
/// and for every element of the slots that a token meets.
pub proof fn forge_flops_agree<A: Arith>(b: ForgeBlockValues<A>)
    requires
        b.wf(),
        b.mrm is Some,
    ensures
        ({
            let m = b.mrm->0;
            let slots = m.fine_keys.len() + m.coarse_keys.len();
            &&& b.flops_per_token() == forge_flops(1, b.d, m.k_fine + m.k_coarse, b.d_ff)
            &&& b.flops_per_token() == 2 * (m.w_q.len() + m.w_k.len() + m.w_v.len() + m.w_o.len()
                + slots + b.w1.len() + b.w1u.len() + b.w2.len())
            &&& b.params() == m.w_q.len() + m.w_k.len() + m.w_v.len() + m.w_o.len() + b.w1.len()
                + b.w1u.len() + b.w2.len()
        }),
{
    let m = b.mrm->0;
    let (d, f, k) = (b.d, b.d_ff, m.k_fine + m.k_coarse);
    let (dd, fd, kd) = (d * d, f * d, k * d);
    assert(kd == m.k_fine * d + m.k_coarse * d && d * f == fd) by (nonlinear_arith)
        requires
            k == m.k_fine + m.k_coarse,
            kd == k * d,
            fd == f * d,
    ;
    assert(4 * d * d == 4 * dd && 3 * f * d == 3 * fd && f * d * 3 == 3 * fd) by (nonlinear_arith)
        requires
            dd == d * d,
            fd == f * d,
    ;
    let w = 4 * d * d + k * d + 3 * f * d;
    assert(forge_flops(1, d, k, f) == 2 * w) by {
        let blocks = 1nat;
        assert(2 * blocks * w == 2 * w) by (nonlinear_arith)
            requires
                blocks == 1,
        ;
        assert(forge_flops(blocks, d, k, f) == 2 * blocks * w);
    }
    assert(b.flops_per_token() == 8 * dd + 2 * kd + 6 * fd);
}

/// The parameters of the Transformer are counted: as many as its buffers hold.
pub proof fn transformer_parameters_are_counted<A: Arith>(model: TransformerModel<A>)
    requires
        model.wf(),
        model.n_layers > 0,
    ensures
        ({
            let b = model.blocks@[0];
            model.params() == model.embeddings@.len() + model.pos_embeddings@.len()
                + model.n_layers * (b.wq@.len() + b.wk@.len() + b.wv@.len() + b.wo@.len()
                + b.w1@.len() + b.w2@.len()) + model.head@.len()
        }),
{
    assert(model.blocks@[0].wf());
}

/// The inner product that is summed up one by one.
proof fn lemma_products_added<A: Arith>(
    num: spec_fn(A::T) -> real,
    a: Seq<A::T>,
    b: Seq<A::T>,
    n: int,
)
    requires
        exact::<A>(num),
        0 <= n <= a.len(),
        a.len() == b.len(),
    ensures
        num(products_added::<A>(zero::<A>(), a, b, 0, n)) == total(
            n as nat,
            |i: int| num(a[i]) * num(b[i]),
        ),
    decreases n,
{
    lemma_zero_one::<A>(num);
    reveal(exact);
    if n > 0 {
        lemma_products_added::<A>(num, a, b, n - 1);
    }
}

/// The length of a vector that is not shorter than 1e-6.
proof fn lemma_length<A: Arith>(num: spec_fn(A::T) -> real, v: Seq<A::T>, l: real)
    requires
        exact::<A>(num),
        l >= num(s_lit::<A>(1, 6)) > 0real,
        l * l == squares::<A>(num, v),
    ensures
        num(length_of::<A>(v)) == l,
{
    lemma_sum_of_squares::<A>(num, v, v.len());
    let r = num(s_sqrt::<A>(sum_of_squares::<A>(v, v.len())));
    assert(r >= 0real && r * r == l * l) by {
        reveal(exact);
    }
    assert(r == l) by (nonlinear_arith)
        requires
            r >= 0real,
            l >= 0real,
            r * r == l * l,
    ;
    reveal(exact);
}

/// The cosine of two vectors times their lengths is their inner product, and a unit vector has
/// length one. Vectors are longer than 1e-6.
pub proof fn cosines_measure_angles<A: Arith>(
    num: spec_fn(A::T) -> real,
    a: Seq<A::T>,
    b: Seq<A::T>,
    a_len: real,
    b_len: real,
)
    requires
        exact::<A>(num),
        a.len() == b.len(),
        a_len >= num(s_lit::<A>(1, 6)) > 0real,
        b_len >= num(s_lit::<A>(1, 6)),
        a_len * a_len == squares::<A>(num, a),
        b_len * b_len == squares::<A>(num, b),
    ensures
        num(cosine_of::<A>(a, b)) * (a_len * b_len) == inner::<A>(num, a, b),
        squares::<A>(num, unit_of::<A>(a)) == 1real,
{
    lemma_length::<A>(num, a, a_len);
    lemma_length::<A>(num, b, b_len);
    lemma_products_added::<A>(num, a, b, a.len() as int);
    let l = a_len * b_len;
    assert(l > 0real) by (nonlinear_arith)
        requires
            l == a_len * b_len,
            a_len > 0real,
            b_len > 0real,
    ;
    let x = inner::<A>(num, a, b);
    assert(num(cosine_of::<A>(a, b)) == x / l) by {
        reveal(exact);
    }
    lemma_quotient(x, l, num(cosine_of::<A>(a, b)));
    // the unit vector
    let u = unit_of::<A>(a);
    let n = a.len();
    let ll = a_len * a_len;
    let inv = 1real / ll;
    let f = |i: int| num(a[i]) * num(a[i]);
    let g = |i: int| num(u[i]) * num(u[i]);
    assert(ll > 0real) by (nonlinear_arith)
        requires
            ll == a_len * a_len,
            a_len > 0real,
    ;
    lemma_quotient(1real, ll, inv);
    assert forall|i: int| 0 <= i < n implies #[trigger] g(i) == inv * f(i) by {
        let (v, w) = (num(a[i]), num(u[i]));
        assert(w == v / a_len) by {
            reveal(exact);
        }
        lemma_quotient(v, a_len, w);
        let (vv, ww) = (v * v, w * w);
        assert(vv == ww * ll) by {
            lemma_regroups(w, a_len, w * a_len);
            lemma_commutes(a_len, w * a_len);
            lemma_regroups(w, a_len, a_len);
            lemma_regroups(w, w, ll);
        }
        lemma_commutes(inv, vv);
        lemma_regroups(ww, ll, inv);
        lemma_commutes(ll, inv);
        lemma_neutral(ww);
    }
    lemma_total_times(n, inv, f, g);
}

} // verus!
