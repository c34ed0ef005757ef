//! Experiment E1: Ablation - Tiny FORGE vs Dense Transformer.
//! Compares five model arms on identical data, tokenizer, seq len, dtype, step count:
//!   A. Dense Transformer (baseline)
//!   B. FORGE without MRM
//!   C. FORGE with MRM (surprise gate disabled -> always write)
//!   D. FORGE with MRM + surprise gate
//!   E. Full FORGE with MRM + surprise gate + fast weights

use vstd::prelude::*;
use crate::arith::{Arith, lawful, s_count, s_lit, s_minus, s_plus, s_times};
use crate::config::ForgeConfig;
use crate::exp_e5_e6::{speedup, speedup_of};
use crate::transformer_model::TransformerModel;

verus! {

/// What training an arm came to.
pub struct TrainResult<A: Arith, B: Arith> {
    pub model_name: String,
    pub config: ForgeConfig,
    pub total_params: usize,
    pub total_train_flops: B::T,
    pub final_val_loss: A::T,
    pub final_val_bpc: A::T,
    pub tokens_per_sec: B::T,
    pub elapsed_sec: B::T,
    /// (step, val_loss, val_bpc, elapsed)
    pub history: Vec<(usize, A::T, A::T, B::T)>,
}

impl<A: Arith> TransformerModel<A> {
    /// Number of parameters of a block: four projections and two layers of the FF.
    pub open spec fn block_params(&self) -> nat {
        let (d, f) = (self.d_model as nat, self.d_ffn as nat);
        d * d + d * d + d * d + d * d + f * d + d * f
    }

    /// Number of parameters.
    pub open spec fn params(&self) -> nat {
        let (v, d) = (self.vocab_size as nat, self.d_model as nat);
        v * d + self.max_seq_len as nat * d + self.n_layers as nat * self.block_params() + v * d
    }

    /// Number of parameters, counted over the weights.
    pub fn param_count(&self) -> (n: usize)
        requires
            self.wf(),
            self.params() <= usize::MAX,
        ensures
            n == self.params(),
    {
        let ghost per_block = self.block_params();
        let layers: usize = self.blocks.len();
        assert(self.params() == self.embeddings@.len() + self.pos_embeddings@.len() + layers
            * per_block + self.head@.len());
        assert(0 * per_block == 0) by (nonlinear_arith);
        let mut block_total: usize = 0;
        let mut l: usize = 0;
        while l < layers
            invariant
                self.wf(),
                l <= layers,
                layers == self.blocks@.len(),
                per_block == self.block_params(),
                block_total == l * per_block,
                layers * per_block <= usize::MAX,
            decreases layers - l,
        {
            let b = &self.blocks[l];
            assert(self.blocks@[l as int].wf());
            assert((l + 1) * per_block == l * per_block + per_block) by (nonlinear_arith);
            assert((l + 1) * per_block <= layers * per_block) by (nonlinear_arith)
                requires
                    l + 1 <= layers,
            ;
            block_total = block_total + (b.wq.len() + b.wk.len() + b.wv.len() + b.wo.len()
                + b.w1.len() + b.w2.len());
            l += 1;
        }
        self.embeddings.len() + self.pos_embeddings.len() + block_total + self.head.len()
    }
}

/// FLOPs per token of a dense Transformer: 2 * (4d^2 + 2d*seq_len) * n_blocks
pub open spec fn dense_flops_of<B: Arith>(d: usize, seq_len: usize, n_blocks: usize) -> B::T {
    let attended = s_times::<B>(
        s_times::<B>(s_lit::<B>(2, 0), s_count::<B>(d)),
        s_count::<B>(seq_len),
    );
    let projected = s_times::<B>(
        s_times::<B>(s_lit::<B>(4, 0), s_count::<B>(d)),
        s_count::<B>(d),
    );
    s_times::<B>(
        s_times::<B>(s_lit::<B>(2, 0), s_plus::<B>(projected, attended)),
        s_count::<B>(n_blocks),
    )
}

/// Theoretical FLOPs of training a dense Transformer on some tokens: forward and backward cost
/// three forward passes.
pub fn dense_train_flops<B: Arith>(
    d: usize,
    seq_len: usize,
    n_blocks: usize,
    tokens: usize,
) -> (flops: B::T)
    requires
        lawful::<B>(),
    ensures
        flops == s_times::<B>(
            s_times::<B>(dense_flops_of::<B>(d, seq_len, n_blocks), s_count::<B>(tokens)),
            s_lit::<B>(3, 0),
        ),
{
    let projected = B::times(B::times(B::lit(4, 0), B::count(d)), B::count(d));
    let attended = B::times(B::times(B::lit(2, 0), B::count(d)), B::count(seq_len));
    let per_token = B::times(
        B::times(B::lit(2, 0), B::plus(projected, attended)),
        B::count(n_blocks),
    );
    B::times(B::times(per_token, B::count(tokens)), B::lit(3, 0))
}

/// What each mechanism contributes, in BPC, and how the FLOPs of both ends compare.
pub struct Attribution<A: Arith, B: Arith> {
    /// MRM contribution (C-B)
    pub mrm: A::T,
    /// Surprise gate contribution (D-C)
    pub surprise_gate: A::T,
    /// Fast weights contribution (E-D)
    pub fast_weights: A::T,
    /// FORGE Full vs Transformer (E-A)
    pub full: A::T,
    /// FLOP ratio (Transformer/FORGE-Full)
    pub flop_ratio: B::T,
}

/// Mechanism attribution from the results of the five arms, in their order.
pub fn attribute<A: Arith, B: Arith>(results: &[TrainResult<A, B>]) -> (r: Option<
    Attribution<A, B>,
>)
    requires
        lawful::<A>(),
        lawful::<B>(),
    ensures
        r is Some <==> results@.len() >= 5,
        r matches Some(a) ==> {
            &&& a.mrm == s_minus::<A>(results@[2].final_val_bpc, results@[1].final_val_bpc)
            &&& a.surprise_gate == s_minus::<A>(
                results@[3].final_val_bpc,
                results@[2].final_val_bpc,
            )
            &&& a.fast_weights == s_minus::<A>(
                results@[4].final_val_bpc,
                results@[3].final_val_bpc,
            )
            &&& a.full == s_minus::<A>(results@[4].final_val_bpc, results@[0].final_val_bpc)
            &&& a.flop_ratio == speedup_of::<B>(
                results@[0].total_train_flops,
                results@[4].total_train_flops,
            )
        },
{
    if results.len() < 5 {
        return None;
    }
    Some(
        Attribution {
            mrm: A::minus(results[2].final_val_bpc, results[1].final_val_bpc),
            surprise_gate: A::minus(results[3].final_val_bpc, results[2].final_val_bpc),
            fast_weights: A::minus(results[4].final_val_bpc, results[3].final_val_bpc),
            full: A::minus(results[4].final_val_bpc, results[0].final_val_bpc),
            flop_ratio: speedup::<B>(results[0].total_train_flops, results[4].total_train_flops),
        },
    )
}

} // verus!
