//! Configurations of the models.

use vstd::prelude::*;
use crate::arith::{Arith, lawful, s_lit};

verus! {

/// Architectural configuration for an AXIOM model.
#[derive(Debug)]
pub struct AxiomConfig<A: Arith> {
    pub vocab_size: usize,
    pub d_model: usize,
    pub num_layers: usize,
    pub num_experts: usize,
    pub active_experts: usize,
    pub buffer_capacity: usize,
    pub d_ffn: usize,
    pub hebbian_decay: A::T,
    pub hebbian_lr: A::T,
}

impl<A: Arith> Clone for AxiomConfig<A> {
    fn clone(&self) -> (cfg: Self)
        ensures
            cfg == *self,
    {
        AxiomConfig {
            vocab_size: self.vocab_size,
            d_model: self.d_model,
            num_layers: self.num_layers,
            num_experts: self.num_experts,
            active_experts: self.active_experts,
            buffer_capacity: self.buffer_capacity,
            d_ffn: self.d_ffn,
            hebbian_decay: self.hebbian_decay,
            hebbian_lr: self.hebbian_lr,
        }
    }
}

impl<A: Arith> Default for AxiomConfig<A> {
    fn default() -> (cfg: Self)
        ensures
            cfg.vocab_size == 256,
            cfg.d_model == 128,
            cfg.num_layers == 4,
            cfg.num_experts == 8,
            cfg.active_experts == 2,
            cfg.buffer_capacity == 512,
            cfg.d_ffn == 512,
            lawful::<A>() ==> cfg.hebbian_decay == s_lit::<A>(999, 3),
            lawful::<A>() ==> cfg.hebbian_lr == s_lit::<A>(1, 4),
    {
        Self {
            vocab_size: 256,
            d_model: 128,
            num_layers: 4,
            num_experts: 8,
            active_experts: 2,
            buffer_capacity: 512,
            d_ffn: 512,
            hebbian_decay: A::lit(999, 3),
            hebbian_lr: A::lit(1, 4),
        }
    }
}

/// Configuration for standard reference Transformer baseline.
#[derive(Debug, Clone)]
pub struct TransformerConfig {
    pub vocab_size: usize,
    pub d_model: usize,
    pub n_layers: usize,
    pub n_heads: usize,
    pub d_ffn: usize,
    pub max_seq_len: usize,
}

impl TransformerConfig {
    /// The parameters of one layer: Q, K, V and output projections, the up and down
    /// projections of the feed-forward network, and gamma and beta of two LayerNorms.
    pub open spec fn layer_params(&self) -> nat {
        let d = self.d_model as nat;
        4 * d * d + 2 * d * (self.d_ffn as nat) + 4 * d
    }

    /// All trainable parameters: token and position embeddings, the layers, and the head.
    pub open spec fn params(&self) -> nat {
        let d = self.d_model as nat;
        (self.vocab_size as nat) * d + (self.max_seq_len as nat) * d + (self.n_layers as nat)
            * self.layer_params() + d * (self.vocab_size as nat)
    }

    /// Matched 1M parameter toy tier (for Phase 1 & 2 character-level testing).
    pub fn toy_1m(vocab_size: usize) -> (cfg: Self)
        ensures
            cfg == (TransformerConfig {
                vocab_size,
                d_model: 128,
                n_layers: 4,
                n_heads: 4,
                d_ffn: 512,
                max_seq_len: 256,
            }),
    {
        Self { vocab_size, d_model: 128, n_layers: 4, n_heads: 4, d_ffn: 512, max_seq_len: 256 }
    }

    /// Matched 10M parameter small tier (for WikiText-2 testing).
    pub fn small_10m(vocab_size: usize) -> (cfg: Self)
        ensures
            cfg == (TransformerConfig {
                vocab_size,
                d_model: 384,
                n_layers: 6,
                n_heads: 6,
                d_ffn: 1536,
                max_seq_len: 512,
            }),
    {
        Self { vocab_size, d_model: 384, n_layers: 6, n_heads: 6, d_ffn: 1536, max_seq_len: 512 }
    }

    /// Matched 100M parameter base tier (for Scale testing).
    pub fn base_100m(vocab_size: usize) -> (cfg: Self)
        ensures
            cfg == (TransformerConfig {
                vocab_size,
                d_model: 768,
                n_layers: 12,
                n_heads: 12,
                d_ffn: 3072,
                max_seq_len: 2048,
            }),
    {
        Self { vocab_size, d_model: 768, n_layers: 12, n_heads: 12, d_ffn: 3072, max_seq_len: 2048 }
    }

    /// Calculate total trainable parameter count.
    pub fn param_count(&self) -> (n: usize)
        requires
            self.params() <= usize::MAX,
            self.layer_params() <= usize::MAX,
        ensures
            n == self.params(),
    {
        proof {
            let (v, d, s, f, l) = (
                self.vocab_size as int,
                self.d_model as int,
                self.max_seq_len as int,
                self.d_ffn as int,
                self.n_layers as int,
            );
            let per_layer = self.layer_params() as int;
            assert(v * d >= 0 && s * d >= 0 && d * v >= 0 && l * per_layer >= 0 && 4 * d * d >= 0
                && 2 * d * f >= 0) by (nonlinear_arith)
                requires
                    v >= 0,
                    d >= 0,
                    s >= 0,
                    f >= 0,
                    l >= 0,
                    per_layer >= 0,
            ;
        }
        let embed_params: usize = self.vocab_size * self.d_model + self.max_seq_len * self.d_model;
        let per_layer_attn: usize = 4 * self.d_model * self.d_model;
        let per_layer_ffn: usize = 2 * self.d_model * self.d_ffn;
        let per_layer_ln: usize = 4 * self.d_model;
        let per_layer: usize = per_layer_attn + per_layer_ffn + per_layer_ln;
        let head_params: usize = self.d_model * self.vocab_size;
        embed_params + (self.n_layers * per_layer) + head_params
    }
}

/// Controls which FORGE mechanisms are active.
#[derive(Debug, Clone, Copy, PartialEq, Eq, Structural)]
pub struct ForgeConfig {
    /// Variant B without, variants C to E with.
    pub use_mrm: bool,
    /// Variant C without, variants D and E with.
    pub use_surprise_gate: bool,
    /// Variant D without, variant E (full) with.
    pub use_fast_weights: bool,
}

impl ForgeConfig {
    pub fn no_mrm() -> (cfg: Self)
        ensures
            cfg == (ForgeConfig {
                use_mrm: false,
                use_surprise_gate: false,
                use_fast_weights: false,
            }),
    {
        Self { use_mrm: false, use_surprise_gate: false, use_fast_weights: false }
    }

    pub fn mrm_only() -> (cfg: Self)
        ensures
            cfg == (ForgeConfig {
                use_mrm: true,
                use_surprise_gate: false,
                use_fast_weights: false,
            }),
    {
        Self { use_mrm: true, use_surprise_gate: false, use_fast_weights: false }
    }

    pub fn mrm_surprise() -> (cfg: Self)
        ensures
            cfg == (ForgeConfig {
                use_mrm: true,
                use_surprise_gate: true,
                use_fast_weights: false,
            }),
    {
        Self { use_mrm: true, use_surprise_gate: true, use_fast_weights: false }
    }

    pub fn full() -> (cfg: Self)
        ensures
            cfg == (ForgeConfig { use_mrm: true, use_surprise_gate: true, use_fast_weights: true }),
    {
        Self { use_mrm: true, use_surprise_gate: true, use_fast_weights: true }
    }

    /// The name under which the results of a configuration are reported.
    pub fn name(&self) -> (name: &'static str)
        ensures
            name@ == (if !self.use_mrm {
                "B: FORGE-no-MRM"@
            } else if !self.use_surprise_gate && !self.use_fast_weights {
                "C: FORGE+MRM"@
            } else if self.use_surprise_gate && !self.use_fast_weights {
                "D: FORGE+MRM+SurpriseGate"@
            } else if self.use_surprise_gate && self.use_fast_weights {
                "E: FORGE-Full"@
            } else {
                "Custom"@
            }),
    {
        match (self.use_mrm, self.use_surprise_gate, self.use_fast_weights) {
            (false, _, _) => "B: FORGE-no-MRM",
            (true, false, false) => "C: FORGE+MRM",
            (true, true, false) => "D: FORGE+MRM+SurpriseGate",
            (true, true, true) => "E: FORGE-Full",
            _ => "Custom",
        }
    }
}

} // verus!
