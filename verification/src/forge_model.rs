//! FORGE Block and full tiny FORGE model.
//! A FORGE block = LayerNorm + MRM + FeedForward(SwiGLU) + residual.
//! The ablation variants are controlled by config flags, not separate structs,
//! so each run produces a single unambiguous causal attribution.

use vstd::prelude::*;
use crate::arith::{
    Arith, lawful, one, s_count, s_exp, s_lit, s_minus, s_negate, s_over, s_plus, s_sqrt, s_times,
    zero,
};
use crate::config::ForgeConfig;
use crate::hebbian::{add_up_squares, sum_of_squares};
use crate::layer::zero_vec;
use crate::matvec::{matvec_of, summed};
use crate::mrm::{MrmValues, MultiResMemory, memory_keeps_its_size};
use crate::rng::{WeightDraw, WeightSource, drawn_from_seed, scale_for, weight_scale};
use crate::sequence::row_at;
use crate::softmax::{cross_entropy_loss_and_grad, cross_entropy_of};
use crate::tensor::{
    add_scaled, copied, dot, dot_of, lemma_row_bounds, row_of, vec_add_scaled, vec_zero, zeros,
};
use crate::vectors::{mul_vec, sum_vec};

verus! {

/// The factor of the RMS norm: 1 / sqrt(mean(x^2) + eps)
pub open spec fn rms_factor<A: Arith>(x: Seq<A::T>, eps: A::T) -> A::T {
    let mean_sq = s_over::<A>(sum_of_squares::<A>(x, x.len()), s_count::<A>(x.len() as usize));
    s_over::<A>(one::<A>(), s_sqrt::<A>(s_plus::<A>(mean_sq, eps)))
}

/// Lightweight LayerNorm (RMS variant).
pub open spec fn rms_normed<A: Arith>(x: Seq<A::T>) -> Seq<A::T> {
    Seq::new(x.len(), |i: int| s_times::<A>(x[i], rms_factor::<A>(x, s_lit::<A>(1, 5))))
}

/// Lightweight LayerNorm (RMS variant).
pub(crate) fn rms_norm<A: Arith>(x: &[A::T], eps: A::T) -> (out: Vec<A::T>)
    requires
        lawful::<A>(),
    ensures
        out@ == Seq::new(x@.len(), |i: int| s_times::<A>(x@[i], rms_factor::<A>(x@, eps))),
        out@.len() == x@.len(),
{
    let n: usize = x.len();
    let mean_sq = A::over(add_up_squares::<A>(x), A::count(n));
    let rms = A::sqrt(A::plus(mean_sq, eps));
    let inv = A::over(A::lit(1, 0), rms);
    let mut out: Vec<A::T> = Vec::with_capacity(n);
    let ghost want = Seq::new(
        x@.len(),
        |i: int| s_times::<A>(x@[i], rms_factor::<A>(x@, eps)),
    );
    let mut i: usize = 0;
    while i < n
        invariant
            lawful::<A>(),
            i <= n,
            n == x@.len(),
            inv == rms_factor::<A>(x@, eps),
            want == Seq::new(
                x@.len(),
                |i: int| s_times::<A>(x@[i], rms_factor::<A>(x@, eps)),
            ),
            out@ == want.take(i as int),
        decreases n - i,
    {
        out.push(A::times(x[i], inv));
        i += 1;
        assert(out@ =~= want.take(i as int));
    }
    assert(out@ =~= want);
    out
}

/// The gradient at the input of the RMS norm, from that at its output: with y = r * x for the
/// factor r of the norm, r * (d_y - y * mean(d_y * y))
pub open spec fn rms_back<A: Arith>(x: Seq<A::T>, d_y: Seq<A::T>) -> Seq<A::T> {
    let y = rms_normed::<A>(x);
    let mean = s_over::<A>(dot_of::<A>(d_y, y), s_count::<A>(x.len() as usize));
    Seq::new(
        x.len(),
        |i: int|
            s_times::<A>(
                rms_factor::<A>(x, s_lit::<A>(1, 5)),
                s_minus::<A>(d_y[i], s_times::<A>(y[i], mean)),
            ),
    )
}

/// The gradient at the input of the RMS norm, from that at its output.
pub(crate) fn rms_norm_back<A: Arith>(x: &[A::T], d_y: &[A::T]) -> (d_x: Vec<A::T>)
    requires
        lawful::<A>(),
        d_y@.len() == x@.len(),
    ensures
        d_x@ == rms_back::<A>(x@, d_y@),
        d_x@.len() == x@.len(),
{
    let n: usize = x.len();
    let y = rms_norm::<A>(x, A::lit(1, 5));
    let mean_sq = A::over(add_up_squares::<A>(x), A::count(n));
    let factor = A::over(A::lit(1, 0), A::sqrt(A::plus(mean_sq, A::lit(1, 5))));
    let mean = A::over(dot::<A>(d_y, y.as_slice()), A::count(n));
    let mut d_x: Vec<A::T> = Vec::with_capacity(n);
    let mut i: usize = 0;
    while i < n
        invariant
            lawful::<A>(),
            i <= n,
            n == x@.len(),
            n == d_y@.len(),
            y@ == rms_normed::<A>(x@),
            factor == rms_factor::<A>(x@, s_lit::<A>(1, 5)),
            mean == s_over::<A>(dot_of::<A>(d_y@, y@), s_count::<A>(n)),
            d_x@ == rms_back::<A>(x@, d_y@).take(i as int),
        decreases n - i,
    {
        d_x.push(A::times(factor, A::minus(d_y[i], A::times(y[i], mean))));
        i += 1;
        assert(d_x@ =~= rms_back::<A>(x@, d_y@).take(i as int));
    }
    assert(d_x@ =~= rms_back::<A>(x@, d_y@));
    d_x
}

/// One FORGE transformer-style block.
/// Compute graph (per token, O(1)):
///   h' = RMSNorm(h)
///   m  = MRM(h')                    [if use_mrm]
///   h  = h + m (or h + h' if no MRM)
///   h' = RMSNorm(h)
///   ff = SwiGLU(h')
///   h  = h + ff
pub struct ForgeBlock<A: Arith> {
    pub d: usize,
    pub d_ff: usize,
    pub cfg: ForgeConfig,
    /// Gate weights (d_ff x d)
    pub w1: Vec<A::T>,
    /// Up weights (d_ff x d)
    pub w1u: Vec<A::T>,
    /// Down weights (d x d_ff)
    pub w2: Vec<A::T>,
    /// MRM sub-module
    pub mrm: Option<MultiResMemory<A>>,
    /// FLOP counter
    pub flops_forward: u64,
}

/// All that a block holds.
#[verifier::ext_equal]
pub struct ForgeBlockValues<A: Arith> {
    pub d: nat,
    pub d_ff: nat,
    pub cfg: ForgeConfig,
    pub w1: Seq<A::T>,
    pub w1u: Seq<A::T>,
    pub w2: Seq<A::T>,
    pub mrm: Option<MrmValues<A>>,
    pub flops_forward: int,
}

/// What an optional memory holds.
pub open spec fn mrm_view<A: Arith>(mrm: Option<MultiResMemory<A>>) -> Option<MrmValues<A>> {
    match mrm {
        Some(m) => Some(m@),
        None => None,
    }
}

impl<A: Arith> View for ForgeBlock<A> {
    type V = ForgeBlockValues<A>;

    open spec fn view(&self) -> ForgeBlockValues<A> {
        ForgeBlockValues {
            d: self.d as nat,
            d_ff: self.d_ff as nat,
            cfg: self.cfg,
            w1: self.w1@,
            w1u: self.w1u@,
            w2: self.w2@,
            mrm: mrm_view(self.mrm),
            flops_forward: self.flops_forward as int,
        }
    }
}

/// SiLU of one value: g / (1 + exp(-g))
pub open spec fn silu_of<A: Arith>(g: A::T) -> A::T {
    s_over::<A>(g, s_plus::<A>(one::<A>(), s_exp::<A>(s_negate::<A>(g))))
}

/// SwiGLU: silu(gate) * up
pub open spec fn gated_up<A: Arith>(gate: Seq<A::T>, up: Seq<A::T>) -> Seq<A::T> {
    Seq::new(gate.len(), |i: int| s_times::<A>(silu_of::<A>(gate[i]), up[i]))
}

/// SwiGLU: silu(gate) * up
pub(crate) fn gate_up<A: Arith>(gate: &[A::T], up: &[A::T]) -> (out: Vec<A::T>)
    requires
        lawful::<A>(),
        gate@.len() == up@.len(),
    ensures
        out@ == gated_up::<A>(gate@, up@),
        out@.len() == gate@.len(),
{
    let n: usize = gate.len();
    let mut out: Vec<A::T> = Vec::with_capacity(n);
    let mut i: usize = 0;
    while i < n
        invariant
            lawful::<A>(),
            i <= n,
            n == gate@.len(),
            n == up@.len(),
            out@ == gated_up::<A>(gate@, up@).take(i as int),
        decreases n - i,
    {
        let g = gate[i];
        let swish = A::over(g, A::plus(A::lit(1, 0), A::exp(A::negate(g))));
        out.push(A::times(swish, up[i]));
        i += 1;
        assert(out@ =~= gated_up::<A>(gate@, up@).take(i as int));
    }
    assert(out@ =~= gated_up::<A>(gate@, up@));
    out
}

/// A memory that writes every token: its threshold lies below every surprise.
pub open spec fn always_writing<A: Arith>(m: MrmValues<A>) -> MrmValues<A> {
    MrmValues { surprise_threshold: s_negate::<A>(one::<A>()), ..m }
}

impl<A: Arith> ForgeBlockValues<A> {
    /// The weights are as large as the dimensions say.
    pub open spec fn wf(&self) -> bool {
        &&& self.w1.len() == self.d_ff * self.d
        &&& self.w1u.len() == self.d_ff * self.d
        &&& self.w2.len() == self.d * self.d_ff
        &&& self.mrm matches Some(m) ==> m.wf() && m.d == self.d
    }

    /// The memory as the block uses it: with the surprise gate off it writes every token.
    pub open spec fn gated(&self, m: MrmValues<A>) -> MrmValues<A> {
        if self.cfg.use_surprise_gate {
            m
        } else {
            always_writing::<A>(m)
        }
    }

    /// The memory after a normed token.
    pub open spec fn mrm_next(&self, m: MrmValues<A>, h_norm: Seq<A::T>) -> MrmValues<A> {
        MrmValues {
            surprise_threshold: m.surprise_threshold,
            ..self.gated(m).next(h_norm, self.cfg.use_surprise_gate)
        }
    }

    /// The token after the memory, or after its own norm where there is no memory.
    pub open spec fn with_memory(&self, h: Seq<A::T>) -> Seq<A::T> {
        match self.mrm {
            Some(m) => add_scaled::<A>(
                h,
                self.gated(m).out_of(rms_normed::<A>(h)),
                one::<A>(),
            ),
            None => add_scaled::<A>(h, rms_normed::<A>(h), one::<A>()),
        }
    }

    /// The FLOPs of a token: 4 matmuls and attention of the memory, 3 matmuls of the FF.
    pub open spec fn flops_per_token(&self) -> nat {
        let memory = match self.mrm {
            Some(m) => 4 * 2 * (self.d * self.d) + 2 * ((m.k_fine + m.k_coarse) * self.d),
            None => 0,
        };
        memory + 3 * 2 * (self.d_ff * self.d)
    }

    /// The token after the FF, with the residual.
    pub open spec fn with_ff(&self, mid: Seq<A::T>) -> Seq<A::T> {
        let h_norm = rms_normed::<A>(mid);
        let gate = matvec_of::<A>(self.w1, self.d_ff, h_norm);
        let up = matvec_of::<A>(self.w1u, self.d_ff, h_norm);
        add_scaled::<A>(
            mid,
            matvec_of::<A>(self.w2, self.d, gated_up::<A>(gate, up)),
            one::<A>(),
        )
    }

    /// The token after the block.
    pub open spec fn out_of(&self, h: Seq<A::T>) -> Seq<A::T> {
        self.with_ff(self.with_memory(h))
    }

    /// The block takes a token: its memory does, and its FLOPs can be counted.
    pub open spec fn accepts(&self, h: Seq<A::T>) -> bool {
        &&& self.wf()
        &&& h.len() == self.d
        &&& self.mrm matches Some(m) ==> self.gated(m).accepts(rms_normed::<A>(h)) && (m.k_fine
            + m.k_coarse) * m.d <= usize::MAX
        &&& 0 <= self.flops_forward
        &&& self.flops_forward + self.flops_per_token() <= u64::MAX
    }

    /// The block after a token.
    pub open spec fn next(&self, h: Seq<A::T>) -> ForgeBlockValues<A> {
        ForgeBlockValues {
            mrm: match self.mrm {
                Some(m) => Some(self.mrm_next(m, rms_normed::<A>(h))),
                None => None,
            },
            flops_forward: self.flops_forward + self.flops_per_token(),
            ..*self
        }
    }

    /// The block has slots for `n` more tokens, and its counters do not overflow.
    pub open spec fn has_room(&self, n: int) -> bool {
        &&& self.wf()
        &&& self.mrm matches Some(m) ==> {
            &&& n > 0 ==> m.k_fine > 0
            &&& n > 0 ==> m.k_coarse > 0 || m.d == 0
            &&& m.k_fine + m.k_coarse <= usize::MAX
            &&& (m.k_fine + m.k_coarse) * m.d <= usize::MAX
            &&& m.total_tokens + n <= usize::MAX
            &&& m.total_writes + n <= usize::MAX
        }
    }

    /// A token leaves room for one token less, and the FLOPs of a token as they were.
    pub proof fn lemma_next(&self, h: Seq<A::T>, n: int)
        requires
            self.has_room(n),
            n >= 1,
            h.len() == self.d,
        ensures
            self.next(h).has_room(n - 1),
            self.next(h).d == self.d,
            self.next(h).flops_per_token() == self.flops_per_token(),
            self.next(h).flops_forward == self.flops_forward + self.flops_per_token(),
            self.with_memory(h).len() == self.d,
            self.out_of(h).len() == self.d,
            0 <= self.flops_forward && self.flops_forward + self.flops_per_token() <= u64::MAX
                ==> self.accepts(h),
    {
        if let Some(m) = self.mrm {
            assert(self.gated(m).accepts(rms_normed::<A>(h)));
            memory_keeps_its_size::<A>(
                self.gated(m),
                rms_normed::<A>(h),
                self.cfg.use_surprise_gate,
            );
        }
    }
}

impl<A: Arith> Clone for ForgeBlock<A> {
    fn clone(&self) -> (block: Self)
        ensures
            block@ == self@,
    {
        let mrm = match &self.mrm {
            Some(m) => Some(m.clone()),
            None => None,
        };
        ForgeBlock {
            d: self.d,
            d_ff: self.d_ff,
            cfg: self.cfg,
            w1: copied(self.w1.as_slice()),
            w1u: copied(self.w1u.as_slice()),
            w2: copied(self.w2.as_slice()),
            mrm,
            flops_forward: self.flops_forward,
        }
    }
}

impl<A: Arith> ForgeBlock<A> {
    /// The weights are those that the generator of the seed draws, one matrix after another, each
    /// on the scale of what it is applied to. A memory has a seed of its own.
    pub open spec fn is_drawn(&self, seed: u64) -> bool {
        let scale = weight_scale::<A>(2, self.d);
        &&& drawn_from_seed::<A>(
            seed,
            seq![
                WeightDraw { weights: self.w1@, scale },
                WeightDraw { weights: self.w1u@, scale },
                WeightDraw { weights: self.w2@, scale },
            ],
        )
        &&& self.mrm matches Some(m) ==> m.is_drawn((seed + 100) as u64)
    }

    /// The block is of these dimensions, has seen no token, and has an empty memory if its
    /// configuration uses one.
    pub open spec fn is_new(
        &self,
        d: usize,
        d_ff: usize,
        k_fine: usize,
        k_coarse: usize,
        cfg: ForgeConfig,
    ) -> bool {
        &&& self.d == d
        &&& self.d_ff == d_ff
        &&& self.cfg == cfg
        &&& self.w1@.len() == d_ff * d
        &&& self.w1u@.len() == d_ff * d
        &&& self.w2@.len() == d * d_ff
        &&& self.mrm is Some <==> cfg.use_mrm
        &&& self.mrm matches Some(m) ==> m.is_new(d, k_fine, k_coarse)
        &&& self.flops_forward == 0
    }

    /// A block with weights drawn from the generator of a seed. A memory has the seed behind
    /// the block's by `100`.
    pub fn new(
        d: usize,
        d_ff: usize,
        k_fine: usize,
        k_coarse: usize,
        cfg: ForgeConfig,
        seed: u64,
    ) -> (block: Self)
        requires
            lawful::<A>(),
            d_ff * d <= usize::MAX,
            cfg.use_mrm ==> d * d <= usize::MAX,
            cfg.use_mrm ==> k_fine * d <= usize::MAX,
            cfg.use_mrm ==> k_coarse * d <= usize::MAX,
            cfg.use_mrm ==> seed + 100 <= u64::MAX,
        ensures
            block.is_new(d, d_ff, k_fine, k_coarse, cfg),
            block.is_drawn(seed),
            block@.wf(),
    {
        assert(d_ff * d == d * d_ff) by (nonlinear_arith);
        let mut source = WeightSource::<A>::new(seed);
        let scale_ff = scale_for::<A>(2, d);
        let mrm = if cfg.use_mrm {
            Some(MultiResMemory::new(d, k_fine, k_coarse, seed + 100))
        } else {
            None
        };
        let w1 = source.draw(scale_ff, d_ff * d);
        let w1u = source.draw(scale_ff, d_ff * d);
        let w2 = source.draw(scale_ff, d * d_ff);
        proof {
            source.lemma_drawn(seed);
            assert(source.parts() =~= seq![
                WeightDraw { weights: w1@, scale: scale_ff },
                WeightDraw { weights: w1u@, scale: scale_ff },
                WeightDraw { weights: w2@, scale: scale_ff },
            ]);
        }
        Self { d, d_ff, cfg, w1, w1u, w2, mrm, flops_forward: 0 }
    }

    /// Forward pass: h (d,) -> h_out (d,). Mutates h in place.
    pub fn forward(&mut self, h: &mut [A::T])
        requires
            lawful::<A>(),
            old(self)@.accepts(old(h)@),
        ensures
            final(self)@ == old(self)@.next(old(h)@),
            final(h)@ == old(self)@.out_of(old(h)@),
            final(h)@.len() == old(h)@.len(),
    {
        self.through_memory(h);
        self.through_ff(h);
    }

    /// RMSNorm + SwiGLU FF, with the residual.
    pub(crate) fn through_ff(&mut self, h: &mut [A::T])
        requires
            lawful::<A>(),
            old(self)@.wf(),
            old(h)@.len() == old(self).d,
            old(self)@.flops_forward + 3 * 2 * (old(self)@.d_ff * old(self)@.d) <= u64::MAX,
        ensures
            final(self)@ == (ForgeBlockValues {
                flops_forward: old(self)@.flops_forward + 3 * 2 * (old(self)@.d_ff * old(self)@.d),
                ..old(self)@
            }),
            final(h)@ == old(self)@.with_ff(old(h)@),
            final(h)@.len() == old(h)@.len(),
    {
        let h_norm = rms_norm::<A>(h, A::lit(1, 5));
        let gate = mul_vec::<A>(self.w1.as_slice(), self.d_ff, h_norm.as_slice());
        let up = mul_vec::<A>(self.w1u.as_slice(), self.d_ff, h_norm.as_slice());
        let ff_out = gate_up::<A>(gate.as_slice(), up.as_slice());
        let ff_final = mul_vec::<A>(self.w2.as_slice(), self.d, ff_out.as_slice());
        vec_add_scaled::<A>(h, ff_final.as_slice(), A::lit(1, 0));
        // FLOPs: 2 x (d_ff x d) for w1/w1u + (d x d_ff) for w2 = 3 matmuls
        assert(self.w1.len() == self.w1@.len());
        self.flops_forward = self.flops_forward + 3 * 2 * ((self.d_ff * self.d) as u64);
    }

    /// RMSNorm + MRM, with the residual.
    pub(crate) fn through_memory(&mut self, h: &mut [A::T])
        requires
            lawful::<A>(),
            old(self)@.accepts(old(h)@),
        ensures
            final(self)@.wf(),
            final(self)@ == (ForgeBlockValues {
                flops_forward: old(self)@.flops_forward + old(self)@.flops_per_token() - 3 * 2 * (
                old(self)@.d_ff * old(self)@.d),
                ..old(self)@.next(old(h)@)
            }),
            final(h)@ == old(self)@.with_memory(old(h)@),
            final(h)@.len() == old(h)@.len(),
    {
        let ghost b0 = self@;
        let ghost h0 = h@;
        let d: usize = self.d;
        let h_norm = rms_norm::<A>(h, A::lit(1, 5));
        let gate_active: bool = self.cfg.use_surprise_gate;
        proof {
            if let Some(m) = b0.mrm {
                memory_keeps_its_size::<A>(
                    b0.gated(m),
                    rms_normed::<A>(h0),
                    b0.cfg.use_surprise_gate,
                );
            }
            assert(h_norm@ == rms_normed::<A>(h0));
        }
        match &mut self.mrm {
            Some(mrm) => {
                let ghost m0 = mrm@;
                assert(b0.mrm == Some(m0));
                let mut mrm_out = zero_vec::<A>(d);
                // Surprise-gate override: if use_surprise_gate is OFF, force write always
                if !gate_active {
                    let old_thresh = mrm.surprise_threshold;
                    mrm.surprise_threshold = A::negate(A::lit(1, 0));
                    assert(mrm@ == always_writing::<A>(m0));
                    mrm.forward(h_norm.as_slice(), mrm_out.as_mut_slice(), false);
                    mrm.surprise_threshold = old_thresh;
                } else {
                    mrm.forward(h_norm.as_slice(), mrm_out.as_mut_slice(), true);
                }
                // Residual
                vec_add_scaled::<A>(h, mrm_out.as_slice(), A::lit(1, 0));
                // FLOPs: 4 matmuls (wq,wk,wv,wo) x 2d^2 + attention over k_fine+k_coarse
                let k_total: usize = mrm.k_fine + mrm.k_coarse;
                assert(mrm.w_k.len() == mrm.w_k@.len());
                self.flops_forward = self.flops_forward + (4 * 2 * ((d * d) as u64) + 2 * ((k_total
                    * d) as u64));
            },
            None => {
                vec_add_scaled::<A>(h, h_norm.as_slice(), A::lit(1, 0));
            },
        }
    }

    /// Number of parameters.
    pub fn param_count(&self) -> (n: usize)
        requires
            self@.params() <= usize::MAX,
        ensures
            n == self@.params(),
    {
        proof {
            let (d, f) = (self.d as int, self.d_ff as int);
            assert(0 <= f * d <= f * d * 3) by (nonlinear_arith)
                requires
                    d >= 0,
                    f >= 0,
            ;
        }
        let ff_p: usize = self.d_ff * self.d * 3;
        let mrm_p: usize = match &self.mrm {
            Some(m) => {
                assert(0 <= 4 * m.d * m.d) by (nonlinear_arith);
                m.param_count()
            },
            None => 0,
        };
        ff_p + mrm_p
    }
}

impl<A: Arith> ForgeBlockValues<A> {
    /// Number of parameters.
    pub open spec fn params(&self) -> nat {
        self.d_ff * self.d * 3 + match self.mrm {
            Some(m) => 4 * m.d * m.d,
            None => 0,
        }
    }
}

/// Gradients of a block: those of the FF weights and of the projections of its memory.
#[derive(Debug, Clone)]
pub struct ForgeBlockGrads<A: Arith> {
    pub d: usize,
    pub d_ff: usize,
    pub grad_w1: Vec<A::T>,
    pub grad_w1u: Vec<A::T>,
    pub grad_w2: Vec<A::T>,
    // MRM weight gradients (w_k, w_v, w_q, w_o)
    pub grad_mrm_wq: Vec<A::T>,
    pub grad_mrm_wk: Vec<A::T>,
    pub grad_mrm_wv: Vec<A::T>,
    pub grad_mrm_wo: Vec<A::T>,
}

/// The values of the gradients of a block.
pub struct ForgeGradValues<T> {
    pub w1: Seq<T>,
    pub w1u: Seq<T>,
    pub w2: Seq<T>,
    pub wq: Seq<T>,
    pub wk: Seq<T>,
    pub wv: Seq<T>,
    pub wo: Seq<T>,
}

impl<A: Arith> View for ForgeBlockGrads<A> {
    type V = ForgeGradValues<A::T>;

    open spec fn view(&self) -> ForgeGradValues<A::T> {
        ForgeGradValues {
            w1: self.grad_w1@,
            w1u: self.grad_w1u@,
            w2: self.grad_w2@,
            wq: self.grad_mrm_wq@,
            wk: self.grad_mrm_wk@,
            wv: self.grad_mrm_wv@,
            wo: self.grad_mrm_wo@,
        }
    }
}

impl<T> ForgeGradValues<T> {
    /// The gradients are those of a block of these dimensions.
    pub open spec fn fits(&self, d: nat, d_ff: nat) -> bool {
        &&& self.w1.len() == d_ff * d
        &&& self.w1u.len() == d_ff * d
        &&& self.w2.len() == d * d_ff
        &&& self.wq.len() == d * d
        &&& self.wk.len() == d * d
        &&& self.wv.len() == d * d
        &&& self.wo.len() == d * d
    }

    /// Zeros in place of all gradients.
    pub open spec fn cleared<A: Arith<T = T>>(&self) -> ForgeGradValues<T> {
        ForgeGradValues {
            w1: zeros::<A>(self.w1.len()),
            w1u: zeros::<A>(self.w1u.len()),
            w2: zeros::<A>(self.w2.len()),
            wq: zeros::<A>(self.wq.len()),
            wk: zeros::<A>(self.wk.len()),
            wv: zeros::<A>(self.wv.len()),
            wo: zeros::<A>(self.wo.len()),
        }
    }

    /// The gradients with their counterparts added, each times `scale`, as far as both go.
    pub open spec fn plus_scaled<A: Arith<T = T>>(
        &self,
        other: ForgeGradValues<T>,
        scale: T,
    ) -> ForgeGradValues<T> {
        ForgeGradValues {
            w1: zip_add_scaled::<A>(self.w1, other.w1, scale),
            w1u: zip_add_scaled::<A>(self.w1u, other.w1u, scale),
            w2: zip_add_scaled::<A>(self.w2, other.w2, scale),
            wq: zip_add_scaled::<A>(self.wq, other.wq, scale),
            wk: zip_add_scaled::<A>(self.wk, other.wk, scale),
            wv: zip_add_scaled::<A>(self.wv, other.wv, scale),
            wo: zip_add_scaled::<A>(self.wo, other.wo, scale),
        }
    }
}

/// No gradients of a block.
pub open spec fn no_forge_grads<A: Arith>(d: nat, d_ff: nat) -> ForgeGradValues<A::T> {
    ForgeGradValues {
        w1: zeros::<A>(d_ff * d),
        w1u: zeros::<A>(d_ff * d),
        w2: zeros::<A>(d * d_ff),
        wq: zeros::<A>(d * d),
        wk: zeros::<A>(d * d),
        wv: zeros::<A>(d * d),
        wo: zeros::<A>(d * d),
    }
}

/// `dst` with the elements of `src` added, each times `alpha`, as far as both go.
pub open spec fn zip_add_scaled<A: Arith>(
    dst: Seq<A::T>,
    src: Seq<A::T>,
    alpha: A::T,
) -> Seq<A::T> {
    Seq::new(
        dst.len(),
        |i: int|
            if i < src.len() {
                s_plus::<A>(dst[i], s_times::<A>(alpha, src[i]))
            } else {
                dst[i]
            },
    )
}

/// In-place scaled vector addition: dst += alpha * src, as far as both go
fn add_scaled_front<A: Arith>(dst: &mut [A::T], src: &[A::T], alpha: A::T)
    requires
        lawful::<A>(),
    ensures
        final(dst)@ == zip_add_scaled::<A>(old(dst)@, src@, alpha),
{
    let n: usize = if dst.len() < src.len() {
        dst.len()
    } else {
        src.len()
    };
    let ghost before = dst@;
    let mut i: usize = 0;
    while i < n
        invariant
            lawful::<A>(),
            i <= n,
            n <= before.len(),
            n <= src@.len(),
            n == before.len() || n == src@.len(),
            dst@.len() == before.len(),
            forall|j: int|
                0 <= j < i ==> #[trigger] dst@[j] == zip_add_scaled::<A>(before, src@, alpha)[j],
            forall|j: int| i <= j < dst@.len() ==> #[trigger] dst@[j] == before[j],
        decreases n - i,
    {
        dst[i] = A::plus(dst[i], A::times(alpha, src[i]));
        i += 1;
    }
    assert(dst@ =~= zip_add_scaled::<A>(before, src@, alpha));
}

impl<A: Arith> ForgeBlockGrads<A> {
    pub fn new(d: usize, d_ff: usize) -> (grads: Self)
        requires
            lawful::<A>(),
            d_ff * d <= usize::MAX,
            d * d <= usize::MAX,
        ensures
            grads.d == d,
            grads.d_ff == d_ff,
            grads@ == no_forge_grads::<A>(d as nat, d_ff as nat),
            grads@.fits(d as nat, d_ff as nat),
    {
        assert(d * d_ff == d_ff * d) by (nonlinear_arith);
        Self {
            d,
            d_ff,
            grad_w1: zero_vec::<A>(d_ff * d),
            grad_w1u: zero_vec::<A>(d_ff * d),
            grad_w2: zero_vec::<A>(d * d_ff),
            grad_mrm_wq: zero_vec::<A>(d * d),
            grad_mrm_wk: zero_vec::<A>(d * d),
            grad_mrm_wv: zero_vec::<A>(d * d),
            grad_mrm_wo: zero_vec::<A>(d * d),
        }
    }

    pub fn zero(&mut self)
        requires
            lawful::<A>(),
        ensures
            final(self)@ == old(self)@.cleared::<A>(),
            final(self).d == old(self).d,
            final(self).d_ff == old(self).d_ff,
    {
        vec_zero::<A>(self.grad_w1.as_mut_slice());
        vec_zero::<A>(self.grad_w1u.as_mut_slice());
        vec_zero::<A>(self.grad_w2.as_mut_slice());
        vec_zero::<A>(self.grad_mrm_wq.as_mut_slice());
        vec_zero::<A>(self.grad_mrm_wk.as_mut_slice());
        vec_zero::<A>(self.grad_mrm_wv.as_mut_slice());
        vec_zero::<A>(self.grad_mrm_wo.as_mut_slice());
    }

    pub fn add_scaled(&mut self, other: &ForgeBlockGrads<A>, scale: A::T)
        requires
            lawful::<A>(),
        ensures
            final(self)@ == old(self)@.plus_scaled::<A>(other@, scale),
            final(self).d == old(self).d,
            final(self).d_ff == old(self).d_ff,
    {
        add_scaled_front::<A>(self.grad_w1.as_mut_slice(), other.grad_w1.as_slice(), scale);
        add_scaled_front::<A>(self.grad_w1u.as_mut_slice(), other.grad_w1u.as_slice(), scale);
        add_scaled_front::<A>(self.grad_w2.as_mut_slice(), other.grad_w2.as_slice(), scale);
        add_scaled_front::<A>(self.grad_mrm_wq.as_mut_slice(), other.grad_mrm_wq.as_slice(), scale);
        add_scaled_front::<A>(self.grad_mrm_wk.as_mut_slice(), other.grad_mrm_wk.as_slice(), scale);
        add_scaled_front::<A>(self.grad_mrm_wv.as_mut_slice(), other.grad_mrm_wv.as_slice(), scale);
        add_scaled_front::<A>(self.grad_mrm_wo.as_mut_slice(), other.grad_mrm_wo.as_slice(), scale);
    }
}

/// Full tiny FORGE model (Embeddings + N blocks + head).
pub struct ForgeModel<A: Arith> {
    pub vocab_size: usize,
    pub d: usize,
    pub max_seq: usize,
    pub cfg: ForgeConfig,
    pub embeddings: Vec<A::T>,
    pub pos_embed: Vec<A::T>,
    pub blocks: Vec<ForgeBlock<A>>,
    /// (vocab x d)
    pub head: Vec<A::T>,
    /// Accumulated across forward calls.
    pub total_flops: u64,
}

/// All that a model holds.
#[verifier::ext_equal]
pub struct ForgeModelValues<A: Arith> {
    pub vocab: nat,
    pub d: nat,
    pub max_seq: nat,
    pub cfg: ForgeConfig,
    pub embeddings: Seq<A::T>,
    pub pos_embed: Seq<A::T>,
    pub blocks: Seq<ForgeBlockValues<A>>,
    pub head: Seq<A::T>,
    pub total_flops: int,
}

/// What the blocks hold.
pub open spec fn forge_block_views<A: Arith>(blocks: Seq<ForgeBlock<A>>) -> Seq<
    ForgeBlockValues<A>,
> {
    Seq::new(blocks.len(), |l: int| blocks[l]@)
}

impl<A: Arith> View for ForgeModel<A> {
    type V = ForgeModelValues<A>;

    open spec fn view(&self) -> ForgeModelValues<A> {
        ForgeModelValues {
            vocab: self.vocab_size as nat,
            d: self.d as nat,
            max_seq: self.max_seq as nat,
            cfg: self.cfg,
            embeddings: self.embeddings@,
            pos_embed: self.pos_embed@,
            blocks: forge_block_views(self.blocks@),
            head: self.head@,
            total_flops: self.total_flops as int,
        }
    }
}

/// A token on its way through the blocks.
pub struct Passage<A: Arith> {
    pub blocks: Seq<ForgeBlockValues<A>>,
    pub h: Seq<A::T>,
    /// The FLOPs that the blocks have counted.
    pub flops: int,
}

/// A token after the first `n` blocks, whose FLOP counters are read and reset.
pub open spec fn passed<A: Arith>(
    blocks: Seq<ForgeBlockValues<A>>,
    h: Seq<A::T>,
    n: nat,
) -> Passage<A>
    decreases n,
{
    if n == 0 {
        Passage { blocks, h, flops: 0 }
    } else {
        let p = passed::<A>(blocks, h, (n - 1) as nat);
        let next = p.blocks[n - 1].next(p.h);
        Passage {
            blocks: p.blocks.update(n - 1, ForgeBlockValues { flops_forward: 0, ..next }),
            h: p.blocks[n - 1].out_of(p.h),
            flops: p.flops + next.flops_forward,
        }
    }
}

impl<A: Arith> ForgeModelValues<A> {
    /// The weights are as large as the dimensions say, and there is room for `n` more tokens.
    pub open spec fn has_room(&self, n: int) -> bool {
        &&& self.embeddings.len() == self.vocab * self.d
        &&& self.pos_embed.len() == self.max_seq * self.d
        &&& self.head.len() == self.vocab * self.d
        &&& forall|l: int|
            0 <= l < self.blocks.len() ==> (#[trigger] self.blocks[l]).has_room(n)
                && self.blocks[l].d == self.d && self.blocks[l].flops_forward >= 0
    }

    /// The model with its FLOP counter at zero.
    pub open spec fn with_no_flops(&self) -> ForgeModelValues<A> {
        ForgeModelValues { total_flops: 0, ..*self }
    }

    /// A token at its position; positions past the last share it.
    pub open spec fn embed(&self, tok: int, t: int) -> Seq<A::T> {
        let pos = if t < self.max_seq - 1 {
            t
        } else {
            self.max_seq - 1
        };
        summed::<A>(row_of(self.embeddings, self.d, tok), row_of(self.pos_embed, self.d, pos))
    }

    /// Token `t` after all blocks.
    pub open spec fn pass(&self, tok: int, t: int) -> Passage<A> {
        passed::<A>(self.blocks, self.embed(tok, t), self.blocks.len())
    }

    /// The model after token `t`.
    pub open spec fn after_token(&self, tok: int, t: int) -> ForgeModelValues<A> {
        let p = self.pass(tok, t);
        ForgeModelValues {
            blocks: p.blocks,
            total_flops: self.total_flops + 2 * self.d + p.flops + 2 * self.vocab * self.d,
            ..*self
        }
    }

    /// The model after the first `n` tokens.
    pub open spec fn after(&self, tokens: Seq<usize>, n: nat) -> ForgeModelValues<A>
        decreases n,
    {
        if n == 0 {
            *self
        } else {
            self.after(tokens, (n - 1) as nat).after_token(tokens[n - 1] as int, n - 1)
        }
    }

    /// The loss of token `t` against the token that follows it.
    pub open spec fn token_loss(&self, tokens: Seq<usize>, t: int) -> A::T {
        let h = self.after(tokens, t as nat).pass(tokens[t] as int, t).h;
        cross_entropy_of::<A>(matvec_of::<A>(self.head, self.vocab, h), tokens[t + 1] as int)
    }

    /// The losses of the first `n` tokens, added up from zero.
    pub open spec fn loss(&self, tokens: Seq<usize>, n: nat) -> A::T
        decreases n,
    {
        if n == 0 {
            zero::<A>()
        } else {
            s_plus::<A>(self.loss(tokens, (n - 1) as nat), self.token_loss(tokens, n - 1))
        }
    }

    /// The blocks after the first `k` of them have taken a token, with room for one token less
    /// in those.
    pub proof fn lemma_passed(&self, h: Seq<A::T>, n: int, k: nat)
        requires
            self.has_room(n),
            n >= 1,
            h.len() == self.d,
            k <= self.blocks.len(),
        ensures
            ({
                let p = passed::<A>(self.blocks, h, k);
                &&& p.blocks.len() == self.blocks.len()
                &&& p.h.len() == self.d
                &&& p.flops >= 0
                &&& forall|l: int|
                    0 <= l < k ==> (#[trigger] p.blocks[l]).has_room(n - 1) && p.blocks[l].d
                        == self.d && p.blocks[l].flops_forward == 0
                &&& forall|l: int|
                    k <= l < p.blocks.len() ==> #[trigger] p.blocks[l] == self.blocks[l]
            }),
        decreases k,
    {
        if k > 0 {
            self.lemma_passed(h, n, (k - 1) as nat);
            let p = passed::<A>(self.blocks, h, (k - 1) as nat);
            assert(p.blocks[k - 1] == self.blocks[k - 1]);
            assert(self.blocks[k - 1].has_room(n));
            p.blocks[k - 1].lemma_next(p.h, n);
        }
    }

    /// The FLOPs of a passage only grow.
    proof fn lemma_flops_grow(&self, h: Seq<A::T>, n: int, k: nat, m: nat)
        requires
            self.has_room(n),
            n >= 1,
            h.len() == self.d,
            k <= m <= self.blocks.len(),
        ensures
            passed::<A>(self.blocks, h, k).flops <= passed::<A>(self.blocks, h, m).flops,
        decreases m - k,
    {
        if k < m {
            self.lemma_flops_grow(h, n, k, (m - 1) as nat);
            self.lemma_passed(h, n, (m - 1) as nat);
            let p = passed::<A>(self.blocks, h, (m - 1) as nat);
            assert(p.blocks[m - 1] == self.blocks[m - 1]);
            assert(self.blocks[m - 1].has_room(n));
            p.blocks[m - 1].lemma_next(p.h, n);
        }
    }

    /// The model after the first `n` tokens keeps its weights, and has room for as many tokens
    /// less.
    pub proof fn lemma_after(&self, tokens: Seq<usize>, n: nat, room: int)
        requires
            self.has_room(room),
            n <= room,
            n <= tokens.len(),
            self.max_seq > 0,
            forall|t: int| 0 <= t < tokens.len() ==> #[trigger] tokens[t] < self.vocab,
        ensures
            ({
                let m = self.after(tokens, n);
                &&& m.has_room(room - n)
                &&& m.vocab == self.vocab
                &&& m.d == self.d
                &&& m.max_seq == self.max_seq
                &&& m.embeddings == self.embeddings
                &&& m.pos_embed == self.pos_embed
                &&& m.head == self.head
                &&& m.blocks.len() == self.blocks.len()
                &&& m.total_flops >= self.total_flops
            }),
        decreases n,
    {
        if n > 0 {
            self.lemma_after(tokens, (n - 1) as nat, room);
            let m = self.after(tokens, (n - 1) as nat);
            let tok = tokens[n - 1] as int;
            m.lemma_embed_len(tok, n - 1);
            m.lemma_passed(m.embed(tok, n - 1), room - n + 1, m.blocks.len());
            assert(0 <= 2 * m.vocab * m.d) by (nonlinear_arith);
        }
    }

    /// A token at its position is a vector of the dimension of the model.
    pub proof fn lemma_embed_len(&self, tok: int, t: int)
        requires
            self.embeddings.len() == self.vocab * self.d,
            self.pos_embed.len() == self.max_seq * self.d,
            0 <= tok < self.vocab,
            self.max_seq > 0,
            0 <= t,
        ensures
            self.embed(tok, t).len() == self.d,
    {
        lemma_row_bounds(self.vocab, self.d, tok);
    }

    /// The FLOPs over a sequence only grow.
    proof fn lemma_total_grows(&self, tokens: Seq<usize>, k: nat, n: nat, room: int)
        requires
            self.has_room(room),
            k <= n <= room,
            n <= tokens.len(),
            self.max_seq > 0,
            forall|t: int| 0 <= t < tokens.len() ==> #[trigger] tokens[t] < self.vocab,
        ensures
            self.after(tokens, k).total_flops <= self.after(tokens, n).total_flops,
        decreases n - k,
    {
        if k < n {
            self.lemma_total_grows(tokens, k, (n - 1) as nat, room);
            self.lemma_after(tokens, (n - 1) as nat, room);
            let m = self.after(tokens, (n - 1) as nat);
            let tok = tokens[n - 1] as int;
            m.lemma_embed_len(tok, n - 1);
            m.lemma_passed(m.embed(tok, n - 1), room - n + 1, m.blocks.len());
            assert(0 <= 2 * m.vocab * m.d) by (nonlinear_arith);
        }
    }

    /// Number of parameters of the first `n` blocks.
    pub open spec fn block_params(&self, n: nat) -> nat
        decreases n,
    {
        if n == 0 {
            0
        } else {
            self.block_params((n - 1) as nat) + self.blocks[n - 1].params()
        }
    }

    /// Number of parameters.
    pub open spec fn params(&self) -> nat {
        self.vocab * self.d + self.max_seq * self.d + self.block_params(self.blocks.len())
            + self.vocab * self.d
    }

    /// Blocks only add parameters.
    proof fn lemma_block_params(&self, k: nat, n: nat)
        requires
            k <= n,
        ensures
            self.block_params(k) <= self.block_params(n),
        decreases n - k,
    {
        if k < n {
            self.lemma_block_params(k, (n - 1) as nat);
        }
    }
}

impl<A: Arith> Clone for ForgeModel<A> {
    fn clone(&self) -> (model: Self)
        ensures
            model@ == self@,
    {
        let n: usize = self.blocks.len();
        let mut blocks: Vec<ForgeBlock<A>> = Vec::with_capacity(n);
        let mut l: usize = 0;
        while l < n
            invariant
                l <= n,
                n == self.blocks@.len(),
                blocks@.len() == l,
                forall|k: int| 0 <= k < l ==> (#[trigger] blocks@[k])@ == self.blocks@[k]@,
            decreases n - l,
        {
            blocks.push(self.blocks[l].clone());
            l += 1;
        }
        assert(forge_block_views(blocks@) =~= forge_block_views(self.blocks@));
        ForgeModel {
            vocab_size: self.vocab_size,
            d: self.d,
            max_seq: self.max_seq,
            cfg: self.cfg,
            embeddings: copied(self.embeddings.as_slice()),
            pos_embed: copied(self.pos_embed.as_slice()),
            blocks,
            head: copied(self.head.as_slice()),
            total_flops: self.total_flops,
        }
    }
}

impl<A: Arith> ForgeModel<A> {
    /// The weights are those that the generator of the seed draws, one matrix after another, each
    /// on the scale of what it is applied to. Block `i` has a seed of its own.
    pub open spec fn is_drawn(&self, seed: u64) -> bool {
        let scale = weight_scale::<A>(2, self.d);
        &&& drawn_from_seed::<A>(
            seed,
            seq![
                WeightDraw { weights: self.embeddings@, scale },
                WeightDraw { weights: self.pos_embed@, scale },
                WeightDraw { weights: self.head@, scale },
            ],
        )
        &&& forall|i: int|
            0 <= i < self.blocks@.len() ==> (#[trigger] self.blocks@[i]).is_drawn(
                (seed + 200 + i) as u64,
            )
    }

    /// A model with weights drawn from the generator of a seed. Block `i` has the seed behind
    /// the model's by `200 + i`.
    pub fn new(
        vocab_size: usize,
        d: usize,
        d_ff: usize,
        n_blocks: usize,
        k_fine: usize,
        k_coarse: usize,
        max_seq: usize,
        cfg: ForgeConfig,
        seed: u64,
    ) -> (model: Self)
        requires
            lawful::<A>(),
            vocab_size * d <= usize::MAX,
            max_seq * d <= usize::MAX,
            d_ff * d <= usize::MAX,
            cfg.use_mrm ==> d * d <= usize::MAX,
            cfg.use_mrm ==> k_fine * d <= usize::MAX,
            cfg.use_mrm ==> k_coarse * d <= usize::MAX,
            n_blocks > 0 ==> seed + 199 + n_blocks <= u64::MAX,
            n_blocks > 0 && cfg.use_mrm ==> seed + 299 + n_blocks <= u64::MAX,
        ensures
            model.vocab_size == vocab_size,
            model.d == d,
            model.max_seq == max_seq,
            model.cfg == cfg,
            model.embeddings@.len() == vocab_size * d,
            model.pos_embed@.len() == max_seq * d,
            model.head@.len() == vocab_size * d,
            model.blocks@.len() == n_blocks,
            forall|i: int|
                0 <= i < n_blocks ==> (#[trigger] model.blocks@[i]).is_new(
                    d,
                    d_ff,
                    k_fine,
                    k_coarse,
                    cfg,
                ),
            model.total_flops == 0,
            model.is_drawn(seed),
    {
        let mut source = WeightSource::<A>::new(seed);
        let scale = scale_for::<A>(2, d);
        let embeddings = source.draw(scale, vocab_size * d);
        let pos_embed = source.draw(scale, max_seq * d);
        let head = source.draw(scale, vocab_size * d);
        let mut blocks: Vec<ForgeBlock<A>> = Vec::with_capacity(n_blocks);
        let mut i: usize = 0;
        while i < n_blocks
            invariant
                lawful::<A>(),
                d_ff * d <= usize::MAX,
                cfg.use_mrm ==> d * d <= usize::MAX,
                cfg.use_mrm ==> k_fine * d <= usize::MAX,
                cfg.use_mrm ==> k_coarse * d <= usize::MAX,
                n_blocks > 0 ==> seed + 199 + n_blocks <= u64::MAX,
                n_blocks > 0 && cfg.use_mrm ==> seed + 299 + n_blocks <= u64::MAX,
                i <= n_blocks,
                blocks@.len() == i,
                forall|k: int|
                    0 <= k < i ==> (#[trigger] blocks@[k]).is_new(d, d_ff, k_fine, k_coarse, cfg)
                        && blocks@[k].is_drawn((seed + 200 + k) as u64),
            decreases n_blocks - i,
        {
            blocks.push(
                ForgeBlock::new(d, d_ff, k_fine, k_coarse, cfg, seed + 200 + i as u64),
            );
            i += 1;
        }
        proof {
            source.lemma_drawn(seed);
            assert(source.parts() =~= seq![
                WeightDraw { weights: embeddings@, scale },
                WeightDraw { weights: pos_embed@, scale },
                WeightDraw { weights: head@, scale },
            ]);
        }
        Self { vocab_size, d, max_seq, cfg, embeddings, pos_embed, blocks, head, total_flops: 0 }
    }

    /// A token at its position.
    pub fn embed_token(&self, tok: usize, t: usize) -> (h: Vec<A::T>)
        requires
            lawful::<A>(),
            self@.has_room(0),
            tok < self.vocab_size,
            self.max_seq > 0,
        ensures
            h@ == self@.embed(tok as int, t as int),
            h@.len() == self.d,
    {
        let d: usize = self.d;
        let pos: usize = if t < self.max_seq - 1 {
            t
        } else {
            self.max_seq - 1
        };
        proof {
            lemma_row_bounds(self.vocab_size as nat, d as nat, tok as int);
            lemma_row_bounds(self.max_seq as nat, d as nat, pos as int);
        }
        sum_vec::<A>(
            row_at(self.embeddings.as_slice(), d, tok),
            row_at(self.pos_embed.as_slice(), d, pos),
        )
    }

    /// Run a token through all blocks; their FLOP counters are read into the total and reset.
    pub(crate) fn run_blocks(&mut self, h: &mut Vec<A::T>, Ghost(room): Ghost<int>)
        requires
            lawful::<A>(),
            old(self)@.has_room(room),
            room >= 1,
            old(h)@.len() == old(self).d,
            old(self)@.total_flops + passed::<A>(
                old(self)@.blocks,
                old(h)@,
                old(self)@.blocks.len(),
            ).flops <= u64::MAX,
        ensures
            ({
                let p = passed::<A>(old(self)@.blocks, old(h)@, old(self)@.blocks.len());
                &&& final(self)@ == (ForgeModelValues {
                    blocks: p.blocks,
                    total_flops: old(self)@.total_flops + p.flops,
                    ..old(self)@
                })
                &&& final(h)@ == p.h
            }),
            final(h)@.len() == old(h)@.len(),
    {
        let ghost m0 = self@;
        let ghost h0 = h@;
        let n: usize = self.blocks.len();
        let mut l: usize = 0;
        while l < n
            invariant
                lawful::<A>(),
                m0.has_room(room),
                room >= 1,
                h0.len() == m0.d,
                n == m0.blocks.len(),
                l <= n,
                m0.total_flops + passed::<A>(m0.blocks, h0, n as nat).flops <= u64::MAX,
                self@ == (ForgeModelValues {
                    blocks: passed::<A>(m0.blocks, h0, l as nat).blocks,
                    total_flops: m0.total_flops + passed::<A>(m0.blocks, h0, l as nat).flops,
                    ..m0
                }),
                h@ == passed::<A>(m0.blocks, h0, l as nat).h,
                h@.len() == h0.len(),
            decreases n - l,
        {
            let ghost p = passed::<A>(m0.blocks, h0, l as nat);
            proof {
                m0.lemma_passed(h0, room, l as nat);
                m0.lemma_passed(h0, room, (l + 1) as nat);
                m0.lemma_flops_grow(h0, room, (l + 1) as nat, n as nat);
                assert(self@.blocks[l as int] == p.blocks[l as int]);
                assert(self.blocks@[l as int]@ == p.blocks[l as int]);
                assert(p.blocks[l as int] == m0.blocks[l as int]);
                assert(m0.blocks[l as int].has_room(room));
                p.blocks[l as int].lemma_next(p.h, room);
            }
            self.blocks[l].forward(h.as_mut_slice());
            self.total_flops = self.total_flops + self.blocks[l].flops_forward;
            self.blocks[l].flops_forward = 0;
            proof {
                let next = passed::<A>(m0.blocks, h0, (l + 1) as nat);
                assert(self@.blocks =~= next.blocks);
            }
            l += 1;
        }
    }

    /// Forward pass for a single token sequence.
    /// Also accumulates total_flops.
    /// Returns (total_nll_sum, token_count).
    pub fn forward_sequence_loss(&mut self, tokens: &[usize]) -> (r: (A::T, usize))
        requires
            lawful::<A>(),
            tokens@.len() >= 2 ==> old(self)@.accepts(tokens@),
        ensures
            tokens@.len() < 2 ==> r == (zero::<A>(), 0usize) && *final(self) == *old(self),
            tokens@.len() >= 2 ==> {
                let n = (tokens@.len() - 1) as nat;
                &&& r.0 == old(self)@.loss(tokens@, n)
                &&& r.1 == n
                &&& final(self)@ == old(self)@.after(tokens@, n)
            },
    {
        if tokens.len() < 2 {
            return (A::lit(0, 0), 0);
        }
        let d: usize = self.d;
        let v: usize = self.vocab_size;
        let t_len: usize = tokens.len() - 1;
        let ghost m0 = self@;
        let mut total_loss = A::lit(0, 0);
        let mut probs = zero_vec::<A>(v);
        let mut grad = zero_vec::<A>(v);
        let mut t: usize = 0;
        while t < t_len
            invariant
                lawful::<A>(),
                m0.accepts(tokens@),
                t <= t_len,
                t_len == tokens@.len() - 1,
                d == m0.d,
                v == m0.vocab,
                probs@.len() == v,
                grad@.len() == v,
                self@ == m0.after(tokens@, t as nat),
                self.d == d,
                self.vocab_size == v,
                total_loss == m0.loss(tokens@, t as nat),
            decreases t_len - t,
        {
            let tok: usize = tokens[t];
            let ghost m = self@;
            proof {
                m0.lemma_after(tokens@, t as nat, t_len as int);
                m0.lemma_after(tokens@, (t + 1) as nat, t_len as int);
                m0.lemma_total_grows(tokens@, (t + 1) as nat, t_len as nat, t_len as int);
                m.lemma_embed_len(tok as int, t as int);
                m.lemma_passed(m.embed(tok as int, t as int), t_len - t, m.blocks.len());
                assert(0 <= 2 * m.vocab * m.d) by (nonlinear_arith);
                assert forall|l: int| 0 <= l < m.blocks.len() implies (
                #[trigger] m.blocks[l]).has_room(0) by {
                    assert(m.blocks[l].has_room(t_len - t));
                }
            }
            // Embed
            let mut h = self.embed_token(tok, t);
            self.total_flops = self.total_flops + ((2 * d) as u64);
            // Run through all blocks
            self.run_blocks(&mut h, Ghost(t_len - t));
            // Head -> loss
            let logits = mul_vec::<A>(self.head.as_slice(), v, h.as_slice());
            self.total_flops = self.total_flops + ((2 * v * d) as u64);
            assert(tokens@[t + 1] < v);
            let loss = cross_entropy_loss_and_grad::<A>(
                logits.as_slice(),
                tokens[t + 1],
                probs.as_mut_slice(),
                grad.as_mut_slice(),
            );
            total_loss = A::plus(total_loss, loss);
            t += 1;
        }
        (total_loss, t_len)
    }

    /// Forward + backward: returns (loss_sum, token_count). The gradients of a training step are
    /// computed over whole batches, elsewhere; the model and the learning rate play no part
    /// beyond the forward pass here, and the model stays as it is.
    pub fn forward_backward(&self, tokens: &[usize], lr: A::T) -> (r: (A::T, usize))
        requires
            lawful::<A>(),
            tokens@.len() >= 2 ==> self@.accepts(tokens@),
        ensures
            tokens@.len() < 2 ==> r == (zero::<A>(), 0usize),
            tokens@.len() >= 2 ==> r.0 == self@.loss(tokens@, (tokens@.len() - 1) as nat) && r.1
                == tokens@.len() - 1,
    {
        let mut model = self.clone();
        model.forward_sequence_loss(tokens)
    }

    /// Number of parameters.
    pub fn param_count(&self) -> (n: usize)
        requires
            self@.params() <= usize::MAX,
        ensures
            n == self@.params(),
    {
        let ghost m = self@;
        proof {
            assert(0 <= m.vocab * m.d && 0 <= m.max_seq * m.d) by (nonlinear_arith);
        }
        let embed_p: usize = self.vocab_size * self.d + self.max_seq * self.d;
        let mut block_p: usize = 0;
        let n: usize = self.blocks.len();
        let mut l: usize = 0;
        while l < n
            invariant
                l <= n,
                n == self.blocks@.len(),
                m == self@,
                m.block_params(n as nat) <= usize::MAX,
                block_p == m.block_params(l as nat),
            decreases n - l,
        {
            proof {
                m.lemma_block_params((l + 1) as nat, n as nat);
                assert(m.blocks[l as int] == self.blocks@[l as int]@);
            }
            block_p = block_p + self.blocks[l].param_count();
            l += 1;
        }
        let head_p: usize = self.vocab_size * self.d;
        embed_p + block_p + head_p
    }

    pub fn reset_flop_counter(&mut self)
        ensures
            final(self)@ == old(self)@.with_no_flops(),
    {
        self.total_flops = 0;
    }
}

impl<A: Arith> ForgeModelValues<A> {
    /// The model takes a sequence: its tokens are in the vocabulary, and neither the memories
    /// nor the counters overflow.
    pub open spec fn accepts(&self, tokens: Seq<usize>) -> bool {
        &&& self.has_room(tokens.len() - 1)
        &&& self.max_seq > 0
        &&& forall|t: int| 0 <= t < tokens.len() ==> #[trigger] tokens[t] < self.vocab
        &&& 2 * self.vocab <= usize::MAX
        &&& 2 * self.vocab * self.d <= usize::MAX
        &&& 2 * self.d <= usize::MAX
        &&& self.after(tokens, (tokens.len() - 1) as nat).total_flops <= u64::MAX
    }
}

} // verus!
