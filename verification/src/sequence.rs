//! Steps of a layer over a cached sequence: the forward pass that fills the cache, and Truncated
//! BPTT over it.

use vstd::prelude::*;
use crate::activations::{mse_grad_of, mse_of, sigmoid_grad};
use crate::arith::{Arith, lawful, one, s_exceeds, s_negate, s_plus, zero};
use crate::config::AxiomConfig;
use crate::hebbian::hebbian_of;
use crate::layer::{
    AxiomLayer, ExpertActs, LayerValues, LayerGrads, LayerScratch, LayerState, LossWeights,
    SequenceCache, concat3, no_grads, sigmoid_grad_all, vec_add, zero_vec,
};
use crate::matvec::{
    matvec_transposed, matvec_transposed_of, outer_added, outer_product_accumulate, summed,
};
use crate::softmax::{cross_entropy_grad_of, cross_entropy_of};
use crate::tensor::{
    MatrixView, MatrixViewMut, add_scaled, lemma_row_bounds, lemma_with_row, part_mut, row_of,
    vec_add_scaled, vec_copy, with_row, zeros,
};

verus! {

/// Row `r` of a matrix with `cols` columns.
pub(crate) fn row_at<T>(data: &[T], cols: usize, r: usize) -> (row: &[T])
    requires
        (r + 1) * cols <= data@.len(),
    ensures
        row@ == row_of(data@, cols as nat, r as int),
        row@.len() == cols,
{
    proof {
        lemma_row_bounds((r + 1) as nat, cols as nat, r as int);
        assert(data.len() == data@.len());
    }
    let start: usize = r * cols;
    vstd::slice::slice_subrange(data, start, start + cols)
}

/// Write row `r` of a matrix with at least `rows` rows and `cols` columns.
pub(crate) fn write_row<T: Copy>(
    data: &mut [T],
    Ghost(rows): Ghost<nat>,
    cols: usize,
    r: usize,
    row: &[T],
)
    requires
        old(data)@.len() >= rows * cols,
        r < rows,
        row@.len() == cols,
    ensures
        final(data)@ == with_row(old(data)@, cols as nat, r as int, row@),
        final(data)@.len() == old(data)@.len(),
        final(data)@.skip((rows * cols) as int) == old(data)@.skip((rows * cols) as int),
        row_of(final(data)@, cols as nat, r as int) == row@,
        forall|q: int|
            0 <= q < rows && q != r ==> #[trigger] row_of(final(data)@, cols as nat, q) == row_of(
                old(data)@,
                cols as nat,
                q,
            ),
{
    proof {
        lemma_row_bounds(rows, cols as nat, r as int);
        assert(data.len() == data@.len());
        lemma_with_row(data@, rows, cols as nat, r as int, row@);
    }
    let start: usize = r * cols;
    vec_copy(part_mut(data, start, cols), row);
}

/// What the cache holds of one step of a sequence, beside the recurrent states.
pub struct CachedStep<T> {
    pub h_in: Seq<T>,
    pub m_recall: Seq<T>,
    pub h_out: Seq<T>,
    pub pred_grad: Seq<T>,
    pub recon_grad: Seq<T>,
    pub top: (usize, usize),
    pub weights: Seq<T>,
    pub acts1: ExpertActs<T>,
    pub acts2: ExpertActs<T>,
}

/// What the backward pass over one cached step computes.
pub struct CachedBackward<T> {
    pub grads: LayerValues<T>,
    /// The gradient at the input of the step, without the residual loss.
    pub delta_hin: Seq<T>,
    /// The gradient at the recurrent state before the step.
    pub temporal: Seq<T>,
}

impl<A: Arith> SequenceCache<A> {
    /// Step `t` of the cached sequence.
    pub open spec fn step_at(&self, config: AxiomConfig<A>, t: int) -> CachedStep<A::T> {
        let d = config.d_model as nat;
        let f = config.d_ffn as nat;
        CachedStep {
            h_in: row_of(self.h_in_history@, d, t),
            m_recall: row_of(self.m_recall_history@, d, t),
            h_out: row_of(self.h_out_history@, d, t),
            pred_grad: row_of(self.pred_grad_history@, config.vocab_size as nat, t),
            recon_grad: row_of(self.recon_grad_history@, d, t),
            top: self.top_indices@[t],
            weights: self.top_weights@[t]@,
            acts1: ExpertActs {
                raw: row_of(self.exp_raw1@, f, t),
                act: row_of(self.exp_act1@, f, t),
                out: row_of(self.exp_out1@, d, t),
            },
            acts2: ExpertActs {
                raw: row_of(self.exp_raw2@, f, t),
                act: row_of(self.exp_act2@, f, t),
                out: row_of(self.exp_out2@, d, t),
            },
        }
    }

    /// The recurrent state before step `t` of the cached sequence.
    pub open spec fn state_at(&self, config: AxiomConfig<A>, t: int) -> Seq<A::T> {
        row_of(self.s_history@, config.d_model as nat, t)
    }

    /// The cached steps before `n` name experts that there are.
    pub open spec fn routes_are_valid(&self, config: AxiomConfig<A>, n: int) -> bool {
        forall|t: int|
            0 <= t < n ==> (#[trigger] self.top_indices@[t]).0 < config.num_experts
                && self.top_indices@[t].1 < config.num_experts
    }
}

impl<A: Arith> AxiomLayer<A> {
    /// What the cache holds of a step with this input and target, from the memory and the
    /// recurrent state before it.
    pub open spec fn cached_step(
        &self,
        h_in: Seq<A::T>,
        target: int,
        m: Seq<A::T>,
        s: Seq<A::T>,
    ) -> CachedStep<A::T> {
        let step = self.step(h_in, m, s);
        let expert1 = self.experts@[step.top[0].1 as int];
        let expert2 = self.experts@[step.top[1].1 as int];
        CachedStep {
            h_in,
            m_recall: step.m_recall,
            h_out: step.h_out,
            pred_grad: cross_entropy_grad_of::<A>(self.logits_of(step.h_out), target),
            recon_grad: mse_grad_of::<A>(self.decoded_of(step.h_out), h_in),
            top: (step.top[0].1, step.top[1].1),
            weights: step.weights,
            acts1: ExpertActs {
                raw: expert1.raw_of(step.state),
                act: expert1.act_of(step.state),
                out: expert1.out_of(step.state),
            },
            acts2: ExpertActs {
                raw: expert2.raw_of(step.state),
                act: expert2.act_of(step.state),
                out: expert2.out_of(step.state),
            },
        }
    }

    /// One forward step of a sequence, whose activations go into the cache as step `t`.
    pub fn forward_cached_step(
        &self,
        t: usize,
        h_in: &[A::T],
        target_token: usize,
        state: &mut LayerState<A>,
        scratch: &mut LayerScratch<A>,
        cache: &mut SequenceCache<A>,
        h_out: &mut [A::T],
    ) -> (losses: (A::T, A::T))
        requires
            lawful::<A>(),
            self.wf(),
            h_in@.len() == self.config.d_model,
            old(h_out)@.len() == self.config.d_model,
            old(state).fits(self.config.d_model as nat),
            old(scratch)@.fits(self.config),
            old(cache).fits(self.config),
            t < old(cache).max_seq_len,
            target_token < self.config.vocab_size,
        ensures
            ({
                let m = old(state).memory.m@;
                let s = old(state).recurrent_state@;
                let step = self.step(h_in@, m, s);
                &&& final(h_out)@ == step.h_out
                &&& losses.0 == cross_entropy_of::<A>(
                    self.logits_of(step.h_out),
                    target_token as int,
                )
                &&& losses.1 == mse_of::<A>(self.decoded_of(step.h_out), h_in@)
                &&& final(state).recurrent_state@ == step.state
                &&& final(state).memory.m@ == hebbian_of::<A>(
                    m,
                    step.h_out,
                    old(state).memory.decay,
                    old(state).memory.lr,
                )
                &&& final(cache).step_at(self.config, t as int) == self.cached_step(
                    h_in@,
                    target_token as int,
                    m,
                    s,
                )
                &&& final(cache).state_at(self.config, t + 1) == step.state
            }),
            forall|q: int|
                0 <= q < old(cache).max_seq_len && q != t ==> #[trigger] final(cache).step_at(
                    self.config,
                    q,
                ) == old(cache).step_at(self.config, q),
            forall|q: int|
                0 <= q <= old(cache).max_seq_len && q != t + 1 ==> #[trigger] final(cache).state_at(
                    self.config,
                    q,
                ) == old(cache).state_at(self.config, q),
            final(cache).top_indices@[t as int].0 < self.config.num_experts,
            final(cache).top_indices@[t as int].1 < self.config.num_experts,
            final(cache).fits(self.config),
            final(cache).max_seq_len == old(cache).max_seq_len,
            final(state).memory.decay == old(state).memory.decay,
            final(state).memory.lr == old(state).memory.lr,
            final(state).buffer == old(state).buffer,
            final(state).fits(self.config.d_model as nat),
            final(scratch)@.fits(self.config),
    {
        let d: usize = self.config.d_model;
        let v: usize = self.config.vocab_size;
        let ffn: usize = self.config.d_ffn;
        let ghost n = cache.max_seq_len as nat;
        let (losses, routed) = self.train_step(h_in, target_token, state, scratch, h_out);
        write_row(cache.h_in_history.as_mut_slice(), Ghost(n), d, t, h_in);
        write_row(
            cache.m_recall_history.as_mut_slice(),
            Ghost(n),
            d,
            t,
            scratch.m_recall.as_slice(),
        );
        write_row(
            cache.s_history.as_mut_slice(),
            Ghost((n + 1) as nat),
            d,
            t + 1,
            state.recurrent_state.as_slice(),
        );
        cache.top_indices.set(t, (routed.0, routed.1));
        cache.top_weights.set(t, routed.2);
        write_row(
            cache.exp_raw1.as_mut_slice(),
            Ghost(n),
            ffn,
            t,
            scratch.expert_raw_ffn1.as_slice(),
        );
        write_row(
            cache.exp_act1.as_mut_slice(),
            Ghost(n),
            ffn,
            t,
            scratch.expert_act_ffn1.as_slice(),
        );
        write_row(
            cache.exp_out1.as_mut_slice(),
            Ghost(n),
            d,
            t,
            scratch.expert_out1.as_slice(),
        );
        write_row(
            cache.exp_raw2.as_mut_slice(),
            Ghost(n),
            ffn,
            t,
            scratch.expert_raw_ffn2.as_slice(),
        );
        write_row(
            cache.exp_act2.as_mut_slice(),
            Ghost(n),
            ffn,
            t,
            scratch.expert_act_ffn2.as_slice(),
        );
        write_row(
            cache.exp_out2.as_mut_slice(),
            Ghost(n),
            d,
            t,
            scratch.expert_out2.as_slice(),
        );
        write_row(cache.h_out_history.as_mut_slice(), Ghost(n), d, t, h_out);
        write_row(
            cache.pred_grad_history.as_mut_slice(),
            Ghost(n),
            v,
            t,
            scratch.pred_grad.as_slice(),
        );
        write_row(
            cache.recon_grad_history.as_mut_slice(),
            Ghost(n),
            d,
            t,
            scratch.recon_grad.as_slice(),
        );
        losses
    }

    /// The gradients of a cached step, with the gradient `temporal` that the later steps leave at
    /// the recurrent state behind it.
    pub open spec fn backward_cached(
        &self,
        c: CachedStep<A::T>,
        s_prev: Seq<A::T>,
        s_curr: Seq<A::T>,
        lambda: LossWeights<A::T>,
        temporal: Seq<A::T>,
        grads: LayerValues<A::T>,
    ) -> CachedBackward<A::T> {
        let d = self.config.d_model as nat;
        let delta_h1 = self.delta_h1_of(
            c.h_in,
            c.h_out,
            c.pred_grad,
            c.recon_grad,
            lambda,
            false,
        );
        let routed = self.routed_backward(
            c.top.0 as int,
            c.top.1 as int,
            c.weights[0],
            c.weights[1],
            s_curr,
            c.acts1,
            c.acts2,
            delta_h1,
            grads.experts,
            grads.w_gate,
        );
        let delta_us = sigmoid_grad_all::<A>(s_curr, summed::<A>(routed.delta_s, temporal));
        let transposed = matvec_transposed_of::<A>(self.w_s@, 3 * d, delta_us);
        let direct = add_scaled::<A>(delta_h1, transposed.take(d as int), one::<A>());
        CachedBackward {
            grads: LayerValues {
                w_s: outer_added::<A>(
                    grads.w_s,
                    delta_us,
                    c.h_in + c.m_recall + s_prev,
                    one::<A>(),
                ),
                w_gate: routed.w_gate,
                experts: routed.experts,
                w_pred: if s_exceeds::<A>(lambda.pred, zero::<A>()) {
                    outer_added::<A>(grads.w_pred, c.pred_grad, c.h_out, lambda.pred)
                } else {
                    grads.w_pred
                },
                w_decode: if s_exceeds::<A>(lambda.recon, zero::<A>()) {
                    outer_added::<A>(grads.w_decode, c.recon_grad, c.h_out, lambda.recon)
                } else {
                    grads.w_decode
                },
            },
            delta_hin: if s_exceeds::<A>(lambda.recon, zero::<A>()) {
                add_scaled::<A>(direct, c.recon_grad, s_negate::<A>(lambda.recon))
            } else {
                direct
            },
            temporal: transposed.subrange(2 * d as int, 3 * d as int),
        }
    }

    /// One backward step over a cached sequence. `delta_s_temporal` carries the gradient at the
    /// recurrent state from step to step, and `delta_hin` receives the gradient at the input of
    /// the step, without the residual loss.
    pub fn backward_cached_step(
        &self,
        t: usize,
        cache: &SequenceCache<A>,
        lambda_pred: A::T,
        lambda_recon: A::T,
        lambda_residual: A::T,
        scratch: &mut LayerScratch<A>,
        grads: &mut LayerGrads<A>,
        delta_s_temporal: &mut [A::T],
        delta_hin: &mut [A::T],
    )
        requires
            lawful::<A>(),
            self.wf(),
            cache.fits(self.config),
            t < cache.max_seq_len,
            cache.top_indices@[t as int].0 < self.config.num_experts,
            cache.top_indices@[t as int].1 < self.config.num_experts,
            old(scratch)@.fits(self.config),
            old(grads)@.fits(self.config),
            old(delta_s_temporal)@.len() == self.config.d_model,
            old(delta_hin)@.len() == self.config.d_model,
        ensures
            ({
                let b = self.backward_cached(
                    cache.step_at(self.config, t as int),
                    cache.state_at(self.config, t as int),
                    cache.state_at(self.config, t + 1),
                    LossWeights {
                        pred: lambda_pred,
                        recon: lambda_recon,
                        residual: lambda_residual,
                    },
                    old(delta_s_temporal)@,
                    old(grads)@,
                );
                &&& final(grads)@ == b.grads
                &&& final(delta_hin)@ == b.delta_hin
                &&& final(delta_s_temporal)@ == b.temporal
            }),
            final(delta_s_temporal)@.len() == self.config.d_model,
            final(delta_hin)@.len() == self.config.d_model,
            final(scratch)@.fits(self.config),
            final(grads)@.fits(self.config),
    {
        let d: usize = self.config.d_model;
        let v: usize = self.config.vocab_size;
        let ffn: usize = self.config.d_ffn;
        let ghost config = self.config;
        let ghost n = cache.max_seq_len as nat;
        proof {
            lemma_row_bounds(n, d as nat, t as int);
            lemma_row_bounds(n, v as nat, t as int);
            lemma_row_bounds(n, ffn as nat, t as int);
            lemma_row_bounds((n + 1) as nat, d as nat, t as int);
            lemma_row_bounds((n + 1) as nat, d as nat, t + 1);
            assert(scratch.s_concat.len() == scratch@.s_concat.len());
        }
        let h_in_t = row_at(cache.h_in_history.as_slice(), d, t);
        let h_out_t = row_at(cache.h_out_history.as_slice(), d, t);
        let s_prev = row_at(cache.s_history.as_slice(), d, t);
        let s_curr = row_at(cache.s_history.as_slice(), d, t + 1);
        let m_t = row_at(cache.m_recall_history.as_slice(), d, t);
        let pred_grad_t = row_at(cache.pred_grad_history.as_slice(), v, t);
        let recon_grad_t = row_at(cache.recon_grad_history.as_slice(), d, t);
        let (idx1, idx2) = cache.top_indices[t];
        let weights = cache.top_weights[t];
        let ws_view = MatrixView::new(self.w_s.as_slice(), d, 3 * d);
        let z = A::lit(0, 0);
        // 1. Accumulate prediction & decode parameter gradients
        if A::exceeds(lambda_pred, z) {
            let mut grad_pred_view = MatrixViewMut::new(grads.grad_w_pred.as_mut_slice(), v, d);
            outer_product_accumulate::<A>(pred_grad_t, h_out_t, lambda_pred, &mut grad_pred_view);
        }
        if A::exceeds(lambda_recon, z) {
            let mut grad_decode_view = MatrixViewMut::new(
                grads.grad_w_decode.as_mut_slice(),
                d,
                d,
            );
            outer_product_accumulate::<A>(
                recon_grad_t,
                h_out_t,
                lambda_recon,
                &mut grad_decode_view,
            );
        }
        // 2. Compute delta_h_out
        self.output_gradient(
            h_in_t,
            h_out_t,
            pred_grad_t,
            recon_grad_t,
            lambda_pred,
            lambda_recon,
            lambda_residual,
            false,
            scratch.delta_h1.as_mut_slice(),
        );
        // 3. Backprop through active experts to get delta_s_local
        assert forall|i: int| 0 <= i < grads.expert_grads@.len() implies (
        #[trigger] grads.expert_grads@[i]).fits(d as nat, self.config.d_ffn as nat) by {
            assert(grads@.experts[i] == grads.expert_grads@[i]@);
        }
        self.through_experts(
            idx1,
            idx2,
            weights[0],
            weights[1],
            s_curr,
            row_at(cache.exp_raw1.as_slice(), ffn, t),
            row_at(cache.exp_act1.as_slice(), ffn, t),
            row_at(cache.exp_out1.as_slice(), d, t),
            row_at(cache.exp_raw2.as_slice(), ffn, t),
            row_at(cache.exp_act2.as_slice(), ffn, t),
            row_at(cache.exp_out2.as_slice(), d, t),
            scratch.delta_h1.as_slice(),
            scratch.delta_s.as_mut_slice(),
            scratch.scratch_exp_grad.as_mut_slice(),
            scratch.scratch_delta_a.as_mut_slice(),
            scratch.scratch_delta_z.as_mut_slice(),
            &mut grads.expert_grads,
            grads.grad_w_gate.as_mut_slice(),
        );
        // 4. Incorporate Temporal Gradient from future steps (BPTT recurrence):
        vec_add::<A>(scratch.delta_s.as_mut_slice(), delta_s_temporal);
        // 5. Backprop through sigmoid: delta_us = delta_s ⊙ s_curr ⊙ (1 - s_curr)
        sigmoid_grad::<A>(s_curr, scratch.delta_s.as_slice(), scratch.delta_us.as_mut_slice());
        // 6. Accumulate W_s parameter gradient: delta_us ⊗ [h_in; m_t; s_{t-1}]
        concat3(scratch.s_concat.as_mut_slice(), h_in_t, m_t, s_prev);
        let mut grad_ws_view = MatrixViewMut::new(grads.grad_w_s.as_mut_slice(), d, 3 * d);
        outer_product_accumulate::<A>(
            scratch.delta_us.as_slice(),
            scratch.s_concat.as_slice(),
            A::lit(1, 0),
            &mut grad_ws_view,
        );
        // 7. Gradient at the input:
        // delta_hin = delta_h_out + W_s[:, 0..d]^T * delta_us - lambda_recon*recon_grad
        vec_copy(delta_hin, scratch.delta_h1.as_slice());
        matvec_transposed::<A>(
            &ws_view,
            scratch.delta_us.as_slice(),
            scratch.scratch_transposed.as_mut_slice(),
        );
        let transposed = scratch.scratch_transposed.as_slice();
        let direct = vstd::slice::slice_subrange(transposed, 0, d);
        assert(direct@ =~= transposed@.take(d as int));
        vec_add_scaled::<A>(delta_hin, direct, A::lit(1, 0));
        if A::exceeds(lambda_recon, z) {
            vec_add_scaled::<A>(delta_hin, recon_grad_t, A::negate(lambda_recon));
        }
        // 8. Compute temporal gradient for previous step s_{t-1}:
        // delta_s_{t-1}^temporal = W_s[:, 2d..3d]^T * delta_us
        vec_copy(delta_s_temporal, vstd::slice::slice_subrange(transposed, 2 * d, 3 * d));
    }
}

/// The memory and the recurrent state of a layer.
pub struct Carried<T> {
    pub m: Seq<T>,
    pub s: Seq<T>,
}

/// The gradients of a layer and the gradient at its recurrent state after some steps of BPTT.
pub struct LayerBptt<T> {
    pub grads: LayerValues<T>,
    pub temporal: Seq<T>,
}

impl<A: Arith> AxiomLayer<A> {
    /// What the layer carries after the first `t` inputs of a sequence.
    pub open spec fn carried(
        &self,
        inputs: Seq<Seq<A::T>>,
        start: Carried<A::T>,
        decay: A::T,
        lr: A::T,
        t: nat,
    ) -> Carried<A::T>
        decreases t,
    {
        if t == 0 {
            start
        } else {
            let before = self.carried(inputs, start, decay, lr, (t - 1) as nat);
            let step = self.step(inputs[t - 1], before.m, before.s);
            Carried { m: hebbian_of::<A>(before.m, step.h_out, decay, lr), s: step.state }
        }
    }

    /// The output of the layer for input `t` of a sequence.
    pub open spec fn output_at(
        &self,
        inputs: Seq<Seq<A::T>>,
        start: Carried<A::T>,
        decay: A::T,
        lr: A::T,
        t: int,
    ) -> Seq<A::T> {
        let before = self.carried(inputs, start, decay, lr, t as nat);
        self.step(inputs[t], before.m, before.s).h_out
    }

    /// The prediction losses of the first `n` inputs of a sequence, summed up from zero.
    pub open spec fn pred_loss(
        &self,
        inputs: Seq<Seq<A::T>>,
        y: Seq<usize>,
        start: Carried<A::T>,
        decay: A::T,
        lr: A::T,
        n: nat,
    ) -> A::T
        decreases n,
    {
        if n == 0 {
            zero::<A>()
        } else {
            s_plus::<A>(
                self.pred_loss(inputs, y, start, decay, lr, (n - 1) as nat),
                cross_entropy_of::<A>(
                    self.logits_of(self.output_at(inputs, start, decay, lr, n - 1)),
                    y[n - 1] as int,
                ),
            )
        }
    }

    /// The reconstruction losses of the first `n` inputs of a sequence, summed up from zero.
    pub open spec fn recon_loss(
        &self,
        inputs: Seq<Seq<A::T>>,
        start: Carried<A::T>,
        decay: A::T,
        lr: A::T,
        n: nat,
    ) -> A::T
        decreases n,
    {
        if n == 0 {
            zero::<A>()
        } else {
            s_plus::<A>(
                self.recon_loss(inputs, start, decay, lr, (n - 1) as nat),
                mse_of::<A>(
                    self.decoded_of(self.output_at(inputs, start, decay, lr, n - 1)),
                    inputs[n - 1],
                ),
            )
        }
    }

    /// The cache holds the steps of a sequence with these inputs and targets, and the recurrent
    /// states between them.
    pub open spec fn is_cached(
        &self,
        cache: SequenceCache<A>,
        inputs: Seq<Seq<A::T>>,
        y: Seq<usize>,
        start: Carried<A::T>,
        decay: A::T,
        lr: A::T,
        n: int,
    ) -> bool {
        &&& forall|t: int|
            0 <= t < n ==> #[trigger] cache.step_at(self.config, t) == self.cached_step(
                inputs[t],
                y[t] as int,
                self.carried(inputs, start, decay, lr, t as nat).m,
                self.carried(inputs, start, decay, lr, t as nat).s,
            )
        &&& forall|t: int|
            0 <= t <= n ==> #[trigger] cache.state_at(self.config, t) == self.carried(
                inputs,
                start,
                decay,
                lr,
                t as nat,
            ).s
    }

    /// The forward pass of a layer over the first `n` rows of `h_in_seq`. It fills the cache, and
    /// writes its outputs into the first `n` rows of `h_out_seq`.
    pub fn forward_cached_sequence(
        &self,
        n: usize,
        h_in_seq: &[A::T],
        y_seq: &[usize],
        state: &mut LayerState<A>,
        scratch: &mut LayerScratch<A>,
        cache: &mut SequenceCache<A>,
        h_out_seq: &mut [A::T],
    ) -> (losses: (A::T, A::T))
        requires
            lawful::<A>(),
            self.wf(),
            h_in_seq@.len() >= n * self.config.d_model,
            old(h_out_seq)@.len() >= n * self.config.d_model,
            n <= old(cache).max_seq_len,
            n <= y_seq@.len(),
            forall|t: int| 0 <= t < n ==> #[trigger] y_seq@[t] < self.config.vocab_size,
            old(state).fits(self.config.d_model as nat),
            old(scratch)@.fits(self.config),
            old(cache).fits(self.config),
        ensures
            ({
                let inputs = Seq::new(
                    n as nat,
                    |t: int| row_of(h_in_seq@, self.config.d_model as nat, t),
                );
                let start = Carried {
                    m: old(state).memory.m@,
                    s: old(state).recurrent_state@,
                };
                let decay = old(state).memory.decay;
                let lr = old(state).memory.lr;
                let end = self.carried(inputs, start, decay, lr, n as nat);
                &&& losses.0 == self.pred_loss(inputs, y_seq@, start, decay, lr, n as nat)
                &&& losses.1 == self.recon_loss(inputs, start, decay, lr, n as nat)
                &&& final(state).memory.m@ == end.m
                &&& final(state).recurrent_state@ == end.s
                &&& self.is_cached(*final(cache), inputs, y_seq@, start, decay, lr, n as int)
                &&& forall|t: int|
                    0 <= t < n ==> #[trigger] row_of(
                        final(h_out_seq)@,
                        self.config.d_model as nat,
                        t,
                    ) == self.output_at(inputs, start, decay, lr, t)
            }),
            final(h_out_seq)@.skip(n * self.config.d_model) == old(h_out_seq)@.skip(
                n * self.config.d_model,
            ),
            forall|t: int|
                n <= t < old(cache).max_seq_len ==> #[trigger] final(cache).step_at(
                    self.config,
                    t,
                ) == old(cache).step_at(self.config, t),
            final(h_out_seq)@.len() == old(h_out_seq)@.len(),
            final(cache).routes_are_valid(self.config, n as int),
            final(cache).fits(self.config),
            final(cache).max_seq_len == old(cache).max_seq_len,
            final(state).memory.decay == old(state).memory.decay,
            final(state).memory.lr == old(state).memory.lr,
            final(state).buffer == old(state).buffer,
            final(state).fits(self.config.d_model as nat),
            final(scratch)@.fits(self.config),
    {
        let d: usize = self.config.d_model;
        let ghost c = self.config;
        let ghost rows = cache.max_seq_len as nat;
        let ghost inputs = Seq::new(n as nat, |t: int| row_of(h_in_seq@, d as nat, t));
        let ghost start = Carried { m: state.memory.m@, s: state.recurrent_state@ };
        let ghost decay = state.memory.decay;
        let ghost lr = state.memory.lr;
        // Save initial state s_0
        write_row(
            cache.s_history.as_mut_slice(),
            Ghost(rows + 1),
            d,
            0,
            state.recurrent_state.as_slice(),
        );
        let ghost fresh = *cache;
        let mut pred_loss = A::lit(0, 0);
        let mut recon_loss = A::lit(0, 0);
        let mut h_out = zero_vec::<A>(d);
        let mut t: usize = 0;
        while t < n
            invariant
                lawful::<A>(),
                self.wf(),
                t <= n,
                n <= y_seq@.len(),
                n <= rows,
                rows == cache.max_seq_len,
                rows == fresh.max_seq_len,
                d == self.config.d_model,
                c == self.config,
                h_in_seq@.len() >= n * d,
                h_out_seq@.len() >= n * d,
                h_out_seq@.len() == old(h_out_seq)@.len(),
                h_out_seq@.skip(n * d) == old(h_out_seq)@.skip(n * d),
                forall|q: int| 0 <= q < n ==> #[trigger] y_seq@[q] < self.config.vocab_size,
                inputs == Seq::new(n as nat, |t: int| row_of(h_in_seq@, d as nat, t)),
                h_out@.len() == d,
                state.fits(d as nat),
                state.memory.decay == decay,
                state.memory.lr == lr,
                state.buffer == old(state).buffer,
                state.memory.m@ == self.carried(inputs, start, decay, lr, t as nat).m,
                state.recurrent_state@ == self.carried(inputs, start, decay, lr, t as nat).s,
                scratch@.fits(c),
                cache.fits(c),
                pred_loss == self.pred_loss(inputs, y_seq@, start, decay, lr, t as nat),
                recon_loss == self.recon_loss(inputs, start, decay, lr, t as nat),
                cache.routes_are_valid(c, t as int),
                self.is_cached(*cache, inputs, y_seq@, start, decay, lr, t as int),
                forall|q: int|
                    0 <= q < t ==> #[trigger] row_of(h_out_seq@, d as nat, q) == self.output_at(
                        inputs,
                        start,
                        decay,
                        lr,
                        q,
                    ),
                forall|q: int|
                    t <= q < rows ==> #[trigger] cache.step_at(c, q) == fresh.step_at(c, q),
            decreases n - t,
        {
            let ghost before = *cache;
            proof {
                lemma_row_bounds(n as nat, d as nat, t as int);
            }
            let h_in = row_at(h_in_seq, d, t);
            let (loss_pred, loss_recon) = self.forward_cached_step(
                t,
                h_in,
                y_seq[t],
                state,
                scratch,
                cache,
                h_out.as_mut_slice(),
            );
            write_row(h_out_seq, Ghost(n as nat), d, t, h_out.as_slice());
            proof {
                assert(inputs[t as int] == h_in@);
                assert forall|q: int| 0 <= q < t + 1 implies (#[trigger] cache.top_indices@[q]).0
                    < c.num_experts && cache.top_indices@[q].1 < c.num_experts by {
                    if q < t {
                        assert(cache.step_at(c, q).top == before.step_at(c, q).top);
                        assert(before.top_indices@[q].0 < c.num_experts);
                    }
                }
            }
            pred_loss = A::plus(pred_loss, loss_pred);
            recon_loss = A::plus(recon_loss, loss_recon);
            t += 1;
        }
        (pred_loss, recon_loss)
    }

    /// BPTT over the first `n` steps of a cached sequence, from the last one down to `t`.
    pub open spec fn layer_bptt(
        &self,
        cache: SequenceCache<A>,
        lambda: LossWeights<A::T>,
        grads: LayerValues<A::T>,
        n: int,
        t: int,
    ) -> LayerBptt<A::T>
        decreases n - t, 1int,
    {
        if t < 0 || t >= n {
            LayerBptt { grads, temporal: zeros::<A>(self.config.d_model as nat) }
        } else {
            let b = self.bptt_step(cache, lambda, grads, n, t);
            LayerBptt { grads: b.grads, temporal: b.temporal }
        }
    }

    /// Step `t` of BPTT over the first `n` steps of a cached sequence.
    pub open spec fn bptt_step(
        &self,
        cache: SequenceCache<A>,
        lambda: LossWeights<A::T>,
        grads: LayerValues<A::T>,
        n: int,
        t: int,
    ) -> CachedBackward<A::T>
        decreases n - t, 0int,
        when t < n
    {
        let later = self.layer_bptt(cache, lambda, grads, n, t + 1);
        self.backward_cached(
            cache.step_at(self.config, t),
            cache.state_at(self.config, t),
            cache.state_at(self.config, t + 1),
            lambda,
            later.temporal,
            later.grads,
        )
    }

    /// The gradients of a layer over the first `n` steps of its cached sequence, and the
    /// gradients at its inputs, row by row. No other layer takes part.
    pub fn backward_cached_sequence(
        &self,
        n: usize,
        cache: &SequenceCache<A>,
        lambda_pred: A::T,
        lambda_recon: A::T,
        lambda_residual: A::T,
    ) -> (out: (LayerGrads<A>, Vec<A::T>))
        requires
            lawful::<A>(),
            self.wf(),
            self.config.d_ffn * self.config.d_model <= usize::MAX,
            cache.fits(self.config),
            n <= cache.max_seq_len,
            cache.routes_are_valid(self.config, n as int),
        ensures
            ({
                let lambda = LossWeights {
                    pred: lambda_pred,
                    recon: lambda_recon,
                    residual: lambda_residual,
                };
                let g0 = no_grads::<A>(self.config);
                &&& out.0@ == self.layer_bptt(*cache, lambda, g0, n as int, 0).grads
                &&& out.1@.len() == n * self.config.d_model
                &&& forall|t: int|
                    0 <= t < n ==> #[trigger] row_of(out.1@, self.config.d_model as nat, t)
                        == self.bptt_step(*cache, lambda, g0, n as int, t).delta_hin
            }),
            out.0@.fits(self.config),
    {
        let d: usize = self.config.d_model;
        let ghost lambda = LossWeights {
            pred: lambda_pred,
            recon: lambda_recon,
            residual: lambda_residual,
        };
        let ghost g0 = no_grads::<A>(self.config);
        proof {
            assert(n * d <= cache.max_seq_len * d) by (nonlinear_arith)
                requires
                    n <= cache.max_seq_len,
                    d >= 0,
            ;
            assert(cache.h_in_history.len() == cache.h_in_history@.len());
            assert(self.w_s.len() == self.w_s@.len());
            assert(self.w_gate.len() == self.w_gate@.len());
            assert(self.w_pred.len() == self.w_pred@.len());
            assert(3 * d <= d * (3 * d) || d == 0) by (nonlinear_arith)
                requires
                    d >= 0,
            ;
        }
        let mut scratch = LayerScratch::new(&self.config);
        let mut grads = LayerGrads::new(&self.config);
        let mut input_grads = zero_vec::<A>(n * d);
        let mut delta_s_temporal = zero_vec::<A>(d);
        let mut delta_hin = zero_vec::<A>(d);
        let mut t: usize = n;
        while t > 0
            invariant
                lawful::<A>(),
                self.wf(),
                t <= n,
                n <= cache.max_seq_len,
                d == self.config.d_model,
                cache.fits(self.config),
                cache.routes_are_valid(self.config, n as int),
                lambda == (LossWeights {
                    pred: lambda_pred,
                    recon: lambda_recon,
                    residual: lambda_residual,
                }),
                g0 == no_grads::<A>(self.config),
                delta_s_temporal@.len() == d,
                delta_hin@.len() == d,
                input_grads@.len() == n * d,
                scratch@.fits(self.config),
                grads@.fits(self.config),
                grads@ == self.layer_bptt(*cache, lambda, g0, n as int, t as int).grads,
                delta_s_temporal@ == self.layer_bptt(
                    *cache,
                    lambda,
                    g0,
                    n as int,
                    t as int,
                ).temporal,
                forall|q: int|
                    t <= q < n ==> #[trigger] row_of(input_grads@, d as nat, q) == self.bptt_step(
                        *cache,
                        lambda,
                        g0,
                        n as int,
                        q,
                    ).delta_hin,
            decreases t,
        {
            t -= 1;
            assert(cache.top_indices@[t as int].0 < self.config.num_experts);
            self.backward_cached_step(
                t,
                cache,
                lambda_pred,
                lambda_recon,
                lambda_residual,
                &mut scratch,
                &mut grads,
                delta_s_temporal.as_mut_slice(),
                delta_hin.as_mut_slice(),
            );
            write_row(input_grads.as_mut_slice(), Ghost(n as nat), d, t, delta_hin.as_slice());
        }
        (grads, input_grads)
    }
}

} // verus!
