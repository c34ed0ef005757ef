//! Feed-Forward Expert MLP for sparse MoE computation with analytical gradients.

use vstd::prelude::*;
use crate::activations::{gelu, gelu_grad, gelu_grad_of, gelu_in_place, gelu_of};
use crate::arith::{Arith, lawful, one};
use crate::matvec::{
    matvec, matvec_of, matvec_transposed, matvec_transposed_accumulate, matvec_transposed_of,
    outer_added, outer_product_accumulate, rows_added,
};
use crate::rng::{WeightDraw, WeightSource, drawn_from_seed, scale_for, weight_scale};
use crate::tensor::{MatrixView, MatrixViewMut, copied, filled, part_mut, vec_zero, zeros};

verus! {

/// A single FFN expert: Up-projection (d -> d_ffn) + GELU + Down-projection (d_ffn -> d).
#[derive(Debug)]
pub struct ExpertMLP<A: Arith> {
    pub d_model: usize,
    pub d_ffn: usize,
    /// (d_ffn x d_model)
    pub w_up: Vec<A::T>,
    /// (d_model x d_ffn)
    pub w_down: Vec<A::T>,
}

impl<A: Arith> Clone for ExpertMLP<A> {
    fn clone(&self) -> (expert: Self)
        ensures
            expert.same_weights(*self),
    {
        ExpertMLP {
            d_model: self.d_model,
            d_ffn: self.d_ffn,
            w_up: copied(self.w_up.as_slice()),
            w_down: copied(self.w_down.as_slice()),
        }
    }
}

/// Gradients for a single ExpertMLP.
#[derive(Debug, Clone)]
pub struct ExpertGrads<A: Arith> {
    pub grad_w_up: Vec<A::T>,
    pub grad_w_down: Vec<A::T>,
}

/// GELU of each value.
pub open spec fn gelu_all<A: Arith>(z: Seq<A::T>) -> Seq<A::T> {
    Seq::new(z.len(), |i: int| gelu_of::<A>(z[i]))
}

/// The gradients through GELU at each value.
pub open spec fn gelu_grad_all<A: Arith>(z: Seq<A::T>, delta: Seq<A::T>) -> Seq<A::T> {
    Seq::new(z.len(), |i: int| gelu_grad_of::<A>(z[i], delta[i]))
}

/// `old` with its front replaced by `new`.
pub open spec fn in_front<T>(new: Seq<T>, old: Seq<T>) -> Seq<T> {
    new + old.skip(new.len() as int)
}

impl<A: Arith> ExpertGrads<A> {
    /// The gradients fit an expert of these dimensions.
    pub open spec fn fits(&self, d_model: nat, d_ffn: nat) -> bool {
        &&& self.grad_w_up@.len() == d_ffn * d_model
        &&& self.grad_w_down@.len() == d_model * d_ffn
    }

    pub fn new(d_model: usize, d_ffn: usize) -> (grads: Self)
        requires
            lawful::<A>(),
            d_ffn * d_model <= usize::MAX,
        ensures
            grads.fits(d_model as nat, d_ffn as nat),
            grads.grad_w_up@ == zeros::<A>((d_ffn * d_model) as nat),
            grads.grad_w_down@ == zeros::<A>((d_model * d_ffn) as nat),
    {
        assert(d_ffn * d_model == d_model * d_ffn) by (nonlinear_arith);
        let grad_w_up = filled(A::lit(0, 0), d_ffn * d_model);
        let grad_w_down = filled(A::lit(0, 0), d_model * d_ffn);
        assert(grad_w_up@ =~= zeros::<A>((d_ffn * d_model) as nat));
        assert(grad_w_down@ =~= zeros::<A>((d_model * d_ffn) as nat));
        Self { grad_w_up, grad_w_down }
    }

    pub fn zero(&mut self)
        requires
            lawful::<A>(),
        ensures
            final(self).grad_w_up@ == zeros::<A>(old(self).grad_w_up@.len()),
            final(self).grad_w_down@ == zeros::<A>(old(self).grad_w_down@.len()),
    {
        vec_zero::<A>(self.grad_w_up.as_mut_slice());
        vec_zero::<A>(self.grad_w_down.as_mut_slice());
    }
}

impl<A: Arith> ExpertMLP<A> {
    /// The weights are as large as the dimensions say.
    pub open spec fn wf(&self) -> bool {
        &&& self.w_up@.len() == self.d_ffn * self.d_model
        &&& self.w_down@.len() == self.d_model * self.d_ffn
    }

    /// The pre-activation z = W_up * x
    pub open spec fn raw_of(&self, x: Seq<A::T>) -> Seq<A::T> {
        matvec_of::<A>(self.w_up@, self.d_ffn as nat, x)
    }

    /// The activation a = GELU(z)
    pub open spec fn act_of(&self, x: Seq<A::T>) -> Seq<A::T> {
        gelu_all::<A>(self.raw_of(x))
    }

    /// The expert is another with the same weights.
    pub open spec fn same_weights(&self, other: ExpertMLP<A>) -> bool {
        &&& self.d_model == other.d_model
        &&& self.d_ffn == other.d_ffn
        &&& self.w_up@ == other.w_up@
        &&& self.w_down@ == other.w_down@
    }

    /// The output W_down * a
    pub open spec fn out_of(&self, x: Seq<A::T>) -> Seq<A::T> {
        matvec_of::<A>(self.w_down@, self.d_model as nat, self.act_of(x))
    }

    /// delta_a = W_down^T * grad_out
    pub open spec fn delta_a_of(&self, grad_out: Seq<A::T>) -> Seq<A::T> {
        matvec_transposed_of::<A>(self.w_down@, self.d_ffn as nat, grad_out)
    }

    /// delta_z = delta_a * GELU'(z)
    pub open spec fn delta_z_of(&self, raw: Seq<A::T>, grad_out: Seq<A::T>) -> Seq<A::T> {
        gelu_grad_all::<A>(raw, self.delta_a_of(grad_out))
    }

    /// The weights are those that the generator of the seed draws, one matrix after another, each
    /// on the scale of what it is applied to.
    pub open spec fn is_drawn(&self, seed: u64) -> bool {
        drawn_from_seed::<A>(
            seed,
            seq![
                WeightDraw { weights: self.w_up@, scale: weight_scale::<A>(2, self.d_model) },
                WeightDraw { weights: self.w_down@, scale: weight_scale::<A>(2, self.d_ffn) },
            ],
        )
    }

    /// An expert with weights drawn from the generator of a seed.
    pub fn new(d_model: usize, d_ffn: usize, seed: u64) -> (expert: Self)
        requires
            lawful::<A>(),
            d_ffn * d_model <= usize::MAX,
        ensures
            expert.wf(),
            expert.d_model == d_model,
            expert.d_ffn == d_ffn,
            expert.is_drawn(seed),
    {
        assert(d_ffn * d_model == d_model * d_ffn) by (nonlinear_arith);
        let mut source = WeightSource::<A>::new(seed);
        let scale_up = scale_for::<A>(2, d_model);
        let scale_down = scale_for::<A>(2, d_ffn);
        let w_up = source.draw(scale_up, d_ffn * d_model);
        let w_down = source.draw(scale_down, d_model * d_ffn);
        proof {
            source.lemma_drawn(seed);
            assert(source.parts() =~= seq![
                WeightDraw { weights: w_up@, scale: scale_up },
                WeightDraw { weights: w_down@, scale: scale_down },
            ]);
        }
        Self { d_model, d_ffn, w_up, w_down }
    }

    /// Forward pass storing intermediate activations for backward pass.
    /// `raw_ffn` (pre-activation z) and `act_ffn` (post-activation a) must have len >= d_ffn.
    pub fn forward_with_cache(
        &self,
        x: &[A::T],
        raw_ffn: &mut [A::T],
        act_ffn: &mut [A::T],
        out: &mut [A::T],
    )
        requires
            lawful::<A>(),
            self.wf(),
            x@.len() == self.d_model,
            old(out)@.len() == self.d_model,
            old(raw_ffn)@.len() >= self.d_ffn,
            old(act_ffn)@.len() >= self.d_ffn,
        ensures
            final(raw_ffn)@ == in_front(self.raw_of(x@), old(raw_ffn)@),
            final(act_ffn)@ == in_front(self.act_of(x@), old(act_ffn)@),
            final(out)@ == self.out_of(x@),
    {
        let up_view = MatrixView::new(self.w_up.as_slice(), self.d_ffn, self.d_model);
        let down_view = MatrixView::new(self.w_down.as_slice(), self.d_model, self.d_ffn);
        let raw = part_mut(raw_ffn, 0, self.d_ffn);
        let act = part_mut(act_ffn, 0, self.d_ffn);
        // 1. z = W_up * x
        matvec::<A>(&up_view, x, raw);
        // 2. a = GELU(z)
        gelu::<A>(raw, act);
        // 3. out = W_down * a
        matvec::<A>(&down_view, act, out);
        assert(raw_ffn@ =~= in_front(self.raw_of(x@), old(raw_ffn)@));
        assert(act_ffn@ =~= in_front(self.act_of(x@), old(act_ffn)@));
    }

    /// Fast forward pass (inference only).
    pub fn forward(&self, x: &[A::T], scratch_ffn: &mut [A::T], out: &mut [A::T])
        requires
            lawful::<A>(),
            self.wf(),
            x@.len() == self.d_model,
            old(out)@.len() == self.d_model,
            old(scratch_ffn)@.len() >= self.d_ffn,
        ensures
            final(scratch_ffn)@ == in_front(self.act_of(x@), old(scratch_ffn)@),
            final(out)@ == self.out_of(x@),
    {
        let up_view = MatrixView::new(self.w_up.as_slice(), self.d_ffn, self.d_model);
        let down_view = MatrixView::new(self.w_down.as_slice(), self.d_model, self.d_ffn);
        let hidden = part_mut(scratch_ffn, 0, self.d_ffn);
        matvec::<A>(&up_view, x, hidden);
        gelu_in_place::<A>(hidden);
        assert(hidden@ =~= self.act_of(x@));
        matvec::<A>(&down_view, hidden, out);
        assert(scratch_ffn@ =~= in_front(self.act_of(x@), old(scratch_ffn)@));
    }

    /// Analytical backward pass: computes gradients w.r.t W_down, W_up, and input x.
    /// Accumulates gradients into `grads.grad_w_down` and `grads.grad_w_up`,
    /// and adds input gradients to `grad_x`.
    pub fn backward(
        &self,
        x: &[A::T],
        raw_ffn: &[A::T],
        act_ffn: &[A::T],
        grad_out: &[A::T],
        scratch_delta_a: &mut [A::T],
        scratch_delta_z: &mut [A::T],
        grads: &mut ExpertGrads<A>,
        grad_x: &mut [A::T],
    )
        requires
            lawful::<A>(),
            self.wf(),
            x@.len() == self.d_model,
            raw_ffn@.len() >= self.d_ffn,
            act_ffn@.len() >= self.d_ffn,
            grad_out@.len() == self.d_model,
            old(scratch_delta_a)@.len() >= self.d_ffn,
            old(scratch_delta_z)@.len() >= self.d_ffn,
            old(grads).fits(self.d_model as nat, self.d_ffn as nat),
            old(grad_x)@.len() == self.d_model,
        ensures
            final(grads).fits(self.d_model as nat, self.d_ffn as nat),
            final(scratch_delta_a)@.len() == old(scratch_delta_a)@.len(),
            final(scratch_delta_z)@.len() == old(scratch_delta_z)@.len(),
            final(grad_x)@.len() == old(grad_x)@.len(),
            ({
                let raw = raw_ffn@.take(self.d_ffn as int);
                let act = act_ffn@.take(self.d_ffn as int);
                let delta_z = self.delta_z_of(raw, grad_out@);
                &&& final(grads).grad_w_down@ == outer_added::<A>(
                    old(grads).grad_w_down@,
                    grad_out@,
                    act,
                    one::<A>(),
                )
                &&& final(grads).grad_w_up@ == outer_added::<A>(
                    old(grads).grad_w_up@,
                    delta_z,
                    x@,
                    one::<A>(),
                )
                &&& final(grad_x)@ == rows_added::<A>(
                    old(grad_x)@,
                    self.w_up@,
                    delta_z,
                    delta_z.len(),
                )
                &&& final(scratch_delta_a)@ == in_front(
                    self.delta_a_of(grad_out@),
                    old(scratch_delta_a)@,
                )
                &&& final(scratch_delta_z)@ == in_front(delta_z, old(scratch_delta_z)@)
            }),
    {
        let down_view = MatrixView::new(self.w_down.as_slice(), self.d_model, self.d_ffn);
        let up_view = MatrixView::new(self.w_up.as_slice(), self.d_ffn, self.d_model);
        let raw = vstd::slice::slice_subrange(raw_ffn, 0, self.d_ffn);
        let act = vstd::slice::slice_subrange(act_ffn, 0, self.d_ffn);
        assert(raw@ =~= raw_ffn@.take(self.d_ffn as int));
        assert(act@ =~= act_ffn@.take(self.d_ffn as int));
        // 1. grad_w_down += grad_out ⊗ act_ffn
        let mut grad_down_view = MatrixViewMut::new(
            grads.grad_w_down.as_mut_slice(),
            self.d_model,
            self.d_ffn,
        );
        outer_product_accumulate::<A>(grad_out, act, A::lit(1, 0), &mut grad_down_view);
        // 2. delta_a = W_down^T * grad_out
        let delta_a = part_mut(scratch_delta_a, 0, self.d_ffn);
        matvec_transposed::<A>(&down_view, grad_out, delta_a);
        // 3. delta_z = delta_a * GELU'(raw_ffn)
        let delta_z = part_mut(scratch_delta_z, 0, self.d_ffn);
        gelu_grad::<A>(raw, delta_a, delta_z);
        assert(delta_z@ =~= self.delta_z_of(raw@, grad_out@));
        // 4. grad_w_up += delta_z ⊗ x
        let mut grad_up_view = MatrixViewMut::new(
            grads.grad_w_up.as_mut_slice(),
            self.d_ffn,
            self.d_model,
        );
        outer_product_accumulate::<A>(delta_z, x, A::lit(1, 0), &mut grad_up_view);
        // 5. grad_x += W_up^T * delta_z
        matvec_transposed_accumulate::<A>(&up_view, delta_z, grad_x);
        assert(scratch_delta_a@ =~= in_front(
            self.delta_a_of(grad_out@),
            old(scratch_delta_a)@,
        ));
        assert(scratch_delta_z@ =~= in_front(
            self.delta_z_of(raw@, grad_out@),
            old(scratch_delta_z)@,
        ));
    }
}

} // verus!
