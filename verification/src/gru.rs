//! Single-layer Gated Recurrent Unit (GRU) baseline with standard full Backprop-Through-Time
//! (BPTT).

use vstd::prelude::*;
use crate::activations::sigmoid;
use crate::arith::{Arith, lawful, one, s_minus, s_plus, s_tanh, s_times, zero};
use crate::layer::{sigmoid_all, vec_add, zero_vec};
use crate::matvec::{
    matvec, matvec_of, matvec_transposed, matvec_transposed_of, outer_added,
    outer_product_accumulate, summed, zip_summed,
};
use crate::model::{add_to_row, row_added};
use crate::rng::{WeightDraw, WeightSource, drawn_from_seed, scale_for, weight_scale};
use crate::sequence::{row_at, write_row};
use crate::softmax::{
    cross_entropy_grad_of, cross_entropy_loss_and_grad, cross_entropy_of, softmax_of,
};
use crate::tensor::{
    MatrixView, MatrixViewMut, copied, joined, lemma_row_bounds, row_of, same_from, scaled,
    vec_scale, vec_zero, zeros,
};

verus! {

/// Gradients for Single-Layer GRU Model.
#[derive(Debug, Clone)]
pub struct GruGrads<A: Arith> {
    pub grad_embeddings: Vec<A::T>,
    /// (2d x 2d)
    pub grad_w_gate: Vec<A::T>,
    /// (d x 2d)
    pub grad_w_cand: Vec<A::T>,
    /// (V x d)
    pub grad_w_head: Vec<A::T>,
}

/// The values of all parameters, or of the gradients of all parameters.
pub struct GruValues<T> {
    pub embeddings: Seq<T>,
    pub gate: Seq<T>,
    pub cand: Seq<T>,
    pub head: Seq<T>,
}

impl<A: Arith> View for GruGrads<A> {
    type V = GruValues<A::T>;

    open spec fn view(&self) -> GruValues<A::T> {
        GruValues {
            embeddings: self.grad_embeddings@,
            gate: self.grad_w_gate@,
            cand: self.grad_w_cand@,
            head: self.grad_w_head@,
        }
    }
}

impl<T> GruValues<T> {
    /// The values are those of a model with this vocabulary and dimension.
    pub open spec fn fits(&self, vocab: nat, d: nat) -> bool {
        &&& self.embeddings.len() == vocab * d
        &&& self.gate.len() == (2 * d) * (2 * d)
        &&& self.cand.len() == d * (2 * d)
        &&& self.head.len() == vocab * d
    }

    /// Each part is as long as its counterpart.
    pub open spec fn same_sizes(&self, other: GruValues<T>) -> bool {
        &&& self.embeddings.len() == other.embeddings.len()
        &&& self.gate.len() == other.gate.len()
        &&& self.cand.len() == other.cand.len()
        &&& self.head.len() == other.head.len()
    }

    /// The sums of the values and their counterparts.
    pub open spec fn plus<A: Arith<T = T>>(&self, other: GruValues<T>) -> GruValues<T> {
        GruValues {
            embeddings: summed::<A>(self.embeddings, other.embeddings),
            gate: summed::<A>(self.gate, other.gate),
            cand: summed::<A>(self.cand, other.cand),
            head: summed::<A>(self.head, other.head),
        }
    }

    /// The sums of the values and their counterparts, as far as both go.
    pub open spec fn zip_plus<A: Arith<T = T>>(&self, other: GruValues<T>) -> GruValues<T> {
        GruValues {
            embeddings: zip_summed::<A>(self.embeddings, other.embeddings),
            gate: zip_summed::<A>(self.gate, other.gate),
            cand: zip_summed::<A>(self.cand, other.cand),
            head: zip_summed::<A>(self.head, other.head),
        }
    }

    /// The values times `alpha`.
    pub open spec fn scaled<A: Arith<T = T>>(&self, alpha: T) -> GruValues<T> {
        GruValues {
            embeddings: scaled::<A>(self.embeddings, alpha),
            gate: scaled::<A>(self.gate, alpha),
            cand: scaled::<A>(self.cand, alpha),
            head: scaled::<A>(self.head, alpha),
        }
    }
}

/// No gradients.
pub open spec fn no_gru_grads<A: Arith>(vocab: nat, d: nat) -> GruValues<A::T> {
    GruValues {
        embeddings: zeros::<A>(vocab * d),
        gate: zeros::<A>((2 * d) * (2 * d)),
        cand: zeros::<A>(d * (2 * d)),
        head: zeros::<A>(vocab * d),
    }
}

impl<A: Arith> GruGrads<A> {
    pub fn new(vocab_size: usize, d_model: usize) -> (grads: Self)
        requires
            lawful::<A>(),
            vocab_size * d_model <= usize::MAX,
            (2 * d_model) * (2 * d_model) <= usize::MAX,
        ensures
            grads@ == no_gru_grads::<A>(vocab_size as nat, d_model as nat),
            grads@.fits(vocab_size as nat, d_model as nat),
    {
        let d: usize = d_model;
        proof {
            assert(d * (2 * d) <= (2 * d) * (2 * d) && (2 * d <= (2 * d) * (2 * d) || d == 0))
                by (nonlinear_arith)
                requires
                    d >= 0,
            ;
        }
        Self {
            grad_embeddings: zero_vec::<A>(vocab_size * d),
            grad_w_gate: zero_vec::<A>((2 * d) * (2 * d)),
            grad_w_cand: zero_vec::<A>(d * (2 * d)),
            grad_w_head: zero_vec::<A>(vocab_size * d),
        }
    }

    pub fn zero(&mut self)
        requires
            lawful::<A>(),
        ensures
            final(self)@.embeddings == zeros::<A>(old(self)@.embeddings.len()),
            final(self)@.gate == zeros::<A>(old(self)@.gate.len()),
            final(self)@.cand == zeros::<A>(old(self)@.cand.len()),
            final(self)@.head == zeros::<A>(old(self)@.head.len()),
    {
        vec_zero::<A>(self.grad_embeddings.as_mut_slice());
        vec_zero::<A>(self.grad_w_gate.as_mut_slice());
        vec_zero::<A>(self.grad_w_cand.as_mut_slice());
        vec_zero::<A>(self.grad_w_head.as_mut_slice());
    }

    pub fn add(&mut self, other: &GruGrads<A>)
        requires
            lawful::<A>(),
        ensures
            final(self)@ == old(self)@.zip_plus::<A>(other@),
            old(self)@.same_sizes(other@) ==> final(self)@ == old(self)@.plus::<A>(other@),
    {
        vec_add::<A>(self.grad_embeddings.as_mut_slice(), other.grad_embeddings.as_slice());
        vec_add::<A>(self.grad_w_gate.as_mut_slice(), other.grad_w_gate.as_slice());
        vec_add::<A>(self.grad_w_cand.as_mut_slice(), other.grad_w_cand.as_slice());
        vec_add::<A>(self.grad_w_head.as_mut_slice(), other.grad_w_head.as_slice());
    }

    /// Multiply all gradients by `alpha`.
    pub fn scale(&mut self, alpha: A::T)
        requires
            lawful::<A>(),
        ensures
            final(self)@ == old(self)@.scaled::<A>(alpha),
    {
        vec_scale::<A>(self.grad_embeddings.as_mut_slice(), alpha);
        vec_scale::<A>(self.grad_w_gate.as_mut_slice(), alpha);
        vec_scale::<A>(self.grad_w_cand.as_mut_slice(), alpha);
        vec_scale::<A>(self.grad_w_head.as_mut_slice(), alpha);
    }
}

/// Standalone Single-Layer GRU Language Model.
#[derive(Debug, Clone)]
pub struct GruModel<A: Arith> {
    pub vocab_size: usize,
    pub d_model: usize,
    /// (vocab_size x d_model)
    pub embeddings: Vec<A::T>,
    /// (2*d_model x 2*d_model) -> produces reset gate r_t and update gate z_t
    pub w_gate: Vec<A::T>,
    /// (d_model x 2*d_model)   -> produces candidate state h_tilde
    pub w_cand: Vec<A::T>,
    /// (vocab_size x d_model)  -> produces prediction logits
    pub w_head: Vec<A::T>,
}

/// What one step of the forward pass computes.
pub struct GruStep<T> {
    /// The reset gate and the update gate, one behind the other.
    pub rz: Seq<T>,
    pub cand_in: Seq<T>,
    pub cand: Seq<T>,
    /// The hidden state after the step.
    pub h: Seq<T>,
    pub logits: Seq<T>,
}

/// What the backward pass needs of one step of the forward pass.
pub struct GruTrace<T> {
    pub h_prev: Seq<T>,
    pub h_curr: Seq<T>,
    pub rz: Seq<T>,
    pub cand: Seq<T>,
    pub cand_in: Seq<T>,
    pub pred_grad: Seq<T>,
}

/// The gradients and the gradient at the hidden state after some steps of the backward pass.
pub struct GruBack<T> {
    pub grads: GruValues<T>,
    pub delta_h: Seq<T>,
}

/// The products of the elements of two vectors.
pub open spec fn multiplied<A: Arith>(a: Seq<A::T>, b: Seq<A::T>) -> Seq<A::T> {
    Seq::new(a.len(), |i: int| s_times::<A>(a[i], b[i]))
}

/// The hyperbolic tangents of the elements of a vector.
pub open spec fn tanh_all<A: Arith>(x: Seq<A::T>) -> Seq<A::T> {
    Seq::new(x.len(), |i: int| s_tanh::<A>(x[i]))
}

/// (1 - z) * h + z * cand
pub open spec fn gated<A: Arith>(z: Seq<A::T>, h: Seq<A::T>, cand: Seq<A::T>) -> Seq<A::T> {
    Seq::new(
        h.len(),
        |i: int|
            s_plus::<A>(
                s_times::<A>(s_minus::<A>(one::<A>(), z[i]), h[i]),
                s_times::<A>(z[i], cand[i]),
            ),
    )
}

/// The gradient before the tanh of the candidate.
pub open spec fn delta_raw_cand_of<A: Arith>(
    delta_h: Seq<A::T>,
    z: Seq<A::T>,
    cand: Seq<A::T>,
) -> Seq<A::T> {
    Seq::new(
        delta_h.len(),
        |i: int|
            s_times::<A>(
                s_times::<A>(delta_h[i], z[i]),
                s_minus::<A>(one::<A>(), s_times::<A>(cand[i], cand[i])),
            ),
    )
}

/// The gradient before the sigmoid of the update gate.
pub open spec fn delta_raw_z_of<A: Arith>(
    delta_h: Seq<A::T>,
    z: Seq<A::T>,
    cand: Seq<A::T>,
    h_prev: Seq<A::T>,
) -> Seq<A::T> {
    Seq::new(
        delta_h.len(),
        |i: int|
            s_times::<A>(
                s_times::<A>(s_times::<A>(delta_h[i], s_minus::<A>(cand[i], h_prev[i])), z[i]),
                s_minus::<A>(one::<A>(), z[i]),
            ),
    )
}

/// The gradient before the sigmoid of the reset gate.
pub open spec fn delta_raw_r_of<A: Arith>(
    delta_rh: Seq<A::T>,
    h_prev: Seq<A::T>,
    r: Seq<A::T>,
) -> Seq<A::T> {
    Seq::new(
        h_prev.len(),
        |i: int|
            s_times::<A>(
                s_times::<A>(s_times::<A>(delta_rh[i], h_prev[i]), r[i]),
                s_minus::<A>(one::<A>(), r[i]),
            ),
    )
}

/// The gradient at the hidden state before the step.
pub open spec fn delta_h_of<A: Arith>(
    delta_h: Seq<A::T>,
    z: Seq<A::T>,
    delta_gate: Seq<A::T>,
    delta_rh: Seq<A::T>,
    r: Seq<A::T>,
) -> Seq<A::T> {
    Seq::new(
        delta_h.len(),
        |i: int|
            s_plus::<A>(
                s_plus::<A>(
                    s_times::<A>(delta_h[i], s_minus::<A>(one::<A>(), z[i])),
                    delta_gate[i],
                ),
                s_times::<A>(delta_rh[i], r[i]),
            ),
    )
}

impl<A: Arith> GruModel<A> {
    /// The weights are as large as the vocabulary and the dimension say.
    pub open spec fn wf(&self) -> bool {
        &&& self.embeddings@.len() == self.vocab_size * self.d_model
        &&& self.w_gate@.len() == (2 * self.d_model) * (2 * self.d_model)
        &&& self.w_cand@.len() == self.d_model * (2 * self.d_model)
        &&& self.w_head@.len() == self.vocab_size * self.d_model
    }

    /// The weights are those that the generator of the seed draws, one matrix after another, each
    /// on the scale of what it is applied to.
    pub open spec fn is_drawn(&self, seed: u64) -> bool {
        let scale = weight_scale::<A>(1, self.d_model);
        let scale_gate = weight_scale::<A>(1, (2 * self.d_model) as usize);
        drawn_from_seed::<A>(
            seed,
            seq![
                WeightDraw { weights: self.embeddings@, scale },
                WeightDraw { weights: self.w_gate@, scale: scale_gate },
                WeightDraw { weights: self.w_cand@, scale: scale_gate },
                WeightDraw { weights: self.w_head@, scale },
            ],
        )
    }

    /// A model with weights drawn from the generator of a seed.
    pub fn new(vocab_size: usize, d_model: usize, seed: u64) -> (model: Self)
        requires
            lawful::<A>(),
            vocab_size * d_model <= usize::MAX,
            (2 * d_model) * (2 * d_model) <= usize::MAX,
            2 * d_model <= usize::MAX,
        ensures
            model.wf(),
            model.vocab_size == vocab_size,
            model.d_model == d_model,
            model.is_drawn(seed),
    {
        let d: usize = d_model;
        assert(d * (2 * d) <= (2 * d) * (2 * d)) by (nonlinear_arith)
            requires
                d >= 0,
        ;
        let mut source = WeightSource::<A>::new(seed);
        let scale_embed = scale_for::<A>(1, d);
        let scale_gate = scale_for::<A>(1, 2 * d);
        let scale_head = scale_for::<A>(1, d);
        let embeddings = source.draw(scale_embed, vocab_size * d);
        let w_gate = source.draw(scale_gate, (2 * d) * (2 * d));
        let w_cand = source.draw(scale_gate, d * (2 * d));
        let w_head = source.draw(scale_head, vocab_size * d);
        proof {
            source.lemma_drawn(seed);
            assert(source.parts() =~= seq![
                WeightDraw { weights: embeddings@, scale: scale_embed },
                WeightDraw { weights: w_gate@, scale: scale_gate },
                WeightDraw { weights: w_cand@, scale: scale_gate },
                WeightDraw { weights: w_head@, scale: scale_head },
            ]);
        }
        Self { vocab_size, d_model, embeddings, w_gate, w_cand, w_head }
    }

    /// One step of the forward pass from a hidden state.
    pub open spec fn step_of(&self, token: int, h_prev: Seq<A::T>) -> GruStep<A::T> {
        let d = self.d_model as nat;
        let x = row_of(self.embeddings@, d, token);
        let rz = sigmoid_all::<A>(matvec_of::<A>(self.w_gate@, 2 * d, x + h_prev));
        let cand_in = x + multiplied::<A>(rz.take(d as int), h_prev);
        let cand = tanh_all::<A>(matvec_of::<A>(self.w_cand@, d, cand_in));
        let h = gated::<A>(rz.skip(d as int), h_prev, cand);
        let logits = matvec_of::<A>(self.w_head@, self.vocab_size as nat, h);
        GruStep { rz, cand_in, cand, h, logits }
    }

    /// The hidden state before token `t` of a sequence.
    pub open spec fn hidden(&self, x: Seq<usize>, t: nat) -> Seq<A::T>
        decreases t,
    {
        if t == 0 {
            zeros::<A>(self.d_model as nat)
        } else {
            self.step_of(x[t - 1] as int, self.hidden(x, (t - 1) as nat)).h
        }
    }

    /// Step `t` of the forward pass over a sequence.
    pub open spec fn step_at(&self, x: Seq<usize>, t: int) -> GruStep<A::T> {
        self.step_of(x[t] as int, self.hidden(x, t as nat))
    }

    /// The losses of the first `n` tokens of a sequence, added up from zero.
    pub open spec fn loss_of(&self, x: Seq<usize>, y: Seq<usize>, n: nat) -> A::T
        decreases n,
    {
        if n == 0 {
            zero::<A>()
        } else {
            s_plus::<A>(
                self.loss_of(x, y, (n - 1) as nat),
                cross_entropy_of::<A>(self.step_at(x, n - 1).logits, y[n - 1] as int),
            )
        }
    }

    /// The hidden states before the first `n + 1` tokens are in the cache.
    pub open spec fn states_cached(&self, x: Seq<usize>, h_cache: Seq<A::T>, n: int) -> bool {
        forall|t: int|
            0 <= t <= n ==> #[trigger] row_of(h_cache, self.d_model as nat, t) == self.hidden(
                x,
                t as nat,
            )
    }

    /// The gates of the first `n` tokens are in the caches.
    pub open spec fn gates_cached(
        &self,
        x: Seq<usize>,
        rz_cache: Seq<A::T>,
        cand_cache: Seq<A::T>,
        cand_in_cache: Seq<A::T>,
        n: int,
    ) -> bool {
        let d = self.d_model as nat;
        &&& forall|t: int|
            0 <= t < n ==> #[trigger] row_of(rz_cache, 2 * d, t) == self.step_at(x, t).rz
        &&& forall|t: int|
            0 <= t < n ==> #[trigger] row_of(cand_cache, d, t) == self.step_at(x, t).cand
        &&& forall|t: int|
            0 <= t < n ==> #[trigger] row_of(cand_in_cache, 2 * d, t) == self.step_at(
                x,
                t,
            ).cand_in
    }

    /// The predictions of the first `n` tokens are in the caches.
    pub open spec fn predictions_cached(
        &self,
        x: Seq<usize>,
        y: Seq<usize>,
        logits_cache: Seq<A::T>,
        probs_cache: Seq<A::T>,
        pred_grad_cache: Seq<A::T>,
        n: int,
    ) -> bool {
        let v = self.vocab_size as nat;
        &&& forall|t: int|
            0 <= t < n ==> #[trigger] row_of(logits_cache, v, t) == self.step_at(x, t).logits
        &&& forall|t: int|
            0 <= t < n ==> #[trigger] row_of(probs_cache, v, t) == softmax_of::<A>(
                self.step_at(x, t).logits,
            )
        &&& forall|t: int|
            0 <= t < n ==> #[trigger] row_of(pred_grad_cache, v, t) == cross_entropy_grad_of::<A>(
                self.step_at(x, t).logits,
                y[t] as int,
            )
    }

    /// One step of the backward pass.
    pub open spec fn back_step(
        &self,
        token: int,
        c: GruTrace<A::T>,
        later: GruBack<A::T>,
    ) -> GruBack<A::T> {
        let d = self.d_model as nat;
        let r = c.rz.take(d as int);
        let z = c.rz.skip(d as int);
        let delta_h = summed::<A>(
            later.delta_h,
            matvec_transposed_of::<A>(self.w_head@, d, c.pred_grad),
        );
        let delta_raw_cand = delta_raw_cand_of::<A>(delta_h, z, c.cand);
        let delta_cand_in = matvec_transposed_of::<A>(self.w_cand@, 2 * d, delta_raw_cand);
        let delta_rh = delta_cand_in.skip(d as int);
        let delta_raw_gate = delta_raw_r_of::<A>(delta_rh, c.h_prev, r) + delta_raw_z_of::<A>(
            delta_h,
            z,
            c.cand,
            c.h_prev,
        );
        let gate_in = row_of(self.embeddings@, d, token) + c.h_prev;
        let delta_gate_in = matvec_transposed_of::<A>(self.w_gate@, 2 * d, delta_raw_gate);
        let g = later.grads;
        GruBack {
            grads: GruValues {
                embeddings: row_added::<A>(
                    g.embeddings,
                    d,
                    token,
                    summed::<A>(delta_gate_in.take(d as int), delta_cand_in.take(d as int)),
                ),
                gate: outer_added::<A>(g.gate, delta_raw_gate, gate_in, one::<A>()),
                cand: outer_added::<A>(g.cand, delta_raw_cand, c.cand_in, one::<A>()),
                head: outer_added::<A>(g.head, c.pred_grad, c.h_curr, one::<A>()),
            },
            delta_h: delta_h_of::<A>(delta_h, z, delta_gate_in.skip(d as int), delta_rh, r),
        }
    }

    /// The backward pass over the tokens of a sequence from the last one down to token `t`.
    pub open spec fn back(
        &self,
        x: Seq<usize>,
        trace: spec_fn(int) -> GruTrace<A::T>,
        grads: GruValues<A::T>,
        t: int,
    ) -> GruBack<A::T>
        decreases x.len() - t,
    {
        if t < 0 || t >= x.len() {
            GruBack { grads, delta_h: zeros::<A>(self.d_model as nat) }
        } else {
            self.back_step(x[t] as int, trace(t), self.back(x, trace, grads, t + 1))
        }
    }
}

/// What the caches hold of step `t`.
pub open spec fn gru_trace<T>(
    d: nat,
    v: nat,
    h_cache: Seq<T>,
    rz_cache: Seq<T>,
    cand_cache: Seq<T>,
    cand_in_cache: Seq<T>,
    pred_grad_cache: Seq<T>,
    t: int,
) -> GruTrace<T> {
    GruTrace {
        h_prev: row_of(h_cache, d, t),
        h_curr: row_of(h_cache, d, t + 1),
        rz: row_of(rz_cache, 2 * d, t),
        cand: row_of(cand_cache, d, t),
        cand_in: row_of(cand_in_cache, 2 * d, t),
        pred_grad: row_of(pred_grad_cache, v, t),
    }
}

/// The products of the elements of two vectors.
pub(crate) fn vec_multiply<A: Arith>(a: &[A::T], b: &[A::T]) -> (r: Vec<A::T>)
    requires
        lawful::<A>(),
        a@.len() == b@.len(),
    ensures
        r@ == multiplied::<A>(a@, b@),
{
    let n: usize = a.len();
    let mut r: Vec<A::T> = Vec::with_capacity(n);
    let mut i: usize = 0;
    while i < n
        invariant
            lawful::<A>(),
            i <= n,
            n == a@.len(),
            n == b@.len(),
            r@ == multiplied::<A>(a@, b@).take(i as int),
        decreases n - i,
    {
        r.push(A::times(a[i], b[i]));
        i += 1;
        assert(r@ =~= multiplied::<A>(a@, b@).take(i as int));
    }
    assert(r@ =~= multiplied::<A>(a@, b@));
    r
}

/// The hyperbolic tangents of the elements of a vector.
fn vec_tanh<A: Arith>(x: &[A::T]) -> (r: Vec<A::T>)
    requires
        lawful::<A>(),
    ensures
        r@ == tanh_all::<A>(x@),
{
    let n: usize = x.len();
    let mut r: Vec<A::T> = Vec::with_capacity(n);
    let mut i: usize = 0;
    while i < n
        invariant
            lawful::<A>(),
            i <= n,
            n == x@.len(),
            r@ == tanh_all::<A>(x@).take(i as int),
        decreases n - i,
    {
        r.push(A::tanh(x[i]));
        i += 1;
        assert(r@ =~= tanh_all::<A>(x@).take(i as int));
    }
    assert(r@ =~= tanh_all::<A>(x@));
    r
}

/// h_t = (1 - z_t) * h_{t-1} + z_t * h_tilde
fn gate_state<A: Arith>(z: &[A::T], h: &[A::T], cand: &[A::T]) -> (r: Vec<A::T>)
    requires
        lawful::<A>(),
        z@.len() == h@.len(),
        cand@.len() == h@.len(),
    ensures
        r@ == gated::<A>(z@, h@, cand@),
{
    let n: usize = h.len();
    let mut r: Vec<A::T> = Vec::with_capacity(n);
    let mut i: usize = 0;
    while i < n
        invariant
            lawful::<A>(),
            i <= n,
            n == h@.len(),
            n == z@.len(),
            n == cand@.len(),
            r@ == gated::<A>(z@, h@, cand@).take(i as int),
        decreases n - i,
    {
        r.push(A::plus(A::times(A::minus(A::lit(1, 0), z[i]), h[i]), A::times(z[i], cand[i])));
        i += 1;
        assert(r@ =~= gated::<A>(z@, h@, cand@).take(i as int));
    }
    assert(r@ =~= gated::<A>(z@, h@, cand@));
    r
}

/// dL / d(raw_cand) = delta_h * z_t * (1 - cand_t^2)
fn raw_cand_delta<A: Arith>(delta_h: &[A::T], z: &[A::T], cand: &[A::T]) -> (r: Vec<A::T>)
    requires
        lawful::<A>(),
        z@.len() == delta_h@.len(),
        cand@.len() == delta_h@.len(),
    ensures
        r@ == delta_raw_cand_of::<A>(delta_h@, z@, cand@),
{
    let n: usize = delta_h.len();
    let mut r: Vec<A::T> = Vec::with_capacity(n);
    let mut i: usize = 0;
    while i < n
        invariant
            lawful::<A>(),
            i <= n,
            n == delta_h@.len(),
            n == z@.len(),
            n == cand@.len(),
            r@ == delta_raw_cand_of::<A>(delta_h@, z@, cand@).take(i as int),
        decreases n - i,
    {
        let d_cand = A::times(delta_h[i], z[i]);
        r.push(A::times(d_cand, A::minus(A::lit(1, 0), A::times(cand[i], cand[i]))));
        i += 1;
        assert(r@ =~= delta_raw_cand_of::<A>(delta_h@, z@, cand@).take(i as int));
    }
    assert(r@ =~= delta_raw_cand_of::<A>(delta_h@, z@, cand@));
    r
}

/// dL / d(raw_z) = delta_h * (cand_t - h_prev) * z_t * (1 - z_t)
fn raw_z_delta<A: Arith>(delta_h: &[A::T], z: &[A::T], cand: &[A::T], h_prev: &[A::T]) -> (r: Vec<
    A::T,
>)
    requires
        lawful::<A>(),
        z@.len() == delta_h@.len(),
        cand@.len() == delta_h@.len(),
        h_prev@.len() == delta_h@.len(),
    ensures
        r@ == delta_raw_z_of::<A>(delta_h@, z@, cand@, h_prev@),
{
    let n: usize = delta_h.len();
    let mut r: Vec<A::T> = Vec::with_capacity(n);
    let mut i: usize = 0;
    while i < n
        invariant
            lawful::<A>(),
            i <= n,
            n == delta_h@.len(),
            n == z@.len(),
            n == cand@.len(),
            n == h_prev@.len(),
            r@ == delta_raw_z_of::<A>(delta_h@, z@, cand@, h_prev@).take(i as int),
        decreases n - i,
    {
        let d_z = A::times(delta_h[i], A::minus(cand[i], h_prev[i]));
        r.push(A::times(A::times(d_z, z[i]), A::minus(A::lit(1, 0), z[i])));
        i += 1;
        assert(r@ =~= delta_raw_z_of::<A>(delta_h@, z@, cand@, h_prev@).take(i as int));
    }
    assert(r@ =~= delta_raw_z_of::<A>(delta_h@, z@, cand@, h_prev@));
    r
}

/// dL / d(raw_r) = d_rh * h_prev * r_t * (1 - r_t)
fn raw_r_delta<A: Arith>(delta_rh: &[A::T], h_prev: &[A::T], reset: &[A::T]) -> (r: Vec<A::T>)
    requires
        lawful::<A>(),
        delta_rh@.len() == h_prev@.len(),
        reset@.len() == h_prev@.len(),
    ensures
        r@ == delta_raw_r_of::<A>(delta_rh@, h_prev@, reset@),
{
    let n: usize = h_prev.len();
    let mut r: Vec<A::T> = Vec::with_capacity(n);
    let mut i: usize = 0;
    while i < n
        invariant
            lawful::<A>(),
            i <= n,
            n == delta_rh@.len(),
            n == h_prev@.len(),
            n == reset@.len(),
            r@ == delta_raw_r_of::<A>(delta_rh@, h_prev@, reset@).take(i as int),
        decreases n - i,
    {
        let d_r = A::times(delta_rh[i], h_prev[i]);
        r.push(A::times(A::times(d_r, reset[i]), A::minus(A::lit(1, 0), reset[i])));
        i += 1;
        assert(r@ =~= delta_raw_r_of::<A>(delta_rh@, h_prev@, reset@).take(i as int));
    }
    assert(r@ =~= delta_raw_r_of::<A>(delta_rh@, h_prev@, reset@));
    r
}

/// delta_h_{t-1} = delta_h_t * (1 - z_t) + delta_gate + delta_rh * r_t
fn previous_delta<A: Arith>(
    delta_h: &[A::T],
    z: &[A::T],
    delta_gate: &[A::T],
    delta_rh: &[A::T],
    reset: &[A::T],
) -> (r: Vec<A::T>)
    requires
        lawful::<A>(),
        z@.len() == delta_h@.len(),
        delta_gate@.len() == delta_h@.len(),
        delta_rh@.len() == delta_h@.len(),
        reset@.len() == delta_h@.len(),
    ensures
        r@ == delta_h_of::<A>(delta_h@, z@, delta_gate@, delta_rh@, reset@),
{
    let n: usize = delta_h.len();
    let mut r: Vec<A::T> = Vec::with_capacity(n);
    let ghost want = delta_h_of::<A>(delta_h@, z@, delta_gate@, delta_rh@, reset@);
    let mut i: usize = 0;
    while i < n
        invariant
            lawful::<A>(),
            i <= n,
            n == delta_h@.len(),
            n == z@.len(),
            n == delta_gate@.len(),
            n == delta_rh@.len(),
            n == reset@.len(),
            want == delta_h_of::<A>(delta_h@, z@, delta_gate@, delta_rh@, reset@),
            r@ == want.take(i as int),
        decreases n - i,
    {
        let kept = A::times(delta_h[i], A::minus(A::lit(1, 0), z[i]));
        r.push(A::plus(A::plus(kept, delta_gate[i]), A::times(delta_rh[i], reset[i])));
        i += 1;
        assert(r@ =~= want.take(i as int));
    }
    assert(r@ =~= want);
    r
}

/// The activations of one step of the forward pass.
struct GruActs<A: Arith> {
    rz: Vec<A::T>,
    cand_in: Vec<A::T>,
    cand: Vec<A::T>,
    h: Vec<A::T>,
    logits: Vec<A::T>,
}

impl<A: Arith> GruModel<A> {
    /// One step of the forward pass.
    fn forward_step(&self, token: usize, h_prev: &[A::T]) -> (acts: GruActs<A>)
        requires
            lawful::<A>(),
            self.wf(),
            token < self.vocab_size,
            h_prev@.len() == self.d_model,
        ensures
            ({
                let step = self.step_of(token as int, h_prev@);
                &&& acts.rz@ == step.rz
                &&& acts.cand_in@ == step.cand_in
                &&& acts.cand@ == step.cand
                &&& acts.h@ == step.h
                &&& acts.logits@ == step.logits
            }),
            acts.rz@.len() == 2 * self.d_model,
            acts.cand_in@.len() == 2 * self.d_model,
            acts.cand@.len() == self.d_model,
            acts.h@.len() == self.d_model,
            acts.logits@.len() == self.vocab_size,
    {
        let d: usize = self.d_model;
        let v: usize = self.vocab_size;
        proof {
            lemma_row_bounds(v as nat, d as nat, token as int);
            assert(self.w_gate.len() == self.w_gate@.len());
            assert(2 * d <= (2 * d) * (2 * d) || d == 0) by (nonlinear_arith)
                requires
                    d >= 0,
            ;
        }
        let x_embed = row_at(self.embeddings.as_slice(), d, token);
        // 1. [x_t; h_{t-1}]
        let gate_in = joined(x_embed, h_prev);
        // 2. [r_t; z_t] = sigmoid(W_gate * [x_t; h_{t-1}])
        let gate_view = MatrixView::new(self.w_gate.as_slice(), 2 * d, 2 * d);
        let mut raw_gates = zero_vec::<A>(2 * d);
        matvec::<A>(&gate_view, gate_in.as_slice(), raw_gates.as_mut_slice());
        let mut rz = zero_vec::<A>(2 * d);
        sigmoid::<A>(raw_gates.as_slice(), rz.as_mut_slice());
        assert(rz@ =~= sigmoid_all::<A>(raw_gates@));
        // 3. Candidate input: [x_t; r_t * h_{t-1}]
        let r_t = vstd::slice::slice_subrange(rz.as_slice(), 0, d);
        let z_t = vstd::slice::slice_subrange(rz.as_slice(), d, 2 * d);
        assert(r_t@ =~= rz@.take(d as int));
        assert(z_t@ =~= rz@.skip(d as int));
        let cand_in = joined(x_embed, vec_multiply::<A>(r_t, h_prev).as_slice());
        // 4. h_tilde = tanh(W_cand * cand_in_t)
        let cand_view = MatrixView::new(self.w_cand.as_slice(), d, 2 * d);
        let mut raw_cand = zero_vec::<A>(d);
        matvec::<A>(&cand_view, cand_in.as_slice(), raw_cand.as_mut_slice());
        let cand = vec_tanh::<A>(raw_cand.as_slice());
        // 5. h_t = (1 - z_t) * h_{t-1} + z_t * h_tilde
        let h = gate_state::<A>(z_t, h_prev, cand.as_slice());
        // 6. Logits
        let head_view = MatrixView::new(self.w_head.as_slice(), v, d);
        let mut logits = zero_vec::<A>(v);
        matvec::<A>(&head_view, h.as_slice(), logits.as_mut_slice());
        GruActs { rz, cand_in, cand, h, logits }
    }

    /// Forward pass over a sequence of tokens [0..T], caching activations for BPTT.
    /// Returns total cross-entropy loss over the sequence.
    pub fn forward_sequence(
        &self,
        x_seq: &[usize],
        y_seq: &[usize],
        h_cache: &mut [A::T],
        rz_cache: &mut [A::T],
        cand_cache: &mut [A::T],
        cand_in_cache: &mut [A::T],
        logits_cache: &mut [A::T],
        probs_cache: &mut [A::T],
        pred_grad_cache: &mut [A::T],
    ) -> (total_loss: A::T)
        requires
            lawful::<A>(),
            self.wf(),
            x_seq@.len() <= y_seq@.len(),
            forall|t: int| 0 <= t < x_seq@.len() ==> #[trigger] x_seq@[t] < self.vocab_size,
            forall|t: int| 0 <= t < x_seq@.len() ==> #[trigger] y_seq@[t] < self.vocab_size,
            old(h_cache)@.len() >= (x_seq@.len() + 1) * self.d_model,
            old(rz_cache)@.len() >= x_seq@.len() * (2 * self.d_model),
            old(cand_cache)@.len() >= x_seq@.len() * self.d_model,
            old(cand_in_cache)@.len() >= x_seq@.len() * (2 * self.d_model),
            old(logits_cache)@.len() >= x_seq@.len() * self.vocab_size,
            old(probs_cache)@.len() >= x_seq@.len() * self.vocab_size,
            old(pred_grad_cache)@.len() >= x_seq@.len() * self.vocab_size,
        ensures
            total_loss == self.loss_of(x_seq@, y_seq@, x_seq@.len()),
            self.states_cached(x_seq@, final(h_cache)@, x_seq@.len() as int),
            self.gates_cached(
                x_seq@,
                final(rz_cache)@,
                final(cand_cache)@,
                final(cand_in_cache)@,
                x_seq@.len() as int,
            ),
            self.predictions_cached(
                x_seq@,
                y_seq@,
                final(logits_cache)@,
                final(probs_cache)@,
                final(pred_grad_cache)@,
                x_seq@.len() as int,
            ),
            same_from(final(h_cache)@, old(h_cache)@, (x_seq@.len() + 1) * self.d_model),
            same_from(final(rz_cache)@, old(rz_cache)@, x_seq@.len() * (2 * self.d_model)),
            same_from(final(cand_cache)@, old(cand_cache)@, x_seq@.len() * self.d_model),
            same_from(final(cand_in_cache)@, old(cand_in_cache)@, x_seq@.len() * (2 * self.d_model)),
            same_from(final(logits_cache)@, old(logits_cache)@, x_seq@.len() * self.vocab_size),
            same_from(final(probs_cache)@, old(probs_cache)@, x_seq@.len() * self.vocab_size),
            same_from(final(pred_grad_cache)@, old(pred_grad_cache)@, x_seq@.len() * self.vocab_size),
    {
        let d: usize = self.d_model;
        let v: usize = self.vocab_size;
        let n: usize = x_seq.len();
        let ghost rows = n as nat;
        proof {
            assert(self.w_gate.len() == self.w_gate@.len());
            assert(2 * d <= (2 * d) * (2 * d) || d == 0) by (nonlinear_arith)
                requires
                    d >= 0,
            ;
        }
        // h_0 is initialized to zeros
        let mut h_prev = zero_vec::<A>(d);
        write_row(h_cache, Ghost(rows + 1), d, 0, h_prev.as_slice());
        let mut total_loss = A::lit(0, 0);
        let mut t: usize = 0;
        while t < n
            invariant
                lawful::<A>(),
                self.wf(),
                d == self.d_model,
                v == self.vocab_size,
                2 * d <= usize::MAX,
                n == x_seq@.len(),
                rows == n,
                n <= y_seq@.len(),
                t <= n,
                forall|q: int| 0 <= q < n ==> #[trigger] x_seq@[q] < v,
                forall|q: int| 0 <= q < n ==> #[trigger] y_seq@[q] < v,
                h_cache@.len() >= (rows + 1) * d,
                rz_cache@.len() >= rows * (2 * d),
                cand_cache@.len() >= rows * d,
                cand_in_cache@.len() >= rows * (2 * d),
                logits_cache@.len() >= rows * v,
                probs_cache@.len() >= rows * v,
                pred_grad_cache@.len() >= rows * v,
                same_from(h_cache@, old(h_cache)@, (rows + 1) * d),
                same_from(rz_cache@, old(rz_cache)@, rows * (2 * d)),
                same_from(cand_cache@, old(cand_cache)@, rows * d),
                same_from(cand_in_cache@, old(cand_in_cache)@, rows * (2 * d)),
                same_from(logits_cache@, old(logits_cache)@, rows * v),
                same_from(probs_cache@, old(probs_cache)@, rows * v),
                same_from(pred_grad_cache@, old(pred_grad_cache)@, rows * v),
                h_prev@.len() == d,
                h_prev@ == self.hidden(x_seq@, t as nat),
                total_loss == self.loss_of(x_seq@, y_seq@, t as nat),
                self.states_cached(x_seq@, h_cache@, t as int),
                self.gates_cached(x_seq@, rz_cache@, cand_cache@, cand_in_cache@, t as int),
                self.predictions_cached(
                    x_seq@,
                    y_seq@,
                    logits_cache@,
                    probs_cache@,
                    pred_grad_cache@,
                    t as int,
                ),
            decreases n - t,
        {
            let acts = self.forward_step(x_seq[t], h_prev.as_slice());
            write_row(rz_cache, Ghost(rows), 2 * d, t, acts.rz.as_slice());
            write_row(cand_in_cache, Ghost(rows), 2 * d, t, acts.cand_in.as_slice());
            write_row(cand_cache, Ghost(rows), d, t, acts.cand.as_slice());
            write_row(h_cache, Ghost(rows + 1), d, t + 1, acts.h.as_slice());
            write_row(logits_cache, Ghost(rows), v, t, acts.logits.as_slice());
            let mut probs = zero_vec::<A>(v);
            let mut pred_grad = zero_vec::<A>(v);
            let step_loss = cross_entropy_loss_and_grad::<A>(
                acts.logits.as_slice(),
                y_seq[t],
                probs.as_mut_slice(),
                pred_grad.as_mut_slice(),
            );
            write_row(probs_cache, Ghost(rows), v, t, probs.as_slice());
            write_row(pred_grad_cache, Ghost(rows), v, t, pred_grad.as_slice());
            total_loss = A::plus(total_loss, step_loss);
            h_prev = acts.h;
            t += 1;
        }
        total_loss
    }

    /// Full Backprop-Through-Time (BPTT) backward pass across the sequence.
    pub fn backward_sequence(
        &self,
        x_seq: &[usize],
        h_cache: &[A::T],
        rz_cache: &[A::T],
        cand_cache: &[A::T],
        cand_in_cache: &[A::T],
        pred_grad_cache: &[A::T],
        grads: &mut GruGrads<A>,
    )
        requires
            lawful::<A>(),
            self.wf(),
            forall|t: int| 0 <= t < x_seq@.len() ==> #[trigger] x_seq@[t] < self.vocab_size,
            h_cache@.len() >= (x_seq@.len() + 1) * self.d_model,
            rz_cache@.len() >= x_seq@.len() * (2 * self.d_model),
            cand_cache@.len() >= x_seq@.len() * self.d_model,
            cand_in_cache@.len() >= x_seq@.len() * (2 * self.d_model),
            pred_grad_cache@.len() >= x_seq@.len() * self.vocab_size,
            old(grads)@.fits(self.vocab_size as nat, self.d_model as nat),
        ensures
            final(grads)@ == self.back(
                x_seq@,
                |t: int|
                    gru_trace(
                        self.d_model as nat,
                        self.vocab_size as nat,
                        h_cache@,
                        rz_cache@,
                        cand_cache@,
                        cand_in_cache@,
                        pred_grad_cache@,
                        t,
                    ),
                old(grads)@,
                0,
            ).grads,
            final(grads)@.fits(self.vocab_size as nat, self.d_model as nat),
    {
        let d: usize = self.d_model;
        let v: usize = self.vocab_size;
        let ghost n = x_seq@.len();
        let ghost g0 = grads@;
        let ghost trace = |t: int|
            gru_trace(
                d as nat,
                v as nat,
                h_cache@,
                rz_cache@,
                cand_cache@,
                cand_in_cache@,
                pred_grad_cache@,
                t,
            );
        proof {
            assert(self.w_gate.len() == self.w_gate@.len());
            assert(2 * d <= (2 * d) * (2 * d) || d == 0) by (nonlinear_arith)
                requires
                    d >= 0,
            ;
        }
        let mut delta_h = zero_vec::<A>(d);
        // Backprop through time backwards from t = T-1 down to 0
        let mut t: usize = x_seq.len();
        while t > 0
            invariant
                lawful::<A>(),
                self.wf(),
                d == self.d_model,
                v == self.vocab_size,
                2 * d <= usize::MAX,
                n == x_seq@.len(),
                t <= n,
                forall|q: int| 0 <= q < n ==> #[trigger] x_seq@[q] < v,
                h_cache@.len() >= (n + 1) * d,
                rz_cache@.len() >= n * (2 * d),
                cand_cache@.len() >= n * d,
                cand_in_cache@.len() >= n * (2 * d),
                pred_grad_cache@.len() >= n * v,
                trace == |t: int|
                    gru_trace(
                        d as nat,
                        v as nat,
                        h_cache@,
                        rz_cache@,
                        cand_cache@,
                        cand_in_cache@,
                        pred_grad_cache@,
                        t,
                    ),
                grads@.fits(v as nat, d as nat),
                delta_h@.len() == d,
                grads@ == self.back(x_seq@, trace, g0, t as int).grads,
                delta_h@ == self.back(x_seq@, trace, g0, t as int).delta_h,
            decreases t,
        {
            t -= 1;
            proof {
                lemma_row_bounds(n + 1, d as nat, t as int);
                lemma_row_bounds(n + 1, d as nat, t + 1);
                lemma_row_bounds(n, d as nat, t as int);
                lemma_row_bounds(n, (2 * d) as nat, t as int);
                lemma_row_bounds(n, v as nat, t as int);
            }
            delta_h = self.backward_step(
                x_seq[t],
                row_at(h_cache, d, t),
                row_at(h_cache, d, t + 1),
                row_at(rz_cache, 2 * d, t),
                row_at(cand_cache, d, t),
                row_at(cand_in_cache, 2 * d, t),
                row_at(pred_grad_cache, v, t),
                delta_h.as_slice(),
                grads,
            );
        }
    }

    /// One step of the backward pass. Returns the gradient at the hidden state before the step.
    fn backward_step(
        &self,
        token: usize,
        h_prev: &[A::T],
        h_curr: &[A::T],
        rz: &[A::T],
        cand: &[A::T],
        cand_in: &[A::T],
        pred_grad: &[A::T],
        later: &[A::T],
        grads: &mut GruGrads<A>,
    ) -> (previous: Vec<A::T>)
        requires
            lawful::<A>(),
            self.wf(),
            token < self.vocab_size,
            h_prev@.len() == self.d_model,
            h_curr@.len() == self.d_model,
            rz@.len() == 2 * self.d_model,
            cand@.len() == self.d_model,
            cand_in@.len() == 2 * self.d_model,
            pred_grad@.len() == self.vocab_size,
            later@.len() == self.d_model,
            old(grads)@.fits(self.vocab_size as nat, self.d_model as nat),
        ensures
            ({
                let c = GruTrace {
                    h_prev: h_prev@,
                    h_curr: h_curr@,
                    rz: rz@,
                    cand: cand@,
                    cand_in: cand_in@,
                    pred_grad: pred_grad@,
                };
                let b = self.back_step(
                    token as int,
                    c,
                    GruBack { grads: old(grads)@, delta_h: later@ },
                );
                final(grads)@ == b.grads && previous@ == b.delta_h
            }),
            previous@.len() == self.d_model,
            final(grads)@.fits(self.vocab_size as nat, self.d_model as nat),
    {
        let d: usize = self.d_model;
        let v: usize = self.vocab_size;
        proof {
            lemma_row_bounds(v as nat, d as nat, token as int);
            assert(self.w_gate.len() == self.w_gate@.len());
            assert(2 * d <= (2 * d) * (2 * d) || d == 0) by (nonlinear_arith)
                requires
                    d >= 0,
            ;
        }
        let x_embed = row_at(self.embeddings.as_slice(), d, token);
        let r_t = vstd::slice::slice_subrange(rz, 0, d);
        let z_t = vstd::slice::slice_subrange(rz, d, 2 * d);
        assert(r_t@ =~= rz@.take(d as int));
        assert(z_t@ =~= rz@.skip(d as int));
        // 1. Accumulate prediction head gradients & backprop into delta_h
        let mut grad_head_view = MatrixViewMut::new(grads.grad_w_head.as_mut_slice(), v, d);
        outer_product_accumulate::<A>(pred_grad, h_curr, A::lit(1, 0), &mut grad_head_view);
        let head_view = MatrixView::new(self.w_head.as_slice(), v, d);
        let mut from_head = zero_vec::<A>(d);
        matvec_transposed::<A>(&head_view, pred_grad, from_head.as_mut_slice());
        let mut delta_h = copied(later);
        vec_add::<A>(delta_h.as_mut_slice(), from_head.as_slice());
        // 2. Backprop into candidate state and update gate
        let delta_raw_cand = raw_cand_delta::<A>(delta_h.as_slice(), z_t, cand);
        let delta_raw_z = raw_z_delta::<A>(delta_h.as_slice(), z_t, cand, h_prev);
        // 3. Accumulate W_cand gradients and backprop into cand_in
        let mut grad_cand_view = MatrixViewMut::new(grads.grad_w_cand.as_mut_slice(), d, 2 * d);
        outer_product_accumulate::<A>(
            delta_raw_cand.as_slice(),
            cand_in,
            A::lit(1, 0),
            &mut grad_cand_view,
        );
        let cand_view = MatrixView::new(self.w_cand.as_slice(), d, 2 * d);
        let mut delta_cand_in = zero_vec::<A>(2 * d);
        matvec_transposed::<A>(
            &cand_view,
            delta_raw_cand.as_slice(),
            delta_cand_in.as_mut_slice(),
        );
        // delta_cand_in: [delta_x_cand; delta_rh]
        let delta_x_cand = vstd::slice::slice_subrange(delta_cand_in.as_slice(), 0, d);
        let delta_rh = vstd::slice::slice_subrange(delta_cand_in.as_slice(), d, 2 * d);
        assert(delta_x_cand@ =~= delta_cand_in@.take(d as int));
        assert(delta_rh@ =~= delta_cand_in@.skip(d as int));
        let delta_raw_r = raw_r_delta::<A>(delta_rh, h_prev, r_t);
        // 4. Accumulate W_gate gradients and backprop into gate_in
        let delta_raw_gate = joined(delta_raw_r.as_slice(), delta_raw_z.as_slice());
        let gate_in = joined(x_embed, h_prev);
        let mut grad_gate_view = MatrixViewMut::new(
            grads.grad_w_gate.as_mut_slice(),
            2 * d,
            2 * d,
        );
        outer_product_accumulate::<A>(
            delta_raw_gate.as_slice(),
            gate_in.as_slice(),
            A::lit(1, 0),
            &mut grad_gate_view,
        );
        let gate_view = MatrixView::new(self.w_gate.as_slice(), 2 * d, 2 * d);
        let mut delta_gate_in = zero_vec::<A>(2 * d);
        matvec_transposed::<A>(
            &gate_view,
            delta_raw_gate.as_slice(),
            delta_gate_in.as_mut_slice(),
        );
        // 5. Backprop into embedding table: delta_x = delta_gate_in[..d] + delta_cand_in[..d]
        let delta_x_gate = vstd::slice::slice_subrange(delta_gate_in.as_slice(), 0, d);
        let delta_h_gate = vstd::slice::slice_subrange(delta_gate_in.as_slice(), d, 2 * d);
        assert(delta_x_gate@ =~= delta_gate_in@.take(d as int));
        assert(delta_h_gate@ =~= delta_gate_in@.skip(d as int));
        let mut delta_x = copied(delta_x_gate);
        vec_add::<A>(delta_x.as_mut_slice(), delta_x_cand);
        add_to_row::<A>(
            grads.grad_embeddings.as_mut_slice(),
            Ghost(v as nat),
            token,
            delta_x.as_slice(),
        );
        // 6. delta_h for previous step t-1 (BPTT recurrent step)
        previous_delta::<A>(delta_h.as_slice(), z_t, delta_h_gate, delta_rh, r_t)
    }
}

} // verus!
