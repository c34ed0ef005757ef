//! The gradients of the GRU are the derivatives of its loss.

use vstd::prelude::*;
use crate::activations::sigmoid_of;
use crate::arith::{Arith, one, s_minus, s_plus, s_tanh, s_times};
use crate::derivatives::{
    counts, cross_entropy_gradients_are_derivatives, sigmoid_gradients_are_derivatives,
};
use crate::exact::{
    exact, lemma_commutes, lemma_distributes, lemma_neutral, lemma_regroups, lemma_total_plus,
    lemma_total_zero,
};
use crate::gru::{
    GruBack, GruModel, GruTrace, GruValues, delta_h_of, delta_raw_cand_of, delta_raw_r_of,
    delta_raw_z_of, gated, multiplied, no_gru_grads, tanh_all,
};
use crate::layer::sigmoid_all;
use crate::matvec::{lemma_rows_added_len, matvec_of, matvec_transposed_of, summed};
use crate::slopes::Calculus;
use crate::softmax::{cross_entropy_grad_of, cross_entropy_of, softmax_of};
use crate::tensor::{lemma_row_bounds, row_of, zeros};

verus! {

impl<A: Arith> GruModel<A> {
    /// The sum of all gradients times the slopes of their weights.
    pub open spec fn along(&self, c: Calculus<A>, g: GruValues<A::T>) -> real {
        c.along(g.embeddings, self.embeddings@) + c.along(g.gate, self.w_gate@) + c.along(
            g.cand,
            self.w_cand@,
        ) + c.along(g.head, self.w_head@)
    }

    /// Through the mix of the old state and the candidate: the gradient at the new state reaches
    /// the update gate, the candidate and the old state.
    proof fn lemma_mix(
        &self,
        c: Calculus<A>,
        delta_h: Seq<A::T>,
        raw_z: Seq<A::T>,
        raw_cand: Seq<A::T>,
        h_prev: Seq<A::T>,
        direct: Seq<A::T>,
    )
        requires
            c.holds(),
            delta_h.len() == h_prev.len(),
            raw_z.len() == h_prev.len(),
            raw_cand.len() == h_prev.len(),
            direct == Seq::new(
                h_prev.len(),
                |i: int|
                    s_times::<A>(
                        delta_h[i],
                        s_minus::<A>(one::<A>(), sigmoid_all::<A>(raw_z)[i]),
                    ),
            ),
        ensures
            ({
                let z = sigmoid_all::<A>(raw_z);
                let cand = tanh_all::<A>(raw_cand);
                c.along(delta_h, gated::<A>(z, h_prev, cand)) == c.along(
                    delta_raw_z_of::<A>(delta_h, z, cand, h_prev),
                    raw_z,
                ) + c.along(delta_raw_cand_of::<A>(delta_h, z, cand), raw_cand) + c.along(
                    direct,
                    h_prev,
                )
            }),
    {
        c.lemma_exact();
        let num = c.num;
        let slope = c.slope;
        let n = h_prev.len();
        let z = sigmoid_all::<A>(raw_z);
        let cand = tanh_all::<A>(raw_cand);
        let h = gated::<A>(z, h_prev, cand);
        let dz = delta_raw_z_of::<A>(delta_h, z, cand, h_prev);
        let dc = delta_raw_cand_of::<A>(delta_h, z, cand);
        let whole = |i: int| num(delta_h[i]) * slope(h[i]);
        let f = |i: int| num(dz[i]) * slope(raw_z[i]);
        let g = |i: int| num(dc[i]) * slope(raw_cand[i]);
        let k = |i: int| num(direct[i]) * slope(h_prev[i]);
        let fg = |i: int| f(i) + g(i);
        assert forall|i: int| 0 <= i < n implies #[trigger] whole(i) == fg(i) + k(i) by {
            sigmoid_gradients_are_derivatives::<A>(
                c,
                raw_z[i],
                s_times::<A>(delta_h[i], s_minus::<A>(cand[i], h_prev[i])),
            );
            reveal(Calculus::holds);
            reveal(exact);
            assert(z[i] == sigmoid_of::<A>(raw_z[i]));
            assert(cand[i] == s_tanh::<A>(raw_cand[i]));
            let (d, zi, ci, p) = (num(delta_h[i]), num(z[i]), num(cand[i]), num(h_prev[i]));
            let (sz, sc, sp, rz, rc) = (
                slope(z[i]),
                slope(cand[i]),
                slope(h_prev[i]),
                slope(raw_z[i]),
                slope(raw_cand[i]),
            );
            assert(slope(h[i]) == ((0real - sz) * p + (1real - zi) * sp) + (sz * ci + zi * sc));
            assert((d * (ci - p)) * sz == num(dz[i]) * rz);
            let q = 1real - ci * ci;
            assert(sc == q * rc);
            assert(num(dc[i]) == (d * zi) * q);
            lemma_mix_terms(d, zi, ci, p, sz, sc, sp, rc, q);
        }
        lemma_total_plus(n, f, g, fg);
        lemma_total_plus(n, fg, k, whole);
    }

    /// Through the reset of the old state: the gradient at it reaches the reset gate and the old
    /// state.
    proof fn lemma_reset(
        &self,
        c: Calculus<A>,
        delta_rh: Seq<A::T>,
        raw_r: Seq<A::T>,
        h_prev: Seq<A::T>,
        direct: Seq<A::T>,
    )
        requires
            c.holds(),
            delta_rh.len() == h_prev.len(),
            raw_r.len() == h_prev.len(),
            direct == Seq::new(
                h_prev.len(),
                |i: int| s_times::<A>(delta_rh[i], sigmoid_all::<A>(raw_r)[i]),
            ),
        ensures
            ({
                let r = sigmoid_all::<A>(raw_r);
                c.along(delta_rh, multiplied::<A>(r, h_prev)) == c.along(
                    delta_raw_r_of::<A>(delta_rh, h_prev, r),
                    raw_r,
                ) + c.along(direct, h_prev)
            }),
    {
        c.lemma_exact();
        let num = c.num;
        let slope = c.slope;
        let n = h_prev.len();
        let r = sigmoid_all::<A>(raw_r);
        let rh = multiplied::<A>(r, h_prev);
        let dr = delta_raw_r_of::<A>(delta_rh, h_prev, r);
        let whole = |i: int| num(delta_rh[i]) * slope(rh[i]);
        let f = |i: int| num(dr[i]) * slope(raw_r[i]);
        let k = |i: int| num(direct[i]) * slope(h_prev[i]);
        assert forall|i: int| 0 <= i < n implies #[trigger] whole(i) == f(i) + k(i) by {
            sigmoid_gradients_are_derivatives::<A>(
                c,
                raw_r[i],
                s_times::<A>(delta_rh[i], h_prev[i]),
            );
            reveal(Calculus::holds);
            reveal(exact);
            assert(r[i] == sigmoid_of::<A>(raw_r[i]));
            let (d, ri, p) = (num(delta_rh[i]), num(r[i]), num(h_prev[i]));
            let (sr, sp) = (slope(r[i]), slope(h_prev[i]));
            assert(slope(rh[i]) == sr * p + ri * sp);
            lemma_distributes(d, sr * p, ri * sp);
            lemma_regroups(d, sr, p);
            lemma_regroups(d, p, sr);
            lemma_regroups(d, ri, sp);
        }
        lemma_total_plus(n, f, k, whole);
    }

    /// The gradients of a step, for any gradients at its logits and at its state, are its
    /// derivatives: what moves the state and the logits is what its weights and the state before
    /// it move.
    #[verifier::rlimit(40)]
    #[verifier::spinoff_prover]
    pub(crate) proof fn lemma_step_derivatives(
        &self,
        c: Calculus<A>,
        token: int,
        h_prev: Seq<A::T>,
        pred_grad: Seq<A::T>,
        later: GruBack<A::T>,
    )
        requires
            c.holds(),
            self.wf(),
            0 <= token < self.vocab_size,
            h_prev.len() == self.d_model,
            pred_grad.len() == self.vocab_size,
            later.delta_h.len() == self.d_model,
            later.grads.fits(self.vocab_size as nat, self.d_model as nat),
        ensures
            ({
                let step = self.step_of(token, h_prev);
                let trace = GruTrace {
                    h_prev,
                    h_curr: step.h,
                    rz: step.rz,
                    cand: step.cand,
                    cand_in: step.cand_in,
                    pred_grad,
                };
                let b = self.back_step(token, trace, later);
                &&& c.along(later.delta_h, step.h) + c.along(pred_grad, step.logits)
                    == self.along(c, b.grads) - self.along(c, later.grads) + c.along(
                    b.delta_h,
                    h_prev,
                )
                &&& b.grads.fits(self.vocab_size as nat, self.d_model as nat)
                &&& b.delta_h.len() == self.d_model
            }),
    {
        let (v, d) = (self.vocab_size as nat, self.d_model as nat);
        let step = self.step_of(token, h_prev);
        let g = later.grads;
        lemma_row_bounds(v, d, token);
        let x = row_of(self.embeddings@, d, token);
        // the forward pass
        let gate_in = x + h_prev;
        let raw = matvec_of::<A>(self.w_gate@, 2 * d, gate_in);
        let (raw_r, raw_z) = (raw.take(d as int), raw.skip(d as int));
        let r = step.rz.take(d as int);
        let z = step.rz.skip(d as int);
        assert(r =~= sigmoid_all::<A>(raw_r));
        assert(z =~= sigmoid_all::<A>(raw_z));
        let rh = multiplied::<A>(r, h_prev);
        let cand_in = x + rh;
        let raw_cand = matvec_of::<A>(self.w_cand@, d, cand_in);
        // the logits
        let from_head = matvec_transposed_of::<A>(self.w_head@, d, pred_grad);
        lemma_rows_added_len::<A>(zeros::<A>(d), self.w_head@, pred_grad, v);
        c.lemma_linear(self.w_head@, pred_grad, step.h);
        c.lemma_along_outer(g.head, self.w_head@, pred_grad, step.h, one::<A>());
        let delta_h = summed::<A>(later.delta_h, from_head);
        c.lemma_along_summed(later.delta_h, from_head, step.h);
        // the state
        let keeps = Seq::new(
            d,
            |i: int|
                s_times::<A>(
                    delta_h[i],
                    s_minus::<A>(one::<A>(), sigmoid_all::<A>(raw_z)[i]),
                ),
        );
        self.lemma_mix(c, delta_h, raw_z, raw_cand, h_prev, keeps);
        let delta_raw_z = delta_raw_z_of::<A>(delta_h, z, step.cand, h_prev);
        // the candidate
        let delta_raw_cand = delta_raw_cand_of::<A>(delta_h, z, step.cand);
        let delta_cand_in = matvec_transposed_of::<A>(self.w_cand@, 2 * d, delta_raw_cand);
        lemma_rows_added_len::<A>(zeros::<A>(2 * d), self.w_cand@, delta_raw_cand, d);
        c.lemma_linear(self.w_cand@, delta_raw_cand, cand_in);
        c.lemma_along_outer(g.cand, self.w_cand@, delta_raw_cand, cand_in, one::<A>());
        c.lemma_along_both(delta_cand_in, x, rh);
        let delta_rh = delta_cand_in.skip(d as int);
        let resets = Seq::new(
            d,
            |i: int| s_times::<A>(delta_rh[i], sigmoid_all::<A>(raw_r)[i]),
        );
        self.lemma_reset(c, delta_rh, raw_r, h_prev, resets);
        let delta_raw_r = delta_raw_r_of::<A>(delta_rh, h_prev, r);
        // the gates
        let delta_raw_gate = delta_raw_r + delta_raw_z;
        assert((2 * d) * (2 * d) == delta_raw_gate.len() * gate_in.len());
        assert(raw =~= raw_r + raw_z);
        c.lemma_along_both(delta_raw_gate, raw_r, raw_z);
        assert(delta_raw_gate.take(d as int) =~= delta_raw_r);
        assert(delta_raw_gate.skip(d as int) =~= delta_raw_z);
        let delta_gate_in = matvec_transposed_of::<A>(self.w_gate@, 2 * d, delta_raw_gate);
        lemma_rows_added_len::<A>(zeros::<A>(2 * d), self.w_gate@, delta_raw_gate, 2 * d);
        c.lemma_linear(self.w_gate@, delta_raw_gate, gate_in);
        c.lemma_along_outer(g.gate, self.w_gate@, delta_raw_gate, gate_in, one::<A>());
        c.lemma_along_both(delta_gate_in, x, h_prev);
        // the embedding
        let (ga, ca) = (delta_gate_in.take(d as int), delta_cand_in.take(d as int));
        let delta_x = summed::<A>(ga, ca);
        c.lemma_along_summed(ga, ca, x);
        c.lemma_along_row(g.embeddings, self.embeddings@, v, d, token, delta_x);
        // the state before
        let gs = delta_gate_in.skip(d as int);
        let before = delta_h_of::<A>(delta_h, z, gs, delta_rh, r);
        assert(before =~= summed::<A>(summed::<A>(keeps, gs), resets));
        c.lemma_along_summed(summed::<A>(keeps, gs), resets, h_prev);
        c.lemma_along_summed(keeps, gs, h_prev);
        c.lemma_exact();
        lemma_neutral(c.weights_move(self.w_head@, pred_grad, step.h));
        lemma_neutral(c.weights_move(self.w_cand@, delta_raw_cand, cand_in));
        lemma_neutral(c.weights_move(self.w_gate@, delta_raw_gate, gate_in));
    }
}

/// The terms of the slope of a mixed state.
proof fn lemma_mix_terms(
    d: real,
    z: real,
    c: real,
    p: real,
    sz: real,
    sc: real,
    sp: real,
    rc: real,
    q: real,
)
    requires
        sc == q * rc,
    ensures
        d * (((0real - sz) * p + (1real - z) * sp) + (sz * c + z * sc)) == (d * (c - p)) * sz + ((d
            * z) * q) * rc + (d * (1real - z)) * sp,
{
    let (a, b, e, f) = ((0real - sz) * p, (1real - z) * sp, sz * c, z * sc);
    lemma_distributes(d, a + b, e + f);
    lemma_distributes(d, a, b);
    lemma_distributes(d, e, f);
    // the update gate
    lemma_commutes(0real - sz, p);
    lemma_distributes(p, 0real, sz);
    lemma_neutral(p);
    lemma_commutes(p, sz);
    assert(a == 0real - sz * p);
    lemma_distributes(d, 0real, sz * p);
    lemma_neutral(d);
    lemma_distributes(d, c, p);
    lemma_commutes(d * (c - p), sz);
    lemma_distributes(sz, d * c, d * p);
    lemma_commutes(sz, d * c);
    lemma_commutes(sz, d * p);
    lemma_regroups(d, sz, c);
    lemma_regroups(d, sz, p);
    lemma_regroups(d, c, sz);
    lemma_regroups(d, p, sz);
    assert(d * a + d * e == (d * (c - p)) * sz);
    // the state that is kept
    lemma_regroups(d, 1real - z, sp);
    // the candidate
    lemma_regroups(d, z, sc);
    lemma_regroups(d * z, q, rc);
}

impl<A: Arith> GruModel<A> {
    /// The hidden states are as long as the model is wide.
    proof fn lemma_hidden_len(&self, x: Seq<usize>, t: nat)
        ensures
            self.hidden(x, t).len() == self.d_model,
        decreases t,
    {
        if t > 0 {
            self.lemma_hidden_len(x, (t - 1) as nat);
        }
    }

    /// What the backward pass down to token `t` has gathered is the slope of the losses from there
    /// on, but for what the state before token `t` still moves.
    proof fn lemma_back_derivatives(
        &self,
        c: Calculus<A>,
        x: Seq<usize>,
        y: Seq<usize>,
        g: GruValues<A::T>,
        t: int,
    )
        requires
            c.holds(),
            self.wf(),
            g.fits(self.vocab_size as nat, self.d_model as nat),
            forall|q: int| 0 <= q < x.len() ==> #[trigger] x[q] < self.vocab_size,
            forall|q: int| 0 <= q < x.len() ==> #[trigger] y[q] < self.vocab_size,
            forall|q: int|
                0 <= q < x.len() ==> counts(
                    c,
                    softmax_of::<A>(#[trigger] self.step_at(x, q).logits)[y[q] as int],
                ),
            0 <= t <= x.len(),
        ensures
            ({
                let b = self.back(x, |q: int| self.trace_of(x, y, q), g, t);
                &&& (c.slope)(self.loss_of(x, y, x.len())) - (c.slope)(
                    self.loss_of(x, y, t as nat),
                ) == self.along(c, b.grads) - self.along(c, g) + c.along(
                    b.delta_h,
                    self.hidden(x, t as nat),
                )
                &&& b.grads.fits(self.vocab_size as nat, self.d_model as nat)
                &&& b.delta_h.len() == self.d_model
            }),
        decreases x.len() - t,
    {
        let trace = |q: int| self.trace_of(x, y, q);
        let h = self.hidden(x, t as nat);
        self.lemma_hidden_len(x, t as nat);
        c.lemma_exact();
        if t == x.len() {
            c.lemma_along_nothing(h);
        } else {
            self.lemma_back_derivatives(c, x, y, g, t + 1);
            let later = self.back(x, trace, g, t + 1);
            let step = self.step_at(x, t);
            assert(x[t] < self.vocab_size && y[t] < self.vocab_size);
            assert(counts(c, softmax_of::<A>(step.logits)[y[t] as int]));
            cross_entropy_gradients_are_derivatives::<A>(c, step.logits, y[t] as int);
            let pred_grad = cross_entropy_grad_of::<A>(step.logits, y[t] as int);
            self.lemma_step_derivatives(c, x[t] as int, h, pred_grad, later);
            assert(self.hidden(x, (t + 1) as nat) == step.h);
            assert(self.back(x, trace, g, t) == self.back_step(x[t] as int, trace(t), later));
            let loss = cross_entropy_of::<A>(step.logits, y[t] as int);
            assert(self.loss_of(x, y, (t + 1) as nat) == s_plus::<A>(
                self.loss_of(x, y, t as nat),
                loss,
            ));
            assert((c.slope)(self.loss_of(x, y, (t + 1) as nat)) == (c.slope)(
                self.loss_of(x, y, t as nat),
            ) + (c.slope)(loss)) by {
                reveal(Calculus::holds);
            }
        }
    }
}

/// The gradients of the GRU are the derivatives of its loss: along any direction in which its
/// weights move, the slope of the loss of a sequence is the sum of the gradients that the sequence
/// adds, each times the slope of its weight. Targets whose probability is cut off at 1e-12 are left
/// out.
pub proof fn gru_gradients_are_derivatives<A: Arith>(
    c: Calculus<A>,
    model: GruModel<A>,
    x: Seq<usize>,
    y: Seq<usize>,
    g: GruValues<A::T>,
)
    requires
        c.holds(),
        model.wf(),
        g.fits(model.vocab_size as nat, model.d_model as nat),
        forall|q: int| 0 <= q < x.len() ==> #[trigger] x[q] < model.vocab_size,
        forall|q: int| 0 <= q < x.len() ==> #[trigger] y[q] < model.vocab_size,
        forall|q: int|
            0 <= q < x.len() ==> counts(
                c,
                softmax_of::<A>(#[trigger] model.step_at(x, q).logits)[y[q] as int],
            ),
    ensures
        (c.slope)(model.loss_of(x, y, x.len())) == model.along(
            c,
            model.back(x, |q: int| model.trace_of(x, y, q), g, 0).grads,
        ) - model.along(c, g),
        (c.slope)(model.loss_of(x, y, x.len())) == model.along(c, model.grads_of(x, y)),
{
    let (v, d) = (model.vocab_size as nat, model.d_model as nat);
    let none = no_gru_grads::<A>(v, d);
    model.lemma_back_derivatives(c, x, y, g, 0);
    model.lemma_back_derivatives(c, x, y, none, 0);
    c.lemma_exact();
    let start = model.hidden(x, 0);
    lemma_still_inputs(c, model.back(x, |q: int| model.trace_of(x, y, q), g, 0).delta_h, start);
    lemma_still_inputs(c, model.back(x, |q: int| model.trace_of(x, y, q), none, 0).delta_h, start);
    c.lemma_along_nothing(model.embeddings@);
    c.lemma_along_nothing(model.w_gate@);
    c.lemma_along_nothing(model.w_cand@);
    c.lemma_along_nothing(model.w_head@);
}

/// What does not move.
pub(crate) proof fn lemma_still_inputs<A: Arith>(c: Calculus<A>, g: Seq<A::T>, w: Seq<A::T>)
    requires
        forall|i: int| 0 <= i < w.len() ==> (c.slope)(#[trigger] w[i]) == 0real,
    ensures
        c.along(g, w) == 0real,
{
    let f = |i: int| (c.num)(g[i]) * (c.slope)(w[i]);
    assert forall|i: int| 0 <= i < w.len() implies #[trigger] f(i) == 0real by {
        assert((c.slope)(w[i]) == 0real);
        lemma_neutral((c.num)(g[i]));
    }
    lemma_total_zero(w.len(), f);
}

} // verus!
