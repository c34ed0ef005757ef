//! Multi-threaded CPU batch training for GRU baseline model.

use vstd::prelude::*;
use crate::arith::{Arith, lawful, s_lit, s_plus, s_times, zero};
use crate::dataset::{
    is_batch_row, sample_windows, windows_from_seed, windows_lie_in_the_data,
};
use crate::gru::{GruGrads, GruModel, GruTrace, GruValues, gru_trace, no_gru_grads};
use crate::layer::zero_vec;
use crate::optimizer::{
    AdamStep, AdamWConfig, add_squares, adam_ms, adam_ps, adam_step_of, adam_vs, lemma_next_part,
    make_step, norm_of, update_slices,
};
use crate::parallel::par_map;
use crate::rng::seeded;
use crate::softmax::cross_entropy_grad_of;
use crate::tensor::{row_of, zeros};
use crate::trainer::{batch_scale, is_sequence, lr_of, mean_and_bpc, scheduled_lr, summarize};

verus! {

/// AdamW optimizer for GRU Baseline.
pub struct GruAdamW<A: Arith> {
    pub lr: A::T,
    pub beta1: A::T,
    pub beta2: A::T,
    pub eps: A::T,
    pub weight_decay: A::T,
    pub max_grad_norm: A::T,
    pub step: usize,
    pub m_embed: Vec<A::T>,
    pub v_embed: Vec<A::T>,
    pub m_gate: Vec<A::T>,
    pub v_gate: Vec<A::T>,
    pub m_cand: Vec<A::T>,
    pub v_cand: Vec<A::T>,
    pub m_head: Vec<A::T>,
    pub v_head: Vec<A::T>,
}

/// The parts of the gradients, in the order in which their squares are added.
pub open spec fn gru_parts<T>(g: GruValues<T>) -> Seq<Seq<T>> {
    seq![g.embeddings, g.gate, g.cand, g.head]
}

impl<A: Arith> GruAdamW<A> {
    /// The settings of the optimizer.
    pub open spec fn config(&self) -> AdamWConfig<A> {
        AdamWConfig {
            lr: self.lr,
            beta1: self.beta1,
            beta2: self.beta2,
            eps: self.eps,
            weight_decay: self.weight_decay,
            max_grad_norm: self.max_grad_norm,
        }
    }

    /// The first moments.
    pub open spec fn first(&self) -> GruValues<A::T> {
        GruValues {
            embeddings: self.m_embed@,
            gate: self.m_gate@,
            cand: self.m_cand@,
            head: self.m_head@,
        }
    }

    /// The second moments.
    pub open spec fn second(&self) -> GruValues<A::T> {
        GruValues {
            embeddings: self.v_embed@,
            gate: self.v_gate@,
            cand: self.v_cand@,
            head: self.v_head@,
        }
    }

    /// The moments are those of the parameters of this model.
    pub open spec fn fits(&self, model: GruModel<A>) -> bool {
        &&& self.first().same_sizes(model.values())
        &&& self.second().same_sizes(model.values())
    }

    /// What a step with these gradients makes of the optimizer and the model.
    pub open spec fn takes_to(
        &self,
        model: GruModel<A>,
        g: GruValues<A::T>,
        current_lr: A::T,
        next: GruAdamW<A>,
        next_model: GruModel<A>,
    ) -> bool {
        let s = adam_step_of::<A>(
            self.config(),
            norm_of::<A>(gru_parts(g)),
            (self.step + 1) as usize,
            current_lr,
        );
        &&& next.config() == self.config()
        &&& next.step == self.step + 1
        &&& next.first() == self.first().first_moved::<A>(s, g)
        &&& next.second() == self.second().second_moved::<A>(s, g)
        &&& next_model.values() == model.values().stepped::<A>(s, g, self.first(), self.second())
        &&& next_model.vocab_size == model.vocab_size
        &&& next_model.d_model == model.d_model
    }

    pub fn new(model: &GruModel<A>, lr: A::T) -> (opt: Self)
        requires
            lawful::<A>(),
        ensures
            opt.config().lr == lr,
            opt.config().is_usual(),
            opt.step == 0,
            opt.fits(*model),
            opt.first() == model.values().cleared::<A>(),
            opt.second() == model.values().cleared::<A>(),
    {
        Self {
            lr,
            beta1: A::lit(9, 1),
            beta2: A::lit(999, 3),
            eps: A::lit(1, 8),
            weight_decay: A::lit(1, 2),
            max_grad_norm: A::lit(1, 0),
            step: 0,
            m_embed: zero_vec::<A>(model.embeddings.len()),
            v_embed: zero_vec::<A>(model.embeddings.len()),
            m_gate: zero_vec::<A>(model.w_gate.len()),
            v_gate: zero_vec::<A>(model.w_gate.len()),
            m_cand: zero_vec::<A>(model.w_cand.len()),
            v_cand: zero_vec::<A>(model.w_cand.len()),
            m_head: zero_vec::<A>(model.w_head.len()),
            v_head: zero_vec::<A>(model.w_head.len()),
        }
    }

    pub fn compute_grad_norm(&self, grads: &GruGrads<A>) -> (norm: A::T)
        requires
            lawful::<A>(),
        ensures
            norm == norm_of::<A>(gru_parts(grads@)),
    {
        let ghost none: Seq<Seq<A::T>> = Seq::empty();
        let ghost g = grads@;
        let mut sum = add_squares::<A>(A::lit(0, 0), grads.grad_embeddings.as_slice());
        sum = add_squares::<A>(sum, grads.grad_w_gate.as_slice());
        sum = add_squares::<A>(sum, grads.grad_w_cand.as_slice());
        sum = add_squares::<A>(sum, grads.grad_w_head.as_slice());
        proof {
            lemma_next_part::<A>(none, g.embeddings);
            lemma_next_part::<A>(none.push(g.embeddings), g.gate);
            lemma_next_part::<A>(none.push(g.embeddings).push(g.gate), g.cand);
            lemma_next_part::<A>(none.push(g.embeddings).push(g.gate).push(g.cand), g.head);
            assert(none.push(g.embeddings).push(g.gate).push(g.cand).push(g.head) =~= gru_parts(g));
        }
        A::sqrt(sum)
    }

    pub fn step(&mut self, model: &mut GruModel<A>, grads: &mut GruGrads<A>, current_lr: A::T)
        requires
            lawful::<A>(),
            old(model).wf(),
            old(self).fits(*old(model)),
            old(self).step < usize::MAX,
            old(grads)@.same_sizes(old(model).values()),
        ensures
            old(self).takes_to(*old(model), old(grads)@, current_lr, *final(self), *final(model)),
            final(self).fits(*final(model)),
            final(model).wf(),
            *final(grads) == *old(grads),
    {
        self.step = self.step + 1;
        let norm = self.compute_grad_norm(grads);
        let config = AdamWConfig {
            lr: self.lr,
            beta1: self.beta1,
            beta2: self.beta2,
            eps: self.eps,
            weight_decay: self.weight_decay,
            max_grad_norm: self.max_grad_norm,
        };
        let s = make_step::<A>(&config, norm, self.step, current_lr);
        update_slices::<A>(
            &s,
            model.embeddings.as_mut_slice(),
            grads.grad_embeddings.as_slice(),
            self.m_embed.as_mut_slice(),
            self.v_embed.as_mut_slice(),
        );
        update_slices::<A>(
            &s,
            model.w_gate.as_mut_slice(),
            grads.grad_w_gate.as_slice(),
            self.m_gate.as_mut_slice(),
            self.v_gate.as_mut_slice(),
        );
        update_slices::<A>(
            &s,
            model.w_cand.as_mut_slice(),
            grads.grad_w_cand.as_slice(),
            self.m_cand.as_mut_slice(),
            self.v_cand.as_mut_slice(),
        );
        update_slices::<A>(
            &s,
            model.w_head.as_mut_slice(),
            grads.grad_w_head.as_slice(),
            self.m_head.as_mut_slice(),
            self.v_head.as_mut_slice(),
        );
    }
}

impl<T> GruValues<T> {
    /// Zeros in place of all values.
    pub open spec fn cleared<A: Arith<T = T>>(&self) -> GruValues<T> {
        GruValues {
            embeddings: zeros::<A>(self.embeddings.len()),
            gate: zeros::<A>(self.gate.len()),
            cand: zeros::<A>(self.cand.len()),
            head: zeros::<A>(self.head.len()),
        }
    }

    /// First moments after a step with gradients `g`.
    pub open spec fn first_moved<A: Arith<T = T>>(
        &self,
        s: AdamStep<T>,
        g: GruValues<T>,
    ) -> GruValues<T> {
        GruValues {
            embeddings: adam_ms::<A>(s, g.embeddings, self.embeddings),
            gate: adam_ms::<A>(s, g.gate, self.gate),
            cand: adam_ms::<A>(s, g.cand, self.cand),
            head: adam_ms::<A>(s, g.head, self.head),
        }
    }

    /// Second moments after a step with gradients `g`.
    pub open spec fn second_moved<A: Arith<T = T>>(
        &self,
        s: AdamStep<T>,
        g: GruValues<T>,
    ) -> GruValues<T> {
        GruValues {
            embeddings: adam_vs::<A>(s, g.embeddings, self.embeddings),
            gate: adam_vs::<A>(s, g.gate, self.gate),
            cand: adam_vs::<A>(s, g.cand, self.cand),
            head: adam_vs::<A>(s, g.head, self.head),
        }
    }

    /// Parameters after a step with gradients `g` and moments `m` and `v` before it.
    pub open spec fn stepped<A: Arith<T = T>>(
        &self,
        s: AdamStep<T>,
        g: GruValues<T>,
        m: GruValues<T>,
        v: GruValues<T>,
    ) -> GruValues<T> {
        GruValues {
            embeddings: adam_ps::<A>(s, self.embeddings, g.embeddings, m.embeddings, v.embeddings),
            gate: adam_ps::<A>(s, self.gate, g.gate, m.gate, v.gate),
            cand: adam_ps::<A>(s, self.cand, g.cand, m.cand, v.cand),
            head: adam_ps::<A>(s, self.head, g.head, m.head, v.head),
        }
    }
}

impl<A: Arith> GruModel<A> {
    /// The parameters.
    pub open spec fn values(&self) -> GruValues<A::T> {
        GruValues {
            embeddings: self.embeddings@,
            gate: self.w_gate@,
            cand: self.w_cand@,
            head: self.w_head@,
        }
    }

    /// There is room for the activations of sequences of this length.
    pub open spec fn can_train(&self, seq_len: nat) -> bool {
        &&& self.wf()
        &&& (seq_len + 1) * self.d_model <= usize::MAX
        &&& seq_len * (2 * self.d_model) <= usize::MAX
        &&& seq_len * self.vocab_size <= usize::MAX
        &&& seq_len < usize::MAX
    }

    /// What the backward pass needs of step `t` of the forward pass over a sequence.
    pub open spec fn trace_of(&self, x: Seq<usize>, y: Seq<usize>, t: int) -> GruTrace<A::T> {
        let step = self.step_at(x, t);
        GruTrace {
            h_prev: self.hidden(x, t as nat),
            h_curr: self.hidden(x, (t + 1) as nat),
            rz: step.rz,
            cand: step.cand,
            cand_in: step.cand_in,
            pred_grad: cross_entropy_grad_of::<A>(step.logits, y[t] as int),
        }
    }

    /// The gradients of the loss of a sequence.
    pub open spec fn grads_of(&self, x: Seq<usize>, y: Seq<usize>) -> GruValues<A::T> {
        self.back(
            x,
            |t: int| self.trace_of(x, y, t),
            no_gru_grads::<A>(self.vocab_size as nat, self.d_model as nat),
            0,
        ).grads
    }

    /// The gradients of the first `n` sequences, added in order.
    pub open spec fn grads_summed(
        &self,
        xs: Seq<Vec<usize>>,
        ys: Seq<Vec<usize>>,
        n: nat,
    ) -> GruValues<A::T>
        decreases n,
    {
        if n == 0 {
            no_gru_grads::<A>(self.vocab_size as nat, self.d_model as nat)
        } else {
            self.grads_summed(xs, ys, (n - 1) as nat).plus::<A>(
                self.grads_of(xs[n - 1]@, ys[n - 1]@),
            )
        }
    }

    /// The losses of the first `n` sequences, added in order.
    pub open spec fn losses_summed(
        &self,
        xs: Seq<Vec<usize>>,
        ys: Seq<Vec<usize>>,
        n: nat,
    ) -> A::T
        decreases n,
    {
        if n == 0 {
            zero::<A>()
        } else {
            s_plus::<A>(
                self.losses_summed(xs, ys, (n - 1) as nat),
                self.loss_of(xs[n - 1]@, ys[n - 1]@, xs[n - 1]@.len()),
            )
        }
    }

    /// The backward pass depends on the traces of the steps of the sequence alone.
    proof fn lemma_back(
        &self,
        x: Seq<usize>,
        a: spec_fn(int) -> GruTrace<A::T>,
        b: spec_fn(int) -> GruTrace<A::T>,
        grads: GruValues<A::T>,
        t: int,
    )
        requires
            0 <= t <= x.len(),
            forall|q: int| 0 <= q < x.len() ==> #[trigger] a(q) == b(q),
        ensures
            self.back(x, a, grads, t) == self.back(x, b, grads, t),
        decreases x.len() - t,
    {
        if t < x.len() {
            self.lemma_back(x, a, b, grads, t + 1);
            assert(a(t) == b(t));
        }
    }

    /// A sequence of the batch can be trained on.
    pub open spec fn trainable(&self, x: Seq<usize>, y: Seq<usize>, seq_len: usize) -> bool {
        &&& is_sequence(x, y, self.vocab_size as nat)
        &&& x.len() <= seq_len
    }

    /// There is a sequence `i` in the batch, and it can be trained on.
    pub open spec fn batch_ready(
        &self,
        xs: Seq<Vec<usize>>,
        ys: Seq<Vec<usize>>,
        seq_len: usize,
        i: usize,
    ) -> bool {
        &&& i < xs.len()
        &&& i < ys.len()
        &&& lawful::<A>()
        &&& self.can_train(seq_len as nat)
        &&& self.trainable(xs[i as int]@, ys[i as int]@, seq_len)
    }

    /// The loss of a sequence and its gradients.
    pub open spec fn sequence_done(
        &self,
        x: Seq<usize>,
        y: Seq<usize>,
        out: (A::T, GruGrads<A>),
    ) -> bool {
        &&& out.0 == self.loss_of(x, y, x.len())
        &&& out.1@ == self.grads_of(x, y)
        &&& out.1@.fits(self.vocab_size as nat, self.d_model as nat)
    }
}

/// Pre-allocated activations of sequences of one length.
struct GruCaches<A: Arith> {
    h: Vec<A::T>,
    rz: Vec<A::T>,
    cand: Vec<A::T>,
    cand_in: Vec<A::T>,
    logits: Vec<A::T>,
    probs: Vec<A::T>,
    pred_grad: Vec<A::T>,
}

impl<A: Arith> GruCaches<A> {
    spec fn fits(&self, model: GruModel<A>, seq_len: nat) -> bool {
        &&& self.h@.len() == (seq_len + 1) * model.d_model
        &&& self.rz@.len() == seq_len * (2 * model.d_model)
        &&& self.cand@.len() == seq_len * model.d_model
        &&& self.cand_in@.len() == seq_len * (2 * model.d_model)
        &&& self.logits@.len() == seq_len * model.vocab_size
        &&& self.probs@.len() == seq_len * model.vocab_size
        &&& self.pred_grad@.len() == seq_len * model.vocab_size
    }

    fn new(model: &GruModel<A>, seq_len: usize) -> (caches: Self)
        requires
            lawful::<A>(),
            model.can_train(seq_len as nat),
        ensures
            caches.fits(*model, seq_len as nat),
    {
        let d: usize = model.d_model;
        let v: usize = model.vocab_size;
        proof {
            assert(model.w_gate.len() == model.w_gate@.len());
            assert(2 * d <= (2 * d) * (2 * d) || d == 0) by (nonlinear_arith)
                requires
                    d >= 0,
            ;
            assert(seq_len * d <= (seq_len + 1) * d) by (nonlinear_arith);
        }
        Self {
            h: zero_vec::<A>((seq_len + 1) * d),
            rz: zero_vec::<A>(seq_len * (2 * d)),
            cand: zero_vec::<A>(seq_len * d),
            cand_in: zero_vec::<A>(seq_len * (2 * d)),
            logits: zero_vec::<A>(seq_len * v),
            probs: zero_vec::<A>(seq_len * v),
            pred_grad: zero_vec::<A>(seq_len * v),
        }
    }
}

/// Caches of sequences of one length have room for shorter ones.
proof fn lemma_room<A: Arith>(model: GruModel<A>, n: nat, seq_len: nat)
    requires
        n <= seq_len,
    ensures
        (n + 1) * model.d_model <= (seq_len + 1) * model.d_model,
        n * (2 * model.d_model) <= seq_len * (2 * model.d_model),
        n * model.d_model <= seq_len * model.d_model,
        n * model.vocab_size <= seq_len * model.vocab_size,
{
    let d = model.d_model as int;
    let v = model.vocab_size as int;
    assert((n + 1) * d <= (seq_len + 1) * d && n * (2 * d) <= seq_len * (2 * d) && n * d <= seq_len
        * d && n * v <= seq_len * v) by (nonlinear_arith)
        requires
            n <= seq_len,
            d >= 0,
            v >= 0,
    ;
}

/// Forward through a sequence, then backward: its loss and its gradients.
pub fn gru_sequence_gradients<A: Arith>(
    model: &GruModel<A>,
    x_seq: &[usize],
    y_seq: &[usize],
    seq_len: usize,
) -> (out: (A::T, GruGrads<A>))
    requires
        lawful::<A>(),
        model.can_train(seq_len as nat),
        model.trainable(x_seq@, y_seq@, seq_len),
    ensures
        model.sequence_done(x_seq@, y_seq@, out),
{
    let mut caches = GruCaches::new(model, seq_len);
    proof {
        lemma_room::<A>(*model, x_seq@.len(), seq_len as nat);
        assert(model.w_gate.len() == model.w_gate@.len());
        assert(model.embeddings.len() == model.embeddings@.len());
    }
    let loss = model.forward_sequence(
        x_seq,
        y_seq,
        caches.h.as_mut_slice(),
        caches.rz.as_mut_slice(),
        caches.cand.as_mut_slice(),
        caches.cand_in.as_mut_slice(),
        caches.logits.as_mut_slice(),
        caches.probs.as_mut_slice(),
        caches.pred_grad.as_mut_slice(),
    );
    let mut grads = GruGrads::new(model.vocab_size, model.d_model);
    let ghost none = grads@;
    model.backward_sequence(
        x_seq,
        caches.h.as_slice(),
        caches.rz.as_slice(),
        caches.cand.as_slice(),
        caches.cand_in.as_slice(),
        caches.pred_grad.as_slice(),
        &mut grads,
    );
    proof {
        let d = model.d_model as nat;
        let a = |t: int|
            gru_trace(
                d,
                model.vocab_size as nat,
                caches.h@,
                caches.rz@,
                caches.cand@,
                caches.cand_in@,
                caches.pred_grad@,
                t,
            );
        let b = |t: int| model.trace_of(x_seq@, y_seq@, t);
        assert forall|t: int| 0 <= t < x_seq@.len() implies #[trigger] a(t) == b(t) by {
            assert(row_of(caches.h@, d, t) == model.hidden(x_seq@, t as nat));
            assert(row_of(caches.h@, d, t + 1) == model.hidden(x_seq@, (t + 1) as nat));
        }
        model.lemma_back(x_seq@, a, b, none, 0);
    }
    (loss, grads)
}

/// The gradients of a batch: those of its sequences, computed in parallel, added in order and
/// scaled to the mean over its tokens. Also returns the sum of the losses.
pub fn gru_batch_gradients<A: Arith>(
    model: &GruModel<A>,
    batch_x: &[Vec<usize>],
    batch_y: &[Vec<usize>],
    seq_len: usize,
) -> (r: (A::T, GruGrads<A>))
    requires
        lawful::<A>(),
        model.can_train(seq_len as nat),
        batch_x@.len() == batch_y@.len(),
        batch_x@.len() * seq_len <= usize::MAX,
        forall|i: int|
            0 <= i < batch_x@.len() ==> model.trainable(
                #[trigger] batch_x@[i]@,
                batch_y@[i]@,
                seq_len,
            ),
    ensures
        r.0 == model.losses_summed(batch_x@, batch_y@, batch_x@.len()),
        r.1@ == model.grads_summed(batch_x@, batch_y@, batch_x@.len()).scaled::<A>(
            batch_scale::<A>(batch_x.len(), seq_len),
        ),
        r.1@.fits(model.vocab_size as nat, model.d_model as nat),
{
    let n: usize = batch_x.len();
    let results = par_map(
        n,
        |i: usize| -> (out: (A::T, GruGrads<A>))
            requires
                model.batch_ready(batch_x@, batch_y@, seq_len, i),
            ensures
                model.sequence_done(batch_x@[i as int]@, batch_y@[i as int]@, out)
            {
                gru_sequence_gradients(
                    model,
                    batch_x[i].as_slice(),
                    batch_y[i].as_slice(),
                    seq_len,
                )
            },
    );
    assert forall|j: int| 0 <= j < n implies model.sequence_done(
        batch_x@[j]@,
        batch_y@[j]@,
        #[trigger] results@[j],
    ) by {
        let i = j as usize;
        assert(results@[i as int] == results@[j]);
    }
    proof {
        assert(model.w_gate.len() == model.w_gate@.len());
        assert(model.embeddings.len() == model.embeddings@.len());
    }
    let mut total_grads = GruGrads::new(model.vocab_size, model.d_model);
    let mut total_loss = A::lit(0, 0);
    let mut i: usize = 0;
    while i < n
        invariant
            lawful::<A>(),
            i <= n,
            results@.len() == n,
            n == batch_x@.len(),
            forall|j: int|
                0 <= j < n ==> model.sequence_done(
                    batch_x@[j]@,
                    batch_y@[j]@,
                    #[trigger] results@[j],
                ),
            total_grads@.fits(model.vocab_size as nat, model.d_model as nat),
            total_grads@ == model.grads_summed(batch_x@, batch_y@, i as nat),
            total_loss == model.losses_summed(batch_x@, batch_y@, i as nat),
        decreases n - i,
    {
        assert(model.sequence_done(
            batch_x@[i as int]@,
            batch_y@[i as int]@,
            results@[i as int],
        ));
        total_loss = A::plus(total_loss, results[i].0);
        total_grads.add(&results[i].1);
        i += 1;
    }
    let scale = A::over(A::lit(1, 0), A::count(n * seq_len));
    total_grads.scale(scale);
    (total_loss, total_grads)
}

/// Learning rate of a step of the baselines: warmup over 100 steps, then cosine decay.
pub open spec fn baseline_lr_of<A: Arith>(step: usize, max_steps: usize, base_lr: A::T) -> A::T {
    lr_of::<A>(
        step,
        100,
        (if max_steps > 100 { max_steps - 100 } else { 1 }) as usize,
        s_lit::<A>(1, 4),
        base_lr,
    )
}

/// Learning rate of a step of the baselines: warmup over 100 steps, then cosine decay.
pub fn baseline_lr<A: Arith>(step: usize, max_steps: usize, base_lr: A::T) -> (lr: A::T)
    requires
        lawful::<A>(),
        step <= max_steps,
    ensures
        lr == baseline_lr_of::<A>(step, max_steps, base_lr),
{
    let span: usize = if max_steps > 100 { max_steps - 100 } else { 1 };
    scheduled_lr::<A>(step, 100, span, A::lit(1, 4), base_lr)
}

/// What a training step makes of a model and its optimizer: the loss to report and the learning
/// rate are `r`, and the optimizer takes the mean gradients of the batch.
#[verifier::opaque]
pub open spec fn is_gru_step<A: Arith>(
    model: GruModel<A>,
    optimizer: GruAdamW<A>,
    xs: Seq<Vec<usize>>,
    ys: Seq<Vec<usize>>,
    seq_len: usize,
    lr: A::T,
    r: (A::T, A::T),
    next_model: GruModel<A>,
    next: GruAdamW<A>,
) -> bool {
    let scale = batch_scale::<A>(xs.len() as usize, seq_len);
    &&& r.0 == s_times::<A>(model.losses_summed(xs, ys, xs.len()), scale)
    &&& r.1 == lr
    &&& optimizer.takes_to(
        model,
        model.grads_summed(xs, ys, xs.len()).scaled::<A>(scale),
        lr,
        next,
        next_model,
    )
}

/// One training step: the gradients of a batch, the learning rate of the step and an update of
/// the model by the optimizer. Returns the loss to report and the learning rate.
pub fn gru_train_step<A: Arith>(
    model: &mut GruModel<A>,
    optimizer: &mut GruAdamW<A>,
    batch_x: &[Vec<usize>],
    batch_y: &[Vec<usize>],
    seq_len: usize,
    step: usize,
    max_steps: usize,
    base_lr: A::T,
) -> (r: (A::T, A::T))
    requires
        lawful::<A>(),
        old(model).can_train(seq_len as nat),
        old(optimizer).fits(*old(model)),
        old(optimizer).step < usize::MAX,
        batch_x@.len() == batch_y@.len(),
        batch_x@.len() * seq_len <= usize::MAX,
        forall|i: int|
            0 <= i < batch_x@.len() ==> old(model).trainable(
                #[trigger] batch_x@[i]@,
                batch_y@[i]@,
                seq_len,
            ),
        step <= max_steps,
    ensures
        is_gru_step::<A>(
            *old(model),
            *old(optimizer),
            batch_x@,
            batch_y@,
            seq_len,
            baseline_lr_of::<A>(step, max_steps, base_lr),
            r,
            *final(model),
            *final(optimizer),
        ),
        final(optimizer).step == old(optimizer).step + 1,
        final(model).vocab_size == old(model).vocab_size,
        final(optimizer).fits(*final(model)),
        final(model).can_train(seq_len as nat),
{
    reveal(is_gru_step);
    let (total_loss, mut grads) = gru_batch_gradients(model, batch_x, batch_y, seq_len);
    let scale = A::over(A::lit(1, 0), A::count(batch_x.len() * seq_len));
    let current_lr = baseline_lr::<A>(step, max_steps, base_lr);
    optimizer.step(model, &mut grads, current_lr);
    (A::times(total_loss, scale), current_lr)
}

/// The losses of some sequences, added in order.
pub fn evaluate_gru_sequences<A: Arith>(
    model: &GruModel<A>,
    xs: &[Vec<usize>],
    ys: &[Vec<usize>],
    seq_len: usize,
) -> (total: A::T)
    requires
        lawful::<A>(),
        model.can_train(seq_len as nat),
        xs@.len() == ys@.len(),
        forall|i: int|
            0 <= i < xs@.len() ==> model.trainable(#[trigger] xs@[i]@, ys@[i]@, seq_len),
    ensures
        total == model.losses_summed(xs@, ys@, xs@.len()),
{
    let mut caches = GruCaches::new(model, seq_len);
    let mut total_loss = A::lit(0, 0);
    let mut i: usize = 0;
    while i < xs.len()
        invariant
            lawful::<A>(),
            model.can_train(seq_len as nat),
            i <= xs@.len(),
            xs@.len() == ys@.len(),
            forall|i: int|
                0 <= i < xs@.len() ==> model.trainable(#[trigger] xs@[i]@, ys@[i]@, seq_len),
            caches.fits(*model, seq_len as nat),
            total_loss == model.losses_summed(xs@, ys@, i as nat),
        decreases xs@.len() - i,
    {
        proof {
            assert(model.trainable(xs@[i as int]@, ys@[i as int]@, seq_len));
            lemma_room::<A>(*model, xs@[i as int]@.len(), seq_len as nat);
        }
        let loss = model.forward_sequence(
            xs[i].as_slice(),
            ys[i].as_slice(),
            caches.h.as_mut_slice(),
            caches.rz.as_mut_slice(),
            caches.cand.as_mut_slice(),
            caches.cand_in.as_mut_slice(),
            caches.logits.as_mut_slice(),
            caches.probs.as_mut_slice(),
            caches.pred_grad.as_mut_slice(),
        );
        total_loss = A::plus(total_loss, loss);
        i += 1;
    }
    total_loss
}

/// The mean loss and the BPC on the windows that the validation draws.
#[verifier::opaque]
pub open spec fn is_gru_validation<A: Arith>(
    model: GruModel<A>,
    data: Seq<u8>,
    num_batches: nat,
    seq_len: nat,
    r: (A::T, A::T),
) -> bool {
    exists|xs: Seq<Vec<usize>>, ys: Seq<Vec<usize>>|
        windows_from_seed(999, data, seq_len, num_batches, xs, ys) && r == mean_and_bpc::<A>(
            #[trigger] model.losses_summed(xs, ys, num_batches),
            (num_batches * seq_len) as usize,
        )
}

/// Evaluate GRU validation loss and BPC, on windows of the data that are drawn anew from the
/// same seed every time.
pub fn evaluate_gru_bpc<A: Arith>(
    model: &GruModel<A>,
    val_data: &[u8],
    num_batches: usize,
    seq_len: usize,
) -> (r: (A::T, A::T))
    requires
        lawful::<A>(),
        model.can_train(seq_len as nat),
        num_batches > 0 ==> forall|i: int|
            0 <= i < val_data@.len() ==> #[trigger] val_data@[i] < model.vocab_size,
        num_batches > 0 ==> val_data@.len() >= seq_len + 1,
        num_batches * seq_len <= usize::MAX,
    ensures
        is_gru_validation::<A>(*model, val_data@, num_batches as nat, seq_len as nat, r),
{
    reveal(is_gru_validation);
    let mut rng = seeded(999);
    let ghost first = rng;
    let (xs, ys) = sample_windows(val_data, num_batches, seq_len, &mut rng);
    proof {
        windows_lie_in_the_data(first, val_data@, seq_len as nat, xs@, ys@, rng);
        assert(windows_from_seed(
            999,
            val_data@,
            seq_len as nat,
            num_batches as nat,
            xs@,
            ys@,
        ));
    }
    assert forall|i: int| 0 <= i < xs@.len() implies model.trainable(
        #[trigger] xs@[i]@,
        ys@[i]@,
        seq_len,
    ) by {
        assert(is_batch_row(val_data@, seq_len as nat, xs@[i]@, ys@[i]@));
    }
    let total = evaluate_gru_sequences(model, xs.as_slice(), ys.as_slice(), seq_len);
    assert(total == model.losses_summed(xs@, ys@, num_batches as nat));
    summarize::<A>(total, num_batches * seq_len)
}

} // verus!
