//! Losses that weigh nothing have no gradients.

use vstd::prelude::*;
use crate::arith::{Arith, one, s_exceeds, s_plus, s_times, zero, zeros_vanish};
use crate::expert::ExpertMLP;
use crate::gradient_laws::step_fits;
use crate::layer::{
    AxiomLayer, ExpertValues, LayerValues, LossWeights, SequenceCache, expert_delta_added,
    expert_grads_added, gate_delta, sigmoid_grad_all,
};
use crate::matvec::{matvec_transposed_of, outer_added, outer_row, rows_added, summed};
use crate::model::{AxiomSingleLayerModel, ModelValues, row_added};
use crate::sequence::CachedStep;
use crate::tensor::{
    add_scaled, dot_of, lane, lanes, lemma_row_and_column, lemma_row_bounds, products_added,
    row_of, scaled, with_row, zeros,
};

verus! {

/// None of the losses weighs anything.
pub open spec fn weighs_nothing<A: Arith>(lambda: LossWeights<A::T>) -> bool {
    &&& !s_exceeds::<A>(lambda.pred, zero::<A>())
    &&& !s_exceeds::<A>(lambda.recon, zero::<A>())
    &&& !s_exceeds::<A>(lambda.residual, zero::<A>())
}

/// A lane of products with zeros stays at zero.
proof fn lemma_zero_lane<A: Arith>(n: nat, b: Seq<A::T>, l: int, k: nat)
    requires
        zeros_vanish::<A>(),
        0 <= l < 8,
        8 * k <= n,
    ensures
        lane::<A>(zeros::<A>(n), b, l, k) == zero::<A>(),
    decreases k,
{
    reveal(zeros_vanish);
    if k > 0 {
        lemma_zero_lane::<A>(n, b, l, (k - 1) as nat);
    }
}

/// Products with zeros add nothing.
proof fn lemma_zero_products<A: Arith>(n: nat, b: Seq<A::T>, from: int, to: int)
    requires
        zeros_vanish::<A>(),
        0 <= from,
        to <= n,
    ensures
        products_added::<A>(zero::<A>(), zeros::<A>(n), b, from, to) == zero::<A>(),
    decreases to - from,
{
    reveal(zeros_vanish);
    if from < to {
        lemma_zero_products::<A>(n, b, from, to - 1);
    }
}

/// The inner product with zeros is zero.
proof fn lemma_zero_dot<A: Arith>(n: nat, b: Seq<A::T>)
    requires
        zeros_vanish::<A>(),
    ensures
        dot_of::<A>(zeros::<A>(n), b) == zero::<A>(),
{
    let a = zeros::<A>(n);
    let k = a.len() / 8;
    assert forall|l: int| 0 <= l < 8 implies #[trigger] lane::<A>(a, b, l, k) == zero::<A>() by {
        lemma_zero_lane::<A>(n, b, l, k);
    }
    assert(lanes::<A>(a, b, k) == zero::<A>()) by {
        reveal(zeros_vanish);
    }
    lemma_zero_products::<A>(n, b, 8 * k as int, n as int);
}

/// Rows that are scaled by zeros are left out.
proof fn lemma_zero_rows<A: Arith>(y: Seq<A::T>, w: Seq<A::T>, m: nat, n: nat)
    requires
        zeros_vanish::<A>(),
        n <= m,
    ensures
        rows_added::<A>(y, w, zeros::<A>(m), n) == y,
    decreases n,
{
    reveal(zeros_vanish);
    if n > 0 {
        lemma_zero_rows::<A>(y, w, m, (n - 1) as nat);
    }
}

/// The outer product of zeros adds nothing.
proof fn lemma_zero_outer<A: Arith>(w: Seq<A::T>, m: nat, v: Seq<A::T>, alpha: A::T)
    requires
        zeros_vanish::<A>(),
        w.len() == m * v.len(),
    ensures
        outer_added::<A>(w, zeros::<A>(m), v, alpha) == w,
{
    reveal(zeros_vanish);
    let u = zeros::<A>(m);
    let cols = v.len();
    let after = outer_added::<A>(w, u, v, alpha);
    assert forall|i: int| 0 <= i < w.len() implies after[i] == w[i] by {
        lemma_row_and_column(m, cols, i);
        let (r, c) = (i / (cols as int), i % (cols as int));
        lemma_row_bounds(m, cols, r);
        assert(s_times::<A>(alpha, u[r]) == zero::<A>());
        assert(row_of(w, cols, r)[c] == w[i]);
        assert(after[i] == outer_row::<A>(w, u, v, alpha, r)[c]);
    }
    assert(after =~= w);
}

/// What is scaled by zero adds nothing.
proof fn lemma_nothing_scaled<A: Arith>(dst: Seq<A::T>, src: Seq<A::T>)
    requires
        zeros_vanish::<A>(),
    ensures
        add_scaled::<A>(dst, src, zero::<A>()) == dst,
{
    reveal(zeros_vanish);
    assert(add_scaled::<A>(dst, src, zero::<A>()) =~= dst);
}

/// Zeros add nothing.
proof fn lemma_zeros_added<A: Arith>(dst: Seq<A::T>)
    requires
        zeros_vanish::<A>(),
    ensures
        summed::<A>(dst, zeros::<A>(dst.len())) == dst,
        add_scaled::<A>(dst, zeros::<A>(dst.len()), one::<A>()) == dst,
{
    reveal(zeros_vanish);
    assert forall|i: int| 0 <= i < dst.len() implies s_plus::<A>(
        dst[i],
        #[trigger] zeros::<A>(dst.len())[i],
    ) == dst[i] by {
    }
    assert(summed::<A>(dst, zeros::<A>(dst.len())) =~= dst);
    assert(add_scaled::<A>(dst, zeros::<A>(dst.len()), one::<A>()) =~= dst);
}

/// A matrix stays as it is where a row is put back.
proof fn lemma_row_put_back<A: Arith>(w: Seq<A::T>, rows: nat, d: nat, r: int)
    requires
        0 <= r < rows,
        w.len() == rows * d,
    ensures
        with_row(w, d, r, row_of(w, d, r)) == w,
{
    lemma_row_bounds(rows, d, r);
    assert(with_row(w, d, r, row_of(w, d, r)) =~= w);
}

/// An expert gets no gradients from zeros, and hands none on.
proof fn lemma_zero_expert<A: Arith>(
    expert: ExpertMLP<A>,
    x: Seq<A::T>,
    raw: Seq<A::T>,
    act: Seq<A::T>,
    delta: Seq<A::T>,
    g: ExpertValues<A::T>,
    d: nat,
    ffn: nat,
)
    requires
        zeros_vanish::<A>(),
        expert.d_ffn == ffn,
        x.len() == d,
        raw.len() == ffn,
        act.len() == ffn,
        g.fits(d, ffn),
    ensures
        expert_grads_added::<A>(expert, x, raw, act, zeros::<A>(d), g) == g,
        expert_delta_added::<A>(expert, raw, zeros::<A>(d), delta) == delta,
{
    lemma_zero_rows::<A>(zeros::<A>(ffn), expert.w_down@, d, d);
    let delta_z = expert.delta_z_of(raw, zeros::<A>(d));
    assert(delta_z =~= zeros::<A>(ffn)) by {
        reveal(zeros_vanish);
        assert(expert.delta_a_of(zeros::<A>(d)) == zeros::<A>(ffn));
    }
    lemma_zero_outer::<A>(g.up, ffn, x, one::<A>());
    lemma_zero_outer::<A>(g.down, d, act, one::<A>());
    lemma_zero_rows::<A>(delta, expert.w_up@, ffn, ffn);
}

impl<A: Arith> AxiomLayer<A> {
    /// A step whose losses weigh nothing, behind steps that left no gradient, leaves the gradients
    /// as they are and hands none on.
    proof fn lemma_step_without_losses(
        &self,
        c: CachedStep<A::T>,
        s_prev: Seq<A::T>,
        s_curr: Seq<A::T>,
        lambda: LossWeights<A::T>,
        g: LayerValues<A::T>,
    )
        requires
            zeros_vanish::<A>(),
            weighs_nothing::<A>(lambda),
            self.wf(),
            step_fits(
                c,
                self.config.vocab_size as nat,
                self.config.d_model as nat,
                self.config.d_ffn as nat,
            ),
            c.top.0 < self.config.num_experts,
            c.top.1 < self.config.num_experts,
            s_prev.len() == self.config.d_model,
            s_curr.len() == self.config.d_model,
            g.fits::<A>(self.config),
        ensures
            ({
                let none = zeros::<A>(self.config.d_model as nat);
                let b = self.backward_cached(c, s_prev, s_curr, lambda, none, g);
                &&& b.grads == g
                &&& b.delta_hin == none
                &&& b.temporal == none
            }),
    {
        let (d, ffn) = (self.config.d_model as nat, self.config.d_ffn as nat);
        let n = self.config.num_experts as nat;
        let none = zeros::<A>(d);
        let (idx1, idx2) = (c.top.0 as int, c.top.1 as int);
        let (g1, g2) = (c.weights[0], c.weights[1]);
        let (expert1, expert2) = (self.experts@[idx1], self.experts@[idx2]);
        // through the experts
        assert(scaled::<A>(none, g1) =~= none && scaled::<A>(none, g2) =~= none) by {
            reveal(zeros_vanish);
        }
        assert(g.experts[idx1].fits(d, ffn));
        assert(g.experts[idx2].fits(d, ffn));
        lemma_zero_expert::<A>(
            expert1,
            s_curr,
            c.acts1.raw,
            c.acts1.act,
            none,
            g.experts[idx1],
            d,
            ffn,
        );
        assert(g.experts.update(idx1, g.experts[idx1]) =~= g.experts);
        lemma_zero_expert::<A>(
            expert2,
            s_curr,
            c.acts2.raw,
            c.acts2.act,
            none,
            g.experts[idx2],
            d,
            ffn,
        );
        assert(g.experts.update(idx2, g.experts[idx2]) =~= g.experts);
        // through the router
        lemma_zero_dot::<A>(d, c.acts1.out);
        lemma_zero_dot::<A>(d, c.acts2.out);
        assert(gate_delta::<A>(g1, g1, g2, zero::<A>(), zero::<A>()) == zero::<A>() && gate_delta::<
            A,
        >(g2, g1, g2, zero::<A>(), zero::<A>()) == zero::<A>()) by {
            reveal(zeros_vanish);
        }
        lemma_nothing_scaled::<A>(row_of(g.w_gate, d, idx1), s_curr);
        lemma_nothing_scaled::<A>(row_of(g.w_gate, d, idx2), s_curr);
        lemma_row_put_back::<A>(g.w_gate, n, d, idx1);
        lemma_row_put_back::<A>(g.w_gate, n, d, idx2);
        lemma_nothing_scaled::<A>(none, row_of(self.w_gate@, d, idx1));
        lemma_nothing_scaled::<A>(none, row_of(self.w_gate@, d, idx2));
        // through the state
        lemma_zeros_added::<A>(none);
        let delta_us = sigmoid_grad_all::<A>(s_curr, none);
        assert(delta_us =~= none) by {
            reveal(zeros_vanish);
        }
        let state_in = c.h_in + c.m_recall + s_prev;
        lemma_zero_outer::<A>(g.w_s, d, state_in, one::<A>());
        let transposed = matvec_transposed_of::<A>(self.w_s@, 3 * d, none);
        lemma_zero_rows::<A>(zeros::<A>(3 * d), self.w_s@, d, d);
        assert(transposed.take(d as int) =~= none);
        assert(transposed.subrange(2 * d as int, 3 * d as int) =~= none);
    }
}

impl<A: Arith> AxiomSingleLayerModel<A> {
    /// BPTT down to step `t` leaves the gradients as they are where no loss weighs anything.
    proof fn lemma_bptt_without_losses(
        &self,
        x: Seq<usize>,
        cache: SequenceCache<A>,
        lambda: LossWeights<A::T>,
        g: ModelValues<A::T>,
        t: int,
    )
        requires
            zeros_vanish::<A>(),
            weighs_nothing::<A>(lambda),
            self.wf(),
            g.fits::<A>(self.config, self.max_seq_len as nat),
            cache.fits(self.config),
            x.len() <= cache.max_seq_len,
            cache.routes_are_valid(self.config, x.len() as int),
            forall|q: int| 0 <= q < x.len() ==> #[trigger] x[q] < self.config.vocab_size,
            0 <= t <= x.len(),
        ensures
            self.bptt(x, cache, lambda, g, t).grads == g,
            self.bptt(x, cache, lambda, g, t).temporal == zeros::<A>(self.config.d_model as nat),
        decreases x.len() - t,
    {
        let c = self.config;
        let d = c.d_model as nat;
        if t < x.len() {
            self.lemma_bptt_without_losses(x, cache, lambda, g, t + 1);
            let rows = cache.max_seq_len as nat;
            assert(cache.top_indices@[t].0 < c.num_experts && cache.top_indices@[t].1
                < c.num_experts);
            lemma_row_bounds(rows, d, t);
            lemma_row_bounds(rows, c.d_ffn as nat, t);
            lemma_row_bounds(rows, c.vocab_size as nat, t);
            lemma_row_bounds(rows + 1, d, t);
            lemma_row_bounds(rows + 1, d, t + 1);
            self.layer.lemma_step_without_losses(
                cache.step_at(c, t),
                cache.state_at(c, t),
                cache.state_at(c, t + 1),
                lambda,
                g.layer,
            );
            assert(x[t] < c.vocab_size);
            lemma_row_without_gradient::<A>(g.embeddings, c.vocab_size as nat, d, x[t] as int);
            if t < self.max_seq_len {
                lemma_row_without_gradient::<A>(g.pos_embeddings, self.max_seq_len as nat, d, t);
            }
        }
    }
}

/// A row to which zeros are added stays as it is.
proof fn lemma_row_without_gradient<A: Arith>(w: Seq<A::T>, rows: nat, d: nat, r: int)
    requires
        zeros_vanish::<A>(),
        0 <= r < rows,
        w.len() == rows * d,
    ensures
        row_added::<A>(w, d, r, zeros::<A>(d)) == w,
{
    lemma_row_bounds(rows, d, r);
    lemma_zeros_added::<A>(row_of(w, d, r));
    lemma_row_put_back::<A>(w, rows, d, r);
}

/// Where no loss weighs anything, BPTT over a sequence leaves every gradient as it was.
pub proof fn bptt_without_losses_changes_nothing<A: Arith>(
    model: AxiomSingleLayerModel<A>,
    x: Seq<usize>,
    cache: SequenceCache<A>,
    lambda: LossWeights<A::T>,
    g: ModelValues<A::T>,
)
    requires
        zeros_vanish::<A>(),
        weighs_nothing::<A>(lambda),
        model.wf(),
        g.fits::<A>(model.config, model.max_seq_len as nat),
        cache.fits(model.config),
        x.len() <= cache.max_seq_len,
        cache.routes_are_valid(model.config, x.len() as int),
        forall|q: int| 0 <= q < x.len() ==> #[trigger] x[q] < model.config.vocab_size,
    ensures
        model.bptt(x, cache, lambda, g, 0).grads == g,
{
    model.lemma_bptt_without_losses(x, cache, lambda, g, 0);
}

} // verus!
