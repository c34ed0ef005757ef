//! The gradients of an AXIOM layer are the derivatives of its local losses, with the recalled memory
//! held fixed.

use vstd::prelude::*;
use crate::activations::{mse_grad_of, mse_of};
use crate::arith::{
    Arith, one, s_count, s_equals, s_exceeds, s_lit, s_neg_inf, s_negate, s_over, s_plus, s_times, zero,
};
use crate::derivatives::{
    counts, cross_entropy_gradients_are_derivatives, gelu_gradients_are_derivatives,
    lemma_shares_move, mse_gradients_are_derivatives, sigmoid_gradients_are_derivatives,
};
use crate::exact::{
    exact, lemma_commutes, lemma_distributes, lemma_neutral, lemma_regroups, lemma_total_plus,
    lemma_total_same, lemma_total_times, total,
};
use crate::expert::ExpertMLP;
use crate::gru_derivatives::lemma_still_inputs;
use crate::layer::{
    AxiomLayer, ExpertActs, ExpertValues, LayerStep, LayerValues, LossWeights, ScratchView, SequenceCache, difference_added,
    difference_taken, expert_delta_added, expert_grads_added, gate_delta, residual_factor,
    sigmoid_all, sigmoid_grad_all, times_each, top2_seq,
};
use crate::matvec::{
    lemma_rows_added_len, matvec_of, matvec_transposed_of, outer_added, rows_added, summed,
};
use crate::model::{AxiomSingleLayerModel, ModelValues};
use crate::sequence::Carried;
use crate::slopes::Calculus;
use crate::softmax::{cross_entropy_grad_of, cross_entropy_of, softmax_of};
use crate::tensor::{
    add_scaled, dot_of, lemma_row_bounds, row_of, scaled, with_row, zeros,
};
use crate::topk::{max_value_of, top2_of, topk_softmax_of};

verus! {

/// What a loss weight counts for: those that are not positive count for nothing.
pub open spec fn weight_of<A: Arith>(c: Calculus<A>, lambda: A::T) -> real {
    if (c.num)(lambda) > 0real {
        (c.num)(lambda)
    } else {
        0real
    }
}

/// The gradients of an expert along its weights.
pub open spec fn expert_along<A: Arith>(
    c: Calculus<A>,
    expert: ExpertMLP<A>,
    g: ExpertValues<A::T>,
) -> real {
    c.along(g.up, expert.w_up@) + c.along(g.down, expert.w_down@)
}

/// What an expert puts out moves with its weights and its input.
proof fn lemma_expert<A: Arith>(
    c: Calculus<A>,
    expert: ExpertMLP<A>,
    x: Seq<A::T>,
    u: Seq<A::T>,
    g: ExpertValues<A::T>,
    delta: Seq<A::T>,
)
    requires
        c.holds(),
        expert.wf(),
        x.len() == expert.d_model,
        u.len() == expert.d_model,
        delta.len() == expert.d_model,
        g.fits(expert.d_model as nat, expert.d_ffn as nat),
    ensures
        ({
            let (raw, act) = (expert.raw_of(x), expert.act_of(x));
            let after = expert_grads_added::<A>(expert, x, raw, act, u, g);
            let back = expert_delta_added::<A>(expert, raw, u, delta);
            &&& c.along(u, expert.out_of(x)) == expert_along(c, expert, after) - expert_along(
                c,
                expert,
                g,
            ) + c.along(back, x) - c.along(delta, x)
            &&& after.fits(expert.d_model as nat, expert.d_ffn as nat)
            &&& back.len() == x.len()
        }),
{
    let (d, ffn) = (expert.d_model as nat, expert.d_ffn as nat);
    let (raw, act) = (expert.raw_of(x), expert.act_of(x));
    let delta_a = expert.delta_a_of(u);
    lemma_rows_added_len::<A>(zeros::<A>(ffn), expert.w_down@, u, d);
    let delta_z = expert.delta_z_of(raw, u);
    c.lemma_linear(expert.w_down@, u, act);
    c.lemma_along_outer(g.down, expert.w_down@, u, act, one::<A>());
    assert forall|i: int|
        #![trigger act[i]]
        0 <= i < act.len() implies (c.num)(delta_a[i]) * (c.slope)(act[i]) == (c.num)(delta_z[i])
        * (c.slope)(raw[i]) by {
        gelu_gradients_are_derivatives::<A>(c, raw[i], delta_a[i]);
    }
    c.lemma_along_same(delta_a, act, delta_z, raw);
    c.lemma_linear(expert.w_up@, delta_z, x);
    c.lemma_along_outer(g.up, expert.w_up@, delta_z, x, one::<A>());
    c.lemma_along_rows(delta, expert.w_up@, delta_z, x);
    c.lemma_exact();
    lemma_neutral(c.weights_move(expert.w_down@, u, act));
    lemma_neutral(c.weights_move(expert.w_up@, delta_z, x));
}

/// Both entries of the two best scores are scores.
proof fn lemma_top2_are_scores<A: Arith>(scores: Seq<A::T>, n: nat)
    requires
        n <= scores.len() <= usize::MAX,
        forall|i: int| 0 <= i < n ==> s_exceeds::<A>(#[trigger] scores[i], s_neg_inf::<A>()),
    ensures
        ({
            let (first, second) = top2_of::<A>(scores, n);
            &&& n >= 1 ==> first.1 < n && first.0 == scores[first.1 as int]
            &&& n >= 2 ==> second.1 < n && second.0 == scores[second.1 as int]
            &&& n == 0 ==> first.0 == s_neg_inf::<A>()
            &&& n <= 1 ==> second.0 == s_neg_inf::<A>()
        }),
    decreases n,
{
    if n > 0 {
        lemma_top2_are_scores::<A>(scores, (n - 1) as nat);
        assert(s_exceeds::<A>(scores[n - 1], s_neg_inf::<A>()));
    }
}

/// The slopes of two router weights, weighed with the gradients at them, are those of their scores,
/// weighed with the gradients at those.
proof fn lemma_router<A: Arith>(
    c: Calculus<A>,
    top: Seq<(A::T, usize)>,
    dg1: A::T,
    dg2: A::T,
)
    requires
        c.holds(),
        top.len() == 2,
    ensures
        ({
            let w = topk_softmax_of::<A>(top);
            &&& w.len() == 2
            &&& (c.slope)(w[0]) * (c.num)(dg1) + (c.slope)(w[1]) * (c.num)(dg2) == (c.num)(
                gate_delta::<A>(w[0], w[0], w[1], dg1, dg2),
            ) * (c.slope)(top[0].0) + (c.num)(gate_delta::<A>(w[1], w[0], w[1], dg2, dg1))
                * (c.slope)(top[1].0)
        }),
{
    c.lemma_exact();
    let num = c.num;
    let slope = c.slope;
    let values = Seq::new(2, |i: int| top[i].0);
    let m = max_value_of::<A>(top, 2);
    let w = topk_softmax_of::<A>(top);
    lemma_shares_move::<A>(c, values, m, 0);
    lemma_shares_move::<A>(c, values, m, 1);
    let (a, b, x, y) = (num(w[0]), num(w[1]), slope(values[0]), slope(values[1]));
    let (p, q) = (num(dg1), num(dg2));
    assert(a + b == 1real) by {
        reveal_with_fuel(total, 3);
    }
    assert(c.along(w, values) == a * x + b * y) by {
        reveal_with_fuel(total, 3);
    }
    let all = a * x + b * y;
    // the first weight moves with what sets the first score apart
    lemma_distributes(x, 1real, a);
    lemma_neutral(x);
    lemma_commutes(x, a);
    lemma_commutes(x, b);
    assert(x - all == b * x - b * y);
    lemma_distributes(y, 1real, b);
    lemma_neutral(y);
    lemma_commutes(y, a);
    lemma_commutes(y, b);
    assert(y - all == a * y - a * x);
    let ab = a * b;
    lemma_distributes(a, b * x, b * y);
    lemma_regroups(a, b, x);
    lemma_regroups(a, b, y);
    assert(slope(w[0]) == ab * x - ab * y);
    lemma_distributes(b, a * y, a * x);
    lemma_commutes(a, b);
    lemma_regroups(b, a, y);
    lemma_regroups(b, a, x);
    assert(slope(w[1]) == ab * y - ab * x);
    // the gradients at the scores
    assert(num(gate_delta::<A>(w[0], w[0], w[1], dg1, dg2)) == (a * (1real - a)) * p - ab * q) by {
        reveal(exact);
    }
    assert(num(gate_delta::<A>(w[1], w[0], w[1], dg2, dg1)) == (b * (1real - b)) * q - ab * p) by {
        reveal(exact);
    }
    assert(1real - a == b && 1real - b == a);
    let (k, l) = (ab * p, ab * q);
    lemma_commutes(ab * x - ab * y, p);
    lemma_distributes(p, ab * x, ab * y);
    lemma_commutes(p, ab * x);
    lemma_commutes(p, ab * y);
    lemma_regroups(ab, x, p);
    lemma_regroups(ab, y, p);
    assert(slope(w[0]) * p == k * x - k * y);
    lemma_commutes(ab * y - ab * x, q);
    lemma_distributes(q, ab * y, ab * x);
    lemma_commutes(q, ab * x);
    lemma_commutes(q, ab * y);
    lemma_regroups(ab, x, q);
    lemma_regroups(ab, y, q);
    assert(slope(w[1]) * q == l * y - l * x);
    lemma_commutes(k - l, x);
    lemma_distributes(x, k, l);
    lemma_commutes(x, k);
    lemma_commutes(x, l);
    lemma_commutes(l - k, y);
    lemma_distributes(y, l, k);
    lemma_commutes(y, k);
    lemma_commutes(y, l);
}

/// A row of the gradients of the router, with the state added times the gradient at its score.
proof fn lemma_gate_row<A: Arith>(
    c: Calculus<A>,
    g: Seq<A::T>,
    w: Seq<A::T>,
    rows: nat,
    d: nat,
    r: int,
    s: Seq<A::T>,
    delta: A::T,
)
    requires
        c.holds(),
        0 <= r < rows,
        w.len() == rows * d,
        g.len() == w.len(),
        s.len() == d,
    ensures
        ({
            let after = with_row(g, d, r, add_scaled::<A>(row_of(g, d, r), s, delta));
            &&& after.len() == g.len()
            &&& (c.num)(delta) * (c.slope)(matvec_of::<A>(w, rows, s)[r]) == c.along(after, w)
                - c.along(g, w) + (c.num)(delta) * c.along(row_of(w, d, r), s)
        }),
{
    lemma_row_bounds(rows, d, r);
    let num = c.num;
    let slope = c.slope;
    let row = row_of(w, d, r);
    let terms = times_each::<A>(delta, s);
    assert(add_scaled::<A>(row_of(g, d, r), s, delta) =~= summed::<A>(row_of(g, d, r), terms));
    c.lemma_along_row(g, w, rows, d, r, terms);
    c.lemma_along_scaled(s, delta, row);
    c.lemma_slope_dot(row, s);
    let f = |i: int| slope(row[i]) * num(s[i]);
    let k = |i: int| num(s[i]) * slope(row[i]);
    assert forall|i: int| 0 <= i < d implies #[trigger] f(i) == k(i) by {
        lemma_commutes(slope(row[i]), num(s[i]));
    }
    lemma_total_same(d, f, k);
    lemma_distributes(num(delta), c.along(s, row), c.along(row, s));
}

impl<A: Arith> AxiomLayer<A> {
    /// The gradients of the experts along their weights.
    pub open spec fn experts_along(&self, c: Calculus<A>, g: Seq<ExpertValues<A::T>>) -> real {
        total(self.experts@.len(), |i: int| expert_along(c, self.experts@[i], g[i]))
    }

    /// All gradients along their weights.
    pub open spec fn along(&self, c: Calculus<A>, g: LayerValues<A::T>) -> real {
        c.along(g.w_s, self.w_s@) + c.along(g.w_gate, self.w_gate@) + self.experts_along(
            c,
            g.experts,
        ) + c.along(g.w_pred, self.w_pred@) + c.along(g.w_decode, self.w_decode@)
    }

    /// The gradients of one expert changed.
    proof fn lemma_experts_update(
        &self,
        c: Calculus<A>,
        g: Seq<ExpertValues<A::T>>,
        idx: int,
        e: ExpertValues<A::T>,
        n: nat,
    )
        requires
            0 <= idx < g.len(),
            n <= g.len(),
        ensures
            total(n, |i: int| expert_along(c, self.experts@[i], g.update(idx, e)[i])) == total(
                n,
                |i: int| expert_along(c, self.experts@[i], g[i]),
            ) + if idx < n {
                expert_along(c, self.experts@[idx], e) - expert_along(
                    c,
                    self.experts@[idx],
                    g[idx],
                )
            } else {
                0real
            },
        decreases n,
    {
        if n > 0 {
            self.lemma_experts_update(c, g, idx, e, (n - 1) as nat);
        }
    }

    /// What a step puts out moves with its input, its state, its experts and its router.
    #[verifier::rlimit(40)]
    #[verifier::spinoff_prover]
    proof fn lemma_routed(
        &self,
        c: Calculus<A>,
        step: LayerStep<A::T>,
        h_in: Seq<A::T>,
        u: Seq<A::T>,
        experts: Seq<ExpertValues<A::T>>,
        w_gate: Seq<A::T>,
    )
        requires
            c.holds(),
            self.wf(),
            h_in.len() == self.config.d_model,
            step.state.len() == self.config.d_model,
            step.gate_scores == matvec_of::<A>(
                self.w_gate@,
                self.config.num_experts as nat,
                step.state,
            ),
            step.top == top2_seq::<A>(step.gate_scores),
            step.weights == topk_softmax_of::<A>(step.top),
            step.h_out == add_scaled::<A>(
                add_scaled::<A>(
                    add_scaled::<A>(h_in, step.state, one::<A>()),
                    self.experts@[step.top[0].1 as int].out_of(step.state),
                    step.weights[0],
                ),
                self.experts@[step.top[1].1 as int].out_of(step.state),
                step.weights[1],
            ),
            forall|i: int|
                0 <= i < self.config.num_experts ==> s_exceeds::<A>(
                    #[trigger] step.gate_scores[i],
                    s_neg_inf::<A>(),
                ),
            u.len() == self.config.d_model,
            experts.len() == self.config.num_experts,
            forall|i: int|
                0 <= i < experts.len() ==> (#[trigger] experts[i]).fits(
                    self.config.d_model as nat,
                    self.config.d_ffn as nat,
                ),
            w_gate.len() == self.config.num_experts * self.config.d_model,
        ensures
            ({
                let s = step.state;
                let (e1, e2) = (
                    self.experts@[step.top[0].1 as int],
                    self.experts@[step.top[1].1 as int],
                );
                let routed = self.routed_backward(
                    step.top[0].1 as int,
                    step.top[1].1 as int,
                    step.weights[0],
                    step.weights[1],
                    s,
                    ExpertActs { raw: e1.raw_of(s), act: e1.act_of(s), out: e1.out_of(s) },
                    ExpertActs { raw: e2.raw_of(s), act: e2.act_of(s), out: e2.out_of(s) },
                    u,
                    experts,
                    w_gate,
                );
                &&& c.along(u, step.h_out) == c.along(u, h_in) + c.along(routed.delta_s, s)
                    + self.experts_along(c, routed.experts) - self.experts_along(c, experts)
                    + c.along(routed.w_gate, self.w_gate@) - c.along(w_gate, self.w_gate@)
                &&& routed.delta_s.len() == self.config.d_model
                &&& routed.w_gate.len() == w_gate.len()
                &&& routed.experts.len() == experts.len()
                &&& forall|i: int|
                    0 <= i < experts.len() ==> (#[trigger] routed.experts[i]).fits(
                        self.config.d_model as nat,
                        self.config.d_ffn as nat,
                    )
            }),
    {
        let (d, ffn) = (self.config.d_model as nat, self.config.d_ffn as nat);
        let n = self.config.num_experts as nat;
        let s = step.state;
        lemma_top2_are_scores::<A>(step.gate_scores, n);
        let (idx1, idx2) = (step.top[0].1 as int, step.top[1].1 as int);
        let (g1, g2) = (step.weights[0], step.weights[1]);
        let (e1, e2) = (self.experts@[idx1], self.experts@[idx2]);
        assert(e1.wf() && e2.wf());
        let (out1, out2) = (e1.out_of(s), e2.out_of(s));
        // the sum
        let base = add_scaled::<A>(h_in, s, one::<A>());
        let with1 = add_scaled::<A>(base, out1, g1);
        c.lemma_through_add_scaled(u, h_in, s, one::<A>());
        c.lemma_through_add_scaled(u, base, out1, g1);
        c.lemma_through_add_scaled(u, with1, out2, g2);
        c.lemma_exact();
        lemma_neutral(c.along(u, s));
        lemma_neutral((c.num)(dot_of::<A>(u, s)));
        // the experts
        let (u1, u2) = (scaled::<A>(u, g1), scaled::<A>(u, g2));
        c.lemma_along_scaled(u, g1, out1);
        c.lemma_along_scaled(u, g2, out2);
        assert(experts[idx1].fits(d, ffn));
        lemma_expert::<A>(c, e1, s, u1, experts[idx1], u);
        let after1 = expert_grads_added::<A>(
            e1,
            s,
            e1.raw_of(s),
            e1.act_of(s),
            u1,
            experts[idx1],
        );
        let grown1 = experts.update(idx1, after1);
        self.lemma_experts_update(c, experts, idx1, after1, n);
        let back1 = expert_delta_added::<A>(e1, e1.raw_of(s), u1, u);
        assert(grown1[idx2].fits(d, ffn)) by {
            assert(experts[idx2].fits(d, ffn));
        }
        lemma_expert::<A>(c, e2, s, u2, grown1[idx2], back1);
        let after2 = expert_grads_added::<A>(
            e2,
            s,
            e2.raw_of(s),
            e2.act_of(s),
            u2,
            grown1[idx2],
        );
        let grown2 = grown1.update(idx2, after2);
        self.lemma_experts_update(c, grown1, idx2, after2, n);
        let back2 = expert_delta_added::<A>(e2, e2.raw_of(s), u2, back1);
        assert forall|i: int| 0 <= i < n implies (#[trigger] grown2[i]).fits(d, ffn) by {
            assert(experts[i].fits(d, ffn));
        }
        // the router
        let (dg1, dg2) = (dot_of::<A>(u, out1), dot_of::<A>(u, out2));
        lemma_router::<A>(c, step.top, dg1, dg2);
        let delta1 = gate_delta::<A>(g1, g1, g2, dg1, dg2);
        let delta2 = gate_delta::<A>(g2, g1, g2, dg2, dg1);
        lemma_gate_row::<A>(c, w_gate, self.w_gate@, n, d, idx1, s, delta1);
        let gate1 = with_row(
            w_gate,
            d,
            idx1,
            add_scaled::<A>(row_of(w_gate, d, idx1), s, delta1),
        );
        lemma_gate_row::<A>(c, gate1, self.w_gate@, n, d, idx2, s, delta2);
        lemma_row_bounds(n, d, idx1);
        lemma_row_bounds(n, d, idx2);
        let (row1, row2) = (row_of(self.w_gate@, d, idx1), row_of(self.w_gate@, d, idx2));
        c.lemma_along_add_scaled(back2, row1, delta1, s);
        c.lemma_along_add_scaled(add_scaled::<A>(back2, row1, delta1), row2, delta2, s);
    }
}

/// The factor of the residual loss.
proof fn lemma_residual_factor<A: Arith>(c: Calculus<A>, lambda: A::T, d: usize)
    requires
        c.holds(),
        d > 0,
    ensures
        (c.num)(residual_factor::<A>(lambda, d)) == (c.num)(lambda) * (c.num)(
            s_times::<A>(s_lit::<A>(2, 0), s_over::<A>(one::<A>(), s_count::<A>(d))),
        ),
{
    c.lemma_exact();
    reveal(exact);
    let (l, n) = ((c.num)(lambda), d as real);
    let two = (c.num)(s_lit::<A>(2, 0));
    assert((c.num)(s_count::<A>(d)) == n);
    let inv = 1real / n;
    let x = two * l;
    assert(x / n == x * inv) by (nonlinear_arith)
        requires
            n > 0real,
            inv == 1real / n,
    ;
    lemma_commutes(two, l);
    lemma_regroups(l, two, inv);
}

/// The terms of the residual loss: the gradient of the mean squared change, times its weight.
proof fn lemma_residual<A: Arith>(
    c: Calculus<A>,
    v: Seq<A::T>,
    lambda: A::T,
    d: usize,
    a: Seq<A::T>,
    b: Seq<A::T>,
    w: Seq<A::T>,
)
    requires
        c.holds(),
        d > 0,
        v.len() == d,
        a.len() == d,
        b.len() == d,
        w.len() == d,
    ensures
        c.along(difference_added::<A>(v, residual_factor::<A>(lambda, d), a, b), w) == c.along(v, w)
            + (c.num)(lambda) * c.along(mse_grad_of::<A>(a, b), w),
        c.along(difference_taken::<A>(v, residual_factor::<A>(lambda, d), a, b), w) == c.along(v, w)
            - (c.num)(lambda) * c.along(mse_grad_of::<A>(a, b), w),
{
    c.lemma_exact();
    lemma_residual_factor::<A>(c, lambda, d);
    let num = c.num;
    let slope = c.slope;
    let factor = residual_factor::<A>(lambda, d);
    let grads = mse_grad_of::<A>(a, b);
    let l = num(lambda);
    let (more, less) = (
        difference_added::<A>(v, factor, a, b),
        difference_taken::<A>(v, factor, a, b),
    );
    let f = |i: int| num(v[i]) * slope(w[i]);
    let g = |i: int| num(grads[i]) * slope(w[i]);
    let lg = |i: int| l * g(i);
    let minus_lg = |i: int| (-l) * g(i);
    let h = |i: int| num(more[i]) * slope(w[i]);
    let k = |i: int| num(less[i]) * slope(w[i]);
    assert forall|i: int| 0 <= i < d implies #[trigger] h(i) == f(i) + lg(i) && k(i) == f(i)
        + minus_lg(i) by {
        reveal(exact);
        let x = num(a[i]) - num(b[i]);
        let q = num(s_times::<A>(s_lit::<A>(2, 0), s_over::<A>(one::<A>(), s_count::<A>(d))));
        lemma_regroups(l, q, x);
        let (y, t, s) = (num(v[i]), num(grads[i]), slope(w[i]));
        assert(num(more[i]) == y + l * t && num(less[i]) == y - l * t);
        lemma_commutes(y + l * t, s);
        lemma_commutes(y - l * t, s);
        lemma_distributes(s, y, l * t);
        lemma_commutes(s, y);
        lemma_commutes(s, l * t);
        lemma_regroups(l, t, s);
        let z = t * s;
        lemma_commutes(-l, z);
        lemma_distributes(z, 0real, l);
        lemma_neutral(z);
        lemma_commutes(z, l);
    }
    assert forall|i: int| 0 <= i < d implies #[trigger] k(i) == f(i) + minus_lg(i) by {
        assert(h(i) == f(i) + lg(i));
    }
    lemma_total_plus(d as nat, f, lg, h);
    lemma_total_plus(d as nat, f, minus_lg, k);
    lemma_total_times(d as nat, l, g, lg);
    lemma_total_times(d as nat, -l, g, minus_lg);
    let z = total(d as nat, g);
    lemma_commutes(-l, z);
    lemma_distributes(z, 0real, l);
    lemma_neutral(z);
    lemma_commutes(z, l);
}

impl<A: Arith> AxiomLayer<A> {
    /// The slope of the weighted losses of a step: of its prediction, of the reconstruction of its
    /// input and of the change it makes.
    pub open spec fn losses_slope(
        &self,
        c: Calculus<A>,
        h_in: Seq<A::T>,
        h_out: Seq<A::T>,
        target: int,
        lambda: LossWeights<A::T>,
    ) -> real {
        weight_of(c, lambda.pred) * (c.slope)(
            cross_entropy_of::<A>(self.logits_of(h_out), target),
        ) + weight_of(c, lambda.recon) * (c.slope)(mse_of::<A>(self.decoded_of(h_out), h_in))
            + weight_of(c, lambda.residual) * (c.slope)(mse_of::<A>(h_out, h_in))
    }

    /// The losses of a step move with its output, its input and the weights of its heads.
    #[verifier::rlimit(40)]
    #[verifier::spinoff_prover]
    proof fn lemma_losses(
        &self,
        c: Calculus<A>,
        h_in: Seq<A::T>,
        h_out: Seq<A::T>,
        target: int,
        lambda: LossWeights<A::T>,
        g_pred: Seq<A::T>,
        g_decode: Seq<A::T>,
    )
        requires
            c.holds(),
            self.wf(),
            self.config.d_model > 0,
            h_in.len() == self.config.d_model,
            h_out.len() == self.config.d_model,
            0 <= target < self.config.vocab_size,
            counts(c, softmax_of::<A>(self.logits_of(h_out))[target]),
            g_pred.len() == self.w_pred@.len(),
            g_decode.len() == self.w_decode@.len(),
        ensures
            ({
                let pred_grad = cross_entropy_grad_of::<A>(self.logits_of(h_out), target);
                let recon_grad = mse_grad_of::<A>(self.decoded_of(h_out), h_in);
                let u = self.delta_h1_of(h_in, h_out, pred_grad, recon_grad, lambda, false);
                let w_pred = if s_exceeds::<A>(lambda.pred, zero::<A>()) {
                    outer_added::<A>(g_pred, pred_grad, h_out, lambda.pred)
                } else {
                    g_pred
                };
                let w_decode = if s_exceeds::<A>(lambda.recon, zero::<A>()) {
                    outer_added::<A>(g_decode, recon_grad, h_out, lambda.recon)
                } else {
                    g_decode
                };
                &&& u.len() == self.config.d_model
                &&& w_pred.len() == g_pred.len()
                &&& w_decode.len() == g_decode.len()
                &&& self.losses_slope(c, h_in, h_out, target, lambda) == c.along(u, h_out)
                    + c.along(w_pred, self.w_pred@) - c.along(g_pred, self.w_pred@) + c.along(
                    w_decode,
                    self.w_decode@,
                ) - c.along(g_decode, self.w_decode@) - weight_of(c, lambda.recon) * c.along(
                    recon_grad,
                    h_in,
                ) - weight_of(c, lambda.residual) * c.along(mse_grad_of::<A>(h_out, h_in), h_in)
            }),
    {
        let d = self.config.d_model as nat;
        let v = self.config.vocab_size as nat;
        c.lemma_exact();
        let num = c.num;
        let logits = self.logits_of(h_out);
        let decoded = self.decoded_of(h_out);
        let pred_grad = cross_entropy_grad_of::<A>(logits, target);
        let recon_grad = mse_grad_of::<A>(decoded, h_in);
        let (lp, lr, ls) = (
            weight_of(c, lambda.pred),
            weight_of(c, lambda.recon),
            weight_of(c, lambda.residual),
        );
        let start = zeros::<A>(d);
        assert(s_exceeds::<A>(lambda.pred, zero::<A>()) == (num(lambda.pred) > 0real)
            && s_exceeds::<A>(lambda.recon, zero::<A>()) == (num(lambda.recon) > 0real)
            && s_exceeds::<A>(lambda.residual, zero::<A>()) == (num(lambda.residual) > 0real)
            && s_equals::<A>(lambda.pred, one::<A>()) == (num(lambda.pred) == 1real)) by {
            reveal(exact);
        }
        c.lemma_along_nothing(h_out);
        // the prediction
        let ce = (c.slope)(cross_entropy_of::<A>(logits, target));
        cross_entropy_gradients_are_derivatives::<A>(c, logits, target);
        c.lemma_linear(self.w_pred@, pred_grad, h_out);
        let mp = c.weights_move(self.w_pred@, pred_grad, h_out);
        let sum = rows_added::<A>(start, self.w_pred@, pred_grad, pred_grad.len());
        lemma_rows_added_len::<A>(start, self.w_pred@, pred_grad, pred_grad.len());
        let sp = c.along(sum, h_out);
        let after_pred = if s_exceeds::<A>(lambda.pred, zero::<A>()) {
            if s_equals::<A>(lambda.pred, one::<A>()) {
                sum
            } else {
                scaled::<A>(sum, lambda.pred)
            }
        } else {
            start
        };
        let w_pred = if s_exceeds::<A>(lambda.pred, zero::<A>()) {
            outer_added::<A>(g_pred, pred_grad, h_out, lambda.pred)
        } else {
            g_pred
        };
        assert(lp * ce == c.along(after_pred, h_out) + c.along(w_pred, self.w_pred@) - c.along(
            g_pred,
            self.w_pred@,
        ) && w_pred.len() == g_pred.len()) by {
            c.lemma_along_outer(g_pred, self.w_pred@, pred_grad, h_out, lambda.pred);
            c.lemma_along_scaled(sum, lambda.pred, h_out);
            lemma_distributes(lp, mp, sp);
            lemma_neutral(ce);
            lemma_neutral(sp);
        }
        // the reconstruction
        let se = (c.slope)(mse_of::<A>(decoded, h_in));
        mse_gradients_are_derivatives::<A>(c, decoded, h_in);
        let weighed = times_each::<A>(lambda.recon, recon_grad);
        let after_recon = if s_exceeds::<A>(lambda.recon, zero::<A>()) {
            rows_added::<A>(after_pred, self.w_decode@, weighed, d)
        } else {
            after_pred
        };
        let w_decode = if s_exceeds::<A>(lambda.recon, zero::<A>()) {
            outer_added::<A>(g_decode, recon_grad, h_out, lambda.recon)
        } else {
            g_decode
        };
        assert(lr * se == c.along(after_recon, h_out) - c.along(after_pred, h_out) + c.along(
            w_decode,
            self.w_decode@,
        ) - c.along(g_decode, self.w_decode@) - lr * c.along(recon_grad, h_in) && w_decode.len()
            == g_decode.len() && after_recon.len() == d) by {
            c.lemma_linear(self.w_decode@, weighed, h_out);
            c.lemma_along_rows(after_pred, self.w_decode@, weighed, h_out);
            c.lemma_along_outer(g_decode, self.w_decode@, recon_grad, h_out, lambda.recon);
            c.lemma_weights_move_scaled(self.w_decode@, recon_grad, h_out, lambda.recon);
            c.lemma_along_scaled(recon_grad, lambda.recon, decoded);
            lemma_distributes(lr, c.along(recon_grad, decoded), c.along(recon_grad, h_in));
            lemma_neutral(se);
            lemma_neutral(c.along(recon_grad, h_in));
        }
        // the change
        let change = (c.slope)(mse_of::<A>(h_out, h_in));
        mse_gradients_are_derivatives::<A>(c, h_out, h_in);
        let grads = mse_grad_of::<A>(h_out, h_in);
        let u = self.delta_h1_of(h_in, h_out, pred_grad, recon_grad, lambda, false);
        assert(ls * change == c.along(u, h_out) - c.along(after_recon, h_out) - ls * c.along(
            grads,
            h_in,
        ) && u.len() == d) by {
            lemma_residual::<A>(
                c,
                after_recon,
                lambda.residual,
                self.config.d_model,
                h_out,
                h_in,
                h_out,
            );
            lemma_distributes(ls, c.along(grads, h_out), c.along(grads, h_in));
            lemma_neutral(change);
            lemma_neutral(c.along(grads, h_in));
        }
    }

    /// The state of a step moves with its input, the state before it and the weights of the
    /// recurrence; the recalled memory is held fixed.
    proof fn lemma_state(
        &self,
        c: Calculus<A>,
        h_in: Seq<A::T>,
        m_recall: Seq<A::T>,
        s_prev: Seq<A::T>,
        u: Seq<A::T>,
        g: Seq<A::T>,
    )
        requires
            c.holds(),
            self.wf(),
            h_in.len() == self.config.d_model,
            m_recall.len() == self.config.d_model,
            s_prev.len() == self.config.d_model,
            u.len() == self.config.d_model,
            g.len() == self.w_s@.len(),
            forall|i: int| 0 <= i < m_recall.len() ==> (c.slope)(#[trigger] m_recall[i]) == 0real,
        ensures
            ({
                let d = self.config.d_model as nat;
                let s_concat = h_in + m_recall + s_prev;
                let state = sigmoid_all::<A>(matvec_of::<A>(self.w_s@, d, s_concat));
                let delta_us = sigmoid_grad_all::<A>(state, u);
                let back = matvec_transposed_of::<A>(self.w_s@, 3 * d, delta_us);
                let after = outer_added::<A>(g, delta_us, s_concat, one::<A>());
                &&& back.len() == 3 * d
                &&& after.len() == g.len()
                &&& c.along(u, state) == c.along(after, self.w_s@) - c.along(g, self.w_s@)
                    + c.along(back.take(d as int), h_in) + c.along(
                    back.subrange(2 * d as int, 3 * d as int),
                    s_prev,
                )
            }),
    {
        let d = self.config.d_model as nat;
        let front = h_in + m_recall;
        let s_concat = front + s_prev;
        let raw = matvec_of::<A>(self.w_s@, d, s_concat);
        let state = sigmoid_all::<A>(raw);
        let delta_us = sigmoid_grad_all::<A>(state, u);
        assert forall|i: int|
            #![trigger state[i]]
            0 <= i < state.len() implies (c.num)(u[i]) * (c.slope)(state[i]) == (c.num)(delta_us[i])
            * (c.slope)(raw[i]) by {
            sigmoid_gradients_are_derivatives::<A>(c, raw[i], u[i]);
        }
        c.lemma_along_same(u, state, delta_us, raw);
        let back = matvec_transposed_of::<A>(self.w_s@, 3 * d, delta_us);
        lemma_rows_added_len::<A>(zeros::<A>(3 * d), self.w_s@, delta_us, d);
        c.lemma_linear(self.w_s@, delta_us, s_concat);
        c.lemma_along_outer(g, self.w_s@, delta_us, s_concat, one::<A>());
        c.lemma_along_both(back, front, s_prev);
        let near = back.take(2 * d as int);
        c.lemma_along_both(near, h_in, m_recall);
        lemma_still_inputs(c, near.skip(d as int), m_recall);
        assert(near.take(d as int) =~= back.take(d as int));
        assert(back.skip(2 * d as int) =~= back.subrange(2 * d as int, 3 * d as int));
        c.lemma_exact();
        lemma_neutral(c.weights_move(self.w_s@, delta_us, s_concat));
    }

    /// The gradients of a step are the derivatives of its losses, and hand on what its input and
    /// the state before it move. `temporal` is the gradient at its state that comes from later
    /// steps.
    #[verifier::rlimit(60)]
    #[verifier::spinoff_prover]
    pub(crate) proof fn lemma_step_derivatives(
        &self,
        c: Calculus<A>,
        h_in: Seq<A::T>,
        target: int,
        m: Seq<A::T>,
        s_prev: Seq<A::T>,
        lambda: LossWeights<A::T>,
        temporal: Seq<A::T>,
        g: LayerValues<A::T>,
    )
        requires
            c.holds(),
            self.wf(),
            self.config.d_model > 0,
            h_in.len() == self.config.d_model,
            s_prev.len() == self.config.d_model,
            temporal.len() == self.config.d_model,
            0 <= target < self.config.vocab_size,
            g.fits::<A>(self.config),
            self.is_smooth(c, self.step(h_in, m, s_prev), target),
        ensures
            ({
                let step = self.step(h_in, m, s_prev);
                let b = self.backward_cached(
                    self.cached_step(h_in, target, m, s_prev),
                    s_prev,
                    step.state,
                    lambda,
                    temporal,
                    g,
                );
                &&& self.losses_slope(c, h_in, step.h_out, target, lambda) + c.along(
                    temporal,
                    step.state,
                ) == self.along(c, b.grads) - self.along(c, g) + c.along(b.delta_hin, h_in)
                    - weight_of(c, lambda.residual) * c.along(
                    mse_grad_of::<A>(step.h_out, h_in),
                    h_in,
                ) + c.along(b.temporal, s_prev)
                &&& b.grads.fits::<A>(self.config)
                &&& b.delta_hin.len() == self.config.d_model
                &&& b.temporal.len() == self.config.d_model
            }),
    {
        let d = self.config.d_model as nat;
        let step = self.step(h_in, m, s_prev);
        let cs = self.cached_step(h_in, target, m, s_prev);
        let b = self.backward_cached(cs, s_prev, step.state, lambda, temporal, g);
        lemma_top2_are_scores::<A>(step.gate_scores, self.config.num_experts as nat);
        self.lemma_losses(c, h_in, step.h_out, target, lambda, g.w_pred, g.w_decode);
        let u = self.delta_h1_of(
            cs.h_in,
            cs.h_out,
            cs.pred_grad,
            cs.recon_grad,
            lambda,
            false,
        );
        self.lemma_routed(c, step, h_in, u, g.experts, g.w_gate);
        let routed = self.routed_backward(
            cs.top.0 as int,
            cs.top.1 as int,
            cs.weights[0],
            cs.weights[1],
            step.state,
            cs.acts1,
            cs.acts2,
            u,
            g.experts,
            g.w_gate,
        );
        let both = summed::<A>(routed.delta_s, temporal);
        c.lemma_along_summed(routed.delta_s, temporal, step.state);
        self.lemma_state(c, h_in, step.m_recall, s_prev, both, g.w_s);
        let delta_us = sigmoid_grad_all::<A>(step.state, both);
        let transposed = matvec_transposed_of::<A>(self.w_s@, 3 * d, delta_us);
        let near = transposed.take(d as int);
        let direct = add_scaled::<A>(u, near, one::<A>());
        c.lemma_along_add_scaled(u, near, one::<A>(), h_in);
        c.lemma_exact();
        lemma_neutral(c.along(near, h_in));
        let lr = weight_of(c, lambda.recon);
        assert(c.along(b.delta_hin, h_in) == c.along(direct, h_in) - lr * c.along(
            cs.recon_grad,
            h_in,
        )) by {
            let neg = s_negate::<A>(lambda.recon);
            c.lemma_along_add_scaled(direct, cs.recon_grad, neg, h_in);
            reveal(exact);
            let (l, z) = ((c.num)(lambda.recon), c.along(cs.recon_grad, h_in));
            lemma_commutes(-l, z);
            lemma_distributes(z, 0real, l);
            lemma_neutral(z);
            lemma_commutes(z, l);
        }
    }

    /// Nothing in a step is at a corner: its target has a probability that counts, its scores are
    /// numbers, and the recalled memory does not move.
    pub open spec fn is_smooth(
        &self,
        c: Calculus<A>,
        step: LayerStep<A::T>,
        target: int,
    ) -> bool {
        &&& counts(c, softmax_of::<A>(self.logits_of(step.h_out))[target])
        &&& forall|i: int|
            0 <= i < self.config.num_experts ==> s_exceeds::<A>(
                #[trigger] step.gate_scores[i],
                s_neg_inf::<A>(),
            )
        &&& forall|i: int|
            0 <= i < step.m_recall.len() ==> (c.slope)(#[trigger] step.m_recall[i]) == 0real
    }
}

impl<A: Arith> AxiomLayer<A> {
    /// Step `t` of a sequence.
    pub open spec fn step_at(
        &self,
        inputs: Seq<Seq<A::T>>,
        start: Carried<A::T>,
        decay: A::T,
        lr: A::T,
        t: int,
    ) -> LayerStep<A::T> {
        let before = self.carried(inputs, start, decay, lr, t as nat);
        self.step(inputs[t], before.m, before.s)
    }

    /// No step of a sequence is at a corner, and the recalled memory does not move.
    pub open spec fn stays_smooth(
        &self,
        c: Calculus<A>,
        inputs: Seq<Seq<A::T>>,
        y: Seq<usize>,
        start: Carried<A::T>,
        decay: A::T,
        lr: A::T,
    ) -> bool {
        forall|t: int|
            0 <= t < inputs.len() ==> self.is_smooth(
                c,
                #[trigger] self.step_at(inputs, start, decay, lr, t),
                y[t] as int,
            )
    }

    /// The slope of the weighted losses of the first `n` steps of a sequence.
    pub open spec fn sequence_slope(
        &self,
        c: Calculus<A>,
        inputs: Seq<Seq<A::T>>,
        y: Seq<usize>,
        start: Carried<A::T>,
        decay: A::T,
        lr: A::T,
        lambda: LossWeights<A::T>,
        n: nat,
    ) -> real {
        weight_of(c, lambda.pred) * (c.slope)(self.pred_loss(inputs, y, start, decay, lr, n))
            + weight_of(c, lambda.recon) * (c.slope)(self.recon_loss(inputs, start, decay, lr, n))
            + weight_of(c, lambda.residual) * total(
            n,
            |t: int|
                (c.slope)(
                    mse_of::<A>(self.output_at(inputs, start, decay, lr, t), inputs[t]),
                ),
        )
    }

    /// The losses of one more step.
    proof fn lemma_one_more_step(
        &self,
        c: Calculus<A>,
        inputs: Seq<Seq<A::T>>,
        y: Seq<usize>,
        start: Carried<A::T>,
        decay: A::T,
        lr: A::T,
        lambda: LossWeights<A::T>,
        t: nat,
    )
        requires
            c.holds(),
        ensures
            self.sequence_slope(c, inputs, y, start, decay, lr, lambda, t + 1)
                == self.sequence_slope(c, inputs, y, start, decay, lr, lambda, t)
                + self.losses_slope(
                c,
                inputs[t as int],
                self.step_at(inputs, start, decay, lr, t as int).h_out,
                y[t as int] as int,
                lambda,
            ),
    {
        let out = self.step_at(inputs, start, decay, lr, t as int).h_out;
        assert(out == self.output_at(inputs, start, decay, lr, t as int));
        let pred = self.pred_loss(inputs, y, start, decay, lr, t);
        let recon = self.recon_loss(inputs, start, decay, lr, t);
        let ce = cross_entropy_of::<A>(self.logits_of(out), y[t as int] as int);
        let se = mse_of::<A>(self.decoded_of(out), inputs[t as int]);
        let change = (c.slope)(mse_of::<A>(out, inputs[t as int]));
        let f = |t: int|
            (c.slope)(mse_of::<A>(self.output_at(inputs, start, decay, lr, t), inputs[t]));
        assert(self.pred_loss(inputs, y, start, decay, lr, t + 1) == s_plus::<A>(pred, ce));
        assert(self.recon_loss(inputs, start, decay, lr, t + 1) == s_plus::<A>(recon, se));
        assert((c.slope)(s_plus::<A>(pred, ce)) == (c.slope)(pred) + (c.slope)(ce) && (c.slope)(
            s_plus::<A>(recon, se),
        ) == (c.slope)(recon) + (c.slope)(se)) by {
            reveal(Calculus::holds);
        }
        assert(total(t + 1, f) == total(t, f) + f(t as int));
        lemma_distributes(weight_of(c, lambda.pred), (c.slope)(pred), (c.slope)(ce));
        lemma_distributes(weight_of(c, lambda.recon), (c.slope)(recon), (c.slope)(se));
        lemma_distributes(weight_of(c, lambda.residual), total(t, f), change);
    }

    /// No steps have no losses.
    proof fn lemma_no_steps(
        &self,
        c: Calculus<A>,
        inputs: Seq<Seq<A::T>>,
        y: Seq<usize>,
        start: Carried<A::T>,
        decay: A::T,
        lr: A::T,
        lambda: LossWeights<A::T>,
    )
        requires
            c.holds(),
        ensures
            self.sequence_slope(c, inputs, y, start, decay, lr, lambda, 0) == 0real,
    {
        assert((c.slope)(zero::<A>()) == 0real) by {
            reveal(Calculus::holds);
        }
        lemma_neutral(weight_of(c, lambda.pred));
        lemma_neutral(weight_of(c, lambda.recon));
        lemma_neutral(weight_of(c, lambda.residual));
    }

    /// The state after some steps is as wide as the model.
    proof fn lemma_carried_len(
        &self,
        inputs: Seq<Seq<A::T>>,
        start: Carried<A::T>,
        decay: A::T,
        lr: A::T,
        t: nat,
    )
        requires
            start.s.len() == self.config.d_model,
        ensures
            self.carried(inputs, start, decay, lr, t).s.len() == self.config.d_model,
    {
    }

    /// What the gradients at the inputs of step `t` amount to along them, less the residual part.
    pub open spec fn input_along(
        &self,
        c: Calculus<A>,
        delta_hin: Seq<A::T>,
        h_in: Seq<A::T>,
        h_out: Seq<A::T>,
        lambda: LossWeights<A::T>,
    ) -> real {
        c.along(delta_hin, h_in) - weight_of(c, lambda.residual) * c.along(
            mse_grad_of::<A>(h_out, h_in),
            h_in,
        )
    }

    /// The gradients from step `t` on are the derivatives of the losses from there.
    proof fn lemma_sequence_derivatives(
        &self,
        c: Calculus<A>,
        cache: SequenceCache<A>,
        inputs: Seq<Seq<A::T>>,
        y: Seq<usize>,
        start: Carried<A::T>,
        decay: A::T,
        lr: A::T,
        lambda: LossWeights<A::T>,
        g: LayerValues<A::T>,
        t: int,
    )
        requires
            c.holds(),
            self.wf(),
            self.config.d_model > 0,
            start.s.len() == self.config.d_model,
            g.fits::<A>(self.config),
            forall|q: int|
                0 <= q < inputs.len() ==> (#[trigger] inputs[q]).len() == self.config.d_model,
            forall|q: int| 0 <= q < inputs.len() ==> #[trigger] y[q] < self.config.vocab_size,
            self.stays_smooth(c, inputs, y, start, decay, lr),
            self.is_cached(cache, inputs, y, start, decay, lr, inputs.len() as int),
            0 <= t <= inputs.len(),
        ensures
            ({
                let n = inputs.len();
                let b = self.layer_bptt(cache, lambda, g, n as int, t);
                let f = |q: int|
                    self.input_along(
                        c,
                        self.bptt_step(cache, lambda, g, n as int, q).delta_hin,
                        inputs[q],
                        self.output_at(inputs, start, decay, lr, q),
                        lambda,
                    );
                &&& self.sequence_slope(c, inputs, y, start, decay, lr, lambda, n)
                    - self.sequence_slope(c, inputs, y, start, decay, lr, lambda, t as nat)
                    == self.along(c, b.grads) - self.along(c, g) + c.along(
                    b.temporal,
                    self.carried(inputs, start, decay, lr, t as nat).s,
                ) + total(n, f) - total(t as nat, f)
                &&& b.grads.fits::<A>(self.config)
                &&& b.temporal.len() == self.config.d_model
            }),
        decreases inputs.len() - t,
    {
        let n = inputs.len();
        let before = self.carried(inputs, start, decay, lr, t as nat);
        self.lemma_carried_len(inputs, start, decay, lr, t as nat);
        if t == n {
            c.lemma_along_nothing(before.s);
        } else {
            self.lemma_sequence_derivatives(
                c,
                cache,
                inputs,
                y,
                start,
                decay,
                lr,
                lambda,
                g,
                t + 1,
            );
            let later = self.layer_bptt(cache, lambda, g, n as int, t + 1);
            let step = self.step_at(inputs, start, decay, lr, t);
            assert(inputs[t].len() == self.config.d_model && y[t] < self.config.vocab_size);
            assert(self.is_smooth(c, step, y[t] as int));
            self.lemma_step_derivatives(
                c,
                inputs[t],
                y[t] as int,
                before.m,
                before.s,
                lambda,
                later.temporal,
                later.grads,
            );
            assert(cache.step_at(self.config, t) == self.cached_step(
                inputs[t],
                y[t] as int,
                before.m,
                before.s,
            ));
            assert(cache.state_at(self.config, t) == before.s);
            assert(cache.state_at(self.config, t + 1) == self.carried(
                inputs,
                start,
                decay,
                lr,
                (t + 1) as nat,
            ).s);
            assert(self.carried(inputs, start, decay, lr, (t + 1) as nat).s == step.state);
            self.lemma_one_more_step(c, inputs, y, start, decay, lr, lambda, t as nat);
            let f = |q: int|
                self.input_along(
                    c,
                    self.bptt_step(cache, lambda, g, n as int, q).delta_hin,
                    inputs[q],
                    self.output_at(inputs, start, decay, lr, q),
                    lambda,
                );
            assert(total((t + 1) as nat, f) == total(t as nat, f) + f(t));
            assert(step.h_out == self.output_at(inputs, start, decay, lr, t));
        }
    }
}

/// The gradients of a layer over a sequence are the derivatives of its losses, with the recalled
/// memory held fixed: along any direction in which its weights, its inputs and its first state
/// move, the slope of the weighted losses is the sum of the gradients that the sequence adds, each
/// times the slope of what it is the gradient of. The gradient at an input leaves the residual
/// loss's direct part out. The prediction and the reconstruction losses are those that the forward
/// pass returns. Corners are left out: targets whose probability is cut off at 1e-12, and scores
/// that are no numbers.
pub proof fn layer_gradients_are_derivatives<A: Arith>(
    c: Calculus<A>,
    layer: AxiomLayer<A>,
    cache: SequenceCache<A>,
    inputs: Seq<Seq<A::T>>,
    y: Seq<usize>,
    start: Carried<A::T>,
    decay: A::T,
    lr: A::T,
    lambda: LossWeights<A::T>,
    g: LayerValues<A::T>,
)
    requires
        c.holds(),
        layer.wf(),
        layer.config.d_model > 0,
        start.s.len() == layer.config.d_model,
        g.fits::<A>(layer.config),
        forall|q: int|
            0 <= q < inputs.len() ==> (#[trigger] inputs[q]).len() == layer.config.d_model,
        forall|q: int| 0 <= q < inputs.len() ==> #[trigger] y[q] < layer.config.vocab_size,
        layer.stays_smooth(c, inputs, y, start, decay, lr),
        layer.is_cached(cache, inputs, y, start, decay, lr, inputs.len() as int),
    ensures
        ({
            let n = inputs.len();
            let b = layer.layer_bptt(cache, lambda, g, n as int, 0);
            layer.sequence_slope(c, inputs, y, start, decay, lr, lambda, n) == layer.along(
                c,
                b.grads,
            ) - layer.along(c, g) + c.along(b.temporal, start.s) + total(
                n,
                |q: int|
                    layer.input_along(
                        c,
                        layer.bptt_step(cache, lambda, g, n as int, q).delta_hin,
                        inputs[q],
                        layer.output_at(inputs, start, decay, lr, q),
                        lambda,
                    ),
            )
        }),
{
    layer.lemma_sequence_derivatives(c, cache, inputs, y, start, decay, lr, lambda, g, 0);
    layer.lemma_no_steps(c, inputs, y, start, decay, lr, lambda);
}

impl<A: Arith> AxiomSingleLayerModel<A> {
    /// The gradients along the weights of the model.
    pub open spec fn along(&self, c: Calculus<A>, g: ModelValues<A::T>) -> real {
        c.along(g.embeddings, self.embeddings@) + c.along(g.pos_embeddings, self.pos_embeddings@)
            + self.layer.along(c, g.layer)
    }

    /// A gradient at an input, handed on to the embeddings that make it up.
    proof fn lemma_embedding_derivatives(
        &self,
        c: Calculus<A>,
        g: ModelValues<A::T>,
        token: int,
        pos: int,
        delta: Seq<A::T>,
    )
        requires
            c.holds(),
            self.wf(),
            0 <= token < self.config.vocab_size,
            0 <= pos,
            delta.len() == self.config.d_model,
            g.fits::<A>(self.config, self.max_seq_len as nat),
        ensures
            ({
                let after = self.embedding_grads_added(g, token, pos, delta);
                &&& self.along(c, after) == self.along(c, g) + c.along(
                    delta,
                    self.embed(token, pos),
                )
                &&& after.fits::<A>(self.config, self.max_seq_len as nat)
            }),
    {
        let d = self.config.d_model as nat;
        let (v, l) = (self.config.vocab_size as nat, self.max_seq_len as nat);
        let h = self.embed(token, pos);
        let row = row_of(self.embeddings@, d, token);
        lemma_row_bounds(v, d, token);
        c.lemma_along_row(g.embeddings, self.embeddings@, v, d, token, delta);
        if pos < l {
            let place = row_of(self.pos_embeddings@, d, pos);
            lemma_row_bounds(l, d, pos);
            c.lemma_along_row(g.pos_embeddings, self.pos_embeddings@, l, d, pos, delta);
            c.lemma_through_add_scaled(delta, row, place, one::<A>());
            c.lemma_exact();
            lemma_neutral(c.along(delta, place));
            lemma_neutral((c.num)(dot_of::<A>(delta, place)));
            assert((c.slope)(one::<A>()) == 0real) by {
                reveal(Calculus::holds);
            }
        } else {
            assert(h =~= row);
        }
    }

    /// The gradients from step `t` on are the derivatives of the losses from there.
    #[verifier::rlimit(40)]
    #[verifier::spinoff_prover]
    proof fn lemma_bptt_derivatives(
        &self,
        c: Calculus<A>,
        cache: SequenceCache<A>,
        x: Seq<usize>,
        y: Seq<usize>,
        start: Carried<A::T>,
        decay: A::T,
        lr: A::T,
        lambda: LossWeights<A::T>,
        g: ModelValues<A::T>,
        t: int,
    )
        requires
            c.holds(),
            self.wf(),
            self.config.d_model > 0,
            start.s.len() == self.config.d_model,
            g.fits::<A>(self.config, self.max_seq_len as nat),
            forall|q: int| 0 <= q < x.len() ==> #[trigger] x[q] < self.config.vocab_size,
            forall|q: int| 0 <= q < x.len() ==> #[trigger] y[q] < self.config.vocab_size,
            self.layer.stays_smooth(c, self.inputs(x), y, start, decay, lr),
            self.layer.is_cached(cache, self.inputs(x), y, start, decay, lr, x.len() as int),
            0 <= t <= x.len(),
        ensures
            ({
                let b = self.bptt(x, cache, lambda, g, t);
                let inputs = self.inputs(x);
                &&& self.layer.sequence_slope(c, inputs, y, start, decay, lr, lambda, x.len())
                    - self.layer.sequence_slope(c, inputs, y, start, decay, lr, lambda, t as nat)
                    == self.along(c, b.grads) - self.along(c, g) + c.along(
                    b.temporal,
                    self.layer.carried(inputs, start, decay, lr, t as nat).s,
                )
                &&& b.grads.fits::<A>(self.config, self.max_seq_len as nat)
                &&& b.temporal.len() == self.config.d_model
            }),
        decreases x.len() - t,
    {
        let inputs = self.inputs(x);
        let layer = self.layer;
        let before = layer.carried(inputs, start, decay, lr, t as nat);
        layer.lemma_carried_len(inputs, start, decay, lr, t as nat);
        if t == x.len() {
            c.lemma_along_nothing(before.s);
        } else {
            self.lemma_bptt_derivatives(c, cache, x, y, start, decay, lr, lambda, g, t + 1);
            let later = self.bptt(x, cache, lambda, g, t + 1);
            let step = layer.step_at(inputs, start, decay, lr, t);
            let h_in = self.embed(x[t] as int, t);
            assert(x[t] < self.config.vocab_size && y[t] < self.config.vocab_size);
            lemma_row_bounds(self.config.vocab_size as nat, self.config.d_model as nat, x[t] as int);
            if t < self.max_seq_len {
                lemma_row_bounds(self.max_seq_len as nat, self.config.d_model as nat, t);
            }
            assert(inputs[t] == h_in && h_in.len() == self.config.d_model);
            assert(layer.is_smooth(c, step, y[t] as int));
            layer.lemma_step_derivatives(
                c,
                h_in,
                y[t] as int,
                before.m,
                before.s,
                lambda,
                later.temporal,
                later.grads.layer,
            );
            let cs = cache.step_at(self.config, t);
            assert(cs == layer.cached_step(h_in, y[t] as int, before.m, before.s));
            assert(cache.state_at(self.config, t) == before.s);
            assert(cache.state_at(self.config, t + 1) == layer.carried(
                inputs,
                start,
                decay,
                lr,
                (t + 1) as nat,
            ).s);
            assert(layer.carried(inputs, start, decay, lr, (t + 1) as nat).s == step.state);
            layer.lemma_one_more_step(c, inputs, y, start, decay, lr, lambda, t as nat);
            let b = layer.backward_cached(
                cs,
                before.s,
                step.state,
                lambda,
                later.temporal,
                later.grads.layer,
            );
            let delta = self.input_gradient(b.delta_hin, cs.h_in, cs.h_out, lambda.residual);
            assert(c.along(delta, h_in) == layer.input_along(
                c,
                b.delta_hin,
                h_in,
                step.h_out,
                lambda,
            ) && delta.len() == self.config.d_model) by {
                lemma_residual::<A>(
                    c,
                    b.delta_hin,
                    lambda.residual,
                    self.config.d_model,
                    step.h_out,
                    h_in,
                    h_in,
                );
                c.lemma_exact();
                assert(s_exceeds::<A>(lambda.residual, zero::<A>()) == ((c.num)(lambda.residual)
                    > 0real)) by {
                    reveal(exact);
                }
                lemma_neutral(c.along(mse_grad_of::<A>(step.h_out, h_in), h_in));
            }
            let middle = ModelValues { layer: b.grads, ..later.grads };
            self.lemma_embedding_derivatives(c, middle, x[t] as int, t, delta);
        }
    }
}

/// The gradients of the single-layer model are the derivatives of its losses, with the recalled
/// memory held fixed: along any direction in which the embeddings and the weights of the layer
/// move, the slope of the weighted losses of a sequence is the sum of the gradients that the
/// sequence adds, each times the slope of its weight. The sequence starts from a state that does
/// not move. Corners are left out: targets whose probability is cut off at 1e-12, and scores that
/// are no numbers.
pub proof fn axiom_model_gradients_are_derivatives<A: Arith>(
    c: Calculus<A>,
    model: AxiomSingleLayerModel<A>,
    cache: SequenceCache<A>,
    x: Seq<usize>,
    y: Seq<usize>,
    start: Carried<A::T>,
    decay: A::T,
    lr: A::T,
    lambda: LossWeights<A::T>,
    g: ModelValues<A::T>,
)
    requires
        c.holds(),
        model.wf(),
        model.config.d_model > 0,
        start.s.len() == model.config.d_model,
        forall|i: int| 0 <= i < start.s.len() ==> (c.slope)(#[trigger] start.s[i]) == 0real,
        g.fits::<A>(model.config, model.max_seq_len as nat),
        forall|q: int| 0 <= q < x.len() ==> #[trigger] x[q] < model.config.vocab_size,
        forall|q: int| 0 <= q < x.len() ==> #[trigger] y[q] < model.config.vocab_size,
        model.layer.stays_smooth(c, model.inputs(x), y, start, decay, lr),
        model.layer.is_cached(cache, model.inputs(x), y, start, decay, lr, x.len() as int),
    ensures
        model.layer.sequence_slope(
            c,
            model.inputs(x),
            y,
            start,
            decay,
            lr,
            lambda,
            x.len(),
        ) == model.along(c, model.bptt(x, cache, lambda, g, 0).grads) - model.along(c, g),
{
    model.lemma_bptt_derivatives(c, cache, x, y, start, decay, lr, lambda, g, 0);
    model.layer.lemma_no_steps(c, model.inputs(x), y, start, decay, lr, lambda);
    lemma_still_inputs(c, model.bptt(x, cache, lambda, g, 0).temporal, start.s);
}

impl<A: Arith> AxiomLayer<A> {
    /// The gradient at the output of a step, whichever way a reconstruction weight of one is
    /// applied.
    proof fn lemma_unweighted(
        &self,
        c: Calculus<A>,
        h_in: Seq<A::T>,
        h_out: Seq<A::T>,
        pred_grad: Seq<A::T>,
        recon_grad: Seq<A::T>,
        lambda: LossWeights<A::T>,
        w: Seq<A::T>,
    )
        requires
            c.holds(),
            self.wf(),
            self.config.d_model > 0,
            h_in.len() == self.config.d_model,
            h_out.len() == self.config.d_model,
            pred_grad.len() == self.config.vocab_size,
            recon_grad.len() == self.config.d_model,
            w.len() == self.config.d_model,
        ensures
            self.delta_h1_of(h_in, h_out, pred_grad, recon_grad, lambda, true).len()
                == self.config.d_model,
            c.along(
                self.delta_h1_of(h_in, h_out, pred_grad, recon_grad, lambda, true),
                w,
            ) == c.along(
                self.delta_h1_of(h_in, h_out, pred_grad, recon_grad, lambda, false),
                w,
            ),
    {
        c.lemma_exact();
        let d = self.config.d_model as nat;
        let start = zeros::<A>(d);
        let sum = rows_added::<A>(start, self.w_pred@, pred_grad, pred_grad.len());
        lemma_rows_added_len::<A>(start, self.w_pred@, pred_grad, pred_grad.len());
        let after_pred = if s_exceeds::<A>(lambda.pred, zero::<A>()) {
            if s_equals::<A>(lambda.pred, one::<A>()) {
                sum
            } else {
                scaled::<A>(sum, lambda.pred)
            }
        } else {
            start
        };
        let weighed = times_each::<A>(lambda.recon, recon_grad);
        let (plain, heavy) = (
            rows_added::<A>(after_pred, self.w_decode@, recon_grad, d),
            rows_added::<A>(after_pred, self.w_decode@, weighed, d),
        );
        c.lemma_along_rows(after_pred, self.w_decode@, recon_grad, w);
        c.lemma_along_rows(after_pred, self.w_decode@, weighed, w);
        if s_equals::<A>(lambda.recon, one::<A>()) {
            assert((c.num)(lambda.recon) == 1real) by {
                reveal(exact);
            }
            c.lemma_transposed(self.w_decode@, recon_grad, w);
            c.lemma_transposed(self.w_decode@, weighed, w);
            let f = |r: int|
                (c.num)(recon_grad[r]) * total(
                    d,
                    |k: int| (c.num)(self.w_decode@[r * d + k]) * (c.slope)(w[k]),
                );
            let g = |r: int|
                (c.num)(weighed[r]) * total(
                    d,
                    |k: int| (c.num)(self.w_decode@[r * d + k]) * (c.slope)(w[k]),
                );
            assert forall|r: int| 0 <= r < d implies #[trigger] f(r) == g(r) by {
                reveal(exact);
                lemma_neutral((c.num)(recon_grad[r]));
            }
            lemma_total_same(d, f, g);
            assert(c.along(plain, w) == c.along(heavy, w));
        }
        let size = self.config.d_model;
        lemma_residual::<A>(c, plain, lambda.residual, size, h_out, h_in, w);
        lemma_residual::<A>(c, heavy, lambda.residual, size, h_out, h_in, w);
    }
}

/// The gradients of a single training step are the derivatives of its losses, with the recalled
/// memory and the state before it held fixed: along any direction in which the weights of the layer
/// and its input move, the slope of the weighted losses is the sum of the gradients that the step
/// adds, each times the slope of its weight, and of the gradient at the input along it. Loss weights
/// are not negative. Corners are left out.
#[verifier::rlimit(60)]
#[verifier::spinoff_prover]
pub proof fn single_step_gradients_are_derivatives<A: Arith>(
    c: Calculus<A>,
    layer: AxiomLayer<A>,
    h_in: Seq<A::T>,
    target: int,
    m: Seq<A::T>,
    s_prev: Seq<A::T>,
    lambda: LossWeights<A::T>,
    before: ScratchView<A::T>,
    g: LayerValues<A::T>,
)
    requires
        c.holds(),
        layer.wf(),
        layer.config.d_model > 0,
        h_in.len() == layer.config.d_model,
        s_prev.len() == layer.config.d_model,
        0 <= target < layer.config.vocab_size,
        g.fits::<A>(layer.config),
        (c.num)(lambda.pred) >= 0real,
        (c.num)(lambda.recon) >= 0real,
        layer.is_smooth(c, layer.step(h_in, m, s_prev), target),
        forall|i: int| 0 <= i < s_prev.len() ==> (c.slope)(#[trigger] s_prev[i]) == 0real,
    ensures
        ({
            let step = layer.step(h_in, m, s_prev);
            let b = layer.backward(
                h_in,
                s_prev,
                step.state,
                step.h_out,
                lambda,
                layer.trained_scratch(h_in, target, step, before),
                g,
            );
            layer.losses_slope(c, h_in, step.h_out, target, lambda) == layer.along(c, b.grads)
                - layer.along(c, g) + c.along(b.grad_h_in, h_in)
        }),
{
    c.lemma_exact();
    let d = layer.config.d_model as nat;
    let step = layer.step(h_in, m, s_prev);
    let acts = layer.trained_scratch(h_in, target, step, before);
    let b = layer.backward(h_in, s_prev, step.state, step.h_out, lambda, acts, g);
    lemma_top2_are_scores::<A>(step.gate_scores, layer.config.num_experts as nat);
    layer.lemma_losses(c, h_in, step.h_out, target, lambda, g.w_pred, g.w_decode);
    let logits = layer.logits_of(step.h_out);
    let (pred_grad, recon_grad) = (acts.pred_grad, acts.recon_grad);
    cross_entropy_gradients_are_derivatives::<A>(c, logits, target);
    assert(pred_grad.len() == layer.config.vocab_size && recon_grad.len() == d);
    layer.lemma_unweighted(c, h_in, step.h_out, pred_grad, recon_grad, lambda, step.h_out);
    let u = layer.delta_h1_of(h_in, step.h_out, pred_grad, recon_grad, lambda, true);
    layer.lemma_routed(c, step, h_in, u, g.experts, g.w_gate);
    let delta_s = b.delta_s;
    layer.lemma_state(c, h_in, step.m_recall, s_prev, delta_s, g.w_s);
    let delta_us = sigmoid_grad_all::<A>(step.state, delta_s);
    let transposed = matvec_transposed_of::<A>(layer.w_s@, 3 * d, delta_us);
    lemma_still_inputs(c, transposed.subrange(2 * d as int, 3 * d as int), s_prev);
    let near = transposed.take(d as int);
    let direct = add_scaled::<A>(u, near, one::<A>());
    c.lemma_along_add_scaled(u, near, one::<A>(), h_in);
    lemma_neutral(c.along(near, h_in));
    assert(s_exceeds::<A>(lambda.pred, zero::<A>()) == ((c.num)(lambda.pred) > 0real)
        && s_exceeds::<A>(lambda.recon, zero::<A>()) == ((c.num)(lambda.recon) > 0real)
        && s_exceeds::<A>(lambda.residual, zero::<A>()) == ((c.num)(lambda.residual) > 0real)) by {
        reveal(exact);
    }
    // the heads, where a weight is zero
    c.lemma_along_outer(g.w_pred, layer.w_pred@, pred_grad, step.h_out, lambda.pred);
    c.lemma_along_outer(g.w_decode, layer.w_decode@, recon_grad, step.h_out, lambda.recon);
    lemma_neutral(c.weights_move(layer.w_pred@, pred_grad, step.h_out));
    lemma_neutral(c.weights_move(layer.w_decode@, recon_grad, step.h_out));
    // the input
    let neg = s_negate::<A>(lambda.recon);
    c.lemma_along_add_scaled(direct, recon_grad, neg, h_in);
    let (l, z) = ((c.num)(lambda.recon), c.along(recon_grad, h_in));
    assert((c.num)(neg) * z == -(l * z)) by {
        reveal(exact);
        assert((-l) * z == -(l * z)) by (nonlinear_arith);
    }
    let with_recon = if s_exceeds::<A>(lambda.recon, zero::<A>()) {
        add_scaled::<A>(direct, recon_grad, neg)
    } else {
        direct
    };
    lemma_neutral(z);
    lemma_residual::<A>(
        c,
        with_recon,
        lambda.residual,
        layer.config.d_model,
        step.h_out,
        h_in,
        h_in,
    );
    lemma_neutral(c.along(mse_grad_of::<A>(step.h_out, h_in), h_in));
}

} // verus!
