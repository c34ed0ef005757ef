//! How the gradients of the Transformer compare with the derivatives of its loss. They are those
//! derivatives but for two things that they leave out: that the scores of a query move together,
//! which the normalizer of its attention takes out again, and that the slope of the GELU is taken
//! with its constant to eight digits.

use vstd::prelude::*;
use crate::arith::{Arith, one, s_count, s_lit, s_plus, s_powi, s_sqrt, s_tanh, s_times};
use crate::derivatives::{
    counts, cross_entropy_gradients_are_derivatives, softmax_moves_with_its_logits,
};
use crate::exact::{
    exact, lemma_commutes, lemma_distributes, lemma_neutral, lemma_regroups, lemma_total_plus,
    lemma_total_same, lemma_total_times, lemma_total_zero, power_of_ten, total,
};
use crate::forge_derivatives::{lemma_through_summed, lemma_total_but_one};
use crate::gru_derivatives::lemma_still_inputs;
use crate::layer::times_each;
use crate::matvec::{lemma_rows_added_len, matvec_of, matvec_transposed_of, summed};
use crate::slopes::Calculus;
use crate::softmax::{cross_entropy_of, softmax_of};
use crate::tensor::{dot_of, lemma_row_bounds, row_of, zeros};
use crate::transformer::{
    AttnBack, BlockValues, TransformerBlock, TransformerValues, attention_scale, attention_scores,
    gelu_slope, weighted_sum,
};
use crate::transformer_model::TransformerModel;

verus! {

/// The sums of the rows of gradients along the rows that they are the gradients of.
pub open spec fn rows_along<A: Arith>(
    c: Calculus<A>,
    g: Seq<Seq<A::T>>,
    rows: Seq<Seq<A::T>>,
) -> real {
    total(rows.len(), |t: int| c.along(g[t], rows[t]))
}

/// A vector that is added to one row of the gradients.
proof fn lemma_rows_raised<A: Arith>(
    c: Calculus<A>,
    g: Seq<Seq<A::T>>,
    rows: Seq<Seq<A::T>>,
    t: int,
    x: Seq<A::T>,
)
    requires
        c.holds(),
        0 <= t < rows.len(),
        g.len() == rows.len(),
        g[t].len() == rows[t].len(),
        x.len() == rows[t].len(),
    ensures
        rows_along(c, g.update(t, summed::<A>(g[t], x)), rows) == rows_along(c, g, rows) + c.along(
            x,
            rows[t],
        ),
{
    let after = g.update(t, summed::<A>(g[t], x));
    let f = |i: int| c.along(after[i], rows[i]);
    let h = |i: int| c.along(g[i], rows[i]);
    lemma_total_but_one(rows.len(), f, h, t);
    c.lemma_along_summed(g[t], x, rows[t]);
}

/// The scale of the attention does not move.
proof fn lemma_scale_is_still<A: Arith>(c: Calculus<A>, d: usize)
    requires
        c.holds(),
        d > 0,
    ensures
        (c.slope)(attention_scale::<A>(d)) == 0real,
{
    c.lemma_exact();
    let count = s_count::<A>(d);
    let root = s_sqrt::<A>(count);
    let (r, p, s) = ((c.num)(root), (c.slope)(root), (c.slope)(attention_scale::<A>(d)));
    assert((c.num)(count) == d as real && r >= 0real && r * r == d as real) by {
        reveal(exact);
    }
    assert(r > 0real) by (nonlinear_arith)
        requires
            r >= 0real,
            r * r > 0real,
    ;
    let rr = r * r;
    let rp = r * p;
    assert(2real * rp == 0real && s * rr == -p) by {
        reveal(Calculus::holds);
        lemma_neutral(r);
        lemma_neutral(p);
    }
    assert(p == 0real) by (nonlinear_arith)
        requires
            r * p == 0real,
            r > 0real,
    ;
    assert(s == 0real) by (nonlinear_arith)
        requires
            s * rr == 0real,
            rr > 0real,
    ;
}

impl<A: Arith> TransformerBlock<A> {
    /// What is put into the attention of query `t` for key `j`.
    pub open spec fn score(&self, hs: Seq<Seq<A::T>>, t: int, j: int) -> A::T {
        s_times::<A>(
            dot_of::<A>(self.query(hs[t]), self.key(hs[j])),
            attention_scale::<A>(self.d_model),
        )
    }

    /// The scores of query `t`.
    pub open spec fn scores(&self, hs: Seq<Seq<A::T>>, t: int) -> Seq<A::T> {
        attention_scores::<A>(
            self.query(hs[t]),
            self.keys(hs),
            attention_scale::<A>(self.d_model),
            (t + 1) as nat,
        )
    }

    /// What goes back through the attention, along what it is the gradient of.
    pub open spec fn attention_along(
        &self,
        c: Calculus<A>,
        b: AttnBack<A::T>,
        hs: Seq<Seq<A::T>>,
    ) -> real {
        c.along(b.wq, self.wq@) + c.along(b.wk, self.wk@) + c.along(b.wv, self.wv@) + c.along(
            b.wo,
            self.wo@,
        ) + rows_along(c, b.delta_in, hs)
    }

    /// The gradients of the attention are as large as they should be.
    pub open spec fn fits_attention(&self, b: AttnBack<A::T>, n: nat) -> bool {
        let d = self.d_model as nat;
        &&& b.wq.len() == d * d
        &&& b.wk.len() == d * d
        &&& b.wv.len() == d * d
        &&& b.wo.len() == d * d
        &&& b.delta_in.len() == n
        &&& forall|t: int| 0 <= t < n ==> (#[trigger] b.delta_in[t]).len() == d
    }

    /// What a pair of a query and a key adds.
    #[verifier::rlimit(40)]
    #[verifier::spinoff_prover]
    proof fn lemma_pair(
        &self,
        c: Calculus<A>,
        hs: Seq<Seq<A::T>>,
        u: Seq<A::T>,
        b: AttnBack<A::T>,
        t: int,
        j: int,
    )
        requires
            c.holds(),
            self.wf(),
            self.d_model > 0,
            forall|i: int| 0 <= i < hs.len() ==> (#[trigger] hs[i]).len() == self.d_model,
            u.len() == self.d_model,
            self.fits_attention(b, hs.len()),
            0 <= j <= t < hs.len(),
        ensures
            ({
                let after = self.pair_back(hs, u, b, t, j);
                let p = self.attention(hs, t)[j];
                &&& self.fits_attention(after, hs.len())
                &&& after.wo == b.wo
                &&& self.attention_along(c, after, hs) == self.attention_along(c, b, hs) + (c.num)(
                    p,
                ) * c.along(u, self.value(hs[j])) + ((c.num)(p) * (c.num)(
                    dot_of::<A>(u, self.value(hs[j])),
                )) * (c.slope)(self.score(hs, t, j))
            }),
    {
        c.lemma_exact();
        let d = self.d_model as nat;
        let p = self.attention(hs, t)[j];
        let (ht, hj) = (hs[t], hs[j]);
        assert(ht.len() == d && hj.len() == d);
        let (q, k, v) = (self.query(ht), self.key(hj), self.value(hj));
        let scale = attention_scale::<A>(self.d_model);
        let match_ = dot_of::<A>(u, v);
        let d_v = times_each::<A>(p, u);
        let d_score = s_times::<A>(s_times::<A>(p, match_), scale);
        let d_q = times_each::<A>(d_score, k);
        let d_k = times_each::<A>(d_score, q);
        let dq_in = matvec_transposed_of::<A>(self.wq@, d, d_q);
        let dk_in = matvec_transposed_of::<A>(self.wk@, d, d_k);
        let dv_in = matvec_transposed_of::<A>(self.wv@, d, d_v);
        c.lemma_linear(self.wq@, d_q, ht);
        c.lemma_linear(self.wk@, d_k, hj);
        c.lemma_linear(self.wv@, d_v, hj);
        c.lemma_transposed(self.wq@, d_q, ht);
        c.lemma_transposed(self.wk@, d_k, hj);
        c.lemma_transposed(self.wv@, d_v, hj);
        c.lemma_along_outer(b.wq, self.wq@, d_q, ht, one::<A>());
        c.lemma_along_outer(b.wk, self.wk@, d_k, hj, one::<A>());
        c.lemma_along_outer(b.wv, self.wv@, d_v, hj, one::<A>());
        lemma_neutral(c.weights_move(self.wq@, d_q, ht));
        lemma_neutral(c.weights_move(self.wk@, d_k, hj));
        lemma_neutral(c.weights_move(self.wv@, d_v, hj));
        c.lemma_along_scaled(u, p, v);
        c.lemma_along_scaled(k, d_score, q);
        c.lemma_along_scaled(q, d_score, k);
        assert(b.delta_in[t].len() == d && b.delta_in[j].len() == d);
        lemma_rows_raised(c, b.delta_in, hs, t, dq_in);
        let with_q = b.delta_in.update(t, summed::<A>(b.delta_in[t], dq_in));
        lemma_rows_raised(c, with_q, hs, j, summed::<A>(dk_in, dv_in));
        c.lemma_along_summed(dk_in, dv_in, hj);
        // the score
        lemma_scale_is_still(c, self.d_model);
        c.lemma_slope_dot(q, k);
        let x = |i: int| (c.slope)(q[i]) * (c.num)(k[i]);
        let y = |i: int| (c.num)(k[i]) * (c.slope)(q[i]);
        assert forall|i: int| 0 <= i < d implies #[trigger] x(i) == y(i) by {
            lemma_commutes((c.slope)(q[i]), (c.num)(k[i]));
        }
        lemma_total_same(d, x, y);
        let (m, s, w) = (
            (c.num)(p) * (c.num)(match_),
            (c.num)(scale),
            c.along(k, q) + c.along(q, k),
        );
        assert((c.num)(d_score) == m * s) by {
            reveal(exact);
        }
        assert((c.slope)(self.score(hs, t, j)) == w * s) by {
            reveal(Calculus::holds);
            lemma_neutral((c.num)(dot_of::<A>(q, k)));
        }
        lemma_distributes(m * s, c.along(k, q), c.along(q, k));
        lemma_regroups(m, s, w);
        lemma_commutes(s, w);
        let after = self.pair_back(hs, u, b, t, j);
        assert forall|i: int| 0 <= i < hs.len() implies (#[trigger] after.delta_in[i]).len() == d by {
            assert(b.delta_in[i].len() == d);
        }
    }

    /// What query `t` adds with its first `n` keys.
    proof fn lemma_row(
        &self,
        c: Calculus<A>,
        hs: Seq<Seq<A::T>>,
        dm: Seq<Seq<A::T>>,
        b: AttnBack<A::T>,
        t: int,
        n: nat,
    )
        requires
            c.holds(),
            self.wf(),
            self.d_model > 0,
            forall|i: int| 0 <= i < hs.len() ==> (#[trigger] hs[i]).len() == self.d_model,
            dm.len() == hs.len(),
            dm[t].len() == self.d_model,
            self.fits_attention(b, hs.len()),
            0 <= t < hs.len(),
            n <= t + 1,
        ensures
            ({
                let after = self.row_back(hs, dm, b, t, n);
                let u = self.d_out_of(dm[t]);
                &&& self.fits_attention(after, hs.len())
                &&& self.attention_along(c, after, hs) == self.attention_along(c, b, hs)
                    + c.weights_move(self.wo@, dm[t], self.attn_out_of(hs, t)) + c.along(
                    dm[t],
                    hs[t],
                ) + total(
                    n,
                    |j: int|
                        (c.num)(self.attention(hs, t)[j]) * c.along(u, self.value(hs[j])) + ((
                        c.num)(self.attention(hs, t)[j]) * (c.num)(
                            dot_of::<A>(u, self.value(hs[j])),
                        )) * (c.slope)(self.score(hs, t, j)),
                )
            }),
        decreases n,
    {
        let d = self.d_model as nat;
        let u = self.d_out_of(dm[t]);
        assert(hs[t].len() == d);
        c.lemma_transposed(self.wo@, dm[t], hs[t]);
        if n == 0 {
            c.lemma_exact();
            let out = self.attn_out_of(hs, t);
            self.lemma_attended_len(hs, t, (t + 1) as nat);
            c.lemma_along_outer(b.wo, self.wo@, dm[t], out, one::<A>());
            lemma_neutral(c.weights_move(self.wo@, dm[t], out));
            assert(b.delta_in[t].len() == d);
            lemma_rows_raised(c, b.delta_in, hs, t, dm[t]);
            let after = self.row_back(hs, dm, b, t, 0);
            assert forall|i: int| 0 <= i < hs.len() implies (#[trigger] after.delta_in[i]).len()
                == d by {
                assert(b.delta_in[i].len() == d);
            }
        } else {
            self.lemma_row(c, hs, dm, b, t, (n - 1) as nat);
            let before = self.row_back(hs, dm, b, t, (n - 1) as nat);
            self.lemma_pair(c, hs, u, before, t, n - 1);
        }
    }

    /// What is attended to is as wide as the model.
    proof fn lemma_attended_len(&self, hs: Seq<Seq<A::T>>, t: int, n: nat)
        ensures
            weighted_sum::<A>(
                self.d_model as nat,
                self.values_of(hs),
                self.attention(hs, t),
                n,
            ).len() == self.d_model,
        decreases n,
    {
        if n > 0 {
            self.lemma_attended_len(hs, t, (n - 1) as nat);
        }
    }

    /// What is attended to moves with the shares and the values of the first `n` keys.
    proof fn lemma_attended(
        &self,
        c: Calculus<A>,
        hs: Seq<Seq<A::T>>,
        u: Seq<A::T>,
        t: int,
        n: nat,
    )
        requires
            c.holds(),
            u.len() == self.d_model,
            0 <= t < hs.len(),
            n <= t + 1,
        ensures
            c.along(
                u,
                weighted_sum::<A>(
                    self.d_model as nat,
                    self.values_of(hs),
                    self.attention(hs, t),
                    n,
                ),
            ) == total(
                n,
                |j: int|
                    (c.num)(self.attention(hs, t)[j]) * c.along(u, self.value(hs[j])) + (c.slope)(
                        self.attention(hs, t)[j],
                    ) * (c.num)(dot_of::<A>(u, self.value(hs[j]))),
            ),
        decreases n,
    {
        c.lemma_exact();
        if n == 0 {
            lemma_still_inputs(c, u, zeros::<A>(self.d_model as nat));
        } else {
            self.lemma_attended(c, hs, u, t, (n - 1) as nat);
            self.lemma_attended_len(hs, t, (n - 1) as nat);
            let before = weighted_sum::<A>(
                self.d_model as nat,
                self.values_of(hs),
                self.attention(hs, t),
                (n - 1) as nat,
            );
            c.lemma_through_add_scaled(
                u,
                before,
                self.value(hs[n - 1]),
                self.attention(hs, t)[n - 1],
            );
        }
    }

    /// What the gradients of the attention of query `t` leave out: the movement that all its scores
    /// have in common, times what follows it.
    pub open spec fn attention_gap(
        &self,
        c: Calculus<A>,
        hs: Seq<Seq<A::T>>,
        u: Seq<A::T>,
        t: int,
    ) -> real {
        c.along(self.attention(hs, t), self.scores(hs, t)) * total(
            (t + 1) as nat,
            |j: int|
                (c.num)(self.attention(hs, t)[j]) * (c.num)(dot_of::<A>(u, self.value(hs[j]))),
        )
    }

    /// The gradients of query `t` are the derivatives of what it makes of its input, but for the
    /// gap.
    #[verifier::rlimit(30)]
    #[verifier::spinoff_prover]
    proof fn lemma_query(
        &self,
        c: Calculus<A>,
        hs: Seq<Seq<A::T>>,
        dm: Seq<Seq<A::T>>,
        b: AttnBack<A::T>,
        t: int,
    )
        requires
            c.holds(),
            self.wf(),
            self.d_model > 0,
            forall|i: int| 0 <= i < hs.len() ==> (#[trigger] hs[i]).len() == self.d_model,
            dm.len() == hs.len(),
            dm[t].len() == self.d_model,
            self.fits_attention(b, hs.len()),
            0 <= t < hs.len(),
        ensures
            ({
                let after = self.row_back(hs, dm, b, t, (t + 1) as nat);
                &&& self.fits_attention(after, hs.len())
                &&& c.along(dm[t], self.mid_of(hs, t)) == self.attention_along(c, after, hs)
                    - self.attention_along(c, b, hs) - self.attention_gap(
                    c,
                    hs,
                    self.d_out_of(dm[t]),
                    t,
                )
            }),
    {
        let d = self.d_model as nat;
        let n = (t + 1) as nat;
        let u = self.d_out_of(dm[t]);
        assert(hs[t].len() == d);
        c.lemma_transposed(self.wo@, dm[t], hs[t]);
        self.lemma_row(c, hs, dm, b, t, n);
        self.lemma_attended(c, hs, u, t, n);
        self.lemma_attended_len(hs, t, n);
        let out = self.attn_out_of(hs, t);
        let low = matvec_of::<A>(self.wo@, d, out);
        c.lemma_linear(self.wo@, dm[t], out);
        lemma_through_summed(c, dm[t], hs[t], low);
        let probs = self.attention(hs, t);
        let scores = self.scores(hs, t);
        let drift = c.along(probs, scores);
        let m = |j: int| (c.num)(probs[j]) * (c.num)(dot_of::<A>(u, self.value(hs[j])));
        let full = |j: int|
            (c.num)(probs[j]) * c.along(u, self.value(hs[j])) + (c.slope)(probs[j]) * (c.num)(
                dot_of::<A>(u, self.value(hs[j])),
            );
        let kept = |j: int|
            (c.num)(probs[j]) * c.along(u, self.value(hs[j])) + ((c.num)(probs[j]) * (c.num)(
                dot_of::<A>(u, self.value(hs[j])),
            )) * (c.slope)(self.score(hs, t, j));
        let lost = |j: int| (-drift) * m(j);
        assert forall|j: int| 0 <= j < n implies #[trigger] full(j) == kept(j) + lost(j) by {
            softmax_moves_with_its_logits(c, scores, j);
            assert(scores[j] == self.score(hs, t, j));
            let (p, x, w) = (
                (c.num)(probs[j]),
                (c.slope)(scores[j]),
                (c.num)(dot_of::<A>(u, self.value(hs[j]))),
            );
            assert((c.slope)(probs[j]) == p * (x - drift));
            lemma_regroups(p, x - drift, w);
            let pw = p * w;
            lemma_distributes(pw, x, drift);
            lemma_commutes(pw, drift);
            assert((-drift) * pw == -(drift * pw)) by (nonlinear_arith);
        }
        lemma_total_plus(n, kept, lost, full);
        lemma_total_times(n, -drift, m, lost);
        let whole = total(n, m);
        assert((-drift) * whole == -(drift * whole)) by (nonlinear_arith);
    }
}

impl<A: Arith> TransformerBlock<A> {
    /// The gradients of the attention of the first `n` queries.
    proof fn lemma_queries(
        &self,
        c: Calculus<A>,
        hs: Seq<Seq<A::T>>,
        dm: Seq<Seq<A::T>>,
        b: AttnBack<A::T>,
        n: nat,
    )
        requires
            c.holds(),
            self.wf(),
            self.d_model > 0,
            forall|i: int| 0 <= i < hs.len() ==> (#[trigger] hs[i]).len() == self.d_model,
            dm.len() == hs.len(),
            forall|i: int| 0 <= i < dm.len() ==> (#[trigger] dm[i]).len() == self.d_model,
            self.fits_attention(b, hs.len()),
            n <= hs.len(),
        ensures
            ({
                let after = self.attn_back(hs, dm, b, n);
                &&& self.fits_attention(after, hs.len())
                &&& total(n, |t: int| c.along(dm[t], self.mid_of(hs, t))) == self.attention_along(
                    c,
                    after,
                    hs,
                ) - self.attention_along(c, b, hs) - total(
                    n,
                    |t: int| self.attention_gap(c, hs, self.d_out_of(dm[t]), t),
                )
            }),
        decreases n,
    {
        if n > 0 {
            self.lemma_queries(c, hs, dm, b, (n - 1) as nat);
            assert(dm[n - 1].len() == self.d_model);
            self.lemma_query(c, hs, dm, self.attn_back(hs, dm, b, (n - 1) as nat), n - 1);
        }
    }

    /// What the gradients of the feed-forward part at position `t` leave out: how far the slope of
    /// the GELU that they take is from its own.
    pub open spec fn gelu_gap(
        &self,
        c: Calculus<A>,
        hs: Seq<Seq<A::T>>,
        deltas: Seq<Seq<A::T>>,
        t: int,
    ) -> real {
        c.along(
            matvec_transposed_of::<A>(self.w2@, self.d_ffn as nat, deltas[t]),
            self.ffn_act_of(hs, t),
        ) - c.along(self.d_raw_of(hs, deltas, t), self.ffn_raw_of(hs, t))
    }

    /// What the gradients of the block leave out, over all positions.
    pub open spec fn gap(
        &self,
        c: Calculus<A>,
        hs: Seq<Seq<A::T>>,
        deltas: Seq<Seq<A::T>>,
    ) -> real {
        total(hs.len(), |t: int| self.gelu_gap(c, hs, deltas, t)) - total(
            hs.len(),
            |t: int|
                self.attention_gap(c, hs, self.d_out_of(self.deltas_mid(hs, deltas)[t]), t),
        )
    }

    /// The gradients along the weights of the block.
    pub open spec fn along(&self, c: Calculus<A>, g: BlockValues<A::T>) -> real {
        c.along(g.wq, self.wq@) + c.along(g.wk, self.wk@) + c.along(g.wv, self.wv@) + c.along(
            g.wo,
            self.wo@,
        ) + c.along(g.w1, self.w1@) + c.along(g.w2, self.w2@)
    }

    /// The feed-forward part at the first `n` positions.
    #[verifier::rlimit(30)]
    #[verifier::spinoff_prover]
    proof fn lemma_ffn(
        &self,
        c: Calculus<A>,
        hs: Seq<Seq<A::T>>,
        deltas: Seq<Seq<A::T>>,
        g: BlockValues<A::T>,
        n: nat,
    )
        requires
            c.holds(),
            self.wf(),
            forall|i: int| 0 <= i < hs.len() ==> (#[trigger] hs[i]).len() == self.d_model,
            deltas.len() == hs.len(),
            forall|i: int| 0 <= i < deltas.len() ==> (#[trigger] deltas[i]).len() == self.d_model,
            g.fits(self.d_model as nat, self.d_ffn as nat),
            n <= hs.len(),
        ensures
            self.w1_back(g.w1, hs, deltas, n).len() == g.w1.len(),
            self.w2_back(g.w2, hs, deltas, n).len() == g.w2.len(),
            forall|t: int|
                0 <= t < n ==> (#[trigger] self.deltas_mid(hs, deltas)[t]).len() == self.d_model,
            total(n, |t: int| c.along(deltas[t], self.outputs(hs)[t])) == c.along(
                self.w1_back(g.w1, hs, deltas, n),
                self.w1@,
            ) - c.along(g.w1, self.w1@) + c.along(self.w2_back(g.w2, hs, deltas, n), self.w2@)
                - c.along(g.w2, self.w2@) + total(
                n,
                |t: int| c.along(self.deltas_mid(hs, deltas)[t], self.mid_of(hs, t)),
            ) + total(n, |t: int| self.gelu_gap(c, hs, deltas, t)),
        decreases n,
    {
        if n > 0 {
            self.lemma_ffn(c, hs, deltas, g, (n - 1) as nat);
            c.lemma_exact();
            let t = n - 1;
            let (d, ffn) = (self.d_model as nat, self.d_ffn as nat);
            let u = deltas[t];
            assert(u.len() == d && hs[t].len() == d);
            let mid = self.mid_of(hs, t);
            let (raw, act) = (self.ffn_raw_of(hs, t), self.ffn_act_of(hs, t));
            let low = matvec_of::<A>(self.w2@, d, act);
            lemma_through_summed(c, u, mid, low);
            c.lemma_linear(self.w2@, u, act);
            c.lemma_transposed(self.w2@, u, act);
            let d_raw = self.d_raw_of(hs, deltas, t);
            c.lemma_linear(self.w1@, d_raw, mid);
            c.lemma_transposed(self.w1@, d_raw, mid);
            c.lemma_along_summed(u, matvec_transposed_of::<A>(self.w1@, d, d_raw), mid);
            let before = (
                self.w1_back(g.w1, hs, deltas, (n - 1) as nat),
                self.w2_back(g.w2, hs, deltas, (n - 1) as nat),
            );
            c.lemma_along_outer(before.0, self.w1@, d_raw, mid, one::<A>());
            c.lemma_along_outer(before.1, self.w2@, u, act, one::<A>());
            lemma_neutral(c.weights_move(self.w1@, d_raw, mid));
            lemma_neutral(c.weights_move(self.w2@, u, act));
            assert(self.deltas_mid(hs, deltas)[t] == self.delta_mid_of(hs, deltas, t));
            assert(self.outputs(hs)[t] == self.out_of(hs, t));
        }
    }

    /// The gradients of a block are the derivatives of what it puts out, but for the gaps.
    proof fn lemma_block(
        &self,
        c: Calculus<A>,
        hs: Seq<Seq<A::T>>,
        deltas: Seq<Seq<A::T>>,
        g: BlockValues<A::T>,
    )
        requires
            c.holds(),
            self.wf(),
            self.d_model > 0,
            forall|i: int| 0 <= i < hs.len() ==> (#[trigger] hs[i]).len() == self.d_model,
            deltas.len() == hs.len(),
            forall|i: int| 0 <= i < deltas.len() ==> (#[trigger] deltas[i]).len() == self.d_model,
            g.fits(self.d_model as nat, self.d_ffn as nat),
        ensures
            ({
                let delta_in = self.attention_done(hs, deltas, g).delta_in;
                &&& rows_along(c, deltas, self.outputs(hs)) == self.along(
                    c,
                    self.grads_after(hs, deltas, g),
                ) - self.along(c, g) + rows_along(c, delta_in, hs) + self.gap(c, hs, deltas)
                &&& delta_in.len() == hs.len()
                &&& forall|i: int|
                    0 <= i < hs.len() ==> (#[trigger] delta_in[i]).len() == self.d_model
                &&& self.grads_after(hs, deltas, g).fits(self.d_model as nat, self.d_ffn as nat)
            }),
    {
        let n = hs.len();
        let d = self.d_model as nat;
        let start = AttnBack {
            wq: g.wq,
            wk: g.wk,
            wv: g.wv,
            wo: g.wo,
            delta_in: Seq::new(n, |t: int| zeros::<A>(d)),
        };
        self.lemma_ffn(c, hs, deltas, g, n);
        let dm = self.deltas_mid(hs, deltas);
        self.lemma_queries(c, hs, dm, start, n);
        let f = |t: int| c.along(start.delta_in[t], hs[t]);
        assert forall|t: int| 0 <= t < n implies #[trigger] f(t) == 0real by {
            assert(hs[t].len() == d);
            c.lemma_along_nothing(hs[t]);
        }
        lemma_total_zero(n, f);
    }
}

impl<A: Arith> TransformerModel<A> {
    /// The gradients along the weights of the model.
    pub open spec fn along(&self, c: Calculus<A>, g: TransformerValues<A::T>) -> real {
        c.along(g.embed, self.embeddings@) + c.along(g.pos_embed, self.pos_embeddings@) + c.along(
            g.head,
            self.head@,
        ) + total(self.n_layers as nat, |l: int| self.blocks@[l].along(c, g.blocks[l]))
    }

    /// What the gradients of the blocks leave out.
    pub open spec fn gap(
        &self,
        c: Calculus<A>,
        x: Seq<usize>,
        y: Seq<usize>,
        g: Seq<BlockValues<A::T>>,
    ) -> real {
        total(
            self.n_layers as nat,
            |l: int|
                self.blocks@[l].gap(
                    c,
                    self.hidden(x, l as nat),
                    self.deltas_at(x, y, g, l + 1),
                ),
        )
    }

    /// The hidden states are as wide as the model.
    proof fn lemma_widths(&self, x: Seq<usize>, l: nat)
        requires
            self.wf(),
            x.len() <= self.max_seq_len,
            forall|t: int| 0 <= t < x.len() ==> #[trigger] x[t] < self.vocab_size,
            l <= self.n_layers,
        ensures
            self.hidden(x, l).len() == x.len(),
            forall|t: int|
                0 <= t < x.len() ==> (#[trigger] self.hidden(x, l)[t]).len() == self.d_model,
        decreases l,
    {
        let d = self.d_model as nat;
        if l == 0 {
            assert forall|t: int| 0 <= t < x.len() implies (#[trigger] self.hidden(x, l)[t]).len()
                == d by {
                assert(x[t] < self.vocab_size);
                lemma_row_bounds(self.vocab_size as nat, d, x[t] as int);
            }
        } else {
            self.lemma_widths(x, (l - 1) as nat);
            let hs = self.hidden(x, (l - 1) as nat);
            let b = self.blocks@[l - 1];
            assert(b.wf() && b.d_model == self.d_model);
            assert forall|t: int| 0 <= t < x.len() implies (#[trigger] self.hidden(x, l)[t]).len()
                == d by {
                assert(hs[t].len() == d);
            }
        }
    }

    /// The blocks from `l` on.
    proof fn lemma_blocks(
        &self,
        c: Calculus<A>,
        x: Seq<usize>,
        y: Seq<usize>,
        g: Seq<BlockValues<A::T>>,
        l: int,
    )
        requires
            c.holds(),
            self.wf(),
            self.d_model > 0,
            x.len() <= self.max_seq_len,
            forall|t: int| 0 <= t < x.len() ==> #[trigger] x[t] < self.vocab_size,
            g.len() == self.n_layers,
            forall|j: int|
                0 <= j < g.len() ==> (#[trigger] g[j]).fits(
                    self.d_model as nat,
                    self.d_ffn as nat,
                ),
            0 <= l <= self.n_layers,
        ensures
            ({
                let k = self.n_layers as nat;
                let deltas = self.deltas_at(x, y, g, l);
                let f = |j: int|
                    self.blocks@[j].along(c, self.block_grads_after(x, y, g, j))
                        - self.blocks@[j].along(c, g[j]);
                let gaps = |j: int|
                    self.blocks@[j].gap(
                        c,
                        self.hidden(x, j as nat),
                        self.deltas_at(x, y, g, j + 1),
                    );
                &&& rows_along(c, self.final_deltas(x, y), self.hidden(x, k)) == total(k, f)
                    - total(l as nat, f) + rows_along(c, deltas, self.hidden(x, l as nat)) + total(
                    k,
                    gaps,
                ) - total(l as nat, gaps)
                &&& deltas.len() == x.len()
                &&& forall|t: int| 0 <= t < x.len() ==> (#[trigger] deltas[t]).len() == self.d_model
            }),
        decreases self.n_layers - l,
    {
        let d = self.d_model as nat;
        let k = self.n_layers as nat;
        self.lemma_widths(x, l as nat);
        let f = |j: int|
            self.blocks@[j].along(c, self.block_grads_after(x, y, g, j)) - self.blocks@[j].along(
                c,
                g[j],
            );
        let gaps = |j: int|
            self.blocks@[j].gap(c, self.hidden(x, j as nat), self.deltas_at(x, y, g, j + 1));
        if l == k {
            let finals = self.final_deltas(x, y);
            assert forall|t: int| 0 <= t < x.len() implies (#[trigger] finals[t]).len() == d by {
                let grad = self.pred_grad_of(x, y, t);
                lemma_rows_added_len::<A>(zeros::<A>(d), self.head@, grad, grad.len());
            }
        } else {
            self.lemma_blocks(c, x, y, g, l + 1);
            let b = self.blocks@[l];
            assert(b.wf() && b.d_model == self.d_model && b.d_ffn == self.d_ffn);
            assert(g[l].fits(d, self.d_ffn as nat));
            let hs = self.hidden(x, l as nat);
            b.lemma_block(c, hs, self.deltas_at(x, y, g, l + 1), g[l]);
            assert(self.hidden(x, (l + 1) as nat) == b.outputs(hs));
            assert(total((l + 1) as nat, f) == total(l as nat, f) + f(l));
            assert(total((l + 1) as nat, gaps) == total(l as nat, gaps) + gaps(l));
        }
    }

    /// The losses of the first `n` positions.
    #[verifier::rlimit(30)]
    proof fn lemma_heads(
        &self,
        c: Calculus<A>,
        x: Seq<usize>,
        y: Seq<usize>,
        g: Seq<A::T>,
        n: nat,
    )
        requires
            c.holds(),
            self.wf(),
            x.len() <= self.max_seq_len,
            forall|t: int| 0 <= t < x.len() ==> #[trigger] x[t] < self.vocab_size,
            forall|t: int| 0 <= t < x.len() ==> #[trigger] y[t] < self.vocab_size,
            forall|t: int|
                0 <= t < x.len() ==> counts(
                    c,
                    softmax_of::<A>(#[trigger] self.logits_of(x, t))[y[t] as int],
                ),
            g.len() == self.head@.len(),
            n <= x.len(),
        ensures
            self.head_back(g, x, y, n).len() == g.len(),
            (c.slope)(self.loss_of(x, y, n)) == c.along(self.head_back(g, x, y, n), self.head@)
                - c.along(g, self.head@) + total(
                n,
                |t: int|
                    c.along(
                        self.final_deltas(x, y)[t],
                        self.hidden(x, self.n_layers as nat)[t],
                    ),
            ),
        decreases n,
    {
        c.lemma_exact();
        if n > 0 {
            self.lemma_heads(c, x, y, g, (n - 1) as nat);
            let t = n - 1;
            self.lemma_widths(x, self.n_layers as nat);
            let h = self.hidden(x, self.n_layers as nat)[t];
            assert(h.len() == self.d_model && y[t] < self.vocab_size);
            let logits = self.logits_of(x, t);
            assert(counts(c, softmax_of::<A>(logits)[y[t] as int]));
            cross_entropy_gradients_are_derivatives::<A>(c, logits, y[t] as int);
            let grad = self.pred_grad_of(x, y, t);
            c.lemma_linear(self.head@, grad, h);
            c.lemma_along_outer(
                self.head_back(g, x, y, (n - 1) as nat),
                self.head@,
                grad,
                h,
                one::<A>(),
            );
            lemma_neutral(c.weights_move(self.head@, grad, h));
            let loss = cross_entropy_of::<A>(logits, y[t] as int);
            assert(self.loss_of(x, y, n) == s_plus::<A>(
                self.loss_of(x, y, (n - 1) as nat),
                loss,
            ));
            assert((c.slope)(self.loss_of(x, y, n)) == (c.slope)(
                self.loss_of(x, y, (n - 1) as nat),
            ) + (c.slope)(loss)) by {
                reveal(Calculus::holds);
            }
        }
    }

    /// The embeddings of the first `n` positions.
    proof fn lemma_embeddings(
        &self,
        c: Calculus<A>,
        x: Seq<usize>,
        deltas: Seq<Seq<A::T>>,
        g_embed: Seq<A::T>,
        g_pos: Seq<A::T>,
        n: nat,
    )
        requires
            c.holds(),
            self.wf(),
            x.len() <= self.max_seq_len,
            forall|t: int| 0 <= t < x.len() ==> #[trigger] x[t] < self.vocab_size,
            deltas.len() == x.len(),
            forall|t: int| 0 <= t < x.len() ==> (#[trigger] deltas[t]).len() == self.d_model,
            g_embed.len() == self.embeddings@.len(),
            g_pos.len() == self.pos_embeddings@.len(),
            n <= x.len(),
        ensures
            self.embed_back(g_embed, x, deltas, n).len() == g_embed.len(),
            self.pos_back(g_pos, deltas, n).len() == g_pos.len(),
            total(n, |t: int| c.along(deltas[t], self.hidden(x, 0)[t])) == c.along(
                self.embed_back(g_embed, x, deltas, n),
                self.embeddings@,
            ) - c.along(g_embed, self.embeddings@) + c.along(
                self.pos_back(g_pos, deltas, n),
                self.pos_embeddings@,
            ) - c.along(g_pos, self.pos_embeddings@),
        decreases n,
    {
        if n > 0 {
            self.lemma_embeddings(c, x, deltas, g_embed, g_pos, (n - 1) as nat);
            let t = n - 1;
            let d = self.d_model as nat;
            let (v, l) = (self.vocab_size as nat, self.max_seq_len as nat);
            assert(x[t] < self.vocab_size && deltas[t].len() == d);
            lemma_row_bounds(v, d, x[t] as int);
            lemma_row_bounds(l, d, t);
            lemma_through_summed(
                c,
                deltas[t],
                row_of(self.embeddings@, d, x[t] as int),
                row_of(self.pos_embeddings@, d, t),
            );
            c.lemma_along_row(
                self.embed_back(g_embed, x, deltas, (n - 1) as nat),
                self.embeddings@,
                v,
                d,
                x[t] as int,
                deltas[t],
            );
            c.lemma_along_row(
                self.pos_back(g_pos, deltas, (n - 1) as nat),
                self.pos_embeddings@,
                l,
                d,
                t,
                deltas[t],
            );
        }
    }
}

/// The gradients of the Transformer are the derivatives of its loss but for the gaps: along any
/// direction in which its weights move, the slope of the loss of a sequence is the sum of the
/// gradients that the sequence adds, each times the slope of its weight, and of what the attention
/// and the slope of the GELU leave out. Where the scores of every query stay the same on average
/// the attention leaves nothing out. Targets whose probability is cut off at 1e-12 are left out.
pub proof fn transformer_gradients_are_derivatives_but_for_the_gaps<A: Arith>(
    c: Calculus<A>,
    model: TransformerModel<A>,
    x: Seq<usize>,
    y: Seq<usize>,
    g: TransformerValues<A::T>,
)
    requires
        c.holds(),
        model.wf(),
        model.d_model > 0,
        x.len() <= model.max_seq_len,
        forall|t: int| 0 <= t < x.len() ==> #[trigger] x[t] < model.vocab_size,
        forall|t: int| 0 <= t < x.len() ==> #[trigger] y[t] < model.vocab_size,
        forall|t: int|
            0 <= t < x.len() ==> counts(
                c,
                softmax_of::<A>(#[trigger] model.logits_of(x, t))[y[t] as int],
            ),
        g.fits(model.shape()),
    ensures
        (c.slope)(model.loss_of(x, y, x.len())) == model.along(c, model.grads_after(x, y, g))
            - model.along(c, g) + model.gap(c, x, y, g.blocks),
{
    let k = model.n_layers as nat;
    model.lemma_heads(c, x, y, g.head, x.len());
    model.lemma_blocks(c, x, y, g.blocks, 0);
    let deltas = model.deltas_at(x, y, g.blocks, 0);
    model.lemma_embeddings(c, x, deltas, g.embed, g.pos_embed, x.len());
    model.lemma_widths(x, 0);
    model.lemma_widths(x, k);
    let after = model.grads_after(x, y, g);
    let f = |l: int|
        model.blocks@[l].along(c, model.block_grads_after(x, y, g.blocks, l))
            - model.blocks@[l].along(c, g.blocks[l]);
    let old_along = |l: int| model.blocks@[l].along(c, g.blocks[l]);
    let new_along = |l: int| model.blocks@[l].along(c, after.blocks[l]);
    assert forall|l: int| 0 <= l < k implies #[trigger] new_along(l) == f(l) + old_along(l) by {
        assert(after.blocks[l] == model.block_grads_after(x, y, g.blocks, l));
    }
    lemma_total_plus(k, f, old_along, new_along);
}

/// Third powers are products.
pub open spec fn cubes_are_exact<A: Arith>(c: Calculus<A>) -> bool {
    forall|x: A::T|
        (c.num)(#[trigger] s_powi::<A>(x, 3)) == ((c.num)(x) * (c.num)(x)) * (c.num)(x)
            && (c.slope)(s_powi::<A>(x, 3)) == (3real * ((c.num)(x) * (c.num)(x))) * (c.slope)(x)
}

/// The slope that is taken for the GELU is the derivative of the GELU with its constant to eight
/// digits: of x / 2 * (1 + tanh(0.79788456 * (x + 0.044715 * x^3))).
pub proof fn gelu_slopes_are_derivatives<A: Arith>(c: Calculus<A>, x: A::T)
    requires
        c.holds(),
        cubes_are_exact(c),
    ensures
        ({
            let inside = s_times::<A>(
                s_lit::<A>(79788456, 8),
                s_plus::<A>(x, s_times::<A>(s_lit::<A>(44715, 6), s_powi::<A>(x, 3))),
            );
            let rounded = s_times::<A>(
                s_times::<A>(s_lit::<A>(5, 1), x),
                s_plus::<A>(one::<A>(), s_tanh::<A>(inside)),
            );
            (c.slope)(rounded) == (c.num)(gelu_slope::<A>(x)) * (c.slope)(x)
        }),
{
    c.lemma_exact();
    let num = c.num;
    let slope = c.slope;
    let (half, co, k) = (s_lit::<A>(5, 1), s_lit::<A>(79788456, 8), s_lit::<A>(44715, 6));
    let cube = s_powi::<A>(x, 3);
    let inside = s_times::<A>(co, s_plus::<A>(x, s_times::<A>(k, cube)));
    let th = s_tanh::<A>(inside);
    let (h, cc, kk, t) = (num(half), num(co), num(k), num(th));
    let (v, s) = (num(x), slope(x));
    let vv = v * v;
    let sech = 1real - t * t;
    let three = num(s_lit::<A>(3, 0));
    assert(three == 3real) by {
        reveal(exact);
        assert(power_of_ten(0) == 1);
        assert(three * (power_of_ten(0) as real) == 3u64 as real);
        assert(three * 1real == 3real);
    }
    assert(slope(half) == 0real && slope(co) == 0real && slope(k) == 0real) by {
        reveal(Calculus::holds);
    }
    // the inside
    let w = 1real + ((3real * kk) * v) * v;
    assert(slope(inside) == (cc * w) * s) by {
        assert(slope(cube) == (3real * vv) * s);
        assert(slope(inside) == cc * (s + kk * ((3real * vv) * s))) by {
            reveal(Calculus::holds);
            lemma_neutral(num(cube));
            lemma_neutral(num(s_plus::<A>(x, s_times::<A>(k, cube))));
        }
        let q = 3real * vv;
        lemma_regroups(kk, q, s);
        assert(kk * q == ((3real * kk) * v) * v) by {
            lemma_regroups(3real * kk, v, v);
            lemma_regroups(3real, kk, vv);
            lemma_regroups(3real, vv, kk);
            lemma_commutes(kk, q);
            lemma_commutes(kk, vv);
        }
        let z = kk * q;
        lemma_commutes(1real + z, s);
        lemma_distributes(s, 1real, z);
        lemma_neutral(s);
        lemma_commutes(s, z);
        assert(s + z * s == w * s);
        lemma_regroups(cc, w, s);
    }
    let rounded = s_times::<A>(s_times::<A>(half, x), s_plus::<A>(one::<A>(), th));
    let ci = (cc * w) * s;
    assert(slope(rounded) == (h * s) * (1real + t) + (h * v) * (sech * ci)) by {
        reveal(Calculus::holds);
        reveal(exact);
        lemma_neutral(v);
    }
    assert(num(gelu_slope::<A>(x)) == h * (1real + t) + (((h * v) * sech) * cc) * w) by {
        reveal(exact);
    }
    let (a, b) = (h * (1real + t), (((h * v) * sech) * cc) * w);
    lemma_commutes(a + b, s);
    lemma_distributes(s, a, b);
    lemma_commutes(s, a);
    lemma_commutes(s, b);
    lemma_regroups(h, 1real + t, s);
    let hv = h * v;
    lemma_regroups(hv, sech, ci);
    let hvs = hv * sech;
    lemma_regroups(hvs, cc, w);
    lemma_regroups(hvs, cc * w, s);
}

} // verus!
