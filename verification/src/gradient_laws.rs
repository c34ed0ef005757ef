//! What holds of the gradients of a sequence: they are added to those that were there, and reach
//! what the sequence uses alone.

use vstd::prelude::*;
use crate::arith::{Arith, one, s_plus, s_times, sums_are_exact, zero};
use crate::expert::ExpertMLP;
use crate::gru::{
    GruModel, GruTrace, GruValues, delta_raw_cand_of, delta_raw_r_of, delta_raw_z_of,
    no_gru_grads,
};
use crate::laws::{agree, transformer_is_causal};
use crate::layer::{
    AxiomLayer, ExpertActs, ExpertValues, LayerValues, LossWeights, SequenceCache,
    expert_grads_added, gate_delta, sigmoid_grad_all, times_each,
};
use crate::matvec::{
    lemma_rows_added_len, matvec_transposed_of, outer_added, outer_row, rows_added, summed,
};
use crate::model::{AxiomSingleLayerModel, ModelValues, no_model_grads, row_added};
use crate::sequence::CachedStep;
use crate::softmax::cross_entropy_of;
use crate::tensor::{
    add_scaled, dot_of, lemma_row_and_column, lemma_row_bounds, lemma_with_row, row_of, scaled,
    with_row, zeros,
};
use crate::transformer::{
    AttnBack, BlockValues, TransformerBlock, TransformerValues, attention_scale, no_block_grads,
    no_transformer_grads, weighted_sum,
};
use crate::transformer_model::TransformerModel;
use crate::vectors::all_of_len;

verus! {

/// The loss of the Transformer over the first tokens of a sequence depends on those tokens and
/// their targets alone.
pub proof fn transformer_loss_is_causal<A: Arith>(
    model: TransformerModel<A>,
    x: Seq<usize>,
    y: Seq<usize>,
    other_x: Seq<usize>,
    other_y: Seq<usize>,
    n: nat,
)
    requires
        agree(x, other_x, n),
        agree(y, other_y, n),
    ensures
        model.loss_of(x, y, n) == model.loss_of(other_x, other_y, n),
    decreases n,
{
    if n > 0 {
        assert(agree(x, other_x, (n - 1) as nat)) by {
            assert forall|t: int| 0 <= t < n - 1 implies #[trigger] x[t] == other_x[t] by {}
        }
        assert(agree(y, other_y, (n - 1) as nat)) by {
            assert forall|t: int| 0 <= t < n - 1 implies #[trigger] y[t] == other_y[t] by {}
        }
        transformer_loss_is_causal(model, x, y, other_x, other_y, (n - 1) as nat);
        let l = model.n_layers as nat;
        transformer_is_causal(model, x, other_x, l, n);
        assert(model.hidden(x, l)[n - 1] == model.hidden(other_x, l)[n - 1]);
        assert(y[n - 1] == other_y[n - 1]);
    }
}

/// The loss of the Transformer over a sequence goes on from the loss over a shorter one that it
/// begins with: that loss is one of the partial sums, and the next token adds its own loss to
/// it.
pub proof fn transformer_loss_of_a_prefix_is_a_partial_sum<A: Arith>(
    model: TransformerModel<A>,
    x: Seq<usize>,
    y: Seq<usize>,
    n: nat,
)
    requires
        n <= x.len(),
        n <= y.len(),
    ensures
        model.loss_of(x, y, n) == model.loss_of(x.take(n as int), y.take(n as int), n),
        n < x.len() && n < y.len() ==> model.loss_of(x, y, n + 1) == s_plus::<A>(
            model.loss_of(x.take(n as int), y.take(n as int), n),
            cross_entropy_of::<A>(
                model.logits_of(x.take((n + 1) as int), n as int),
                y[n as int] as int,
            ),
        ),
{
    transformer_loss_is_causal(model, x, y, x.take(n as int), y.take(n as int), n);
    if n < x.len() && n < y.len() {
        let l = model.n_layers as nat;
        transformer_is_causal(model, x, x.take((n + 1) as int), l, n + 1);
        assert(model.hidden(x, l)[n as int] == model.hidden(x.take((n + 1) as int), l)[n as int]);
    }
}

/// Nothing is added to a vector by zeros.
proof fn lemma_onto_nothing<A: Arith>(g: Seq<A::T>)
    requires
        sums_are_exact::<A>(),
    ensures
        summed::<A>(g, zeros::<A>(g.len())) == g,
{
    reveal(sums_are_exact);
    let sum = summed::<A>(g, zeros::<A>(g.len()));
    assert forall|i: int| 0 <= i < g.len() implies sum[i] == g[i] by {
        assert(s_plus::<A>(g[i], zero::<A>()) == g[i]);
    }
    assert(sum =~= g);
}

/// An outer product that is added to a sum is added to its second term.
proof fn lemma_outer_onto<A: Arith>(
    g: Seq<A::T>,
    h: Seq<A::T>,
    u: Seq<A::T>,
    v: Seq<A::T>,
    alpha: A::T,
)
    requires
        sums_are_exact::<A>(),
        g.len() == u.len() * v.len(),
        h.len() == g.len(),
    ensures
        outer_added::<A>(summed::<A>(g, h), u, v, alpha) == summed::<A>(
            g,
            outer_added::<A>(h, u, v, alpha),
        ),
        outer_added::<A>(h, u, v, alpha).len() == g.len(),
{
    reveal(sums_are_exact);
    let (rows, cols) = (u.len(), v.len());
    let both = summed::<A>(g, h);
    let left = outer_added::<A>(both, u, v, alpha);
    let right = summed::<A>(g, outer_added::<A>(h, u, v, alpha));
    assert forall|i: int| 0 <= i < g.len() implies left[i] == right[i] by {
        lemma_row_and_column(rows, cols, i);
        let (r, c) = (i / (cols as int), i % (cols as int));
        lemma_row_bounds(rows, cols, r);
        assert(row_of(both, cols, r)[c] == both[i]);
        assert(row_of(h, cols, r)[c] == h[i]);
        assert(left[i] == outer_row::<A>(both, u, v, alpha, r)[c]);
        assert(outer_added::<A>(h, u, v, alpha)[i] == outer_row::<A>(h, u, v, alpha, r)[c]);
    }
    assert(left =~= right);
}

/// A row that is added to a sum is added to its second term.
proof fn lemma_row_onto<A: Arith>(
    g: Seq<A::T>,
    h: Seq<A::T>,
    rows: nat,
    d: nat,
    r: int,
    delta: Seq<A::T>,
)
    requires
        sums_are_exact::<A>(),
        0 <= r < rows,
        g.len() == rows * d,
        h.len() == g.len(),
    ensures
        row_added::<A>(summed::<A>(g, h), d, r, delta) == summed::<A>(
            g,
            row_added::<A>(h, d, r, delta),
        ),
        row_added::<A>(h, d, r, delta).len() == g.len(),
{
    reveal(sums_are_exact);
    lemma_row_bounds(rows, d, r);
    let both = summed::<A>(g, h);
    let left = row_added::<A>(both, d, r, delta);
    let right = summed::<A>(g, row_added::<A>(h, d, r, delta));
    assert forall|i: int| 0 <= i < g.len() implies left[i] == right[i] by {
        if r * d <= i < r * d + d {
            assert(row_of(both, d, r)[i - r * d] == both[i]);
            assert(row_of(h, d, r)[i - r * d] == h[i]);
        }
    }
    assert(left =~= right);
}

/// What is attended to is as long as its rows.
pub(crate) proof fn lemma_weighted_sum_len<A: Arith>(
    d: nat,
    rows: Seq<Seq<A::T>>,
    weights: Seq<A::T>,
    n: nat,
)
    ensures
        weighted_sum::<A>(d, rows, weights, n).len() == d,
    decreases n,
{
    if n > 0 {
        lemma_weighted_sum_len::<A>(d, rows, weights, (n - 1) as nat);
    }
}

/// The gradients `b` of the attention are `b0` on top of `g`, and both hand on the same.
spec fn lies_on<A: Arith>(
    block: TransformerBlock<A>,
    g: BlockValues<A::T>,
    b0: AttnBack<A::T>,
    b: AttnBack<A::T>,
) -> bool {
    let d = block.d_model as nat;
    &&& b.wq == summed::<A>(g.wq, b0.wq)
    &&& b.wk == summed::<A>(g.wk, b0.wk)
    &&& b.wv == summed::<A>(g.wv, b0.wv)
    &&& b.wo == summed::<A>(g.wo, b0.wo)
    &&& b0.wq.len() == d * d
    &&& b0.wk.len() == d * d
    &&& b0.wv.len() == d * d
    &&& b0.wo.len() == d * d
}

impl<A: Arith> TransformerBlock<A> {
    /// What the attention hands on does not depend on the gradients that were there.
    proof fn lemma_row_hands_on(
        &self,
        hs: Seq<Seq<A::T>>,
        dm: Seq<Seq<A::T>>,
        b: AttnBack<A::T>,
        c: AttnBack<A::T>,
        t: int,
        n: nat,
    )
        requires
            b.delta_in == c.delta_in,
            0 <= t < hs.len(),
            n <= hs.len(),
            b.delta_in.len() == hs.len(),
            all_of_len(b.delta_in, self.d_model as nat),
        ensures
            self.row_back(hs, dm, b, t, n).delta_in == self.row_back(hs, dm, c, t, n).delta_in,
            self.row_back(hs, dm, b, t, n).delta_in.len() == hs.len(),
            all_of_len(self.row_back(hs, dm, b, t, n).delta_in, self.d_model as nat),
        decreases n,
    {
        if n > 0 {
            self.lemma_row_hands_on(hs, dm, b, c, t, (n - 1) as nat);
        }
    }

    /// What the attention hands on does not depend on the gradients that were there.
    proof fn lemma_attention_hands_on(
        &self,
        hs: Seq<Seq<A::T>>,
        dm: Seq<Seq<A::T>>,
        b: AttnBack<A::T>,
        c: AttnBack<A::T>,
        n: nat,
    )
        requires
            b.delta_in == c.delta_in,
            n <= hs.len(),
            b.delta_in.len() == hs.len(),
            all_of_len(b.delta_in, self.d_model as nat),
        ensures
            self.attn_back(hs, dm, b, n).delta_in == self.attn_back(hs, dm, c, n).delta_in,
            self.attn_back(hs, dm, b, n).delta_in.len() == hs.len(),
            all_of_len(self.attn_back(hs, dm, b, n).delta_in, self.d_model as nat),
        decreases n,
    {
        if n > 0 {
            self.lemma_attention_hands_on(hs, dm, b, c, (n - 1) as nat);
            self.lemma_row_hands_on(
                hs,
                dm,
                self.attn_back(hs, dm, b, (n - 1) as nat),
                self.attn_back(hs, dm, c, (n - 1) as nat),
                n - 1,
                n,
            );
        }
    }

    /// The gradients of the attention of a position are added to those that were there.
    proof fn lemma_row_accumulates(
        &self,
        hs: Seq<Seq<A::T>>,
        dm: Seq<Seq<A::T>>,
        g: BlockValues<A::T>,
        b0: AttnBack<A::T>,
        b: AttnBack<A::T>,
        t: int,
        n: nat,
    )
        requires
            sums_are_exact::<A>(),
            lies_on::<A>(*self, g, b0, b),
            g.fits(self.d_model as nat, self.d_ffn as nat),
            0 <= t < hs.len(),
            n <= hs.len(),
            all_of_len(hs, self.d_model as nat),
            dm.len() == hs.len(),
            all_of_len(dm, self.d_model as nat),
        ensures
            lies_on::<A>(
                *self,
                g,
                self.row_back(hs, dm, b0, t, n),
                self.row_back(hs, dm, b, t, n),
            ),
        decreases n,
    {
        let d = self.d_model as nat;
        assert(hs[t].len() == d);
        assert(dm[t].len() == d);
        if n == 0 {
            lemma_weighted_sum_len::<A>(
                d,
                self.values_of(hs),
                self.attention(hs, t),
                (t + 1) as nat,
            );
            lemma_outer_onto::<A>(
                g.wo,
                b0.wo,
                dm[t],
                self.attn_out_of(hs, t),
                one::<A>(),
            );
        } else {
            self.lemma_row_accumulates(hs, dm, g, b0, b, t, (n - 1) as nat);
            let j = n - 1;
            let c0 = self.row_back(hs, dm, b0, t, j as nat);
            let d_out = self.d_out_of(dm[t]);
            lemma_rows_added_len::<A>(zeros::<A>(d), self.wo@, dm[t], dm[t].len());
            let p = self.attention(hs, t)[j];
            let d_v = times_each::<A>(p, d_out);
            let d_score = s_times::<A>(
                s_times::<A>(
                    p,
                    dot_of::<A>(d_out, self.value(hs[j])),
                ),
                attention_scale::<A>(self.d_model),
            );
            let d_q = times_each::<A>(d_score, self.key(hs[j]));
            let d_k = times_each::<A>(d_score, self.query(hs[t]));
            assert(hs[j].len() == d);
            lemma_outer_onto::<A>(g.wq, c0.wq, d_q, hs[t], one::<A>());
            lemma_outer_onto::<A>(g.wk, c0.wk, d_k, hs[j], one::<A>());
            lemma_outer_onto::<A>(g.wv, c0.wv, d_v, hs[j], one::<A>());
        }
    }

    /// The gradients of the attention are added to those that were there.
    proof fn lemma_attention_accumulates(
        &self,
        hs: Seq<Seq<A::T>>,
        dm: Seq<Seq<A::T>>,
        g: BlockValues<A::T>,
        b0: AttnBack<A::T>,
        b: AttnBack<A::T>,
        n: nat,
    )
        requires
            sums_are_exact::<A>(),
            lies_on::<A>(*self, g, b0, b),
            g.fits(self.d_model as nat, self.d_ffn as nat),
            n <= hs.len(),
            all_of_len(hs, self.d_model as nat),
            dm.len() == hs.len(),
            all_of_len(dm, self.d_model as nat),
        ensures
            lies_on::<A>(
                *self,
                g,
                self.attn_back(hs, dm, b0, n),
                self.attn_back(hs, dm, b, n),
            ),
        decreases n,
    {
        if n > 0 {
            self.lemma_attention_accumulates(hs, dm, g, b0, b, (n - 1) as nat);
            self.lemma_row_accumulates(
                hs,
                dm,
                g,
                self.attn_back(hs, dm, b0, (n - 1) as nat),
                self.attn_back(hs, dm, b, (n - 1) as nat),
                n - 1,
                n,
            );
        }
    }

    /// The gradients of the FFN are added to those that were there.
    proof fn lemma_ffn_accumulates(
        &self,
        hs: Seq<Seq<A::T>>,
        deltas: Seq<Seq<A::T>>,
        g: BlockValues<A::T>,
        n: nat,
    )
        requires
            sums_are_exact::<A>(),
            g.fits(self.d_model as nat, self.d_ffn as nat),
            n <= hs.len(),
            all_of_len(hs, self.d_model as nat),
            deltas.len() == hs.len(),
            all_of_len(deltas, self.d_model as nat),
        ensures
            self.w1_back(g.w1, hs, deltas, n) == summed::<A>(
                g.w1,
                self.w1_back(zeros::<A>(g.w1.len()), hs, deltas, n),
            ),
            self.w1_back(zeros::<A>(g.w1.len()), hs, deltas, n).len() == g.w1.len(),
            self.w2_back(g.w2, hs, deltas, n) == summed::<A>(
                g.w2,
                self.w2_back(zeros::<A>(g.w2.len()), hs, deltas, n),
            ),
            self.w2_back(zeros::<A>(g.w2.len()), hs, deltas, n).len() == g.w2.len(),
        decreases n,
    {
        if n == 0 {
            lemma_onto_nothing::<A>(g.w1);
            lemma_onto_nothing::<A>(g.w2);
        } else {
            let t = n - 1;
            self.lemma_ffn_accumulates(hs, deltas, g, t as nat);
            assert(hs[t].len() == self.d_model);
            assert(deltas[t].len() == self.d_model);
            lemma_rows_added_len::<A>(
                zeros::<A>(self.d_ffn as nat),
                self.w2@,
                deltas[t],
                deltas[t].len(),
            );
            lemma_outer_onto::<A>(
                g.w1,
                self.w1_back(zeros::<A>(g.w1.len()), hs, deltas, t as nat),
                self.d_raw_of(hs, deltas, t),
                self.mid_of(hs, t),
                one::<A>(),
            );
            lemma_outer_onto::<A>(
                g.w2,
                self.w2_back(zeros::<A>(g.w2.len()), hs, deltas, t as nat),
                deltas[t],
                self.ffn_act_of(hs, t),
                one::<A>(),
            );
        }
    }

    /// The gradients of a block are added to those that were there.
    proof fn lemma_block_accumulates(
        &self,
        hs: Seq<Seq<A::T>>,
        deltas: Seq<Seq<A::T>>,
        g: BlockValues<A::T>,
    )
        requires
            sums_are_exact::<A>(),
            g.fits(self.d_model as nat, self.d_ffn as nat),
            all_of_len(hs, self.d_model as nat),
            deltas.len() == hs.len(),
            all_of_len(deltas, self.d_model as nat),
        ensures
            self.grads_after(hs, deltas, g) == g.plus::<A>(
                self.grads_after(
                    hs,
                    deltas,
                    no_block_grads::<A>(self.d_model as nat, self.d_ffn as nat),
                ),
            ),
    {
        let none = no_block_grads::<A>(self.d_model as nat, self.d_ffn as nat);
        let blank = Seq::new(hs.len(), |t: int| zeros::<A>(self.d_model as nat));
        let b0 = AttnBack { wq: none.wq, wk: none.wk, wv: none.wv, wo: none.wo, delta_in: blank };
        let b = AttnBack { wq: g.wq, wk: g.wk, wv: g.wv, wo: g.wo, delta_in: blank };
        lemma_onto_nothing::<A>(g.wq);
        lemma_onto_nothing::<A>(g.wk);
        lemma_onto_nothing::<A>(g.wv);
        lemma_onto_nothing::<A>(g.wo);
        let dm = self.deltas_mid(hs, deltas);
        assert forall|t: int| 0 <= t < dm.len() implies (#[trigger] dm[t]).len()
            == self.d_model by {
            assert(deltas[t].len() == self.d_model);
        }
        self.lemma_attention_accumulates(hs, dm, g, b0, b, hs.len());
        self.lemma_ffn_accumulates(hs, deltas, g, hs.len());
    }
}

impl<A: Arith> TransformerModel<A> {
    /// The hidden vectors are as long as the model is wide.
    pub(crate) proof fn lemma_hidden_sizes(&self, x: Seq<usize>, l: nat)
        requires
            self.wf(),
            l <= self.n_layers,
            x.len() <= self.max_seq_len,
            forall|t: int| 0 <= t < x.len() ==> #[trigger] x[t] < self.vocab_size,
        ensures
            self.hidden(x, l).len() == x.len(),
            all_of_len(self.hidden(x, l), self.d_model as nat),
        decreases l,
    {
        let d = self.d_model as nat;
        if l > 0 {
            self.lemma_hidden_sizes(x, (l - 1) as nat);
            assert forall|t: int| 0 <= t < x.len() implies (#[trigger] self.hidden(x, l)[t]).len()
                == d by {
                assert(self.hidden(x, (l - 1) as nat)[t].len() == d);
            }
        } else {
            assert forall|t: int| 0 <= t < x.len() implies (#[trigger] self.hidden(x, l)[t]).len()
                == d by {
                lemma_row_bounds(self.vocab_size as nat, d, x[t] as int);
            }
        }
    }

    /// The gradients that flow back are as long as the model is wide, and do not depend on the
    /// gradients that were there.
    pub(crate) proof fn lemma_deltas(
        &self,
        x: Seq<usize>,
        y: Seq<usize>,
        g: Seq<BlockValues<A::T>>,
        other: Seq<BlockValues<A::T>>,
        l: int,
    )
        requires
            self.wf(),
            self.accepts(x, y),
            0 <= l <= self.n_layers,
        ensures
            self.deltas_at(x, y, g, l) == self.deltas_at(x, y, other, l),
            self.deltas_at(x, y, g, l).len() == x.len(),
            all_of_len(self.deltas_at(x, y, g, l), self.d_model as nat),
        decreases self.n_layers - l,
    {
        let d = self.d_model as nat;
        if l == self.n_layers {
            let last = self.final_deltas(x, y);
            assert forall|t: int| 0 <= t < x.len() implies (#[trigger] last[t]).len() == d by {
                let grad = self.pred_grad_of(x, y, t);
                lemma_rows_added_len::<A>(zeros::<A>(d), self.head@, grad, grad.len());
            }
        } else {
            self.lemma_deltas(x, y, g, other, l + 1);
            self.lemma_hidden_sizes(x, l as nat);
            let hs = self.hidden(x, l as nat);
            let block = self.blocks@[l];
            assert(block.d_model == self.d_model);
            let blank = Seq::new(hs.len(), |t: int| zeros::<A>(d));
            let b = AttnBack {
                wq: g[l].wq,
                wk: g[l].wk,
                wv: g[l].wv,
                wo: g[l].wo,
                delta_in: blank,
            };
            let c = AttnBack {
                wq: other[l].wq,
                wk: other[l].wk,
                wv: other[l].wv,
                wo: other[l].wo,
                delta_in: blank,
            };
            let dm = block.deltas_mid(hs, self.deltas_at(x, y, g, l + 1));
            block.lemma_attention_hands_on(hs, dm, b, c, hs.len());
        }
    }

    /// The gradients of the prediction head are added to those that were there.
    proof fn lemma_head_accumulates(&self, g: Seq<A::T>, x: Seq<usize>, y: Seq<usize>, n: nat)
        requires
            sums_are_exact::<A>(),
            self.wf(),
            self.accepts(x, y),
            n <= x.len(),
            g.len() == self.vocab_size * self.d_model,
        ensures
            self.head_back(g, x, y, n) == summed::<A>(
                g,
                self.head_back(zeros::<A>(g.len()), x, y, n),
            ),
            self.head_back(zeros::<A>(g.len()), x, y, n).len() == g.len(),
        decreases n,
    {
        if n == 0 {
            lemma_onto_nothing::<A>(g);
        } else {
            let l = self.n_layers as nat;
            self.lemma_head_accumulates(g, x, y, (n - 1) as nat);
            self.lemma_hidden_sizes(x, l);
            assert(self.hidden(x, l)[n - 1].len() == self.d_model);
            lemma_outer_onto::<A>(
                g,
                self.head_back(zeros::<A>(g.len()), x, y, (n - 1) as nat),
                self.pred_grad_of(x, y, n - 1),
                self.hidden(x, l)[n - 1],
                one::<A>(),
            );
        }
    }

    /// The gradients of embeddings and positions are added to those that were there.
    proof fn lemma_embeddings_accumulate(
        &self,
        g: TransformerValues<A::T>,
        x: Seq<usize>,
        deltas: Seq<Seq<A::T>>,
        n: nat,
    )
        requires
            sums_are_exact::<A>(),
            g.fits(self.shape()),
            n <= x.len() <= self.max_seq_len,
            forall|t: int| 0 <= t < x.len() ==> #[trigger] x[t] < self.vocab_size,
        ensures
            self.embed_back(g.embed, x, deltas, n) == summed::<A>(
                g.embed,
                self.embed_back(zeros::<A>(g.embed.len()), x, deltas, n),
            ),
            self.embed_back(zeros::<A>(g.embed.len()), x, deltas, n).len() == g.embed.len(),
            self.pos_back(g.pos_embed, deltas, n) == summed::<A>(
                g.pos_embed,
                self.pos_back(zeros::<A>(g.pos_embed.len()), deltas, n),
            ),
            self.pos_back(zeros::<A>(g.pos_embed.len()), deltas, n).len() == g.pos_embed.len(),
        decreases n,
    {
        let d = self.d_model as nat;
        if n == 0 {
            lemma_onto_nothing::<A>(g.embed);
            lemma_onto_nothing::<A>(g.pos_embed);
        } else {
            let t = n - 1;
            self.lemma_embeddings_accumulate(g, x, deltas, t as nat);
            assert(x[t] < self.vocab_size);
            lemma_row_onto::<A>(
                g.embed,
                self.embed_back(zeros::<A>(g.embed.len()), x, deltas, t as nat),
                self.vocab_size as nat,
                d,
                x[t] as int,
                deltas[t],
            );
            lemma_row_onto::<A>(
                g.pos_embed,
                self.pos_back(zeros::<A>(g.pos_embed.len()), deltas, t as nat),
                self.max_seq_len as nat,
                d,
                t,
                deltas[t],
            );
        }
    }

    /// Rows of the embeddings and the positions that the first `n` tokens do not use.
    proof fn lemma_unused_rows(
        &self,
        g: TransformerValues<A::T>,
        x: Seq<usize>,
        deltas: Seq<Seq<A::T>>,
        n: nat,
        token: int,
        pos: int,
    )
        requires
            g.fits(self.shape()),
            n <= x.len() <= self.max_seq_len,
            forall|t: int| 0 <= t < x.len() ==> #[trigger] x[t] < self.vocab_size,
            0 <= token < self.vocab_size ==> forall|t: int| 0 <= t < n ==> #[trigger] x[t] != token,
            n <= pos,
        ensures
            self.embed_back(g.embed, x, deltas, n).len() == g.embed.len(),
            self.pos_back(g.pos_embed, deltas, n).len() == g.pos_embed.len(),
            0 <= token < self.vocab_size ==> row_of(
                self.embed_back(g.embed, x, deltas, n),
                self.d_model as nat,
                token,
            ) == row_of(g.embed, self.d_model as nat, token),
            pos < self.max_seq_len ==> row_of(
                self.pos_back(g.pos_embed, deltas, n),
                self.d_model as nat,
                pos,
            ) == row_of(g.pos_embed, self.d_model as nat, pos),
        decreases n,
    {
        let d = self.d_model as nat;
        if n > 0 {
            let t = n - 1;
            self.lemma_unused_rows(g, x, deltas, t as nat, token, pos);
            assert(x[t] < self.vocab_size);
            let embed = self.embed_back(g.embed, x, deltas, t as nat);
            let pos_embed = self.pos_back(g.pos_embed, deltas, t as nat);
            lemma_row_bounds(self.vocab_size as nat, d, x[t] as int);
            lemma_row_bounds(self.max_seq_len as nat, d, t);
            lemma_with_row(
                embed,
                self.vocab_size as nat,
                d,
                x[t] as int,
                summed::<A>(row_of(embed, d, x[t] as int), deltas[t]),
            );
            lemma_with_row(
                pos_embed,
                self.max_seq_len as nat,
                d,
                t,
                summed::<A>(row_of(pos_embed, d, t), deltas[t]),
            );
        }
    }
}

/// What flows back through the blocks of the Transformer, down to the embeddings, does not
/// depend on the gradients that were there.
pub proof fn what_flows_back_does_not_depend_on_the_gradients<A: Arith>(
    model: TransformerModel<A>,
    x: Seq<usize>,
    y: Seq<usize>,
    g: TransformerValues<A::T>,
    other: TransformerValues<A::T>,
    l: int,
)
    requires
        model.wf(),
        model.accepts(x, y),
        0 <= l <= model.n_layers,
    ensures
        model.deltas_at(x, y, g.blocks, l) == model.deltas_at(x, y, other.blocks, l),
{
    model.lemma_deltas(x, y, g.blocks, other.blocks, l);
}

/// The gradients of a sequence are added to those that were there: where sums do not depend on
/// their order, the Transformer adds to any gradients what it makes of none.
pub proof fn transformer_gradients_accumulate<A: Arith>(
    model: TransformerModel<A>,
    x: Seq<usize>,
    y: Seq<usize>,
    g: TransformerValues<A::T>,
)
    requires
        sums_are_exact::<A>(),
        model.wf(),
        model.accepts(x, y),
        g.fits(model.shape()),
    ensures
        model.grads_after(x, y, g) == g.plus::<A>(
            model.grads_after(x, y, no_transformer_grads::<A>(model.shape())),
        ),
{
    let none = no_transformer_grads::<A>(model.shape());
    let alone = model.grads_after(x, y, none);
    let after = model.grads_after(x, y, g);
    model.lemma_deltas(x, y, g.blocks, none.blocks, 0);
    model.lemma_embeddings_accumulate(g, x, model.deltas_at(x, y, g.blocks, 0), x.len());
    model.lemma_head_accumulates(g.head, x, y, x.len());
    assert forall|l: int| 0 <= l < model.n_layers implies #[trigger] after.blocks[l]
        == g.blocks[l].plus::<A>(alone.blocks[l]) by {
        let block = model.blocks@[l];
        assert(block.d_model == model.d_model && block.d_ffn == model.d_ffn);
        assert(g.blocks[l].fits(model.d_model as nat, model.d_ffn as nat));
        model.lemma_deltas(x, y, g.blocks, none.blocks, l + 1);
        model.lemma_hidden_sizes(x, l as nat);
        block.lemma_block_accumulates(
            model.hidden(x, l as nat),
            model.deltas_at(x, y, g.blocks, l + 1),
            g.blocks[l],
        );
    }
    assert(after.blocks =~= g.plus::<A>(alone).blocks);
}

/// The gradients of a sequence reach the embeddings of its tokens and of its positions alone, and
/// an empty sequence leaves all gradients of the Transformer as they were.
pub proof fn transformer_gradients_reach_the_sequence_alone<A: Arith>(
    model: TransformerModel<A>,
    x: Seq<usize>,
    y: Seq<usize>,
    g: TransformerValues<A::T>,
)
    requires
        model.wf(),
        model.accepts(x, y),
        g.fits(model.shape()),
    ensures
        forall|v: int|
            0 <= v < model.vocab_size && (forall|t: int| 0 <= t < x.len() ==> #[trigger] x[t] != v)
                ==> #[trigger] row_of(
                model.grads_after(x, y, g).embed,
                model.d_model as nat,
                v,
            ) == row_of(g.embed, model.d_model as nat, v),
        forall|p: int|
            x.len() <= p < model.max_seq_len ==> #[trigger] row_of(
                model.grads_after(x, y, g).pos_embed,
                model.d_model as nat,
                p,
            ) == row_of(g.pos_embed, model.d_model as nat, p),
        x.len() == 0 ==> model.grads_after(x, y, g) == g,
{
    let d = model.d_model as nat;
    let deltas = model.deltas_at(x, y, g.blocks, 0);
    let after = model.grads_after(x, y, g);
    assert forall|v: int|
        0 <= v < model.vocab_size && (forall|t: int| 0 <= t < x.len() ==> #[trigger] x[t] != v)
        implies #[trigger] row_of(after.embed, d, v) == row_of(g.embed, d, v) by {
        model.lemma_unused_rows(g, x, deltas, x.len(), v, x.len() as int);
    }
    assert forall|p: int| x.len() <= p < model.max_seq_len implies #[trigger] row_of(
        after.pos_embed,
        d,
        p,
    ) == row_of(g.pos_embed, d, p) by {
        model.lemma_unused_rows(g, x, deltas, x.len(), -1, p);
    }
    if x.len() == 0 {
        assert forall|l: int| 0 <= l < model.n_layers implies #[trigger] after.blocks[l]
            == g.blocks[l] by {
            model.lemma_hidden_sizes(x, l as nat);
        }
        assert(after.blocks =~= g.blocks);
    }
}

/// One of the first `n` steps of a cached sequence was routed to expert `i`.
pub open spec fn routed_to<A: Arith>(cache: SequenceCache<A>, n: nat, i: int) -> bool {
    exists|t: int|
        0 <= t < n && ((#[trigger] cache.top_indices@[t]).0 == i || cache.top_indices@[t].1 == i)
}

impl<A: Arith> AxiomLayer<A> {
    /// The gradients of a step reach the two experts it was routed to and their rows of the
    /// router alone.
    proof fn lemma_routed_reach(
        &self,
        idx1: int,
        idx2: int,
        g1: A::T,
        g2: A::T,
        s_curr: Seq<A::T>,
        acts1: ExpertActs<A::T>,
        acts2: ExpertActs<A::T>,
        delta_h1: Seq<A::T>,
        experts: Seq<ExpertValues<A::T>>,
        w_gate: Seq<A::T>,
    )
        requires
            w_gate.len() == self.config.num_experts * self.config.d_model,
            experts.len() == self.config.num_experts,
            0 <= idx1 < self.config.num_experts,
            0 <= idx2 < self.config.num_experts,
        ensures
            ({
                let d = self.config.d_model as nat;
                let after = self.routed_backward(
                    idx1,
                    idx2,
                    g1,
                    g2,
                    s_curr,
                    acts1,
                    acts2,
                    delta_h1,
                    experts,
                    w_gate,
                );
                &&& after.w_gate.len() == w_gate.len()
                &&& after.experts.len() == experts.len()
                &&& forall|i: int|
                    0 <= i < self.config.num_experts && i != idx1 && i != idx2 ==> (
                    #[trigger] after.experts[i]) == experts[i]
                &&& forall|i: int|
                    0 <= i < self.config.num_experts && i != idx1 && i != idx2
                        ==> #[trigger] row_of(after.w_gate, d, i) == row_of(w_gate, d, i)
            }),
    {
        let (d, n) = (self.config.d_model as nat, self.config.num_experts as nat);
        let dg1 = dot_of::<A>(delta_h1, acts1.out);
        let dg2 = dot_of::<A>(delta_h1, acts2.out);
        let row1 = add_scaled::<A>(
            row_of(w_gate, d, idx1),
            s_curr,
            gate_delta::<A>(g1, g1, g2, dg1, dg2),
        );
        let gate1 = with_row(w_gate, d, idx1, row1);
        let row2 = add_scaled::<A>(
            row_of(gate1, d, idx2),
            s_curr,
            gate_delta::<A>(g2, g1, g2, dg2, dg1),
        );
        lemma_row_bounds(n, d, idx1);
        lemma_with_row(w_gate, n, d, idx1, row1);
        lemma_row_bounds(n, d, idx2);
        lemma_with_row(gate1, n, d, idx2, row2);
    }
}

impl<A: Arith> AxiomSingleLayerModel<A> {
    /// What BPTT down to step `t` leaves as it was.
    proof fn lemma_unused(
        &self,
        x: Seq<usize>,
        cache: SequenceCache<A>,
        lambda: LossWeights<A::T>,
        g: ModelValues<A::T>,
        t: int,
    )
        requires
            self.layer.config == self.config,
            g.fits::<A>(self.config, self.max_seq_len as nat),
            cache.routes_are_valid(self.config, x.len() as int),
            forall|q: int| 0 <= q < x.len() ==> #[trigger] x[q] < self.config.vocab_size,
            0 <= t <= x.len(),
        ensures
            ({
                let d = self.config.d_model as nat;
                let after = self.bptt(x, cache, lambda, g, t).grads;
                &&& after.embeddings.len() == g.embeddings.len()
                &&& after.pos_embeddings.len() == g.pos_embeddings.len()
                &&& after.layer.w_gate.len() == g.layer.w_gate.len()
                &&& after.layer.experts.len() == g.layer.experts.len()
                &&& forall|v: int|
                    0 <= v < self.config.vocab_size && (forall|q: int|
                        0 <= q < x.len() ==> #[trigger] x[q] != v) ==> #[trigger] row_of(
                        after.embeddings,
                        d,
                        v,
                    ) == row_of(g.embeddings, d, v)
                &&& forall|p: int|
                    x.len() <= p < self.max_seq_len ==> #[trigger] row_of(
                        after.pos_embeddings,
                        d,
                        p,
                    ) == row_of(g.pos_embeddings, d, p)
                &&& forall|i: int|
                    0 <= i < self.config.num_experts && !routed_to::<A>(cache, x.len(), i) ==> (
                    #[trigger] after.layer.experts[i]) == g.layer.experts[i]
                &&& forall|i: int|
                    0 <= i < self.config.num_experts && !routed_to::<A>(cache, x.len(), i)
                        ==> #[trigger] row_of(after.layer.w_gate, d, i) == row_of(
                        g.layer.w_gate,
                        d,
                        i,
                    )
            }),
        decreases x.len() - t,
    {
        if t < x.len() {
            self.lemma_unused(x, cache, lambda, g, t + 1);
            let d = self.config.d_model as nat;
            let experts = self.config.num_experts as nat;
            let later = self.bptt(x, cache, lambda, g, t + 1);
            let after = self.bptt(x, cache, lambda, g, t).grads;
            let c = cache.step_at(self.config, t);
            let (idx1, idx2) = (c.top.0 as int, c.top.1 as int);
            assert(cache.top_indices@[t].0 < experts && cache.top_indices@[t].1 < experts);
            assert(x[t] < self.config.vocab_size);
            let s_curr = cache.state_at(self.config, t + 1);
            let b = self.layer.backward_cached(
                c,
                cache.state_at(self.config, t),
                s_curr,
                lambda,
                later.temporal,
                later.grads.layer,
            );
            let delta = self.input_gradient(b.delta_hin, c.h_in, c.h_out, lambda.residual);
            lemma_row_bounds(self.config.vocab_size as nat, d, x[t] as int);
            lemma_with_row(
                later.grads.embeddings,
                self.config.vocab_size as nat,
                d,
                x[t] as int,
                summed::<A>(row_of(later.grads.embeddings, d, x[t] as int), delta),
            );
            if t < self.max_seq_len {
                lemma_row_bounds(self.max_seq_len as nat, d, t);
                lemma_with_row(
                    later.grads.pos_embeddings,
                    self.max_seq_len as nat,
                    d,
                    t,
                    summed::<A>(row_of(later.grads.pos_embeddings, d, t), delta),
                );
            }
            assert(routed_to::<A>(cache, x.len(), idx1) && routed_to::<A>(cache, x.len(), idx2));
            let delta_h1 = self.layer.delta_h1_of(
                c.h_in,
                c.h_out,
                c.pred_grad,
                c.recon_grad,
                lambda,
                false,
            );
            self.layer.lemma_routed_reach(
                idx1,
                idx2,
                c.weights[0],
                c.weights[1],
                s_curr,
                c.acts1,
                c.acts2,
                delta_h1,
                later.grads.layer.experts,
                later.grads.layer.w_gate,
            );
            assert(after.layer == b.grads);
        }
    }
}

/// BPTT over a sequence reaches the embeddings of its tokens and of its positions, the experts
/// that its steps were routed to and their rows of the router; the gradients of all other
/// embeddings, experts and rows of the router stay as they were. An empty sequence leaves all
/// gradients as they were.
pub proof fn bptt_reaches_what_the_sequence_uses_alone<A: Arith>(
    model: AxiomSingleLayerModel<A>,
    x: Seq<usize>,
    cache: SequenceCache<A>,
    lambda: LossWeights<A::T>,
    g: ModelValues<A::T>,
)
    requires
        model.wf(),
        g.fits::<A>(model.config, model.max_seq_len as nat),
        cache.routes_are_valid(model.config, x.len() as int),
        forall|q: int| 0 <= q < x.len() ==> #[trigger] x[q] < model.config.vocab_size,
    ensures
        ({
            let d = model.config.d_model as nat;
            let after = model.bptt(x, cache, lambda, g, 0).grads;
            &&& forall|v: int|
                0 <= v < model.config.vocab_size && (forall|q: int|
                    0 <= q < x.len() ==> #[trigger] x[q] != v) ==> #[trigger] row_of(
                    after.embeddings,
                    d,
                    v,
                ) == row_of(g.embeddings, d, v)
            &&& forall|p: int|
                x.len() <= p < model.max_seq_len ==> #[trigger] row_of(
                    after.pos_embeddings,
                    d,
                    p,
                ) == row_of(g.pos_embeddings, d, p)
            &&& forall|i: int|
                0 <= i < model.config.num_experts && !routed_to::<A>(cache, x.len(), i) ==> (
                #[trigger] after.layer.experts[i]) == g.layer.experts[i]
            &&& forall|i: int|
                0 <= i < model.config.num_experts && !routed_to::<A>(cache, x.len(), i)
                    ==> #[trigger] row_of(after.layer.w_gate, d, i) == row_of(g.layer.w_gate, d, i)
            &&& x.len() == 0 ==> after == g
        }),
{
    model.lemma_unused(x, cache, lambda, g, 0);
}

/// A scaled vector that is added to a row of a sum is added to its second term.
proof fn lemma_scaled_row_onto<A: Arith>(
    g: Seq<A::T>,
    h: Seq<A::T>,
    rows: nat,
    d: nat,
    r: int,
    src: Seq<A::T>,
    alpha: A::T,
)
    requires
        sums_are_exact::<A>(),
        0 <= r < rows,
        g.len() == rows * d,
        h.len() == g.len(),
    ensures
        ({
            let both = summed::<A>(g, h);
            with_row(both, d, r, add_scaled::<A>(row_of(both, d, r), src, alpha)) == summed::<A>(
                g,
                with_row(h, d, r, add_scaled::<A>(row_of(h, d, r), src, alpha)),
            )
        }),
        with_row(h, d, r, add_scaled::<A>(row_of(h, d, r), src, alpha)).len() == g.len(),
{
    reveal(sums_are_exact);
    lemma_row_bounds(rows, d, r);
    let both = summed::<A>(g, h);
    let left = with_row(both, d, r, add_scaled::<A>(row_of(both, d, r), src, alpha));
    let right = summed::<A>(g, with_row(h, d, r, add_scaled::<A>(row_of(h, d, r), src, alpha)));
    assert forall|i: int| 0 <= i < g.len() implies left[i] == right[i] by {
        if r * d <= i < r * d + d {
            assert(row_of(both, d, r)[i - r * d] == both[i]);
            assert(row_of(h, d, r)[i - r * d] == h[i]);
        }
    }
    assert(left =~= right);
}

/// The gradients of experts and others on top of them.
spec fn experts_summed<A: Arith>(
    g: Seq<ExpertValues<A::T>>,
    h: Seq<ExpertValues<A::T>>,
) -> Seq<ExpertValues<A::T>> {
    Seq::new(
        g.len(),
        |i: int|
            ExpertValues {
                up: summed::<A>(g[i].up, h[i].up),
                down: summed::<A>(g[i].down, h[i].down),
            },
    )
}

/// All experts are of these dimensions.
spec fn experts_fit<T>(g: Seq<ExpertValues<T>>, n: nat, d: nat, ffn: nat) -> bool {
    g.len() == n && forall|i: int| 0 <= i < n ==> (#[trigger] g[i]).fits(d, ffn)
}

/// The gradients of an expert are added to those that were there.
proof fn lemma_expert_accumulates<A: Arith>(
    expert: ExpertMLP<A>,
    s: Seq<A::T>,
    acts: ExpertActs<A::T>,
    delta: Seq<A::T>,
    g: Seq<ExpertValues<A::T>>,
    h: Seq<ExpertValues<A::T>>,
    n: nat,
    d: nat,
    ffn: nat,
    idx: int,
)
    requires
        sums_are_exact::<A>(),
        experts_fit(g, n, d, ffn),
        experts_fit(h, n, d, ffn),
        0 <= idx < n,
        s.len() == d,
        acts.raw.len() == ffn,
        acts.act.len() == ffn,
        delta.len() == d,
    ensures
        ({
            let both = experts_summed::<A>(g, h);
            let grown = h.update(
                idx,
                expert_grads_added::<A>(expert, s, acts.raw, acts.act, delta, h[idx]),
            );
            &&& both.update(
                idx,
                expert_grads_added::<A>(expert, s, acts.raw, acts.act, delta, both[idx]),
            ) == experts_summed::<A>(g, grown)
            &&& experts_fit(grown, n, d, ffn)
        }),
{
    assert(g[idx].fits(d, ffn) && h[idx].fits(d, ffn));
    lemma_outer_onto::<A>(g[idx].up, h[idx].up, expert.delta_z_of(acts.raw, delta), s, one::<A>());
    lemma_outer_onto::<A>(g[idx].down, h[idx].down, delta, acts.act, one::<A>());
    let both = experts_summed::<A>(g, h);
    let more = expert_grads_added::<A>(expert, s, acts.raw, acts.act, delta, h[idx]);
    let grown = h.update(idx, more);
    assert(both.update(
        idx,
        expert_grads_added::<A>(expert, s, acts.raw, acts.act, delta, both[idx]),
    ) =~= experts_summed::<A>(g, grown));
    assert forall|i: int| 0 <= i < n implies (#[trigger] grown[i]).fits(d, ffn) by {
        assert(h[i].fits(d, ffn));
    }
}

/// A cached step is of these dimensions.
pub(crate) open spec fn step_fits<T>(c: CachedStep<T>, vocab: nat, d: nat, ffn: nat) -> bool {
    &&& c.h_in.len() == d
    &&& c.m_recall.len() == d
    &&& c.h_out.len() == d
    &&& c.pred_grad.len() == vocab
    &&& c.recon_grad.len() == d
    &&& c.acts1.raw.len() == ffn
    &&& c.acts1.act.len() == ffn
    &&& c.acts2.raw.len() == ffn
    &&& c.acts2.act.len() == ffn
}

impl<A: Arith> AxiomLayer<A> {
    /// The gradient at the output of the layer is as long as the output.
    pub(crate) proof fn lemma_delta_h1_len(
        &self,
        h_in: Seq<A::T>,
        h_out: Seq<A::T>,
        pred_grad: Seq<A::T>,
        recon_grad: Seq<A::T>,
        lambda: LossWeights<A::T>,
    )
        ensures
            self.delta_h1_of(h_in, h_out, pred_grad, recon_grad, lambda, false).len()
                == self.config.d_model,
    {
        let d = self.config.d_model as nat;
        let start = zeros::<A>(d);
        lemma_rows_added_len::<A>(start, self.w_pred@, pred_grad, pred_grad.len());
        let sum = rows_added::<A>(start, self.w_pred@, pred_grad, pred_grad.len());
        let weighted = times_each::<A>(lambda.recon, recon_grad);
        lemma_rows_added_len::<A>(start, self.w_decode@, weighted, d);
        lemma_rows_added_len::<A>(sum, self.w_decode@, weighted, d);
        lemma_rows_added_len::<A>(scaled::<A>(sum, lambda.pred), self.w_decode@, weighted, d);
    }

    /// The gradients of a cached step are added to those that were there.
    proof fn lemma_step_accumulates(
        &self,
        c: CachedStep<A::T>,
        s_prev: Seq<A::T>,
        s_curr: Seq<A::T>,
        lambda: LossWeights<A::T>,
        temporal: Seq<A::T>,
        g: LayerValues<A::T>,
        h: LayerValues<A::T>,
    )
        requires
            sums_are_exact::<A>(),
            step_fits(
                c,
                self.config.vocab_size as nat,
                self.config.d_model as nat,
                self.config.d_ffn as nat,
            ),
            c.top.0 < self.config.num_experts,
            c.top.1 < self.config.num_experts,
            s_prev.len() == self.config.d_model,
            s_curr.len() == self.config.d_model,
            g.fits::<A>(self.config),
            h.fits::<A>(self.config),
        ensures
            ({
                let alone = self.backward_cached(c, s_prev, s_curr, lambda, temporal, h);
                let after = self.backward_cached(
                    c,
                    s_prev,
                    s_curr,
                    lambda,
                    temporal,
                    g.plus::<A>(h),
                );
                &&& after.grads == g.plus::<A>(alone.grads)
                &&& after.delta_hin == alone.delta_hin
                &&& after.temporal == alone.temporal
                &&& alone.grads.fits::<A>(self.config)
            }),
    {
        let (d, ffn) = (self.config.d_model as nat, self.config.d_ffn as nat);
        let n = self.config.num_experts as nat;
        let both = g.plus::<A>(h);
        let (idx1, idx2) = (c.top.0 as int, c.top.1 as int);
        let (g1, g2) = (c.weights[0], c.weights[1]);
        let delta_h1 = self.delta_h1_of(
            c.h_in,
            c.h_out,
            c.pred_grad,
            c.recon_grad,
            lambda,
            false,
        );
        self.lemma_delta_h1_len(c.h_in, c.h_out, c.pred_grad, c.recon_grad, lambda);
        // through the experts
        assert(both.experts =~= experts_summed::<A>(g.experts, h.experts));
        let (expert1, expert2) = (self.experts@[idx1], self.experts@[idx2]);
        let (delta1, delta2) = (scaled::<A>(delta_h1, g1), scaled::<A>(delta_h1, g2));
        lemma_expert_accumulates::<A>(
            expert1,
            s_curr,
            c.acts1,
            delta1,
            g.experts,
            h.experts,
            n,
            d,
            ffn,
            idx1,
        );
        let with1 = h.experts.update(
            idx1,
            expert_grads_added::<A>(
                expert1,
                s_curr,
                c.acts1.raw,
                c.acts1.act,
                delta1,
                h.experts[idx1],
            ),
        );
        lemma_expert_accumulates::<A>(
            expert2,
            s_curr,
            c.acts2,
            delta2,
            g.experts,
            with1,
            n,
            d,
            ffn,
            idx2,
        );
        // through the router
        let dg1 = dot_of::<A>(delta_h1, c.acts1.out);
        let dg2 = dot_of::<A>(delta_h1, c.acts2.out);
        let delta_gate1 = gate_delta::<A>(g1, g1, g2, dg1, dg2);
        let delta_gate2 = gate_delta::<A>(g2, g1, g2, dg2, dg1);
        lemma_scaled_row_onto::<A>(g.w_gate, h.w_gate, n, d, idx1, s_curr, delta_gate1);
        let gate1 = with_row(
            h.w_gate,
            d,
            idx1,
            add_scaled::<A>(row_of(h.w_gate, d, idx1), s_curr, delta_gate1),
        );
        lemma_scaled_row_onto::<A>(g.w_gate, gate1, n, d, idx2, s_curr, delta_gate2);
        let alone = self.backward_cached(c, s_prev, s_curr, lambda, temporal, h);
        let after = self.backward_cached(c, s_prev, s_curr, lambda, temporal, both);
        let routed = self.routed_backward(
            idx1,
            idx2,
            g1,
            g2,
            s_curr,
            c.acts1,
            c.acts2,
            delta_h1,
            h.experts,
            h.w_gate,
        );
        let delta_us = sigmoid_grad_all::<A>(s_curr, summed::<A>(routed.delta_s, temporal));
        let state_in = c.h_in + c.m_recall + s_prev;
        lemma_outer_onto::<A>(g.w_s, h.w_s, delta_us, state_in, one::<A>());
        lemma_outer_onto::<A>(g.w_pred, h.w_pred, c.pred_grad, c.h_out, lambda.pred);
        lemma_outer_onto::<A>(g.w_decode, h.w_decode, c.recon_grad, c.h_out, lambda.recon);
        assert(alone.grads.experts == routed.experts);
        assert(after.grads.experts == experts_summed::<A>(g.experts, alone.grads.experts));
        assert(after.grads.experts =~= g.plus::<A>(alone.grads).experts);
    }
}

impl<A: Arith> AxiomSingleLayerModel<A> {
    /// The gradients of BPTT down to step `t` are added to those that were there.
    proof fn lemma_bptt_accumulates(
        &self,
        x: Seq<usize>,
        cache: SequenceCache<A>,
        lambda: LossWeights<A::T>,
        g: ModelValues<A::T>,
        t: int,
    )
        requires
            sums_are_exact::<A>(),
            self.layer.config == self.config,
            g.fits::<A>(self.config, self.max_seq_len as nat),
            cache.fits(self.config),
            x.len() <= cache.max_seq_len,
            cache.routes_are_valid(self.config, x.len() as int),
            forall|q: int| 0 <= q < x.len() ==> #[trigger] x[q] < self.config.vocab_size,
            0 <= t <= x.len(),
        ensures
            ({
                let none = no_model_grads::<A>(self.config, self.max_seq_len as nat);
                let alone = self.bptt(x, cache, lambda, none, t);
                let after = self.bptt(x, cache, lambda, g, t);
                &&& after.grads == g.plus::<A>(alone.grads)
                &&& after.temporal == alone.temporal
                &&& alone.grads.fits::<A>(self.config, self.max_seq_len as nat)
            }),
        decreases x.len() - t,
    {
        let c = self.config;
        let d = c.d_model as nat;
        let none = no_model_grads::<A>(c, self.max_seq_len as nat);
        if t == x.len() {
            lemma_onto_nothing::<A>(g.embeddings);
            lemma_onto_nothing::<A>(g.pos_embeddings);
            lemma_onto_nothing::<A>(g.layer.w_s);
            lemma_onto_nothing::<A>(g.layer.w_gate);
            lemma_onto_nothing::<A>(g.layer.w_pred);
            lemma_onto_nothing::<A>(g.layer.w_decode);
            assert forall|i: int| 0 <= i < g.layer.experts.len() implies g.layer.experts[i]
                == #[trigger] g.layer.plus::<A>(none.layer).experts[i] by {
                assert(g.layer.experts[i].fits(d, c.d_ffn as nat));
                lemma_onto_nothing::<A>(g.layer.experts[i].up);
                lemma_onto_nothing::<A>(g.layer.experts[i].down);
            }
            assert(g.layer.plus::<A>(none.layer).experts =~= g.layer.experts);
        } else {
            self.lemma_bptt_accumulates(x, cache, lambda, g, t + 1);
            let later = self.bptt(x, cache, lambda, none, t + 1);
            let (s_prev, s_curr) = (cache.state_at(c, t), cache.state_at(c, t + 1));
            let step = cache.step_at(c, t);
            let rows = cache.max_seq_len as nat;
            assert(cache.top_indices@[t].0 < c.num_experts && cache.top_indices@[t].1
                < c.num_experts);
            lemma_row_bounds(rows, d, t);
            lemma_row_bounds(rows, c.d_ffn as nat, t);
            lemma_row_bounds(rows, c.vocab_size as nat, t);
            lemma_row_bounds(rows + 1, d, t);
            lemma_row_bounds(rows + 1, d, t + 1);
            self.layer.lemma_step_accumulates(
                step,
                s_prev,
                s_curr,
                lambda,
                later.temporal,
                g.layer,
                later.grads.layer,
            );
            assert(x[t] < c.vocab_size);
            let b = self.layer.backward_cached(
                step,
                s_prev,
                s_curr,
                lambda,
                later.temporal,
                later.grads.layer,
            );
            let delta = self.input_gradient(b.delta_hin, step.h_in, step.h_out, lambda.residual);
            lemma_row_onto::<A>(
                g.embeddings,
                later.grads.embeddings,
                c.vocab_size as nat,
                d,
                x[t] as int,
                delta,
            );
            if t < self.max_seq_len {
                lemma_row_onto::<A>(
                    g.pos_embeddings,
                    later.grads.pos_embeddings,
                    self.max_seq_len as nat,
                    d,
                    t,
                    delta,
                );
            }
        }
    }
}

/// The gradients of a sequence are added to those that were there: where sums do not depend on
/// their order, BPTT adds to any gradients what it makes of none.
pub proof fn bptt_gradients_accumulate<A: Arith>(
    model: AxiomSingleLayerModel<A>,
    x: Seq<usize>,
    cache: SequenceCache<A>,
    lambda: LossWeights<A::T>,
    g: ModelValues<A::T>,
)
    requires
        sums_are_exact::<A>(),
        model.wf(),
        g.fits::<A>(model.config, model.max_seq_len as nat),
        cache.fits(model.config),
        x.len() <= cache.max_seq_len,
        cache.routes_are_valid(model.config, x.len() as int),
        forall|q: int| 0 <= q < x.len() ==> #[trigger] x[q] < model.config.vocab_size,
    ensures
        model.bptt(x, cache, lambda, g, 0).grads == g.plus::<A>(
            model.bptt(
                x,
                cache,
                lambda,
                no_model_grads::<A>(model.config, model.max_seq_len as nat),
                0,
            ).grads,
        ),
{
    model.lemma_bptt_accumulates(x, cache, lambda, g, 0);
}

/// The hidden states of the GRU before the first tokens of a sequence depend on the tokens before
/// them alone.
proof fn lemma_gru_hidden_prefix<A: Arith>(
    model: GruModel<A>,
    x: Seq<usize>,
    other: Seq<usize>,
    n: nat,
)
    requires
        agree(x, other, n),
    ensures
        model.hidden(x, n) == model.hidden(other, n),
    decreases n,
{
    if n > 0 {
        assert(agree(x, other, (n - 1) as nat)) by {
            assert forall|t: int| 0 <= t < n - 1 implies #[trigger] x[t] == other[t] by {}
        }
        lemma_gru_hidden_prefix(model, x, other, (n - 1) as nat);
        assert(x[n - 1] == other[n - 1]);
    }
}

/// The loss of the GRU over the first tokens of a sequence depends on those tokens and their
/// targets alone.
pub proof fn gru_loss_is_causal<A: Arith>(
    model: GruModel<A>,
    x: Seq<usize>,
    y: Seq<usize>,
    other_x: Seq<usize>,
    other_y: Seq<usize>,
    n: nat,
)
    requires
        agree(x, other_x, n),
        agree(y, other_y, n),
    ensures
        model.loss_of(x, y, n) == model.loss_of(other_x, other_y, n),
    decreases n,
{
    if n > 0 {
        let k = (n - 1) as nat;
        assert(agree(x, other_x, k)) by {
            assert forall|t: int| 0 <= t < k implies #[trigger] x[t] == other_x[t] by {}
        }
        assert(agree(y, other_y, k)) by {
            assert forall|t: int| 0 <= t < k implies #[trigger] y[t] == other_y[t] by {}
        }
        gru_loss_is_causal(model, x, y, other_x, other_y, k);
        lemma_gru_hidden_prefix(model, x, other_x, k);
        assert(x[n - 1] == other_x[n - 1]);
        assert(y[n - 1] == other_y[n - 1]);
    }
}

/// The parts of a cached step of the GRU are as long as they should be.
pub open spec fn is_gru_trace<T>(c: GruTrace<T>, vocab: nat, d: nat) -> bool {
    &&& c.h_prev.len() == d
    &&& c.h_curr.len() == d
    &&& c.rz.len() == 2 * d
    &&& c.cand.len() == d
    &&& c.cand_in.len() == 2 * d
    &&& c.pred_grad.len() == vocab
}

impl<A: Arith> GruModel<A> {
    /// The gradients of BPTT down to token `t` are added to those that were there.
    proof fn lemma_back_accumulates(
        &self,
        x: Seq<usize>,
        trace: spec_fn(int) -> GruTrace<A::T>,
        g: GruValues<A::T>,
        t: int,
    )
        requires
            sums_are_exact::<A>(),
            self.wf(),
            g.fits(self.vocab_size as nat, self.d_model as nat),
            forall|q: int| 0 <= q < x.len() ==> #[trigger] x[q] < self.vocab_size,
            forall|q: int|
                0 <= q < x.len() ==> is_gru_trace(
                    #[trigger] trace(q),
                    self.vocab_size as nat,
                    self.d_model as nat,
                ),
            0 <= t <= x.len(),
        ensures
            ({
                let none = no_gru_grads::<A>(self.vocab_size as nat, self.d_model as nat);
                let alone = self.back(x, trace, none, t);
                let after = self.back(x, trace, g, t);
                &&& after.grads == g.plus::<A>(alone.grads)
                &&& after.delta_h == alone.delta_h
                &&& after.delta_h.len() == self.d_model
                &&& alone.grads.fits(self.vocab_size as nat, self.d_model as nat)
            }),
        decreases x.len() - t,
    {
        let (v, d) = (self.vocab_size as nat, self.d_model as nat);
        let none = no_gru_grads::<A>(v, d);
        if t == x.len() {
            lemma_onto_nothing::<A>(g.embeddings);
            lemma_onto_nothing::<A>(g.gate);
            lemma_onto_nothing::<A>(g.cand);
            lemma_onto_nothing::<A>(g.head);
        } else {
            self.lemma_back_accumulates(x, trace, g, t + 1);
            let c = trace(t);
            assert(is_gru_trace(c, v, d));
            assert(x[t] < self.vocab_size);
            lemma_row_bounds(v, d, x[t] as int);
            let later = self.back(x, trace, none, t + 1);
            let r = c.rz.take(d as int);
            let z = c.rz.skip(d as int);
            let delta_h = summed::<A>(
                later.delta_h,
                matvec_transposed_of::<A>(self.w_head@, d, c.pred_grad),
            );
            let delta_raw_cand = delta_raw_cand_of::<A>(delta_h, z, c.cand);
            lemma_rows_added_len::<A>(
                zeros::<A>(2 * d),
                self.w_cand@,
                delta_raw_cand,
                delta_raw_cand.len(),
            );
            let delta_cand_in = matvec_transposed_of::<A>(self.w_cand@, 2 * d, delta_raw_cand);
            let delta_rh = delta_cand_in.skip(d as int);
            let delta_raw_gate = delta_raw_r_of::<A>(delta_rh, c.h_prev, r) + delta_raw_z_of::<A>(
                delta_h,
                z,
                c.cand,
                c.h_prev,
            );
            let gate_in = row_of(self.embeddings@, d, x[t] as int) + c.h_prev;
            let delta_gate_in = matvec_transposed_of::<A>(self.w_gate@, 2 * d, delta_raw_gate);
            lemma_row_onto::<A>(
                g.embeddings,
                later.grads.embeddings,
                v,
                d,
                x[t] as int,
                summed::<A>(delta_gate_in.take(d as int), delta_cand_in.take(d as int)),
            );
            lemma_outer_onto::<A>(
                g.gate,
                later.grads.gate,
                delta_raw_gate,
                gate_in,
                one::<A>(),
            );
            lemma_outer_onto::<A>(
                g.cand,
                later.grads.cand,
                delta_raw_cand,
                c.cand_in,
                one::<A>(),
            );
            lemma_outer_onto::<A>(g.head, later.grads.head, c.pred_grad, c.h_curr, one::<A>());
        }
    }

    /// What BPTT down to token `t` leaves of the embeddings.
    proof fn lemma_back_reaches(
        &self,
        x: Seq<usize>,
        trace: spec_fn(int) -> GruTrace<A::T>,
        g: GruValues<A::T>,
        t: int,
    )
        requires
            g.embeddings.len() == self.vocab_size * self.d_model,
            forall|q: int| 0 <= q < x.len() ==> #[trigger] x[q] < self.vocab_size,
            0 <= t <= x.len(),
        ensures
            ({
                let d = self.d_model as nat;
                let after = self.back(x, trace, g, t).grads.embeddings;
                &&& after.len() == g.embeddings.len()
                &&& forall|v: int|
                    0 <= v < self.vocab_size && (forall|q: int|
                        0 <= q < x.len() ==> #[trigger] x[q] != v) ==> #[trigger] row_of(
                        after,
                        d,
                        v,
                    ) == row_of(g.embeddings, d, v)
            }),
        decreases x.len() - t,
    {
        if t < x.len() {
            self.lemma_back_reaches(x, trace, g, t + 1);
            assert(x[t] < self.vocab_size);
            let d = self.d_model as nat;
            let later = self.back(x, trace, g, t + 1).grads.embeddings;
            let after = self.back(x, trace, g, t).grads.embeddings;
            lemma_row_bounds(self.vocab_size as nat, d, x[t] as int);
            let row = after.subrange(x[t] * d, x[t] * d + d);
            assert(after == with_row(later, d, x[t] as int, row)) by {
                assert(after =~= with_row(later, d, x[t] as int, row));
            }
            lemma_with_row(later, self.vocab_size as nat, d, x[t] as int, row);
        }
    }
}

/// The gradients of a sequence are added to those that were there: where sums do not depend on
/// their order, BPTT through the GRU adds to any gradients what it makes of none.
pub proof fn gru_gradients_accumulate<A: Arith>(
    model: GruModel<A>,
    x: Seq<usize>,
    trace: spec_fn(int) -> GruTrace<A::T>,
    g: GruValues<A::T>,
)
    requires
        sums_are_exact::<A>(),
        model.wf(),
        g.fits(model.vocab_size as nat, model.d_model as nat),
        forall|q: int| 0 <= q < x.len() ==> #[trigger] x[q] < model.vocab_size,
        forall|q: int|
            0 <= q < x.len() ==> is_gru_trace(
                #[trigger] trace(q),
                model.vocab_size as nat,
                model.d_model as nat,
            ),
    ensures
        model.back(x, trace, g, 0).grads == g.plus::<A>(
            model.back(
                x,
                trace,
                no_gru_grads::<A>(model.vocab_size as nat, model.d_model as nat),
                0,
            ).grads,
        ),
{
    model.lemma_back_accumulates(x, trace, g, 0);
}

/// The gradients of a sequence reach the embeddings of its tokens alone, and an empty sequence
/// leaves all gradients of the GRU as they were.
pub proof fn gru_gradients_reach_the_sequence_alone<A: Arith>(
    model: GruModel<A>,
    x: Seq<usize>,
    trace: spec_fn(int) -> GruTrace<A::T>,
    g: GruValues<A::T>,
)
    requires
        g.fits(model.vocab_size as nat, model.d_model as nat),
        forall|q: int| 0 <= q < x.len() ==> #[trigger] x[q] < model.vocab_size,
    ensures
        forall|v: int|
            0 <= v < model.vocab_size && (forall|q: int|
                0 <= q < x.len() ==> #[trigger] x[q] != v) ==> #[trigger] row_of(
                model.back(x, trace, g, 0).grads.embeddings,
                model.d_model as nat,
                v,
            ) == row_of(g.embeddings, model.d_model as nat, v),
        x.len() == 0 ==> model.back(x, trace, g, 0).grads == g,
{
    model.lemma_back_reaches(x, trace, g, 0);
}

} // verus!
