//! Gradients accumulate, whatever sums round to: a backward pass adds terms to each entry, one after
//! the other, that do not depend on the gradients that were there.

use vstd::prelude::*;
use crate::arith::{Arith, one, s_equals, s_plus, s_times, zero};
use crate::expert::ExpertMLP;
use crate::gradient_laws::{is_gru_trace, lemma_weighted_sum_len, step_fits};
use crate::gru::{
    GruModel, GruTrace, GruValues, delta_raw_cand_of, delta_raw_r_of, delta_raw_z_of,
};
use crate::layer::{
    AxiomLayer, ExpertActs, ExpertValues, LayerValues, LossWeights, SequenceCache,
    expert_grads_added, gate_delta, sigmoid_grad_all, times_each,
};
use crate::matvec::{lemma_rows_added_len, matvec_transposed_of, outer_added, outer_row, summed};
use crate::model::{AxiomSingleLayerModel, ModelValues, row_added};
use crate::sequence::CachedStep;
use crate::tensor::{
    add_scaled, dot_of, lemma_row_and_column, lemma_row_bounds, row_of, scaled, with_row, zeros,
};
use crate::transformer::{
    AttnBack, BlockValues, TransformerBlock, TransformerValues, attention_scale,
};
use crate::transformer_model::TransformerModel;
use crate::vectors::all_of_len;

verus! {

/// `start` with the terms added, one after the other.
pub open spec fn added_in_turn<A: Arith>(start: A::T, terms: Seq<A::T>) -> A::T
    decreases terms.len(),
{
    if terms.len() == 0 {
        start
    } else {
        s_plus::<A>(added_in_turn::<A>(start, terms.drop_last()), terms.last())
    }
}

/// `after` is `before` with the terms of each entry added to it, one after the other.
pub open spec fn grown_by<A: Arith>(
    before: Seq<A::T>,
    terms: Seq<Seq<A::T>>,
    after: Seq<A::T>,
) -> bool {
    &&& terms.len() == before.len()
    &&& after.len() == before.len()
    &&& forall|i: int|
        0 <= i < before.len() ==> #[trigger] after[i] == added_in_turn::<A>(before[i], terms[i])
}

/// `g` has become `after`, and `h` has become `h_after` by the same terms.
#[verifier::opaque]
pub open spec fn grown_alike<A: Arith>(
    g: Seq<A::T>,
    after: Seq<A::T>,
    h: Seq<A::T>,
    h_after: Seq<A::T>,
) -> bool {
    exists|terms: Seq<Seq<A::T>>|
        #[trigger] grown_by::<A>(g, terms, after) && grown_by::<A>(h, terms, h_after)
}

/// All the gradients of two blocks have grown by the same terms.
pub open spec fn block_grown_alike<A: Arith>(
    g: BlockValues<A::T>,
    after: BlockValues<A::T>,
    h: BlockValues<A::T>,
    h_after: BlockValues<A::T>,
) -> bool {
    &&& grown_alike::<A>(g.wq, after.wq, h.wq, h_after.wq)
    &&& grown_alike::<A>(g.wk, after.wk, h.wk, h_after.wk)
    &&& grown_alike::<A>(g.wv, after.wv, h.wv, h_after.wv)
    &&& grown_alike::<A>(g.wo, after.wo, h.wo, h_after.wo)
    &&& grown_alike::<A>(g.w1, after.w1, h.w1, h_after.w1)
    &&& grown_alike::<A>(g.w2, after.w2, h.w2, h_after.w2)
}

/// What was not added to has grown by no terms.
proof fn lemma_alike_at_first<A: Arith>(g: Seq<A::T>, h: Seq<A::T>)
    requires
        h.len() == g.len(),
    ensures
        grown_alike::<A>(g, g, h, h),
{
    reveal(grown_alike);
    let terms = Seq::new(g.len(), |i: int| Seq::<A::T>::empty());
    assert(grown_by::<A>(g, terms, g));
    assert(grown_by::<A>(h, terms, h));
}

/// What has grown by the same terms is as long as it was.
proof fn lemma_alike_len<A: Arith>(
    g: Seq<A::T>,
    after: Seq<A::T>,
    h: Seq<A::T>,
    h_after: Seq<A::T>,
)
    requires
        grown_alike::<A>(g, after, h, h_after),
    ensures
        after.len() == g.len(),
        h.len() == g.len(),
        h_after.len() == g.len(),
{
    reveal(grown_alike);
}

/// One more term for some of the entries.
proof fn lemma_alike_with<A: Arith>(
    g: Seq<A::T>,
    a: Seq<A::T>,
    h: Seq<A::T>,
    b: Seq<A::T>,
    more: Seq<Option<A::T>>,
    a2: Seq<A::T>,
    b2: Seq<A::T>,
)
    requires
        grown_alike::<A>(g, a, h, b),
        more.len() == g.len(),
        a2.len() == g.len(),
        b2.len() == g.len(),
        forall|i: int|
            0 <= i < g.len() ==> #[trigger] a2[i] == (match more[i] {
                Some(term) => s_plus::<A>(a[i], term),
                None => a[i],
            }),
        forall|i: int|
            0 <= i < g.len() ==> #[trigger] b2[i] == (match more[i] {
                Some(term) => s_plus::<A>(b[i], term),
                None => b[i],
            }),
    ensures
        grown_alike::<A>(g, a2, h, b2),
{
    reveal(grown_alike);
    let terms = choose|terms: Seq<Seq<A::T>>| #[trigger]
        grown_by::<A>(g, terms, a) && grown_by::<A>(h, terms, b);
    let longer = Seq::new(
        g.len(),
        |i: int|
            match more[i] {
                Some(term) => terms[i].push(term),
                None => terms[i],
            },
    );
    assert forall|i: int| 0 <= i < g.len() implies #[trigger] a2[i] == added_in_turn::<A>(
        g[i],
        longer[i],
    ) && b2[i] == added_in_turn::<A>(h[i], longer[i]) by {
        assert(a[i] == added_in_turn::<A>(g[i], terms[i]));
        assert(b[i] == added_in_turn::<A>(h[i], terms[i]));
        if let Some(term) = more[i] {
            assert(longer[i].drop_last() =~= terms[i]);
        }
    }
    assert forall|i: int| 0 <= i < g.len() implies #[trigger] b2[i] == added_in_turn::<A>(
        h[i],
        longer[i],
    ) by {
        assert(a2[i] == added_in_turn::<A>(g[i], longer[i]));
    }
    assert(grown_by::<A>(g, longer, a2));
    assert(grown_by::<A>(h, longer, b2));
}

/// An outer product adds the same terms to both.
proof fn lemma_outer_alike<A: Arith>(
    g: Seq<A::T>,
    a: Seq<A::T>,
    h: Seq<A::T>,
    b: Seq<A::T>,
    u: Seq<A::T>,
    v: Seq<A::T>,
    alpha: A::T,
)
    requires
        grown_alike::<A>(g, a, h, b),
        g.len() == u.len() * v.len(),
    ensures
        grown_alike::<A>(
            g,
            outer_added::<A>(a, u, v, alpha),
            h,
            outer_added::<A>(b, u, v, alpha),
        ),
{
    lemma_alike_len::<A>(g, a, h, b);
    let cols = v.len();
    let more = Seq::new(
        g.len(),
        |i: int|
            {
                let scale = s_times::<A>(alpha, u[i / (cols as int)]);
                if s_equals::<A>(scale, zero::<A>()) {
                    None
                } else {
                    Some(s_times::<A>(scale, v[i % (cols as int)]))
                }
            },
    );
    let (a2, b2) = (outer_added::<A>(a, u, v, alpha), outer_added::<A>(b, u, v, alpha));
    assert forall|i: int| 0 <= i < g.len() implies #[trigger] a2[i] == (match more[i] {
        Some(term) => s_plus::<A>(a[i], term),
        None => a[i],
    }) by {
        lemma_outer_entry::<A>(a, u, v, alpha, i);
    }
    assert forall|i: int| 0 <= i < g.len() implies #[trigger] b2[i] == (match more[i] {
        Some(term) => s_plus::<A>(b[i], term),
        None => b[i],
    }) by {
        lemma_outer_entry::<A>(b, u, v, alpha, i);
    }
    lemma_alike_with::<A>(g, a, h, b, more, a2, b2);
}

/// An entry of a matrix to which an outer product was added.
proof fn lemma_outer_entry<A: Arith>(
    a: Seq<A::T>,
    u: Seq<A::T>,
    v: Seq<A::T>,
    alpha: A::T,
    i: int,
)
    requires
        a.len() == u.len() * v.len(),
        0 <= i < a.len(),
    ensures
        outer_added::<A>(a, u, v, alpha)[i] == ({
            let scale = s_times::<A>(alpha, u[i / (v.len() as int)]);
            if s_equals::<A>(scale, zero::<A>()) {
                a[i]
            } else {
                s_plus::<A>(a[i], s_times::<A>(scale, v[i % (v.len() as int)]))
            }
        }),
{
    let (rows, cols) = (u.len(), v.len());
    lemma_row_and_column(rows, cols, i);
    let (r, c) = (i / (cols as int), i % (cols as int));
    lemma_row_bounds(rows, cols, r);
    assert(row_of(a, cols, r)[c] == a[i]);
    assert(outer_added::<A>(a, u, v, alpha)[i] == outer_row::<A>(a, u, v, alpha, r)[c]);
}

/// A row adds the same terms to both.
proof fn lemma_row_alike<A: Arith>(
    g: Seq<A::T>,
    a: Seq<A::T>,
    h: Seq<A::T>,
    b: Seq<A::T>,
    rows: nat,
    d: nat,
    r: int,
    delta: Seq<A::T>,
)
    requires
        grown_alike::<A>(g, a, h, b),
        0 <= r < rows,
        g.len() == rows * d,
    ensures
        grown_alike::<A>(g, row_added::<A>(a, d, r, delta), h, row_added::<A>(b, d, r, delta)),
{
    lemma_alike_len::<A>(g, a, h, b);
    lemma_row_bounds(rows, d, r);
    let more = Seq::new(
        g.len(),
        |i: int|
            if r * d <= i < r * d + d {
                Some(delta[i - r * d])
            } else {
                None
            },
    );
    let (a2, b2) = (row_added::<A>(a, d, r, delta), row_added::<A>(b, d, r, delta));
    assert forall|i: int| 0 <= i < g.len() implies #[trigger] a2[i] == (match more[i] {
        Some(term) => s_plus::<A>(a[i], term),
        None => a[i],
    }) by {
        if r * d <= i < r * d + d {
            assert(row_of(a, d, r)[i - r * d] == a[i]);
        }
    }
    assert forall|i: int| 0 <= i < g.len() implies #[trigger] b2[i] == (match more[i] {
        Some(term) => s_plus::<A>(b[i], term),
        None => b[i],
    }) by {
        if r * d <= i < r * d + d {
            assert(row_of(b, d, r)[i - r * d] == b[i]);
        }
    }
    lemma_alike_with::<A>(g, a, h, b, more, a2, b2);
}

/// The gradients of two attentions have grown by the same terms.
spec fn attention_alike<A: Arith>(
    g: BlockValues<A::T>,
    b: AttnBack<A::T>,
    h: BlockValues<A::T>,
    c: AttnBack<A::T>,
) -> bool {
    &&& grown_alike::<A>(g.wq, b.wq, h.wq, c.wq)
    &&& grown_alike::<A>(g.wk, b.wk, h.wk, c.wk)
    &&& grown_alike::<A>(g.wv, b.wv, h.wv, c.wv)
    &&& grown_alike::<A>(g.wo, b.wo, h.wo, c.wo)
}

impl<A: Arith> TransformerBlock<A> {
    /// The attention of a position adds the same terms to any gradients.
    proof fn lemma_row_alike(
        &self,
        hs: Seq<Seq<A::T>>,
        dm: Seq<Seq<A::T>>,
        g: BlockValues<A::T>,
        b: AttnBack<A::T>,
        h: BlockValues<A::T>,
        c: AttnBack<A::T>,
        t: int,
        n: nat,
    )
        requires
            attention_alike::<A>(g, b, h, c),
            g.fits(self.d_model as nat, self.d_ffn as nat),
            0 <= t < hs.len(),
            n <= hs.len(),
            all_of_len(hs, self.d_model as nat),
            dm.len() == hs.len(),
            all_of_len(dm, self.d_model as nat),
        ensures
            attention_alike::<A>(
                g,
                self.row_back(hs, dm, b, t, n),
                h,
                self.row_back(hs, dm, c, t, n),
            ),
        decreases n,
    {
        let d = self.d_model as nat;
        assert(hs[t].len() == d);
        assert(dm[t].len() == d);
        if n == 0 {
            lemma_weighted_sum_len::<A>(
                d,
                self.values_of(hs),
                self.attention(hs, t),
                (t + 1) as nat,
            );
            lemma_outer_alike::<A>(
                g.wo,
                b.wo,
                h.wo,
                c.wo,
                dm[t],
                self.attn_out_of(hs, t),
                one::<A>(),
            );
        } else {
            self.lemma_row_alike(hs, dm, g, b, h, c, t, (n - 1) as nat);
            let j = n - 1;
            let b1 = self.row_back(hs, dm, b, t, j as nat);
            let c1 = self.row_back(hs, dm, c, t, j as nat);
            let d_out = self.d_out_of(dm[t]);
            lemma_rows_added_len::<A>(zeros::<A>(d), self.wo@, dm[t], dm[t].len());
            let p = self.attention(hs, t)[j];
            let d_v = times_each::<A>(p, d_out);
            let d_score = s_times::<A>(
                s_times::<A>(p, dot_of::<A>(d_out, self.value(hs[j]))),
                attention_scale::<A>(self.d_model),
            );
            let d_q = times_each::<A>(d_score, self.key(hs[j]));
            let d_k = times_each::<A>(d_score, self.query(hs[t]));
            assert(hs[j].len() == d);
            lemma_outer_alike::<A>(g.wq, b1.wq, h.wq, c1.wq, d_q, hs[t], one::<A>());
            lemma_outer_alike::<A>(g.wk, b1.wk, h.wk, c1.wk, d_k, hs[j], one::<A>());
            lemma_outer_alike::<A>(g.wv, b1.wv, h.wv, c1.wv, d_v, hs[j], one::<A>());
        }
    }

    /// The attention adds the same terms to any gradients.
    proof fn lemma_attention_alike(
        &self,
        hs: Seq<Seq<A::T>>,
        dm: Seq<Seq<A::T>>,
        g: BlockValues<A::T>,
        b: AttnBack<A::T>,
        h: BlockValues<A::T>,
        c: AttnBack<A::T>,
        n: nat,
    )
        requires
            attention_alike::<A>(g, b, h, c),
            g.fits(self.d_model as nat, self.d_ffn as nat),
            n <= hs.len(),
            all_of_len(hs, self.d_model as nat),
            dm.len() == hs.len(),
            all_of_len(dm, self.d_model as nat),
        ensures
            attention_alike::<A>(
                g,
                self.attn_back(hs, dm, b, n),
                h,
                self.attn_back(hs, dm, c, n),
            ),
        decreases n,
    {
        if n > 0 {
            let before = (n - 1) as nat;
            self.lemma_attention_alike(hs, dm, g, b, h, c, before);
            self.lemma_row_alike(
                hs,
                dm,
                g,
                self.attn_back(hs, dm, b, before),
                h,
                self.attn_back(hs, dm, c, before),
                n - 1,
                n,
            );
        }
    }

    /// The FFN adds the same terms to any gradients.
    proof fn lemma_ffn_alike(
        &self,
        hs: Seq<Seq<A::T>>,
        deltas: Seq<Seq<A::T>>,
        g: BlockValues<A::T>,
        h: BlockValues<A::T>,
        n: nat,
    )
        requires
            g.fits(self.d_model as nat, self.d_ffn as nat),
            h.fits(self.d_model as nat, self.d_ffn as nat),
            n <= hs.len(),
            all_of_len(hs, self.d_model as nat),
            deltas.len() == hs.len(),
            all_of_len(deltas, self.d_model as nat),
        ensures
            grown_alike::<A>(
                g.w1,
                self.w1_back(g.w1, hs, deltas, n),
                h.w1,
                self.w1_back(h.w1, hs, deltas, n),
            ),
            grown_alike::<A>(
                g.w2,
                self.w2_back(g.w2, hs, deltas, n),
                h.w2,
                self.w2_back(h.w2, hs, deltas, n),
            ),
        decreases n,
    {
        if n == 0 {
            lemma_alike_at_first::<A>(g.w1, h.w1);
            lemma_alike_at_first::<A>(g.w2, h.w2);
        } else {
            let t = n - 1;
            self.lemma_ffn_alike(hs, deltas, g, h, t as nat);
            assert(hs[t].len() == self.d_model);
            assert(deltas[t].len() == self.d_model);
            lemma_rows_added_len::<A>(
                zeros::<A>(self.d_ffn as nat),
                self.w2@,
                deltas[t],
                deltas[t].len(),
            );
            lemma_outer_alike::<A>(
                g.w1,
                self.w1_back(g.w1, hs, deltas, t as nat),
                h.w1,
                self.w1_back(h.w1, hs, deltas, t as nat),
                self.d_raw_of(hs, deltas, t),
                self.mid_of(hs, t),
                one::<A>(),
            );
            lemma_outer_alike::<A>(
                g.w2,
                self.w2_back(g.w2, hs, deltas, t as nat),
                h.w2,
                self.w2_back(h.w2, hs, deltas, t as nat),
                deltas[t],
                self.ffn_act_of(hs, t),
                one::<A>(),
            );
        }
    }

    /// A block adds the same terms to any gradients.
    proof fn lemma_block_alike(
        &self,
        hs: Seq<Seq<A::T>>,
        deltas: Seq<Seq<A::T>>,
        g: BlockValues<A::T>,
        h: BlockValues<A::T>,
    )
        requires
            g.fits(self.d_model as nat, self.d_ffn as nat),
            h.fits(self.d_model as nat, self.d_ffn as nat),
            all_of_len(hs, self.d_model as nat),
            deltas.len() == hs.len(),
            all_of_len(deltas, self.d_model as nat),
        ensures
            block_grown_alike::<A>(
                g,
                self.grads_after(hs, deltas, g),
                h,
                self.grads_after(hs, deltas, h),
            ),
    {
        let blank = Seq::new(hs.len(), |t: int| zeros::<A>(self.d_model as nat));
        let b = AttnBack { wq: g.wq, wk: g.wk, wv: g.wv, wo: g.wo, delta_in: blank };
        let c = AttnBack { wq: h.wq, wk: h.wk, wv: h.wv, wo: h.wo, delta_in: blank };
        lemma_alike_at_first::<A>(g.wq, h.wq);
        lemma_alike_at_first::<A>(g.wk, h.wk);
        lemma_alike_at_first::<A>(g.wv, h.wv);
        lemma_alike_at_first::<A>(g.wo, h.wo);
        let dm = self.deltas_mid(hs, deltas);
        assert forall|t: int| 0 <= t < dm.len() implies (#[trigger] dm[t]).len()
            == self.d_model by {
            assert(deltas[t].len() == self.d_model);
        }
        self.lemma_attention_alike(hs, dm, g, b, h, c, hs.len());
        self.lemma_ffn_alike(hs, deltas, g, h, hs.len());
    }
}

impl<A: Arith> TransformerModel<A> {
    /// The prediction head adds the same terms to any gradients.
    proof fn lemma_head_alike(
        &self,
        g: Seq<A::T>,
        h: Seq<A::T>,
        x: Seq<usize>,
        y: Seq<usize>,
        n: nat,
    )
        requires
            self.wf(),
            self.accepts(x, y),
            n <= x.len(),
            g.len() == self.vocab_size * self.d_model,
            h.len() == g.len(),
        ensures
            grown_alike::<A>(g, self.head_back(g, x, y, n), h, self.head_back(h, x, y, n)),
        decreases n,
    {
        if n == 0 {
            lemma_alike_at_first::<A>(g, h);
        } else {
            let l = self.n_layers as nat;
            let before = (n - 1) as nat;
            self.lemma_head_alike(g, h, x, y, before);
            self.lemma_hidden_sizes(x, l);
            assert(self.hidden(x, l)[n - 1].len() == self.d_model);
            lemma_outer_alike::<A>(
                g,
                self.head_back(g, x, y, before),
                h,
                self.head_back(h, x, y, before),
                self.pred_grad_of(x, y, n - 1),
                self.hidden(x, l)[n - 1],
                one::<A>(),
            );
        }
    }

    /// Embeddings and positions get the same terms added to any gradients.
    proof fn lemma_embeddings_alike(
        &self,
        g: TransformerValues<A::T>,
        h: TransformerValues<A::T>,
        x: Seq<usize>,
        deltas: Seq<Seq<A::T>>,
        n: nat,
    )
        requires
            g.fits(self.shape()),
            h.fits(self.shape()),
            n <= x.len() <= self.max_seq_len,
            forall|t: int| 0 <= t < x.len() ==> #[trigger] x[t] < self.vocab_size,
        ensures
            grown_alike::<A>(
                g.embed,
                self.embed_back(g.embed, x, deltas, n),
                h.embed,
                self.embed_back(h.embed, x, deltas, n),
            ),
            grown_alike::<A>(
                g.pos_embed,
                self.pos_back(g.pos_embed, deltas, n),
                h.pos_embed,
                self.pos_back(h.pos_embed, deltas, n),
            ),
        decreases n,
    {
        let d = self.d_model as nat;
        if n == 0 {
            lemma_alike_at_first::<A>(g.embed, h.embed);
            lemma_alike_at_first::<A>(g.pos_embed, h.pos_embed);
        } else {
            let t = n - 1;
            self.lemma_embeddings_alike(g, h, x, deltas, t as nat);
            assert(x[t] < self.vocab_size);
            lemma_row_alike::<A>(
                g.embed,
                self.embed_back(g.embed, x, deltas, t as nat),
                h.embed,
                self.embed_back(h.embed, x, deltas, t as nat),
                self.vocab_size as nat,
                d,
                x[t] as int,
                deltas[t],
            );
            lemma_row_alike::<A>(
                g.pos_embed,
                self.pos_back(g.pos_embed, deltas, t as nat),
                h.pos_embed,
                self.pos_back(h.pos_embed, deltas, t as nat),
                self.max_seq_len as nat,
                d,
                t,
                deltas[t],
            );
        }
    }
}

/// The gradients of a sequence accumulate, with sums as they are rounded: to any two gradients,
/// such as none and those of the sequences before, the Transformer adds the same terms, each entry
/// getting its own one after the other.
pub proof fn transformer_gradients_grow_by_the_same_terms<A: Arith>(
    model: TransformerModel<A>,
    x: Seq<usize>,
    y: Seq<usize>,
    g: TransformerValues<A::T>,
    h: TransformerValues<A::T>,
)
    requires
        model.wf(),
        model.accepts(x, y),
        g.fits(model.shape()),
        h.fits(model.shape()),
    ensures
        ({
            let (after, h_after) = (model.grads_after(x, y, g), model.grads_after(x, y, h));
            &&& grown_alike::<A>(g.embed, after.embed, h.embed, h_after.embed)
            &&& grown_alike::<A>(g.pos_embed, after.pos_embed, h.pos_embed, h_after.pos_embed)
            &&& grown_alike::<A>(g.head, after.head, h.head, h_after.head)
            &&& after.blocks.len() == g.blocks.len()
            &&& h_after.blocks.len() == h.blocks.len()
            &&& forall|l: int|
                0 <= l < model.n_layers ==> block_grown_alike::<A>(
                    g.blocks[l],
                    #[trigger] after.blocks[l],
                    h.blocks[l],
                    h_after.blocks[l],
                )
        }),
{
    let (after, h_after) = (model.grads_after(x, y, g), model.grads_after(x, y, h));
    model.lemma_deltas(x, y, g.blocks, h.blocks, 0);
    model.lemma_embeddings_alike(g, h, x, model.deltas_at(x, y, g.blocks, 0), x.len());
    model.lemma_head_alike(g.head, h.head, x, y, x.len());
    assert forall|l: int| 0 <= l < model.n_layers implies block_grown_alike::<A>(
        g.blocks[l],
        #[trigger] after.blocks[l],
        h.blocks[l],
        h_after.blocks[l],
    ) by {
        let block = model.blocks@[l];
        assert(block.d_model == model.d_model && block.d_ffn == model.d_ffn);
        assert(g.blocks[l].fits(model.d_model as nat, model.d_ffn as nat));
        assert(h.blocks[l].fits(model.d_model as nat, model.d_ffn as nat));
        model.lemma_deltas(x, y, g.blocks, h.blocks, l + 1);
        model.lemma_hidden_sizes(x, l as nat);
        block.lemma_block_alike(
            model.hidden(x, l as nat),
            model.deltas_at(x, y, g.blocks, l + 1),
            g.blocks[l],
            h.blocks[l],
        );
    }
}

/// All the gradients of two GRUs have grown by the same terms.
pub open spec fn gru_grown_alike<A: Arith>(
    g: GruValues<A::T>,
    after: GruValues<A::T>,
    h: GruValues<A::T>,
    h_after: GruValues<A::T>,
) -> bool {
    &&& grown_alike::<A>(g.embeddings, after.embeddings, h.embeddings, h_after.embeddings)
    &&& grown_alike::<A>(g.gate, after.gate, h.gate, h_after.gate)
    &&& grown_alike::<A>(g.cand, after.cand, h.cand, h_after.cand)
    &&& grown_alike::<A>(g.head, after.head, h.head, h_after.head)
}

impl<A: Arith> GruModel<A> {
    /// BPTT down to token `t` adds the same terms to any gradients.
    proof fn lemma_back_alike(
        &self,
        x: Seq<usize>,
        trace: spec_fn(int) -> GruTrace<A::T>,
        g: GruValues<A::T>,
        h: GruValues<A::T>,
        t: int,
    )
        requires
            self.wf(),
            g.fits(self.vocab_size as nat, self.d_model as nat),
            h.fits(self.vocab_size as nat, self.d_model as nat),
            forall|q: int| 0 <= q < x.len() ==> #[trigger] x[q] < self.vocab_size,
            forall|q: int|
                0 <= q < x.len() ==> is_gru_trace(
                    #[trigger] trace(q),
                    self.vocab_size as nat,
                    self.d_model as nat,
                ),
            0 <= t <= x.len(),
        ensures
            gru_grown_alike::<A>(
                g,
                self.back(x, trace, g, t).grads,
                h,
                self.back(x, trace, h, t).grads,
            ),
            self.back(x, trace, g, t).delta_h == self.back(x, trace, h, t).delta_h,
            self.back(x, trace, g, t).delta_h.len() == self.d_model,
        decreases x.len() - t,
    {
        let (v, d) = (self.vocab_size as nat, self.d_model as nat);
        if t == x.len() {
            lemma_alike_at_first::<A>(g.embeddings, h.embeddings);
            lemma_alike_at_first::<A>(g.gate, h.gate);
            lemma_alike_at_first::<A>(g.cand, h.cand);
            lemma_alike_at_first::<A>(g.head, h.head);
        } else {
            self.lemma_back_alike(x, trace, g, h, t + 1);
            let c = trace(t);
            assert(is_gru_trace(c, v, d));
            assert(x[t] < self.vocab_size);
            lemma_row_bounds(v, d, x[t] as int);
            let a = self.back(x, trace, g, t + 1);
            let b = self.back(x, trace, h, t + 1);
            let r = c.rz.take(d as int);
            let z = c.rz.skip(d as int);
            let delta_h = summed::<A>(
                a.delta_h,
                matvec_transposed_of::<A>(self.w_head@, d, c.pred_grad),
            );
            let delta_raw_cand = delta_raw_cand_of::<A>(delta_h, z, c.cand);
            lemma_rows_added_len::<A>(
                zeros::<A>(2 * d),
                self.w_cand@,
                delta_raw_cand,
                delta_raw_cand.len(),
            );
            let delta_cand_in = matvec_transposed_of::<A>(self.w_cand@, 2 * d, delta_raw_cand);
            let delta_rh = delta_cand_in.skip(d as int);
            let delta_raw_gate = delta_raw_r_of::<A>(delta_rh, c.h_prev, r) + delta_raw_z_of::<A>(
                delta_h,
                z,
                c.cand,
                c.h_prev,
            );
            let gate_in = row_of(self.embeddings@, d, x[t] as int) + c.h_prev;
            let delta_gate_in = matvec_transposed_of::<A>(self.w_gate@, 2 * d, delta_raw_gate);
            lemma_row_alike::<A>(
                g.embeddings,
                a.grads.embeddings,
                h.embeddings,
                b.grads.embeddings,
                v,
                d,
                x[t] as int,
                summed::<A>(delta_gate_in.take(d as int), delta_cand_in.take(d as int)),
            );
            lemma_outer_alike::<A>(
                g.gate,
                a.grads.gate,
                h.gate,
                b.grads.gate,
                delta_raw_gate,
                gate_in,
                one::<A>(),
            );
            lemma_outer_alike::<A>(
                g.cand,
                a.grads.cand,
                h.cand,
                b.grads.cand,
                delta_raw_cand,
                c.cand_in,
                one::<A>(),
            );
            lemma_outer_alike::<A>(
                g.head,
                a.grads.head,
                h.head,
                b.grads.head,
                c.pred_grad,
                c.h_curr,
                one::<A>(),
            );
        }
    }
}

/// The gradients of a sequence accumulate, with sums as they are rounded: BPTT through the GRU adds
/// the same terms to any two gradients.
pub proof fn gru_gradients_grow_by_the_same_terms<A: Arith>(
    model: GruModel<A>,
    x: Seq<usize>,
    trace: spec_fn(int) -> GruTrace<A::T>,
    g: GruValues<A::T>,
    h: GruValues<A::T>,
)
    requires
        model.wf(),
        g.fits(model.vocab_size as nat, model.d_model as nat),
        h.fits(model.vocab_size as nat, model.d_model as nat),
        forall|q: int| 0 <= q < x.len() ==> #[trigger] x[q] < model.vocab_size,
        forall|q: int|
            0 <= q < x.len() ==> is_gru_trace(
                #[trigger] trace(q),
                model.vocab_size as nat,
                model.d_model as nat,
            ),
    ensures
        gru_grown_alike::<A>(
            g,
            model.back(x, trace, g, 0).grads,
            h,
            model.back(x, trace, h, 0).grads,
        ),
{
    model.lemma_back_alike(x, trace, g, h, 0);
}

/// The gradients of two experts have grown by the same terms.
pub open spec fn expert_grown_alike<A: Arith>(
    g: ExpertValues<A::T>,
    after: ExpertValues<A::T>,
    h: ExpertValues<A::T>,
    h_after: ExpertValues<A::T>,
) -> bool {
    &&& grown_alike::<A>(g.up, after.up, h.up, h_after.up)
    &&& grown_alike::<A>(g.down, after.down, h.down, h_after.down)
}

/// The gradients of all experts have grown by the same terms.
pub open spec fn experts_grown_alike<A: Arith>(
    g: Seq<ExpertValues<A::T>>,
    after: Seq<ExpertValues<A::T>>,
    h: Seq<ExpertValues<A::T>>,
    h_after: Seq<ExpertValues<A::T>>,
) -> bool {
    &&& after.len() == g.len()
    &&& h.len() == g.len()
    &&& h_after.len() == g.len()
    &&& forall|i: int|
        0 <= i < g.len() ==> expert_grown_alike::<A>(#[trigger] g[i], after[i], h[i], h_after[i])
}

/// All the gradients of two layers have grown by the same terms.
pub open spec fn layer_grown_alike<A: Arith>(
    g: LayerValues<A::T>,
    after: LayerValues<A::T>,
    h: LayerValues<A::T>,
    h_after: LayerValues<A::T>,
) -> bool {
    &&& grown_alike::<A>(g.w_s, after.w_s, h.w_s, h_after.w_s)
    &&& grown_alike::<A>(g.w_gate, after.w_gate, h.w_gate, h_after.w_gate)
    &&& experts_grown_alike::<A>(g.experts, after.experts, h.experts, h_after.experts)
    &&& grown_alike::<A>(g.w_pred, after.w_pred, h.w_pred, h_after.w_pred)
    &&& grown_alike::<A>(g.w_decode, after.w_decode, h.w_decode, h_after.w_decode)
}

/// All the gradients of two models have grown by the same terms.
pub open spec fn model_grown_alike<A: Arith>(
    g: ModelValues<A::T>,
    after: ModelValues<A::T>,
    h: ModelValues<A::T>,
    h_after: ModelValues<A::T>,
) -> bool {
    &&& grown_alike::<A>(g.embeddings, after.embeddings, h.embeddings, h_after.embeddings)
    &&& grown_alike::<A>(
        g.pos_embeddings,
        after.pos_embeddings,
        h.pos_embeddings,
        h_after.pos_embeddings,
    )
    &&& layer_grown_alike::<A>(g.layer, after.layer, h.layer, h_after.layer)
}

/// A scaled row adds the same terms to both.
proof fn lemma_scaled_row_alike<A: Arith>(
    g: Seq<A::T>,
    a: Seq<A::T>,
    h: Seq<A::T>,
    b: Seq<A::T>,
    rows: nat,
    d: nat,
    r: int,
    src: Seq<A::T>,
    alpha: A::T,
)
    requires
        grown_alike::<A>(g, a, h, b),
        0 <= r < rows,
        g.len() == rows * d,
    ensures
        grown_alike::<A>(
            g,
            with_row(a, d, r, add_scaled::<A>(row_of(a, d, r), src, alpha)),
            h,
            with_row(b, d, r, add_scaled::<A>(row_of(b, d, r), src, alpha)),
        ),
{
    lemma_alike_len::<A>(g, a, h, b);
    lemma_row_bounds(rows, d, r);
    let terms = Seq::new(d, |i: int| s_times::<A>(alpha, src[i]));
    assert(add_scaled::<A>(row_of(a, d, r), src, alpha) =~= summed::<A>(row_of(a, d, r), terms));
    assert(add_scaled::<A>(row_of(b, d, r), src, alpha) =~= summed::<A>(row_of(b, d, r), terms));
    lemma_row_alike::<A>(g, a, h, b, rows, d, r, terms);
}

/// An expert adds the same terms to any gradients.
proof fn lemma_expert_alike<A: Arith>(
    expert: ExpertMLP<A>,
    s: Seq<A::T>,
    acts: ExpertActs<A::T>,
    delta: Seq<A::T>,
    g: Seq<ExpertValues<A::T>>,
    a: Seq<ExpertValues<A::T>>,
    h: Seq<ExpertValues<A::T>>,
    b: Seq<ExpertValues<A::T>>,
    d: nat,
    ffn: nat,
    idx: int,
)
    requires
        experts_grown_alike::<A>(g, a, h, b),
        0 <= idx < g.len(),
        g[idx].fits(d, ffn),
        s.len() == d,
        acts.raw.len() == ffn,
        acts.act.len() == ffn,
        delta.len() == d,
    ensures
        experts_grown_alike::<A>(
            g,
            a.update(
                idx,
                expert_grads_added::<A>(expert, s, acts.raw, acts.act, delta, a[idx]),
            ),
            h,
            b.update(
                idx,
                expert_grads_added::<A>(expert, s, acts.raw, acts.act, delta, b[idx]),
            ),
        ),
{
    assert(expert_grown_alike::<A>(g[idx], a[idx], h[idx], b[idx]));
    lemma_outer_alike::<A>(
        g[idx].up,
        a[idx].up,
        h[idx].up,
        b[idx].up,
        expert.delta_z_of(acts.raw, delta),
        s,
        one::<A>(),
    );
    lemma_outer_alike::<A>(
        g[idx].down,
        a[idx].down,
        h[idx].down,
        b[idx].down,
        delta,
        acts.act,
        one::<A>(),
    );
}

impl<A: Arith> AxiomLayer<A> {
    /// A cached step adds the same terms to any gradients, and hands on the same.
    proof fn lemma_step_alike(
        &self,
        c: CachedStep<A::T>,
        s_prev: Seq<A::T>,
        s_curr: Seq<A::T>,
        lambda: LossWeights<A::T>,
        temporal: Seq<A::T>,
        g: LayerValues<A::T>,
        a: LayerValues<A::T>,
        h: LayerValues<A::T>,
        b: LayerValues<A::T>,
    )
        requires
            layer_grown_alike::<A>(g, a, h, b),
            step_fits(
                c,
                self.config.vocab_size as nat,
                self.config.d_model as nat,
                self.config.d_ffn as nat,
            ),
            c.top.0 < self.config.num_experts,
            c.top.1 < self.config.num_experts,
            s_prev.len() == self.config.d_model,
            s_curr.len() == self.config.d_model,
            g.fits::<A>(self.config),
        ensures
            ({
                let x = self.backward_cached(c, s_prev, s_curr, lambda, temporal, a);
                let y = self.backward_cached(c, s_prev, s_curr, lambda, temporal, b);
                &&& layer_grown_alike::<A>(g, x.grads, h, y.grads)
                &&& x.delta_hin == y.delta_hin
                &&& x.temporal == y.temporal
            }),
    {
        let (d, ffn) = (self.config.d_model as nat, self.config.d_ffn as nat);
        let n = self.config.num_experts as nat;
        let (idx1, idx2) = (c.top.0 as int, c.top.1 as int);
        let (g1, g2) = (c.weights[0], c.weights[1]);
        let delta_h1 = self.delta_h1_of(
            c.h_in,
            c.h_out,
            c.pred_grad,
            c.recon_grad,
            lambda,
            false,
        );
        self.lemma_delta_h1_len(c.h_in, c.h_out, c.pred_grad, c.recon_grad, lambda);
        // through the experts
        let (expert1, expert2) = (self.experts@[idx1], self.experts@[idx2]);
        let (delta1, delta2) = (scaled::<A>(delta_h1, g1), scaled::<A>(delta_h1, g2));
        assert(g.experts[idx1].fits(d, ffn));
        assert(g.experts[idx2].fits(d, ffn));
        lemma_expert_alike::<A>(
            expert1,
            s_curr,
            c.acts1,
            delta1,
            g.experts,
            a.experts,
            h.experts,
            b.experts,
            d,
            ffn,
            idx1,
        );
        let a1 = a.experts.update(
            idx1,
            expert_grads_added::<A>(
                expert1,
                s_curr,
                c.acts1.raw,
                c.acts1.act,
                delta1,
                a.experts[idx1],
            ),
        );
        let b1 = b.experts.update(
            idx1,
            expert_grads_added::<A>(
                expert1,
                s_curr,
                c.acts1.raw,
                c.acts1.act,
                delta1,
                b.experts[idx1],
            ),
        );
        lemma_expert_alike::<A>(
            expert2,
            s_curr,
            c.acts2,
            delta2,
            g.experts,
            a1,
            h.experts,
            b1,
            d,
            ffn,
            idx2,
        );
        // through the router
        let dg1 = dot_of::<A>(delta_h1, c.acts1.out);
        let dg2 = dot_of::<A>(delta_h1, c.acts2.out);
        let delta_gate1 = gate_delta::<A>(g1, g1, g2, dg1, dg2);
        let delta_gate2 = gate_delta::<A>(g2, g1, g2, dg2, dg1);
        lemma_scaled_row_alike::<A>(
            g.w_gate,
            a.w_gate,
            h.w_gate,
            b.w_gate,
            n,
            d,
            idx1,
            s_curr,
            delta_gate1,
        );
        let a_gate = with_row(
            a.w_gate,
            d,
            idx1,
            add_scaled::<A>(row_of(a.w_gate, d, idx1), s_curr, delta_gate1),
        );
        let b_gate = with_row(
            b.w_gate,
            d,
            idx1,
            add_scaled::<A>(row_of(b.w_gate, d, idx1), s_curr, delta_gate1),
        );
        lemma_scaled_row_alike::<A>(
            g.w_gate,
            a_gate,
            h.w_gate,
            b_gate,
            n,
            d,
            idx2,
            s_curr,
            delta_gate2,
        );
        let routed = self.routed_backward(
            idx1,
            idx2,
            g1,
            g2,
            s_curr,
            c.acts1,
            c.acts2,
            delta_h1,
            a.experts,
            a.w_gate,
        );
        let delta_us = sigmoid_grad_all::<A>(s_curr, summed::<A>(routed.delta_s, temporal));
        let state_in = c.h_in + c.m_recall + s_prev;
        lemma_outer_alike::<A>(g.w_s, a.w_s, h.w_s, b.w_s, delta_us, state_in, one::<A>());
        lemma_outer_alike::<A>(
            g.w_pred,
            a.w_pred,
            h.w_pred,
            b.w_pred,
            c.pred_grad,
            c.h_out,
            lambda.pred,
        );
        lemma_outer_alike::<A>(
            g.w_decode,
            a.w_decode,
            h.w_decode,
            b.w_decode,
            c.recon_grad,
            c.h_out,
            lambda.recon,
        );
        let x = self.backward_cached(c, s_prev, s_curr, lambda, temporal, a);
        assert(x.grads.experts == routed.experts);
    }
}

impl<A: Arith> AxiomSingleLayerModel<A> {
    /// BPTT down to step `t` adds the same terms to any gradients.
    proof fn lemma_bptt_alike(
        &self,
        x: Seq<usize>,
        cache: SequenceCache<A>,
        lambda: LossWeights<A::T>,
        g: ModelValues<A::T>,
        h: ModelValues<A::T>,
        t: int,
    )
        requires
            self.layer.config == self.config,
            g.fits::<A>(self.config, self.max_seq_len as nat),
            h.fits::<A>(self.config, self.max_seq_len as nat),
            cache.fits(self.config),
            x.len() <= cache.max_seq_len,
            cache.routes_are_valid(self.config, x.len() as int),
            forall|q: int| 0 <= q < x.len() ==> #[trigger] x[q] < self.config.vocab_size,
            0 <= t <= x.len(),
        ensures
            model_grown_alike::<A>(
                g,
                self.bptt(x, cache, lambda, g, t).grads,
                h,
                self.bptt(x, cache, lambda, h, t).grads,
            ),
            self.bptt(x, cache, lambda, g, t).temporal == self.bptt(
                x,
                cache,
                lambda,
                h,
                t,
            ).temporal,
        decreases x.len() - t,
    {
        let c = self.config;
        let d = c.d_model as nat;
        if t == x.len() {
            lemma_alike_at_first::<A>(g.embeddings, h.embeddings);
            lemma_alike_at_first::<A>(g.pos_embeddings, h.pos_embeddings);
            lemma_alike_at_first::<A>(g.layer.w_s, h.layer.w_s);
            lemma_alike_at_first::<A>(g.layer.w_gate, h.layer.w_gate);
            lemma_alike_at_first::<A>(g.layer.w_pred, h.layer.w_pred);
            lemma_alike_at_first::<A>(g.layer.w_decode, h.layer.w_decode);
            let (e, f) = (g.layer.experts, h.layer.experts);
            assert forall|i: int| 0 <= i < e.len() implies expert_grown_alike::<A>(
                #[trigger] e[i],
                e[i],
                f[i],
                f[i],
            ) by {
                assert(e[i].fits(d, c.d_ffn as nat) && f[i].fits(d, c.d_ffn as nat));
                lemma_alike_at_first::<A>(e[i].up, f[i].up);
                lemma_alike_at_first::<A>(e[i].down, f[i].down);
            }
        } else {
            self.lemma_bptt_alike(x, cache, lambda, g, h, t + 1);
            let a = self.bptt(x, cache, lambda, g, t + 1);
            let b = self.bptt(x, cache, lambda, h, t + 1);
            let (s_prev, s_curr) = (cache.state_at(c, t), cache.state_at(c, t + 1));
            let step = cache.step_at(c, t);
            let rows = cache.max_seq_len as nat;
            assert(cache.top_indices@[t].0 < c.num_experts && cache.top_indices@[t].1
                < c.num_experts);
            lemma_row_bounds(rows, d, t);
            lemma_row_bounds(rows, c.d_ffn as nat, t);
            lemma_row_bounds(rows, c.vocab_size as nat, t);
            lemma_row_bounds(rows + 1, d, t);
            lemma_row_bounds(rows + 1, d, t + 1);
            self.layer.lemma_step_alike(
                step,
                s_prev,
                s_curr,
                lambda,
                a.temporal,
                g.layer,
                a.grads.layer,
                h.layer,
                b.grads.layer,
            );
            assert(x[t] < c.vocab_size);
            let back = self.layer.backward_cached(
                step,
                s_prev,
                s_curr,
                lambda,
                a.temporal,
                a.grads.layer,
            );
            let delta = self.input_gradient(back.delta_hin, step.h_in, step.h_out, lambda.residual);
            lemma_row_alike::<A>(
                g.embeddings,
                a.grads.embeddings,
                h.embeddings,
                b.grads.embeddings,
                c.vocab_size as nat,
                d,
                x[t] as int,
                delta,
            );
            if t < self.max_seq_len {
                lemma_row_alike::<A>(
                    g.pos_embeddings,
                    a.grads.pos_embeddings,
                    h.pos_embeddings,
                    b.grads.pos_embeddings,
                    self.max_seq_len as nat,
                    d,
                    t,
                    delta,
                );
            }
        }
    }
}

/// The gradients of a sequence accumulate, with sums as they are rounded: BPTT adds the same terms
/// to any two gradients.
pub proof fn bptt_gradients_grow_by_the_same_terms<A: Arith>(
    model: AxiomSingleLayerModel<A>,
    x: Seq<usize>,
    cache: SequenceCache<A>,
    lambda: LossWeights<A::T>,
    g: ModelValues<A::T>,
    h: ModelValues<A::T>,
)
    requires
        model.wf(),
        g.fits::<A>(model.config, model.max_seq_len as nat),
        h.fits::<A>(model.config, model.max_seq_len as nat),
        cache.fits(model.config),
        x.len() <= cache.max_seq_len,
        cache.routes_are_valid(model.config, x.len() as int),
        forall|q: int| 0 <= q < x.len() ==> #[trigger] x[q] < model.config.vocab_size,
    ensures
        model_grown_alike::<A>(
            g,
            model.bptt(x, cache, lambda, g, 0).grads,
            h,
            model.bptt(x, cache, lambda, h, 0).grads,
        ),
{
    model.lemma_bptt_alike(x, cache, lambda, g, h, 0);
}

} // verus!
