//! Backpropagation through a block of the Transformer baseline.

use vstd::prelude::*;
use crate::arith::{Arith, lawful, one, s_times};
use crate::layer::{times_each, vec_add, zero_vec};
use crate::matvec::{matvec_transposed_of, outer_added, summed};
use crate::tensor::{dot, dot_of, zeros};
use crate::transformer::{
    AttnBack, BlockTrace, BlockValues, TransformerBlock, TransformerBlockGrads, attention_scale,
    gelu_back, gelu_slope, weighted_sum,
};
use crate::vectors::{
    add_outer, all_of_len, lemma_row_in, mul_transposed, rows_in, sum_vec, times_vec,
};

verus! {

impl<A: Arith> TransformerBlock<A> {
    /// The gradient before the GELUs at position `t`.
    pub open spec fn d_raw_of(
        &self,
        hs: Seq<Seq<A::T>>,
        deltas: Seq<Seq<A::T>>,
        t: int,
    ) -> Seq<A::T> {
        gelu_back::<A>(
            self.ffn_raw_of(hs, t),
            matvec_transposed_of::<A>(self.w2@, self.d_ffn as nat, deltas[t]),
        )
    }

    /// The gradient at mid_h at position `t`: that of the residual and that of the FFN.
    pub open spec fn delta_mid_of(
        &self,
        hs: Seq<Seq<A::T>>,
        deltas: Seq<Seq<A::T>>,
        t: int,
    ) -> Seq<A::T> {
        summed::<A>(
            deltas[t],
            matvec_transposed_of::<A>(
                self.w1@,
                self.d_model as nat,
                self.d_raw_of(hs, deltas, t),
            ),
        )
    }

    /// The gradients at mid_h at all positions.
    pub open spec fn deltas_mid(&self, hs: Seq<Seq<A::T>>, deltas: Seq<Seq<A::T>>) -> Seq<
        Seq<A::T>,
    > {
        Seq::new(hs.len(), |t: int| self.delta_mid_of(hs, deltas, t))
    }

    /// The gradients of W1 after the first `n` positions.
    pub open spec fn w1_back(
        &self,
        g: Seq<A::T>,
        hs: Seq<Seq<A::T>>,
        deltas: Seq<Seq<A::T>>,
        n: nat,
    ) -> Seq<A::T>
        decreases n,
    {
        if n == 0 {
            g
        } else {
            outer_added::<A>(
                self.w1_back(g, hs, deltas, (n - 1) as nat),
                self.d_raw_of(hs, deltas, n - 1),
                self.mid_of(hs, n - 1),
                one::<A>(),
            )
        }
    }

    /// The gradients of W2 after the first `n` positions.
    pub open spec fn w2_back(
        &self,
        g: Seq<A::T>,
        hs: Seq<Seq<A::T>>,
        deltas: Seq<Seq<A::T>>,
        n: nat,
    ) -> Seq<A::T>
        decreases n,
    {
        if n == 0 {
            g
        } else {
            outer_added::<A>(
                self.w2_back(g, hs, deltas, (n - 1) as nat),
                deltas[n - 1],
                self.ffn_act_of(hs, n - 1),
                one::<A>(),
            )
        }
    }

    /// What the attention of position `t` to position `j` adds, for the gradient `d_out` at what
    /// `t` gets from its attention.
    pub open spec fn pair_back(
        &self,
        hs: Seq<Seq<A::T>>,
        d_out: Seq<A::T>,
        b: AttnBack<A::T>,
        t: int,
        j: int,
    ) -> AttnBack<A::T> {
        let d = self.d_model as nat;
        let p = self.attention(hs, t)[j];
        let d_v = times_each::<A>(p, d_out);
        let d_score = s_times::<A>(
            s_times::<A>(p, dot_of::<A>(d_out, self.value(hs[j]))),
            attention_scale::<A>(self.d_model),
        );
        let d_q = times_each::<A>(d_score, self.key(hs[j]));
        let d_k = times_each::<A>(d_score, self.query(hs[t]));
        let dq_in = matvec_transposed_of::<A>(self.wq@, d, d_q);
        let dk_in = matvec_transposed_of::<A>(self.wk@, d, d_k);
        let dv_in = matvec_transposed_of::<A>(self.wv@, d, d_v);
        let with_q = b.delta_in.update(t, summed::<A>(b.delta_in[t], dq_in));
        AttnBack {
            wq: outer_added::<A>(b.wq, d_q, hs[t], one::<A>()),
            wk: outer_added::<A>(b.wk, d_k, hs[j], one::<A>()),
            wv: outer_added::<A>(b.wv, d_v, hs[j], one::<A>()),
            wo: b.wo,
            delta_in: with_q.update(j, summed::<A>(with_q[j], summed::<A>(dk_in, dv_in))),
        }
    }

    /// The gradient at what a position gets from its attention.
    pub open spec fn d_out_of(&self, dm: Seq<A::T>) -> Seq<A::T> {
        matvec_transposed_of::<A>(self.wo@, self.d_model as nat, dm)
    }

    /// Backward through the attention of position `t` to the first `n` positions.
    pub open spec fn row_back(
        &self,
        hs: Seq<Seq<A::T>>,
        dm: Seq<Seq<A::T>>,
        b: AttnBack<A::T>,
        t: int,
        n: nat,
    ) -> AttnBack<A::T>
        decreases n,
    {
        if n == 0 {
            AttnBack {
                wo: outer_added::<A>(b.wo, dm[t], self.attn_out_of(hs, t), one::<A>()),
                delta_in: b.delta_in.update(t, summed::<A>(b.delta_in[t], dm[t])),
                ..b
            }
        } else {
            self.pair_back(
                hs,
                self.d_out_of(dm[t]),
                self.row_back(hs, dm, b, t, (n - 1) as nat),
                t,
                n - 1,
            )
        }
    }

    /// Backward through the attention of the first `n` positions.
    pub open spec fn attn_back(
        &self,
        hs: Seq<Seq<A::T>>,
        dm: Seq<Seq<A::T>>,
        b: AttnBack<A::T>,
        n: nat,
    ) -> AttnBack<A::T>
        decreases n,
    {
        if n == 0 {
            b
        } else {
            self.row_back(hs, dm, self.attn_back(hs, dm, b, (n - 1) as nat), n - 1, n)
        }
    }

    /// Backward through the attention of all positions, from no gradients at the inputs.
    pub open spec fn attention_done(
        &self,
        hs: Seq<Seq<A::T>>,
        deltas: Seq<Seq<A::T>>,
        g: BlockValues<A::T>,
    ) -> AttnBack<A::T> {
        self.attn_back(
            hs,
            self.deltas_mid(hs, deltas),
            AttnBack {
                wq: g.wq,
                wk: g.wk,
                wv: g.wv,
                wo: g.wo,
                delta_in: Seq::new(hs.len(), |t: int| zeros::<A>(self.d_model as nat)),
            },
            hs.len(),
        )
    }

    /// The gradients of the block after the backward pass, for the gradients `deltas` at its
    /// outputs.
    pub open spec fn grads_after(
        &self,
        hs: Seq<Seq<A::T>>,
        deltas: Seq<Seq<A::T>>,
        g: BlockValues<A::T>,
    ) -> BlockValues<A::T> {
        let b = self.attention_done(hs, deltas, g);
        BlockValues {
            wq: b.wq,
            wk: b.wk,
            wv: b.wv,
            wo: b.wo,
            w1: self.w1_back(g.w1, hs, deltas, hs.len()),
            w2: self.w2_back(g.w2, hs, deltas, hs.len()),
        }
    }

    /// Backward through the FFN at position `t`. Returns the gradient at mid_h.
    fn ffn_backward(
        &self,
        dh: &[A::T],
        act: &[A::T],
        raw: &[A::T],
        mid: &[A::T],
        grad_w1: &mut Vec<A::T>,
        grad_w2: &mut Vec<A::T>,
    ) -> (dm: Vec<A::T>)
        requires
            lawful::<A>(),
            self.wf(),
            dh@.len() == self.d_model,
            act@.len() == self.d_ffn,
            raw@.len() == self.d_ffn,
            mid@.len() == self.d_model,
            old(grad_w1)@.len() == self.d_ffn * self.d_model,
            old(grad_w2)@.len() == self.d_model * self.d_ffn,
        ensures
            ({
                let d_raw = gelu_back::<A>(
                    raw@,
                    matvec_transposed_of::<A>(self.w2@, self.d_ffn as nat, dh@),
                );
                &&& final(grad_w2)@ == outer_added::<A>(old(grad_w2)@, dh@, act@, one::<A>())
                &&& final(grad_w1)@ == outer_added::<A>(old(grad_w1)@, d_raw, mid@, one::<A>())
                &&& dm@ == summed::<A>(
                    dh@,
                    matvec_transposed_of::<A>(self.w1@, self.d_model as nat, d_raw),
                )
            }),
            dm@.len() == self.d_model,
            final(grad_w1)@.len() == old(grad_w1)@.len(),
            final(grad_w2)@.len() == old(grad_w2)@.len(),
    {
        add_outer::<A>(grad_w2, dh, act);
        let d_act = mul_transposed::<A>(self.w2.as_slice(), self.d_ffn, dh);
        let d_raw = through_gelu::<A>(raw, d_act.as_slice());
        add_outer::<A>(grad_w1, d_raw.as_slice(), mid);
        let d_mid_ffn = mul_transposed::<A>(self.w1.as_slice(), self.d_model, d_raw.as_slice());
        // delta_mid = dh (residual) + d_mid_ffn
        sum_vec::<A>(dh, d_mid_ffn.as_slice())
    }

    /// Backward through the attention of one position to another.
    fn pair_backward(
        &self,
        p: A::T,
        d_out: &[A::T],
        q_t: &[A::T],
        k_j: &[A::T],
        v_j: &[A::T],
        h_t: &[A::T],
        h_j: &[A::T],
        t: usize,
        j: usize,
        grads: &mut TransformerBlockGrads<A>,
        delta_in: &mut Vec<Vec<A::T>>,
        Ghost(hs): Ghost<Seq<Seq<A::T>>>,
    )
        requires
            lawful::<A>(),
            self.wf(),
            t < hs.len(),
            j <= t,
            p == self.attention(hs, t as int)[j as int],
            q_t@ == self.query(hs[t as int]),
            k_j@ == self.key(hs[j as int]),
            v_j@ == self.value(hs[j as int]),
            h_t@ == hs[t as int],
            h_j@ == hs[j as int],
            d_out@.len() == self.d_model,
            q_t@.len() == self.d_model,
            k_j@.len() == self.d_model,
            v_j@.len() == self.d_model,
            h_t@.len() == self.d_model,
            h_j@.len() == self.d_model,
            old(grads)@.fits(self.d_model as nat, self.d_ffn as nat),
            old(delta_in)@.len() == hs.len(),
            all_of_len(rows_in(old(delta_in)@), self.d_model as nat),
        ensures
            back_view(final(grads)@, final(delta_in)@) == self.pair_back(
                hs,
                d_out@,
                back_view(old(grads)@, old(delta_in)@),
                t as int,
                j as int,
            ),
            final(grads)@.w1 == old(grads)@.w1,
            final(grads)@.w2 == old(grads)@.w2,
            final(grads)@.fits(self.d_model as nat, self.d_ffn as nat),
            final(delta_in)@.len() == hs.len(),
            all_of_len(rows_in(final(delta_in)@), self.d_model as nat),
    {
        let d: usize = self.d_model;
        // d_V_j += p_j * d_attn_out
        let d_v = times_vec::<A>(p, d_out);
        add_outer::<A>(&mut grads.grad_wv, d_v.as_slice(), h_j);
        // d_Q_t and d_K_j
        let scale = A::over(A::lit(1, 0), A::sqrt(A::count(d)));
        let d_score = A::times(A::times(p, dot::<A>(d_out, v_j)), scale);
        let d_q = times_vec::<A>(d_score, k_j);
        let d_k = times_vec::<A>(d_score, q_t);
        add_outer::<A>(&mut grads.grad_wq, d_q.as_slice(), h_t);
        add_outer::<A>(&mut grads.grad_wk, d_k.as_slice(), h_j);
        let dq_in = mul_transposed::<A>(self.wq.as_slice(), d, d_q.as_slice());
        let dk_in = mul_transposed::<A>(self.wk.as_slice(), d, d_k.as_slice());
        let dv_in = mul_transposed::<A>(self.wv.as_slice(), d, d_v.as_slice());
        let kv_in = sum_vec::<A>(dk_in.as_slice(), dv_in.as_slice());
        add_to::<A>(delta_in, t, dq_in.as_slice());
        add_to::<A>(delta_in, j, kv_in.as_slice());
    }

    /// Backward through the attention of position `t`.
    fn row_backward(
        &self,
        hs: &Vec<Vec<A::T>>,
        tr: &BlockTrace<A>,
        dm: &Vec<Vec<A::T>>,
        t: usize,
        grads: &mut TransformerBlockGrads<A>,
        delta_in: &mut Vec<Vec<A::T>>,
    )
        requires
            lawful::<A>(),
            self.wf(),
            self.traced(rows_in(hs@), *tr),
            all_of_len(rows_in(hs@), self.d_model as nat),
            t < hs@.len(),
            dm@.len() == hs@.len(),
            all_of_len(rows_in(dm@), self.d_model as nat),
            old(grads)@.fits(self.d_model as nat, self.d_ffn as nat),
            old(delta_in)@.len() == hs@.len(),
            all_of_len(rows_in(old(delta_in)@), self.d_model as nat),
        ensures
            back_view(final(grads)@, final(delta_in)@) == self.row_back(
                rows_in(hs@),
                rows_in(dm@),
                back_view(old(grads)@, old(delta_in)@),
                t as int,
                (t + 1) as nat,
            ),
            final(grads)@.w1 == old(grads)@.w1,
            final(grads)@.w2 == old(grads)@.w2,
            final(grads)@.fits(self.d_model as nat, self.d_ffn as nat),
            final(delta_in)@.len() == hs@.len(),
            all_of_len(rows_in(final(delta_in)@), self.d_model as nat),
    {
        let ghost h = rows_in(hs@);
        let ghost m = rows_in(dm@);
        let ghost b0 = back_view(grads@, delta_in@);
        let ghost g0 = grads@;
        proof {
            self.lemma_trace_row(h, *tr, t as int);
            assert(h[t as int].len() == self.d_model);
            assert(m[t as int].len() == self.d_model);
            assert(hs.len() == hs@.len());
        }
        add_outer::<A>(&mut grads.grad_wo, dm[t].as_slice(), tr.attn_out[t].as_slice());
        let d_out = mul_transposed::<A>(self.wo.as_slice(), self.d_model, dm[t].as_slice());
        // Residual connection: delta_in += delta_mid
        add_to::<A>(delta_in, t, dm[t].as_slice());
        // Attn gradient into Q, K, V
        let mut j: usize = 0;
        while j <= t
            invariant
                lawful::<A>(),
                self.wf(),
                self.traced(h, *tr),
                h == rows_in(hs@),
                m == rows_in(dm@),
                all_of_len(h, self.d_model as nat),
                t < hs@.len(),
                t < usize::MAX,
                j <= t + 1,
                d_out@ == self.d_out_of(m[t as int]),
                d_out@.len() == self.d_model,
                g0.w1 == grads@.w1,
                g0.w2 == grads@.w2,
                grads@.fits(self.d_model as nat, self.d_ffn as nat),
                delta_in@.len() == hs@.len(),
                all_of_len(rows_in(delta_in@), self.d_model as nat),
                back_view(grads@, delta_in@) == self.row_back(h, m, b0, t as int, j as nat),
            decreases t + 1 - j,
        {
            proof {
                self.lemma_trace_row(h, *tr, t as int);
                self.lemma_trace_row(h, *tr, j as int);
                assert(h[t as int].len() == self.d_model);
                assert(h[j as int].len() == self.d_model);
            }
            let p = tr.weights[t][j];
            self.pair_backward(
                p,
                d_out.as_slice(),
                tr.q[t].as_slice(),
                tr.k[j].as_slice(),
                tr.v[j].as_slice(),
                hs[t].as_slice(),
                hs[j].as_slice(),
                t,
                j,
                grads,
                delta_in,
                Ghost(h),
            );
            j += 1;
        }
    }

    /// Row `t` of each list of a trace.
    proof fn lemma_trace_row(&self, hs: Seq<Seq<A::T>>, tr: BlockTrace<A>, t: int)
        requires
            self.traced(hs, tr),
            0 <= t < hs.len(),
            all_of_len(hs, self.d_model as nat),
        ensures
            tr.q@.len() == hs.len(),
            tr.k@.len() == hs.len(),
            tr.v@.len() == hs.len(),
            tr.weights@.len() == hs.len(),
            tr.attn_out@.len() == hs.len(),
            tr.mid@.len() == hs.len(),
            tr.ffn_raw@.len() == hs.len(),
            tr.ffn_act@.len() == hs.len(),
            tr.out@.len() == hs.len(),
            tr.q@[t]@ == self.query(hs[t]),
            tr.k@[t]@ == self.key(hs[t]),
            tr.v@[t]@ == self.value(hs[t]),
            tr.weights@[t]@ == self.attention(hs, t),
            tr.weights@[t]@.len() == t + 1,
            tr.attn_out@[t]@ == self.attn_out_of(hs, t),
            tr.attn_out@[t]@.len() == self.d_model,
            tr.mid@[t]@ == self.mid_of(hs, t),
            tr.mid@[t]@.len() == self.d_model,
            tr.ffn_raw@[t]@ == self.ffn_raw_of(hs, t),
            tr.ffn_raw@[t]@.len() == self.d_ffn,
            tr.ffn_act@[t]@ == self.ffn_act_of(hs, t),
            tr.ffn_act@[t]@.len() == self.d_ffn,
    {
        lemma_row_in(tr.q@, self.queries(hs), t);
        lemma_row_in(tr.k@, self.keys(hs), t);
        lemma_row_in(tr.v@, self.values_of(hs), t);
        lemma_row_in(tr.weights@, Seq::new(hs.len(), |i: int| self.attention(hs, i)), t);
        lemma_row_in(tr.attn_out@, Seq::new(hs.len(), |i: int| self.attn_out_of(hs, i)), t);
        lemma_row_in(tr.mid@, Seq::new(hs.len(), |i: int| self.mid_of(hs, i)), t);
        lemma_row_in(tr.ffn_raw@, Seq::new(hs.len(), |i: int| self.ffn_raw_of(hs, i)), t);
        lemma_row_in(tr.ffn_act@, Seq::new(hs.len(), |i: int| self.ffn_act_of(hs, i)), t);
        lemma_row_in(tr.out@, self.outputs(hs), t);
        self.lemma_attn_out_len(hs, t, (t + 1) as nat);
    }

    /// What a position gets from its attention is a vector of the dimension of the block.
    proof fn lemma_attn_out_len(&self, hs: Seq<Seq<A::T>>, t: int, n: nat)
        ensures
            weighted_sum::<A>(
                self.d_model as nat,
                self.values_of(hs),
                self.attention(hs, t),
                n,
            ).len() == self.d_model,
        decreases n,
    {
        if n > 0 {
            self.lemma_attn_out_len(hs, t, (n - 1) as nat);
        }
    }

    /// Backward through the block, for the gradients `deltas` at its outputs. Adds to its
    /// gradients and returns the gradients at its inputs.
    pub fn backward(
        &self,
        hs: &Vec<Vec<A::T>>,
        tr: &BlockTrace<A>,
        deltas: &Vec<Vec<A::T>>,
        grads: &mut TransformerBlockGrads<A>,
    ) -> (delta_in: Vec<Vec<A::T>>)
        requires
            lawful::<A>(),
            self.wf(),
            all_of_len(rows_in(hs@), self.d_model as nat),
            self.traced(rows_in(hs@), *tr),
            deltas@.len() == hs@.len(),
            all_of_len(rows_in(deltas@), self.d_model as nat),
            old(grads)@.fits(self.d_model as nat, self.d_ffn as nat),
        ensures
            final(grads)@ == self.grads_after(rows_in(hs@), rows_in(deltas@), old(grads)@),
            rows_in(delta_in@) == self.attention_done(
                rows_in(hs@),
                rows_in(deltas@),
                old(grads)@,
            ).delta_in,
            final(grads)@.fits(self.d_model as nat, self.d_ffn as nat),
            delta_in@.len() == hs@.len(),
            all_of_len(rows_in(delta_in@), self.d_model as nat),
    {
        let d: usize = self.d_model;
        let n: usize = hs.len();
        let ghost h = rows_in(hs@);
        let ghost ds = rows_in(deltas@);
        let ghost g0 = grads@;
        // Backward through FFN
        let mut delta_mid: Vec<Vec<A::T>> = Vec::with_capacity(n);
        let mut t: usize = 0;
        while t < n
            invariant
                lawful::<A>(),
                self.wf(),
                d == self.d_model,
                n == hs@.len(),
                n == deltas@.len(),
                t <= n,
                h == rows_in(hs@),
                ds == rows_in(deltas@),
                all_of_len(h, d as nat),
                all_of_len(ds, d as nat),
                self.traced(h, *tr),
                grads@.fits(d as nat, self.d_ffn as nat),
                grads@.wq == g0.wq,
                grads@.wk == g0.wk,
                grads@.wv == g0.wv,
                grads@.wo == g0.wo,
                grads@.w1 == self.w1_back(g0.w1, h, ds, t as nat),
                grads@.w2 == self.w2_back(g0.w2, h, ds, t as nat),
                delta_mid@.len() == t,
                forall|q: int|
                    0 <= q < t ==> (#[trigger] delta_mid@[q])@ == self.delta_mid_of(h, ds, q)
                        && delta_mid@[q]@.len() == d,
            decreases n - t,
        {
            proof {
                self.lemma_trace_row(h, *tr, t as int);
                assert(ds[t as int].len() == d);
            }
            let dm = self.ffn_backward(
                deltas[t].as_slice(),
                tr.ffn_act[t].as_slice(),
                tr.ffn_raw[t].as_slice(),
                tr.mid[t].as_slice(),
                &mut grads.grad_w1,
                &mut grads.grad_w2,
            );
            delta_mid.push(dm);
            t += 1;
        }
        assert(rows_in(delta_mid@) =~= self.deltas_mid(h, ds));
        assert forall|q: int| 0 <= q < n implies (#[trigger] rows_in(delta_mid@)[q]).len()
            == d by {
            assert(delta_mid@[q]@.len() == d);
        }
        // Backward through Attention
        let ghost m = rows_in(delta_mid@);
        let mut delta_in: Vec<Vec<A::T>> = Vec::with_capacity(n);
        let mut i: usize = 0;
        while i < n
            invariant
                lawful::<A>(),
                i <= n,
                delta_in@.len() == i,
                forall|q: int|
                    0 <= q < i ==> (#[trigger] delta_in@[q])@ == zeros::<A>(d as nat),
            decreases n - i,
        {
            delta_in.push(zero_vec::<A>(d));
            i += 1;
        }
        let ghost g1 = grads@;
        let ghost b0 = back_view(grads@, delta_in@);
        assert(b0.delta_in =~= Seq::new(h.len(), |t: int| zeros::<A>(d as nat)));
        let mut t: usize = 0;
        while t < n
            invariant
                lawful::<A>(),
                self.wf(),
                d == self.d_model,
                n == hs@.len(),
                t <= n,
                h == rows_in(hs@),
                m == rows_in(delta_mid@),
                delta_mid@.len() == n,
                all_of_len(h, d as nat),
                all_of_len(m, d as nat),
                self.traced(h, *tr),
                grads@.fits(d as nat, self.d_ffn as nat),
                grads@.w1 == g1.w1,
                grads@.w2 == g1.w2,
                delta_in@.len() == n,
                all_of_len(rows_in(delta_in@), d as nat),
                back_view(grads@, delta_in@) == self.attn_back(h, m, b0, t as nat),
            decreases n - t,
        {
            self.row_backward(hs, tr, &delta_mid, t, grads, &mut delta_in);
            t += 1;
        }
        delta_in
    }
}

/// The gradients of the attention and the gradients at the inputs.
pub open spec fn back_view<T>(grads: BlockValues<T>, delta_in: Seq<Vec<T>>) -> AttnBack<T> {
    AttnBack {
        wq: grads.wq,
        wk: grads.wk,
        wv: grads.wv,
        wo: grads.wo,
        delta_in: rows_in(delta_in),
    }
}

/// Add a vector to row `t` of a list.
fn add_to<A: Arith>(rows: &mut Vec<Vec<A::T>>, t: usize, delta: &[A::T])
    requires
        lawful::<A>(),
        t < old(rows)@.len(),
        all_of_len(rows_in(old(rows)@), delta@.len()),
    ensures
        rows_in(final(rows)@) == rows_in(old(rows)@).update(
            t as int,
            summed::<A>(rows_in(old(rows)@)[t as int], delta@),
        ),
        final(rows)@.len() == old(rows)@.len(),
        all_of_len(rows_in(final(rows)@), delta@.len()),
{
    let ghost r0 = rows@;
    assert(rows_in(r0)[t as int].len() == delta@.len());
    vec_add::<A>(rows[t].as_mut_slice(), delta);
    let ghost want = rows_in(r0).update(t as int, summed::<A>(rows_in(r0)[t as int], delta@));
    proof {
        assert(rows_in(rows@) =~= want);
        assert forall|i: int| 0 <= i < rows@.len() implies (#[trigger] rows_in(rows@)[i]).len()
            == delta@.len() by {
            if i != t {
                assert(rows_in(r0)[i].len() == delta@.len());
            }
        }
    }
}

/// The slope of GELU at `x`.
fn gelu_slope_at<A: Arith>(x: A::T) -> (r: A::T)
    requires
        lawful::<A>(),
    ensures
        r == gelu_slope::<A>(x),
{
    let half = A::lit(5, 1);
    let one = A::lit(1, 0);
    let c = A::lit(79788456, 8);
    let k = A::lit(44715, 6);
    let tanh_out = A::tanh(A::times(c, A::plus(x, A::times(k, A::powi(x, 3)))));
    let sech2 = A::minus(one, A::times(tanh_out, tanh_out));
    let cdf = A::times(half, A::plus(one, tanh_out));
    let rise = A::plus(one, A::times(A::times(A::times(A::lit(3, 0), k), x), x));
    A::plus(cdf, A::times(A::times(A::times(A::times(half, x), sech2), c), rise))
}

/// The gradients before the GELUs.
fn through_gelu<A: Arith>(raw: &[A::T], d_act: &[A::T]) -> (r: Vec<A::T>)
    requires
        lawful::<A>(),
        raw@.len() == d_act@.len(),
    ensures
        r@ == gelu_back::<A>(raw@, d_act@),
        r@.len() == d_act@.len(),
{
    let n: usize = d_act.len();
    let mut r: Vec<A::T> = Vec::with_capacity(n);
    let mut i: usize = 0;
    while i < n
        invariant
            lawful::<A>(),
            i <= n,
            n == raw@.len(),
            n == d_act@.len(),
            r@ == gelu_back::<A>(raw@, d_act@).take(i as int),
        decreases n - i,
    {
        r.push(A::times(d_act[i], gelu_slope_at::<A>(raw[i])));
        i += 1;
        assert(r@ =~= gelu_back::<A>(raw@, d_act@).take(i as int));
    }
    assert(r@ =~= gelu_back::<A>(raw@, d_act@));
    r
}

} // verus!
