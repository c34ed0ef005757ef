//! The Transformer baseline: embeddings, blocks and prediction head.

use vstd::prelude::*;
use crate::arith::{Arith, lawful, one, s_plus, zero};
use crate::layer::zero_vec;
use crate::matvec::{matvec_of, matvec_transposed_of, outer_added, summed};
use crate::model::{add_to_row, row_added};
use crate::rng::{WeightDraw, WeightSource, drawn_from_seed, scale_for, weight_scale};
use crate::sequence::row_at;
use crate::softmax::{cross_entropy_grad_of, cross_entropy_loss_and_grad, cross_entropy_of};
use crate::tensor::{lemma_row_bounds, row_of};
use crate::transformer::{
    BlockTrace, BlockValues, TransformerBlock, TransformerGrads, TransformerShape,
    TransformerValues,
};
use crate::vectors::{
    add_outer, all_of_len, lemma_row_in, mul_transposed, mul_vec, rows_in, sum_vec,
};

verus! {

/// Matched Standard 4-Layer Causal Transformer.
#[derive(Debug, Clone)]
pub struct TransformerModel<A: Arith> {
    pub vocab_size: usize,
    pub d_model: usize,
    pub n_layers: usize,
    pub d_ffn: usize,
    pub max_seq_len: usize,
    pub embeddings: Vec<A::T>,
    pub pos_embeddings: Vec<A::T>,
    pub blocks: Vec<TransformerBlock<A>>,
    pub head: Vec<A::T>,
}

impl<A: Arith> TransformerModel<A> {
    /// The dimensions of the model.
    pub open spec fn shape(&self) -> TransformerShape {
        TransformerShape {
            vocab: self.vocab_size as nat,
            d: self.d_model as nat,
            ffn: self.d_ffn as nat,
            max_seq_len: self.max_seq_len as nat,
            n_layers: self.n_layers as nat,
        }
    }

    /// The weights are as large as the dimensions say, and the blocks are of the same
    /// dimensions.
    pub open spec fn wf(&self) -> bool {
        &&& self.embeddings@.len() == self.vocab_size * self.d_model
        &&& self.pos_embeddings@.len() == self.max_seq_len * self.d_model
        &&& self.blocks@.len() == self.n_layers
        &&& forall|l: int|
            0 <= l < self.blocks@.len() ==> (#[trigger] self.blocks@[l]).wf()
                && self.blocks@[l].d_model == self.d_model && self.blocks@[l].d_ffn == self.d_ffn
        &&& self.head@.len() == self.vocab_size * self.d_model
    }

    /// The weights are those that the generator of the seed draws, one matrix after another, each
    /// on the scale of what it is applied to. Block `l` has a seed of its own.
    pub open spec fn is_drawn(&self, seed: u64) -> bool {
        let scale = weight_scale::<A>(1, self.d_model);
        &&& drawn_from_seed::<A>(
            seed,
            seq![
                WeightDraw { weights: self.embeddings@, scale },
                WeightDraw { weights: self.pos_embeddings@, scale },
                WeightDraw { weights: self.head@, scale },
            ],
        )
        &&& forall|l: int|
            0 <= l < self.blocks@.len() ==> (#[trigger] self.blocks@[l]).is_drawn(
                (seed + 10 + l * 100) as u64,
            )
    }

    /// A model with weights drawn from the generator of a seed. Block `l` has the seed behind
    /// the model's by `10 + 100 * l`.
    pub fn new(
        vocab_size: usize,
        d_model: usize,
        n_layers: usize,
        d_ffn: usize,
        max_seq_len: usize,
        seed: u64,
    ) -> (model: Self)
        requires
            lawful::<A>(),
            vocab_size * d_model <= usize::MAX,
            max_seq_len * d_model <= usize::MAX,
            d_model * d_model <= usize::MAX,
            d_ffn * d_model <= usize::MAX,
            n_layers > 0 ==> seed + 10 + (n_layers - 1) * 100 <= u64::MAX,
        ensures
            model.wf(),
            model.vocab_size == vocab_size,
            model.d_model == d_model,
            model.n_layers == n_layers,
            model.d_ffn == d_ffn,
            model.max_seq_len == max_seq_len,
            model.is_drawn(seed),
    {
        let mut source = WeightSource::<A>::new(seed);
        let scale_d = scale_for::<A>(1, d_model);
        let embeddings = source.draw(scale_d, vocab_size * d_model);
        let pos_embeddings = source.draw(scale_d, max_seq_len * d_model);
        let mut blocks: Vec<TransformerBlock<A>> = Vec::with_capacity(n_layers);
        let mut l: usize = 0;
        while l < n_layers
            invariant
                lawful::<A>(),
                d_model * d_model <= usize::MAX,
                d_ffn * d_model <= usize::MAX,
                n_layers > 0 ==> seed + 10 + (n_layers - 1) * 100 <= u64::MAX,
                l <= n_layers,
                blocks@.len() == l,
                forall|k: int|
                    0 <= k < l ==> (#[trigger] blocks@[k]).wf() && blocks@[k].d_model == d_model
                        && blocks@[k].d_ffn == d_ffn && blocks@[k].is_drawn(
                        (seed + 10 + k * 100) as u64,
                    ),
            decreases n_layers - l,
        {
            blocks.push(TransformerBlock::new(d_model, d_ffn, seed + 10 + (l as u64) * 100));
            l += 1;
        }
        let head = source.draw(scale_d, vocab_size * d_model);
        proof {
            source.lemma_drawn(seed);
            assert(source.parts() =~= seq![
                WeightDraw { weights: embeddings@, scale: scale_d },
                WeightDraw { weights: pos_embeddings@, scale: scale_d },
                WeightDraw { weights: head@, scale: scale_d },
            ]);
        }
        Self {
            vocab_size,
            d_model,
            n_layers,
            d_ffn,
            max_seq_len,
            embeddings,
            pos_embeddings,
            blocks,
            head,
        }
    }

    /// The inputs of block `l` for the tokens of a sequence; for the number of blocks, the
    /// outputs of the last one.
    pub open spec fn hidden(&self, x: Seq<usize>, l: nat) -> Seq<Seq<A::T>>
        decreases l,
    {
        if l == 0 {
            let d = self.d_model as nat;
            Seq::new(
                x.len(),
                |t: int|
                    summed::<A>(
                        row_of(self.embeddings@, d, x[t] as int),
                        row_of(self.pos_embeddings@, d, t),
                    ),
            )
        } else {
            self.blocks@[l - 1].outputs(self.hidden(x, (l - 1) as nat))
        }
    }

    /// The logits for token `t` of a sequence.
    pub open spec fn logits_of(&self, x: Seq<usize>, t: int) -> Seq<A::T> {
        matvec_of::<A>(
            self.head@,
            self.vocab_size as nat,
            self.hidden(x, self.n_layers as nat)[t],
        )
    }

    /// The losses of the first `n` tokens of a sequence, added up from zero.
    pub open spec fn loss_of(&self, x: Seq<usize>, y: Seq<usize>, n: nat) -> A::T
        decreases n,
    {
        if n == 0 {
            zero::<A>()
        } else {
            s_plus::<A>(
                self.loss_of(x, y, (n - 1) as nat),
                cross_entropy_of::<A>(self.logits_of(x, n - 1), y[n - 1] as int),
            )
        }
    }

    /// The gradient of the loss at the logits for token `t`.
    pub open spec fn pred_grad_of(&self, x: Seq<usize>, y: Seq<usize>, t: int) -> Seq<A::T> {
        cross_entropy_grad_of::<A>(self.logits_of(x, t), y[t] as int)
    }

    /// The gradients of the prediction head after the first `n` tokens.
    pub open spec fn head_back(
        &self,
        g: Seq<A::T>,
        x: Seq<usize>,
        y: Seq<usize>,
        n: nat,
    ) -> Seq<A::T>
        decreases n,
    {
        if n == 0 {
            g
        } else {
            outer_added::<A>(
                self.head_back(g, x, y, (n - 1) as nat),
                self.pred_grad_of(x, y, n - 1),
                self.hidden(x, self.n_layers as nat)[n - 1],
                one::<A>(),
            )
        }
    }

    /// The gradients at the outputs of the last block.
    pub open spec fn final_deltas(&self, x: Seq<usize>, y: Seq<usize>) -> Seq<Seq<A::T>> {
        Seq::new(
            x.len(),
            |t: int|
                matvec_transposed_of::<A>(
                    self.head@,
                    self.d_model as nat,
                    self.pred_grad_of(x, y, t),
                ),
        )
    }

    /// The gradients at the inputs of block `l`; for the number of blocks, at the outputs of
    /// the last one.
    pub open spec fn deltas_at(
        &self,
        x: Seq<usize>,
        y: Seq<usize>,
        g: Seq<BlockValues<A::T>>,
        l: int,
    ) -> Seq<Seq<A::T>>
        decreases self.n_layers - l,
    {
        if l < 0 || l >= self.n_layers {
            self.final_deltas(x, y)
        } else {
            self.blocks@[l].attention_done(
                self.hidden(x, l as nat),
                self.deltas_at(x, y, g, l + 1),
                g[l],
            ).delta_in
        }
    }

    /// The gradients of block `l` after the backward pass.
    pub open spec fn block_grads_after(
        &self,
        x: Seq<usize>,
        y: Seq<usize>,
        g: Seq<BlockValues<A::T>>,
        l: int,
    ) -> BlockValues<A::T> {
        self.blocks@[l].grads_after(
            self.hidden(x, l as nat),
            self.deltas_at(x, y, g, l + 1),
            g[l],
        )
    }

    /// The gradients of the embeddings after the first `n` tokens.
    pub open spec fn embed_back(
        &self,
        g: Seq<A::T>,
        x: Seq<usize>,
        deltas: Seq<Seq<A::T>>,
        n: nat,
    ) -> Seq<A::T>
        decreases n,
    {
        if n == 0 {
            g
        } else {
            row_added::<A>(
                self.embed_back(g, x, deltas, (n - 1) as nat),
                self.d_model as nat,
                x[n - 1] as int,
                deltas[n - 1],
            )
        }
    }

    /// The gradients of the positions after the first `n` tokens.
    pub open spec fn pos_back(&self, g: Seq<A::T>, deltas: Seq<Seq<A::T>>, n: nat) -> Seq<A::T>
        decreases n,
    {
        if n == 0 {
            g
        } else {
            row_added::<A>(
                self.pos_back(g, deltas, (n - 1) as nat),
                self.d_model as nat,
                n - 1,
                deltas[n - 1],
            )
        }
    }

    /// The gradients after the backward pass over a sequence.
    pub open spec fn grads_after(
        &self,
        x: Seq<usize>,
        y: Seq<usize>,
        g: TransformerValues<A::T>,
    ) -> TransformerValues<A::T> {
        let deltas = self.deltas_at(x, y, g.blocks, 0);
        TransformerValues {
            embed: self.embed_back(g.embed, x, deltas, x.len()),
            pos_embed: self.pos_back(g.pos_embed, deltas, x.len()),
            blocks: Seq::new(
                self.n_layers as nat,
                |l: int| self.block_grads_after(x, y, g.blocks, l),
            ),
            head: self.head_back(g.head, x, y, x.len()),
        }
    }

    /// The tokens of a sequence and of its targets are in the vocabulary, and there is a
    /// position for each.
    pub open spec fn accepts(&self, x: Seq<usize>, y: Seq<usize>) -> bool {
        &&& x.len() <= y.len()
        &&& x.len() <= self.max_seq_len
        &&& forall|t: int| 0 <= t < x.len() ==> #[trigger] x[t] < self.vocab_size
        &&& forall|t: int| 0 <= t < x.len() ==> #[trigger] y[t] < self.vocab_size
    }

    /// The tokens of a sequence with their positions.
    fn embed_sequence(&self, x_seq: &[usize]) -> (h: Vec<Vec<A::T>>)
        requires
            lawful::<A>(),
            self.wf(),
            x_seq@.len() <= self.max_seq_len,
            forall|t: int| 0 <= t < x_seq@.len() ==> #[trigger] x_seq@[t] < self.vocab_size,
        ensures
            rows_in(h@) == self.hidden(x_seq@, 0),
            all_of_len(rows_in(h@), self.d_model as nat),
    {
        let d: usize = self.d_model;
        let n: usize = x_seq.len();
        let mut h: Vec<Vec<A::T>> = Vec::with_capacity(n);
        let mut t: usize = 0;
        while t < n
            invariant
                lawful::<A>(),
                self.wf(),
                d == self.d_model,
                n == x_seq@.len(),
                n <= self.max_seq_len,
                t <= n,
                forall|q: int| 0 <= q < n ==> #[trigger] x_seq@[q] < self.vocab_size,
                h@.len() == t,
                forall|q: int|
                    0 <= q < t ==> (#[trigger] h@[q])@ == self.hidden(x_seq@, 0)[q] && h@[q]@.len()
                        == d,
            decreases n - t,
        {
            let tok: usize = x_seq[t];
            proof {
                lemma_row_bounds(self.vocab_size as nat, d as nat, tok as int);
                lemma_row_bounds(self.max_seq_len as nat, d as nat, t as int);
            }
            let embed = row_at(self.embeddings.as_slice(), d, tok);
            let pos_e = row_at(self.pos_embeddings.as_slice(), d, t);
            h.push(sum_vec::<A>(embed, pos_e));
            t += 1;
        }
        assert(rows_in(h@) =~= self.hidden(x_seq@, 0));
        assert forall|q: int| 0 <= q < n implies (#[trigger] rows_in(h@)[q]).len() == d by {
            assert(h@[q]@.len() == d);
        }
        h
    }

    /// Forward through all blocks, with their activations.
    fn forward_blocks(&self, h0: &Vec<Vec<A::T>>, Ghost(x): Ghost<Seq<usize>>) -> (traces: Vec<
        BlockTrace<A>,
    >)
        requires
            lawful::<A>(),
            self.wf(),
            rows_in(h0@) == self.hidden(x, 0),
            all_of_len(rows_in(h0@), self.d_model as nat),
        ensures
            traces@.len() == self.n_layers,
            forall|l: int|
                0 <= l < self.n_layers ==> self.block_traced(x, #[trigger] traces@[l], l),
    {
        let n_layers: usize = self.n_layers;
        let mut traces: Vec<BlockTrace<A>> = Vec::with_capacity(n_layers);
        let mut l: usize = 0;
        while l < n_layers
            invariant
                lawful::<A>(),
                self.wf(),
                n_layers == self.n_layers,
                l <= n_layers,
                rows_in(h0@) == self.hidden(x, 0),
                all_of_len(rows_in(h0@), self.d_model as nat),
                traces@.len() == l,
                forall|k: int| 0 <= k < l ==> self.block_traced(x, #[trigger] traces@[k], k),
            decreases n_layers - l,
        {
            assert(self.blocks@[l as int].wf());
            let in_h: &Vec<Vec<A::T>> = if l == 0 {
                h0
            } else {
                assert(self.block_traced(x, traces@[l - 1], l - 1));
                &traces[l - 1].out
            };
            assert(rows_in(in_h@) == self.hidden(x, l as nat));
            let tr = self.blocks[l].forward(in_h);
            assert(self.block_traced(x, tr, l as int));
            traces.push(tr);
            l += 1;
        }
        traces
    }

    /// The activations of block `l` over a sequence.
    pub open spec fn block_traced(&self, x: Seq<usize>, tr: BlockTrace<A>, l: int) -> bool {
        &&& self.blocks@[l].traced(self.hidden(x, l as nat), tr)
        &&& rows_in(tr.out@) == self.hidden(x, (l + 1) as nat)
        &&& all_of_len(rows_in(tr.out@), self.d_model as nat)
    }

    /// Prediction head: the loss, its gradients, and the gradients at the outputs of the last
    /// block.
    fn predict(
        &self,
        final_h: &Vec<Vec<A::T>>,
        y_seq: &[usize],
        grad_head: &mut Vec<A::T>,
        Ghost(x): Ghost<Seq<usize>>,
    ) -> (r: (A::T, Vec<Vec<A::T>>))
        requires
            lawful::<A>(),
            self.wf(),
            x.len() <= y_seq@.len(),
            forall|t: int| 0 <= t < x.len() ==> #[trigger] y_seq@[t] < self.vocab_size,
            rows_in(final_h@) == self.hidden(x, self.n_layers as nat),
            final_h@.len() == x.len(),
            all_of_len(rows_in(final_h@), self.d_model as nat),
            old(grad_head)@.len() == self.vocab_size * self.d_model,
        ensures
            r.0 == self.loss_of(x, y_seq@, x.len()),
            rows_in(r.1@) == self.final_deltas(x, y_seq@),
            r.1@.len() == x.len(),
            all_of_len(rows_in(r.1@), self.d_model as nat),
            final(grad_head)@ == self.head_back(old(grad_head)@, x, y_seq@, x.len()),
            final(grad_head)@.len() == old(grad_head)@.len(),
    {
        let d: usize = self.d_model;
        let v: usize = self.vocab_size;
        let n: usize = final_h.len();
        let ghost g0 = grad_head@;
        let mut delta_h: Vec<Vec<A::T>> = Vec::with_capacity(n);
        let mut total_loss = A::lit(0, 0);
        let mut t: usize = 0;
        while t < n
            invariant
                lawful::<A>(),
                self.wf(),
                d == self.d_model,
                v == self.vocab_size,
                n == x.len(),
                n == final_h@.len(),
                n <= y_seq@.len(),
                t <= n,
                forall|q: int| 0 <= q < n ==> #[trigger] y_seq@[q] < v,
                rows_in(final_h@) == self.hidden(x, self.n_layers as nat),
                all_of_len(rows_in(final_h@), d as nat),
                total_loss == self.loss_of(x, y_seq@, t as nat),
                grad_head@ == self.head_back(g0, x, y_seq@, t as nat),
                grad_head@.len() == v * d,
                delta_h@.len() == t,
                forall|q: int|
                    0 <= q < t ==> (#[trigger] delta_h@[q])@ == self.final_deltas(x, y_seq@)[q]
                        && delta_h@[q]@.len() == d,
            decreases n - t,
        {
            proof {
                lemma_row_in(final_h@, self.hidden(x, self.n_layers as nat), t as int);
                assert(rows_in(final_h@)[t as int].len() == d);
            }
            let logits = mul_vec::<A>(self.head.as_slice(), v, final_h[t].as_slice());
            let mut probs = zero_vec::<A>(v);
            let mut pred_grad = zero_vec::<A>(v);
            let loss = cross_entropy_loss_and_grad::<A>(
                logits.as_slice(),
                y_seq[t],
                probs.as_mut_slice(),
                pred_grad.as_mut_slice(),
            );
            total_loss = A::plus(total_loss, loss);
            add_outer::<A>(grad_head, pred_grad.as_slice(), final_h[t].as_slice());
            delta_h.push(mul_transposed::<A>(self.head.as_slice(), d, pred_grad.as_slice()));
            t += 1;
        }
        assert(rows_in(delta_h@) =~= self.final_deltas(x, y_seq@));
        assert forall|q: int| 0 <= q < n implies (#[trigger] rows_in(delta_h@)[q]).len() == d by {
            assert(delta_h@[q]@.len() == d);
        }
        (total_loss, delta_h)
    }

    /// Full serial forward + serial backward pass over a sequence item.
    #[verifier::rlimit(40)]
    #[verifier::spinoff_prover]
    pub fn forward_backward_sequence(
        &self,
        x_seq: &[usize],
        y_seq: &[usize],
        grads: &mut TransformerGrads<A>,
    ) -> (total_loss: A::T)
        requires
            lawful::<A>(),
            self.wf(),
            self.accepts(x_seq@, y_seq@),
            old(grads)@.fits(self.shape()),
        ensures
            total_loss == self.loss_of(x_seq@, y_seq@, x_seq@.len()),
            final(grads)@ == self.grads_after(x_seq@, y_seq@, old(grads)@),
            final(grads)@.fits(self.shape()),
    {
        let ghost g0 = grads@;
        let ghost x = x_seq@;
        let ghost y = y_seq@;
        let n_layers: usize = self.n_layers;
        // 1. Initial embedding
        let h0 = self.embed_sequence(x_seq);
        // 2. Serial Forward pass through all L layers
        let traces = self.forward_blocks(&h0, Ghost(x));
        // 3. Prediction Head & Loss
        let final_h: &Vec<Vec<A::T>> = if n_layers == 0 {
            &h0
        } else {
            assert(self.block_traced(x, traces@[n_layers - 1], n_layers - 1));
            &traces[n_layers - 1].out
        };
        proof {
            self.lemma_hidden_len(x, n_layers as nat);
            assert(rows_in(final_h@).len() == final_h@.len());
        }
        let (total_loss, mut delta_h) = self.predict(
            final_h,
            y_seq,
            &mut grads.grad_head,
            Ghost(x),
        );
        // 4. Serial Backpropagation through all L layers (Full Depth Backward Pass)
        let ghost head1 = grads@.head;
        let mut l: usize = n_layers;
        while l > 0
            invariant
                lawful::<A>(),
                self.wf(),
                self.accepts(x, y),
                n_layers == self.n_layers,
                l <= n_layers,
                g0.fits(self.shape()),
                rows_in(h0@) == self.hidden(x, 0),
                all_of_len(rows_in(h0@), self.d_model as nat),
                traces@.len() == n_layers,
                forall|k: int|
                    0 <= k < n_layers ==> self.block_traced(x, #[trigger] traces@[k], k),
                grads@.embed == g0.embed,
                grads@.pos_embed == g0.pos_embed,
                grads@.head == head1,
                grads.block_grads@.len() == n_layers,
                forall|k: int|
                    0 <= k < l ==> (#[trigger] grads.block_grads@[k])@ == g0.blocks[k],
                forall|k: int|
                    l <= k < n_layers ==> (#[trigger] grads.block_grads@[k])@
                        == self.block_grads_after(x, y, g0.blocks, k)
                        && grads.block_grads@[k]@.fits(self.d_model as nat, self.d_ffn as nat),
                rows_in(delta_h@) == self.deltas_at(x, y, g0.blocks, l as int),
                delta_h@.len() == x.len(),
                all_of_len(rows_in(delta_h@), self.d_model as nat),
            decreases l,
        {
            l -= 1;
            proof {
                assert(self.blocks@[l as int].wf());
                assert(self.block_traced(x, traces@[l as int], l as int));
                assert(g0.blocks[l as int].fits(self.d_model as nat, self.d_ffn as nat));
                assert(grads.block_grads@[l as int]@ == g0.blocks[l as int]);
                self.lemma_hidden_len(x, l as nat);
            }
            let in_h: &Vec<Vec<A::T>> = if l == 0 {
                &h0
            } else {
                assert(self.block_traced(x, traces@[l - 1], l - 1));
                &traces[l - 1].out
            };
            assert(rows_in(in_h@) == self.hidden(x, l as nat));
            assert(rows_in(in_h@).len() == in_h@.len());
            // Propagate delta_in to previous layer: delta_h = delta_in
            delta_h = self.blocks[l].backward(in_h, &traces[l], &delta_h, &mut grads.block_grads[l]);
        }
        // 5. Backprop into token and positional embeddings
        self.embeddings_backward(x_seq, &delta_h, grads);
        proof {
            assert(grads@.blocks =~= self.grads_after(x, y, g0).blocks);
        }
        total_loss
    }

    /// There is a hidden vector for each token.
    proof fn lemma_hidden_len(&self, x: Seq<usize>, l: nat)
        ensures
            self.hidden(x, l).len() == x.len(),
        decreases l,
    {
        if l > 0 {
            self.lemma_hidden_len(x, (l - 1) as nat);
        }
    }

    /// Backprop into token and positional embeddings.
    fn embeddings_backward(
        &self,
        x_seq: &[usize],
        delta_h: &Vec<Vec<A::T>>,
        grads: &mut TransformerGrads<A>,
    )
        requires
            lawful::<A>(),
            self.wf(),
            x_seq@.len() <= self.max_seq_len,
            forall|t: int| 0 <= t < x_seq@.len() ==> #[trigger] x_seq@[t] < self.vocab_size,
            delta_h@.len() == x_seq@.len(),
            all_of_len(rows_in(delta_h@), self.d_model as nat),
            old(grads)@.embed.len() == self.vocab_size * self.d_model,
            old(grads)@.pos_embed.len() == self.max_seq_len * self.d_model,
        ensures
            final(grads)@.embed == self.embed_back(
                old(grads)@.embed,
                x_seq@,
                rows_in(delta_h@),
                x_seq@.len(),
            ),
            final(grads)@.pos_embed == self.pos_back(
                old(grads)@.pos_embed,
                rows_in(delta_h@),
                x_seq@.len(),
            ),
            final(grads).block_grads == old(grads).block_grads,
            final(grads)@.head == old(grads)@.head,
            final(grads)@.embed.len() == old(grads)@.embed.len(),
            final(grads)@.pos_embed.len() == old(grads)@.pos_embed.len(),
    {
        let ghost deltas = rows_in(delta_h@);
        let ghost e0 = grads@.embed;
        let ghost p0 = grads@.pos_embed;
        let n: usize = x_seq.len();
        let mut t: usize = 0;
        while t < n
            invariant
                lawful::<A>(),
                self.wf(),
                n == x_seq@.len(),
                n <= self.max_seq_len,
                t <= n,
                forall|q: int| 0 <= q < n ==> #[trigger] x_seq@[q] < self.vocab_size,
                delta_h@.len() == n,
                deltas == rows_in(delta_h@),
                all_of_len(deltas, self.d_model as nat),
                grads@.embed == self.embed_back(e0, x_seq@, deltas, t as nat),
                grads@.pos_embed == self.pos_back(p0, deltas, t as nat),
                grads@.embed.len() == self.vocab_size * self.d_model,
                grads@.pos_embed.len() == self.max_seq_len * self.d_model,
                grads.block_grads == old(grads).block_grads,
                grads@.head == old(grads)@.head,
            decreases n - t,
        {
            assert(deltas[t as int].len() == self.d_model);
            add_to_row::<A>(
                grads.grad_embed.as_mut_slice(),
                Ghost(self.vocab_size as nat),
                x_seq[t],
                delta_h[t].as_slice(),
            );
            add_to_row::<A>(
                grads.grad_pos_embed.as_mut_slice(),
                Ghost(self.max_seq_len as nat),
                t,
                delta_h[t].as_slice(),
            );
            t += 1;
        }
    }
}

} // verus!
