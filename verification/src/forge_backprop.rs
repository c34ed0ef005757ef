//! Forward and backward over a training sequence of the FORGE model.

use vstd::prelude::*;
use crate::arith::{Arith, lawful, s_plus};
use crate::forge_eval::{
    flops_sum, lemma_nothing_pending, lemma_same_sums, lemma_sums_grow, pending_sum,
};
use crate::forge_model::{
    ForgeBlock, ForgeBlockGrads, ForgeBlockValues, ForgeGradValues, ForgeModel, ForgeModelValues,
    rms_norm, rms_normed,
};
use crate::forge_trainer::{ForgeGradSet, ForgeGrads, add_outer_scaled};
use crate::layer::zero_vec;
use crate::memory_backward::{ReadTrace, ReadValues, SlotGrads, SlotValues};
use crate::matvec::{matvec_of, matvec_transposed_of, outer_added};
use crate::softmax::{cross_entropy_grad_of, cross_entropy_loss_and_grad, cross_entropy_of};
use crate::tensor::{
    add_scaled, copied, lemma_row_bounds, lemma_with_row, part_mut, row_of, vec_add_scaled,
    with_row,
};
use crate::vectors::{all_of_len, lemma_row_in, mul_transposed, mul_vec, rows_in};

verus! {

/// A token on its way through the blocks.
pub struct Trail<A: Arith> {
    /// The blocks after it.
    pub blocks: Seq<ForgeBlockValues<A>>,
    /// What went into each block and came out of the last.
    pub hs: Seq<Seq<A::T>>,
    /// What went into the FF of each block.
    pub mids: Seq<Seq<A::T>>,
    /// What was read from the memory of each block.
    pub reads: Seq<ReadValues<A::T>>,
    /// The FLOPs that the blocks have counted.
    pub flops: int,
}

/// A token after the first `n` blocks, whose FLOP counters are read and reset.
pub open spec fn trail_of<A: Arith>(
    blocks: Seq<ForgeBlockValues<A>>,
    h: Seq<A::T>,
    n: nat,
) -> Trail<A>
    decreases n,
{
    if n == 0 {
        Trail { blocks, hs: seq![h], mids: Seq::empty(), reads: Seq::empty(), flops: 0 }
    } else {
        let p = trail_of::<A>(blocks, h, (n - 1) as nat);
        let next = p.blocks[n - 1].next(p.hs[n - 1]);
        Trail {
            blocks: p.blocks.update(n - 1, ForgeBlockValues { flops_forward: 0, ..next }),
            hs: p.hs.push(p.blocks[n - 1].out_of(p.hs[n - 1])),
            mids: p.mids.push(p.blocks[n - 1].with_memory(p.hs[n - 1])),
            reads: p.reads.push(p.blocks[n - 1].read_at(p.hs[n - 1])),
            flops: p.flops + next.flops_forward,
        }
    }
}

/// The gradients of the blocks, the gradient at the input of one of them and the gradients at the
/// slots of their memories.
pub struct ChainBack<T> {
    pub grads: Seq<ForgeGradValues<T>>,
    pub d_h: Seq<T>,
    pub slots: Seq<SlotValues<T>>,
}

/// Backward from the last block to block `l`.
pub open spec fn chain_back<A: Arith>(
    blocks: Seq<ForgeBlockValues<A>>,
    trail: Trail<A>,
    d_h: Seq<A::T>,
    scale: A::T,
    g: Seq<ForgeGradValues<A::T>>,
    slots: Seq<SlotValues<A::T>>,
    l: int,
) -> ChainBack<A::T>
    decreases blocks.len() - l,
{
    if l < 0 || l >= blocks.len() {
        ChainBack { grads: g, d_h, slots }
    } else {
        let later = chain_back::<A>(blocks, trail, d_h, scale, g, slots, l + 1);
        let b = blocks[l].back(
            trail.hs[l],
            trail.mids[l],
            trail.reads[l],
            later.d_h,
            scale,
            later.grads[l],
            later.slots[l],
        );
        ChainBack {
            grads: later.grads.update(l, b.grads),
            d_h: b.d_h,
            slots: later.slots.update(l, b.slots),
        }
    }
}

/// The gradients and the loss after some tokens of the backward pass.
pub struct SequenceBack<T> {
    pub grads: ForgeGradSet<T>,
    pub loss: T,
    /// The gradients at the slots of the memories.
    pub slots: Seq<SlotValues<T>>,
}

/// `data` with a vector, times `scale`, added to row `r`.
pub open spec fn row_raised<A: Arith>(
    data: Seq<A::T>,
    d: nat,
    r: int,
    delta: Seq<A::T>,
    scale: A::T,
) -> Seq<A::T> {
    with_row(data, d, r, add_scaled::<A>(row_of(data, d, r), delta, scale))
}

impl<A: Arith> ForgeModelValues<A> {
    /// The trail of token `t`.
    pub open spec fn trail(&self, tok: int, t: int) -> Trail<A> {
        trail_of::<A>(self.blocks, self.embed(tok, t), self.blocks.len())
    }

    /// The model after the first `n` tokens of a training sequence.
    pub open spec fn walked(&self, tokens: Seq<usize>, n: nat) -> ForgeModelValues<A>
        decreases n,
    {
        if n == 0 {
            *self
        } else {
            let m = self.walked(tokens, (n - 1) as nat);
            let p = m.trail(tokens[n - 1] as int, n - 1);
            ForgeModelValues {
                blocks: p.blocks,
                total_flops: m.total_flops + p.flops + (2 * m.vocab * m.d + 2 * m.d),
                ..m
            }
        }
    }

    /// What token `t` leaves on its way through the blocks.
    pub open spec fn trail_at(&self, tokens: Seq<usize>, t: int) -> Trail<A> {
        self.walked(tokens, t as nat).trail(tokens[t] as int, t)
    }

    /// The logits for token `t`.
    pub open spec fn logits_at(&self, tokens: Seq<usize>, t: int) -> Seq<A::T> {
        matvec_of::<A>(self.head, self.vocab, self.trail_at(tokens, t).hs.last())
    }

    /// One token of the backward pass.
    pub open spec fn token_back(
        &self,
        tokens: Seq<usize>,
        scale: A::T,
        t: int,
        later: SequenceBack<A::T>,
    ) -> SequenceBack<A::T> {
        let end = self.walked(tokens, (tokens.len() - 1) as nat);
        let lgrad = cross_entropy_grad_of::<A>(self.logits_at(tokens, t), tokens[t + 1] as int);
        let loss = cross_entropy_of::<A>(self.logits_at(tokens, t), tokens[t + 1] as int);
        let trail = self.trail_at(tokens, t);
        let g = later.grads;
        let chain = chain_back::<A>(
            end.blocks,
            trail,
            matvec_transposed_of::<A>(self.head, self.d, lgrad),
            scale,
            g.blocks,
            later.slots,
            0,
        );
        let pos = if t < self.max_seq - 1 {
            t
        } else {
            self.max_seq - 1
        };
        SequenceBack {
            grads: ForgeGradSet {
                embed: row_raised::<A>(g.embed, self.d, tokens[t] as int, chain.d_h, scale),
                pos_embed: row_raised::<A>(g.pos_embed, self.d, pos, chain.d_h, scale),
                head: outer_added::<A>(g.head, lgrad, trail.hs.last(), scale),
                blocks: chain.grads,
            },
            loss: s_plus::<A>(later.loss, loss),
            slots: chain.slots,
        }
    }

    /// No gradients at the slots of the memories.
    pub open spec fn no_slots(&self) -> Seq<SlotValues<A::T>> {
        Seq::new(self.blocks.len(), |l: int| self.blocks[l].no_slots())
    }

    /// The backward pass over a sequence from its last token down to token `t`. What the memories
    /// held before the sequence is taken as a constant.
    pub open spec fn sequence_back(
        &self,
        tokens: Seq<usize>,
        scale: A::T,
        start: SequenceBack<A::T>,
        t: int,
    ) -> SequenceBack<A::T>
        decreases tokens.len() - 1 - t,
    {
        if t < 0 || t >= tokens.len() - 1 {
            SequenceBack { slots: self.no_slots(), ..start }
        } else {
            self.token_back(tokens, scale, t, self.sequence_back(tokens, scale, start, t + 1))
        }
    }

    /// The FLOPs of all blocks for a token.
    pub open spec fn block_flops(&self) -> nat {
        flops_sum::<A>(self.blocks, self.blocks.len())
    }

    /// The FLOPs of a token forward: through the embeddings, the blocks and the head.
    pub open spec fn forward_flops(&self) -> nat {
        2 * self.vocab * self.d + 2 * self.d + self.block_flops()
    }

    /// The FLOPs of a token backward: the head and the blocks cost twice what they cost forward.
    pub open spec fn backward_flops(&self) -> nat {
        4 * self.vocab * self.d + 2 * self.block_flops()
    }

    /// The FLOPs of a token of training.
    pub open spec fn train_flops(&self) -> nat {
        self.forward_flops() + self.backward_flops()
    }

    /// The FLOPs that the blocks have counted and that were not read yet.
    pub open spec fn pending(&self) -> int {
        pending_sum::<A>(self.blocks, self.blocks.len())
    }

    /// The blocks have counted no FLOPs that were not read.
    pub open spec fn nothing_pending(&self) -> bool {
        forall|l: int| 0 <= l < self.blocks.len() ==> (#[trigger] self.blocks[l]).flops_forward == 0
    }

    /// The model after a training sequence: forward, and the FLOPs of the backward pass.
    pub open spec fn after_training(&self, tokens: Seq<usize>) -> ForgeModelValues<A> {
        let n = tokens.len() - 1;
        let end = self.walked(tokens, n as nat);
        ForgeModelValues { total_flops: end.total_flops + n * self.backward_flops(), ..end }
    }

    /// There is room for `n` more tokens of training.
    pub open spec fn can_train(&self, n: int) -> bool {
        &&& self.has_room(n)
        &&& self.max_seq > 0
        &&& 4 * self.vocab <= usize::MAX
        &&& 4 * self.vocab * self.d + 2 * self.d <= usize::MAX
        &&& self.total_flops + self.pending() + n * self.train_flops() <= u64::MAX
    }

    /// The blocks have the weights of the blocks of `other`.
    pub open spec fn same_weights(&self, other: ForgeModelValues<A>) -> bool {
        &&& self.vocab == other.vocab
        &&& self.d == other.d
        &&& self.max_seq == other.max_seq
        &&& self.cfg == other.cfg
        &&& self.embeddings == other.embeddings
        &&& self.pos_embed == other.pos_embed
        &&& self.head == other.head
        &&& self.blocks.len() == other.blocks.len()
        &&& forall|l: int|
            0 <= l < self.blocks.len() ==> same_block_weights::<A>(
                #[trigger] self.blocks[l],
                other.blocks[l],
            )
    }

    /// A trail through the first `k` blocks.
    proof fn lemma_trail(&self, h: Seq<A::T>, n: int, k: nat)
        requires
            self.has_room(n),
            n >= 1,
            h.len() == self.d,
            k <= self.blocks.len(),
        ensures
            ({
                let p = trail_of::<A>(self.blocks, h, k);
                &&& p.blocks.len() == self.blocks.len()
                &&& p.hs.len() == k + 1
                &&& p.mids.len() == k
                &&& p.reads.len() == k
                &&& forall|l: int|
                    0 <= l < k ==> self.blocks[l].holds(#[trigger] p.reads[l])
                &&& p.flops == pending_sum::<A>(self.blocks, k) + flops_sum::<A>(self.blocks, k)
                &&& forall|l: int| 0 <= l <= k ==> (#[trigger] p.hs[l]).len() == self.d
                &&& forall|l: int| 0 <= l < k ==> (#[trigger] p.mids[l]).len() == self.d
                &&& forall|l: int|
                    0 <= l < k ==> (#[trigger] p.blocks[l]).has_room(n - 1)
                        && p.blocks[l].flops_forward == 0 && p.blocks[l].flops_per_token()
                        == self.blocks[l].flops_per_token() && same_block_weights::<A>(
                        p.blocks[l],
                        self.blocks[l],
                    )
                &&& forall|l: int|
                    k <= l < p.blocks.len() ==> #[trigger] p.blocks[l] == self.blocks[l]
            }),
        decreases k,
    {
        if k > 0 {
            self.lemma_trail(h, n, (k - 1) as nat);
            let p = trail_of::<A>(self.blocks, h, (k - 1) as nat);
            let b = self.blocks[k - 1];
            assert(p.blocks[k - 1] == b);
            assert(p.hs[k - 1].len() == self.d);
            assert(b.has_room(n));
            b.lemma_next(p.hs[k - 1], n);
            if let Some(m) = b.mrm {
                b.gated(m).lemma_read_holds(rms_normed::<A>(p.hs[k - 1]));
            }
        }
    }

    /// The model after the first `n` tokens can take as many tokens less, and has counted the
    /// FLOPs of their forward passes.
    pub proof fn lemma_walked(&self, tokens: Seq<usize>, n: nat, room: int)
        requires
            self.can_train(room),
            n <= room,
            n < tokens.len(),
            forall|t: int| 0 <= t < tokens.len() ==> #[trigger] tokens[t] < self.vocab,
        ensures
            ({
                let m = self.walked(tokens, n);
                &&& m.same_weights(*self)
                &&& m.block_flops() == self.block_flops()
                &&& m.total_flops + m.pending() == self.total_flops + self.pending() + n
                    * self.forward_flops()
                &&& m.pending() >= 0
                &&& self.nothing_pending() ==> m.nothing_pending()
            }),
            self.walked(tokens, n).can_train(room - n),
        decreases n,
    {
        let (step, whole) = (self.forward_flops(), self.train_flops());
        if n > 0 {
            self.lemma_walked(tokens, (n - 1) as nat, room);
            let m = self.walked(tokens, (n - 1) as nat);
            let tok = tokens[n - 1] as int;
            let k = m.blocks.len();
            m.lemma_embed_len(tok, n - 1);
            m.lemma_trail(m.embed(tok, n - 1), room - n + 1, k);
            let next = self.walked(tokens, n);
            assert forall|l: int| 0 <= l < next.blocks.len() implies (
            #[trigger] next.blocks[l]).has_room(room - n) && next.blocks[l].d == next.d
                && next.blocks[l].flops_forward == 0 && next.blocks[l].flops_per_token()
                == m.blocks[l].flops_per_token() && same_block_weights::<A>(
                next.blocks[l],
                self.blocks[l],
            ) by {
                assert(same_block_weights::<A>(m.blocks[l], self.blocks[l]));
                assert(m.blocks[l].d == m.d);
            }
            lemma_same_sums::<A>(next.blocks, m.blocks, k);
            lemma_nothing_pending::<A>(next.blocks, k);
            assert(n * step == (n - 1) * step + step) by (nonlinear_arith);
        } else {
            assert forall|l: int| 0 <= l < self.blocks.len() implies same_block_weights::<A>(
                #[trigger] self.blocks[l],
                self.blocks[l],
            ) by {}
            assert forall|l: int| 0 <= l < self.blocks.len() implies (
            #[trigger] self.blocks[l]).flops_forward >= 0 by {
                assert(self.blocks[l].has_room(room));
            }
            lemma_sums_grow::<A>(self.blocks, self.blocks.len(), self.blocks.len());
            assert(0 * step == 0);
        }
        assert(n * step + (room - n) * whole <= room * whole) by (nonlinear_arith)
            requires
                0 <= n <= room,
                0 <= step <= whole,
        ;
    }
}

/// Two blocks of the same dimensions and weights.
pub open spec fn same_block_weights<A: Arith>(
    a: ForgeBlockValues<A>,
    b: ForgeBlockValues<A>,
) -> bool {
    &&& a.d == b.d
    &&& a.d_ff == b.d_ff
    &&& a.cfg == b.cfg
    &&& a.w1 == b.w1
    &&& a.w1u == b.w1u
    &&& a.w2 == b.w2
    &&& a.mrm is Some <==> b.mrm is Some
    &&& a.mrm is Some ==> a.mrm->0.d == b.mrm->0.d && a.mrm->0.k_fine == b.mrm->0.k_fine
        && a.mrm->0.k_coarse == b.mrm->0.k_coarse && a.mrm->0.w_q == b.mrm->0.w_q && a.mrm->0.w_k
        == b.mrm->0.w_k && a.mrm->0.w_v == b.mrm->0.w_v && a.mrm->0.w_o == b.mrm->0.w_o
}

/// What a token of the forward pass leaves for the backward pass.
pub struct TokenTrace<A: Arith> {
    /// The inputs of the blocks, and the output of the last.
    pub hs: Vec<Vec<A::T>>,
    /// The inputs of the FFs of the blocks.
    pub mids: Vec<Vec<A::T>>,
    /// What was read from the memories of the blocks.
    pub reads: Vec<ReadTrace<A>>,
    /// The gradient of the loss at the logits.
    pub lgrad: Vec<A::T>,
    pub loss: A::T,
}

impl<A: Arith> ForgeModelValues<A> {
    /// What token `t` of a training sequence leaves for the backward pass.
    pub open spec fn is_trace(&self, tokens: Seq<usize>, t: int, tr: TokenTrace<A>) -> bool {
        &&& self.is_trail(tr, self.trail_at(tokens, t))
        &&& tr.lgrad@ == cross_entropy_grad_of::<A>(
            self.logits_at(tokens, t),
            tokens[t + 1] as int,
        )
        &&& tr.lgrad@.len() == self.vocab
        &&& tr.loss == cross_entropy_of::<A>(self.logits_at(tokens, t), tokens[t + 1] as int)
    }

    /// A token left this trail through the blocks.
    pub open spec fn is_trail(&self, tr: TokenTrace<A>, trail: Trail<A>) -> bool {
        &&& rows_in(tr.hs@) == trail.hs
        &&& tr.hs@.len() == self.blocks.len() + 1
        &&& all_of_len(rows_in(tr.hs@), self.d)
        &&& rows_in(tr.mids@) == trail.mids
        &&& tr.mids@.len() == self.blocks.len()
        &&& all_of_len(rows_in(tr.mids@), self.d)
        &&& read_views(tr.reads@) == trail.reads
        &&& tr.reads@.len() == self.blocks.len()
        &&& reads_fit::<A>(read_views(tr.reads@), self.blocks)
    }

    /// What was read from the memories of a model is of those of every model with the same
    /// weights.
    proof fn lemma_reads_fit(&self, other: ForgeModelValues<A>, reads: Seq<ReadValues<A::T>>)
        requires
            self.same_weights(other),
            reads_fit::<A>(reads, other.blocks),
        ensures
            reads_fit::<A>(reads, self.blocks),
    {
        assert forall|l: int| 0 <= l < reads.len() implies self.blocks[l].holds(
            #[trigger] reads[l],
        ) by {
            assert(same_block_weights::<A>(self.blocks[l], other.blocks[l]));
            assert(other.blocks[l].holds(reads[l]));
        }
    }

    /// The tokens of a training sequence are in the vocabulary.
    pub open spec fn is_training(&self, tokens: Seq<usize>) -> bool {
        &&& tokens.len() >= 1
        &&& forall|t: int| 0 <= t < tokens.len() ==> #[trigger] tokens[t] < self.vocab
    }
}

impl<A: Arith> ForgeModel<A> {
    /// Run a token through all blocks, and keep what goes into each and into its FF. The FLOP
    /// counters of the blocks are read and reset.
    pub(crate) fn walk_blocks(&mut self, h: Vec<A::T>, Ghost(room): Ghost<int>) -> (r: (
        Vec<Vec<A::T>>,
        Vec<Vec<A::T>>,
        Vec<ReadTrace<A>>,
    ))
        requires
            lawful::<A>(),
            old(self)@.has_room(room),
            room >= 1,
            h@.len() == old(self).d,
            old(self)@.total_flops + old(self)@.pending() + old(self)@.block_flops() <= u64::MAX,
        ensures
            ({
                let p = trail_of::<A>(old(self)@.blocks, h@, old(self)@.blocks.len());
                &&& final(self)@ == (ForgeModelValues {
                    blocks: p.blocks,
                    total_flops: old(self)@.total_flops + p.flops,
                    ..old(self)@
                })
                &&& rows_in(r.0@) == p.hs
                &&& rows_in(r.1@) == p.mids
                &&& read_views(r.2@) == p.reads
            }),
            r.0@.len() == old(self)@.blocks.len() + 1,
            r.1@.len() == old(self)@.blocks.len(),
            all_of_len(rows_in(r.0@), old(self)@.d),
            all_of_len(rows_in(r.1@), old(self)@.d),
            r.2@.len() == old(self)@.blocks.len(),
            reads_fit::<A>(read_views(r.2@), old(self)@.blocks),
    {
        let ghost m0 = self@;
        let ghost h0 = h@;
        let n: usize = self.blocks.len();
        let mut hs: Vec<Vec<A::T>> = Vec::new();
        let mut mids: Vec<Vec<A::T>> = Vec::new();
        let mut reads: Vec<ReadTrace<A>> = Vec::new();
        hs.push(h);
        assert(rows_in(hs@) =~= seq![h0]);
        assert(rows_in(mids@) =~= Seq::<Seq<A::T>>::empty());
        assert(read_views(reads@) =~= Seq::<ReadValues<A::T>>::empty());
        let mut l: usize = 0;
        while l < n
            invariant
                lawful::<A>(),
                m0.has_room(room),
                room >= 1,
                h0.len() == m0.d,
                m0.total_flops >= 0,
                m0.total_flops + m0.pending() + m0.block_flops() <= u64::MAX,
                n == m0.blocks.len(),
                l <= n,
                self@ == (ForgeModelValues {
                    blocks: trail_of::<A>(m0.blocks, h0, l as nat).blocks,
                    total_flops: m0.total_flops + trail_of::<A>(m0.blocks, h0, l as nat).flops,
                    ..m0
                }),
                hs@.len() == l + 1,
                mids@.len() == l,
                rows_in(hs@) == trail_of::<A>(m0.blocks, h0, l as nat).hs,
                rows_in(mids@) == trail_of::<A>(m0.blocks, h0, l as nat).mids,
                reads@.len() == l,
                read_views(reads@) == trail_of::<A>(m0.blocks, h0, l as nat).reads,
            decreases n - l,
        {
            let ghost p = trail_of::<A>(m0.blocks, h0, l as nat);
            let ghost next = trail_of::<A>(m0.blocks, h0, (l + 1) as nat);
            let ghost b = m0.blocks[l as int];
            proof {
                m0.lemma_trail(h0, room, l as nat);
                m0.lemma_trail(h0, room, (l + 1) as nat);
                assert(self@.blocks[l as int] == p.blocks[l as int]);
                assert(self.blocks@[l as int]@ == p.blocks[l as int]);
                assert(p.blocks[l as int] == b);
                assert forall|k: int| 0 <= k < m0.blocks.len() implies (
                #[trigger] m0.blocks[k]).flops_forward >= 0 by {
                    assert(m0.blocks[k].has_room(room));
                }
                lemma_sums_grow::<A>(m0.blocks, (l + 1) as nat, n as nat);
                lemma_sums_grow::<A>(m0.blocks, l as nat, n as nat);
                lemma_row_in(hs@, p.hs, l as int);
                assert(p.hs[l as int].len() == m0.d);
                assert(b.has_room(room));
                b.lemma_next(p.hs[l as int], room);
            }
            let mut hc = copied(hs[l].as_slice());
            let ghost (before, before_mids, before_reads) = (hs@, mids@, reads@);
            let read = self.blocks[l].through_memory_kept(hc.as_mut_slice());
            let mid = copied(hc.as_slice());
            self.blocks[l].through_ff(hc.as_mut_slice());
            self.total_flops = self.total_flops + self.blocks[l].flops_forward;
            self.blocks[l].flops_forward = 0;
            hs.push(hc);
            mids.push(mid);
            reads.push(read);
            proof {
                assert(self@.blocks =~= next.blocks);
                assert(rows_in(hs@) =~= rows_in(before).push(hc@));
                assert(rows_in(mids@) =~= rows_in(before_mids).push(mid@));
                assert(rows_in(hs@) =~= next.hs);
                assert(rows_in(mids@) =~= next.mids);
                assert(read_views(reads@) =~= read_views(before_reads).push(read@));
                assert(read_views(reads@) =~= next.reads);
            }
            l += 1;
        }
        proof {
            m0.lemma_trail(h0, room, n as nat);
        }
        (hs, mids, reads)
    }

    /// Forward over a training sequence (teacher forcing).
    fn walk_sequence(&mut self, tokens: &[usize], Ghost(room): Ghost<int>) -> (traces: Vec<
        TokenTrace<A>,
    >)
        requires
            lawful::<A>(),
            old(self)@.is_training(tokens@),
            old(self)@.can_train(room),
            tokens@.len() - 1 <= room,
        ensures
            final(self)@ == old(self)@.walked(tokens@, (tokens@.len() - 1) as nat),
            traces@.len() == tokens@.len() - 1,
            forall|t: int|
                0 <= t < traces@.len() ==> old(self)@.is_trace(tokens@, t, #[trigger] traces@[t]),
    {
        let ghost m0 = self@;
        let d: usize = self.d;
        let v: usize = self.vocab_size;
        let n: usize = tokens.len() - 1;
        let mut traces: Vec<TokenTrace<A>> = Vec::with_capacity(n);
        let mut t: usize = 0;
        while t < n
            invariant
                lawful::<A>(),
                m0.is_training(tokens@),
                m0.can_train(room),
                n == tokens@.len() - 1,
                n <= room,
                t <= n,
                d == m0.d,
                v == m0.vocab,
                self.d == d,
                self.vocab_size == v,
                self@ == m0.walked(tokens@, t as nat),
                traces@.len() == t,
                forall|q: int| 0 <= q < t ==> m0.is_trace(tokens@, q, #[trigger] traces@[q]),
            decreases n - t,
        {
            let tok: usize = tokens[t];
            let ghost m = self@;
            proof {
                m0.lemma_walked(tokens@, t as nat, room);
                m0.lemma_walked(tokens@, (t + 1) as nat, room);
                m.lemma_embed_len(tok as int, t as int);
                m.lemma_trail(m.embed(tok as int, t as int), room - t, m.blocks.len());
                assert forall|l: int| 0 <= l < m.blocks.len() implies (
                #[trigger] m.blocks[l]).has_room(0) by {
                    assert(m.blocks[l].has_room(room - t));
                }
                let whole = m.train_flops();
                assert(whole <= (room - t) * whole) by (nonlinear_arith)
                    requires
                        room - t >= 1,
                        whole >= 0,
                ;
                assert(0 <= 2 * v * d + 2 * d <= 4 * v * d + 2 * d) by (nonlinear_arith)
                    requires
                        v >= 0,
                        d >= 0,
                ;
            }
            let h = self.embed_token(tok, t);
            let (hs, mids, reads) = self.walk_blocks(h, Ghost(room - t));
            proof {
                lemma_row_in(hs@, m0.trail_at(tokens@, t as int).hs, m.blocks.len() as int);
                assert(rows_in(hs@)[m.blocks.len() as int].len() == d);
                assert(tokens@[t + 1] < v);
            }
            let logits = mul_vec::<A>(self.head.as_slice(), v, hs[hs.len() - 1].as_slice());
            let mut probs = zero_vec::<A>(v);
            let mut lgrad = zero_vec::<A>(v);
            let loss = cross_entropy_loss_and_grad::<A>(
                logits.as_slice(),
                tokens[t + 1],
                probs.as_mut_slice(),
                lgrad.as_mut_slice(),
            );
            self.total_flops = self.total_flops + ((2 * v * d + 2 * d) as u64);
            traces.push(TokenTrace { hs, mids, reads, lgrad, loss });
            t += 1;
        }
        traces
    }

    /// Backward through all blocks at a token. Returns the gradient at the input of the first.
    fn chain_backward(
        &self,
        tr: &TokenTrace<A>,
        d_h: Vec<A::T>,
        scale: A::T,
        grads: &mut Vec<ForgeBlockGrads<A>>,
        slots: &mut Vec<SlotGrads<A>>,
        Ghost(trail): Ghost<Trail<A>>,
    ) -> (d_in: Vec<A::T>)
        requires
            lawful::<A>(),
            self@.has_room(0),
            self@.is_trail(*tr, trail),
            d_h@.len() == self.d,
            blocks_fit::<A>(grad_views(old(grads)@), self@),
            slots_fit::<A>(slot_views(old(slots)@), self@.blocks),
        ensures
            ({
                let c = chain_back::<A>(
                    self@.blocks,
                    trail,
                    d_h@,
                    scale,
                    grad_views(old(grads)@),
                    slot_views(old(slots)@),
                    0,
                );
                &&& grad_views(final(grads)@) == c.grads
                &&& d_in@ == c.d_h
                &&& slot_views(final(slots)@) == c.slots
            }),
            d_in@.len() == self.d,
            blocks_fit::<A>(grad_views(final(grads)@), self@),
            slots_fit::<A>(slot_views(final(slots)@), self@.blocks),
    {
        let ghost (g0, s0) = (grad_views(grads@), slot_views(slots@));
        let ghost d0 = d_h@;
        let ghost m = self@;
        let mut d_in = d_h;
        let mut l: usize = self.blocks.len();
        while l > 0
            invariant
                lawful::<A>(),
                m == self@,
                m.has_room(0),
                l <= m.blocks.len(),
                m.is_trail(*tr, trail),
                blocks_fit::<A>(grad_views(grads@), m),
                slots_fit::<A>(slot_views(slots@), m.blocks),
                ({
                    let c = chain_back::<A>(m.blocks, trail, d0, scale, g0, s0, l as int);
                    &&& grad_views(grads@) == c.grads
                    &&& d_in@ == c.d_h
                    &&& slot_views(slots@) == c.slots
                }),
                d_in@.len() == m.d,
            decreases l,
        {
            l -= 1;
            let ghost (gs, ss) = (grad_views(grads@), slot_views(slots@));
            proof {
                assert(m.blocks[l as int] == self.blocks@[l as int]@);
                assert(m.blocks[l as int].has_room(0));
                lemma_row_in(tr.hs@, trail.hs, l as int);
                lemma_row_in(tr.mids@, trail.mids, l as int);
                assert(rows_in(tr.hs@)[l as int].len() == m.d);
                assert(rows_in(tr.mids@)[l as int].len() == m.d);
                assert(read_views(tr.reads@)[l as int] == tr.reads@[l as int]@);
                assert(m.blocks[l as int].holds(read_views(tr.reads@)[l as int]));
                assert(gs[l as int] == grads@[l as int]@);
                assert(gs[l as int].fits(m.d, m.blocks[l as int].d_ff));
                assert(ss[l as int] == slots@[l as int]@);
                assert(m.blocks[l as int].holds_grads(ss[l as int]));
            }
            d_in = self.blocks[l].backward(
                tr.hs[l].as_slice(),
                tr.mids[l].as_slice(),
                &tr.reads[l],
                d_in.as_slice(),
                scale,
                &mut grads[l],
                &mut slots[l],
            );
            proof {
                let next = chain_back::<A>(m.blocks, trail, d0, scale, g0, s0, l as int);
                assert(grad_views(grads@) =~= next.grads);
                assert(slot_views(slots@) =~= next.slots);
                assert forall|k: int| 0 <= k < grad_views(grads@).len() implies (
                #[trigger] grad_views(grads@)[k]).fits(m.d, m.blocks[k].d_ff) by {
                    if k != l {
                        assert(gs[k].fits(m.d, m.blocks[k].d_ff));
                    }
                }
                assert forall|k: int| 0 <= k < slot_views(slots@).len() implies m.blocks[k].holds_grads(
                    #[trigger] slot_views(slots@)[k],
                ) by {
                    if k != l {
                        assert(m.blocks[k].holds_grads(ss[k]));
                    }
                }
            }
        }
        d_in
    }

    /// Forward and backward over a training sequence. Adds to the gradients, and the losses of
    /// its tokens, from the last to the first, to `start`.
    pub fn train_sequence(
        &mut self,
        tokens: &[usize],
        scale: A::T,
        grads: &mut ForgeGrads<A>,
        start: A::T,
    ) -> (loss: A::T)
        requires
            lawful::<A>(),
            old(self)@.is_training(tokens@),
            old(self)@.can_train(tokens@.len() - 1),
            old(grads)@.fits::<A>(old(self)@),
        ensures
            final(self)@ == old(self)@.after_training(tokens@),
            ({
                let b = old(self)@.sequence_back(
                    tokens@,
                    scale,
                    SequenceBack { grads: old(grads)@, loss: start, slots: Seq::empty() },
                    0,
                );
                final(grads)@ == b.grads && loss == b.loss
            }),
            final(grads)@.fits::<A>(old(self)@),
    {
        let ghost m0 = self@;
        let ghost n = tokens@.len() - 1;
        let ghost back0 = SequenceBack { grads: grads@, loss: start, slots: Seq::empty() };
        proof {
            m0.lemma_walked(tokens@, n as nat, n);
        }
        let traces = self.walk_sequence(tokens, Ghost(n));
        let ghost end = self@;
        let v: usize = self.vocab_size;
        let d: usize = self.d;
        let ghost back_flops = m0.backward_flops();
        let mut loss = start;
        let mut t: usize = traces.len();
        let mut through_blocks: u64 = 0;
        let mut slots = self.blank_slots(Ghost(m0));
        proof {
            lemma_training_flops(end.total_flops, m0.forward_flops(), back_flops, n, 0);
        }
        if t > 0 {
            proof {
                assert(m0.train_flops() <= n * m0.train_flops()) by (nonlinear_arith)
                    requires
                        n >= 1,
                        m0.train_flops() >= 0,
                ;
            }
            through_blocks = self.count_block_flops();
        }
        assert(0 * back_flops == 0);
        while t > 0
            invariant
                lawful::<A>(),
                m0.is_training(tokens@),
                m0.can_train(n),
                n == tokens@.len() - 1,
                t <= n,
                v == m0.vocab,
                d == m0.d,
                self.vocab_size == v,
                self.d == d,
                end == m0.walked(tokens@, n as nat),
                end.same_weights(m0),
                end.has_room(0),
                end.total_flops <= m0.total_flops + m0.pending() + n * m0.forward_flops(),
                back_flops == m0.backward_flops(),
                t > 0 ==> through_blocks == m0.block_flops(),
                self@ == (ForgeModelValues {
                    total_flops: end.total_flops + (n - t) * back_flops,
                    ..end
                }),
                traces@.len() == n,
                forall|q: int| 0 <= q < n ==> m0.is_trace(tokens@, q, #[trigger] traces@[q]),
                grads@.fits::<A>(m0),
                grads@ == m0.sequence_back(tokens@, scale, back0, t as int).grads,
                loss == m0.sequence_back(tokens@, scale, back0, t as int).loss,
                slots_fit::<A>(slot_views(slots@), end.blocks),
                slot_views(slots@) == m0.sequence_back(tokens@, scale, back0, t as int).slots,
            decreases t,
        {
            t -= 1;
            let tr = &traces[t];
            proof {
                assert(m0.is_trace(tokens@, t as int, traces@[t as int]));
                lemma_row_in(
                    tr.hs@,
                    m0.trail_at(tokens@, t as int).hs,
                    m0.blocks.len() as int,
                );
                assert(rows_in(tr.hs@)[m0.blocks.len() as int].len() == d);
                lemma_training_flops(
                    m0.total_flops + m0.pending(),
                    m0.forward_flops(),
                    back_flops,
                    n,
                    t as int,
                );
                assert(0 <= 4 * v * d) by (nonlinear_arith)
                    requires
                        v >= 0,
                        d >= 0,
                ;
                end.lemma_reads_fit(m0, read_views(tr.reads@));
            }
            loss = A::plus(loss, tr.loss);
            self.token_backward(
                tokens[t],
                t,
                tr,
                scale,
                grads,
                &mut slots,
                Ghost(m0.trail_at(tokens@, t as int)),
            );
            // FLOPs for backward are twice those of forward
            self.total_flops = self.total_flops + (((4 * v * d) as u64) + 2 * through_blocks);
        }
        loss
    }

    /// Backward at one token of a training sequence.
    fn token_backward(
        &self,
        tok: usize,
        t: usize,
        tr: &TokenTrace<A>,
        scale: A::T,
        grads: &mut ForgeGrads<A>,
        slots: &mut Vec<SlotGrads<A>>,
        Ghost(trail): Ghost<Trail<A>>,
    )
        requires
            lawful::<A>(),
            self@.has_room(0),
            self.max_seq > 0,
            tok < self.vocab_size,
            self@.is_trail(*tr, trail),
            tr.lgrad@.len() == self.vocab_size,
            old(grads)@.fits::<A>(self@),
            slots_fit::<A>(slot_views(old(slots)@), self@.blocks),
        ensures
            ({
                let m = self@;
                let g = old(grads)@;
                let hs = trail.hs;
                let chain = chain_back::<A>(
                    m.blocks,
                    trail,
                    matvec_transposed_of::<A>(m.head, m.d, tr.lgrad@),
                    scale,
                    g.blocks,
                    slot_views(old(slots)@),
                    0,
                );
                let pos = if t < m.max_seq - 1 {
                    t as int
                } else {
                    m.max_seq - 1
                };
                &&& final(grads)@.embed == row_raised::<A>(
                    g.embed,
                    m.d,
                    tok as int,
                    chain.d_h,
                    scale,
                )
                &&& final(grads)@.pos_embed == row_raised::<A>(
                    g.pos_embed,
                    m.d,
                    pos,
                    chain.d_h,
                    scale,
                )
                &&& final(grads)@.head == outer_added::<A>(g.head, tr.lgrad@, hs.last(), scale)
                &&& final(grads)@.blocks == chain.grads
                &&& slot_views(final(slots)@) == chain.slots
            }),
            final(grads)@.fits::<A>(self@),
            slots_fit::<A>(slot_views(final(slots)@), self@.blocks),
    {
        let d: usize = self.d;
        let pos: usize = if t < self.max_seq - 1 {
            t
        } else {
            self.max_seq - 1
        };
        let last: usize = tr.hs.len() - 1;
        proof {
            assert(rows_in(tr.hs@)[last as int].len() == d);
            assert(rows_in(tr.hs@).last() == tr.hs@[last as int]@);
            assert(grad_views(grads.blocks@) =~= grads@.blocks);
        }
        // Head gradients: dW_head += lgrad * final_h^T
        add_outer_scaled::<A>(
            &mut grads.head,
            tr.lgrad.as_slice(),
            tr.hs[last].as_slice(),
            scale,
        );
        // d_h from head: dh = W_head^T * lgrad
        let d_h = mul_transposed::<A>(self.head.as_slice(), d, tr.lgrad.as_slice());
        let d_in = self.chain_backward(
            tr,
            d_h,
            scale,
            &mut grads.blocks,
            slots,
            Ghost(trail),
        );
        // Embedding gradients
        raise_row::<A>(
            grads.embed.as_mut_slice(),
            Ghost(self.vocab_size as nat),
            tok,
            d_in.as_slice(),
            scale,
        );
        raise_row::<A>(
            grads.pos_embed.as_mut_slice(),
            Ghost(self.max_seq as nat),
            pos,
            d_in.as_slice(),
            scale,
        );
        proof {
            assert(grad_views(grads.blocks@) =~= grads@.blocks);
        }
    }
}

impl<A: Arith> ForgeBlock<A> {
    /// RMSNorm + MRM, with the residual. Returns what was read from the memory.
    fn through_memory_kept(&mut self, h: &mut [A::T]) -> (read: ReadTrace<A>)
        requires
            lawful::<A>(),
            old(self)@.has_room(1),
            old(self)@.accepts(old(h)@),
        ensures
            final(self)@.wf(),
            final(self)@ == (ForgeBlockValues {
                flops_forward: old(self)@.flops_forward + old(self)@.flops_per_token() - 3 * 2 * (
                old(self)@.d_ff * old(self)@.d),
                ..old(self)@.next(old(h)@)
            }),
            final(h)@ == old(self)@.with_memory(old(h)@),
            final(h)@.len() == old(h)@.len(),
            read@ == old(self)@.read_at(old(h)@),
    {
        let ghost b0 = self@;
        let x = rms_norm::<A>(h, A::lit(1, 5));
        let (writes, fine_slot, coarse_slot): (usize, usize, usize) = match &self.mrm {
            Some(m) => (
                m.stats.total_writes,
                m.write_ptr % m.k_fine,
                m.coarse_slot_for(x.as_slice()),
            ),
            None => (0, 0, 0),
        };
        self.through_memory(h);
        match &self.mrm {
            Some(m) => {
                let read = ReadTrace {
                    fine_keys: copied(m.fine_keys.as_slice()),
                    fine_vals: copied(m.fine_vals.as_slice()),
                    coarse_keys: copied(m.coarse_keys.as_slice()),
                    coarse_vals: copied(m.coarse_vals.as_slice()),
                    written: m.stats.total_writes > writes,
                    fine_slot,
                    coarse_slot,
                };
                proof {
                    let g = b0.gated(b0.mrm->0);
                    let after = g.next(x@, false);
                    assert(m@.fine_keys == after.fine_keys);
                    assert(m@.coarse_keys == after.coarse_keys);
                    assert(read@ == b0.read_at(old(h)@));
                }
                read
            },
            None => ReadTrace::none(),
        }
    }

    /// The FLOPs of a token in the block.
    fn count_flops(&self) -> (flops: u64)
        requires
            self@.has_room(0),
            self@.flops_per_token() <= u64::MAX,
        ensures
            flops == self@.flops_per_token(),
    {
        assert(self.w1.len() == self.w1@.len());
        let ff: u64 = 3 * 2 * ((self.d_ff * self.d) as u64);
        match &self.mrm {
            Some(m) => {
                assert(m.w_k.len() == m.w_k@.len());
                let k_total: usize = m.k_fine + m.k_coarse;
                4 * 2 * ((self.d * self.d) as u64) + 2 * ((k_total * self.d) as u64) + ff
            },
            None => ff,
        }
    }
}

impl<A: Arith> ForgeModel<A> {
    /// No gradients at the slots of the memories, which are as large as those of `m`.
    fn blank_slots(&self, Ghost(m): Ghost<ForgeModelValues<A>>) -> (slots: Vec<SlotGrads<A>>)
        requires
            lawful::<A>(),
            self@.has_room(0),
            self@.same_weights(m),
        ensures
            slot_views(slots@) == m.no_slots(),
            slots_fit::<A>(slot_views(slots@), self@.blocks),
    {
        let n: usize = self.blocks.len();
        let mut slots: Vec<SlotGrads<A>> = Vec::with_capacity(n);
        let mut l: usize = 0;
        while l < n
            invariant
                lawful::<A>(),
                self@.has_room(0),
                self@.same_weights(m),
                n == self@.blocks.len(),
                l <= n,
                slots@.len() == l,
                forall|k: int|
                    0 <= k < l ==> (#[trigger] slots@[k])@ == m.blocks[k].no_slots()
                        && self@.blocks[k].holds_grads(slots@[k]@),
            decreases n - l,
        {
            proof {
                assert(self@.blocks[l as int] == self.blocks@[l as int]@);
                assert(self@.blocks[l as int].has_room(0));
                assert(same_block_weights::<A>(self@.blocks[l as int], m.blocks[l as int]));
            }
            let (fine, coarse): (usize, usize) = match &self.blocks[l].mrm {
                Some(mrm) => {
                    assert(mrm.fine_keys.len() == mrm.fine_keys@.len());
                    assert(mrm.coarse_keys.len() == mrm.coarse_keys@.len());
                    (mrm.k_fine * mrm.d, mrm.k_coarse * mrm.d)
                },
                None => (0, 0),
            };
            let blank = SlotGrads {
                fine_keys: zero_vec::<A>(fine),
                fine_vals: zero_vec::<A>(fine),
                coarse_keys: zero_vec::<A>(coarse),
                coarse_vals: zero_vec::<A>(coarse),
            };
            slots.push(blank);
            l += 1;
        }
        proof {
            assert(slot_views(slots@) =~= m.no_slots());
        }
        slots
    }

    /// The FLOPs of a token in all blocks.
    fn count_block_flops(&self) -> (flops: u64)
        requires
            self@.has_room(0),
            self@.block_flops() <= u64::MAX,
        ensures
            flops == self@.block_flops(),
    {
        let ghost m = self@;
        let n: usize = self.blocks.len();
        let mut flops: u64 = 0;
        let mut l: usize = 0;
        while l < n
            invariant
                m == self@,
                m.has_room(0),
                n == m.blocks.len(),
                l <= n,
                m.block_flops() <= u64::MAX,
                flops == flops_sum::<A>(m.blocks, l as nat),
            decreases n - l,
        {
            proof {
                assert(m.blocks[l as int] == self.blocks@[l as int]@);
                assert(m.blocks[l as int].has_room(0));
                assert forall|k: int| 0 <= k < m.blocks.len() implies (
                #[trigger] m.blocks[k]).flops_forward >= 0 by {
                    assert(m.blocks[k].has_room(0));
                }
                lemma_sums_grow::<A>(m.blocks, (l + 1) as nat, n as nat);
            }
            flops = flops + self.blocks[l].count_flops();
            l += 1;
        }
        flops
    }
}

/// The FLOP counter has room for the backward pass at token `t`.
proof fn lemma_training_flops(total: int, forward: nat, backward: nat, n: int, t: int)
    requires
        0 <= t <= n,
    ensures
        t < n ==> total + n * forward + (n - t - 1) * backward + backward <= total + n * (forward
            + backward),
        t < n ==> (n - t - 1) * backward + backward == (n - t) * backward,
        0 <= (n - t) * backward,
{
    assert((n - t - 1) * backward + backward == (n - t) * backward) by (nonlinear_arith);
    assert(0 <= (n - t) * backward <= n * backward) by (nonlinear_arith)
        requires
            0 <= t <= n,
            0 <= backward,
    ;
    assert(n * forward + n * backward == n * (forward + backward)) by (nonlinear_arith);
}

/// The gradients of the blocks.
pub open spec fn grad_views<A: Arith>(
    grads: Seq<ForgeBlockGrads<A>>,
) -> Seq<ForgeGradValues<A::T>> {
    Seq::new(grads.len(), |l: int| grads[l]@)
}

/// What was read from some memories.
pub open spec fn read_views<A: Arith>(reads: Seq<ReadTrace<A>>) -> Seq<ReadValues<A::T>> {
    Seq::new(reads.len(), |l: int| reads[l]@)
}

/// The gradients at the slots of some memories.
pub open spec fn slot_views<A: Arith>(slots: Seq<SlotGrads<A>>) -> Seq<SlotValues<A::T>> {
    Seq::new(slots.len(), |l: int| slots[l]@)
}

/// What was read is of the memories of these blocks.
pub open spec fn reads_fit<A: Arith>(
    reads: Seq<ReadValues<A::T>>,
    blocks: Seq<ForgeBlockValues<A>>,
) -> bool {
    &&& reads.len() == blocks.len()
    &&& forall|l: int| 0 <= l < reads.len() ==> blocks[l].holds(#[trigger] reads[l])
}

/// The gradients are those at the slots of the memories of these blocks.
pub open spec fn slots_fit<A: Arith>(
    slots: Seq<SlotValues<A::T>>,
    blocks: Seq<ForgeBlockValues<A>>,
) -> bool {
    &&& slots.len() == blocks.len()
    &&& forall|l: int| 0 <= l < slots.len() ==> blocks[l].holds_grads(#[trigger] slots[l])
}

/// The gradients are those of the blocks of this model.
pub open spec fn blocks_fit<A: Arith>(
    grads: Seq<ForgeGradValues<A::T>>,
    m: ForgeModelValues<A>,
) -> bool {
    &&& grads.len() == m.blocks.len()
    &&& forall|l: int|
        0 <= l < grads.len() ==> (#[trigger] grads[l]).fits(m.d, m.blocks[l].d_ff)
}

/// Add a vector, times `scale`, to row `r`.
pub(crate) fn raise_row<A: Arith>(
    data: &mut [A::T],
    Ghost(rows): Ghost<nat>,
    r: usize,
    delta: &[A::T],
    scale: A::T,
)
    requires
        lawful::<A>(),
        old(data)@.len() == rows * delta@.len(),
        r < rows,
    ensures
        final(data)@ == row_raised::<A>(old(data)@, delta@.len(), r as int, delta@, scale),
        final(data)@.len() == old(data)@.len(),
{
    let d: usize = delta.len();
    proof {
        lemma_row_bounds(rows, d as nat, r as int);
        assert(data.len() == data@.len());
        lemma_with_row(
            data@,
            rows,
            d as nat,
            r as int,
            add_scaled::<A>(row_of(data@, d as nat, r as int), delta@, scale),
        );
    }
    let start: usize = r * d;
    vec_add_scaled::<A>(part_mut(data, start, d), delta, scale);
}

} // verus!
