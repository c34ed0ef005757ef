//! Multi-threaded CPU batch training for standard 4-layer Transformer baseline.

use vstd::prelude::*;
use crate::arith::{Arith, lawful, s_plus, s_times, zero};
use crate::dataset::{
    is_batch_row, sample_windows, windows_from_seed, windows_lie_in_the_data,
};
use crate::gru_trainer::{baseline_lr, baseline_lr_of};
use crate::layer::zero_vec;
use crate::optimizer::{
    AdamStep, AdamWConfig, add_squares, adam_ms, adam_ps, adam_step_of, adam_vs, lemma_next_part,
    make_step, norm_of, sum_of_all_squares, update_slices,
};
use crate::parallel::par_map;
use crate::rng::seeded;
use crate::tensor::zeros;
use crate::trainer::{batch_scale, mean_and_bpc, summarize};
use crate::transformer::{
    BlockValues, TransformerBlock, TransformerBlockGrads, TransformerGrads, TransformerValues,
    no_transformer_grads,
};
use crate::transformer_model::TransformerModel;

verus! {

/// AdamW optimizer for Transformer baseline.
pub struct TransformerAdamW<A: Arith> {
    pub lr: A::T,
    pub beta1: A::T,
    pub beta2: A::T,
    pub eps: A::T,
    pub weight_decay: A::T,
    pub max_grad_norm: A::T,
    pub step: usize,
    pub m_embed: Vec<A::T>,
    pub v_embed: Vec<A::T>,
    pub m_pos_embed: Vec<A::T>,
    pub v_pos_embed: Vec<A::T>,
    pub m_blocks_wq: Vec<Vec<A::T>>,
    pub v_blocks_wq: Vec<Vec<A::T>>,
    pub m_blocks_wk: Vec<Vec<A::T>>,
    pub v_blocks_wk: Vec<Vec<A::T>>,
    pub m_blocks_wv: Vec<Vec<A::T>>,
    pub v_blocks_wv: Vec<Vec<A::T>>,
    pub m_blocks_wo: Vec<Vec<A::T>>,
    pub v_blocks_wo: Vec<Vec<A::T>>,
    pub m_blocks_w1: Vec<Vec<A::T>>,
    pub v_blocks_w1: Vec<Vec<A::T>>,
    pub m_blocks_w2: Vec<Vec<A::T>>,
    pub v_blocks_w2: Vec<Vec<A::T>>,
    pub m_head: Vec<A::T>,
    pub v_head: Vec<A::T>,
}

impl<T> BlockValues<T> {
    /// First moments after a step with gradients `g`.
    pub open spec fn first_moved<A: Arith<T = T>>(
        &self,
        s: AdamStep<T>,
        g: BlockValues<T>,
    ) -> BlockValues<T> {
        BlockValues {
            wq: adam_ms::<A>(s, g.wq, self.wq),
            wk: adam_ms::<A>(s, g.wk, self.wk),
            wv: adam_ms::<A>(s, g.wv, self.wv),
            wo: adam_ms::<A>(s, g.wo, self.wo),
            w1: adam_ms::<A>(s, g.w1, self.w1),
            w2: adam_ms::<A>(s, g.w2, self.w2),
        }
    }

    /// Second moments after a step with gradients `g`.
    pub open spec fn second_moved<A: Arith<T = T>>(
        &self,
        s: AdamStep<T>,
        g: BlockValues<T>,
    ) -> BlockValues<T> {
        BlockValues {
            wq: adam_vs::<A>(s, g.wq, self.wq),
            wk: adam_vs::<A>(s, g.wk, self.wk),
            wv: adam_vs::<A>(s, g.wv, self.wv),
            wo: adam_vs::<A>(s, g.wo, self.wo),
            w1: adam_vs::<A>(s, g.w1, self.w1),
            w2: adam_vs::<A>(s, g.w2, self.w2),
        }
    }

    /// Parameters after a step with gradients `g` and moments `m` and `v` before it.
    pub open spec fn stepped<A: Arith<T = T>>(
        &self,
        s: AdamStep<T>,
        g: BlockValues<T>,
        m: BlockValues<T>,
        v: BlockValues<T>,
    ) -> BlockValues<T> {
        BlockValues {
            wq: adam_ps::<A>(s, self.wq, g.wq, m.wq, v.wq),
            wk: adam_ps::<A>(s, self.wk, g.wk, m.wk, v.wk),
            wv: adam_ps::<A>(s, self.wv, g.wv, m.wv, v.wv),
            wo: adam_ps::<A>(s, self.wo, g.wo, m.wo, v.wo),
            w1: adam_ps::<A>(s, self.w1, g.w1, m.w1, v.w1),
            w2: adam_ps::<A>(s, self.w2, g.w2, m.w2, v.w2),
        }
    }

    /// The parts, in the order in which their squares are added.
    pub open spec fn parts(&self) -> Seq<Seq<T>> {
        seq![self.wq, self.wk, self.wv, self.wo, self.w1, self.w2]
    }
}

impl<T> TransformerValues<T> {
    /// First moments after a step with gradients `g`.
    pub open spec fn first_moved<A: Arith<T = T>>(
        &self,
        s: AdamStep<T>,
        g: TransformerValues<T>,
    ) -> TransformerValues<T> {
        TransformerValues {
            embed: adam_ms::<A>(s, g.embed, self.embed),
            pos_embed: adam_ms::<A>(s, g.pos_embed, self.pos_embed),
            blocks: Seq::new(
                self.blocks.len(),
                |l: int| self.blocks[l].first_moved::<A>(s, g.blocks[l]),
            ),
            head: adam_ms::<A>(s, g.head, self.head),
        }
    }

    /// Second moments after a step with gradients `g`.
    pub open spec fn second_moved<A: Arith<T = T>>(
        &self,
        s: AdamStep<T>,
        g: TransformerValues<T>,
    ) -> TransformerValues<T> {
        TransformerValues {
            embed: adam_vs::<A>(s, g.embed, self.embed),
            pos_embed: adam_vs::<A>(s, g.pos_embed, self.pos_embed),
            blocks: Seq::new(
                self.blocks.len(),
                |l: int| self.blocks[l].second_moved::<A>(s, g.blocks[l]),
            ),
            head: adam_vs::<A>(s, g.head, self.head),
        }
    }

    /// Parameters after a step with gradients `g` and moments `m` and `v` before it.
    pub open spec fn stepped<A: Arith<T = T>>(
        &self,
        s: AdamStep<T>,
        g: TransformerValues<T>,
        m: TransformerValues<T>,
        v: TransformerValues<T>,
    ) -> TransformerValues<T> {
        TransformerValues {
            embed: adam_ps::<A>(s, self.embed, g.embed, m.embed, v.embed),
            pos_embed: adam_ps::<A>(s, self.pos_embed, g.pos_embed, m.pos_embed, v.pos_embed),
            blocks: Seq::new(
                self.blocks.len(),
                |l: int|
                    self.blocks[l].stepped::<A>(s, g.blocks[l], m.blocks[l], v.blocks[l]),
            ),
            head: adam_ps::<A>(s, self.head, g.head, m.head, v.head),
        }
    }

    /// The parts before the prediction head, up to block `l`.
    pub open spec fn parts_before(&self, l: nat) -> Seq<Seq<T>>
        decreases l,
    {
        if l == 0 {
            seq![self.embed, self.pos_embed]
        } else {
            self.parts_before((l - 1) as nat) + self.blocks[l - 1].parts()
        }
    }

    /// The parts, in the order in which their squares are added.
    pub open spec fn parts(&self) -> Seq<Seq<T>> {
        self.parts_before(self.blocks.len()).push(self.head)
    }
}

/// The vectors of the six lists at position `l`.
pub open spec fn block_at<T>(
    wq: Seq<Vec<T>>,
    wk: Seq<Vec<T>>,
    wv: Seq<Vec<T>>,
    wo: Seq<Vec<T>>,
    w1: Seq<Vec<T>>,
    w2: Seq<Vec<T>>,
    l: int,
) -> BlockValues<T> {
    BlockValues { wq: wq[l]@, wk: wk[l]@, wv: wv[l]@, wo: wo[l]@, w1: w1[l]@, w2: w2[l]@ }
}

impl<A: Arith> TransformerAdamW<A> {
    /// The settings of the optimizer.
    pub open spec fn config(&self) -> AdamWConfig<A> {
        AdamWConfig {
            lr: self.lr,
            beta1: self.beta1,
            beta2: self.beta2,
            eps: self.eps,
            weight_decay: self.weight_decay,
            max_grad_norm: self.max_grad_norm,
        }
    }

    /// The first moments of block `l`.
    pub open spec fn first_of_block(&self, l: int) -> BlockValues<A::T> {
        block_at(
            self.m_blocks_wq@,
            self.m_blocks_wk@,
            self.m_blocks_wv@,
            self.m_blocks_wo@,
            self.m_blocks_w1@,
            self.m_blocks_w2@,
            l,
        )
    }

    /// The second moments of block `l`.
    pub open spec fn second_of_block(&self, l: int) -> BlockValues<A::T> {
        block_at(
            self.v_blocks_wq@,
            self.v_blocks_wk@,
            self.v_blocks_wv@,
            self.v_blocks_wo@,
            self.v_blocks_w1@,
            self.v_blocks_w2@,
            l,
        )
    }

    /// There are moments for `n` blocks.
    pub open spec fn has_blocks(&self, n: nat) -> bool {
        &&& self.m_blocks_wq@.len() == n
        &&& self.v_blocks_wq@.len() == n
        &&& self.m_blocks_wk@.len() == n
        &&& self.v_blocks_wk@.len() == n
        &&& self.m_blocks_wv@.len() == n
        &&& self.v_blocks_wv@.len() == n
        &&& self.m_blocks_wo@.len() == n
        &&& self.v_blocks_wo@.len() == n
        &&& self.m_blocks_w1@.len() == n
        &&& self.v_blocks_w1@.len() == n
        &&& self.m_blocks_w2@.len() == n
        &&& self.v_blocks_w2@.len() == n
    }

    /// The first moments.
    pub open spec fn first(&self) -> TransformerValues<A::T> {
        TransformerValues {
            embed: self.m_embed@,
            pos_embed: self.m_pos_embed@,
            blocks: Seq::new(self.m_blocks_wq@.len(), |l: int| self.first_of_block(l)),
            head: self.m_head@,
        }
    }

    /// The second moments.
    pub open spec fn second(&self) -> TransformerValues<A::T> {
        TransformerValues {
            embed: self.v_embed@,
            pos_embed: self.v_pos_embed@,
            blocks: Seq::new(self.v_blocks_wq@.len(), |l: int| self.second_of_block(l)),
            head: self.v_head@,
        }
    }

    /// The moments are those of the parameters of this model.
    pub open spec fn fits(&self, model: TransformerModel<A>) -> bool {
        &&& self.has_blocks(model.blocks@.len())
        &&& self.first().same_sizes(model.values())
        &&& self.second().same_sizes(model.values())
    }

    /// What a step with these gradients makes of the optimizer and the model.
    pub open spec fn takes_to(
        &self,
        model: TransformerModel<A>,
        g: TransformerValues<A::T>,
        current_lr: A::T,
        next: TransformerAdamW<A>,
        next_model: TransformerModel<A>,
    ) -> bool {
        let s = adam_step_of::<A>(
            self.config(),
            norm_of::<A>(g.parts()),
            (self.step + 1) as usize,
            current_lr,
        );
        &&& next.config() == self.config()
        &&& next.step == self.step + 1
        &&& next.first() == self.first().first_moved::<A>(s, g)
        &&& next.second() == self.second().second_moved::<A>(s, g)
        &&& next_model.values() == model.values().stepped::<A>(s, g, self.first(), self.second())
        &&& next_model.shape() == model.shape()
    }

    pub fn new(model: &TransformerModel<A>, lr: A::T) -> (opt: Self)
        requires
            lawful::<A>(),
        ensures
            opt.config().lr == lr,
            opt.config().is_usual(),
            opt.step == 0,
            opt.fits(*model),
            opt.first() == model.values().cleared::<A>(),
            opt.second() == model.values().cleared::<A>(),
    {
        let n: usize = model.blocks.len();
        let mut opt = TransformerAdamW {
            lr,
            beta1: A::lit(9, 1),
            beta2: A::lit(999, 3),
            eps: A::lit(1, 8),
            weight_decay: A::lit(1, 2),
            max_grad_norm: A::lit(1, 0),
            step: 0,
            m_embed: zero_vec::<A>(model.embeddings.len()),
            v_embed: zero_vec::<A>(model.embeddings.len()),
            m_pos_embed: zero_vec::<A>(model.pos_embeddings.len()),
            v_pos_embed: zero_vec::<A>(model.pos_embeddings.len()),
            m_blocks_wq: Vec::with_capacity(n),
            v_blocks_wq: Vec::with_capacity(n),
            m_blocks_wk: Vec::with_capacity(n),
            v_blocks_wk: Vec::with_capacity(n),
            m_blocks_wv: Vec::with_capacity(n),
            v_blocks_wv: Vec::with_capacity(n),
            m_blocks_wo: Vec::with_capacity(n),
            v_blocks_wo: Vec::with_capacity(n),
            m_blocks_w1: Vec::with_capacity(n),
            v_blocks_w1: Vec::with_capacity(n),
            m_blocks_w2: Vec::with_capacity(n),
            v_blocks_w2: Vec::with_capacity(n),
            m_head: zero_vec::<A>(model.head.len()),
            v_head: zero_vec::<A>(model.head.len()),
        };
        let mut l: usize = 0;
        while l < n
            invariant
                lawful::<A>(),
                l <= n,
                n == model.blocks@.len(),
                opt.config().lr == lr,
                opt.config().is_usual(),
                opt.step == 0,
                opt.m_embed@ == zeros::<A>(model.embeddings@.len()),
                opt.v_embed@ == zeros::<A>(model.embeddings@.len()),
                opt.m_pos_embed@ == zeros::<A>(model.pos_embeddings@.len()),
                opt.v_pos_embed@ == zeros::<A>(model.pos_embeddings@.len()),
                opt.m_head@ == zeros::<A>(model.head@.len()),
                opt.v_head@ == zeros::<A>(model.head@.len()),
                opt.has_blocks(l as nat),
                forall|k: int|
                    0 <= k < l ==> #[trigger] opt.first_of_block(k)
                        == model.blocks@[k].values().cleared::<A>(),
                forall|k: int|
                    0 <= k < l ==> #[trigger] opt.second_of_block(k)
                        == model.blocks@[k].values().cleared::<A>(),
            decreases n - l,
        {
            let ghost o = opt;
            let b = &model.blocks[l];
            opt.m_blocks_wq.push(zero_vec::<A>(b.wq.len()));
            opt.v_blocks_wq.push(zero_vec::<A>(b.wq.len()));
            opt.m_blocks_wk.push(zero_vec::<A>(b.wk.len()));
            opt.v_blocks_wk.push(zero_vec::<A>(b.wk.len()));
            opt.m_blocks_wv.push(zero_vec::<A>(b.wv.len()));
            opt.v_blocks_wv.push(zero_vec::<A>(b.wv.len()));
            opt.m_blocks_wo.push(zero_vec::<A>(b.wo.len()));
            opt.v_blocks_wo.push(zero_vec::<A>(b.wo.len()));
            opt.m_blocks_w1.push(zero_vec::<A>(b.w1.len()));
            opt.v_blocks_w1.push(zero_vec::<A>(b.w1.len()));
            opt.m_blocks_w2.push(zero_vec::<A>(b.w2.len()));
            opt.v_blocks_w2.push(zero_vec::<A>(b.w2.len()));
            proof {
                assert forall|k: int| 0 <= k < l + 1 implies #[trigger] opt.first_of_block(k)
                    == model.blocks@[k].values().cleared::<A>() by {
                    if k < l {
                        assert(opt.first_of_block(k) == o.first_of_block(k));
                    }
                }
                assert forall|k: int| 0 <= k < l + 1 implies #[trigger] opt.second_of_block(k)
                    == model.blocks@[k].values().cleared::<A>() by {
                    if k < l {
                        assert(opt.second_of_block(k) == o.second_of_block(k));
                    }
                }
            }
            l += 1;
        }
        proof {
            assert(opt.first().blocks =~= model.values().cleared::<A>().blocks);
            assert(opt.second().blocks =~= model.values().cleared::<A>().blocks);
        }
        opt
    }

    pub fn compute_grad_norm(&self, grads: &TransformerGrads<A>) -> (norm: A::T)
        requires
            lawful::<A>(),
        ensures
            norm == norm_of::<A>(grads@.parts()),
    {
        let ghost none: Seq<Seq<A::T>> = Seq::empty();
        let ghost g = grads@;
        let mut sum = add_squares::<A>(A::lit(0, 0), grads.grad_embed.as_slice());
        sum = add_squares::<A>(sum, grads.grad_pos_embed.as_slice());
        proof {
            lemma_next_part::<A>(none, g.embed);
            lemma_next_part::<A>(none.push(g.embed), g.pos_embed);
            assert(none.push(g.embed).push(g.pos_embed) =~= g.parts_before(0));
        }
        let n: usize = grads.block_grads.len();
        let mut l: usize = 0;
        while l < n
            invariant
                lawful::<A>(),
                l <= n,
                n == grads.block_grads@.len(),
                g == grads@,
                sum == sum_of_all_squares::<A>(g.parts_before(l as nat)),
            decreases n - l,
        {
            let ghost front = g.parts_before(l as nat);
            sum = add_block_squares::<A>(sum, Ghost(front), &grads.block_grads[l]);
            assert(g.blocks[l as int] == grads.block_grads@[l as int]@);
            l += 1;
        }
        sum = add_squares::<A>(sum, grads.grad_head.as_slice());
        proof {
            lemma_next_part::<A>(g.parts_before(n as nat), g.head);
        }
        A::sqrt(sum)
    }

    pub fn step(
        &mut self,
        model: &mut TransformerModel<A>,
        grads: &mut TransformerGrads<A>,
        current_lr: A::T,
    )
        requires
            lawful::<A>(),
            old(model).wf(),
            old(self).fits(*old(model)),
            old(self).step < usize::MAX,
            old(grads)@.fits(old(model).shape()),
        ensures
            old(self).takes_to(*old(model), old(grads)@, current_lr, *final(self), *final(model)),
            final(self).fits(*final(model)),
            final(model).wf(),
            *final(grads) == *old(grads),
    {
        let ghost o0 = *self;
        let ghost m0 = *model;
        let ghost g = grads@;
        self.step = self.step + 1;
        let norm = self.compute_grad_norm(grads);
        let config = AdamWConfig {
            lr: self.lr,
            beta1: self.beta1,
            beta2: self.beta2,
            eps: self.eps,
            weight_decay: self.weight_decay,
            max_grad_norm: self.max_grad_norm,
        };
        let s = make_step::<A>(&config, norm, self.step, current_lr);
        update_slices::<A>(
            &s,
            model.embeddings.as_mut_slice(),
            grads.grad_embed.as_slice(),
            self.m_embed.as_mut_slice(),
            self.v_embed.as_mut_slice(),
        );
        update_slices::<A>(
            &s,
            model.pos_embeddings.as_mut_slice(),
            grads.grad_pos_embed.as_slice(),
            self.m_pos_embed.as_mut_slice(),
            self.v_pos_embed.as_mut_slice(),
        );
        let n: usize = model.n_layers;
        let ghost o1 = *self;
        let ghost m1 = *model;
        let mut l: usize = 0;
        while l < n
            invariant
                lawful::<A>(),
                l <= n,
                n == m0.blocks@.len(),
                m0.wf(),
                o0.fits(m0),
                g == grads@,
                g.fits(m0.shape()),
                self.has_blocks(n as nat),
                self.same_outside(o1),
                same_outside_blocks(*model, m1),
                m1.blocks == m0.blocks,
                forall|k: int|
                    0 <= k < l ==> #[trigger] self.first_of_block(k)
                        == o0.first_of_block(k).first_moved::<A>(s, g.blocks[k]),
                forall|k: int|
                    0 <= k < l ==> #[trigger] self.second_of_block(k)
                        == o0.second_of_block(k).second_moved::<A>(s, g.blocks[k]),
                forall|k: int|
                    l <= k < n ==> #[trigger] self.first_of_block(k) == o0.first_of_block(k),
                forall|k: int|
                    l <= k < n ==> #[trigger] self.second_of_block(k) == o0.second_of_block(k),
                model.blocks@.len() == n,
                forall|k: int|
                    0 <= k < l ==> (#[trigger] model.blocks@[k]).values()
                        == m0.blocks@[k].values().stepped::<A>(
                        s,
                        g.blocks[k],
                        o0.first_of_block(k),
                        o0.second_of_block(k),
                    ),
                forall|k: int|
                    l <= k < n ==> (#[trigger] model.blocks@[k]).values()
                        == m0.blocks@[k].values(),
                forall|k: int|
                    0 <= k < n ==> (#[trigger] model.blocks@[k]).d_model == m0.d_model
                        && model.blocks@[k].d_ffn == m0.d_ffn,
            decreases n - l,
        {
            proof {
                assert(m0.blocks@[l as int].wf());
                assert(m0.values().blocks[l as int] == m0.blocks@[l as int].values());
                assert(o0.first().blocks[l as int].same_sizes(m0.values().blocks[l as int]));
                assert(o0.second().blocks[l as int].same_sizes(m0.values().blocks[l as int]));
                assert(o0.first().blocks[l as int] == o0.first_of_block(l as int));
                assert(o0.second().blocks[l as int] == o0.second_of_block(l as int));
                assert(self.first_of_block(l as int) == o0.first_of_block(l as int));
                assert(self.second_of_block(l as int) == o0.second_of_block(l as int));
                assert(model.blocks@[l as int].values() == m0.blocks@[l as int].values());
                assert(g.blocks[l as int].fits(m0.shape().d, m0.shape().ffn));
                assert(g.blocks[l as int] == grads.block_grads@[l as int]@);
            }
            let ghost o2 = *self;
            self.step_block(&s, l, &mut model.blocks[l], &grads.block_grads[l]);
            proof {
                assert forall|k: int| 0 <= k < n && k != l implies #[trigger] self.first_of_block(k)
                    == o2.first_of_block(k) && self.second_of_block(k) == o2.second_of_block(k)
                    by {}
            }
            l += 1;
        }
        let ghost o3 = *self;
        update_slices::<A>(
            &s,
            model.head.as_mut_slice(),
            grads.grad_head.as_slice(),
            self.m_head.as_mut_slice(),
            self.v_head.as_mut_slice(),
        );
        proof {
            assert forall|k: int| 0 <= k < n implies #[trigger] self.first_of_block(k)
                == o0.first_of_block(k).first_moved::<A>(s, g.blocks[k]) by {
                assert(self.first_of_block(k) == o3.first_of_block(k));
            }
            assert forall|k: int| 0 <= k < n implies #[trigger] self.second_of_block(k)
                == o0.second_of_block(k).second_moved::<A>(s, g.blocks[k]) by {
                assert(self.second_of_block(k) == o3.second_of_block(k));
            }
            self.lemma_stepped(o0, m0, g, s, *model);
        }
    }

    /// The moments outside the blocks, and the settings.
    pub open spec fn same_outside(&self, other: TransformerAdamW<A>) -> bool {
        &&& self.config() == other.config()
        &&& self.step == other.step
        &&& self.m_embed == other.m_embed
        &&& self.v_embed == other.v_embed
        &&& self.m_pos_embed == other.m_pos_embed
        &&& self.v_pos_embed == other.v_pos_embed
        &&& self.m_head == other.m_head
        &&& self.v_head == other.v_head
    }

    /// Block by block, the lists of blocks have taken the step.
    proof fn lemma_stepped(
        &self,
        o0: TransformerAdamW<A>,
        m0: TransformerModel<A>,
        g: TransformerValues<A::T>,
        s: AdamStep<A::T>,
        model: TransformerModel<A>,
    )
        requires
            m0.wf(),
            o0.fits(m0),
            g.fits(m0.shape()),
            self.has_blocks(m0.blocks@.len()),
            model.blocks@.len() == m0.blocks@.len(),
            forall|k: int|
                0 <= k < m0.blocks@.len() ==> #[trigger] self.first_of_block(k)
                    == o0.first_of_block(k).first_moved::<A>(s, g.blocks[k]),
            forall|k: int|
                0 <= k < m0.blocks@.len() ==> #[trigger] self.second_of_block(k)
                    == o0.second_of_block(k).second_moved::<A>(s, g.blocks[k]),
            forall|k: int|
                0 <= k < m0.blocks@.len() ==> (#[trigger] model.blocks@[k]).values()
                    == m0.blocks@[k].values().stepped::<A>(
                    s,
                    g.blocks[k],
                    o0.first_of_block(k),
                    o0.second_of_block(k),
                ),
        ensures
            self.first().blocks == o0.first().first_moved::<A>(s, g).blocks,
            self.second().blocks == o0.second().second_moved::<A>(s, g).blocks,
            model.values().blocks == m0.values().stepped::<A>(
                s,
                g,
                o0.first(),
                o0.second(),
            ).blocks,
            forall|k: int|
                0 <= k < m0.blocks@.len() ==> (#[trigger] self.first().blocks[k]).same_sizes(
                    model.values().blocks[k],
                ),
            forall|k: int|
                0 <= k < m0.blocks@.len() ==> (#[trigger] self.second().blocks[k]).same_sizes(
                    model.values().blocks[k],
                ),
            forall|k: int|
                0 <= k < m0.blocks@.len() ==> (#[trigger] model.blocks@[k]).values().same_sizes(
                    m0.blocks@[k].values(),
                ),
    {
        let n = m0.blocks@.len();
        let (f, v, p) = (
            o0.first().first_moved::<A>(s, g).blocks,
            o0.second().second_moved::<A>(s, g).blocks,
            m0.values().stepped::<A>(s, g, o0.first(), o0.second()).blocks,
        );
        assert forall|k: int| 0 <= k < n implies #[trigger] self.first().blocks[k] == f[k] by {
            assert(self.first().blocks[k] == self.first_of_block(k));
            assert(o0.first().blocks[k] == o0.first_of_block(k));
        }
        assert forall|k: int| 0 <= k < n implies #[trigger] self.second().blocks[k] == v[k] by {
            assert(self.second().blocks[k] == self.second_of_block(k));
            assert(o0.second().blocks[k] == o0.second_of_block(k));
        }
        assert forall|k: int| 0 <= k < n implies #[trigger] model.values().blocks[k] == p[k] by {
            assert(model.values().blocks[k] == model.blocks@[k].values());
            assert(m0.values().blocks[k] == m0.blocks@[k].values());
            assert(o0.first().blocks[k] == o0.first_of_block(k));
            assert(o0.second().blocks[k] == o0.second_of_block(k));
        }
        assert(self.first().blocks =~= f);
        assert(self.second().blocks =~= v);
        assert(model.values().blocks =~= p);
        assert forall|k: int| 0 <= k < n implies (#[trigger] self.first().blocks[k]).same_sizes(
            model.values().blocks[k],
        ) by {
            assert(o0.first().blocks[k].same_sizes(m0.values().blocks[k]));
            assert(model.values().blocks[k] == p[k]);
        }
        assert forall|k: int| 0 <= k < n implies (#[trigger] self.second().blocks[k]).same_sizes(
            model.values().blocks[k],
        ) by {
            assert(o0.second().blocks[k].same_sizes(m0.values().blocks[k]));
            assert(model.values().blocks[k] == p[k]);
        }
        assert forall|k: int| 0 <= k < n implies (#[trigger] model.blocks@[k]).values().same_sizes(
            m0.blocks@[k].values(),
        ) by {
            assert(model.values().blocks[k] == p[k]);
        }
    }

    /// Apply a step to block `l` and its moments.
    fn step_block(
        &mut self,
        s: &AdamStep<A::T>,
        l: usize,
        b: &mut TransformerBlock<A>,
        bg: &TransformerBlockGrads<A>,
    )
        requires
            lawful::<A>(),
            exists|n: nat| old(self).has_blocks(n) && l < n,
            old(self).first_of_block(l as int).same_sizes(old(b).values()),
            old(self).second_of_block(l as int).same_sizes(old(b).values()),
            bg@.same_sizes(old(b).values()),
        ensures
            final(self).same_outside(*old(self)),
            forall|n: nat| old(self).has_blocks(n) ==> final(self).has_blocks(n),
            final(self).first_of_block(l as int) == old(self).first_of_block(
                l as int,
            ).first_moved::<A>(*s, bg@),
            final(self).second_of_block(l as int) == old(self).second_of_block(
                l as int,
            ).second_moved::<A>(*s, bg@),
            forall|k: int|
                0 <= k < old(self).m_blocks_wq@.len() && k != l
                    ==> #[trigger] final(self).first_of_block(k) == old(self).first_of_block(k),
            forall|k: int|
                0 <= k < old(self).m_blocks_wq@.len() && k != l
                    ==> #[trigger] final(self).second_of_block(k) == old(self).second_of_block(k),
            final(b).values() == old(b).values().stepped::<A>(
                *s,
                bg@,
                old(self).first_of_block(l as int),
                old(self).second_of_block(l as int),
            ),
            final(b).d_model == old(b).d_model,
            final(b).d_ffn == old(b).d_ffn,
    {
        update_slices::<A>(
            s,
            b.wq.as_mut_slice(),
            bg.grad_wq.as_slice(),
            self.m_blocks_wq[l].as_mut_slice(),
            self.v_blocks_wq[l].as_mut_slice(),
        );
        update_slices::<A>(
            s,
            b.wk.as_mut_slice(),
            bg.grad_wk.as_slice(),
            self.m_blocks_wk[l].as_mut_slice(),
            self.v_blocks_wk[l].as_mut_slice(),
        );
        update_slices::<A>(
            s,
            b.wv.as_mut_slice(),
            bg.grad_wv.as_slice(),
            self.m_blocks_wv[l].as_mut_slice(),
            self.v_blocks_wv[l].as_mut_slice(),
        );
        update_slices::<A>(
            s,
            b.wo.as_mut_slice(),
            bg.grad_wo.as_slice(),
            self.m_blocks_wo[l].as_mut_slice(),
            self.v_blocks_wo[l].as_mut_slice(),
        );
        update_slices::<A>(
            s,
            b.w1.as_mut_slice(),
            bg.grad_w1.as_slice(),
            self.m_blocks_w1[l].as_mut_slice(),
            self.v_blocks_w1[l].as_mut_slice(),
        );
        update_slices::<A>(
            s,
            b.w2.as_mut_slice(),
            bg.grad_w2.as_slice(),
            self.m_blocks_w2[l].as_mut_slice(),
            self.v_blocks_w2[l].as_mut_slice(),
        );
    }
}

/// The parameters outside the blocks, and the dimensions.
pub open spec fn same_outside_blocks<A: Arith>(
    a: TransformerModel<A>,
    b: TransformerModel<A>,
) -> bool {
    &&& a.shape() == b.shape()
    &&& a.embeddings == b.embeddings
    &&& a.pos_embeddings == b.pos_embeddings
    &&& a.head == b.head
}

/// Add the squares of the gradients of a block to those of the parts before it.
fn add_block_squares<A: Arith>(
    start: A::T,
    Ghost(front): Ghost<Seq<Seq<A::T>>>,
    bg: &TransformerBlockGrads<A>,
) -> (sum: A::T)
    requires
        lawful::<A>(),
        start == sum_of_all_squares::<A>(front),
    ensures
        sum == sum_of_all_squares::<A>(front + bg@.parts()),
{
    let ghost b = bg@;
    let mut sum = add_squares::<A>(start, bg.grad_wq.as_slice());
    sum = add_squares::<A>(sum, bg.grad_wk.as_slice());
    sum = add_squares::<A>(sum, bg.grad_wv.as_slice());
    sum = add_squares::<A>(sum, bg.grad_wo.as_slice());
    sum = add_squares::<A>(sum, bg.grad_w1.as_slice());
    sum = add_squares::<A>(sum, bg.grad_w2.as_slice());
    proof {
        let p1 = front.push(b.wq);
        let p2 = p1.push(b.wk);
        let p3 = p2.push(b.wv);
        let p4 = p3.push(b.wo);
        let p5 = p4.push(b.w1);
        lemma_next_part::<A>(front, b.wq);
        lemma_next_part::<A>(p1, b.wk);
        lemma_next_part::<A>(p2, b.wv);
        lemma_next_part::<A>(p3, b.wo);
        lemma_next_part::<A>(p4, b.w1);
        lemma_next_part::<A>(p5, b.w2);
        assert(p5.push(b.w2) =~= front + b.parts());
    }
    sum
}

impl<A: Arith> TransformerModel<A> {
    /// The parameters.
    pub open spec fn values(&self) -> TransformerValues<A::T> {
        TransformerValues {
            embed: self.embeddings@,
            pos_embed: self.pos_embeddings@,
            blocks: Seq::new(self.blocks@.len(), |l: int| self.blocks@[l].values()),
            head: self.head@,
        }
    }
}

impl<A: Arith> TransformerModel<A> {
    /// The gradients of the loss of a sequence.
    pub open spec fn grads_of(&self, x: Seq<usize>, y: Seq<usize>) -> TransformerValues<A::T> {
        self.grads_after(x, y, no_transformer_grads::<A>(self.shape()))
    }

    /// The gradients of the first `n` sequences, added in order.
    pub open spec fn grads_summed(
        &self,
        xs: Seq<Vec<usize>>,
        ys: Seq<Vec<usize>>,
        n: nat,
    ) -> TransformerValues<A::T>
        decreases n,
    {
        if n == 0 {
            no_transformer_grads::<A>(self.shape())
        } else {
            self.grads_summed(xs, ys, (n - 1) as nat).plus::<A>(
                self.grads_of(xs[n - 1]@, ys[n - 1]@),
            )
        }
    }

    /// The losses of the first `n` sequences, added in order.
    pub open spec fn losses_summed(
        &self,
        xs: Seq<Vec<usize>>,
        ys: Seq<Vec<usize>>,
        n: nat,
    ) -> A::T
        decreases n,
    {
        if n == 0 {
            zero::<A>()
        } else {
            s_plus::<A>(
                self.losses_summed(xs, ys, (n - 1) as nat),
                self.loss_of(xs[n - 1]@, ys[n - 1]@, xs[n - 1]@.len()),
            )
        }
    }

    /// There is room for the gradients.
    pub open spec fn can_train(&self) -> bool {
        &&& self.wf()
        &&& self.d_model * self.d_model <= usize::MAX
        &&& self.d_ffn * self.d_model <= usize::MAX
    }

    /// There is a sequence `i` in the batch, and it can be trained on.
    pub open spec fn batch_ready(
        &self,
        xs: Seq<Vec<usize>>,
        ys: Seq<Vec<usize>>,
        i: usize,
    ) -> bool {
        &&& i < xs.len()
        &&& i < ys.len()
        &&& lawful::<A>()
        &&& self.can_train()
        &&& self.accepts(xs[i as int]@, ys[i as int]@)
    }

    /// The loss of a sequence and its gradients.
    pub open spec fn sequence_done(
        &self,
        x: Seq<usize>,
        y: Seq<usize>,
        out: (A::T, TransformerGrads<A>),
    ) -> bool {
        &&& out.0 == self.loss_of(x, y, x.len())
        &&& out.1@ == self.grads_of(x, y)
        &&& out.1@.fits(self.shape())
    }
}

/// Room for the gradients of a model.
pub(crate) fn new_grads<A: Arith>(model: &TransformerModel<A>) -> (grads: TransformerGrads<A>)
    requires
        lawful::<A>(),
        model.can_train(),
    ensures
        grads@ == no_transformer_grads::<A>(model.shape()),
        grads@.fits(model.shape()),
{
    proof {
        assert(model.embeddings.len() == model.embeddings@.len());
        assert(model.pos_embeddings.len() == model.pos_embeddings@.len());
    }
    TransformerGrads::new(
        model.vocab_size,
        model.d_model,
        model.max_seq_len,
        model.n_layers,
        model.d_ffn,
    )
}

/// Forward through a sequence, then backward: its loss and its gradients.
pub fn transformer_sequence_gradients<A: Arith>(
    model: &TransformerModel<A>,
    x_seq: &[usize],
    y_seq: &[usize],
) -> (out: (A::T, TransformerGrads<A>))
    requires
        lawful::<A>(),
        model.can_train(),
        model.accepts(x_seq@, y_seq@),
    ensures
        model.sequence_done(x_seq@, y_seq@, out),
{
    let mut grads = new_grads(model);
    let loss = model.forward_backward_sequence(x_seq, y_seq, &mut grads);
    (loss, grads)
}

/// The gradients of a batch: those of its sequences, computed in parallel, added in order and
/// scaled to the mean over its tokens. Also returns the sum of the losses.
pub fn transformer_batch_gradients<A: Arith>(
    model: &TransformerModel<A>,
    batch_x: &[Vec<usize>],
    batch_y: &[Vec<usize>],
    seq_len: usize,
) -> (r: (A::T, TransformerGrads<A>))
    requires
        lawful::<A>(),
        model.can_train(),
        batch_x@.len() == batch_y@.len(),
        batch_x@.len() * seq_len <= usize::MAX,
        forall|i: int|
            0 <= i < batch_x@.len() ==> model.accepts(#[trigger] batch_x@[i]@, batch_y@[i]@),
    ensures
        r.0 == model.losses_summed(batch_x@, batch_y@, batch_x@.len()),
        r.1@ == model.grads_summed(batch_x@, batch_y@, batch_x@.len()).scaled::<A>(
            batch_scale::<A>(batch_x.len(), seq_len),
        ),
        r.1@.fits(model.shape()),
{
    let n: usize = batch_x.len();
    let results = par_map(
        n,
        |i: usize| -> (out: (A::T, TransformerGrads<A>))
            requires
                model.batch_ready(batch_x@, batch_y@, i),
            ensures
                model.sequence_done(batch_x@[i as int]@, batch_y@[i as int]@, out)
            {
                transformer_sequence_gradients(
                    model,
                    batch_x[i].as_slice(),
                    batch_y[i].as_slice(),
                )
            },
    );
    assert forall|j: int| 0 <= j < n implies model.sequence_done(
        batch_x@[j]@,
        batch_y@[j]@,
        #[trigger] results@[j],
    ) by {
        let i = j as usize;
        assert(results@[i as int] == results@[j]);
    }
    let mut total_grads = new_grads(model);
    let mut total_loss = A::lit(0, 0);
    let mut i: usize = 0;
    while i < n
        invariant
            lawful::<A>(),
            i <= n,
            results@.len() == n,
            n == batch_x@.len(),
            forall|j: int|
                0 <= j < n ==> model.sequence_done(
                    batch_x@[j]@,
                    batch_y@[j]@,
                    #[trigger] results@[j],
                ),
            total_grads@.fits(model.shape()),
            total_grads@ == model.grads_summed(batch_x@, batch_y@, i as nat),
            total_loss == model.losses_summed(batch_x@, batch_y@, i as nat),
        decreases n - i,
    {
        proof {
            let shape = model.shape();
            assert(model.sequence_done(
                batch_x@[i as int]@,
                batch_y@[i as int]@,
                results@[i as int],
            ));
            let other = results@[i as int].1@;
            assert forall|l: int| 0 <= l < total_grads@.blocks.len() implies (
            #[trigger] total_grads@.blocks[l]).same_sizes(other.blocks[l]) by {
                assert(total_grads@.blocks[l].fits(shape.d, shape.ffn));
                assert(other.blocks[l].fits(shape.d, shape.ffn));
            }
        }
        total_loss = A::plus(total_loss, results[i].0);
        total_grads.add(&results[i].1);
        i += 1;
    }
    let scale = A::over(A::lit(1, 0), A::count(n * seq_len));
    total_grads.scale(scale);
    (total_loss, total_grads)
}

/// What a training step makes of a model and its optimizer: the loss to report and the learning
/// rate are `r`, and the optimizer takes the mean gradients of the batch.
#[verifier::opaque]
pub open spec fn is_transformer_step<A: Arith>(
    model: TransformerModel<A>,
    optimizer: TransformerAdamW<A>,
    xs: Seq<Vec<usize>>,
    ys: Seq<Vec<usize>>,
    seq_len: usize,
    lr: A::T,
    r: (A::T, A::T),
    next_model: TransformerModel<A>,
    next: TransformerAdamW<A>,
) -> bool {
    let scale = batch_scale::<A>(xs.len() as usize, seq_len);
    &&& r.0 == s_times::<A>(model.losses_summed(xs, ys, xs.len()), scale)
    &&& r.1 == lr
    &&& optimizer.takes_to(
        model,
        model.grads_summed(xs, ys, xs.len()).scaled::<A>(scale),
        lr,
        next,
        next_model,
    )
}

/// One training step: the gradients of a batch, the learning rate of the step and an update of
/// the model by the optimizer. Returns the loss to report and the learning rate.
pub fn transformer_train_step<A: Arith>(
    model: &mut TransformerModel<A>,
    optimizer: &mut TransformerAdamW<A>,
    batch_x: &[Vec<usize>],
    batch_y: &[Vec<usize>],
    seq_len: usize,
    step: usize,
    max_steps: usize,
    base_lr: A::T,
) -> (r: (A::T, A::T))
    requires
        lawful::<A>(),
        old(model).can_train(),
        old(optimizer).fits(*old(model)),
        old(optimizer).step < usize::MAX,
        batch_x@.len() == batch_y@.len(),
        batch_x@.len() * seq_len <= usize::MAX,
        forall|i: int|
            0 <= i < batch_x@.len() ==> old(model).accepts(#[trigger] batch_x@[i]@, batch_y@[i]@),
        step <= max_steps,
    ensures
        is_transformer_step::<A>(
            *old(model),
            *old(optimizer),
            batch_x@,
            batch_y@,
            seq_len,
            baseline_lr_of::<A>(step, max_steps, base_lr),
            r,
            *final(model),
            *final(optimizer),
        ),
        final(optimizer).step == old(optimizer).step + 1,
        final(model).vocab_size == old(model).vocab_size,
        final(model).max_seq_len == old(model).max_seq_len,
        final(optimizer).fits(*final(model)),
        final(model).can_train(),
{
    reveal(is_transformer_step);
    let (total_loss, mut grads) = transformer_batch_gradients(model, batch_x, batch_y, seq_len);
    let scale = A::over(A::lit(1, 0), A::count(batch_x.len() * seq_len));
    let current_lr = baseline_lr::<A>(step, max_steps, base_lr);
    optimizer.step(model, &mut grads, current_lr);
    (A::times(total_loss, scale), current_lr)
}

/// The losses of some sequences, added in order.
pub fn evaluate_transformer_sequences<A: Arith>(
    model: &TransformerModel<A>,
    xs: &[Vec<usize>],
    ys: &[Vec<usize>],
) -> (total: A::T)
    requires
        lawful::<A>(),
        model.can_train(),
        xs@.len() == ys@.len(),
        forall|i: int| 0 <= i < xs@.len() ==> model.accepts(#[trigger] xs@[i]@, ys@[i]@),
    ensures
        total == model.losses_summed(xs@, ys@, xs@.len()),
{
    let mut dummy_grads = new_grads(model);
    let mut total_loss = A::lit(0, 0);
    let mut i: usize = 0;
    while i < xs.len()
        invariant
            lawful::<A>(),
            model.can_train(),
            i <= xs@.len(),
            xs@.len() == ys@.len(),
            forall|i: int| 0 <= i < xs@.len() ==> model.accepts(#[trigger] xs@[i]@, ys@[i]@),
            dummy_grads@.fits(model.shape()),
            total_loss == model.losses_summed(xs@, ys@, i as nat),
        decreases xs@.len() - i,
    {
        let ghost before = dummy_grads@;
        dummy_grads.zero();
        assert forall|l: int| 0 <= l < dummy_grads@.blocks.len() implies (
        #[trigger] dummy_grads@.blocks[l]).fits(model.shape().d, model.shape().ffn) by {
            assert(before.blocks[l].fits(model.shape().d, model.shape().ffn));
        }
        assert(model.accepts(xs@[i as int]@, ys@[i as int]@));
        let loss = model.forward_backward_sequence(
            xs[i].as_slice(),
            ys[i].as_slice(),
            &mut dummy_grads,
        );
        total_loss = A::plus(total_loss, loss);
        i += 1;
    }
    total_loss
}

/// The mean loss and the BPC on the windows that the validation draws.
#[verifier::opaque]
pub open spec fn is_transformer_validation<A: Arith>(
    model: TransformerModel<A>,
    data: Seq<u8>,
    num_batches: nat,
    seq_len: nat,
    r: (A::T, A::T),
) -> bool {
    exists|xs: Seq<Vec<usize>>, ys: Seq<Vec<usize>>|
        windows_from_seed(999, data, seq_len, num_batches, xs, ys) && r == mean_and_bpc::<A>(
            #[trigger] model.losses_summed(xs, ys, num_batches),
            (num_batches * seq_len) as usize,
        )
}

/// Evaluate Transformer validation BPC, on windows of the data that are drawn anew from the same
/// seed every time.
pub fn evaluate_transformer_bpc<A: Arith>(
    model: &TransformerModel<A>,
    val_data: &[u8],
    num_batches: usize,
    seq_len: usize,
) -> (r: (A::T, A::T))
    requires
        lawful::<A>(),
        model.can_train(),
        num_batches > 0 ==> forall|i: int|
            0 <= i < val_data@.len() ==> #[trigger] val_data@[i] < model.vocab_size,
        num_batches > 0 ==> seq_len <= model.max_seq_len,
        num_batches > 0 ==> val_data@.len() >= seq_len + 1,
        num_batches * seq_len <= usize::MAX,
    ensures
        is_transformer_validation::<A>(*model, val_data@, num_batches as nat, seq_len as nat, r),
{
    reveal(is_transformer_validation);
    let mut rng = seeded(999);
    let ghost first = rng;
    let (xs, ys) = sample_windows(val_data, num_batches, seq_len, &mut rng);
    proof {
        windows_lie_in_the_data(first, val_data@, seq_len as nat, xs@, ys@, rng);
        assert(windows_from_seed(
            999,
            val_data@,
            seq_len as nat,
            num_batches as nat,
            xs@,
            ys@,
        ));
    }
    assert forall|i: int| 0 <= i < xs@.len() implies model.accepts(
        #[trigger] xs@[i]@,
        ys@[i]@,
    ) by {
        assert(is_batch_row(val_data@, seq_len as nat, xs@[i]@, ys@[i]@));
    }
    let total = evaluate_transformer_sequences(model, xs.as_slice(), ys.as_slice());
    assert(total == model.losses_summed(xs@, ys@, num_batches as nat));
    summarize::<A>(total, num_batches * seq_len)
}

} // verus!
