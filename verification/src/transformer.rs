//! Standard 4-Layer Causal Transformer Baseline with Full Serial Depth Backpropagation.

use vstd::prelude::*;
use crate::activations::{gelu, gelu_of};
use crate::arith::{
    Arith, lawful, one, s_count, s_lit, s_minus, s_over, s_plus, s_powi, s_sqrt, s_tanh, s_times,
    zero,
};
use crate::layer::{vec_add, zero_vec};
use crate::matvec::{lemma_zip_summed, matvec_of, summed, zip_summed};
use crate::rng::{WeightDraw, WeightSource, drawn_from_seed, scale_for, weight_scale};
use crate::softmax::{softmax, softmax_of};
use crate::tensor::{add_scaled, dot, dot_of, scaled, vec_add_scaled, vec_scale, vec_zero, zeros};
use crate::vectors::{all_of_len, mul_vec, rows_in, sum_vec};

verus! {

/// Gradients for a single Transformer block.
#[derive(Debug, Clone)]
pub struct TransformerBlockGrads<A: Arith> {
    /// (d x d)
    pub grad_wq: Vec<A::T>,
    /// (d x d)
    pub grad_wk: Vec<A::T>,
    /// (d x d)
    pub grad_wv: Vec<A::T>,
    /// (d x d)
    pub grad_wo: Vec<A::T>,
    /// (d_ffn x d)
    pub grad_w1: Vec<A::T>,
    /// (d x d_ffn)
    pub grad_w2: Vec<A::T>,
}

/// The values of all parameters of a block, or of their gradients.
pub struct BlockValues<T> {
    pub wq: Seq<T>,
    pub wk: Seq<T>,
    pub wv: Seq<T>,
    pub wo: Seq<T>,
    pub w1: Seq<T>,
    pub w2: Seq<T>,
}

impl<A: Arith> View for TransformerBlockGrads<A> {
    type V = BlockValues<A::T>;

    open spec fn view(&self) -> BlockValues<A::T> {
        BlockValues {
            wq: self.grad_wq@,
            wk: self.grad_wk@,
            wv: self.grad_wv@,
            wo: self.grad_wo@,
            w1: self.grad_w1@,
            w2: self.grad_w2@,
        }
    }
}

impl<T> BlockValues<T> {
    /// The values are those of a block of these dimensions.
    pub open spec fn fits(&self, d: nat, ffn: nat) -> bool {
        &&& self.wq.len() == d * d
        &&& self.wk.len() == d * d
        &&& self.wv.len() == d * d
        &&& self.wo.len() == d * d
        &&& self.w1.len() == ffn * d
        &&& self.w2.len() == d * ffn
    }

    /// Each part is as long as its counterpart.
    pub open spec fn same_sizes(&self, other: BlockValues<T>) -> bool {
        &&& self.wq.len() == other.wq.len()
        &&& self.wk.len() == other.wk.len()
        &&& self.wv.len() == other.wv.len()
        &&& self.wo.len() == other.wo.len()
        &&& self.w1.len() == other.w1.len()
        &&& self.w2.len() == other.w2.len()
    }

    /// Zeros in place of all values.
    pub open spec fn cleared<A: Arith<T = T>>(&self) -> BlockValues<T> {
        BlockValues {
            wq: zeros::<A>(self.wq.len()),
            wk: zeros::<A>(self.wk.len()),
            wv: zeros::<A>(self.wv.len()),
            wo: zeros::<A>(self.wo.len()),
            w1: zeros::<A>(self.w1.len()),
            w2: zeros::<A>(self.w2.len()),
        }
    }

    /// The sums of the values and their counterparts.
    pub open spec fn plus<A: Arith<T = T>>(&self, other: BlockValues<T>) -> BlockValues<T> {
        BlockValues {
            wq: summed::<A>(self.wq, other.wq),
            wk: summed::<A>(self.wk, other.wk),
            wv: summed::<A>(self.wv, other.wv),
            wo: summed::<A>(self.wo, other.wo),
            w1: summed::<A>(self.w1, other.w1),
            w2: summed::<A>(self.w2, other.w2),
        }
    }

    /// The sums of the values and their counterparts, as far as both go.
    pub open spec fn zip_plus<A: Arith<T = T>>(&self, other: BlockValues<T>) -> BlockValues<T> {
        BlockValues {
            wq: zip_summed::<A>(self.wq, other.wq),
            wk: zip_summed::<A>(self.wk, other.wk),
            wv: zip_summed::<A>(self.wv, other.wv),
            wo: zip_summed::<A>(self.wo, other.wo),
            w1: zip_summed::<A>(self.w1, other.w1),
            w2: zip_summed::<A>(self.w2, other.w2),
        }
    }

    /// Values of the same sizes are added as a whole.
    pub proof fn lemma_zip_plus<A: Arith<T = T>>(&self, other: BlockValues<T>)
        ensures
            self.same_sizes(other) ==> self.zip_plus::<A>(other) == self.plus::<A>(other),
    {
        lemma_zip_summed::<A>(self.wq, other.wq);
        lemma_zip_summed::<A>(self.wk, other.wk);
        lemma_zip_summed::<A>(self.wv, other.wv);
        lemma_zip_summed::<A>(self.wo, other.wo);
        lemma_zip_summed::<A>(self.w1, other.w1);
        lemma_zip_summed::<A>(self.w2, other.w2);
    }

    /// The values times `alpha`.
    pub open spec fn scaled<A: Arith<T = T>>(&self, alpha: T) -> BlockValues<T> {
        BlockValues {
            wq: scaled::<A>(self.wq, alpha),
            wk: scaled::<A>(self.wk, alpha),
            wv: scaled::<A>(self.wv, alpha),
            wo: scaled::<A>(self.wo, alpha),
            w1: scaled::<A>(self.w1, alpha),
            w2: scaled::<A>(self.w2, alpha),
        }
    }
}

/// No gradients of a block.
pub open spec fn no_block_grads<A: Arith>(d: nat, ffn: nat) -> BlockValues<A::T> {
    BlockValues {
        wq: zeros::<A>(d * d),
        wk: zeros::<A>(d * d),
        wv: zeros::<A>(d * d),
        wo: zeros::<A>(d * d),
        w1: zeros::<A>(ffn * d),
        w2: zeros::<A>(d * ffn),
    }
}

impl<A: Arith> TransformerBlockGrads<A> {
    pub fn new(d: usize, d_ffn: usize) -> (grads: Self)
        requires
            lawful::<A>(),
            d * d <= usize::MAX,
            d_ffn * d <= usize::MAX,
        ensures
            grads@ == no_block_grads::<A>(d as nat, d_ffn as nat),
            grads@.fits(d as nat, d_ffn as nat),
    {
        assert(d * d_ffn == d_ffn * d) by (nonlinear_arith);
        Self {
            grad_wq: zero_vec::<A>(d * d),
            grad_wk: zero_vec::<A>(d * d),
            grad_wv: zero_vec::<A>(d * d),
            grad_wo: zero_vec::<A>(d * d),
            grad_w1: zero_vec::<A>(d_ffn * d),
            grad_w2: zero_vec::<A>(d * d_ffn),
        }
    }

    pub fn zero(&mut self)
        requires
            lawful::<A>(),
        ensures
            final(self)@ == old(self)@.cleared::<A>(),
    {
        vec_zero::<A>(self.grad_wq.as_mut_slice());
        vec_zero::<A>(self.grad_wk.as_mut_slice());
        vec_zero::<A>(self.grad_wv.as_mut_slice());
        vec_zero::<A>(self.grad_wo.as_mut_slice());
        vec_zero::<A>(self.grad_w1.as_mut_slice());
        vec_zero::<A>(self.grad_w2.as_mut_slice());
    }

    pub fn add(&mut self, other: &TransformerBlockGrads<A>)
        requires
            lawful::<A>(),
        ensures
            final(self)@ == old(self)@.zip_plus::<A>(other@),
            old(self)@.same_sizes(other@) ==> final(self)@ == old(self)@.plus::<A>(other@),
    {
        vec_add::<A>(self.grad_wq.as_mut_slice(), other.grad_wq.as_slice());
        vec_add::<A>(self.grad_wk.as_mut_slice(), other.grad_wk.as_slice());
        vec_add::<A>(self.grad_wv.as_mut_slice(), other.grad_wv.as_slice());
        vec_add::<A>(self.grad_wo.as_mut_slice(), other.grad_wo.as_slice());
        vec_add::<A>(self.grad_w1.as_mut_slice(), other.grad_w1.as_slice());
        vec_add::<A>(self.grad_w2.as_mut_slice(), other.grad_w2.as_slice());
    }

    /// Multiply all gradients by `alpha`.
    pub fn scale(&mut self, alpha: A::T)
        requires
            lawful::<A>(),
        ensures
            final(self)@ == old(self)@.scaled::<A>(alpha),
    {
        vec_scale::<A>(self.grad_wq.as_mut_slice(), alpha);
        vec_scale::<A>(self.grad_wk.as_mut_slice(), alpha);
        vec_scale::<A>(self.grad_wv.as_mut_slice(), alpha);
        vec_scale::<A>(self.grad_wo.as_mut_slice(), alpha);
        vec_scale::<A>(self.grad_w1.as_mut_slice(), alpha);
        vec_scale::<A>(self.grad_w2.as_mut_slice(), alpha);
    }
}

/// Gradients for full Transformer Model.
#[derive(Debug, Clone)]
pub struct TransformerGrads<A: Arith> {
    pub grad_embed: Vec<A::T>,
    pub grad_pos_embed: Vec<A::T>,
    pub block_grads: Vec<TransformerBlockGrads<A>>,
    pub grad_head: Vec<A::T>,
}

/// The values of all parameters, or of the gradients of all parameters.
pub struct TransformerValues<T> {
    pub embed: Seq<T>,
    pub pos_embed: Seq<T>,
    pub blocks: Seq<BlockValues<T>>,
    pub head: Seq<T>,
}

/// The gradients of the blocks.
pub open spec fn block_views<A: Arith>(grads: Seq<TransformerBlockGrads<A>>) -> Seq<
    BlockValues<A::T>,
> {
    Seq::new(grads.len(), |l: int| grads[l]@)
}

impl<A: Arith> View for TransformerGrads<A> {
    type V = TransformerValues<A::T>;

    open spec fn view(&self) -> TransformerValues<A::T> {
        TransformerValues {
            embed: self.grad_embed@,
            pos_embed: self.grad_pos_embed@,
            blocks: block_views(self.block_grads@),
            head: self.grad_head@,
        }
    }
}

/// The dimensions of a model.
pub struct TransformerShape {
    pub vocab: nat,
    pub d: nat,
    pub ffn: nat,
    pub max_seq_len: nat,
    pub n_layers: nat,
}

impl<T> TransformerValues<T> {
    /// The values are those of a model of these dimensions.
    pub open spec fn fits(&self, shape: TransformerShape) -> bool {
        &&& self.embed.len() == shape.vocab * shape.d
        &&& self.pos_embed.len() == shape.max_seq_len * shape.d
        &&& self.blocks.len() == shape.n_layers
        &&& forall|l: int|
            0 <= l < self.blocks.len() ==> (#[trigger] self.blocks[l]).fits(shape.d, shape.ffn)
        &&& self.head.len() == shape.vocab * shape.d
    }

    /// Each part is as long as its counterpart.
    pub open spec fn same_sizes(&self, other: TransformerValues<T>) -> bool {
        &&& self.embed.len() == other.embed.len()
        &&& self.pos_embed.len() == other.pos_embed.len()
        &&& self.blocks.len() == other.blocks.len()
        &&& forall|l: int|
            0 <= l < self.blocks.len() ==> (#[trigger] self.blocks[l]).same_sizes(other.blocks[l])
        &&& self.head.len() == other.head.len()
    }

    /// Zeros in place of all values.
    pub open spec fn cleared<A: Arith<T = T>>(&self) -> TransformerValues<T> {
        TransformerValues {
            embed: zeros::<A>(self.embed.len()),
            pos_embed: zeros::<A>(self.pos_embed.len()),
            blocks: Seq::new(self.blocks.len(), |l: int| self.blocks[l].cleared::<A>()),
            head: zeros::<A>(self.head.len()),
        }
    }

    /// The sums of the values and their counterparts.
    pub open spec fn plus<A: Arith<T = T>>(
        &self,
        other: TransformerValues<T>,
    ) -> TransformerValues<T> {
        TransformerValues {
            embed: summed::<A>(self.embed, other.embed),
            pos_embed: summed::<A>(self.pos_embed, other.pos_embed),
            blocks: Seq::new(
                self.blocks.len(),
                |l: int| self.blocks[l].plus::<A>(other.blocks[l]),
            ),
            head: summed::<A>(self.head, other.head),
        }
    }

    /// The sums of the values and their counterparts, as far as both go.
    pub open spec fn zip_plus<A: Arith<T = T>>(
        &self,
        other: TransformerValues<T>,
    ) -> TransformerValues<T> {
        TransformerValues {
            embed: zip_summed::<A>(self.embed, other.embed),
            pos_embed: zip_summed::<A>(self.pos_embed, other.pos_embed),
            blocks: Seq::new(
                self.blocks.len(),
                |l: int|
                    if l < other.blocks.len() {
                        self.blocks[l].zip_plus::<A>(other.blocks[l])
                    } else {
                        self.blocks[l]
                    },
            ),
            head: zip_summed::<A>(self.head, other.head),
        }
    }

    /// Values of the same sizes are added as a whole.
    pub proof fn lemma_zip_plus<A: Arith<T = T>>(&self, other: TransformerValues<T>)
        ensures
            self.same_sizes(other) ==> self.zip_plus::<A>(other) == self.plus::<A>(other),
    {
        if self.same_sizes(other) {
            lemma_zip_summed::<A>(self.embed, other.embed);
            lemma_zip_summed::<A>(self.pos_embed, other.pos_embed);
            lemma_zip_summed::<A>(self.head, other.head);
            assert forall|l: int| 0 <= l < self.blocks.len() implies #[trigger] self.zip_plus::<A>(
                other,
            ).blocks[l] == self.plus::<A>(other).blocks[l] by {
                assert(self.blocks[l].same_sizes(other.blocks[l]));
                self.blocks[l].lemma_zip_plus::<A>(other.blocks[l]);
            }
            assert(self.zip_plus::<A>(other).blocks =~= self.plus::<A>(other).blocks);
        }
    }

    /// The values times `alpha`.
    pub open spec fn scaled<A: Arith<T = T>>(&self, alpha: T) -> TransformerValues<T> {
        TransformerValues {
            embed: scaled::<A>(self.embed, alpha),
            pos_embed: scaled::<A>(self.pos_embed, alpha),
            blocks: Seq::new(self.blocks.len(), |l: int| self.blocks[l].scaled::<A>(alpha)),
            head: scaled::<A>(self.head, alpha),
        }
    }
}

/// No gradients of a model.
pub open spec fn no_transformer_grads<A: Arith>(shape: TransformerShape) -> TransformerValues<
    A::T,
> {
    TransformerValues {
        embed: zeros::<A>(shape.vocab * shape.d),
        pos_embed: zeros::<A>(shape.max_seq_len * shape.d),
        blocks: Seq::new(shape.n_layers, |l: int| no_block_grads::<A>(shape.d, shape.ffn)),
        head: zeros::<A>(shape.vocab * shape.d),
    }
}

impl<A: Arith> TransformerGrads<A> {
    pub fn new(
        vocab_size: usize,
        d_model: usize,
        max_seq_len: usize,
        n_layers: usize,
        d_ffn: usize,
    ) -> (grads: Self)
        requires
            lawful::<A>(),
            vocab_size * d_model <= usize::MAX,
            max_seq_len * d_model <= usize::MAX,
            d_model * d_model <= usize::MAX,
            d_ffn * d_model <= usize::MAX,
        ensures
            grads@ == no_transformer_grads::<A>(
                (TransformerShape {
                    vocab: vocab_size as nat,
                    d: d_model as nat,
                    ffn: d_ffn as nat,
                    max_seq_len: max_seq_len as nat,
                    n_layers: n_layers as nat,
                }),
            ),
    {
        let ghost none = no_block_grads::<A>(d_model as nat, d_ffn as nat);
        let mut block_grads: Vec<TransformerBlockGrads<A>> = Vec::with_capacity(n_layers);
        let mut l: usize = 0;
        while l < n_layers
            invariant
                lawful::<A>(),
                l <= n_layers,
                d_model * d_model <= usize::MAX,
                d_ffn * d_model <= usize::MAX,
                none == no_block_grads::<A>(d_model as nat, d_ffn as nat),
                block_grads@.len() == l,
                forall|k: int| 0 <= k < l ==> (#[trigger] block_grads@[k])@ == none,
            decreases n_layers - l,
        {
            block_grads.push(TransformerBlockGrads::new(d_model, d_ffn));
            l += 1;
        }
        assert(block_views(block_grads@) =~= Seq::new(n_layers as nat, |l: int| none));
        Self {
            grad_embed: zero_vec::<A>(vocab_size * d_model),
            grad_pos_embed: zero_vec::<A>(max_seq_len * d_model),
            block_grads,
            grad_head: zero_vec::<A>(vocab_size * d_model),
        }
    }

    pub fn zero(&mut self)
        requires
            lawful::<A>(),
        ensures
            final(self)@ == old(self)@.cleared::<A>(),
    {
        let ghost before = self@;
        vec_zero::<A>(self.grad_embed.as_mut_slice());
        vec_zero::<A>(self.grad_pos_embed.as_mut_slice());
        let n: usize = self.block_grads.len();
        let mut l: usize = 0;
        while l < n
            invariant
                lawful::<A>(),
                l <= n,
                self.block_grads@.len() == n,
                before.blocks.len() == n,
                self@.embed == zeros::<A>(before.embed.len()),
                self@.pos_embed == zeros::<A>(before.pos_embed.len()),
                self@.head == before.head,
                forall|k: int|
                    0 <= k < l ==> (#[trigger] self.block_grads@[k])@ == before.blocks[k].cleared::<
                        A,
                    >(),
                forall|k: int|
                    l <= k < n ==> (#[trigger] self.block_grads@[k])@ == before.blocks[k],
            decreases n - l,
        {
            self.block_grads[l].zero();
            l += 1;
        }
        vec_zero::<A>(self.grad_head.as_mut_slice());
        assert(self@.blocks =~= before.cleared::<A>().blocks);
    }

    pub fn add(&mut self, other: &TransformerGrads<A>)
        requires
            lawful::<A>(),
        ensures
            final(self)@ == old(self)@.zip_plus::<A>(other@),
            old(self)@.same_sizes(other@) ==> final(self)@ == old(self)@.plus::<A>(other@),
    {
        let ghost before = self@;
        vec_add::<A>(self.grad_embed.as_mut_slice(), other.grad_embed.as_slice());
        vec_add::<A>(self.grad_pos_embed.as_mut_slice(), other.grad_pos_embed.as_slice());
        let n: usize = if self.block_grads.len() < other.block_grads.len() {
            self.block_grads.len()
        } else {
            other.block_grads.len()
        };
        let mut l: usize = 0;
        while l < n
            invariant
                lawful::<A>(),
                l <= n,
                n <= self.block_grads@.len(),
                n <= other.block_grads@.len(),
                n == self.block_grads@.len() || n == other.block_grads@.len(),
                self.block_grads@.len() == before.blocks.len(),
                self@.embed == zip_summed::<A>(before.embed, other@.embed),
                self@.pos_embed == zip_summed::<A>(before.pos_embed, other@.pos_embed),
                self@.head == before.head,
                forall|k: int|
                    0 <= k < l ==> (#[trigger] self.block_grads@[k])@ == before.blocks[k].zip_plus::<
                        A,
                    >(other@.blocks[k]),
                forall|k: int|
                    l <= k < before.blocks.len() ==> (#[trigger] self.block_grads@[k])@
                        == before.blocks[k],
            decreases n - l,
        {
            self.block_grads[l].add(&other.block_grads[l]);
            l += 1;
        }
        vec_add::<A>(self.grad_head.as_mut_slice(), other.grad_head.as_slice());
        assert(self@.blocks =~= before.zip_plus::<A>(other@).blocks);
        proof {
            before.lemma_zip_plus::<A>(other@);
        }
    }

    /// Multiply all gradients by `alpha`.
    pub fn scale(&mut self, alpha: A::T)
        requires
            lawful::<A>(),
        ensures
            final(self)@ == old(self)@.scaled::<A>(alpha),
    {
        let ghost before = self@;
        vec_scale::<A>(self.grad_embed.as_mut_slice(), alpha);
        vec_scale::<A>(self.grad_pos_embed.as_mut_slice(), alpha);
        let n: usize = self.block_grads.len();
        let mut l: usize = 0;
        while l < n
            invariant
                lawful::<A>(),
                l <= n,
                self.block_grads@.len() == n,
                before.blocks.len() == n,
                self@.embed == scaled::<A>(before.embed, alpha),
                self@.pos_embed == scaled::<A>(before.pos_embed, alpha),
                self@.head == before.head,
                forall|k: int|
                    0 <= k < l ==> (#[trigger] self.block_grads@[k])@ == before.blocks[k].scaled::<
                        A,
                    >(alpha),
                forall|k: int|
                    l <= k < n ==> (#[trigger] self.block_grads@[k])@ == before.blocks[k],
            decreases n - l,
        {
            self.block_grads[l].scale(alpha);
            l += 1;
        }
        vec_scale::<A>(self.grad_head.as_mut_slice(), alpha);
        assert(self@.blocks =~= before.scaled::<A>(alpha).blocks);
    }
}

/// Single Transformer Layer Block (Self-Attention + FFN + Residuals).
#[derive(Debug, Clone)]
pub struct TransformerBlock<A: Arith> {
    pub d_model: usize,
    pub d_ffn: usize,
    pub wq: Vec<A::T>,
    pub wk: Vec<A::T>,
    pub wv: Vec<A::T>,
    pub wo: Vec<A::T>,
    pub w1: Vec<A::T>,
    pub w2: Vec<A::T>,
}

/// The activations of a block over a sequence.
pub struct BlockTrace<A: Arith> {
    pub q: Vec<Vec<A::T>>,
    pub k: Vec<Vec<A::T>>,
    pub v: Vec<Vec<A::T>>,
    /// The attention of each position to the positions up to it.
    pub weights: Vec<Vec<A::T>>,
    pub attn_out: Vec<Vec<A::T>>,
    pub mid: Vec<Vec<A::T>>,
    pub ffn_raw: Vec<Vec<A::T>>,
    pub ffn_act: Vec<Vec<A::T>>,
    pub out: Vec<Vec<A::T>>,
}

/// The gradients of the attention of a block, and the gradients at its inputs.
pub struct AttnBack<T> {
    pub wq: Seq<T>,
    pub wk: Seq<T>,
    pub wv: Seq<T>,
    pub wo: Seq<T>,
    pub delta_in: Seq<Seq<T>>,
}

/// The GELUs of the elements of a vector.
pub open spec fn gelu_all<A: Arith>(x: Seq<A::T>) -> Seq<A::T> {
    Seq::new(x.len(), |i: int| gelu_of::<A>(x[i]))
}

/// The slope of GELU at `x`.
pub open spec fn gelu_slope<A: Arith>(x: A::T) -> A::T {
    let half = s_lit::<A>(5, 1);
    let c = s_lit::<A>(79788456, 8);
    let k = s_lit::<A>(44715, 6);
    let t = s_tanh::<A>(
        s_times::<A>(c, s_plus::<A>(x, s_times::<A>(k, s_powi::<A>(x, 3)))),
    );
    let sech2 = s_minus::<A>(one::<A>(), s_times::<A>(t, t));
    s_plus::<A>(
        s_times::<A>(half, s_plus::<A>(one::<A>(), t)),
        s_times::<A>(
            s_times::<A>(s_times::<A>(s_times::<A>(half, x), sech2), c),
            s_plus::<A>(
                one::<A>(),
                s_times::<A>(s_times::<A>(s_times::<A>(s_lit::<A>(3, 0), k), x), x),
            ),
        ),
    )
}

/// The gradients before the GELUs.
pub open spec fn gelu_back<A: Arith>(raw: Seq<A::T>, d_act: Seq<A::T>) -> Seq<A::T> {
    Seq::new(d_act.len(), |i: int| s_times::<A>(d_act[i], gelu_slope::<A>(raw[i])))
}

/// The factor of the attention scores: 1 / sqrt(d)
pub open spec fn attention_scale<A: Arith>(d: usize) -> A::T {
    s_over::<A>(one::<A>(), s_sqrt::<A>(s_count::<A>(d)))
}

/// The scores of a query against the first `n` keys.
pub open spec fn attention_scores<A: Arith>(
    query: Seq<A::T>,
    keys: Seq<Seq<A::T>>,
    scale: A::T,
    n: nat,
) -> Seq<A::T> {
    Seq::new(n, |j: int| s_times::<A>(dot_of::<A>(query, keys[j]), scale))
}

/// The first `n` rows, each times its weight, added up from zero.
pub open spec fn weighted_sum<A: Arith>(
    d: nat,
    rows: Seq<Seq<A::T>>,
    weights: Seq<A::T>,
    n: nat,
) -> Seq<A::T>
    decreases n,
{
    if n == 0 {
        zeros::<A>(d)
    } else {
        add_scaled::<A>(
            weighted_sum::<A>(d, rows, weights, (n - 1) as nat),
            rows[n - 1],
            weights[n - 1],
        )
    }
}

/// The scores of a query against the first `n` keys.
fn score_all<A: Arith>(query: &[A::T], keys: &Vec<Vec<A::T>>, scale: A::T, n: usize) -> (r: Vec<
    A::T,
>)
    requires
        lawful::<A>(),
        n <= keys@.len(),
        all_of_len(rows_in(keys@), query@.len()),
    ensures
        r@ == attention_scores::<A>(query@, rows_in(keys@), scale, n as nat),
        r@.len() == n,
{
    let mut r: Vec<A::T> = Vec::with_capacity(n);
    let ghost want = attention_scores::<A>(query@, rows_in(keys@), scale, n as nat);
    let mut j: usize = 0;
    while j < n
        invariant
            lawful::<A>(),
            j <= n,
            n <= keys@.len(),
            all_of_len(rows_in(keys@), query@.len()),
            want == attention_scores::<A>(query@, rows_in(keys@), scale, n as nat),
            r@ == want.take(j as int),
        decreases n - j,
    {
        assert(rows_in(keys@)[j as int].len() == query@.len());
        r.push(A::times(dot::<A>(query, keys[j].as_slice()), scale));
        j += 1;
        assert(r@ =~= want.take(j as int));
    }
    assert(r@ =~= want);
    r
}

/// The first `n` rows, each times its weight, added up from zero.
pub(crate) fn mix<A: Arith>(d: usize, rows: &Vec<Vec<A::T>>, weights: &[A::T], n: usize) -> (out:
    Vec<A::T>)
    requires
        lawful::<A>(),
        n <= rows@.len(),
        n <= weights@.len(),
        all_of_len(rows_in(rows@), d as nat),
    ensures
        out@ == weighted_sum::<A>(d as nat, rows_in(rows@), weights@, n as nat),
        out@.len() == d,
{
    let mut out = zero_vec::<A>(d);
    let mut j: usize = 0;
    while j < n
        invariant
            lawful::<A>(),
            j <= n,
            n <= rows@.len(),
            n <= weights@.len(),
            all_of_len(rows_in(rows@), d as nat),
            out@ == weighted_sum::<A>(d as nat, rows_in(rows@), weights@, j as nat),
            out@.len() == d,
        decreases n - j,
    {
        assert(rows_in(rows@)[j as int].len() == d);
        vec_add_scaled::<A>(out.as_mut_slice(), rows[j].as_slice(), weights[j]);
        j += 1;
    }
    out
}

impl<A: Arith> TransformerBlock<A> {
    /// The weights are as large as the dimensions say.
    pub open spec fn wf(&self) -> bool {
        self.values().fits(self.d_model as nat, self.d_ffn as nat)
    }

    /// The parameters.
    pub open spec fn values(&self) -> BlockValues<A::T> {
        BlockValues {
            wq: self.wq@,
            wk: self.wk@,
            wv: self.wv@,
            wo: self.wo@,
            w1: self.w1@,
            w2: self.w2@,
        }
    }

    /// The weights are those that the generator of the seed draws, one matrix after another, each
    /// on the scale of what it is applied to.
    pub open spec fn is_drawn(&self, seed: u64) -> bool {
        let scale = weight_scale::<A>(1, self.d_model);
        drawn_from_seed::<A>(
            seed,
            seq![
                WeightDraw { weights: self.wq@, scale },
                WeightDraw { weights: self.wk@, scale },
                WeightDraw { weights: self.wv@, scale },
                WeightDraw { weights: self.wo@, scale },
                WeightDraw { weights: self.w1@, scale },
                WeightDraw { weights: self.w2@, scale: weight_scale::<A>(1, self.d_ffn) },
            ],
        )
    }

    /// A block with weights drawn from the generator of a seed.
    pub fn new(d: usize, d_ffn: usize, seed: u64) -> (block: Self)
        requires
            lawful::<A>(),
            d * d <= usize::MAX,
            d_ffn * d <= usize::MAX,
        ensures
            block.wf(),
            block.d_model == d,
            block.d_ffn == d_ffn,
            block.is_drawn(seed),
    {
        assert(d_ffn * d == d * d_ffn) by (nonlinear_arith);
        let mut source = WeightSource::<A>::new(seed);
        let scale_d = scale_for::<A>(1, d);
        let scale_ffn = scale_for::<A>(1, d_ffn);
        let wq = source.draw(scale_d, d * d);
        let wk = source.draw(scale_d, d * d);
        let wv = source.draw(scale_d, d * d);
        let wo = source.draw(scale_d, d * d);
        let w1 = source.draw(scale_d, d_ffn * d);
        let w2 = source.draw(scale_ffn, d * d_ffn);
        proof {
            source.lemma_drawn(seed);
            assert(source.parts() =~= seq![
                WeightDraw { weights: wq@, scale: scale_d },
                WeightDraw { weights: wk@, scale: scale_d },
                WeightDraw { weights: wv@, scale: scale_d },
                WeightDraw { weights: wo@, scale: scale_d },
                WeightDraw { weights: w1@, scale: scale_d },
                WeightDraw { weights: w2@, scale: scale_ffn },
            ]);
        }
        Self { d_model: d, d_ffn, wq, wk, wv, wo, w1, w2 }
    }

    pub open spec fn query(&self, h: Seq<A::T>) -> Seq<A::T> {
        matvec_of::<A>(self.wq@, self.d_model as nat, h)
    }

    pub open spec fn key(&self, h: Seq<A::T>) -> Seq<A::T> {
        matvec_of::<A>(self.wk@, self.d_model as nat, h)
    }

    pub open spec fn value(&self, h: Seq<A::T>) -> Seq<A::T> {
        matvec_of::<A>(self.wv@, self.d_model as nat, h)
    }

    /// The queries of a sequence.
    pub open spec fn queries(&self, hs: Seq<Seq<A::T>>) -> Seq<Seq<A::T>> {
        Seq::new(hs.len(), |i: int| self.query(hs[i]))
    }

    /// The keys of a sequence.
    pub open spec fn keys(&self, hs: Seq<Seq<A::T>>) -> Seq<Seq<A::T>> {
        Seq::new(hs.len(), |i: int| self.key(hs[i]))
    }

    /// The values of a sequence.
    pub open spec fn values_of(&self, hs: Seq<Seq<A::T>>) -> Seq<Seq<A::T>> {
        Seq::new(hs.len(), |i: int| self.value(hs[i]))
    }

    /// How much position `i` attends to the positions up to it.
    pub open spec fn attention(&self, hs: Seq<Seq<A::T>>, i: int) -> Seq<A::T> {
        softmax_of::<A>(
            attention_scores::<A>(
                self.query(hs[i]),
                self.keys(hs),
                attention_scale::<A>(self.d_model),
                (i + 1) as nat,
            ),
        )
    }

    /// What position `i` gets from its attention.
    pub open spec fn attn_out_of(&self, hs: Seq<Seq<A::T>>, i: int) -> Seq<A::T> {
        weighted_sum::<A>(
            self.d_model as nat,
            self.values_of(hs),
            self.attention(hs, i),
            (i + 1) as nat,
        )
    }

    /// mid_h = in_h + W_o * attn_out
    pub open spec fn mid_of(&self, hs: Seq<Seq<A::T>>, i: int) -> Seq<A::T> {
        summed::<A>(
            hs[i],
            matvec_of::<A>(self.wo@, self.d_model as nat, self.attn_out_of(hs, i)),
        )
    }

    pub open spec fn ffn_raw_of(&self, hs: Seq<Seq<A::T>>, i: int) -> Seq<A::T> {
        matvec_of::<A>(self.w1@, self.d_ffn as nat, self.mid_of(hs, i))
    }

    pub open spec fn ffn_act_of(&self, hs: Seq<Seq<A::T>>, i: int) -> Seq<A::T> {
        gelu_all::<A>(self.ffn_raw_of(hs, i))
    }

    /// out_h = mid_h + W2 * gelu(W1 * mid_h)
    pub open spec fn out_of(&self, hs: Seq<Seq<A::T>>, i: int) -> Seq<A::T> {
        summed::<A>(
            self.mid_of(hs, i),
            matvec_of::<A>(self.w2@, self.d_model as nat, self.ffn_act_of(hs, i)),
        )
    }

    /// The outputs of the block for a sequence.
    pub open spec fn outputs(&self, hs: Seq<Seq<A::T>>) -> Seq<Seq<A::T>> {
        Seq::new(hs.len(), |i: int| self.out_of(hs, i))
    }

    /// The activations of the block over a sequence.
    pub open spec fn traced(&self, hs: Seq<Seq<A::T>>, tr: BlockTrace<A>) -> bool {
        let n = hs.len();
        &&& rows_in(tr.q@) == self.queries(hs)
        &&& rows_in(tr.k@) == self.keys(hs)
        &&& rows_in(tr.v@) == self.values_of(hs)
        &&& rows_in(tr.weights@) == Seq::new(n, |i: int| self.attention(hs, i))
        &&& rows_in(tr.attn_out@) == Seq::new(n, |i: int| self.attn_out_of(hs, i))
        &&& rows_in(tr.mid@) == Seq::new(n, |i: int| self.mid_of(hs, i))
        &&& rows_in(tr.ffn_raw@) == Seq::new(n, |i: int| self.ffn_raw_of(hs, i))
        &&& rows_in(tr.ffn_act@) == Seq::new(n, |i: int| self.ffn_act_of(hs, i))
        &&& rows_in(tr.out@) == self.outputs(hs)
    }

    /// The queries, keys and values of a sequence.
    fn project_all(&self, hs: &Vec<Vec<A::T>>) -> (r: (
        Vec<Vec<A::T>>,
        Vec<Vec<A::T>>,
        Vec<Vec<A::T>>,
    ))
        requires
            lawful::<A>(),
            self.wf(),
            all_of_len(rows_in(hs@), self.d_model as nat),
        ensures
            rows_in(r.0@) == self.queries(rows_in(hs@)),
            rows_in(r.1@) == self.keys(rows_in(hs@)),
            rows_in(r.2@) == self.values_of(rows_in(hs@)),
    {
        let d: usize = self.d_model;
        let n: usize = hs.len();
        let ghost h = rows_in(hs@);
        let mut q: Vec<Vec<A::T>> = Vec::with_capacity(n);
        let mut k: Vec<Vec<A::T>> = Vec::with_capacity(n);
        let mut v: Vec<Vec<A::T>> = Vec::with_capacity(n);
        // Compute Q, K, V
        let mut t: usize = 0;
        while t < n
            invariant
                lawful::<A>(),
                self.wf(),
                d == self.d_model,
                t <= n,
                n == hs@.len(),
                h == rows_in(hs@),
                all_of_len(h, d as nat),
                rows_in(q@) == Seq::new(t as nat, |i: int| self.query(h[i])),
                rows_in(k@) == Seq::new(t as nat, |i: int| self.key(h[i])),
                rows_in(v@) == Seq::new(t as nat, |i: int| self.value(h[i])),
            decreases n - t,
        {
            assert(h[t as int].len() == d);
            let ghost (q0, k0, v0) = (q@, k@, v@);
            q.push(mul_vec::<A>(self.wq.as_slice(), d, hs[t].as_slice()));
            k.push(mul_vec::<A>(self.wk.as_slice(), d, hs[t].as_slice()));
            v.push(mul_vec::<A>(self.wv.as_slice(), d, hs[t].as_slice()));
            t += 1;
            proof {
                lemma_push_row(q0, q@.last());
                lemma_push_row(k0, k@.last());
                lemma_push_row(v0, v@.last());
                assert(q@ =~= q0.push(q@.last()));
                assert(k@ =~= k0.push(k@.last()));
                assert(v@ =~= v0.push(v@.last()));
                assert(rows_in(q@) =~= Seq::new(t as nat, |i: int| self.query(h[i])));
                assert(rows_in(k@) =~= Seq::new(t as nat, |i: int| self.key(h[i])));
                assert(rows_in(v@) =~= Seq::new(t as nat, |i: int| self.value(h[i])));
            }
        }
        assert(rows_in(q@) =~= self.queries(h));
        assert(rows_in(k@) =~= self.keys(h));
        assert(rows_in(v@) =~= self.values_of(h));
        (q, k, v)
    }

    /// Forward over a sequence, without the activations.
    pub fn run(&self, hs: &Vec<Vec<A::T>>) -> (out: Vec<Vec<A::T>>)
        requires
            lawful::<A>(),
            self.wf(),
            all_of_len(rows_in(hs@), self.d_model as nat),
        ensures
            rows_in(out@) == self.outputs(rows_in(hs@)),
            out@.len() == hs@.len(),
            all_of_len(rows_in(out@), self.d_model as nat),
    {
        let n: usize = hs.len();
        let ghost h = rows_in(hs@);
        let (q, k, v) = self.project_all(hs);
        let mut out: Vec<Vec<A::T>> = Vec::with_capacity(n);
        let mut i: usize = 0;
        while i < n
            invariant
                lawful::<A>(),
                self.wf(),
                i <= n,
                n == hs@.len(),
                h == rows_in(hs@),
                all_of_len(h, self.d_model as nat),
                rows_in(q@) == self.queries(h),
                rows_in(k@) == self.keys(h),
                rows_in(v@) == self.values_of(h),
                out@.len() == i,
                rows_in(out@) == Seq::new(i as nat, |i: int| self.out_of(h, i)),
                all_of_len(rows_in(out@), self.d_model as nat),
            decreases n - i,
        {
            assert(h[i as int].len() == self.d_model);
            let ghost out0 = out@;
            let (_, a_i) = self.attend_at(&q, &k, &v, i, Ghost(h));
            let (_, _, _, o_i) = self.feed_forward(
                hs[i].as_slice(),
                a_i.as_slice(),
                i,
                Ghost(h),
            );
            proof {
                lemma_push_row(out0, o_i);
            }
            out.push(o_i);
            i += 1;
            assert(rows_in(out@) =~= Seq::new(i as nat, |i: int| self.out_of(h, i)));
        }
        assert(rows_in(out@) =~= self.outputs(h));
        out
    }

    /// Forward over a sequence, with all activations.
    pub fn forward(&self, hs: &Vec<Vec<A::T>>) -> (tr: BlockTrace<A>)
        requires
            lawful::<A>(),
            self.wf(),
            all_of_len(rows_in(hs@), self.d_model as nat),
        ensures
            self.traced(rows_in(hs@), tr),
            all_of_len(rows_in(tr.out@), self.d_model as nat),
    {
        let d: usize = self.d_model;
        let n: usize = hs.len();
        let ghost h = rows_in(hs@);
        let (q, k, v) = self.project_all(hs);
        let mut weights: Vec<Vec<A::T>> = Vec::with_capacity(n);
        let mut attn_out: Vec<Vec<A::T>> = Vec::with_capacity(n);
        let mut mid: Vec<Vec<A::T>> = Vec::with_capacity(n);
        let mut ffn_raw: Vec<Vec<A::T>> = Vec::with_capacity(n);
        let mut ffn_act: Vec<Vec<A::T>> = Vec::with_capacity(n);
        let mut out: Vec<Vec<A::T>> = Vec::with_capacity(n);
        let mut i: usize = 0;
        while i < n
            invariant
                lawful::<A>(),
                self.wf(),
                d == self.d_model,
                i <= n,
                n == hs@.len(),
                h == rows_in(hs@),
                all_of_len(h, d as nat),
                rows_in(q@) == self.queries(h),
                rows_in(k@) == self.keys(h),
                rows_in(v@) == self.values_of(h),
                rows_in(weights@) == Seq::new(i as nat, |i: int| self.attention(h, i)),
                rows_in(attn_out@) == Seq::new(i as nat, |i: int| self.attn_out_of(h, i)),
                rows_in(mid@) == Seq::new(i as nat, |i: int| self.mid_of(h, i)),
                rows_in(ffn_raw@) == Seq::new(i as nat, |i: int| self.ffn_raw_of(h, i)),
                rows_in(ffn_act@) == Seq::new(i as nat, |i: int| self.ffn_act_of(h, i)),
                rows_in(out@) == Seq::new(i as nat, |i: int| self.out_of(h, i)),
                all_of_len(rows_in(out@), d as nat),
            decreases n - i,
        {
            assert(h[i as int].len() == d);
            let ghost (weights0, attn0, mid0) = (weights@, attn_out@, mid@);
            let ghost (raw0, act0, out0) = (ffn_raw@, ffn_act@, out@);
            let (w_i, a_i) = self.attend_at(&q, &k, &v, i, Ghost(h));
            let (m_i, r_i, f_i, o_i) = self.feed_forward(
                hs[i].as_slice(),
                a_i.as_slice(),
                i,
                Ghost(h),
            );
            proof {
                lemma_push_row(weights0, w_i);
                lemma_push_row(attn0, a_i);
                lemma_push_row(mid0, m_i);
                lemma_push_row(raw0, r_i);
                lemma_push_row(act0, f_i);
                lemma_push_row(out0, o_i);
            }
            weights.push(w_i);
            attn_out.push(a_i);
            mid.push(m_i);
            ffn_raw.push(r_i);
            ffn_act.push(f_i);
            out.push(o_i);
            i += 1;
            proof {
                assert(rows_in(weights@) =~= Seq::new(i as nat, |i: int| self.attention(h, i)));
                assert(rows_in(attn_out@) =~= Seq::new(i as nat, |i: int| self.attn_out_of(h, i)));
                assert(rows_in(mid@) =~= Seq::new(i as nat, |i: int| self.mid_of(h, i)));
                assert(rows_in(ffn_raw@) =~= Seq::new(i as nat, |i: int| self.ffn_raw_of(h, i)));
                assert(rows_in(ffn_act@) =~= Seq::new(i as nat, |i: int| self.ffn_act_of(h, i)));
                assert(rows_in(out@) =~= Seq::new(i as nat, |i: int| self.out_of(h, i)));
            }
        }
        assert(rows_in(out@) =~= self.outputs(h));
        BlockTrace { q, k, v, weights, attn_out, mid, ffn_raw, ffn_act, out }
    }

    /// The attention of position `i` and what it gets from it.
    fn attend_at(
        &self,
        q: &Vec<Vec<A::T>>,
        k: &Vec<Vec<A::T>>,
        v: &Vec<Vec<A::T>>,
        i: usize,
        Ghost(hs): Ghost<Seq<Seq<A::T>>>,
    ) -> (r: (Vec<A::T>, Vec<A::T>))
        requires
            lawful::<A>(),
            i < hs.len(),
            rows_in(q@) == self.queries(hs),
            rows_in(k@) == self.keys(hs),
            rows_in(v@) == self.values_of(hs),
        ensures
            r.0@ == self.attention(hs, i as int),
            r.1@ == self.attn_out_of(hs, i as int),
            r.1@.len() == self.d_model,
    {
        proof {
            assert(rows_in(q@).len() == q@.len());
            assert(rows_in(k@).len() == k@.len());
            assert(rows_in(v@).len() == v@.len());
            assert(q.len() == q@.len());
            assert(rows_in(q@)[i as int] == q@[i as int]@);
            assert(self.queries(hs)[i as int] == self.query(hs[i as int]));
            assert forall|j: int| 0 <= j < hs.len() implies (#[trigger] rows_in(k@)[j]).len()
                == self.d_model by {
                assert(self.keys(hs)[j].len() == self.d_model);
            }
            assert forall|j: int| 0 <= j < hs.len() implies (#[trigger] rows_in(v@)[j]).len()
                == self.d_model by {
                assert(self.values_of(hs)[j].len() == self.d_model);
            }
        }
        let scale = A::over(A::lit(1, 0), A::sqrt(A::count(self.d_model)));
        // Stable softmax over 0..=i
        let scores = score_all::<A>(q[i].as_slice(), k, scale, i + 1);
        let mut probs = zero_vec::<A>(scores.len());
        softmax::<A>(scores.as_slice(), probs.as_mut_slice());
        let out = mix::<A>(self.d_model, v, probs.as_slice(), i + 1);
        (probs, out)
    }

    /// The rest of the block at position `i`: mid_h, W1 * mid_h, its GELU, and the output.
    fn feed_forward(
        &self,
        h_i: &[A::T],
        a_i: &[A::T],
        i: usize,
        Ghost(hs): Ghost<Seq<Seq<A::T>>>,
    ) -> (r: (Vec<A::T>, Vec<A::T>, Vec<A::T>, Vec<A::T>))
        requires
            lawful::<A>(),
            self.wf(),
            i < hs.len(),
            h_i@ == hs[i as int],
            h_i@.len() == self.d_model,
            a_i@ == self.attn_out_of(hs, i as int),
            a_i@.len() == self.d_model,
        ensures
            r.0@ == self.mid_of(hs, i as int),
            r.1@ == self.ffn_raw_of(hs, i as int),
            r.2@ == self.ffn_act_of(hs, i as int),
            r.3@ == self.out_of(hs, i as int),
            r.3@.len() == self.d_model,
    {
        let d: usize = self.d_model;
        let wo_out = mul_vec::<A>(self.wo.as_slice(), d, a_i);
        let mid = sum_vec::<A>(h_i, wo_out.as_slice());
        let raw = mul_vec::<A>(self.w1.as_slice(), self.d_ffn, mid.as_slice());
        let mut act = zero_vec::<A>(self.d_ffn);
        gelu::<A>(raw.as_slice(), act.as_mut_slice());
        assert(act@ =~= gelu_all::<A>(raw@));
        let ffn_out = mul_vec::<A>(self.w2.as_slice(), d, act.as_slice());
        let out = sum_vec::<A>(mid.as_slice(), ffn_out.as_slice());
        (mid, raw, act, out)
    }
}

/// A list of vectors with one more.
proof fn lemma_push_row<T>(v: Seq<Vec<T>>, row: Vec<T>)
    ensures
        rows_in(v.push(row)) == rows_in(v).push(row@),
{
    assert(rows_in(v.push(row)) =~= rows_in(v).push(row@));
}

} // verus!
