//! AXIOM Single-Layer Model container with token and positional embeddings,
//! associative memory, and Truncated BPTT within-layer autodiff.

use vstd::prelude::*;
use crate::arith::{Arith, lawful, one, s_exceeds, zero};
use crate::config::AxiomConfig;
use crate::hebbian::hebbian_of;
use crate::activations::mse_of;
use crate::buffer::pushed;
use crate::layer::{
    AxiomLayer, LayerValues, LayerGrads, LayerScratch, LayerState, LossWeights, SequenceCache,
    difference_taken, no_grads, residual_factor, vec_add, zero_vec,
};
use crate::matvec::{matvec, summed, zip_summed};
use crate::rng::{WeightDraw, WeightSource, drawn_from_seed, scale_for, weight_scale};
use crate::sequence::{Carried, row_at, write_row};
use crate::softmax::{cross_entropy_of, entropy_of, softmax_of};
use crate::tensor::{
    MatrixView, add_scaled, lemma_row_bounds, lemma_with_row, part_mut, row_of, scaled,
    vec_add_scaled, vec_copy, vec_scale, vec_zero, with_row, zeros,
};
use crate::arith::s_lit;

verus! {

/// A token with its position: Embed(token) + PosEmbed(pos), and the token alone behind the last
/// position that has an embedding.
pub open spec fn embedded<A: Arith>(
    embeddings: Seq<A::T>,
    pos_embeddings: Seq<A::T>,
    d: nat,
    max_seq_len: nat,
    token: int,
    pos: int,
) -> Seq<A::T> {
    if pos < max_seq_len {
        add_scaled::<A>(row_of(embeddings, d, token), row_of(pos_embeddings, d, pos), one::<A>())
    } else {
        row_of(embeddings, d, token)
    }
}

/// `data` with `delta` added to its row `r`.
pub open spec fn row_added<A: Arith>(
    data: Seq<A::T>,
    d: nat,
    r: int,
    delta: Seq<A::T>,
) -> Seq<A::T> {
    with_row(data, d, r, summed::<A>(row_of(data, d, r), delta))
}

/// Embed a token with its position.
pub(crate) fn embed_into<A: Arith>(
    embeddings: &[A::T],
    pos_embeddings: &[A::T],
    Ghost(vocab): Ghost<nat>,
    max_seq_len: usize,
    token: usize,
    pos: usize,
    out_h: &mut [A::T],
)
    requires
        lawful::<A>(),
        embeddings@.len() == vocab * old(out_h)@.len(),
        pos_embeddings@.len() == max_seq_len * old(out_h)@.len(),
        token < vocab,
    ensures
        final(out_h)@ == embedded::<A>(
            embeddings@,
            pos_embeddings@,
            old(out_h)@.len(),
            max_seq_len as nat,
            token as int,
            pos as int,
        ),
        final(out_h)@.len() == old(out_h)@.len(),
{
    let d: usize = out_h.len();
    proof {
        lemma_row_bounds(vocab, d as nat, token as int);
    }
    vec_copy(out_h, row_at(embeddings, d, token));
    if pos < max_seq_len {
        proof {
            lemma_row_bounds(max_seq_len as nat, d as nat, pos as int);
        }
        vec_add_scaled::<A>(out_h, row_at(pos_embeddings, d, pos), A::lit(1, 0));
    }
}

/// Add `delta` to row `r` of a matrix with `rows` rows.
pub(crate) fn add_to_row<A: Arith>(
    data: &mut [A::T],
    Ghost(rows): Ghost<nat>,
    r: usize,
    delta: &[A::T],
)
    requires
        lawful::<A>(),
        old(data)@.len() == rows * delta@.len(),
        r < rows,
    ensures
        final(data)@ == row_added::<A>(old(data)@, delta@.len(), r as int, delta@),
        final(data)@.len() == old(data)@.len(),
{
    let d: usize = delta.len();
    proof {
        lemma_row_bounds(rows, d as nat, r as int);
        assert(data.len() == data@.len());
        lemma_with_row(
            data@,
            rows,
            d as nat,
            r as int,
            summed::<A>(row_of(data@, d as nat, r as int), delta@),
        );
    }
    let start: usize = r * d;
    vec_add::<A>(part_mut(data, start, d), delta);
}

/// Full model gradients for a single-layer AXIOM model.
#[derive(Debug, Clone)]
pub struct ModelGrads<A: Arith> {
    pub grad_embeddings: Vec<A::T>,
    pub grad_pos_embeddings: Vec<A::T>,
    pub layer_grads: LayerGrads<A>,
}

/// One value for each parameter of a single-layer model.
pub struct ModelValues<T> {
    pub embeddings: Seq<T>,
    pub pos_embeddings: Seq<T>,
    pub layer: LayerValues<T>,
}

impl<A: Arith> View for ModelGrads<A> {
    type V = ModelValues<A::T>;

    open spec fn view(&self) -> ModelValues<A::T> {
        ModelValues {
            embeddings: self.grad_embeddings@,
            pos_embeddings: self.grad_pos_embeddings@,
            layer: self.layer_grads@,
        }
    }
}

impl<T> ModelValues<T> {
    /// The sizes of the gradients of a model of this configuration.
    pub open spec fn fits<A: Arith>(&self, config: AxiomConfig<A>, max_seq_len: nat) -> bool {
        &&& self.embeddings.len() == config.vocab_size * config.d_model
        &&& self.pos_embeddings.len() == max_seq_len * config.d_model
        &&& self.layer.fits(config)
    }

    /// These values and others are of the same sizes.
    pub open spec fn same_sizes(&self, other: ModelValues<T>) -> bool {
        &&& self.embeddings.len() == other.embeddings.len()
        &&& self.pos_embeddings.len() == other.pos_embeddings.len()
        &&& self.layer.same_sizes(other.layer)
    }

    /// The sums of these values and others.
    pub open spec fn plus<A: Arith<T = T>>(&self, other: ModelValues<T>) -> ModelValues<T> {
        ModelValues {
            embeddings: summed::<A>(self.embeddings, other.embeddings),
            pos_embeddings: summed::<A>(self.pos_embeddings, other.pos_embeddings),
            layer: self.layer.plus::<A>(other.layer),
        }
    }

    /// The sums of these values and others, as far as both go.
    pub open spec fn zip_plus<A: Arith<T = T>>(&self, other: ModelValues<T>) -> ModelValues<T> {
        ModelValues {
            embeddings: zip_summed::<A>(self.embeddings, other.embeddings),
            pos_embeddings: zip_summed::<A>(self.pos_embeddings, other.pos_embeddings),
            layer: self.layer.zip_plus::<A>(other.layer),
        }
    }

    /// Each value multiplied by `alpha`.
    pub open spec fn scaled<A: Arith<T = T>>(&self, alpha: T) -> ModelValues<T> {
        ModelValues {
            embeddings: scaled::<A>(self.embeddings, alpha),
            pos_embeddings: scaled::<A>(self.pos_embeddings, alpha),
            layer: self.layer.scaled::<A>(alpha),
        }
    }
}

/// The gradients of a model of this configuration, all zero.
pub open spec fn no_model_grads<A: Arith>(
    config: AxiomConfig<A>,
    max_seq_len: nat,
) -> ModelValues<A::T> {
    ModelValues {
        embeddings: zeros::<A>((config.vocab_size * config.d_model) as nat),
        pos_embeddings: zeros::<A>((max_seq_len * config.d_model) as nat),
        layer: no_grads::<A>(config),
    }
}

impl<A: Arith> ModelGrads<A> {
    pub fn new(config: &AxiomConfig<A>, max_seq_len: usize) -> (grads: Self)
        requires
            lawful::<A>(),
            config.d_model * (3 * config.d_model) <= usize::MAX,
            config.num_experts * config.d_model <= usize::MAX,
            config.d_ffn * config.d_model <= usize::MAX,
            config.vocab_size * config.d_model <= usize::MAX,
            max_seq_len * config.d_model <= usize::MAX,
        ensures
            grads@.fits(*config, max_seq_len as nat),
            grads@ == no_model_grads::<A>(*config, max_seq_len as nat),
    {
        Self {
            grad_embeddings: zero_vec::<A>(config.vocab_size * config.d_model),
            grad_pos_embeddings: zero_vec::<A>(max_seq_len * config.d_model),
            layer_grads: LayerGrads::new(config),
        }
    }

    pub fn zero(&mut self)
        requires
            lawful::<A>(),
        ensures
            final(self)@.embeddings == zeros::<A>(old(self)@.embeddings.len()),
            final(self)@.pos_embeddings == zeros::<A>(old(self)@.pos_embeddings.len()),
            final(self)@.layer == old(self)@.layer.cleared::<A>(),
    {
        vec_zero::<A>(self.grad_embeddings.as_mut_slice());
        vec_zero::<A>(self.grad_pos_embeddings.as_mut_slice());
        self.layer_grads.zero();
    }

    /// Multiply all gradients by `alpha`.
    pub fn scale(&mut self, alpha: A::T)
        requires
            lawful::<A>(),
        ensures
            final(self)@ == old(self)@.scaled::<A>(alpha),
    {
        vec_scale::<A>(self.grad_embeddings.as_mut_slice(), alpha);
        vec_scale::<A>(self.grad_pos_embeddings.as_mut_slice(), alpha);
        self.layer_grads.scale(alpha);
    }

    pub fn add(&mut self, other: &ModelGrads<A>)
        requires
            lawful::<A>(),
        ensures
            final(self)@ == old(self)@.zip_plus::<A>(other@),
            old(self)@.same_sizes(other@) ==> final(self)@ == old(self)@.plus::<A>(other@),
    {
        vec_add::<A>(self.grad_embeddings.as_mut_slice(), other.grad_embeddings.as_slice());
        vec_add::<A>(self.grad_pos_embeddings.as_mut_slice(), other.grad_pos_embeddings.as_slice());
        self.layer_grads.add(&other.layer_grads);
    }
}

/// Standalone Single-Layer AXIOM Sequence Model.
#[derive(Debug, Clone)]
pub struct AxiomSingleLayerModel<A: Arith> {
    pub config: AxiomConfig<A>,
    pub max_seq_len: usize,
    /// (vocab_size x d_model)
    pub embeddings: Vec<A::T>,
    /// (max_seq_len x d_model)
    pub pos_embeddings: Vec<A::T>,
    pub layer: AxiomLayer<A>,
}

/// The gradients and the temporal gradient after some steps of BPTT.
pub struct Bptt<T> {
    pub grads: ModelValues<T>,
    pub temporal: Seq<T>,
}

impl<A: Arith> AxiomSingleLayerModel<A> {
    /// The weights are as large as the configuration says, and the layer is of the same
    /// configuration.
    pub open spec fn wf(&self) -> bool {
        &&& self.embeddings@.len() == self.config.vocab_size * self.config.d_model
        &&& self.pos_embeddings@.len() == self.max_seq_len * self.config.d_model
        &&& self.layer.wf()
        &&& self.layer.config == self.config
    }

    /// A token with its position.
    pub open spec fn embed(&self, token: int, pos: int) -> Seq<A::T> {
        embedded::<A>(
            self.embeddings@,
            self.pos_embeddings@,
            self.config.d_model as nat,
            self.max_seq_len as nat,
            token,
            pos,
        )
    }

    /// The inputs of the layer for the tokens of a sequence.
    pub open spec fn inputs(&self, x: Seq<usize>) -> Seq<Seq<A::T>> {
        Seq::new(x.len(), |t: int| self.embed(x[t] as int, t))
    }

    /// The gradient at the input of a step, residual loss included.
    pub open spec fn input_gradient(
        &self,
        delta_hin: Seq<A::T>,
        h_in: Seq<A::T>,
        h_out: Seq<A::T>,
        lambda_residual: A::T,
    ) -> Seq<A::T> {
        if s_exceeds::<A>(lambda_residual, zero::<A>()) {
            difference_taken::<A>(
                delta_hin,
                residual_factor::<A>(lambda_residual, self.config.d_model),
                h_out,
                h_in,
            )
        } else {
            delta_hin
        }
    }

    /// The gradients with the gradient at the input of a step handed on to the embeddings of its
    /// token and of its position.
    pub open spec fn embedding_grads_added(
        &self,
        grads: ModelValues<A::T>,
        token: int,
        pos: int,
        delta: Seq<A::T>,
    ) -> ModelValues<A::T> {
        let d = self.config.d_model as nat;
        ModelValues {
            embeddings: row_added::<A>(grads.embeddings, d, token, delta),
            pos_embeddings: if pos < self.max_seq_len {
                row_added::<A>(grads.pos_embeddings, d, pos, delta)
            } else {
                grads.pos_embeddings
            },
            layer: grads.layer,
        }
    }

    /// The gradients after BPTT over the steps of a cached sequence from the last one down to
    /// `t`.
    pub open spec fn bptt(
        &self,
        x: Seq<usize>,
        cache: SequenceCache<A>,
        lambda: LossWeights<A::T>,
        grads: ModelValues<A::T>,
        t: int,
    ) -> Bptt<A::T>
        decreases x.len() - t,
    {
        if t < 0 || t >= x.len() {
            Bptt { grads, temporal: zeros::<A>(self.config.d_model as nat) }
        } else {
            let later = self.bptt(x, cache, lambda, grads, t + 1);
            let c = cache.step_at(self.config, t);
            let b = self.layer.backward_cached(
                c,
                cache.state_at(self.config, t),
                cache.state_at(self.config, t + 1),
                lambda,
                later.temporal,
                later.grads.layer,
            );
            let delta = self.input_gradient(b.delta_hin, c.h_in, c.h_out, lambda.residual);
            Bptt {
                grads: self.embedding_grads_added(
                    ModelValues { layer: b.grads, ..later.grads },
                    x[t] as int,
                    t,
                    delta,
                ),
                temporal: b.temporal,
            }
        }
    }

    /// The weights are those that the generator of the seed draws, one matrix after another, each
    /// on the scale of what it is applied to. The layer has the next seed.
    pub open spec fn is_drawn(&self, seed: u64) -> bool {
        let scale = weight_scale::<A>(1, self.config.d_model);
        &&& drawn_from_seed::<A>(
            seed,
            seq![
                WeightDraw { weights: self.embeddings@, scale },
                WeightDraw { weights: self.pos_embeddings@, scale },
            ],
        )
        &&& self.layer.is_drawn((seed + 1) as u64)
    }

    /// A model with weights drawn from the generator of a seed; the layer has the next seed.
    pub fn new(config: AxiomConfig<A>, max_seq_len: usize, seed: u64) -> (model: Self)
        requires
            lawful::<A>(),
            config.d_model * (3 * config.d_model) <= usize::MAX,
            config.num_experts * config.d_model <= usize::MAX,
            config.d_ffn * config.d_model <= usize::MAX,
            config.vocab_size * config.d_model <= usize::MAX,
            3 * config.d_model <= usize::MAX,
            max_seq_len * config.d_model <= usize::MAX,
            seed + 1 <= u64::MAX,
            config.num_experts > 0 ==> seed + 100 + config.num_experts <= u64::MAX,
        ensures
            model.config == config,
            model.max_seq_len == max_seq_len,
            model.is_drawn(seed),
            config.num_experts >= 2 ==> model.wf(),
            model.layer.is_sized(),
            model.layer.config == config,
            model.embeddings@.len() == config.vocab_size * config.d_model,
            model.pos_embeddings@.len() == max_seq_len * config.d_model,
    {
        let mut source = WeightSource::<A>::new(seed);
        let scale_embed = scale_for::<A>(1, config.d_model);
        let embeddings = source.draw(scale_embed, config.vocab_size * config.d_model);
        let pos_embeddings = source.draw(scale_embed, max_seq_len * config.d_model);
        let layer = AxiomLayer::new(config.clone(), seed + 1);
        proof {
            source.lemma_drawn(seed);
            assert(source.parts() =~= seq![
                WeightDraw { weights: embeddings@, scale: scale_embed },
                WeightDraw { weights: pos_embeddings@, scale: scale_embed },
            ]);
        }
        Self { config, max_seq_len, embeddings, pos_embeddings, layer }
    }

    /// Embed a token with positional embedding: h_0 = Embed(x_t) + PosEmbed(t)
    pub fn embed_token_pos(&self, token: usize, pos: usize, out_h: &mut [A::T])
        requires
            lawful::<A>(),
            self.wf(),
            token < self.config.vocab_size,
            old(out_h)@.len() == self.config.d_model,
        ensures
            final(out_h)@ == self.embed(token as int, pos as int),
            final(out_h)@.len() == self.config.d_model,
    {
        embed_into::<A>(
            self.embeddings.as_slice(),
            self.pos_embeddings.as_slice(),
            Ghost(self.config.vocab_size as nat),
            self.max_seq_len,
            token,
            pos,
            out_h,
        );
    }

    /// Single-token forward training step.
    pub fn forward_train_step(
        &self,
        token_x: usize,
        pos: usize,
        target_y: usize,
        state: &mut LayerState<A>,
        scratch: &mut LayerScratch<A>,
        h_in: &mut [A::T],
        h_out: &mut [A::T],
    ) -> (losses: (A::T, A::T))
        requires
            lawful::<A>(),
            self.wf(),
            token_x < self.config.vocab_size,
            target_y < self.config.vocab_size,
            old(state).fits(self.config.d_model as nat),
            old(scratch)@.fits(self.config),
            old(h_in)@.len() == self.config.d_model,
            old(h_out)@.len() == self.config.d_model,
        ensures
            ({
                let x = self.embed(token_x as int, pos as int);
                let step = self.layer.step(x, old(state).memory.m@, old(state).recurrent_state@);
                let logits = self.layer.logits_of(step.h_out);
                let probs = softmax_of::<A>(logits);
                &&& final(h_in)@ == x
                &&& final(h_out)@ == step.h_out
                &&& losses.0 == cross_entropy_of::<A>(logits, target_y as int)
                &&& losses.1 == mse_of::<A>(self.layer.decoded_of(step.h_out), x)
                &&& final(state).recurrent_state@ == step.state
                &&& final(state).memory.m@ == hebbian_of::<A>(
                    old(state).memory.m@,
                    step.h_out,
                    old(state).memory.decay,
                    old(state).memory.lr,
                )
                &&& final(state).buffer@ == if s_exceeds::<A>(
                    entropy_of::<A>(probs, probs.len()),
                    s_lit::<A>(2, 0),
                ) {
                    pushed(
                        old(state).buffer@,
                        old(state).buffer.spec_capacity(),
                        target_y as u32,
                    )
                } else {
                    old(state).buffer@
                }
                &&& final(scratch)@ == self.layer.trained_scratch(
                    x,
                    target_y as int,
                    step,
                    old(scratch)@,
                )
            }),
            final(state).memory.decay == old(state).memory.decay,
            final(state).memory.lr == old(state).memory.lr,
            final(state).buffer.spec_capacity() == old(state).buffer.spec_capacity(),
            final(state).fits(self.config.d_model as nat),
            final(scratch)@.fits(self.config),
    {
        self.embed_token_pos(token_x, pos, h_in);
        self.layer.forward_train(h_in, target_y, state, scratch, h_out)
    }

    /// Single-token analytical backward pass.
    pub fn backward_train_step(
        &self,
        token_x: usize,
        pos: usize,
        h_in: &[A::T],
        state_prev: &[A::T],
        state_curr: &[A::T],
        h_out: &[A::T],
        lambda_pred: A::T,
        lambda_recon: A::T,
        lambda_residual: A::T,
        scratch: &mut LayerScratch<A>,
        grads: &mut ModelGrads<A>,
        grad_h_in: &mut [A::T],
    )
        requires
            lawful::<A>(),
            self.wf(),
            token_x < self.config.vocab_size,
            h_in@.len() == self.config.d_model,
            state_prev@.len() == self.config.d_model,
            state_curr@.len() == self.config.d_model,
            h_out@.len() == self.config.d_model,
            old(scratch)@.fits(self.config),
            old(grads)@.fits(self.config, self.max_seq_len as nat),
            old(grad_h_in)@.len() == self.config.d_model,
        ensures
            ({
                let b = self.layer.backward(
                    h_in@,
                    state_prev@,
                    state_curr@,
                    h_out@,
                    LossWeights {
                        pred: lambda_pred,
                        recon: lambda_recon,
                        residual: lambda_residual,
                    },
                    old(scratch)@,
                    old(grads)@.layer,
                );
                &&& final(grad_h_in)@ == b.grad_h_in
                &&& final(grads)@ == self.embedding_grads_added(
                    ModelValues { layer: b.grads, ..old(grads)@ },
                    token_x as int,
                    pos as int,
                    b.grad_h_in,
                )
            }),
            final(scratch)@.fits(self.config),
            final(grads)@.fits(self.config, self.max_seq_len as nat),
    {
        self.layer.backward_layer(
            h_in,
            state_prev,
            state_curr,
            h_out,
            lambda_pred,
            lambda_recon,
            lambda_residual,
            scratch,
            &mut grads.layer_grads,
            grad_h_in,
        );
        self.add_embedding_grads(token_x, pos, grad_h_in, grads);
    }

    /// Hand the gradient at the input of a step on to the embeddings.
    fn add_embedding_grads(
        &self,
        token: usize,
        pos: usize,
        delta: &[A::T],
        grads: &mut ModelGrads<A>,
    )
        requires
            lawful::<A>(),
            self.wf(),
            token < self.config.vocab_size,
            delta@.len() == self.config.d_model,
            old(grads)@.fits(self.config, self.max_seq_len as nat),
        ensures
            final(grads)@ == self.embedding_grads_added(
                old(grads)@,
                token as int,
                pos as int,
                delta@,
            ),
            final(grads)@.fits(self.config, self.max_seq_len as nat),
    {
        add_to_row::<A>(
            grads.grad_embeddings.as_mut_slice(),
            Ghost(self.config.vocab_size as nat),
            token,
            delta,
        );
        if pos < self.max_seq_len {
            add_to_row::<A>(
                grads.grad_pos_embeddings.as_mut_slice(),
                Ghost(self.max_seq_len as nat),
                pos,
                delta,
            );
        }
    }

    /// Forward pass across a full sequence, caching all activations into `SequenceCache` for BPTT.
    pub fn forward_sequence_cache(
        &self,
        x_seq: &[usize],
        y_seq: &[usize],
        state: &mut LayerState<A>,
        scratch: &mut LayerScratch<A>,
        cache: &mut SequenceCache<A>,
    ) -> (losses: (A::T, A::T))
        requires
            lawful::<A>(),
            self.wf(),
            x_seq@.len() <= y_seq@.len(),
            x_seq@.len() <= old(cache).max_seq_len,
            forall|t: int|
                0 <= t < x_seq@.len() ==> #[trigger] x_seq@[t] < self.config.vocab_size
                    && y_seq@[t] < self.config.vocab_size,
            old(state).fits(self.config.d_model as nat),
            old(scratch)@.fits(self.config),
            old(cache).fits(self.config),
        ensures
            ({
                let inputs = self.inputs(x_seq@);
                let start = Carried {
                    m: old(state).memory.m@,
                    s: old(state).recurrent_state@,
                };
                let decay = old(state).memory.decay;
                let lr = old(state).memory.lr;
                let n = x_seq@.len();
                let end = self.layer.carried(inputs, start, decay, lr, n);
                &&& losses.0 == self.layer.pred_loss(inputs, y_seq@, start, decay, lr, n)
                &&& losses.1 == self.layer.recon_loss(inputs, start, decay, lr, n)
                &&& final(state).memory.m@ == end.m
                &&& final(state).recurrent_state@ == end.s
                &&& self.layer.is_cached(
                    *final(cache),
                    inputs,
                    y_seq@,
                    start,
                    decay,
                    lr,
                    n as int,
                )
            }),
            forall|t: int|
                x_seq@.len() <= t < old(cache).max_seq_len ==> #[trigger] final(cache).step_at(
                    self.config,
                    t,
                ) == old(cache).step_at(self.config, t),
            final(cache).routes_are_valid(self.config, x_seq@.len() as int),
            final(cache).fits(self.config),
            final(cache).max_seq_len == old(cache).max_seq_len,
            final(state).memory.decay == old(state).memory.decay,
            final(state).memory.lr == old(state).memory.lr,
            final(state).buffer == old(state).buffer,
            final(state).fits(self.config.d_model as nat),
            final(scratch)@.fits(self.config),
    {
        let d: usize = self.config.d_model;
        let n: usize = x_seq.len();
        let ghost start = Carried { m: state.memory.m@, s: state.recurrent_state@ };
        let ghost decay = state.memory.decay;
        let ghost lr = state.memory.lr;
        let ghost c = self.config;
        let ghost inputs = self.inputs(x_seq@);
        // Save initial state s_0
        write_row(
            cache.s_history.as_mut_slice(),
            Ghost((cache.max_seq_len + 1) as nat),
            d,
            0,
            state.recurrent_state.as_slice(),
        );
        let ghost fresh = *cache;
        let mut total_pred_loss = A::lit(0, 0);
        let mut total_recon_loss = A::lit(0, 0);
        let mut h_in = zero_vec::<A>(d);
        let mut h_out = zero_vec::<A>(d);
        let mut t: usize = 0;
        while t < n
            invariant
                lawful::<A>(),
                self.wf(),
                n == x_seq@.len(),
                n <= y_seq@.len(),
                t <= n,
                n <= cache.max_seq_len,
                d == self.config.d_model,
                c == self.config,
                forall|q: int|
                    0 <= q < n ==> #[trigger] x_seq@[q] < self.config.vocab_size && y_seq@[q]
                        < self.config.vocab_size,
                h_in@.len() == d,
                h_out@.len() == d,
                state.fits(d as nat),
                state.memory.decay == decay,
                state.memory.lr == lr,
                state.buffer == old(state).buffer,
                inputs == self.inputs(x_seq@),
                state.memory.m@ == self.layer.carried(inputs, start, decay, lr, t as nat).m,
                state.recurrent_state@ == self.layer.carried(
                    inputs,
                    start,
                    decay,
                    lr,
                    t as nat,
                ).s,
                scratch@.fits(c),
                cache.fits(c),
                cache.max_seq_len == fresh.max_seq_len,
                total_pred_loss == self.layer.pred_loss(
                    inputs,
                    y_seq@,
                    start,
                    decay,
                    lr,
                    t as nat,
                ),
                total_recon_loss == self.layer.recon_loss(inputs, start, decay, lr, t as nat),
                cache.routes_are_valid(c, t as int),
                self.layer.is_cached(*cache, inputs, y_seq@, start, decay, lr, t as int),
                forall|q: int|
                    t <= q < cache.max_seq_len ==> #[trigger] cache.step_at(c, q) == fresh.step_at(
                        c,
                        q,
                    ),
            decreases n - t,
        {
            let ghost before = *cache;
            self.embed_token_pos(x_seq[t], t, h_in.as_mut_slice());
            let (loss_pred, loss_recon) = self.layer.forward_cached_step(
                t,
                h_in.as_slice(),
                y_seq[t],
                state,
                scratch,
                cache,
                h_out.as_mut_slice(),
            );
            proof {
                assert forall|q: int| 0 <= q < t + 1 implies (#[trigger] cache.top_indices@[q]).0
                    < c.num_experts && cache.top_indices@[q].1 < c.num_experts by {
                    if q < t {
                        assert(cache.step_at(c, q).top == before.step_at(c, q).top);
                        assert(before.top_indices@[q].0 < c.num_experts);
                    }
                }
            }
            total_pred_loss = A::plus(total_pred_loss, loss_pred);
            total_recon_loss = A::plus(total_recon_loss, loss_recon);
            t += 1;
        }
        (total_pred_loss, total_recon_loss)
    }

    /// Truncated Backprop-Through-Time (BPTT) backward pass across the sequence.
    /// Gradients strictly stay inside Layer l (zero-cross-layer invariant).
    pub fn backward_sequence_bptt(
        &self,
        x_seq: &[usize],
        cache: &SequenceCache<A>,
        lambda_pred: A::T,
        lambda_recon: A::T,
        lambda_residual: A::T,
        scratch: &mut LayerScratch<A>,
        grads: &mut ModelGrads<A>,
    )
        requires
            lawful::<A>(),
            self.wf(),
            cache.fits(self.config),
            x_seq@.len() <= cache.max_seq_len,
            cache.routes_are_valid(self.config, x_seq@.len() as int),
            forall|t: int| 0 <= t < x_seq@.len() ==> #[trigger] x_seq@[t] < self.config.vocab_size,
            old(scratch)@.fits(self.config),
            old(grads)@.fits(self.config, self.max_seq_len as nat),
        ensures
            final(grads)@ == self.bptt(
                x_seq@,
                *cache,
                (LossWeights { pred: lambda_pred, recon: lambda_recon, residual: lambda_residual }),
                old(grads)@,
                0,
            ).grads,
            final(scratch)@.fits(self.config),
            final(grads)@.fits(self.config, self.max_seq_len as nat),
    {
        let d: usize = self.config.d_model;
        let ghost lambda = LossWeights {
            pred: lambda_pred,
            recon: lambda_recon,
            residual: lambda_residual,
        };
        let ghost g0 = grads@;
        let mut delta_s_temporal = zero_vec::<A>(d);
        let mut delta_hin = zero_vec::<A>(d);
        let z = A::lit(0, 0);
        // Backprop backwards through sequence from t = T-1 down to 0
        let mut t: usize = x_seq.len();
        while t > 0
            invariant
                lawful::<A>(),
                self.wf(),
                t <= x_seq@.len(),
                x_seq@.len() <= cache.max_seq_len,
                d == self.config.d_model,
                z == zero::<A>(),
                cache.fits(self.config),
                cache.routes_are_valid(self.config, x_seq@.len() as int),
                forall|q: int|
                    0 <= q < x_seq@.len() ==> #[trigger] x_seq@[q] < self.config.vocab_size,
                lambda == (LossWeights {
                    pred: lambda_pred,
                    recon: lambda_recon,
                    residual: lambda_residual,
                }),
                delta_s_temporal@.len() == d,
                delta_hin@.len() == d,
                scratch@.fits(self.config),
                grads@.fits(self.config, self.max_seq_len as nat),
                grads@ == self.bptt(x_seq@, *cache, lambda, g0, t as int).grads,
                delta_s_temporal@ == self.bptt(x_seq@, *cache, lambda, g0, t as int).temporal,
            decreases t,
        {
            t -= 1;
            proof {
                lemma_row_bounds(cache.max_seq_len as nat, d as nat, t as int);
                assert(cache.top_indices@[t as int].0 < self.config.num_experts);
            }
            self.layer.backward_cached_step(
                t,
                cache,
                lambda_pred,
                lambda_recon,
                lambda_residual,
                scratch,
                &mut grads.layer_grads,
                delta_s_temporal.as_mut_slice(),
                delta_hin.as_mut_slice(),
            );
            if A::exceeds(lambda_residual, z) {
                AxiomLayer::<A>::take_residual(
                    row_at(cache.h_in_history.as_slice(), d, t),
                    row_at(cache.h_out_history.as_slice(), d, t),
                    lambda_residual,
                    delta_hin.as_mut_slice(),
                );
            }
            self.add_embedding_grads(x_seq[t], t, delta_hin.as_slice(), grads);
        }
    }

    /// Fast inference forward step.
    pub fn forward_infer_step(
        &self,
        token_x: usize,
        pos: usize,
        state: &mut LayerState<A>,
        scratch: &mut LayerScratch<A>,
        h_in: &mut [A::T],
        h_out: &mut [A::T],
        out_logits: &mut [A::T],
    )
        requires
            lawful::<A>(),
            self.wf(),
            token_x < self.config.vocab_size,
            old(state).fits(self.config.d_model as nat),
            old(scratch)@.fits(self.config),
            old(h_in)@.len() == self.config.d_model,
            old(h_out)@.len() == self.config.d_model,
            old(out_logits)@.len() == self.config.vocab_size,
        ensures
            ({
                let x = self.embed(token_x as int, pos as int);
                let step = self.layer.step(x, old(state).memory.m@, old(state).recurrent_state@);
                &&& final(h_in)@ == x
                &&& final(h_out)@ == step.h_out
                &&& final(out_logits)@ == self.layer.logits_of(step.h_out)
                &&& final(state).recurrent_state@ == step.state
                &&& final(state).memory.m@ == hebbian_of::<A>(
                    old(state).memory.m@,
                    step.h_out,
                    old(state).memory.decay,
                    old(state).memory.lr,
                )
            }),
            final(state).memory.decay == old(state).memory.decay,
            final(state).memory.lr == old(state).memory.lr,
            final(state).buffer == old(state).buffer,
            final(state).fits(self.config.d_model as nat),
            final(h_in)@.len() == self.config.d_model,
            final(h_out)@.len() == self.config.d_model,
            final(scratch)@.fits(self.config),
    {
        self.embed_token_pos(token_x, pos, h_in);
        self.layer.forward_infer(h_in, state, scratch, h_out);
        let pred_view = MatrixView::new(
            self.layer.w_pred.as_slice(),
            self.config.vocab_size,
            self.config.d_model,
        );
        matvec::<A>(&pred_view, h_out, out_logits);
    }
}

} // verus!
