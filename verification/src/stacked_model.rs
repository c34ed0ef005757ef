//! Multi-layer stacked AXIOM model with decoupled per-layer parallel training,
//! detached representation passing, and O(1) memory inference.

use vstd::prelude::*;
use crate::arith::{Arith, lawful};
use crate::config::AxiomConfig;
use crate::hebbian::hebbian_of;
use crate::layer::{
    AxiomLayer, LayerValues, LayerGrads, LayerScratch, LayerState, LayerStep, LossWeights,
    SequenceCache, no_grads, vec_add, zero_vec,
};
use crate::matvec::{lemma_zip_summed, matvec, summed, zip_summed};
use crate::model::{add_to_row, embed_into, embedded, row_added};
use crate::parallel::par_map;
use crate::rng::{WeightDraw, WeightSource, drawn_from_seed, scale_for, weight_scale};
use crate::sequence::{Carried, row_at, write_row};
use crate::tensor::{MatrixView, lemma_row_bounds, row_of, scaled, vec_scale, vec_zero, zeros};

verus! {

/// Multi-Layer Model Gradients containing decoupled per-layer gradient buffers.
#[derive(Debug, Clone)]
pub struct StackedModelGrads<A: Arith> {
    pub grad_embeddings: Vec<A::T>,
    pub grad_pos_embeddings: Vec<A::T>,
    pub layer_grads: Vec<LayerGrads<A>>,
}

/// One value for each parameter of a stacked model.
pub struct StackedValues<T> {
    pub embeddings: Seq<T>,
    pub pos_embeddings: Seq<T>,
    pub layers: Seq<LayerValues<T>>,
}

/// The gradients of some layers.
pub open spec fn layer_views<A: Arith>(grads: Seq<LayerGrads<A>>) -> Seq<LayerValues<A::T>> {
    grads.map_values(|g: LayerGrads<A>| g@)
}

impl<A: Arith> View for StackedModelGrads<A> {
    type V = StackedValues<A::T>;

    open spec fn view(&self) -> StackedValues<A::T> {
        StackedValues {
            embeddings: self.grad_embeddings@,
            pos_embeddings: self.grad_pos_embeddings@,
            layers: layer_views(self.layer_grads@),
        }
    }
}

impl<T> StackedValues<T> {
    /// The sizes of the gradients of a model of this configuration.
    pub open spec fn fits<A: Arith>(&self, config: AxiomConfig<A>, max_seq_len: nat) -> bool {
        &&& self.embeddings.len() == config.vocab_size * config.d_model
        &&& self.pos_embeddings.len() == max_seq_len * config.d_model
        &&& self.layers.len() == config.num_layers
        &&& forall|l: int|
            0 <= l < self.layers.len() ==> (#[trigger] self.layers[l]).fits(config)
    }

    /// The gradients that are all zero, with the sizes of these.
    pub open spec fn cleared<A: Arith<T = T>>(&self) -> StackedValues<T> {
        StackedValues {
            embeddings: zeros::<A>(self.embeddings.len()),
            pos_embeddings: zeros::<A>(self.pos_embeddings.len()),
            layers: Seq::new(self.layers.len(), |l: int| self.layers[l].cleared::<A>()),
        }
    }

    /// These gradients and others are of the same sizes.
    pub open spec fn same_sizes(&self, other: StackedValues<T>) -> bool {
        &&& self.embeddings.len() == other.embeddings.len()
        &&& self.pos_embeddings.len() == other.pos_embeddings.len()
        &&& self.layers.len() == other.layers.len()
        &&& forall|l: int|
            0 <= l < self.layers.len() ==> (#[trigger] self.layers[l]).same_sizes(other.layers[l])
    }

    /// The sums of these gradients and others.
    pub open spec fn plus<A: Arith<T = T>>(&self, other: StackedValues<T>) -> StackedValues<
        T,
    > {
        StackedValues {
            embeddings: summed::<A>(self.embeddings, other.embeddings),
            pos_embeddings: summed::<A>(self.pos_embeddings, other.pos_embeddings),
            layers: Seq::new(
                self.layers.len(),
                |l: int| self.layers[l].plus::<A>(other.layers[l]),
            ),
        }
    }

    /// The sums of these gradients and others, as far as both go.
    pub open spec fn zip_plus<A: Arith<T = T>>(&self, other: StackedValues<T>) -> StackedValues<
        T,
    > {
        StackedValues {
            embeddings: zip_summed::<A>(self.embeddings, other.embeddings),
            pos_embeddings: zip_summed::<A>(self.pos_embeddings, other.pos_embeddings),
            layers: Seq::new(
                self.layers.len(),
                |l: int|
                    if l < other.layers.len() {
                        self.layers[l].zip_plus::<A>(other.layers[l])
                    } else {
                        self.layers[l]
                    },
            ),
        }
    }

    /// Gradients of the same sizes are added as a whole.
    pub proof fn lemma_zip_plus<A: Arith<T = T>>(&self, other: StackedValues<T>)
        ensures
            self.same_sizes(other) ==> self.zip_plus::<A>(other) == self.plus::<A>(other),
    {
        if self.same_sizes(other) {
            lemma_zip_summed::<A>(self.embeddings, other.embeddings);
            lemma_zip_summed::<A>(self.pos_embeddings, other.pos_embeddings);
            assert forall|l: int| 0 <= l < self.layers.len() implies #[trigger] self.zip_plus::<A>(
                other,
            ).layers[l] == self.plus::<A>(other).layers[l] by {
                assert(self.layers[l].same_sizes(other.layers[l]));
                self.layers[l].lemma_zip_plus::<A>(other.layers[l]);
            }
            assert(self.zip_plus::<A>(other).layers =~= self.plus::<A>(other).layers);
        }
    }
}

impl<T> StackedValues<T> {
    /// Each value multiplied by `alpha`.
    pub open spec fn scaled<A: Arith<T = T>>(&self, alpha: T) -> StackedValues<T> {
        StackedValues {
            embeddings: scaled::<A>(self.embeddings, alpha),
            pos_embeddings: scaled::<A>(self.pos_embeddings, alpha),
            layers: Seq::new(self.layers.len(), |l: int| self.layers[l].scaled::<A>(alpha)),
        }
    }
}

/// The gradients of a model of this configuration, all zero.
pub open spec fn no_stacked_grads<A: Arith>(
    config: AxiomConfig<A>,
    max_seq_len: nat,
) -> StackedValues<A::T> {
    StackedValues {
        embeddings: zeros::<A>((config.vocab_size * config.d_model) as nat),
        pos_embeddings: zeros::<A>((max_seq_len * config.d_model) as nat),
        layers: Seq::new(config.num_layers as nat, |l: int| no_grads::<A>(config)),
    }
}

impl<A: Arith> StackedModelGrads<A> {
    pub fn new(config: &AxiomConfig<A>, max_seq_len: usize) -> (grads: Self)
        requires
            lawful::<A>(),
            config.num_layers > 0 ==> config.d_model * (3 * config.d_model) <= usize::MAX,
            config.num_layers > 0 ==> config.num_experts * config.d_model <= usize::MAX,
            config.num_layers > 0 ==> config.d_ffn * config.d_model <= usize::MAX,
            config.vocab_size * config.d_model <= usize::MAX,
            max_seq_len * config.d_model <= usize::MAX,
        ensures
            grads@.fits(*config, max_seq_len as nat),
            grads@ == no_stacked_grads::<A>(*config, max_seq_len as nat),
    {
        let mut layer_grads: Vec<LayerGrads<A>> = Vec::with_capacity(config.num_layers);
        let mut l: usize = 0;
        while l < config.num_layers
            invariant
                lawful::<A>(),
                l <= config.num_layers,
                config.num_layers > 0 ==> config.d_model * (3 * config.d_model) <= usize::MAX,
                config.num_layers > 0 ==> config.num_experts * config.d_model <= usize::MAX,
                config.num_layers > 0 ==> config.d_ffn * config.d_model <= usize::MAX,
                config.vocab_size * config.d_model <= usize::MAX,
                layer_grads@.len() == l,
                forall|j: int|
                    0 <= j < l ==> (#[trigger] layer_grads@[j])@.fits(*config) && layer_grads@[j]@
                        == no_grads::<A>(*config),
            decreases config.num_layers - l,
        {
            layer_grads.push(LayerGrads::new(config));
            l += 1;
        }
        let grads = Self {
            grad_embeddings: zero_vec::<A>(config.vocab_size * config.d_model),
            grad_pos_embeddings: zero_vec::<A>(max_seq_len * config.d_model),
            layer_grads,
        };
        proof {
            assert forall|j: int| 0 <= j < grads@.layers.len() implies #[trigger] grads@.layers[j]
                == grads.layer_grads@[j]@ by {}
            assert(grads@.layers =~= no_stacked_grads::<A>(
                *config,
                max_seq_len as nat,
            ).layers);
        }
        grads
    }

    pub fn zero(&mut self)
        requires
            lawful::<A>(),
        ensures
            final(self)@ == old(self)@.cleared::<A>(),
    {
        vec_zero::<A>(self.grad_embeddings.as_mut_slice());
        vec_zero::<A>(self.grad_pos_embeddings.as_mut_slice());
        let mut l: usize = 0;
        while l < self.layer_grads.len()
            invariant
                lawful::<A>(),
                l <= self.layer_grads@.len(),
                self.layer_grads@.len() == old(self).layer_grads@.len(),
                self.grad_embeddings@ == zeros::<A>(old(self).grad_embeddings@.len()),
                self.grad_pos_embeddings@ == zeros::<A>(old(self).grad_pos_embeddings@.len()),
                forall|j: int|
                    0 <= j < l ==> (#[trigger] self.layer_grads@[j])@ == old(
                        self,
                    ).layer_grads@[j]@.cleared::<A>(),
                forall|j: int|
                    l <= j < self.layer_grads@.len() ==> #[trigger] self.layer_grads@[j] == old(
                        self,
                    ).layer_grads@[j],
            decreases self.layer_grads@.len() - l,
        {
            self.layer_grads[l].zero();
            l += 1;
        }
        assert(self@.layers =~= old(self)@.cleared::<A>().layers);
    }

    /// Multiply all gradients by `alpha`.
    pub fn scale(&mut self, alpha: A::T)
        requires
            lawful::<A>(),
        ensures
            final(self)@ == old(self)@.scaled::<A>(alpha),
    {
        vec_scale::<A>(self.grad_embeddings.as_mut_slice(), alpha);
        vec_scale::<A>(self.grad_pos_embeddings.as_mut_slice(), alpha);
        let mut l: usize = 0;
        while l < self.layer_grads.len()
            invariant
                lawful::<A>(),
                l <= self.layer_grads@.len(),
                self.layer_grads@.len() == old(self).layer_grads@.len(),
                self.grad_embeddings@ == scaled::<A>(old(self).grad_embeddings@, alpha),
                self.grad_pos_embeddings@ == scaled::<A>(old(self).grad_pos_embeddings@, alpha),
                forall|j: int|
                    0 <= j < l ==> (#[trigger] self.layer_grads@[j])@ == old(
                        self,
                    ).layer_grads@[j]@.scaled::<A>(alpha),
                forall|j: int|
                    l <= j < self.layer_grads@.len() ==> #[trigger] self.layer_grads@[j] == old(
                        self,
                    ).layer_grads@[j],
            decreases self.layer_grads@.len() - l,
        {
            self.layer_grads[l].scale(alpha);
            l += 1;
        }
        assert(self@.layers =~= old(self)@.scaled::<A>(alpha).layers);
    }

    pub fn add(&mut self, other: &StackedModelGrads<A>)
        requires
            lawful::<A>(),
        ensures
            final(self)@ == old(self)@.zip_plus::<A>(other@),
            old(self)@.same_sizes(other@) ==> final(self)@ == old(self)@.plus::<A>(other@),
    {
        let ghost before = self@;
        vec_add::<A>(self.grad_embeddings.as_mut_slice(), other.grad_embeddings.as_slice());
        vec_add::<A>(self.grad_pos_embeddings.as_mut_slice(), other.grad_pos_embeddings.as_slice());
        let n: usize = if self.layer_grads.len() < other.layer_grads.len() {
            self.layer_grads.len()
        } else {
            other.layer_grads.len()
        };
        let mut l: usize = 0;
        while l < n
            invariant
                lawful::<A>(),
                l <= n,
                n <= self.layer_grads@.len(),
                n <= other.layer_grads@.len(),
                n == self.layer_grads@.len() || n == other.layer_grads@.len(),
                self.layer_grads@.len() == before.layers.len(),
                self@.embeddings == zip_summed::<A>(before.embeddings, other@.embeddings),
                self@.pos_embeddings == zip_summed::<A>(
                    before.pos_embeddings,
                    other@.pos_embeddings,
                ),
                forall|j: int|
                    0 <= j < l ==> (#[trigger] self.layer_grads@[j])@ == before.layers[j].zip_plus::<
                        A,
                    >(other@.layers[j]),
                forall|j: int|
                    l <= j < before.layers.len() ==> (#[trigger] self.layer_grads@[j])@
                        == before.layers[j],
            decreases n - l,
        {
            self.layer_grads[l].add(&other.layer_grads[l]);
            l += 1;
        }
        assert(self@.layers =~= before.zip_plus::<A>(other@).layers);
        proof {
            before.lemma_zip_plus::<A>(other@);
        }
    }
}

/// Full Stacked Multi-Layer AXIOM Sequence Model.
#[derive(Debug, Clone)]
pub struct AxiomModel<A: Arith> {
    pub config: AxiomConfig<A>,
    pub max_seq_len: usize,
    /// (vocab_size x d_model)
    pub embeddings: Vec<A::T>,
    /// (max_seq_len x d_model)
    pub pos_embeddings: Vec<A::T>,
    /// num_layers independent AXIOM layers
    pub layers: Vec<AxiomLayer<A>>,
}

/// What a layer starts a sequence with.
pub open spec fn carried_by<A: Arith>(state: LayerState<A>) -> Carried<A::T> {
    Carried { m: state.memory.m@, s: state.recurrent_state@ }
}

impl<A: Arith> AxiomModel<A> {
    /// The weights are as large as the configuration says, and the layers are of the same
    /// configuration.
    pub open spec fn wf(&self) -> bool {
        &&& self.embeddings@.len() == self.config.vocab_size * self.config.d_model
        &&& self.pos_embeddings@.len() == self.max_seq_len * self.config.d_model
        &&& self.layers@.len() == self.config.num_layers
        &&& forall|l: int|
            0 <= l < self.layers@.len() ==> (#[trigger] self.layers@[l]).wf()
                && self.layers@[l].config == self.config
    }

    /// A token with its position.
    pub open spec fn embed(&self, token: int, pos: int) -> Seq<A::T> {
        embedded::<A>(
            self.embeddings@,
            self.pos_embeddings@,
            self.config.d_model as nat,
            self.max_seq_len as nat,
            token,
            pos,
        )
    }

    /// The hidden vector in front of layer `l`, from the embedding `h` and the states of the
    /// layers: h_0 -> h_1 -> ... -> h_L
    pub open spec fn hidden(
        &self,
        h: Seq<A::T>,
        states: Seq<LayerState<A>>,
        l: nat,
    ) -> Seq<A::T>
        decreases l,
    {
        if l == 0 {
            h
        } else {
            let below = states[l - 1];
            self.layers@[l - 1].step(
                self.hidden(h, states, (l - 1) as nat),
                below.memory.m@,
                below.recurrent_state@,
            ).h_out
        }
    }

    /// The step of layer `l` for the embedding `h`.
    pub open spec fn step_of_layer(
        &self,
        h: Seq<A::T>,
        states: Seq<LayerState<A>>,
        l: int,
    ) -> LayerStep<A::T> {
        self.layers@[l].step(
            self.hidden(h, states, l as nat),
            states[l].memory.m@,
            states[l].recurrent_state@,
        )
    }

    /// The weights are those that the generator of the seed draws, one matrix after another, each
    /// on the scale of what it is applied to. Layer `l` has a seed of its own.
    pub open spec fn is_drawn(&self, seed: u64) -> bool {
        let scale = weight_scale::<A>(1, self.config.d_model);
        &&& drawn_from_seed::<A>(
            seed,
            seq![
                WeightDraw { weights: self.embeddings@, scale },
                WeightDraw { weights: self.pos_embeddings@, scale },
            ],
        )
        &&& forall|l: int|
            0 <= l < self.layers@.len() ==> (#[trigger] self.layers@[l]).is_drawn(
                (seed + 10 + l * 100) as u64,
            )
    }

    /// A model with weights drawn from the generator of a seed. Layer `l` has the seed behind
    /// the model's by `10 + 100 * l`.
    pub fn new(config: AxiomConfig<A>, max_seq_len: usize, seed: u64) -> (model: Self)
        requires
            lawful::<A>(),
            config.d_model * (3 * config.d_model) <= usize::MAX,
            config.num_experts * config.d_model <= usize::MAX,
            config.d_ffn * config.d_model <= usize::MAX,
            config.vocab_size * config.d_model <= usize::MAX,
            3 * config.d_model <= usize::MAX,
            max_seq_len * config.d_model <= usize::MAX,
            config.num_layers > 0 ==> seed + 10 + (config.num_layers - 1) * 100 <= u64::MAX,
            config.num_layers > 0 && config.num_experts > 0 ==> seed + 9 + config.num_layers * 100
                + config.num_experts <= u64::MAX,
        ensures
            model.config == config,
            model.max_seq_len == max_seq_len,
            model.is_drawn(seed),
            config.num_experts >= 2 ==> model.wf(),
            model.layers@.len() == config.num_layers,
            forall|l: int|
                0 <= l < model.layers@.len() ==> (#[trigger] model.layers@[l]).is_sized()
                    && model.layers@[l].config == config,
            model.embeddings@.len() == config.vocab_size * config.d_model,
            model.pos_embeddings@.len() == max_seq_len * config.d_model,
    {
        let mut source = WeightSource::<A>::new(seed);
        let scale_embed = scale_for::<A>(1, config.d_model);
        let embeddings = source.draw(scale_embed, config.vocab_size * config.d_model);
        let pos_embeddings = source.draw(scale_embed, max_seq_len * config.d_model);
        let mut layers: Vec<AxiomLayer<A>> = Vec::with_capacity(config.num_layers);
        let mut l: usize = 0;
        while l < config.num_layers
            invariant
                lawful::<A>(),
                config.d_model * (3 * config.d_model) <= usize::MAX,
                config.num_experts * config.d_model <= usize::MAX,
                config.d_ffn * config.d_model <= usize::MAX,
                config.vocab_size * config.d_model <= usize::MAX,
                3 * config.d_model <= usize::MAX,
                max_seq_len * config.d_model <= usize::MAX,
                config.num_layers > 0 ==> seed + 10 + (config.num_layers - 1) * 100 <= u64::MAX,
                config.num_layers > 0 && config.num_experts > 0 ==> seed + 9 + config.num_layers * 100
                    + config.num_experts <= u64::MAX,
                l <= config.num_layers,
                layers@.len() == l,
                forall|k: int|
                    0 <= k < l ==> (#[trigger] layers@[k]).is_sized() && layers@[k].config == config
                        && layers@[k].is_drawn((seed + 10 + k * 100) as u64),
            decreases config.num_layers - l,
        {
            layers.push(AxiomLayer::new(config.clone(), seed + 10 + (l as u64) * 100));
            l += 1;
        }
        proof {
            source.lemma_drawn(seed);
            assert(source.parts() =~= seq![
                WeightDraw { weights: embeddings@, scale: scale_embed },
                WeightDraw { weights: pos_embeddings@, scale: scale_embed },
            ]);
        }
        Self { config, max_seq_len, embeddings, pos_embeddings, layers }
    }

    /// Embed token with positional encoding: h_0 = Embed(x_t) + PosEmbed(t)
    pub fn embed_token_pos(&self, token: usize, pos: usize, out_h: &mut [A::T])
        requires
            lawful::<A>(),
            self.wf(),
            token < self.config.vocab_size,
            old(out_h)@.len() == self.config.d_model,
        ensures
            final(out_h)@ == self.embed(token as int, pos as int),
            final(out_h)@.len() == self.config.d_model,
    {
        embed_into::<A>(
            self.embeddings.as_slice(),
            self.pos_embeddings.as_slice(),
            Ghost(self.config.vocab_size as nat),
            self.max_seq_len,
            token,
            pos,
            out_h,
        );
    }
}

impl<A: Arith> AxiomModel<A> {
    /// Fast O(1) Memory Multi-Layer Sequential Inference Forward Step.
    /// Executes sequentially through all L layers with zero dynamic allocation.
    pub fn forward_infer_step(
        &self,
        token_x: usize,
        pos: usize,
        states: &mut [LayerState<A>],
        scratches: &mut [LayerScratch<A>],
        h_buffers: &mut [Vec<A::T>],
        out_logits: &mut [A::T],
    )
        requires
            lawful::<A>(),
            self.wf(),
            self.config.num_layers > 0,
            token_x < self.config.vocab_size,
            old(states)@.len() == self.config.num_layers,
            old(scratches)@.len() == self.config.num_layers,
            old(h_buffers)@.len() == self.config.num_layers + 1,
            forall|l: int|
                0 <= l < old(states)@.len() ==> (#[trigger] old(states)@[l]).fits(
                    self.config.d_model as nat,
                ),
            forall|l: int|
                0 <= l < old(scratches)@.len() ==> (#[trigger] old(scratches)@[l])@.fits(
                    self.config,
                ),
            forall|l: int|
                0 <= l < old(h_buffers)@.len() ==> (#[trigger] old(h_buffers)@[l])@.len()
                    == self.config.d_model,
            old(out_logits)@.len() == self.config.vocab_size,
        ensures
            ({
                let h = self.embed(token_x as int, pos as int);
                let before = old(states)@;
                let last = self.layers@[self.config.num_layers - 1];
                &&& final(out_logits)@ == last.logits_of(
                    self.hidden(h, before, self.config.num_layers as nat),
                )
                &&& forall|l: int|
                    0 <= l <= self.config.num_layers ==> (#[trigger] final(h_buffers)@[l])@
                        == self.hidden(h, before, l as nat)
                &&& forall|l: int|
                    0 <= l < self.config.num_layers ==> ({
                        let step = self.step_of_layer(h, before, l);
                        let state = #[trigger] final(states)@[l];
                        &&& state.recurrent_state@ == step.state
                        &&& state.memory.m@ == hebbian_of::<A>(
                            before[l].memory.m@,
                            step.h_out,
                            before[l].memory.decay,
                            before[l].memory.lr,
                        )
                        &&& state.memory.decay == before[l].memory.decay
                        &&& state.memory.lr == before[l].memory.lr
                        &&& state.buffer == before[l].buffer
                        &&& state.fits(self.config.d_model as nat)
                    })
            }),
            final(states)@.len() == old(states)@.len(),
            final(scratches)@.len() == old(scratches)@.len(),
            forall|l: int|
                0 <= l < final(h_buffers)@.len() ==> (#[trigger] final(h_buffers)@[l])@.len()
                    == self.config.d_model,
            final(h_buffers)@.len() == old(h_buffers)@.len(),
            forall|l: int|
                0 <= l < final(scratches)@.len() ==> (#[trigger] final(scratches)@[l])@.fits(
                    self.config,
                ),
    {
        let num_layers: usize = self.config.num_layers;
        let ghost before = states@;
        let ghost h = self.embed(token_x as int, pos as int);
        // 1. Initial embedding h_0
        self.embed_token_pos(token_x, pos, h_buffers[0].as_mut_slice());
        // 2. Sequential forward through layers: h_0 -> h_1 -> ... -> h_L
        let mut l: usize = 0;
        while l < num_layers
            invariant
                lawful::<A>(),
                self.wf(),
                num_layers == self.config.num_layers,
                l <= num_layers,
                states@.len() == num_layers,
                before.len() == num_layers,
                scratches@.len() == num_layers,
                h_buffers@.len() == num_layers + 1,
                h == self.embed(token_x as int, pos as int),
                forall|j: int|
                    0 <= j < num_layers ==> (#[trigger] before[j]).fits(
                        self.config.d_model as nat,
                    ),
                forall|j: int| l <= j < num_layers ==> #[trigger] states@[j] == before[j],
                forall|j: int|
                    0 <= j < num_layers ==> (#[trigger] scratches@[j])@.fits(self.config),
                forall|j: int|
                    0 <= j < h_buffers@.len() ==> (#[trigger] h_buffers@[j])@.len()
                        == self.config.d_model,
                forall|j: int|
                    0 <= j <= l ==> (#[trigger] h_buffers@[j])@ == self.hidden(
                        h,
                        before,
                        j as nat,
                    ),
                forall|j: int|
                    0 <= j < l ==> ({
                        let step = self.step_of_layer(h, before, j);
                        let state = #[trigger] states@[j];
                        &&& state.recurrent_state@ == step.state
                        &&& state.memory.m@ == hebbian_of::<A>(
                            before[j].memory.m@,
                            step.h_out,
                            before[j].memory.decay,
                            before[j].memory.lr,
                        )
                        &&& state.memory.decay == before[j].memory.decay
                        &&& state.memory.lr == before[j].memory.lr
                        &&& state.buffer == before[j].buffer
                        &&& state.fits(self.config.d_model as nat)
                    }),
            decreases num_layers - l,
        {
            assert(states@[l as int] == before[l as int]);
            let ghost buffers = h_buffers@;
            let (prev_buf, next_buf) = h_buffers.split_at_mut(l + 1);
            let h_in = prev_buf[l].as_slice();
            self.layers[l].forward_infer(
                h_in,
                &mut states[l],
                &mut scratches[l],
                next_buf[0].as_mut_slice(),
            );
            assert forall|j: int| 0 <= j < h_buffers@.len() && j != l + 1 implies
                #[trigger] h_buffers@[j] == buffers[j] by {}
            l += 1;
        }
        // 3. Final layer prediction logits
        let last_layer = &self.layers[num_layers - 1];
        let pred_view = MatrixView::new(
            last_layer.w_pred.as_slice(),
            self.config.vocab_size,
            self.config.d_model,
        );
        matvec::<A>(&pred_view, h_buffers[num_layers].as_slice(), out_logits);
    }

    /// The inputs of layer `l` over a sequence of tokens: embeddings below, and the outputs of
    /// the layer beneath above.
    pub open spec fn layer_inputs(
        &self,
        x: Seq<usize>,
        states: Seq<LayerState<A>>,
        l: nat,
    ) -> Seq<Seq<A::T>>
        decreases l,
    {
        if l == 0 {
            Seq::new(x.len(), |t: int| self.embed(x[t] as int, t))
        } else {
            let below = self.layer_inputs(x, states, (l - 1) as nat);
            let state = states[l - 1];
            Seq::new(
                x.len(),
                |t: int|
                    self.layers@[l - 1].output_at(
                        below,
                        carried_by(state),
                        state.memory.decay,
                        state.memory.lr,
                        t,
                    ),
            )
        }
    }

    /// What layer `l` leaves behind after a sequence: its state, its cache and its loss.
    pub open spec fn layer_done(
        &self,
        x: Seq<usize>,
        y: Seq<usize>,
        states: Seq<LayerState<A>>,
        l: int,
        state: LayerState<A>,
        cache: SequenceCache<A>,
        loss: A::T,
    ) -> bool {
        let inputs = self.layer_inputs(x, states, l as nat);
        let start = carried_by(states[l]);
        let (decay, lr) = (states[l].memory.decay, states[l].memory.lr);
        let end = self.layers@[l].carried(inputs, start, decay, lr, x.len());
        &&& loss == self.layers@[l].pred_loss(inputs, y, start, decay, lr, x.len())
        &&& state.memory.m@ == end.m
        &&& state.recurrent_state@ == end.s
        &&& state.memory.decay == decay
        &&& state.memory.lr == lr
        &&& state.buffer == states[l].buffer
        &&& state.fits(self.config.d_model as nat)
        &&& self.layers@[l].is_cached(cache, inputs, y, start, decay, lr, x.len() as int)
        &&& cache.routes_are_valid(self.config, x.len() as int)
        &&& cache.fits(self.config)
    }

    /// Multi-Layer Forward Pass across sequence.
    /// Evaluates sequential forward pass across layers, caching detached representation
    /// sequence buffers H_l for each layer.
    /// Returns per-layer prediction loss: a vector of length L.
    #[verifier::rlimit(40)]
    #[verifier::spinoff_prover]
    pub fn forward_sequence_stacked(
        &self,
        x_seq: &[usize],
        y_seq: &[usize],
        states: &mut [LayerState<A>],
        scratches: &mut [LayerScratch<A>],
        caches: &mut [SequenceCache<A>],
        layer_h_seqs: &mut [Vec<A::T>],
    ) -> (losses: Vec<A::T>)
        requires
            lawful::<A>(),
            self.wf(),
            x_seq@.len() <= y_seq@.len(),
            forall|t: int| 0 <= t < x_seq@.len() ==> #[trigger] x_seq@[t] < self.config.vocab_size,
            forall|t: int| 0 <= t < x_seq@.len() ==> #[trigger] y_seq@[t] < self.config.vocab_size,
            old(states)@.len() == self.config.num_layers,
            old(scratches)@.len() == self.config.num_layers,
            old(caches)@.len() == self.config.num_layers,
            old(layer_h_seqs)@.len() == self.config.num_layers + 1,
            forall|l: int|
                0 <= l < old(states)@.len() ==> (#[trigger] old(states)@[l]).fits(
                    self.config.d_model as nat,
                ),
            forall|l: int|
                0 <= l < old(scratches)@.len() ==> (#[trigger] old(scratches)@[l])@.fits(
                    self.config,
                ),
            forall|l: int|
                0 <= l < old(caches)@.len() ==> (#[trigger] old(caches)@[l]).fits(self.config)
                    && x_seq@.len() <= old(caches)@[l].max_seq_len,
            forall|l: int|
                0 <= l < old(layer_h_seqs)@.len() ==> (#[trigger] old(layer_h_seqs)@[l])@.len()
                    >= x_seq@.len() * self.config.d_model,
        ensures
            losses@.len() == self.config.num_layers,
            final(states)@.len() == old(states)@.len(),
            final(scratches)@.len() == old(scratches)@.len(),
            final(caches)@.len() == old(caches)@.len(),
            final(layer_h_seqs)@.len() == old(layer_h_seqs)@.len(),
            forall|l: int|
                0 <= l < self.config.num_layers ==> self.layer_done(
                    x_seq@,
                    y_seq@,
                    old(states)@,
                    l,
                    #[trigger] final(states)@[l],
                    final(caches)@[l],
                    losses@[l],
                ),
            forall|l: int|
                0 <= l < self.config.num_layers ==> (#[trigger] final(caches)@[l]).max_seq_len
                    == old(caches)@[l].max_seq_len,
            forall|l: int, t: int|
                0 <= l <= self.config.num_layers && 0 <= t < x_seq@.len() ==> #[trigger] row_of(
                    final(layer_h_seqs)@[l]@,
                    self.config.d_model as nat,
                    t,
                ) == self.layer_inputs(x_seq@, old(states)@, l as nat)[t],
            forall|l: int|
                0 <= l < final(layer_h_seqs)@.len() ==> (#[trigger] final(layer_h_seqs)@[l])@.len()
                    == old(layer_h_seqs)@[l]@.len() && final(layer_h_seqs)@[l]@.skip(
                    x_seq@.len() * self.config.d_model,
                ) == old(layer_h_seqs)@[l]@.skip(x_seq@.len() * self.config.d_model),
            forall|l: int|
                0 <= l < final(scratches)@.len() ==> (#[trigger] final(scratches)@[l])@.fits(
                    self.config,
                ),
    {
        let d: usize = self.config.d_model;
        let seq_len: usize = x_seq.len();
        let num_layers: usize = self.config.num_layers;
        let ghost before = states@;
        let ghost (caches0, hs0) = (caches@, layer_h_seqs@);
        let ghost used = x_seq@.len() * d;
        let ghost x = x_seq@;
        let mut per_layer_losses: Vec<A::T> = Vec::with_capacity(num_layers);
        // 1. Embed full sequence into layer_h_seqs[0] (H_0)
        let mut h_token = zero_vec::<A>(d);
        let mut t: usize = 0;
        while t < seq_len
            invariant
                lawful::<A>(),
                self.wf(),
                t <= seq_len,
                seq_len == x_seq@.len(),
                x == x_seq@,
                used == seq_len * d,
                d == self.config.d_model,
                h_token@.len() == d,
                layer_h_seqs@.len() == self.config.num_layers + 1,
                hs0.len() == layer_h_seqs@.len(),
                forall|l: int|
                    0 <= l < layer_h_seqs@.len() ==> (#[trigger] layer_h_seqs@[l])@.len() >= used
                        && layer_h_seqs@[l]@.len() == hs0[l]@.len() && layer_h_seqs@[l]@.skip(used)
                        == hs0[l]@.skip(used),
                forall|q: int|
                    0 <= q < x_seq@.len() ==> #[trigger] x_seq@[q] < self.config.vocab_size,
                forall|q: int|
                    0 <= q < t ==> #[trigger] row_of(layer_h_seqs@[0]@, d as nat, q) == self.embed(
                        x_seq@[q] as int,
                        q,
                    ),
            decreases seq_len - t,
        {
            self.embed_token_pos(x_seq[t], t, h_token.as_mut_slice());
            write_row(
                layer_h_seqs[0].as_mut_slice(),
                Ghost(seq_len as nat),
                d,
                t,
                h_token.as_slice(),
            );
            t += 1;
        }
        // 2. Sequential forward pass across layers (L stages)
        let mut l: usize = 0;
        while l < num_layers
            invariant
                lawful::<A>(),
                self.wf(),
                num_layers == self.config.num_layers,
                l <= num_layers,
                seq_len == x_seq@.len(),
                x == x_seq@,
                seq_len <= y_seq@.len(),
                used == seq_len * d,
                d == self.config.d_model,
                forall|q: int|
                    0 <= q < x_seq@.len() ==> #[trigger] y_seq@[q] < self.config.vocab_size,
                states@.len() == num_layers,
                before.len() == num_layers,
                scratches@.len() == num_layers,
                caches@.len() == num_layers,
                layer_h_seqs@.len() == num_layers + 1,
                per_layer_losses@.len() == l,
                forall|j: int|
                    0 <= j < num_layers ==> (#[trigger] before[j]).fits(
                        self.config.d_model as nat,
                    ),
                forall|j: int| l <= j < num_layers ==> #[trigger] states@[j] == before[j],
                forall|j: int|
                    0 <= j < num_layers ==> (#[trigger] scratches@[j])@.fits(self.config),
                forall|j: int|
                    0 <= j < num_layers ==> (#[trigger] caches@[j]).fits(self.config)
                        && caches@[j].max_seq_len == caches0[j].max_seq_len,
                forall|j: int|
                    0 <= j < num_layers ==> seq_len <= (#[trigger] caches0[j]).max_seq_len,
                hs0.len() == layer_h_seqs@.len(),
                forall|j: int|
                    0 <= j < layer_h_seqs@.len() ==> (#[trigger] layer_h_seqs@[j])@.len() >= used
                        && layer_h_seqs@[j]@.len() == hs0[j]@.len() && layer_h_seqs@[j]@.skip(used)
                        == hs0[j]@.skip(used),
                forall|j: int, q: int|
                    0 <= j <= l && 0 <= q < seq_len ==> #[trigger] row_of(
                        layer_h_seqs@[j]@,
                        d as nat,
                        q,
                    ) == self.layer_inputs(x, before, j as nat)[q],
                forall|j: int|
                    0 <= j < l ==> self.layer_done(
                        x,
                        y_seq@,
                        before,
                        j,
                        #[trigger] states@[j],
                        caches@[j],
                        per_layer_losses@[j],
                    ),
            decreases num_layers - l,
        {
            assert(states@[l as int] == before[l as int]);
            let ghost seqs = layer_h_seqs@;
            let ghost inputs = Seq::new(
                seq_len as nat,
                |t: int| row_of(seqs[l as int]@, d as nat, t),
            );
            assert(inputs =~= self.layer_inputs(x, before, l as nat)) by {
                assert forall|q: int| 0 <= q < seq_len implies inputs[q] == self.layer_inputs(
                    x,
                    before,
                    l as nat,
                )[q] by {
                    assert(row_of(layer_h_seqs@[l as int]@, d as nat, q) == self.layer_inputs(
                        x,
                        before,
                        l as nat,
                    )[q]);
                }
            }
            let (prev_h_seqs, next_h_seqs) = layer_h_seqs.split_at_mut(l + 1);
            let (loss, _) = self.layers[l].forward_cached_sequence(
                seq_len,
                prev_h_seqs[l].as_slice(),
                y_seq,
                &mut states[l],
                &mut scratches[l],
                &mut caches[l],
                next_h_seqs[0].as_mut_slice(),
            );
            per_layer_losses.push(loss);
            proof {
                assert forall|j: int| 0 <= j < layer_h_seqs@.len() && j != l + 1 implies
                    #[trigger] layer_h_seqs@[j] == seqs[j] by {}
                assert forall|j: int, q: int|
                    0 <= j <= l + 1 && 0 <= q < seq_len implies #[trigger] row_of(
                    layer_h_seqs@[j]@,
                    d as nat,
                    q,
                ) == self.layer_inputs(x, before, j as nat)[q] by {
                    if j <= l {
                        assert(row_of(seqs[j]@, d as nat, q) == self.layer_inputs(
                            x,
                            before,
                            j as nat,
                        )[q]);
                    }
                }
            }
            l += 1;
        }
        per_layer_losses
    }
}

/// The gradients of embeddings and positions.
pub struct EmbeddingGrads<T> {
    pub embeddings: Seq<T>,
    pub pos_embeddings: Seq<T>,
}

impl<A: Arith> AxiomModel<A> {
    /// The gradients at the inputs of the first `n` tokens, handed on to the embeddings of the
    /// tokens and of their positions.
    pub open spec fn embedding_grads_added(
        &self,
        grads: EmbeddingGrads<A::T>,
        x: Seq<usize>,
        deltas: spec_fn(int) -> Seq<A::T>,
        n: nat,
    ) -> EmbeddingGrads<A::T>
        decreases n,
    {
        if n == 0 {
            grads
        } else {
            let t = n - 1;
            let d = self.config.d_model as nat;
            let before = self.embedding_grads_added(grads, x, deltas, t as nat);
            EmbeddingGrads {
                embeddings: row_added::<A>(before.embeddings, d, x[t] as int, deltas(t)),
                pos_embeddings: if t < self.max_seq_len {
                    row_added::<A>(before.pos_embeddings, d, t, deltas(t))
                } else {
                    before.pos_embeddings
                },
            }
        }
    }

    /// Layer `l` has a cached sequence of at least `n` steps to go back over.
    pub open spec fn can_go_back(
        &self,
        caches: Seq<SequenceCache<A>>,
        n: usize,
        l: usize,
    ) -> bool {
        &&& lawful::<A>()
        &&& self.wf()
        &&& self.config.d_ffn * self.config.d_model <= usize::MAX
        &&& l < self.config.num_layers
        &&& caches.len() == self.config.num_layers
        &&& caches[l as int].fits(self.config)
        &&& n <= caches[l as int].max_seq_len
        &&& caches[l as int].routes_are_valid(self.config, n as int)
    }

    /// The gradients of layer `l` over the first `n` steps of its cache, and those at its inputs,
    /// row by row.
    pub open spec fn went_back(
        &self,
        caches: Seq<SequenceCache<A>>,
        lambda: LossWeights<A::T>,
        n: usize,
        l: usize,
        out: (LayerGrads<A>, Vec<A::T>),
    ) -> bool {
        let none = no_grads::<A>(self.config);
        &&& out.0@ == self.layers@[l as int].layer_bptt(
            caches[l as int],
            lambda,
            none,
            n as int,
            0,
        ).grads
        &&& out.0@.fits(self.config)
        &&& out.1@.len() == n * self.config.d_model
        &&& forall|t: int|
            0 <= t < n ==> #[trigger] row_of(out.1@, self.config.d_model as nat, t)
                == self.layers@[l as int].bptt_step(
                caches[l as int],
                lambda,
                none,
                n as int,
                t,
            ).delta_hin
    }

    /// Decoupled Parallel Layer Backward Pass.
    /// Executes backward passes across all L layers in parallel across CPU threads with zero
    /// cross-layer gradients: what is added to the gradients of a layer comes from that layer and
    /// its cache alone, and only layer 0 connects to the embeddings. Without layers nothing is
    /// added.
    pub fn backward_decoupled_parallel(
        &self,
        x_seq: &[usize],
        caches: &[SequenceCache<A>],
        _scratches: &mut [LayerScratch<A>],
        lambda_pred: A::T,
        lambda_recon: A::T,
        lambda_residual: A::T,
        grads: &mut StackedModelGrads<A>,
    )
        requires
            lawful::<A>(),
            self.wf(),
            self.config.d_ffn * self.config.d_model <= usize::MAX,
            forall|t: int| 0 <= t < x_seq@.len() ==> #[trigger] x_seq@[t] < self.config.vocab_size,
            caches@.len() == self.config.num_layers,
            forall|l: int|
                0 <= l < caches@.len() ==> (#[trigger] caches@[l]).fits(self.config)
                    && x_seq@.len() <= caches@[l].max_seq_len && caches@[l].routes_are_valid(
                    self.config,
                    x_seq@.len() as int,
                ),
            old(grads)@.fits(self.config, self.max_seq_len as nat),
        ensures
            ({
                let n = x_seq@.len();
                let lambda = LossWeights {
                    pred: lambda_pred,
                    recon: lambda_recon,
                    residual: lambda_residual,
                };
                let none = no_grads::<A>(self.config);
                let embeds = self.embedding_grads_added(
                    EmbeddingGrads {
                        embeddings: old(grads)@.embeddings,
                        pos_embeddings: old(grads)@.pos_embeddings,
                    },
                    x_seq@,
                    |t: int|
                        self.layers@[0].bptt_step(caches@[0], lambda, none, n as int, t).delta_hin,
                    if self.config.num_layers > 0 {
                        n
                    } else {
                        0
                    },
                );
                &&& final(grads)@.embeddings == embeds.embeddings
                &&& final(grads)@.pos_embeddings == embeds.pos_embeddings
                &&& forall|l: int|
                    0 <= l < self.config.num_layers ==> #[trigger] final(grads)@.layers[l] == old(
                        grads,
                    )@.layers[l].plus::<A>(
                        self.layers@[l].layer_bptt(caches@[l], lambda, none, n as int, 0).grads,
                    )
            }),
            final(grads)@.fits(self.config, self.max_seq_len as nat),
            final(_scratches)@ == old(_scratches)@,
    {
        let d: usize = self.config.d_model;
        let n: usize = x_seq.len();
        let num_layers: usize = self.config.num_layers;
        let ghost lambda = LossWeights {
            pred: lambda_pred,
            recon: lambda_recon,
            residual: lambda_residual,
        };
        let ghost none = no_grads::<A>(self.config);
        let ghost g0 = grads@;
        // Parallel backward pass across all L layers
        let results = par_map(
            num_layers,
            |l: usize| -> (out: (LayerGrads<A>, Vec<A::T>))
                requires
                    self.can_go_back(caches@, n, l),
                ensures
                    self.went_back(caches@, lambda, n, l, out)
                {
                    self.layers[l].backward_cached_sequence(
                        n,
                        &caches[l],
                        lambda_pred,
                        lambda_recon,
                        lambda_residual,
                    )
                },
        );
        assert forall|j: int| 0 <= j < num_layers implies self.went_back(
            caches@,
            lambda,
            n,
            j as usize,
            #[trigger] results@[j],
        ) by {
            let i = j as usize;
            assert(results@[i as int] == results@[j]);
        }
        // Assign decoupled layer gradients
        let mut l: usize = 0;
        while l < num_layers
            invariant
                lawful::<A>(),
                self.wf(),
                num_layers == self.config.num_layers,
                l <= num_layers,
                results@.len() == num_layers,
                g0.fits(self.config, self.max_seq_len as nat),
                grads@.embeddings == g0.embeddings,
                grads@.pos_embeddings == g0.pos_embeddings,
                grads.layer_grads@.len() == num_layers,
                forall|j: int|
                    0 <= j < num_layers ==> (#[trigger] results@[j]).0@ == self.layers@[j].layer_bptt(
                        caches@[j],
                        lambda,
                        none,
                        n as int,
                        0,
                    ).grads && results@[j].0@.fits(self.config),
                forall|j: int|
                    0 <= j < l ==> (#[trigger] grads.layer_grads@[j])@ == g0.layers[j].plus::<A>(
                        results@[j].0@,
                    ),
                forall|j: int|
                    l <= j < num_layers ==> (#[trigger] grads.layer_grads@[j])@ == g0.layers[j],
            decreases num_layers - l,
        {
            assert(results@[l as int].0@.fits(self.config));
            assert(g0.layers[l as int].fits(self.config));
            assert(grads.layer_grads@[l as int]@ == g0.layers[l as int]);
            grads.layer_grads[l].add(&results[l].0);
            l += 1;
        }
        if num_layers == 0 {
            return;
        }
        // Layer 0 connects to embeddings E and P
        let ghost start = EmbeddingGrads {
            embeddings: g0.embeddings,
            pos_embeddings: g0.pos_embeddings,
        };
        let ghost deltas = |t: int|
            self.layers@[0].bptt_step(caches@[0], lambda, none, n as int, t).delta_hin;
        let input_g = results[0].1.as_slice();
        let ghost layers = grads.layer_grads@;
        let mut t: usize = 0;
        while t < n
            invariant
                lawful::<A>(),
                self.wf(),
                t <= n,
                n == x_seq@.len(),
                d == self.config.d_model,
                forall|q: int|
                    0 <= q < x_seq@.len() ==> #[trigger] x_seq@[q] < self.config.vocab_size,
                input_g@.len() == n * d,
                forall|q: int|
                    0 <= q < n ==> #[trigger] row_of(input_g@, d as nat, q) == deltas(q),
                grads.layer_grads@ == layers,
                grads.grad_embeddings@.len() == self.config.vocab_size * d,
                grads.grad_pos_embeddings@.len() == self.max_seq_len * d,
                grads.grad_embeddings@ == self.embedding_grads_added(
                    start,
                    x_seq@,
                    deltas,
                    t as nat,
                ).embeddings,
                grads.grad_pos_embeddings@ == self.embedding_grads_added(
                    start,
                    x_seq@,
                    deltas,
                    t as nat,
                ).pos_embeddings,
            decreases n - t,
        {
            proof {
                lemma_row_bounds(n as nat, d as nat, t as int);
            }
            let d_hin = row_at(input_g, d, t);
            assert(d_hin@ == deltas(t as int));
            add_to_row::<A>(
                grads.grad_embeddings.as_mut_slice(),
                Ghost(self.config.vocab_size as nat),
                x_seq[t],
                d_hin,
            );
            if t < self.max_seq_len {
                add_to_row::<A>(
                    grads.grad_pos_embeddings.as_mut_slice(),
                    Ghost(self.max_seq_len as nat),
                    t,
                    d_hin,
                );
            }
            t += 1;
        }
        proof {
            assert forall|j: int| 0 <= j < num_layers implies #[trigger] grads@.layers[j]
                == g0.layers[j].plus::<A>(results@[j].0@) by {
                assert(grads@.layers[j] == grads.layer_grads@[j]@);
            }
        }
    }
}

} // verus!
