//! Decoupled parallel multi-layer training of stacked models.

use vstd::prelude::*;
use crate::arith::{Arith, lawful, s_count, s_lit, s_over, s_plus, zero};
use crate::dataset::{
    CharDataset, is_batch_row, sample_windows, windows_from_seed, windows_lie_in_the_data,
};
use crate::layer::{
    LayerScratch, LayerState, LossWeights, SequenceCache, no_grads, vec_add, zero_vec,
};
use crate::optimizer::StackedAdamW;
use crate::parallel::par_map;
use crate::rng::seeded;
use crate::sequence::Carried;
use crate::stacked_model::{
    AxiomModel, EmbeddingGrads, StackedModelGrads, StackedValues, carried_by, no_stacked_grads,
};
use crate::tensor::zeros;
use crate::trainer::{LocalLossConfig, TrainerConfig, batch_scale, get_lr, is_sequence};

verus! {

/// What a sequence gives to a training step: the prediction loss of each layer, and the
/// gradients.
pub struct StackedGrads<A: Arith> {
    pub losses: Vec<A::T>,
    pub grads: StackedModelGrads<A>,
}

/// Fresh states for all layers.
pub fn new_states<A: Arith>(model: &AxiomModel<A>) -> (states: Vec<LayerState<A>>)
    requires
        lawful::<A>(),
        model.wf(),
        model.config.buffer_capacity > 0,
    ensures
        states@.len() == model.config.num_layers,
        forall|l: int|
            0 <= l < states@.len() ==> model.is_blank_state(#[trigger] states@[l]),
{
    let n: usize = model.config.num_layers;
    assert(n > 0 ==> model.config.d_model * model.config.d_model <= usize::MAX) by {
        if n > 0 {
            assert(model.layers@[0].wf());
            assert(model.layers@[0].w_decode.len() == model.layers@[0].w_decode@.len());
        }
    }
    let mut states: Vec<LayerState<A>> = Vec::with_capacity(n);
    let mut l: usize = 0;
    while l < n
        invariant
            lawful::<A>(),
            l <= n,
            n > 0 ==> model.config.d_model * model.config.d_model <= usize::MAX,
            model.config.buffer_capacity > 0,
            states@.len() == l,
            forall|k: int| 0 <= k < l ==> model.is_blank_state(#[trigger] states@[k]),
        decreases n - l,
    {
        states.push(LayerState::new(&model.config));
        l += 1;
    }
    states
}

/// Working memory for all layers.
pub(crate) fn new_scratches<A: Arith>(model: &AxiomModel<A>) -> (scratches: Vec<LayerScratch<A>>)
    requires
        lawful::<A>(),
        model.wf(),
    ensures
        scratches@.len() == model.config.num_layers,
        forall|l: int|
            0 <= l < scratches@.len() ==> (#[trigger] scratches@[l])@.fits(model.config),
{
    let n: usize = model.config.num_layers;
    let d: usize = model.config.d_model;
    assert(n > 0 ==> 3 * d <= usize::MAX) by {
        if n > 0 {
            assert(model.layers@[0].wf());
            assert(model.layers@[0].w_s.len() == model.layers@[0].w_s@.len());
            assert(3 * d <= d * (3 * d) || d == 0) by (nonlinear_arith)
                requires
                    d >= 0,
            ;
        }
    }
    let mut scratches: Vec<LayerScratch<A>> = Vec::with_capacity(n);
    let mut l: usize = 0;
    while l < n
        invariant
            lawful::<A>(),
            l <= n,
            n > 0 ==> 3 * model.config.d_model <= usize::MAX,
            scratches@.len() == l,
            forall|k: int| 0 <= k < l ==> (#[trigger] scratches@[k])@.fits(model.config),
        decreases n - l,
    {
        scratches.push(LayerScratch::new(&model.config));
        l += 1;
    }
    scratches
}

/// Empty caches for all layers.
fn new_caches<A: Arith>(model: &AxiomModel<A>, seq_len: usize) -> (caches: Vec<SequenceCache<A>>)
    requires
        lawful::<A>(),
        model.can_train(seq_len as nat),
    ensures
        caches@.len() == model.config.num_layers,
        forall|l: int|
            0 <= l < caches@.len() ==> (#[trigger] caches@[l]).fits(model.config)
                && caches@[l].max_seq_len == seq_len,
{
    let n: usize = model.config.num_layers;
    let mut caches: Vec<SequenceCache<A>> = Vec::with_capacity(n);
    let mut l: usize = 0;
    while l < n
        invariant
            lawful::<A>(),
            l <= n,
            model.can_train(seq_len as nat),
            caches@.len() == l,
            forall|k: int|
                0 <= k < l ==> (#[trigger] caches@[k]).fits(model.config)
                    && caches@[k].max_seq_len == seq_len,
        decreases n - l,
    {
        caches.push(SequenceCache::new(&model.config, seq_len));
        l += 1;
    }
    caches
}

/// Room for the inputs of all layers, and for the output of the last one.
fn new_layer_seqs<A: Arith>(model: &AxiomModel<A>, seq_len: usize) -> (seqs: Vec<Vec<A::T>>)
    requires
        lawful::<A>(),
        model.can_train(seq_len as nat),
    ensures
        seqs@.len() == model.config.num_layers + 1,
        forall|l: int|
            0 <= l < seqs@.len() ==> (#[trigger] seqs@[l])@.len() == seq_len * model.config.d_model,
{
    let n: usize = model.config.num_layers;
    let d: usize = model.config.d_model;
    assert(seq_len * d <= (seq_len + 1) * d) by (nonlinear_arith);
    let mut seqs: Vec<Vec<A::T>> = Vec::new();
    let mut l: usize = 0;
    while l < n
        invariant
            lawful::<A>(),
            l <= n,
            seq_len * d <= usize::MAX,
            seqs@.len() == l,
            forall|k: int| 0 <= k < l ==> (#[trigger] seqs@[k])@.len() == seq_len * d,
        decreases n - l,
    {
        seqs.push(zero_vec::<A>(seq_len * d));
        l += 1;
    }
    seqs.push(zero_vec::<A>(seq_len * d));
    seqs
}

impl<A: Arith> AxiomModel<A> {
    /// There is room for the activations of sequences of this length, and for the gradients.
    pub open spec fn can_train(&self, seq_len: nat) -> bool {
        &&& self.wf()
        &&& self.config.buffer_capacity > 0
        &&& self.config.d_ffn * self.config.d_model <= usize::MAX
        &&& (seq_len + 1) * self.config.d_model <= usize::MAX
        &&& seq_len * self.config.vocab_size <= usize::MAX
        &&& seq_len * self.config.d_ffn <= usize::MAX
        &&& seq_len < usize::MAX
    }

    /// What a layer carries before the first token of a sequence.
    pub open spec fn blank(&self) -> Carried<A::T> {
        Carried {
            m: zeros::<A>((self.config.d_model * self.config.d_model) as nat),
            s: zeros::<A>(self.config.d_model as nat),
        }
    }

    /// The state of a layer before the first token of a sequence.
    pub open spec fn is_blank_state(&self, state: LayerState<A>) -> bool {
        &&& state.fits(self.config.d_model as nat)
        &&& state.memory.decay == self.config.hebbian_decay
        &&& state.memory.lr == self.config.hebbian_lr
        &&& carried_by(state) == self.blank()
    }

    /// The state of a layer before or after a sequence.
    pub open spec fn is_ready_state(&self, state: LayerState<A>) -> bool {
        &&& state.fits(self.config.d_model as nat)
        &&& state.memory.decay == self.config.hebbian_decay
        &&& state.memory.lr == self.config.hebbian_lr
    }

    /// The states, working memory, caches and layer inputs are those of this model.
    pub open spec fn fit_together(
        &self,
        states: Seq<LayerState<A>>,
        scratches: Seq<LayerScratch<A>>,
        caches: Seq<SequenceCache<A>>,
        layer_h_seqs: Seq<Vec<A::T>>,
        seq_len: usize,
    ) -> bool {
        &&& states.len() == self.config.num_layers
        &&& forall|l: int| 0 <= l < states.len() ==> self.is_ready_state(#[trigger] states[l])
        &&& scratches.len() == self.config.num_layers
        &&& forall|l: int|
            0 <= l < scratches.len() ==> (#[trigger] scratches[l])@.fits(self.config)
        &&& caches.len() == self.config.num_layers
        &&& forall|l: int|
            0 <= l < caches.len() ==> (#[trigger] caches[l]).fits(self.config)
                && caches[l].max_seq_len == seq_len
        &&& layer_h_seqs.len() == self.config.num_layers + 1
        &&& forall|l: int|
            0 <= l < layer_h_seqs.len() ==> (#[trigger] layer_h_seqs[l])@.len() == seq_len
                * self.config.d_model
    }

    /// The inputs of layer `l` for the tokens of a sequence, with all layers blank before it.
    pub open spec fn inputs_of_layer(&self, x: Seq<usize>, l: nat) -> Seq<Seq<A::T>>
        decreases l,
    {
        if l == 0 {
            Seq::new(x.len(), |t: int| self.embed(x[t] as int, t))
        } else {
            let below = self.inputs_of_layer(x, (l - 1) as nat);
            Seq::new(
                x.len(),
                |t: int|
                    self.layers@[l - 1].output_at(
                        below,
                        self.blank(),
                        self.config.hebbian_decay,
                        self.config.hebbian_lr,
                        t,
                    ),
            )
        }
    }

    /// The prediction loss of layer `l` over a sequence, with all layers blank before it.
    pub open spec fn layer_loss(&self, x: Seq<usize>, y: Seq<usize>, l: int) -> A::T {
        self.layers@[l].pred_loss(
            self.inputs_of_layer(x, l as nat),
            y,
            self.blank(),
            self.config.hebbian_decay,
            self.config.hebbian_lr,
            x.len(),
        )
    }

    /// The activations of layer `l` over a sequence, with all layers blank before it.
    pub open spec fn layer_cached(
        &self,
        x: Seq<usize>,
        y: Seq<usize>,
        l: int,
        cache: SequenceCache<A>,
    ) -> bool {
        self.layers@[l].is_cached(
            cache,
            self.inputs_of_layer(x, l as nat),
            y,
            self.blank(),
            self.config.hebbian_decay,
            self.config.hebbian_lr,
            x.len() as int,
        )
    }

    /// The gradients that each layer takes back through its own activations; the embeddings
    /// take those of the first layer, if there is one.
    pub open spec fn decoupled_grads(
        &self,
        x: Seq<usize>,
        caches: Seq<SequenceCache<A>>,
        lambda: LossWeights<A::T>,
    ) -> StackedValues<A::T> {
        let n = x.len();
        let none = no_grads::<A>(self.config);
        let zero_grads = no_stacked_grads::<A>(self.config, self.max_seq_len as nat);
        let embeds = self.embedding_grads_added(
            EmbeddingGrads {
                embeddings: zero_grads.embeddings,
                pos_embeddings: zero_grads.pos_embeddings,
            },
            x,
            |t: int| self.layers@[0].bptt_step(caches[0], lambda, none, n as int, t).delta_hin,
            if self.config.num_layers > 0 {
                n
            } else {
                0
            },
        );
        StackedValues {
            embeddings: embeds.embeddings,
            pos_embeddings: embeds.pos_embeddings,
            layers: Seq::new(
                self.config.num_layers as nat,
                |l: int|
                    none.plus::<A>(
                        self.layers@[l].layer_bptt(caches[l], lambda, none, n as int, 0).grads,
                    ),
            ),
        }
    }

    /// The losses of a sequence from blank states, and the gradients that each layer takes back
    /// through its activations.
    pub open spec fn sequence_done(
        &self,
        x: Seq<usize>,
        y: Seq<usize>,
        lambda: LossWeights<A::T>,
        out: StackedGrads<A>,
    ) -> bool {
        &&& out.losses@ == Seq::new(
            self.config.num_layers as nat,
            |l: int| self.layer_loss(x, y, l),
        )
        &&& exists|caches: Seq<SequenceCache<A>>|
            caches.len() == self.config.num_layers && (forall|l: int|
                0 <= l < caches.len() ==> self.layer_cached(x, y, l, #[trigger] caches[l]))
                && out.grads@ == #[trigger] self.decoupled_grads(x, caches, lambda)
        &&& out.grads@.fits(self.config, self.max_seq_len as nat)
    }

    /// A sequence of the batch can be trained on.
    pub open spec fn trainable(&self, x: Seq<usize>, y: Seq<usize>, seq_len: usize) -> bool {
        &&& is_sequence(x, y, self.config.vocab_size as nat)
        &&& x.len() <= seq_len
    }

    /// There is a sequence `i` in the batch, and it can be trained on.
    pub open spec fn batch_ready(
        &self,
        xs: Seq<Vec<usize>>,
        ys: Seq<Vec<usize>>,
        seq_len: usize,
        i: usize,
    ) -> bool {
        &&& i < xs.len()
        &&& i < ys.len()
        &&& lawful::<A>()
        &&& self.can_train(seq_len as nat)
        &&& self.trainable(xs[i as int]@, ys[i as int]@, seq_len)
    }

    /// Every sequence of a batch was done.
    pub open spec fn batch_done(
        &self,
        xs: Seq<Vec<usize>>,
        ys: Seq<Vec<usize>>,
        lambda: LossWeights<A::T>,
        outs: Seq<StackedGrads<A>>,
    ) -> bool {
        &&& outs.len() == xs.len()
        &&& forall|i: int|
            0 <= i < xs.len() ==> self.sequence_done(
                xs[i]@,
                ys[i]@,
                lambda,
                #[trigger] outs[i],
            )
    }

    /// From blank states, the inputs of every layer are those of blank layers.
    proof fn lemma_blank_inputs(&self, x: Seq<usize>, states: Seq<LayerState<A>>, l: nat)
        requires
            l <= states.len(),
            forall|k: int| 0 <= k < states.len() ==> self.is_blank_state(#[trigger] states[k]),
        ensures
            self.layer_inputs(x, states, l) == self.inputs_of_layer(x, l),
        decreases l,
    {
        if l > 0 {
            self.lemma_blank_inputs(x, states, (l - 1) as nat);
            assert(self.is_blank_state(states[l - 1]));
        }
        assert(self.layer_inputs(x, states, l) =~= self.inputs_of_layer(x, l));
    }

    /// The losses of the first `n` sequences in layer `l`, added in order.
    pub open spec fn layer_losses_summed(
        &self,
        xs: Seq<Vec<usize>>,
        ys: Seq<Vec<usize>>,
        l: int,
        n: nat,
    ) -> A::T
        decreases n,
    {
        if n == 0 {
            zero::<A>()
        } else {
            s_plus::<A>(
                self.layer_losses_summed(xs, ys, l, (n - 1) as nat),
                self.layer_loss(xs[n - 1]@, ys[n - 1]@, l),
            )
        }
    }
}

/// The gradients of the first `n` sequences, added in order.
pub open spec fn stacked_grads_summed<A: Arith>(
    start: StackedValues<A::T>,
    outs: Seq<StackedGrads<A>>,
    n: nat,
) -> StackedValues<A::T>
    decreases n,
{
    if n == 0 {
        start
    } else {
        stacked_grads_summed::<A>(start, outs, (n - 1) as nat).plus::<A>(outs[n - 1].grads@)
    }
}

/// Forward through all layers with the activations cached, then backward through each of them
/// on its own.
pub fn stacked_sequence_gradients<A: Arith>(
    model: &AxiomModel<A>,
    x_seq: &[usize],
    y_seq: &[usize],
    seq_len: usize,
    loss_weights: &LocalLossConfig<A>,
) -> (out: StackedGrads<A>)
    requires
        lawful::<A>(),
        model.can_train(seq_len as nat),
        model.trainable(x_seq@, y_seq@, seq_len),
    ensures
        model.sequence_done(x_seq@, y_seq@, loss_weights.weights(), out),
{
    proof {
        if model.config.num_layers > 0 {
            let layer = model.layers@[0];
            assert(layer.wf());
            assert(layer.w_s.len() == layer.w_s@.len());
            assert(layer.w_gate.len() == layer.w_gate@.len());
        }
        assert(model.embeddings.len() == model.embeddings@.len());
        assert(model.pos_embeddings.len() == model.pos_embeddings@.len());
    }
    let mut states = new_states(model);
    let mut scratches = new_scratches(model);
    let mut caches = new_caches(model, seq_len);
    let mut layer_h_seqs = new_layer_seqs(model, seq_len);
    let mut grads = StackedModelGrads::new(&model.config, model.max_seq_len);
    let ghost before = states@;
    // Sequential forward pass across layers (L stages)
    assert(x_seq@.len() * model.config.d_model <= seq_len * model.config.d_model)
        by (nonlinear_arith)
        requires
            x_seq@.len() <= seq_len,
            0 <= model.config.d_model,
    ;
    let losses = model.forward_sequence_stacked(
        x_seq,
        y_seq,
        states.as_mut_slice(),
        scratches.as_mut_slice(),
        caches.as_mut_slice(),
        layer_h_seqs.as_mut_slice(),
    );
    proof {
        assert forall|l: int| 0 <= l < caches@.len() implies model.layer_cached(
            x_seq@,
            y_seq@,
            l,
            #[trigger] caches@[l],
        ) && losses@[l] == model.layer_loss(x_seq@, y_seq@, l) && caches@[l].fits(model.config)
            && caches@[l].routes_are_valid(model.config, x_seq@.len() as int) by {
            model.lemma_blank_inputs(x_seq@, before, l as nat);
            assert(model.is_blank_state(before[l]));
            assert(model.layer_done(
                x_seq@,
                y_seq@,
                before,
                l,
                states@[l],
                caches@[l],
                losses@[l],
            ));
        }
    }
    // Decoupled parallel backward pass across all L layers
    model.backward_decoupled_parallel(
        x_seq,
        caches.as_slice(),
        scratches.as_mut_slice(),
        loss_weights.lambda_pred,
        loss_weights.lambda_recon,
        loss_weights.lambda_residual,
        &mut grads,
    );
    proof {
        let want = Seq::new(
            model.config.num_layers as nat,
            |l: int| model.layer_loss(x_seq@, y_seq@, l),
        );
        assert forall|l: int| 0 <= l < losses@.len() implies losses@[l] == want[l] by {
            assert(model.layer_cached(x_seq@, y_seq@, l, caches@[l]));
        }
        assert(losses@ =~= want);
        let want = model.decoupled_grads(x_seq@, caches@, loss_weights.weights());
        assert(grads@.layers =~= want.layers);
        assert(grads@ == want);
    }
    StackedGrads { losses, grads }
}

/// The gradients of a batch: those of its sequences, computed in parallel, added in order and
/// scaled to the mean over its tokens.
pub fn stacked_batch_gradients<A: Arith>(
    model: &AxiomModel<A>,
    batch_x: &[Vec<usize>],
    batch_y: &[Vec<usize>],
    seq_len: usize,
    loss_weights: &LocalLossConfig<A>,
) -> (grads: StackedModelGrads<A>)
    requires
        lawful::<A>(),
        model.can_train(seq_len as nat),
        batch_x@.len() == batch_y@.len(),
        batch_x@.len() * seq_len <= usize::MAX,
        forall|i: int|
            0 <= i < batch_x@.len() ==> model.trainable(
                #[trigger] batch_x@[i]@,
                batch_y@[i]@,
                seq_len,
            ),
    ensures
        exists|outs: Seq<StackedGrads<A>>|
            #[trigger] model.batch_done(batch_x@, batch_y@, loss_weights.weights(), outs) && grads@
                == stacked_grads_summed::<A>(
                no_stacked_grads::<A>(model.config, model.max_seq_len as nat),
                outs,
                outs.len(),
            ).scaled::<A>(batch_scale::<A>(batch_x.len(), seq_len)),
        grads@.fits(model.config, model.max_seq_len as nat),
{
    let n: usize = batch_x.len();
    let results = par_map(
        n,
        |i: usize| -> (out: StackedGrads<A>)
            requires
                model.batch_ready(batch_x@, batch_y@, seq_len, i),
            ensures
                model.sequence_done(
                    batch_x@[i as int]@,
                    batch_y@[i as int]@,
                    loss_weights.weights(),
                    out,
                )
            {
                stacked_sequence_gradients(
                    model,
                    batch_x[i].as_slice(),
                    batch_y[i].as_slice(),
                    seq_len,
                    loss_weights,
                )
            },
    );
    assert forall|j: int| 0 <= j < n implies model.sequence_done(
        batch_x@[j]@,
        batch_y@[j]@,
        loss_weights.weights(),
        #[trigger] results@[j],
    ) by {
        let i = j as usize;
        assert(results@[i as int] == results@[j]);
    }
    assert(model.batch_done(batch_x@, batch_y@, loss_weights.weights(), results@));
    // Aggregate gradients
    let ghost none = no_stacked_grads::<A>(model.config, model.max_seq_len as nat);
    proof {
        if model.config.num_layers > 0 {
            let layer = model.layers@[0];
            assert(layer.wf());
            assert(layer.w_s.len() == layer.w_s@.len());
            assert(layer.w_gate.len() == layer.w_gate@.len());
        }
        assert(model.embeddings.len() == model.embeddings@.len());
        assert(model.pos_embeddings.len() == model.pos_embeddings@.len());
    }
    let mut total_grads = StackedModelGrads::new(&model.config, model.max_seq_len);
    let mut i: usize = 0;
    while i < n
        invariant
            lawful::<A>(),
            i <= n,
            results@.len() == n,
            forall|j: int|
                0 <= j < n ==> (#[trigger] results@[j]).grads@.fits(
                    model.config,
                    model.max_seq_len as nat,
                ),
            total_grads@.fits(model.config, model.max_seq_len as nat),
            total_grads@ == stacked_grads_summed::<A>(none, results@, i as nat),
        decreases n - i,
    {
        assert(results@[i as int].grads@.fits(model.config, model.max_seq_len as nat));
        total_grads.add(&results[i].grads);
        i += 1;
    }
    let scale = A::over(A::lit(1, 0), A::count(n * seq_len));
    total_grads.scale(scale);
    total_grads
}

/// What a training step makes of a model and its optimizer: the optimizer takes the mean
/// gradients of the batch at the learning rate of the step.
#[verifier::opaque]
pub open spec fn is_stacked_step<A: Arith>(
    model: AxiomModel<A>,
    optimizer: StackedAdamW<A>,
    xs: Seq<Vec<usize>>,
    ys: Seq<Vec<usize>>,
    config: TrainerConfig<A>,
    step: usize,
    current_lr: A::T,
    next_model: AxiomModel<A>,
    next: StackedAdamW<A>,
) -> bool {
    &&& current_lr == config.lr_at(step)
    &&& exists|outs: Seq<StackedGrads<A>>|
        {
            let no_grads = no_stacked_grads::<A>(model.config, model.max_seq_len as nat);
            &&& #[trigger] model.batch_done(xs, ys, config.loss_weights.weights(), outs)
            &&& optimizer.takes_to(
                model,
                stacked_grads_summed::<A>(no_grads, outs, outs.len()).scaled::<A>(
                    batch_scale::<A>(config.batch_size, config.seq_len),
                ),
                current_lr,
                next,
                next_model,
            )
        }
}

/// One training step: the gradients of a batch, the learning rate of the step and an update of
/// the model by the optimizer. Returns the learning rate.
pub fn stacked_train_step<A: Arith>(
    model: &mut AxiomModel<A>,
    optimizer: &mut StackedAdamW<A>,
    batch_x: &[Vec<usize>],
    batch_y: &[Vec<usize>],
    config: &TrainerConfig<A>,
    step: usize,
) -> (current_lr: A::T)
    requires
        lawful::<A>(),
        old(model).can_train(config.seq_len as nat),
        old(optimizer).fits(*old(model)),
        old(optimizer).step < usize::MAX,
        batch_x@.len() == config.batch_size,
        batch_y@.len() == config.batch_size,
        config.batch_size * config.seq_len <= usize::MAX,
        forall|i: int|
            0 <= i < batch_x@.len() ==> old(model).trainable(
                #[trigger] batch_x@[i]@,
                batch_y@[i]@,
                config.seq_len,
            ),
        step < config.warmup_steps || config.warmup_steps <= config.max_steps,
    ensures
        is_stacked_step::<A>(
            *old(model),
            *old(optimizer),
            batch_x@,
            batch_y@,
            *config,
            step,
            current_lr,
            *final(model),
            *final(optimizer),
        ),
        final(optimizer).step == old(optimizer).step + 1,
        final(model).config == old(model).config,
        final(optimizer).fits(*final(model)),
        final(model).can_train(config.seq_len as nat),
{
    reveal(is_stacked_step);
    let mut grads = stacked_batch_gradients(
        model,
        batch_x,
        batch_y,
        config.seq_len,
        &config.loss_weights,
    );
    let current_lr = get_lr(step, config);
    optimizer.step(model, &mut grads, current_lr);
    current_lr
}

/// The bits per character of each layer: the mean loss of its tokens.
pub open spec fn layer_bpcs<A: Arith>(
    model: AxiomModel<A>,
    xs: Seq<Vec<usize>>,
    ys: Seq<Vec<usize>>,
    tokens: usize,
) -> Seq<A::T> {
    Seq::new(
        model.config.num_layers as nat,
        |l: int| bpc_of::<A>(model.layer_losses_summed(xs, ys, l, xs.len()), tokens),
    )
}

/// The mean of some losses over their tokens, in bits per character.
pub open spec fn bpc_of<A: Arith>(loss: A::T, tokens: usize) -> A::T {
    s_over::<A>(s_over::<A>(loss, s_count::<A>(tokens)), s_lit::<A>(693147180559945309, 18))
}

/// The mean losses over some tokens, in bits per character.
fn to_bpcs<A: Arith>(losses: &[A::T], tokens: usize) -> (bpcs: Vec<A::T>)
    requires
        lawful::<A>(),
    ensures
        bpcs@ == Seq::new(losses@.len(), |l: int| bpc_of::<A>(losses@[l], tokens)),
{
    let n: usize = losses.len();
    let mut bpcs: Vec<A::T> = Vec::with_capacity(n);
    let mut l: usize = 0;
    while l < n
        invariant
            lawful::<A>(),
            l <= n,
            n == losses@.len(),
            bpcs@ == Seq::new(l as nat, |l: int| bpc_of::<A>(losses@[l], tokens)),
        decreases n - l,
    {
        let mean = A::over(losses[l], A::count(tokens));
        bpcs.push(A::over(mean, A::lit(693147180559945309, 18)));
        l += 1;
        assert(bpcs@ =~= Seq::new(l as nat, |l: int| bpc_of::<A>(losses@[l], tokens)));
    }
    bpcs
}

/// Run a sequence through all layers from blank states; returns the prediction loss of each.
fn run_sequence<A: Arith>(
    model: &AxiomModel<A>,
    x_seq: &[usize],
    y_seq: &[usize],
    seq_len: usize,
    states: &mut Vec<LayerState<A>>,
    scratches: &mut Vec<LayerScratch<A>>,
    caches: &mut Vec<SequenceCache<A>>,
    layer_h_seqs: &mut Vec<Vec<A::T>>,
) -> (losses: Vec<A::T>)
    requires
        lawful::<A>(),
        model.can_train(seq_len as nat),
        model.trainable(x_seq@, y_seq@, seq_len),
        model.fit_together(old(states)@, old(scratches)@, old(caches)@, old(layer_h_seqs)@, seq_len),
    ensures
        losses@.len() == model.config.num_layers,
        forall|l: int|
            0 <= l < losses@.len() ==> #[trigger] losses@[l] == model.layer_loss(
                x_seq@,
                y_seq@,
                l,
            ),
        model.fit_together(
            final(states)@,
            final(scratches)@,
            final(caches)@,
            final(layer_h_seqs)@,
            seq_len,
        ),
{
    reset_states(model, states);
    let ghost before = states@;
    assert(x_seq@.len() * model.config.d_model <= seq_len * model.config.d_model)
        by (nonlinear_arith)
        requires
            x_seq@.len() <= seq_len,
            0 <= model.config.d_model,
    ;
    let losses = model.forward_sequence_stacked(
        x_seq,
        y_seq,
        states.as_mut_slice(),
        scratches.as_mut_slice(),
        caches.as_mut_slice(),
        layer_h_seqs.as_mut_slice(),
    );
    proof {
        assert forall|l: int| 0 <= l < losses@.len() implies #[trigger] losses@[l]
            == model.layer_loss(x_seq@, y_seq@, l) && model.is_ready_state(states@[l])
            && caches@[l].fits(model.config) by {
            model.lemma_blank_inputs(x_seq@, before, l as nat);
            assert(model.is_blank_state(before[l]));
            assert(model.layer_done(x_seq@, y_seq@, before, l, states@[l], caches@[l], losses@[l]));
        }
        assert forall|l: int| 0 <= l < states@.len() implies model.is_ready_state(
            #[trigger] states@[l],
        ) by {
            assert(losses@[l] == model.layer_loss(x_seq@, y_seq@, l));
        }
        assert forall|l: int| 0 <= l < caches@.len() implies (#[trigger] caches@[l]).fits(
            model.config,
        ) && caches@[l].max_seq_len == seq_len by {
            assert(losses@[l] == model.layer_loss(x_seq@, y_seq@, l));
        }
    }
    losses
}

/// The bits per character of each layer on some sequences.
#[verifier::rlimit(60)]
#[verifier::spinoff_prover]
pub fn evaluate_stacked_sequences<A: Arith>(
    model: &AxiomModel<A>,
    xs: &[Vec<usize>],
    ys: &[Vec<usize>],
    seq_len: usize,
) -> (bpcs: Vec<A::T>)
    requires
        lawful::<A>(),
        model.can_train(seq_len as nat),
        xs@.len() == ys@.len(),
        xs@.len() * seq_len <= usize::MAX,
        forall|i: int|
            0 <= i < xs@.len() ==> model.trainable(#[trigger] xs@[i]@, ys@[i]@, seq_len),
    ensures
        bpcs@ == layer_bpcs::<A>(*model, xs@, ys@, (xs@.len() * seq_len) as usize),
{
    let num_layers: usize = model.config.num_layers;
    let mut total_losses = zero_vec::<A>(num_layers);
    let mut states = new_states(model);
    let mut scratches = new_scratches(model);
    let mut caches = new_caches(model, seq_len);
    let mut layer_h_seqs = new_layer_seqs(model, seq_len);
    assert forall|l: int| 0 <= l < num_layers implies model.is_ready_state(
        #[trigger] states@[l],
    ) by {
        assert(model.is_blank_state(states@[l]));
    }
    let mut i: usize = 0;
    while i < xs.len()
        invariant
            lawful::<A>(),
            model.can_train(seq_len as nat),
            num_layers == model.config.num_layers,
            i <= xs@.len(),
            xs@.len() == ys@.len(),
            forall|i: int|
                0 <= i < xs@.len() ==> model.trainable(#[trigger] xs@[i]@, ys@[i]@, seq_len),
            total_losses@.len() == num_layers,
            forall|l: int|
                0 <= l < num_layers ==> #[trigger] total_losses@[l] == model.layer_losses_summed(
                    xs@,
                    ys@,
                    l,
                    i as nat,
                ),
            model.fit_together(states@, scratches@, caches@, layer_h_seqs@, seq_len),
        decreases xs@.len() - i,
    {
        let x_seq = xs[i].as_slice();
        let y_seq = ys[i].as_slice();
        assert(model.trainable(xs@[i as int]@, ys@[i as int]@, seq_len));
        let losses = run_sequence(
            model,
            x_seq,
            y_seq,
            seq_len,
            &mut states,
            &mut scratches,
            &mut caches,
            &mut layer_h_seqs,
        );
        let ghost totals = total_losses@;
        vec_add::<A>(total_losses.as_mut_slice(), losses.as_slice());
        proof {
            assert forall|l: int| 0 <= l < num_layers implies #[trigger] total_losses@[l]
                == model.layer_losses_summed(xs@, ys@, l, (i + 1) as nat) by {
                assert(losses@[l] == model.layer_loss(x_seq@, y_seq@, l));
                assert(totals[l] == model.layer_losses_summed(xs@, ys@, l, i as nat));
            }
        }
        i += 1;
    }
    let total_tokens: usize = xs.len() * seq_len;
    let bpcs = to_bpcs::<A>(total_losses.as_slice(), total_tokens);
    assert(bpcs@ =~= layer_bpcs::<A>(*model, xs@, ys@, total_tokens));
    bpcs
}

/// Put all states back to the start of a sequence.
fn reset_states<A: Arith>(model: &AxiomModel<A>, states: &mut Vec<LayerState<A>>)
    requires
        lawful::<A>(),
        forall|l: int|
            0 <= l < old(states)@.len() ==> model.is_ready_state(#[trigger] old(states)@[l]),
    ensures
        final(states)@.len() == old(states)@.len(),
        forall|l: int|
            0 <= l < final(states)@.len() ==> model.is_blank_state(#[trigger] final(states)@[l]),
{
    let n: usize = states.len();
    let mut l: usize = 0;
    while l < n
        invariant
            lawful::<A>(),
            l <= n,
            n == states@.len(),
            n == old(states)@.len(),
            forall|k: int| 0 <= k < l ==> model.is_blank_state(#[trigger] states@[k]),
            forall|k: int| l <= k < n ==> model.is_ready_state(#[trigger] states@[k]),
        decreases n - l,
    {
        assert(model.is_ready_state(states@[l as int]));
        states[l].reset();
        l += 1;
    }
}

/// The BPC of each layer on the windows that the validation draws.
#[verifier::opaque]
pub open spec fn is_stacked_validation<A: Arith>(
    model: AxiomModel<A>,
    data: Seq<u8>,
    num_batches: nat,
    seq_len: nat,
    bpcs: Seq<A::T>,
) -> bool {
    exists|xs: Seq<Vec<usize>>, ys: Seq<Vec<usize>>|
        windows_from_seed(999, data, seq_len, num_batches, xs, ys) && bpcs
            == #[trigger] layer_bpcs::<A>(model, xs, ys, (num_batches * seq_len) as usize)
}

/// Evaluate per-layer validation BPC across all L stacked layers, on windows of the dataset
/// that are drawn anew from the same seed every time.
pub fn evaluate_stacked_bpc<A: Arith>(
    model: &AxiomModel<A>,
    val_dataset: &CharDataset,
    num_batches: usize,
    seq_len: usize,
) -> (bpcs: Vec<A::T>)
    requires
        lawful::<A>(),
        model.can_train(seq_len as nat),
        num_batches > 0 ==> forall|i: int|
            0 <= i < val_dataset.data@.len() ==> #[trigger] val_dataset.data@[i]
                < model.config.vocab_size,
        num_batches > 0 ==> val_dataset.data@.len() > seq_len + 1,
        num_batches * seq_len <= usize::MAX,
    ensures
        is_stacked_validation::<A>(
            *model,
            val_dataset.data@,
            num_batches as nat,
            seq_len as nat,
            bpcs@,
        ),
{
    reveal(is_stacked_validation);
    let mut rng = seeded(999);
    let ghost first = rng;
    let (xs, ys) = sample_windows(val_dataset.data.as_slice(), num_batches, seq_len, &mut rng);
    proof {
        windows_lie_in_the_data(first, val_dataset.data@, seq_len as nat, xs@, ys@, rng);
        assert(windows_from_seed(
            999,
            val_dataset.data@,
            seq_len as nat,
            num_batches as nat,
            xs@,
            ys@,
        ));
    }
    assert forall|i: int| 0 <= i < xs@.len() implies model.trainable(
        #[trigger] xs@[i]@,
        ys@[i]@,
        seq_len,
    ) by {
        assert(is_batch_row(val_dataset.data@, seq_len as nat, xs@[i]@, ys@[i]@));
    }
    let bpcs = evaluate_stacked_sequences(model, xs.as_slice(), ys.as_slice(), seq_len);
    assert(bpcs@ == layer_bpcs::<A>(
        *model,
        xs@,
        ys@,
        ((num_batches as nat) * (seq_len as nat)) as usize,
    ));
    bpcs
}

} // verus!
