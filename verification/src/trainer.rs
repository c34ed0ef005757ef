//! Batch gradients, learning rate schedule and evaluation for training with Truncated BPTT.

use vstd::prelude::*;
use crate::arith::{
    Arith, lawful, one, s_cos, s_count, s_lit, s_minus, s_over, s_plus, s_smaller, s_times, zero,
};
use crate::dataset::{
    CharDataset, is_batch_row, sample_windows, windows_from_seed, windows_lie_in_the_data,
};
use crate::layer::{LayerScratch, LayerState, LossWeights, SequenceCache, zero_vec};
use crate::model::{AxiomSingleLayerModel, ModelGrads, ModelValues, no_model_grads};
use crate::optimizer::AdamW;
use crate::parallel::par_map;
use crate::rng::seeded;
use crate::sequence::Carried;
use crate::softmax::cross_entropy_of;
use crate::tensor::zeros;

verus! {

/// Loss weight hyperparameters for local layer objective:
/// L_l = lambda_pred * CE(p^l, y)
///     + lambda_recon * ||decode^l(h_l) - h_{l-1}||^2
///     + lambda_residual * ||h_l - h_{l-1}||^2
///
/// `lambda_balance` is the weight set for the load of the experts, which has no gradient.
#[derive(Debug, Clone)]
pub struct LocalLossConfig<A: Arith> {
    pub lambda_pred: A::T,
    pub lambda_recon: A::T,
    pub lambda_balance: A::T,
    pub lambda_residual: A::T,
}

impl<A: Arith> LocalLossConfig<A> {
    /// The weights of the three losses that have gradients.
    pub open spec fn weights(&self) -> LossWeights<A::T> {
        LossWeights {
            pred: self.lambda_pred,
            recon: self.lambda_recon,
            residual: self.lambda_residual,
        }
    }
}

impl<A: Arith> Default for LocalLossConfig<A> {
    fn default() -> (cfg: Self)
        ensures
            lawful::<A>() ==> cfg.lambda_pred == s_lit::<A>(1, 0) && cfg.lambda_recon == s_lit::<
                A,
            >(5, 2) && cfg.lambda_balance == s_lit::<A>(0, 0) && cfg.lambda_residual == s_lit::<A>(
                1,
                2,
            ),
    {
        Self {
            lambda_pred: A::lit(1, 0),
            lambda_recon: A::lit(5, 2),
            lambda_balance: A::lit(0, 0),
            lambda_residual: A::lit(1, 2),
        }
    }
}

/// Training Hyperparameters for Single-Layer Model.
#[derive(Debug, Clone)]
pub struct TrainerConfig<A: Arith> {
    pub batch_size: usize,
    pub seq_len: usize,
    pub max_steps: usize,
    pub max_time_secs: u64,
    pub base_lr: A::T,
    pub min_lr: A::T,
    pub warmup_steps: usize,
    pub eval_interval: usize,
    pub loss_weights: LocalLossConfig<A>,
}

impl<A: Arith> TrainerConfig<A> {
    /// The learning rate of a step.
    pub open spec fn lr_at(&self, step: usize) -> A::T {
        lr_of::<A>(
            step,
            self.warmup_steps,
            if self.max_steps > self.warmup_steps {
                (self.max_steps - self.warmup_steps) as usize
            } else {
                1
            },
            self.min_lr,
            self.base_lr,
        )
    }
}

impl<A: Arith> Default for TrainerConfig<A> {
    fn default() -> (cfg: Self)
        ensures
            cfg.batch_size == 32,
            cfg.seq_len == 64,
            cfg.max_steps == 5000,
            cfg.max_time_secs == 300,
            cfg.warmup_steps == 100,
            cfg.eval_interval == 50,
            lawful::<A>() ==> cfg.base_lr == s_lit::<A>(5, 3) && cfg.min_lr == s_lit::<A>(1, 4),
            lawful::<A>() ==> cfg.loss_weights.lambda_pred == s_lit::<A>(1, 0)
                && cfg.loss_weights.lambda_recon == s_lit::<A>(5, 2)
                && cfg.loss_weights.lambda_balance == s_lit::<A>(0, 0)
                && cfg.loss_weights.lambda_residual == s_lit::<A>(1, 2),
    {
        Self {
            batch_size: 32,
            seq_len: 64,
            max_steps: 5000,
            max_time_secs: 300,  // 5 minute hard budget
            base_lr: A::lit(5, 3),
            min_lr: A::lit(1, 4),
            warmup_steps: 100,
            eval_interval: 50,
            loss_weights: LocalLossConfig::default(),
        }
    }
}

/// A learning rate at the fraction `part` of the way from the lowest to the highest.
pub open spec fn lr_between<A: Arith>(min_lr: A::T, base_lr: A::T, part: A::T) -> A::T {
    s_plus::<A>(min_lr, s_times::<A>(part, s_minus::<A>(base_lr, min_lr)))
}

/// The fraction that is left of the learning rate after `done` of `span` steps of cosine decay.
pub open spec fn cosine_part<A: Arith>(done: usize, span: usize) -> A::T {
    let progress = s_smaller::<A>(
        s_over::<A>(s_count::<A>(done), s_count::<A>(span)),
        one::<A>(),
    );
    s_times::<A>(
        s_lit::<A>(5, 1),
        s_plus::<A>(
            one::<A>(),
            s_cos::<A>(s_times::<A>(s_lit::<A>(3141592653589793238, 18), progress)),
        ),
    )
}

/// The learning rate of a step: linear warmup, then cosine decay over `span` steps.
pub open spec fn lr_of<A: Arith>(
    step: usize,
    warmup_steps: usize,
    span: usize,
    min_lr: A::T,
    base_lr: A::T,
) -> A::T {
    if step < warmup_steps {
        lr_between::<A>(
            min_lr,
            base_lr,
            s_over::<A>(s_count::<A>(step), s_count::<A>(warmup_steps)),
        )
    } else {
        lr_between::<A>(
            min_lr,
            base_lr,
            cosine_part::<A>((step - warmup_steps) as usize, span),
        )
    }
}

/// Linear warmup, then cosine decay over `span` steps.
pub fn scheduled_lr<A: Arith>(
    step: usize,
    warmup_steps: usize,
    span: usize,
    min_lr: A::T,
    base_lr: A::T,
) -> (lr: A::T)
    requires
        lawful::<A>(),
    ensures
        lr == lr_of::<A>(step, warmup_steps, span, min_lr, base_lr),
{
    let part = if step < warmup_steps {
        A::over(A::count(step), A::count(warmup_steps))
    } else {
        let progress = A::over(A::count(step - warmup_steps), A::count(span));
        let progress = A::smaller(progress, A::lit(1, 0));
        A::times(
            A::lit(5, 1),
            A::plus(A::lit(1, 0), A::cos(A::times(A::lit(3141592653589793238, 18), progress))),
        )
    };
    A::plus(min_lr, A::times(part, A::minus(base_lr, min_lr)))
}

/// Compute cosine decayed learning rate with linear warmup.
pub fn get_lr<A: Arith>(step: usize, config: &TrainerConfig<A>) -> (lr: A::T)
    requires
        lawful::<A>(),
        step < config.warmup_steps || config.warmup_steps <= config.max_steps,
    ensures
        lr == config.lr_at(step),
{
    let span: usize = if config.max_steps > config.warmup_steps {
        config.max_steps - config.warmup_steps
    } else {
        1
    };
    scheduled_lr::<A>(step, config.warmup_steps, span, config.min_lr, config.base_lr)
}

/// Whether a step is followed by an evaluation: the first one, and every `interval` steps.
pub fn is_eval_step(step: usize, interval: usize) -> (eval: bool)
    requires
        interval > 0,
    ensures
        eval <==> step % interval == 0 || step == 1,
{
    step % interval == 0 || step == 1
}

/// The mean loss of some tokens, and the same in bits per character.
pub open spec fn mean_and_bpc<A: Arith>(total_loss: A::T, tokens: usize) -> (A::T, A::T) {
    let mean = if tokens > 0 {
        s_over::<A>(total_loss, s_count::<A>(tokens))
    } else {
        zero::<A>()
    };
    (mean, s_over::<A>(mean, s_lit::<A>(693147180559945309, 18)))
}

/// The mean loss of some tokens, and the same in bits per character.
pub fn summarize<A: Arith>(total_loss: A::T, tokens: usize) -> (r: (A::T, A::T))
    requires
        lawful::<A>(),
    ensures
        r == mean_and_bpc::<A>(total_loss, tokens),
{
    let mean = if tokens > 0 {
        A::over(total_loss, A::count(tokens))
    } else {
        A::lit(0, 0)
    };
    (mean, A::over(mean, A::lit(693147180559945309, 18)))
}

impl<A: Arith> AxiomSingleLayerModel<A> {
    /// What the layer carries before the first token of a sequence.
    pub open spec fn blank(&self) -> Carried<A::T> {
        Carried {
            m: zeros::<A>((self.config.d_model * self.config.d_model) as nat),
            s: zeros::<A>(self.config.d_model as nat),
        }
    }

    /// The prediction losses of the first `n` tokens of a sequence, added to `start` one by one.
    pub open spec fn losses_added(
        &self,
        start: A::T,
        x: Seq<usize>,
        y: Seq<usize>,
        n: nat,
    ) -> A::T
        decreases n,
    {
        if n == 0 {
            start
        } else {
            let c = self.config;
            let out = self.layer.output_at(
                self.inputs(x),
                self.blank(),
                c.hebbian_decay,
                c.hebbian_lr,
                n - 1,
            );
            s_plus::<A>(
                self.losses_added(start, x, y, (n - 1) as nat),
                cross_entropy_of::<A>(self.layer.logits_of(out), y[n - 1] as int),
            )
        }
    }

    /// The prediction losses of the first `n` sequences, token by token from zero.
    pub open spec fn total_loss(
        &self,
        xs: Seq<Vec<usize>>,
        ys: Seq<Vec<usize>>,
        n: nat,
    ) -> A::T
        decreases n,
    {
        if n == 0 {
            zero::<A>()
        } else {
            self.losses_added(
                self.total_loss(xs, ys, (n - 1) as nat),
                xs[n - 1]@,
                ys[n - 1]@,
                xs[n - 1]@.len(),
            )
        }
    }

    /// A state for sequences can be set up: there is room for a token in the copy buffer.
    pub open spec fn can_run(&self) -> bool {
        self.wf() && self.config.buffer_capacity > 0
    }
}

/// The tokens of a sequence and of its targets are in the vocabulary.
pub open spec fn is_sequence(x: Seq<usize>, y: Seq<usize>, vocab: nat) -> bool {
    &&& x.len() == y.len()
    &&& forall|t: int| 0 <= t < x.len() ==> #[trigger] x[t] < vocab
    &&& forall|t: int| 0 <= t < x.len() ==> #[trigger] y[t] < vocab
}

/// The prediction losses of some sequences, token by token.
pub fn evaluate_sequences<A: Arith>(
    model: &AxiomSingleLayerModel<A>,
    xs: &[Vec<usize>],
    ys: &[Vec<usize>],
) -> (total: A::T)
    requires
        lawful::<A>(),
        model.can_run(),
        xs@.len() == ys@.len(),
        forall|i: int|
            0 <= i < xs@.len() ==> is_sequence(
                #[trigger] xs@[i]@,
                ys@[i]@,
                model.config.vocab_size as nat,
            ),
    ensures
        total == model.total_loss(xs@, ys@, xs@.len()),
{
    let d: usize = model.config.d_model;
    proof {
        assert(model.layer.w_decode.len() == model.layer.w_decode@.len());
        assert(model.layer.w_s.len() == model.layer.w_s@.len());
        assert(3 * d <= d * (3 * d) || d == 0) by (nonlinear_arith)
            requires
                d >= 0,
        ;
    }
    let mut state = LayerState::new(&model.config);
    let mut scratch = LayerScratch::new(&model.config);
    let mut h_in = zero_vec::<A>(d);
    let mut h_out = zero_vec::<A>(d);
    let mut total_loss = A::lit(0, 0);
    let ghost c = model.config;
    let mut i: usize = 0;
    while i < xs.len()
        invariant
            lawful::<A>(),
            model.can_run(),
            i <= xs@.len(),
            xs@.len() == ys@.len(),
            c == model.config,
            d == model.config.d_model,
            forall|i: int|
                0 <= i < xs@.len() ==> is_sequence(
                    #[trigger] xs@[i]@,
                    ys@[i]@,
                    model.config.vocab_size as nat,
                ),
            state.fits(d as nat),
            state.memory.decay == c.hebbian_decay,
            state.memory.lr == c.hebbian_lr,
            scratch@.fits(c),
            h_in@.len() == d,
            h_out@.len() == d,
            total_loss == model.total_loss(xs@, ys@, i as nat),
        decreases xs@.len() - i,
    {
        let x_seq = &xs[i];
        let y_seq = &ys[i];
        let ghost start = total_loss;
        let ghost inputs = model.inputs(x_seq@);
        assert(is_sequence(xs@[i as int]@, ys@[i as int]@, model.config.vocab_size as nat));
        state.reset();
        let mut t: usize = 0;
        while t < x_seq.len()
            invariant
                lawful::<A>(),
                model.can_run(),
                t <= x_seq@.len(),
                c == model.config,
                d == model.config.d_model,
                is_sequence(x_seq@, y_seq@, model.config.vocab_size as nat),
                inputs == model.inputs(x_seq@),
                state.fits(d as nat),
                state.memory.decay == c.hebbian_decay,
                state.memory.lr == c.hebbian_lr,
                state.memory.m@ == model.layer.carried(
                    inputs,
                    model.blank(),
                    c.hebbian_decay,
                    c.hebbian_lr,
                    t as nat,
                ).m,
                state.recurrent_state@ == model.layer.carried(
                    inputs,
                    model.blank(),
                    c.hebbian_decay,
                    c.hebbian_lr,
                    t as nat,
                ).s,
                scratch@.fits(c),
                h_in@.len() == d,
                h_out@.len() == d,
                total_loss == model.losses_added(start, x_seq@, y_seq@, t as nat),
            decreases x_seq@.len() - t,
        {
            assert(x_seq@[t as int] < model.config.vocab_size);
            assert(y_seq@[t as int] < model.config.vocab_size);
            let (loss_pred, _) = model.forward_train_step(
                x_seq[t],
                t,
                y_seq[t],
                &mut state,
                &mut scratch,
                h_in.as_mut_slice(),
                h_out.as_mut_slice(),
            );
            total_loss = A::plus(total_loss, loss_pred);
            t += 1;
        }
        i += 1;
    }
    total_loss
}

/// The mean loss and the BPC on the windows that the validation draws.
#[verifier::opaque]
pub open spec fn is_validation<A: Arith>(
    model: AxiomSingleLayerModel<A>,
    data: Seq<u8>,
    num_batches: nat,
    seq_len: nat,
    r: (A::T, A::T),
) -> bool {
    exists|xs: Seq<Vec<usize>>, ys: Seq<Vec<usize>>|
        windows_from_seed(999, data, seq_len, num_batches, xs, ys) && r == mean_and_bpc::<A>(
            #[trigger] model.total_loss(xs, ys, num_batches),
            (num_batches * seq_len) as usize,
        )
}

/// Evaluate model validation Cross-Entropy loss and Bits Per Character (BPC), on windows of the
/// dataset that are drawn anew from the same seed every time.
pub fn evaluate_bpc<A: Arith>(
    model: &AxiomSingleLayerModel<A>,
    val_dataset: &CharDataset,
    num_batches: usize,
    seq_len: usize,
) -> (r: (A::T, A::T))
    requires
        lawful::<A>(),
        model.can_run(),
        num_batches > 0 ==> forall|i: int|
            0 <= i < val_dataset.data@.len() ==> #[trigger] val_dataset.data@[i]
                < model.config.vocab_size,
        num_batches > 0 ==> val_dataset.data@.len() > seq_len + 1,
        num_batches * seq_len <= usize::MAX,
    ensures
        is_validation::<A>(*model, val_dataset.data@, num_batches as nat, seq_len as nat, r),
{
    reveal(is_validation);
    let mut rng = seeded(999);
    let ghost first = rng;
    let (xs, ys) = sample_windows(val_dataset.data.as_slice(), num_batches, seq_len, &mut rng);
    proof {
        windows_lie_in_the_data(first, val_dataset.data@, seq_len as nat, xs@, ys@, rng);
        assert(windows_from_seed(
            999,
            val_dataset.data@,
            seq_len as nat,
            num_batches as nat,
            xs@,
            ys@,
        ));
    }
    assert forall|i: int| 0 <= i < xs@.len() implies is_sequence(
        #[trigger] xs@[i]@,
        ys@[i]@,
        model.config.vocab_size as nat,
    ) by {
        assert(is_batch_row(val_dataset.data@, seq_len as nat, xs@[i]@, ys@[i]@));
    }
    let total = evaluate_sequences(model, xs.as_slice(), ys.as_slice());
    assert(total == model.total_loss(xs@, ys@, num_batches as nat));
    summarize::<A>(total, num_batches * seq_len)
}

/// What a sequence gives to a training step: its prediction loss, its reconstruction loss and
/// its gradients.
pub struct SequenceGrads<A: Arith> {
    pub loss_pred: A::T,
    pub loss_recon: A::T,
    pub grads: ModelGrads<A>,
}

impl<A: Arith> AxiomSingleLayerModel<A> {
    /// There is room for the activations of sequences of this length, and for the gradients.
    pub open spec fn can_train(&self, seq_len: nat) -> bool {
        &&& self.can_run()
        &&& self.config.d_ffn * self.config.d_model <= usize::MAX
        &&& (seq_len + 1) * self.config.d_model <= usize::MAX
        &&& seq_len * self.config.vocab_size <= usize::MAX
        &&& seq_len * self.config.d_ffn <= usize::MAX
        &&& seq_len < usize::MAX
    }

    /// The losses of a sequence from the blank state, and the gradients that go back through the
    /// activations of all its steps.
    pub open spec fn sequence_done(
        &self,
        x: Seq<usize>,
        y: Seq<usize>,
        lambda: LossWeights<A::T>,
        out: SequenceGrads<A>,
    ) -> bool {
        let (c, inputs, n) = (self.config, self.inputs(x), x.len());
        &&& out.loss_pred == self.layer.pred_loss(
            inputs,
            y,
            self.blank(),
            c.hebbian_decay,
            c.hebbian_lr,
            n,
        )
        &&& out.loss_recon == self.layer.recon_loss(
            inputs,
            self.blank(),
            c.hebbian_decay,
            c.hebbian_lr,
            n,
        )
        &&& exists|cache: SequenceCache<A>|
            self.layer.is_cached(
                cache,
                inputs,
                y,
                self.blank(),
                c.hebbian_decay,
                c.hebbian_lr,
                n as int,
            ) && out.grads@ == #[trigger] self.bptt(
                x,
                cache,
                lambda,
                no_model_grads::<A>(c, self.max_seq_len as nat),
                0,
            ).grads
        &&& out.grads@.fits(c, self.max_seq_len as nat)
    }

    /// A sequence of the batch can be trained on.
    pub open spec fn trainable(&self, x: Seq<usize>, y: Seq<usize>, seq_len: usize) -> bool {
        &&& is_sequence(x, y, self.config.vocab_size as nat)
        &&& x.len() <= seq_len
    }

    /// There is a sequence `i` in the batch, and it can be trained on.
    pub open spec fn batch_ready(
        &self,
        xs: Seq<Vec<usize>>,
        ys: Seq<Vec<usize>>,
        seq_len: usize,
        i: usize,
    ) -> bool {
        &&& i < xs.len()
        &&& i < ys.len()
        &&& lawful::<A>()
        &&& self.can_train(seq_len as nat)
        &&& self.trainable(xs[i as int]@, ys[i as int]@, seq_len)
    }

    /// Every sequence of a batch was done.
    pub open spec fn batch_done(
        &self,
        xs: Seq<Vec<usize>>,
        ys: Seq<Vec<usize>>,
        lambda: LossWeights<A::T>,
        outs: Seq<SequenceGrads<A>>,
    ) -> bool {
        &&& outs.len() == xs.len()
        &&& forall|i: int|
            0 <= i < xs.len() ==> self.sequence_done(
                xs[i]@,
                ys[i]@,
                lambda,
                #[trigger] outs[i],
            )
    }
}

/// The gradients of the first `n` sequences, added in order.
pub open spec fn grads_summed<A: Arith>(
    start: ModelValues<A::T>,
    outs: Seq<SequenceGrads<A>>,
    n: nat,
) -> ModelValues<A::T>
    decreases n,
{
    if n == 0 {
        start
    } else {
        grads_summed::<A>(start, outs, (n - 1) as nat).plus::<A>(outs[n - 1].grads@)
    }
}

/// The prediction losses of the first `n` sequences, added in order.
pub open spec fn losses_summed<A: Arith>(outs: Seq<SequenceGrads<A>>, n: nat) -> A::T
    decreases n,
{
    if n == 0 {
        zero::<A>()
    } else {
        s_plus::<A>(losses_summed::<A>(outs, (n - 1) as nat), outs[n - 1].loss_pred)
    }
}

/// The factor that turns sums over a batch into means over its tokens.
pub open spec fn batch_scale<A: Arith>(batch_size: usize, seq_len: usize) -> A::T {
    s_over::<A>(one::<A>(), s_count::<A>((batch_size * seq_len) as usize))
}

/// Forward through a sequence with the activations cached, then backward through it.
pub fn sequence_gradients<A: Arith>(
    model: &AxiomSingleLayerModel<A>,
    x_seq: &[usize],
    y_seq: &[usize],
    seq_len: usize,
    loss_weights: &LocalLossConfig<A>,
) -> (out: SequenceGrads<A>)
    requires
        lawful::<A>(),
        model.can_train(seq_len as nat),
        model.trainable(x_seq@, y_seq@, seq_len),
    ensures
        model.sequence_done(x_seq@, y_seq@, loss_weights.weights(), out),
{
    proof {
        assert(model.layer.w_s.len() == model.layer.w_s@.len());
        assert(model.layer.w_gate.len() == model.layer.w_gate@.len());
        assert(model.layer.w_decode.len() == model.layer.w_decode@.len());
        assert(model.embeddings.len() == model.embeddings@.len());
        assert(model.pos_embeddings.len() == model.pos_embeddings@.len());
        let d = model.config.d_model;
        assert(3 * d <= d * (3 * d) || d == 0) by (nonlinear_arith)
            requires
                d >= 0,
        ;
    }
    let mut state = LayerState::new(&model.config);
    let mut scratch = LayerScratch::new(&model.config);
    let mut cache = SequenceCache::new(&model.config, seq_len);
    let mut grads = ModelGrads::new(&model.config, model.max_seq_len);
    // Forward pass across sequence caching activations
    let (loss_pred, loss_recon) = model.forward_sequence_cache(
        x_seq,
        y_seq,
        &mut state,
        &mut scratch,
        &mut cache,
    );
    // Truncated BPTT Backward pass across sequence
    model.backward_sequence_bptt(
        x_seq,
        &cache,
        loss_weights.lambda_pred,
        loss_weights.lambda_recon,
        loss_weights.lambda_residual,
        &mut scratch,
        &mut grads,
    );
    SequenceGrads { loss_pred, loss_recon, grads }
}

/// The gradients of a batch: those of its sequences, computed in parallel, added in order and
/// scaled to the mean over its tokens. Also returns the sum of the prediction losses.
pub fn batch_gradients<A: Arith>(
    model: &AxiomSingleLayerModel<A>,
    batch_x: &[Vec<usize>],
    batch_y: &[Vec<usize>],
    seq_len: usize,
    loss_weights: &LocalLossConfig<A>,
) -> (r: (A::T, ModelGrads<A>))
    requires
        lawful::<A>(),
        model.can_train(seq_len as nat),
        batch_x@.len() == batch_y@.len(),
        batch_x@.len() * seq_len <= usize::MAX,
        forall|i: int|
            0 <= i < batch_x@.len() ==> model.trainable(
                #[trigger] batch_x@[i]@,
                batch_y@[i]@,
                seq_len,
            ),
    ensures
        exists|outs: Seq<SequenceGrads<A>>|
            #[trigger] model.batch_done(batch_x@, batch_y@, loss_weights.weights(), outs) && r.0
                == losses_summed::<A>(outs, outs.len()) && r.1@ == grads_summed::<A>(
                no_model_grads::<A>(model.config, model.max_seq_len as nat),
                outs,
                outs.len(),
            ).scaled::<A>(batch_scale::<A>(batch_x.len(), seq_len)),
        r.1@.fits(model.config, model.max_seq_len as nat),
{
    let n: usize = batch_x.len();
    let results = par_map(
        n,
        |i: usize| -> (out: SequenceGrads<A>)
            requires
                model.batch_ready(batch_x@, batch_y@, seq_len, i),
            ensures
                model.sequence_done(
                    batch_x@[i as int]@,
                    batch_y@[i as int]@,
                    loss_weights.weights(),
                    out,
                )
            {
                sequence_gradients(
                    model,
                    batch_x[i].as_slice(),
                    batch_y[i].as_slice(),
                    seq_len,
                    loss_weights,
                )
            },
    );
    assert forall|j: int| 0 <= j < n implies model.sequence_done(
        batch_x@[j]@,
        batch_y@[j]@,
        loss_weights.weights(),
        #[trigger] results@[j],
    ) by {
        let i = j as usize;
        assert(results@[i as int] == results@[j]);
    }
    assert(model.batch_done(batch_x@, batch_y@, loss_weights.weights(), results@));
    // Aggregate gradients and losses
    let ghost none = no_model_grads::<A>(model.config, model.max_seq_len as nat);
    proof {
        assert(model.layer.w_s.len() == model.layer.w_s@.len());
        assert(model.layer.w_gate.len() == model.layer.w_gate@.len());
        assert(model.embeddings.len() == model.embeddings@.len());
        assert(model.pos_embeddings.len() == model.pos_embeddings@.len());
    }
    let mut total_grads = ModelGrads::new(&model.config, model.max_seq_len);
    let mut batch_loss_pred = A::lit(0, 0);
    let mut i: usize = 0;
    while i < n
        invariant
            lawful::<A>(),
            i <= n,
            results@.len() == n,
            forall|j: int|
                0 <= j < n ==> (#[trigger] results@[j]).grads@.fits(
                    model.config,
                    model.max_seq_len as nat,
                ),
            total_grads@.fits(model.config, model.max_seq_len as nat),
            total_grads@ == grads_summed::<A>(none, results@, i as nat),
            batch_loss_pred == losses_summed::<A>(results@, i as nat),
        decreases n - i,
    {
        assert(results@[i as int].grads@.fits(model.config, model.max_seq_len as nat));
        batch_loss_pred = A::plus(batch_loss_pred, results[i].loss_pred);
        total_grads.add(&results[i].grads);
        i += 1;
    }
    // Scale gradients by 1 / (batch_size * seq_len)
    let scale = A::over(A::lit(1, 0), A::count(n * seq_len));
    total_grads.scale(scale);
    (batch_loss_pred, total_grads)
}

/// The loss that is reported of a training step.
pub open spec fn reported_loss<A: Arith>(
    batch_loss_pred: A::T,
    batch_size: usize,
    seq_len: usize,
) -> A::T {
    s_times::<A>(
        s_times::<A>(batch_loss_pred, batch_scale::<A>(batch_size, seq_len)),
        s_count::<A>(seq_len),
    )
}

/// What a training step makes of a model and its optimizer: the loss to report and the learning
/// rate are `r`, and the optimizer takes the mean gradients of the batch.
#[verifier::opaque]
pub open spec fn is_train_step<A: Arith>(
    model: AxiomSingleLayerModel<A>,
    optimizer: AdamW<A>,
    xs: Seq<Vec<usize>>,
    ys: Seq<Vec<usize>>,
    config: TrainerConfig<A>,
    step: usize,
    r: (A::T, A::T),
    next_model: AxiomSingleLayerModel<A>,
    next: AdamW<A>,
) -> bool {
    &&& r.1 == config.lr_at(step)
    &&& exists|outs: Seq<SequenceGrads<A>>|
        {
            let no_grads = no_model_grads::<A>(model.config, model.max_seq_len as nat);
            &&& #[trigger] model.batch_done(xs, ys, config.loss_weights.weights(), outs)
            &&& r.0 == reported_loss::<A>(
                losses_summed::<A>(outs, outs.len()),
                config.batch_size,
                config.seq_len,
            )
            &&& optimizer.takes_to(
                model,
                grads_summed::<A>(no_grads, outs, outs.len()).scaled::<A>(
                    batch_scale::<A>(config.batch_size, config.seq_len),
                ),
                r.1,
                next,
                next_model,
            )
        }
}

/// One training step: the gradients of a batch, the learning rate of the step and an update of
/// the model by the optimizer. Returns the loss to report and the learning rate.
pub fn train_step<A: Arith>(
    model: &mut AxiomSingleLayerModel<A>,
    optimizer: &mut AdamW<A>,
    batch_x: &[Vec<usize>],
    batch_y: &[Vec<usize>],
    config: &TrainerConfig<A>,
    step: usize,
) -> (r: (A::T, A::T))
    requires
        lawful::<A>(),
        old(model).can_train(config.seq_len as nat),
        old(optimizer).fits(*old(model)),
        old(optimizer).step < usize::MAX,
        batch_x@.len() == config.batch_size,
        batch_y@.len() == config.batch_size,
        config.batch_size * config.seq_len <= usize::MAX,
        forall|i: int|
            0 <= i < batch_x@.len() ==> old(model).trainable(
                #[trigger] batch_x@[i]@,
                batch_y@[i]@,
                config.seq_len,
            ),
        step < config.warmup_steps || config.warmup_steps <= config.max_steps,
    ensures
        is_train_step::<A>(
            *old(model),
            *old(optimizer),
            batch_x@,
            batch_y@,
            *config,
            step,
            r,
            *final(model),
            *final(optimizer),
        ),
        final(optimizer).step == old(optimizer).step + 1,
        final(model).config == old(model).config,
        final(optimizer).fits(*final(model)),
        final(model).can_train(config.seq_len as nat),
{
    reveal(is_train_step);
    let (batch_loss_pred, mut grads) = batch_gradients(
        model,
        batch_x,
        batch_y,
        config.seq_len,
        &config.loss_weights,
    );
    let scale = A::over(A::lit(1, 0), A::count(config.batch_size * config.seq_len));
    let loss = A::times(A::times(batch_loss_pred, scale), A::count(config.seq_len));
    let current_lr = get_lr(step, config);
    optimizer.step(model, &mut grads, current_lr);
    (loss, current_lr)
}

} // verus!
