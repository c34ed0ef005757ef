//! Progressive Layer Freezing: the first layer is trained and frozen, and the second one is
//! trained on what the first one puts out.

use vstd::prelude::*;
use crate::arith::{Arith, lawful, s_count, s_exceeds, s_lit, s_over, s_plus, zero};
use crate::dataset::{
    CharDataset, is_batch_row, sample_windows, windows_from_seed, windows_lie_in_the_data,
};
use crate::layer::{
    AxiomLayer, LayerGrads, LayerScratch, LayerState, LayerValues, LossWeights, SequenceCache,
    no_grads, zero_vec,
};
use crate::matvec::matvec;
use crate::model::{AxiomSingleLayerModel, ModelGrads, ModelValues, no_model_grads};
use crate::optimizer::AdamW;
use crate::parallel::par_map;
use crate::rng::seeded;
use crate::sequence::{row_at, write_row};
use crate::softmax::{cross_entropy_loss_and_grad, cross_entropy_of};
use crate::stacked_model::AxiomModel;
use crate::tensor::{MatrixView, lemma_row_bounds, row_of, zeros};
use crate::trainer::{LocalLossConfig, batch_scale, is_sequence, lr_of, scheduled_lr};

verus! {

/// What a sequence gives to a training step of the upper layer.
pub struct UpperGrads<A: Arith> {
    pub loss_pred: A::T,
    pub grads: LayerGrads<A>,
}

/// Run a sequence through the frozen first layer: row `t` of the result is its output for
/// token `t`.
pub fn frozen_hidden<A: Arith>(frozen: &AxiomModel<A>, x_seq: &[usize]) -> (h_1_seq: Vec<A::T>)
    requires
        lawful::<A>(),
        frozen.can_train(x_seq@.len()),
        frozen.config.num_layers > 0,
        forall|t: int| 0 <= t < x_seq@.len() ==> #[trigger] x_seq@[t] < frozen.config.vocab_size,
    ensures
        h_1_seq@.len() == x_seq@.len() * frozen.config.d_model,
        forall|t: int|
            0 <= t < x_seq@.len() ==> #[trigger] row_of(
                h_1_seq@,
                frozen.config.d_model as nat,
                t,
            ) == frozen.inputs_of_layer(x_seq@, 1)[t],
{
    let n: usize = x_seq.len();
    let d: usize = frozen.config.d_model;
    let ghost c = frozen.config;
    let ghost below = frozen.inputs_of_layer(x_seq@, 0);
    let ghost layer = frozen.layers@[0];
    proof {
        assert(layer.wf());
        assert(layer.w_s.len() == layer.w_s@.len());
        assert(layer.w_decode.len() == layer.w_decode@.len());
        assert(3 * d <= d * (3 * d) || d == 0) by (nonlinear_arith)
            requires
                d >= 0,
        ;
        assert(n * d <= (n + 1) * d) by (nonlinear_arith);
    }
    let mut state = LayerState::new(&frozen.config);
    let mut scratch = LayerScratch::new(&frozen.config);
    let mut h_1_seq = zero_vec::<A>(n * d);
    let mut h_in = zero_vec::<A>(d);
    let mut h_out = zero_vec::<A>(d);
    let mut t: usize = 0;
    while t < n
        invariant
            lawful::<A>(),
            frozen.wf(),
            frozen.config.num_layers > 0,
            t <= n,
            n == x_seq@.len(),
            d == frozen.config.d_model,
            c == frozen.config,
            layer == frozen.layers@[0],
            layer.wf(),
            layer.config == c,
            below == frozen.inputs_of_layer(x_seq@, 0),
            forall|t: int|
                0 <= t < x_seq@.len() ==> #[trigger] x_seq@[t] < frozen.config.vocab_size,
            state.fits(d as nat),
            state.memory.decay == c.hebbian_decay,
            state.memory.lr == c.hebbian_lr,
            state.memory.m@ == layer.carried(
                below,
                frozen.blank(),
                c.hebbian_decay,
                c.hebbian_lr,
                t as nat,
            ).m,
            state.recurrent_state@ == layer.carried(
                below,
                frozen.blank(),
                c.hebbian_decay,
                c.hebbian_lr,
                t as nat,
            ).s,
            scratch@.fits(c),
            h_in@.len() == d,
            h_out@.len() == d,
            h_1_seq@.len() == n * d,
            forall|q: int|
                0 <= q < t ==> #[trigger] row_of(h_1_seq@, d as nat, q) == frozen.inputs_of_layer(
                    x_seq@,
                    1,
                )[q],
        decreases n - t,
    {
        assert(x_seq@[t as int] < frozen.config.vocab_size);
        frozen.embed_token_pos(x_seq[t], t, h_in.as_mut_slice());
        assert(h_in@ == below[t as int]);
        frozen.layers[0].forward_infer(
            h_in.as_slice(),
            &mut state,
            &mut scratch,
            h_out.as_mut_slice(),
        );
        proof {
            assert(h_out@ == frozen.inputs_of_layer(x_seq@, 1)[t as int]);
        }
        write_row(h_1_seq.as_mut_slice(), Ghost(n as nat), d, t, h_out.as_slice());
        t += 1;
    }
    h_1_seq
}

/// The frozen model and the model that carries the upper layer go together.
pub open spec fn go_together<A: Arith>(
    frozen: AxiomModel<A>,
    upper: AxiomSingleLayerModel<A>,
    seq_len: nat,
) -> bool {
    &&& frozen.can_train(seq_len)
    &&& frozen.config.num_layers > 0
    &&& upper.can_train(seq_len)
    &&& upper.config == frozen.config
}

/// The activations of the upper layer over a sequence of outputs of the frozen layer.
pub open spec fn grounded<A: Arith>(
    frozen: AxiomModel<A>,
    upper: AxiomSingleLayerModel<A>,
    x: Seq<usize>,
    y: Seq<usize>,
    cache: SequenceCache<A>,
) -> bool {
    upper.layer.is_cached(
        cache,
        frozen.inputs_of_layer(x, 1),
        y,
        upper.blank(),
        upper.config.hebbian_decay,
        upper.config.hebbian_lr,
        x.len() as int,
    )
}

/// The loss of a sequence in the upper layer and its gradients, both over the outputs of the
/// frozen layer.
pub open spec fn upper_done<A: Arith>(
    frozen: AxiomModel<A>,
    upper: AxiomSingleLayerModel<A>,
    x: Seq<usize>,
    y: Seq<usize>,
    lambda: LossWeights<A::T>,
    out: UpperGrads<A>,
) -> bool {
    let c = upper.config;
    &&& out.loss_pred == upper.layer.pred_loss(
        frozen.inputs_of_layer(x, 1),
        y,
        upper.blank(),
        c.hebbian_decay,
        c.hebbian_lr,
        x.len(),
    )
    &&& exists|cache: SequenceCache<A>|
        grounded::<A>(frozen, upper, x, y, cache) && out.grads@ == #[trigger] upper.bptt(
            x,
            cache,
            lambda,
            no_model_grads::<A>(c, upper.max_seq_len as nat),
            0,
        ).grads.layer
    &&& out.grads@.fits(c)
}

/// Forward through the upper layer over the outputs of the frozen one, with the activations
/// cached, then backward through the sequence.
pub fn upper_sequence_gradients<A: Arith>(
    frozen: &AxiomModel<A>,
    upper: &AxiomSingleLayerModel<A>,
    x_seq: &[usize],
    y_seq: &[usize],
    loss_weights: &LocalLossConfig<A>,
) -> (out: UpperGrads<A>)
    requires
        lawful::<A>(),
        go_together::<A>(*frozen, *upper, x_seq@.len()),
        is_sequence(x_seq@, y_seq@, frozen.config.vocab_size as nat),
    ensures
        upper_done::<A>(*frozen, *upper, x_seq@, y_seq@, loss_weights.weights(), out),
{
    let n: usize = x_seq.len();
    let d: usize = upper.config.d_model;
    let ghost h_1 = frozen.inputs_of_layer(x_seq@, 1);
    proof {
        assert(upper.layer.w_s.len() == upper.layer.w_s@.len());
        assert(upper.layer.w_gate.len() == upper.layer.w_gate@.len());
        assert(upper.layer.w_decode.len() == upper.layer.w_decode@.len());
        assert(upper.embeddings.len() == upper.embeddings@.len());
        assert(upper.pos_embeddings.len() == upper.pos_embeddings@.len());
        assert(3 * d <= d * (3 * d) || d == 0) by (nonlinear_arith)
            requires
                d >= 0,
        ;
        assert(n * d <= (n + 1) * d) by (nonlinear_arith);
        assert forall|t: int| 0 <= t < n implies #[trigger] y_seq@[t] < upper.config.vocab_size by {
            assert(x_seq@[t] < frozen.config.vocab_size);
        }
    }
    // 1. Pass through frozen Layer 0 to generate static representation H_1
    let h_1_seq = frozen_hidden(frozen, x_seq);
    // 2. Forward through trainable Layer 1 on H_1
    let mut state = LayerState::new(&upper.config);
    let mut scratch = LayerScratch::new(&upper.config);
    let mut cache = SequenceCache::new(&upper.config, n);
    let mut grads = ModelGrads::new(&upper.config, upper.max_seq_len);
    let mut h_2_seq = zero_vec::<A>(n * d);
    let (loss_pred, _) = upper.layer.forward_cached_sequence(
        n,
        h_1_seq.as_slice(),
        y_seq,
        &mut state,
        &mut scratch,
        &mut cache,
        h_2_seq.as_mut_slice(),
    );
    proof {
        let rows = Seq::new(n as nat, |t: int| row_of(h_1_seq@, d as nat, t));
        assert(rows =~= h_1) by {
            assert forall|t: int| 0 <= t < n implies rows[t] == h_1[t] by {
                assert(row_of(h_1_seq@, d as nat, t) == h_1[t]);
            }
        }
        assert(grounded::<A>(*frozen, *upper, x_seq@, y_seq@, cache));
    }
    upper.backward_sequence_bptt(
        x_seq,
        &cache,
        loss_weights.lambda_pred,
        loss_weights.lambda_recon,
        loss_weights.lambda_residual,
        &mut scratch,
        &mut grads,
    );
    UpperGrads { loss_pred, grads: grads.layer_grads }
}

/// The gradients of the first `n` sequences, added in order.
pub open spec fn upper_grads_summed<A: Arith>(
    start: LayerValues<A::T>,
    outs: Seq<UpperGrads<A>>,
    n: nat,
) -> LayerValues<A::T>
    decreases n,
{
    if n == 0 {
        start
    } else {
        upper_grads_summed::<A>(start, outs, (n - 1) as nat).plus::<A>(outs[n - 1].grads@)
    }
}

/// Sequence `i` of the batch can be trained on.
pub open spec fn upper_ready<A: Arith>(
    frozen: AxiomModel<A>,
    upper: AxiomSingleLayerModel<A>,
    xs: Seq<Vec<usize>>,
    ys: Seq<Vec<usize>>,
    seq_len: usize,
    i: usize,
) -> bool {
    &&& i < xs.len()
    &&& i < ys.len()
    &&& lawful::<A>()
    &&& go_together::<A>(frozen, upper, seq_len as nat)
    &&& xs[i as int]@.len() == seq_len
    &&& is_sequence(xs[i as int]@, ys[i as int]@, frozen.config.vocab_size as nat)
}

/// Every sequence of a batch was done.
pub open spec fn upper_batch_done<A: Arith>(
    frozen: AxiomModel<A>,
    upper: AxiomSingleLayerModel<A>,
    xs: Seq<Vec<usize>>,
    ys: Seq<Vec<usize>>,
    lambda: LossWeights<A::T>,
    outs: Seq<UpperGrads<A>>,
) -> bool {
    &&& outs.len() == xs.len()
    &&& forall|i: int|
        0 <= i < xs.len() ==> upper_done::<A>(
            frozen,
            upper,
            xs[i]@,
            ys[i]@,
            lambda,
            #[trigger] outs[i],
        )
}

/// The gradients of a batch: those of its sequences, computed in parallel, added in order and
/// scaled to the mean over its tokens.
pub fn upper_batch_gradients<A: Arith>(
    frozen: &AxiomModel<A>,
    upper: &AxiomSingleLayerModel<A>,
    batch_x: &[Vec<usize>],
    batch_y: &[Vec<usize>],
    seq_len: usize,
    loss_weights: &LocalLossConfig<A>,
) -> (grads: LayerGrads<A>)
    requires
        lawful::<A>(),
        go_together::<A>(*frozen, *upper, seq_len as nat),
        batch_x@.len() == batch_y@.len(),
        batch_x@.len() * seq_len <= usize::MAX,
        forall|i: int|
            0 <= i < batch_x@.len() ==> is_sequence(
                #[trigger] batch_x@[i]@,
                batch_y@[i]@,
                frozen.config.vocab_size as nat,
            ) && batch_x@[i]@.len() == seq_len,
    ensures
        exists|outs: Seq<UpperGrads<A>>|
            #[trigger] upper_batch_done::<A>(
                *frozen,
                *upper,
                batch_x@,
                batch_y@,
                loss_weights.weights(),
                outs,
            ) && grads@ == upper_grads_summed::<A>(
                no_grads::<A>(upper.config),
                outs,
                outs.len(),
            ).scaled::<A>(batch_scale::<A>(batch_x.len(), seq_len)),
        grads@.fits(upper.config),
{
    let n: usize = batch_x.len();
    let results = par_map(
        n,
        |i: usize| -> (out: UpperGrads<A>)
            requires
                upper_ready::<A>(*frozen, *upper, batch_x@, batch_y@, seq_len, i),
            ensures
                upper_done::<A>(
                    *frozen,
                    *upper,
                    batch_x@[i as int]@,
                    batch_y@[i as int]@,
                    loss_weights.weights(),
                    out,
                )
            {
                upper_sequence_gradients(
                    frozen,
                    upper,
                    batch_x[i].as_slice(),
                    batch_y[i].as_slice(),
                    loss_weights,
                )
            },
    );
    assert forall|j: int| 0 <= j < n implies upper_done::<A>(
        *frozen,
        *upper,
        batch_x@[j]@,
        batch_y@[j]@,
        loss_weights.weights(),
        #[trigger] results@[j],
    ) by {
        let i = j as usize;
        assert(results@[i as int] == results@[j]);
    }
    assert(upper_batch_done::<A>(
        *frozen,
        *upper,
        batch_x@,
        batch_y@,
        loss_weights.weights(),
        results@,
    ));
    proof {
        assert(upper.layer.w_s.len() == upper.layer.w_s@.len());
        assert(upper.layer.w_gate.len() == upper.layer.w_gate@.len());
        assert(upper.embeddings.len() == upper.embeddings@.len());
    }
    let mut total_grads = LayerGrads::new(&upper.config);
    let mut i: usize = 0;
    while i < n
        invariant
            lawful::<A>(),
            i <= n,
            results@.len() == n,
            forall|j: int| 0 <= j < n ==> (#[trigger] results@[j]).grads@.fits(upper.config),
            total_grads@.fits(upper.config),
            total_grads@ == upper_grads_summed::<A>(
                no_grads::<A>(upper.config),
                results@,
                i as nat,
            ),
        decreases n - i,
    {
        assert(results@[i as int].grads@.fits(upper.config));
        total_grads.add(&results[i].grads);
        i += 1;
    }
    let scale = A::over(A::lit(1, 0), A::count(n * seq_len));
    total_grads.scale(scale);
    total_grads
}

/// The model that carries the upper layer, with its embeddings cleared.
pub open spec fn is_cleared<A: Arith>(
    upper: AxiomSingleLayerModel<A>,
    cleared: AxiomSingleLayerModel<A>,
) -> bool {
    &&& cleared.config == upper.config
    &&& cleared.max_seq_len == upper.max_seq_len
    &&& cleared.layer == upper.layer
    &&& cleared.embeddings@ == zeros::<A>(upper.embeddings@.len())
    &&& cleared.pos_embeddings@ == zeros::<A>(upper.pos_embeddings@.len())
}

/// Learning rate of a step of the second stage.
pub open spec fn freezing_lr_of<A: Arith>(step: usize, steps_per_layer: usize) -> A::T {
    lr_of::<A>(
        step,
        25,
        (if steps_per_layer >= 25 {
            steps_per_layer - 25
        } else {
            0
        }) as usize,
        s_lit::<A>(1, 4),
        s_lit::<A>(5, 3),
    )
}

/// Learning rate of a step of the second stage.
pub fn freezing_lr<A: Arith>(step: usize, steps_per_layer: usize) -> (lr: A::T)
    requires
        lawful::<A>(),
        step <= steps_per_layer,
    ensures
        lr == freezing_lr_of::<A>(step, steps_per_layer),
{
    let span: usize = if steps_per_layer >= 25 { steps_per_layer - 25 } else { 0 };
    scheduled_lr::<A>(step, 25, span, A::lit(1, 4), A::lit(5, 3))
}

/// What a training step of the upper layer makes of the model that carries it and its optimizer:
/// the embeddings are cleared, and the optimizer takes the mean gradients of the layer.
#[verifier::opaque]
pub open spec fn is_freezing_step<A: Arith>(
    frozen: AxiomModel<A>,
    upper: AxiomSingleLayerModel<A>,
    optimizer: AdamW<A>,
    xs: Seq<Vec<usize>>,
    ys: Seq<Vec<usize>>,
    seq_len: usize,
    loss_weights: LocalLossConfig<A>,
    current_lr: A::T,
    next_upper: AxiomSingleLayerModel<A>,
    next: AdamW<A>,
) -> bool {
    exists|cleared: AxiomSingleLayerModel<A>, outs: Seq<UpperGrads<A>>|
        {
            let summed = upper_grads_summed::<A>(no_grads::<A>(frozen.config), outs, outs.len());
            &&& is_cleared::<A>(upper, cleared)
            &&& #[trigger] upper_batch_done::<A>(
                frozen,
                cleared,
                xs,
                ys,
                loss_weights.weights(),
                outs,
            )
            &&& optimizer.takes_to(
                cleared,
                ModelValues {
                    layer: summed.scaled::<A>(batch_scale::<A>(xs.len() as usize, seq_len)),
                    ..no_model_grads::<A>(frozen.config, cleared.max_seq_len as nat)
                },
                current_lr,
                next,
                next_upper,
            )
        }
}

/// One training step of the upper layer, on what the frozen layer puts out. The embeddings of
/// the model that carries the layer are cleared first and get no gradients.
pub fn freezing_step<A: Arith>(
    frozen: &AxiomModel<A>,
    upper: &mut AxiomSingleLayerModel<A>,
    optimizer: &mut AdamW<A>,
    batch_x: &[Vec<usize>],
    batch_y: &[Vec<usize>],
    seq_len: usize,
    loss_weights: &LocalLossConfig<A>,
    current_lr: A::T,
)
    requires
        lawful::<A>(),
        go_together::<A>(*frozen, *old(upper), seq_len as nat),
        old(optimizer).fits(*old(upper)),
        old(optimizer).step < usize::MAX,
        batch_x@.len() == batch_y@.len(),
        batch_x@.len() * seq_len <= usize::MAX,
        forall|i: int|
            0 <= i < batch_x@.len() ==> is_sequence(
                #[trigger] batch_x@[i]@,
                batch_y@[i]@,
                frozen.config.vocab_size as nat,
            ) && batch_x@[i]@.len() == seq_len,
    ensures
        is_freezing_step::<A>(
            *frozen,
            *old(upper),
            *old(optimizer),
            batch_x@,
            batch_y@,
            seq_len,
            *loss_weights,
            current_lr,
            *final(upper),
            *final(optimizer),
        ),
        final(optimizer).step == old(optimizer).step + 1,
        final(optimizer).fits(*final(upper)),
        go_together::<A>(*frozen, *final(upper), seq_len as nat),
{
    reveal(is_freezing_step);
    upper.embeddings = zero_vec::<A>(upper.embeddings.len());
    upper.pos_embeddings = zero_vec::<A>(upper.pos_embeddings.len());
    assert(is_cleared::<A>(*old(upper), *upper));
    assert(upper.can_train(seq_len as nat));
    let total_grads = upper_batch_gradients(
        frozen,
        upper,
        batch_x,
        batch_y,
        seq_len,
        loss_weights,
    );
    proof {
        assert(upper.layer.w_s.len() == upper.layer.w_s@.len());
        assert(upper.layer.w_gate.len() == upper.layer.w_gate@.len());
        assert(upper.embeddings.len() == upper.embeddings@.len());
        assert(upper.pos_embeddings.len() == upper.pos_embeddings@.len());
    }
    let mut grads = ModelGrads::new(&upper.config, upper.max_seq_len);
    grads.layer_grads = total_grads;
    optimizer.step(upper, &mut grads, current_lr);
}

/// The losses of the first `n` tokens of a sequence in the upper layer, over what the frozen
/// layer puts out, added to `start` one by one.
pub open spec fn upper_losses_added<A: Arith>(
    frozen: AxiomModel<A>,
    layer: AxiomLayer<A>,
    start: A::T,
    x: Seq<usize>,
    y: Seq<usize>,
    n: nat,
) -> A::T
    decreases n,
{
    if n == 0 {
        start
    } else {
        let out = layer.output_at(
            frozen.inputs_of_layer(x, 1),
            frozen.blank(),
            frozen.config.hebbian_decay,
            frozen.config.hebbian_lr,
            n - 1,
        );
        s_plus::<A>(
            upper_losses_added::<A>(frozen, layer, start, x, y, (n - 1) as nat),
            cross_entropy_of::<A>(layer.logits_of(out), y[n - 1] as int),
        )
    }
}

/// The losses of the first `n` sequences, token by token from zero.
pub open spec fn upper_total_loss<A: Arith>(
    frozen: AxiomModel<A>,
    layer: AxiomLayer<A>,
    xs: Seq<Vec<usize>>,
    ys: Seq<Vec<usize>>,
    n: nat,
) -> A::T
    decreases n,
{
    if n == 0 {
        zero::<A>()
    } else {
        upper_losses_added::<A>(
            frozen,
            layer,
            upper_total_loss::<A>(frozen, layer, xs, ys, (n - 1) as nat),
            xs[n - 1]@,
            ys[n - 1]@,
            xs[n - 1]@.len(),
        )
    }
}

/// Add the losses of a sequence in the upper layer to `start`, token by token.
fn add_upper_losses<A: Arith>(
    frozen: &AxiomModel<A>,
    layer: &AxiomLayer<A>,
    start: A::T,
    x_seq: &[usize],
    y_seq: &[usize],
) -> (total: A::T)
    requires
        lawful::<A>(),
        frozen.can_train(x_seq@.len()),
        frozen.config.num_layers > 0,
        layer.wf(),
        layer.config == frozen.config,
        is_sequence(x_seq@, y_seq@, frozen.config.vocab_size as nat),
    ensures
        total == upper_losses_added::<A>(*frozen, *layer, start, x_seq@, y_seq@, x_seq@.len()),
{
    let n: usize = x_seq.len();
    let d: usize = frozen.config.d_model;
    let vocab: usize = frozen.config.vocab_size;
    let ghost c = frozen.config;
    let ghost inputs = frozen.inputs_of_layer(x_seq@, 1);
    proof {
        assert(layer.w_s.len() == layer.w_s@.len());
        assert(layer.w_decode.len() == layer.w_decode@.len());
        assert(layer.w_pred.len() == layer.w_pred@.len());
        assert(3 * d <= d * (3 * d) || d == 0) by (nonlinear_arith)
            requires
                d >= 0,
        ;
    }
    let h_1_seq = frozen_hidden(frozen, x_seq);
    let mut state = LayerState::new(&frozen.config);
    let mut scratch = LayerScratch::new(&frozen.config);
    let mut h_2 = zero_vec::<A>(d);
    let mut logits = zero_vec::<A>(vocab);
    let mut probs = zero_vec::<A>(vocab);
    let mut grad = zero_vec::<A>(vocab);
    let pred_view = MatrixView::new(layer.w_pred.as_slice(), vocab, d);
    let mut total = start;
    let mut t: usize = 0;
    while t < n
        invariant
            lawful::<A>(),
            layer.wf(),
            layer.config == c,
            c == frozen.config,
            t <= n,
            n == x_seq@.len(),
            d == c.d_model,
            vocab == c.vocab_size,
            is_sequence(x_seq@, y_seq@, vocab as nat),
            inputs == frozen.inputs_of_layer(x_seq@, 1),
            h_1_seq@.len() == n * d,
            forall|q: int|
                0 <= q < n ==> #[trigger] row_of(h_1_seq@, d as nat, q) == inputs[q],
            state.fits(d as nat),
            state.memory.decay == c.hebbian_decay,
            state.memory.lr == c.hebbian_lr,
            state.memory.m@ == layer.carried(
                inputs,
                frozen.blank(),
                c.hebbian_decay,
                c.hebbian_lr,
                t as nat,
            ).m,
            state.recurrent_state@ == layer.carried(
                inputs,
                frozen.blank(),
                c.hebbian_decay,
                c.hebbian_lr,
                t as nat,
            ).s,
            scratch@.fits(c),
            h_2@.len() == d,
            logits@.len() == vocab,
            probs@.len() == vocab,
            grad@.len() == vocab,
            pred_view.wf(),
            pred_view.data@ == layer.w_pred@,
            pred_view.rows == vocab,
            pred_view.cols == d,
            total == upper_losses_added::<A>(*frozen, *layer, start, x_seq@, y_seq@, t as nat),
        decreases n - t,
    {
        assert(y_seq@[t as int] < vocab) by {
            assert(x_seq@[t as int] < vocab);
        }
        proof {
            lemma_row_bounds(n as nat, d as nat, t as int);
        }
        let h_1 = row_at(h_1_seq.as_slice(), d, t);
        assert(h_1@ == inputs[t as int]);
        layer.forward_infer(h_1, &mut state, &mut scratch, h_2.as_mut_slice());
        matvec::<A>(&pred_view, h_2.as_slice(), logits.as_mut_slice());
        let loss = cross_entropy_loss_and_grad::<A>(
            logits.as_slice(),
            y_seq[t],
            probs.as_mut_slice(),
            grad.as_mut_slice(),
        );
        total = A::plus(total, loss);
        t += 1;
    }
    total
}

/// The loss of some tokens spread over their number, and the same in bits per character.
pub open spec fn upper_summary<A: Arith>(total_loss: A::T, tokens: usize) -> (A::T, A::T) {
    let mean = s_over::<A>(total_loss, s_count::<A>(tokens));
    (mean, s_over::<A>(mean, s_lit::<A>(693147180559945309, 18)))
}

/// Evaluate the upper layer over what the frozen layer puts out: the mean loss of the tokens of
/// some sequences of equal length, and the same in bits per character.
pub fn evaluate_upper<A: Arith>(
    frozen: &AxiomModel<A>,
    layer: &AxiomLayer<A>,
    xs: &[Vec<usize>],
    ys: &[Vec<usize>],
    seq_len: usize,
) -> (r: (A::T, A::T))
    requires
        lawful::<A>(),
        frozen.can_train(seq_len as nat),
        frozen.config.num_layers > 0,
        layer.wf(),
        layer.config == frozen.config,
        xs@.len() == ys@.len(),
        xs@.len() * seq_len <= usize::MAX,
        forall|i: int|
            0 <= i < xs@.len() ==> is_sequence(
                #[trigger] xs@[i]@,
                ys@[i]@,
                frozen.config.vocab_size as nat,
            ) && xs@[i]@.len() == seq_len,
    ensures
        r == upper_summary::<A>(
            upper_total_loss::<A>(*frozen, *layer, xs@, ys@, xs@.len()),
            (xs@.len() * seq_len) as usize,
        ),
{
    let mut total = A::lit(0, 0);
    let mut i: usize = 0;
    while i < xs.len()
        invariant
            lawful::<A>(),
            frozen.can_train(seq_len as nat),
            frozen.config.num_layers > 0,
            layer.wf(),
            layer.config == frozen.config,
            i <= xs@.len(),
            xs@.len() == ys@.len(),
            forall|i: int|
                0 <= i < xs@.len() ==> is_sequence(
                    #[trigger] xs@[i]@,
                    ys@[i]@,
                    frozen.config.vocab_size as nat,
                ) && xs@[i]@.len() == seq_len,
            total == upper_total_loss::<A>(*frozen, *layer, xs@, ys@, i as nat),
        decreases xs@.len() - i,
    {
        assert(xs@[i as int]@.len() == seq_len);
        total = add_upper_losses(frozen, layer, total, xs[i].as_slice(), ys[i].as_slice());
        i += 1;
    }
    let mean = A::over(total, A::count(xs.len() * seq_len));
    (mean, A::over(mean, A::lit(693147180559945309, 18)))
}

/// The mean loss and the BPC of the upper layer on the windows that the validation draws.
#[verifier::opaque]
pub open spec fn is_upper_validation<A: Arith>(
    frozen: AxiomModel<A>,
    layer: AxiomLayer<A>,
    data: Seq<u8>,
    num_batches: nat,
    seq_len: nat,
    r: (A::T, A::T),
) -> bool {
    exists|xs: Seq<Vec<usize>>, ys: Seq<Vec<usize>>|
        windows_from_seed(999, data, seq_len, num_batches, xs, ys) && r == upper_summary::<A>(
            #[trigger] upper_total_loss::<A>(frozen, layer, xs, ys, num_batches),
            (num_batches * seq_len) as usize,
        )
}

/// Evaluate the upper layer over what the frozen layer puts out, on windows of the dataset that
/// are drawn anew from the same seed every time.
pub fn evaluate_upper_bpc<A: Arith>(
    frozen: &AxiomModel<A>,
    layer: &AxiomLayer<A>,
    val_dataset: &CharDataset,
    num_batches: usize,
    seq_len: usize,
) -> (r: (A::T, A::T))
    requires
        lawful::<A>(),
        frozen.can_train(seq_len as nat),
        frozen.config.num_layers > 0,
        layer.wf(),
        layer.config == frozen.config,
        num_batches > 0 ==> forall|i: int|
            0 <= i < val_dataset.data@.len() ==> #[trigger] val_dataset.data@[i]
                < frozen.config.vocab_size,
        num_batches > 0 ==> val_dataset.data@.len() > seq_len + 1,
        num_batches * seq_len <= usize::MAX,
    ensures
        is_upper_validation::<A>(
            *frozen,
            *layer,
            val_dataset.data@,
            num_batches as nat,
            seq_len as nat,
            r,
        ),
{
    reveal(is_upper_validation);
    let mut rng = seeded(999);
    let ghost first = rng;
    let (xs, ys) = sample_windows(val_dataset.data.as_slice(), num_batches, seq_len, &mut rng);
    proof {
        let (data, n) = (val_dataset.data@, seq_len as nat);
        windows_lie_in_the_data(first, data, n, xs@, ys@, rng);
        assert(windows_from_seed(999, data, n, num_batches as nat, xs@, ys@));
        assert forall|i: int| 0 <= i < xs@.len() implies is_sequence(
            #[trigger] xs@[i]@,
            ys@[i]@,
            frozen.config.vocab_size as nat,
        ) && xs@[i]@.len() == seq_len by {
            assert(is_batch_row(data, n, xs@[i]@, ys@[i]@));
        }
    }
    let r = evaluate_upper(frozen, layer, xs.as_slice(), ys.as_slice(), seq_len);
    assert(r == upper_summary::<A>(
        upper_total_loss::<A>(*frozen, *layer, xs@, ys@, num_batches as nat),
        ((num_batches as nat) * (seq_len as nat)) as usize,
    ));
    r
}

/// Whether the second stage evaluates after a step.
pub open spec fn is_freezing_eval(step: int, steps_per_layer: int) -> bool {
    step % 25 == 0 || step == steps_per_layer
}

/// Whether the second stage evaluates after a step.
pub fn is_freezing_eval_step(step: usize, steps_per_layer: usize) -> (eval: bool)
    ensures
        eval <==> is_freezing_eval(step as int, steps_per_layer as int),
{
    step % 25 == 0 || step == steps_per_layer
}

/// Whether freezing restored monotonicity: the upper layer has the lower loss.
pub fn freezing_restored_order<A: Arith>(l1_bpc: A::T, l2_bpc: A::T) -> (restored: bool)
    requires
        lawful::<A>(),
    ensures
        restored == s_exceeds::<A>(l1_bpc, l2_bpc),
{
    A::exceeds(l1_bpc, l2_bpc)
}

} // verus!
