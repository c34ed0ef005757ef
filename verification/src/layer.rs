//! AXIOM Layer implementation with explicit separation of `forward_infer` and `forward_train`,
//! input residual skip connections, and Truncated BPTT backward pass.

use vstd::prelude::*;
use crate::activations::{
    mse_grad_of, mse_loss_and_grad, mse_of, sigmoid, sigmoid_grad, sigmoid_grad_of, sigmoid_of,
};
use crate::arith::{
    Arith, lawful, one, s_count, s_equals, s_exceeds, s_lit, s_minus, s_negate, s_over, s_plus,
    s_times, zero,
};
use crate::buffer::{CircularTokenBuffer, pushed};
use crate::config::AxiomConfig;
use crate::expert::{ExpertGrads, ExpertMLP, in_front};
use crate::hebbian::{HebbianMemory, hebbian_of};
use crate::matvec::{
    lemma_rows_added_len, lemma_zip_summed, matvec, matvec_of, matvec_transposed,
    matvec_transposed_accumulate, matvec_transposed_of, outer_added, outer_product_accumulate,
    rows_added, summed, zip_summed,
};
use crate::rng::{WeightDraw, WeightSource, drawn_from_seed, scale_for, weight_scale};
use crate::softmax::{
    cross_entropy_grad_of, cross_entropy_loss_and_grad, cross_entropy_of, entropy, entropy_of,
    softmax_of,
};
use crate::tensor::{
    MatrixView, MatrixViewMut, add_scaled, copied, dot, dot_of, filled, lemma_row_bounds,
    lemma_with_row, part_mut, row_of, scaled, vec_add_scaled, vec_copy, vec_scale, vec_zero,
    with_row, zeros,
};
use crate::topk::{Entry, top2, top2_of, topk_softmax, topk_softmax_of};

verus! {

/// Persistent state for a single AXIOM layer.
#[derive(Debug, Clone)]
pub struct LayerState<A: Arith> {
    pub memory: HebbianMemory<A>,
    pub recurrent_state: Vec<A::T>,
    pub buffer: CircularTokenBuffer,
}

impl<A: Arith> LayerState<A> {
    /// The state is that of a layer of dimension `d`.
    pub open spec fn fits(&self, d: nat) -> bool {
        &&& self.memory.wf()
        &&& self.memory.dim == d
        &&& self.recurrent_state@.len() == d
        &&& self.buffer.wf()
    }

    pub fn new(config: &AxiomConfig<A>) -> (state: Self)
        requires
            lawful::<A>(),
            config.d_model * config.d_model <= usize::MAX,
            config.buffer_capacity > 0,
        ensures
            state.fits(config.d_model as nat),
            state.memory.decay == config.hebbian_decay,
            state.memory.lr == config.hebbian_lr,
            state.memory.m@ == zeros::<A>((config.d_model * config.d_model) as nat),
            state.recurrent_state@ == zeros::<A>(config.d_model as nat),
            state.buffer@ == Seq::<u32>::empty(),
            state.buffer.spec_capacity() == config.buffer_capacity,
    {
        let recurrent_state = filled(A::lit(0, 0), config.d_model);
        assert(recurrent_state@ =~= zeros::<A>(config.d_model as nat));
        Self {
            memory: HebbianMemory::new(config.d_model, config.hebbian_decay, config.hebbian_lr),
            recurrent_state,
            buffer: CircularTokenBuffer::new(config.buffer_capacity),
        }
    }

    pub fn reset(&mut self)
        requires
            lawful::<A>(),
            old(self).memory.wf(),
            old(self).buffer.wf(),
        ensures
            final(self).memory.wf(),
            final(self).memory.dim == old(self).memory.dim,
            final(self).memory.decay == old(self).memory.decay,
            final(self).memory.lr == old(self).memory.lr,
            final(self).memory.m@ == zeros::<A>(old(self).memory.m@.len()),
            final(self).recurrent_state@ == zeros::<A>(old(self).recurrent_state@.len()),
            final(self).buffer.wf(),
            final(self).buffer@ == Seq::<u32>::empty(),
            final(self).buffer.spec_capacity() == old(self).buffer.spec_capacity(),
    {
        self.memory.clear();
        vec_zero::<A>(self.recurrent_state.as_mut_slice());
        self.buffer.clear();
    }
}

/// Pre-allocated scratch buffers to guarantee zero dynamic allocation in forward and backward
/// passes.
#[derive(Debug, Clone)]
pub struct LayerScratch<A: Arith> {
    pub m_recall: Vec<A::T>,
    pub s_concat: Vec<A::T>,
    pub raw_recurrent: Vec<A::T>,
    pub gate_scores: Vec<A::T>,
    pub expert_raw_ffn1: Vec<A::T>,
    pub expert_act_ffn1: Vec<A::T>,
    pub expert_out1: Vec<A::T>,
    pub expert_raw_ffn2: Vec<A::T>,
    pub expert_act_ffn2: Vec<A::T>,
    pub expert_out2: Vec<A::T>,
    pub pred_logits: Vec<A::T>,
    pub pred_probs: Vec<A::T>,
    pub pred_grad: Vec<A::T>,
    pub recon_hidden: Vec<A::T>,
    pub recon_grad: Vec<A::T>,
    pub delta_h1: Vec<A::T>,
    pub delta_s: Vec<A::T>,
    pub delta_us: Vec<A::T>,
    pub scratch_delta_a: Vec<A::T>,
    pub scratch_delta_z: Vec<A::T>,
    pub scratch_exp_grad: Vec<A::T>,
    pub scratch_transposed: Vec<A::T>,
}

/// What the scratch buffers hold.
pub struct ScratchView<T> {
    pub m_recall: Seq<T>,
    pub s_concat: Seq<T>,
    pub raw_recurrent: Seq<T>,
    pub gate_scores: Seq<T>,
    pub expert_raw_ffn1: Seq<T>,
    pub expert_act_ffn1: Seq<T>,
    pub expert_out1: Seq<T>,
    pub expert_raw_ffn2: Seq<T>,
    pub expert_act_ffn2: Seq<T>,
    pub expert_out2: Seq<T>,
    pub pred_logits: Seq<T>,
    pub pred_probs: Seq<T>,
    pub pred_grad: Seq<T>,
    pub recon_hidden: Seq<T>,
    pub recon_grad: Seq<T>,
    pub delta_h1: Seq<T>,
    pub delta_s: Seq<T>,
    pub delta_us: Seq<T>,
    pub scratch_delta_a: Seq<T>,
    pub scratch_delta_z: Seq<T>,
    pub scratch_exp_grad: Seq<T>,
    pub scratch_transposed: Seq<T>,
}

impl<A: Arith> View for LayerScratch<A> {
    type V = ScratchView<A::T>;

    open spec fn view(&self) -> ScratchView<A::T> {
        ScratchView {
            m_recall: self.m_recall@,
            s_concat: self.s_concat@,
            raw_recurrent: self.raw_recurrent@,
            gate_scores: self.gate_scores@,
            expert_raw_ffn1: self.expert_raw_ffn1@,
            expert_act_ffn1: self.expert_act_ffn1@,
            expert_out1: self.expert_out1@,
            expert_raw_ffn2: self.expert_raw_ffn2@,
            expert_act_ffn2: self.expert_act_ffn2@,
            expert_out2: self.expert_out2@,
            pred_logits: self.pred_logits@,
            pred_probs: self.pred_probs@,
            pred_grad: self.pred_grad@,
            recon_hidden: self.recon_hidden@,
            recon_grad: self.recon_grad@,
            delta_h1: self.delta_h1@,
            delta_s: self.delta_s@,
            delta_us: self.delta_us@,
            scratch_delta_a: self.scratch_delta_a@,
            scratch_delta_z: self.scratch_delta_z@,
            scratch_exp_grad: self.scratch_exp_grad@,
            scratch_transposed: self.scratch_transposed@,
        }
    }
}

impl<T> ScratchView<T> {
    /// The buffers are as large as a layer of this configuration needs them.
    pub open spec fn fits<A: Arith>(&self, config: AxiomConfig<A>) -> bool {
        &&& self.m_recall.len() == config.d_model
        &&& self.s_concat.len() == 3 * config.d_model
        &&& self.raw_recurrent.len() == config.d_model
        &&& self.gate_scores.len() == config.num_experts
        &&& self.expert_raw_ffn1.len() == config.d_ffn
        &&& self.expert_act_ffn1.len() == config.d_ffn
        &&& self.expert_out1.len() == config.d_model
        &&& self.expert_raw_ffn2.len() == config.d_ffn
        &&& self.expert_act_ffn2.len() == config.d_ffn
        &&& self.expert_out2.len() == config.d_model
        &&& self.pred_logits.len() == config.vocab_size
        &&& self.pred_probs.len() == config.vocab_size
        &&& self.pred_grad.len() == config.vocab_size
        &&& self.recon_hidden.len() == config.d_model
        &&& self.recon_grad.len() == config.d_model
        &&& self.delta_h1.len() == config.d_model
        &&& self.delta_s.len() == config.d_model
        &&& self.delta_us.len() == config.d_model
        &&& self.scratch_delta_a.len() == config.d_ffn
        &&& self.scratch_delta_z.len() == config.d_ffn
        &&& self.scratch_exp_grad.len() == config.d_model
        &&& self.scratch_transposed.len() == 3 * config.d_model
    }
}

impl<A: Arith> LayerScratch<A> {
    pub fn new(config: &AxiomConfig<A>) -> (scratch: Self)
        requires
            lawful::<A>(),
            3 * config.d_model <= usize::MAX,
        ensures
            scratch@.fits(*config),
            scratch@ == (ScratchView {
                m_recall: zeros::<A>((config.d_model) as nat),
                s_concat: zeros::<A>((3 * config.d_model) as nat),
                raw_recurrent: zeros::<A>((config.d_model) as nat),
                gate_scores: zeros::<A>((config.num_experts) as nat),
                expert_raw_ffn1: zeros::<A>((config.d_ffn) as nat),
                expert_act_ffn1: zeros::<A>((config.d_ffn) as nat),
                expert_out1: zeros::<A>((config.d_model) as nat),
                expert_raw_ffn2: zeros::<A>((config.d_ffn) as nat),
                expert_act_ffn2: zeros::<A>((config.d_ffn) as nat),
                expert_out2: zeros::<A>((config.d_model) as nat),
                pred_logits: zeros::<A>((config.vocab_size) as nat),
                pred_probs: zeros::<A>((config.vocab_size) as nat),
                pred_grad: zeros::<A>((config.vocab_size) as nat),
                recon_hidden: zeros::<A>((config.d_model) as nat),
                recon_grad: zeros::<A>((config.d_model) as nat),
                delta_h1: zeros::<A>((config.d_model) as nat),
                delta_s: zeros::<A>((config.d_model) as nat),
                delta_us: zeros::<A>((config.d_model) as nat),
                scratch_delta_a: zeros::<A>((config.d_ffn) as nat),
                scratch_delta_z: zeros::<A>((config.d_ffn) as nat),
                scratch_exp_grad: zeros::<A>((config.d_model) as nat),
                scratch_transposed: zeros::<A>((3 * config.d_model) as nat),
            }),
    {
        let scratch = Self {
            m_recall: zero_vec::<A>(config.d_model),
            s_concat: zero_vec::<A>(3 * config.d_model),
            raw_recurrent: zero_vec::<A>(config.d_model),
            gate_scores: zero_vec::<A>(config.num_experts),
            expert_raw_ffn1: zero_vec::<A>(config.d_ffn),
            expert_act_ffn1: zero_vec::<A>(config.d_ffn),
            expert_out1: zero_vec::<A>(config.d_model),
            expert_raw_ffn2: zero_vec::<A>(config.d_ffn),
            expert_act_ffn2: zero_vec::<A>(config.d_ffn),
            expert_out2: zero_vec::<A>(config.d_model),
            pred_logits: zero_vec::<A>(config.vocab_size),
            pred_probs: zero_vec::<A>(config.vocab_size),
            pred_grad: zero_vec::<A>(config.vocab_size),
            recon_hidden: zero_vec::<A>(config.d_model),
            recon_grad: zero_vec::<A>(config.d_model),
            delta_h1: zero_vec::<A>(config.d_model),
            delta_s: zero_vec::<A>(config.d_model),
            delta_us: zero_vec::<A>(config.d_model),
            scratch_delta_a: zero_vec::<A>(config.d_ffn),
            scratch_delta_z: zero_vec::<A>(config.d_ffn),
            scratch_exp_grad: zero_vec::<A>(config.d_model),
            scratch_transposed: zero_vec::<A>(3 * config.d_model),
        };
        scratch
    }
}

/// A vector of zeros.
pub(crate) fn zero_vec<A: Arith>(n: usize) -> (v: Vec<A::T>)
    requires
        lawful::<A>(),
    ensures
        v@ == zeros::<A>(n as nat),
{
    let v = filled(A::lit(0, 0), n);
    assert(v@ =~= zeros::<A>(n as nat));
    v
}

/// Three vectors of the same length, one behind the other.
pub(crate) fn concat3<T: Copy>(dst: &mut [T], a: &[T], b: &[T], c: &[T])
    requires
        a@.len() == b@.len(),
        b@.len() == c@.len(),
        old(dst)@.len() == 3 * a@.len(),
    ensures
        final(dst)@ == a@ + b@ + c@,
{
    let d: usize = a.len();
    assert(dst.len() == dst@.len());
    vec_copy(part_mut(dst, 0, d), a);
    vec_copy(part_mut(dst, d, d), b);
    vec_copy(part_mut(dst, 2 * d, d), c);
    assert(dst@ =~= a@ + b@ + c@);
}

/// Pre-allocated cache for sequence activations to support fast within-layer BPTT.
#[derive(Debug, Clone)]
pub struct SequenceCache<A: Arith> {
    pub max_seq_len: usize,
    /// ((T + 1) * d)
    pub s_history: Vec<A::T>,
    /// (T * d)
    pub m_recall_history: Vec<A::T>,
    /// (T * d)
    pub h_in_history: Vec<A::T>,
    /// (T * d)
    pub h_out_history: Vec<A::T>,
    /// (T * V)
    pub pred_grad_history: Vec<A::T>,
    /// (T * d)
    pub recon_grad_history: Vec<A::T>,
    /// T pairs
    pub top_indices: Vec<(usize, usize)>,
    /// T pairs
    pub top_weights: Vec<[A::T; 2]>,
    /// (T * d_ffn)
    pub exp_raw1: Vec<A::T>,
    /// (T * d_ffn)
    pub exp_act1: Vec<A::T>,
    /// (T * d)
    pub exp_out1: Vec<A::T>,
    /// (T * d_ffn)
    pub exp_raw2: Vec<A::T>,
    /// (T * d_ffn)
    pub exp_act2: Vec<A::T>,
    /// (T * d)
    pub exp_out2: Vec<A::T>,
}

impl<A: Arith> SequenceCache<A> {
    /// The cache holds sequences of its length for a model of this configuration.
    pub open spec fn fits(&self, config: AxiomConfig<A>) -> bool {
        let max_seq_len = self.max_seq_len;
        &&& self.s_history@.len() == (max_seq_len + 1) * config.d_model
        &&& self.m_recall_history@.len() == max_seq_len * config.d_model
        &&& self.h_in_history@.len() == max_seq_len * config.d_model
        &&& self.h_out_history@.len() == max_seq_len * config.d_model
        &&& self.pred_grad_history@.len() == max_seq_len * config.vocab_size
        &&& self.recon_grad_history@.len() == max_seq_len * config.d_model
        &&& self.exp_raw1@.len() == max_seq_len * config.d_ffn
        &&& self.exp_act1@.len() == max_seq_len * config.d_ffn
        &&& self.exp_out1@.len() == max_seq_len * config.d_model
        &&& self.exp_raw2@.len() == max_seq_len * config.d_ffn
        &&& self.exp_act2@.len() == max_seq_len * config.d_ffn
        &&& self.exp_out2@.len() == max_seq_len * config.d_model
        &&& self.top_indices@.len() == max_seq_len
        &&& self.top_weights@.len() == max_seq_len
    }

    pub fn new(config: &AxiomConfig<A>, max_seq_len: usize) -> (cache: Self)
        requires
            lawful::<A>(),
            (max_seq_len + 1) * config.d_model <= usize::MAX,
            max_seq_len * config.vocab_size <= usize::MAX,
            max_seq_len * config.d_ffn <= usize::MAX,
            max_seq_len < usize::MAX,
        ensures
            cache.max_seq_len == max_seq_len,
            cache.fits(*config),
            cache.s_history@ == zeros::<A>(((max_seq_len + 1) * config.d_model) as nat),
            cache.m_recall_history@ == zeros::<A>((max_seq_len * config.d_model) as nat),
            cache.h_in_history@ == zeros::<A>((max_seq_len * config.d_model) as nat),
            cache.h_out_history@ == zeros::<A>((max_seq_len * config.d_model) as nat),
            cache.pred_grad_history@ == zeros::<A>((max_seq_len * config.vocab_size) as nat),
            cache.recon_grad_history@ == zeros::<A>((max_seq_len * config.d_model) as nat),
            cache.exp_raw1@ == zeros::<A>((max_seq_len * config.d_ffn) as nat),
            cache.exp_act1@ == zeros::<A>((max_seq_len * config.d_ffn) as nat),
            cache.exp_out1@ == zeros::<A>((max_seq_len * config.d_model) as nat),
            cache.exp_raw2@ == zeros::<A>((max_seq_len * config.d_ffn) as nat),
            cache.exp_act2@ == zeros::<A>((max_seq_len * config.d_ffn) as nat),
            cache.exp_out2@ == zeros::<A>((max_seq_len * config.d_model) as nat),
            cache.top_indices@ == Seq::new(max_seq_len as nat, |t: int| (0usize, 1usize)),
            forall|t: int|
                0 <= t < max_seq_len ==> (#[trigger] cache.top_weights@[t])@ == zeros::<A>(2),
    {
        let t: usize = max_seq_len;
        proof {
            assert(t * config.d_model <= (t + 1) * config.d_model) by (nonlinear_arith)
                requires
                    t >= 0,
                    config.d_model >= 0,
            ;
        }
        let none = [A::lit(0, 0); 2];
        let cache = Self {
            max_seq_len: t,
            s_history: zero_vec::<A>((t + 1) * config.d_model),
            m_recall_history: zero_vec::<A>(t * config.d_model),
            h_in_history: zero_vec::<A>(t * config.d_model),
            h_out_history: zero_vec::<A>(t * config.d_model),
            pred_grad_history: zero_vec::<A>(t * config.vocab_size),
            recon_grad_history: zero_vec::<A>(t * config.d_model),
            top_indices: filled((0usize, 1usize), t),
            top_weights: filled(none, t),
            exp_raw1: zero_vec::<A>(t * config.d_ffn),
            exp_act1: zero_vec::<A>(t * config.d_ffn),
            exp_out1: zero_vec::<A>(t * config.d_model),
            exp_raw2: zero_vec::<A>(t * config.d_ffn),
            exp_act2: zero_vec::<A>(t * config.d_ffn),
            exp_out2: zero_vec::<A>(t * config.d_model),
        };
        assert(none@ =~= zeros::<A>(2));
        cache
    }
}

/// Gradients for all parameters in a single AXIOM layer.
#[derive(Debug, Clone)]
pub struct LayerGrads<A: Arith> {
    pub grad_w_s: Vec<A::T>,
    pub grad_w_gate: Vec<A::T>,
    pub expert_grads: Vec<ExpertGrads<A>>,
    pub grad_w_pred: Vec<A::T>,
    pub grad_w_decode: Vec<A::T>,
}

/// One value for each parameter of an expert.
pub struct ExpertValues<T> {
    pub up: Seq<T>,
    pub down: Seq<T>,
}

/// One value for each parameter of a layer: the parameters themselves, or their gradients.
pub struct LayerValues<T> {
    pub w_s: Seq<T>,
    pub w_gate: Seq<T>,
    pub experts: Seq<ExpertValues<T>>,
    pub w_pred: Seq<T>,
    pub w_decode: Seq<T>,
}

impl<A: Arith> View for ExpertGrads<A> {
    type V = ExpertValues<A::T>;

    open spec fn view(&self) -> ExpertValues<A::T> {
        ExpertValues { up: self.grad_w_up@, down: self.grad_w_down@ }
    }
}

/// The gradients of some experts.
pub open spec fn expert_views<A: Arith>(
    grads: Seq<ExpertGrads<A>>,
) -> Seq<ExpertValues<A::T>> {
    grads.map_values(|g: ExpertGrads<A>| g@)
}

impl<A: Arith> View for LayerGrads<A> {
    type V = LayerValues<A::T>;

    open spec fn view(&self) -> LayerValues<A::T> {
        LayerValues {
            w_s: self.grad_w_s@,
            w_gate: self.grad_w_gate@,
            experts: expert_views(self.expert_grads@),
            w_pred: self.grad_w_pred@,
            w_decode: self.grad_w_decode@,
        }
    }
}

impl<T> ExpertValues<T> {
    /// The sizes of the gradients of an expert of these dimensions.
    pub open spec fn fits(&self, d: nat, d_ffn: nat) -> bool {
        self.up.len() == d_ffn * d && self.down.len() == d * d_ffn
    }
}

impl<T> LayerValues<T> {
    /// The sizes of the gradients of a layer of this configuration.
    pub open spec fn fits<A: Arith>(&self, config: AxiomConfig<A>) -> bool {
        let d = config.d_model;
        &&& self.w_s.len() == d * (3 * d)
        &&& self.w_gate.len() == config.num_experts * d
        &&& self.experts.len() == config.num_experts
        &&& forall|i: int|
            0 <= i < self.experts.len() ==> (#[trigger] self.experts[i]).fits(
                d as nat,
                config.d_ffn as nat,
            )
        &&& self.w_pred.len() == config.vocab_size * d
        &&& self.w_decode.len() == d * d
    }

    /// These gradients and others are of the same sizes.
    pub open spec fn same_sizes(&self, other: LayerValues<T>) -> bool {
        &&& self.w_s.len() == other.w_s.len()
        &&& self.w_gate.len() == other.w_gate.len()
        &&& self.experts.len() == other.experts.len()
        &&& forall|i: int|
            0 <= i < self.experts.len() ==> (#[trigger] self.experts[i]).up.len()
                == other.experts[i].up.len() && self.experts[i].down.len()
                == other.experts[i].down.len()
        &&& self.w_pred.len() == other.w_pred.len()
        &&& self.w_decode.len() == other.w_decode.len()
    }

    /// The gradients that are all zero, with the sizes of these.
    pub open spec fn cleared<A: Arith<T = T>>(&self) -> LayerValues<T> {
        LayerValues {
            w_s: zeros::<A>(self.w_s.len()),
            w_gate: zeros::<A>(self.w_gate.len()),
            experts: Seq::new(
                self.experts.len(),
                |i: int|
                    ExpertValues {
                        up: zeros::<A>(self.experts[i].up.len()),
                        down: zeros::<A>(self.experts[i].down.len()),
                    },
            ),
            w_pred: zeros::<A>(self.w_pred.len()),
            w_decode: zeros::<A>(self.w_decode.len()),
        }
    }

    /// The sums of these gradients and others.
    pub open spec fn plus<A: Arith<T = T>>(&self, other: LayerValues<T>) -> LayerValues<T> {
        LayerValues {
            w_s: summed::<A>(self.w_s, other.w_s),
            w_gate: summed::<A>(self.w_gate, other.w_gate),
            experts: Seq::new(
                self.experts.len(),
                |i: int|
                    ExpertValues {
                        up: summed::<A>(self.experts[i].up, other.experts[i].up),
                        down: summed::<A>(self.experts[i].down, other.experts[i].down),
                    },
            ),
            w_pred: summed::<A>(self.w_pred, other.w_pred),
            w_decode: summed::<A>(self.w_decode, other.w_decode),
        }
    }

    /// The sums of these gradients and others, as far as both go.
    pub open spec fn zip_plus<A: Arith<T = T>>(&self, other: LayerValues<T>) -> LayerValues<T> {
        LayerValues {
            w_s: zip_summed::<A>(self.w_s, other.w_s),
            w_gate: zip_summed::<A>(self.w_gate, other.w_gate),
            experts: Seq::new(
                self.experts.len(),
                |i: int|
                    if i < other.experts.len() {
                        ExpertValues {
                            up: zip_summed::<A>(self.experts[i].up, other.experts[i].up),
                            down: zip_summed::<A>(self.experts[i].down, other.experts[i].down),
                        }
                    } else {
                        self.experts[i]
                    },
            ),
            w_pred: zip_summed::<A>(self.w_pred, other.w_pred),
            w_decode: zip_summed::<A>(self.w_decode, other.w_decode),
        }
    }

    /// Gradients of the same sizes are added as a whole.
    pub proof fn lemma_zip_plus<A: Arith<T = T>>(&self, other: LayerValues<T>)
        ensures
            self.same_sizes(other) ==> self.zip_plus::<A>(other) == self.plus::<A>(other),
    {
        if self.same_sizes(other) {
            lemma_zip_summed::<A>(self.w_s, other.w_s);
            lemma_zip_summed::<A>(self.w_gate, other.w_gate);
            lemma_zip_summed::<A>(self.w_pred, other.w_pred);
            lemma_zip_summed::<A>(self.w_decode, other.w_decode);
            assert forall|i: int| 0 <= i < self.experts.len() implies #[trigger] self.zip_plus::<
                A,
            >(other).experts[i] == self.plus::<A>(other).experts[i] by {
                assert(self.experts[i].up.len() == other.experts[i].up.len());
                lemma_zip_summed::<A>(self.experts[i].up, other.experts[i].up);
                lemma_zip_summed::<A>(self.experts[i].down, other.experts[i].down);
            }
            assert(self.zip_plus::<A>(other).experts =~= self.plus::<A>(other).experts);
        }
    }
}

impl<T> LayerValues<T> {
    /// Each value multiplied by `alpha`.
    pub open spec fn scaled<A: Arith<T = T>>(&self, alpha: T) -> LayerValues<T> {
        LayerValues {
            w_s: scaled::<A>(self.w_s, alpha),
            w_gate: scaled::<A>(self.w_gate, alpha),
            experts: Seq::new(
                self.experts.len(),
                |i: int|
                    ExpertValues {
                        up: scaled::<A>(self.experts[i].up, alpha),
                        down: scaled::<A>(self.experts[i].down, alpha),
                    },
            ),
            w_pred: scaled::<A>(self.w_pred, alpha),
            w_decode: scaled::<A>(self.w_decode, alpha),
        }
    }
}

/// The gradients of a layer of this configuration, all zero.
pub open spec fn no_grads<A: Arith>(config: AxiomConfig<A>) -> LayerValues<A::T> {
    let d = config.d_model as nat;
    let f = config.d_ffn as nat;
    LayerValues {
        w_s: zeros::<A>(d * (3 * d)),
        w_gate: zeros::<A>(config.num_experts as nat * d),
        experts: Seq::new(
            config.num_experts as nat,
            |i: int| ExpertValues { up: zeros::<A>(f * d), down: zeros::<A>(d * f) },
        ),
        w_pred: zeros::<A>(config.vocab_size as nat * d),
        w_decode: zeros::<A>(d * d),
    }
}

/// In-place vector addition: dst += src, as far as both go
pub(crate) fn vec_add<A: Arith>(dst: &mut [A::T], src: &[A::T])
    requires
        lawful::<A>(),
    ensures
        final(dst)@ == zip_summed::<A>(old(dst)@, src@),
        old(dst)@.len() == src@.len() ==> final(dst)@ == summed::<A>(old(dst)@, src@),
{
    let n: usize = if dst.len() < src.len() {
        dst.len()
    } else {
        src.len()
    };
    let ghost before = dst@;
    let mut i: usize = 0;
    while i < n
        invariant
            lawful::<A>(),
            i <= n,
            n <= before.len(),
            n <= src@.len(),
            n == before.len() || n == src@.len(),
            dst@.len() == before.len(),
            forall|j: int| 0 <= j < i ==> #[trigger] dst@[j] == zip_summed::<A>(before, src@)[j],
            forall|j: int| i <= j < dst@.len() ==> #[trigger] dst@[j] == before[j],
        decreases n - i,
    {
        dst[i] = A::plus(dst[i], src[i]);
        i += 1;
    }
    assert(dst@ =~= zip_summed::<A>(before, src@));
    proof {
        lemma_zip_summed::<A>(before, src@);
    }
}

impl<A: Arith> LayerGrads<A> {
    pub fn new(config: &AxiomConfig<A>) -> (grads: Self)
        requires
            lawful::<A>(),
            config.d_model * (3 * config.d_model) <= usize::MAX,
            config.num_experts * config.d_model <= usize::MAX,
            config.d_ffn * config.d_model <= usize::MAX,
            config.vocab_size * config.d_model <= usize::MAX,
        ensures
            grads@.fits(*config),
            grads@ == no_grads::<A>(*config),
            grads@ == grads@.cleared::<A>(),
    {
        let d: usize = config.d_model;
        proof {
            assert(3 * d <= d * (3 * d) || d == 0) by (nonlinear_arith)
                requires
                    d >= 0,
            ;
            assert(d * d <= d * (3 * d)) by (nonlinear_arith)
                requires
                    d >= 0,
            ;
        }
        let mut expert_grads: Vec<ExpertGrads<A>> = Vec::with_capacity(config.num_experts);
        let mut i: usize = 0;
        while i < config.num_experts
            invariant
                lawful::<A>(),
                i <= config.num_experts,
                d == config.d_model,
                config.d_ffn * d <= usize::MAX,
                expert_grads@.len() == i,
                forall|j: int|
                    0 <= j < i ==> (#[trigger] expert_grads@[j])@.up == zeros::<A>(
                        (config.d_ffn * d) as nat,
                    ) && expert_grads@[j]@.down == zeros::<A>((d * config.d_ffn) as nat),
            decreases config.num_experts - i,
        {
            expert_grads.push(ExpertGrads::new(d, config.d_ffn));
            i += 1;
        }
        let grads = Self {
            grad_w_s: zero_vec::<A>(d * (3 * d)),
            grad_w_gate: zero_vec::<A>(config.num_experts * d),
            expert_grads,
            grad_w_pred: zero_vec::<A>(config.vocab_size * d),
            grad_w_decode: zero_vec::<A>(d * d),
        };
        proof {
            assert forall|j: int| 0 <= j < grads@.experts.len() implies #[trigger] grads@.experts[j]
                == grads.expert_grads@[j]@ by {}
            assert(grads@.experts =~= no_grads::<A>(*config).experts);
            assert(grads@.experts =~= grads@.cleared::<A>().experts);
        }
        grads
    }

    pub fn zero(&mut self)
        requires
            lawful::<A>(),
        ensures
            final(self)@ == old(self)@.cleared::<A>(),
    {
        vec_zero::<A>(self.grad_w_s.as_mut_slice());
        vec_zero::<A>(self.grad_w_gate.as_mut_slice());
        let mut i: usize = 0;
        while i < self.expert_grads.len()
            invariant
                lawful::<A>(),
                i <= self.expert_grads@.len(),
                self.expert_grads@.len() == old(self).expert_grads@.len(),
                self.grad_w_s@ == zeros::<A>(old(self).grad_w_s@.len()),
                self.grad_w_gate@ == zeros::<A>(old(self).grad_w_gate@.len()),
                self.grad_w_pred@ == old(self).grad_w_pred@,
                self.grad_w_decode@ == old(self).grad_w_decode@,
                forall|j: int|
                    0 <= j < i ==> (#[trigger] self.expert_grads@[j])@ == old(
                        self,
                    )@.cleared::<A>().experts[j],
                forall|j: int|
                    i <= j < self.expert_grads@.len() ==> #[trigger] self.expert_grads@[j] == old(
                        self,
                    ).expert_grads@[j],
            decreases self.expert_grads@.len() - i,
        {
            self.expert_grads[i].zero();
            i += 1;
        }
        vec_zero::<A>(self.grad_w_pred.as_mut_slice());
        vec_zero::<A>(self.grad_w_decode.as_mut_slice());
        assert(self@.experts =~= old(self)@.cleared::<A>().experts);
    }

    /// Multiply all gradients by `alpha`.
    pub fn scale(&mut self, alpha: A::T)
        requires
            lawful::<A>(),
        ensures
            final(self)@ == old(self)@.scaled::<A>(alpha),
    {
        vec_scale::<A>(self.grad_w_s.as_mut_slice(), alpha);
        vec_scale::<A>(self.grad_w_gate.as_mut_slice(), alpha);
        let mut i: usize = 0;
        while i < self.expert_grads.len()
            invariant
                lawful::<A>(),
                i <= self.expert_grads@.len(),
                self.expert_grads@.len() == old(self).expert_grads@.len(),
                self.grad_w_s@ == scaled::<A>(old(self).grad_w_s@, alpha),
                self.grad_w_gate@ == scaled::<A>(old(self).grad_w_gate@, alpha),
                self.grad_w_pred@ == old(self).grad_w_pred@,
                self.grad_w_decode@ == old(self).grad_w_decode@,
                forall|j: int|
                    0 <= j < i ==> (#[trigger] self.expert_grads@[j])@ == old(self)@.scaled::<A>(
                        alpha,
                    ).experts[j],
                forall|j: int|
                    i <= j < self.expert_grads@.len() ==> #[trigger] self.expert_grads@[j] == old(
                        self,
                    ).expert_grads@[j],
            decreases self.expert_grads@.len() - i,
        {
            vec_scale::<A>(self.expert_grads[i].grad_w_up.as_mut_slice(), alpha);
            vec_scale::<A>(self.expert_grads[i].grad_w_down.as_mut_slice(), alpha);
            i += 1;
        }
        vec_scale::<A>(self.grad_w_pred.as_mut_slice(), alpha);
        vec_scale::<A>(self.grad_w_decode.as_mut_slice(), alpha);
        assert(self@.experts =~= old(self)@.scaled::<A>(alpha).experts);
    }

    pub fn add(&mut self, other: &LayerGrads<A>)
        requires
            lawful::<A>(),
        ensures
            final(self)@ == old(self)@.zip_plus::<A>(other@),
            old(self)@.same_sizes(other@) ==> final(self)@ == old(self)@.plus::<A>(other@),
    {
        vec_add::<A>(self.grad_w_s.as_mut_slice(), other.grad_w_s.as_slice());
        vec_add::<A>(self.grad_w_gate.as_mut_slice(), other.grad_w_gate.as_slice());
        let n: usize = if self.expert_grads.len() < other.expert_grads.len() {
            self.expert_grads.len()
        } else {
            other.expert_grads.len()
        };
        let mut i: usize = 0;
        while i < n
            invariant
                lawful::<A>(),
                i <= n,
                n <= self.expert_grads@.len(),
                n <= other.expert_grads@.len(),
                n == self.expert_grads@.len() || n == other.expert_grads@.len(),
                self.expert_grads@.len() == old(self).expert_grads@.len(),
                self.grad_w_s@ == zip_summed::<A>(old(self).grad_w_s@, other.grad_w_s@),
                self.grad_w_gate@ == zip_summed::<A>(old(self).grad_w_gate@, other.grad_w_gate@),
                self.grad_w_pred@ == old(self).grad_w_pred@,
                self.grad_w_decode@ == old(self).grad_w_decode@,
                forall|j: int|
                    0 <= j < i ==> (#[trigger] self.expert_grads@[j])@ == old(self)@.zip_plus::<A>(
                        other@,
                    ).experts[j],
                forall|j: int|
                    i <= j < self.expert_grads@.len() ==> #[trigger] self.expert_grads@[j] == old(
                        self,
                    ).expert_grads@[j],
            decreases n - i,
        {
            assert(old(self)@.experts[i as int] == old(self).expert_grads@[i as int]@);
            assert(other@.experts[i as int] == other.expert_grads@[i as int]@);
            vec_add::<A>(
                self.expert_grads[i].grad_w_up.as_mut_slice(),
                other.expert_grads[i].grad_w_up.as_slice(),
            );
            vec_add::<A>(
                self.expert_grads[i].grad_w_down.as_mut_slice(),
                other.expert_grads[i].grad_w_down.as_slice(),
            );
            i += 1;
        }
        vec_add::<A>(self.grad_w_pred.as_mut_slice(), other.grad_w_pred.as_slice());
        vec_add::<A>(self.grad_w_decode.as_mut_slice(), other.grad_w_decode.as_slice());
        assert(self@.experts =~= old(self)@.zip_plus::<A>(other@).experts);
        proof {
            old(self)@.lemma_zip_plus::<A>(other@);
        }
    }
}

/// A single AXIOM Layer.
#[derive(Debug)]
pub struct AxiomLayer<A: Arith> {
    pub config: AxiomConfig<A>,
    /// (d_model x 3*d_model)
    pub w_s: Vec<A::T>,
    /// (num_experts x d_model)
    pub w_gate: Vec<A::T>,
    /// num_experts
    pub experts: Vec<ExpertMLP<A>>,
    /// (vocab_size x d_model) - for local next-token prediction
    pub w_pred: Vec<A::T>,
    /// (d_model x d_model) - for input reconstruction
    pub w_decode: Vec<A::T>,
}

impl<A: Arith> Clone for AxiomLayer<A> {
    fn clone(&self) -> (layer: Self)
        ensures
            layer.same_weights(*self),
    {
        let mut experts: Vec<ExpertMLP<A>> = Vec::with_capacity(self.experts.len());
        let mut e: usize = 0;
        while e < self.experts.len()
            invariant
                e <= self.experts@.len(),
                experts@.len() == e,
                forall|k: int|
                    0 <= k < e ==> (#[trigger] experts@[k]).same_weights(self.experts@[k]),
            decreases self.experts@.len() - e,
        {
            experts.push(self.experts[e].clone());
            e += 1;
        }
        AxiomLayer {
            config: self.config.clone(),
            w_s: copied(self.w_s.as_slice()),
            w_gate: copied(self.w_gate.as_slice()),
            experts,
            w_pred: copied(self.w_pred.as_slice()),
            w_decode: copied(self.w_decode.as_slice()),
        }
    }
}

/// What one step of a layer computes on its way.
pub struct LayerStep<T> {
    /// Associative recall: M_{t-1} * h_in
    pub m_recall: Seq<T>,
    /// [h_in; m_t; s_{t-1}]
    pub s_concat: Seq<T>,
    /// W_s * [h_in; m_t; s_{t-1}]
    pub raw_recurrent: Seq<T>,
    /// s_t = sigmoid(W_s * [h_in; m_t; s_{t-1}])
    pub state: Seq<T>,
    /// W_gate * s_t
    pub gate_scores: Seq<T>,
    /// The two experts with the best scores.
    pub top: Seq<Entry<T>>,
    /// Their weights.
    pub weights: Seq<T>,
    /// h_in + s_t + g1*Exp1 + g2*Exp2
    pub h_out: Seq<T>,
}

/// The sigmoid of each value.
pub open spec fn sigmoid_all<A: Arith>(x: Seq<A::T>) -> Seq<A::T> {
    Seq::new(x.len(), |i: int| sigmoid_of::<A>(x[i]))
}

/// The gradients through sigmoids with the given outputs.
pub open spec fn sigmoid_grad_all<A: Arith>(s: Seq<A::T>, delta: Seq<A::T>) -> Seq<A::T> {
    Seq::new(s.len(), |i: int| sigmoid_grad_of::<A>(s[i], delta[i]))
}

/// The two best entries of some scores.
pub open spec fn top2_seq<A: Arith>(scores: Seq<A::T>) -> Seq<Entry<A::T>> {
    seq![top2_of::<A>(scores, scores.len()).0, top2_of::<A>(scores, scores.len()).1]
}

impl<A: Arith> AxiomLayer<A> {
    /// The weights are as large as the configuration says, and there are experts to choose two
    /// from.
    pub open spec fn wf(&self) -> bool {
        self.config.num_experts >= 2 && self.is_sized()
    }

    /// The layer is another with the same weights.
    pub open spec fn same_weights(&self, other: AxiomLayer<A>) -> bool {
        &&& self.config == other.config
        &&& self.w_s@ == other.w_s@
        &&& self.w_gate@ == other.w_gate@
        &&& self.experts@.len() == other.experts@.len()
        &&& forall|k: int|
            0 <= k < self.experts@.len() ==> (#[trigger] self.experts@[k]).same_weights(
                other.experts@[k],
            )
        &&& self.w_pred@ == other.w_pred@
        &&& self.w_decode@ == other.w_decode@
    }

    /// The weights are as large as the configuration says.
    pub open spec fn is_sized(&self) -> bool {
        let d = self.config.d_model;
        &&& self.w_s@.len() == d * (3 * d)
        &&& self.w_gate@.len() == self.config.num_experts * d
        &&& self.experts@.len() == self.config.num_experts
        &&& forall|i: int|
            0 <= i < self.experts@.len() ==> (#[trigger] self.experts@[i]).wf()
                && self.experts@[i].d_model == d && self.experts@[i].d_ffn == self.config.d_ffn
        &&& self.w_pred@.len() == self.config.vocab_size * d
        &&& self.w_decode@.len() == d * d
    }

    /// What one step computes from its input, the memory and the recurrent state before it.
    pub open spec fn step(&self, h_in: Seq<A::T>, m: Seq<A::T>, s: Seq<A::T>) -> LayerStep<A::T> {
        let d = self.config.d_model as nat;
        let m_recall = matvec_of::<A>(m, d, h_in);
        let s_concat = h_in + m_recall + s;
        let raw_recurrent = matvec_of::<A>(self.w_s@, d, s_concat);
        let state = sigmoid_all::<A>(raw_recurrent);
        let gate_scores = matvec_of::<A>(self.w_gate@, self.config.num_experts as nat, state);
        let top = top2_seq::<A>(gate_scores);
        let weights = topk_softmax_of::<A>(top);
        LayerStep {
            m_recall,
            s_concat,
            raw_recurrent,
            state,
            gate_scores,
            top,
            weights,
            h_out: add_scaled::<A>(
                add_scaled::<A>(
                    add_scaled::<A>(h_in, state, one::<A>()),
                    self.experts@[top[0].1 as int].out_of(state),
                    weights[0],
                ),
                self.experts@[top[1].1 as int].out_of(state),
                weights[1],
            ),
        }
    }

    /// The weights are those that the generator of the seed draws, one matrix after another, each
    /// on the scale of what it is applied to. Expert `i` has a seed of its own.
    pub open spec fn is_drawn(&self, seed: u64) -> bool {
        let d = self.config.d_model;
        &&& drawn_from_seed::<A>(
            seed,
            seq![
                WeightDraw { weights: self.w_s@, scale: weight_scale::<A>(2, (3 * d) as usize) },
                WeightDraw { weights: self.w_gate@, scale: weight_scale::<A>(2, d) },
                WeightDraw { weights: self.w_pred@, scale: weight_scale::<A>(2, d) },
                WeightDraw { weights: self.w_decode@, scale: weight_scale::<A>(2, d) },
            ],
        )
        &&& forall|i: int|
            0 <= i < self.experts@.len() ==> (#[trigger] self.experts@[i]).is_drawn(
                (seed + 100 + i) as u64,
            )
    }

    /// A layer with weights drawn from the generator of a seed. Expert `i` has the seed behind
    /// the layer's by `100 + i`.
    pub fn new(config: AxiomConfig<A>, seed: u64) -> (layer: Self)
        requires
            lawful::<A>(),
            config.d_model * (3 * config.d_model) <= usize::MAX,
            config.num_experts * config.d_model <= usize::MAX,
            config.d_ffn * config.d_model <= usize::MAX,
            config.vocab_size * config.d_model <= usize::MAX,
            3 * config.d_model <= usize::MAX,
            config.num_experts > 0 ==> seed + 99 + config.num_experts <= u64::MAX,
        ensures
            layer.config == config,
            layer.is_sized(),
            layer.is_drawn(seed),
    {
        let d: usize = config.d_model;
        assert(d * d <= d * (3 * d)) by (nonlinear_arith)
            requires
                d >= 0,
        ;
        let mut source = WeightSource::<A>::new(seed);
        let scale_ws = scale_for::<A>(2, 3 * d);
        let scale_gate = scale_for::<A>(2, d);
        let scale_pred = scale_for::<A>(2, d);
        let scale_decode = scale_for::<A>(2, d);
        let w_s = source.draw(scale_ws, d * (3 * d));
        let w_gate = source.draw(scale_gate, config.num_experts * d);
        let mut experts: Vec<ExpertMLP<A>> = Vec::with_capacity(config.num_experts);
        let mut i: usize = 0;
        while i < config.num_experts
            invariant
                lawful::<A>(),
                i <= config.num_experts,
                d == config.d_model,
                config.d_ffn * d <= usize::MAX,
                config.num_experts > 0 ==> seed + 99 + config.num_experts <= u64::MAX,
                experts@.len() == i,
                forall|k: int|
                    0 <= k < i ==> (#[trigger] experts@[k]).wf() && experts@[k].d_model == d
                        && experts@[k].d_ffn == config.d_ffn && experts@[k].is_drawn(
                        (seed + 100 + k) as u64,
                    ),
            decreases config.num_experts - i,
        {
            experts.push(ExpertMLP::new(d, config.d_ffn, seed + 100 + i as u64));
            i += 1;
        }
        let w_pred = source.draw(scale_pred, config.vocab_size * d);
        let w_decode = source.draw(scale_decode, d * d);
        proof {
            source.lemma_drawn(seed);
            assert(source.parts() =~= seq![
                WeightDraw { weights: w_s@, scale: scale_ws },
                WeightDraw { weights: w_gate@, scale: scale_gate },
                WeightDraw { weights: w_pred@, scale: scale_pred },
                WeightDraw { weights: w_decode@, scale: scale_decode },
            ]);
        }
        Self { config, w_s, w_gate, experts, w_pred, w_decode }
    }

    /// Recall, recurrent update and routing: the first three parts of a step.
    pub(crate) fn recur_and_route(
        &self,
        h_in: &[A::T],
        state: &mut LayerState<A>,
        scratch: &mut LayerScratch<A>,
    ) -> (routed: (usize, usize, [A::T; 2]))
        requires
            lawful::<A>(),
            self.wf(),
            h_in@.len() == self.config.d_model,
            old(state).fits(self.config.d_model as nat),
            old(scratch)@.fits(self.config),
        ensures
            ({
                let step = self.step(
                    h_in@,
                    old(state).memory.m@,
                    old(state).recurrent_state@,
                );
                &&& routed.0 == step.top[0].1
                &&& routed.1 == step.top[1].1
                &&& routed.2@ == step.weights
                &&& final(state).recurrent_state@ == step.state
                &&& final(scratch)@ == (ScratchView {
                    m_recall: step.m_recall,
                    s_concat: step.s_concat,
                    raw_recurrent: step.raw_recurrent,
                    gate_scores: step.gate_scores,
                    ..old(scratch)@
                })
                &&& step.top[0].1 < self.config.num_experts
                &&& step.top[1].1 < self.config.num_experts
            }),
            final(state).memory == old(state).memory,
            final(state).buffer == old(state).buffer,
            final(scratch)@.fits(self.config),
            final(state).fits(self.config.d_model as nat),
    {
        let d: usize = self.config.d_model;
        proof {
            assert(scratch.s_concat.len() == scratch@.s_concat.len());
        }
        // 1. Associative Memory Recall: m_t = M_{t-1} * h_in
        state.memory.recall(h_in, scratch.m_recall.as_mut_slice());
        // 2. Recurrent Update: s_t = sigmoid(W_s * [h_in; m_t; s_{t-1}])
        concat3(
            scratch.s_concat.as_mut_slice(),
            h_in,
            scratch.m_recall.as_slice(),
            state.recurrent_state.as_slice(),
        );
        let ws_view = MatrixView::new(self.w_s.as_slice(), d, 3 * d);
        matvec::<A>(&ws_view, scratch.s_concat.as_slice(), scratch.raw_recurrent.as_mut_slice());
        sigmoid::<A>(scratch.raw_recurrent.as_slice(), state.recurrent_state.as_mut_slice());
        // 3. Expert Routing: top-2 from softmax(W_gate * s_t)
        let gate_view = MatrixView::new(self.w_gate.as_slice(), self.config.num_experts, d);
        matvec::<A>(
            &gate_view,
            state.recurrent_state.as_slice(),
            scratch.gate_scores.as_mut_slice(),
        );
        let top_experts = top2::<A>(scratch.gate_scores.as_slice());
        let mut expert_weights = [A::lit(0, 0); 2];
        topk_softmax::<A, 2>(&top_experts, &mut expert_weights);
        assert(top_experts@ =~= top2_seq::<A>(scratch.gate_scores@));
        (top_experts[0].1, top_experts[1].1, expert_weights)
    }

    /// The output of a step from its parts: h_out = h_in + s_t + g1*Exp1 + g2*Exp2
    pub(crate) fn combine(
        h_in: &[A::T],
        state: &[A::T],
        out1: &[A::T],
        out2: &[A::T],
        weights: &[A::T; 2],
        h_out: &mut [A::T],
    )
        requires
            lawful::<A>(),
            state@.len() == h_in@.len(),
            out1@.len() == h_in@.len(),
            out2@.len() == h_in@.len(),
            old(h_out)@.len() == h_in@.len(),
        ensures
            final(h_out)@ == add_scaled::<A>(
                add_scaled::<A>(
                    add_scaled::<A>(h_in@, state@, one::<A>()),
                    out1@,
                    weights@[0],
                ),
                out2@,
                weights@[1],
            ),
    {
        vec_copy(h_out, h_in);
        vec_add_scaled::<A>(h_out, state, A::lit(1, 0));
        vec_add_scaled::<A>(h_out, out1, weights[0]);
        vec_add_scaled::<A>(h_out, out2, weights[1]);
    }

    /// Fast Inference Forward Pass:
    /// Computes associative recall, recurrent update, sparse expert routing/compute,
    /// residual skip connection (h_out = h_in + s_t + experts), and Hebbian memory write.
    pub fn forward_infer(
        &self,
        h_in: &[A::T],
        state: &mut LayerState<A>,
        scratch: &mut LayerScratch<A>,
        h_out: &mut [A::T],
    )
        requires
            lawful::<A>(),
            self.wf(),
            h_in@.len() == self.config.d_model,
            old(h_out)@.len() == self.config.d_model,
            old(state).fits(self.config.d_model as nat),
            old(scratch)@.fits(self.config),
        ensures
            ({
                let step = self.step(
                    h_in@,
                    old(state).memory.m@,
                    old(state).recurrent_state@,
                );
                let expert1 = self.experts@[step.top[0].1 as int];
                let expert2 = self.experts@[step.top[1].1 as int];
                &&& final(h_out)@ == step.h_out
                &&& final(state).recurrent_state@ == step.state
                &&& final(state).memory.m@ == hebbian_of::<A>(
                    old(state).memory.m@,
                    step.h_out,
                    old(state).memory.decay,
                    old(state).memory.lr,
                )
                &&& final(scratch)@ == (ScratchView {
                    m_recall: step.m_recall,
                    s_concat: step.s_concat,
                    raw_recurrent: step.raw_recurrent,
                    gate_scores: step.gate_scores,
                    expert_raw_ffn1: expert1.act_of(step.state),
                    expert_out1: expert1.out_of(step.state),
                    expert_raw_ffn2: expert2.act_of(step.state),
                    expert_out2: expert2.out_of(step.state),
                    ..old(scratch)@
                })
            }),
            final(state).memory.decay == old(state).memory.decay,
            final(state).memory.lr == old(state).memory.lr,
            final(state).buffer == old(state).buffer,
            final(state).fits(self.config.d_model as nat),
            final(scratch)@.fits(self.config),
    {
        let (idx1, idx2, expert_weights) = self.recur_and_route(h_in, state, scratch);
        // 4. Sparse Expert Computation with residual skip: h_out = h_in + s_t + g1*Exp1 + g2*Exp2
        let ghost raw1 = scratch.expert_raw_ffn1@;
        let ghost raw2 = scratch.expert_raw_ffn2@;
        self.experts[idx1].forward(
            state.recurrent_state.as_slice(),
            scratch.expert_raw_ffn1.as_mut_slice(),
            scratch.expert_out1.as_mut_slice(),
        );
        self.experts[idx2].forward(
            state.recurrent_state.as_slice(),
            scratch.expert_raw_ffn2.as_mut_slice(),
            scratch.expert_out2.as_mut_slice(),
        );
        proof {
            let s = state.recurrent_state@;
            assert(in_front(self.experts@[idx1 as int].act_of(s), raw1)
                =~= self.experts@[idx1 as int].act_of(s));
            assert(in_front(self.experts@[idx2 as int].act_of(s), raw2)
                =~= self.experts@[idx2 as int].act_of(s));
        }
        Self::combine(
            h_in,
            state.recurrent_state.as_slice(),
            scratch.expert_out1.as_slice(),
            scratch.expert_out2.as_slice(),
            &expert_weights,
            h_out,
        );
        // 5. Fast Memory Write (Hebbian, online): M_t = lambda*M_{t-1} + eta*h_out*h_out^T
        state.memory.update(h_out);
    }

    /// The local prediction head: W_pred * h_out
    pub open spec fn logits_of(&self, h_out: Seq<A::T>) -> Seq<A::T> {
        matvec_of::<A>(self.w_pred@, self.config.vocab_size as nat, h_out)
    }

    /// The reconstruction of the input: W_decode * h_out
    pub open spec fn decoded_of(&self, h_out: Seq<A::T>) -> Seq<A::T> {
        matvec_of::<A>(self.w_decode@, self.config.d_model as nat, h_out)
    }

    /// What the scratch buffers hold after a training step.
    pub open spec fn trained_scratch(
        &self,
        h_in: Seq<A::T>,
        target: int,
        step: LayerStep<A::T>,
        before: ScratchView<A::T>,
    ) -> ScratchView<A::T> {
        let expert1 = self.experts@[step.top[0].1 as int];
        let expert2 = self.experts@[step.top[1].1 as int];
        let logits = self.logits_of(step.h_out);
        let decoded = self.decoded_of(step.h_out);
        ScratchView {
            m_recall: step.m_recall,
            s_concat: step.s_concat,
            raw_recurrent: step.raw_recurrent,
            gate_scores: step.gate_scores,
            expert_raw_ffn1: expert1.raw_of(step.state),
            expert_act_ffn1: expert1.act_of(step.state),
            expert_out1: expert1.out_of(step.state),
            expert_raw_ffn2: expert2.raw_of(step.state),
            expert_act_ffn2: expert2.act_of(step.state),
            expert_out2: expert2.out_of(step.state),
            pred_logits: logits,
            pred_probs: softmax_of::<A>(logits),
            pred_grad: cross_entropy_grad_of::<A>(logits, target),
            recon_hidden: decoded,
            recon_grad: mse_grad_of::<A>(decoded, h_in),
            ..before
        }
    }

    /// A training step without the copy buffer: the forward pass with its losses. The result
    /// names the two experts and their weights.
    pub(crate) fn train_step(
        &self,
        h_in: &[A::T],
        target_token: usize,
        state: &mut LayerState<A>,
        scratch: &mut LayerScratch<A>,
        h_out: &mut [A::T],
    ) -> (out: ((A::T, A::T), (usize, usize, [A::T; 2])))
        requires
            lawful::<A>(),
            self.wf(),
            h_in@.len() == self.config.d_model,
            old(h_out)@.len() == self.config.d_model,
            old(state).fits(self.config.d_model as nat),
            old(scratch)@.fits(self.config),
            target_token < self.config.vocab_size,
        ensures
            ({
                let step = self.step(
                    h_in@,
                    old(state).memory.m@,
                    old(state).recurrent_state@,
                );
                &&& final(h_out)@ == step.h_out
                &&& out.0.0 == cross_entropy_of::<A>(
                    self.logits_of(step.h_out),
                    target_token as int,
                )
                &&& out.0.1 == mse_of::<A>(self.decoded_of(step.h_out), h_in@)
                &&& out.1.0 == step.top[0].1
                &&& out.1.1 == step.top[1].1
                &&& out.1.2@ == step.weights
                &&& step.top[0].1 < self.config.num_experts
                &&& step.top[1].1 < self.config.num_experts
                &&& final(state).recurrent_state@ == step.state
                &&& final(state).memory.m@ == hebbian_of::<A>(
                    old(state).memory.m@,
                    step.h_out,
                    old(state).memory.decay,
                    old(state).memory.lr,
                )
                &&& final(scratch)@ == self.trained_scratch(
                    h_in@,
                    target_token as int,
                    step,
                    old(scratch)@,
                )
            }),
            final(state).memory.decay == old(state).memory.decay,
            final(state).memory.lr == old(state).memory.lr,
            final(state).buffer == old(state).buffer,
            final(state).fits(self.config.d_model as nat),
            final(scratch)@.fits(self.config),
    {
        let d: usize = self.config.d_model;
        let (idx1, idx2, expert_weights) = self.recur_and_route(h_in, state, scratch);
        // 4. Sparse Expert Computation with caching
        let ghost kept = scratch@;
        self.experts[idx1].forward_with_cache(
            state.recurrent_state.as_slice(),
            scratch.expert_raw_ffn1.as_mut_slice(),
            scratch.expert_act_ffn1.as_mut_slice(),
            scratch.expert_out1.as_mut_slice(),
        );
        self.experts[idx2].forward_with_cache(
            state.recurrent_state.as_slice(),
            scratch.expert_raw_ffn2.as_mut_slice(),
            scratch.expert_act_ffn2.as_mut_slice(),
            scratch.expert_out2.as_mut_slice(),
        );
        proof {
            let s = state.recurrent_state@;
            let (e1, e2) = (self.experts@[idx1 as int], self.experts@[idx2 as int]);
            assert(in_front(e1.raw_of(s), kept.expert_raw_ffn1) =~= e1.raw_of(s));
            assert(in_front(e1.act_of(s), kept.expert_act_ffn1) =~= e1.act_of(s));
            assert(in_front(e2.raw_of(s), kept.expert_raw_ffn2) =~= e2.raw_of(s));
            assert(in_front(e2.act_of(s), kept.expert_act_ffn2) =~= e2.act_of(s));
        }
        Self::combine(
            h_in,
            state.recurrent_state.as_slice(),
            scratch.expert_out1.as_slice(),
            scratch.expert_out2.as_slice(),
            &expert_weights,
            h_out,
        );
        // 5. Fast Memory Write (Hebbian, online, no gradient through M)
        state.memory.update(h_out);
        // 6. Local Prediction Head: p^l = softmax(W_pred * h_out)
        let pred_view = MatrixView::new(self.w_pred.as_slice(), self.config.vocab_size, d);
        matvec::<A>(&pred_view, h_out, scratch.pred_logits.as_mut_slice());
        let loss_pred = cross_entropy_loss_and_grad::<A>(
            scratch.pred_logits.as_slice(),
            target_token,
            scratch.pred_probs.as_mut_slice(),
            scratch.pred_grad.as_mut_slice(),
        );
        // 7. Reconstruction Decoder: h_hat = W_decode * h_out
        let decode_view = MatrixView::new(self.w_decode.as_slice(), d, d);
        matvec::<A>(&decode_view, h_out, scratch.recon_hidden.as_mut_slice());
        let loss_recon = mse_loss_and_grad::<A>(
            scratch.recon_hidden.as_slice(),
            h_in,
            scratch.recon_grad.as_mut_slice(),
        );
        ((loss_pred, loss_recon), (idx1, idx2, expert_weights))
    }

    /// Full Training Forward Pass with intermediate activation caching for backward autodiff.
    pub fn forward_train(
        &self,
        h_in: &[A::T],
        target_token: usize,
        state: &mut LayerState<A>,
        scratch: &mut LayerScratch<A>,
        h_out: &mut [A::T],
    ) -> (losses: (A::T, A::T))
        requires
            lawful::<A>(),
            self.wf(),
            h_in@.len() == self.config.d_model,
            old(h_out)@.len() == self.config.d_model,
            old(state).fits(self.config.d_model as nat),
            old(scratch)@.fits(self.config),
            target_token < self.config.vocab_size,
        ensures
            ({
                let step = self.step(
                    h_in@,
                    old(state).memory.m@,
                    old(state).recurrent_state@,
                );
                let logits = self.logits_of(step.h_out);
                let probs = softmax_of::<A>(logits);
                &&& final(h_out)@ == step.h_out
                &&& losses.0 == cross_entropy_of::<A>(logits, target_token as int)
                &&& losses.1 == mse_of::<A>(self.decoded_of(step.h_out), h_in@)
                &&& final(state).recurrent_state@ == step.state
                &&& final(state).memory.m@ == hebbian_of::<A>(
                    old(state).memory.m@,
                    step.h_out,
                    old(state).memory.decay,
                    old(state).memory.lr,
                )
                &&& final(state).buffer@ == if s_exceeds::<A>(
                    entropy_of::<A>(probs, probs.len()),
                    s_lit::<A>(2, 0),
                ) {
                    pushed(
                        old(state).buffer@,
                        old(state).buffer.spec_capacity(),
                        target_token as u32,
                    )
                } else {
                    old(state).buffer@
                }
                &&& final(scratch)@ == self.trained_scratch(
                    h_in@,
                    target_token as int,
                    step,
                    old(scratch)@,
                )
            }),
            final(state).memory.decay == old(state).memory.decay,
            final(state).memory.lr == old(state).memory.lr,
            final(state).buffer.spec_capacity() == old(state).buffer.spec_capacity(),
            final(state).fits(self.config.d_model as nat),
            final(scratch)@.fits(self.config),
    {
        let (losses, _) = self.train_step(h_in, target_token, state, scratch, h_out);
        // Buffer push if surprisal (entropy) > threshold
        let surprisal = entropy::<A>(scratch.pred_probs.as_slice());
        let threshold = A::lit(2, 0);
        if A::exceeds(surprisal, threshold) {
            state.buffer.push(#[verifier::truncate] (target_token as u32));
        }
        losses
    }
}

/// The weights of the three local losses.
pub struct LossWeights<T> {
    pub pred: T,
    pub recon: T,
    pub residual: T,
}

/// The activations of an expert: before and behind its GELU, and its output.
pub struct ExpertActs<T> {
    pub raw: Seq<T>,
    pub act: Seq<T>,
    pub out: Seq<T>,
}

/// What the backward pass through experts and router computes.
pub struct Routed<T> {
    /// The gradient at the recurrent state.
    pub delta_s: Seq<T>,
    /// The gradient at the output of the second expert.
    pub delta_exp2: Seq<T>,
    pub experts: Seq<ExpertValues<T>>,
    pub w_gate: Seq<T>,
}

/// What the backward pass of a layer computes.
pub struct LayerBackward<T> {
    /// The gradient at the output of the layer.
    pub delta_h1: Seq<T>,
    /// The gradient at the recurrent state.
    pub delta_s: Seq<T>,
    /// The gradient at the input of the recurrent sigmoid.
    pub delta_us: Seq<T>,
    /// The gradient at the output of the second expert.
    pub delta_exp2: Seq<T>,
    /// W_s^T * delta_us
    pub transposed: Seq<T>,
    pub s_concat: Seq<T>,
    pub grads: LayerValues<T>,
    pub grad_h_in: Seq<T>,
}

/// 2 * lambda_residual / d
pub open spec fn residual_factor<A: Arith>(lambda_residual: A::T, d: usize) -> A::T {
    s_over::<A>(s_times::<A>(s_lit::<A>(2, 0), lambda_residual), s_count::<A>(d))
}

/// The gradients of an expert with those of one more step added.
pub open spec fn expert_grads_added<A: Arith>(
    expert: ExpertMLP<A>,
    x: Seq<A::T>,
    raw: Seq<A::T>,
    act: Seq<A::T>,
    grad_out: Seq<A::T>,
    grads: ExpertValues<A::T>,
) -> ExpertValues<A::T> {
    ExpertValues {
        up: outer_added::<A>(grads.up, expert.delta_z_of(raw, grad_out), x, one::<A>()),
        down: outer_added::<A>(grads.down, grad_out, act, one::<A>()),
    }
}

/// `delta` with the gradient through an expert to its input added.
pub open spec fn expert_delta_added<A: Arith>(
    expert: ExpertMLP<A>,
    raw: Seq<A::T>,
    grad_out: Seq<A::T>,
    delta: Seq<A::T>,
) -> Seq<A::T> {
    let delta_z = expert.delta_z_of(raw, grad_out);
    rows_added::<A>(delta, expert.w_up@, delta_z, delta_z.len())
}

/// The gradient at the score of an expert with weight `g`, beside one with weight `h`:
/// g * (1 - g) * dg - g1 * g2 * dh
pub open spec fn gate_delta<A: Arith>(g: A::T, g1: A::T, g2: A::T, dg: A::T, dh: A::T) -> A::T {
    s_minus::<A>(
        s_times::<A>(s_times::<A>(g, s_minus::<A>(one::<A>(), g)), dg),
        s_times::<A>(s_times::<A>(g1, g2), dh),
    )
}

/// `v` with `factor * (a - b)` added.
pub open spec fn difference_added<A: Arith>(
    v: Seq<A::T>,
    factor: A::T,
    a: Seq<A::T>,
    b: Seq<A::T>,
) -> Seq<A::T> {
    Seq::new(
        v.len(),
        |i: int| s_plus::<A>(v[i], s_times::<A>(factor, s_minus::<A>(a[i], b[i]))),
    )
}

/// `v` with `factor * (a - b)` taken off.
pub open spec fn difference_taken<A: Arith>(
    v: Seq<A::T>,
    factor: A::T,
    a: Seq<A::T>,
    b: Seq<A::T>,
) -> Seq<A::T> {
    Seq::new(
        v.len(),
        |i: int| s_minus::<A>(v[i], s_times::<A>(factor, s_minus::<A>(a[i], b[i]))),
    )
}

/// Each value times `lambda`, as `lambda * value`.
pub open spec fn times_each<A: Arith>(lambda: A::T, values: Seq<A::T>) -> Seq<A::T> {
    Seq::new(values.len(), |i: int| s_times::<A>(lambda, values[i]))
}

impl<A: Arith> AxiomLayer<A> {
    /// The gradient of the weighted losses at the output of the layer. A reconstruction weight
    /// of one is left out of the products where `unweighted` says so.
    pub open spec fn delta_h1_of(
        &self,
        h_in: Seq<A::T>,
        h_out: Seq<A::T>,
        pred_grad: Seq<A::T>,
        recon_grad: Seq<A::T>,
        lambda: LossWeights<A::T>,
        unweighted: bool,
    ) -> Seq<A::T> {
        let d = self.config.d_model as nat;
        let start = zeros::<A>(d);
        let after_pred = if s_exceeds::<A>(lambda.pred, zero::<A>()) {
            let sum = rows_added::<A>(start, self.w_pred@, pred_grad, pred_grad.len());
            if s_equals::<A>(lambda.pred, one::<A>()) {
                sum
            } else {
                scaled::<A>(sum, lambda.pred)
            }
        } else {
            start
        };
        let after_recon = if s_exceeds::<A>(lambda.recon, zero::<A>()) {
            if unweighted && s_equals::<A>(lambda.recon, one::<A>()) {
                rows_added::<A>(after_pred, self.w_decode@, recon_grad, d)
            } else {
                rows_added::<A>(
                    after_pred,
                    self.w_decode@,
                    times_each::<A>(lambda.recon, recon_grad),
                    d,
                )
            }
        } else {
            after_pred
        };
        if s_exceeds::<A>(lambda.residual, zero::<A>()) {
            difference_added::<A>(
                after_recon,
                residual_factor::<A>(lambda.residual, self.config.d_model),
                h_out,
                h_in,
            )
        } else {
            after_recon
        }
    }

    /// The gradients through the two experts of a step and through their router, for the
    /// gradient `delta_h1` at the output of the layer.
    pub open spec fn routed_backward(
        &self,
        idx1: int,
        idx2: int,
        g1: A::T,
        g2: A::T,
        s_curr: Seq<A::T>,
        acts1: ExpertActs<A::T>,
        acts2: ExpertActs<A::T>,
        delta_h1: Seq<A::T>,
        experts: Seq<ExpertValues<A::T>>,
        w_gate: Seq<A::T>,
    ) -> Routed<A::T> {
        let d = self.config.d_model as nat;
        // through the experts
        let delta_exp1 = scaled::<A>(delta_h1, g1);
        let delta_exp2 = scaled::<A>(delta_h1, g2);
        let expert1 = self.experts@[idx1];
        let expert2 = self.experts@[idx2];
        let with1 = experts.update(
            idx1,
            expert_grads_added::<A>(
                expert1,
                s_curr,
                acts1.raw,
                acts1.act,
                delta_exp1,
                experts[idx1],
            ),
        );
        let with2 = with1.update(
            idx2,
            expert_grads_added::<A>(expert2, s_curr, acts2.raw, acts2.act, delta_exp2, with1[idx2]),
        );
        let after1 = expert_delta_added::<A>(expert1, acts1.raw, delta_exp1, delta_h1);
        let after2 = expert_delta_added::<A>(expert2, acts2.raw, delta_exp2, after1);
        // through the router
        let dg1 = dot_of::<A>(delta_h1, acts1.out);
        let dg2 = dot_of::<A>(delta_h1, acts2.out);
        let delta_gate1 = gate_delta::<A>(g1, g1, g2, dg1, dg2);
        let delta_gate2 = gate_delta::<A>(g2, g1, g2, dg2, dg1);
        let gate1 = with_row(
            w_gate,
            d,
            idx1,
            add_scaled::<A>(row_of(w_gate, d, idx1), s_curr, delta_gate1),
        );
        let gate2 = with_row(
            gate1,
            d,
            idx2,
            add_scaled::<A>(row_of(gate1, d, idx2), s_curr, delta_gate2),
        );
        Routed {
            delta_s: add_scaled::<A>(
                add_scaled::<A>(after2, row_of(self.w_gate@, d, idx1), delta_gate1),
                row_of(self.w_gate@, d, idx2),
                delta_gate2,
            ),
            delta_exp2,
            experts: with2,
            w_gate: gate2,
        }
    }

    /// The gradients of a step, from the activations that its forward pass left behind.
    pub open spec fn backward(
        &self,
        h_in: Seq<A::T>,
        s_prev: Seq<A::T>,
        s_curr: Seq<A::T>,
        h_out: Seq<A::T>,
        lambda: LossWeights<A::T>,
        acts: ScratchView<A::T>,
        grads: LayerValues<A::T>,
    ) -> LayerBackward<A::T> {
        let d = self.config.d_model as nat;
        let delta_h1 = self.delta_h1_of(
            h_in,
            h_out,
            acts.pred_grad,
            acts.recon_grad,
            lambda,
            true,
        );
        let top = top2_seq::<A>(acts.gate_scores);
        let weights = topk_softmax_of::<A>(top);
        let routed = self.routed_backward(
            top[0].1 as int,
            top[1].1 as int,
            weights[0],
            weights[1],
            s_curr,
            ExpertActs {
                raw: acts.expert_raw_ffn1,
                act: acts.expert_act_ffn1,
                out: acts.expert_out1,
            },
            ExpertActs {
                raw: acts.expert_raw_ffn2,
                act: acts.expert_act_ffn2,
                out: acts.expert_out2,
            },
            delta_h1,
            grads.experts,
            grads.w_gate,
        );
        let delta_s = routed.delta_s;
        // through the recurrent cell
        let delta_us = sigmoid_grad_all::<A>(s_curr, delta_s);
        let s_concat = h_in + acts.m_recall + s_prev;
        let transposed = matvec_transposed_of::<A>(self.w_s@, 3 * d, delta_us);
        // into the input
        let direct = add_scaled::<A>(delta_h1, transposed.take(d as int), one::<A>());
        let with_recon = if s_exceeds::<A>(lambda.recon, zero::<A>()) {
            add_scaled::<A>(direct, acts.recon_grad, s_negate::<A>(lambda.recon))
        } else {
            direct
        };
        LayerBackward {
            delta_h1,
            delta_s,
            delta_us,
            delta_exp2: routed.delta_exp2,
            transposed,
            s_concat,
            grads: LayerValues {
                w_s: outer_added::<A>(grads.w_s, delta_us, s_concat, one::<A>()),
                w_gate: routed.w_gate,
                experts: routed.experts,
                w_pred: outer_added::<A>(grads.w_pred, acts.pred_grad, h_out, lambda.pred),
                w_decode: outer_added::<A>(grads.w_decode, acts.recon_grad, h_out, lambda.recon),
            },
            grad_h_in: if s_exceeds::<A>(lambda.residual, zero::<A>()) {
                difference_taken::<A>(
                    with_recon,
                    residual_factor::<A>(lambda.residual, self.config.d_model),
                    h_out,
                    h_in,
                )
            } else {
                with_recon
            },
        }
    }

    /// The gradient of the weighted losses at the output of the layer.
    pub(crate) fn output_gradient(
        &self,
        h_in: &[A::T],
        h_out: &[A::T],
        pred_grad: &[A::T],
        recon_grad: &[A::T],
        lambda_pred: A::T,
        lambda_recon: A::T,
        lambda_residual: A::T,
        unweighted: bool,
        delta_h1: &mut [A::T],
    )
        requires
            lawful::<A>(),
            self.wf(),
            h_in@.len() == self.config.d_model,
            h_out@.len() == self.config.d_model,
            pred_grad@.len() == self.config.vocab_size,
            recon_grad@.len() == self.config.d_model,
            old(delta_h1)@.len() == self.config.d_model,
        ensures
            final(delta_h1)@ == self.delta_h1_of(
                h_in@,
                h_out@,
                pred_grad@,
                recon_grad@,
                (LossWeights { pred: lambda_pred, recon: lambda_recon, residual: lambda_residual }),
                unweighted,
            ),
            final(delta_h1)@.len() == self.config.d_model,
    {
        let d: usize = self.config.d_model;
        let pred_view = MatrixView::new(self.w_pred.as_slice(), self.config.vocab_size, d);
        let decode_view = MatrixView::new(self.w_decode.as_slice(), d, d);
        let (z, unit) = (A::lit(0, 0), A::lit(1, 0));
        vec_zero::<A>(delta_h1);
        if A::exceeds(lambda_pred, z) {
            matvec_transposed_accumulate::<A>(&pred_view, pred_grad, delta_h1);
            if !A::equals(lambda_pred, unit) {
                vec_scale::<A>(delta_h1, lambda_pred);
            }
        }
        if A::exceeds(lambda_recon, z) {
            if unweighted && A::equals(lambda_recon, unit) {
                matvec_transposed_accumulate::<A>(&decode_view, recon_grad, delta_h1);
            } else {
                let ghost start = delta_h1@;
                let ghost weighted = times_each::<A>(lambda_recon, recon_grad@);
                let mut r: usize = 0;
                while r < d
                    invariant
                        lawful::<A>(),
                        r <= d,
                        z == zero::<A>(),
                        recon_grad@.len() == d,
                        decode_view.wf(),
                        decode_view.rows == d,
                        decode_view.cols == d,
                        decode_view.data@ == self.w_decode@,
                        start.len() == d,
                        delta_h1@.len() == d,
                        weighted == times_each::<A>(lambda_recon, recon_grad@),
                        delta_h1@ == rows_added::<A>(start, self.w_decode@, weighted, r as nat),
                    decreases d - r,
                {
                    let scale = A::times(lambda_recon, recon_grad[r]);
                    if !A::equals(scale, z) {
                        let row = decode_view.row(r);
                        vec_add_scaled::<A>(delta_h1, row, scale);
                    }
                    r += 1;
                }
            }
        }
        if A::exceeds(lambda_residual, z) {
            let factor = A::over(A::times(A::lit(2, 0), lambda_residual), A::count(d));
            let ghost before = delta_h1@;
            let mut i: usize = 0;
            while i < d
                invariant
                    lawful::<A>(),
                    i <= d,
                    h_in@.len() == d,
                    h_out@.len() == d,
                    delta_h1@.len() == d,
                    before.len() == d,
                    forall|j: int|
                        0 <= j < i ==> #[trigger] delta_h1@[j] == difference_added::<A>(
                            before,
                            factor,
                            h_out@,
                            h_in@,
                        )[j],
                    forall|j: int| i <= j < d ==> #[trigger] delta_h1@[j] == before[j],
                decreases d - i,
            {
                delta_h1[i] = A::plus(
                    delta_h1[i],
                    A::times(factor, A::minus(h_out[i], h_in[i])),
                );
                i += 1;
            }
            assert(delta_h1@ =~= difference_added::<A>(before, factor, h_out@, h_in@));
        }
    }

    /// Take `2 * lambda_residual / d` times `h_out - h_in` off the gradient at the input.
    pub(crate) fn take_residual(
        h_in: &[A::T],
        h_out: &[A::T],
        lambda_residual: A::T,
        grad_h_in: &mut [A::T],
    )
        requires
            lawful::<A>(),
            h_in@.len() == old(grad_h_in)@.len(),
            h_out@.len() == old(grad_h_in)@.len(),
        ensures
            final(grad_h_in)@ == difference_taken::<A>(
                old(grad_h_in)@,
                residual_factor::<A>(lambda_residual, old(grad_h_in)@.len() as usize),
                h_out@,
                h_in@,
            ),
    {
        let d: usize = grad_h_in.len();
        let factor = A::over(A::times(A::lit(2, 0), lambda_residual), A::count(d));
        let ghost before = grad_h_in@;
        let mut i: usize = 0;
        while i < d
            invariant
                lawful::<A>(),
                i <= d,
                h_in@.len() == d,
                h_out@.len() == d,
                grad_h_in@.len() == d,
                before.len() == d,
                forall|j: int|
                    0 <= j < i ==> #[trigger] grad_h_in@[j] == difference_taken::<A>(
                        before,
                        factor,
                        h_out@,
                        h_in@,
                    )[j],
                forall|j: int| i <= j < d ==> #[trigger] grad_h_in@[j] == before[j],
            decreases d - i,
        {
            grad_h_in[i] = A::minus(grad_h_in[i], A::times(factor, A::minus(h_out[i], h_in[i])));
            i += 1;
        }
        assert(grad_h_in@ =~= difference_taken::<A>(before, factor, h_out@, h_in@));
    }

    /// The gradient at the score of an expert with weight `g`.
    fn gate_delta_at(g: A::T, g1: A::T, g2: A::T, dg: A::T, dh: A::T) -> (delta: A::T)
        requires
            lawful::<A>(),
        ensures
            delta == gate_delta::<A>(g, g1, g2, dg, dh),
    {
        A::minus(
            A::times(A::times(g, A::minus(A::lit(1, 0), g)), dg),
            A::times(A::times(g1, g2), dh),
        )
    }

    /// Backward through the two experts of a step and through their router.
    pub(crate) fn through_experts(
        &self,
        idx1: usize,
        idx2: usize,
        g1: A::T,
        g2: A::T,
        state_curr: &[A::T],
        raw1: &[A::T],
        act1: &[A::T],
        out1: &[A::T],
        raw2: &[A::T],
        act2: &[A::T],
        out2: &[A::T],
        delta_h1: &[A::T],
        delta_s: &mut [A::T],
        exp_grad: &mut [A::T],
        delta_a: &mut [A::T],
        delta_z: &mut [A::T],
        expert_grads: &mut Vec<ExpertGrads<A>>,
        grad_w_gate: &mut [A::T],
    )
        requires
            lawful::<A>(),
            self.wf(),
            idx1 < self.config.num_experts,
            idx2 < self.config.num_experts,
            state_curr@.len() == self.config.d_model,
            raw1@.len() == self.config.d_ffn,
            act1@.len() == self.config.d_ffn,
            out1@.len() == self.config.d_model,
            raw2@.len() == self.config.d_ffn,
            act2@.len() == self.config.d_ffn,
            out2@.len() == self.config.d_model,
            delta_h1@.len() == self.config.d_model,
            old(delta_s)@.len() == self.config.d_model,
            old(exp_grad)@.len() == self.config.d_model,
            old(delta_a)@.len() == self.config.d_ffn,
            old(delta_z)@.len() == self.config.d_ffn,
            old(expert_grads)@.len() == self.config.num_experts,
            forall|i: int|
                0 <= i < old(expert_grads)@.len() ==> (#[trigger] old(expert_grads)@[i]).fits(
                    self.config.d_model as nat,
                    self.config.d_ffn as nat,
                ),
            old(grad_w_gate)@.len() == self.config.num_experts * self.config.d_model,
        ensures
            ({
                let routed = self.routed_backward(
                    idx1 as int,
                    idx2 as int,
                    g1,
                    g2,
                    state_curr@,
                    ExpertActs { raw: raw1@, act: act1@, out: out1@ },
                    ExpertActs { raw: raw2@, act: act2@, out: out2@ },
                    delta_h1@,
                    expert_views(old(expert_grads)@),
                    old(grad_w_gate)@,
                );
                let expert2 = self.experts@[idx2 as int];
                &&& final(delta_s)@ == routed.delta_s
                &&& final(exp_grad)@ == routed.delta_exp2
                &&& final(delta_a)@ == expert2.delta_a_of(routed.delta_exp2)
                &&& final(delta_z)@ == expert2.delta_z_of(raw2@, routed.delta_exp2)
                &&& expert_views(final(expert_grads)@) == routed.experts
                &&& final(grad_w_gate)@ == routed.w_gate
            }),
            final(delta_s)@.len() == self.config.d_model,
            final(exp_grad)@.len() == self.config.d_model,
            final(delta_a)@.len() == self.config.d_ffn,
            final(delta_z)@.len() == self.config.d_ffn,
            final(expert_grads)@.len() == self.config.num_experts,
            forall|i: int|
                0 <= i < final(expert_grads)@.len() ==> (#[trigger] final(expert_grads)@[i]).fits(
                    self.config.d_model as nat,
                    self.config.d_ffn as nat,
                ),
            final(grad_w_gate)@.len() == self.config.num_experts * self.config.d_model,
    {
        let d: usize = self.config.d_model;
        let ghost ffn = self.config.d_ffn as int;
        let ghost views0 = expert_views(expert_grads@);
        let ghost gate0 = grad_w_gate@;
        proof {
            assert(raw1@.take(ffn) =~= raw1@);
            assert(act1@.take(ffn) =~= act1@);
            assert(raw2@.take(ffn) =~= raw2@);
            assert(act2@.take(ffn) =~= act2@);
        }
        // delta_s initialized to delta_h1 (from h_out = h_in + s_t + ...)
        vec_copy(delta_s, delta_h1);
        // Expert 1 backward: delta_exp1 = g1 * delta_h1
        vec_copy(exp_grad, delta_h1);
        vec_scale::<A>(exp_grad, g1);
        assert(expert_grads@[idx1 as int]@ == views0[idx1 as int]);
        self.experts[idx1].backward(
            state_curr,
            raw1,
            act1,
            exp_grad,
            delta_a,
            delta_z,
            &mut expert_grads[idx1],
            delta_s,
        );
        let ghost with1 = views0.update(
            idx1 as int,
            expert_grads_added::<A>(
                self.experts@[idx1 as int],
                state_curr@,
                raw1@,
                act1@,
                scaled::<A>(delta_h1@, g1),
                views0[idx1 as int],
            ),
        );
        assert(expert_views(expert_grads@) =~= with1);
        // Expert 2 backward: delta_exp2 = g2 * delta_h1
        vec_copy(exp_grad, delta_h1);
        vec_scale::<A>(exp_grad, g2);
        assert(expert_grads@[idx2 as int]@ == with1[idx2 as int]);
        let ghost a1 = delta_a@;
        let ghost z1 = delta_z@;
        self.experts[idx2].backward(
            state_curr,
            raw2,
            act2,
            exp_grad,
            delta_a,
            delta_z,
            &mut expert_grads[idx2],
            delta_s,
        );
        proof {
            let e2 = self.experts@[idx2 as int];
            let delta_exp2 = scaled::<A>(delta_h1@, g2);
            let with2 = with1.update(
                idx2 as int,
                expert_grads_added::<A>(
                    e2,
                    state_curr@,
                    raw2@,
                    act2@,
                    delta_exp2,
                    with1[idx2 as int],
                ),
            );
            assert(expert_views(expert_grads@) =~= with2);
            lemma_rows_added_len::<A>(
                zeros::<A>(self.config.d_ffn as nat),
                e2.w_down@,
                delta_exp2,
                delta_exp2.len(),
            );
            assert(in_front(e2.delta_a_of(delta_exp2), a1) =~= e2.delta_a_of(delta_exp2));
            assert(in_front(e2.delta_z_of(raw2@, delta_exp2), z1) =~= e2.delta_z_of(
                raw2@,
                delta_exp2,
            ));
        }
        // Router gating gradients through softmax
        let dl_dg1 = dot::<A>(delta_h1, out1);
        let dl_dg2 = dot::<A>(delta_h1, out2);
        let delta_gate1 = Self::gate_delta_at(g1, g1, g2, dl_dg1, dl_dg2);
        let delta_gate2 = Self::gate_delta_at(g2, g1, g2, dl_dg2, dl_dg1);
        proof {
            let e = self.config.num_experts as nat;
            let row1 = add_scaled::<A>(
                row_of(gate0, d as nat, idx1 as int),
                state_curr@,
                delta_gate1,
            );
            lemma_row_bounds(e, d as nat, idx1 as int);
            lemma_row_bounds(e, d as nat, idx2 as int);
            lemma_with_row(gate0, e, d as nat, idx1 as int, row1);
            let gate1 = with_row(gate0, d as nat, idx1 as int, row1);
            let row2 = add_scaled::<A>(
                row_of(gate1, d as nat, idx2 as int),
                state_curr@,
                delta_gate2,
            );
            lemma_with_row(gate1, e, d as nat, idx2 as int, row2);
        }
        let mut grad_gate_view = MatrixViewMut::new(grad_w_gate, self.config.num_experts, d);
        let row_gate1 = grad_gate_view.row_mut(idx1);
        vec_add_scaled::<A>(row_gate1, state_curr, delta_gate1);
        let row_gate2 = grad_gate_view.row_mut(idx2);
        vec_add_scaled::<A>(row_gate2, state_curr, delta_gate2);
        let gate_view = MatrixView::new(self.w_gate.as_slice(), self.config.num_experts, d);
        let w_gate1 = gate_view.row(idx1);
        let w_gate2 = gate_view.row(idx2);
        vec_add_scaled::<A>(delta_s, w_gate1, delta_gate1);
        vec_add_scaled::<A>(delta_s, w_gate2, delta_gate2);
    }

    /// Fast analytical backward pass for local loss with residual skip connection.
    pub fn backward_layer(
        &self,
        h_in: &[A::T],
        state_prev: &[A::T],
        state_curr: &[A::T],
        h_out: &[A::T],
        lambda_pred: A::T,
        lambda_recon: A::T,
        lambda_residual: A::T,
        scratch: &mut LayerScratch<A>,
        grads: &mut LayerGrads<A>,
        grad_h_in: &mut [A::T],
    )
        requires
            lawful::<A>(),
            self.wf(),
            h_in@.len() == self.config.d_model,
            state_prev@.len() == self.config.d_model,
            state_curr@.len() == self.config.d_model,
            h_out@.len() == self.config.d_model,
            old(scratch)@.fits(self.config),
            old(grads)@.fits(self.config),
            old(grad_h_in)@.len() == self.config.d_model,
        ensures
            ({
                let b = self.backward(
                    h_in@,
                    state_prev@,
                    state_curr@,
                    h_out@,
                    LossWeights {
                        pred: lambda_pred,
                        recon: lambda_recon,
                        residual: lambda_residual,
                    },
                    old(scratch)@,
                    old(grads)@,
                );
                let expert2 = self.experts@[top2_seq::<A>(old(scratch)@.gate_scores)[1].1 as int];
                &&& final(grads)@ == b.grads
                &&& final(grad_h_in)@ == b.grad_h_in
                &&& final(scratch)@ == (ScratchView {
                    delta_h1: b.delta_h1,
                    delta_s: b.delta_s,
                    delta_us: b.delta_us,
                    s_concat: b.s_concat,
                    scratch_delta_a: expert2.delta_a_of(b.delta_exp2),
                    scratch_delta_z: expert2.delta_z_of(
                        old(scratch)@.expert_raw_ffn2,
                        b.delta_exp2,
                    ),
                    scratch_exp_grad: b.delta_exp2,
                    scratch_transposed: b.transposed,
                    ..old(scratch)@
                })
            }),
            final(scratch)@.fits(self.config),
            final(grads)@.fits(self.config),
    {
        let d: usize = self.config.d_model;
        let ghost acts = scratch@;
        proof {
            assert(scratch.s_concat.len() == scratch@.s_concat.len());
        }
        let ws_view = MatrixView::new(self.w_s.as_slice(), d, 3 * d);
        // 1. grad_w_pred += lambda_pred * (pred_grad ⊗ h_out)
        let mut grad_pred_view = MatrixViewMut::new(
            grads.grad_w_pred.as_mut_slice(),
            self.config.vocab_size,
            d,
        );
        outer_product_accumulate::<A>(
            scratch.pred_grad.as_slice(),
            h_out,
            lambda_pred,
            &mut grad_pred_view,
        );
        // 2. grad_w_decode += lambda_recon * (recon_grad ⊗ h_out)
        let mut grad_decode_view = MatrixViewMut::new(grads.grad_w_decode.as_mut_slice(), d, d);
        outer_product_accumulate::<A>(
            scratch.recon_grad.as_slice(),
            h_out,
            lambda_recon,
            &mut grad_decode_view,
        );
        // 3. delta_h1
        self.output_gradient(
            h_in,
            h_out,
            scratch.pred_grad.as_slice(),
            scratch.recon_grad.as_slice(),
            lambda_pred,
            lambda_recon,
            lambda_residual,
            true,
            scratch.delta_h1.as_mut_slice(),
        );
        // 4. Expert backpropagation
        assert forall|i: int| 0 <= i < grads.expert_grads@.len() implies (
        #[trigger] grads.expert_grads@[i]).fits(d as nat, self.config.d_ffn as nat) by {
            assert(grads@.experts[i] == grads.expert_grads@[i]@);
        }
        let top_experts = top2::<A>(scratch.gate_scores.as_slice());
        let mut expert_weights = [A::lit(0, 0); 2];
        topk_softmax::<A, 2>(&top_experts, &mut expert_weights);
        assert(top_experts@ =~= top2_seq::<A>(acts.gate_scores));
        let idx1: usize = top_experts[0].1;
        let idx2: usize = top_experts[1].1;
        let g1 = expert_weights[0];
        let g2 = expert_weights[1];
        self.through_experts(
            idx1,
            idx2,
            g1,
            g2,
            state_curr,
            scratch.expert_raw_ffn1.as_slice(),
            scratch.expert_act_ffn1.as_slice(),
            scratch.expert_out1.as_slice(),
            scratch.expert_raw_ffn2.as_slice(),
            scratch.expert_act_ffn2.as_slice(),
            scratch.expert_out2.as_slice(),
            scratch.delta_h1.as_slice(),
            scratch.delta_s.as_mut_slice(),
            scratch.scratch_exp_grad.as_mut_slice(),
            scratch.scratch_delta_a.as_mut_slice(),
            scratch.scratch_delta_z.as_mut_slice(),
            &mut grads.expert_grads,
            grads.grad_w_gate.as_mut_slice(),
        );
        // 5. Recurrent cell backward: delta_us = delta_s * sigmoid'(raw_recurrent)
        sigmoid_grad::<A>(
            state_curr,
            scratch.delta_s.as_slice(),
            scratch.delta_us.as_mut_slice(),
        );
        // grad_w_s += delta_us ⊗ s_concat
        concat3(
            scratch.s_concat.as_mut_slice(),
            h_in,
            scratch.m_recall.as_slice(),
            state_prev,
        );
        let mut grad_ws_view = MatrixViewMut::new(grads.grad_w_s.as_mut_slice(), d, 3 * d);
        outer_product_accumulate::<A>(
            scratch.delta_us.as_slice(),
            scratch.s_concat.as_slice(),
            A::lit(1, 0),
            &mut grad_ws_view,
        );
        // 6. Gradient into input embedding h_in:
        // From direct residual skip connection: delta_h1
        vec_copy(grad_h_in, scratch.delta_h1.as_slice());
        // Plus from recurrent input projection: W_s[:, 0..d]^T * delta_us
        matvec_transposed::<A>(
            &ws_view,
            scratch.delta_us.as_slice(),
            scratch.scratch_transposed.as_mut_slice(),
        );
        let direct = vstd::slice::slice_subrange(scratch.scratch_transposed.as_slice(), 0, d);
        assert(direct@ =~= scratch.scratch_transposed@.take(d as int));
        vec_add_scaled::<A>(grad_h_in, direct, A::lit(1, 0));
        // Plus from reconstruction target: -lambda_recon * recon_grad
        let z = A::lit(0, 0);
        if A::exceeds(lambda_recon, z) {
            vec_add_scaled::<A>(grad_h_in, scratch.recon_grad.as_slice(), A::negate(lambda_recon));
        }
        if A::exceeds(lambda_residual, z) {
            Self::take_residual(h_in, h_out, lambda_residual, grad_h_in);
        }
    }
}

} // verus!
