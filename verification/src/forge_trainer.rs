//! FORGE training: AdamW for dense parameters (embed, FF, head, MRM projections).
//! FLOP counters track both forward and backward FLOPs per token.

use vstd::prelude::*;
use crate::arith::{
    Arith, lawful, one, s_cos, s_count, s_exceeds, s_exp, s_lit, s_minus, s_negate, s_over, s_plus,
    s_powf, s_sqrt, s_times, zero,
};
use crate::forge_backprop::{SequenceBack, same_block_weights};
use crate::forge_eval::{lemma_nothing_pending, lemma_same_sums};
use crate::forge_model::{
    ForgeBlock, ForgeBlockGrads, ForgeBlockValues, ForgeGradValues, ForgeModel, ForgeModelValues,
    gate_up, gated_up, no_forge_grads, rms_back, rms_norm, rms_norm_back, rms_normed,
};
use crate::layer::{vec_add, zero_vec};
use crate::matvec::{
    lemma_rows_added_len, matvec_of, matvec_transposed_accumulate, matvec_transposed_of,
    outer_added, outer_product_accumulate, rows_added, summed,
};
use crate::memory_backward::{
    ReadTrace, ReadValues, SlotGrads, SlotValues, no_read, no_slot_grads,
};
use crate::mrm::MrmValues;
use crate::optimizer::{add_squares, lemma_next_part, norm_of, sum_of_all_squares};
use crate::tensor::{MatrixView, MatrixViewMut, copied, scaled, vec_scale, zeros};
use crate::trainer::batch_scale;
use crate::vectors::{mul_transposed, mul_vec, rows_in};

verus! {

/// Minimal AdamW moments for a flat parameter vector.
#[derive(Debug, Clone)]
pub struct AdamWState<A: Arith> {
    pub m: Vec<A::T>,
    pub v: Vec<A::T>,
    pub step: usize,
    pub beta1: A::T,
    pub beta2: A::T,
    pub eps: A::T,
    pub weight_decay: A::T,
}

impl<A: Arith> AdamWState<A> {
    /// The settings are the usual ones.
    pub open spec fn is_usual(&self) -> bool {
        &&& self.beta1 == s_lit::<A>(9, 1)
        &&& self.beta2 == s_lit::<A>(999, 3)
        &&& self.eps == s_lit::<A>(1, 8)
        &&& self.weight_decay == s_lit::<A>(1, 2)
    }

    /// First moment of parameter `i` after a gradient.
    pub open spec fn m_after(&self, g: A::T, i: int) -> A::T {
        s_plus::<A>(
            s_times::<A>(self.beta1, self.m@[i]),
            s_times::<A>(s_minus::<A>(one::<A>(), self.beta1), g),
        )
    }

    /// Second moment of parameter `i` after a gradient.
    pub open spec fn v_after(&self, g: A::T, i: int) -> A::T {
        s_plus::<A>(
            s_times::<A>(self.beta2, self.v@[i]),
            s_times::<A>(s_times::<A>(s_minus::<A>(one::<A>(), self.beta2), g), g),
        )
    }

    /// The bias of a moment at the next step: 1 - beta^t
    pub open spec fn bias(&self, beta: A::T) -> A::T {
        s_minus::<A>(one::<A>(), s_powf::<A>(beta, s_count::<A>((self.step + 1) as usize)))
    }

    /// Parameter `i` after a gradient.
    pub open spec fn p_after(&self, p: A::T, g: A::T, lr: A::T, i: int) -> A::T {
        let m_hat = s_over::<A>(self.m_after(g, i), self.bias(self.beta1));
        let v_hat = s_over::<A>(self.v_after(g, i), self.bias(self.beta2));
        s_minus::<A>(
            p,
            s_times::<A>(
                lr,
                s_plus::<A>(
                    s_over::<A>(m_hat, s_plus::<A>(s_sqrt::<A>(v_hat), self.eps)),
                    s_times::<A>(self.weight_decay, p),
                ),
            ),
        )
    }

    /// First moments after the gradients of `n` parameters.
    pub open spec fn m_next(&self, grads: Seq<A::T>, n: nat) -> Seq<A::T> {
        Seq::new(
            self.m@.len(),
            |i: int|
                if i < self.reach(n, grads.len()) {
                    self.m_after(grads[i], i)
                } else {
                    self.m@[i]
                },
        )
    }

    /// Second moments after the gradients of `n` parameters.
    pub open spec fn v_next(&self, grads: Seq<A::T>, n: nat) -> Seq<A::T> {
        Seq::new(
            self.v@.len(),
            |i: int|
                if i < self.reach(n, grads.len()) {
                    self.v_after(grads[i], i)
                } else {
                    self.v@[i]
                },
        )
    }

    /// Parameters after their gradients.
    pub open spec fn p_next(&self, params: Seq<A::T>, grads: Seq<A::T>, lr: A::T) -> Seq<A::T> {
        Seq::new(
            params.len(),
            |i: int|
                if i < self.reach(params.len(), grads.len()) {
                    self.p_after(params[i], grads[i], lr, i)
                } else {
                    params[i]
                },
        )
    }

    /// How many parameters a step reaches: those that have a gradient and moments.
    pub open spec fn reach(&self, params: nat, grads: nat) -> nat {
        let both = if params < grads {
            params
        } else {
            grads
        };
        let moments = if self.m@.len() < self.v@.len() {
            self.m@.len()
        } else {
            self.v@.len()
        };
        if both < moments {
            both
        } else {
            moments
        }
    }

    /// The moments and the parameters after a step. What it does not reach stays as it is.
    pub open spec fn takes_to(
        &self,
        params: Seq<A::T>,
        grads: Seq<A::T>,
        lr: A::T,
        next: AdamWState<A>,
        next_params: Seq<A::T>,
    ) -> bool {
        &&& next.step == self.step + 1
        &&& next.beta1 == self.beta1
        &&& next.beta2 == self.beta2
        &&& next.eps == self.eps
        &&& next.weight_decay == self.weight_decay
        &&& next.m@ == self.m_next(grads, params.len())
        &&& next.v@ == self.v_next(grads, params.len())
        &&& next_params == self.p_next(params, grads, lr)
    }

    pub fn new(n: usize) -> (state: Self)
        requires
            lawful::<A>(),
        ensures
            state.m@ == zeros::<A>(n as nat),
            state.v@ == zeros::<A>(n as nat),
            state.step == 0,
            state.is_usual(),
    {
        Self {
            m: zero_vec::<A>(n),
            v: zero_vec::<A>(n),
            step: 0,
            beta1: A::lit(9, 1),
            beta2: A::lit(999, 3),
            eps: A::lit(1, 8),
            weight_decay: A::lit(1, 2),
        }
    }

    pub fn update(&mut self, params: &mut [A::T], grads: &[A::T], lr: A::T)
        requires
            lawful::<A>(),
            old(self).step < usize::MAX,
        ensures
            old(self).takes_to(old(params)@, grads@, lr, *final(self), final(params)@),
            final(params)@.len() == old(params)@.len(),
    {
        let ghost s0 = *self;
        let ghost p0 = params@;
        let (params_len, grads_len): (usize, usize) = (params.len(), grads.len());
        let (m_len, v_len): (usize, usize) = (self.m.len(), self.v.len());
        let both: usize = if params_len < grads_len {
            params_len
        } else {
            grads_len
        };
        let moments: usize = if m_len < v_len {
            m_len
        } else {
            v_len
        };
        let n: usize = if both < moments {
            both
        } else {
            moments
        };
        self.step = self.step + 1;
        let t = A::count(self.step);
        let bc1 = A::minus(A::lit(1, 0), A::powf(self.beta1, t));
        let bc2 = A::minus(A::lit(1, 0), A::powf(self.beta2, t));
        let mut i: usize = 0;
        while i < n
            invariant
                lawful::<A>(),
                i <= n,
                n == s0.reach(p0.len(), grads@.len()),
                params@.len() == p0.len(),
                self.m@.len() == s0.m@.len(),
                self.v@.len() == s0.v@.len(),
                self.step == s0.step + 1,
                self.beta1 == s0.beta1,
                self.beta2 == s0.beta2,
                self.eps == s0.eps,
                self.weight_decay == s0.weight_decay,
                bc1 == s0.bias(s0.beta1),
                bc2 == s0.bias(s0.beta2),
                forall|j: int| 0 <= j < i ==> #[trigger] self.m@[j] == s0.m_after(grads@[j], j),
                forall|j: int| 0 <= j < i ==> #[trigger] self.v@[j] == s0.v_after(grads@[j], j),
                forall|j: int|
                    0 <= j < i ==> #[trigger] params@[j] == s0.p_after(p0[j], grads@[j], lr, j),
                forall|j: int| i <= j < s0.m@.len() ==> #[trigger] self.m@[j] == s0.m@[j],
                forall|j: int| i <= j < s0.v@.len() ==> #[trigger] self.v@[j] == s0.v@[j],
                forall|j: int| i <= j < p0.len() ==> #[trigger] params@[j] == p0[j],
            decreases n - i,
        {
            let g = grads[i];
            let m = A::plus(
                A::times(self.beta1, self.m[i]),
                A::times(A::minus(A::lit(1, 0), self.beta1), g),
            );
            let v = A::plus(
                A::times(self.beta2, self.v[i]),
                A::times(A::times(A::minus(A::lit(1, 0), self.beta2), g), g),
            );
            self.m.set(i, m);
            self.v.set(i, v);
            let m_hat = A::over(m, bc1);
            let v_hat = A::over(v, bc2);
            let step_val = A::plus(
                A::over(m_hat, A::plus(A::sqrt(v_hat), self.eps)),
                A::times(self.weight_decay, params[i]),
            );
            params[i] = A::minus(params[i], A::times(lr, step_val));
            i += 1;
        }
        assert(self.m@ =~= s0.m_next(grads@, p0.len()));
        assert(self.v@ =~= s0.v_next(grads@, p0.len()));
        assert(params@ =~= s0.p_next(p0, grads@, lr));
    }
}

/// Grad norm across all gradient slices.
pub fn grad_norm<A: Arith>(slices: &[Vec<A::T>]) -> (norm: A::T)
    requires
        lawful::<A>(),
    ensures
        norm == norm_of::<A>(rows_in(slices@)),
{
    let mut sum = A::lit(0, 0);
    let mut k: usize = 0;
    assert(rows_in(slices@).take(0) =~= Seq::<Seq<A::T>>::empty());
    while k < slices.len()
        invariant
            lawful::<A>(),
            k <= slices@.len(),
            sum == sum_of_all_squares::<A>(rows_in(slices@).take(k as int)),
        decreases slices@.len() - k,
    {
        sum = add_squares::<A>(sum, slices[k].as_slice());
        proof {
            let parts = rows_in(slices@);
            lemma_next_part::<A>(parts.take(k as int), parts[k as int]);
            assert(parts.take(k as int).push(parts[k as int]) =~= parts.take(k + 1));
        }
        k += 1;
    }
    assert(rows_in(slices@).take(k as int) =~= rows_in(slices@));
    A::sqrt(sum)
}

/// Gradients within a global norm: scaled down where they exceed it.
pub open spec fn clipped<A: Arith>(parts: Seq<Seq<A::T>>, max_norm: A::T) -> Seq<Seq<A::T>> {
    let norm = norm_of::<A>(parts);
    if s_exceeds::<A>(norm, max_norm) && s_exceeds::<A>(norm, s_lit::<A>(1, 9)) {
        Seq::new(parts.len(), |k: int| scaled::<A>(parts[k], s_over::<A>(max_norm, norm)))
    } else {
        parts
    }
}

/// Clip gradients by global norm.
pub fn clip_grads<A: Arith>(slices: &mut Vec<Vec<A::T>>, max_norm: A::T)
    requires
        lawful::<A>(),
    ensures
        rows_in(final(slices)@) == clipped::<A>(rows_in(old(slices)@), max_norm),
{
    let ghost p0 = rows_in(slices@);
    let norm = grad_norm::<A>(slices.as_slice());
    if A::exceeds(norm, max_norm) && A::exceeds(norm, A::lit(1, 9)) {
        let scale = A::over(max_norm, norm);
        let n: usize = slices.len();
        let mut k: usize = 0;
        while k < n
            invariant
                lawful::<A>(),
                k <= n,
                n == slices@.len(),
                n == p0.len(),
                forall|j: int|
                    0 <= j < k ==> (#[trigger] slices@[j])@ == scaled::<A>(p0[j], scale),
                forall|j: int| k <= j < n ==> (#[trigger] slices@[j])@ == p0[j],
            decreases n - k,
        {
            vec_scale::<A>(slices[k].as_mut_slice(), scale);
            k += 1;
        }
        assert(rows_in(slices@) =~= Seq::new(p0.len(), |k: int| scaled::<A>(p0[k], scale)));
    }
}

/// Learning rate of a step: linear warmup over 50 steps, then cosine decay.
pub open spec fn forge_lr_of<A: Arith>(step: usize, max_steps: usize, base_lr: A::T) -> A::T {
    if step < 50 {
        s_over::<A>(s_times::<A>(base_lr, s_count::<A>(step)), s_count::<A>(50))
    } else {
        let span = (if max_steps > 50 {
            max_steps - 50
        } else {
            1
        }) as usize;
        let prog = s_over::<A>(s_count::<A>((step - 50) as usize), s_count::<A>(span));
        s_plus::<A>(
            s_lit::<A>(1, 5),
            s_times::<A>(
                s_times::<A>(
                    s_lit::<A>(5, 1),
                    s_plus::<A>(
                        one::<A>(),
                        s_cos::<A>(s_times::<A>(s_lit::<A>(3141592653589793238, 18), prog)),
                    ),
                ),
                s_minus::<A>(base_lr, s_lit::<A>(1, 5)),
            ),
        )
    }
}

/// LR schedule: linear warmup, then cosine decay.
pub fn forge_lr<A: Arith>(step: usize, max_steps: usize, base_lr: A::T) -> (lr: A::T)
    requires
        lawful::<A>(),
        step <= max_steps,
    ensures
        lr == forge_lr_of::<A>(step, max_steps, base_lr),
{
    if step < 50 {
        A::over(A::times(base_lr, A::count(step)), A::count(50))
    } else {
        let span: usize = if max_steps > 50 {
            max_steps - 50
        } else {
            1
        };
        let prog = A::over(A::count(step - 50), A::count(span));
        let rise = A::plus(
            A::lit(1, 0),
            A::cos(A::times(A::lit(3141592653589793238, 18), prog)),
        );
        A::plus(
            A::lit(1, 5),
            A::times(A::times(A::lit(5, 1), rise), A::minus(base_lr, A::lit(1, 5))),
        )
    }
}

/// The gradients of a training step.
pub struct ForgeGrads<A: Arith> {
    pub embed: Vec<A::T>,
    pub pos_embed: Vec<A::T>,
    pub head: Vec<A::T>,
    pub blocks: Vec<ForgeBlockGrads<A>>,
}

/// The values of the gradients of a training step.
pub struct ForgeGradSet<T> {
    pub embed: Seq<T>,
    pub pos_embed: Seq<T>,
    pub head: Seq<T>,
    pub blocks: Seq<ForgeGradValues<T>>,
}

impl<A: Arith> View for ForgeGrads<A> {
    type V = ForgeGradSet<A::T>;

    open spec fn view(&self) -> ForgeGradSet<A::T> {
        ForgeGradSet {
            embed: self.embed@,
            pos_embed: self.pos_embed@,
            head: self.head@,
            blocks: Seq::new(self.blocks@.len(), |l: int| self.blocks@[l]@),
        }
    }
}

impl<T> ForgeGradSet<T> {
    /// The gradients are those of this model.
    pub open spec fn fits<A: Arith<T = T>>(&self, m: ForgeModelValues<A>) -> bool {
        &&& self.embed.len() == m.vocab * m.d
        &&& self.pos_embed.len() == m.max_seq * m.d
        &&& self.head.len() == m.vocab * m.d
        &&& self.blocks.len() == m.blocks.len()
        &&& forall|l: int|
            0 <= l < self.blocks.len() ==> (#[trigger] self.blocks[l]).fits(m.d, m.blocks[l].d_ff)
    }
}

/// No gradients of a model.
pub open spec fn no_grad_set<A: Arith>(m: ForgeModelValues<A>) -> ForgeGradSet<A::T> {
    ForgeGradSet {
        embed: zeros::<A>(m.vocab * m.d),
        pos_embed: zeros::<A>(m.max_seq * m.d),
        head: zeros::<A>(m.vocab * m.d),
        blocks: Seq::new(
            m.blocks.len(),
            |l: int| no_forge_grads::<A>(m.d, m.blocks[l].d_ff),
        ),
    }
}

/// The gradients of a block, the gradient at its input and those at the slots of its memory.
pub struct BlockBack<T> {
    pub grads: ForgeGradValues<T>,
    pub d_h: Seq<T>,
    pub slots: SlotValues<T>,
}

/// sigmoid(g)
pub open spec fn sig_of<A: Arith>(g: A::T) -> A::T {
    s_over::<A>(one::<A>(), s_plus::<A>(one::<A>(), s_exp::<A>(s_negate::<A>(g))))
}

/// The gradients at the gates of a SwiGLU.
pub open spec fn d_gate_of<A: Arith>(
    d_out: Seq<A::T>,
    gate: Seq<A::T>,
    up: Seq<A::T>,
) -> Seq<A::T> {
    Seq::new(
        d_out.len(),
        |i: int|
            {
                let sig = sig_of::<A>(gate[i]);
                let swish = s_times::<A>(gate[i], sig);
                s_times::<A>(
                    s_times::<A>(d_out[i], up[i]),
                    s_plus::<A>(sig, s_times::<A>(swish, s_minus::<A>(one::<A>(), sig))),
                )
            },
    )
}

/// The gradients at the ups of a SwiGLU.
pub open spec fn d_up_of<A: Arith>(d_out: Seq<A::T>, gate: Seq<A::T>) -> Seq<A::T> {
    Seq::new(
        d_out.len(),
        |i: int| s_times::<A>(d_out[i], s_times::<A>(gate[i], sig_of::<A>(gate[i]))),
    )
}

/// The gradients at the gates and the ups of a SwiGLU.
fn swiglu_back<A: Arith>(d_out: &[A::T], gate: &[A::T], up: &[A::T]) -> (r: (
    Vec<A::T>,
    Vec<A::T>,
))
    requires
        lawful::<A>(),
        gate@.len() == d_out@.len(),
        up@.len() == d_out@.len(),
    ensures
        r.0@ == d_gate_of::<A>(d_out@, gate@, up@),
        r.1@ == d_up_of::<A>(d_out@, gate@),
{
    let n: usize = d_out.len();
    let mut d_gate: Vec<A::T> = Vec::with_capacity(n);
    let mut d_up: Vec<A::T> = Vec::with_capacity(n);
    let ghost want_gate = d_gate_of::<A>(d_out@, gate@, up@);
    let ghost want_up = d_up_of::<A>(d_out@, gate@);
    let mut i: usize = 0;
    while i < n
        invariant
            lawful::<A>(),
            i <= n,
            n == d_out@.len(),
            n == gate@.len(),
            n == up@.len(),
            want_gate == d_gate_of::<A>(d_out@, gate@, up@),
            want_up == d_up_of::<A>(d_out@, gate@),
            d_gate@ == want_gate.take(i as int),
            d_up@ == want_up.take(i as int),
        decreases n - i,
    {
        let g = gate[i];
        let sig = A::over(A::lit(1, 0), A::plus(A::lit(1, 0), A::exp(A::negate(g))));
        let swish = A::times(g, sig);
        let slope = A::plus(sig, A::times(swish, A::minus(A::lit(1, 0), sig)));
        d_gate.push(A::times(A::times(d_out[i], up[i]), slope));
        d_up.push(A::times(d_out[i], swish));
        i += 1;
        assert(d_gate@ =~= want_gate.take(i as int));
        assert(d_up@ =~= want_up.take(i as int));
    }
    assert(d_gate@ =~= want_gate);
    assert(d_up@ =~= want_up);
    (d_gate, d_up)
}

/// W += alpha * u * v^T
pub(crate) fn add_outer_scaled<A: Arith>(w: &mut Vec<A::T>, u: &[A::T], v: &[A::T], alpha: A::T)
    requires
        lawful::<A>(),
        old(w)@.len() == u@.len() * v@.len(),
    ensures
        final(w)@ == outer_added::<A>(old(w)@, u@, v@, alpha),
        final(w)@.len() == old(w)@.len(),
{
    let mut view = MatrixViewMut::new(w.as_mut_slice(), u.len(), v.len());
    outer_product_accumulate::<A>(u, v, alpha, &mut view);
}

impl<A: Arith> ForgeBlockValues<A> {
    /// What a token reads from the memory of the block.
    pub open spec fn read_at(&self, h: Seq<A::T>) -> ReadValues<A::T> {
        match self.mrm {
            Some(m) => self.gated(m).read_at(rms_normed::<A>(h)),
            None => no_read::<A::T>(),
        }
    }

    /// The slots are those of the memory of the block.
    pub open spec fn holds(&self, r: ReadValues<A::T>) -> bool {
        self.mrm matches Some(m) ==> m.holds(r)
    }

    /// The gradients are those at the slots of the memory of the block.
    pub open spec fn holds_grads(&self, slots: SlotValues<A::T>) -> bool {
        self.mrm matches Some(m) ==> m.holds_grads(slots)
    }

    /// No gradients at the slots of the memory of the block.
    pub open spec fn no_slots(&self) -> SlotValues<A::T> {
        match self.mrm {
            Some(m) => no_slot_grads::<A>(m.k_fine, m.k_coarse, m.d),
            None => no_slot_grads::<A>(0, 0, 0),
        }
    }

    /// Backward through the block at a token that was `h_in` in front of the block and `mid` in
    /// front of its FF, and that read `read`. The later tokens leave the gradients `slots` at
    /// the slots of the memory.
    pub open spec fn back(
        &self,
        h_in: Seq<A::T>,
        mid: Seq<A::T>,
        read: ReadValues<A::T>,
        d_h: Seq<A::T>,
        scale: A::T,
        g: ForgeGradValues<A::T>,
        slots: SlotValues<A::T>,
    ) -> BlockBack<A::T> {
        let h_norm = rms_normed::<A>(mid);
        let gate = matvec_of::<A>(self.w1, self.d_ff, h_norm);
        let up = matvec_of::<A>(self.w1u, self.d_ff, h_norm);
        let d_ff_out = matvec_transposed_of::<A>(self.w2, self.d_ff, d_h);
        let d_gate = d_gate_of::<A>(d_ff_out, gate, up);
        let d_up = d_up_of::<A>(d_ff_out, gate);
        let d_norm = rows_added::<A>(
            matvec_transposed_of::<A>(self.w1, self.d, d_gate),
            self.w1u,
            d_up,
            d_up.len(),
        );
        let through = summed::<A>(d_h, rms_back::<A>(mid, d_norm));
        let ff = ForgeGradValues {
            w1: outer_added::<A>(g.w1, d_gate, h_norm, scale),
            w1u: outer_added::<A>(g.w1u, d_up, h_norm, scale),
            w2: outer_added::<A>(g.w2, d_h, gated_up::<A>(gate, up), scale),
            ..g
        };
        match self.mrm {
            Some(m) => {
                let b = m.back(read, rms_normed::<A>(h_in), through, scale, slots, g);
                BlockBack {
                    grads: ForgeGradValues { wq: b.wq, wk: b.wk, wv: b.wv, wo: b.wo, ..ff },
                    d_h: summed::<A>(through, rms_back::<A>(h_in, b.d_h)),
                    slots: b.slots,
                }
            },
            None => BlockBack {
                grads: ff,
                d_h: summed::<A>(through, rms_back::<A>(h_in, through)),
                slots,
            },
        }
    }
}

impl<A: Arith> ForgeBlock<A> {
    /// Backward through the block at a token. Returns the gradient at the input of the block.
    pub fn backward(
        &self,
        h_in: &[A::T],
        mid: &[A::T],
        read: &ReadTrace<A>,
        d_h: &[A::T],
        scale: A::T,
        grads: &mut ForgeBlockGrads<A>,
        slots: &mut SlotGrads<A>,
    ) -> (d_in: Vec<A::T>)
        requires
            lawful::<A>(),
            self@.wf(),
            self@.mrm matches Some(m) ==> m.k_fine + m.k_coarse <= usize::MAX,
            h_in@.len() == self.d,
            mid@.len() == self.d,
            d_h@.len() == self.d,
            self@.holds(read@),
            self@.holds_grads(old(slots)@),
            old(grads)@.fits(self.d as nat, self.d_ff as nat),
        ensures
            ({
                let b = self@.back(h_in@, mid@, read@, d_h@, scale, old(grads)@, old(slots)@);
                final(grads)@ == b.grads && d_in@ == b.d_h && final(slots)@ == b.slots
            }),
            d_in@.len() == self.d,
            self@.holds_grads(final(slots)@),
            final(grads)@.fits(self.d as nat, self.d_ff as nat),
    {
        // Recompute intermediate activations
        let h_norm = rms_norm::<A>(mid, A::lit(1, 5));
        let gate_pre = mul_vec::<A>(self.w1.as_slice(), self.d_ff, h_norm.as_slice());
        let up_pre = mul_vec::<A>(self.w1u.as_slice(), self.d_ff, h_norm.as_slice());
        let ff_out = gate_up::<A>(gate_pre.as_slice(), up_pre.as_slice());
        // d_ff_out = W2^T * d_h  (d_h is gradient of h_out)
        let d_ff_out = mul_transposed::<A>(self.w2.as_slice(), self.d_ff, d_h);
        add_outer_scaled::<A>(&mut grads.grad_w2, d_h, ff_out.as_slice(), scale);
        // SwiGLU backward: d_gate, d_up
        let (d_gate, d_up) = swiglu_back::<A>(
            d_ff_out.as_slice(),
            gate_pre.as_slice(),
            up_pre.as_slice(),
        );
        add_outer_scaled::<A>(
            &mut grads.grad_w1,
            d_gate.as_slice(),
            h_norm.as_slice(),
            scale,
        );
        add_outer_scaled::<A>(&mut grads.grad_w1u, d_up.as_slice(), h_norm.as_slice(), scale);
        // pass d_h back through FF (d_norm = W1^T * d_gate + W1u^T * d_up) and its norm
        let mut d_norm = mul_transposed::<A>(self.w1.as_slice(), self.d, d_gate.as_slice());
        let w1uv = MatrixView::new(self.w1u.as_slice(), self.d_ff, self.d);
        matvec_transposed_accumulate::<A>(&w1uv, d_up.as_slice(), d_norm.as_mut_slice());
        proof {
            lemma_rows_added_len::<A>(
                matvec_transposed_of::<A>(self.w1@, self.d as nat, d_gate@),
                self.w1u@,
                d_up@,
                d_up@.len(),
            );
        }
        let from_ff = rms_norm_back::<A>(mid, d_norm.as_slice());
        // residual: d_h passes through unchanged + what comes from the FF
        let mut d_mid = copied(d_h);
        vec_add::<A>(d_mid.as_mut_slice(), from_ff.as_slice());
        // MRM backward, or the residual of the norm alone
        let d_first = match &self.mrm {
            Some(mrm) => {
                let x = rms_norm::<A>(h_in, A::lit(1, 5));
                mrm.backward(read, x.as_slice(), d_mid.as_slice(), scale, slots, grads)
            },
            None => copied(d_mid.as_slice()),
        };
        let from_norm = rms_norm_back::<A>(h_in, d_first.as_slice());
        let mut d_in = d_mid;
        vec_add::<A>(d_in.as_mut_slice(), from_norm.as_slice());
        d_in
    }
}

/// Moments of the parameters of a block.
pub struct ForgeBlockAdam<A: Arith> {
    pub w1: AdamWState<A>,
    pub w1u: AdamWState<A>,
    pub w2: AdamWState<A>,
    pub wq: AdamWState<A>,
    pub wk: AdamWState<A>,
    pub wv: AdamWState<A>,
    pub wo: AdamWState<A>,
}

/// AdamW states for each parameter group.
pub struct ForgeAdam<A: Arith> {
    pub embed: AdamWState<A>,
    pub pos_embed: AdamWState<A>,
    pub head: AdamWState<A>,
    pub blocks: Vec<ForgeBlockAdam<A>>,
}

impl<A: Arith> AdamWState<A> {
    /// The moments of `n` parameters, after fewer than `limit` steps.
    pub open spec fn fits(&self, n: nat, limit: int) -> bool {
        &&& self.m@.len() == n
        &&& self.v@.len() == n
        &&& self.step < limit
    }
}

impl<A: Arith> ForgeBlockAdam<A> {
    /// The moments are those of a block of these dimensions.
    pub open spec fn fits(&self, d: nat, d_ff: nat, limit: int) -> bool {
        &&& self.w1.fits(d_ff * d, limit)
        &&& self.w1u.fits(d_ff * d, limit)
        &&& self.w2.fits(d * d_ff, limit)
        &&& self.wq.fits(d * d, limit)
        &&& self.wk.fits(d * d, limit)
        &&& self.wv.fits(d * d, limit)
        &&& self.wo.fits(d * d, limit)
    }

    /// The moments and the block after a step with gradients `g`.
    pub open spec fn takes_to(
        &self,
        b: ForgeBlockValues<A>,
        g: ForgeGradValues<A::T>,
        lr: A::T,
        next: ForgeBlockAdam<A>,
        next_b: ForgeBlockValues<A>,
    ) -> bool {
        &&& self.w1.takes_to(b.w1, g.w1, lr, next.w1, next_b.w1)
        &&& self.w1u.takes_to(b.w1u, g.w1u, lr, next.w1u, next_b.w1u)
        &&& self.w2.takes_to(b.w2, g.w2, lr, next.w2, next_b.w2)
        &&& next_b.d == b.d
        &&& next_b.d_ff == b.d_ff
        &&& next_b.cfg == b.cfg
        &&& next_b.flops_forward == b.flops_forward
        &&& match (b.mrm, next_b.mrm) {
            (Some(m), Some(next_m)) => {
                &&& self.wq.takes_to(m.w_q, g.wq, lr, next.wq, next_m.w_q)
                &&& self.wk.takes_to(m.w_k, g.wk, lr, next.wk, next_m.w_k)
                &&& self.wv.takes_to(m.w_v, g.wv, lr, next.wv, next_m.w_v)
                &&& self.wo.takes_to(m.w_o, g.wo, lr, next.wo, next_m.w_o)
                &&& next_m == (MrmValues {
                    w_q: next_m.w_q,
                    w_k: next_m.w_k,
                    w_v: next_m.w_v,
                    w_o: next_m.w_o,
                    ..m
                })
            },
            (None, None) => {
                &&& next.wq == self.wq
                &&& next.wk == self.wk
                &&& next.wv == self.wv
                &&& next.wo == self.wo
            },
            _ => false,
        }
    }

    fn new(d: usize, d_ff: usize) -> (state: Self)
        requires
            lawful::<A>(),
            d_ff * d <= usize::MAX,
            d * d <= usize::MAX,
        ensures
            state.fits(d as nat, d_ff as nat, 1),
            state.is_fresh(d as nat, d_ff as nat),
    {
        assert(d * d_ff == d_ff * d) by (nonlinear_arith);
        ForgeBlockAdam {
            w1: AdamWState::new(d_ff * d),
            w1u: AdamWState::new(d_ff * d),
            w2: AdamWState::new(d * d_ff),
            wq: AdamWState::new(d * d),
            wk: AdamWState::new(d * d),
            wv: AdamWState::new(d * d),
            wo: AdamWState::new(d * d),
        }
    }

    /// Moments before the first step.
    pub open spec fn is_fresh(&self, d: nat, d_ff: nat) -> bool {
        &&& is_fresh_state(self.w1, d_ff * d)
        &&& is_fresh_state(self.w1u, d_ff * d)
        &&& is_fresh_state(self.w2, d * d_ff)
        &&& is_fresh_state(self.wq, d * d)
        &&& is_fresh_state(self.wk, d * d)
        &&& is_fresh_state(self.wv, d * d)
        &&& is_fresh_state(self.wo, d * d)
    }

    /// Apply AdamW updates to a block.
    fn step(&mut self, b: &mut ForgeBlock<A>, g: &ForgeBlockGrads<A>, lr: A::T)
        requires
            lawful::<A>(),
            old(b)@.wf(),
            old(self).fits(old(b)@.d, old(b)@.d_ff, usize::MAX as int),
            g@.fits(old(b)@.d, old(b)@.d_ff),
        ensures
            old(self).takes_to(old(b)@, g@, lr, *final(self), final(b)@),
            final(b)@.wf(),
            forall|limit: int|
                old(self).fits(old(b)@.d, old(b)@.d_ff, limit) ==> final(self).fits(
                    old(b)@.d,
                    old(b)@.d_ff,
                    limit + 1,
                ),
    {
        self.w1.update(b.w1.as_mut_slice(), g.grad_w1.as_slice(), lr);
        self.w1u.update(b.w1u.as_mut_slice(), g.grad_w1u.as_slice(), lr);
        self.w2.update(b.w2.as_mut_slice(), g.grad_w2.as_slice(), lr);
        match &mut b.mrm {
            Some(mrm) => {
                self.wq.update(mrm.w_q.as_mut_slice(), g.grad_mrm_wq.as_slice(), lr);
                self.wk.update(mrm.w_k.as_mut_slice(), g.grad_mrm_wk.as_slice(), lr);
                self.wv.update(mrm.w_v.as_mut_slice(), g.grad_mrm_wv.as_slice(), lr);
                self.wo.update(mrm.w_o.as_mut_slice(), g.grad_mrm_wo.as_slice(), lr);
            },
            None => {},
        }
    }
}

/// Moments before the first step.
pub open spec fn is_fresh_state<A: Arith>(s: AdamWState<A>, n: nat) -> bool {
    &&& s.m@ == zeros::<A>(n)
    &&& s.v@ == zeros::<A>(n)
    &&& s.step == 0
    &&& s.is_usual()
}

impl<A: Arith> ForgeAdam<A> {
    /// The moments are those of this model, after fewer than `limit` steps.
    pub open spec fn fits(&self, m: ForgeModelValues<A>, limit: int) -> bool {
        &&& self.embed.fits(m.vocab * m.d, limit)
        &&& self.pos_embed.fits(m.max_seq * m.d, limit)
        &&& self.head.fits(m.vocab * m.d, limit)
        &&& self.blocks@.len() == m.blocks.len()
        &&& forall|l: int|
            0 <= l < m.blocks.len() ==> (#[trigger] self.blocks@[l]).fits(
                m.d,
                m.blocks[l].d_ff,
                limit,
            )
    }

    /// The moments of this model before the first step.
    pub open spec fn is_new(&self, m: ForgeModelValues<A>) -> bool {
        &&& self.fits(m, 1)
        &&& is_fresh_state(self.embed, m.vocab * m.d)
        &&& is_fresh_state(self.pos_embed, m.max_seq * m.d)
        &&& is_fresh_state(self.head, m.vocab * m.d)
        &&& forall|l: int|
            0 <= l < m.blocks.len() ==> (#[trigger] self.blocks@[l]).is_fresh(
                m.d,
                m.blocks[l].d_ff,
            )
    }

    /// The moments and the model after a step with gradients `g`.
    pub open spec fn takes_to(
        &self,
        m: ForgeModelValues<A>,
        g: ForgeGradSet<A::T>,
        lr: A::T,
        next: ForgeAdam<A>,
        next_m: ForgeModelValues<A>,
    ) -> bool {
        &&& self.embed.takes_to(m.embeddings, g.embed, lr, next.embed, next_m.embeddings)
        &&& self.pos_embed.takes_to(
            m.pos_embed,
            g.pos_embed,
            lr,
            next.pos_embed,
            next_m.pos_embed,
        )
        &&& self.head.takes_to(m.head, g.head, lr, next.head, next_m.head)
        &&& next_m.blocks.len() == m.blocks.len()
        &&& forall|l: int|
            0 <= l < m.blocks.len() ==> self.blocks@[l].takes_to(
                m.blocks[l],
                g.blocks[l],
                lr,
                next.blocks@[l],
                #[trigger] next_m.blocks[l],
            )
        &&& next_m == (ForgeModelValues {
            embeddings: next_m.embeddings,
            pos_embed: next_m.pos_embed,
            head: next_m.head,
            blocks: next_m.blocks,
            ..m
        })
    }

    /// Moments for all parameters of a model, before the first step.
    pub fn new(model: &ForgeModel<A>) -> (opt: Self)
        requires
            lawful::<A>(),
            model@.has_room(0),
            model.d * model.d <= usize::MAX,
        ensures
            opt.is_new(model@),
    {
        let n: usize = model.blocks.len();
        let ghost m = model@;
        let mut blocks: Vec<ForgeBlockAdam<A>> = Vec::with_capacity(n);
        let mut l: usize = 0;
        while l < n
            invariant
                lawful::<A>(),
                l <= n,
                n == model.blocks@.len(),
                m == model@,
                m.has_room(0),
                model.d * model.d <= usize::MAX,
                blocks@.len() == l,
                forall|k: int|
                    0 <= k < l ==> (#[trigger] blocks@[k]).is_fresh(m.d, m.blocks[k].d_ff),
                forall|k: int|
                    0 <= k < l ==> (#[trigger] blocks@[k]).fits(m.d, m.blocks[k].d_ff, 1),
            decreases n - l,
        {
            proof {
                assert(m.blocks[l as int] == model.blocks@[l as int]@);
                assert(m.blocks[l as int].has_room(0));
                assert(model.blocks@[l as int].w1.len() == model.blocks@[l as int].w1@.len());
            }
            blocks.push(ForgeBlockAdam::new(model.d, model.blocks[l].d_ff));
            l += 1;
        }
        ForgeAdam {
            embed: AdamWState::new(model.embeddings.len()),
            pos_embed: AdamWState::new(model.pos_embed.len()),
            head: AdamWState::new(model.head.len()),
            blocks,
        }
    }

    /// Apply AdamW updates.
    pub fn step(&mut self, model: &mut ForgeModel<A>, grads: &ForgeGrads<A>, lr: A::T)
        requires
            lawful::<A>(),
            old(model)@.has_room(0),
            old(self).fits(old(model)@, usize::MAX as int),
            grads@.fits::<A>(old(model)@),
        ensures
            old(self).takes_to(old(model)@, grads@, lr, *final(self), final(model)@),
            forall|limit: int|
                old(self).fits(old(model)@, limit) ==> #[trigger] final(self).fits(
                    old(model)@,
                    limit + 1,
                ),
    {
        let ghost o0 = *self;
        let ghost m0 = model@;
        let ghost g = grads@;
        self.embed.update(model.embeddings.as_mut_slice(), grads.embed.as_slice(), lr);
        self.pos_embed.update(model.pos_embed.as_mut_slice(), grads.pos_embed.as_slice(), lr);
        self.head.update(model.head.as_mut_slice(), grads.head.as_slice(), lr);
        let ghost o1 = *self;
        let ghost m1 = model@;
        let n: usize = model.blocks.len();
        let mut l: usize = 0;
        while l < n
            invariant
                lawful::<A>(),
                l <= n,
                n == m0.blocks.len(),
                m0.has_room(0),
                o0.fits(m0, usize::MAX as int),
                g == grads@,
                g.fits::<A>(m0),
                self.embed == o1.embed,
                self.pos_embed == o1.pos_embed,
                self.head == o1.head,
                self.blocks@.len() == n,
                model.blocks@.len() == n,
                model@ == (ForgeModelValues { blocks: model@.blocks, ..m1 }),
                forall|k: int|
                    0 <= k < l ==> o0.blocks@[k].takes_to(
                        m0.blocks[k],
                        g.blocks[k],
                        lr,
                        self.blocks@[k],
                        #[trigger] model@.blocks[k],
                    ),
                forall|k: int|
                    0 <= k < l ==> keeps_fitting::<A>(
                        o0.blocks@[k],
                        #[trigger] self.blocks@[k],
                        m0.d,
                        m0.blocks[k].d_ff,
                    ),
                forall|k: int| l <= k < n ==> #[trigger] self.blocks@[k] == o0.blocks@[k],
                forall|k: int| l <= k < n ==> #[trigger] model@.blocks[k] == m0.blocks[k],
            decreases n - l,
        {
            proof {
                assert(model@.blocks[l as int] == m0.blocks[l as int]);
                assert(model@.blocks[l as int] == model.blocks@[l as int]@);
                assert(m0.blocks[l as int].has_room(0));
                assert(self.blocks@[l as int] == o0.blocks@[l as int]);
                assert(o0.blocks@[l as int].fits(
                    m0.d,
                    m0.blocks[l as int].d_ff,
                    usize::MAX as int,
                ));
                assert(g.blocks[l as int].fits(m0.d, m0.blocks[l as int].d_ff));
                assert(g.blocks[l as int] == grads.blocks@[l as int]@);
            }
            let ghost before = model@.blocks;
            self.blocks[l].step(&mut model.blocks[l], &grads.blocks[l], lr);
            proof {
                assert forall|k: int| 0 <= k < n && k != l implies #[trigger] model@.blocks[k]
                    == before[k] by {
                    assert(model@.blocks[k] == model.blocks@[k]@);
                }
                assert(model@.blocks[l as int] == model.blocks@[l as int]@);
            }
            l += 1;
        }
        proof {
            assert forall|limit: int| o0.fits(m0, limit) implies #[trigger] self.fits(
                m0,
                limit + 1,
            ) by {
                assert forall|k: int| 0 <= k < n implies (#[trigger] self.blocks@[k]).fits(
                    m0.d,
                    m0.blocks[k].d_ff,
                    limit + 1,
                ) by {
                    assert(keeps_fitting::<A>(
                        o0.blocks@[k],
                        self.blocks@[k],
                        m0.d,
                        m0.blocks[k].d_ff,
                    ));
                    assert(o0.blocks@[k].fits(m0.d, m0.blocks[k].d_ff, limit));
                }
            }
        }
    }
}

/// After one more step the moments still fit.
spec fn keeps_fitting<A: Arith>(
    before: ForgeBlockAdam<A>,
    after: ForgeBlockAdam<A>,
    d: nat,
    d_ff: nat,
) -> bool {
    forall|limit: int| before.fits(d, d_ff, limit) ==> after.fits(d, d_ff, limit + 1)
}

/// Room for the gradients of a model.
pub fn new_forge_grads<A: Arith>(model: &ForgeModel<A>) -> (grads: ForgeGrads<A>)
    requires
        lawful::<A>(),
        model@.has_room(0),
        model.d * model.d <= usize::MAX,
    ensures
        grads@ == no_grad_set::<A>(model@),
        grads@.fits::<A>(model@),
{
    let n: usize = model.blocks.len();
    let ghost m = model@;
    let mut blocks: Vec<ForgeBlockGrads<A>> = Vec::with_capacity(n);
    let mut l: usize = 0;
    while l < n
        invariant
            lawful::<A>(),
            l <= n,
            n == model.blocks@.len(),
            m == model@,
            m.has_room(0),
            model.d * model.d <= usize::MAX,
            blocks@.len() == l,
            forall|k: int|
                0 <= k < l ==> (#[trigger] blocks@[k])@ == no_forge_grads::<A>(
                    m.d,
                    m.blocks[k].d_ff,
                ),
        decreases n - l,
    {
        proof {
            assert(m.blocks[l as int] == model.blocks@[l as int]@);
            assert(m.blocks[l as int].has_room(0));
            assert(model.blocks@[l as int].w1.len() == model.blocks@[l as int].w1@.len());
        }
        blocks.push(ForgeBlockGrads::new(model.d, model.blocks[l].d_ff));
        l += 1;
    }
    let grads = ForgeGrads {
        embed: zero_vec::<A>(model.embeddings.len()),
        pos_embed: zero_vec::<A>(model.pos_embed.len()),
        head: zero_vec::<A>(model.head.len()),
        blocks,
    };
    proof {
        assert(grads@.blocks =~= no_grad_set::<A>(m).blocks);
        assert forall|k: int| 0 <= k < grads@.blocks.len() implies (
        #[trigger] grads@.blocks[k]).fits(m.d, m.blocks[k].d_ff) by {}
    }
    grads
}

/// The model, the gradients and the losses after some sequences of a batch.
pub struct BatchBack<A: Arith> {
    pub model: ForgeModelValues<A>,
    pub back: SequenceBack<A::T>,
}

/// The first `k` sequences of a batch, one after the other.
pub open spec fn batch_back<A: Arith>(
    m: ForgeModelValues<A>,
    batch: Seq<Vec<usize>>,
    scale: A::T,
    k: nat,
) -> BatchBack<A>
    decreases k,
{
    if k == 0 {
        BatchBack {
            model: m,
            back: SequenceBack {
                grads: no_grad_set::<A>(m),
                loss: zero::<A>(),
                slots: Seq::empty(),
            },
        }
    } else {
        let b = batch_back::<A>(m, batch, scale, (k - 1) as nat);
        let tokens = batch[k - 1]@;
        BatchBack {
            model: b.model.after_training(tokens),
            back: b.model.sequence_back(
                tokens,
                scale,
                SequenceBack { slots: Seq::empty(), ..b.back },
                0,
            ),
        }
    }
}

/// The gradients of a batch, accumulated sequence by sequence, and the sum of the losses.
pub fn forge_batch_gradients<A: Arith>(
    model: &mut ForgeModel<A>,
    batch: &[Vec<usize>],
    seq_len: usize,
) -> (r: (A::T, ForgeGrads<A>))
    requires
        lawful::<A>(),
        old(model)@.can_train(batch@.len() * seq_len),
        old(model).d * old(model).d <= usize::MAX,
        batch@.len() * seq_len <= usize::MAX,
        forall|i: int|
            0 <= i < batch@.len() ==> old(model)@.is_training(#[trigger] batch@[i]@)
                && batch@[i]@.len() == seq_len + 1,
    ensures
        ({
            let b = batch_back::<A>(
                old(model)@,
                batch@,
                batch_scale::<A>(batch.len(), seq_len),
                batch@.len(),
            );
            &&& final(model)@ == b.model
            &&& r.0 == b.back.loss
            &&& r.1@ == b.back.grads
        }),
        r.1@.fits::<A>(old(model)@),
        final(model)@.has_room(0),
        final(model)@.same_weights(old(model)@),
        final(model)@.train_flops() == old(model)@.train_flops(),
        old(model)@.nothing_pending() ==> final(model)@.nothing_pending()
            && final(model)@.total_flops == old(model)@.total_flops + (batch@.len() * seq_len)
            * old(model)@.train_flops(),
{
    let ghost m0 = model@;
    let ghost whole = m0.train_flops();
    let n: usize = batch.len();
    let scale = A::over(A::lit(1, 0), A::count(n * seq_len));
    proof {
        m0.lemma_less_room(n * seq_len, 0);
        m0.lemma_same();
        assert((0 * seq_len) * whole == 0) by (nonlinear_arith);
    }
    let mut grads = new_forge_grads(model);
    let mut loss = A::lit(0, 0);
    let mut k: usize = 0;
    while k < n
        invariant
            lawful::<A>(),
            n == batch@.len(),
            k <= n,
            forall|i: int|
                0 <= i < batch@.len() ==> m0.is_training(#[trigger] batch@[i]@)
                    && batch@[i]@.len() == seq_len + 1,
            model@.can_train((n - k) * seq_len),
            model@.same_weights(m0),
            whole == m0.train_flops(),
            model@.train_flops() == whole,
            m0.nothing_pending() ==> model@.nothing_pending() && model@.total_flops
                == m0.total_flops + (k * seq_len) * whole,
            grads@.fits::<A>(m0),
            model@ == batch_back::<A>(m0, batch@, scale, k as nat).model,
            loss == batch_back::<A>(m0, batch@, scale, k as nat).back.loss,
            grads@ == batch_back::<A>(m0, batch@, scale, k as nat).back.grads,
        decreases n - k,
    {
        let ghost m = model@;
        let tokens = batch[k].as_slice();
        proof {
            assert(m0.is_training(batch@[k as int]@));
            assert((n - k) * seq_len == seq_len + (n - k - 1) * seq_len) by (nonlinear_arith);
            assert(0 <= (n - k - 1) * seq_len) by (nonlinear_arith)
                requires
                    n - k - 1 >= 0,
                    seq_len >= 0,
            ;
            m.lemma_less_room((n - k) * seq_len, seq_len as int);
            m.lemma_after_training(tokens@, (n - k) * seq_len);
            m.lemma_fits(m0, grads@);
        }
        loss = model.train_sequence(tokens, scale, &mut grads, loss);
        proof {
            model@.lemma_same_weights(m, m0);
            m0.lemma_fits(m, grads@);
            assert((k * seq_len) * whole + seq_len * whole == ((k + 1) * seq_len) * whole)
                by (nonlinear_arith);
        }
        k += 1;
    }
    proof {
        assert((n - k) * seq_len == 0) by (nonlinear_arith)
            requires
                n == k,
        ;
    }
    (loss, grads)
}

/// What a training step makes of a model and its moments. `r` holds the sum of the losses, the
/// learning rate and the FLOPs of the step: what was counted before it is not among them.
#[verifier::opaque]
pub open spec fn is_forge_step<A: Arith>(
    model: ForgeModelValues<A>,
    optimizer: ForgeAdam<A>,
    batch: Seq<Vec<usize>>,
    seq_len: usize,
    r: (A::T, A::T, u64),
    next_model: ForgeModelValues<A>,
    next: ForgeAdam<A>,
) -> bool {
    let scale = batch_scale::<A>(batch.len() as usize, seq_len);
    let b = batch_back::<A>(model.with_no_flops(), batch, scale, batch.len());
    &&& r.0 == b.back.loss
    &&& r.2 == b.model.total_flops
    &&& optimizer.takes_to(b.model.with_no_flops(), b.back.grads, r.1, next, next_model)
}

/// One training step: the gradients of a batch, the learning rate of the step and an update of
/// the model. Returns the sum of the losses, the learning rate and the FLOPs of the step.
pub fn forge_train_step<A: Arith>(
    model: &mut ForgeModel<A>,
    optimizer: &mut ForgeAdam<A>,
    batch: &[Vec<usize>],
    seq_len: usize,
    step: usize,
    max_steps: usize,
    base_lr: A::T,
) -> (r: (A::T, A::T, u64))
    requires
        lawful::<A>(),
        old(model)@.with_no_flops().can_train(batch@.len() * seq_len),
        old(model).d * old(model).d <= usize::MAX,
        batch@.len() * seq_len <= usize::MAX,
        forall|i: int|
            0 <= i < batch@.len() ==> old(model)@.is_training(#[trigger] batch@[i]@)
                && batch@[i]@.len() == seq_len + 1,
        old(optimizer).fits(old(model)@, usize::MAX as int),
        step <= max_steps,
    ensures
        r.1 == forge_lr_of::<A>(step, max_steps, base_lr),
        is_forge_step::<A>(
            old(model)@,
            *old(optimizer),
            batch@,
            seq_len,
            r,
            final(model)@,
            *final(optimizer),
        ),
        final(model)@.vocab == old(model)@.vocab,
        final(model)@.d == old(model)@.d,
        final(model)@.total_flops == 0,
        final(model)@.train_flops() == old(model)@.train_flops(),
        old(model)@.nothing_pending() ==> final(model)@.nothing_pending() && r.2 == (batch@.len()
            * seq_len) * old(model)@.train_flops(),
        forall|limit: int|
            old(optimizer).fits(old(model)@, limit) ==> #[trigger] final(optimizer).fits(
                final(model)@,
                limit + 1,
            ),
{
    reveal(is_forge_step);
    model.reset_flop_counter();
    let ghost m0 = model@;
    let lr = forge_lr::<A>(step, max_steps, base_lr);
    let (loss, grads) = forge_batch_gradients(model, batch, seq_len);
    let ghost m1 = model@;
    let flops: u64 = model.total_flops;
    model.reset_flop_counter();
    proof {
        m1.lemma_fits(m0, grads@);
        assert(m1.with_no_flops().has_room(0));
        assert(grads@.fits::<A>(m1.with_no_flops()));
        assert forall|limit: int| #![trigger optimizer.fits(m0, limit)] optimizer.fits(
            m0,
            limit,
        ) <==> optimizer.fits(m1.with_no_flops(), limit) by {
            m1.lemma_adam_fits(m0, *optimizer, limit);
        }
    }
    let ghost o1 = *optimizer;
    optimizer.step(model, &grads, lr);
    proof {
        let m2 = model@;
        assert forall|l: int| 0 <= l < m2.blocks.len() implies (
        #[trigger] m2.blocks[l]).flops_per_token() == m1.blocks[l].flops_per_token()
            && m2.blocks[l].flops_forward == m1.blocks[l].flops_forward by {
            assert(o1.blocks@[l].takes_to(
                m1.blocks[l],
                grads@.blocks[l],
                lr,
                optimizer.blocks@[l],
                m2.blocks[l],
            ));
        }
        lemma_same_sums::<A>(m2.blocks, m1.blocks, m2.blocks.len());
        assert forall|limit: int| old(optimizer).fits(m0, limit) implies #[trigger] optimizer.fits(
            m2,
            limit + 1,
        ) by {
            assert(optimizer.fits(m1.with_no_flops(), limit + 1));
            assert forall|l: int| 0 <= l < m2.blocks.len() implies (
            #[trigger] optimizer.blocks@[l]).fits(m2.d, m2.blocks[l].d_ff, limit + 1) by {
                assert(o1.blocks@[l].takes_to(
                    m1.blocks[l],
                    grads@.blocks[l],
                    lr,
                    optimizer.blocks@[l],
                    m2.blocks[l],
                ));
                assert(optimizer.blocks@[l].fits(m1.d, m1.blocks[l].d_ff, limit + 1));
            }
        }
    }
    (loss, lr, flops)
}

impl<A: Arith> ForgeModelValues<A> {
    /// Room for more tokens is room for fewer.
    proof fn lemma_less_room(&self, n: int, k: int)
        requires
            self.can_train(n),
            0 <= k <= n,
        ensures
            self.can_train(k),
    {
        let whole = self.train_flops();
        assert(k * whole <= n * whole) by (nonlinear_arith)
            requires
                0 <= k <= n,
                0 <= whole,
        ;
        assert forall|l: int| 0 <= l < self.blocks.len() implies (
        #[trigger] self.blocks[l]).has_room(k) by {
            assert(self.blocks[l].has_room(n));
        }
    }

    /// A training sequence leaves room for as many tokens less, and the weights as they are. It
    /// counts the FLOPs of its tokens.
    proof fn lemma_after_training(&self, tokens: Seq<usize>, room: int)
        requires
            self.can_train(room),
            self.is_training(tokens),
            tokens.len() - 1 <= room,
        ensures
            self.after_training(tokens).can_train(room - (tokens.len() - 1)),
            self.after_training(tokens).same_weights(*self),
            self.after_training(tokens).train_flops() == self.train_flops(),
            self.nothing_pending() ==> self.after_training(tokens).nothing_pending()
                && self.after_training(tokens).total_flops == self.total_flops + (tokens.len() - 1)
                * self.train_flops(),
    {
        let n = (tokens.len() - 1) as nat;
        self.lemma_walked(tokens, n, room);
        let (f, b) = (self.forward_flops(), self.backward_flops());
        assert(n * f + n * b + (room - n) * (f + b) == room * (f + b)) by (nonlinear_arith);
        assert(n * f + n * b == n * (f + b)) by (nonlinear_arith);
        let end = self.walked(tokens, n);
        let after = self.after_training(tokens);
        assert(after.blocks == end.blocks);
        if self.nothing_pending() {
            lemma_nothing_pending::<A>(self.blocks, self.blocks.len());
            lemma_nothing_pending::<A>(end.blocks, end.blocks.len());
        }
    }

    /// A model has the same weights as itself.
    proof fn lemma_same(&self)
        ensures
            self.same_weights(*self),
    {
        assert forall|l: int| 0 <= l < self.blocks.len() implies same_block_weights::<A>(
            #[trigger] self.blocks[l],
            self.blocks[l],
        ) by {}
    }

    /// Models with the weights of one that has the weights of a third have those of the third.
    proof fn lemma_same_weights(&self, b: ForgeModelValues<A>, c: ForgeModelValues<A>)
        requires
            self.same_weights(b),
            b.same_weights(c),
        ensures
            self.same_weights(c),
    {
        assert forall|l: int| 0 <= l < self.blocks.len() implies same_block_weights::<A>(
            #[trigger] self.blocks[l],
            c.blocks[l],
        ) by {
            assert(same_block_weights::<A>(self.blocks[l], b.blocks[l]));
            assert(same_block_weights::<A>(b.blocks[l], c.blocks[l]));
        }
    }

    /// Gradients of a model are gradients of every model with the same weights.
    proof fn lemma_fits(&self, other: ForgeModelValues<A>, g: ForgeGradSet<A::T>)
        requires
            self.same_weights(other) || other.same_weights(*self),
            g.fits::<A>(other),
        ensures
            g.fits::<A>(*self),
    {
        assert forall|l: int| 0 <= l < g.blocks.len() implies (#[trigger] g.blocks[l]).fits(
            self.d,
            self.blocks[l].d_ff,
        ) by {
            assert(g.blocks[l].fits(other.d, other.blocks[l].d_ff));
            assert(self.same_weights(other) ==> same_block_weights::<A>(
                self.blocks[l],
                other.blocks[l],
            ));
            assert(other.same_weights(*self) ==> same_block_weights::<A>(
                other.blocks[l],
                self.blocks[l],
            ));
        }
    }

    /// Moments of a model are moments of every model with the same weights.
    proof fn lemma_adam_fits(&self, other: ForgeModelValues<A>, o: ForgeAdam<A>, limit: int)
        requires
            self.same_weights(other),
        ensures
            o.fits(other, limit) <==> o.fits(self.with_no_flops(), limit),
    {
        if o.fits(other, limit) {
            assert forall|l: int| 0 <= l < self.blocks.len() implies (
            #[trigger] o.blocks@[l]).fits(self.d, self.blocks[l].d_ff, limit) by {
                assert(same_block_weights::<A>(self.blocks[l], other.blocks[l]));
                assert(o.blocks@[l].fits(other.d, other.blocks[l].d_ff, limit));
            }
        }
        if o.fits(self.with_no_flops(), limit) {
            assert forall|l: int| 0 <= l < other.blocks.len() implies (
            #[trigger] o.blocks@[l]).fits(other.d, other.blocks[l].d_ff, limit) by {
                assert(same_block_weights::<A>(self.blocks[l], other.blocks[l]));
                assert(o.blocks@[l].fits(self.d, self.blocks[l].d_ff, limit));
            }
        }
    }
}

} // verus!
