//! Pure Rust AdamW optimizer with gradient norm clipping and weight decay.

use vstd::prelude::*;
use crate::arith::{
    Arith, lawful, one, s_count, s_exceeds, s_lit, s_minus, s_over, s_plus, s_powf, s_sqrt,
    s_times, zero,
};
use crate::expert::ExpertMLP;
use crate::layer::{AxiomLayer, ExpertValues, LayerGrads, LayerValues, zero_vec};
use crate::model::{AxiomSingleLayerModel, ModelGrads, ModelValues};
use crate::stacked_model::{AxiomModel, StackedModelGrads, StackedValues};
use crate::tensor::zeros;

verus! {

/// AdamW Optimizer Configuration.
#[derive(Debug, Clone)]
pub struct AdamWConfig<A: Arith> {
    pub lr: A::T,
    pub beta1: A::T,
    pub beta2: A::T,
    pub eps: A::T,
    pub weight_decay: A::T,
    pub max_grad_norm: A::T,
}

impl<A: Arith> AdamWConfig<A> {
    /// The configuration with the usual decay rates and limits and this learning rate.
    pub open spec fn is_usual(&self) -> bool {
        &&& self.beta1 == s_lit::<A>(9, 1)
        &&& self.beta2 == s_lit::<A>(999, 3)
        &&& self.eps == s_lit::<A>(1, 8)
        &&& self.weight_decay == s_lit::<A>(1, 2)
        &&& self.max_grad_norm == s_lit::<A>(1, 0)
    }

    /// The usual configuration with a learning rate.
    pub fn with_lr(lr: A::T) -> (cfg: Self)
        ensures
            cfg.lr == lr,
            lawful::<A>() ==> cfg.is_usual(),
    {
        Self {
            lr,
            beta1: A::lit(9, 1),
            beta2: A::lit(999, 3),
            eps: A::lit(1, 8),
            weight_decay: A::lit(1, 2),
            max_grad_norm: A::lit(1, 0),
        }
    }
}

impl<A: Arith> Default for AdamWConfig<A> {
    fn default() -> (cfg: Self)
        ensures
            lawful::<A>() ==> cfg.is_usual() && cfg.lr == s_lit::<A>(1, 3),
    {
        Self::with_lr(A::lit(1, 3))
    }
}

/// AdamW state tracker for parameter buffers.
#[derive(Debug, Clone)]
pub struct ParameterState<A: Arith> {
    pub m: Vec<A::T>,
    pub v: Vec<A::T>,
}

impl<A: Arith> ParameterState<A> {
    /// The moments of a buffer of this length.
    pub open spec fn fits(&self, len: nat) -> bool {
        self.m@.len() == len && self.v@.len() == len
    }

    pub fn new(len: usize) -> (state: Self)
        requires
            lawful::<A>(),
        ensures
            state.fits(len as nat),
            state.m@ == zeros::<A>(len as nat),
            state.v@ == zeros::<A>(len as nat),
    {
        Self { m: zero_vec::<A>(len), v: zero_vec::<A>(len) }
    }
}

/// The numbers that one step of AdamW applies to every parameter.
#[derive(Debug, Clone, Copy)]
pub struct AdamStep<T> {
    pub beta1: T,
    pub beta2: T,
    pub eps: T,
    pub weight_decay: T,
    /// The factor that keeps the gradients within their norm.
    pub clip: T,
    /// The bias corrections 1 / (1 - beta^t).
    pub inv_bc1: T,
    pub inv_bc2: T,
    pub lr: T,
}

/// The first moment after a gradient: beta1 * m + (1 - beta1) * g
pub open spec fn adam_m<A: Arith>(s: AdamStep<A::T>, g: A::T, m: A::T) -> A::T {
    s_plus::<A>(
        s_times::<A>(s.beta1, m),
        s_times::<A>(s_minus::<A>(one::<A>(), s.beta1), s_times::<A>(g, s.clip)),
    )
}

/// The second moment after a gradient: beta2 * v + (1 - beta2) * g^2
pub open spec fn adam_v<A: Arith>(s: AdamStep<A::T>, g: A::T, v: A::T) -> A::T {
    let clipped = s_times::<A>(g, s.clip);
    s_plus::<A>(
        s_times::<A>(s.beta2, v),
        s_times::<A>(
            s_times::<A>(s_minus::<A>(one::<A>(), s.beta2), clipped),
            clipped,
        ),
    )
}

/// A parameter after a gradient: p - lr * (m_hat / (sqrt(v_hat) + eps) + wd * p)
pub open spec fn adam_p<A: Arith>(s: AdamStep<A::T>, p: A::T, g: A::T, m: A::T, v: A::T) -> A::T {
    let m_hat = s_times::<A>(adam_m::<A>(s, g, m), s.inv_bc1);
    let v_hat = s_times::<A>(adam_v::<A>(s, g, v), s.inv_bc2);
    s_minus::<A>(
        p,
        s_times::<A>(
            s.lr,
            s_plus::<A>(
                s_over::<A>(m_hat, s_plus::<A>(s_sqrt::<A>(v_hat), s.eps)),
                s_times::<A>(s.weight_decay, p),
            ),
        ),
    )
}

/// First moments after a step.
pub open spec fn adam_ms<A: Arith>(
    s: AdamStep<A::T>,
    g: Seq<A::T>,
    m: Seq<A::T>,
) -> Seq<A::T> {
    Seq::new(m.len(), |i: int| adam_m::<A>(s, g[i], m[i]))
}

/// Second moments after a step.
pub open spec fn adam_vs<A: Arith>(
    s: AdamStep<A::T>,
    g: Seq<A::T>,
    v: Seq<A::T>,
) -> Seq<A::T> {
    Seq::new(v.len(), |i: int| adam_v::<A>(s, g[i], v[i]))
}

/// Parameters after a step.
pub open spec fn adam_ps<A: Arith>(
    s: AdamStep<A::T>,
    p: Seq<A::T>,
    g: Seq<A::T>,
    m: Seq<A::T>,
    v: Seq<A::T>,
) -> Seq<A::T> {
    Seq::new(p.len(), |i: int| adam_p::<A>(s, p[i], g[i], m[i], v[i]))
}

/// A buffer of parameters and its moments have taken a step.
pub open spec fn stepped<A: Arith>(
    s: AdamStep<A::T>,
    g: Seq<A::T>,
    p0: Seq<A::T>,
    state0: ParameterState<A>,
    p1: Seq<A::T>,
    state1: ParameterState<A>,
) -> bool {
    &&& p1 == adam_ps::<A>(s, p0, g, state0.m@, state0.v@)
    &&& state1.m@ == adam_ms::<A>(s, g, state0.m@)
    &&& state1.v@ == adam_vs::<A>(s, g, state0.v@)
}

/// The squares of values, added to `start` one by one.
pub open spec fn squares_added<A: Arith>(start: A::T, values: Seq<A::T>, n: nat) -> A::T
    decreases n,
{
    if n == 0 {
        start
    } else {
        s_plus::<A>(
            squares_added::<A>(start, values, (n - 1) as nat),
            s_times::<A>(values[n - 1], values[n - 1]),
        )
    }
}

/// The squares of the values of several buffers, summed up from zero.
pub open spec fn sum_of_all_squares<A: Arith>(parts: Seq<Seq<A::T>>) -> A::T
    decreases parts.len(),
{
    if parts.len() == 0 {
        zero::<A>()
    } else {
        squares_added::<A>(
            sum_of_all_squares::<A>(parts.drop_last()),
            parts.last(),
            parts.last().len(),
        )
    }
}

/// The L2 norm of the values of several buffers.
pub open spec fn norm_of<A: Arith>(parts: Seq<Seq<A::T>>) -> A::T {
    s_sqrt::<A>(sum_of_all_squares::<A>(parts))
}

/// The factor that brings gradients of this norm within the limit.
pub open spec fn clip_of<A: Arith>(norm: A::T, max_grad_norm: A::T) -> A::T {
    if s_exceeds::<A>(norm, max_grad_norm) && s_exceeds::<A>(norm, s_lit::<A>(1, 8)) {
        s_over::<A>(max_grad_norm, norm)
    } else {
        one::<A>()
    }
}

/// The correction of a moment's bias after `t` steps: 1 / (1 - beta^t)
pub open spec fn bias_correction<A: Arith>(beta: A::T, t: usize) -> A::T {
    s_over::<A>(
        one::<A>(),
        s_minus::<A>(one::<A>(), s_powf::<A>(beta, s_count::<A>(t))),
    )
}

/// The numbers of step `t` for gradients of the given norm.
pub open spec fn adam_step_of<A: Arith>(
    config: AdamWConfig<A>,
    norm: A::T,
    t: usize,
    lr: A::T,
) -> AdamStep<A::T> {
    AdamStep {
        beta1: config.beta1,
        beta2: config.beta2,
        eps: config.eps,
        weight_decay: config.weight_decay,
        clip: clip_of::<A>(norm, config.max_grad_norm),
        inv_bc1: bias_correction::<A>(config.beta1, t),
        inv_bc2: bias_correction::<A>(config.beta2, t),
        lr,
    }
}

/// Add the squares of values to a sum.
pub(crate) fn add_squares<A: Arith>(start: A::T, values: &[A::T]) -> (sum: A::T)
    requires
        lawful::<A>(),
    ensures
        sum == squares_added::<A>(start, values@, values@.len()),
{
    let mut sum = start;
    let mut i: usize = 0;
    while i < values.len()
        invariant
            lawful::<A>(),
            i <= values@.len(),
            sum == squares_added::<A>(start, values@, i as nat),
        decreases values@.len() - i,
    {
        sum = A::plus(sum, A::times(values[i], values[i]));
        i += 1;
    }
    sum
}

/// One more buffer joins a sum of squares.
pub proof fn lemma_next_part<A: Arith>(parts: Seq<Seq<A::T>>, part: Seq<A::T>)
    ensures
        sum_of_all_squares::<A>(parts.push(part)) == squares_added::<A>(
            sum_of_all_squares::<A>(parts),
            part,
            part.len(),
        ),
{
    assert(parts.push(part).drop_last() =~= parts);
}

/// The numbers of step `t` for gradients of the given norm.
pub(crate) fn make_step<A: Arith>(
    config: &AdamWConfig<A>,
    norm: A::T,
    t: usize,
    lr: A::T,
) -> (s: AdamStep<A::T>)
    requires
        lawful::<A>(),
    ensures
        s == adam_step_of::<A>(*config, norm, t, lr),
{
    let floor = A::lit(1, 8);
    let clip = if A::exceeds(norm, config.max_grad_norm) && A::exceeds(norm, floor) {
        A::over(config.max_grad_norm, norm)
    } else {
        A::lit(1, 0)
    };
    let bc1 = A::minus(A::lit(1, 0), A::powf(config.beta1, A::count(t)));
    let bc2 = A::minus(A::lit(1, 0), A::powf(config.beta2, A::count(t)));
    AdamStep {
        beta1: config.beta1,
        beta2: config.beta2,
        eps: config.eps,
        weight_decay: config.weight_decay,
        clip,
        inv_bc1: A::over(A::lit(1, 0), bc1),
        inv_bc2: A::over(A::lit(1, 0), bc2),
        lr,
    }
}

/// Apply a step to a buffer of parameters and its moments.
pub(crate) fn update_slices<A: Arith>(
    s: &AdamStep<A::T>,
    p: &mut [A::T],
    g: &[A::T],
    m: &mut [A::T],
    v: &mut [A::T],
)
    requires
        lawful::<A>(),
        g@.len() == old(p)@.len(),
        old(m)@.len() == old(p)@.len(),
        old(v)@.len() == old(p)@.len(),
    ensures
        final(p)@ == adam_ps::<A>(*s, old(p)@, g@, old(m)@, old(v)@),
        final(m)@ == adam_ms::<A>(*s, g@, old(m)@),
        final(v)@ == adam_vs::<A>(*s, g@, old(v)@),
{
    let n: usize = p.len();
    let ghost (p0, m0, v0) = (p@, m@, v@);
    let mut i: usize = 0;
    while i < n
        invariant
            lawful::<A>(),
            i <= n,
            p@.len() == n,
            m@.len() == n,
            v@.len() == n,
            g@.len() == n,
            p0.len() == n,
            m0.len() == n,
            v0.len() == n,
            forall|j: int|
                0 <= j < i ==> #[trigger] p@[j] == adam_p::<A>(*s, p0[j], g@[j], m0[j], v0[j]),
            forall|j: int| 0 <= j < i ==> #[trigger] m@[j] == adam_m::<A>(*s, g@[j], m0[j]),
            forall|j: int| 0 <= j < i ==> #[trigger] v@[j] == adam_v::<A>(*s, g@[j], v0[j]),
            forall|j: int| i <= j < n ==> #[trigger] p@[j] == p0[j],
            forall|j: int| i <= j < n ==> #[trigger] m@[j] == m0[j],
            forall|j: int| i <= j < n ==> #[trigger] v@[j] == v0[j],
        decreases n - i,
    {
        let clipped = A::times(g[i], s.clip);
        m[i] = A::plus(
            A::times(s.beta1, m[i]),
            A::times(A::minus(A::lit(1, 0), s.beta1), clipped),
        );
        v[i] = A::plus(
            A::times(s.beta2, v[i]),
            A::times(A::times(A::minus(A::lit(1, 0), s.beta2), clipped), clipped),
        );
        let m_hat = A::times(m[i], s.inv_bc1);
        let v_hat = A::times(v[i], s.inv_bc2);
        let step_val = A::plus(
            A::over(m_hat, A::plus(A::sqrt(v_hat), s.eps)),
            A::times(s.weight_decay, p[i]),
        );
        p[i] = A::minus(p[i], A::times(s.lr, step_val));
        i += 1;
    }
    assert(p@ =~= adam_ps::<A>(*s, p0, g@, m0, v0));
    assert(m@ =~= adam_ms::<A>(*s, g@, m0));
    assert(v@ =~= adam_vs::<A>(*s, g@, v0));
}

/// Apply a step to a buffer of parameters and its moments.
pub(crate) fn update_param<A: Arith>(
    s: &AdamStep<A::T>,
    p: &mut [A::T],
    g: &[A::T],
    state: &mut ParameterState<A>,
)
    requires
        lawful::<A>(),
        g@.len() == old(p)@.len(),
        old(state).fits(old(p)@.len()),
    ensures
        stepped::<A>(*s, g@, old(p)@, *old(state), final(p)@, *final(state)),
        final(p)@.len() == old(p)@.len(),
        final(state).fits(old(p)@.len()),
{
    update_slices::<A>(s, p, g, state.m.as_mut_slice(), state.v.as_mut_slice());
}

/// The moments of all parameters of a layer.
pub struct Moments<A: Arith> {
    pub ws: ParameterState<A>,
    pub w_gate: ParameterState<A>,
    pub up: Seq<ParameterState<A>>,
    pub down: Seq<ParameterState<A>>,
    pub w_pred: ParameterState<A>,
    pub w_decode: ParameterState<A>,
}

impl<A: Arith> Moments<A> {
    /// The moments are those of the parameters of this layer.
    pub open spec fn fit(&self, layer: AxiomLayer<A>) -> bool {
        &&& self.ws.fits(layer.w_s@.len())
        &&& self.w_gate.fits(layer.w_gate@.len())
        &&& self.up.len() == layer.experts@.len()
        &&& self.down.len() == layer.experts@.len()
        &&& forall|i: int|
            0 <= i < layer.experts@.len() ==> (#[trigger] self.up[i]).fits(
                layer.experts@[i].w_up@.len(),
            )
        &&& forall|i: int|
            0 <= i < layer.experts@.len() ==> (#[trigger] self.down[i]).fits(
                layer.experts@[i].w_down@.len(),
            )
        &&& self.w_pred.fits(layer.w_pred@.len())
        &&& self.w_decode.fits(layer.w_decode@.len())
    }
}

/// An expert and its moments have taken a step.
pub open spec fn expert_stepped<A: Arith>(
    s: AdamStep<A::T>,
    g: ExpertValues<A::T>,
    e0: ExpertMLP<A>,
    up0: ParameterState<A>,
    down0: ParameterState<A>,
    e1: ExpertMLP<A>,
    up1: ParameterState<A>,
    down1: ParameterState<A>,
) -> bool {
    &&& e1.d_model == e0.d_model
    &&& e1.d_ffn == e0.d_ffn
    &&& stepped::<A>(s, g.up, e0.w_up@, up0, e1.w_up@, up1)
    &&& stepped::<A>(s, g.down, e0.w_down@, down0, e1.w_down@, down1)
}

/// A layer and its moments have taken a step: each of its parameters has.
pub open spec fn layer_stepped<A: Arith>(
    s: AdamStep<A::T>,
    g: LayerValues<A::T>,
    l0: AxiomLayer<A>,
    m0: Moments<A>,
    l1: AxiomLayer<A>,
    m1: Moments<A>,
) -> bool {
    &&& l1.config == l0.config
    &&& stepped::<A>(s, g.w_s, l0.w_s@, m0.ws, l1.w_s@, m1.ws)
    &&& stepped::<A>(s, g.w_gate, l0.w_gate@, m0.w_gate, l1.w_gate@, m1.w_gate)
    &&& l1.experts@.len() == l0.experts@.len()
    &&& forall|i: int|
        0 <= i < l0.experts@.len() ==> expert_stepped::<A>(
            s,
            g.experts[i],
            l0.experts@[i],
            m0.up[i],
            m0.down[i],
            #[trigger] l1.experts@[i],
            m1.up[i],
            m1.down[i],
        )
    &&& stepped::<A>(s, g.w_pred, l0.w_pred@, m0.w_pred, l1.w_pred@, m1.w_pred)
    &&& stepped::<A>(s, g.w_decode, l0.w_decode@, m0.w_decode, l1.w_decode@, m1.w_decode)
}

/// The buffers of the gradients of the first `n` experts, in the order in which their norm is
/// taken.
pub open spec fn expert_parts<T>(experts: Seq<ExpertValues<T>>, n: nat) -> Seq<Seq<T>>
    decreases n,
{
    if n == 0 {
        Seq::empty()
    } else {
        expert_parts(experts, (n - 1) as nat).push(experts[n - 1].up).push(experts[n - 1].down)
    }
}

/// The buffers of the gradients of a layer, in the order in which their norm is taken.
pub open spec fn layer_parts<T>(g: LayerValues<T>) -> Seq<Seq<T>> {
    seq![g.w_s, g.w_gate] + expert_parts(g.experts, g.experts.len()) + seq![g.w_pred, g.w_decode]
}

/// Add the squares of the gradients of a layer to a sum of squares of other buffers.
fn add_layer_squares<A: Arith>(
    start: A::T,
    Ghost(parts): Ghost<Seq<Seq<A::T>>>,
    g: &LayerGrads<A>,
) -> (sum: A::T)
    requires
        lawful::<A>(),
        start == sum_of_all_squares::<A>(parts),
    ensures
        sum == sum_of_all_squares::<A>(parts + layer_parts(g@)),
{
    let ghost mut shown = parts;
    let mut sum = add_squares::<A>(start, g.grad_w_s.as_slice());
    proof {
        lemma_next_part::<A>(shown, g@.w_s);
        shown = shown.push(g@.w_s);
    }
    sum = add_squares::<A>(sum, g.grad_w_gate.as_slice());
    proof {
        lemma_next_part::<A>(shown, g@.w_gate);
        shown = shown.push(g@.w_gate);
    }
    let ghost front = shown;
    let mut i: usize = 0;
    assert(shown =~= front + expert_parts(g@.experts, 0));
    while i < g.expert_grads.len()
        invariant
            lawful::<A>(),
            i <= g.expert_grads@.len(),
            sum == sum_of_all_squares::<A>(shown),
            shown == front + expert_parts(g@.experts, i as nat),
        decreases g.expert_grads@.len() - i,
    {
        let ghost e = g@.experts[i as int];
        assert(e == g.expert_grads@[i as int]@);
        sum = add_squares::<A>(sum, g.expert_grads[i].grad_w_up.as_slice());
        proof {
            lemma_next_part::<A>(shown, e.up);
            shown = shown.push(e.up);
        }
        sum = add_squares::<A>(sum, g.expert_grads[i].grad_w_down.as_slice());
        proof {
            lemma_next_part::<A>(shown, e.down);
            shown = shown.push(e.down);
            assert(shown =~= front + expert_parts(g@.experts, (i + 1) as nat));
        }
        i += 1;
    }
    sum = add_squares::<A>(sum, g.grad_w_pred.as_slice());
    proof {
        lemma_next_part::<A>(shown, g@.w_pred);
        shown = shown.push(g@.w_pred);
    }
    sum = add_squares::<A>(sum, g.grad_w_decode.as_slice());
    proof {
        lemma_next_part::<A>(shown, g@.w_decode);
        shown = shown.push(g@.w_decode);
        assert(shown =~= parts + layer_parts(g@));
    }
    sum
}

/// Apply a step to all parameters of a layer.
fn update_layer<A: Arith>(
    s: &AdamStep<A::T>,
    layer: &mut AxiomLayer<A>,
    g: &LayerGrads<A>,
    ws: &mut ParameterState<A>,
    w_gate: &mut ParameterState<A>,
    up: &mut Vec<ParameterState<A>>,
    down: &mut Vec<ParameterState<A>>,
    w_pred: &mut ParameterState<A>,
    w_decode: &mut ParameterState<A>,
)
    requires
        lawful::<A>(),
        old(layer).wf(),
        g@.fits(old(layer).config),
        (Moments {
            ws: *old(ws),
            w_gate: *old(w_gate),
            up: old(up)@,
            down: old(down)@,
            w_pred: *old(w_pred),
            w_decode: *old(w_decode),
        }).fit(*old(layer)),
    ensures
        ({
            let m0 = Moments {
                ws: *old(ws),
                w_gate: *old(w_gate),
                up: old(up)@,
                down: old(down)@,
                w_pred: *old(w_pred),
                w_decode: *old(w_decode),
            };
            let m1 = Moments {
                ws: *final(ws),
                w_gate: *final(w_gate),
                up: final(up)@,
                down: final(down)@,
                w_pred: *final(w_pred),
                w_decode: *final(w_decode),
            };
            &&& layer_stepped::<A>(*s, g@, *old(layer), m0, *final(layer), m1)
            &&& m1.fit(*final(layer))
        }),
        final(layer).wf(),
{
    update_param::<A>(s, layer.w_s.as_mut_slice(), g.grad_w_s.as_slice(), ws);
    update_param::<A>(s, layer.w_gate.as_mut_slice(), g.grad_w_gate.as_slice(), w_gate);
    let ghost before = *layer;
    let ghost e0 = layer.experts@;
    let ghost (up0, down0) = (up@, down@);
    let mut i: usize = 0;
    while i < layer.experts.len()
        invariant
            lawful::<A>(),
            i <= layer.experts@.len(),
            g@.fits(layer.config),
            layer.config == before.config,
            layer.w_s@ == before.w_s@,
            layer.w_gate@ == before.w_gate@,
            layer.w_pred@ == before.w_pred@,
            layer.w_decode@ == before.w_decode@,
            layer.experts@.len() == e0.len(),
            e0.len() == layer.config.num_experts,
            up@.len() == e0.len(),
            down@.len() == e0.len(),
            up0.len() == e0.len(),
            down0.len() == e0.len(),
            forall|j: int|
                0 <= j < e0.len() ==> (#[trigger] e0[j]).wf() && e0[j].d_model
                    == layer.config.d_model && e0[j].d_ffn == layer.config.d_ffn,
            forall|j: int| 0 <= j < e0.len() ==> (#[trigger] up0[j]).fits(e0[j].w_up@.len()),
            forall|j: int| 0 <= j < e0.len() ==> (#[trigger] down0[j]).fits(e0[j].w_down@.len()),
            forall|j: int|
                0 <= j < i ==> expert_stepped::<A>(
                    *s,
                    g@.experts[j],
                    e0[j],
                    up0[j],
                    down0[j],
                    #[trigger] layer.experts@[j],
                    up@[j],
                    down@[j],
                ),
            forall|j: int| i <= j < e0.len() ==> #[trigger] layer.experts@[j] == e0[j],
            forall|j: int| i <= j < e0.len() ==> #[trigger] up@[j] == up0[j],
            forall|j: int| i <= j < e0.len() ==> #[trigger] down@[j] == down0[j],
        decreases layer.experts@.len() - i,
    {
        assert(g@.experts[i as int] == g.expert_grads@[i as int]@);
        assert(e0[i as int].wf());
        assert(up0[i as int].fits(e0[i as int].w_up@.len()));
        assert(down0[i as int].fits(e0[i as int].w_down@.len()));
        update_param::<A>(
            s,
            layer.experts[i].w_up.as_mut_slice(),
            g.expert_grads[i].grad_w_up.as_slice(),
            &mut up[i],
        );
        update_param::<A>(
            s,
            layer.experts[i].w_down.as_mut_slice(),
            g.expert_grads[i].grad_w_down.as_slice(),
            &mut down[i],
        );
        i += 1;
    }
    update_param::<A>(s, layer.w_pred.as_mut_slice(), g.grad_w_pred.as_slice(), w_pred);
    update_param::<A>(s, layer.w_decode.as_mut_slice(), g.grad_w_decode.as_slice(), w_decode);
    proof {
        assert forall|j: int| 0 <= j < layer.experts@.len() implies (
        #[trigger] layer.experts@[j]).wf() && layer.experts@[j].d_model == layer.config.d_model
            && layer.experts@[j].d_ffn == layer.config.d_ffn by {
            assert(e0[j].wf());
        }
        assert forall|j: int| 0 <= j < layer.experts@.len() implies (#[trigger] up@[j]).fits(
            layer.experts@[j].w_up@.len(),
        ) by {
            assert(up0[j].fits(e0[j].w_up@.len()));
            assert(expert_stepped::<A>(
                *s,
                g@.experts[j],
                e0[j],
                up0[j],
                down0[j],
                layer.experts@[j],
                up@[j],
                down@[j],
            ));
        }
        assert forall|j: int| 0 <= j < layer.experts@.len() implies (#[trigger] down@[j]).fits(
            layer.experts@[j].w_down@.len(),
        ) by {
            assert(down0[j].fits(e0[j].w_down@.len()));
            assert(expert_stepped::<A>(
                *s,
                g@.experts[j],
                e0[j],
                up0[j],
                down0[j],
                layer.experts@[j],
                up@[j],
                down@[j],
            ));
        }
    }
}

/// AdamW optimizer holding momentum and second moment states for an AxiomSingleLayerModel.
#[derive(Clone)]
pub struct AdamW<A: Arith> {
    pub config: AdamWConfig<A>,
    pub step: usize,
    pub state_embed: ParameterState<A>,
    pub state_pos_embed: ParameterState<A>,
    pub state_ws: ParameterState<A>,
    pub state_w_gate: ParameterState<A>,
    pub state_experts_up: Vec<ParameterState<A>>,
    pub state_experts_down: Vec<ParameterState<A>>,
    pub state_w_pred: ParameterState<A>,
    pub state_w_decode: ParameterState<A>,
}

/// The buffers of the gradients of a single-layer model, in the order in which their norm is
/// taken.
pub open spec fn model_parts<T>(g: ModelValues<T>) -> Seq<Seq<T>> {
    seq![g.embeddings, g.pos_embeddings] + layer_parts(g.layer)
}

/// The moments are those of the experts of a layer, all zero.
fn expert_states<A: Arith>(layer: &AxiomLayer<A>) -> (states: (
    Vec<ParameterState<A>>,
    Vec<ParameterState<A>>,
))
    requires
        lawful::<A>(),
    ensures
        states.0@.len() == layer.experts@.len(),
        states.1@.len() == layer.experts@.len(),
        forall|i: int|
            0 <= i < layer.experts@.len() ==> (#[trigger] states.0@[i]).fits(
                layer.experts@[i].w_up@.len(),
            ) && states.0@[i].m@ == zeros::<A>(layer.experts@[i].w_up@.len()) && states.0@[i].v@
                == zeros::<A>(layer.experts@[i].w_up@.len()),
        forall|i: int|
            0 <= i < layer.experts@.len() ==> (#[trigger] states.1@[i]).fits(
                layer.experts@[i].w_down@.len(),
            ) && states.1@[i].m@ == zeros::<A>(layer.experts@[i].w_down@.len()) && states.1@[i].v@
                == zeros::<A>(layer.experts@[i].w_down@.len()),
{
    let mut up: Vec<ParameterState<A>> = Vec::with_capacity(layer.experts.len());
    let mut down: Vec<ParameterState<A>> = Vec::with_capacity(layer.experts.len());
    let mut i: usize = 0;
    while i < layer.experts.len()
        invariant
            lawful::<A>(),
            i <= layer.experts@.len(),
            up@.len() == i,
            down@.len() == i,
            forall|j: int|
                0 <= j < i ==> (#[trigger] up@[j]).fits(layer.experts@[j].w_up@.len())
                    && up@[j].m@ == zeros::<A>(layer.experts@[j].w_up@.len()) && up@[j].v@
                    == zeros::<A>(layer.experts@[j].w_up@.len()),
            forall|j: int|
                0 <= j < i ==> (#[trigger] down@[j]).fits(layer.experts@[j].w_down@.len())
                    && down@[j].m@ == zeros::<A>(layer.experts@[j].w_down@.len()) && down@[j].v@
                    == zeros::<A>(layer.experts@[j].w_down@.len()),
        decreases layer.experts@.len() - i,
    {
        up.push(ParameterState::new(layer.experts[i].w_up.len()));
        down.push(ParameterState::new(layer.experts[i].w_down.len()));
        i += 1;
    }
    (up, down)
}

/// Moments of these lengths that are all zero.
pub open spec fn fresh<A: Arith>(state: ParameterState<A>, len: nat) -> bool {
    state.m@ == zeros::<A>(len) && state.v@ == zeros::<A>(len)
}

impl<A: Arith> Moments<A> {
    /// The moments of the parameters of a layer before the first step.
    pub open spec fn are_fresh(&self, layer: AxiomLayer<A>) -> bool {
        &&& self.fit(layer)
        &&& fresh(self.ws, layer.w_s@.len())
        &&& fresh(self.w_gate, layer.w_gate@.len())
        &&& forall|i: int|
            0 <= i < self.up.len() ==> fresh(#[trigger] self.up[i], layer.experts@[i].w_up@.len())
        &&& forall|i: int|
            0 <= i < self.down.len() ==> fresh(
                #[trigger] self.down[i],
                layer.experts@[i].w_down@.len(),
            )
        &&& fresh(self.w_pred, layer.w_pred@.len())
        &&& fresh(self.w_decode, layer.w_decode@.len())
    }
}

impl<A: Arith> AdamW<A> {
    /// The moments of the parameters of the layer.
    pub open spec fn moments(&self) -> Moments<A> {
        Moments {
            ws: self.state_ws,
            w_gate: self.state_w_gate,
            up: self.state_experts_up@,
            down: self.state_experts_down@,
            w_pred: self.state_w_pred,
            w_decode: self.state_w_decode,
        }
    }

    /// The moments are those of the parameters of this model.
    pub open spec fn fits(&self, model: AxiomSingleLayerModel<A>) -> bool {
        &&& self.state_embed.fits(model.embeddings@.len())
        &&& self.state_pos_embed.fits(model.pos_embeddings@.len())
        &&& self.moments().fit(model.layer)
    }

    /// The optimizer has taken no step with this model.
    pub open spec fn is_new(&self, model: AxiomSingleLayerModel<A>) -> bool {
        &&& self.step == 0
        &&& self.fits(model)
        &&& fresh(self.state_embed, model.embeddings@.len())
        &&& fresh(self.state_pos_embed, model.pos_embeddings@.len())
        &&& self.moments().are_fresh(model.layer)
    }

    /// What a step with these gradients makes of the optimizer and the model.
    pub open spec fn takes_to(
        &self,
        model: AxiomSingleLayerModel<A>,
        g: ModelValues<A::T>,
        current_lr: A::T,
        next: AdamW<A>,
        next_model: AxiomSingleLayerModel<A>,
    ) -> bool {
        let s = adam_step_of::<A>(
            self.config,
            norm_of::<A>(model_parts(g)),
            (self.step + 1) as usize,
            current_lr,
        );
        &&& stepped::<A>(
            s,
            g.embeddings,
            model.embeddings@,
            self.state_embed,
            next_model.embeddings@,
            next.state_embed,
        )
        &&& stepped::<A>(
            s,
            g.pos_embeddings,
            model.pos_embeddings@,
            self.state_pos_embed,
            next_model.pos_embeddings@,
            next.state_pos_embed,
        )
        &&& layer_stepped::<A>(
            s,
            g.layer,
            model.layer,
            self.moments(),
            next_model.layer,
            next.moments(),
        )
        &&& next.config == self.config
        &&& next.step == self.step + 1
        &&& next_model.config == model.config
        &&& next_model.max_seq_len == model.max_seq_len
    }

    pub fn new(config: AdamWConfig<A>, model: &AxiomSingleLayerModel<A>) -> (opt: Self)
        requires
            lawful::<A>(),
        ensures
            opt.config == config,
            opt.is_new(*model),
    {
        let (state_experts_up, state_experts_down) = expert_states(&model.layer);
        Self {
            config,
            step: 0,
            state_embed: ParameterState::new(model.embeddings.len()),
            state_pos_embed: ParameterState::new(model.pos_embeddings.len()),
            state_ws: ParameterState::new(model.layer.w_s.len()),
            state_w_gate: ParameterState::new(model.layer.w_gate.len()),
            state_experts_up,
            state_experts_down,
            state_w_pred: ParameterState::new(model.layer.w_pred.len()),
            state_w_decode: ParameterState::new(model.layer.w_decode.len()),
        }
    }

    /// Compute total gradient L2 norm across all model parameters.
    pub fn compute_grad_norm(&self, grads: &ModelGrads<A>) -> (norm: A::T)
        requires
            lawful::<A>(),
        ensures
            norm == norm_of::<A>(model_parts(grads@)),
    {
        let ghost none: Seq<Seq<A::T>> = Seq::empty();
        let mut sum = add_squares::<A>(A::lit(0, 0), grads.grad_embeddings.as_slice());
        proof {
            lemma_next_part::<A>(none, grads@.embeddings);
            lemma_next_part::<A>(none.push(grads@.embeddings), grads@.pos_embeddings);
        }
        sum = add_squares::<A>(sum, grads.grad_pos_embeddings.as_slice());
        let ghost front = none.push(grads@.embeddings).push(grads@.pos_embeddings);
        sum = add_layer_squares::<A>(sum, Ghost(front), &grads.layer_grads);
        assert(front + layer_parts(grads@.layer) =~= model_parts(grads@));
        A::sqrt(sum)
    }

    /// Step optimizer: update parameters using accumulated gradients.
    pub fn step(
        &mut self,
        model: &mut AxiomSingleLayerModel<A>,
        grads: &mut ModelGrads<A>,
        current_lr: A::T,
    )
        requires
            lawful::<A>(),
            old(model).wf(),
            old(self).fits(*old(model)),
            old(self).step < usize::MAX,
            old(grads)@.fits(old(model).config, old(model).max_seq_len as nat),
        ensures
            old(self).takes_to(*old(model), old(grads)@, current_lr, *final(self), *final(model)),
            final(self).fits(*final(model)),
            final(model).wf(),
            *final(grads) == *old(grads),
    {
        self.step = self.step + 1;
        let norm = self.compute_grad_norm(grads);
        let s = make_step::<A>(&self.config, norm, self.step, current_lr);
        // Update token and positional embeddings
        update_param::<A>(
            &s,
            model.embeddings.as_mut_slice(),
            grads.grad_embeddings.as_slice(),
            &mut self.state_embed,
        );
        update_param::<A>(
            &s,
            model.pos_embeddings.as_mut_slice(),
            grads.grad_pos_embeddings.as_slice(),
            &mut self.state_pos_embed,
        );
        // Update the layer
        update_layer::<A>(
            &s,
            &mut model.layer,
            &grads.layer_grads,
            &mut self.state_ws,
            &mut self.state_w_gate,
            &mut self.state_experts_up,
            &mut self.state_experts_down,
            &mut self.state_w_pred,
            &mut self.state_w_decode,
        );
    }
}

/// Stacked AdamW Optimizer tracking moments for all L layers and embeddings.
#[derive(Clone)]
pub struct StackedAdamW<A: Arith> {
    pub config: AdamWConfig<A>,
    pub step: usize,
    pub state_embed: ParameterState<A>,
    pub state_pos_embed: ParameterState<A>,
    pub state_ws: Vec<ParameterState<A>>,
    pub state_w_gate: Vec<ParameterState<A>>,
    pub state_experts_up: Vec<Vec<ParameterState<A>>>,
    pub state_experts_down: Vec<Vec<ParameterState<A>>>,
    pub state_w_pred: Vec<ParameterState<A>>,
    pub state_w_decode: Vec<ParameterState<A>>,
}

/// The buffers of the gradients of the first `n` layers, in the order in which their norm is
/// taken.
pub open spec fn parts_of_layers<T>(layers: Seq<LayerValues<T>>, n: nat) -> Seq<Seq<T>>
    decreases n,
{
    if n == 0 {
        Seq::empty()
    } else {
        parts_of_layers(layers, (n - 1) as nat) + layer_parts(layers[n - 1])
    }
}

/// The buffers of the gradients of a stacked model, in the order in which their norm is taken.
pub open spec fn stacked_parts<T>(g: StackedValues<T>) -> Seq<Seq<T>> {
    seq![g.embeddings, g.pos_embeddings] + parts_of_layers(g.layers, g.layers.len())
}

impl<A: Arith> StackedAdamW<A> {
    /// There are moments for this many layers.
    pub open spec fn has_layers(&self, n: nat) -> bool {
        &&& self.state_ws@.len() == n
        &&& self.state_w_gate@.len() == n
        &&& self.state_experts_up@.len() == n
        &&& self.state_experts_down@.len() == n
        &&& self.state_w_pred@.len() == n
        &&& self.state_w_decode@.len() == n
    }

    /// The moments of the parameters of layer `l`.
    pub open spec fn moments(&self, l: int) -> Moments<A> {
        Moments {
            ws: self.state_ws@[l],
            w_gate: self.state_w_gate@[l],
            up: self.state_experts_up@[l]@,
            down: self.state_experts_down@[l]@,
            w_pred: self.state_w_pred@[l],
            w_decode: self.state_w_decode@[l],
        }
    }

    /// The moments are those of the parameters of this model.
    pub open spec fn fits(&self, model: AxiomModel<A>) -> bool {
        &&& self.state_embed.fits(model.embeddings@.len())
        &&& self.state_pos_embed.fits(model.pos_embeddings@.len())
        &&& self.has_layers(model.layers@.len())
        &&& forall|l: int|
            0 <= l < model.layers@.len() ==> (#[trigger] self.moments(l)).fit(model.layers@[l])
    }

    /// The optimizer has taken no step with this model.
    pub open spec fn is_new(&self, model: AxiomModel<A>) -> bool {
        &&& self.step == 0
        &&& self.fits(model)
        &&& fresh(self.state_embed, model.embeddings@.len())
        &&& fresh(self.state_pos_embed, model.pos_embeddings@.len())
        &&& forall|l: int|
            0 <= l < model.layers@.len() ==> (#[trigger] self.moments(l)).are_fresh(
                model.layers@[l],
            )
    }

    /// What a step with these gradients makes of the optimizer and the model.
    pub open spec fn takes_to(
        &self,
        model: AxiomModel<A>,
        g: StackedValues<A::T>,
        current_lr: A::T,
        next: StackedAdamW<A>,
        next_model: AxiomModel<A>,
    ) -> bool {
        let s = adam_step_of::<A>(
            self.config,
            norm_of::<A>(stacked_parts(g)),
            (self.step + 1) as usize,
            current_lr,
        );
        &&& stepped::<A>(
            s,
            g.embeddings,
            model.embeddings@,
            self.state_embed,
            next_model.embeddings@,
            next.state_embed,
        )
        &&& stepped::<A>(
            s,
            g.pos_embeddings,
            model.pos_embeddings@,
            self.state_pos_embed,
            next_model.pos_embeddings@,
            next.state_pos_embed,
        )
        &&& forall|l: int|
            0 <= l < model.layers@.len() ==> layer_stepped::<A>(
                s,
                g.layers[l],
                model.layers@[l],
                self.moments(l),
                #[trigger] next_model.layers@[l],
                next.moments(l),
            )
        &&& next.config == self.config
        &&& next.step == self.step + 1
        &&& next_model.config == model.config
        &&& next_model.max_seq_len == model.max_seq_len
    }

    pub fn new(config: AdamWConfig<A>, model: &AxiomModel<A>) -> (opt: Self)
        requires
            lawful::<A>(),
        ensures
            opt.config == config,
            opt.is_new(*model),
    {
        let mut opt = Self {
            config,
            step: 0,
            state_embed: ParameterState::new(model.embeddings.len()),
            state_pos_embed: ParameterState::new(model.pos_embeddings.len()),
            state_ws: Vec::new(),
            state_w_gate: Vec::new(),
            state_experts_up: Vec::new(),
            state_experts_down: Vec::new(),
            state_w_pred: Vec::new(),
            state_w_decode: Vec::new(),
        };
        let mut l: usize = 0;
        while l < model.layers.len()
            invariant
                lawful::<A>(),
                l <= model.layers@.len(),
                opt.config == config,
                opt.step == 0,
                opt.state_embed.fits(model.embeddings@.len()),
                opt.state_pos_embed.fits(model.pos_embeddings@.len()),
                fresh(opt.state_embed, model.embeddings@.len()),
                fresh(opt.state_pos_embed, model.pos_embeddings@.len()),
                opt.has_layers(l as nat),
                forall|j: int|
                    0 <= j < l ==> (#[trigger] opt.moments(j)).are_fresh(model.layers@[j]),
            decreases model.layers@.len() - l,
        {
            let ghost before = opt;
            let layer = &model.layers[l];
            let (up, down) = expert_states(layer);
            opt.state_ws.push(ParameterState::new(layer.w_s.len()));
            opt.state_w_gate.push(ParameterState::new(layer.w_gate.len()));
            opt.state_experts_up.push(up);
            opt.state_experts_down.push(down);
            opt.state_w_pred.push(ParameterState::new(layer.w_pred.len()));
            opt.state_w_decode.push(ParameterState::new(layer.w_decode.len()));
            assert forall|j: int| 0 <= j < l + 1 implies (#[trigger] opt.moments(j)).are_fresh(
                model.layers@[j],
            ) by {
                if j < l {
                    assert(opt.moments(j) == before.moments(j));
                }
            }
            l += 1;
        }
        opt
    }

    pub fn compute_grad_norm(&self, grads: &StackedModelGrads<A>) -> (norm: A::T)
        requires
            lawful::<A>(),
        ensures
            norm == norm_of::<A>(stacked_parts(grads@)),
    {
        let ghost none: Seq<Seq<A::T>> = Seq::empty();
        let mut sum = add_squares::<A>(A::lit(0, 0), grads.grad_embeddings.as_slice());
        proof {
            lemma_next_part::<A>(none, grads@.embeddings);
            lemma_next_part::<A>(none.push(grads@.embeddings), grads@.pos_embeddings);
        }
        sum = add_squares::<A>(sum, grads.grad_pos_embeddings.as_slice());
        let ghost front = none.push(grads@.embeddings).push(grads@.pos_embeddings);
        assert(front =~= front + parts_of_layers(grads@.layers, 0));
        let mut l: usize = 0;
        while l < grads.layer_grads.len()
            invariant
                lawful::<A>(),
                l <= grads.layer_grads@.len(),
                sum == sum_of_all_squares::<A>(front + parts_of_layers(grads@.layers, l as nat)),
            decreases grads.layer_grads@.len() - l,
        {
            let ghost shown = front + parts_of_layers(grads@.layers, l as nat);
            assert(grads@.layers[l as int] == grads.layer_grads@[l as int]@);
            sum = add_layer_squares::<A>(sum, Ghost(shown), &grads.layer_grads[l]);
            assert(shown + layer_parts(grads@.layers[l as int]) =~= front + parts_of_layers(
                grads@.layers,
                (l + 1) as nat,
            ));
            l += 1;
        }
        assert(front + parts_of_layers(grads@.layers, l as nat) =~= stacked_parts(grads@));
        A::sqrt(sum)
    }

    /// Step optimizer: update parameters using accumulated gradients.
    pub fn step(
        &mut self,
        model: &mut AxiomModel<A>,
        grads: &mut StackedModelGrads<A>,
        current_lr: A::T,
    )
        requires
            lawful::<A>(),
            old(model).wf(),
            old(self).fits(*old(model)),
            old(self).step < usize::MAX,
            old(grads)@.fits(old(model).config, old(model).max_seq_len as nat),
        ensures
            old(self).takes_to(*old(model), old(grads)@, current_lr, *final(self), *final(model)),
            final(self).fits(*final(model)),
            final(model).wf(),
            *final(grads) == *old(grads),
    {
        let ghost model0 = *model;
        let ghost opt0 = *self;
        let ghost g = grads@;
        self.step = self.step + 1;
        let norm = self.compute_grad_norm(grads);
        let s = make_step::<A>(&self.config, norm, self.step, current_lr);
        update_param::<A>(
            &s,
            model.embeddings.as_mut_slice(),
            grads.grad_embeddings.as_slice(),
            &mut self.state_embed,
        );
        update_param::<A>(
            &s,
            model.pos_embeddings.as_mut_slice(),
            grads.grad_pos_embeddings.as_slice(),
            &mut self.state_pos_embed,
        );
        let ghost embed1 = *self;
        let ghost model1 = *model;
        let mut l: usize = 0;
        while l < model.layers.len()
            invariant
                lawful::<A>(),
                l <= model.layers@.len(),
                model0.wf(),
                opt0.fits(model0),
                grads@ == g,
                *grads == *old(grads),
                g.fits(model0.config, model0.max_seq_len as nat),
                model.config == model0.config,
                model.max_seq_len == model0.max_seq_len,
                model.embeddings@ == model1.embeddings@,
                model.pos_embeddings@ == model1.pos_embeddings@,
                model.layers@.len() == model0.layers@.len(),
                self.config == opt0.config,
                self.step == opt0.step + 1,
                self.state_embed == embed1.state_embed,
                self.state_pos_embed == embed1.state_pos_embed,
                self.has_layers(model0.layers@.len()),
                forall|j: int|
                    0 <= j < l ==> layer_stepped::<A>(
                        s,
                        g.layers[j],
                        model0.layers@[j],
                        opt0.moments(j),
                        #[trigger] model.layers@[j],
                        self.moments(j),
                    ) && self.moments(j).fit(model.layers@[j]) && model.layers@[j].wf(),
                forall|j: int|
                    l <= j < model0.layers@.len() ==> #[trigger] model.layers@[j]
                        == model0.layers@[j],
                forall|j: int|
                    l <= j < model0.layers@.len() ==> #[trigger] self.moments(j) == opt0.moments(j),
            decreases model.layers@.len() - l,
        {
            let ghost before = *self;
            assert(model.layers@[l as int] == model0.layers@[l as int]);
            assert(self.moments(l as int) == opt0.moments(l as int));
            assert(model0.layers@[l as int].wf());
            assert(opt0.moments(l as int).fit(model0.layers@[l as int]));
            assert(g.layers[l as int] == grads.layer_grads@[l as int]@);
            assert(g.layers[l as int].fits(model0.config));
            update_layer::<A>(
                &s,
                &mut model.layers[l],
                &grads.layer_grads[l],
                &mut self.state_ws[l],
                &mut self.state_w_gate[l],
                &mut self.state_experts_up[l],
                &mut self.state_experts_down[l],
                &mut self.state_w_pred[l],
                &mut self.state_w_decode[l],
            );
            proof {
                assert forall|j: int| 0 <= j < model0.layers@.len() && j != l implies
                    #[trigger] self.moments(j) == before.moments(j) by {}
            }
            l += 1;
        }
        proof {
            assert forall|j: int| 0 <= j < model.layers@.len() implies (
            #[trigger] model.layers@[j]).wf() && model.layers@[j].config == model.config by {
                assert(model0.layers@[j].config == model0.config);
            }
            assert forall|j: int| 0 <= j < model.layers@.len() implies (
            #[trigger] self.moments(j)).fit(model.layers@[j]) by {
                assert(model.layers@[j].wf());
            }
        }
    }
}

} // verus!
