//! What the optimizers do to every weight of a model over a whole run, in exact numbers: gradients
//! that stay the same are followed from the first step on, however many buffers there are.

use vstd::prelude::*;
use crate::arith::Arith;
use crate::exact::{exact, lemma_neutral, lemma_zero_one};
use crate::forge_model::{ForgeGradValues, ForgeModelValues};
use crate::forge_trainer::{AdamWState, ForgeAdam, ForgeBlockAdam, ForgeGradSet};
use crate::gru::{GruModel, GruValues};
use crate::gru_trainer::{GruAdamW, gru_parts};
use crate::layer::{AxiomLayer, LayerValues};
use crate::model::{AxiomSingleLayerModel, ModelValues};
use crate::optimizer::{
    AdamW, AdamWConfig, Moments, ParameterState, StackedAdamW, adam_ms, adam_ps, adam_step_of,
    adam_vs, clip_of, expert_stepped, layer_stepped, model_parts, norm_of, stacked_parts,
};
use crate::stacked_model::{AxiomModel, StackedValues};
use crate::tensor::zeros;
use crate::training_laws::{
    forge_follows_steady_gradients, power, powers_are_exact, size_of, steady_gradients_are_followed,
};

verus! {

/// The decay rates are fractions, and nothing is divided by zero.
pub open spec fn is_sound<A: Arith>(num: spec_fn(A::T) -> real, config: AdamWConfig<A>) -> bool {
    &&& 0real <= num(config.beta1) < 1real
    &&& 0real <= num(config.beta2) < 1real
    &&& num(config.eps) > 0real
}

/// The moments are those that `t` steps with the gradients `g`, times `clip`, leave behind.
pub open spec fn is_steady<A: Arith>(
    num: spec_fn(A::T) -> real,
    config: AdamWConfig<A>,
    clip: real,
    m: Seq<A::T>,
    v: Seq<A::T>,
    g: Seq<A::T>,
    t: nat,
) -> bool {
    &&& m.len() == v.len()
    &&& forall|i: int|
        #![trigger m[i]]
        #![trigger v[i]]
        0 <= i < m.len() ==> num(m[i]) == (1real - power(num(config.beta1), t)) * (num(g[i]) * clip)
            && num(v[i]) == (1real - power(num(config.beta2), t)) * ((num(g[i]) * clip) * (num(
            g[i],
        ) * clip))
}

/// Every parameter has moved by the learning rate times its gradient over its size, and by the
/// decay.
pub open spec fn has_followed<A: Arith>(
    num: spec_fn(A::T) -> real,
    config: AdamWConfig<A>,
    clip: real,
    lr: A::T,
    before: Seq<A::T>,
    after: Seq<A::T>,
    g: Seq<A::T>,
) -> bool {
    &&& after.len() == before.len()
    &&& forall|i: int|
        0 <= i < before.len() ==> num(#[trigger] after[i]) == num(before[i]) - num(lr) * ((num(g[i])
            * clip) / (size_of(num(g[i]) * clip) + num(config.eps)) + num(config.weight_decay)
            * num(before[i]))
}

/// One step of one buffer.
proof fn lemma_buffer<A: Arith>(
    num: spec_fn(A::T) -> real,
    config: AdamWConfig<A>,
    norm: A::T,
    t: usize,
    lr: A::T,
    p: Seq<A::T>,
    g: Seq<A::T>,
    m: Seq<A::T>,
    v: Seq<A::T>,
)
    requires
        exact::<A>(num),
        powers_are_exact::<A>(num),
        is_sound::<A>(num, config),
        t > 0,
        m.len() == p.len(),
        is_steady::<A>(
            num,
            config,
            num(clip_of::<A>(norm, config.max_grad_norm)),
            m,
            v,
            g,
            (t - 1) as nat,
        ),
    ensures
        ({
            let s = adam_step_of::<A>(config, norm, t, lr);
            let clip = num(clip_of::<A>(norm, config.max_grad_norm));
            &&& is_steady::<A>(
                num,
                config,
                clip,
                adam_ms::<A>(s, g, m),
                adam_vs::<A>(s, g, v),
                g,
                t as nat,
            )
            &&& has_followed::<A>(num, config, clip, lr, p, adam_ps::<A>(s, p, g, m, v), g)
        }),
{
    let s = adam_step_of::<A>(config, norm, t, lr);
    let clip = num(clip_of::<A>(norm, config.max_grad_norm));
    let (m1, v1, p1) = (
        adam_ms::<A>(s, g, m),
        adam_vs::<A>(s, g, v),
        adam_ps::<A>(s, p, g, m, v),
    );
    assert forall|i: int|
        #![trigger m1[i]]
        #![trigger v1[i]]
        0 <= i < m1.len() implies num(m1[i]) == (1real - power(num(config.beta1), t as nat)) * (num(
        g[i],
    ) * clip) && num(v1[i]) == (1real - power(num(config.beta2), t as nat)) * ((num(g[i]) * clip)
        * (num(g[i]) * clip)) by {
        assert(num(m[i]) == (1real - power(num(config.beta1), (t - 1) as nat)) * (num(g[i])
            * clip));
        steady_gradients_are_followed::<A>(num, config, norm, t, lr, p[i], g[i], m[i], v[i]);
    }
    assert forall|i: int| 0 <= i < p.len() implies num(#[trigger] p1[i]) == num(p[i]) - num(lr) * ((
    num(g[i]) * clip) / (size_of(num(g[i]) * clip) + num(config.eps)) + num(config.weight_decay)
        * num(p[i])) by {
        assert(num(m[i]) == (1real - power(num(config.beta1), (t - 1) as nat)) * (num(g[i])
            * clip));
        steady_gradients_are_followed::<A>(num, config, norm, t, lr, p[i], g[i], m[i], v[i]);
    }
}

/// A buffer of moments is steady.
pub open spec fn state_is_steady<A: Arith>(
    num: spec_fn(A::T) -> real,
    config: AdamWConfig<A>,
    clip: real,
    state: ParameterState<A>,
    g: Seq<A::T>,
    t: nat,
) -> bool {
    is_steady::<A>(num, config, clip, state.m@, state.v@, g, t)
}

/// The moments of a layer are steady.
pub open spec fn layer_is_steady<A: Arith>(
    num: spec_fn(A::T) -> real,
    config: AdamWConfig<A>,
    clip: real,
    m: Moments<A>,
    g: LayerValues<A::T>,
    t: nat,
) -> bool {
    &&& state_is_steady::<A>(num, config, clip, m.ws, g.w_s, t)
    &&& state_is_steady::<A>(num, config, clip, m.w_gate, g.w_gate, t)
    &&& forall|e: int|
        0 <= e < m.up.len() ==> state_is_steady::<A>(
            num,
            config,
            clip,
            #[trigger] m.up[e],
            g.experts[e].up,
            t,
        )
    &&& forall|e: int|
        0 <= e < m.down.len() ==> state_is_steady::<A>(
            num,
            config,
            clip,
            #[trigger] m.down[e],
            g.experts[e].down,
            t,
        )
    &&& state_is_steady::<A>(num, config, clip, m.w_pred, g.w_pred, t)
    &&& state_is_steady::<A>(num, config, clip, m.w_decode, g.w_decode, t)
}

/// The weights of a layer have followed their gradients.
pub open spec fn layer_has_followed<A: Arith>(
    num: spec_fn(A::T) -> real,
    config: AdamWConfig<A>,
    clip: real,
    lr: A::T,
    before: AxiomLayer<A>,
    after: AxiomLayer<A>,
    g: LayerValues<A::T>,
) -> bool {
    &&& has_followed::<A>(num, config, clip, lr, before.w_s@, after.w_s@, g.w_s)
    &&& has_followed::<A>(num, config, clip, lr, before.w_gate@, after.w_gate@, g.w_gate)
    &&& after.experts@.len() == before.experts@.len()
    &&& forall|e: int|
        0 <= e < before.experts@.len() ==> has_followed::<A>(
            num,
            config,
            clip,
            lr,
            before.experts@[e].w_up@,
            (#[trigger] after.experts@[e]).w_up@,
            g.experts[e].up,
        ) && has_followed::<A>(
            num,
            config,
            clip,
            lr,
            before.experts@[e].w_down@,
            after.experts@[e].w_down@,
            g.experts[e].down,
        )
    &&& has_followed::<A>(num, config, clip, lr, before.w_pred@, after.w_pred@, g.w_pred)
    &&& has_followed::<A>(num, config, clip, lr, before.w_decode@, after.w_decode@, g.w_decode)
}

/// One step of one layer.
#[verifier::rlimit(30)]
#[verifier::spinoff_prover]
proof fn lemma_layer<A: Arith>(
    num: spec_fn(A::T) -> real,
    config: AdamWConfig<A>,
    norm: A::T,
    t: usize,
    lr: A::T,
    g: LayerValues<A::T>,
    before: AxiomLayer<A>,
    m0: Moments<A>,
    after: AxiomLayer<A>,
    m1: Moments<A>,
)
    requires
        exact::<A>(num),
        powers_are_exact::<A>(num),
        is_sound::<A>(num, config),
        t > 0,
        m0.fit(before),
        m1.up.len() == m0.up.len(),
        m1.down.len() == m0.down.len(),
        layer_is_steady::<A>(
            num,
            config,
            num(clip_of::<A>(norm, config.max_grad_norm)),
            m0,
            g,
            (t - 1) as nat,
        ),
        layer_stepped::<A>(
            adam_step_of::<A>(config, norm, t, lr),
            g,
            before,
            m0,
            after,
            m1,
        ),
    ensures
        ({
            let clip = num(clip_of::<A>(norm, config.max_grad_norm));
            &&& layer_is_steady::<A>(num, config, clip, m1, g, t as nat)
            &&& layer_has_followed::<A>(num, config, clip, lr, before, after, g)
        }),
{
    let clip = num(clip_of::<A>(norm, config.max_grad_norm));
    lemma_buffer::<A>(num, config, norm, t, lr, before.w_s@, g.w_s, m0.ws.m@, m0.ws.v@);
    lemma_buffer::<A>(
        num,
        config,
        norm,
        t,
        lr,
        before.w_gate@,
        g.w_gate,
        m0.w_gate.m@,
        m0.w_gate.v@,
    );
    lemma_buffer::<A>(
        num,
        config,
        norm,
        t,
        lr,
        before.w_pred@,
        g.w_pred,
        m0.w_pred.m@,
        m0.w_pred.v@,
    );
    lemma_buffer::<A>(
        num,
        config,
        norm,
        t,
        lr,
        before.w_decode@,
        g.w_decode,
        m0.w_decode.m@,
        m0.w_decode.v@,
    );
    assert forall|e: int| 0 <= e < before.experts@.len() implies state_is_steady::<A>(
        num,
        config,
        clip,
        m1.up[e],
        g.experts[e].up,
        t as nat,
    ) && state_is_steady::<A>(num, config, clip, m1.down[e], g.experts[e].down, t as nat)
        && has_followed::<A>(
        num,
        config,
        clip,
        lr,
        before.experts@[e].w_up@,
        (#[trigger] after.experts@[e]).w_up@,
        g.experts[e].up,
    ) && has_followed::<A>(
        num,
        config,
        clip,
        lr,
        before.experts@[e].w_down@,
        after.experts@[e].w_down@,
        g.experts[e].down,
    ) by {
        let (up, down) = (m0.up[e], m0.down[e]);
        assert(expert_stepped::<A>(
            adam_step_of::<A>(config, norm, t, lr),
            g.experts[e],
            before.experts@[e],
            up,
            down,
            after.experts@[e],
            m1.up[e],
            m1.down[e],
        ));
        assert(up.fits(before.experts@[e].w_up@.len()));
        assert(down.fits(before.experts@[e].w_down@.len()));
        lemma_buffer::<A>(
            num,
            config,
            norm,
            t,
            lr,
            before.experts@[e].w_up@,
            g.experts[e].up,
            up.m@,
            up.v@,
        );
        lemma_buffer::<A>(
            num,
            config,
            norm,
            t,
            lr,
            before.experts@[e].w_down@,
            g.experts[e].down,
            down.m@,
            down.v@,
        );
    }
    assert forall|e: int| 0 <= e < m1.up.len() implies state_is_steady::<A>(
        num,
        config,
        clip,
        #[trigger] m1.up[e],
        g.experts[e].up,
        t as nat,
    ) by {
        let expert = after.experts@[e];
    }
    assert forall|e: int| 0 <= e < m1.down.len() implies state_is_steady::<A>(
        num,
        config,
        clip,
        #[trigger] m1.down[e],
        g.experts[e].down,
        t as nat,
    ) by {
        let expert = after.experts@[e];
    }
}

/// The optimizer of the single-layer model follows gradients that stay the same: where its moments
/// are those of its steps so far, so are they after one more, and every weight has moved by the
/// learning rate times its clipped gradient over its size, and by the decay.
pub proof fn the_optimizer_follows<A: Arith>(
    num: spec_fn(A::T) -> real,
    optimizer: AdamW<A>,
    model: AxiomSingleLayerModel<A>,
    g: ModelValues<A::T>,
    lr: A::T,
    next: AdamW<A>,
    next_model: AxiomSingleLayerModel<A>,
)
    requires
        exact::<A>(num),
        powers_are_exact::<A>(num),
        is_sound::<A>(num, optimizer.config),
        optimizer.step < usize::MAX,
        optimizer.fits(model),
        next.fits(next_model),
        optimizer.takes_to(model, g, lr, next, next_model),
        ({
            let clip = num(
                clip_of::<A>(norm_of::<A>(model_parts(g)), optimizer.config.max_grad_norm),
            );
            let (c, t) = (optimizer.config, optimizer.step as nat);
            &&& state_is_steady::<A>(num, c, clip, optimizer.state_embed, g.embeddings, t)
            &&& state_is_steady::<A>(num, c, clip, optimizer.state_pos_embed, g.pos_embeddings, t)
            &&& layer_is_steady::<A>(num, c, clip, optimizer.moments(), g.layer, t)
        }),
    ensures
        ({
            let clip = num(
                clip_of::<A>(norm_of::<A>(model_parts(g)), optimizer.config.max_grad_norm),
            );
            let (c, t) = (optimizer.config, next.step as nat);
            &&& t == optimizer.step + 1
            &&& state_is_steady::<A>(num, c, clip, next.state_embed, g.embeddings, t)
            &&& state_is_steady::<A>(num, c, clip, next.state_pos_embed, g.pos_embeddings, t)
            &&& layer_is_steady::<A>(num, c, clip, next.moments(), g.layer, t)
            &&& has_followed::<A>(
                num,
                c,
                clip,
                lr,
                model.embeddings@,
                next_model.embeddings@,
                g.embeddings,
            )
            &&& has_followed::<A>(
                num,
                c,
                clip,
                lr,
                model.pos_embeddings@,
                next_model.pos_embeddings@,
                g.pos_embeddings,
            )
            &&& layer_has_followed::<A>(
                num,
                c,
                clip,
                lr,
                model.layer,
                next_model.layer,
                g.layer,
            )
        }),
{
    let norm = norm_of::<A>(model_parts(g));
    let (c, t) = (optimizer.config, (optimizer.step + 1) as usize);
    let (e, p) = (optimizer.state_embed, optimizer.state_pos_embed);
    lemma_buffer::<A>(num, c, norm, t, lr, model.embeddings@, g.embeddings, e.m@, e.v@);
    lemma_buffer::<A>(num, c, norm, t, lr, model.pos_embeddings@, g.pos_embeddings, p.m@, p.v@);
    lemma_layer::<A>(
        num,
        c,
        norm,
        t,
        lr,
        g.layer,
        model.layer,
        optimizer.moments(),
        next_model.layer,
        next.moments(),
    );
}

/// The same of the optimizer of the stacked model, in all its layers.
pub proof fn the_stacked_optimizer_follows<A: Arith>(
    num: spec_fn(A::T) -> real,
    optimizer: StackedAdamW<A>,
    model: AxiomModel<A>,
    g: StackedValues<A::T>,
    lr: A::T,
    next: StackedAdamW<A>,
    next_model: AxiomModel<A>,
    l: int,
)
    requires
        exact::<A>(num),
        powers_are_exact::<A>(num),
        is_sound::<A>(num, optimizer.config),
        optimizer.step < usize::MAX,
        optimizer.fits(model),
        next.fits(next_model),
        next_model.layers@.len() == model.layers@.len(),
        optimizer.takes_to(model, g, lr, next, next_model),
        0 <= l < model.layers@.len(),
        ({
            let clip = num(
                clip_of::<A>(norm_of::<A>(stacked_parts(g)), optimizer.config.max_grad_norm),
            );
            let (c, t) = (optimizer.config, optimizer.step as nat);
            &&& state_is_steady::<A>(num, c, clip, optimizer.state_embed, g.embeddings, t)
            &&& state_is_steady::<A>(num, c, clip, optimizer.state_pos_embed, g.pos_embeddings, t)
            &&& layer_is_steady::<A>(num, c, clip, optimizer.moments(l), g.layers[l], t)
        }),
    ensures
        ({
            let clip = num(
                clip_of::<A>(norm_of::<A>(stacked_parts(g)), optimizer.config.max_grad_norm),
            );
            let (c, t) = (optimizer.config, next.step as nat);
            &&& t == optimizer.step + 1
            &&& state_is_steady::<A>(num, c, clip, next.state_embed, g.embeddings, t)
            &&& state_is_steady::<A>(num, c, clip, next.state_pos_embed, g.pos_embeddings, t)
            &&& layer_is_steady::<A>(num, c, clip, next.moments(l), g.layers[l], t)
            &&& has_followed::<A>(
                num,
                c,
                clip,
                lr,
                model.embeddings@,
                next_model.embeddings@,
                g.embeddings,
            )
            &&& has_followed::<A>(
                num,
                c,
                clip,
                lr,
                model.pos_embeddings@,
                next_model.pos_embeddings@,
                g.pos_embeddings,
            )
            &&& layer_has_followed::<A>(
                num,
                c,
                clip,
                lr,
                model.layers@[l],
                next_model.layers@[l],
                g.layers[l],
            )
        }),
{
    let norm = norm_of::<A>(stacked_parts(g));
    let (c, t) = (optimizer.config, (optimizer.step + 1) as usize);
    let (e, p) = (optimizer.state_embed, optimizer.state_pos_embed);
    lemma_buffer::<A>(num, c, norm, t, lr, model.embeddings@, g.embeddings, e.m@, e.v@);
    lemma_buffer::<A>(num, c, norm, t, lr, model.pos_embeddings@, g.pos_embeddings, p.m@, p.v@);
    assert(optimizer.moments(l).fit(model.layers@[l]));
    assert(next.moments(l).fit(next_model.layers@[l]));
    let layer = next_model.layers@[l];
    lemma_layer::<A>(
        num,
        c,
        norm,
        t,
        lr,
        g.layers[l],
        model.layers@[l],
        optimizer.moments(l),
        layer,
        next.moments(l),
    );
}

/// The moments of the GRU are steady.
pub open spec fn gru_is_steady<A: Arith>(
    num: spec_fn(A::T) -> real,
    config: AdamWConfig<A>,
    clip: real,
    m: GruValues<A::T>,
    v: GruValues<A::T>,
    g: GruValues<A::T>,
    t: nat,
) -> bool {
    &&& is_steady::<A>(num, config, clip, m.embeddings, v.embeddings, g.embeddings, t)
    &&& is_steady::<A>(num, config, clip, m.gate, v.gate, g.gate, t)
    &&& is_steady::<A>(num, config, clip, m.cand, v.cand, g.cand, t)
    &&& is_steady::<A>(num, config, clip, m.head, v.head, g.head, t)
}

/// The same of the optimizer of the GRU.
pub proof fn the_gru_optimizer_follows<A: Arith>(
    num: spec_fn(A::T) -> real,
    optimizer: GruAdamW<A>,
    model: GruModel<A>,
    g: GruValues<A::T>,
    lr: A::T,
    next: GruAdamW<A>,
    next_model: GruModel<A>,
)
    requires
        exact::<A>(num),
        powers_are_exact::<A>(num),
        is_sound::<A>(num, optimizer.config()),
        optimizer.step < usize::MAX,
        optimizer.fits(model),
        optimizer.takes_to(model, g, lr, next, next_model),
        gru_is_steady::<A>(
            num,
            optimizer.config(),
            num(clip_of::<A>(norm_of::<A>(gru_parts(g)), optimizer.config().max_grad_norm)),
            optimizer.first(),
            optimizer.second(),
            g,
            optimizer.step as nat,
        ),
    ensures
        ({
            let c = optimizer.config();
            let clip = num(clip_of::<A>(norm_of::<A>(gru_parts(g)), c.max_grad_norm));
            let (before, after) = (model.values(), next_model.values());
            &&& next.step == optimizer.step + 1
            &&& gru_is_steady::<A>(num, c, clip, next.first(), next.second(), g, next.step as nat)
            &&& has_followed::<A>(
                num,
                c,
                clip,
                lr,
                before.embeddings,
                after.embeddings,
                g.embeddings,
            )
            &&& has_followed::<A>(num, c, clip, lr, before.gate, after.gate, g.gate)
            &&& has_followed::<A>(num, c, clip, lr, before.cand, after.cand, g.cand)
            &&& has_followed::<A>(num, c, clip, lr, before.head, after.head, g.head)
        }),
{
    let norm = norm_of::<A>(gru_parts(g));
    let (c, t) = (optimizer.config(), (optimizer.step + 1) as usize);
    let (m, v, p) = (optimizer.first(), optimizer.second(), model.values());
    lemma_buffer::<A>(num, c, norm, t, lr, p.embeddings, g.embeddings, m.embeddings, v.embeddings);
    lemma_buffer::<A>(num, c, norm, t, lr, p.gate, g.gate, m.gate, v.gate);
    lemma_buffer::<A>(num, c, norm, t, lr, p.cand, g.cand, m.cand, v.cand);
    lemma_buffer::<A>(num, c, norm, t, lr, p.head, g.head, m.head, v.head);
}

/// Moments that are all zero are those of no steps.
pub proof fn fresh_moments_are_steady<A: Arith>(
    num: spec_fn(A::T) -> real,
    config: AdamWConfig<A>,
    clip: real,
    g: Seq<A::T>,
    n: nat,
)
    requires
        exact::<A>(num),
    ensures
        is_steady::<A>(num, config, clip, zeros::<A>(n), zeros::<A>(n), g, 0),
{
    lemma_zero_one::<A>(num);
    let z = zeros::<A>(n);
    assert forall|i: int| #![trigger z[i]] 0 <= i < n implies num(z[i]) == (1real - power(
        num(config.beta1),
        0,
    )) * (num(g[i]) * clip) && num(z[i]) == (1real - power(num(config.beta2), 0)) * ((num(g[i])
        * clip) * (num(g[i]) * clip)) by {
        lemma_neutral(num(g[i]) * clip);
        lemma_neutral((num(g[i]) * clip) * (num(g[i]) * clip));
    }
}

/// A buffer of the FORGE optimizer is steady at its own step.
pub open spec fn forge_is_steady<A: Arith>(
    num: spec_fn(A::T) -> real,
    s: AdamWState<A>,
    g: Seq<A::T>,
) -> bool {
    &&& 0real <= num(s.beta1) < 1real
    &&& 0real <= num(s.beta2) < 1real
    &&& num(s.eps) > 0real
    &&& s.step < usize::MAX
    &&& s.m@.len() == g.len()
    &&& s.v@.len() == g.len()
    &&& forall|i: int|
        #![trigger s.m@[i]]
        #![trigger s.v@[i]]
        0 <= i < g.len() ==> num(s.m@[i]) == (1real - power(num(s.beta1), s.step as nat)) * num(
            g[i],
        ) && num(s.v@[i]) == (1real - power(num(s.beta2), s.step as nat)) * (num(g[i]) * num(g[i]))
}

/// The parameters of a FORGE buffer have followed their gradients.
pub open spec fn forge_has_followed<A: Arith>(
    num: spec_fn(A::T) -> real,
    s: AdamWState<A>,
    lr: A::T,
    before: Seq<A::T>,
    after: Seq<A::T>,
    g: Seq<A::T>,
) -> bool {
    &&& after.len() == before.len()
    &&& forall|i: int|
        0 <= i < before.len() ==> num(#[trigger] after[i]) == num(before[i]) - num(lr) * (num(g[i])
            / (size_of(num(g[i])) + num(s.eps)) + num(s.weight_decay) * num(before[i]))
}

/// One step of one buffer of the FORGE optimizer.
proof fn lemma_forge_buffer<A: Arith>(
    num: spec_fn(A::T) -> real,
    s: AdamWState<A>,
    p: Seq<A::T>,
    g: Seq<A::T>,
    lr: A::T,
    next: AdamWState<A>,
    next_p: Seq<A::T>,
)
    requires
        exact::<A>(num),
        powers_are_exact::<A>(num),
        forge_is_steady::<A>(num, s, g),
        p.len() == g.len(),
        s.takes_to(p, g, lr, next, next_p),
    ensures
        next.step < usize::MAX ==> forge_is_steady::<A>(num, next, g),
        forge_has_followed::<A>(num, s, lr, p, next_p, g),
{
    assert forall|i: int| 0 <= i < g.len() implies num(next.m@[i]) == (1real - power(
        num(s.beta1),
        (s.step + 1) as nat,
    )) * num(g[i]) && num(next.v@[i]) == (1real - power(num(s.beta2), (s.step + 1) as nat)) * (num(
        g[i],
    ) * num(g[i])) && num(#[trigger] next_p[i]) == num(p[i]) - num(lr) * (num(g[i]) / (size_of(
        num(g[i]),
    ) + num(s.eps)) + num(s.weight_decay) * num(p[i])) by {
        assert(num(s.m@[i]) == (1real - power(num(s.beta1), s.step as nat)) * num(g[i]));
        forge_follows_steady_gradients::<A>(num, s, p[i], g[i], lr, i);
    }
    if next.step < usize::MAX {
        assert forall|i: int|
            #![trigger next.m@[i]]
            #![trigger next.v@[i]]
            0 <= i < g.len() implies num(next.m@[i]) == (1real - power(
            num(next.beta1),
            next.step as nat,
        )) * num(g[i]) && num(next.v@[i]) == (1real - power(num(next.beta2), next.step as nat)) * (
        num(g[i]) * num(g[i])) by {
            let x = next_p[i];
        }
    }
}

/// The moments of a FORGE block are steady.
pub open spec fn block_is_steady<A: Arith>(
    num: spec_fn(A::T) -> real,
    s: ForgeBlockAdam<A>,
    g: ForgeGradValues<A::T>,
) -> bool {
    &&& forge_is_steady::<A>(num, s.w1, g.w1)
    &&& forge_is_steady::<A>(num, s.w1u, g.w1u)
    &&& forge_is_steady::<A>(num, s.w2, g.w2)
    &&& forge_is_steady::<A>(num, s.wq, g.wq)
    &&& forge_is_steady::<A>(num, s.wk, g.wk)
    &&& forge_is_steady::<A>(num, s.wv, g.wv)
    &&& forge_is_steady::<A>(num, s.wo, g.wo)
}

/// The optimizer of FORGE follows gradients that stay the same, in the embeddings, in the head and
/// in every block: every weight moves by the learning rate times its gradient over its size, and by
/// the decay.
pub proof fn the_forge_optimizer_follows<A: Arith>(
    num: spec_fn(A::T) -> real,
    optimizer: ForgeAdam<A>,
    model: ForgeModelValues<A>,
    g: ForgeGradSet<A::T>,
    lr: A::T,
    next: ForgeAdam<A>,
    next_model: ForgeModelValues<A>,
    l: int,
)
    requires
        exact::<A>(num),
        powers_are_exact::<A>(num),
        optimizer.takes_to(model, g, lr, next, next_model),
        model.embeddings.len() == g.embed.len(),
        model.pos_embed.len() == g.pos_embed.len(),
        model.head.len() == g.head.len(),
        forge_is_steady::<A>(num, optimizer.embed, g.embed),
        forge_is_steady::<A>(num, optimizer.pos_embed, g.pos_embed),
        forge_is_steady::<A>(num, optimizer.head, g.head),
        0 <= l < model.blocks.len(),
        model.blocks[l].wf(),
        g.blocks[l].fits(model.blocks[l].d, model.blocks[l].d_ff),
        block_is_steady::<A>(num, optimizer.blocks@[l], g.blocks[l]),
    ensures
        forge_has_followed::<A>(
            num,
            optimizer.embed,
            lr,
            model.embeddings,
            next_model.embeddings,
            g.embed,
        ),
        forge_has_followed::<A>(
            num,
            optimizer.pos_embed,
            lr,
            model.pos_embed,
            next_model.pos_embed,
            g.pos_embed,
        ),
        forge_has_followed::<A>(num, optimizer.head, lr, model.head, next_model.head, g.head),
        ({
            let (a, b, s, k) = (
                model.blocks[l],
                next_model.blocks[l],
                optimizer.blocks@[l],
                g.blocks[l],
            );
            &&& forge_has_followed::<A>(num, s.w1, lr, a.w1, b.w1, k.w1)
            &&& forge_has_followed::<A>(num, s.w1u, lr, a.w1u, b.w1u, k.w1u)
            &&& forge_has_followed::<A>(num, s.w2, lr, a.w2, b.w2, k.w2)
            &&& a.mrm matches Some(m) ==> {
                &&& b.mrm is Some
                &&& forge_has_followed::<A>(num, s.wq, lr, m.w_q, b.mrm->0.w_q, k.wq)
                &&& forge_has_followed::<A>(num, s.wk, lr, m.w_k, b.mrm->0.w_k, k.wk)
                &&& forge_has_followed::<A>(num, s.wv, lr, m.w_v, b.mrm->0.w_v, k.wv)
                &&& forge_has_followed::<A>(num, s.wo, lr, m.w_o, b.mrm->0.w_o, k.wo)
            }
        }),
{
    lemma_forge_buffer::<A>(
        num,
        optimizer.embed,
        model.embeddings,
        g.embed,
        lr,
        next.embed,
        next_model.embeddings,
    );
    lemma_forge_buffer::<A>(
        num,
        optimizer.pos_embed,
        model.pos_embed,
        g.pos_embed,
        lr,
        next.pos_embed,
        next_model.pos_embed,
    );
    lemma_forge_buffer::<A>(
        num,
        optimizer.head,
        model.head,
        g.head,
        lr,
        next.head,
        next_model.head,
    );
    let (a, b, s, k, n) = (
        model.blocks[l],
        next_model.blocks[l],
        optimizer.blocks@[l],
        g.blocks[l],
        next.blocks@[l],
    );
    assert(s.takes_to(a, k, lr, n, b));
    lemma_forge_buffer::<A>(num, s.w1, a.w1, k.w1, lr, n.w1, b.w1);
    lemma_forge_buffer::<A>(num, s.w1u, a.w1u, k.w1u, lr, n.w1u, b.w1u);
    lemma_forge_buffer::<A>(num, s.w2, a.w2, k.w2, lr, n.w2, b.w2);
    if let Some(m) = a.mrm {
        let w = b.mrm->0;
        lemma_forge_buffer::<A>(num, s.wq, m.w_q, k.wq, lr, n.wq, w.w_q);
        lemma_forge_buffer::<A>(num, s.wk, m.w_k, k.wk, lr, n.wk, w.w_k);
        lemma_forge_buffer::<A>(num, s.wv, m.w_v, k.wv, lr, n.wv, w.w_v);
        lemma_forge_buffer::<A>(num, s.wo, m.w_o, k.wo, lr, n.wo, w.w_o);
    }
}

} // verus!
