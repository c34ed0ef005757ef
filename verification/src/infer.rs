//! Autoregressive generation and sampling.

use vstd::prelude::*;
use vstd::utf8::{decode_utf8, encode_utf8, valid_utf8};
use rand::rngs::StdRng;
use crate::arith::{Arith, lawful, one, s_equals, s_exceeds, s_lit, zero};
use crate::layer::{AxiomLayer, LayerScratch, LayerState, zero_vec};
use crate::model::AxiomSingleLayerModel;
use crate::rng::{draw, draw_all, draws, numbers_from_seed, seeded};
use crate::sequence::Carried;
use crate::softmax::{softmax_temperature, softmax_temperature_of, sum_of};
use crate::stacked_model::{AxiomModel, carried_by};
use crate::stacked_trainer::{new_scratches, new_states};
use crate::tensor::zeros;

verus! {

/// Inference sampling configuration.
#[derive(Debug, Clone)]
pub struct InferenceConfig<A: Arith> {
    pub temperature: A::T,
    pub copy_threshold_tau: A::T,
    pub copy_mix_alpha: A::T,
}

impl<A: Arith> Default for InferenceConfig<A> {
    fn default() -> (cfg: Self)
        ensures
            lawful::<A>() ==> cfg.temperature == s_lit::<A>(8, 1) && cfg.copy_threshold_tau
                == s_lit::<A>(2, 0) && cfg.copy_mix_alpha == s_lit::<A>(3, 1),
    {
        Self {
            temperature: A::lit(8, 1),
            copy_threshold_tau: A::lit(2, 0),
            copy_mix_alpha: A::lit(3, 1),
        }
    }
}

/// The probabilities up to that of token `i`, summed up, come to `r` or more.
pub open spec fn is_reached<A: Arith>(probs: Seq<A::T>, r: A::T, i: int) -> bool {
    let cum = sum_of::<A>(probs, (i + 1) as nat);
    s_exceeds::<A>(cum, r) || s_equals::<A>(cum, r)
}

/// The first token not before `from` at which the probabilities reach `r`; the last token if
/// they never do.
pub open spec fn picked<A: Arith>(probs: Seq<A::T>, r: A::T, from: nat) -> nat
    decreases probs.len() - from,
{
    if from >= probs.len() {
        if probs.len() == 0 {
            0
        } else {
            (probs.len() - 1) as nat
        }
    } else if is_reached::<A>(probs, r, from as int) {
        from
    } else {
        picked::<A>(probs, r, from + 1)
    }
}

/// The token that a number from 0 to 1 stands for in a probability distribution.
pub fn pick_token<A: Arith>(probs: &[A::T], r: A::T) -> (token: usize)
    requires
        lawful::<A>(),
    ensures
        token == picked::<A>(probs@, r, 0),
        probs@.len() > 0 ==> token < probs@.len(),
{
    let mut cum = A::lit(0, 0);
    let mut i: usize = 0;
    while i < probs.len()
        invariant
            lawful::<A>(),
            i <= probs@.len(),
            cum == sum_of::<A>(probs@, i as nat),
            picked::<A>(probs@, r, 0) == picked::<A>(probs@, r, i as nat),
        decreases probs@.len() - i,
    {
        cum = A::plus(cum, probs[i]);
        if A::exceeds(cum, r) || A::equals(cum, r) {
            assert(is_reached::<A>(probs@, r, i as int));
            return i;
        }
        i += 1;
    }
    if probs.len() == 0 {
        0
    } else {
        probs.len() - 1
    }
}

/// Sample a token from a probability distribution: the one that the next number from 0 to 1 of
/// the generator stands for.
pub fn sample_from_probs<A: Arith>(probs: &[A::T], rng: &mut StdRng) -> (token: usize)
    requires
        lawful::<A>(),
    ensures
        exists|r: A::T|
            draws::<A>(*old(rng), zero::<A>(), one::<A>(), r, *final(rng)) && token
                == #[trigger] picked::<A>(probs@, r, 0),
        probs@.len() > 0 ==> token < probs@.len(),
{
    let r = draw::<A>(rng, A::lit(0, 0), A::lit(1, 0));
    pick_token::<A>(probs, r)
}

/// What `String::from_utf8_lossy` makes of bytes.
pub uninterp spec fn lossy_text(bytes: Seq<u8>) -> Seq<char>;

/// `String::from_utf8_lossy`: valid UTF-8 is decoded as it is. What stands in for other bytes is
/// a function of the bytes alone, and is given no more than a name.
#[verifier::external_body]
fn to_text(bytes: &[u8]) -> (s: String)
    ensures
        s@ == lossy_text(bytes@),
        valid_utf8(bytes@) ==> s@ == decode_utf8(bytes@),
{
    String::from_utf8_lossy(bytes).to_string()
}

/// Bytes as tokens.
pub open spec fn byte_tokens(bytes: Seq<u8>) -> Seq<usize> {
    Seq::new(bytes.len(), |i: int| bytes[i] as usize)
}

/// Tokens as bytes: the lowest eight bits of each.
pub open spec fn token_bytes(tokens: Seq<usize>) -> Seq<u8> {
    Seq::new(tokens.len(), |i: int| (tokens[i] % 256) as u8)
}

impl<A: Arith> AxiomLayer<A> {
    /// What the layer carries after some inputs depends on those inputs alone.
    pub(crate) proof fn lemma_carried_prefix(
        &self,
        a: Seq<Seq<A::T>>,
        b: Seq<Seq<A::T>>,
        start: Carried<A::T>,
        decay: A::T,
        lr: A::T,
        n: nat,
    )
        requires
            forall|t: int| 0 <= t < n ==> #[trigger] a[t] == b[t],
        ensures
            self.carried(a, start, decay, lr, n) == self.carried(b, start, decay, lr, n),
        decreases n,
    {
        if n > 0 {
            self.lemma_carried_prefix(a, b, start, decay, lr, (n - 1) as nat);
            assert(a[n - 1] == b[n - 1]);
        }
    }
}

impl<A: Arith> AxiomSingleLayerModel<A> {
    /// The logits after some tokens; all zero before the first.
    pub open spec fn logits_after(&self, tokens: Seq<usize>) -> Seq<A::T> {
        if tokens.len() == 0 {
            zeros::<A>(self.config.vocab_size as nat)
        } else {
            self.layer.logits_of(
                self.layer.output_at(
                    self.inputs(tokens),
                    self.blank(),
                    self.config.hebbian_decay,
                    self.config.hebbian_lr,
                    tokens.len() - 1,
                ),
            )
        }
    }

    /// The tokens of the prompt and the first `n` tokens generated behind it, where `draws`
    /// decides.
    pub open spec fn generated(
        &self,
        prompt: Seq<usize>,
        temperature: A::T,
        draws: Seq<A::T>,
        n: nat,
    ) -> Seq<usize>
        decreases n,
    {
        if n == 0 {
            prompt
        } else {
            let before = self.generated(prompt, temperature, draws, (n - 1) as nat);
            let probs = softmax_temperature_of::<A>(self.logits_after(before), temperature);
            before.push(picked::<A>(probs, draws[n - 1], 0) as usize)
        }
    }

    /// The state is the one after these tokens.
    pub open spec fn has_heard(&self, state: LayerState<A>, tokens: Seq<usize>) -> bool {
        &&& state.fits(self.config.d_model as nat)
        &&& state.memory.decay == self.config.hebbian_decay
        &&& state.memory.lr == self.config.hebbian_lr
        &&& carried_by(state) == self.layer.carried(
            self.inputs(tokens),
            self.blank(),
            self.config.hebbian_decay,
            self.config.hebbian_lr,
            tokens.len(),
        )
    }

    /// A step with one more token.
    fn hear(
        &self,
        token: usize,
        pos: usize,
        state: &mut LayerState<A>,
        scratch: &mut LayerScratch<A>,
        h_in: &mut Vec<A::T>,
        h_out: &mut Vec<A::T>,
        logits: &mut Vec<A::T>,
        Ghost(tokens): Ghost<Seq<usize>>,
    )
        requires
            lawful::<A>(),
            self.wf(),
            token < self.config.vocab_size,
            pos == tokens.len(),
            self.has_heard(*old(state), tokens),
            old(scratch)@.fits(self.config),
            old(h_in)@.len() == self.config.d_model,
            old(h_out)@.len() == self.config.d_model,
            old(logits)@.len() == self.config.vocab_size,
        ensures
            self.has_heard(*final(state), tokens.push(token)),
            final(scratch)@.fits(self.config),
            final(h_in)@.len() == self.config.d_model,
            final(h_out)@.len() == self.config.d_model,
            final(logits)@ == self.logits_after(tokens.push(token)),
            final(logits)@.len() == self.config.vocab_size,
    {
        let ghost before = *state;
        self.forward_infer_step(
            token,
            pos,
            state,
            scratch,
            h_in.as_mut_slice(),
            h_out.as_mut_slice(),
            logits.as_mut_slice(),
        );
        proof {
            let c = self.config;
            let more = tokens.push(token);
            let inputs = self.inputs(more);
            assert forall|t: int| 0 <= t < tokens.len() implies #[trigger] self.inputs(tokens)[t]
                == inputs[t] by {
                assert(more[t] == tokens[t]);
            }
            self.layer.lemma_carried_prefix(
                self.inputs(tokens),
                inputs,
                self.blank(),
                c.hebbian_decay,
                c.hebbian_lr,
                tokens.len(),
            );
            assert(more.len() - 1 == tokens.len());
            assert(inputs[tokens.len() as int] == self.embed(token as int, pos as int));
            assert(carried_by(before).m == before.memory.m@);
            assert(carried_by(before).s == before.recurrent_state@);
        }
    }
}

/// Autoregressive generation with a single-layer model, where `draws` decides which token comes:
/// the bytes of the prompt and of as many new tokens as there are draws.
pub fn generate_with<A: Arith>(
    model: &AxiomSingleLayerModel<A>,
    prompt: &[u8],
    draws: &[A::T],
    temperature: A::T,
) -> (bytes: Vec<u8>)
    requires
        lawful::<A>(),
        model.can_run(),
        model.config.vocab_size > 0,
        forall|i: int| 0 <= i < prompt@.len() ==> #[trigger] prompt@[i] < model.config.vocab_size,
        prompt@.len() + draws@.len() <= usize::MAX,
    ensures
        bytes@ == token_bytes(
            model.generated(byte_tokens(prompt@), temperature, draws@, draws@.len()),
        ),
{
    let d: usize = model.config.d_model;
    let v: usize = model.config.vocab_size;
    proof {
        assert(model.layer.w_s.len() == model.layer.w_s@.len());
        assert(model.layer.w_decode.len() == model.layer.w_decode@.len());
        assert(3 * d <= d * (3 * d) || d == 0) by (nonlinear_arith)
            requires
                d >= 0,
        ;
    }
    let mut state = LayerState::new(&model.config);
    let mut scratch = LayerScratch::new(&model.config);
    let mut h_in = zero_vec::<A>(d);
    let mut h_out = zero_vec::<A>(d);
    let mut logits = zero_vec::<A>(v);
    let mut probs = zero_vec::<A>(v);
    let mut bytes: Vec<u8> = Vec::new();
    let ghost said = byte_tokens(prompt@);
    // 1. Prime the model with prompt tokens
    let mut pos: usize = 0;
    while pos < prompt.len()
        invariant
            lawful::<A>(),
            model.wf(),
            said == byte_tokens(prompt@),
            pos <= prompt@.len(),
            forall|i: int|
                0 <= i < prompt@.len() ==> #[trigger] prompt@[i] < model.config.vocab_size,
            model.has_heard(state, said.take(pos as int)),
            scratch@.fits(model.config),
            h_in@.len() == model.config.d_model,
            h_out@.len() == model.config.d_model,
            logits@ == model.logits_after(said.take(pos as int)),
            logits@.len() == model.config.vocab_size,
            bytes@ == token_bytes(said.take(pos as int)),
        decreases prompt@.len() - pos,
    {
        let token: usize = prompt[pos] as usize;
        bytes.push(prompt[pos]);
        model.hear(
            token,
            pos,
            &mut state,
            &mut scratch,
            &mut h_in,
            &mut h_out,
            &mut logits,
            Ghost(said.take(pos as int)),
        );
        assert(said.take(pos as int).push(token) =~= said.take(pos + 1));
        assert(bytes@ =~= token_bytes(said.take(pos + 1)));
        pos += 1;
    }
    assert(said.take(pos as int) =~= said);
    // 2. Autoregressively generate new tokens
    let mut k: usize = 0;
    while k < draws.len()
        invariant
            lawful::<A>(),
            model.wf(),
            model.config.vocab_size > 0,
            k <= draws@.len(),
            said.len() + draws@.len() <= usize::MAX,
            model.generated(said, temperature, draws@, k as nat).len() == said.len() + k,
            pos == said.len() + k,
            model.has_heard(state, model.generated(said, temperature, draws@, k as nat)),
            scratch@.fits(model.config),
            h_in@.len() == model.config.d_model,
            h_out@.len() == model.config.d_model,
            probs@.len() == model.config.vocab_size,
            logits@ == model.logits_after(model.generated(said, temperature, draws@, k as nat)),
            logits@.len() == model.config.vocab_size,
            bytes@ == token_bytes(model.generated(said, temperature, draws@, k as nat)),
        decreases draws@.len() - k,
    {
        let ghost before = model.generated(said, temperature, draws@, k as nat);
        softmax_temperature::<A>(logits.as_slice(), temperature, probs.as_mut_slice());
        let next_token: usize = pick_token::<A>(probs.as_slice(), draws[k]);
        bytes.push((next_token % 256) as u8);
        model.hear(
            next_token,
            pos,
            &mut state,
            &mut scratch,
            &mut h_in,
            &mut h_out,
            &mut logits,
            Ghost(before),
        );
        assert(bytes@ =~= token_bytes(before.push(next_token)));
        assert(model.generated(said, temperature, draws@, (k + 1) as nat) == before.push(
            next_token,
        ));
        pos += 1;
        k += 1;
    }
    bytes
}

/// Autoregressive text generation using a single-layer model. The numbers from 0 to 1
/// that the generator of the seed gives decide on the tokens.
pub fn generate_text<A: Arith>(
    model: &AxiomSingleLayerModel<A>,
    prompt: &str,
    max_new_tokens: usize,
    temperature: A::T,
    seed: u64,
) -> (text: String)
    requires
        lawful::<A>(),
        model.can_run(),
        model.config.vocab_size > 0,
        forall|i: int|
            0 <= i < encode_utf8(prompt@).len() ==> #[trigger] encode_utf8(prompt@)[i]
                < model.config.vocab_size,
        encode_utf8(prompt@).len() + max_new_tokens <= usize::MAX,
    ensures
        exists|draws: Seq<A::T>|
            numbers_from_seed::<A>(
                seed,
                zero::<A>(),
                one::<A>(),
                max_new_tokens as nat,
                draws,
            ) && text@ == lossy_text(
                token_bytes(
                    #[trigger] model.generated(
                        byte_tokens(encode_utf8(prompt@)),
                        temperature,
                        draws,
                        max_new_tokens as nat,
                    ),
                ),
            ),
{
    let mut rng = seeded(seed);
    let draws = draw_all::<A>(&mut rng, A::lit(0, 0), A::lit(1, 0), max_new_tokens);
    let bytes = generate_with(model, prompt.as_bytes(), draws.as_slice(), temperature);
    to_text(bytes.as_slice())
}

impl<A: Arith> AxiomModel<A> {
    /// The logits after some tokens; all zero before the first.
    pub open spec fn logits_after(&self, tokens: Seq<usize>) -> Seq<A::T> {
        if tokens.len() == 0 {
            zeros::<A>(self.config.vocab_size as nat)
        } else {
            self.layers@[self.config.num_layers - 1].logits_of(
                self.inputs_of_layer(tokens, self.config.num_layers as nat)[tokens.len() - 1],
            )
        }
    }

    /// The tokens of the prompt and the first `n` tokens generated behind it, where `draws`
    /// decides.
    pub open spec fn generated(
        &self,
        prompt: Seq<usize>,
        temperature: A::T,
        draws: Seq<A::T>,
        n: nat,
    ) -> Seq<usize>
        decreases n,
    {
        if n == 0 {
            prompt
        } else {
            let before = self.generated(prompt, temperature, draws, (n - 1) as nat);
            let probs = softmax_temperature_of::<A>(self.logits_after(before), temperature);
            before.push(picked::<A>(probs, draws[n - 1], 0) as usize)
        }
    }

    /// What layer `l` carries after these tokens.
    pub open spec fn carried_after(&self, tokens: Seq<usize>, l: int) -> Carried<A::T> {
        self.layers@[l].carried(
            self.inputs_of_layer(tokens, l as nat),
            self.blank(),
            self.config.hebbian_decay,
            self.config.hebbian_lr,
            tokens.len(),
        )
    }

    /// The state of layer `l` is the one after these tokens.
    pub open spec fn layer_has_heard(
        &self,
        state: LayerState<A>,
        tokens: Seq<usize>,
        l: int,
    ) -> bool {
        self.is_ready_state(state) && carried_by(state) == self.carried_after(tokens, l)
    }

    /// The states of all layers are those after these tokens.
    pub open spec fn has_heard(&self, states: Seq<LayerState<A>>, tokens: Seq<usize>) -> bool {
        &&& states.len() == self.config.num_layers
        &&& forall|l: int|
            0 <= l < states.len() ==> self.layer_has_heard(#[trigger] states[l], tokens, l)
    }

    /// The inputs of a layer for some tokens do not depend on what follows.
    proof fn lemma_inputs_prefix(&self, tokens: Seq<usize>, token: usize, l: nat)
        ensures
            self.inputs_of_layer(tokens, l).len() == tokens.len(),
            self.inputs_of_layer(tokens.push(token), l).len() == tokens.len() + 1,
            forall|t: int|
                0 <= t < tokens.len() ==> #[trigger] self.inputs_of_layer(tokens, l)[t]
                    == self.inputs_of_layer(tokens.push(token), l)[t],
        decreases l,
    {
        let more = tokens.push(token);
        if l == 0 {
            assert forall|t: int| 0 <= t < tokens.len() implies #[trigger] self.inputs_of_layer(
                tokens,
                l,
            )[t] == self.inputs_of_layer(more, l)[t] by {
                assert(more[t] == tokens[t]);
            }
        } else {
            self.lemma_inputs_prefix(tokens, token, (l - 1) as nat);
            let a = self.inputs_of_layer(tokens, (l - 1) as nat);
            let b = self.inputs_of_layer(more, (l - 1) as nat);
            assert forall|t: int| 0 <= t < tokens.len() implies #[trigger] self.inputs_of_layer(
                tokens,
                l,
            )[t] == self.inputs_of_layer(more, l)[t] by {
                self.layers@[l - 1].lemma_carried_prefix(
                    a,
                    b,
                    self.blank(),
                    self.config.hebbian_decay,
                    self.config.hebbian_lr,
                    t as nat,
                );
                assert(a[t] == b[t]);
            }
        }
    }

    /// The hidden vectors of a step are the inputs of the layers for the token.
    proof fn lemma_hidden(
        &self,
        states: Seq<LayerState<A>>,
        tokens: Seq<usize>,
        token: usize,
        l: nat,
    )
        requires
            self.has_heard(states, tokens),
            l <= self.config.num_layers,
        ensures
            self.hidden(self.embed(token as int, tokens.len() as int), states, l)
                == self.inputs_of_layer(tokens.push(token), l)[tokens.len() as int],
        decreases l,
    {
        let more = tokens.push(token);
        let n = tokens.len() as int;
        if l > 0 {
            self.lemma_hidden(states, tokens, token, (l - 1) as nat);
            self.lemma_before_last(states, tokens, token, l - 1);
            assert(self.inputs_of_layer(more, l)[n] == self.layers@[l - 1].output_at(
                self.inputs_of_layer(more, (l - 1) as nat),
                self.blank(),
                self.config.hebbian_decay,
                self.config.hebbian_lr,
                n,
            ));
        }
    }

    /// What a layer carries in front of one more token.
    proof fn lemma_before_last(
        &self,
        states: Seq<LayerState<A>>,
        tokens: Seq<usize>,
        token: usize,
        l: int,
    )
        requires
            self.has_heard(states, tokens),
            0 <= l < self.config.num_layers,
        ensures
            self.layers@[l].carried(
                self.inputs_of_layer(tokens.push(token), l as nat),
                self.blank(),
                self.config.hebbian_decay,
                self.config.hebbian_lr,
                tokens.len(),
            ) == carried_by(states[l]),
    {
        self.lemma_inputs_prefix(tokens, token, l as nat);
        self.layers@[l].lemma_carried_prefix(
            self.inputs_of_layer(tokens, l as nat),
            self.inputs_of_layer(tokens.push(token), l as nat),
            self.blank(),
            self.config.hebbian_decay,
            self.config.hebbian_lr,
            tokens.len(),
        );
        assert(self.layer_has_heard(states[l], tokens, l));
    }

    /// A step with one more token.
    fn hear(
        &self,
        token: usize,
        pos: usize,
        states: &mut Vec<LayerState<A>>,
        scratches: &mut Vec<LayerScratch<A>>,
        h_buffers: &mut Vec<Vec<A::T>>,
        logits: &mut Vec<A::T>,
        Ghost(tokens): Ghost<Seq<usize>>,
    )
        requires
            lawful::<A>(),
            self.wf(),
            self.config.num_layers > 0,
            token < self.config.vocab_size,
            pos == tokens.len(),
            self.has_heard(old(states)@, tokens),
            self.are_buffers(old(scratches)@, old(h_buffers)@),
            old(logits)@.len() == self.config.vocab_size,
        ensures
            self.has_heard(final(states)@, tokens.push(token)),
            self.are_buffers(final(scratches)@, final(h_buffers)@),
            final(logits)@ == self.logits_after(tokens.push(token)),
            final(logits)@.len() == self.config.vocab_size,
    {
        let ghost before = states@;
        let ghost more = tokens.push(token);
        proof {
            assert forall|l: int| 0 <= l < states@.len() implies (#[trigger] states@[l]).fits(
                self.config.d_model as nat,
            ) by {
                assert(self.layer_has_heard(states@[l], tokens, l));
            }
        }
        self.forward_infer_step(
            token,
            pos,
            states.as_mut_slice(),
            scratches.as_mut_slice(),
            h_buffers.as_mut_slice(),
            logits.as_mut_slice(),
        );
        proof {
            let h = self.embed(token as int, pos as int);
            let c = self.config;
            self.lemma_hidden(before, tokens, token, c.num_layers as nat);
            assert(more.len() - 1 == tokens.len());
            assert forall|l: int| 0 <= l < states@.len() implies self.layer_has_heard(
                #[trigger] states@[l],
                more,
                l,
            ) by {
                self.lemma_hidden(before, tokens, token, l as nat);
                self.lemma_before_last(before, tokens, token, l);
                assert(self.layer_has_heard(before[l], tokens, l));
                let step = self.step_of_layer(h, before, l);
                assert(states@[l].recurrent_state@ == step.state);
                assert(step == self.layers@[l].step(
                    self.inputs_of_layer(more, l as nat)[tokens.len() as int],
                    carried_by(before[l]).m,
                    carried_by(before[l]).s,
                ));
                assert(carried_by(states@[l]) == self.carried_after(more, l));
            }
        }
    }

    /// The working memory and the hidden vectors are those of this model.
    pub open spec fn are_buffers(
        &self,
        scratches: Seq<LayerScratch<A>>,
        h_buffers: Seq<Vec<A::T>>,
    ) -> bool {
        &&& scratches.len() == self.config.num_layers
        &&& forall|l: int|
            0 <= l < scratches.len() ==> (#[trigger] scratches[l])@.fits(self.config)
        &&& h_buffers.len() == self.config.num_layers + 1
        &&& forall|l: int|
            0 <= l < h_buffers.len() ==> (#[trigger] h_buffers[l])@.len() == self.config.d_model
    }
}

/// Inference agrees with training: to a model that has heard some tokens one by one, a step with
/// the next token hands each layer, and puts out on top, the very vector that a training pass over
/// the whole sequence gives at that place.
pub proof fn inference_agrees_with_training<A: Arith>(
    model: AxiomModel<A>,
    states: Seq<LayerState<A>>,
    tokens: Seq<usize>,
    token: usize,
    l: nat,
)
    requires
        model.has_heard(states, tokens),
        l <= model.config.num_layers,
    ensures
        model.hidden(model.embed(token as int, tokens.len() as int), states, l)
            == model.inputs_of_layer(tokens.push(token), l)[tokens.len() as int],
{
    model.lemma_hidden(states, tokens, token, l);
}

/// Room for the hidden vectors between the layers.
fn new_hidden_buffers<A: Arith>(model: &AxiomModel<A>) -> (h_buffers: Vec<Vec<A::T>>)
    requires
        lawful::<A>(),
        model.wf(),
    ensures
        h_buffers@.len() == model.config.num_layers + 1,
        forall|l: int|
            0 <= l < h_buffers@.len() ==> (#[trigger] h_buffers@[l])@.len()
                == model.config.d_model,
{
    let d: usize = model.config.d_model;
    let mut h_buffers: Vec<Vec<A::T>> = Vec::new();
    let mut l: usize = 0;
    while l < model.config.num_layers
        invariant
            lawful::<A>(),
            d == model.config.d_model,
            l <= model.config.num_layers,
            h_buffers@.len() == l,
            forall|k: int| 0 <= k < h_buffers@.len() ==> (#[trigger] h_buffers@[k])@.len() == d,
        decreases model.config.num_layers - l,
    {
        h_buffers.push(zero_vec::<A>(d));
        l += 1;
    }
    h_buffers.push(zero_vec::<A>(d));
    h_buffers
}

/// Autoregressive generation with a stacked model, where `draws` decides which token comes: the
/// bytes of the prompt and of as many new tokens as there are draws.
pub fn generate_stacked_with<A: Arith>(
    model: &AxiomModel<A>,
    prompt: &[u8],
    draws: &[A::T],
    temperature: A::T,
) -> (bytes: Vec<u8>)
    requires
        lawful::<A>(),
        model.wf(),
        model.config.num_layers > 0,
        model.config.buffer_capacity > 0,
        model.config.vocab_size > 0,
        forall|i: int| 0 <= i < prompt@.len() ==> #[trigger] prompt@[i] < model.config.vocab_size,
        prompt@.len() + draws@.len() <= usize::MAX,
    ensures
        bytes@ == token_bytes(
            model.generated(byte_tokens(prompt@), temperature, draws@, draws@.len()),
        ),
{
    let v: usize = model.config.vocab_size;
    let mut states = new_states(model);
    let mut scratches = new_scratches(model);
    let mut h_buffers = new_hidden_buffers(model);
    let mut logits = zero_vec::<A>(v);
    let mut probs = zero_vec::<A>(v);
    let mut bytes: Vec<u8> = Vec::new();
    let ghost said = byte_tokens(prompt@);
    proof {
        assert forall|l: int| 0 <= l < states@.len() implies model.layer_has_heard(
            #[trigger] states@[l],
            said.take(0),
            l,
        ) by {
            assert(model.is_blank_state(states@[l]));
        }
    }
    // 1. Prime the model with prompt tokens
    let mut pos: usize = 0;
    while pos < prompt.len()
        invariant
            lawful::<A>(),
            model.wf(),
            model.config.num_layers > 0,
            said == byte_tokens(prompt@),
            pos <= prompt@.len(),
            forall|i: int|
                0 <= i < prompt@.len() ==> #[trigger] prompt@[i] < model.config.vocab_size,
            model.has_heard(states@, said.take(pos as int)),
            model.are_buffers(scratches@, h_buffers@),
            logits@ == model.logits_after(said.take(pos as int)),
            logits@.len() == model.config.vocab_size,
            bytes@ == token_bytes(said.take(pos as int)),
        decreases prompt@.len() - pos,
    {
        let token: usize = prompt[pos] as usize;
        bytes.push(prompt[pos]);
        model.hear(
            token,
            pos,
            &mut states,
            &mut scratches,
            &mut h_buffers,
            &mut logits,
            Ghost(said.take(pos as int)),
        );
        assert(said.take(pos as int).push(token) =~= said.take(pos + 1));
        assert(bytes@ =~= token_bytes(said.take(pos + 1)));
        pos += 1;
    }
    assert(said.take(pos as int) =~= said);
    // 2. Autoregressively generate new tokens
    let mut k: usize = 0;
    while k < draws.len()
        invariant
            lawful::<A>(),
            model.wf(),
            model.config.num_layers > 0,
            model.config.vocab_size > 0,
            k <= draws@.len(),
            said.len() + draws@.len() <= usize::MAX,
            model.generated(said, temperature, draws@, k as nat).len() == said.len() + k,
            pos == said.len() + k,
            model.has_heard(states@, model.generated(said, temperature, draws@, k as nat)),
            model.are_buffers(scratches@, h_buffers@),
            probs@.len() == model.config.vocab_size,
            logits@ == model.logits_after(model.generated(said, temperature, draws@, k as nat)),
            logits@.len() == model.config.vocab_size,
            bytes@ == token_bytes(model.generated(said, temperature, draws@, k as nat)),
        decreases draws@.len() - k,
    {
        let ghost before = model.generated(said, temperature, draws@, k as nat);
        softmax_temperature::<A>(logits.as_slice(), temperature, probs.as_mut_slice());
        let next_token: usize = pick_token::<A>(probs.as_slice(), draws[k]);
        bytes.push((next_token % 256) as u8);
        model.hear(
            next_token,
            pos,
            &mut states,
            &mut scratches,
            &mut h_buffers,
            &mut logits,
            Ghost(before),
        );
        assert(bytes@ =~= token_bytes(before.push(next_token)));
        assert(model.generated(said, temperature, draws@, (k + 1) as nat) == before.push(
            next_token,
        ));
        pos += 1;
        k += 1;
    }
    bytes
}

/// Autoregressive text generation using a multi-layer stacked model with O(1) memory. Which
/// tokens come is chance: they are those that some numbers drawn from 0 to 1 decide on.
pub fn generate_text_stacked<A: Arith>(
    model: &AxiomModel<A>,
    prompt: &str,
    max_new_tokens: usize,
    temperature: A::T,
    seed: u64,
) -> (text: String)
    requires
        lawful::<A>(),
        model.wf(),
        model.config.num_layers > 0,
        model.config.buffer_capacity > 0,
        model.config.vocab_size > 0,
        forall|i: int|
            0 <= i < encode_utf8(prompt@).len() ==> #[trigger] encode_utf8(prompt@)[i]
                < model.config.vocab_size,
        encode_utf8(prompt@).len() + max_new_tokens <= usize::MAX,
    ensures
        exists|draws: Seq<A::T>|
            numbers_from_seed::<A>(
                seed,
                zero::<A>(),
                one::<A>(),
                max_new_tokens as nat,
                draws,
            ) && text@ == lossy_text(
                token_bytes(
                    #[trigger] model.generated(
                        byte_tokens(encode_utf8(prompt@)),
                        temperature,
                        draws,
                        max_new_tokens as nat,
                    ),
                ),
            ),
{
    let mut rng = seeded(seed);
    let draws = draw_all::<A>(&mut rng, A::lit(0, 0), A::lit(1, 0), max_new_tokens);
    let bytes = generate_stacked_with(model, prompt.as_bytes(), draws.as_slice(), temperature);
    to_text(bytes.as_slice())
}

/// Generation keeps the prompt in front and adds a token of the vocabulary for each draw.
pub proof fn generation_extends_the_prompt<A: Arith>(
    model: AxiomModel<A>,
    prompt: Seq<usize>,
    temperature: A::T,
    draws: Seq<A::T>,
    n: nat,
)
    requires
        model.wf(),
        model.config.num_layers > 0,
        model.config.vocab_size > 0,
        n <= draws.len(),
    ensures
        model.generated(prompt, temperature, draws, n).len() == prompt.len() + n,
        model.generated(prompt, temperature, draws, n).take(prompt.len() as int) == prompt,
        forall|i: int|
            prompt.len() <= i < prompt.len() + n ==> #[trigger] model.generated(
                prompt,
                temperature,
                draws,
                n,
            )[i] < model.config.vocab_size,
    decreases n,
{
    let whole = model.generated(prompt, temperature, draws, n);
    if n == 0 {
        assert(whole.take(prompt.len() as int) =~= prompt);
    } else {
        generation_extends_the_prompt(model, prompt, temperature, draws, (n - 1) as nat);
        let before = model.generated(prompt, temperature, draws, (n - 1) as nat);
        let logits = model.logits_after(before);
        let probs = softmax_temperature_of::<A>(logits, temperature);
        lemma_picked_is_a_token::<A>(probs, draws[n - 1], 0);
        assert(whole.take(prompt.len() as int) =~= before.take(prompt.len() as int));
    }
}

/// A pick from a distribution over tokens is one of them.
proof fn lemma_picked_is_a_token<A: Arith>(probs: Seq<A::T>, r: A::T, from: nat)
    ensures
        probs.len() > 0 ==> picked::<A>(probs, r, from) < probs.len(),
    decreases probs.len() - from,
{
    if from < probs.len() && !is_reached::<A>(probs, r, from as int) {
        lemma_picked_is_a_token::<A>(probs, r, from + 1);
    }
}

} // verus!
