//! Experiment E4: Test-Time Learning via Fast Weights (T5 kill criterion).
//! Compares few-shot adaptation at k=0,1,4,8,16,32 in-context examples.
//! FORGE must use ZERO gradient steps - only rank-1 fast-weight updates.
//! Frozen Transformer is the baseline.
//!
//! Task: character-level next-token prediction on domain-shifted text
//! (source = enwik8, test = Python code snippet -> domain shift).

use vstd::prelude::*;
use crate::arith::{
    Arith, lawful, one, s_count, s_exceeds, s_lit, s_minus, s_over, s_plus, s_times, zero,
};
use crate::corpus::{code_byte, make_code_corpus};
use crate::forge_eval::{
    evaluate_on_runs, evaluates_to, flops_sum, is_run, mean_loss_and_bpc, mean_over, pending_sum,
    runs_from_seed, sample_runs,
};
use crate::forge_model::{ForgeBlock, ForgeBlockValues, ForgeModel, ForgeModelValues};
use crate::layer::zero_vec;
use crate::matvec::matvec_of;
use crate::mrm::MrmValues;
use crate::sequence::row_at;
use crate::tensor::{add_scaled, lemma_row_bounds, row_of, vec_add_scaled, zeros};
use crate::text::{has_part, part_at};
use crate::transformer_model::TransformerModel;
use crate::transformer_trainer::new_grads;

verus! {

/// The embeddings of the first `n` bytes, added up from zero.
pub open spec fn bytes_summed<A: Arith>(
    embeddings: Seq<A::T>,
    d: nat,
    bytes: Seq<u8>,
    n: nat,
) -> Seq<A::T>
    decreases n,
{
    if n == 0 {
        zeros::<A>(d)
    } else {
        add_scaled::<A>(
            bytes_summed::<A>(embeddings, d, bytes, (n - 1) as nat),
            row_of(embeddings, d, bytes[n - 1] as int),
            one::<A>(),
        )
    }
}

/// The part of an example that gives the key (its first half, at least a byte) or the value (the
/// rest).
pub open spec fn example_part(example: Seq<u8>, front: bool) -> Seq<u8> {
    let half = example.len() as int / 2;
    if front {
        example.take(if half > 1 {
            half
        } else {
            1
        })
    } else {
        example.skip(half)
    }
}

/// The mean embedding of a part, shared out over `k` examples.
pub open spec fn part_weight<A: Arith>(len: nat, k: usize) -> A::T {
    let n = (if len > 1 {
        len
    } else {
        1
    }) as usize;
    s_over::<A>(s_over::<A>(one::<A>(), s_count::<A>(n)), s_count::<A>(k))
}

/// The mean over `k` examples of the mean embeddings of their parts, of the first `n` of them.
pub open spec fn part_mean<A: Arith>(
    embeddings: Seq<A::T>,
    d: nat,
    examples: Seq<Vec<u8>>,
    front: bool,
    k: usize,
    n: nat,
) -> Seq<A::T>
    decreases n,
{
    if n == 0 {
        zeros::<A>(d)
    } else {
        let part = example_part(examples[n - 1]@, front);
        add_scaled::<A>(
            part_mean::<A>(embeddings, d, examples, front, k, (n - 1) as nat),
            bytes_summed::<A>(embeddings, d, part, part.len()),
            part_weight::<A>(part.len(), k),
        )
    }
}

/// A key and a value for the fast weights, or none.
pub struct FastWeights<T> {
    pub pair: Option<(Seq<T>, Seq<T>)>,
}

/// The fast weights that examples give.
pub open spec fn fast_weights_of<A: Arith>(
    m: ForgeModelValues<A>,
    examples: Seq<Vec<u8>>,
    k: usize,
) -> FastWeights<A::T> {
    let n = if k < examples.len() {
        k
    } else {
        examples.len() as usize
    };
    FastWeights {
        pair: if n == 0 {
            None
        } else {
            Some(
                (
                    part_mean::<A>(m.embeddings, m.d, examples, true, n, n as nat),
                    part_mean::<A>(m.embeddings, m.d, examples, false, n, n as nat),
                ),
            )
        },
    }
}

impl<A: Arith> MrmValues<A> {
    /// The memory with other fast weights.
    pub open spec fn with_fast_weights(&self, f: FastWeights<A::T>) -> MrmValues<A> {
        match f.pair {
            None => MrmValues {
                fw_u: zeros::<A>(self.fw_u.len()),
                fw_v: zeros::<A>(self.fw_v.len()),
                fw_active: false,
                ..*self
            },
            Some((key, val)) => MrmValues {
                fw_u: matvec_of::<A>(self.w_o, self.d, val),
                fw_v: key,
                fw_active: true,
                ..*self
            },
        }
    }
}

impl<A: Arith> ForgeBlockValues<A> {
    /// The block with other fast weights in its memory.
    pub open spec fn with_fast_weights(&self, f: FastWeights<A::T>) -> ForgeBlockValues<A> {
        ForgeBlockValues {
            mrm: match self.mrm {
                Some(m) => Some(m.with_fast_weights(f)),
                None => None,
            },
            ..*self
        }
    }
}

impl<A: Arith> ForgeModelValues<A> {
    /// The model with other fast weights in all its memories.
    pub open spec fn with_fast_weights(&self, f: FastWeights<A::T>) -> ForgeModelValues<A> {
        ForgeModelValues {
            blocks: Seq::new(self.blocks.len(), |l: int| self.blocks[l].with_fast_weights(f)),
            ..*self
        }
    }

    /// Fast weights leave the room for evaluation as it was.
    proof fn lemma_adapted_can_evaluate(&self, f: FastWeights<A::T>, n: int)
        requires
            self.can_evaluate(n),
            f.pair matches Some(p) ==> p.0.len() == self.d && p.1.len() == self.d,
        ensures
            self.with_fast_weights(f).can_evaluate(n),
    {
        let other = self.with_fast_weights(f);
        self.lemma_same_flops(f, self.blocks.len());
        assert forall|l: int| 0 <= l < other.blocks.len() implies (
        #[trigger] other.blocks[l]).has_room(n) && other.blocks[l].d == other.d
            && other.blocks[l].flops_forward >= 0 by {
            assert(self.blocks[l].has_room(n));
        }
    }

    /// Fast weights leave the FLOPs as they were.
    proof fn lemma_same_flops(&self, f: FastWeights<A::T>, k: nat)
        requires
            k <= self.blocks.len(),
        ensures
            flops_sum::<A>(self.with_fast_weights(f).blocks, k) == flops_sum::<A>(self.blocks, k),
            pending_sum::<A>(self.with_fast_weights(f).blocks, k) == pending_sum::<A>(
                self.blocks,
                k,
            ),
        decreases k,
    {
        if k > 0 {
            self.lemma_same_flops(f, (k - 1) as nat);
            assert(self.with_fast_weights(f).blocks[k - 1] == self.blocks[k - 1].with_fast_weights(
                f,
            ));
        }
    }
}

/// The embeddings of some bytes, added up.
fn sum_bytes<A: Arith>(embeddings: &[A::T], d: usize, Ghost(vocab): Ghost<nat>, bytes: &[u8]) -> (sum:
    Vec<A::T>)
    requires
        lawful::<A>(),
        embeddings@.len() == vocab * d,
        forall|i: int| 0 <= i < bytes@.len() ==> #[trigger] bytes@[i] < vocab,
    ensures
        sum@ == bytes_summed::<A>(embeddings@, d as nat, bytes@, bytes@.len()),
        sum@.len() == d,
{
    let mut sum = zero_vec::<A>(d);
    let mut i: usize = 0;
    while i < bytes.len()
        invariant
            lawful::<A>(),
            i <= bytes@.len(),
            embeddings@.len() == vocab * d,
            forall|i: int| 0 <= i < bytes@.len() ==> #[trigger] bytes@[i] < vocab,
            sum@ == bytes_summed::<A>(embeddings@, d as nat, bytes@, i as nat),
            sum@.len() == d,
        decreases bytes@.len() - i,
    {
        let b: usize = bytes[i] as usize;
        proof {
            lemma_row_bounds(vocab, d as nat, b as int);
        }
        vec_add_scaled::<A>(sum.as_mut_slice(), row_at(embeddings, d, b), A::lit(1, 0));
        i += 1;
    }
    sum
}

/// The mean over the first `k` examples of the mean embeddings of their parts.
fn mean_of_parts<A: Arith>(
    embeddings: &[A::T],
    d: usize,
    Ghost(vocab): Ghost<nat>,
    examples: &[Vec<u8>],
    front: bool,
    k: usize,
) -> (mean: Vec<A::T>)
    requires
        lawful::<A>(),
        embeddings@.len() == vocab * d,
        k <= examples@.len(),
        forall|e: int| 0 <= e < k ==> is_example((#[trigger] examples@[e])@, vocab),
    ensures
        mean@ == part_mean::<A>(embeddings@, d as nat, examples@, front, k, k as nat),
        mean@.len() == d,
{
    let mut mean = zero_vec::<A>(d);
    let mut e: usize = 0;
    while e < k
        invariant
            lawful::<A>(),
            e <= k,
            embeddings@.len() == vocab * d,
            k <= examples@.len(),
            forall|e: int| 0 <= e < k ==> is_example((#[trigger] examples@[e])@, vocab),
            mean@ == part_mean::<A>(embeddings@, d as nat, examples@, front, k, e as nat),
            mean@.len() == d,
        decreases k - e,
    {
        let ex = examples[e].as_slice();
        assert(is_example(examples@[e as int]@, vocab));
        let half: usize = ex.len() / 2;
        let cut: usize = if !front {
            half
        } else if half > 1 {
            half
        } else {
            1
        };
        let (head, tail) = ex.split_at(cut);
        let part = if front {
            head
        } else {
            tail
        };
        proof {
            assert(part@ =~= example_part(ex@, front));
            assert forall|i: int| 0 <= i < part@.len() implies #[trigger] part@[i] < vocab by {
                assert(part@[i] == ex@[if front {
                    i
                } else {
                    half + i
                }]);
            }
        }
        let acc = sum_bytes::<A>(embeddings, d, Ghost(vocab), part);
        let n: usize = if part.len() > 1 {
            part.len()
        } else {
            1
        };
        let weight = A::over(A::over(A::lit(1, 0), A::count(n)), A::count(k));
        vec_add_scaled::<A>(mean.as_mut_slice(), acc.as_slice(), weight);
        e += 1;
    }
    mean
}

/// An example has a byte, and its bytes are in the vocabulary.
pub open spec fn is_example(example: Seq<u8>, vocab: nat) -> bool {
    &&& example.len() > 0
    &&& forall|i: int| 0 <= i < example.len() ==> #[trigger] example[i] < vocab
}

/// Give a block other fast weights.
fn adapt_block<A: Arith>(block: &mut ForgeBlock<A>, pair: &Option<(Vec<A::T>, Vec<A::T>)>)
    requires
        lawful::<A>(),
        old(block)@.wf(),
        pair matches Some(p) ==> p.0@.len() == old(block)@.d && p.1@.len() == old(block)@.d,
    ensures
        final(block)@ == old(block)@.with_fast_weights(weights_in::<A>(*pair)),
{
    let ghost b0 = block@;
    match &mut block.mrm {
        Some(mrm) => {
            let ghost m0 = mrm@;
            assert(b0.mrm == Some(m0));
            mrm.reset_fast_weights();
            match pair {
                Some(p) => {
                    mrm.fast_weight_update(p.0.as_slice(), p.1.as_slice());
                    assert(mrm@ == m0.with_fast_weights(weights_in::<A>(*pair)));
                },
                None => {
                    assert(mrm@ == m0.with_fast_weights(weights_in::<A>(*pair)));
                },
            }
        },
        None => {},
    }
}

/// The fast weights that a pair of vectors stands for.
pub open spec fn weights_in<A: Arith>(pair: Option<(Vec<A::T>, Vec<A::T>)>) -> FastWeights<A::T> {
    FastWeights {
        pair: match pair {
            Some(p) => Some((p.0@, p.1@)),
            None => None,
        },
    }
}

/// Give all memories of a model other fast weights.
pub fn set_fast_weights<A: Arith>(
    model: &mut ForgeModel<A>,
    pair: &Option<(Vec<A::T>, Vec<A::T>)>,
)
    requires
        lawful::<A>(),
        old(model)@.has_room(0),
        pair matches Some(p) ==> p.0@.len() == old(model).d && p.1@.len() == old(model).d,
    ensures
        final(model)@ == old(model)@.with_fast_weights(weights_in::<A>(*pair)),
{
    let ghost m0 = model@;
    let ghost f = weights_in::<A>(*pair);
    let n: usize = model.blocks.len();
    let mut l: usize = 0;
    while l < n
        invariant
            lawful::<A>(),
            l <= n,
            n == model.blocks@.len(),
            m0.has_room(0),
            m0.blocks.len() == n,
            f == weights_in::<A>(*pair),
            pair matches Some(p) ==> p.0@.len() == m0.d && p.1@.len() == m0.d,
            model@ == (ForgeModelValues { blocks: model@.blocks, ..m0 }),
            forall|k: int|
                0 <= k < l ==> (#[trigger] model.blocks@[k])@ == m0.blocks[k].with_fast_weights(f),
            forall|k: int| l <= k < n ==> (#[trigger] model.blocks@[k])@ == m0.blocks[k],
        decreases n - l,
    {
        assert(model.blocks@[l as int]@ == m0.blocks[l as int]);
        assert(m0.blocks[l as int].has_room(0));
        adapt_block(&mut model.blocks[l], pair);
        l += 1;
    }
    assert(model@.blocks =~= m0.with_fast_weights(f).blocks);
}

/// Apply fast-weight adaptation from k examples (zero gradient steps).
/// Key = mean embedding of the example prefix, value = mean embedding of the example suffix.
pub fn apply_fast_weight_adaptation<A: Arith>(
    model: &mut ForgeModel<A>,
    examples: &[Vec<u8>],
    k: usize,
)
    requires
        lawful::<A>(),
        old(model)@.has_room(0),
        forall|e: int|
            0 <= e < k && e < examples@.len() ==> is_example(
                (#[trigger] examples@[e])@,
                old(model)@.vocab,
            ),
    ensures
        final(model)@ == old(model)@.with_fast_weights(
            fast_weights_of(old(model)@, examples@, k),
        ),
{
    let k_actual: usize = if k < examples.len() {
        k
    } else {
        examples.len()
    };
    let pair = if k_actual == 0 {
        None
    } else {
        let vocab = Ghost(model@.vocab);
        let mean_key = mean_of_parts::<A>(
            model.embeddings.as_slice(),
            model.d,
            vocab,
            examples,
            true,
            k_actual,
        );
        let mean_val = mean_of_parts::<A>(
            model.embeddings.as_slice(),
            model.d,
            vocab,
            examples,
            false,
            k_actual,
        );
        Some((mean_key, mean_val))
    };
    assert(weights_in::<A>(pair) == fast_weights_of(model@, examples@, k));
    set_fast_weights(model, &pair);
}

/// Few-shot adaptation result for one (model, k) cell.
pub struct FewShotResult<A: Arith> {
    pub method: String,
    pub k_examples: usize,
    pub val_bpc: A::T,
    pub val_loss: A::T,
    pub used_gradient: bool,
}

/// Window `i` of a corpus in 64 bytes.
pub open spec fn example_window(corpus: Seq<u8>, i: int) -> Seq<u8> {
    corpus.subrange(i * 64, i * 64 + 64)
}

/// The corpus of E4, and its first 32 windows as few-shot examples.
pub fn few_shot_corpus() -> (r: (Vec<u8>, Vec<Vec<u8>>))
    ensures
        r.0@ == Seq::new(32768, |i: int| code_byte(i as nat)),
        r.1@.len() == 32,
        forall|i: int| 0 <= i < 32 ==> (#[trigger] r.1@[i])@ == example_window(r.0@, i),
{
    let corpus = make_code_corpus(32768);
    let mut examples: Vec<Vec<u8>> = Vec::with_capacity(32);
    let mut i: usize = 0;
    while i < 32
        invariant
            i <= 32,
            corpus@.len() == 32768,
            examples@.len() == i,
            forall|k: int|
                0 <= k < i ==> (#[trigger] examples@[k])@ == example_window(corpus@, k),
        decreases 32 - i,
    {
        let (_, tail) = corpus.as_slice().split_at(i * 64);
        let (window, _) = tail.split_at(64);
        let example = vstd::slice::slice_to_vec(window);
        assert(example@ =~= example_window(corpus@, i as int));
        examples.push(example);
        i += 1;
    }
    (corpus, examples)
}

/// The result of a method at `k` examples: the BPC of a model on 20 random windows of the corpus,
/// without a gradient step.
pub open spec fn is_few_shot_result<A: Arith>(
    result: FewShotResult<A>,
    method: Seq<char>,
    k: usize,
    model: ForgeModelValues<A>,
    corpus: Seq<u8>,
) -> bool {
    &&& result.method@ == method
    &&& result.k_examples == k
    &&& !result.used_gradient
    &&& result.val_loss == s_times::<A>(result.val_bpc, s_lit::<A>(693147180559945309, 18))
    &&& exists|after: ForgeModelValues<A>, mean: A::T| #[trigger]
        evaluates_to::<A>(model, corpus, 20, 64, k as u64, after, (mean, result.val_bpc))
}

/// Evaluate BPC on a corpus using FORGE model (no gradient updates).
fn few_shot_result<A: Arith>(
    model: ForgeModel<A>,
    corpus: &[u8],
    method: &str,
    k: usize,
) -> (result: FewShotResult<A>)
    requires
        lawful::<A>(),
        model@.can_evaluate(1280),
        corpus@.len() >= 65,
        forall|i: int| 0 <= i < corpus@.len() ==> #[trigger] corpus@[i] < model@.vocab,
    ensures
        is_few_shot_result(result, method@, k, model@, corpus@),
{
    let ghost before = model@;
    let mut model = model;
    let (mean, bpc) = evaluate_on_runs(&mut model, corpus, 20, 64, k as u64);
    assert(evaluates_to::<A>(before, corpus@, 20, 64, k as u64, model@, (mean, bpc)));
    FewShotResult {
        method: method.to_string(),
        k_examples: k,
        val_bpc: bpc,
        val_loss: A::times(bpc, A::lit(693147180559945309, 18)),
        used_gradient: false,
    }
}

/// No fast weights.
pub open spec fn no_fast_weights<T>() -> FastWeights<T> {
    FastWeights { pair: None }
}

/// The results of a model without and with fast weights from `k` examples.
pub open spec fn are_few_shot_results<A: Arith>(
    frozen: FewShotResult<A>,
    adapted: FewShotResult<A>,
    model: ForgeModelValues<A>,
    corpus: Seq<u8>,
    examples: Seq<Vec<u8>>,
    k: usize,
) -> bool {
    &&& is_few_shot_result(
        frozen,
        "FORGE (frozen, no fast-weights)"@,
        k,
        model.with_fast_weights(no_fast_weights()),
        corpus,
    )
    &&& is_few_shot_result(
        adapted,
        "FORGE+FastWeights (zero grad)"@,
        k,
        model.with_fast_weights(fast_weights_of(model, examples.take(k as int), k)),
        corpus,
    )
}

/// Compare a model without and with fast weights from `k` examples. The model itself stays as it
/// is.
pub fn few_shot_pair<A: Arith>(
    forge_model: &ForgeModel<A>,
    corpus: &[u8],
    examples: &[Vec<u8>],
    k: usize,
) -> (r: (FewShotResult<A>, FewShotResult<A>))
    requires
        lawful::<A>(),
        forge_model@.can_evaluate(1280),
        corpus@.len() >= 65,
        forall|i: int| 0 <= i < corpus@.len() ==> #[trigger] corpus@[i] < forge_model@.vocab,
        k <= examples@.len(),
        forall|e: int|
            0 <= e < k ==> is_example((#[trigger] examples@[e])@, forge_model@.vocab),
    ensures
        are_few_shot_results(r.0, r.1, forge_model@, corpus@, examples@, k),
{
    proof {
        forge_model@.lemma_has_sizes(1280);
    }
    // FORGE without fast weights (frozen)
    let mut frozen = forge_model.clone();
    set_fast_weights(&mut frozen, &None);
    proof {
        forge_model@.lemma_adapted_can_evaluate(no_fast_weights(), 1280);
    }
    let frozen_result = few_shot_result(frozen, corpus, "FORGE (frozen, no fast-weights)", k);
    // FORGE with fast weights (zero grad)
    let mut adapted = forge_model.clone();
    let (chosen, _) = examples.split_at(k);
    assert(chosen@ =~= examples@.take(k as int));
    apply_fast_weight_adaptation(&mut adapted, chosen, k);
    proof {
        let f = fast_weights_of(forge_model@, chosen@, k);
        if k > 0 {
            lemma_part_mean_len::<A>(
                forge_model@.embeddings,
                forge_model@.d,
                chosen@,
                true,
                k,
                k as nat,
            );
            lemma_part_mean_len::<A>(
                forge_model@.embeddings,
                forge_model@.d,
                chosen@,
                false,
                k,
                k as nat,
            );
        }
        forge_model@.lemma_adapted_can_evaluate(f, 1280);
    }
    let adapted_result = few_shot_result(adapted, corpus, "FORGE+FastWeights (zero grad)", k);
    (frozen_result, adapted_result)
}

/// Compare a model without and with fast weights at each number of examples in turn.
pub fn few_shot_results<A: Arith>(
    forge_model: &ForgeModel<A>,
    corpus: &[u8],
    examples: &[Vec<u8>],
    k_values: &[usize],
) -> (results: Vec<FewShotResult<A>>)
    requires
        lawful::<A>(),
        forge_model@.can_evaluate(1280),
        corpus@.len() >= 65,
        forall|i: int| 0 <= i < corpus@.len() ==> #[trigger] corpus@[i] < forge_model@.vocab,
        forall|i: int| 0 <= i < k_values@.len() ==> #[trigger] k_values@[i] <= examples@.len(),
        forall|e: int|
            0 <= e < examples@.len() ==> is_example(
                (#[trigger] examples@[e])@,
                forge_model@.vocab,
            ),
    ensures
        results@.len() == 2 * k_values@.len(),
        forall|i: int|
            0 <= i < k_values@.len() ==> are_few_shot_results(
                results@[2 * i],
                results@[2 * i + 1],
                forge_model@,
                corpus@,
                examples@,
                #[trigger] k_values@[i],
            ),
{
    let mut results: Vec<FewShotResult<A>> = Vec::new();
    let mut n: usize = 0;
    while n < k_values.len()
        invariant
            lawful::<A>(),
            forge_model@.can_evaluate(1280),
            corpus@.len() >= 65,
            forall|i: int| 0 <= i < corpus@.len() ==> #[trigger] corpus@[i] < forge_model@.vocab,
            forall|i: int| 0 <= i < k_values@.len() ==> #[trigger] k_values@[i] <= examples@.len(),
            forall|e: int|
                0 <= e < examples@.len() ==> is_example(
                    (#[trigger] examples@[e])@,
                    forge_model@.vocab,
                ),
            n <= k_values@.len(),
            results@.len() == 2 * n,
            forall|i: int|
                0 <= i < n ==> are_few_shot_results(
                    results@[2 * i],
                    results@[2 * i + 1],
                    forge_model@,
                    corpus@,
                    examples@,
                    #[trigger] k_values@[i],
                ),
        decreases k_values@.len() - n,
    {
        let (frozen, adapted) = few_shot_pair(forge_model, corpus, examples, k_values[n]);
        results.push(frozen);
        results.push(adapted);
        n += 1;
    }
    results
}

/// The mean of parts is as long as an embedding.
proof fn lemma_part_mean_len<A: Arith>(
    embeddings: Seq<A::T>,
    d: nat,
    examples: Seq<Vec<u8>>,
    front: bool,
    k: usize,
    n: nat,
)
    ensures
        part_mean::<A>(embeddings, d, examples, front, k, n).len() == d,
    decreases n,
{
    if n > 0 {
        lemma_part_mean_len::<A>(embeddings, d, examples, front, k, (n - 1) as nat);
    }
}

impl<A: Arith> ForgeModelValues<A> {
    /// A model with room for some tokens has its sizes, whatever its room.
    pub(crate) proof fn lemma_has_sizes(&self, n: int)
        requires
            self.has_room(n),
            n >= 0,
        ensures
            self.has_room(0),
    {
        assert forall|l: int| 0 <= l < self.blocks.len() implies (
        #[trigger] self.blocks[l]).has_room(0) && self.blocks[l].d == self.d
            && self.blocks[l].flops_forward >= 0 by {
            assert(self.blocks[l].has_room(n));
        }
    }
}

/// How fast weights did on the T5 kill criterion.
pub enum FewShotVerdict<T> {
    /// They improve the BPC by more than 0.05: the BPC with them, and the improvement.
    Passed(T, T),
    /// They improve it by less.
    Failed(T),
    /// A result at 16 examples is missing.
    Missing,
}

/// The result is one at 16 examples whose method has a word in its name.
pub open spec fn is_at_16<A: Arith>(r: FewShotResult<A>, word: Seq<char>) -> bool {
    r.k_examples == 16 && exists|i: int| #[trigger] part_at(r.method@, word, i)
}

/// The first result at 16 examples whose method has a word in its name.
pub open spec fn is_first_at_16<A: Arith>(
    results: Seq<FewShotResult<A>>,
    word: Seq<char>,
    i: int,
) -> bool {
    &&& 0 <= i < results.len()
    &&& is_at_16(results[i], word)
    &&& forall|k: int| 0 <= k < i ==> !is_at_16(#[trigger] results[k], word)
}

/// The verdict on a frozen and an adapted BPC.
pub open spec fn few_shot_verdict<A: Arith>(frozen: A::T, adapted: A::T) -> FewShotVerdict<A::T> {
    let delta = s_minus::<A>(frozen, adapted);
    if s_exceeds::<A>(delta, s_lit::<A>(5, 2)) {
        FewShotVerdict::Passed(adapted, delta)
    } else {
        FewShotVerdict::Failed(delta)
    }
}

/// The first result at 16 examples whose method has a word in its name.
fn find_at_16<A: Arith>(results: &[FewShotResult<A>], word: &str) -> (found: Option<usize>)
    ensures
        match found {
            Some(i) => is_first_at_16(results@, word@, i as int),
            None => forall|i: int| !#[trigger] is_first_at_16(results@, word@, i),
        },
{
    let mut i: usize = 0;
    while i < results.len()
        invariant
            i <= results@.len(),
            forall|k: int| 0 <= k < i ==> !is_at_16(#[trigger] results@[k], word@),
        decreases results@.len() - i,
    {
        if results[i].k_examples == 16 && has_part(results[i].method.as_str(), word) {
            assert(is_first_at_16(results@, word@, i as int));
            return Some(i);
        }
        i += 1;
    }
    None
}

/// T5 kill criterion: fast weights produce measurable improvement (vs frozen).
pub fn t5_verdict<A: Arith>(results: &[FewShotResult<A>]) -> (verdict: FewShotVerdict<A::T>)
    requires
        lawful::<A>(),
    ensures
        forall|f: int, w: int|
            is_first_at_16(results@, "frozen"@, f) && is_first_at_16(results@, "FastWeights"@, w)
                ==> verdict == #[trigger] few_shot_verdict::<A>(
                results@[f].val_bpc,
                results@[w].val_bpc,
            ),
        verdict is Missing <==> (forall|f: int| !#[trigger] is_first_at_16(results@, "frozen"@, f))
            || (forall|w: int| !#[trigger] is_first_at_16(results@, "FastWeights"@, w)),
{
    let frozen = find_at_16(results, "frozen");
    let adapted = find_at_16(results, "FastWeights");
    match (frozen, adapted) {
        (Some(f), Some(w)) => {
            proof {
                assert(is_first_at_16(results@, "frozen"@, f as int));
                assert(is_first_at_16(results@, "FastWeights"@, w as int));
                assert forall|i: int, j: int|
                    is_first_at_16(results@, "frozen"@, i) && is_first_at_16(
                        results@,
                        "FastWeights"@,
                        j,
                    ) implies i == f && j == w by {
                    lemma_one_first_at_16(results@, "frozen"@, i, f as int);
                    lemma_one_first_at_16(results@, "FastWeights"@, j, w as int);
                }
            }
            let delta = A::minus(results[f].val_bpc, results[w].val_bpc);
            if A::exceeds(delta, A::lit(5, 2)) {
                FewShotVerdict::Passed(results[w].val_bpc, delta)
            } else {
                FewShotVerdict::Failed(delta)
            }
        },
        _ => FewShotVerdict::Missing,
    }
}

/// There is but one first result.
proof fn lemma_one_first_at_16<A: Arith>(
    results: Seq<FewShotResult<A>>,
    word: Seq<char>,
    i: int,
    j: int,
)
    requires
        is_first_at_16(results, word, i),
        is_first_at_16(results, word, j),
    ensures
        i == j,
{
    if i < j {
        assert(!is_at_16(results[i], word));
    }
    if j < i {
        assert(!is_at_16(results[j], word));
    }
}

/// The losses of a Transformer on the first `n` of some runs of bytes, each token predicting the
/// next, added in order.
pub open spec fn run_losses<A: Arith>(
    model: TransformerModel<A>,
    runs: Seq<Vec<usize>>,
    n: nat,
) -> A::T
    decreases n,
{
    if n == 0 {
        zero::<A>()
    } else {
        let run = runs[n - 1]@;
        s_plus::<A>(
            run_losses::<A>(model, runs, (n - 1) as nat),
            model.loss_of(run.drop_last(), run.skip(1), (run.len() - 1) as nat),
        )
    }
}

/// The baseline at `k` examples: the BPC of a frozen Transformer on the windows that FORGE is
/// evaluated on. It takes nothing from the examples.
pub open spec fn is_frozen_baseline<A: Arith>(
    result: FewShotResult<A>,
    model: TransformerModel<A>,
    corpus: Seq<u8>,
    k: usize,
) -> bool {
    &&& result.method@ == "Transformer (frozen)"@
    &&& result.k_examples == k
    &&& !result.used_gradient
    &&& result.val_loss == s_times::<A>(result.val_bpc, s_lit::<A>(693147180559945309, 18))
    &&& exists|runs: Seq<Vec<usize>>|
        runs_from_seed(k as u64, corpus, 65, 20, runs) && result.val_bpc == mean_over::<A>(
            #[trigger] run_losses::<A>(model, runs, 20),
            1280,
        ).1
}

/// Evaluate the frozen Transformer at each number of examples in turn.
pub fn frozen_baselines<A: Arith>(
    transformer: &TransformerModel<A>,
    corpus: &[u8],
    k_values: &[usize],
) -> (results: Vec<FewShotResult<A>>)
    requires
        lawful::<A>(),
        transformer.can_train(),
        transformer.max_seq_len >= 64,
        corpus@.len() >= 65,
        forall|i: int| 0 <= i < corpus@.len() ==> #[trigger] corpus@[i] < transformer.vocab_size,
    ensures
        results@.len() == k_values@.len(),
        forall|i: int|
            0 <= i < k_values@.len() ==> is_frozen_baseline(
                #[trigger] results@[i],
                *transformer,
                corpus@,
                k_values@[i],
            ),
{
    let mut results: Vec<FewShotResult<A>> = Vec::with_capacity(k_values.len());
    let mut i: usize = 0;
    while i < k_values.len()
        invariant
            lawful::<A>(),
            transformer.can_train(),
            transformer.max_seq_len >= 64,
            corpus@.len() >= 65,
            forall|i: int|
                0 <= i < corpus@.len() ==> #[trigger] corpus@[i] < transformer.vocab_size,
            i <= k_values@.len(),
            results@.len() == i,
            forall|j: int|
                0 <= j < i ==> is_frozen_baseline(
                    #[trigger] results@[j],
                    *transformer,
                    corpus@,
                    k_values@[j],
                ),
        decreases k_values@.len() - i,
    {
        let k: usize = k_values[i];
        let runs = sample_runs(corpus, 20, 65, k as u64);
        proof {
            assert forall|j: int| 0 <= j < 20 implies (#[trigger] runs@[j])@.len() == 65
                && forall|t: int|
                0 <= t < 65 ==> #[trigger] runs@[j]@[t] < transformer.vocab_size by {
                assert(is_run(corpus@, 65, runs@[j]@));
            }
        }
        let total = add_run_losses(transformer, runs.as_slice());
        let (_, bpc) = mean_loss_and_bpc::<A>(total, 1280);
        assert(bpc == mean_over::<A>(run_losses::<A>(*transformer, runs@, 20), 1280).1);
        results.push(
            FewShotResult {
                method: "Transformer (frozen)".to_string(),
                k_examples: k,
                val_bpc: bpc,
                val_loss: A::times(bpc, A::lit(693147180559945309, 18)),
                used_gradient: false,
            },
        );
        i += 1;
    }
    results
}

/// The losses of a Transformer on some runs of bytes.
fn add_run_losses<A: Arith>(transformer: &TransformerModel<A>, runs: &[Vec<usize>]) -> (total: A::T)
    requires
        lawful::<A>(),
        transformer.can_train(),
        transformer.max_seq_len >= 64,
        forall|j: int|
            0 <= j < runs@.len() ==> (#[trigger] runs@[j])@.len() == 65 && forall|t: int|
                0 <= t < 65 ==> #[trigger] runs@[j]@[t] < transformer.vocab_size,
    ensures
        total == run_losses::<A>(*transformer, runs@, runs@.len()),
{
    let mut grads = new_grads(transformer);
    let mut total = A::lit(0, 0);
    let mut j: usize = 0;
    while j < runs.len()
        invariant
            lawful::<A>(),
            transformer.can_train(),
            transformer.max_seq_len >= 64,
            j <= runs@.len(),
            forall|j: int|
                0 <= j < runs@.len() ==> (#[trigger] runs@[j])@.len() == 65 && forall|t: int|
                    0 <= t < 65 ==> #[trigger] runs@[j]@[t] < transformer.vocab_size,
            grads@.fits(transformer.shape()),
            total == run_losses::<A>(*transformer, runs@, j as nat),
        decreases runs@.len() - j,
    {
        let run = runs[j].as_slice();
        assert(runs@[j as int]@.len() == 65);
        let x = vstd::slice::slice_subrange(run, 0, 64);
        let y = vstd::slice::slice_subrange(run, 1, 65);
        proof {
            assert(x@ =~= run@.drop_last());
            assert(y@ =~= run@.skip(1));
            assert forall|t: int| 0 <= t < 64 implies #[trigger] x@[t] < transformer.vocab_size by {
                assert(runs@[j as int]@[t] < transformer.vocab_size);
            }
            assert forall|t: int| 0 <= t < 64 implies #[trigger] y@[t] < transformer.vocab_size by {
                assert(runs@[j as int]@[t + 1] < transformer.vocab_size);
            }
        }
        total = A::plus(total, transformer.forward_backward_sequence(x, y, &mut grads));
        j += 1;
    }
    total
}

} // verus!
