//! The trials of Experiment E2, one by one: the caller reads the clock around each of them.

use vstd::prelude::*;
use rand::rngs::StdRng;
use crate::arith::{Arith, lawful};
use crate::exp_e2::{
    RecallResult, cache_cosine, draws_stream, fit_for_recall, is_recalled, recall_trial_mrm,
    recall_trial_transformer_kv,
};
use crate::mrm::MultiResMemory;
use crate::rng::{draw_up_to, draws_up_to, is_seeded, seeded};

verus! {

/// How a needle is kept.
#[derive(Debug, Clone, Copy, PartialEq, Eq, Structural)]
pub enum RecallMethod {
    /// In the full cache of a Transformer.
    KvCache,
    /// In a memory.
    Memory,
    /// In a memory with fast weights.
    FastMemory,
}

impl RecallMethod {
    /// The name under which the results of the method are reported.
    pub fn name(&self) -> (name: &'static str)
        ensures
            name@ == match *self {
                RecallMethod::KvCache => "Transformer KV Cache"@,
                RecallMethod::Memory => "FORGE MRM"@,
                RecallMethod::FastMemory => "FORGE MRM+FastWeights"@,
            },
    {
        match *self {
            RecallMethod::KvCache => "Transformer KV Cache",
            RecallMethod::Memory => "FORGE MRM",
            RecallMethod::FastMemory => "FORGE MRM+FastWeights",
        }
    }
}

/// The context lengths of the experiment, in order.
pub fn recall_contexts() -> (lengths: Vec<usize>)
    ensures
        lengths@ == seq![256usize, 1024, 4096, 8192, 16384, 32768],
{
    vec![256, 1024, 4096, 8192, 16384, 32768]
}

/// The methods that are tried at each context length, in order.
pub fn recall_methods() -> (methods: Vec<RecallMethod>)
    ensures
        methods@ == seq![
            RecallMethod::KvCache,
            RecallMethod::Memory,
            RecallMethod::FastMemory,
        ],
{
    vec![RecallMethod::KvCache, RecallMethod::Memory, RecallMethod::FastMemory]
}

/// The generator that the methods at a context length draw from in turn.
pub fn recall_generator() -> (rng: StdRng)
    ensures
        is_seeded(31337, rng),
{
    seeded(31337)
}

/// The trials of a method at a context length.
pub struct RecallCell<A: Arith> {
    pub context_len: usize,
    pub method: RecallMethod,
    /// What the trials of the memory methods share.
    pub memory: MultiResMemory<A>,
}

/// What came of a trial.
pub struct RecallTrial<A: Arith> {
    /// Where in the context the needle was put.
    pub insert_pos: usize,
    pub correct: bool,
    pub cosine_sim: A::T,
    pub memory_bytes: usize,
}

impl<A: Arith> RecallCell<A> {
    /// There is a context to put a needle in, and what keeps it can be counted in bytes.
    pub open spec fn wf(&self, d: nat) -> bool {
        &&& self.context_len > 0
        &&& self.context_len * d * 2 * 4 <= usize::MAX
        &&& self.memory.d == d
        &&& fit_for_recall(self.memory@)
        &&& (self.memory.k_fine + self.memory.k_coarse) * d * 4 <= usize::MAX
    }

    /// A method before its first trial.
    pub fn new(
        context_len: usize,
        method: RecallMethod,
        d: usize,
        k_fine: usize,
        k_coarse: usize,
    ) -> (cell: Self)
        requires
            lawful::<A>(),
            context_len > 0,
            context_len * d * 2 * 4 <= usize::MAX,
            k_fine > 0,
            k_coarse > 0 || d == 0,
            k_fine + k_coarse <= usize::MAX,
            (k_fine + k_coarse) * d * 4 <= usize::MAX,
            d * d <= usize::MAX,
        ensures
            cell.wf(d as nat),
            cell.context_len == context_len,
            cell.method == method,
            cell.memory.is_new(d, k_fine, k_coarse),
            cell.memory.is_drawn(42),
    {
        assert(k_fine * d <= (k_fine + k_coarse) * d * 4 && k_coarse * d <= (k_fine + k_coarse) * d
            * 4) by (nonlinear_arith)
            requires
                k_fine >= 0,
                k_coarse >= 0,
                d >= 0,
        ;
        RecallCell { context_len, method, memory: MultiResMemory::new(d, k_fine, k_coarse, 42) }
    }

    /// What a trial comes to: the generator draws the stream that the needle is put in, and the
    /// method recalls the needle from there.
    pub open spec fn recalls(
        &self,
        before: StdRng,
        key: Seq<A::T>,
        value: Seq<A::T>,
        t: RecallTrial<A>,
        next: RecallCell<A>,
        after: StdRng,
    ) -> bool {
        let d = key.len();
        &&& t.correct == is_recalled::<A>(t.cosine_sim)
        &&& next.context_len == self.context_len
        &&& next.method == self.method
        &&& exists|stream: Seq<Seq<A::T>>|
            {
                &&& stream.len() == self.context_len
                &&& #[trigger] draws_stream::<A>(before, d, stream, after)
                &&& match self.method {
                    RecallMethod::KvCache => {
                        &&& t.cosine_sim == cache_cosine::<A>(
                            stream,
                            t.insert_pos as int,
                            key,
                            value,
                        )
                        &&& t.memory_bytes == self.context_len * d * 2 * 4
                        &&& next.memory == self.memory
                    },
                    _ => {
                        &&& next.memory@ == self.memory@.emptied().streamed(
                            stream,
                            t.insert_pos as int,
                            key,
                            value,
                            self.context_len as nat,
                        ).adapted(key, value, self.method == RecallMethod::FastMemory)
                        &&& t.cosine_sim == next.memory@.recall_cosine(key, value)
                        &&& t.memory_bytes == (self.memory.k_fine + self.memory.k_coarse) * d * 4
                    },
                }
            }
    }

    /// Where the next trial puts its needle.
    pub fn draw_position(&self, rng: &mut StdRng) -> (insert_pos: usize)
        requires
            self.context_len > 0,
        ensures
            insert_pos < self.context_len,
            draws_up_to(*old(rng), (self.context_len - 1) as usize, insert_pos, *final(rng)),
    {
        draw_up_to(rng, self.context_len - 1)
    }

    /// Run a trial with the needle at a position.
    pub fn run_at(
        &mut self,
        insert_pos: usize,
        key: &[A::T],
        value: &[A::T],
        rng: &mut StdRng,
    ) -> (t: RecallTrial<A>)
        requires
            lawful::<A>(),
            old(self).wf(key@.len()),
            value@.len() == key@.len(),
            insert_pos < old(self).context_len,
        ensures
            final(self).wf(key@.len()),
            t.insert_pos == insert_pos,
            old(self).recalls(*old(rng), key@, value@, t, *final(self), *final(rng)),
    {
        let ghost (cell0, rng0) = (*self, *rng);
        let (correct, cosine_sim, memory_bytes) = match self.method {
            RecallMethod::KvCache => recall_trial_transformer_kv::<A>(
                self.context_len,
                insert_pos,
                key,
                value,
                rng,
            ),
            _ => recall_trial_mrm(
                &mut self.memory,
                self.context_len,
                insert_pos,
                key,
                value,
                rng,
                self.method == RecallMethod::FastMemory,
            ),
        };
        let t = RecallTrial { insert_pos, correct, cosine_sim, memory_bytes };
        proof {
            if cell0.method == RecallMethod::KvCache {
                let stream = choose|stream: Seq<Seq<A::T>>|
                    stream.len() == cell0.context_len && draws_stream::<A>(
                        rng0,
                        key@.len(),
                        stream,
                        *rng,
                    ) && cosine_sim == #[trigger] cache_cosine::<A>(
                        stream,
                        insert_pos as int,
                        key@,
                        value@,
                    );
                assert(draws_stream::<A>(rng0, key@.len(), stream, *rng));
            } else {
                let fast = cell0.method == RecallMethod::FastMemory;
                let stream = choose|stream: Seq<Seq<A::T>>|
                    stream.len() == cell0.context_len && draws_stream::<A>(
                        rng0,
                        key@.len(),
                        stream,
                        *rng,
                    ) && self.memory@ == #[trigger] cell0.memory@.emptied().streamed(
                        stream,
                        insert_pos as int,
                        key@,
                        value@,
                        cell0.context_len as nat,
                    ).adapted(key@, value@, fast);
                assert(draws_stream::<A>(rng0, key@.len(), stream, *rng));
            }
        }
        t
    }

    /// The record of a trial and the time that it took.
    pub fn record<B: Arith>(&self, t: RecallTrial<A>, latency_us: B::T) -> (r: RecallResult<A, B>)
        ensures
            r.context_len == self.context_len,
            r.method@ == match self.method {
                RecallMethod::KvCache => "Transformer KV Cache"@,
                RecallMethod::Memory => "FORGE MRM"@,
                RecallMethod::FastMemory => "FORGE MRM+FastWeights"@,
            },
            r.recall_correct == t.correct,
            r.best_cosine_sim == t.cosine_sim,
            r.latency_us == latency_us,
            r.memory_bytes == t.memory_bytes,
    {
        RecallResult {
            context_len: self.context_len,
            method: self.method.name().to_string(),
            recall_correct: t.correct,
            best_cosine_sim: t.cosine_sim,
            latency_us,
            memory_bytes: t.memory_bytes,
        }
    }
}

} // verus!
